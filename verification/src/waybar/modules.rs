//! The catalog of modules as it is looked things up in.

use vstd::prelude::*;

use crate::engine::{Component, EditView, ReloadStep, Verification};
use crate::text::{ends_with, starts_with};
use crate::waybar::{
    Group, ModuleView, catalog, found_module, group_of, module_label, module_of,
    watched_plan,
};

verus! {

proof fn lemma_module_of(all: Seq<ModuleView>, id: Seq<char>)
    ensures
        match module_of(all, id) {
            Some(m) => m.id == id && all.contains(m),
            None => forall|i: int| 0 <= i < all.len() ==> (#[trigger] all[i]).id != id,
        },
    decreases all.len(),
{
    if all.len() > 0 {
        let more = all.skip(1);
        lemma_module_of(more, id);
        if all[0].id == id {
            assert(all.contains(all[0]));
        } else {
            match module_of(more, id) {
                Some(m) => {
                    let i = choose|i: int| 0 <= i < more.len() && more[i] == m;
                    assert(all[i + 1] == m);
                },
                None => {
                    assert forall|i: int| 0 <= i < all.len() implies (#[trigger] all[i]).id
                        != id by {
                        if i > 0 {
                            assert(more[i - 1] == all[i]);
                        }
                    }
                },
            }
        }
    }
}

/// A module is found by its own id. One of the user's own that the catalog does
/// not have is found as what the catalog has for its family, and what is of no
/// family is not found.
pub proof fn law_modules_are_found_by_id(id: Seq<char>)
    ensures
        match found_module(id) {
            Some(m) => catalog().contains(m) && (m.id == id || m.id == "custom/*"@ && starts_with(
                id,
                "custom/"@,
            ) || m.id == "group/*"@ && starts_with(id, "group/"@)),
            None => forall|i: int| 0 <= i < catalog().len() ==> (#[trigger] catalog()[i]).id != id,
        },
        forall|i: int|
            0 <= i < catalog().len() && (#[trigger] catalog()[i]).id == id ==> (found_module(
                id,
            ) matches Some(m) && m.id == id),
{
    lemma_module_of(catalog(), id);
    lemma_module_of(catalog(), "custom/*"@);
    lemma_module_of(catalog(), "group/*"@);
}

/// A module of the catalog is shown by its label, and one of the user's own, or
/// one that is not known, by its id.
pub proof fn law_own_modules_are_shown_by_id(id: Seq<char>)
    ensures
        found_module(id) is None ==> module_label(id) == id,
        found_module(id) matches Some(m) && m.id == id && !ends_with(id, "/*"@) ==> module_label(id)
            == found_module(id)->0.label,
        found_module(id) matches Some(m) && m.id != id ==> module_label(id) == id,
{
    law_modules_are_found_by_id(id);
    reveal_strlit("/*");
    reveal_strlit("custom/*");
    reveal_strlit("group/*");
    assert("custom/*"@.skip(6) =~= "/*"@);
    assert("group/*"@.skip(5) =~= "/*"@);
}

/// The modules of a group are those of the catalog that belong to it, each of
/// them and no other.
pub proof fn law_groups_hold_their_modules(all: Seq<ModuleView>, g: Group, m: ModuleView)
    ensures
        group_of(all, g).contains(m) <==> all.contains(m) && m.group == g,
    decreases all.len(),
{
    if all.len() > 0 {
        let front = all.drop_last();
        let was = group_of(front, g);
        let now = group_of(all, g);
        law_groups_hold_their_modules(front, g, m);
        assert(all =~= front.push(all.last()));
        if now.contains(m) {
            let i = choose|i: int| 0 <= i < now.len() && now[i] == m;
            if i < was.len() {
                assert(was[i] == m);
                let k = choose|k: int| 0 <= k < front.len() && front[k] == m;
                assert(all[k] == m);
            } else {
                assert(all[all.len() - 1] == m);
            }
        }
        if all.contains(m) && m.group == g {
            let k = choose|k: int| 0 <= k < all.len() && all[k] == m;
            if k < front.len() {
                assert(front[k] == m);
                let i = choose|i: int| 0 <= i < was.len() && was[i] == m;
                assert(now[i] == m);
            } else {
                assert(now[now.len() - 1] == m);
            }
        }
    }
}

/// A config is written whether or not the bar runs. Only a bar that runs is
/// started again, and it is looked for after the time that was given.
pub proof fn law_running_bar_is_watched(edit: EditView, was_alive: bool, settle_ms: u64)
    ensures
        ({
            let p = watched_plan(edit, was_alive, settle_ms);
            &&& p.edits.len() == 1 && p.edits[0] == edit
            &&& p.reload.contains(ReloadStep::Restart(Component::Waybar)) <==> was_alive
            &&& p.verify.contains(
                Verification::ProcessAlive { component: Component::Waybar, grace_ms: settle_ms },
            ) <==> was_alive
            &&& !was_alive ==> p.reload.len() == 0 && p.verify.len() == 0
            &&& was_alive ==> p.reload.len() == 1 && p.verify.len() == 1
        }),
{
    let p = watched_plan(edit, was_alive, settle_ms);
    if was_alive {
        assert(p.reload[0] == ReloadStep::Restart(Component::Waybar));
        assert(p.verify[0] == Verification::ProcessAlive {
            component: Component::Waybar,
            grace_ms: settle_ms,
        });
    }
}

} // verus!
