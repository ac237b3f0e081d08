//! Chords that are bound to more than one action.

use vstd::prelude::*;

use crate::keybinds::{
    bind_views, chord_id, chord_key, chord_text, mod_names, render_chord, BindView, ConfigBind,
};
use crate::order::{
    lemma_text_irreflexive, lemma_text_total, lemma_text_transitive, text_before, text_is_before,
};
use crate::split::join;
use crate::text::{lower, lowered, owned, same_str, upper, uppered};

verus! {

/// A chord with the binds that disagree on it, in source order: the last one
/// wins.
#[derive(Debug, Clone, PartialEq, Eq)]
pub struct Conflict {
    pub chord: String,
    pub binds: Vec<ConfigBind>,
}

/// What a conflict says.
pub struct ConflictView {
    pub chord: Seq<char>,
    pub binds: Seq<BindView>,
}

impl View for Conflict {
    type V = ConflictView;

    open spec fn view(&self) -> ConflictView {
        ConflictView { chord: self.chord@, binds: bind_views(self.binds@) }
    }
}

pub open spec fn conflict_views(v: Seq<Conflict>) -> Seq<ConflictView> {
    v.map_values(|c: Conflict| c@)
}

pub open spec fn has_chord(b: BindView, k: (u16, Seq<char>)) -> bool {
    chord_key(b.modmask, b.key) == k
}

/// Whether two binds do the same thing.
pub open spec fn same_action(a: BindView, b: BindView) -> bool {
    a.dispatcher == b.dispatcher && a.arg == b.arg
}

/// Whether two binds of a chord do different things.
pub open spec fn disagree(binds: Seq<BindView>, k: (u16, Seq<char>)) -> bool {
    exists|i: int, j: int|
        #![trigger binds[i], binds[j]]
        0 <= i < binds.len() && 0 <= j < binds.len() && has_chord(binds[i], k) && has_chord(
            binds[j],
            k,
        ) && !same_action(binds[i], binds[j])
}

/// The binds of a chord, in order.
pub open spec fn group(binds: Seq<BindView>, k: (u16, Seq<char>)) -> Seq<BindView> {
    binds.filter(|b: BindView| has_chord(b, k))
}

/// The order of chords: by modifiers, then by key.
pub open spec fn key_before(a: (u16, Seq<char>), b: (u16, Seq<char>)) -> bool {
    a.0 < b.0 || (a.0 == b.0 && text_before(a.1, b.1))
}

/// Whether `keys` lists the chords that binds disagree on, each once, in order.
pub open spec fn is_disputed(binds: Seq<BindView>, keys: Seq<(u16, Seq<char>)>) -> bool {
    &&& forall|i: int, j: int|
        0 <= i < j < keys.len() ==> key_before(#[trigger] keys[i], #[trigger] keys[j])
    &&& forall|k: (u16, Seq<char>)| #[trigger] keys.contains(k) <==> disagree(binds, k)
}

/// The conflict over a chord.
pub open spec fn conflict_over(binds: Seq<BindView>, k: (u16, Seq<char>)) -> ConflictView {
    ConflictView { chord: chord_text(k.0, group(binds, k)[0].key), binds: group(binds, k) }
}

/// The views of a list of chords.
pub open spec fn keys_of(v: Seq<(u16, String)>) -> Seq<(u16, Seq<char>)> {
    v.map_values(|p: (u16, String)| (p.0, p.1@))
}

fn same_key(a: &(u16, String), b: &(u16, String)) -> (r: bool)
    ensures
        r == ((a.0, a.1@) == (b.0, b.1@)),
{
    a.0 == b.0 && same_str(a.1.as_str(), b.1.as_str())
}

/// Whether another bind of the chord of `binds[i]` does something else.
fn disputed(binds: &[ConfigBind], ids: &Vec<(u16, String)>, i: usize) -> (r: bool)
    requires
        i < binds@.len(),
        ids@.len() == binds@.len(),
        forall|j: int|
            0 <= j < binds@.len() ==> (ids@[j].0, ids@[j].1@) == chord_key(
                (#[trigger] binds@[j])@.modmask,
                binds@[j]@.key,
            ),
    ensures
        r == disagree(bind_views(binds@), (ids@[i as int].0, ids@[i as int].1@)),
{
    let ghost views = bind_views(binds@);
    let ghost k = (ids@[i as int].0, ids@[i as int].1@);
    let ghost me = binds@[i as int];
    assert(views[i as int] == binds@[i as int]@);
    let mut j: usize = 0;
    while j < binds.len()
        invariant
            i < binds@.len(),
            j <= binds@.len(),
            ids@.len() == binds@.len(),
            views == bind_views(binds@),
            k == (ids@[i as int].0, ids@[i as int].1@),
            has_chord(views[i as int], k),
            forall|m: int|
                0 <= m < binds@.len() ==> (ids@[m].0, ids@[m].1@) == chord_key(
                    (#[trigger] binds@[m])@.modmask,
                    binds@[m]@.key,
                ),
            forall|m: int|
                0 <= m < j && has_chord(#[trigger] views[m], k) ==> same_action(
                    views[i as int],
                    views[m],
                ),
        decreases binds.len() - j,
    {
        assert(views[j as int] == binds@[j as int]@);
        if same_key(&ids[i], &ids[j]) && !(same_str(
            binds[i].dispatcher.as_str(),
            binds[j].dispatcher.as_str(),
        ) && same_str(binds[i].arg.as_str(), binds[j].arg.as_str())) {
            assert(!same_action(views[i as int], views[j as int]));
            return true;
        }
        j = j + 1;
    }
    proof {
        if disagree(views, k) {
            let (a, b) = choose|a: int, b: int|
                #![trigger views[a], views[b]]
                0 <= a < views.len() && 0 <= b < views.len() && has_chord(views[a], k)
                    && has_chord(views[b], k) && !same_action(views[a], views[b]);
            assert(same_action(views[i as int], views[a]));
            assert(same_action(views[i as int], views[b]));
        }
    }
    false
}

proof fn lemma_key_order(a: (u16, Seq<char>), b: (u16, Seq<char>), c: (u16, Seq<char>))
    ensures
        !key_before(a, a),
        key_before(a, b) && key_before(b, c) ==> key_before(a, c),
        a == b || key_before(a, b) || key_before(b, a),
{
    lemma_text_irreflexive(a.1);
    lemma_text_total(a.1, b.1);
    if text_before(a.1, b.1) && text_before(b.1, c.1) {
        lemma_text_transitive(a.1, b.1, c.1);
    }
}

fn key_is_before(a: &(u16, String), b: &(u16, String)) -> (r: bool)
    ensures
        r == key_before((a.0, a.1@), (b.0, b.1@)),
{
    a.0 < b.0 || (a.0 == b.0 && text_is_before(a.1.as_str(), b.1.as_str()))
}

/// Puts a chord in its place, unless it is there.
fn insert_key(keys: &mut Vec<(u16, String)>, id: &(u16, String))
    requires
        forall|i: int, j: int|
            0 <= i < j < old(keys)@.len() ==> key_before(
                #[trigger] keys_of(old(keys)@)[i],
                #[trigger] keys_of(old(keys)@)[j],
            ),
    ensures
        forall|i: int, j: int|
            0 <= i < j < final(keys)@.len() ==> key_before(
                #[trigger] keys_of(final(keys)@)[i],
                #[trigger] keys_of(final(keys)@)[j],
            ),
        forall|k: (u16, Seq<char>)| #[trigger]
            keys_of(final(keys)@).contains(k) <==> keys_of(old(keys)@).contains(k) || k == (
                id.0,
                id.1@,
            ),
{
    let ghost before = keys_of(keys@);
    let ghost me = (id.0, id.1@);
    let mut i: usize = 0;
    while i < keys.len() && key_is_before(&keys[i], id)
        invariant
            i <= keys@.len(),
            before == keys_of(keys@),
            me == (id.0, id.1@),
            forall|j: int| 0 <= j < i ==> key_before(#[trigger] before[j], me),
        decreases keys.len() - i,
    {
        assert(before[i as int] == (keys@[i as int].0, keys@[i as int].1@));
        i = i + 1;
    }
    if i < keys.len() && same_key(&keys[i], id) {
        assert(before[i as int] == me);
        return;
    }
    let ghost was = keys@;
    keys.insert(i, (id.0, owned(id.1.as_str())));
    proof {
        let now = keys_of(keys@);
        assert(now == before.insert(i as int, me));
        assert forall|j: int| i <= j < before.len() implies key_before(
            me,
            #[trigger] before[j],
        ) by {
            assert(before[i as int] == (was[i as int].0, was[i as int].1@));
            lemma_key_order(me, before[i as int], before[j]);
            if j > i {
                assert(key_before(before[i as int], before[j]));
            }
        }
        assert forall|a: int, b: int| 0 <= a < b < now.len() implies key_before(
            #[trigger] now[a],
            #[trigger] now[b],
        ) by {
            if a < i && b > i {
                assert(now[a] == before[a] && now[b] == before[b - 1]);
                assert(key_before(before[a], before[b - 1]));
            } else if a < i && b < i {
                assert(now[a] == before[a] && now[b] == before[b]);
            } else if a < i {
                assert(now[a] == before[a]);
            } else if a == i {
                assert(now[b] == before[b - 1]);
            } else {
                assert(now[a] == before[a - 1] && now[b] == before[b - 1]);
            }
        }
        assert forall|k: (u16, Seq<char>)| #[trigger] now.contains(k) <==> before.contains(k) || k
            == me by {
            if now.contains(k) {
                let a = choose|a: int| 0 <= a < now.len() && now[a] == k;
                if a < i {
                    assert(before[a] == k);
                } else if a > i {
                    assert(before[a - 1] == k);
                }
            }
            if before.contains(k) {
                let a = choose|a: int| 0 <= a < before.len() && before[a] == k;
                if a < i {
                    assert(now[a] == k);
                } else {
                    assert(now[a + 1] == k);
                }
            }
            assert(now[i as int] == me);
        }
    }
}

/// The binds of one chord.
fn binds_of(binds: &[ConfigBind], ids: &Vec<(u16, String)>, id: &(u16, String)) -> (r: Vec<
    ConfigBind,
>)
    requires
        ids@.len() == binds@.len(),
        forall|j: int|
            0 <= j < binds@.len() ==> (ids@[j].0, ids@[j].1@) == chord_key(
                (#[trigger] binds@[j])@.modmask,
                binds@[j]@.key,
            ),
        disagree(bind_views(binds@), (id.0, id.1@)),
    ensures
        bind_views(r@) == group(bind_views(binds@), (id.0, id.1@)),
        r@.len() > 0,
{
    let ghost views = bind_views(binds@);
    let ghost k = (id.0, id.1@);
    let ghost f = |b: BindView| has_chord(b, k);
    let mut out: Vec<ConfigBind> = Vec::new();
    let mut i: usize = 0;
    assert(views.take(0) == Seq::<BindView>::empty());
    proof {
        reveal(Seq::filter);
    }
    assert(bind_views(out@) == views.take(0).filter(f));
    while i < binds.len()
        invariant
            i <= binds@.len(),
            ids@.len() == binds@.len(),
            views == bind_views(binds@),
            k == (id.0, id.1@),
            f == (|b: BindView| has_chord(b, k)),
            forall|j: int|
                0 <= j < binds@.len() ==> (ids@[j].0, ids@[j].1@) == chord_key(
                    (#[trigger] binds@[j])@.modmask,
                    binds@[j]@.key,
                ),
            bind_views(out@) == views.take(i as int).filter(f),
            forall|j: int| 0 <= j < i && has_chord(#[trigger] views[j], k) ==> out@.len() > 0,
        decreases binds.len() - i,
    {
        assert(views.take(i + 1).drop_last() == views.take(i as int));
        assert(views.take(i + 1).last() == binds@[i as int]@);
        assert(views[i as int] == binds@[i as int]@);
        proof {
            reveal(Seq::filter);
        }
        let ghost before = bind_views(out@);
        if same_key(&ids[i], id) {
            let b = binds[i].copied();
            out.push(b);
            assert(bind_views(out@) == before.push(b@));
        }
        i = i + 1;
    }
    assert(views.take(binds@.len() as int) == views);
    out
}

/// Finds the chords that are bound to more than one action. Binds that repeat
/// the same action are no conflict.
pub fn find_conflicts(binds: &[ConfigBind]) -> (r: Vec<Conflict>)
    ensures
        is_found(bind_views(binds@), conflict_views(r@)),
        forall|i: int, j: int|
            #![trigger binds@[i], binds@[j]]
            0 <= i < binds@.len() && 0 <= j < binds@.len() && binds@[i].modmask == binds@[j].modmask
                && lowered(binds@[i].key@) == lowered(binds@[j].key@) && (binds@[i].dispatcher@
                != binds@[j].dispatcher@ || binds@[i].arg@ != binds@[j].arg@) ==> exists|c: int|
                0 <= c < r@.len() && (#[trigger] r@[c])@.binds.contains(binds@[i]@)
                    && r@[c]@.binds.contains(binds@[j]@),
        exists|keys: Seq<(u16, Seq<char>)>| #[trigger]
            is_disputed(bind_views(binds@), keys) && conflict_views(r@) == keys.map_values(
                |k: (u16, Seq<char>)| conflict_over(bind_views(binds@), k),
            ),
{
    let ghost views = bind_views(binds@);
    let mut ids: Vec<(u16, String)> = Vec::new();
    let mut i: usize = 0;
    while i < binds.len()
        invariant
            i <= binds@.len(),
            ids@.len() == i,
            forall|j: int|
                0 <= j < i ==> (ids@[j].0, ids@[j].1@) == chord_key(
                    (#[trigger] binds@[j])@.modmask,
                    binds@[j]@.key,
                ),
        decreases binds.len() - i,
    {
        ids.push(chord_id(binds[i].modmask, binds[i].key.as_str()));
        i = i + 1;
    }
    let mut keys: Vec<(u16, String)> = Vec::new();
    let mut i: usize = 0;
    assert(keys_of(keys@) == Seq::<(u16, Seq<char>)>::empty());
    while i < binds.len()
        invariant
            i <= binds@.len(),
            ids@.len() == binds@.len(),
            views == bind_views(binds@),
            forall|j: int|
                0 <= j < binds@.len() ==> (ids@[j].0, ids@[j].1@) == chord_key(
                    (#[trigger] binds@[j])@.modmask,
                    binds@[j]@.key,
                ),
            forall|a: int, b: int|
                0 <= a < b < keys@.len() ==> key_before(
                    #[trigger] keys_of(keys@)[a],
                    #[trigger] keys_of(keys@)[b],
                ),
            forall|k: (u16, Seq<char>)| #[trigger]
                keys_of(keys@).contains(k) ==> disagree(views, k),
            forall|j: int|
                0 <= j < i && disagree(views, (ids@[j].0, ids@[j].1@)) ==> keys_of(keys@).contains(
                    (#[trigger] ids@[j].0, ids@[j].1@),
                ),
        decreases binds.len() - i,
    {
        if disputed(binds, &ids, i) {
            insert_key(&mut keys, &ids[i]);
        }
        i = i + 1;
    }
    proof {
        assert forall|k: (u16, Seq<char>)| #[trigger] keys_of(keys@).contains(k) <==> disagree(
            views,
            k,
        ) by {
            if disagree(views, k) {
                let (a, b) = choose|a: int, b: int|
                    #![trigger views[a], views[b]]
                    0 <= a < views.len() && 0 <= b < views.len() && has_chord(views[a], k)
                        && has_chord(views[b], k) && !same_action(views[a], views[b]);
                assert(views[a] == binds@[a]@);
                assert((ids@[a].0, ids@[a].1@) == k);
            }
        }
        assert(is_disputed(views, keys_of(keys@)));
    }
    let mut out: Vec<Conflict> = Vec::new();
    let mut i: usize = 0;
    while i < keys.len()
        invariant
            i <= keys@.len(),
            out@.len() == i,
            ids@.len() == binds@.len(),
            views == bind_views(binds@),
            is_disputed(views, keys_of(keys@)),
            forall|j: int|
                0 <= j < binds@.len() ==> (ids@[j].0, ids@[j].1@) == chord_key(
                    (#[trigger] binds@[j])@.modmask,
                    binds@[j]@.key,
                ),
            forall|j: int|
                0 <= j < i ==> (#[trigger] out@[j])@ == conflict_over(views, keys_of(keys@)[j]),
        decreases keys.len() - i,
    {
        let ghost k = keys_of(keys@)[i as int];
        assert(keys_of(keys@).contains(k));
        assert(k == (keys@[i as int].0, keys@[i as int].1@));
        let found = binds_of(binds, &ids, &keys[i]);
        assert(bind_views(found@)[0] == found@[0]@);
        let chord = render_chord(keys[i].0, found[0].key.as_str());
        out.push(Conflict { chord, binds: found });
        i = i + 1;
    }
    assert(conflict_views(out@) == keys_of(keys@).map_values(
        |k: (u16, Seq<char>)| conflict_over(views, k),
    ));
    proof {
        let found = conflict_views(out@);
        assert(is_found(views, found));
        assert forall|i: int, j: int|
            #![trigger binds@[i], binds@[j]]
            0 <= i < binds@.len() && 0 <= j < binds@.len() && binds@[i].modmask == binds@[j].modmask
                && lowered(binds@[i].key@) == lowered(binds@[j].key@) && (binds@[i].dispatcher@
                != binds@[j].dispatcher@ || binds@[i].arg@ != binds@[j].arg@) implies exists|c: int|
            0 <= c < out@.len() && (#[trigger] out@[c])@.binds.contains(binds@[i]@)
                && out@[c]@.binds.contains(binds@[j]@) by {
            assert(views[i] == binds@[i]@ && views[j] == binds@[j]@);
            law_different_actions_are_reported(views, found, i, j);
            let c = choose|c: int|
                0 <= c < found.len() && (#[trigger] found[c]).binds.contains(views[i])
                    && found[c].binds.contains(views[j]);
            assert(found[c] == out@[c]@);
        }
    }
    out
}

/// Binds that all do the same thing are never reported.
pub proof fn law_duplicates_are_no_conflict(binds: Seq<BindView>, k: (u16, Seq<char>))
    requires
        forall|i: int, j: int|
            #![trigger binds[i], binds[j]]
            0 <= i < binds.len() && 0 <= j < binds.len() && has_chord(binds[i], k) && has_chord(
                binds[j],
                k,
            ) ==> same_action(binds[i], binds[j]),
    ensures
        forall|keys: Seq<(u16, Seq<char>)>| #[trigger]
            is_disputed(binds, keys) ==> !keys.contains(k),
{
}

// ------------------------------------------------------------------------- laws

/// Whether conflicts are those that are found among some binds.
pub open spec fn is_found(binds: Seq<BindView>, found: Seq<ConflictView>) -> bool {
    exists|keys: Seq<(u16, Seq<char>)>| #[trigger]
        is_disputed(binds, keys) && found == keys.map_values(
            |k: (u16, Seq<char>)| conflict_over(binds, k),
        )
}

/// Keys that are the same but for case are the same chord, and only those are.
proof fn lemma_same_chord(a: BindView, b: BindView)
    ensures
        chord_key(a.modmask, a.key) == chord_key(b.modmask, b.key) <==> a.modmask == b.modmask
            && lowered(a.key) == lowered(b.key),
{
    if lowered(a.key) == lowered(b.key) {
        assert(a.key.len() == lowered(a.key).len() && b.key.len() == lowered(b.key).len());
        assert forall|i: int| 0 <= i < a.key.len() implies uppered(a.key)[i] == uppered(b.key)[i] by {
            assert(lowered(a.key)[i] == lower(a.key[i]));
            assert(lowered(b.key)[i] == lower(b.key[i]));
        }
        assert(uppered(a.key) =~= uppered(b.key));
    }
    if uppered(a.key) == uppered(b.key) {
        assert(a.key.len() == uppered(a.key).len() && b.key.len() == uppered(b.key).len());
        assert forall|i: int| 0 <= i < a.key.len() implies lowered(a.key)[i] == lowered(b.key)[i] by {
            assert(uppered(a.key)[i] == upper(a.key[i]));
            assert(uppered(b.key)[i] == upper(b.key[i]));
        }
        assert(lowered(a.key) =~= lowered(b.key));
    }
}

proof fn lemma_group_holds(binds: Seq<BindView>, k: (u16, Seq<char>), i: int)
    requires
        0 <= i < binds.len(),
        has_chord(binds[i], k),
    ensures
        group(binds, k).contains(binds[i]),
    decreases binds.len(),
{
    reveal(Seq::filter);
    let front = binds.drop_last();
    let all = group(binds, k);
    if i < front.len() {
        lemma_group_holds(front, k, i);
        let j = choose|j: int| 0 <= j < group(front, k).len() && group(front, k)[j] == front[i];
        assert(all[j] == binds[i]);
    } else {
        assert(all.last() == binds[i]);
        assert(all[all.len() - 1] == binds[i]);
    }
}

proof fn lemma_group_part(binds: Seq<BindView>, k: (u16, Seq<char>))
    ensures
        forall|i: int|
            0 <= i < group(binds, k).len() ==> has_chord(#[trigger] group(binds, k)[i], k)
                && binds.contains(group(binds, k)[i]),
    decreases binds.len(),
{
    reveal(Seq::filter);
    if binds.len() > 0 {
        let front = binds.drop_last();
        lemma_group_part(front, k);
        let before = group(front, k);
        let all = group(binds, k);
        assert forall|i: int| 0 <= i < all.len() implies has_chord(#[trigger] all[i], k)
            && binds.contains(all[i]) by {
            if i < before.len() {
                assert(all[i] == before[i]);
                let j = choose|j: int| 0 <= j < front.len() && front[j] == before[i];
                assert(binds[j] == all[i]);
            } else {
                assert(binds[binds.len() - 1] == all[i]);
            }
        }
    }
}

/// Two binds on the same modifiers and the same key, whatever its case, that call
/// another dispatcher or give it another argument are reported, in one conflict
/// that holds both.
pub proof fn law_different_actions_are_reported(
    binds: Seq<BindView>,
    found: Seq<ConflictView>,
    i: int,
    j: int,
)
    requires
        is_found(binds, found),
        0 <= i < binds.len(),
        0 <= j < binds.len(),
        binds[i].modmask == binds[j].modmask,
        lowered(binds[i].key) == lowered(binds[j].key),
        binds[i].dispatcher != binds[j].dispatcher || binds[i].arg != binds[j].arg,
    ensures
        exists|c: int|
            0 <= c < found.len() && (#[trigger] found[c]).binds.contains(binds[i])
                && found[c].binds.contains(binds[j]),
{
    let keys = choose|keys: Seq<(u16, Seq<char>)>| #[trigger]
        is_disputed(binds, keys) && found == keys.map_values(
            |k: (u16, Seq<char>)| conflict_over(binds, k),
        );
    let k = chord_key(binds[i].modmask, binds[i].key);
    lemma_same_chord(binds[i], binds[j]);
    assert(has_chord(binds[i], k) && has_chord(binds[j], k));
    assert(disagree(binds, k));
    assert(keys.contains(k));
    let c = choose|c: int| 0 <= c < keys.len() && keys[c] == k;
    lemma_group_holds(binds, k, i);
    lemma_group_holds(binds, k, j);
    assert(found[c] == conflict_over(binds, k));
}

/// Every conflict that is reported is one: its binds are of the given ones, share
/// their modifiers and their key but for case, and two of them call different
/// dispatchers or give different arguments. No bind of the chord is left out, and
/// no other conflict is about the same chord.
pub proof fn law_reported_conflicts_are_real(
    binds: Seq<BindView>,
    found: Seq<ConflictView>,
    c: int,
)
    requires
        is_found(binds, found),
        0 <= c < found.len(),
    ensures
        ({
            let all = found[c].binds;
            &&& all.len() >= 2
            &&& forall|i: int| 0 <= i < all.len() ==> binds.contains(#[trigger] all[i])
            &&& forall|i: int|
                0 <= i < all.len() ==> (#[trigger] all[i]).modmask == all[0].modmask && lowered(
                    all[i].key,
                ) == lowered(all[0].key)
            &&& exists|i: int, j: int|
                #![trigger all[i], all[j]]
                0 <= i < all.len() && 0 <= j < all.len() && (all[i].dispatcher != all[j].dispatcher
                    || all[i].arg != all[j].arg)
            &&& all == binds.filter(
                |b: BindView|
                    b.modmask == all[0].modmask && lowered(b.key) == lowered(all[0].key),
            )
            &&& forall|d: int|
                0 <= d < found.len() && d != c ==> (#[trigger] found[d]).binds[0].modmask
                    != all[0].modmask || lowered(found[d].binds[0].key) != lowered(all[0].key)
        }),
{
    let keys = choose|keys: Seq<(u16, Seq<char>)>| #[trigger]
        is_disputed(binds, keys) && found == keys.map_values(
            |k: (u16, Seq<char>)| conflict_over(binds, k),
        );
    let k = keys[c];
    assert(keys.contains(k));
    let all = found[c].binds;
    assert(all == group(binds, k));
    lemma_group_part(binds, k);
    let (a, b) = choose|a: int, b: int|
        #![trigger binds[a], binds[b]]
        0 <= a < binds.len() && 0 <= b < binds.len() && has_chord(binds[a], k) && has_chord(
            binds[b],
            k,
        ) && !same_action(binds[a], binds[b]);
    lemma_group_holds(binds, k, a);
    lemma_group_holds(binds, k, b);
    let i = choose|i: int| 0 <= i < all.len() && all[i] == binds[a];
    let j = choose|j: int| 0 <= j < all.len() && all[j] == binds[b];
    assert(all[i].dispatcher != all[j].dispatcher || all[i].arg != all[j].arg);
    assert forall|i: int| 0 <= i < all.len() implies (#[trigger] all[i]).modmask == all[0].modmask
        && lowered(all[i].key) == lowered(all[0].key) by {
        lemma_same_chord(all[i], all[0]);
    }
    assert forall|d: int| 0 <= d < found.len() && d != c implies (#[trigger] found[d]).binds[0].modmask
        != all[0].modmask || lowered(found[d].binds[0].key) != lowered(all[0].key) by {
        let other = keys[d];
        assert(keys.contains(other));
        lemma_group_part(binds, other);
        let (x, y) = choose|x: int, y: int|
            #![trigger binds[x], binds[y]]
            0 <= x < binds.len() && 0 <= y < binds.len() && has_chord(binds[x], other)
                && has_chord(binds[y], other) && !same_action(binds[x], binds[y]);
        lemma_group_holds(binds, other, x);
        assert(found[d].binds == group(binds, other));
        lemma_same_chord(found[d].binds[0], all[0]);
        lemma_key_order(k, other, k);
        if d < c {
            assert(key_before(keys[d], keys[c]));
        } else {
            assert(key_before(keys[c], keys[d]));
        }
    }
    lemma_group_is(binds, k, all[0]);
}

proof fn lemma_group_is(binds: Seq<BindView>, k: (u16, Seq<char>), one: BindView)
    requires
        has_chord(one, k),
    ensures
        group(binds, k) == binds.filter(
            |b: BindView| b.modmask == one.modmask && lowered(b.key) == lowered(one.key),
        ),
    decreases binds.len(),
{
    reveal(Seq::filter);
    if binds.len() > 0 {
        lemma_group_is(binds.drop_last(), k, one);
        lemma_same_chord(binds.last(), one);
    }
}

/// A conflict is named after the modifiers that its binds share and after the key
/// as the first of them spells it, where it has one.
pub proof fn law_conflict_is_named_by_its_chord(
    binds: Seq<BindView>,
    found: Seq<ConflictView>,
    c: int,
)
    requires
        is_found(binds, found),
        0 <= c < found.len(),
        found[c].binds[0].key.len() > 0,
    ensures
        found[c].chord == join(
            mod_names(found[c].binds[0].modmask).push(found[c].binds[0].key),
            "+"@,
        ),
{
    law_reported_conflicts_are_real(binds, found, c);
    let keys = choose|keys: Seq<(u16, Seq<char>)>| #[trigger]
        is_disputed(binds, keys) && found == keys.map_values(
            |k: (u16, Seq<char>)| conflict_over(binds, k),
        );
    lemma_group_part(binds, keys[c]);
    assert(has_chord(found[c].binds[0], keys[c]));
}

} // verus!
