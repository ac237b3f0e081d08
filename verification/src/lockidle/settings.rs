//! What the lock screen's settings and pictures come to.

use vstd::prelude::*;

use crate::configfs::hyprlang::{law_set_then_get, value_at};
use crate::decimal::{fixed_text, lemma_fixed_reads_back, micros_of, parse_number};
use crate::lockidle::hyprlock::{
    avatar_name, avatars_in, backup_dir, first_free, is_avatar, is_free, kind_of, lands_at, with_avatar,
    with_avatar_size, with_blur_passes, with_dim,
};
use crate::number::{digits, lemma_digits, lemma_parse_of_text, parse_i64};
use crate::order::{
    lemma_onto, lemma_text_irreflexive, lemma_text_order_is, lemma_text_transitive, text_before,
};
use crate::paths::{join as path_join, law_joined_name_is_the_files_name};
use crate::rice::laws::lemma_text_order_exists;
use crate::split::is_trimmed;
use crate::text::{ends_with, is_space, starts_with};
use crate::wallhaven::queries::lemma_last_dot;

verus! {

/// Whether lines give the keys of one of two files but `key` as the other does.
pub open spec fn alike_but_for(
    was: Seq<Seq<char>>,
    now: Seq<Seq<char>>,
    key: Seq<char>,
) -> bool {
    forall|other: Seq<char>|
        other != key ==> #[trigger] value_at(now, other) == value_at(was, other)
}

/// The picture that is set is the one that is read, and nothing else changes.
pub proof fn law_set_picture_is_read(lines: Seq<Seq<char>>, path: Seq<char>)
    requires
        is_trimmed(path),
        value_at(lines, "image.path"@) is Some,
    ensures
        value_at(with_avatar(lines, path), "image.path"@) == Some(path),
        alike_but_for(lines, with_avatar(lines, path), "image.path"@),
{
    law_set_then_get(lines, "image.path"@, path, "image.path"@);
    assert forall|other: Seq<char>| other != "image.path"@ implies #[trigger] value_at(
        with_avatar(lines, path),
        other,
    ) == value_at(lines, other) by {
        law_set_then_get(lines, "image.path"@, path, other);
    }
}

/// The size that is set is the number that is read, and nothing else changes.
pub proof fn law_set_size_is_read(lines: Seq<Seq<char>>, px: i64)
    requires
        value_at(lines, "image.size"@) is Some,
    ensures
        value_at(with_avatar_size(lines, px), "image.size"@) matches Some(t) && parse_i64(t)
            == Some(px),
        alike_but_for(lines, with_avatar_size(lines, px), "image.size"@),
{
    lemma_parse_of_text(px as int);
    let t = crate::number::int_text(px as int);
    assert(is_trimmed(t));
    law_set_then_get(lines, "image.size"@, t, "image.size"@);
    assert forall|other: Seq<char>| other != "image.size"@ implies #[trigger] value_at(
        with_avatar_size(lines, px),
        other,
    ) == value_at(lines, other) by {
        law_set_then_get(lines, "image.size"@, t, other);
    }
}

/// The blur that is set is the number that is read, and nothing else changes.
pub proof fn law_set_blur_is_read(lines: Seq<Seq<char>>, n: i64)
    requires
        value_at(lines, "background.blur_passes"@) is Some,
    ensures
        value_at(with_blur_passes(lines, n), "background.blur_passes"@) matches Some(t)
            && parse_i64(t) == Some(n),
        alike_but_for(lines, with_blur_passes(lines, n), "background.blur_passes"@),
{
    lemma_parse_of_text(n as int);
    let t = crate::number::int_text(n as int);
    assert(is_trimmed(t));
    law_set_then_get(lines, "background.blur_passes"@, t, "background.blur_passes"@);
    assert forall|other: Seq<char>| other != "background.blur_passes"@ implies #[trigger] value_at(
        with_blur_passes(lines, n),
        other,
    ) == value_at(lines, other) by {
        law_set_then_get(lines, "background.blur_passes"@, t, other);
    }
}

/// The brightness that is set, in whole hundredths, is the number that is read,
/// and nothing else changes.
pub proof fn law_set_brightness_is_read(lines: Seq<Seq<char>>, level: i64)
    requires
        value_at(lines, "background.brightness"@) is Some,
        level % 10000 == 0,
    ensures
        value_at(with_dim(lines, level), "background.brightness"@) matches Some(t) && (
        parse_number(t) matches Some(n) && micros_of(n) == level),
        alike_but_for(lines, with_dim(lines, level), "background.brightness"@),
{
    lemma_fixed_reads_back(level);
    let t = fixed_text(level as int);
    assert(!is_space('-') && !is_space('.'));
    assert(is_trimmed(t));
    law_set_then_get(lines, "background.brightness"@, t, "background.brightness"@);
    assert forall|other: Seq<char>| other != "background.brightness"@ implies #[trigger] value_at(
        with_dim(lines, level),
        other,
    ) == value_at(lines, other) by {
        law_set_then_get(lines, "background.brightness"@, t, other);
    }
}

/// A picture never takes the place of another: its name is not taken, keeps
/// the picture's own, and ends in its kind. A name that is free is kept as it is.
pub proof fn law_pictures_are_not_overwritten(
    dir: Seq<char>,
    taken: Seq<Seq<char>>,
    stem: Seq<char>,
    kind: Seq<char>,
    dest: Seq<char>,
)
    requires
        lands_at(dir, taken, stem, kind, dest),
    ensures
        exists|name: Seq<char>|
            dest == #[trigger] path_join(dir, name) && !taken.contains(name) && starts_with(
                name,
                stem,
            ) && ends_with(name, "."@ + kind),
        !taken.contains(stem + "."@ + kind) ==> dest == path_join(dir, stem + "."@ + kind),
{
    let n = choose|n: nat| #[trigger]
        first_free(taken, stem, kind, n) && dest == path_join(dir, avatar_name(stem, kind, n));
    let name = avatar_name(stem, kind, n);
    assert(name.take(stem.len() as int) == stem);
    let tail = "."@ + kind;
    assert(name.skip(name.len() - tail.len()) == tail);
    assert(is_free(taken, name));
    if !taken.contains(stem + "."@ + kind) && n > 1 {
        assert(avatar_name(stem, kind, 1) == stem + "."@ + kind);
        assert(is_free(taken, avatar_name(stem, kind, 1)));
    }
}

/// Whether a file is an image is told by what it begins with: nothing behind
/// the first twelve bytes changes it.
pub proof fn law_images_are_told_by_their_head(head: Seq<u8>, more: Seq<u8>)
    requires
        head.len() >= 12,
    ensures
        kind_of(head + more) == kind_of(head),
{
    assert((head + more).take(4) =~= head.take(4));
    assert((head + more).take(3) =~= head.take(3));
    assert((head + more).subrange(8, 12) =~= head.subrange(8, 12));
}

/// The stock file is kept once: beside the file and under a name that is known
/// again, so that no save behind it keeps another.
pub proof fn law_backup_is_made_once(
    file: Seq<char>,
    siblings: Seq<Seq<char>>,
    epoch: nat,
    later: nat,
)
    ensures
        backup_dir(file, siblings, epoch) is Some ==> exists|name: Seq<char>|
            #![trigger path_join(file, name)]
            (exists|dir: Seq<char>|
                backup_dir(file, siblings, epoch) == Some(#[trigger] path_join(dir, name)))
                && ends_with(name, digits(epoch)) && backup_dir(
                file,
                siblings.push(name),
                later,
            ) is None,
        backup_dir(file, Seq::empty(), epoch) is Some,
{
    let prefix = "lock-screen-backup."@;
    let name = prefix + digits(epoch);
    let now = siblings.push(name);
    assert(name.take(prefix.len() as int) == prefix);
    assert(now[now.len() - 1] == name);
    assert(starts_with(now[now.len() - 1], prefix));
    assert(name.skip(name.len() - digits(epoch).len()) == digits(epoch));
    let at = path_join(file, name);
}

/// Whatever picture can be imported is then among those that are offered.
pub proof fn law_imported_pictures_are_offered(
    dir: Seq<char>,
    head: Seq<u8>,
    stem: Seq<char>,
    n: nat,
)
    requires
        kind_of(head) is Some,
        stem.len() > 0,
        forall|i: int| 0 <= i < stem.len() ==> stem[i] != '/',
    ensures
        is_avatar(path_join(dir, avatar_name(stem, kind_of(head)->0, n))),
{
    reveal_strlit("png");
    reveal_strlit("jpg");
    reveal_strlit("webp");
    reveal_strlit(".");
    reveal_strlit("-");
    let kind = kind_of(head)->0;
    let own = if n < 2 {
        stem
    } else {
        stem + "-"@ + digits(n)
    };
    let name = avatar_name(stem, kind, n);
    assert(name == own + "."@ + kind);
    lemma_digits(n);
    assert forall|i: int| 0 <= i < name.len() implies name[i] != '/' by {
        if i < stem.len() {
            assert(name[i] == stem[i]);
        } else if i >= own.len() + 1 {
            assert(name[i] == kind[i - own.len() - 1]);
        } else if n >= 2 && stem.len() + 1 <= i < own.len() {
            assert(name[i] == digits(n)[i - stem.len() - 1]);
        }
    }
    law_joined_name_is_the_files_name(dir, name);
    lemma_last_dot(own, kind);
    assert(name.skip(own.len() as int + 1) == kind);
}

/// The pictures that are offered are the images of the directory, each of
/// them, by path.
pub proof fn law_images_are_offered_by_path(files: Seq<Seq<char>>)
    ensures
        forall|p: Seq<char>| #[trigger]
            avatars_in(files).contains(p) <==> files.contains(p) && is_avatar(p),
        forall|i: int, j: int|
            0 <= i < j < avatars_in(files).len() ==> !text_before(
                #[trigger] avatars_in(files)[j],
                #[trigger] avatars_in(files)[i],
            ),
{
    let f = |p: Seq<char>| is_avatar(p);
    let images = files.filter(f);
    let order = lemma_text_order_exists(images);
    lemma_text_order_is(images, order);
    let all = avatars_in(files);
    assert(all == order.map_values(|i: int| images[i]));
    assert forall|i: int, j: int| 0 <= i < j < order.len() implies order[i] != order[j] by {
        lemma_text_irreflexive(images[order[i]]);
    }
    assert forall|p: Seq<char>| #[trigger] all.contains(p) <==> files.contains(p) && is_avatar(
        p,
    ) by {
        if all.contains(p) {
            let k = choose|k: int| 0 <= k < all.len() && all[k] == p;
            assert(images[order[k]] == p);
            files.lemma_filter_contains_rev(f, p);
            files.lemma_filter_pred(f, order[k]);
        }
        if files.contains(p) && is_avatar(p) {
            let i = choose|i: int| 0 <= i < files.len() && files[i] == p;
            files.lemma_filter_contains(f, i);
            let a = choose|a: int| 0 <= a < images.len() && images[a] == p;
            lemma_onto(order, a);
            let k = choose|k: int| 0 <= k < order.len() && order[k] == a;
            assert(all[k] == p);
        }
    }
    assert forall|i: int, j: int| 0 <= i < j < all.len() implies !text_before(
        #[trigger] all[j],
        #[trigger] all[i],
    ) by {
        let (a, b) = (images[order[i]], images[order[j]]);
        assert(all[i] == a && all[j] == b);
        lemma_text_irreflexive(a);
        if text_before(b, a) && text_before(a, b) {
            lemma_text_transitive(a, b, a);
        }
    }
}

} // verus!
