//! Slash-separated paths as texts, and the directories Omarchy keeps.

use vstd::prelude::*;

use crate::split::{
    joined, lemma_join_of_split, lemma_split_cons, lemma_split_none, pieces, split,
};
use crate::text::{
    chars, front, holds, lemma_pos_from, opt_text, owned, pos, rest, same, slices, string,
    strip_trailing, texts, without_trailing,
};

verus! {

/// `base` followed by `tail`, with one slash between them. An absolute tail
/// replaces the base.
pub open spec fn join(base: Seq<char>, tail: Seq<char>) -> Seq<char> {
    if tail.len() > 0 && tail[0] == '/' {
        tail
    } else if base.len() == 0 || base.last() == '/' {
        base + tail
    } else {
        base.push('/') + tail
    }
}

pub fn joined_path(base: &str, tail: &str) -> (r: String)
    ensures
        r@ == join(base@, tail@),
{
    let b = chars(base);
    let t = chars(tail);
    if t.len() > 0 && t[0] == '/' {
        return owned(tail);
    }
    let mut out = owned(base);
    if b.len() > 0 && b[b.len() - 1] != '/' {
        out.push('/');
    }
    out.append(tail);
    out
}

/// The position of the last slash, or `-1`.
pub open spec fn last_slash(s: Seq<char>) -> int
    decreases s.len(),
{
    if s.len() == 0 {
        -1
    } else if s.last() == '/' {
        s.len() - 1
    } else {
        last_slash(s.drop_last())
    }
}

/// The directory that holds the last part of a path; the root and the empty
/// path have none.
pub open spec fn parent(path: Seq<char>) -> Option<Seq<char>> {
    let s = strip_trailing(path, '/');
    let k = last_slash(s);
    if s.len() == 0 {
        None
    } else if k < 0 {
        Some(Seq::empty())
    } else {
        let dir = strip_trailing(s.take(k), '/');
        Some(
            if dir.len() == 0 {
                seq!['/']
            } else {
                dir
            },
        )
    }
}

/// The last part of a path, with no slash in it.
pub open spec fn file_name(path: Seq<char>) -> Seq<char> {
    let s = strip_trailing(path, '/');
    s.skip(last_slash(s) + 1)
}

/// One past the last slash, or zero.
fn after_last_slash(s: &[char]) -> (r: usize)
    ensures
        r == last_slash(s@) + 1,
        r <= s@.len(),
{
    let mut n: usize = s.len();
    assert(s@.take(n as int) == s@);
    while n > 0 && s[n - 1] != '/'
        invariant
            n <= s@.len(),
            last_slash(s@) == last_slash(s@.take(n as int)),
        decreases n,
    {
        assert(s@.take(n as int).drop_last() == s@.take(n - 1));
        n = n - 1;
    }
    n
}

pub fn parent_of(path: &str) -> (r: Option<String>)
    ensures
        match r {
            Some(p) => parent(path@) == Some(p@),
            None => parent(path@) is None,
        },
{
    let all = chars(path);
    let s = without_trailing(all.as_slice(), '/');
    if s.len() == 0 {
        return None;
    }
    let k = after_last_slash(s);
    if k == 0 {
        let none: String = String::new();
        assert(none@ == Seq::<char>::empty());
        return Some(none);
    }
    let dir = without_trailing(front(s, k - 1), '/');
    if dir.len() == 0 {
        let mut root: String = String::new();
        root.push('/');
        assert(root@ == seq!['/']);
        Some(root)
    } else {
        Some(string(dir))
    }
}

pub fn name_of(path: &str) -> (r: String)
    ensures
        r@ == file_name(path@),
{
    let all = chars(path);
    let s = without_trailing(all.as_slice(), '/');
    let k = after_last_slash(s);
    string(rest(s, k))
}

/// The part of a file name behind its last dot. A name whose only dot is in
/// front has none.
pub open spec fn extension(name: Seq<char>) -> Option<Seq<char>> {
    let k = last_dot(name);
    if k <= 0 || name == seq!['.', '.'] {
        None
    } else {
        Some(name.skip(k + 1))
    }
}

/// The file name in front of its extension.
pub open spec fn stem(name: Seq<char>) -> Seq<char> {
    let k = last_dot(name);
    if k <= 0 || name == seq!['.', '.'] {
        name
    } else {
        name.take(k)
    }
}

/// The position of the last dot, or `-1`.
pub open spec fn last_dot(s: Seq<char>) -> int
    decreases s.len(),
{
    if s.len() == 0 {
        -1
    } else if s.last() == '.' {
        s.len() - 1
    } else {
        last_dot(s.drop_last())
    }
}

/// One past the last dot, or zero.
pub fn after_last_dot(s: &[char]) -> (r: usize)
    ensures
        r == last_dot(s@) + 1,
        r <= s@.len(),
{
    let mut n: usize = s.len();
    assert(s@.take(n as int) == s@);
    while n > 0 && s[n - 1] != '.'
        invariant
            n <= s@.len(),
            last_dot(s@) == last_dot(s@.take(n as int)),
        decreases n,
    {
        assert(s@.take(n as int).drop_last() == s@.take(n - 1));
        n = n - 1;
    }
    n
}

pub fn extension_of(name: &str) -> (r: Option<String>)
    ensures
        match r {
            Some(e) => extension(name@) == Some(e@),
            None => extension(name@) is None,
        },
{
    let s = chars(name);
    let k = after_last_dot(s.as_slice());
    if k <= 1 || (s.len() == 2 && s[0] == '.' && s[1] == '.') {
        proof {
            if s@.len() == 2 && s@[0] == '.' && s@[1] == '.' {
                assert(s@ == seq!['.', '.']);
            }
        }
        None
    } else {
        assert(name@ != seq!['.', '.']);
        Some(string(rest(s.as_slice(), k)))
    }
}

pub fn stem_of(name: &str) -> (r: String)
    ensures
        r@ == stem(name@),
{
    let s = chars(name);
    let k = after_last_dot(s.as_slice());
    if k <= 1 || (s.len() == 2 && s[0] == '.' && s[1] == '.') {
        proof {
            if s@.len() == 2 && s@[0] == '.' && s@[1] == '.' {
                assert(s@ == seq!['.', '.']);
            }
        }
        owned(name)
    } else {
        assert(name@ != seq!['.', '.']);
        string(front(s.as_slice(), k - 1))
    }
}

/// A leading `~` stands for the home directory where it is the whole path or
/// a slash follows it.
pub open spec fn expand_tilde(path: Seq<char>, home: Seq<char>) -> Seq<char> {
    if path == seq!['~'] {
        home
    } else if path.len() >= 2 && path[0] == '~' && path[1] == '/' {
        join(home, path.skip(2))
    } else {
        path
    }
}

pub fn expanded(path: &str, home: &str) -> (r: String)
    ensures
        r@ == expand_tilde(path@, home@),
{
    let s = chars(path);
    if s.len() == 1 && s[0] == '~' {
        assert(path@ == seq!['~']);
        return owned(home);
    }
    if s.len() >= 2 && s[0] == '~' && s[1] == '/' {
        let tail = string(rest(s.as_slice(), 2));
        return joined_path(home, tail.as_str());
    }
    owned(path)
}

// -------------------------------------------------------------------- parts

/// A piece of a path that names nothing.
pub open spec fn is_filler(piece: Seq<char>) -> bool {
    piece.len() == 0 || piece == seq!['.']
}

pub fn filler(piece: &[char]) -> (r: bool)
    ensures
        r == is_filler(piece@),
{
    let r = piece.len() == 0 || (piece.len() == 1 && piece[0] == '.');
    proof {
        if piece@.len() == 1 && piece@[0] == '.' {
            assert(piece@ == seq!['.']);
        }
    }
    r
}

/// What a path starts with in front of its names: a slash, a lone dot, or
/// nothing.
pub open spec fn lead(path: Seq<char>) -> Seq<Seq<char>> {
    let first = split(path, '/')[0];
    if path.len() > 0 && path[0] == '/' {
        seq![seq!['/']]
    } else if first == seq!['.'] {
        seq![seq!['.']]
    } else {
        seq![]
    }
}

/// The names on a path, from left to right.
pub open spec fn names(path: Seq<char>) -> Seq<Seq<char>> {
    split(path, '/').filter(|p: Seq<char>| !is_filler(p))
}

/// What a path is made of.
pub open spec fn components(path: Seq<char>) -> Seq<Seq<char>> {
    lead(path) + names(path)
}

/// Whether a path lies at or below a directory.
pub open spec fn is_within(path: Seq<char>, dir: Seq<char>) -> bool {
    components(dir).is_prefix_of(components(path))
}

/// The pieces behind the first `n` names.
pub open spec fn behind(pieces: Seq<Seq<char>>, n: nat) -> Seq<Seq<char>>
    decreases pieces.len(),
{
    if n == 0 || pieces.len() == 0 {
        pieces
    } else if is_filler(pieces[0]) {
        behind(pieces.skip(1), n)
    } else {
        behind(pieces.skip(1), (n - 1) as nat)
    }
}

/// The pieces from the first name on.
pub open spec fn from_name(pieces: Seq<Seq<char>>) -> Seq<Seq<char>>
    decreases pieces.len(),
{
    if pieces.len() > 0 && is_filler(pieces[0]) {
        from_name(pieces.skip(1))
    } else {
        pieces
    }
}

/// The pieces up to the last name.
pub open spec fn to_name(pieces: Seq<Seq<char>>) -> Seq<Seq<char>>
    decreases pieces.len(),
{
    if pieces.len() > 0 && is_filler(pieces.last()) {
        to_name(pieces.drop_last())
    } else {
        pieces
    }
}

/// The part of a path below a directory that it lies in.
pub open spec fn below(path: Seq<char>, dir: Seq<char>) -> Option<Seq<char>> {
    let inside = split(path, '/');
    let n = names(dir).len();
    if !is_within(path, dir) {
        None
    } else if components(dir).len() == 0 {
        Some(crate::split::join(to_name(inside), seq!['/']))
    } else {
        Some(crate::split::join(to_name(from_name(behind(inside, n))), seq!['/']))
    }
}

fn names_of<'a>(pieces: &Vec<&'a [char]>) -> (r: Vec<&'a [char]>)
    ensures
        slices(r@) == slices(pieces@).filter(|p: Seq<char>| !is_filler(p)),
{
    let ghost keep = |p: Seq<char>| !is_filler(p);
    let mut out: Vec<&[char]> = Vec::new();
    let mut i: usize = 0;
    proof {
        reveal(Seq::filter);
    }
    assert(slices(out@) == slices(pieces@).take(0).filter(keep));
    while i < pieces.len()
        invariant
            i <= pieces@.len(),
            keep == (|p: Seq<char>| !is_filler(p)),
            slices(out@) == slices(pieces@).take(i as int).filter(keep),
        decreases pieces.len() - i,
    {
        let ghost all = slices(pieces@);
        let ghost before = slices(out@);
        let p = pieces[i];
        proof {
            reveal(Seq::filter);
            assert(all.take(i + 1).drop_last() == all.take(i as int));
            assert(all.take(i + 1).last() == p@);
        }
        if !filler(p) {
            out.push(p);
            assert(slices(out@) == before.push(p@));
        }
        i = i + 1;
    }
    assert(slices(pieces@).take(pieces@.len() as int) == slices(pieces@));
    out
}

pub fn components_of(path: &[char]) -> (r: Vec<&[char]>)
    ensures
        slices(r@) == components(path@),
{
    let all = pieces(path, '/');
    let mut out: Vec<&[char]> = Vec::new();
    assert(slices(all@)[0] == all@[0]@);
    if path.len() > 0 && path[0] == '/' {
        out.push(front(path, 1));
        assert(path@.take(1) == seq!['/']);
        assert(slices(out@) == lead(path@));
    } else if all[0].len() == 1 && all[0][0] == '.' {
        out.push(all[0]);
        assert(all@[0]@ == seq!['.']);
        assert(slices(out@) == lead(path@));
    } else {
        assert(slices(out@) == lead(path@));
    }
    let ghost head = slices(out@);
    let rest_of = names_of(&all);
    let mut i: usize = 0;
    assert(slices(out@) == head + slices(rest_of@).take(0));
    while i < rest_of.len()
        invariant
            i <= rest_of@.len(),
            slices(out@) == head + slices(rest_of@).take(i as int),
        decreases rest_of.len() - i,
    {
        let ghost before = slices(out@);
        out.push(rest_of[i]);
        i = i + 1;
        assert(slices(out@) == before.push(rest_of@[i - 1]@));
        assert(slices(rest_of@).take(i as int) == slices(rest_of@).take(i - 1).push(
            rest_of@[i - 1]@,
        ));
        assert(slices(out@) == head + slices(rest_of@).take(i as int));
    }
    assert(slices(rest_of@).take(rest_of@.len() as int) == slices(rest_of@));
    out
}

pub fn within(path: &str, dir: &str) -> (r: bool)
    ensures
        r == is_within(path@, dir@),
{
    let p = chars(path);
    let d = chars(dir);
    let a = components_of(p.as_slice());
    let b = components_of(d.as_slice());
    if b.len() > a.len() {
        return false;
    }
    let mut i: usize = 0;
    while i < b.len()
        invariant
            i <= b@.len() <= a@.len(),
            slices(a@) == components(path@),
            slices(b@) == components(dir@),
            forall|k: int| 0 <= k < i ==> slices(a@)[k] == slices(b@)[k],
        decreases b.len() - i,
    {
        if !same(a[i], b[i]) {
            assert(slices(a@)[i as int] != slices(b@)[i as int]);
            assert(!is_within(path@, dir@)) by {
                if is_within(path@, dir@) {
                    assert(components(path@).subrange(0, components(dir@).len() as int)[i as int]
                        == components(dir@)[i as int]);
                }
            }
            return false;
        }
        i = i + 1;
    }
    assert(components(path@).subrange(0, components(dir@).len() as int) == components(dir@));
    true
}

pub fn part_below(path: &str, dir: &str) -> (r: Option<String>)
    ensures
        opt_text(r) == below(path@, dir@),
{
    if !within(path, dir) {
        return None;
    }
    let p = chars(path);
    let d = chars(dir);
    let inside = pieces(p.as_slice(), '/');
    let outer = pieces(d.as_slice(), '/');
    let n = names_of(&outer).len();
    let some = components_of(d.as_slice()).len() > 0;
    let ghost all = slices(inside@);
    let mut i: usize = 0;
    assert(all.skip(0) == all);
    if some {
        let mut left: usize = n;
        while i < inside.len() && left > 0
            invariant
                i <= inside@.len(),
                all == slices(inside@),
                behind(all, n as nat) == behind(all.skip(i as int), left as nat),
            decreases inside.len() - i,
        {
            assert(all.skip(i as int)[0] == inside@[i as int]@);
            assert(all.skip(i as int).skip(1) == all.skip(i + 1));
            if !filler(inside[i]) {
                left = left - 1;
            }
            i = i + 1;
        }
        assert(behind(all, n as nat) == all.skip(i as int));
        let ghost start = i as int;
        while i < inside.len() && filler(inside[i])
            invariant
                start <= i <= inside@.len(),
                all == slices(inside@),
                from_name(all.skip(start)) == from_name(all.skip(i as int)),
            decreases inside.len() - i,
        {
            assert(all.skip(i as int)[0] == inside@[i as int]@);
            assert(all.skip(i as int).skip(1) == all.skip(i + 1));
            i = i + 1;
        }
        assert(i < inside@.len() ==> all.skip(i as int)[0] == inside@[i as int]@);
        assert(from_name(all.skip(start)) == all.skip(i as int));
    }
    let ghost kept = all.skip(i as int);
    let mut j: usize = inside.len();
    assert(all.subrange(i as int, j as int) == kept);
    while j > i && filler(inside[j - 1])
        invariant
            i <= j <= inside@.len(),
            all == slices(inside@),
            to_name(kept) == to_name(all.subrange(i as int, j as int)),
        decreases j,
    {
        assert(all.subrange(i as int, j as int).last() == inside@[j - 1]@);
        assert(all.subrange(i as int, j as int).drop_last() == all.subrange(i as int, j - 1));
        j = j - 1;
    }
    assert(j > i ==> all.subrange(i as int, j as int).last() == inside@[j - 1]@);
    assert(to_name(kept) == all.subrange(i as int, j as int));
    let mut parts: Vec<String> = Vec::new();
    let mut k: usize = i;
    while k < j
        invariant
            i <= k <= j <= inside@.len(),
            all == slices(inside@),
            texts(parts@) == all.subrange(i as int, k as int),
        decreases j - k,
    {
        let ghost before = texts(parts@);
        parts.push(string(inside[k]));
        assert(texts(parts@) == before.push(inside@[k as int]@));
        assert(all.subrange(i as int, k + 1) == all.subrange(i as int, k as int).push(
            inside@[k as int]@,
        ));
        k = k + 1;
    }
    proof {
        reveal_strlit("/");
        assert("/"@ == seq!['/']);
    }
    Some(joined(&parts, "/"))
}

/// Where Omarchy and its user keep their files.
#[derive(Debug, Clone, PartialEq, Eq)]
pub struct OmarchyPaths {
    /// Omarchy's own tree, which is never written to.
    pub system: String,
    /// The user's Omarchy directory, `~/.config/omarchy`.
    pub config: String,
    /// `~/.local/state/omarchy`.
    pub state: String,
}

/// A path beside the user's Omarchy directory.
pub open spec fn beside(config: Seq<char>, tail: Seq<char>) -> Seq<char> {
    match parent(config) {
        Some(p) => join(p, tail),
        None => tail,
    }
}

impl OmarchyPaths {
    pub fn beside_config(&self, tail: &str) -> (r: String)
        ensures
            r@ == beside(self.config@, tail@),
    {
        match parent_of(self.config.as_str()) {
            Some(p) => joined_path(p.as_str(), tail),
            None => owned(tail),
        }
    }

    /// The user's Hyprland directory.
    pub open spec fn hypr(&self) -> Seq<char> {
        beside(self.config@, "hypr"@)
    }

    pub fn hypr_config(&self) -> (r: String)
        ensures
            r@ == self.hypr(),
    {
        self.beside_config("hypr")
    }

    pub fn hypr_file(&self, name: &str) -> (r: String)
        ensures
            r@ == join(self.hypr(), name@),
    {
        let dir = self.hypr_config();
        joined_path(dir.as_str(), name)
    }

    /// Templates of the user's own.
    pub fn user_templates(&self) -> (r: String)
        ensures
            r@ == join(self.config@, "themed"@),
    {
        joined_path(self.config.as_str(), "themed")
    }

    /// Templates that Omarchy ships.
    pub fn default_templates(&self) -> (r: String)
        ensures
            r@ == join(self.system@, "default/themed"@),
    {
        joined_path(self.system.as_str(), "default/themed")
    }

    /// The theme directories, the user's last: it wins.
    pub fn theme_dirs(&self) -> (r: Vec<String>)
        ensures
            r@.len() == 2,
            r@[0]@ == join(self.system@, "themes"@),
            r@[1]@ == join(self.config@, "themes"@),
    {
        vec![
            joined_path(self.system.as_str(), "themes"),
            joined_path(self.config.as_str(), "themes"),
        ]
    }
}

// --------------------------------------------------------------------- laws

proof fn lemma_split_at(a: Seq<char>, sep: char, b: Seq<char>)
    ensures
        split(a + seq![sep] + b, sep) == split(a, sep) + split(b, sep),
    decreases a.len(),
{
    lemma_pos_from(a, sep, 0);
    let p = pos(a, sep);
    if p < a.len() {
        let head = a.take(p);
        let tail = a.skip(p + 1);
        assert(!holds(head, sep)) by {
            assert forall|i: int| 0 <= i < head.len() implies head[i] != sep by {
                assert(head[i] == a[i]);
            }
        }
        assert(a + seq![sep] + b == head + seq![sep] + (tail + seq![sep] + b));
        lemma_split_cons(head, sep, tail + seq![sep] + b);
        lemma_split_at(tail, sep, b);
        assert(split(a, sep) == seq![head] + split(tail, sep));
        assert(split(a, sep) + split(b, sep) == seq![head] + (split(tail, sep) + split(b, sep)));
    } else {
        assert(!holds(a, sep));
        lemma_split_cons(a, sep, b);
        lemma_split_none(a, sep);
    }
}

/// The empty path has no names.
proof fn lemma_no_names()
    ensures
        names(Seq::empty()) == Seq::<Seq<char>>::empty(),
{
    let none = Seq::<char>::empty();
    lemma_split_none(none, '/');
    reveal_with_fuel(Seq::filter, 2);
    assert(seq![none].drop_last() == Seq::<Seq<char>>::empty());
}

/// The names of a path that is joined to a directory come behind those of the
/// directory.
pub proof fn lemma_components_of_join(dir: Seq<char>, tail: Seq<char>)
    requires
        dir.len() > 0,
        tail.len() > 0,
        tail[0] != '/',
    ensures
        components(join(dir, tail)) == components(dir) + names(tail),
{
    let named = |p: Seq<char>| !is_filler(p);
    let ended = dir.last() == '/';
    let base = if ended {
        dir.drop_last()
    } else {
        dir
    };
    let all = join(dir, tail);
    assert(all == base + seq!['/'] + tail);
    lemma_split_at(base, '/', tail);
    Seq::filter_distributes_over_add(split(base, '/'), split(tail, '/'), named);
    assert(names(base) == names(dir)) by {
        if ended {
            let none = Seq::<char>::empty();
            assert(dir == base + seq!['/'] + none);
            lemma_split_at(base, '/', none);
            lemma_split_none(none, '/');
            Seq::filter_distributes_over_add(split(base, '/'), seq![none], named);
            lemma_no_names();
            assert(names(none) == seq![none].filter(named));
        }
    }
    assert(lead(all) == lead(dir)) by {
        lemma_join_of_split(base, '/');
        lemma_join_of_split(dir, '/');
        assert(split(all, '/')[0] == split(base, '/')[0]);
        assert(all[0] == dir[0]);
        if ended {
            let none = Seq::<char>::empty();
            assert(dir == base + seq!['/'] + none);
            lemma_split_at(base, '/', none);
            assert(split(dir, '/')[0] == split(base, '/')[0]);
        }
    }
}

/// A file of the user's Hyprland directory lies where the user's Omarchy
/// directory lies. So it is in Omarchy's own tree only where the user's
/// directory is too, unless that tree lies deeper than it.
pub proof fn law_hyprland_files_are_the_users(paths: &OmarchyPaths, name: Seq<char>)
    requires
        parent(paths.config@) is Some,
        name.len() > 0,
        name[0] != '/',
    ensures
        ({
            let file = join(paths.hypr(), name);
            let own = parent(paths.config@)->0;
            &&& is_within(file, own)
            &&& components(paths.system@).len() <= components(own).len() && is_within(
                file,
                paths.system@,
            ) ==> is_within(own, paths.system@)
        }),
{
    reveal_strlit("hypr");
    let own = parent(paths.config@)->0;
    let dir = paths.hypr();
    let file = join(dir, name);
    assert(dir.len() > 0);
    lemma_components_of_join(dir, name);
    if own.len() > 0 {
        lemma_components_of_join(own, "hypr"@);
    } else {
        assert(own == Seq::<char>::empty());
        lemma_no_names();
        lemma_split_none(own, '/');
    }
    let sys = components(paths.system@);
    let all = components(file);
    if sys.len() <= components(own).len() && sys.is_prefix_of(all) {
        assert(sys == components(own).subrange(0, sys.len() as int)) by {
            assert forall|i: int| 0 <= i < sys.len() implies sys[i] == components(own)[i] by {
                assert(sys == all.subrange(0, sys.len() as int));
                assert(sys[i] == all[i]);
            }
        }
    }
}

/// A leading tilde stands for the home directory: what follows it is found
/// there. A tilde elsewhere, or in front of a name, stands for itself.
pub proof fn law_tilde_is_the_home(path: Seq<char>, home: Seq<char>)
    requires
        home.len() > 0,
    ensures
        path.len() == 1 && path[0] == '~' ==> expand_tilde(path, home) == home,
        path.len() > 2 && path[0] == '~' && path[1] == '/' && path[2] != '/' ==> {
            let full = expand_tilde(path, home);
            &&& full.take(home.len() as int) == home
            &&& home.last() == '/' ==> full.skip(home.len() as int) == path.skip(2)
            &&& home.last() != '/' ==> full.skip(home.len() as int) == path.skip(1)
        },
        path.len() == 0 || path[0] != '~' || path.len() > 1 && path[1] != '/' ==> expand_tilde(
            path,
            home,
        ) == path,
{
    if path.len() == 1 && path[0] == '~' {
        assert(path == seq!['~']);
    }
}

proof fn lemma_last_slash(dir: Seq<char>, name: Seq<char>)
    requires
        forall|i: int| 0 <= i < name.len() ==> name[i] != '/',
        dir.len() == 0 || dir.last() == '/',
    ensures
        last_slash(dir + name) == dir.len() - 1,
    decreases name.len(),
{
    if name.len() > 0 {
        assert((dir + name).last() == name.last());
        assert((dir + name).drop_last() == dir + name.drop_last());
        lemma_last_slash(dir, name.drop_last());
    } else {
        assert(dir + name == dir);
    }
}

/// The last name of a path that a name was joined to is that name.
pub proof fn law_joined_name_is_the_files_name(dir: Seq<char>, name: Seq<char>)
    requires
        name.len() > 0,
        forall|i: int| 0 <= i < name.len() ==> name[i] != '/',
    ensures
        file_name(join(dir, name)) == name,
{
    let full = join(dir, name);
    let base = if dir.len() == 0 || dir.last() == '/' {
        dir
    } else {
        dir.push('/')
    };
    assert(full == base + name);
    lemma_last_slash(base, name);
    assert(full.last() == name.last());
    assert(full.skip(base.len() as int) == name);
}

/// What is joined to a directory lies in it, and a directory lies in itself.
pub proof fn law_joined_paths_lie_within(dir: Seq<char>, tail: Seq<char>)
    requires
        dir.len() > 0,
        tail.len() > 0,
        tail[0] != '/',
    ensures
        is_within(join(dir, tail), dir),
        is_within(dir, dir),
{
    lemma_components_of_join(dir, tail);
    let all = components(join(dir, tail));
    let n = components(dir).len() as int;
    assert(all.take(n) =~= components(dir));
    assert(components(dir).take(n) =~= components(dir));
}

/// What lies within a directory lies within whatever that lies within.
pub proof fn law_within_carries(path: Seq<char>, dir: Seq<char>, outer: Seq<char>)
    requires
        is_within(path, dir),
        is_within(dir, outer),
    ensures
        is_within(path, outer),
{
    let n = components(outer).len() as int;
    let m = components(dir).len() as int;
    assert(components(path).take(m).take(n) =~= components(path).take(n));
}

} // verus!
