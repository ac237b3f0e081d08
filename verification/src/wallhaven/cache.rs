//! Thumbnails kept on disk: where they stand, and which go when there are too
//! many.

use vstd::prelude::*;

use crate::order::{text_before, text_is_before};
use crate::paths::{join as path_join, joined_path};
use crate::text::{owned, starts_str, starts_with, texts};

verus! {

/// How much the cache holds.
pub const CACHE_CAP_BYTES: u64 = 209_715_200;

/// A directory of thumbnails and how many bytes it may hold.
#[derive(Debug, Clone, PartialEq, Eq)]
pub struct ThumbCache {
    dir: String,
    cap_bytes: u64,
}

/// A file of the cache.
#[derive(Debug, Clone, PartialEq, Eq)]
pub struct CachedFile {
    /// When it was last used.
    pub mtime: u64,
    pub len: u64,
    pub path: String,
}

pub struct CachedView {
    pub mtime: u64,
    pub len: u64,
    pub path: Seq<char>,
}

impl View for CachedFile {
    type V = CachedView;

    open spec fn view(&self) -> CachedView {
        CachedView { mtime: self.mtime, len: self.len, path: self.path@ }
    }
}

pub open spec fn cached_views(v: Seq<CachedFile>) -> Seq<CachedView> {
    v.map_values(|f: CachedFile| f@)
}

/// Whether a file goes before another: the one used longest ago, and of those
/// the smallest, and of those the first by path.
pub open spec fn goes_before(a: CachedView, b: CachedView) -> bool {
    if a.mtime != b.mtime {
        a.mtime < b.mtime
    } else if a.len != b.len {
        a.len < b.len
    } else {
        text_before(a.path, b.path)
    }
}

fn is_before(a: &CachedFile, b: &CachedFile) -> (r: bool)
    ensures
        r == goes_before(a@, b@),
{
    if a.mtime != b.mtime {
        a.mtime < b.mtime
    } else if a.len != b.len {
        a.len < b.len
    } else {
        text_is_before(a.path.as_str(), b.path.as_str())
    }
}

/// How many bytes some files have.
pub open spec fn size(files: Seq<CachedView>) -> nat
    decreases files.len(),
{
    if files.len() == 0 {
        0
    } else {
        size(files.drop_last()) + files.last().len as nat
    }
}

/// Whether no file goes before the one at `i`.
pub open spec fn is_first(files: Seq<CachedView>, i: int) -> bool {
    0 <= i < files.len() && forall|j: int|
        0 <= j < files.len() ==> !goes_before(#[trigger] files[j], files[i])
}

/// The position of the first name that starts with a prefix, or the length.
pub open spec fn first_with(names: Seq<Seq<char>>, prefix: Seq<char>) -> int
    decreases names.len(),
{
    if names.len() == 0 || starts_with(names[0], prefix) {
        0
    } else {
        1 + first_with(names.skip(1), prefix)
    }
}

impl ThumbCache {
    pub closed spec fn dir(&self) -> Seq<char> {
        self.dir@
    }

    pub closed spec fn cap(&self) -> u64 {
        self.cap_bytes
    }

    pub fn new(dir: &str, cap_bytes: u64) -> (r: Self)
        ensures
            r.dir() == dir@,
            r.cap() == cap_bytes,
    {
        ThumbCache { dir: owned(dir), cap_bytes }
    }

    /// The cache below Studio's own directory.
    pub fn open_default(studio_cache_dir: &str) -> (r: Self)
        ensures
            r.dir() == path_join(studio_cache_dir@, "wallhaven"@),
            r.cap() == CACHE_CAP_BYTES,
    {
        ThumbCache {
            dir: joined_path(studio_cache_dir, "wallhaven"),
            cap_bytes: CACHE_CAP_BYTES,
        }
    }

    pub fn directory(&self) -> (r: &str)
        ensures
            r@ == self.dir(),
    {
        self.dir.as_str()
    }

    /// Where a thumbnail is kept.
    pub fn file_for(&self, id: &str, ext: &str) -> (r: String)
        ensures
            r@ == path_join(self.dir(), id@ + "."@ + ext@),
    {
        let mut name = owned(id);
        name.append(".");
        name.append(ext);
        joined_path(self.dir.as_str(), name.as_str())
    }

    /// The file that a wallpaper's thumbnail is kept in, by the names in the
    /// directory.
    pub fn get(&self, id: &str, names: &Vec<String>) -> (r: Option<String>)
        ensures
            ({
                let all = texts(names@);
                let k = first_with(all, id@ + "."@);
                match r {
                    Some(p) => k < all.len() && p@ == path_join(self.dir(), all[k]),
                    None => k == all.len(),
                }
            }),
    {
        let mut prefix = owned(id);
        prefix.append(".");
        let ghost all = texts(names@);
        let mut i: usize = 0;
        assert(all.skip(0) == all);
        while i < names.len()
            invariant
                i <= names@.len(),
                all == texts(names@),
                prefix@ == id@ + "."@,
                first_with(all, prefix@) == i + first_with(all.skip(i as int), prefix@),
            decreases names.len() - i,
        {
            assert(all.skip(i as int)[0] == names@[i as int]@);
            assert(all.skip(i as int).skip(1) == all.skip(i + 1));
            if starts_str(names[i].as_str(), prefix.as_str()) {
                return Some(joined_path(self.dir.as_str(), names[i].as_str()));
            }
            i = i + 1;
        }
        None
    }

    /// What there is to drop, by the files of the directory.
    pub fn evict(&self, files: Vec<CachedFile>) -> (r: Eviction)
        requires
            size(cached_views(files@)) <= u64::MAX,
        ensures
            r.files() == cached_views(files@),
            r.total() == size(cached_views(files@)),
            r.cap() == self.cap(),
            r.wf(),
    {
        let ghost views = cached_views(files@);
        let mut total: u64 = 0;
        let mut i: usize = 0;
        assert(views.take(0).len() == 0);
        while i < files.len()
            invariant
                i <= files@.len(),
                views == cached_views(files@),
                size(views) <= u64::MAX,
                total == size(views.take(i as int)),
            decreases files.len() - i,
        {
            assert(views.take(i + 1).drop_last() == views.take(i as int));
            assert(views.take(i + 1).last() == files@[i as int]@);
            proof {
                lemma_size_front(views, i + 1);
            }
            total = total + files[i].len;
            i = i + 1;
        }
        assert(views.take(views.len() as int) == views);
        Eviction { files, total, cap: self.cap_bytes }
    }
}

pub proof fn lemma_size_front(files: Seq<CachedView>, n: int)
    requires
        0 <= n <= files.len(),
    ensures
        size(files.take(n)) <= size(files),
    decreases files.len(),
{
    if n < files.len() {
        lemma_size_front(files.drop_last(), n);
        assert(files.drop_last().take(n) =~= files.take(n));
    } else {
        assert(files.take(n) =~= files);
    }
}

/// Files are dropped one by one while they are too many: [`Eviction::next`] says
/// which, and [`Eviction::settle`] is told how that went.
#[derive(Debug)]
pub struct Eviction {
    files: Vec<CachedFile>,
    total: u64,
    cap: u64,
}

pub proof fn lemma_size_without(files: Seq<CachedView>, i: int)
    requires
        0 <= i < files.len(),
    ensures
        size(files) == size(files.remove(i)) + files[i].len,
    decreases files.len(),
{
    let n = files.len() as int;
    if i < n - 1 {
        lemma_size_without(files.drop_last(), i);
        assert(files.remove(i).drop_last() =~= files.drop_last().remove(i));
        assert(files.remove(i).last() == files.last());
    } else {
        assert(files.remove(i) =~= files.drop_last());
    }
}

impl Eviction {
    /// The files that have not been tried.
    pub closed spec fn files(&self) -> Seq<CachedView> {
        cached_views(self.files@)
    }

    /// How many bytes are left.
    pub closed spec fn total(&self) -> u64 {
        self.total
    }

    pub closed spec fn cap(&self) -> u64 {
        self.cap
    }

    /// What is left is at least what has not been tried.
    pub open spec fn wf(&self) -> bool {
        size(self.files()) <= self.total()
    }

    /// The position and the path of the file to drop next, while too much is
    /// left and there are files.
    pub fn next(&self) -> (r: Option<(usize, String)>)
        ensures
            match r {
                Some((i, path)) => {
                    &&& self.total() > self.cap()
                    &&& is_first(self.files(), i as int)
                    &&& path@ == self.files()[i as int].path
                },
                None => self.total() <= self.cap() || self.files().len() == 0,
            },
    {
        if self.total <= self.cap || self.files.len() == 0 {
            return None;
        }
        let ghost views = self.files();
        let mut best: usize = 0;
        let mut i: usize = 1;
        assert(views[0] == self.files@[0]@);
        proof {
            lemma_not_before_itself(views[0]);
        }
        while i < self.files.len()
            invariant
                best < i <= self.files@.len(),
                views == cached_views(self.files@),
                forall|j: int| 0 <= j < i ==> !goes_before(#[trigger] views[j], views[best as int]),
            decreases self.files.len() - i,
        {
            assert(views[i as int] == self.files@[i as int]@);
            assert(views[best as int] == self.files@[best as int]@);
            if is_before(&self.files[i], &self.files[best]) {
                proof {
                    assert forall|j: int| 0 <= j < i + 1 implies !goes_before(
                        #[trigger] views[j],
                        views[i as int],
                    ) by {
                        if j < i {
                            lemma_before_carries(views[j], views[i as int], views[best as int]);
                        } else {
                            lemma_not_before_itself(views[j]);
                        }
                    }
                }
                best = i;
            }
            i = i + 1;
        }
        assert(views[best as int] == self.files@[best as int]@);
        Some((best, owned(self.files[best].path.as_str())))
    }

    /// The file at a position was tried, and dropped or not.
    pub fn settle(&mut self, i: usize, dropped: bool)
        requires
            old(self).wf(),
            i < old(self).files().len(),
        ensures
            final(self).wf(),
            final(self).files() == old(self).files().remove(i as int),
            final(self).cap() == old(self).cap(),
            final(self).total() == if dropped {
                old(self).total() - old(self).files()[i as int].len
            } else {
                old(self).total() as int
            },
    {
        let ghost views = self.files();
        proof {
            lemma_size_without(views, i as int);
            assert(views[i as int] == self.files@[i as int]@);
        }
        let file = self.files.remove(i);
        assert(cached_views(self.files@) == views.remove(i as int));
        if dropped {
            self.total = self.total - file.len;
        }
    }
}

pub proof fn lemma_not_before_itself(a: CachedView)
    ensures
        !goes_before(a, a),
{
    crate::order::lemma_text_irreflexive(a.path);
}

/// What goes before the first of two in order does not come after the second.
pub proof fn lemma_before_carries(a: CachedView, b: CachedView, c: CachedView)
    requires
        goes_before(b, c),
        !goes_before(a, c),
    ensures
        !goes_before(a, b),
{
    if goes_before(a, b) && a.mtime == b.mtime && a.len == b.len && b.mtime == c.mtime && b.len
        == c.len {
        crate::order::lemma_text_transitive(a.path, b.path, c.path);
    }
}

} // verus!
