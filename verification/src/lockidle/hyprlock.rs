//! The lock screen: its avatar, and the blur and dim of its background. The
//! colours stay the theme's own.

use vstd::prelude::*;

use crate::configfs::hyprlang::{value_at, with_set, HyprDoc};
use crate::decimal::{append_fixed, fixed_text};
use crate::error::{external, Failure, StudioError};
use crate::number::{append_u64, digits, i64_text, int_text};
use crate::order::{positions, text_order, text_order_of};
use crate::paths::{
    expand_tilde, expanded, extension, extension_of, file_name, join as path_join, joined_path,
    name_of, parent, parent_of, stem, stem_of, OmarchyPaths,
};
use crate::split::{join, split};
use crate::text::{
    chars, opt_text, owned, same_str, starts_str, starts_with, texts, trim, trimmed_str,
};

verus! {

pub open spec fn hyprlock_path(paths: &OmarchyPaths) -> Seq<char> {
    path_join(paths.hypr(), "hyprlock.conf"@)
}

/// The directory that avatars are kept in.
pub open spec fn avatars(paths: &OmarchyPaths) -> Seq<char> {
    path_join(paths.config@, "profile_images"@)
}

/// Whether a file name's extension is that of an image the picker offers.
pub open spec fn is_avatar(path: Seq<char>) -> bool {
    match extension(file_name(path)) {
        Some(e) => e == "png"@ || e == "jpg"@ || e == "jpeg"@ || e == "webp"@,
        None => false,
    }
}

/// The images of a directory, by path.
pub open spec fn avatars_in(files: Seq<Seq<char>>) -> Seq<Seq<char>> {
    let images = files.filter(|p: Seq<char>| is_avatar(p));
    text_order_of(images).map_values(|i: int| images[i])
}

/// The kind of image that a file begins as, by its first bytes.
pub open spec fn kind_of(head: Seq<u8>) -> Option<Seq<char>> {
    if head.len() >= 4 && head.take(4) == seq![0x89u8, 0x50u8, 0x4Eu8, 0x47u8] {
        Some("png"@)
    } else if head.len() >= 3 && head.take(3) == seq![0xFFu8, 0xD8u8, 0xFFu8] {
        Some("jpg"@)
    } else if head.len() >= 12 && head.take(4) == seq![0x52u8, 0x49u8, 0x46u8, 0x46u8]
        && head.subrange(8, 12) == seq![0x57u8, 0x45u8, 0x42u8, 0x50u8] {
        Some("webp"@)
    } else {
        None
    }
}

/// Identifies an image by its first bytes, whatever its name says.
pub fn image_kind(head: &[u8]) -> (r: Option<&'static str>)
    ensures
        match r {
            Some(k) => kind_of(head@) == Some(k@),
            None => kind_of(head@) is None,
        },
{
    let n = head.len();
    if n >= 4 && head[0] == 0x89 && head[1] == 0x50 && head[2] == 0x4E && head[3] == 0x47 {
        assert(head@.take(4) == seq![0x89u8, 0x50u8, 0x4Eu8, 0x47u8]);
        return Some("png");
    }
    assert(n >= 4 ==> head@.take(4) != seq![0x89u8, 0x50u8, 0x4Eu8, 0x47u8]) by {
        if n >= 4 && head@.take(4) == seq![0x89u8, 0x50u8, 0x4Eu8, 0x47u8] {
            let t = head@.take(4);
            assert(t[0] == head@[0] && t[1] == head@[1] && t[2] == head@[2] && t[3] == head@[3]);
        }
    }
    if n >= 3 && head[0] == 0xFF && head[1] == 0xD8 && head[2] == 0xFF {
        assert(head@.take(3) == seq![0xFFu8, 0xD8u8, 0xFFu8]);
        return Some("jpg");
    }
    assert(n >= 3 ==> head@.take(3) != seq![0xFFu8, 0xD8u8, 0xFFu8]) by {
        if n >= 3 && head@.take(3) == seq![0xFFu8, 0xD8u8, 0xFFu8] {
            let t = head@.take(3);
            assert(t[0] == head@[0] && t[1] == head@[1] && t[2] == head@[2]);
        }
    }
    if n >= 12 && head[0] == 0x52 && head[1] == 0x49 && head[2] == 0x46 && head[3] == 0x46
        && head[8] == 0x57 && head[9] == 0x45 && head[10] == 0x42 && head[11] == 0x50 {
        assert(head@.take(4) == seq![0x52u8, 0x49u8, 0x46u8, 0x46u8]);
        assert(head@.subrange(8, 12) == seq![0x57u8, 0x45u8, 0x42u8, 0x50u8]);
        return Some("webp");
    }
    assert(kind_of(head@) is None) by {
        if n >= 12 && head@.take(4) == seq![0x52u8, 0x49u8, 0x46u8, 0x46u8] && head@.subrange(8, 12)
            == seq![0x57u8, 0x45u8, 0x42u8, 0x50u8] {
            let t = head@.take(4);
            let w = head@.subrange(8, 12);
            assert(t[0] == head@[0] && t[1] == head@[1] && t[2] == head@[2] && t[3] == head@[3]);
            assert(w[0] == head@[8] && w[1] == head@[9] && w[2] == head@[10] && w[3] == head@[11]);
        }
    }
    None
}

/// The name that the `n`-th try gives an imported avatar.
pub open spec fn avatar_name(stem: Seq<char>, kind: Seq<char>, n: nat) -> Seq<char> {
    if n < 2 {
        stem + "."@ + kind
    } else {
        stem + "-"@ + digits(n) + "."@ + kind
    }
}

/// The stem that an imported avatar keeps.
pub open spec fn avatar_stem(path: Seq<char>) -> Seq<char> {
    let s = stem(file_name(path));
    if s.len() == 0 {
        "avatar"@
    } else {
        s
    }
}

/// Whether a name is not taken in the directory.
pub open spec fn is_free(taken: Seq<Seq<char>>, name: Seq<char>) -> bool {
    !taken.contains(name)
}

/// Whether the `n`-th try is the first whose name is free.
pub open spec fn first_free(
    taken: Seq<Seq<char>>,
    stem: Seq<char>,
    kind: Seq<char>,
    n: nat,
) -> bool {
    &&& 1 <= n
    &&& is_free(taken, avatar_name(stem, kind, n))
    &&& forall|m: nat| 1 <= m < n ==> !is_free(taken, #[trigger] avatar_name(stem, kind, m))
}

/// Whether a copy goes to the first free name of the directory.
pub open spec fn lands_at(
    dir: Seq<char>,
    taken: Seq<Seq<char>>,
    stem: Seq<char>,
    kind: Seq<char>,
    dest: Seq<char>,
) -> bool {
    exists|n: nat| #[trigger]
        first_free(taken, stem, kind, n) && dest == path_join(dir, avatar_name(stem, kind, n))
}

fn free(taken: &Vec<String>, name: &str) -> (r: bool)
    ensures
        r == is_free(texts(taken@), name@),
{
    let mut i: usize = 0;
    while i < taken.len()
        invariant
            i <= taken@.len(),
            forall|j: int| 0 <= j < i ==> (#[trigger] taken@[j])@ != name@,
        decreases taken.len() - i,
    {
        if same_str(taken[i].as_str(), name) {
            assert(texts(taken@)[i as int] == name@);
            return false;
        }
        i = i + 1;
    }
    assert forall|j: int| 0 <= j < texts(taken@).len() implies texts(taken@)[j] != name@ by {
        assert(taken@[j]@ != name@);
    }
    true
}

fn name_at(stem: &str, kind: &str, n: u64) -> (r: String)
    ensures
        r@ == avatar_name(stem@, kind@, n as nat),
{
    let mut s = owned(stem);
    if n >= 2 {
        s.append("-");
        append_u64(&mut s, n);
    }
    s.append(".");
    s.append(kind);
    s
}

/// Why an avatar cannot be imported.
pub open spec fn import_refusal(path: Seq<char>, detail: Seq<char>) -> Failure {
    Failure::External { cmd: "read "@ + path, detail }
}

fn refuse(path: &str, detail: &str) -> (r: StudioError)
    ensures
        r@ == import_refusal(path@, detail@),
{
    let mut cmd = owned("read ");
    cmd.append(path);
    external(cmd.as_str(), detail)
}

/// The lines with another picture in the lock screen.
pub open spec fn with_avatar(lines: Seq<Seq<char>>, path: Seq<char>) -> Seq<Seq<char>> {
    with_set(lines, "image.path"@, path)
}

/// The lines with another size of the picture.
pub open spec fn with_avatar_size(lines: Seq<Seq<char>>, px: i64) -> Seq<Seq<char>> {
    with_set(lines, "image.size"@, int_text(px as int))
}

/// The lines with another blur of the background.
pub open spec fn with_blur_passes(lines: Seq<Seq<char>>, n: i64) -> Seq<Seq<char>> {
    with_set(lines, "background.blur_passes"@, int_text(n as int))
}

/// The lines with another brightness of the background, in millionths.
pub open spec fn with_dim(lines: Seq<Seq<char>>, level: i64) -> Seq<Seq<char>> {
    with_set(lines, "background.brightness"@, fixed_text(level as int))
}

/// The lock screen's file.
#[derive(Debug)]
pub struct Hyprlock {
    path: String,
    doc: HyprDoc,
}

impl Hyprlock {
    pub closed spec fn file(&self) -> Seq<char> {
        self.path@
    }

    pub closed spec fn lines(&self) -> Seq<Seq<char>> {
        self.doc.lines()
    }

    /// The model of a file's text, or why the file could not be read.
    pub fn load(paths: &OmarchyPaths, read: Result<&str, &str>) -> (r: Result<Self, StudioError>)
        ensures
            match read {
                Ok(text) => r matches Ok(h) && h.lines() == split(text@, '\n') && h.file()
                    == hyprlock_path(paths),
                Err(why) => r matches Err(e) && e@ == import_refusal(hyprlock_path(paths), why@),
            },
    {
        let path = paths.hypr_file("hyprlock.conf");
        match read {
            Ok(text) => Ok(Hyprlock { path, doc: HyprDoc::parse(text) }),
            Err(why) => Err(refuse(path.as_str(), why)),
        }
    }

    pub fn path(&self) -> (r: &str)
        ensures
            r@ == self.file(),
    {
        self.path.as_str()
    }

    pub fn avatar_path(&self) -> (r: Option<String>)
        ensures
            opt_text(r) == value_at(self.lines(), "image.path"@),
    {
        self.doc.get("image.path")
    }

    pub fn avatar_size(&self) -> (r: Option<String>)
        ensures
            opt_text(r) == value_at(self.lines(), "image.size"@),
    {
        self.doc.get("image.size")
    }

    pub fn blur_passes(&self) -> (r: Option<String>)
        ensures
            opt_text(r) == value_at(self.lines(), "background.blur_passes"@),
    {
        self.doc.get("background.blur_passes")
    }

    pub fn dim(&self) -> (r: Option<String>)
        ensures
            opt_text(r) == value_at(self.lines(), "background.brightness"@),
    {
        self.doc.get("background.brightness")
    }

    pub fn set_avatar(&mut self, path: &str) -> (r: bool)
        ensures
            final(self).file() == old(self).file(),
            final(self).lines() == with_avatar(old(self).lines(), path@),
            r == (value_at(old(self).lines(), "image.path"@) is Some),
    {
        self.doc.set("image.path", path)
    }

    pub fn set_avatar_size(&mut self, px: i64) -> (r: bool)
        ensures
            final(self).file() == old(self).file(),
            final(self).lines() == with_avatar_size(old(self).lines(), px),
            r == (value_at(old(self).lines(), "image.size"@) is Some),
    {
        let text = i64_text(px);
        self.doc.set("image.size", text.as_str())
    }

    pub fn set_blur_passes(&mut self, n: i64) -> (r: bool)
        ensures
            final(self).file() == old(self).file(),
            final(self).lines() == with_blur_passes(old(self).lines(), n),
            r == (value_at(old(self).lines(), "background.blur_passes"@) is Some),
    {
        let text = i64_text(n);
        self.doc.set("background.blur_passes", text.as_str())
    }

    /// Sets the brightness of the background, in millionths; it is written
    /// with two digits behind the point.
    pub fn set_dim(&mut self, level: i64) -> (r: bool)
        ensures
            final(self).file() == old(self).file(),
            final(self).lines() == with_dim(old(self).lines(), level),
            r == (value_at(old(self).lines(), "background.brightness"@) is Some),
    {
        let mut text: String = String::new();
        append_fixed(&mut text, level);
        assert(text@ == fixed_text(level as int));
        self.doc.set("background.brightness", text.as_str())
    }

    /// The images that the picker offers, out of the files of the directory.
    pub fn avatar_choices(files: &Vec<String>) -> (r: Vec<String>)
        ensures
            texts(r@) == avatars_in(texts(files@)),
    {
        let ghost views = texts(files@);
        let ghost f = |p: Seq<char>| is_avatar(p);
        let mut images: Vec<String> = Vec::new();
        let mut i: usize = 0;
        proof {
            reveal(Seq::filter);
        }
        assert(views.take(0) == Seq::<Seq<char>>::empty());
        assert(texts(images@) == views.take(0).filter(f));
        while i < files.len()
            invariant
                i <= files@.len(),
                views == texts(files@),
                f == (|p: Seq<char>| is_avatar(p)),
                texts(images@) == views.take(i as int).filter(f),
            decreases files.len() - i,
        {
            assert(views.take(i + 1).drop_last() == views.take(i as int));
            assert(views.take(i + 1).last() == files@[i as int]@);
            proof {
                reveal(Seq::filter);
            }
            let ghost before = texts(images@);
            let name = name_of(files[i].as_str());
            let fits = match extension_of(name.as_str()) {
                Some(e) => same_str(e.as_str(), "png") || same_str(e.as_str(), "jpg") || same_str(
                    e.as_str(),
                    "jpeg",
                ) || same_str(e.as_str(), "webp"),
                None => false,
            };
            if fits {
                images.push(owned(files[i].as_str()));
                assert(texts(images@) == before.push(files@[i as int]@));
            }
            i = i + 1;
        }
        assert(views.take(files@.len() as int) == views);
        let order = text_order(&images);
        let mut out: Vec<String> = Vec::new();
        let mut i: usize = 0;
        while i < order.len()
            invariant
                i <= order@.len(),
                out@.len() == i,
                forall|j: int| 0 <= j < order@.len() ==> #[trigger] order@[j] < images@.len(),
                forall|j: int| 0 <= j < i ==> (#[trigger] out@[j])@ == images@[order@[j] as int]@,
            decreases order.len() - i,
        {
            out.push(owned(images[order[i]].as_str()));
            i = i + 1;
        }
        proof {
            let all = texts(images@);
            let want = text_order_of(all).map_values(|i: int| all[i]);
            assert forall|j: int| 0 <= j < out@.len() implies #[trigger] out@[j]@ == want[j] by {
                assert(positions(order@)[j] == order@[j]);
            }
            assert(texts(out@) == want);
        }
        out
    }

    /// The directory that avatars are kept in.
    pub fn avatar_dir(paths: &OmarchyPaths) -> (r: String)
        ensures
            r@ == avatars(paths),
    {
        joined_path(paths.config.as_str(), "profile_images")
    }

    /// Where an image is copied to. `src` is as the user typed it, `head` what
    /// the file begins with, and `taken` the names in the directory: a name
    /// that is taken is not overwritten but gets a number.
    pub fn import_avatar(
        paths: &OmarchyPaths,
        src: &str,
        home: &str,
        is_file: bool,
        head: &[u8],
        taken: &Vec<String>,
    ) -> (r: Result<String, StudioError>)
        ensures
            ({
                let path = expand_tilde(trim(src@), home@);
                if !is_file {
                    r matches Err(e) && e@ == import_refusal(path, "no such file"@)
                } else {
                    match kind_of(head@) {
                        None => r matches Err(e) && e@ == import_refusal(
                            path,
                            "not a PNG, JPEG or WebP image"@,
                        ),
                        Some(kind) => match r {
                            Ok(dest) => lands_at(
                                avatars(paths),
                                texts(taken@),
                                avatar_stem(path),
                                kind,
                                dest@,
                            ),
                            Err(e) => (forall|m: nat|
                                1 <= m <= u64::MAX ==> !is_free(
                                    texts(taken@),
                                    #[trigger] avatar_name(avatar_stem(path), kind, m),
                                )) && e@ == import_refusal(path, "every name is taken"@),
                        },
                    }
                }
            }),
    {
        let path = expanded(trimmed_str(src).as_str(), home);
        if !is_file {
            return Err(refuse(path.as_str(), "no such file"));
        }
        let kind = match image_kind(head) {
            Some(k) => k,
            None => return Err(refuse(path.as_str(), "not a PNG, JPEG or WebP image")),
        };
        let file = name_of(path.as_str());
        let own = stem_of(file.as_str());
        let c = chars(own.as_str());
        let base = if c.len() == 0 {
            owned("avatar")
        } else {
            own
        };
        let dir = Self::avatar_dir(paths);
        let mut n: u64 = 1;
        loop
            invariant
                1 <= n,
                base@ == avatar_stem(path@),
                path@ == expand_tilde(trim(src@), home@),
                kind_of(head@) == Some(kind@),
                is_file,
                dir@ == avatars(paths),
                forall|m: nat|
                    1 <= m < n ==> !is_free(
                        texts(taken@),
                        #[trigger] avatar_name(base@, kind@, m),
                    ),
            decreases u64::MAX - n,
        {
            let name = name_at(base.as_str(), kind, n);
            if free(taken, name.as_str()) {
                assert(first_free(texts(taken@), avatar_stem(path@), kind@, n as nat));
                let dest = joined_path(dir.as_str(), name.as_str());
                assert(lands_at(
                    avatars(paths),
                    texts(taken@),
                    avatar_stem(path@),
                    kind@,
                    dest@,
                ));
                return Ok(dest);
            }
            assert(!is_free(texts(taken@), avatar_name(base@, kind@, n as nat)));
            if n == u64::MAX {
                return Err(refuse(path.as_str(), "every name is taken"));
            }
            n = n + 1;
        }
    }

    /// The text to save, and the directory of the one backup of the stock
    /// file, unless `siblings` shows that there is one already.
    pub fn save(&self, siblings: &Vec<String>, epoch: u64) -> (r: (Option<String>, String))
        ensures
            r.1@ == join(self.lines(), "\n"@),
            opt_text(r.0) == backup_dir(self.file(), texts(siblings@), epoch as nat),
    {
        (self.ensure_backup(siblings, epoch), self.doc.to_text())
    }

    fn ensure_backup(&self, siblings: &Vec<String>, epoch: u64) -> (r: Option<String>)
        ensures
            opt_text(r) == backup_dir(self.file(), texts(siblings@), epoch as nat),
    {
        let mut i: usize = 0;
        while i < siblings.len()
            invariant
                i <= siblings@.len(),
                forall|j: int|
                    0 <= j < i ==> !starts_with(
                        (#[trigger] siblings@[j])@,
                        "lock-screen-backup."@,
                    ),
            decreases siblings.len() - i,
        {
            if starts_str(siblings[i].as_str(), "lock-screen-backup.") {
                assert(starts_with(texts(siblings@)[i as int], "lock-screen-backup."@));
                return None;
            }
            i = i + 1;
        }
        assert forall|j: int| 0 <= j < texts(siblings@).len() implies !starts_with(
            #[trigger] texts(siblings@)[j],
            "lock-screen-backup."@,
        ) by {
            assert(!starts_with(siblings@[j]@, "lock-screen-backup."@));
        }
        let dir = match parent_of(self.path.as_str()) {
            Some(p) => p,
            None => owned("."),
        };
        let mut name = owned("lock-screen-backup.");
        append_u64(&mut name, epoch);
        Some(joined_path(dir.as_str(), name.as_str()))
    }
}

/// The backup directory that a first save makes: beside the file, named by the
/// time. Once there is one, no other is made.
pub open spec fn backup_dir(file: Seq<char>, siblings: Seq<Seq<char>>, epoch: nat) -> Option<
    Seq<char>,
> {
    if exists|i: int|
        0 <= i < siblings.len() && starts_with(#[trigger] siblings[i], "lock-screen-backup."@) {
        None
    } else {
        Some(
            path_join(
                match parent(file) {
                    Some(p) => p,
                    None => "."@,
                },
                "lock-screen-backup."@ + digits(epoch),
            ),
        )
    }
}

} // verus!
