//! Wallhaven: what is asked of it, how often, and what is kept of its answers.

use vstd::prelude::*;
use vstd::utf8::encode_utf8;

use crate::error::{Failure, StudioError, external};
use crate::number::{append_u64, digits};
use crate::paths::{after_last_dot, join as path_join, joined_path, last_dot};
use crate::text::{chars, opt_str, opt_text, owned, rest, string, texts};
use crate::wallhaven::budget::{BudgetView, RateBudget, recorded, succeeded, throttled, waited};
use crate::wallhaven::cache::{ThumbCache, first_with};

pub mod budget;
pub mod cache;
pub mod color;
pub mod hues;
pub mod key;
pub mod laws;
pub mod queries;

verus! {

pub const BASE_URL: &'static str = "https://wallhaven.cc/api/v1";

/// How many bytes of an answer are read at most.
pub const MAX_BODY_BYTES: u64 = 67_108_864;

/// Why a request brought nothing.
#[derive(Debug, Clone, PartialEq, Eq)]
pub enum FetchError {
    /// The server's status, where it is none of success.
    Status(u16),
    /// The server could not be reached.
    Network(String),
}

// ------------------------------------------------------------------------ queries

#[derive(Debug, Clone, Copy, PartialEq, Eq, Structural)]
pub enum Purity {
    Sfw,
    /// With sketchy ones; needs a key.
    Sketchy,
    /// With all; needs a key.
    Nsfw,
}

impl Default for Purity {
    fn default() -> (r: Self)
        ensures
            r == Purity::Sfw,
    {
        Purity::Sfw
    }
}

impl Purity {
    pub open spec fn bits(self) -> Seq<char> {
        match self {
            Purity::Sfw => "100"@,
            Purity::Sketchy => "110"@,
            Purity::Nsfw => "111"@,
        }
    }

    pub fn mask(self) -> (r: &'static str)
        ensures
            r@ == self.bits(),
    {
        match self {
            Purity::Sfw => "100",
            Purity::Sketchy => "110",
            Purity::Nsfw => "111",
        }
    }

    pub fn label(self) -> (r: &'static str)
        ensures
            r@ == match self {
                Purity::Sfw => "SFW"@,
                Purity::Sketchy => "+ sketchy"@,
                Purity::Nsfw => "everything"@,
            },
    {
        match self {
            Purity::Sfw => "SFW",
            Purity::Sketchy => "+ sketchy",
            Purity::Nsfw => "everything",
        }
    }
}

#[derive(Debug, Clone, Copy, PartialEq, Eq, Structural)]
pub enum Sorting {
    Relevance,
    Toplist,
    Random,
    Views,
    DateAdded,
    Favorites,
}

impl Default for Sorting {
    fn default() -> (r: Self)
        ensures
            r == Sorting::Relevance,
    {
        Sorting::Relevance
    }
}

impl Sorting {
    pub open spec fn word(self) -> Seq<char> {
        match self {
            Sorting::Relevance => "relevance"@,
            Sorting::Toplist => "toplist"@,
            Sorting::Random => "random"@,
            Sorting::Views => "views"@,
            Sorting::DateAdded => "date_added"@,
            Sorting::Favorites => "favorites"@,
        }
    }

    pub fn param(self) -> (r: &'static str)
        ensures
            r@ == self.word(),
    {
        match self {
            Sorting::Relevance => "relevance",
            Sorting::Toplist => "toplist",
            Sorting::Random => "random",
            Sorting::Views => "views",
            Sorting::DateAdded => "date_added",
            Sorting::Favorites => "favorites",
        }
    }

    pub fn label(self) -> (r: &'static str)
        ensures
            r@ == match self {
                Sorting::Relevance => "relevance"@,
                Sorting::Toplist => "toplist"@,
                Sorting::Random => "random"@,
                Sorting::Views => "most viewed"@,
                Sorting::DateAdded => "newest"@,
                Sorting::Favorites => "most faved"@,
            },
    {
        match self {
            Sorting::Relevance => "relevance",
            Sorting::Toplist => "toplist",
            Sorting::Random => "random",
            Sorting::Views => "most viewed",
            Sorting::DateAdded => "newest",
            Sorting::Favorites => "most faved",
        }
    }

    /// Every sorting, in display order.
    pub fn all() -> (r: [Sorting; 6])
        ensures
            r@ == seq![
                Sorting::Relevance,
                Sorting::Toplist,
                Sorting::Random,
                Sorting::Views,
                Sorting::DateAdded,
                Sorting::Favorites,
            ],
    {
        let r = [
            Sorting::Relevance,
            Sorting::Toplist,
            Sorting::Random,
            Sorting::Views,
            Sorting::DateAdded,
            Sorting::Favorites,
        ];
        assert(r@ =~= seq![
            Sorting::Relevance,
            Sorting::Toplist,
            Sorting::Random,
            Sorting::Views,
            Sorting::DateAdded,
            Sorting::Favorites,
        ]);
        r
    }
}

/// A search.
#[derive(Debug, Clone, PartialEq, Eq)]
pub struct Query {
    pub q: String,
    pub general: bool,
    pub anime: bool,
    pub people: bool,
    pub purity: Purity,
    pub sorting: Sorting,
    /// The least resolution, such as `2560x1440`.
    pub atleast: Option<String>,
    /// Such as `16x9`.
    pub ratios: Option<String>,
    /// One of [`colors`].
    pub color: Option<String>,
    pub page: u32,
}

/// What a search asks for.
pub struct QueryView {
    pub q: Seq<char>,
    pub general: bool,
    pub anime: bool,
    pub people: bool,
    pub purity: Purity,
    pub sorting: Sorting,
    pub atleast: Option<Seq<char>>,
    pub ratios: Option<Seq<char>>,
    pub color: Option<Seq<char>>,
    pub page: u32,
}

impl View for Query {
    type V = QueryView;

    open spec fn view(&self) -> QueryView {
        QueryView {
            q: self.q@,
            general: self.general,
            anime: self.anime,
            people: self.people,
            purity: self.purity,
            sorting: self.sorting,
            atleast: opt_text(self.atleast),
            ratios: opt_text(self.ratios),
            color: opt_text(self.color),
            page: self.page,
        }
    }
}

impl Default for Query {
    fn default() -> (r: Self)
        ensures
            r@ == (QueryView {
                q: Seq::empty(),
                general: true,
                anime: true,
                people: false,
                purity: Purity::Sfw,
                sorting: Sorting::Relevance,
                atleast: None,
                ratios: None,
                color: None,
                page: 1,
            }),
    {
        let q = String::new();
        assert(q@ == Seq::<char>::empty());
        Query {
            q,
            general: true,
            anime: true,
            people: false,
            purity: Purity::Sfw,
            sorting: Sorting::Relevance,
            atleast: None,
            ratios: None,
            color: None,
            page: 1,
        }
    }
}

/// A byte that stands for itself in a URL.
pub open spec fn is_unreserved(b: u8) -> bool {
    ||| 65 <= b <= 90
    ||| 97 <= b <= 122
    ||| 48 <= b <= 57
    ||| b == 45
    ||| b == 46
    ||| b == 95
    ||| b == 126
}

pub open spec fn hex_digit(n: int) -> char {
    if n < 10 {
        (48 + n) as u8 as char
    } else {
        (55 + n) as u8 as char
    }
}

/// A byte as it stands in a URL.
pub open spec fn percent(b: u8) -> Seq<char> {
    if is_unreserved(b) {
        seq![b as char]
    } else {
        seq!['%', hex_digit(b as int / 16), hex_digit(b as int % 16)]
    }
}

/// Bytes as they stand in a URL.
pub open spec fn percented(bytes: Seq<u8>) -> Seq<char>
    decreases bytes.len(),
{
    if bytes.len() == 0 {
        Seq::empty()
    } else {
        percented(bytes.drop_last()) + percent(bytes.last())
    }
}

/// A text as it stands in a URL, by its UTF-8 bytes.
pub open spec fn url_text(s: Seq<char>) -> Seq<char> {
    percented(encode_utf8(s))
}

fn hex(n: u8) -> (r: char)
    requires
        n < 16,
    ensures
        r == hex_digit(n as int),
{
    if n < 10 {
        (48u8 + n) as char
    } else {
        (55u8 + n) as char
    }
}

pub fn urlencode(s: &str) -> (r: String)
    ensures
        r@ == url_text(s@),
{
    let bytes = s.as_bytes();
    let mut out = String::new();
    let mut i: usize = 0;
    assert(bytes@.take(0).len() == 0);
    assert(out@ == percented(bytes@.take(0)));
    while i < bytes.len()
        invariant
            i <= bytes@.len(),
            out@ == percented(bytes@.take(i as int)),
        decreases bytes.len() - i,
    {
        let b = bytes[i];
        let ghost before = out@;
        if (65 <= b && b <= 90) || (97 <= b && b <= 122) || (48 <= b && b <= 57) || b == 45 || b
            == 46 || b == 95 || b == 126 {
            out.push(b as char);
            assert(out@ == before + percent(b));
        } else {
            out.push('%');
            out.push(hex(b / 16));
            out.push(hex(b % 16));
            assert(out@ == before + percent(b));
        }
        assert(bytes@.take(i + 1).drop_last() == bytes@.take(i as int));
        assert(bytes@.take(i + 1).last() == b);
        i = i + 1;
    }
    assert(bytes@.take(bytes@.len() as int) == bytes@);
    out
}

pub open spec fn flag_char(on: bool) -> char {
    if on {
        '1'
    } else {
        '0'
    }
}

/// The purity that is asked for: without a key it is the one that needs none.
pub open spec fn granted(purity: Purity, api_key: Option<Seq<char>>) -> Purity {
    if api_key is Some {
        purity
    } else {
        Purity::Sfw
    }
}

/// A parameter where it is set.
pub open spec fn param_text(name: Seq<char>, value: Option<Seq<char>>) -> Seq<char> {
    match value {
        Some(v) => name + url_text(v),
        None => Seq::empty(),
    }
}

/// The parameters of a search.
pub open spec fn params_text(q: QueryView, api_key: Option<Seq<char>>) -> Seq<char> {
    "q="@ + url_text(q.q) + "&categories="@ + seq![
        flag_char(q.general),
        flag_char(q.anime),
        flag_char(q.people),
    ] + "&purity="@ + granted(q.purity, api_key).bits() + "&sorting="@ + q.sorting.word()
        + "&page="@ + digits(q.page as nat) + param_text("&atleast="@, q.atleast) + param_text(
        "&ratios="@,
        q.ratios,
    ) + param_text("&colors="@, q.color) + param_text("&apikey="@, api_key)
}

fn append_param(out: &mut String, name: &str, value: Option<&str>)
    ensures
        final(out)@ == old(out)@ + param_text(name@, opt_str(value)),
{
    let ghost before = out@;
    if let Some(v) = value {
        let text = urlencode(v);
        out.append(name);
        out.append(text.as_str());
    }
    assert(out@ == before + param_text(name@, opt_str(value)));
}

fn as_str(o: &Option<String>) -> (r: Option<&str>)
    ensures
        opt_str(r) == opt_text(*o),
{
    match o {
        Some(s) => Some(s.as_str()),
        None => None,
    }
}

fn flag(on: bool) -> (r: char)
    ensures
        r == flag_char(on),
{
    if on {
        '1'
    } else {
        '0'
    }
}

impl Query {
    /// The parameters, with the key's where there is one.
    pub fn params(&self, api_key: Option<&str>) -> (r: String)
        ensures
            r@ == params_text(self@, opt_str(api_key)),
    {
        let purity = if api_key.is_some() {
            self.purity
        } else {
            Purity::Sfw
        };
        let mut s = owned("q=");
        let text = urlencode(self.q.as_str());
        s.append(text.as_str());
        s.append("&categories=");
        let ghost before = s@;
        s.push(flag(self.general));
        s.push(flag(self.anime));
        s.push(flag(self.people));
        assert(s@ == before + seq![
            flag_char(self.general),
            flag_char(self.anime),
            flag_char(self.people),
        ]);
        s.append("&purity=");
        s.append(purity.mask());
        s.append("&sorting=");
        s.append(self.sorting.param());
        s.append("&page=");
        append_u64(&mut s, self.page as u64);
        append_param(&mut s, "&atleast=", as_str(&self.atleast));
        append_param(&mut s, "&ratios=", as_str(&self.ratios));
        append_param(&mut s, "&colors=", as_str(&self.color));
        append_param(&mut s, "&apikey=", api_key);
        s
    }
}

/// The colors that a search can name.
pub open spec fn all_colors() -> Seq<Seq<char>> {
    seq![
        "660000"@, "990000"@, "cc0000"@, "cc3333"@, "ea4c88"@, "993399"@, "663399"@, "333399"@,
        "0066cc"@, "0099cc"@, "66cccc"@, "77cc33"@, "669900"@, "336600"@, "666600"@, "999900"@,
        "cccc33"@, "ffff00"@, "ffcc33"@, "ff9900"@, "ff6600"@, "cc6633"@, "996633"@, "663300"@,
        "000000"@, "999999"@, "cccccc"@, "ffffff"@, "424153"@,
    ]
}

pub fn colors() -> (r: Vec<&'static str>)
    ensures
        r@.map_values(|c: &'static str| c@) == all_colors(),
{
    let r: Vec<&'static str> = vec![
        "660000", "990000", "cc0000", "cc3333", "ea4c88", "993399", "663399", "333399", "0066cc",
        "0099cc", "66cccc", "77cc33", "669900", "336600", "666600", "999900", "cccc33", "ffff00",
        "ffcc33", "ff9900", "ff6600", "cc6633", "996633", "663300", "000000", "999999", "cccccc",
        "ffffff", "424153",
    ];
    assert(r@.map_values(|c: &'static str| c@) =~= all_colors());
    r
}

// ------------------------------------------------------------------------- answers

#[derive(Debug, Clone, PartialEq, Eq)]
pub struct Thumbs {
    pub large: String,
    pub original: String,
    pub small: String,
}

/// A wallpaper that a search found.
#[derive(Debug, Clone, PartialEq, Eq)]
pub struct Wallpaper {
    pub id: String,
    /// The page about it.
    pub url: String,
    pub purity: String,
    pub category: String,
    pub dimension_x: u32,
    pub dimension_y: u32,
    pub resolution: String,
    pub ratio: String,
    pub file_size: u64,
    /// Such as `image/jpeg`.
    pub file_type: String,
    pub colors: Vec<String>,
    /// Where the image is.
    pub path: String,
    pub thumbs: Thumbs,
}

/// What stands behind the last dot; all of it where there is none.
pub open spec fn behind_dot(s: Seq<char>) -> Seq<char> {
    s.skip(last_dot(s) + 1)
}

/// The extension that a URL ends in.
pub fn url_ext(url: &str) -> (r: String)
    ensures
        r@ == behind_dot(url@),
{
    let s = chars(url);
    let k = after_last_dot(s.as_slice());
    string(rest(s.as_slice(), k))
}

pub open spec fn image_name(id: Seq<char>, path: Seq<char>) -> Seq<char> {
    "wallhaven-"@ + id + "."@ + behind_dot(path)
}

impl Wallpaper {
    pub fn ext(&self) -> (r: String)
        ensures
            r@ == behind_dot(self.path@),
    {
        url_ext(self.path.as_str())
    }

    /// The name that the image is kept under.
    pub fn file_name(&self) -> (r: String)
        ensures
            r@ == image_name(self.id@, self.path@),
    {
        let mut s = owned("wallhaven-");
        s.append(self.id.as_str());
        s.append(".");
        let ext = self.ext();
        s.append(ext.as_str());
        s
    }
}

#[derive(Debug, Clone, PartialEq, Eq)]
pub struct Meta {
    pub current_page: u32,
    pub last_page: u32,
    pub total: u64,
}

#[derive(Debug, Clone, PartialEq, Eq)]
pub struct SearchPage {
    pub data: Vec<Wallpaper>,
    pub meta: Meta,
}

// -------------------------------------------------------------------------- client

/// What the client knows between requests. Times are in nanoseconds from a
/// start of the caller's choice.
#[derive(Debug)]
pub struct Client {
    pub budget: RateBudget,
    pub base: String,
    pub api_key: Option<String>,
}

/// The error that an answer comes to, where it is one.
pub open spec fn reply_failure(url: Seq<char>, e: FetchError) -> Failure {
    Failure::External {
        cmd: "wallhaven"@,
        detail: match e {
            FetchError::Status(code) => if code == 429 {
                "rate limited (429) — backing off, retry in a moment"@
            } else {
                "HTTP "@ + digits(code as nat) + " from "@ + url
            },
            FetchError::Network(why) =>
                "wallhaven unreachable — check your connection; local features unaffected ("@
                + why@ + ")"@,
        },
    }
}

/// The budget once an answer has come, by the error that it was, where it was one.
pub open spec fn after_reply(b: BudgetView, now: u64, refused: Option<FetchError>) -> BudgetView {
    match refused {
        None => succeeded(b),
        Some(e) => if e == FetchError::Status(429) {
            throttled(b, now)
        } else {
            b
        },
    }
}

/// A thumbnail that is kept in a directory, by the names in it, or what there is
/// to fetch.
pub open spec fn thumb_wanted(
    dir: Seq<char>,
    id: Seq<char>,
    large: Seq<char>,
    names: Seq<Seq<char>>,
) -> WantedView {
    let k = first_with(names, id + "."@);
    if k < names.len() {
        WantedView::Here(path_join(dir, names[k]))
    } else {
        WantedView::Fetch { url: large, dest: path_join(dir, id + "."@ + behind_dot(large)) }
    }
}

impl Client {
    pub open spec fn wf(&self) -> bool {
        self.budget@.wf()
    }

    pub fn new(api_key: Option<String>) -> (r: Self)
        ensures
            r.wf(),
            r.budget@ == crate::wallhaven::budget::standard(),
            r.base@ == BASE_URL@,
            r.api_key == api_key,
    {
        Client { budget: RateBudget::default(), base: owned(BASE_URL), api_key }
    }

    /// The address of a search.
    pub fn search_url(&self, query: &Query) -> (r: String)
        ensures
            r@ == self.base@ + "/search?"@ + params_text(query@, opt_text(self.api_key)),
    {
        let mut s = owned(self.base.as_str());
        s.append("/search?");
        let params = query.params(as_str(&self.api_key));
        s.append(params.as_str());
        s
    }

    /// How long the next request has to wait.
    pub fn delay(&mut self, now: u64) -> (r: u64)
        requires
            old(self).wf(),
        ensures
            final(self).wf(),
            final(self).base@ == old(self).base@,
            final(self).api_key == old(self).api_key,
            (final(self).budget@, r) == waited(old(self).budget@, now),
    {
        self.budget.delay(now)
    }

    /// A request goes out now.
    pub fn sent(&mut self, now: u64)
        requires
            old(self).wf(),
        ensures
            final(self).wf(),
            final(self).base@ == old(self).base@,
            final(self).api_key == old(self).api_key,
            final(self).budget@ == recorded(old(self).budget@, now),
    {
        self.budget.record(now);
    }

    /// What an answer comes to: a body is handed on, and an error is told; that
    /// there were too many requests makes the next one wait.
    pub fn request(&mut self, url: &str, now: u64, reply: Result<Vec<u8>, FetchError>) -> (r:
        Result<Vec<u8>, StudioError>)
        requires
            old(self).wf(),
            now + 60_000_000_000 <= u64::MAX,
        ensures
            final(self).wf(),
            final(self).base@ == old(self).base@,
            final(self).api_key == old(self).api_key,
            match reply {
                Ok(body) => r == Ok::<Vec<u8>, StudioError>(body),
                Err(e) => r is Err && r->Err_0@ == reply_failure(url@, e),
            },
            final(self).budget@ == after_reply(
                old(self).budget@,
                now,
                match reply {
                    Ok(_) => None,
                    Err(e) => Some(e),
                },
            ),
    {
        match reply {
            Ok(body) => {
                self.budget.success();
                Ok(body)
            },
            Err(FetchError::Status(code)) => {
                if code == 429 {
                    self.budget.throttled(now);
                    return Err(
                        external(
                            "wallhaven",
                            "rate limited (429) — backing off, retry in a moment",
                        ),
                    );
                }
                let mut detail = owned("HTTP ");
                append_u64(&mut detail, code as u64);
                detail.append(" from ");
                detail.append(url);
                Err(external("wallhaven", detail.as_str()))
            },
            Err(FetchError::Network(why)) => {
                let mut detail = owned(
                    "wallhaven unreachable — check your connection; local features unaffected (",
                );
                detail.append(why.as_str());
                detail.append(")");
                Err(external("wallhaven", detail.as_str()))
            },
        }
    }

    /// Where an image is kept.
    pub fn download_path(wp: &Wallpaper, dir: &str) -> (r: String)
        ensures
            r@ == path_join(dir@, image_name(wp.id@, wp.path@)),
    {
        let name = wp.file_name();
        joined_path(dir, name.as_str())
    }

    /// What a search hands back, by what the body of its answer reads as.
    pub fn search(read: Result<SearchPage, &str>) -> (r: Result<SearchPage, StudioError>)
        ensures
            match read {
                Ok(page) => r == Ok::<SearchPage, StudioError>(page),
                Err(why) => r is Err && r->Err_0@ == (Failure::External {
                    cmd: "wallhaven"@,
                    detail: "unexpected response shape: "@ + why@,
                }),
            },
    {
        match read {
            Ok(page) => Ok(page),
            Err(why) => {
                let mut detail = owned("unexpected response shape: ");
                detail.append(why);
                Err(external("wallhaven", detail.as_str()))
            },
        }
    }

    /// A wallpaper's thumbnail: from the cache, whose directory holds `names`,
    /// or to be fetched into it.
    pub fn thumb(cache: &ThumbCache, wp: &Wallpaper, names: &Vec<String>) -> (r: Wanted)
        ensures
            r@ == thumb_wanted(cache.dir(), wp.id@, wp.thumbs.large@, texts(names@)),
    {
        match cache.get(wp.id.as_str(), names) {
            Some(hit) => Wanted::Here(hit),
            None => {
                let ext = url_ext(wp.thumbs.large.as_str());
                let dest = cache.file_for(wp.id.as_str(), ext.as_str());
                Wanted::Fetch { url: owned(wp.thumbs.large.as_str()), dest }
            },
        }
    }

    /// The image itself, kept in `dir`: what is there is not fetched again.
    pub fn download(wp: &Wallpaper, dir: &str, there: bool) -> (r: Wanted)
        ensures
            ({
                let dest = path_join(dir@, image_name(wp.id@, wp.path@));
                r@ == if there {
                    WantedView::Here(dest)
                } else {
                    WantedView::Fetch { url: wp.path@, dest }
                }
            }),
    {
        let dest = Client::download_path(wp, dir);
        if there {
            Wanted::Here(dest)
        } else {
            Wanted::Fetch { url: owned(wp.path.as_str()), dest }
        }
    }
}

/// A file that is wanted: there already, or still to be fetched.
#[derive(Debug, Clone, PartialEq, Eq)]
pub enum Wanted {
    Here(String),
    Fetch { url: String, dest: String },
}

/// What a wanted file says.
pub enum WantedView {
    Here(Seq<char>),
    Fetch { url: Seq<char>, dest: Seq<char> },
}

impl View for Wanted {
    type V = WantedView;

    open spec fn view(&self) -> WantedView {
        match self {
            Wanted::Here(path) => WantedView::Here(path@),
            Wanted::Fetch { url, dest } => WantedView::Fetch { url: url@, dest: dest@ },
        }
    }
}

} // verus!
