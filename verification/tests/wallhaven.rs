use studio_core::error::StudioError;
use studio_core::wallhaven::budget::{RateBudget, RATE_LIMIT, RATE_SPAN};
use studio_core::wallhaven::cache::{CachedFile, ThumbCache};
use studio_core::wallhaven::color::{nearest_color, Color};
use studio_core::wallhaven::key::{api_key_from, save_api_key_to, try_save_api_key};
use studio_core::wallhaven::{
    colors, url_ext, urlencode, Client, FetchError, Purity, Query, Sorting, Thumbs, Wallpaper, Wanted,
};

const SECOND: u64 = 1_000_000_000;

fn wallpaper() -> Wallpaper {
    Wallpaper {
        id: "94x38z".into(),
        url: "https://wallhaven.cc/w/94x38z".into(),
        purity: "sfw".into(),
        category: "anime".into(),
        dimension_x: 3840,
        dimension_y: 2160,
        resolution: "3840x2160".into(),
        ratio: "1.78".into(),
        file_size: 5_070_446,
        file_type: "image/jpeg".into(),
        colors: vec!["#000000".into()],
        path: "https://w.wallhaven.cc/full/94/wallhaven-94x38z.jpg".into(),
        thumbs: Thumbs {
            large: "https://th.wallhaven.cc/lg/94/94x38z.jpg".into(),
            original: "https://th.wallhaven.cc/orig/94/94x38z.jpg".into(),
            small: "https://th.wallhaven.cc/small/94/94x38z.jpg".into(),
        },
    }
}

#[test]
fn query_params_gate_purity_on_api_key() {
    let mut q = Query {
        q: "jade city".into(),
        people: true,
        purity: Purity::Sketchy,
        sorting: Sorting::Toplist,
        atleast: Some("2560x1440".into()),
        ratios: Some("16x9".into()),
        color: Some("336600".into()),
        page: 2,
        ..Query::default()
    };
    // anonymous: sketchy silently degrades to SFW-only
    assert_eq!(
        q.params(None),
        "q=jade%20city&categories=111&purity=100&sorting=toplist&page=2\
         &atleast=2560x1440&ratios=16x9&colors=336600"
    );
    // with a key the requested tier goes through, and the key is appended
    let with_key = q.params(Some("k3y"));
    assert!(with_key.contains("purity=110"), "{with_key}");
    assert!(with_key.ends_with("&apikey=k3y"), "{with_key}");

    q.anime = false;
    assert!(q.params(None).contains("categories=101"));
}

#[test]
fn nearest_color_maps_palette_slots_to_picker() {
    assert_eq!(nearest_color("#cc0000"), Some("cc0000"));
    assert_eq!(nearest_color("#f8f8f2"), Some("ffffff"));
    // osaka jade is a green-cyan — must land on teal, never the grey-navy
    // that raw RGB distance would pick
    assert_eq!(nearest_color("#0a9058"), Some("66cccc"));
    assert_eq!(nearest_color("not-a-color"), None);
}

#[test]
fn picker_colours_are_their_own_nearest() {
    for c in colors() {
        assert_eq!(nearest_color(c), Some(c));
    }
    assert_eq!(
        Color::parse("#0a9058"),
        Some(Color {
            r: 0x0a,
            g: 0x90,
            b: 0x58
        })
    );
    assert_eq!(Color::parse("#0a905"), None);
}

#[test]
fn a_wallpaper_names_its_file() {
    let wp = wallpaper();
    assert_eq!(wp.ext(), "jpg");
    assert_eq!(wp.file_name(), "wallhaven-94x38z.jpg");
    assert!(wp.thumbs.large.contains("th.wallhaven.cc"));
    assert_eq!(url_ext("https://x/y.PNG?z=1"), "PNG?z=1");
    assert_eq!(url_ext("https://x/y.png"), "png");
    assert_eq!(url_ext("no-dot"), "no-dot");
}

#[test]
fn rate_budget_window_and_backoff() {
    let start: u64 = 1_000 * SECOND;
    let mut b = RateBudget::new(3, 60 * SECOND);

    assert_eq!(b.delay(start), 0);
    for _ in 0..3 {
        b.record(start);
    }
    // window full: 4th request must wait for the window to roll over
    assert_eq!(b.delay(start + SECOND), 59 * SECOND);
    // …and is free again once the span has passed
    assert_eq!(b.delay(start + 61 * SECOND), 0);

    // 429s: exponential 2/4/8…, reset by a success
    b.throttled(start);
    assert_eq!(b.delay(start), 2 * SECOND);
    b.throttled(start);
    assert_eq!(b.delay(start), 4 * SECOND);
    for _ in 0..10 {
        b.throttled(start);
    }
    assert_eq!(b.delay(start), 60 * SECOND, "backoff caps at 60s");
    b.success();
    assert_eq!(b.delay(start + 61 * SECOND), 0);
}

#[test]
fn the_default_budget_is_the_sites_limit() {
    let mut b = RateBudget::default();
    for _ in 0..RATE_LIMIT {
        assert_eq!(b.delay(5), 0);
        b.record(5);
    }
    assert_eq!(b.delay(5), RATE_SPAN);
}

#[test]
fn thumb_cache_lru_evicts_oldest() {
    let cache = ThumbCache::new("/cache", 10);
    let a = cache.file_for("aaa", "jpg");
    let b = cache.file_for("bbb", "jpg");
    let c = cache.file_for("ccc", "jpg");
    let names = vec!["aaa.jpg".to_string(), "bbb.jpg".to_string()];
    assert_eq!(cache.get("aaa", &names), Some(a.clone()));

    // `a` was touched after `b`; 5 more bytes blow the 10-byte cap →
    // oldest-touched (`b`) is evicted
    let file = |path: &str, mtime: u64| CachedFile {
        mtime,
        len: 5,
        path: path.into(),
    };
    let mut run = cache.evict(vec![file(&a, 20), file(&b, 10), file(&c, 30)]);
    let (i, path) = run.next().unwrap();
    assert_eq!(path, b, "LRU entry evicted");
    run.settle(i, true);
    assert!(run.next().is_none(), "recently-touched entry survives");
    let left = vec!["aaa.jpg".to_string(), "ccc.jpg".to_string()];
    assert_eq!(cache.get("bbb", &left), None);
}

#[test]
fn a_file_that_cannot_be_dropped_is_passed_over() {
    let cache = ThumbCache::open_default("/studio");
    assert!(cache.directory().starts_with("/studio/"));
    let cache = ThumbCache::new("/cache", 5);
    let file = |path: &str, mtime: u64| CachedFile {
        mtime,
        len: 5,
        path: path.into(),
    };
    let mut run = cache.evict(vec![file("/cache/a", 1), file("/cache/b", 2)]);
    let (i, path) = run.next().unwrap();
    assert_eq!(path, "/cache/a");
    run.settle(i, false);
    let (i, path) = run.next().unwrap();
    assert_eq!(path, "/cache/b");
    run.settle(i, true);
    assert!(run.next().is_none());
}

#[test]
fn client_search_thumb_download_on_fixtures() {
    let mut client = Client::new(None);
    let url = client.search_url(&Query::default());
    assert!(url.starts_with("https://wallhaven.cc/api/v1/search?q=&categories=110&purity=100"));
    assert_eq!(client.delay(0), 0);
    client.sent(0);
    assert_eq!(
        client.request(&url, 1, Ok(b"thumbbytes".to_vec())).unwrap(),
        b"thumbbytes"
    );

    let wp = wallpaper();
    let cache = ThumbCache::new("/thumbs", 1024);
    let thumb = Client::thumb(&cache, &wp, &vec![]);
    assert_eq!(
        thumb,
        Wanted::Fetch {
            url: wp.thumbs.large.clone(),
            dest: "/thumbs/94x38z.jpg".into()
        }
    );
    // second call is a cache hit — no request
    assert_eq!(
        Client::thumb(&cache, &wp, &vec!["94x38z.jpg".to_string()]),
        Wanted::Here("/thumbs/94x38z.jpg".into())
    );

    let dest = "/dl/wallhaven-94x38z.jpg".to_string();
    assert_eq!(Client::download_path(&wp, "/dl"), dest);
    assert_eq!(
        Client::download(&wp, "/dl", false),
        Wanted::Fetch {
            url: wp.path.clone(),
            dest: dest.clone()
        }
    );
    // existing file short-circuits — still no extra request
    assert_eq!(Client::download(&wp, "/dl", true), Wanted::Here(dest));
}

#[test]
fn an_answer_of_another_shape_is_an_error() {
    let e = Client::search(Err("expected value")).unwrap_err();
    assert!(format!("{e:?}").contains("unexpected response shape: expected value"));
}

#[test]
fn client_429_arms_backoff_and_offline_is_friendly() {
    let mut client = Client::new(None);
    let url = client.search_url(&Query::default());

    let err = client
        .request(&url, 7, Err(FetchError::Status(429)))
        .unwrap_err();
    assert!(format!("{err:?}").contains("rate limited"));
    assert!(client.budget.delay(7) > 0, "429 must arm the backoff");
    client.budget.success();

    let err = client
        .request(&url, 8, Err(FetchError::Network("dns error".into())))
        .unwrap_err();
    assert!(format!("{err:?}").contains("wallhaven unreachable"));

    let err = client
        .request(&url, 9, Err(FetchError::Status(500)))
        .unwrap_err();
    assert!(format!("{err:?}").contains("500"), "{err:?}");
}

#[test]
fn api_key_read_from_config_toml() {
    assert_eq!(api_key_from(None), None, "missing file is fine");
    assert_eq!(
        api_key_from(Some("[wallhaven]\napi_key = \"abc123\"\n")),
        Some("abc123".into())
    );
    assert_eq!(
        api_key_from(Some("[wallhaven]\napi_key = \"\"\n")),
        None,
        "empty key = no key"
    );
}

#[test]
fn saving_a_key_round_trips_and_keeps_other_settings() {
    // Writes into a file that doesn't exist yet, as a real section rather
    // than the inline `wallhaven = { .. }` that indexing alone produces.
    let text = save_api_key_to("/c.toml", "", "abc123").unwrap();
    assert_eq!(api_key_from(Some(&text)), Some("abc123".into()));
    assert!(
        text.contains("[wallhaven]"),
        "expected a [wallhaven] section"
    );

    // Someone else's settings must survive a key write — the config is
    // shared with [targets] and [themesync].
    let shared = format!("# my notes\n[themesync]\ntools = [\"fzf\"]\n\n{text}");
    let after = save_api_key_to("/c.toml", &shared, "  xyz789  ").unwrap();
    assert_eq!(api_key_from(Some(&after)), Some("xyz789".into()), "trimmed");
    assert!(after.contains("# my notes"), "{after}");
    assert!(after.contains("tools = [\"fzf\"]"), "{after}");
}

#[test]
fn saving_an_empty_key_clears_it() {
    let text = save_api_key_to("/c.toml", "", "abc123").unwrap();
    let text = save_api_key_to("/c.toml", &text, "   ").unwrap();
    assert_eq!(api_key_from(Some(&text)), None);
    // Cleared, not stored as an empty string that would be sent as a key.
    assert!(!text.contains("api_key"));
}

#[test]
fn a_broken_config_is_reported_not_overwritten() {
    let e = save_api_key_to("/c.toml", "this is not [ valid toml\n", "abc123").unwrap_err();
    assert!(matches!(e, StudioError::ParseFailed { .. }), "{e:?}");
    // the same through the call that takes any config
    let tried = try_save_api_key("/c.toml", "this is not [ valid toml\n", "abc123");
    assert_eq!(tried, Some(Err(e)));
}

#[test]
fn a_config_without_room_for_a_section_is_declined() {
    assert!(try_save_api_key("/c.toml", "wallhaven = 3\n", "abc123").is_none());
    assert!(try_save_api_key("/c.toml", "", "abc123").unwrap().is_ok());
    assert!(try_save_api_key("/c.toml", "", &"'".repeat(300)).is_none());
}

#[test]
fn odd_keys_are_written_so_that_they_read_back() {
    for key in [
        "a\"b'c",
        "back\\slash",
        "\"\"\"QQQ",
        "two\nlines",
        "\u{7f}bell\u{7}é",
    ] {
        let key = key.replace('Q', "'");
        let text = save_api_key_to("/c.toml", "[other]\nx = 1\n", &key).unwrap();
        assert_eq!(api_key_from(Some(&text)), Some(key), "{text}");
        assert!(text.contains("x = 1"));
    }
}

#[test]
fn urls_hold_plain_characters_only() {
    assert_eq!(urlencode("a b&c=é~"), "a%20b%26c%3D%C3%A9~");
    assert_eq!(urlencode("A-z_0.9"), "A-z_0.9");
}

#[test]
fn sortings_and_purities_have_their_words() {
    assert_eq!(Sorting::all().len(), 6);
    assert_eq!(Sorting::DateAdded.param(), "date_added");
    assert_eq!(Purity::Nsfw.mask(), "111");
    assert_eq!(Purity::default(), Purity::Sfw);
    assert_eq!(Sorting::default(), Sorting::Relevance);
}

#[test]
fn a_key_leaves_tables_floats_dates_and_comments_alone() {
    let text = "# top\nratio = 1.50 # kept\n\n[[hooks]]\n# first\nrun = \"a\"\n\n[[hooks]]\n\n\
                [wallhaven]\n# the key\napi_key = \"old\"\nsince = 1979-05-27T07:32:00Z\n";
    let now = save_api_key_to("/c.toml", text, "new").unwrap();
    assert_eq!(now, text.replace("old", "new"));
    let none = save_api_key_to("/c.toml", text, "").unwrap();
    assert_eq!(none, text.replace("# the key\napi_key = \"old\"\n", ""));
}

#[test]
fn a_fetched_thumbnail_is_found_beside_others() {
    let cache = ThumbCache::new("/thumbs", 10);
    let wp = wallpaper();
    let names = vec!["94x38.png".to_string(), "zz.jpg".to_string()];
    let dest = match Client::thumb(&cache, &wp, &names) {
        Wanted::Fetch { dest, .. } => dest,
        other => panic!("{other:?}"),
    };
    let later = vec!["zz.jpg".to_string(), "94x38z.jpg".to_string()];
    assert_eq!(Client::thumb(&cache, &wp, &later), Wanted::Here(dest));
}

#[test]
fn a_wait_is_no_longer_than_it_must_be() {
    let mut b = RateBudget::new(1, 10);
    b.record(5);
    assert_eq!(b.delay(7), 8);
    assert!(b.delay(14) > 0);
    assert_eq!(b.delay(15), 0);
}

#[test]
fn the_newest_thumbnail_that_fits_stays() {
    let cache = ThumbCache::new("/cache", 10);
    let file = |path: &str, mtime: u64, len: u64| CachedFile {
        mtime,
        len,
        path: path.into(),
    };
    let mut run = cache.evict(vec![file("/n", 9, 10), file("/a", 1, 7), file("/b", 2, 7)]);
    let mut gone = vec![];
    while let Some((i, path)) = run.next() {
        gone.push(path);
        run.settle(i, true);
    }
    assert_eq!(gone, ["/a", "/b"]);
}

#[test]
fn clearing_a_key_keeps_the_other_comments() {
    let text = "# top\n[wallhaven]\nsort = 1 # by date\n\n# mine\napi_key = \"k\" # old\n# next\n\
                page = 2 # two\n[x]\n# tail\n";
    let now = save_api_key_to("/c.toml", text, "").unwrap();
    assert_eq!(
        now,
        "# top\n[wallhaven]\nsort = 1 # by date\n# next\npage = 2 # two\n[x]\n# tail\n"
    );
    let set = save_api_key_to("/c.toml", text, "n").unwrap();
    assert_eq!(set, text.replace("\"k\" # old", "\"n\""));
}

/// Whether a line has a comment on it that must stay where the key is not touched.
fn has_comment(line: &str) -> bool {
    let bare = |k: &str| {
        !k.is_empty()
            && k.chars()
                .all(|c| c.is_ascii_alphanumeric() || c == '_' || c == '-')
    };
    let row = line.split_once('=').is_some_and(|(k, _)| bare(k.trim()));
    !line.contains("\"\"\"")
        && !line.contains("'''")
        && (line.trim_start().starts_with('#')
            || row && line.contains('#') && !line.contains('{'))
}

#[test]
fn comments_stay_wherever_they_stand() {
    let texts = [
        "a.b = 1 # one\nc = 2 # two\na.d = 3 # three\n# end",
        "\u{feff}# first\nx = 1 # x\n",
        "# crlf\r\nx = 1 # x\r\n\r\n[t] # head\r\n  # in\r\n  y = [ # open\r\n    1, # el\r\n    # alone\r\n  ] # close\r\n",
        "[wallhaven]\n# about x\nx = \"#1\" # hash\n[[hooks]]\n# h1\nrun = 'a' # r1\n[[hooks]] # second\n[hooks.sub]\n# deep\nz = 1_000 # z\n",
        "k = { a.b = 1, c = [ # in\n# lone\n1 ], a.d = 2 } # out\nn = -0 # neg\n",
        "s = \"\"\"\n# not a comment\nfoo = 1 # nor this\n\"\"\"\nt = '''\n# x\n'''\nu = 1979-05-27 # day\n",
        "[a.b]\nv = 1 # v\n# before a\n[a]\nw = inf # w\n# tail\n\n",
        "wallhaven.page = 2 # dotted\n# plain\nq = 0x1F # hex\n",
        "wallhaven = { page = [ # in\n  # lone\n  1 ] }\nq = true # yes\n",
        "[targets] # t\n# m\n[targets.waybar]\nconfig = \"/a\" # c\n",
        "e = [] # none\nf = [ ] # blank\ng = [[1], [2]] # nested\n# h\n[h]\n# only\n",
    ];
    for text in texts {
        for key in ["new", ""] {
            let now = save_api_key_to("/c.toml", text, key).unwrap();
            for line in text.lines().filter(|l| has_comment(l)) {
                assert!(now.lines().any(|l| l == line), "{line:?} of {text:?} in {now:?}");
            }
        }
    }
}

#[test]
fn clearing_takes_only_what_stands_in_front_of_the_key() {
    for (text, gone) in [
        ("[wallhaven]\n# a\n\n  # b\napi_key = 'k'\n# c\nx = 1\n", vec!["# a", "  # b"]),
        ("# a\nwallhaven.api_key = 3 # k\n# c\nx = 1 # d\n", vec!["# a"]),
        ("# a\n[wallhaven]\n\"api_key\" = 1.5\n[z]\napi_key = 1 # other\n", vec![]),
        ("[wallhaven]\n# a\n\"api\\u005fkey\" = true\n# b\n", vec!["# a"]),
    ] {
        let now = save_api_key_to("/c.toml", text, " ").unwrap();
        assert_eq!(api_key_from(Some(&now)), None);
        for line in text.lines().filter(|l| has_comment(l)) {
            let there = now.lines().any(|l| l == line);
            let own = line.trim_start().starts_with("api_key") && !line.contains("other");
            assert_eq!(there, !gone.contains(&line) && !own, "{line:?} in {now:?}");
        }
    }
}
