use wisp_cli::redirects::RedirectMatch;
use wisp_cli::serve::{
    asks_for_directory, comes_before, directory_listing, file_goes_first, not_found_fallback,
    parse_query, redirect_action, relative_path, settings_changed, site_update, stream_scheme,
    Fallback, ListingItem, RedirectAction, RepoOp, Settings, SiteUpdate,
};

fn op(path: &str, action: &str) -> RepoOp {
    RepoOp { path: path.to_string(), action: action.to_string() }
}

fn item(name: &str, is_dir: bool) -> ListingItem {
    ListingItem { name: name.to_string(), is_dir }
}

const HEAD: &str = "<!DOCTYPE html><html><head><meta charset='utf-8'><title>Directory listing</title><style>body{font-family:sans-serif;margin:2em}a{display:block;padding:0.5em;text-decoration:none;color:#0066cc}a:hover{background:#f0f0f0}</style></head><body>";

#[test]
fn parse_query_reads_pairs() {
    let params = parse_query("a=1&b=two&flag&c=x=y&=v&k=&a=3");
    assert_eq!(params.len(), 5);
    assert_eq!(params.get("a"), Some(&"3".to_string()));
    assert_eq!(params.get("b"), Some(&"two".to_string()));
    assert_eq!(params.get("c"), Some(&"x=y".to_string()));
    assert_eq!(params.get(""), Some(&"v".to_string()));
    assert_eq!(params.get("k"), Some(&"".to_string()));
    assert_eq!(params.get("flag"), None);
    assert_eq!(params.key_at(0), "a");
    assert_eq!(parse_query("").len(), 0);
}

#[test]
fn redirect_action_by_status() {
    assert_eq!(redirect_action(200), RedirectAction::Rewrite);
    assert_eq!(redirect_action(301), RedirectAction::Permanent);
    assert_eq!(redirect_action(302), RedirectAction::Temporary);
    assert_eq!(redirect_action(404), RedirectAction::NotFoundPage);
    assert_eq!(redirect_action(307), RedirectAction::ServeRequest);
    assert_eq!(redirect_action(0), RedirectAction::ServeRequest);
}

#[test]
fn a_forced_rule_goes_before_the_file() {
    let found = |force| RedirectMatch { target_path: "/t".to_string(), status: 301, force };
    assert!(file_goes_first(&found(false)));
    assert!(!file_goes_first(&found(true)));
}

#[test]
fn fallback_for_a_missing_file() {
    let settings = |listing, spa: Option<&str>, custom: Option<&str>| {
        Some(Settings {
            directory_listing: listing,
            spa_mode: spa.map(|s| s.to_string()),
            custom404: custom.map(|s| s.to_string()),
        })
    };
    assert_eq!(not_found_fallback(&None, true), Fallback::NotFound);
    assert_eq!(not_found_fallback(&settings(None, None, None), true), Fallback::NotFound);
    assert_eq!(
        not_found_fallback(&settings(Some(true), Some("index.html"), Some("404.html")), true),
        Fallback::Spa("index.html".to_string())
    );
    assert_eq!(
        not_found_fallback(&settings(Some(true), None, Some("404.html")), true),
        Fallback::Listing
    );
    assert_eq!(
        not_found_fallback(&settings(Some(true), None, Some("404.html")), false),
        Fallback::Custom404("404.html".to_string())
    );
    assert_eq!(
        not_found_fallback(&settings(Some(false), None, Some("404.html")), true),
        Fallback::Custom404("404.html".to_string())
    );
    assert_eq!(not_found_fallback(&settings(Some(true), None, None), false), Fallback::NotFound);
    assert!(asks_for_directory(&settings(Some(true), None, None)));
    assert!(!asks_for_directory(&settings(Some(true), Some("index.html"), None)));
    assert!(!asks_for_directory(&settings(Some(false), None, None)));
    assert!(!asks_for_directory(&settings(None, None, None)));
    assert!(!asks_for_directory(&None));
}

#[test]
fn relative_path_drops_leading_slashes() {
    assert_eq!(relative_path("/index.html"), "index.html");
    assert_eq!(relative_path("///a/b"), "a/b");
    assert_eq!(relative_path("a/b/"), "a/b/");
    assert_eq!(relative_path("/"), "");
    assert_eq!(relative_path(""), "");
}

#[test]
fn site_update_of_a_commit() {
    let last = "commit1".to_string();
    let written = vec![op("app.bsky.feed.post/1", "create"), op("place.wisp.fs/site", "update")];
    assert_eq!(site_update(&written, "site", "commit2", Some(&last)), SiteUpdate::Pull);
    assert_eq!(site_update(&written, "site", "commit2", None), SiteUpdate::Pull);
    assert_eq!(site_update(&written, "site", "commit1", Some(&last)), SiteUpdate::Nothing);
    assert_eq!(site_update(&written, "other", "commit2", Some(&last)), SiteUpdate::Nothing);
    let created = vec![op("place.wisp.fs/site", "create")];
    assert_eq!(site_update(&created, "site", "c", None), SiteUpdate::Pull);
    let deleted = vec![op("place.wisp.fs/site", "delete")];
    assert_eq!(site_update(&deleted, "site", "c", None), SiteUpdate::Deleted);
    let both = vec![op("place.wisp.fs/site", "delete"), op("place.wisp.fs/site", "create")];
    assert_eq!(site_update(&both, "site", "c", None), SiteUpdate::Pull);
    let odd = vec![op("place.wisp.fs/site", "rename")];
    assert_eq!(site_update(&odd, "site", "c", None), SiteUpdate::Nothing);
    assert_eq!(site_update(&vec![], "site", "c", None), SiteUpdate::Nothing);
    let settings = vec![op("place.wisp.settings/site", "update")];
    assert_eq!(site_update(&settings, "site", "c", None), SiteUpdate::Nothing);
    assert!(settings_changed(&settings, "site"));
    assert!(!settings_changed(&settings, "other"));
    assert!(!settings_changed(&written, "site"));
}

#[test]
fn stream_scheme_follows_the_server() {
    assert_eq!(stream_scheme("https"), "wss");
    assert_eq!(stream_scheme("http"), "ws");
    assert_eq!(stream_scheme(""), "ws");
}

#[test]
fn comes_before_is_the_order_of_strings() {
    let samples = ["", "a", "ab", "b", "a/", "A", "\u{e9}", "z", "aa", "a0"];
    for a in samples {
        for b in samples {
            assert_eq!(comes_before(a, b), a < b);
        }
    }
}

#[test]
fn directory_listing_of_the_root() {
    let html = directory_listing("/", &vec![item("b.txt", false), item("docs", true), item("a.txt", false)]);
    assert_eq!(
        html,
        format!(
            "{}<h1>Index of /</h1><hr><a href='/docs'>docs/</a><a href='/a.txt'>a.txt</a><a href='/b.txt'>b.txt</a></body></html>",
            HEAD
        )
    );
}

#[test]
fn directory_listing_below_the_root() {
    let items = vec![item("z", false), item("sub", true), item("other", true), item("a", false)];
    assert_eq!(
        directory_listing("/docs/api", &items),
        format!(
            "{}<h1>Index of /docs/api</h1><hr><a href='/docs/'>../</a><a href='/docs/api/other'>other/</a><a href='/docs/api/sub'>sub/</a><a href='/docs/api/a'>a</a><a href='/docs/api/z'>z</a></body></html>",
            HEAD
        )
    );
    assert_eq!(
        directory_listing("/docs/", &vec![item("x", false)]),
        format!(
            "{}<h1>Index of /docs/</h1><hr><a href='/docs/../'>../</a><a href='/docs/x'>x</a></body></html>",
            HEAD
        )
    );
    assert_eq!(
        directory_listing("/docs", &vec![]),
        format!("{}<h1>Index of /docs</h1><hr><a href='/'>../</a></body></html>", HEAD)
    );
    assert_eq!(
        directory_listing("docs", &vec![]),
        format!("{}<h1>Index of docs</h1><hr><a href='//'>../</a></body></html>", HEAD)
    );
}
