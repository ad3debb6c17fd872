use wisp_cli::blob_map::extract_blob_map;
use wisp_cli::metadata::{SiteMetadata, METADATA_FILE};
use wisp_cli::pull::{
    diff, download_directory, file_cids, is_stale_staging, staging_name, staging_prefix, BlobDiff,
    FileAction, FileTask,
};
use wisp_cli::text::starts_with;
use wisp_cli::string_map::StringMap;
use wisp_cli::tree::{BlobRef, Directory, Entry, EntryNode, File, Subfs};

fn blob(cid: &str) -> BlobRef {
    BlobRef { cid: cid.to_string(), mime_type: "application/octet-stream".to_string(), size: 9 }
}

fn file(name: &str, cid: &str) -> Entry {
    Entry {
        name: name.to_string(),
        node: EntryNode::File(Box::new(File {
            blob: blob(cid),
            encoding: Some("gzip".to_string()),
            mime_type: Some("text/html".to_string()),
            base64: Some(true),
        })),
    }
}

fn raw_file(name: &str, cid: &str) -> Entry {
    Entry {
        name: name.to_string(),
        node: EntryNode::File(Box::new(File {
            blob: blob(cid),
            encoding: Some("identity".to_string()),
            mime_type: None,
            base64: None,
        })),
    }
}

fn dir(name: &str, entries: Vec<Entry>) -> Entry {
    Entry { name: name.to_string(), node: EntryNode::Directory(Box::new(Directory { entries })) }
}

fn cids(pairs: &[(&str, &str)]) -> StringMap<String> {
    let mut map = StringMap::new();
    for (path, cid) in pairs {
        map.insert(path.to_string(), cid.to_string());
    }
    map
}

fn site() -> Directory {
    Directory {
        entries: vec![
            file("index.html", "c1"),
            dir("assets", vec![file("app.js", "c2"), dir("img", vec![raw_file("a.png", "c3")])]),
            Entry {
                name: "left".to_string(),
                node: EntryNode::Subfs(Box::new(Subfs {
                    subject: "at://d/place.wisp.subfs/k".to_string(),
                    flat: false,
                })),
            },
            Entry { name: "odd".to_string(), node: EntryNode::Unknown },
            file("about.html", "c4"),
        ],
    }
}

#[test]
fn download_directory_plans_every_file() {
    let tree = site();
    let new_blobs = extract_blob_map(&tree);
    let previous =
        cids(&[("index.html", "c1"), ("assets/app.js", "older"), ("gone.html", "c9"), ("assets/img/a.png", "c3")]);
    let plan = download_directory(&tree, &new_blobs, &previous, String::new());
    assert_eq!(plan.directories, vec!["assets", "assets/img"]);
    assert_eq!(plan.skipped, vec!["left", "odd"]);
    assert_eq!(
        plan.files,
        vec![
            FileTask {
                path: "index.html".to_string(),
                blob: blob("c1"),
                base64: true,
                gzip: true,
                reusable: true,
            },
            FileTask {
                path: "assets/app.js".to_string(),
                blob: blob("c2"),
                base64: true,
                gzip: true,
                reusable: false,
            },
            FileTask {
                path: "assets/img/a.png".to_string(),
                blob: blob("c3"),
                base64: false,
                gzip: false,
                reusable: true,
            },
            FileTask {
                path: "about.html".to_string(),
                blob: blob("c4"),
                base64: true,
                gzip: true,
                reusable: false,
            },
        ]
    );
}

#[test]
fn download_directory_without_a_snapshot_downloads_all() {
    let tree = site();
    let plan = download_directory(&tree, &extract_blob_map(&tree), &StringMap::new(), String::new());
    assert_eq!(plan.files.len(), 4);
    assert!(plan.files.iter().all(|t| !t.reusable));
    assert!(plan.files.iter().all(|t| t.action(true) == FileAction::Download));
}

#[test]
fn download_directory_below_a_prefix() {
    let tree = Directory { entries: vec![dir("d", vec![file("f", "c")])] };
    let plan = download_directory(&tree, &extract_blob_map(&tree), &StringMap::new(), "base".to_string());
    assert_eq!(plan.directories, vec!["base/d"]);
    assert_eq!(plan.files[0].path, "base/d/f");
}

#[test]
fn a_file_is_copied_only_if_it_is_still_on_disk() {
    let task = |reusable| FileTask {
        path: "p".to_string(),
        blob: blob("c"),
        base64: true,
        gzip: true,
        reusable,
    };
    assert_eq!(task(true).action(true), FileAction::Copy);
    assert_eq!(task(true).action(false), FileAction::Download);
    assert_eq!(task(false).action(true), FileAction::Download);
    assert_eq!(task(false).action(false), FileAction::Download);
}

#[test]
fn staging_names() {
    assert_eq!(staging_prefix("site"), ".tmp-site-");
    assert_eq!(staging_name("site", "1700000000"), ".tmp-site-1700000000");
    assert_eq!(staging_name("", ""), ".tmp--");
    assert!(is_stale_staging(".tmp-site-1700000000", "site"));
    assert!(is_stale_staging(".tmp-site-", "site"));
    assert!(!is_stale_staging(".tmp-site", "site"));
    assert!(!is_stale_staging(".tmp-other-1700000000", "site"));
    assert!(!is_stale_staging("site", "site"));
    assert!(!is_stale_staging("x.tmp-site-1", "site"));
}

#[test]
fn starts_with_compares_the_beginning() {
    assert!(starts_with("abc", ""));
    assert!(starts_with("abc", "ab"));
    assert!(starts_with("abc", "abc"));
    assert!(!starts_with("abc", "abcd"));
    assert!(!starts_with("abc", "b"));
    assert!(starts_with("\u{e9}t\u{e9}", "\u{e9}t"));
}

#[test]
fn file_cids_keeps_path_and_content() {
    let tree = site();
    let map = file_cids(&extract_blob_map(&tree));
    assert_eq!(map.len(), 4);
    assert_eq!(map.get("index.html"), Some(&"c1".to_string()));
    assert_eq!(map.get("assets/app.js"), Some(&"c2".to_string()));
    assert_eq!(map.get("assets/img/a.png"), Some(&"c3".to_string()));
    assert_eq!(map.get("about.html"), Some(&"c4".to_string()));
    assert_eq!(map.get("left"), None);
}

#[test]
fn diff_sorts_paths_into_four() {
    let old = cids(&[("same", "c1"), ("edited", "c2"), ("deleted", "c3"), ("also-deleted", "c4")]);
    let new = cids(&[("created", "c5"), ("edited", "c2b"), ("same", "c1")]);
    assert_eq!(
        diff(&old, &new),
        BlobDiff {
            unchanged: vec!["same".to_string()],
            changed: vec!["edited".to_string()],
            added: vec!["created".to_string()],
            removed: vec!["deleted".to_string(), "also-deleted".to_string()],
        }
    );
}

#[test]
fn diff_of_equal_and_of_empty_states() {
    let state = cids(&[("a", "c1"), ("b", "c2")]);
    let none: StringMap<String> = StringMap::new();
    let same = diff(&state, &state);
    assert_eq!(same.unchanged, vec!["a", "b"]);
    assert!(same.changed.is_empty() && same.added.is_empty() && same.removed.is_empty());
    let first = diff(&none, &state);
    assert_eq!(first.added, vec!["a", "b"]);
    assert!(first.unchanged.is_empty() && first.changed.is_empty() && first.removed.is_empty());
    let wiped = diff(&state, &none);
    assert_eq!(wiped.removed, vec!["a", "b"]);
    assert!(wiped.unchanged.is_empty() && wiped.changed.is_empty() && wiped.added.is_empty());
}

#[test]
fn metadata_new_keeps_what_it_is_given() {
    let before = std::time::SystemTime::now()
        .duration_since(std::time::UNIX_EPOCH)
        .unwrap()
        .as_secs() as i64;
    let metadata = SiteMetadata::new("record-cid".to_string(), cids(&[("a", "c1")]));
    assert_eq!(metadata.record_cid, "record-cid");
    assert_eq!(metadata.file_cids.len(), 1);
    assert_eq!(metadata.file_cids.get("a"), Some(&"c1".to_string()));
    assert!(metadata.last_sync >= before);
    assert!(metadata.last_sync <= before + 60);
    let fixed = SiteMetadata::at("r".to_string(), StringMap::new(), 1700000000);
    assert_eq!(fixed.last_sync, 1700000000);
    assert_eq!(METADATA_FILE, ".wisp-metadata.json");
}

#[test]
fn metadata_is_current_needs_record_directory_and_files() {
    let metadata = SiteMetadata::at("r1".to_string(), cids(&[("a", "c1"), ("b", "c2")]), 0);
    assert!(metadata.is_current("r1", true, 2));
    assert!(!metadata.is_current("r1", true, 3));
    assert!(!metadata.is_current("r1", true, 1));
    assert!(!metadata.is_current("r1", false, 2));
    assert!(!metadata.is_current("r2", true, 2));
    let empty = SiteMetadata::at("r1".to_string(), StringMap::new(), 0);
    assert!(empty.is_current("r1", true, 0));
    assert!(!empty.is_current("r1", true, 1));
}
