use wisp_cli::blob_map::{extract_blob_map, extract_subfs_blobs, BlobInfo, BlobMap};
use wisp_cli::cid::compute_cid;
use wisp_cli::deploy::{
    build_directory, decide_file, merge_subfs_blob_maps, prepare_file, process_file,
    reusable_blob, should_skip, stored_file, BuiltDirectory, FileOutcome, UPLOAD_MIME,
};
use wisp_cli::download::{compress_blob, decompress_blob};
use wisp_cli::shard::{Budgets, SplitState, SplitStep};
use wisp_cli::string_map::StringMap;
use wisp_cli::tree::{
    count_files_in_directory, BlobRef, Directory, Entry, EntryNode, File, Subfs,
};

struct Store {
    uploads: Vec<String>,
}

fn deploy(files: &[(&str, &[u8])], existing: &BlobMap, store: &mut Store) -> BuiltDirectory {
    let mut results = Vec::new();
    for (name, data) in files {
        let (file, reused) = match process_file(data, name, name, existing).unwrap() {
            FileOutcome::Reused(file) => (file, true),
            FileOutcome::NeedsUpload(prepared) => {
                store.uploads.push(name.to_string());
                let blob = BlobRef {
                    cid: compute_cid(&prepared.stored),
                    mime_type: UPLOAD_MIME.to_string(),
                    size: prepared.stored.len() as u64,
                };
                (stored_file(blob, prepared.mime_type), false)
            }
        };
        results.push((Entry { name: name.to_string(), node: EntryNode::File(Box::new(file)) }, reused));
    }
    build_directory(results, Vec::new())
}

fn plain_file(name: &str, cid: &str) -> Entry {
    Entry {
        name: name.to_string(),
        node: EntryNode::File(Box::new(File {
            blob: BlobRef { cid: cid.to_string(), mime_type: "m".to_string(), size: 1 },
            encoding: None,
            mime_type: None,
            base64: None,
        })),
    }
}

fn info(cid: &str) -> BlobInfo {
    BlobInfo {
        blob: BlobRef { cid: cid.to_string(), mime_type: "m".to_string(), size: 1 },
        cid: cid.to_string(),
    }
}

#[test]
fn idempotent_redeploy_uploads_nothing() {
    let files: [(&str, &[u8]); 3] =
        [("index.html", b"<html></html>"), ("app.js", b"let x = 1;"), ("empty", b"")];
    let mut store = Store { uploads: Vec::new() };
    let first = deploy(&files, &StringMap::new(), &mut store);
    assert_eq!(store.uploads, vec!["index.html", "app.js", "empty"]);
    assert_eq!(first.total_files, 3);
    assert_eq!(first.reused_files, 0);

    let previous = extract_blob_map(&first.directory);
    let mut store = Store { uploads: Vec::new() };
    let second = deploy(&files, &previous, &mut store);
    assert!(store.uploads.is_empty());
    assert_eq!(second.total_files, 3);
    assert_eq!(second.reused_files, second.total_files);
    assert_eq!(second.directory, first.directory);
}

#[test]
fn a_single_changed_file_is_the_only_upload() {
    let mut store = Store { uploads: Vec::new() };
    let first = deploy(&[("a", b"hello"), ("b", b"world")], &StringMap::new(), &mut store);
    assert_eq!(store.uploads.len(), 2);

    let previous = extract_blob_map(&first.directory);
    let mut store = Store { uploads: Vec::new() };
    let second = deploy(&[("a", b"hello"), ("b", b"world!")], &previous, &mut store);
    assert_eq!(store.uploads, vec!["b"]);
    assert_eq!(second.total_files, 2);
    assert_eq!(second.reused_files, 1);
    assert_eq!(second.directory.entries[0], first.directory.entries[0]);
    assert_ne!(second.directory.entries[1], first.directory.entries[1]);
}

#[test]
fn the_same_content_under_another_path_is_uploaded() {
    let mut store = Store { uploads: Vec::new() };
    let first = deploy(&[("a", b"hello")], &StringMap::new(), &mut store);
    let previous = extract_blob_map(&first.directory);
    let mut store = Store { uploads: Vec::new() };
    deploy(&[("renamed", b"hello")], &previous, &mut store);
    assert_eq!(store.uploads, vec!["renamed"]);
}

#[test]
fn prepare_file_gzips_encodes_and_names() {
    let prepared = prepare_file(b"hello world", "site/index.html").unwrap();
    assert_eq!(prepared.stored, compress_blob(b"hello world").unwrap());
    assert_eq!(prepared.cid, compute_cid(&prepared.stored));
    assert_ne!(prepared.cid, compute_cid(b"hello world"));
    assert_eq!(decompress_blob(&prepared.stored, true, true).unwrap(), b"hello world".to_vec());
    assert_eq!(prepared.mime_type, "text/html");
    assert_eq!(prepare_file(b"x", "no_extension").unwrap().mime_type, "application/octet-stream");
    assert_eq!(prepare_file(b"x", "a/b/style.CSS").unwrap().mime_type, "text/css");
}

#[test]
fn reusable_blob_needs_path_and_content() {
    let mut existing: BlobMap = StringMap::new();
    existing.insert("a/b.txt".to_string(), info("cid1"));
    assert_eq!(reusable_blob(&existing, "a/b.txt", "cid1"), Some(&info("cid1").blob));
    assert_eq!(reusable_blob(&existing, "a/b.txt", "cid2"), None);
    assert_eq!(reusable_blob(&existing, "b.txt", "cid1"), None);
    assert_eq!(reusable_blob(&StringMap::new(), "a/b.txt", "cid1"), None);
}

#[test]
fn decide_file_reuses_or_hands_back() {
    let prepared = prepare_file(b"content", "x.txt").unwrap();
    let mut existing: BlobMap = StringMap::new();
    existing.insert(
        "x.txt".to_string(),
        BlobInfo {
            blob: BlobRef { cid: prepared.cid.clone(), mime_type: "old/mime".to_string(), size: 7 },
            cid: prepared.cid.clone(),
        },
    );
    let again = prepare_file(b"content", "x.txt").unwrap();
    match decide_file(again, "x.txt", &existing) {
        FileOutcome::Reused(file) => {
            assert_eq!(file.blob.mime_type, "old/mime");
            assert_eq!(file.blob.size, 7);
            assert_eq!(file.encoding, Some("gzip".to_string()));
            assert_eq!(file.base64, Some(true));
            assert_eq!(file.mime_type, Some("text/plain".to_string()));
        }
        other => panic!("{:?}", other),
    }
    let changed = prepare_file(b"other content", "x.txt").unwrap();
    assert_eq!(
        decide_file(prepare_file(b"other content", "x.txt").unwrap(), "x.txt", &existing),
        FileOutcome::NeedsUpload(changed)
    );
}

#[test]
fn stored_file_describes_the_stored_form() {
    let blob = BlobRef { cid: "c".to_string(), mime_type: UPLOAD_MIME.to_string(), size: 3 };
    assert_eq!(
        stored_file(blob.clone(), "image/png".to_string()),
        File {
            blob,
            encoding: Some("gzip".to_string()),
            mime_type: Some("image/png".to_string()),
            base64: Some(true),
        }
    );
    assert_eq!(UPLOAD_MIME, "application/octet-stream");
}

#[test]
fn should_skip_hidden_entries() {
    assert!(should_skip(".git"));
    assert!(should_skip(".DS_Store"));
    assert!(should_skip("."));
    assert!(!should_skip("index.html"));
    assert!(!should_skip("git"));
    assert!(!should_skip("a.git"));
    assert!(!should_skip(""));
}

#[test]
fn build_directory_puts_files_first_and_adds_up() {
    let sub = build_directory(
        vec![(plain_file("x", "c3"), true), (plain_file("y", "c4"), true)],
        Vec::new(),
    );
    assert_eq!(sub.total_files, 2);
    assert_eq!(sub.reused_files, 2);
    let other = build_directory(vec![(plain_file("z", "c5"), false)], Vec::new());
    let built = build_directory(
        vec![(plain_file("a", "c1"), false), (plain_file("b", "c2"), true)],
        vec![("sub".to_string(), sub), ("other".to_string(), other)],
    );
    assert_eq!(built.total_files, 5);
    assert_eq!(built.reused_files, 3);
    assert_eq!(built.total_files, count_files_in_directory(&built.directory));
    let names: Vec<&str> = built.directory.entries.iter().map(|e| e.name.as_str()).collect();
    assert_eq!(names, vec!["a", "b", "sub", "other"]);
    assert_eq!(
        built.directory.entries[2].node,
        EntryNode::Directory(Box::new(Directory {
            entries: vec![plain_file("x", "c3"), plain_file("y", "c4")]
        }))
    );
    let empty = build_directory(Vec::new(), Vec::new());
    assert_eq!(
        empty,
        BuiltDirectory { directory: Directory { entries: vec![] }, total_files: 0, reused_files: 0 }
    );
}

#[test]
fn extract_blob_map_flattens_by_path() {
    let tree = Directory {
        entries: vec![
            plain_file("index.html", "c1"),
            Entry {
                name: "assets".to_string(),
                node: EntryNode::Directory(Box::new(Directory {
                    entries: vec![
                        plain_file("app.js", "c2"),
                        Entry {
                            name: "img".to_string(),
                            node: EntryNode::Directory(Box::new(Directory {
                                entries: vec![plain_file("a.png", "c3")],
                            })),
                        },
                    ],
                })),
            },
            Entry {
                name: "shard".to_string(),
                node: EntryNode::Subfs(Box::new(Subfs {
                    subject: "at://d/place.wisp.subfs/k".to_string(),
                    flat: false,
                })),
            },
            Entry { name: "odd".to_string(), node: EntryNode::Unknown },
        ],
    };
    let map = extract_blob_map(&tree);
    assert_eq!(map.len(), 3);
    assert_eq!(map.get("index.html"), Some(&info("c1")));
    assert_eq!(map.get("assets/app.js"), Some(&info("c2")));
    assert_eq!(map.get("assets/img/a.png"), Some(&info("c3")));
    assert_eq!(map.get("assets"), None);
    assert_eq!(map.get("shard"), None);
    assert_eq!(map.get("odd"), None);
    assert_eq!(map.get("app.js"), None);
    assert_eq!(extract_blob_map(&Directory { entries: vec![] }).len(), 0);
}

#[test]
fn extract_blob_map_keeps_the_later_file_of_one_path() {
    let tree = Directory { entries: vec![plain_file("a", "first"), plain_file("a", "second")] };
    let map = extract_blob_map(&tree);
    assert_eq!(map.len(), 1);
    assert_eq!(map.get("a"), Some(&info("second")));
}

#[test]
fn merge_subfs_blob_maps_mounts_each_record() {
    let mut main: BlobMap = StringMap::new();
    main.insert("index.html".to_string(), info("c1"));
    main.insert("docs/old.md".to_string(), info("stale"));
    let records = vec![
        (
            Directory { entries: vec![plain_file("old.md", "fresh"), plain_file("new.md", "c2")] },
            "docs".to_string(),
        ),
        (Directory { entries: vec![plain_file("a.png", "c3")] }, "img/large".to_string()),
        (Directory { entries: vec![] }, "nothing".to_string()),
    ];
    let merged = merge_subfs_blob_maps(&records, &mut main);
    assert_eq!(merged, 3);
    assert_eq!(main.len(), 4);
    assert_eq!(main.get("index.html"), Some(&info("c1")));
    assert_eq!(main.get("docs/old.md"), Some(&info("fresh")));
    assert_eq!(main.get("docs/new.md"), Some(&info("c2")));
    assert_eq!(main.get("img/large/a.png"), Some(&info("c3")));
    assert_eq!(extract_subfs_blobs(&records[1].0, "img/large").len(), 1);
}

fn deploy_nested(
    site: &[(String, Vec<(String, Vec<u8>)>)],
    existing: &BlobMap,
    store: &mut Store,
) -> BuiltDirectory {
    let mut dirs = Vec::new();
    for (dir_name, files) in site {
        let mut results = Vec::new();
        for (name, data) in files {
            let key = format!("{}/{}", dir_name, name);
            let (file, reused) = match process_file(data, name, &key, existing).unwrap() {
                FileOutcome::Reused(file) => (file, true),
                FileOutcome::NeedsUpload(prepared) => {
                    store.uploads.push(key.clone());
                    let blob = BlobRef {
                        cid: prepared.cid.clone(),
                        mime_type: UPLOAD_MIME.to_string(),
                        size: prepared.stored.len() as u64,
                    };
                    (stored_file(blob, prepared.mime_type), false)
                }
            };
            results.push((
                Entry { name: name.clone(), node: EntryNode::File(Box::new(file)) },
                reused,
            ));
        }
        dirs.push((dir_name.clone(), build_directory(results, Vec::new())));
    }
    build_directory(Vec::new(), dirs)
}

#[test]
fn redeploy_of_a_split_site_uploads_nothing() {
    let site: Vec<(String, Vec<(String, Vec<u8>)>)> = (0..10)
        .map(|d| {
            let files = (0..30)
                .map(|f| (format!("file{}.txt", f), format!("content {} {}", d, f).into_bytes()))
                .collect();
            (format!("dir{}", d), files)
        })
        .collect();

    let mut store = Store { uploads: Vec::new() };
    let first = deploy_nested(&site, &StringMap::new(), &mut store);
    assert_eq!(store.uploads.len(), 300);
    assert_eq!(first.total_files, 300);

    let budgets = Budgets::standard();
    let mut records: Vec<(String, Directory)> = Vec::new();
    let mut state = SplitState::start(first.directory, &budgets);
    loop {
        match state.next_step(&budgets) {
            SplitStep::Commit => break,
            SplitStep::Fail(e) => panic!("{:?}", e),
            SplitStep::Split(found) => {
                let uri = format!("at://did:plc:test/place.wisp.subfs/s{}", records.len());
                records.push((uri.clone(), found.directory));
                state.record_split(&found.path, &uri).unwrap();
            }
        }
    }
    assert_eq!(records.len(), 4);

    let mut previous = extract_blob_map(&state.working);
    assert_eq!(previous.len(), 180);
    let mounted: Vec<(Directory, String)> = state
        .shards
        .iter()
        .map(|(uri, path)| {
            (records.iter().find(|(u, _)| u == uri).unwrap().1.clone(), path.clone())
        })
        .collect();
    assert_eq!(merge_subfs_blob_maps(&mounted, &mut previous), 120);
    assert_eq!(previous.len(), 300);

    let mut store = Store { uploads: Vec::new() };
    let second = deploy_nested(&site, &previous, &mut store);
    assert!(store.uploads.is_empty());
    assert_eq!(second.total_files, 300);
    assert_eq!(second.reused_files, 300);
}
