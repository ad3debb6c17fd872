use wisp_cli::error::ReferenceKind;
use wisp_cli::subfs_utils::{
    estimate_directory_size, extract_subfs_uris, find_large_directories, parse_subfs_uri,
    replace_directory_with_subfs, repository_of, site_record_uri, SubfsAddress,
};
use wisp_cli::tree::{
    count_files_in_directory, BlobRef, Directory, Entry, EntryNode, File, Subfs,
};

fn blob(cid: &str) -> BlobRef {
    BlobRef { cid: cid.to_string(), mime_type: "application/octet-stream".to_string(), size: 10 }
}

fn file(name: &str, cid: &str) -> Entry {
    Entry {
        name: name.to_string(),
        node: EntryNode::File(Box::new(File {
            blob: blob(cid),
            encoding: Some("gzip".to_string()),
            mime_type: Some("text/html".to_string()),
            base64: Some(true),
        })),
    }
}

fn dir(name: &str, entries: Vec<Entry>) -> Entry {
    Entry { name: name.to_string(), node: EntryNode::Directory(Box::new(Directory { entries })) }
}

fn subfs(name: &str, uri: &str, flat: bool) -> Entry {
    Entry {
        name: name.to_string(),
        node: EntryNode::Subfs(Box::new(Subfs { subject: uri.to_string(), flat })),
    }
}

fn unknown(name: &str) -> Entry {
    Entry { name: name.to_string(), node: EntryNode::Unknown }
}

fn sample() -> Directory {
    Directory {
        entries: vec![
            file("index.html", "c1"),
            dir(
                "assets",
                vec![
                    file("app.js", "c2"),
                    dir("img", vec![file("a.png", "c3"), file("b.png", "c4")]),
                    subfs("fonts", "at://did:plc:abc/place.wisp.subfs/f1", false),
                ],
            ),
            subfs("blog", "at://did:plc:abc/place.wisp.subfs/b1", true),
            unknown("odd"),
            dir("empty", vec![]),
        ],
    }
}

#[test]
fn count_files_skips_shards_and_unknown_nodes() {
    assert_eq!(count_files_in_directory(&sample()), 4);
    assert_eq!(count_files_in_directory(&Directory { entries: vec![] }), 0);
    assert_eq!(
        count_files_in_directory(&Directory {
            entries: vec![subfs("s", "at://d/place.wisp.subfs/k", true), unknown("u")]
        }),
        0
    );
}

#[test]
fn clone_keeps_the_tree() {
    let tree = sample();
    assert_eq!(tree.clone(), tree);
}

#[test]
fn extract_subfs_uris_walks_in_order() {
    assert_eq!(
        extract_subfs_uris(&sample(), String::new()),
        vec![
            ("at://did:plc:abc/place.wisp.subfs/f1".to_string(), "assets/fonts".to_string()),
            ("at://did:plc:abc/place.wisp.subfs/b1".to_string(), "blog".to_string()),
        ]
    );
}

#[test]
fn extract_subfs_uris_prefixes_the_mount_path() {
    assert_eq!(
        extract_subfs_uris(&sample(), "site".to_string()),
        vec![
            ("at://did:plc:abc/place.wisp.subfs/f1".to_string(), "site/assets/fonts".to_string()),
            ("at://did:plc:abc/place.wisp.subfs/b1".to_string(), "site/blog".to_string()),
        ]
    );
    assert!(extract_subfs_uris(&Directory { entries: vec![] }, String::new()).is_empty());
}

#[test]
fn estimate_directory_size_by_the_formula() {
    assert_eq!(estimate_directory_size(&Directory { entries: vec![] }), 33);
    // entry 20 + name 1; file 117 + cid 2 + blob mime 24 + encoding 14 + 4
    // + mime 14 + 9 + base64 14
    let one = Directory { entries: vec![file("a", "c1")] };
    assert_eq!(estimate_directory_size(&one), 33 + 21 + 117 + 2 + 24 + 18 + 23 + 14);
    let bare = Directory {
        entries: vec![Entry {
            name: "a".to_string(),
            node: EntryNode::File(Box::new(File {
                blob: BlobRef { cid: "c".to_string(), mime_type: "m".to_string(), size: 1 },
                encoding: None,
                mime_type: None,
                base64: None,
            })),
        }],
    };
    assert_eq!(estimate_directory_size(&bare), 33 + 21 + 117 + 1 + 1);
    let refs = Directory { entries: vec![subfs("s", "at://d/place.wisp.subfs/k", false)] };
    assert_eq!(estimate_directory_size(&refs), 33 + 21 + 72 + 25);
    let odd = Directory { entries: vec![unknown("anything")] };
    assert_eq!(estimate_directory_size(&odd), 33);
    let nested = Directory { entries: vec![dir("d", vec![file("a", "c1")])] };
    assert_eq!(estimate_directory_size(&nested), 33 + 21 + estimate_directory_size(&one));
}

#[test]
fn estimate_directory_size_counts_bytes_of_text() {
    let ascii = Directory { entries: vec![dir("e", vec![])] };
    let wide = Directory { entries: vec![dir("\u{e9}", vec![])] };
    assert_eq!(estimate_directory_size(&wide), estimate_directory_size(&ascii) + 1);
}

#[test]
fn find_large_directories_sorts_largest_first() {
    let tree = Directory {
        entries: vec![
            dir("small", vec![file("a", "c1")]),
            dir(
                "big",
                vec![
                    file("a", "c1"),
                    file("b", "c2"),
                    dir("inner", vec![file("x", "c3"), file("y", "c4")]),
                ],
            ),
            file("index.html", "c0"),
            dir("twin", vec![file("a", "c1")]),
        ],
    };
    let found = find_large_directories(&tree, String::new());
    let paths: Vec<&str> = found.iter().map(|d| d.path.as_str()).collect();
    assert_eq!(paths, vec!["big", "big/inner", "small", "twin"]);
    assert_eq!(found[0].file_count, 4);
    assert_eq!(found[1].file_count, 2);
    assert_eq!(found[2].file_count, 1);
    assert_eq!(found[0].size, estimate_directory_size(&found[0].directory));
    assert_eq!(
        found[1].directory,
        Directory { entries: vec![file("x", "c3"), file("y", "c4")] }
    );
    for pair in found.windows(2) {
        assert!(pair[0].size >= pair[1].size);
    }
}

#[test]
fn find_large_directories_of_a_flat_tree_is_empty() {
    let tree = Directory {
        entries: vec![file("a", "c1"), subfs("s", "at://d/place.wisp.subfs/k", false)],
    };
    assert!(find_large_directories(&tree, String::new()).is_empty());
}

#[test]
fn find_large_directories_prefixes_paths() {
    let tree = Directory { entries: vec![dir("a", vec![dir("b", vec![])])] };
    let found = find_large_directories(&tree, "root".to_string());
    let paths: Vec<&str> = found.iter().map(|d| d.path.as_str()).collect();
    assert_eq!(paths, vec!["root/a", "root/a/b"]);
}

#[test]
fn replace_directory_with_subfs_at_the_root() {
    let uri = "at://did:plc:abc/place.wisp.subfs/s1";
    let replaced = replace_directory_with_subfs(sample(), "assets", uri, false).unwrap();
    let mut want = sample();
    want.entries[1] = subfs("assets", uri, false);
    assert_eq!(replaced, want);
    assert_eq!(count_files_in_directory(&replaced), 1);
}

#[test]
fn replace_directory_with_subfs_below_the_root() {
    let uri = "at://did:plc:abc/place.wisp.subfs/s1";
    let replaced = replace_directory_with_subfs(sample(), "assets/img", uri, true).unwrap();
    let want = Directory {
        entries: vec![
            file("index.html", "c1"),
            dir(
                "assets",
                vec![
                    file("app.js", "c2"),
                    subfs("img", uri, true),
                    subfs("fonts", "at://did:plc:abc/place.wisp.subfs/f1", false),
                ],
            ),
            subfs("blog", "at://did:plc:abc/place.wisp.subfs/b1", true),
            unknown("odd"),
            dir("empty", vec![]),
        ],
    };
    assert_eq!(replaced, want);
}

#[test]
fn replace_directory_with_subfs_leaves_other_nodes() {
    let uri = "at://did:plc:abc/place.wisp.subfs/s1";
    assert_eq!(replace_directory_with_subfs(sample(), "index.html", uri, false).unwrap(), sample());
    assert_eq!(replace_directory_with_subfs(sample(), "missing", uri, false).unwrap(), sample());
    assert_eq!(replace_directory_with_subfs(sample(), "", uri, false).unwrap(), sample());
    assert_eq!(
        replace_directory_with_subfs(sample(), "assets/missing/deeper", uri, false).unwrap(),
        sample()
    );
}

#[test]
fn replace_directory_with_subfs_refuses_a_bad_address() {
    for uri in ["https://example.com/x", "", "at://", "not an address", "at://has blank/c.d.e/k"] {
        let e = replace_directory_with_subfs(sample(), "assets", uri, false).unwrap_err();
        assert_eq!(e.kind, ReferenceKind::Malformed);
        assert_eq!(e.address, uri);
    }
}

#[test]
fn replace_directory_with_subfs_takes_any_record_address() {
    let uri = "at://did:plc:abc/place.wisp.fs/site";
    let replaced = replace_directory_with_subfs(sample(), "assets", uri, false).unwrap();
    assert_eq!(replaced.entries[1], subfs("assets", uri, false));
    let by_handle = "at://alice.example.com/place.wisp.subfs/3kabc";
    assert!(replace_directory_with_subfs(sample(), "assets", by_handle, true).is_ok());
}

#[test]
fn parse_subfs_uri_takes_the_address_apart() {
    assert_eq!(
        parse_subfs_uri("at://did:plc:abc/place.wisp.subfs/3kabc"),
        Ok(SubfsAddress { did: "did:plc:abc".to_string(), rkey: "3kabc".to_string() })
    );
    assert_eq!(
        parse_subfs_uri("at://did:plc:abc/place.wisp.subfs/3kabc/more"),
        Ok(SubfsAddress { did: "did:plc:abc".to_string(), rkey: "3kabc".to_string() })
    );
}

#[test]
fn parse_subfs_uri_names_each_fault() {
    for uri in [
        "",
        "at://",
        "at:/did/place.wisp.subfs/k",
        "did:plc:abc/place.wisp.subfs/k",
        "at://did:plc:abc",
        "at://did:plc:abc/place.wisp.subfs",
        "at:///place.wisp.subfs/k",
        "at://did:plc:abc/place.wisp.subfs/",
        "at://did:plc:abc/place.wisp.fs/",
    ] {
        let e = parse_subfs_uri(uri).unwrap_err();
        assert_eq!(e.kind, ReferenceKind::Malformed);
        assert_eq!(e.address, uri);
        assert_eq!(e.message(), format!("Invalid subfs URI: {}", uri));
    }
    let e = parse_subfs_uri("at://did:plc:abc/place.wisp.fs/site").unwrap_err();
    assert_eq!(e.kind, ReferenceKind::WrongRecordKind);
    assert_eq!(e.address, "at://did:plc:abc/place.wisp.fs/site");
    assert_eq!(
        e.message(),
        "Expected place.wisp.subfs collection, got: at://did:plc:abc/place.wisp.fs/site"
    );
}

#[test]
fn records_count_their_own_files() {
    let manifest = wisp_cli::record::Manifest::new(
        "site".to_string(),
        sample(),
        "2024-01-01T00:00:00.000Z".to_string(),
    );
    assert_eq!(manifest.file_count, 4);
    assert_eq!(manifest.site, "site");
    assert_eq!(manifest.root, sample());
    assert_eq!(manifest.created_at, "2024-01-01T00:00:00.000Z");
    let shard = wisp_cli::record::ShardRecord::new(
        Directory { entries: vec![file("a", "c1"), subfs("s", "at://d/place.wisp.subfs/k", true)] },
        "2024-01-01T00:00:00.000Z".to_string(),
    );
    assert_eq!(shard.file_count, 1);
}

#[test]
fn a_reference_without_a_mode_is_flat() {
    assert!(Subfs::new("at://d/place.wisp.subfs/k".to_string(), None).flat);
    assert!(Subfs::new("at://d/place.wisp.subfs/k".to_string(), Some(true)).flat);
    assert!(!Subfs::new("at://d/place.wisp.subfs/k".to_string(), Some(false)).flat);
}

#[test]
fn addresses_of_records() {
    assert_eq!(site_record_uri("did:plc:abc", "blog"), "at://did:plc:abc/place.wisp.fs/blog");
    assert_eq!(
        repository_of("at://did:plc:abc/place.wisp.fs/blog"),
        Some("did:plc:abc".to_string())
    );
    assert_eq!(repository_of("at://did:plc:abc"), Some("did:plc:abc".to_string()));
    assert_eq!(repository_of("at://"), Some("".to_string()));
    assert_eq!(repository_of("https://example.com"), None);
    assert_eq!(repository_of(""), None);
}
