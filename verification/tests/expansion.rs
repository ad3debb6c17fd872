use wisp_cli::error::TooDeep;
use wisp_cli::expand::{
    replace_subfs_with_content, resolves_within, Expansion, ExpansionStep, FetchOutcome,
    MAX_EXPANSION_ROUNDS,
};
use wisp_cli::string_map::StringMap;
use wisp_cli::tree::{
    count_files_in_directory, BlobRef, Directory, Entry, EntryNode, File, Subfs,
};

fn file(name: &str, cid: &str) -> Entry {
    Entry {
        name: name.to_string(),
        node: EntryNode::File(Box::new(File {
            blob: BlobRef { cid: cid.to_string(), mime_type: "m".to_string(), size: 1 },
            encoding: Some("gzip".to_string()),
            mime_type: None,
            base64: Some(true),
        })),
    }
}

fn dir(name: &str, entries: Vec<Entry>) -> Entry {
    Entry { name: name.to_string(), node: EntryNode::Directory(Box::new(Directory { entries })) }
}

fn subfs(name: &str, uri: &str, flat: bool) -> Entry {
    Entry {
        name: name.to_string(),
        node: EntryNode::Subfs(Box::new(Subfs { subject: uri.to_string(), flat })),
    }
}

fn uri(key: &str) -> String {
    format!("at://did:plc:test/place.wisp.subfs/{}", key)
}

fn store_of(records: &[(&str, Directory)]) -> StringMap<Directory> {
    let mut map = StringMap::new();
    for (key, d) in records {
        map.insert(uri(key), d.clone());
    }
    map
}

fn fetch(expansion: &Expansion, store: &StringMap<Directory>) -> Vec<FetchOutcome> {
    (0..expansion.pending.len())
        .map(|i| {
            let uri = expansion.pending.key_at(i).clone();
            FetchOutcome {
                root: store.get(&uri).cloned(),
                path: expansion.pending.value_at(i).clone(),
                uri,
            }
        })
        .collect()
}

fn assets() -> Directory {
    Directory { entries: vec![file("app.js", "c2"), file("style.css", "c3")] }
}

#[test]
fn nested_merge_keeps_the_mount_directory() {
    let root = Directory {
        entries: vec![file("index.html", "c1"), subfs("assets", &uri("a"), false), file("z", "c9")],
    };
    let expanded = replace_subfs_with_content(&root, &store_of(&[("a", assets())]), 10);
    assert_eq!(
        expanded,
        Directory {
            entries: vec![
                file("index.html", "c1"),
                dir("assets", vec![file("app.js", "c2"), file("style.css", "c3")]),
                file("z", "c9"),
            ]
        }
    );
}

#[test]
fn flat_merge_splices_the_entries_into_the_parent() {
    let root = Directory {
        entries: vec![file("index.html", "c1"), subfs("assets", &uri("a"), true), file("z", "c9")],
    };
    let expanded = replace_subfs_with_content(&root, &store_of(&[("a", assets())]), 10);
    assert_eq!(
        expanded,
        Directory {
            entries: vec![
                file("index.html", "c1"),
                file("app.js", "c2"),
                file("style.css", "c3"),
                file("z", "c9"),
            ]
        }
    );
    assert!(expanded.entries.iter().all(|e| e.name != "assets"));
}

#[test]
fn a_shard_that_is_missing_is_left_out() {
    let root = Directory {
        entries: vec![file("index.html", "c1"), subfs("gone", &uri("missing"), false)],
    };
    let expanded = replace_subfs_with_content(&root, &store_of(&[("a", assets())]), 10);
    assert_eq!(expanded, Directory { entries: vec![file("index.html", "c1")] });
}

#[test]
fn shards_inside_directories_and_shards_are_expanded() {
    let inner = Directory { entries: vec![file("deep.txt", "c7")] };
    let outer = Directory {
        entries: vec![file("a.txt", "c5"), subfs("more", &uri("inner"), false)],
    };
    let root = Directory {
        entries: vec![dir("docs", vec![subfs("part", &uri("outer"), true), file("b.txt", "c6")])],
    };
    let store = store_of(&[("outer", outer), ("inner", inner)]);
    let expanded = replace_subfs_with_content(&root, &store, 10);
    assert_eq!(
        expanded,
        Directory {
            entries: vec![dir(
                "docs",
                vec![
                    file("a.txt", "c5"),
                    dir("more", vec![file("deep.txt", "c7")]),
                    file("b.txt", "c6"),
                ]
            )]
        }
    );
}

#[test]
fn depth_bounds_the_shards_inside_one_another() {
    let inner = Directory { entries: vec![file("deep.txt", "c7")] };
    let outer = Directory {
        entries: vec![file("a.txt", "c5"), subfs("more", &uri("inner"), false)],
    };
    let root = Directory { entries: vec![subfs("part", &uri("outer"), false)] };
    let store = store_of(&[("outer", outer), ("inner", inner)]);
    assert_eq!(replace_subfs_with_content(&root, &store, 0), Directory { entries: vec![] });
    assert_eq!(
        replace_subfs_with_content(&root, &store, 1),
        Directory { entries: vec![dir("part", vec![file("a.txt", "c5")])] }
    );
    assert_eq!(
        replace_subfs_with_content(&root, &store, 2),
        Directory {
            entries: vec![dir(
                "part",
                vec![file("a.txt", "c5"), dir("more", vec![file("deep.txt", "c7")])]
            )]
        }
    );
    assert_eq!(
        replace_subfs_with_content(&root, &store, 2),
        replace_subfs_with_content(&root, &store, 10)
    );
}

#[test]
fn a_tree_without_shards_needs_no_round() {
    let root = assets();
    let expansion = Expansion::start(&root);
    assert_eq!(expansion.next_step(), ExpansionStep::Done);
    assert_eq!(expansion.rounds, 0);
    assert_eq!(expansion.finish(&root), Ok(root));
}

#[test]
fn rounds_follow_shards_inside_shards() {
    let inner = Directory { entries: vec![file("deep.txt", "c7")] };
    let outer = Directory {
        entries: vec![file("a.txt", "c5"), subfs("more", &uri("inner"), false)],
    };
    let root = Directory {
        entries: vec![subfs("part", &uri("outer"), false), subfs("again", &uri("outer"), true)],
    };
    let store = store_of(&[("outer", outer), ("inner", inner)]);

    let mut expansion = Expansion::start(&root);
    assert_eq!(expansion.next_step(), ExpansionStep::Fetch);
    assert_eq!(expansion.pending.len(), 1);
    assert_eq!(expansion.pending.get(&uri("outer")), Some(&"again".to_string()));

    let outcomes = fetch(&expansion, &store);
    expansion.record_round(&outcomes);
    assert_eq!(expansion.rounds, 1);
    assert_eq!(expansion.resolved.len(), 1);
    assert_eq!(expansion.next_step(), ExpansionStep::Fetch);
    assert_eq!(expansion.pending.len(), 1);
    assert_eq!(expansion.pending.get(&uri("inner")), Some(&"again/more".to_string()));

    let outcomes = fetch(&expansion, &store);
    expansion.record_round(&outcomes);
    assert_eq!(expansion.rounds, 2);
    assert_eq!(expansion.resolved.len(), 2);
    assert_eq!(expansion.next_step(), ExpansionStep::Done);
    assert!(expansion.unavailable.is_empty());

    let expanded = expansion.finish(&root).unwrap();
    assert_eq!(
        expanded,
        Directory {
            entries: vec![
                dir("part", vec![file("a.txt", "c5"), dir("more", vec![file("deep.txt", "c7")])]),
                file("a.txt", "c5"),
                dir("more", vec![file("deep.txt", "c7")]),
            ]
        }
    );
}

#[test]
fn a_shard_that_cannot_be_fetched_is_noted_and_dropped() {
    let root = Directory {
        entries: vec![
            file("index.html", "c1"),
            subfs("here", &uri("a"), false),
            subfs("gone", &uri("missing"), false),
        ],
    };
    let store = store_of(&[("a", assets())]);
    let mut expansion = Expansion::start(&root);
    assert_eq!(expansion.pending.len(), 2);
    let outcomes = fetch(&expansion, &store);
    expansion.record_round(&outcomes);
    assert_eq!(expansion.next_step(), ExpansionStep::Done);
    assert_eq!(expansion.unavailable, vec![(uri("missing"), "gone".to_string())]);
    let failures = expansion.failures();
    assert_eq!(failures.len(), 1);
    assert_eq!(failures[0].kind, wisp_cli::error::ReferenceKind::Unavailable);
    assert_eq!(failures[0].address, uri("missing"));
    assert_eq!(
        failures[0].message(),
        "Failed to fetch subfs: at://did:plc:test/place.wisp.subfs/missing"
    );
    assert_eq!(
        expansion.finish(&root),
        Ok(Directory {
            entries: vec![
                file("index.html", "c1"),
                dir("here", vec![file("app.js", "c2"), file("style.css", "c3")]),
            ]
        })
    );
}

#[test]
fn a_chain_deeper_than_the_rounds_is_fatal() {
    let mut records: Vec<(String, Directory)> = Vec::new();
    for i in 0..12 {
        records.push((
            format!("s{}", i),
            Directory {
                entries: vec![file("f", "c"), subfs("next", &uri(&format!("s{}", i + 1)), false)],
            },
        ));
    }
    let mut store = StringMap::new();
    for (key, d) in &records {
        store.insert(uri(key), d.clone());
    }
    let root = Directory { entries: vec![subfs("start", &uri("s0"), false)] };
    let mut expansion = Expansion::start(&root);
    let mut rounds = 0;
    let last = loop {
        match expansion.next_step() {
            ExpansionStep::Fetch => {
                let outcomes = fetch(&expansion, &store);
    expansion.record_round(&outcomes);
                rounds += 1;
            }
            other => break other,
        }
    };
    assert_eq!(last, ExpansionStep::TooDeep);
    assert_eq!(rounds, MAX_EXPANSION_ROUNDS);
    assert_eq!(expansion.rounds, 10);
}

#[test]
fn a_chain_of_ten_shards_is_resolved() {
    let mut store = StringMap::new();
    for i in 0..10 {
        let mut entries = vec![file("f", "c")];
        if i < 9 {
            entries.push(subfs("next", &uri(&format!("s{}", i + 1)), false));
        }
        store.insert(uri(&format!("s{}", i)), Directory { entries });
    }
    let root = Directory { entries: vec![subfs("start", &uri("s0"), false)] };
    let mut expansion = Expansion::start(&root);
    while expansion.next_step() == ExpansionStep::Fetch {
        let outcomes = fetch(&expansion, &store);
    expansion.record_round(&outcomes);
    }
    assert_eq!(expansion.next_step(), ExpansionStep::Done);
    assert_eq!(expansion.rounds, 10);
    assert_eq!(count_files_in_directory(&expansion.finish(&root).unwrap()), 10);
}

#[test]
fn a_shard_that_refers_to_itself_is_fatal() {
    let looping = Directory {
        entries: vec![file("f", "c"), subfs("again", &uri("loop"), false)],
    };
    let store = store_of(&[("loop", looping)]);
    let root = Directory { entries: vec![subfs("start", &uri("loop"), false)] };
    let mut expansion = Expansion::start(&root);
    let outcomes = fetch(&expansion, &store);
    expansion.record_round(&outcomes);
    assert_eq!(expansion.next_step(), ExpansionStep::Done);
    assert_eq!(expansion.rounds, 1);
    assert_eq!(expansion.finish(&root), Err(TooDeep { depth: MAX_EXPANSION_ROUNDS }));
}

#[test]
fn two_shards_that_refer_to_each_other_are_fatal() {
    let a = Directory { entries: vec![file("in-a", "c1"), subfs("to-b", &uri("b"), false)] };
    let b = Directory {
        entries: vec![dir("deeper", vec![subfs("to-a", &uri("a"), true)]), file("in-b", "c2")],
    };
    let store = store_of(&[("a", a), ("b", b)]);
    let root = Directory { entries: vec![file("index.html", "c0"), subfs("site", &uri("a"), false)] };
    let mut expansion = Expansion::start(&root);
    let mut rounds = 0;
    while expansion.next_step() == ExpansionStep::Fetch {
        let outcomes = fetch(&expansion, &store);
        expansion.record_round(&outcomes);
        rounds += 1;
    }
    assert_eq!(rounds, 2);
    assert_eq!(expansion.next_step(), ExpansionStep::Done);
    assert!(!resolves_within(&root, &store, MAX_EXPANSION_ROUNDS));
    assert_eq!(expansion.finish(&root), Err(TooDeep { depth: 10 }));
}

#[test]
fn resolves_within_counts_shards_inside_one_another() {
    let inner = Directory { entries: vec![file("deep.txt", "c7")] };
    let outer = Directory {
        entries: vec![file("a.txt", "c5"), subfs("more", &uri("inner"), false)],
    };
    let root = Directory { entries: vec![dir("d", vec![subfs("part", &uri("outer"), false)])] };
    let store = store_of(&[("outer", outer), ("inner", inner)]);
    assert!(!resolves_within(&root, &store, 0));
    assert!(!resolves_within(&root, &store, 1));
    assert!(resolves_within(&root, &store, 2));
    assert!(resolves_within(&root, &store, 10));
    assert!(resolves_within(&root, &StringMap::new(), 0));
    assert!(resolves_within(&assets(), &store, 0));
}
