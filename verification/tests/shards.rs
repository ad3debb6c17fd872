use wisp_cli::blob_map::{extract_blob_map, BlobInfo, BlobMap};
use wisp_cli::error::{BudgetExceeded, ReferenceKind};
use wisp_cli::expand::{replace_subfs_with_content, Expansion, ExpansionStep, FetchOutcome};
use wisp_cli::shard::{
    orphaned_shards, Budgets, SplitState, SplitStep, FILE_COUNT_THRESHOLD, MAX_MANIFEST_SIZE,
    MAX_SPLIT_ATTEMPTS, TARGET_FILE_COUNT,
};
use wisp_cli::string_map::StringMap;
use wisp_cli::subfs_utils::{estimate_directory_size, extract_subfs_uris};
use wisp_cli::tree::{
    count_files_in_directory, BlobRef, Directory, Entry, EntryNode, File,
};

fn file(name: &str, cid: &str) -> Entry {
    Entry {
        name: name.to_string(),
        node: EntryNode::File(Box::new(File {
            blob: BlobRef {
                cid: cid.to_string(),
                mime_type: "application/octet-stream".to_string(),
                size: 100,
            },
            encoding: Some("gzip".to_string()),
            mime_type: Some("text/plain".to_string()),
            base64: Some(true),
        })),
    }
}

fn dir(name: &str, entries: Vec<Entry>) -> Entry {
    Entry { name: name.to_string(), node: EntryNode::Directory(Box::new(Directory { entries })) }
}

fn files(count: usize, tag: &str) -> Vec<Entry> {
    (0..count).map(|i| file(&format!("file{:03}.txt", i), &format!("cid-{}-{:03}", tag, i))).collect()
}

fn uniform_site() -> Directory {
    Directory {
        entries: (0..10).map(|d| dir(&format!("dir{}", d), files(30, &d.to_string()))).collect(),
    }
}

fn shardify(
    tree: Directory,
    budgets: &Budgets,
    store: &mut Vec<(String, Directory)>,
) -> Result<SplitState, BudgetExceeded> {
    let mut state = SplitState::start(tree, budgets);
    loop {
        match state.next_step(budgets) {
            SplitStep::Commit => return Ok(state),
            SplitStep::Fail(e) => return Err(e),
            SplitStep::Split(candidate) => {
                let uri = format!("at://did:plc:test/place.wisp.subfs/shard{}", store.len());
                store.push((uri.clone(), candidate.directory));
                state.record_split(&candidate.path, &uri).unwrap();
            }
        }
    }
}

fn expand_all(root: &Directory, store: &[(String, Directory)]) -> Option<Directory> {
    let mut expansion = Expansion::start(root);
    loop {
        match expansion.next_step() {
            ExpansionStep::Done => return expansion.finish(root).ok(),
            ExpansionStep::TooDeep => return None,
            ExpansionStep::Fetch => {
                let mut outcomes = Vec::new();
                for i in 0..expansion.pending.len() {
                    let uri = expansion.pending.key_at(i).clone();
                    let path = expansion.pending.value_at(i).clone();
                    let root = store.iter().find(|(u, _)| *u == uri).map(|(_, d)| d.clone());
                    outcomes.push(FetchOutcome { uri, path, root });
                }
                expansion.record_round(&outcomes);
            }
        }
    }
}

fn listing(map: &BlobMap) -> Vec<(String, BlobInfo)> {
    let mut all: Vec<(String, BlobInfo)> =
        (0..map.len()).map(|i| (map.key_at(i).clone(), map.value_at(i).clone())).collect();
    all.sort_by(|a, b| a.0.cmp(&b.0));
    all
}

#[test]
fn standard_budgets() {
    let budgets = Budgets::standard();
    assert_eq!(budgets.file_count_threshold, 250);
    assert_eq!(budgets.target_file_count, 200);
    assert_eq!(budgets.max_manifest_bytes, 140 * 1024);
    assert_eq!(budgets.max_split_attempts, 50);
    assert_eq!(FILE_COUNT_THRESHOLD, 250);
    assert_eq!(TARGET_FILE_COUNT, 200);
    assert_eq!(MAX_MANIFEST_SIZE, 143360);
    assert_eq!(MAX_SPLIT_ATTEMPTS, 50);
}

#[test]
fn a_small_site_is_committed_as_it_is() {
    let tree = Directory { entries: vec![file("index.html", "c1"), dir("a", files(5, "a"))] };
    let mut store = Vec::new();
    let state = shardify(tree.clone(), &Budgets::standard(), &mut store).unwrap();
    assert_eq!(state.working, tree);
    assert!(!state.splitting);
    assert_eq!(state.attempts, 0);
    assert_eq!(state.file_count, 6);
    assert_eq!(state.manifest_size, estimate_directory_size(&tree));
    assert!(state.shards.is_empty());
    assert!(store.is_empty());
}

#[test]
fn a_site_at_the_threshold_is_not_split() {
    let tree = Directory { entries: vec![dir("a", files(125, "a")), dir("b", files(125, "b"))] };
    let state = SplitState::start(tree, &Budgets::standard());
    assert_eq!(state.file_count, 250);
    assert!(!state.splitting);
    assert_eq!(state.next_step(&Budgets::standard()), SplitStep::Commit);
}

#[test]
fn a_site_between_target_and_threshold_is_not_split() {
    let tree = Directory { entries: vec![dir("a", files(110, "a")), dir("b", files(110, "b"))] };
    let state = SplitState::start(tree, &Budgets::standard());
    assert_eq!(state.next_step(&Budgets::standard()), SplitStep::Commit);
}

#[test]
fn split_convergence_over_uniform_directories() {
    let budgets = Budgets::standard();
    let mut store = Vec::new();
    let state = shardify(uniform_site(), &budgets, &mut store).unwrap();
    assert!(state.splitting);
    assert!(state.attempts < budgets.max_split_attempts);
    assert_eq!(state.attempts, 4);
    assert!(state.file_count <= 200);
    assert_eq!(state.file_count, 180);
    assert_eq!(state.file_count, count_files_in_directory(&state.working));
    assert_eq!(state.manifest_size, estimate_directory_size(&state.working));
    assert!(!store.is_empty());
    assert_eq!(store.len(), 4);
    let paths: Vec<&str> = state.shards.iter().map(|s| s.1.as_str()).collect();
    assert_eq!(paths, vec!["dir0", "dir1", "dir2", "dir3"]);
    for (_, shard) in &store {
        assert_eq!(count_files_in_directory(shard), 30);
    }
    let refs = extract_subfs_uris(&state.working, String::new());
    assert_eq!(refs, state.shards);
}

#[test]
fn splitting_takes_the_largest_directory_first() {
    let tree = Directory {
        entries: vec![
            dir("small", files(60, "s")),
            dir("large", files(150, "l")),
            dir("medium", files(90, "m")),
        ],
    };
    let mut store = Vec::new();
    let state = shardify(tree, &Budgets::standard(), &mut store).unwrap();
    assert_eq!(state.attempts, 1);
    assert_eq!(state.shards[0].1, "large");
    assert_eq!(state.file_count, 150);
}

#[test]
fn splitting_stops_on_size_too() {
    let budgets = Budgets {
        file_count_threshold: 1000,
        target_file_count: 1000,
        max_manifest_bytes: 4000,
        max_split_attempts: 50,
    };
    let tree = Directory {
        entries: vec![dir("a", files(10, "a")), dir("b", files(10, "b")), file("index.html", "c")],
    };
    assert!(estimate_directory_size(&tree) > 4000);
    let mut store = Vec::new();
    let state = shardify(tree, &budgets, &mut store).unwrap();
    assert!(state.manifest_size <= 4000);
    assert_eq!(state.attempts, 1);
    assert_eq!(state.file_count, 11);
}

#[test]
fn budget_exceeded_when_nothing_is_left_to_split() {
    let budgets = Budgets::standard();
    let tree = Directory { entries: files(300, "root") };
    let size = estimate_directory_size(&tree);
    let mut store = Vec::new();
    let e = shardify(tree, &budgets, &mut store).unwrap_err();
    assert_eq!(e, BudgetExceeded { attempts: 0, manifest_size: size, file_count: 300 });
    assert!(store.is_empty());
}

#[test]
fn budget_exceeded_for_a_single_oversized_subdirectory() {
    let budgets = Budgets {
        file_count_threshold: 250,
        target_file_count: 200,
        max_manifest_bytes: 100,
        max_split_attempts: 50,
    };
    let tree = Directory { entries: vec![dir("only", files(40, "o"))] };
    let mut store = Vec::new();
    let e = shardify(tree, &budgets, &mut store).unwrap_err();
    assert_eq!(e.attempts, 1);
    assert_eq!(e.file_count, 0);
    assert!(e.manifest_size > 100);
    assert_eq!(store.len(), 1);
}

#[test]
fn budget_exceeded_when_the_attempts_are_used_up() {
    let budgets = Budgets {
        file_count_threshold: 250,
        target_file_count: 200,
        max_manifest_bytes: MAX_MANIFEST_SIZE,
        max_split_attempts: 2,
    };
    let mut store = Vec::new();
    let e = shardify(uniform_site(), &budgets, &mut store).unwrap_err();
    assert_eq!(e.attempts, 2);
    assert_eq!(e.file_count, 240);
    assert_eq!(store.len(), 2);
}

#[test]
fn the_last_attempt_may_still_succeed() {
    let budgets = Budgets {
        file_count_threshold: 250,
        target_file_count: 200,
        max_manifest_bytes: MAX_MANIFEST_SIZE,
        max_split_attempts: 4,
    };
    let mut store = Vec::new();
    let state = shardify(uniform_site(), &budgets, &mut store).unwrap();
    assert_eq!(state.attempts, 4);
    assert_eq!(state.file_count, 180);
}

#[test]
fn record_split_refuses_a_bad_address() {
    let mut state = SplitState::start(uniform_site(), &Budgets::standard());
    let e = state.record_split("dir0", "not an address").unwrap_err();
    assert_eq!(e.kind, ReferenceKind::Malformed);
    assert_eq!(e.address, "not an address");
    assert_eq!(state.working, uniform_site());
    assert_eq!(state.attempts, 0);
    assert!(state.shards.is_empty());
}

#[test]
fn round_trip_of_a_split_site() {
    let tree = uniform_site();
    let mut store = Vec::new();
    let state = shardify(tree.clone(), &Budgets::standard(), &mut store).unwrap();
    assert_ne!(state.working, tree);
    let expanded = expand_all(&state.working, &store).unwrap();
    assert_eq!(expanded, tree);
    assert_eq!(listing(&extract_blob_map(&expanded)), listing(&extract_blob_map(&tree)));
    assert_eq!(extract_blob_map(&tree).len(), 300);
    assert_eq!(extract_blob_map(&state.working).len(), 180);
}

#[test]
fn round_trip_of_nested_splits() {
    let tree = Directory {
        entries: vec![
            file("index.html", "c0"),
            dir("docs", vec![file("a.md", "c1"), dir("api", files(3, "api")), file("z.md", "c2")]),
            dir("img", files(2, "img")),
        ],
    };
    let mut store: Vec<(String, Directory)> = Vec::new();
    let mut state = SplitState::start(tree.clone(), &Budgets::standard());
    for (path, key) in [("docs/api", "s1"), ("docs", "s2"), ("img", "s3")] {
        let uri = format!("at://did:plc:test/place.wisp.subfs/{}", key);
        let content = wisp_cli::subfs_utils::find_large_directories(&state.working, String::new())
            .into_iter()
            .find(|d| d.path == path)
            .unwrap()
            .directory;
        store.push((uri.clone(), content));
        state.record_split(path, &uri).unwrap();
    }
    assert_eq!(state.attempts, 3);
    assert_eq!(state.file_count, 1);
    assert_eq!(extract_subfs_uris(&state.working, String::new()).len(), 2);
    let expanded = expand_all(&state.working, &store).unwrap();
    assert_eq!(expanded, tree);
    let direct = {
        let mut map: StringMap<Directory> = StringMap::new();
        for (uri, d) in &store {
            map.insert(uri.clone(), d.clone());
        }
        replace_subfs_with_content(&state.working, &map, 3)
    };
    assert_eq!(direct, tree);
}

#[test]
fn orphaned_shards_are_the_old_ones_that_are_gone() {
    let pair = |u: &str, p: &str| (u.to_string(), p.to_string());
    let previous = vec![pair("at://d/place.wisp.subfs/a", "x"), pair("at://d/place.wisp.subfs/b", "y")];
    let current = vec![pair("at://d/place.wisp.subfs/b", "elsewhere"), pair("at://d/place.wisp.subfs/c", "z")];
    assert_eq!(orphaned_shards(&previous, &current), vec!["at://d/place.wisp.subfs/a"]);
    assert_eq!(
        orphaned_shards(&previous, &[].to_vec()),
        vec!["at://d/place.wisp.subfs/a", "at://d/place.wisp.subfs/b"]
    );
    assert!(orphaned_shards(&previous, &previous).is_empty());
    assert!(orphaned_shards(&[].to_vec(), &current).is_empty());
}
