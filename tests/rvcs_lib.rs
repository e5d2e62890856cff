use rvcs::commit::{build_commit_text, current_commit, parse_head, plan_commit, Head};
use rvcs::digest::{is_hash_text, sha256_hex, text_sha256_hex};
use rvcs::error::RvcsError;
use rvcs::index::Index;
use rvcs::stage::stage_file;
use rvcs::store::ObjectStore;
use rvcs::utils::{check_add_target, ensure_repo_exists, normalize_path};

const HELLO_HASH: &str = "b94d27b9934d3e08a52e52d7da7dabfac484efe37a5380ee9088f7ace2efcde9";

fn index_of(pairs: &[(&str, &str)]) -> Index {
    let mut idx = Index::new();
    for (p, h) in pairs {
        idx.add(p.to_string(), h.to_string());
    }
    idx
}

fn entries_of(idx: &Index) -> Vec<(String, String)> {
    idx.entries.iter().map(|e| (e.path.clone(), e.hash.clone())).collect()
}

#[test]
fn sha256_of_hello_world() {
    assert_eq!(sha256_hex(b"hello world"), HELLO_HASH);
    assert_eq!(text_sha256_hex("hello world"), HELLO_HASH);
}

#[test]
fn sha256_of_empty_input() {
    assert_eq!(
        sha256_hex(b""),
        "e3b0c44298fc1c149afbf4c8996fb92427ae41e4649b934ca495991b7852b855"
    );
}

#[test]
fn hash_text_recognition() {
    assert!(is_hash_text(HELLO_HASH));
    assert!(!is_hash_text(&HELLO_HASH.to_uppercase()));
    assert!(!is_hash_text(&HELLO_HASH[..63]));
    assert!(!is_hash_text(&format!("{}\n", HELLO_HASH)));
}

#[test]
fn normalize_turns_backslashes_into_slashes() {
    assert_eq!(normalize_path("dir\\sub\\f.txt"), "dir/sub/f.txt");
    assert_eq!(normalize_path("a/b.txt"), "a/b.txt");
    assert_eq!(normalize_path(""), "");
}

#[test]
fn missing_repository_is_reported() {
    assert_eq!(ensure_repo_exists(false, false), Err(RvcsError::RepositoryMissing));
    assert_eq!(ensure_repo_exists(false, true), Err(RvcsError::RepositoryMissing));
}

#[test]
fn corrupted_repository_is_reported() {
    assert_eq!(ensure_repo_exists(true, false), Err(RvcsError::RepositoryCorrupted));
    assert_eq!(ensure_repo_exists(true, true), Ok(()));
}

#[test]
fn add_target_checks() {
    assert_eq!(check_add_target(false, false), Err(RvcsError::PathNotFound));
    assert_eq!(check_add_target(true, true), Err(RvcsError::PathIsDirectory));
    assert_eq!(check_add_target(true, false), Ok(()));
}

#[test]
fn index_add_keeps_paths_sorted_and_unique() {
    let idx = index_of(&[("b.txt", "22"), ("a.txt", "11"), ("c.txt", "33"), ("a.txt", "44")]);
    assert_eq!(
        entries_of(&idx),
        vec![
            ("a.txt".to_string(), "44".to_string()),
            ("b.txt".to_string(), "22".to_string()),
            ("c.txt".to_string(), "33".to_string()),
        ]
    );
}

#[test]
fn index_order_is_byte_order() {
    let idx = index_of(&[("b", "1"), ("B", "2"), ("ab", "3"), ("a", "4"), ("é", "5")]);
    let paths: Vec<String> = entries_of(&idx).into_iter().map(|(p, _)| p).collect();
    assert_eq!(paths, vec!["B", "a", "ab", "b", "é"]);
}

#[test]
fn index_save_renders_sorted_lines() {
    let idx = index_of(&[("z.txt", "ff"), ("a.txt", "00")]);
    assert_eq!(idx.save(), "00 a.txt\nff z.txt\n");
    assert_eq!(Index::new().save(), "");
}

#[test]
fn index_text_is_independent_of_add_order() {
    let a = index_of(&[("x", "1"), ("y", "2"), ("z", "3")]);
    let b = index_of(&[("z", "3"), ("x", "9"), ("y", "2"), ("x", "1")]);
    assert_eq!(a.save(), b.save());
    assert_eq!(a.tree_text(), b.tree_text());
}

#[test]
fn index_load_reads_lines() {
    let idx = Index::load("11 a.txt\n22 dir/b c.txt\r\n33 z.txt");
    assert_eq!(
        entries_of(&idx),
        vec![
            ("a.txt".to_string(), "11".to_string()),
            ("dir/b c.txt".to_string(), "22".to_string()),
            ("z.txt".to_string(), "33".to_string()),
        ]
    );
}

#[test]
fn index_load_skips_malformed_lines() {
    let idx = Index::load("nospace\n\n x.txt\n44 \n55 ok.txt\n");
    assert_eq!(entries_of(&idx), vec![("ok.txt".to_string(), "55".to_string())]);
    assert!(Index::load("").is_empty());
}

#[test]
fn index_load_later_line_wins() {
    let idx = Index::load("11 a.txt\n22 a.txt\n");
    assert_eq!(entries_of(&idx), vec![("a.txt".to_string(), "22".to_string())]);
}

#[test]
fn index_round_trip() {
    let idx = index_of(&[("b.txt", HELLO_HASH), ("a.txt", HELLO_HASH)]);
    let back = Index::load(&idx.save());
    assert_eq!(entries_of(&back), entries_of(&idx));
}

#[test]
fn staging_twice_keeps_one_entry() {
    let mut idx = Index::new();
    let h1 = stage_file(&mut idx, "a.txt", b"hello world");
    let h2 = stage_file(&mut idx, "a.txt", b"hello world");
    assert_eq!(h1, HELLO_HASH);
    assert_eq!(h1, h2);
    assert_eq!(entries_of(&idx), vec![("a.txt".to_string(), HELLO_HASH.to_string())]);
}

#[test]
fn staging_normalizes_the_path() {
    let mut idx = Index::new();
    stage_file(&mut idx, "dir\\a.txt", b"x");
    assert_eq!(idx.entries[0].path, "dir/a.txt");
    assert_eq!(idx.entries[0].hash, sha256_hex(b"x"));
}

#[test]
fn tree_is_deterministic() {
    let mut a = Index::new();
    stage_file(&mut a, "a.txt", b"one");
    stage_file(&mut a, "b.txt", b"two");
    let mut b = Index::new();
    stage_file(&mut b, "b.txt", b"two");
    stage_file(&mut b, "a.txt", b"one");
    assert_eq!(a.tree_text(), b.tree_text());
    assert_eq!(text_sha256_hex(&a.tree_text()), text_sha256_hex(&b.tree_text()));
}

#[test]
fn tree_text_lists_blobs() {
    let idx = index_of(&[("b.txt", "bb"), ("a.txt", "aa")]);
    assert_eq!(idx.tree_text(), "blob aa a.txt\nblob bb b.txt\n");
}

#[test]
fn commit_text_root() {
    let t = build_commit_text("tt", None, 1700000000, "first");
    assert_eq!(t, "tree tt\nauthor rvcs\ntimestamp 1700000000\n\nfirst\n");
}

#[test]
fn commit_text_with_parent() {
    let t = build_commit_text("tt", Some("pp"), 0, "");
    assert_eq!(t, "tree tt\nparent pp\nauthor rvcs\ntimestamp 0\n\n\n");
    let u = build_commit_text("tt", None, u64::MAX, "m");
    assert_eq!(u, "tree tt\nauthor rvcs\ntimestamp 18446744073709551615\n\nm\n");
}

#[test]
fn head_parsing() {
    match parse_head("ref: refs/heads/main\n") {
        Head::Attached(p) => assert_eq!(p, "refs/heads/main"),
        Head::Detached(_) => panic!("expected an attached HEAD"),
    }
    match parse_head(&format!("{}\n", HELLO_HASH)) {
        Head::Detached(h) => assert_eq!(h, HELLO_HASH),
        Head::Attached(_) => panic!("expected a detached HEAD"),
    }
    match parse_head(" ref: x") {
        Head::Detached(h) => assert_eq!(h, "ref: x"),
        Head::Attached(_) => panic!("leading space is not a symbolic HEAD"),
    }
}

#[test]
fn current_commit_resolution() {
    let attached = Head::Attached("refs/heads/main".to_string());
    assert_eq!(current_commit(&attached, None), None);
    assert_eq!(current_commit(&attached, Some(HELLO_HASH)), Some(HELLO_HASH.to_string()));
    assert_eq!(current_commit(&attached, Some("  abc \n")), Some("abc".to_string()));
    let detached = Head::Detached(HELLO_HASH.to_string());
    assert_eq!(current_commit(&detached, None), Some(HELLO_HASH.to_string()));
    assert_eq!(current_commit(&Head::Detached(String::new()), None), None);
}

#[test]
fn empty_commit_is_refused() {
    let idx = Index::new();
    let head = Head::Attached("refs/heads/main".to_string());
    assert!(matches!(plan_commit(&idx, &head, None, Some(1), "m"), Err(RvcsError::EmptyCommit)));
    assert!(matches!(plan_commit(&idx, &head, None, None, "m"), Err(RvcsError::EmptyCommit)));
}

#[test]
fn unreadable_clock_is_refused() {
    let idx = index_of(&[("a.txt", HELLO_HASH)]);
    let head = Head::Attached("refs/heads/main".to_string());
    assert!(matches!(plan_commit(&idx, &head, None, None, "m"), Err(RvcsError::ClockFailure)));
}

#[test]
fn commits_link_to_their_parent() {
    let head = Head::Attached("refs/heads/main".to_string());
    let idx = index_of(&[("a.txt", HELLO_HASH)]);
    let first = plan_commit(&idx, &head, None, Some(10), "first").unwrap();
    assert!(first.parent.is_none());
    assert!(!first.commit_text.contains("parent "));
    let second = plan_commit(&idx, &head, Some(&first.commit_hash), Some(11), "second").unwrap();
    assert_eq!(second.parent.as_deref(), Some(first.commit_hash.as_str()));
    assert!(second.commit_text.contains(&format!("\nparent {}\n", first.commit_hash)));
    assert_ne!(first.commit_hash, second.commit_hash);
}

#[test]
fn end_to_end_two_commits() {
    let head = parse_head("ref: refs/heads/main\n");
    let mut store = ObjectStore::new();
    let mut idx = Index::new();
    let ha = stage_file(&mut idx, "a.txt", b"hello world");
    store.put(b"hello world");
    let c1 = plan_commit(&idx, &head, None, Some(1000), "first").unwrap();
    store.put(c1.tree_text.as_bytes());
    store.put(c1.commit_text.as_bytes());
    assert!(is_hash_text(&c1.commit_hash));
    assert!(!c1.commit_text.contains("parent"));
    assert!(c1.commit_text.starts_with(&format!("tree {}\n", c1.tree_hash)));
    let tree1 = store.get(&c1.tree_hash).unwrap();
    assert_eq!(tree1, format!("blob {} a.txt\n", ha).into_bytes());
    assert_eq!(ha, HELLO_HASH);

    let hb = stage_file(&mut idx, "b.txt", b"second");
    let c2 = plan_commit(&idx, &head, Some(&c1.commit_hash), Some(1001), "second").unwrap();
    store.put(c2.tree_text.as_bytes());
    store.put(c2.commit_text.as_bytes());
    assert_ne!(c1.commit_hash, c2.commit_hash);
    let commit2 = String::from_utf8(store.get(&c2.commit_hash).unwrap()).unwrap();
    assert!(commit2.contains(&format!("\nparent {}\n", c1.commit_hash)));
    let tree2 = String::from_utf8(store.get(&c2.tree_hash).unwrap()).unwrap();
    assert_eq!(tree2, format!("blob {} a.txt\nblob {} b.txt\n", ha, hb));
}

#[test]
fn store_put_is_idempotent() {
    let mut store = ObjectStore::new();
    let h1 = store.put(b"payload");
    let h2 = store.put(b"payload");
    assert_eq!(h1, h2);
    assert_eq!(store.objects.len(), 1);
    assert_eq!(store.get(&h1).unwrap(), b"payload".to_vec());
    assert!(store.contains(&h1));
}

#[test]
fn store_get_missing_object() {
    let store = ObjectStore::new();
    assert_eq!(store.get(&HELLO_HASH.to_string()), Err(RvcsError::ObjectNotFound));
}

#[test]
fn store_keeps_distinct_payloads() {
    let mut store = ObjectStore::new();
    let h1 = store.put(b"one");
    let h2 = store.put(b"two");
    assert_ne!(h1, h2);
    assert_eq!(store.get(&h1).unwrap(), b"one".to_vec());
    assert_eq!(store.get(&h2).unwrap(), b"two".to_vec());
    assert_eq!(store.get(&sha256_hex(b"")).err(), Some(RvcsError::ObjectNotFound));
}

#[test]
fn test_add() {
    let mut idx = Index::new();
    let mut store = ObjectStore::new();
    let hash = stage_file(&mut idx, "test.txt", b"hello world");
    let stored = store.put(b"hello world");
    assert_eq!(hash, stored);
    assert!(!store.objects.is_empty());
    assert_eq!(idx.save(), format!("{} test.txt\n", HELLO_HASH));
}

#[test]
fn test_commit() {
    let head = parse_head("ref: refs/heads/main\n");
    let mut idx = Index::new();
    stage_file(&mut idx, "test.txt", b"hello world");
    let plan = plan_commit(&idx, &head, None, Some(5), "initial commit").unwrap();
    assert!(plan.commit_text.contains("initial commit"));
    assert!(!plan.commit_hash.is_empty());
    match head {
        Head::Attached(p) => assert_eq!(p, "refs/heads/main"),
        Head::Detached(_) => panic!("expected an attached HEAD"),
    }
}
