use embedding_index::cache::{estimate_memory_usage, CacheError, IndexCache, Stored};
use embedding_index::codec::encode_tree;
use embedding_index::kdtree::{KDTree, Node};
use embedding_index::point::Point;
use embedding_index::storage::get_bin_file_path;

fn pt(e: &[i32], d: &str) -> Point {
    Point { embedding: e.to_vec(), data: d.to_string() }
}

fn name(s: &str) -> String {
    s.to_string()
}

#[test]
fn query_of_unknown_name_is_not_found() {
    let mut c = IndexCache::new(1 << 20);
    let r = c.query_top_n(&name("never"), &pt(&[1, 1], ""), 3, 1, Stored::Absent);
    assert_eq!(r.err(), Some(CacheError::NotFound));
    assert_eq!(c.status().len(), 0);
}

#[test]
fn insert_then_query() {
    let mut c = IndexCache::new(1 << 20);
    for (e, d) in [([1, 2], "a"), ([3, 4], "b"), ([5, 6], "c")] {
        let bytes = c.insert_point(&name("t"), pt(&e, d), 1, Stored::Absent).unwrap();
        assert!(!bytes.is_empty());
    }
    let got: Vec<String> = c
        .query_top_n(&name("t"), &pt(&[1, 1], ""), 2, 2, Stored::Unreadable)
        .unwrap()
        .into_iter()
        .map(|p| p.data)
        .collect();
    assert_eq!(got, vec!["a".to_string(), "b".to_string()]);
    let st = c.status();
    assert_eq!(st.len(), 1);
    assert_eq!(st[0].count, Some(3));
    assert!(st[0].resident);
    assert_eq!(st[0].last_accessed, 2);
}

#[test]
fn cache_errors() {
    let mut c = IndexCache::new(1 << 20);
    assert_eq!(c.insert_point(&name("t"), pt(&[1, 2], "a"), 1, Stored::Unreadable).err(), Some(CacheError::Io));
    assert_eq!(
        c.insert_point(&name("t"), pt(&[1, 2], "a"), 1, Stored::Bytes(vec![9, 9])).err(),
        Some(CacheError::Corrupt)
    );
    assert_eq!(c.insert_point(&name("t"), pt(&[], "a"), 1, Stored::Absent).err(), Some(CacheError::DimensionMismatch));
    assert_eq!(c.status().len(), 0);
    assert!(c.insert_point(&name("t"), pt(&[1, 2], "a"), 1, Stored::Absent).is_ok());
    assert_eq!(
        c.insert_point(&name("t"), pt(&[1, 2, 3], "x"), 2, Stored::Absent).err(),
        Some(CacheError::DimensionMismatch)
    );
    assert_eq!(c.status()[0].count, Some(1));
    assert_eq!(
        c.query_top_n(&name("t"), &pt(&[1], ""), 1, 3, Stored::Absent).err(),
        Some(CacheError::DimensionMismatch)
    );
    assert_eq!(c.query_top_n(&name("t"), &pt(&[1, 1], ""), 0, 3, Stored::Absent).err(), Some(CacheError::EmptyIndex));
}

#[test]
fn resident_entry_is_not_reloaded() {
    let mut c = IndexCache::new(1 << 20);
    c.insert_point(&name("t"), pt(&[1, 2], "a"), 1, Stored::Absent).unwrap();
    let first = c.ensure_resident(&name("t"), 5, None, Stored::Bytes(vec![1, 2, 3])).unwrap();
    let second = c.ensure_resident(&name("t"), 6, None, Stored::Unreadable).unwrap();
    assert_eq!(first, second);
    let st = c.status();
    assert_eq!(st[0].count, Some(1));
    assert_eq!(st[0].last_accessed, 6);
}

#[test]
fn offloaded_index_is_loaded_from_bytes() {
    let mut t = KDTree::new(2);
    t.insert(pt(&[1, 2], "a")).unwrap();
    t.insert(pt(&[8, 8], "b")).unwrap();
    let bytes = encode_tree(&t);
    let mut c = IndexCache::new(1 << 20);
    let got = c.query_top_n(&name("t"), &pt(&[9, 9], ""), 1, 4, Stored::Bytes(bytes)).unwrap();
    assert_eq!(got[0].data, "b");
    assert!(c.is_resident(&name("t")));
    assert_eq!(c.find(&name("t")), Some(0));
    assert_eq!(c.find(&name("u")), None);
}

#[test]
fn memory_estimate_counts_embeddings_and_payloads() {
    let mut t = KDTree::new(3);
    assert_eq!(estimate_memory_usage(&t), std::mem::size_of::<KDTree>() as u64);
    t.insert(pt(&[1, 2, 3], "hello")).unwrap();
    t.insert(pt(&[0, 0, 0], "日本")).unwrap();
    let node = std::mem::size_of::<Node>() as u64;
    let want = std::mem::size_of::<KDTree>() as u64 + 2 * node + 2 * 3 * 4 + 5 + 6;
    assert_eq!(estimate_memory_usage(&t), want);
}

fn filled_cache(budget: u64) -> (IndexCache, u64) {
    let mut c = IndexCache::new(budget);
    let mut one = 0;
    for (i, n) in ["old", "mid", "new"].iter().enumerate() {
        c.insert_point(&name(n), pt(&[i as i32, 0], "payload"), 10 + i as u64, Stored::Absent).unwrap();
        let idx = c.find(&name(n)).unwrap();
        one = estimate_memory_usage(c.entries[idx].tree.as_ref().unwrap());
    }
    (c, one)
}

/// Runs the eviction policy to the end, as a caller whose writes succeed.
fn run_eviction(c: &mut IndexCache) -> Vec<(usize, Vec<u8>)> {
    let mut out = Vec::new();
    while let Some((i, bytes)) = c.eviction_candidate() {
        assert!(c.entries[i].tree.is_some());
        c.release(i);
        out.push((i, bytes));
    }
    out
}

#[test]
fn eviction_removes_least_recently_used_first() {
    let (_, one) = filled_cache(u64::MAX);
    let (mut c, _) = filled_cache(one + one / 2);
    // Touch "old" so that "mid" becomes the least recently used.
    c.ensure_resident(&name("old"), 20, None, Stored::Absent).unwrap();
    let evicted = run_eviction(&mut c);
    let names: Vec<String> = evicted.iter().map(|(i, _)| c.entries[*i].name.clone()).collect();
    assert_eq!(names, vec!["mid".to_string(), "new".to_string()]);
    assert!(c.is_resident(&name("old")));
    assert!(!c.is_resident(&name("mid")));
    for (i, bytes) in &evicted {
        assert!(!bytes.is_empty());
        assert!(c.entries[*i].tree.is_none());
    }
}

#[test]
fn eviction_candidate_keeps_tree_until_released() {
    let (mut c, _) = filled_cache(0);
    let (i, bytes) = c.eviction_candidate().unwrap();
    assert_eq!(c.entries[i].name, "old");
    assert!(c.is_resident(&name("old")));
    let t = c.entries[i].tree.as_ref().unwrap();
    assert_eq!(bytes, encode_tree(t));
    c.release(i);
    assert!(!c.is_resident(&name("old")));
    assert_eq!(c.entries[i].last_accessed, 10);
    let (j, _) = c.eviction_candidate().unwrap();
    assert_eq!(c.entries[j].name, "mid");
}

#[test]
fn eviction_within_budget_does_nothing() {
    let (mut c, _) = filled_cache(u64::MAX);
    assert!(c.eviction_candidate().is_none());
    assert!(c.status().iter().all(|s| s.resident));
}

#[test]
fn eviction_with_zero_budget_empties_memory() {
    let (mut c, _) = filled_cache(0);
    let evicted = run_eviction(&mut c);
    assert_eq!(evicted.len(), 3);
    let order: Vec<usize> = evicted.iter().map(|(i, _)| *i).collect();
    assert_eq!(order, vec![0, 1, 2]);
    assert!(c.status().iter().all(|s| !s.resident && s.count.is_none()));
    // An evicted index comes back from its bytes.
    let bytes = evicted[0].1.clone();
    let got = c.query_top_n(&name("old"), &pt(&[0, 0], ""), 1, 30, Stored::Bytes(bytes)).unwrap();
    assert_eq!(got[0].data, "payload");
}

#[test]
fn stored_index_takes_a_point() {
    let mut t = KDTree::new(2);
    t.insert(pt(&[1, 2], "a")).unwrap();
    let bytes = encode_tree(&t);
    let mut c = IndexCache::new(1 << 20);
    assert_eq!(
        c.insert_point(&name("t"), pt(&[1, 2, 3], "x"), 1, Stored::Bytes(bytes.clone())).err(),
        Some(CacheError::DimensionMismatch)
    );
    let mut c = IndexCache::new(1 << 20);
    let after = c.insert_point(&name("t"), pt(&[3, 4], "b"), 1, Stored::Bytes(bytes)).unwrap();
    assert_eq!(c.status()[0].count, Some(2));
    let mut want = t;
    want.insert(pt(&[3, 4], "b")).unwrap();
    assert_eq!(after, encode_tree(&want));
}

#[test]
fn failed_load_leaves_cache_unchanged() {
    let mut c = IndexCache::new(1 << 20);
    c.insert_point(&name("a"), pt(&[1], "x"), 1, Stored::Absent).unwrap();
    assert_eq!(c.query_top_n(&name("b"), &pt(&[1], ""), 1, 2, Stored::Unreadable).err(), Some(CacheError::Io));
    assert_eq!(c.query_top_n(&name("b"), &pt(&[1], ""), 1, 2, Stored::Bytes(vec![0])).err(), Some(CacheError::Corrupt));
    assert_eq!(c.status().len(), 1);
    assert_eq!(c.status()[0].last_accessed, 1);
}

#[test]
fn bin_file_paths() {
    assert_eq!(get_bin_file_path("bin", "trees"), "bin/trees.bin");
    assert_eq!(get_bin_file_path("bin/", "trees"), "bin/trees.bin");
    assert_eq!(get_bin_file_path("", "trees"), "trees.bin");
    assert_eq!(get_bin_file_path("bin", "/abs/t"), "/abs/t.bin");
}
