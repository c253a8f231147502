use zedis::keys::{KeyIndex, KeyType};
use zedis::scan::{
    cursors_done, prefix_pattern, prefix_scan_continues, scan_count, scan_limit, scan_pattern, PrefixPlan,
    ScanState, ScanStep,
};
use zedis::trie::KeyTrie;

fn keys(prefix: &str, n: usize) -> Vec<String> {
    (0..n).map(|i| format!("{prefix}{i}")).collect()
}

fn selected(server: &str) -> ScanState {
    let mut s = ScanState::new();
    assert!(s.select(server.to_string()));
    s
}

#[test]
fn scan_request_without_keyword_uses_star_and_small_batch() {
    let s = selected("local");
    let req = s.scan_request();
    assert!(req.cursors.is_none());
    assert_eq!(req.pattern, "*");
    assert_eq!(req.count, 2000);
}

#[test]
fn scan_request_with_keyword_wraps_it_and_uses_large_batch() {
    let mut s = selected("local");
    s.start_scan("user".to_string());
    let req = s.scan_request();
    assert_eq!(req.pattern, "*user*");
    assert_eq!(req.count, 10000);
    assert_eq!(scan_pattern(""), "*");
    assert_eq!(scan_count("x"), 10000);
}

#[test]
fn zero_cursor_sum_completes_the_scan_and_stops() {
    let mut s = selected("local");
    let step = s.apply_scan_batch("local", "", Some((vec![0, 0, 0], keys("k", 3))));
    assert_eq!(step, ScanStep::Finished);
    assert!(s.scan_completed);
    assert!(s.cursors.is_none());
    assert!(!s.scanning);
    assert_eq!(s.keys.len(), 3);
    // no further continuation after a complete pass
    assert!(!s.scan_next());
    assert_eq!(s.scan_times, 0);
}

#[test]
fn scan_of_2500_keys_continues_until_threshold() {
    // 2,500 keys served 500 per call with an empty keyword (batch hint 2,000)
    let mut s = selected("local");
    assert_eq!(s.scan_request().count, 2000);
    let step = s.apply_scan_batch("local", "", Some((vec![17], keys("a", 500))));
    assert_eq!(step, ScanStep::Continue);
    assert!(s.scanning);
    let step = s.apply_scan_batch("local", "", Some((vec![33], keys("b", 500))));
    // 1,000 keys reached: the loop yields with scan_times still 0
    assert_eq!(step, ScanStep::Finished);
    assert_eq!(s.scan_times, 0);
    assert_eq!(s.keys.len(), 1000);
    assert!(!s.scan_completed);
    assert_eq!(s.cursors, Some(vec![33]));
    // the user asks for more: the limit moves to 2,000
    assert!(s.scan_next());
    assert_eq!(s.scan_times, 1);
    let step = s.apply_scan_batch("local", "", Some((vec![50], keys("c", 500))));
    assert_eq!(step, ScanStep::Continue);
    let step = s.apply_scan_batch("local", "", Some((vec![0], keys("d", 500))));
    assert_eq!(step, ScanStep::Finished);
    assert!(s.scan_completed);
    assert_eq!(s.keys.len(), 2000);
}

#[test]
fn scan_of_2500_keys_in_one_reply_stops_at_once() {
    let mut s = selected("local");
    let step = s.apply_scan_batch("local", "", Some((vec![9], keys("k", 2500))));
    assert_eq!(step, ScanStep::Finished);
    assert_eq!(s.scan_times, 0);
    assert_eq!(s.keys.len(), 2500);
}

#[test]
fn stale_batch_is_dropped() {
    let mut s = selected("local");
    let step = s.apply_scan_batch("other", "", Some((vec![0], keys("k", 3))));
    assert_eq!(step, ScanStep::Stale);
    assert_eq!(s.keys.len(), 0);
    let step = s.apply_scan_batch("local", "kw", Some((vec![0], keys("k", 3))));
    assert_eq!(step, ScanStep::Stale);
    assert!(!s.scan_completed);
}

#[test]
fn failed_batch_clears_cursors_and_ends_the_loop() {
    let mut s = selected("local");
    assert_eq!(s.apply_scan_batch("local", "", Some((vec![4], keys("k", 10)))), ScanStep::Continue);
    let step = s.apply_scan_batch("local", "", None);
    assert_eq!(step, ScanStep::Finished);
    assert!(s.cursors.is_none());
    assert!(!s.scan_completed);
    assert_eq!(s.keys.len(), 10);
}

#[test]
fn selecting_same_server_changes_nothing() {
    let mut s = selected("local");
    s.apply_scan_batch("local", "", Some((vec![0], keys("k", 2))));
    assert!(!s.select("local".to_string()));
    assert_eq!(s.keys.len(), 2);
    assert!(!s.select(String::new()));
    assert_eq!(s.keys.len(), 0);
    assert!(!s.scanning);
}

#[test]
fn scan_limit_grows_by_thousand_and_saturates() {
    assert_eq!(scan_limit(0), 1000);
    assert_eq!(scan_limit(2), 3000);
    assert_eq!(scan_limit(usize::MAX), usize::MAX);
}

#[test]
fn cursor_helpers() {
    assert!(cursors_done(&vec![]));
    assert!(cursors_done(&vec![0, 0]));
    assert!(!cursors_done(&vec![0, 5]));
    assert_eq!(prefix_pattern("user:"), "user:*");
    assert!(prefix_scan_continues(0, &vec![3]));
    assert!(!prefix_scan_continues(19, &vec![3]));
    assert!(!prefix_scan_continues(0, &vec![0]));
}

#[test]
fn prefix_plan_and_apply() {
    let mut s = selected("local");
    assert_eq!(s.prefix_plan("user:"), PrefixPlan::Scan);
    s.apply_prefix_scan("user:".to_string(), Some(vec!["user:1".to_string(), "user:2".to_string()]));
    assert_eq!(s.prefix_plan("user:"), PrefixPlan::Skip);
    assert_eq!(s.keys.len(), 2);
    s.apply_prefix_scan("post:".to_string(), None);
    assert_eq!(s.prefix_plan("post:"), PrefixPlan::Scan);
    s.apply_scan_batch("local", "", Some((vec![0], vec![])));
    assert_eq!(s.prefix_plan("post:"), PrefixPlan::FillTypes);
}

#[test]
fn keys_to_resolve_and_apply_types() {
    let mut s = selected("local");
    s.apply_scan_batch(
        "local",
        "",
        Some((vec![0], vec!["a".to_string(), "user:1".to_string(), "user:1:x".to_string(), "b".to_string()])),
    );
    let top = s.keys_to_resolve("");
    assert_eq!(top, vec!["a".to_string(), "b".to_string()]);

    let under = s.keys_to_resolve("user:");
    assert_eq!(under, vec!["user:1".to_string()]);
    let generation = s.keys.generation();
    s.apply_key_types(&top, &vec!["hash".to_string(), "zset".to_string()]);
    assert_eq!(s.keys.get("a"), Some(KeyType::Hash));
    assert_eq!(s.keys.get("b"), Some(KeyType::Zset));
    assert_eq!(s.keys.get("user:1"), Some(KeyType::Unknown));
    assert_ne!(s.keys.generation(), generation);
    assert_eq!(s.keys_to_resolve(""), Vec::<String>::new());
}

#[test]
fn keys_to_resolve_takes_the_thousand_smallest_in_order() {
    let mut s = selected("local");
    let mut found: Vec<String> = (0..1200).map(|i| format!("k{:04}", 1199 - i)).collect();
    found.push("a".to_string());
    s.apply_scan_batch("local", "", Some((vec![0], found)));
    let picked = s.keys_to_resolve("");
    assert_eq!(picked.len(), 1000);
    assert_eq!(picked[0], "a");
    assert_eq!(picked[1], "k0000");
    assert_eq!(picked[999], "k0998");
    assert!(picked.windows(2).all(|w| w[0] < w[1]));
}

#[test]
fn keys_to_resolve_sorts_by_bytes() {
    let mut s = selected("local");
    s.apply_scan_batch("local", "", Some((vec![0], vec!["b".to_string(), "B".to_string(), "a".to_string(), "é".to_string()])));
    assert_eq!(s.keys_to_resolve(""), vec!["B", "a", "b", "é"]);
}

#[test]
fn key_index_extend_counts_new_keys_only() {
    let mut idx = KeyIndex::new();
    let g0 = idx.generation();
    assert_eq!(idx.extend(vec!["a".to_string(), "b".to_string(), "a".to_string()]), 2);
    let g1 = idx.generation();
    assert_ne!(g0, g1);
    idx.set_type("a", KeyType::List);
    assert_eq!(idx.extend(vec!["a".to_string()]), 0);
    assert_eq!(idx.generation(), g1);
    assert_eq!(idx.get("a"), Some(KeyType::List));
    idx.remove("a");
    assert_eq!(idx.get("a"), None);
    assert_ne!(idx.generation(), g1);
    assert_eq!(idx.key_names(), vec!["b".to_string()]);
}

#[test]
fn key_type_names() {
    assert_eq!(KeyType::parse("hash"), KeyType::Hash);
    assert_eq!(KeyType::parse("set"), KeyType::SetOf);
    assert_eq!(KeyType::parse("string"), KeyType::String);
    assert_eq!(KeyType::parse("none"), KeyType::Unknown);
    assert_eq!(KeyType::Stream.as_str(), "STRM");
    assert_eq!(KeyType::Unknown.as_str(), "");
}

#[test]
fn trie_round_trip_reproduces_keys() {
    let input = vec![
        "user:1:name".to_string(),
        "user:1".to_string(),
        "user:2:name".to_string(),
        "post".to_string(),
        "a::b".to_string(),
    ];
    let trie = KeyTrie::from_keys(&input);
    let mut flat = trie.flatten();
    flat.sort();
    let mut expected = input.clone();
    expected.sort();
    assert_eq!(flat, expected);
}

#[test]
fn trie_nodes_depend_on_the_key_set_only() {
    let one = KeyTrie::from_keys(&vec!["a:b:c".to_string(), "a:x".to_string(), "q".to_string()]);
    let two = KeyTrie::from_keys(&vec!["q".to_string(), "a:x".to_string(), "a:b:c".to_string(), "q".to_string()]);
    let paths = |t: &KeyTrie| {
        let mut v: Vec<(String, bool)> = (0..t.len()).map(|i| (t.node(i).full_path.clone(), t.node(i).is_key)).collect();
        v.sort();
        v
    };
    assert_eq!(paths(&one), paths(&two));
    assert_eq!(paths(&one).len(), 5);
}

#[test]
fn trie_paths_join_segments() {
    let trie = KeyTrie::from_keys(&vec!["a:b:c".to_string()]);
    assert_eq!(trie.len(), 3);
    for i in 0..trie.len() {
        assert_eq!(trie.path_of(i), trie.node(i).full_path);
    }
    assert_eq!(trie.node(2).name, "c");
    assert!(trie.node(2).is_key);
    assert!(!trie.node(1).is_key);
}

#[test]
fn trie_display_order_puts_directories_first() {
    let trie = KeyTrie::from_keys(&vec![
        "zeta".to_string(),
        "beta:1".to_string(),
        "alpha".to_string(),
        "gamma:x:y".to_string(),
    ]);
    let top = trie.children_in_display_order(None);
    let paths: Vec<String> = top.iter().map(|&i| trie.node(i).full_path.clone()).collect();
    assert_eq!(paths, vec!["beta", "gamma", "alpha", "zeta"]);
}
