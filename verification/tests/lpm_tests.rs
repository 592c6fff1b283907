use netlab::addr::ip_to_u32;
use netlab::addr::u32_to_ip;
use netlab::bst::BSTNode;
use netlab::trie::TrieNode;

fn bst_lookup(root: &BSTNode, ip: u32) -> Option<String> {
    let mut best: Option<String> = None;
    let mut best_len: i32 = -1;
    root.lookup(ip, &mut best, &mut best_len);
    best
}

#[test]
fn ip_conversion_round_trip() {
    assert_eq!(ip_to_u32("192.168.1.5"), 0xC0A8_0105);
    assert_eq!(ip_to_u32("0.0.0.0"), 0);
    assert_eq!(ip_to_u32("255.255.255.255"), 0xFFFF_FFFF);
    assert_eq!(ip_to_u32("10.0.0.1"), 0x0A00_0001);
    assert_eq!(u32_to_ip(0xC0A8_0105), "192.168.1.5");
    assert_eq!(u32_to_ip(0), "0.0.0.0");
    assert_eq!(u32_to_ip(0xFFFF_FFFF), "255.255.255.255");
    assert_eq!(u32_to_ip(ip_to_u32("172.16.254.3")), "172.16.254.3");
}

#[test]
fn trie_scenario_longest_match() {
    let mut trie = TrieNode::new();
    trie.insert(ip_to_u32("192.168.0.0"), 16, "Router_A".to_string());
    trie.insert(ip_to_u32("192.168.1.0"), 24, "Router_B".to_string());
    trie.insert(ip_to_u32("192.168.1.128"), 25, "Router_C".to_string());
    assert_eq!(trie.lookup(ip_to_u32("192.168.1.5")), Some("Router_B".to_string()));
    assert_eq!(trie.lookup(ip_to_u32("192.168.1.200")), Some("Router_C".to_string()));
    assert_eq!(trie.lookup(ip_to_u32("192.168.77.9")), Some("Router_A".to_string()));
    assert_eq!(trie.lookup(ip_to_u32("8.8.8.8")), None);
}

#[test]
fn bst_scenario_longest_match() {
    let mut root = BSTNode::new(ip_to_u32("192.168.0.0"), 16, "Router_A".to_string());
    root.insert(ip_to_u32("192.168.1.0"), 24, "Router_B".to_string());
    root.insert(ip_to_u32("192.168.1.128"), 25, "Router_C".to_string());
    assert_eq!(bst_lookup(&root, ip_to_u32("192.168.1.5")), Some("Router_B".to_string()));
    assert_eq!(bst_lookup(&root, ip_to_u32("192.168.1.200")), Some("Router_C".to_string()));
    assert_eq!(bst_lookup(&root, ip_to_u32("192.168.77.9")), Some("Router_A".to_string()));
    assert_eq!(bst_lookup(&root, ip_to_u32("8.8.8.8")), None);
}

#[test]
fn structures_agree_on_sample_table() {
    let routes = [
        ("192.168.0.0", 16u8, "Router_A"),
        ("192.168.1.0", 24, "Router_B"),
        ("192.168.1.128", 25, "Router_C"),
        ("10.0.0.0", 8, "Router_D"),
        ("172.16.0.0", 12, "Router_E"),
    ];
    let mut trie = TrieNode::new();
    let mut bst = BSTNode::new(ip_to_u32(routes[0].0), routes[0].1, routes[0].2.to_string());
    trie.insert(ip_to_u32(routes[0].0), routes[0].1, routes[0].2.to_string());
    for (p, len, hop) in &routes[1..] {
        let prefix = ip_to_u32(p);
        trie.insert(prefix, *len, hop.to_string());
        bst.insert(prefix, *len, hop.to_string());
    }
    let queries = [
        "192.168.1.5",
        "192.168.1.200",
        "10.5.10.1",
        "172.16.5.5",
        "172.32.0.1",
        "8.8.8.8",
        "192.168.2.2",
    ];
    for q in &queries {
        let a = ip_to_u32(q);
        assert_eq!(trie.lookup(a), bst_lookup(&bst, a), "disagreement on {}", q);
    }
}

#[test]
fn trie_reinsertion_replaces_next_hop() {
    let mut trie = TrieNode::new();
    trie.insert(ip_to_u32("10.1.0.0"), 16, "old_hop".to_string());
    trie.insert(ip_to_u32("10.1.0.0"), 16, "new_hop".to_string());
    assert_eq!(trie.lookup(ip_to_u32("10.1.2.3")), Some("new_hop".to_string()));
    // exactly one mapping is active: nothing else answers
    assert_eq!(trie.lookup(ip_to_u32("10.2.0.0")), None);
}

#[test]
fn trie_default_route() {
    let mut trie = TrieNode::new();
    trie.insert(0, 0, "default_gw".to_string());
    assert_eq!(trie.lookup(ip_to_u32("8.8.8.8")), Some("default_gw".to_string()));
    assert_eq!(trie.lookup(0), Some("default_gw".to_string()));
    assert_eq!(trie.lookup(0xFFFF_FFFF), Some("default_gw".to_string()));
    trie.insert(ip_to_u32("8.8.0.0"), 16, "specific".to_string());
    assert_eq!(trie.lookup(ip_to_u32("8.8.8.8")), Some("specific".to_string()));
    assert_eq!(trie.lookup(ip_to_u32("9.9.9.9")), Some("default_gw".to_string()));
}

#[test]
fn trie_ignores_bits_beyond_prefix_length() {
    let mut trie = TrieNode::new();
    // a host address with a short length: only the top 16 bits count
    trie.insert(ip_to_u32("192.168.1.77"), 16, "R".to_string());
    assert_eq!(trie.lookup(ip_to_u32("192.168.200.1")), Some("R".to_string()));
    assert_eq!(trie.lookup(ip_to_u32("192.169.1.77")), None);
}

#[test]
fn full_length_host_routes() {
    let mut trie = TrieNode::new();
    trie.insert(ip_to_u32("1.2.3.4"), 32, "host".to_string());
    assert_eq!(trie.lookup(ip_to_u32("1.2.3.4")), Some("host".to_string()));
    assert_eq!(trie.lookup(ip_to_u32("1.2.3.5")), None);
    let node = BSTNode::new(ip_to_u32("1.2.3.4"), 32, "host".to_string());
    assert!(node.matches(ip_to_u32("1.2.3.4")));
    assert!(!node.matches(ip_to_u32("1.2.3.5")));
}

#[test]
fn empty_trie_has_no_route() {
    let trie = TrieNode::new();
    assert_eq!(trie.lookup(ip_to_u32("1.2.3.4")), None);
    assert_eq!(trie.lookup(0), None);
}

#[test]
fn bst_matches_masks_prefix() {
    let node = BSTNode::new(ip_to_u32("192.168.0.0"), 16, "A".to_string());
    assert!(node.matches(ip_to_u32("192.168.55.1")));
    assert!(!node.matches(ip_to_u32("192.169.0.0")));
    let all = BSTNode::new(ip_to_u32("10.20.30.40"), 0, "B".to_string());
    assert!(all.matches(ip_to_u32("1.2.3.4")));
    assert!(all.matches(0));
}

#[test]
fn bst_lookup_starts_from_caller_accumulator() {
    let root = BSTNode::new(ip_to_u32("10.0.0.0"), 8, "short".to_string());
    let mut best: Option<String> = Some("preset".to_string());
    let mut best_len: i32 = 20;
    root.lookup(ip_to_u32("10.1.1.1"), &mut best, &mut best_len);
    // the stored /8 is less specific than the preset length 20, so it loses
    assert_eq!(best, Some("preset".to_string()));
    assert_eq!(best_len, 20);
}
