use trie::map_trie;
use trie::trie::TNode;

/// Walks the whole tree and fails on any branch node with zero children.
fn assert_no_dangling_branch(node: &TNode<i32>) {
    if let TNode::Node(n) = node {
        assert!(!n.children.is_empty());
        for (_, child) in n.children.iter() {
            assert_no_dangling_branch(child);
        }
    }
}

#[test]
fn insert_lookup_roundtrip() {
    let mut t = TNode::Empty;
    t.add("route", Some(7)).unwrap();
    let node = t.find("route", true).unwrap();
    assert_eq!(node.content(), &Some(7));
    assert!(t.contains_key("route"));
}

#[test]
fn duplicate_insert_rejected() {
    let mut t = TNode::Empty;
    t.add("dup", Some(1)).unwrap();
    assert!(t.add("dup", Some(2)).is_err());
    let node = t.find("dup", true).unwrap();
    assert_eq!(node.content(), &Some(1));
}

#[test]
fn longest_prefix_returns_exact_stored_prefix() {
    let mut t = TNode::Empty;
    t.add("ab", Some(1)).unwrap();
    t.add("abcde", Some(2)).unwrap();
    let res = t.longest_prefix("abxyz", true);
    let expected: Vec<char> = "ab".chars().collect();
    assert_eq!(res.chars().collect::<Vec<_>>(), expected);
}

#[test]
fn remove_keeps_independent_extensions() {
    let mut t = TNode::Empty;
    t.add("a", Some(1)).unwrap();
    t.add("ab", Some(2)).unwrap();
    t.add("abc", Some(3)).unwrap();
    assert!(t.remove("ab", false));
    assert!(!t.contains_key("ab"));
    assert!(t.contains_key("a"));
    assert!(t.contains_key("abc"));
    let node = t.find("abc", true).unwrap();
    assert_eq!(node.content(), &Some(3));
}

#[test]
fn remove_subtree_drops_every_extension() {
    let mut t = TNode::Empty;
    t.add("x", Some(1)).unwrap();
    t.add("xy", Some(2)).unwrap();
    t.add("xyz", Some(3)).unwrap();
    t.add("xw", Some(4)).unwrap();
    assert!(t.remove("xy", true));
    assert!(t.contains_key("x"));
    assert!(t.contains_key("xw"));
    assert!(!t.contains_key("xy"));
    assert!(!t.contains_key("xyz"));
}

#[test]
fn no_dangling_branches_after_mixed_operations() {
    let mut t = TNode::Empty;
    t.add("car", Some(1)).unwrap();
    t.add("cart", Some(2)).unwrap();
    t.add("carbon", Some(3)).unwrap();
    t.add("cat", Some(4)).unwrap();
    t.add("dog", Some(5)).unwrap();
    assert_no_dangling_branch(&t);
    assert!(t.remove("carbon", false));
    assert_no_dangling_branch(&t);
    assert!(t.remove("car", true));
    assert_no_dangling_branch(&t);
    assert!(t.remove("dog", false));
    assert_no_dangling_branch(&t);
    assert!(t.contains_key("cat"));
    assert!(!t.contains_key("cart"));
}

#[test]
fn empty_key_addresses_the_root() {
    let mut t = TNode::Empty;
    t.add("", Some(9)).unwrap();
    assert!(t.contains_key(""));
    assert!(t.add("", Some(10)).is_err());
    assert_eq!(t.pp(true), "  (9)\n");
}

#[test]
fn remove_of_missing_key_changes_nothing() {
    let mut t = TNode::Empty;
    t.add("solo", Some(1)).unwrap();
    assert!(!t.remove("other", false));
    assert!(!t.remove("other", true));
    assert!(t.contains_key("solo"));
}

#[test]
fn renders_multi_digit_and_negative_payloads() {
    let mut t = TNode::Empty;
    t.add("n", Some(-42i32)).unwrap();
    assert_eq!(t.pp(true), "n  (-42)\n");

    let mut z = TNode::Empty;
    z.add("z", Some(0i32)).unwrap();
    assert_eq!(z.pp(true), "z  (0)\n");

    let mut big = TNode::Empty;
    big.add("b", Some(18446744073709551615u64)).unwrap();
    assert_eq!(big.pp(true), "b  (18446744073709551615)\n");

    let mut word = TNode::Empty;
    word.add("w", Some(4294967295u32)).unwrap();
    assert_eq!(word.pp(true), "w  (4294967295)\n");
}

#[test]
fn unicode_keys_walk_one_code_point_at_a_time() {
    let mut t = TNode::Empty;
    t.add("näive", Some(1)).unwrap();
    t.add("nä", Some(2)).unwrap();
    assert!(t.contains_key("nä"));
    assert!(!t.contains_key("n"));
    let res = t.longest_prefix("näiv", true);
    let expected: Vec<char> = "nä".chars().collect();
    assert_eq!(res.chars().collect::<Vec<_>>(), expected);
}

#[test]
fn map_trie_add_overwrites_existing_key() {
    let mut t = map_trie::Trie::new(None);
    t.add("", Some(1));
    t.add("", Some(2));
    assert_eq!(t.root.content, Some(2));
    assert!(t.root.is_terminal);
}

#[test]
fn map_trie_find_of_missing_path_fails() {
    let mut t = map_trie::Trie::new(None);
    t.add("abc", Some(1));
    assert!(t.find("abd", false).is_none());
    assert!(t.find("ab", true).is_none());
    let pr = t.find("ab", false).unwrap();
    let expected: Vec<char> = "ab".chars().collect();
    assert_eq!(pr.0, expected);
    assert!(!pr.1.is_terminal);
    assert!(pr.1.full_match);
}

#[test]
fn map_trie_longest_prefix_flags() {
    let mut t = map_trie::Trie::new(None);
    t.add("ab", Some(1));
    t.add("abcd", Some(2));
    let pr = t.longest_prefix("abcd", true).unwrap();
    let expected: Vec<char> = "abcd".chars().collect();
    assert_eq!(pr.0, expected);
    assert!(pr.1.is_terminal);
    assert!(pr.1.full_match);

    let pr2 = t.longest_prefix("abcx", true).unwrap();
    let expected2: Vec<char> = "ab".chars().collect();
    assert_eq!(pr2.0, expected2);
    assert!(pr2.1.is_terminal);
    assert!(!pr2.1.full_match);
}
