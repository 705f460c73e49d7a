use trie::trie::{Leaf, Node, TNode};

fn leaf(content: Option<i32>) -> TNode<i32> {
    TNode::Leaf(Leaf { content, is_terminal: true })
}

#[test]
fn trie_pretty_print() {
    let t: TNode<i32> = TNode::Node(Node {
        is_terminal: false,
        content: None,
        children: vec![
            (
                'a',
                TNode::Node(Node {
                    is_terminal: true,
                    content: None,
                    children: vec![(
                        'b',
                        TNode::Node(Node {
                            is_terminal: false,
                            content: None,
                            children: vec![('c', leaf(None))],
                        }),
                    )],
                }),
            ),
            ('d', leaf(None)),
            ('e', leaf(None)),
        ],
    });
    assert_eq!(t.pp(false), "a\n bc\nd\ne\n")
}

#[test]
fn add_to_empty_trie() {
    let mut t = TNode::Empty;
    t.add("a", Some(1)).unwrap();
    match t {
        TNode::Node(node) => {
            assert_eq!(node.content, None);
            assert_eq!(node.is_terminal, false);
            let (key, subt) = &node.children[0];
            assert_eq!(*key, 'a');
            assert_eq!(subt.content(), &Some(1));
            assert_eq!(subt.is_terminal(), true);
        }
        _ => panic!("t should be TNode::Node"),
    }
}

#[test]
fn trie_add_single_char_string() {
    let mut t = TNode::Empty;
    t.add("a", Some(1)).unwrap();
    t.add("ab", Some(1)).unwrap();
    t.add("c", Some(1)).unwrap();
    t.add("d", Some(1)).unwrap();
    assert_eq!(t.pp(false), "a\n b\nc\nd\n")
}

#[test]
fn contains_key() {
    let mut t = TNode::Empty;
    t.add("a", Some(1)).unwrap();
    assert!(t.contains_key("a"));

    t.add("abc", Some(2)).unwrap();
    assert!(!t.contains_key("b"));
    assert!(t.contains_key("abc"));
}

#[test]
fn show_content() {
    let mut t = TNode::Empty;
    assert_eq!(t.pp(true), "[empty]\n");

    t.add("a", Some(1)).unwrap();
    assert_eq!(t.pp(true), "a  (1)\n");

    t.add("abc", Some(2)).unwrap();
    assert_eq!(t.pp(true), "a\n bc  (2)\n");

    t.add("d", Some(3)).unwrap();
    assert_eq!(t.pp(true), "a\n bc  (2)\nd  (3)\n");

    t.add("e", Some(4)).unwrap();
    assert_eq!(t.pp(true), "a\n bc  (2)\nd  (3)\ne  (4)\n");
}

#[test]
fn trie_longest_prefix() {
    let mut t = TNode::Empty;
    t.add("this is words", Some(1)).unwrap();
    t.add("this is more", Some(1)).unwrap();
    t.add("this is more words", Some(1)).unwrap();
    let res = t.longest_prefix("this is more wo", false);
    let expected: Vec<char> = "this is more wo".chars().collect();
    assert_eq!(res.chars().collect::<Vec<_>>(), expected);
}

#[test]
fn longest_prefix_no_full_match() {
    let mut t = TNode::Empty;
    t.add("this is words", Some(1)).unwrap();
    t.add("this is more", Some(1)).unwrap();
    t.add("this is more words", Some(1)).unwrap();
    let res = t.longest_prefix("this is weeks", false);
    let expected: Vec<char> = "this is w".chars().collect();
    assert_eq!(res.chars().collect::<Vec<_>>(), expected);
}

#[test]
fn trie_longest_prefix_terminal() {
    let mut t = TNode::Empty;
    t.add("this is words", Some(1)).unwrap();
    t.add("this is more", Some(1)).unwrap();
    t.add("this is more words", Some(1)).unwrap();
    let res = t.longest_prefix("this is more wo", true);
    let expected: Vec<char> = "this is more".chars().collect();
    assert_eq!(res.chars().collect::<Vec<_>>(), expected);
}

#[test]
fn trie_longest_prefix_fail() {
    let mut t = TNode::Empty;
    t.add("this is words", Some(1)).unwrap();
    t.add("this is more", Some(1)).unwrap();
    t.add("this is more words", Some(1)).unwrap();
    let res = t.longest_prefix("this is", true);
    assert!(res.is_empty());
}

#[test]
fn find() {
    let mut t = TNode::Empty;
    t.add("this is words", Some(1)).unwrap();
    t.add("this is more", Some(2)).unwrap();
    t.add("this is even more", Some(3)).unwrap();
    let res = t.find("this is more", false).unwrap();
    assert_eq!(res.content().unwrap(), 2)
}

#[test]
fn find_terminal() {
    let mut t = TNode::Empty;
    t.add("this is words", Some(1)).unwrap();
    t.add("this is more", Some(2)).unwrap();
    t.add("this is even more", Some(3)).unwrap();
    let res = t.find("this is more", true).unwrap();
    assert_eq!(res.content().unwrap(), 2);
}

#[test]
fn find_terminal_fail() {
    let mut t = TNode::Empty;
    t.add("this is words", Some(1)).unwrap();
    t.add("this is more", Some(1)).unwrap();
    t.add("this is even more", Some(1)).unwrap();
    let pref = t.find("this is more wo", true);
    assert!(pref.is_none())
}

#[test]
fn remove() {
    let mut t = TNode::Empty;
    t.add("a", Some(1)).unwrap();
    t.add("abc", Some(2)).unwrap();
    t.add("abcd", Some(3)).unwrap();

    assert!(!t.remove("ab", false));
    assert!(t.contains_key("a"));
    assert!(t.contains_key("abc"));
    assert!(t.contains_key("abcd"));

    assert!(t.remove("abc", true));
    assert!(t.contains_key("a"));
    assert!(!t.contains_key("abc"));
    assert!(!t.contains_key("abcd"));

    assert!(t.remove("a", false));
    assert!(t.is_empty());
}

#[test]
fn remove_non_terminal() {
    let mut t = TNode::Empty;
    t.add("a", Some(1)).unwrap();
    t.add("abc", Some(2)).unwrap();
    t.remove("abc", false);
    let expected = "a\n";
    assert_eq!(t.pp(false), expected);
}

#[test]
fn remove_subtree() {
    let mut t = TNode::Empty;
    t.add("a", Some(1)).unwrap();
    t.add("abc", Some(2)).unwrap();
    t.remove("ab", true);
    let expected = "a\n";
    assert_eq!(t.pp(false), expected);
}

#[test]
fn remove_non_existing() {
    let mut t = TNode::Empty;
    t.add("a", Some(1)).unwrap();
    t.add("abc", Some(2)).unwrap();
    let expected = t.pp(false);
    t.remove("xyz", true);
    assert_eq!(t.pp(false), expected);
}
