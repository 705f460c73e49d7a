use trie::map_trie::{TNode, Trie};

#[test]
fn create_tnode() {
    let n = TNode::new(Some(1));
    assert_eq!(n.content, Some(1));
    assert!(!n.is_terminal);
    assert!(n.children.is_empty());
}

#[test]
fn lib_pretty_print() {
    let t: Trie<u8> = Trie {
        root: TNode {
            is_terminal: false,
            content: None,
            children: vec![
                (
                    'a',
                    TNode {
                        is_terminal: true,
                        content: None,
                        children: vec![(
                            'b',
                            TNode { is_terminal: true, content: None, children: vec![] },
                        )],
                    },
                ),
                ('c', TNode { is_terminal: true, content: None, children: vec![] }),
                ('d', TNode { is_terminal: true, content: None, children: vec![] }),
            ],
        },
    };
    assert_eq!(t.pp(), "\na\n b\nc\nd")
}

#[test]
fn add_empty_string() {
    let mut t = Trie::new(None);
    t.add("", Some(1));
    assert_eq!(t.root.content, Some(1));
}

#[test]
fn lib_add_single_char_string() {
    let mut t = Trie::new(None);
    t.add("a", Some(1));
    t.add("ab", Some(1));
    t.add("c", Some(1));
    t.add("d", Some(1));
    println!("{}", t.pp());
    assert_eq!(t.pp(), "\na\n b\nc\nd")
}

#[test]
fn lib_longest_prefix() {
    let mut t = Trie::new(None);
    t.add("this is words", Some(1));
    t.add("this is more", Some(1));
    t.add("this is more words", Some(1));
    let pref = t.longest_prefix("this is more wo", false).unwrap().0;
    let expected: Vec<char> = "this is more wo".chars().collect();
    assert_eq!(pref, expected);
}

#[test]
fn lib_longest_prefix_terminal() {
    let mut t = Trie::new(None);
    t.add("this is words", Some(1));
    t.add("this is more", Some(1));
    t.add("this is more words", Some(1));
    let pref = t.longest_prefix("this is more wo", true).unwrap().0;
    let expected: Vec<char> = "this is more".chars().collect();
    assert_eq!(pref, expected);
}

#[test]
fn lib_longest_prefix_fail() {
    let mut t = Trie::new(None);
    t.add("this is words", Some(1));
    t.add("this is more", Some(1));
    t.add("this is more words", Some(1));
    let pref = t.longest_prefix("this is", true);
    assert!(pref.is_none());
}

#[test]
fn lib_find() {
    let mut t = Trie::new(None);
    t.add("this is words", Some(1));
    t.add("this is more", Some(1));
    t.add("this is even more", Some(1));
    let pref = t.find("this is more", false).unwrap().0;
    let expected: Vec<char> = "this is more".chars().collect();
    assert_eq!(pref, expected);
}

#[test]
fn lib_find_terminal() {
    let mut t = Trie::new(None);
    t.add("this is words", Some(1));
    t.add("this is more", Some(1));
    t.add("this is even more", Some(1));
    let pref = t.find("this is more", true).unwrap().0;
    let expected: Vec<char> = "this is more".chars().collect();
    assert_eq!(pref, expected);
}

#[test]
fn lib_find_terminal_fail() {
    let mut t = Trie::new(None);
    t.add("this is words", Some(1));
    t.add("this is more", Some(1));
    t.add("this is even more", Some(1));
    let pref = t.find("this is more wo", true);
    assert!(pref.is_none())
}
