use datastructs::tenary::TenaryTree;
use datastructs::tries::{Node, Trie};

#[test]
fn tenary_insert_nodes() {
    let mut tree = TenaryTree::new();

    tree.insert("apple");
    tree.insert("peal");
    tree.insert("lemon");

    println!("{:?}", tree.root);
}

#[test]
fn tenary_middle_chain_spells_first_word() {
    let mut tree = TenaryTree::new();
    tree.insert("ab");

    let root = tree.root.as_ref().unwrap();
    assert_eq!('a', root.value);
    assert!(root.left.is_none());
    assert!(root.right.is_none());
    let middle = root.middle.as_ref().unwrap();
    assert_eq!('b', middle.value);
    assert!(middle.middle.is_none());
}

#[test]
fn tenary_branches_by_order() {
    let mut tree = TenaryTree::new();
    tree.insert("m");
    tree.insert("a");
    tree.insert("z");

    let root = tree.root.as_ref().unwrap();
    assert_eq!('m', root.value);
    assert_eq!('a', root.left.as_ref().unwrap().value);
    assert_eq!('z', root.right.as_ref().unwrap().value);
}

#[test]
fn tenary_empty_word_changes_nothing() {
    let mut tree = TenaryTree::new();
    tree.insert("");
    assert!(tree.root.is_none());
}

#[test]
fn binary_search() {
    let node1 = Node::new('h');
    let node2 = Node::new('c');
    let node3 = Node::new('a');

    let mut root = Vec::new();
    root.push(node1);
    root.push(node2);
    root.push(node3);

    root.sort();

    println!("{root:?}");
}

#[test]
fn tries_insert_nodes() {
    let mut trie = Trie::new();

    trie.insert("hello");
    trie.insert("help");
    trie.insert("hell");
    trie.insert("application");
    trie.insert("applications");
    trie.insert("applicationssss");
    trie.insert("apple");

    let words = trie.auto_complete("app");

    println!("{words:?}");
}

#[test]
fn auto_complete_lists_stored_words() {
    let mut trie = Trie::new();
    trie.insert("hello");
    trie.insert("help");
    trie.insert("hell");

    // The prefix itself is stored, so it comes first; the longer word
    // "hello" continues below the same node and precedes "help".
    let words = trie.auto_complete("hell");
    assert_eq!(vec!["hell".to_string(), "hello".to_string()], words);

    let words = trie.auto_complete("hel");
    assert_eq!(vec!["hello".to_string(), "hell".to_string(), "help".to_string()], words);
}

#[test]
fn auto_complete_unknown_first_letter_echoes_word() {
    let mut trie = Trie::new();
    trie.insert("hello");
    let words = trie.auto_complete("x");
    assert_eq!(vec!["x".to_string()], words);
}

#[test]
fn auto_complete_broken_path_yields_nothing() {
    let mut trie = Trie::new();
    trie.insert("hello");
    let words = trie.auto_complete("hex");
    assert!(words.is_empty());
}

#[test]
fn traverse_tree_lists_words_below_a_node() {
    let mut trie = Trie::new();
    trie.insert("ab");
    trie.insert("ac");
    trie.insert("a");

    let words = trie.auto_complete("a");
    assert_eq!(vec!["a".to_string(), "ab".to_string(), "ac".to_string()], words);
}

#[test]
fn traverse_tree_collects_below_a_given_node() {
    let trie = Trie::new();
    let leaf = Node { value: 'b', childs: Vec::new(), is_end: true };
    let node = Node { value: 'a', childs: vec![leaf], is_end: true };

    // Below 'a' with prefix "x": the child word first, the own word last.
    let words = trie.traverse_tree(&node, "x");
    assert_eq!(vec!["xab".to_string(), "xa".to_string()], words);
}

#[test]
fn node_reports_its_value() {
    let n = Node::new('q');
    assert_eq!('q', n.get_value());
}
