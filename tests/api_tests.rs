use gtrie::trie_node::TrieNode;
use gtrie::{NotFound, Trie};

fn chars(s: &str) -> Vec<char> {
    s.chars().collect()
}

#[test]
fn new_trie_is_is_empty() {
    assert_eq!(Trie::<char, String>::new().is_empty(), true);
}

#[test]
fn add_word_to_trie() {
    let mut t = Trie::new();
    t.insert(&chars("test"), String::from("test"));

    assert_eq!(t.is_empty(), false);
}

#[test]
fn contains_key_test() {
    let mut t = Trie::new();
    let test = chars("test");
    let tes = chars("tes");
    let notintest = chars("notintest");

    t.insert(&test, String::from("test"));

    assert_eq!(t.is_empty(), false);
    assert_eq!(t.contains_key(&test), true);
    assert_eq!(t.contains_key(&tes), false);
    assert_eq!(t.contains_key(&notintest), false);
}

#[test]
fn contains_key_sub_path_test() {
    let mut t = Trie::new();
    let test = chars("test");
    let tes = chars("tes");
    let notintest = chars("notintest");

    t.insert(&test, String::from("test"));
    t.insert(&tes, String::from("tes"));

    assert_eq!(t.is_empty(), false);
    assert_eq!(t.contains_key(&test), true);
    assert_eq!(t.contains_key(&tes), true);
    assert_eq!(t.contains_key(&notintest), false);
}

#[test]
fn clear_test() {
    let mut t = Trie::new();
    let data = chars("test");

    t.insert(&data, String::from("test"));

    assert_eq!(t.is_empty(), false);
    assert_eq!(t.contains_key(&data), true);

    t.clear();

    assert_eq!(t.is_empty(), true);
    assert_eq!(t.contains_key(&data), false);
}

#[test]
fn inserted_key_is_found_with_its_value() {
    let mut t = Trie::new();
    t.insert(&chars("words"), 7);
    t.insert(&chars("number"), 5);
    assert_eq!(t.contains_key(&chars("words")), true);
    assert_eq!(t.get_value(&chars("words")), Some(7));
    assert_eq!(t.get_value(&chars("number")), Some(5));
}

#[test]
fn never_inserted_key_is_absent() {
    let mut t = Trie::new();
    t.insert(&chars("number"), 5);
    assert_eq!(t.contains_key(&chars("numbers")), false);
    assert_eq!(t.get_value(&chars("numbers")), None);
    assert_eq!(t.contains_key(&chars("num")), false);
    assert_eq!(t.get_value(&chars("num")), None);
    assert_eq!(t.get_value(&chars("none")), None);
}

#[test]
fn prefix_keys_are_independent() {
    let mut t = Trie::new();
    t.insert(&chars("test"), 1);
    t.insert(&chars("tes"), 2);
    assert_eq!(t.contains_key(&chars("test")), true);
    assert_eq!(t.contains_key(&chars("tes")), true);
    assert_eq!(t.contains_key(&chars("te")), false);
    assert_eq!(t.get_value(&chars("test")), Some(1));
    assert_eq!(t.get_value(&chars("tes")), Some(2));
    assert_eq!(t.get_value(&chars("te")), None);
}

#[test]
fn reinsertion_keeps_the_later_value() {
    let mut t = Trie::new();
    t.insert(&chars("x"), 10);
    t.insert(&chars("x"), 20);
    assert_eq!(t.get_value(&chars("x")), Some(20));
    assert_eq!(t.contains_key(&chars("x")), true);
    assert_eq!(t.set_value(&chars("x"), 30), Ok(()));
    assert_eq!(t.get_value(&chars("x")), Some(30));
}

#[test]
fn set_value_on_missing_key_fails() {
    let mut t = Trie::new();
    t.insert(&chars("test"), 42);
    assert_eq!(t.set_value(&chars("notintest"), 39), Err(NotFound));
    assert_eq!(t.contains_key(&chars("notintest")), false);
    assert_eq!(t.get_value(&chars("test")), Some(42));
}

#[test]
fn set_value_on_prefix_only_path_fails() {
    let mut t = Trie::new();
    t.insert(&chars("test"), 42);
    assert_eq!(t.set_value(&chars("tes"), 39), Err(NotFound));
    assert_eq!(t.contains_key(&chars("tes")), false);
    assert_eq!(t.get_value(&chars("tes")), None);
}

#[test]
fn set_value_replaces_existing_value() {
    let mut t = Trie::new();
    t.insert(&chars("test"), 42);
    assert_eq!(t.get_value(&chars("test")), Some(42));
    assert_eq!(t.set_value(&chars("test"), 43), Ok(()));
    assert_eq!(t.get_value(&chars("test")), Some(43));
}

#[test]
fn cleared_trie_forgets_every_key() {
    let mut t = Trie::new();
    t.insert(&chars("this"), 1);
    t.insert(&chars("trie"), 2);
    t.clear();
    assert_eq!(t.is_empty(), true);
    assert_eq!(t.contains_key(&chars("this")), false);
    assert_eq!(t.contains_key(&chars("trie")), false);
    assert_eq!(t.get_value(&chars("trie")), None);
    t.insert(&chars("trie"), 3);
    assert_eq!(t.get_value(&chars("trie")), Some(3));
}

#[test]
fn dictionary_scenario() {
    let mut t = Trie::new();
    t.insert(&chars("this"), 1);
    t.insert(&chars("trie"), 2);
    t.insert(&chars("a"), 4);
    assert_eq!(t.contains_key(&chars("trie")), true);
    assert_eq!(t.contains_key(&chars("tri")), false);
    assert_eq!(t.get_value(&chars("a")), Some(4));
    assert_eq!(t.get_value(&chars("missing")), None);
    t.clear();
    assert_eq!(t.is_empty(), true);
}

#[test]
fn documented_words() {
    let mut t = Trie::new();
    let words = ["this", "trie", "contains", "a", "number", "of", "words"];
    let mut n: i32 = 1;
    for w in words.iter() {
        t.insert(&chars(w), n);
        n += 1;
    }
    assert_eq!(t.contains_key(&chars("number")), true);
    assert_eq!(t.contains_key(&chars("not_existing_key")), false);
    assert_eq!(t.get_value(&chars("words")), Some(7));
    assert_eq!(t.get_value(&chars("none")), None);
}

#[test]
fn empty_key_sits_on_the_root() {
    let mut t = Trie::new();
    assert_eq!(t.contains_key(&[]), false);
    assert_eq!(t.set_value(&[], 1), Err(NotFound));
    t.insert(&[], 5);
    assert_eq!(t.contains_key(&[]), true);
    assert_eq!(t.get_value(&[]), Some(5));
    assert_eq!(t.is_empty(), true);
    t.insert(&chars("a"), 6);
    assert_eq!(t.is_empty(), false);
    assert_eq!(t.get_value(&[]), Some(5));
}

#[test]
fn byte_symbols() {
    let mut t: Trie<u8, String> = Trie::new();
    t.insert(b"abc", String::from("first"));
    t.insert(b"abd", String::from("second"));
    t.insert(b"b", String::from("third"));
    assert_eq!(t.get_value(b"abc"), Some(String::from("first")));
    assert_eq!(t.get_value(b"abd"), Some(String::from("second")));
    assert_eq!(t.get_value(b"b"), Some(String::from("third")));
    assert_eq!(t.get_value(b"ab"), None);
}

#[test]
fn node_children_stay_sorted() {
    let mut node: TrieNode<char> = TrieNode::new(None);
    node.insert(&'m', 1);
    node.insert(&'c', 2);
    node.insert(&'x', 3);
    node.insert(&'a', 4);
    assert_eq!(node.children, vec![('a', 4), ('c', 2), ('m', 1), ('x', 3)]);
    assert_eq!(node.find(&'c'), Some(2));
    assert_eq!(node.find(&'x'), Some(3));
    assert_eq!(node.find(&'b'), None);
    assert_eq!(node.search(&'b'), Err(1));
    assert_eq!(node.search(&'z'), Err(4));
    assert_eq!(node.search(&'a'), Ok(0));
}

#[test]
fn node_value_slot() {
    let mut node: TrieNode<char> = TrieNode::new(None);
    assert_eq!(node.may_be_leaf(), false);
    assert_eq!(node.get_value(), None);
    node.set_value(3);
    assert_eq!(node.may_be_leaf(), true);
    assert_eq!(node.get_value(), Some(3));
    let other: TrieNode<u8> = TrieNode::new(Some(9));
    assert_eq!(other.get_value(), Some(9));
    assert!(other.children.is_empty());
}
