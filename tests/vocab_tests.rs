use trie_vocab::{Node, Vocab};

#[test]
fn test_creating_a_vocab() {
    let dictionary = vec!["words", "in", "the", "dictionary", "what", "where", "when"];

    let vocab = Vocab::new(&dictionary);

    assert!(vocab.get_index("dictionary").is_some());
    assert!(vocab.get_index("where").is_some());
    assert!(vocab.get_index("whereabouts").is_none());
    assert!(vocab.get_index("d").is_none());
}

#[test]
fn test_updating_a_vocab() {
    let dictionary = vec!["words", "in", "the", "dictionary"];

    let mut vocab = Vocab::new(&dictionary);

    vocab.add_words(&vec!["what", "where", "when"]);

    assert!(vocab.get_index("dictionary").is_some());
    assert!(vocab.get_index("where").is_some());
    assert!(vocab.get_index("whereabouts").is_none());
    assert!(vocab.get_index("d").is_none());
}

#[test]
fn updated_vocab_continues_positions() {
    let mut vocab = Vocab::new(&["words", "in", "the", "dictionary"]);
    vocab.add_words(&["what", "where", "when"]);
    assert_eq!(vocab.get_index("what"), Some(4));
    assert_eq!(vocab.get_index("where"), Some(5));
    assert_eq!(vocab.get_index("when"), Some(6));
    assert_eq!(vocab.get_index("words"), Some(0));
    assert_eq!(vocab.get_index("in"), Some(1));
    assert_eq!(vocab.get_index("the"), Some(2));
    assert_eq!(vocab.get_index("dictionary"), Some(3));
}

#[test]
fn distinct_words_get_their_offsets() {
    let list = ["words", "in", "the", "dictionary", "what", "where", "when"];
    let vocab = Vocab::new(&list);
    for (i, w) in list.iter().enumerate() {
        assert_eq!(vocab.get_index(w), Some(i));
    }
}

#[test]
fn unlisted_word_is_absent() {
    let vocab = Vocab::new(&["apple", "banana"]);
    assert_eq!(vocab.get_index("cherry"), None);
    assert_eq!(vocab.get_index("b"), None);
    assert_eq!(vocab.get_index("ban"), None);
    assert_eq!(vocab.get_index("bananas"), None);
    assert_eq!(vocab.get_index("appl"), None);
}

#[test]
fn listed_prefix_and_extension_are_both_found() {
    let vocab = Vocab::new(&["where", "whereabouts", "w"]);
    assert_eq!(vocab.get_index("w"), Some(2));
    assert_eq!(vocab.get_index("where"), Some(0));
    assert_eq!(vocab.get_index("whereabouts"), Some(1));
    assert_eq!(vocab.get_index("wh"), None);
    assert_eq!(vocab.get_index("whereabout"), None);
}

#[test]
fn repeated_word_takes_its_last_position() {
    let mut vocab = Vocab::new(&["a", "b", "a"]);
    assert_eq!(vocab.get_index("a"), Some(2));
    assert_eq!(vocab.get_index("b"), Some(1));
    vocab.add_words(&["c", "b"]);
    assert_eq!(vocab.get_index("c"), Some(3));
    assert_eq!(vocab.get_index("b"), Some(4));
    assert_eq!(vocab.get_index("a"), Some(2));
}

#[test]
fn empty_word_is_a_word() {
    let vocab = Vocab::new(&["x", "", "y"]);
    assert_eq!(vocab.get_index(""), Some(1));
    let other = Vocab::new(&["x"]);
    assert_eq!(other.get_index(""), None);
}

#[test]
fn empty_list_finds_nothing() {
    let mut vocab = Vocab::new(&[]);
    assert_eq!(vocab.get_index(""), None);
    assert_eq!(vocab.get_index("word"), None);
    vocab.add_words(&[]);
    vocab.add_words(&["word"]);
    assert_eq!(vocab.get_index("word"), Some(0));
}

#[test]
fn non_ascii_words() {
    let vocab = Vocab::new(&["héllo", "日本", "日本語", "hello"]);
    assert_eq!(vocab.get_index("héllo"), Some(0));
    assert_eq!(vocab.get_index("日本"), Some(1));
    assert_eq!(vocab.get_index("日本語"), Some(2));
    assert_eq!(vocab.get_index("hello"), Some(3));
    assert_eq!(vocab.get_index("日"), None);
    assert_eq!(vocab.get_index("hé"), None);
}

#[test]
fn same_list_gives_same_lookups() {
    let list = ["one", "two", "three", "two", "on"];
    let a = Vocab::new(&list);
    let b = Vocab::new(&list);
    for q in ["one", "two", "three", "on", "o", "", "twos", "four"] {
        assert_eq!(a.get_index(q), b.get_index(q));
    }
}

#[test]
fn node_insert_and_lookup() {
    let mut node = Node::new();
    assert_eq!(node.get_index(""), None);
    node.insert("tea", 7);
    node.insert("ten", 9);
    node.insert("", 3);
    assert_eq!(node.get_index("tea"), Some(7));
    assert_eq!(node.get_index("ten"), Some(9));
    assert_eq!(node.get_index(""), Some(3));
    assert_eq!(node.get_index("te"), None);
    assert_eq!(node.get_index("teas"), None);
    node.insert("tea", 11);
    assert_eq!(node.get_index("tea"), Some(11));
    assert_eq!(node.get_index("ten"), Some(9));
}
