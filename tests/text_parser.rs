use word_trie::text_parser::{extract_sentences, extract_words};
use word_trie::trie::Node;

#[test]
fn text_parser_test_extract_words() {
    let sentence = "I like trains.";
    let words = extract_words(sentence);
    let mut words_iter = words.iter();
    assert_eq!(words_iter.next().map(|w| w.as_str()), Some("I"));
    assert_eq!(words_iter.next().map(|w| w.as_str()), Some("like"));
    assert_eq!(words_iter.next().map(|w| w.as_str()), Some("trains"));
}

#[test]
fn text_parser_test_extract_sentences() {
    let text =
"Mary had a little lamb, Its fleece was white as snow; And everywhere that Mary went The lamb was sure to go.
It followed her to school one day, Which was against the rule; It made the children laugh and play To see a lamb at school.
And so the teacher turned it out, But still it lingered near, And waited patiently about Till Mary did appear.
Why does the lamb love Mary so? The eager children cry; Why, Mary loves the lamb, you know, The teacher did reply.";
    let sentences = extract_sentences(text);
    let mut sentences_iter = sentences.iter();
    assert_eq!(
        sentences_iter.next().unwrap(),
        "Mary had a little lamb, Its fleece was white as snow; And everywhere that Mary went The lamb was sure to go"
    );
    assert_eq!(
        sentences_iter.next().unwrap(),
        "It followed her to school one day, Which was against the rule; It made the children laugh and play To see a lamb at school"
    );
    assert_eq!(
        sentences_iter.next().unwrap(),
        "And so the teacher turned it out, But still it lingered near, And waited patiently about Till Mary did appear"
    );
    assert_eq!(
        sentences_iter.next().unwrap(),
        "Why does the lamb love Mary so"
    );
    assert_eq!(
        sentences_iter.next().unwrap(),
        "The eager children cry; Why, Mary loves the lamb, you know, The teacher did reply"
    );
}

#[test]
fn text_parser_test_extract_sentences_with_ellipses() {
    let text = "I would like to come... But I don't want to! If only I could fly ?";
    let sentences = extract_sentences(text);
    let mut sentences_iter = sentences.iter();
    assert_eq!(sentences_iter.next().unwrap(), "I would like to come");
    assert_eq!(sentences_iter.next().unwrap(), "But I don't want to");
    assert_eq!(sentences_iter.next().unwrap(), "If only I could fly");
}

#[test]
fn ellipsis_and_exclamation_give_two_sentences() {
    let sentences = extract_sentences("I would like to come... But I don't want to!");
    assert_eq!(sentences, vec!["I would like to come", "But I don't want to"]);
}

#[test]
fn sentences_of_empty_or_punctuation_only_text() {
    assert!(extract_sentences("").is_empty());
    assert!(extract_sentences(" ...!? ").is_empty());
    assert_eq!(extract_sentences("?!Hi"), vec!["Hi"]);
}

#[test]
fn words_split_on_punctuation_and_keep_unicode_letters() {
    assert_eq!(extract_words("don't stop, café 42!"), vec!["don", "t", "stop", "café", "42"]);
    assert!(extract_words(" ,;. ").is_empty());
    assert!(extract_words("").is_empty());
}

#[test]
fn test_create_trie() {
    let text = "Lorem ipsum dolor sit amet, consectetur adipiscing elit, sed do eiusmod tempor incididunt ut labore et dolore magna aliqua. Ut enim ad minim veniam, quis nostrud exercitation ullamco laboris nisi ut aliquip ex ea commodo consequat. Duis aute irure dolor in reprehenderit in voluptate velit esse cillum dolore eu fugiat nulla pariatur. Excepteur sint occaecat cupidatat non proident, sunt in culpa qui officia deserunt mollit anim id est laborum.";
    let mut root = Node::new();
    let sentences = extract_sentences(text);
    for sentence in sentences {
        let words = extract_words(&sentence);
        root.add_sentence(words);
    }
    println!("{}", root.print_tree());
    assert_eq!(root.children.len(), 4);
}

#[test]
fn end_to_end_from_text() {
    let text = "I like trains. I like red potatoes.";
    let sentences = extract_sentences(text);
    assert_eq!(sentences, vec!["I like trains", "I like red potatoes"]);
    let mut root = Node::new();
    for sentence in &sentences {
        root.add_sentence(extract_words(sentence));
    }
    let first = root.get_child(&"I".to_string()).unwrap();
    assert_eq!(first.count, 2);
    let like = first.get_child(&"like".to_string()).unwrap();
    assert_eq!(like.count, 2);
    assert_eq!(like.get_child(&"trains".to_string()).unwrap().count, 1);
    assert_eq!(like.get_child(&"red".to_string()).unwrap().count, 1);
    assert_eq!(
        root.print_tree(),
        "    └─ I\n        └─ like\n            ├─ red\n            │   └─ potatoes\n            └─ trains\n"
    );
}
