use word_trie::parser::{extract_sentences, extract_words};

#[test]
fn parser_test_extract_words() {
    let sentence = "I like trains.";
    let words = extract_words(sentence);
    let mut words = words.iter().map(|w| w.as_str());
    assert_eq!(words.next(), Some("I"));
    assert_eq!(words.next(), Some("like"));
    assert_eq!(words.next(), Some("trains"));
}

#[test]
fn parser_test_extract_sentences() {
    let text =
"Mary had a little lamb, Its fleece was white as snow; And everywhere that Mary went The lamb was sure to go.
It followed her to school one day, Which was against the rule; It made the children laugh and play To see a lamb at school.
And so the teacher turned it out, But still it lingered near, And waited patiently about Till Mary did appear.
Why does the lamb love Mary so? The eager children cry; Why, Mary loves the lamb, you know, The teacher did reply.";
    let sentences = extract_sentences(text);
    let mut sentences_iter = sentences.iter();
    assert_eq!(
        sentences_iter.next().unwrap(),
        "Mary had a little lamb, Its fleece was white as snow; And everywhere that Mary went The lamb was sure to go"
    );
    assert_eq!(
        sentences_iter.next().unwrap(),
        "It followed her to school one day, Which was against the rule; It made the children laugh and play To see a lamb at school"
    );
    assert_eq!(
        sentences_iter.next().unwrap(),
        "And so the teacher turned it out, But still it lingered near, And waited patiently about Till Mary did appear"
    );
    assert_eq!(
        sentences_iter.next().unwrap(),
        "Why does the lamb love Mary so? The eager children cry; Why, Mary loves the lamb, you know, The teacher did reply"
    );
}

#[test]
fn parser_test_extract_sentences_with_ellipses() {
    let text = "I would like to come... But I don't want to!";
    let sentences = extract_sentences(text);
    let mut sentences_iter = sentences.iter();
    assert_eq!(sentences_iter.next().unwrap(), "I would like to come");
    assert_eq!(sentences_iter.next().unwrap(), "But I don't want to!");
}

#[test]
fn words_keep_punctuation_but_not_trailing_stops() {
    assert_eq!(extract_words("Hello,\tworld...  "), vec!["Hello,", "world..."]);
    assert_eq!(extract_words("  a  b.."), vec!["a", "b"]);
    assert!(extract_words("...").is_empty());
}
