use word_trie::trie::Node;

fn tokens(s: &str) -> Vec<String> {
    s.split_ascii_whitespace().map(String::from).collect()
}

fn key(s: &str) -> String {
    s.to_string()
}

#[test]
fn test_trie_numbers() {
    let mut root = Node::new();
    root.add_sentence(vec![1, 2, 3, 4]);
    root.add_sentence(vec![1, 2, 3, 5]);
    root.add_sentence(vec![1, 2, 4, 5]);
    let text = root.print_tree();
    println!("{}", text);
    assert_eq!(
        text,
        "    └─ 1\n        └─ 2\n            ├─ 3\n            │   ├─ 4\n            │   └─ 5\n            └─ 4\n                └─ 5\n"
    );
}

#[test]
fn test_trie_text() {
    let mut root = Node::new();
    root.add_sentence(tokens("I like trains"));
    root.add_sentence(tokens("I like red potatoes"));
    assert_eq!(root.get_child(&key("I")).unwrap().element, Some(key("I")));
    assert_eq!(root.get_child(&key("I")).unwrap().count, 2);
    assert_eq!(
        root.get_child(&key("I"))
            .unwrap()
            .get_child(&key("like"))
            .unwrap()
            .element,
        Some(key("like"))
    );
    assert_eq!(
        root.get_child(&key("I"))
            .unwrap()
            .get_child(&key("like"))
            .unwrap()
            .count,
        2
    );
    assert_eq!(
        root.get_child(&key("I"))
            .unwrap()
            .get_child(&key("like"))
            .unwrap()
            .get_child(&key("trains"))
            .unwrap()
            .element,
        Some(key("trains"))
    );
    assert_eq!(
        root.get_child(&key("I"))
            .unwrap()
            .get_child(&key("like"))
            .unwrap()
            .get_child(&key("trains"))
            .unwrap()
            .count,
        1
    );
}

#[test]
fn test_print() {
    let mut root = Node::new();
    root.add_sentence(tokens("I like trains"));
    root.add_sentence(tokens("I like red potatoes"));
    root.add_sentence(tokens("I like red wine"));
    root.add_sentence(tokens("I like green apples"));
    root.add_sentence(tokens("The quick brown fox jumps over the lazy dog"));
    root.add_sentence(tokens("The quick brown fox jumps over the lazy cat"));
    let text = root.print_tree();
    println!("{}", text);
    assert_eq!(text.lines().count(), 18);
    assert!(text.starts_with("    ├─ I\n    │   └─ like\n    │       ├─ green\n"));
    assert!(text.ends_with("                                    ├─ cat\n                                    └─ dog\n"));
}

#[test]
fn repeated_insertions_count_every_node() {
    let mut root = Node::new();
    for _ in 0..3 {
        root.add_sentence(tokens("a b c"));
    }
    let a = root.get_child(&key("a")).unwrap();
    let b = a.get_child(&key("b")).unwrap();
    let c = b.get_child(&key("c")).unwrap();
    assert_eq!((a.count, b.count, c.count), (3, 3, 3));
    assert_eq!(root.children.len(), 1);
    assert_eq!(a.children.len(), 1);
    assert_eq!(c.children.len(), 0);
}

#[test]
fn shared_prefix_makes_one_chain() {
    let mut root = Node::new();
    root.add_sentence(tokens("a b c"));
    root.add_sentence(tokens("a b d"));
    assert_eq!(root.children.len(), 1);
    let a = root.get_child(&key("a")).unwrap();
    assert_eq!(a.count, 2);
    assert_eq!(a.children.len(), 1);
    let b = a.get_child(&key("b")).unwrap();
    assert_eq!(b.count, 2);
    assert_eq!(b.children.len(), 2);
    assert_eq!(b.get_child(&key("c")).unwrap().count, 1);
    assert_eq!(b.get_child(&key("d")).unwrap().count, 1);
}

#[test]
fn empty_sequence_changes_nothing() {
    let mut root = Node::new();
    root.add_sentence(tokens("x y"));
    let before = root.print_tree();
    root.add_sentence(Vec::new());
    assert_eq!(root.print_tree(), before);
    assert_eq!(root.children.len(), 1);
    assert_eq!(root.count, 0);
    assert!(root.element.is_none());
}

#[test]
fn rendering_omits_the_root() {
    let mut root = Node::new();
    root.add_sentence(tokens("x"));
    assert_eq!(root.print_tree(), "    └─ x\n");
}

#[test]
fn empty_trie_renders_nothing() {
    let root: Node<String> = Node::new();
    assert_eq!(root.print_tree(), "");
}

#[test]
fn rendering_twice_gives_the_same_text() {
    let mut root = Node::new();
    root.add_sentence(tokens("the cat sat"));
    root.add_sentence(tokens("the dog ran"));
    assert_eq!(root.print_tree(), root.print_tree());
}

#[test]
fn insertion_order_does_not_change_the_rendering() {
    let mut first = Node::new();
    first.add_sentence(tokens("b a"));
    first.add_sentence(tokens("a c"));
    first.add_sentence(tokens("a b"));
    let mut second = Node::new();
    second.add_sentence(tokens("a b"));
    second.add_sentence(tokens("b a"));
    second.add_sentence(tokens("a c"));
    assert_eq!(first.print_tree(), second.print_tree());
    assert_eq!(
        first.print_tree(),
        "    ├─ a\n    │   ├─ b\n    │   └─ c\n    └─ b\n        └─ a\n"
    );
}

#[test]
fn end_to_end_trie_and_rendering() {
    let mut root = Node::new();
    root.add_sentence(tokens("I like trains"));
    root.add_sentence(tokens("I like red potatoes"));
    let like = root
        .get_child(&key("I"))
        .unwrap()
        .get_child(&key("like"))
        .unwrap();
    assert_eq!(like.get_child(&key("red")).unwrap().count, 1);
    assert_eq!(
        like.get_child(&key("red"))
            .unwrap()
            .get_child(&key("potatoes"))
            .unwrap()
            .count,
        1
    );
    assert_eq!(
        root.print_tree(),
        "    └─ I\n        └─ like\n            ├─ red\n            │   └─ potatoes\n            └─ trains\n"
    );
}

#[test]
fn negative_and_large_numbers_render_in_decimal() {
    let mut root = Node::new();
    root.add_sentence(vec![-42, 0, i32::MIN]);
    assert_eq!(
        root.print_tree(),
        "    └─ -42\n        └─ 0\n            └─ -2147483648\n"
    );
    let mut other = Node::new();
    other.add_sentence(vec![10]);
    other.add_sentence(vec![9]);
    assert_eq!(other.print_tree(), "    ├─ 10\n    └─ 9\n");
}

#[test]
fn siblings_are_ordered_by_code_point() {
    let mut root = Node::new();
    root.add_sentence(tokens("b"));
    root.add_sentence(tokens("B"));
    root.add_sentence(tokens("ab"));
    root.add_sentence(tokens("a"));
    assert_eq!(root.print_tree(), "    ├─ B\n    ├─ a\n    ├─ ab\n    └─ b\n");
}
