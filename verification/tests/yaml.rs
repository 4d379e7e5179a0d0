use merger::tree::{Entry, Node, Scalar};
use merger::yaml::{first_ill_formed, parse, serialize, strip_document_start, ParseError};

fn map(pairs: Vec<(&str, Node)>) -> Node {
    Node::Mapping(
        pairs
            .into_iter()
            .map(|(key, value)| Entry { key: Node::text(key), value: value })
            .collect(),
    )
}

#[test]
fn parse_reads_each_kind_of_scalar() {
    let docs = parse("text: bar\nwhole: -12\nreal: 1.5\nyes: true\nnone: ~\nquoted: \"12\"").unwrap();
    assert_eq!(
        docs,
        vec![map(vec![
            ("text", Node::text("bar")),
            ("whole", Node::integer(-12)),
            ("real", Node::Scalar(Scalar::Real(String::from("1.5")))),
            ("yes", Node::boolean(true)),
            ("none", Node::Null),
            ("quoted", Node::text("12")),
        ])]
    );
}

#[test]
fn parse_keeps_the_order_of_keys_and_items() {
    let docs = parse("z: 1\na:\n  - 3\n  - 1\n  - 2\nm: {y: 1, b: 2}").unwrap();
    assert_eq!(
        docs,
        vec![map(vec![
            ("z", Node::integer(1)),
            ("a", Node::Sequence(vec![Node::integer(3), Node::integer(1), Node::integer(2)])),
            ("m", map(vec![("y", Node::integer(1)), ("b", Node::integer(2))])),
        ])]
    );
}

#[test]
fn parse_reads_keys_that_are_no_strings() {
    let docs = parse("1: a\ntrue: b\n~: c\n? [x, y]\n: d").unwrap();
    assert_eq!(
        docs,
        vec![Node::Mapping(vec![
            Entry { key: Node::integer(1), value: Node::text("a") },
            Entry { key: Node::boolean(true), value: Node::text("b") },
            Entry { key: Node::Null, value: Node::text("c") },
            Entry {
                key: Node::Sequence(vec![Node::text("x"), Node::text("y")]),
                value: Node::text("d"),
            },
        ])]
    );
}

#[test]
fn parse_reads_every_document_of_a_text() {
    let docs = parse("a: 1\n---\n- x\n---\nplain\n").unwrap();
    assert_eq!(
        docs,
        vec![
            map(vec![("a", Node::integer(1))]),
            Node::Sequence(vec![Node::text("x")]),
            Node::text("plain"),
        ]
    );
    assert_eq!(parse("").unwrap(), Vec::new());
}

#[test]
fn parse_gives_well_formed_documents() {
    let docs = parse("a: 1\nb: {c: 2, d: [{e: 3}]}\na: 4").unwrap();
    assert_eq!(docs.len(), 1);
    assert!(docs[0].is_well_formed());
    assert_eq!(docs[0].get(&Node::text("a")), Some(&Node::integer(4)));
}

#[test]
fn parse_reports_text_that_is_not_yaml() {
    assert!(matches!(parse("a: [1, 2"), Err(ParseError::Syntax(_))));
    assert!(matches!(parse("a: b: c"), Err(ParseError::Syntax(_))));
    assert!(matches!(parse("*unknown"), Err(ParseError::Syntax(_))));
}

#[test]
fn parse_reports_a_key_that_comes_twice() {
    let text = "? [~]\n: a\n? [!!int x]\n: b\n";
    assert!(matches!(parse(text), Err(ParseError::DuplicateKey)));
    assert!(matches!(parse("ok: 1\n---\n? [~]\n: a\n? [!!int x]\n: b\n"), Err(ParseError::DuplicateKey)));
}

#[test]
fn serialize_writes_mappings_sequences_and_scalars() {
    let node = map(vec![
        ("foobar", Node::text("bar")),
        (
            "bar",
            map(vec![
                ("foo", Node::text("test")),
                ("list", Node::Sequence(vec![Node::text("foo"), Node::integer(2)])),
            ]),
        ),
        ("real", Node::Scalar(Scalar::Real(String::from("1.5")))),
        ("flag", Node::boolean(false)),
        ("none", Node::Null),
    ]);
    assert_eq!(
        serialize(&node),
        "foobar: bar\nbar:\n  foo: test\n  list:\n    - foo\n    - 2\nreal: 1.5\nflag: false\nnone: ~"
    );
}

#[test]
fn serialize_writes_the_empty_values() {
    assert_eq!(serialize(&Node::mapping()), "{}");
    assert_eq!(serialize(&Node::sequence()), "[]");
    assert_eq!(serialize(&Node::Null), "~");
    assert_eq!(serialize(&Node::text("")), "\"\"");
    assert_eq!(serialize(&map(vec![("a", Node::mapping()), ("b", Node::sequence())])), "a: {}\nb: []");
}

#[test]
fn serialize_quotes_text_that_would_read_as_another_value() {
    assert_eq!(serialize(&Node::text("12")), "\"12\"");
    assert_eq!(serialize(&Node::integer(12)), "12");
    assert_eq!(serialize(&Node::text("true")), "\"true\"");
    assert_eq!(serialize(&Node::text("a: b")), "\"a: b\"");
    assert_eq!(serialize(&Node::text("plain text")), "plain text");
    assert_eq!(serialize(&Node::text("h\u{e9}llo \u{4f60}\u{597d}")), "h\u{e9}llo \u{4f60}\u{597d}");
}

#[test]
fn serialize_writes_the_same_text_for_the_same_tree() {
    let node = map(vec![("a", Node::Sequence(vec![Node::Null, Node::integer(1)]))]);
    assert_eq!(serialize(&node), serialize(&node.duplicate()));
    assert_eq!(serialize(&node), "a:\n  - ~\n  - 1");
}

#[test]
fn what_is_written_reads_back_as_the_same_tree() {
    let node = map(vec![
        ("a", Node::integer(1)),
        ("b", map(vec![("c", Node::Sequence(vec![Node::text("x"), Node::text("1")]))])),
        ("d", Node::Null),
    ]);
    assert_eq!(parse(&serialize(&node)).unwrap(), vec![node]);
}

#[test]
fn strip_document_start_takes_the_first_line_off() {
    assert_eq!(strip_document_start("---\na: 1"), "a: 1");
    assert_eq!(strip_document_start("---\n"), "");
    assert_eq!(strip_document_start("---\n---\nx"), "---\nx");
    assert_eq!(strip_document_start("---\n\u{4f60}\u{597d}: \u{e9}"), "\u{4f60}\u{597d}: \u{e9}");
}

#[test]
fn strip_document_start_leaves_other_text_as_it_is() {
    assert_eq!(strip_document_start("a: 1"), "a: 1");
    assert_eq!(strip_document_start(""), "");
    assert_eq!(strip_document_start("---"), "---");
    assert_eq!(strip_document_start("--- a"), "--- a");
    assert_eq!(strip_document_start("--\n-a"), "--\n-a");
    assert_eq!(strip_document_start("\u{e9}--\nabc"), "\u{e9}--\nabc");
}

#[test]
fn first_ill_formed_finds_the_first_document_with_a_key_twice() {
    let good = map(vec![("a", Node::integer(1))]);
    let bad = Node::Mapping(vec![
        Entry { key: Node::text("a"), value: Node::integer(1) },
        Entry { key: Node::text("a"), value: Node::integer(2) },
    ]);
    assert_eq!(first_ill_formed(&Vec::new()), None);
    assert_eq!(first_ill_formed(&vec![good.duplicate(), Node::Null]), None);
    assert_eq!(first_ill_formed(&vec![good.duplicate(), bad.duplicate(), bad.duplicate()]), Some(1));
    assert_eq!(first_ill_formed(&vec![bad, good]), Some(0));
}
