use merger::tree::{Entry, Kind, Node, Scalar};

fn mapping(pairs: Vec<(&str, Node)>) -> Node {
    let mut node = Node::mapping();
    for (key, value) in pairs {
        node.set(Node::text(key), value);
    }
    node
}

fn keys(node: &Node) -> Vec<Node> {
    match node {
        Node::Mapping(entries) => entries.iter().map(|entry| entry.key.duplicate()).collect(),
        _ => Vec::new(),
    }
}

#[test]
fn kind_names_the_variant() {
    assert_eq!(Node::mapping().kind(), Kind::Mapping);
    assert_eq!(Node::sequence().kind(), Kind::Sequence);
    assert_eq!(Node::text("a").kind(), Kind::Scalar);
    assert_eq!(Node::integer(1).kind(), Kind::Scalar);
    assert_eq!(Node::boolean(true).kind(), Kind::Scalar);
    assert_eq!(Node::Scalar(Scalar::Real(String::from("1.5"))).kind(), Kind::Scalar);
    assert_eq!(Node::Null.kind(), Kind::Null);
}

#[test]
fn null_is_no_empty_mapping_and_no_empty_sequence() {
    assert!(!Node::Null.equals(&Node::mapping()));
    assert!(!Node::Null.equals(&Node::sequence()));
    assert!(!Node::mapping().equals(&Node::sequence()));
    assert!(Node::Null.equals(&Node::Null));
}

#[test]
fn get_finds_the_value_of_a_key() {
    let node = mapping(vec![("a", Node::integer(1)), ("b", Node::text("two"))]);
    assert_eq!(node.get(&Node::text("a")), Some(&Node::integer(1)));
    assert_eq!(node.get(&Node::text("b")), Some(&Node::text("two")));
    assert_eq!(node.get(&Node::text("c")), None);
    assert_eq!(node.get(&Node::integer(1)), None);
}

#[test]
fn get_finds_nothing_in_what_is_no_mapping() {
    assert_eq!(Node::Null.get(&Node::text("a")), None);
    assert_eq!(Node::text("a").get(&Node::text("a")), None);
    assert_eq!(Node::Sequence(vec![Node::text("a")]).get(&Node::text("a")), None);
}

#[test]
fn a_key_set_to_null_is_there() {
    let node = mapping(vec![("a", Node::Null)]);
    assert_eq!(node.get(&Node::text("a")), Some(&Node::Null));
    assert_eq!(node.get(&Node::text("b")), None);
}

#[test]
fn set_puts_a_new_key_at_the_end() {
    let mut node = mapping(vec![("a", Node::integer(1)), ("b", Node::integer(2))]);
    node.set(Node::text("c"), Node::integer(3));
    assert_eq!(keys(&node), vec![Node::text("a"), Node::text("b"), Node::text("c")]);
    assert_eq!(node.get(&Node::text("c")), Some(&Node::integer(3)));
}

#[test]
fn set_replaces_a_value_where_the_key_stands() {
    let mut node = mapping(
        vec![("a", Node::integer(1)), ("b", Node::integer(2)), ("c", Node::integer(3))],
    );
    node.set(Node::text("a"), Node::text("new"));
    assert_eq!(
        node,
        Node::Mapping(vec![
            Entry { key: Node::text("a"), value: Node::text("new") },
            Entry { key: Node::text("b"), value: Node::integer(2) },
            Entry { key: Node::text("c"), value: Node::integer(3) },
        ])
    );
}

#[test]
fn set_leaves_what_is_no_mapping_as_it_is() {
    let mut node = Node::text("a");
    node.set(Node::text("k"), Node::integer(1));
    assert_eq!(node, Node::text("a"));
}

#[test]
fn keys_may_be_any_node() {
    let mut node = Node::mapping();
    node.set(Node::integer(1), Node::text("number"));
    node.set(Node::text("1"), Node::text("text"));
    node.set(Node::Null, Node::text("null"));
    node.set(Node::Sequence(vec![Node::integer(1)]), Node::text("list"));
    assert_eq!(node.get(&Node::integer(1)), Some(&Node::text("number")));
    assert_eq!(node.get(&Node::text("1")), Some(&Node::text("text")));
    assert_eq!(node.get(&Node::Null), Some(&Node::text("null")));
    assert_eq!(node.get(&Node::Sequence(vec![Node::integer(1)])), Some(&Node::text("list")));
    assert!(node.is_well_formed());
}

#[test]
fn push_puts_an_item_at_the_end_of_a_sequence() {
    let mut node = Node::sequence();
    node.push(Node::integer(1));
    node.push(Node::integer(1));
    node.push(Node::text("x"));
    assert_eq!(node, Node::Sequence(vec![Node::integer(1), Node::integer(1), Node::text("x")]));
    let mut other = Node::mapping();
    other.push(Node::integer(1));
    assert_eq!(other, Node::mapping());
}

#[test]
fn scalars_are_the_same_by_variant_and_value() {
    assert!(Node::integer(1).equals(&Node::integer(1)));
    assert!(!Node::integer(1).equals(&Node::integer(2)));
    assert!(!Node::integer(1).equals(&Node::text("1")));
    assert!(!Node::Scalar(Scalar::Real(String::from("1"))).equals(&Node::integer(1)));
    assert!(!Node::Scalar(Scalar::Real(String::from("1"))).equals(&Node::text("1")));
    assert!(!Node::boolean(true).equals(&Node::text("true")));
    assert!(Node::boolean(false).equals(&Node::boolean(false)));
    assert!(Scalar::Text(String::from("a")).equals(&Scalar::Text(String::from("a"))));
    assert!(!Scalar::Text(String::from("a")).equals(&Scalar::Text(String::from("b"))));
}

#[test]
fn trees_are_the_same_by_shape_order_and_values() {
    let one = mapping(vec![("a", Node::integer(1)), ("b", Node::Sequence(vec![Node::Null]))]);
    let same = mapping(vec![("a", Node::integer(1)), ("b", Node::Sequence(vec![Node::Null]))]);
    let reordered = mapping(vec![("b", Node::Sequence(vec![Node::Null])), ("a", Node::integer(1))]);
    let shorter = mapping(vec![("a", Node::integer(1))]);
    assert!(one.equals(&same));
    assert!(!one.equals(&reordered));
    assert!(!one.equals(&shorter));
    assert!(!Node::Sequence(vec![Node::integer(1), Node::integer(2)])
        .equals(&Node::Sequence(vec![Node::integer(2), Node::integer(1)])));
}

#[test]
fn a_copy_is_the_same_tree() {
    let node = mapping(vec![
        ("a", Node::integer(1)),
        ("b", mapping(vec![("c", Node::Sequence(vec![Node::text("x"), Node::Null]))])),
    ]);
    assert!(node.duplicate().equals(&node));
    assert_eq!(node.clone(), node);
    let scalar = Scalar::Real(String::from("2.5"));
    assert_eq!(scalar.clone(), scalar);
    assert_eq!(scalar.duplicate(), scalar);
}

#[test]
fn a_mapping_with_a_key_twice_is_not_well_formed() {
    let twice = Node::Mapping(vec![
        Entry { key: Node::text("a"), value: Node::integer(1) },
        Entry { key: Node::text("b"), value: Node::integer(2) },
        Entry { key: Node::text("a"), value: Node::integer(3) },
    ]);
    assert!(!twice.is_well_formed());
    assert!(!Node::Sequence(vec![Node::Null, twice.duplicate()]).is_well_formed());
    assert!(!mapping(vec![("outer", twice.duplicate())]).is_well_formed());
    let as_key = Node::Mapping(vec![Entry { key: twice, value: Node::Null }]);
    assert!(!as_key.is_well_formed());
}

#[test]
fn what_the_builders_make_is_well_formed() {
    let node = mapping(vec![
        ("a", Node::integer(1)),
        ("b", mapping(vec![("a", Node::Sequence(vec![Node::text("a"), Node::text("a")]))])),
        ("a", Node::integer(2)),
    ]);
    assert!(node.is_well_formed());
    assert_eq!(keys(&node), vec![Node::text("a"), Node::text("b")]);
    assert!(Node::Null.is_well_formed());
    assert!(Node::text("a").is_well_formed());
}
