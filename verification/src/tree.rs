//! The document tree and its mathematical model.

use vstd::prelude::*;

verus! {

/// The kind of a node.
#[derive(Clone, Copy, Debug, PartialEq, Eq, Structural)]
pub enum Kind {
    Mapping,
    Sequence,
    Scalar,
    Null,
}

/// An atomic value. Two scalars are the same only if they are of the same
/// variant and hold the same value: the integer `1` is not the text `"1"`.
#[derive(Debug, PartialEq, Eq)]
pub enum Scalar {
    /// A string.
    Text(String),
    /// A whole number.
    Integer(i64),
    /// A number with a fraction or an exponent, kept as it was written.
    Real(String),
    /// `true` or `false`.
    Boolean(bool),
}

/// One key of a mapping with the value that it maps to.
#[derive(Debug, PartialEq, Eq)]
pub struct Entry {
    pub key: Node,
    pub value: Node,
}

/// A node of a document.
#[derive(Debug, PartialEq, Eq)]
pub enum Node {
    /// Keys with their values, in the order in which the keys were first set.
    Mapping(Vec<Entry>),
    /// A list of nodes.
    Sequence(Vec<Node>),
    /// An atomic value.
    Scalar(Scalar),
    /// No value. This is neither an empty mapping nor an empty sequence.
    Null,
}

/// What a [`Scalar`] stands for.
pub enum Atom {
    Text(Seq<char>),
    Integer(int),
    Real(Seq<char>),
    Boolean(bool),
}

/// What an [`Entry`] stands for.
pub struct Pair {
    pub key: Tree,
    pub value: Tree,
}

/// What a [`Node`] stands for.
pub enum Tree {
    Mapping(Seq<Pair>),
    Sequence(Seq<Tree>),
    Scalar(Atom),
    Null,
}

impl View for Scalar {
    type V = Atom;

    open spec fn view(&self) -> Atom {
        match self {
            Scalar::Text(s) => Atom::Text(s@),
            Scalar::Integer(i) => Atom::Integer(*i as int),
            Scalar::Real(s) => Atom::Real(s@),
            Scalar::Boolean(b) => Atom::Boolean(*b),
        }
    }
}

impl View for Entry {
    type V = Pair;

    open spec fn view(&self) -> Pair {
        Pair { key: self.key@, value: self.value@ }
    }
}

impl View for Node {
    type V = Tree;

    open spec fn view(&self) -> Tree
        decreases self,
    {
        match self {
            Node::Mapping(entries) => Tree::Mapping(
                Seq::new(
                    entries.len() as nat,
                    |i: int|
                        if 0 <= i < entries.len() {
                            Pair { key: entries[i].key@, value: entries[i].value@ }
                        } else {
                            Pair { key: Tree::Null, value: Tree::Null }
                        },
                ),
            ),
            Node::Sequence(items) => Tree::Sequence(
                Seq::new(
                    items.len() as nat,
                    |i: int|
                        if 0 <= i < items.len() {
                            items[i]@
                        } else {
                            Tree::Null
                        },
                ),
            ),
            Node::Scalar(s) => Tree::Scalar(s@),
            Node::Null => Tree::Null,
        }
    }
}

/// The views of the entries of a mapping, in order.
pub open spec fn pairs_of(entries: Seq<Entry>) -> Seq<Pair> {
    Seq::new(entries.len(), |i: int| entries[i]@)
}

/// The views of the items of a sequence, in order.
pub open spec fn trees_of(items: Seq<Node>) -> Seq<Tree> {
    Seq::new(items.len(), |i: int| items[i]@)
}

/// The view of a mapping is made of the views of its entries.
pub broadcast proof fn lemma_mapping_view(entries: Vec<Entry>)
    ensures
        #[trigger] Node::Mapping(entries)@ == Tree::Mapping(pairs_of(entries@)),
{
    assert(Node::Mapping(entries)@->Mapping_0 =~= pairs_of(entries@));
}

/// The view of a sequence is made of the views of its items.
pub broadcast proof fn lemma_sequence_view(items: Vec<Node>)
    ensures
        #[trigger] Node::Sequence(items)@ == Tree::Sequence(trees_of(items@)),
{
    assert(Node::Sequence(items)@->Sequence_0 =~= trees_of(items@));
}

} // verus!
