//! Operations on the nodes of a document.

use crate::laws::law_set_well_formed;
use crate::model::{has_key, is_first_at, lemma_first_index};
use crate::tree::{
    lemma_mapping_view, lemma_sequence_view, pairs_of, trees_of, Atom, Entry, Kind, Node, Pair,
    Scalar, Tree,
};
use vstd::prelude::*;

verus! {

impl Scalar {
    /// Whether the two scalars are the same value.
    pub fn equals(&self, other: &Scalar) -> (same: bool)
        ensures
            same == (self@ == other@),
    {
        match (self, other) {
            (Scalar::Text(a), Scalar::Text(b)) => *a == *b,
            (Scalar::Integer(a), Scalar::Integer(b)) => *a == *b,
            (Scalar::Real(a), Scalar::Real(b)) => *a == *b,
            (Scalar::Boolean(a), Scalar::Boolean(b)) => *a == *b,
            _ => false,
        }
    }

    /// A copy of the scalar.
    pub fn duplicate(&self) -> (copy: Scalar)
        ensures
            copy@ == self@,
    {
        match self {
            Scalar::Text(s) => Scalar::Text(s.clone()),
            Scalar::Integer(i) => Scalar::Integer(*i),
            Scalar::Real(s) => Scalar::Real(s.clone()),
            Scalar::Boolean(b) => Scalar::Boolean(*b),
        }
    }
}

impl Clone for Scalar {
    fn clone(&self) -> (copy: Scalar)
        ensures
            copy@ == self@,
    {
        self.duplicate()
    }
}

impl Clone for Entry {
    fn clone(&self) -> (copy: Entry)
        ensures
            copy@ == self@,
    {
        Entry { key: self.key.duplicate(), value: self.value.duplicate() }
    }
}

impl Clone for Node {
    fn clone(&self) -> (copy: Node)
        ensures
            copy@ == self@,
    {
        self.duplicate()
    }
}

impl Node {
    /// A mapping without entries.
    pub fn mapping() -> (node: Node)
        ensures
            node@ == Tree::empty(),
            node@.well_formed(),
    {
        let entries: Vec<Entry> = Vec::new();
        proof {
            lemma_mapping_view(entries);
            assert(pairs_of(entries@) =~= Seq::empty());
        }
        Node::Mapping(entries)
    }

    /// A sequence without items.
    pub fn sequence() -> (node: Node)
        ensures
            node@ == Tree::Sequence(Seq::empty()),
            node@.well_formed(),
    {
        let items: Vec<Node> = Vec::new();
        proof {
            lemma_sequence_view(items);
            assert(trees_of(items@) =~= Seq::empty());
        }
        Node::Sequence(items)
    }

    /// The node of a string.
    pub fn text(value: &str) -> (node: Node)
        ensures
            node@ == Tree::Scalar(Atom::Text(value@)),
    {
        Node::Scalar(Scalar::Text(value.to_owned()))
    }

    /// The node of a whole number.
    pub fn integer(value: i64) -> (node: Node)
        ensures
            node@ == Tree::Scalar(Atom::Integer(value as int)),
    {
        Node::Scalar(Scalar::Integer(value))
    }

    /// The node of `true` or `false`.
    pub fn boolean(value: bool) -> (node: Node)
        ensures
            node@ == Tree::Scalar(Atom::Boolean(value)),
    {
        Node::Scalar(Scalar::Boolean(value))
    }

    /// The kind of the node.
    pub fn kind(&self) -> (kind: Kind)
        ensures
            kind == self@.kind(),
    {
        match self {
            Node::Mapping(_) => Kind::Mapping,
            Node::Sequence(_) => Kind::Sequence,
            Node::Scalar(_) => Kind::Scalar,
            Node::Null => Kind::Null,
        }
    }

    /// The value under `key`, where the node is a mapping that has the key.
    pub fn get(&self, key: &Node) -> (value: Option<&Node>)
        ensures
            match value {
                Some(node) => self@.get(key@) == Some(node@),
                None => self@.get(key@) is None,
            },
    {
        match self {
            Node::Mapping(entries) => {
                proof {
                    lemma_mapping_view(*entries);
                }
                match find_entry(entries, key) {
                    Some(i) => {
                        proof {
                            lemma_first_index(pairs_of(entries@), key@, i as int);
                        }
                        Some(&entries[i].value)
                    },
                    None => None,
                }
            },
            _ => None,
        }
    }

    /// Sets `key` to `value` in a mapping: a key that the mapping has keeps
    /// its place and gets the new value, a new key goes to the end. A node
    /// that is no mapping is left as it is.
    pub fn set(&mut self, key: Node, value: Node)
        ensures
            final(self)@ == old(self)@.set(key@, value@),
            old(self)@.well_formed() && key@.well_formed() && value@.well_formed()
                ==> final(self)@.well_formed(),
    {
        proof {
            if old(self)@.well_formed() && key@.well_formed() && value@.well_formed() {
                law_set_well_formed(old(self)@, key@, value@);
            }
        }
        match self {
            Node::Mapping(entries) => {
                proof {
                    lemma_mapping_view(*entries);
                }
                let ghost before = pairs_of(entries@);
                match find_entry(entries, &key) {
                    Some(i) => {
                        proof {
                            lemma_first_index(before, key@, i as int);
                        }
                        entries[i] = Entry { key: key, value: value };
                        proof {
                            lemma_mapping_view(*entries);
                            assert(pairs_of(entries@) =~= before.update(
                                i as int,
                                Pair { key: key@, value: value@ },
                            ));
                        }
                    },
                    None => {
                        entries.push(Entry { key: key, value: value });
                        proof {
                            lemma_mapping_view(*entries);
                            assert(pairs_of(entries@) =~= before.push(
                                Pair { key: key@, value: value@ },
                            ));
                        }
                    },
                }
            },
            _ => {},
        }
    }

    /// Puts `item` at the end of a sequence. A node that is no sequence is
    /// left as it is.
    pub fn push(&mut self, item: Node)
        ensures
            final(self)@ == old(self)@.push(item@),
    {
        match self {
            Node::Sequence(items) => {
                proof {
                    lemma_sequence_view(*items);
                }
                let ghost before = trees_of(items@);
                items.push(item);
                proof {
                    lemma_sequence_view(*items);
                    assert(trees_of(items@) =~= before.push(item@));
                }
            },
            _ => {},
        }
    }

    /// Whether the two nodes are the same tree.
    pub fn equals(&self, other: &Node) -> (same: bool)
        ensures
            same == (self@ == other@),
        decreases self,
    {
        match (self, other) {
            (Node::Mapping(a), Node::Mapping(b)) => {
                proof {
                    lemma_mapping_view(*a);
                    lemma_mapping_view(*b);
                }
                if a.len() != b.len() {
                    assert(pairs_of(a@).len() != pairs_of(b@).len());
                    return false;
                }
                let mut i: usize = 0;
                while i < a.len()
                    invariant
                        i <= a.len(),
                        a.len() == b.len(),
                        self is Mapping && self->Mapping_0 == *a,
                        self@ == Tree::Mapping(pairs_of(a@)),
                        other@ == Tree::Mapping(pairs_of(b@)),
                        forall|k: int| 0 <= k < i ==> a[k]@ == b[k]@,
                    decreases a.len() - i,
                {
                    broadcast use vstd::std_specs::vec::axiom_vec_index_decreases;

                    if !a[i].key.equals(&b[i].key) || !a[i].value.equals(&b[i].value) {
                        assert(pairs_of(a@)[i as int] != pairs_of(b@)[i as int]);
                        return false;
                    }
                    i += 1;
                }
                assert(pairs_of(a@) =~= pairs_of(b@));
                true
            },
            (Node::Sequence(a), Node::Sequence(b)) => {
                proof {
                    lemma_sequence_view(*a);
                    lemma_sequence_view(*b);
                }
                if a.len() != b.len() {
                    assert(trees_of(a@).len() != trees_of(b@).len());
                    return false;
                }
                let mut i: usize = 0;
                while i < a.len()
                    invariant
                        i <= a.len(),
                        a.len() == b.len(),
                        self is Sequence && self->Sequence_0 == *a,
                        self@ == Tree::Sequence(trees_of(a@)),
                        other@ == Tree::Sequence(trees_of(b@)),
                        forall|k: int| 0 <= k < i ==> a[k]@ == b[k]@,
                    decreases a.len() - i,
                {
                    broadcast use vstd::std_specs::vec::axiom_vec_index_decreases;

                    if !a[i].equals(&b[i]) {
                        assert(trees_of(a@)[i as int] != trees_of(b@)[i as int]);
                        return false;
                    }
                    i += 1;
                }
                assert(trees_of(a@) =~= trees_of(b@));
                true
            },
            (Node::Scalar(a), Node::Scalar(b)) => a.equals(b),
            (Node::Null, Node::Null) => true,
            _ => false,
        }
    }

    /// A copy of the node and of all that is below it.
    pub fn duplicate(&self) -> (copy: Node)
        ensures
            copy@ == self@,
        decreases self,
    {
        match self {
            Node::Mapping(entries) => {
                let mut copies: Vec<Entry> = Vec::new();
                let mut i: usize = 0;
                while i < entries.len()
                    invariant
                        i <= entries.len(),
                        self is Mapping && self->Mapping_0 == *entries,
                        copies.len() == i,
                        forall|k: int| 0 <= k < i ==> copies[k]@ == entries[k]@,
                    decreases entries.len() - i,
                {
                    broadcast use vstd::std_specs::vec::axiom_vec_index_decreases;

                    let key = entries[i].key.duplicate();
                    let value = entries[i].value.duplicate();
                    copies.push(Entry { key: key, value: value });
                    i += 1;
                }
                proof {
                    lemma_mapping_view(*entries);
                    lemma_mapping_view(copies);
                    assert(pairs_of(copies@) =~= pairs_of(entries@));
                }
                Node::Mapping(copies)
            },
            Node::Sequence(items) => {
                let mut copies: Vec<Node> = Vec::new();
                let mut i: usize = 0;
                while i < items.len()
                    invariant
                        i <= items.len(),
                        self is Sequence && self->Sequence_0 == *items,
                        copies.len() == i,
                        forall|k: int| 0 <= k < i ==> copies[k]@ == items[k]@,
                    decreases items.len() - i,
                {
                    broadcast use vstd::std_specs::vec::axiom_vec_index_decreases;

                    let item = items[i].duplicate();
                    copies.push(item);
                    i += 1;
                }
                proof {
                    lemma_sequence_view(*items);
                    lemma_sequence_view(copies);
                    assert(trees_of(copies@) =~= trees_of(items@));
                }
                Node::Sequence(copies)
            },
            Node::Scalar(scalar) => Node::Scalar(scalar.duplicate()),
            Node::Null => Node::Null,
        }
    }

    /// Whether no mapping anywhere in the node, a key included, holds a key
    /// twice.
    pub fn is_well_formed(&self) -> (ok: bool)
        ensures
            ok == self@.well_formed(),
        decreases self,
    {
        match self {
            Node::Mapping(entries) => {
                proof {
                    lemma_mapping_view(*entries);
                }
                let mut i: usize = 0;
                while i < entries.len()
                    invariant
                        i <= entries.len(),
                        self is Mapping && self->Mapping_0 == *entries,
                        self@ == Tree::Mapping(pairs_of(entries@)),
                        forall|k: int|
                            0 <= k < i ==> (#[trigger] pairs_of(entries@)[k]).key.well_formed()
                                && pairs_of(entries@)[k].value.well_formed(),
                        forall|j: int, k: int|
                            0 <= j < k < i ==> (#[trigger] pairs_of(entries@)[j]).key != (
                            #[trigger] pairs_of(entries@)[k]).key,
                    decreases entries.len() - i,
                {
                    broadcast use vstd::std_specs::vec::axiom_vec_index_decreases;

                    if !entries[i].key.is_well_formed() || !entries[i].value.is_well_formed() {
                        assert(!(pairs_of(entries@)[i as int].key.well_formed() && pairs_of(
                            entries@,
                        )[i as int].value.well_formed()));
                        return false;
                    }
                    let mut j: usize = 0;
                    while j < i
                        invariant
                            j <= i < entries.len(),
                            self@ == Tree::Mapping(pairs_of(entries@)),
                            forall|k: int|
                                0 <= k < j ==> (#[trigger] pairs_of(entries@)[k]).key
                                    != pairs_of(entries@)[i as int].key,
                        decreases i - j,
                    {
                        if entries[j].key.equals(&entries[i].key) {
                            assert(pairs_of(entries@)[j as int].key == pairs_of(
                                entries@,
                            )[i as int].key);
                            return false;
                        }
                        j += 1;
                    }
                    i += 1;
                }
                true
            },
            Node::Sequence(items) => {
                proof {
                    lemma_sequence_view(*items);
                }
                let mut i: usize = 0;
                while i < items.len()
                    invariant
                        i <= items.len(),
                        self is Sequence && self->Sequence_0 == *items,
                        self@ == Tree::Sequence(trees_of(items@)),
                        forall|k: int| 0 <= k < i ==> (#[trigger] trees_of(items@)[k]).well_formed(),
                    decreases items.len() - i,
                {
                    broadcast use vstd::std_specs::vec::axiom_vec_index_decreases;

                    if !items[i].is_well_formed() {
                        assert(!trees_of(items@)[i as int].well_formed());
                        assert(!self@->Sequence_0[i as int].well_formed());
                        return false;
                    }
                    i += 1;
                }
                true
            },
            Node::Scalar(_) => true,
            Node::Null => true,
        }
    }
}

/// The place of the first entry with the key `key`, if there is one.
pub fn find_entry(entries: &Vec<Entry>, key: &Node) -> (found: Option<usize>)
    ensures
        match found {
            Some(i) => is_first_at(pairs_of(entries@), key@, i as int),
            None => !has_key(pairs_of(entries@), key@),
        },
{
    let mut i: usize = 0;
    while i < entries.len()
        invariant
            i <= entries.len(),
            forall|j: int| 0 <= j < i ==> (#[trigger] pairs_of(entries@)[j]).key != key@,
        decreases entries.len() - i,
    {
        if entries[i].key.equals(key) {
            return Some(i);
        }
        i += 1;
    }
    None
}

} // verus!
