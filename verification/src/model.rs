//! The rules of merging, stated over [`Tree`].

use crate::tree::{Kind, Pair, Tree};
use vstd::prelude::*;

verus! {

/// Whether some entry of `entries` has the key `key`.
pub open spec fn has_key(entries: Seq<Pair>, key: Tree) -> bool {
    exists|i: int| 0 <= i < entries.len() && (#[trigger] entries[i]).key == key
}

/// Whether `i` is the place of the first entry of `entries` with the key `key`.
pub open spec fn is_first_at(entries: Seq<Pair>, key: Tree, i: int) -> bool {
    &&& 0 <= i < entries.len()
    &&& entries[i].key == key
    &&& forall|j: int| 0 <= j < i ==> (#[trigger] entries[j]).key != key
}

/// The place of the first entry of `entries` with the key `key`.
pub open spec fn first_index(entries: Seq<Pair>, key: Tree) -> int {
    choose|i: int| is_first_at(entries, key, i)
}

/// The value that `entries` gives to `key`, if any.
pub open spec fn lookup(entries: Seq<Pair>, key: Tree) -> Option<Tree> {
    if has_key(entries, key) {
        Some(entries[first_index(entries, key)].value)
    } else {
        None
    }
}

/// Whether no two entries of `entries` have the same key.
pub open spec fn distinct_keys(entries: Seq<Pair>) -> bool {
    forall|i: int, j: int|
        0 <= i < j < entries.len() ==> (#[trigger] entries[i]).key != (#[trigger] entries[j]).key
}

/// Entries with the same keys at the same places have the same keys.
pub proof fn lemma_same_keys(a: Seq<Pair>, b: Seq<Pair>, key: Tree)
    requires
        a.len() == b.len(),
        forall|k: int| 0 <= k < a.len() ==> (#[trigger] a[k]).key == b[k].key,
    ensures
        has_key(a, key) == has_key(b, key),
{
    if has_key(a, key) {
        let k = choose|k: int| 0 <= k < a.len() && (#[trigger] a[k]).key == key;
        assert(b[k].key == key);
    }
    if has_key(b, key) {
        let k = choose|k: int| 0 <= k < b.len() && (#[trigger] b[k]).key == key;
        assert(a[k].key == key);
    }
}

/// The first entry with a given key is found at one place only.
pub proof fn lemma_first_index(entries: Seq<Pair>, key: Tree, i: int)
    requires
        is_first_at(entries, key, i),
    ensures
        has_key(entries, key),
        first_index(entries, key) == i,
        lookup(entries, key) == Some(entries[i].value),
{
    let j = first_index(entries, key);
    assert(is_first_at(entries, key, j));
    if j < i {
        assert(entries[j].key != key);
    }
    if i < j {
        assert(entries[i].key != key);
    }
}

/// Where a key occurs at all, it has a first place.
pub proof fn lemma_has_first(entries: Seq<Pair>, key: Tree)
    requires
        has_key(entries, key),
    ensures
        is_first_at(entries, key, first_index(entries, key)),
{
    let i = choose|i: int| 0 <= i < entries.len() && (#[trigger] entries[i]).key == key;
    lemma_first_before(entries, key, i);
}

/// A key that occurs at `i` has its first place at or before `i`.
proof fn lemma_first_before(entries: Seq<Pair>, key: Tree, i: int)
    requires
        0 <= i < entries.len(),
        entries[i].key == key,
    ensures
        exists|f: int| is_first_at(entries, key, f),
    decreases i,
{
    if exists|j: int| 0 <= j < i && (#[trigger] entries[j]).key == key {
        let j = choose|j: int| 0 <= j < i && (#[trigger] entries[j]).key == key;
        lemma_first_before(entries, key, j);
    } else {
        assert(is_first_at(entries, key, i));
    }
}

impl Tree {
    /// The empty mapping.
    pub open spec fn empty() -> Tree {
        Tree::Mapping(Seq::empty())
    }

    /// The kind of the tree's root.
    pub open spec fn kind(self) -> Kind {
        match self {
            Tree::Mapping(_) => Kind::Mapping,
            Tree::Sequence(_) => Kind::Sequence,
            Tree::Scalar(_) => Kind::Scalar,
            Tree::Null => Kind::Null,
        }
    }

    /// The value under `key`, where the tree is a mapping that has the key.
    pub open spec fn get(self, key: Tree) -> Option<Tree> {
        match self {
            Tree::Mapping(entries) => lookup(entries, key),
            _ => None,
        }
    }

    /// The mapping with `key` set to `value`: a key that the mapping has
    /// keeps its place and gets the new value, a new key goes to the end.
    /// A tree that is no mapping stays as it is.
    pub open spec fn set(self, key: Tree, value: Tree) -> Tree {
        match self {
            Tree::Mapping(entries) => if has_key(entries, key) {
                Tree::Mapping(
                    entries.update(first_index(entries, key), Pair { key: key, value: value }),
                )
            } else {
                Tree::Mapping(entries.push(Pair { key: key, value: value }))
            },
            _ => self,
        }
    }

    /// The sequence with `item` put at its end. A tree that is no sequence
    /// stays as it is.
    pub open spec fn push(self, item: Tree) -> Tree {
        match self {
            Tree::Sequence(items) => Tree::Sequence(items.push(item)),
            _ => self,
        }
    }

    /// Whether no mapping anywhere in the tree, a key included, holds a key twice.
    pub open spec fn well_formed(self) -> bool
        decreases self,
    {
        match self {
            Tree::Mapping(entries) => {
                &&& distinct_keys(entries)
                &&& forall|i: int|
                    0 <= i < entries.len() ==> (#[trigger] entries[i]).key.well_formed()
                        && entries[i].value.well_formed()
            },
            Tree::Sequence(items) => forall|i: int|
                0 <= i < items.len() ==> (#[trigger] items[i]).well_formed(),
            Tree::Scalar(_) => true,
            Tree::Null => true,
        }
    }
}

/// Whether every tree of `docs` is well formed.
pub open spec fn all_well_formed(docs: Seq<Tree>) -> bool {
    forall|i: int| 0 <= i < docs.len() ==> (#[trigger] docs[i]).well_formed()
}

/// The entry that takes the place of `entry`, an entry of the base, when
/// `incoming` is merged in: where `incoming` has the key, the two values are
/// merged; where it has not, the entry stays as it is.
pub open spec fn merge_pair(entry: Pair, incoming: Seq<Pair>) -> Pair
    decreases entry, 0nat,
{
    match lookup(incoming, entry.key) {
        Some(value) => Pair { key: entry.key, value: merge_trees(entry.value, value) },
        None => entry,
    }
}

/// The entries of the base after the merge, each at the place it had.
pub open spec fn merge_kept(base: Seq<Pair>, incoming: Seq<Pair>) -> Seq<Pair>
    decreases base, 1nat,
{
    Seq::new(
        base.len(),
        |i: int|
            if 0 <= i < base.len() {
                merge_pair(base[i], incoming)
            } else {
                Pair { key: Tree::Null, value: Tree::Null }
            },
    )
}

/// The test that an entry passes if `base` does not have its key.
pub open spec fn absent_from(base: Seq<Pair>) -> spec_fn(Pair) -> bool {
    |entry: Pair| !has_key(base, entry.key)
}

/// The entries of `incoming` whose keys the base does not have, in the order
/// in which `incoming` holds them.
pub open spec fn merge_added(base: Seq<Pair>, incoming: Seq<Pair>) -> Seq<Pair> {
    incoming.filter(absent_from(base))
}

/// `incoming` merged into `base`. Two mappings are merged key by key; in
/// every other case `incoming` replaces `base`.
pub open spec fn merge_trees(base: Tree, incoming: Tree) -> Tree
    decreases base, 2nat,
{
    match (base, incoming) {
        (Tree::Mapping(kept), Tree::Mapping(added)) => Tree::Mapping(
            merge_kept(kept, added) + merge_added(kept, added),
        ),
        _ => incoming,
    }
}

/// The documents `docs` merged from left to right, starting from the empty
/// mapping.
pub open spec fn merge_all_trees(docs: Seq<Tree>) -> Tree {
    docs.fold_left(Tree::empty(), |acc: Tree, doc: Tree| merge_trees(acc, doc))
}

} // verus!
