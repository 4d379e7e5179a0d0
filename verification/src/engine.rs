//! Merging one document into another, and a list of documents into one.

use crate::laws::{law_merge_all_well_formed, law_merge_well_formed};
use crate::model::{
    absent_from, all_well_formed, lemma_first_index, lemma_same_keys, merge_added,
    merge_all_trees, merge_kept, merge_pair, merge_trees,
};
use crate::node::find_entry;
use crate::tree::{lemma_mapping_view, pairs_of, trees_of, Entry, Node, Tree};
use vstd::prelude::*;

verus! {

/// Merges `incoming` into `base` and returns the result. Two mappings are
/// merged key by key: a key of `base` keeps its place, and where `incoming`
/// has the key too, its value is the two values merged; the keys that only
/// `incoming` has follow, in the order of `incoming`. In every other case the
/// result is `incoming`.
pub fn merge(base: Node, incoming: Node) -> (merged: Node)
    ensures
        merged@ == merge_trees(base@, incoming@),
        base@.well_formed() && incoming@.well_formed() ==> merged@.well_formed(),
{
    proof {
        if base@.well_formed() && incoming@.well_formed() {
            law_merge_well_formed(base@, incoming@);
        }
    }
    match (base, incoming) {
        (Node::Mapping(kept), Node::Mapping(added)) => {
            proof {
                lemma_mapping_view(kept);
                lemma_mapping_view(added);
            }
            let entries = merge_entries(kept, &added);
            proof {
                lemma_mapping_view(entries);
            }
            Node::Mapping(entries)
        },
        (_, incoming) => incoming,
    }
}

/// As [`merge`], with `incoming` left to the caller.
pub fn merge_from(base: Node, incoming: &Node) -> (merged: Node)
    ensures
        merged@ == merge_trees(base@, incoming@),
        base@.well_formed() && incoming@.well_formed() ==> merged@.well_formed(),
    decreases incoming,
{
    proof {
        if base@.well_formed() && incoming@.well_formed() {
            law_merge_well_formed(base@, incoming@);
        }
    }
    match (base, incoming) {
        (Node::Mapping(kept), Node::Mapping(added)) => {
            proof {
                lemma_mapping_view(kept);
                lemma_mapping_view(*added);
            }
            let entries = merge_entries(kept, added);
            proof {
                lemma_mapping_view(entries);
            }
            Node::Mapping(entries)
        },
        (_, incoming) => incoming.duplicate(),
    }
}

/// Merges the documents from left to right into one: each document is merged
/// into what the ones before it gave. With no document the result is the empty
/// mapping.
pub fn merge_all(docs: Vec<Node>) -> (merged: Node)
    ensures
        merged@ == merge_all_trees(trees_of(docs@)),
        all_well_formed(trees_of(docs@)) ==> merged@.well_formed(),
{
    proof {
        if all_well_formed(trees_of(docs@)) {
            law_merge_all_well_formed(trees_of(docs@));
        }
    }
    let ghost trees = trees_of(docs@);
    let ghost step = |acc: Tree, doc: Tree| merge_trees(acc, doc);
    let mut merged = Node::mapping();
    let mut i: usize = 0;
    while i < docs.len()
        invariant
            i <= docs.len(),
            trees == trees_of(docs@),
            step == |acc: Tree, doc: Tree| merge_trees(acc, doc),
            merged@ == trees.take(i as int).fold_left(Tree::empty(), step),
        decreases docs.len() - i,
    {
        assert(trees.take(i + 1).drop_last() =~= trees.take(i as int));
        merged = merge_from(merged, &docs[i]);
        i += 1;
    }
    assert(trees.take(docs.len() as int) =~= trees);
    merged
}

/// The entries of two mappings merged: those of `base` at their places, then
/// those that only `incoming` has.
fn merge_entries(base: Vec<Entry>, incoming: &Vec<Entry>) -> (merged: Vec<Entry>)
    ensures
        pairs_of(merged@) == merge_kept(pairs_of(base@), pairs_of(incoming@)) + merge_added(
            pairs_of(base@),
            pairs_of(incoming@),
        ),
    decreases incoming,
{
    let ghost kept = pairs_of(base@);
    let ghost added = pairs_of(incoming@);
    let mut merged = base;
    let mut i: usize = 0;
    while i < merged.len()
        invariant
            i <= merged.len(),
            merged.len() == kept.len(),
            added == pairs_of(incoming@),
            forall|k: int|
                0 <= k < i ==> (#[trigger] pairs_of(merged@)[k]) == merge_pair(kept[k], added),
            forall|k: int|
                i <= k < merged.len() ==> (#[trigger] pairs_of(merged@)[k]) == kept[k],
        decreases merged.len() - i,
    {
        broadcast use vstd::std_specs::vec::axiom_vec_index_decreases;

        let ghost before = merged@;
        assert(pairs_of(before)[i as int] == kept[i as int]);
        match find_entry(incoming, &merged[i].key) {
            Some(j) => {
                proof {
                    lemma_first_index(added, kept[i as int].key, j as int);
                }
                let mut value = Node::Null;
                core::mem::swap(&mut merged[i].value, &mut value);
                let value = merge_from(value, &incoming[j].value);
                merged[i].value = value;
                assert(merged@.len() == before.len());
                assert(forall|k: int| 0 <= k < before.len() && k != i ==> merged@[k] == before[k]);
                assert(merged@[i as int].key == before[i as int].key);
                assert(pairs_of(merged@)[i as int] == merge_pair(kept[i as int], added));
            },
            None => {},
        }
        assert(pairs_of(merged@)[i as int] == merge_pair(kept[i as int], added));
        assert forall|k: int| 0 <= k < i implies (#[trigger] pairs_of(merged@)[k]) == merge_pair(
            kept[k],
            added,
        ) by {
            assert(pairs_of(merged@)[k] == pairs_of(before)[k]);
        }
        assert forall|k: int| i < k < merged.len() implies (#[trigger] pairs_of(merged@)[k])
            == kept[k] by {
            assert(pairs_of(merged@)[k] == pairs_of(before)[k]);
        }
        i += 1;
    }
    let ghost first = pairs_of(merged@);
    assert(first =~= merge_kept(kept, added));
    let mut j: usize = 0;
    let mut extra: Vec<Entry> = Vec::new();
    while j < incoming.len()
        invariant
            j <= incoming.len(),
            added == pairs_of(incoming@),
            first == pairs_of(merged@),
            first.len() == kept.len(),
            forall|k: int| 0 <= k < first.len() ==> (#[trigger] first[k]).key == kept[k].key,
            pairs_of(extra@) == added.take(j as int).filter(absent_from(kept)),
        decreases incoming.len() - j,
    {
        let ghost absent = absent_from(kept);
        proof {
            lemma_same_keys(first, kept, added[j as int].key);
            assert(added.take(j + 1) =~= added.take(j as int).push(added[j as int]));
            added.take(j as int).lemma_filter_push(added[j as int], absent);
        }
        if find_entry(&merged, &incoming[j].key).is_none() {
            extra.push(incoming[j].clone());
            assert(pairs_of(extra@) =~= added.take(j as int).filter(absent).push(added[j as int]));
        }
        j += 1;
    }
    assert(added.take(incoming.len() as int) =~= added);
    merged.append(&mut extra);
    assert(pairs_of(merged@) =~= first + merge_added(kept, added));
    merged
}

} // verus!
