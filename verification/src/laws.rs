//! What holds of merging, proved from the rules in [`crate::model`].

use crate::model::{
    absent_from, all_well_formed, distinct_keys, first_index, has_key, lemma_first_index,
    lemma_has_first, lemma_same_keys, lookup, merge_added, merge_all_trees, merge_kept,
    merge_trees,
};
use crate::tree::{Atom, Pair, Tree};
use crate::yaml::{documents, rendered};
use crate::{all_documents, merged_text};
use vstd::prelude::*;

verus! {

/// A test that every entry passes keeps them all.
proof fn lemma_filter_all(entries: Seq<Pair>, test: spec_fn(Pair) -> bool)
    requires
        forall|i: int| 0 <= i < entries.len() ==> test(#[trigger] entries[i]),
    ensures
        entries.filter(test) == entries,
    decreases entries.len(),
{
    if entries.len() == 0 {
        reveal(Seq::filter);
    } else {
        lemma_filter_all(entries.drop_last(), test);
        entries.drop_last().lemma_filter_push(entries.last(), test);
        assert(entries.drop_last().push(entries.last()) =~= entries);
    }
}

/// A test that no entry passes keeps none.
proof fn lemma_filter_none(entries: Seq<Pair>, test: spec_fn(Pair) -> bool)
    requires
        forall|i: int| 0 <= i < entries.len() ==> !test(#[trigger] entries[i]),
    ensures
        entries.filter(test) == Seq::<Pair>::empty(),
    decreases entries.len(),
{
    if entries.len() == 0 {
        reveal(Seq::filter);
        assert(entries =~= Seq::<Pair>::empty());
    } else {
        lemma_filter_none(entries.drop_last(), test);
        entries.drop_last().lemma_filter_push(entries.last(), test);
        assert(entries.drop_last().push(entries.last()) =~= entries);
    }
}

/// The value of a key after one more entry was put at the end.
proof fn lemma_lookup_push(entries: Seq<Pair>, entry: Pair, key: Tree)
    ensures
        lookup(entries.push(entry), key) == if has_key(entries, key) {
            lookup(entries, key)
        } else if entry.key == key {
            Some(entry.value)
        } else {
            None
        },
{
    let longer = entries.push(entry);
    if has_key(entries, key) {
        lemma_has_first(entries, key);
        let first = first_index(entries, key);
        assert(longer[first] == entries[first]);
        assert forall|j: int| 0 <= j < first implies (#[trigger] longer[j]).key != key by {
            assert(longer[j] == entries[j]);
        }
        lemma_first_index(longer, key, first);
        lemma_first_index(entries, key, first);
    } else if entry.key == key {
        assert forall|j: int| 0 <= j < entries.len() implies (#[trigger] longer[j]).key != key by {
            assert(longer[j] == entries[j]);
        }
        lemma_first_index(longer, key, entries.len() as int);
    } else {
        if has_key(longer, key) {
            let i = choose|i: int| 0 <= i < longer.len() && (#[trigger] longer[i]).key == key;
            if i < entries.len() {
                assert(entries[i].key == key);
            }
        }
    }
}

/// Entries put in front that do not have a key leave its value as it is.
proof fn lemma_lookup_after(front: Seq<Pair>, back: Seq<Pair>, key: Tree)
    requires
        !has_key(front, key),
    ensures
        lookup(front + back, key) == lookup(back, key),
{
    let all = front + back;
    if has_key(back, key) {
        lemma_has_first(back, key);
        let first = first_index(back, key);
        assert(all[front.len() + first] == back[first]);
        assert forall|j: int| 0 <= j < front.len() + first implies (#[trigger] all[j]).key
            != key by {
            if j < front.len() {
                assert(all[j] == front[j]);
            } else {
                assert(all[j] == back[j - front.len()]);
            }
        }
        lemma_first_index(all, key, front.len() + first);
        lemma_first_index(back, key, first);
    } else {
        if has_key(all, key) {
            let i = choose|i: int| 0 <= i < all.len() && (#[trigger] all[i]).key == key;
            if i < front.len() {
                assert(front[i].key == key);
            } else {
                assert(back[i - front.len()].key == key);
            }
        }
    }
}

/// Leaving out the entries whose keys `base` has does not change the value
/// of a key that `base` does not have.
proof fn lemma_lookup_added(base: Seq<Pair>, incoming: Seq<Pair>, key: Tree)
    requires
        !has_key(base, key),
    ensures
        lookup(merge_added(base, incoming), key) == lookup(incoming, key),
    decreases incoming.len(),
{
    let test = absent_from(base);
    if incoming.len() == 0 {
        reveal(Seq::filter);
    } else {
        let rest = incoming.drop_last();
        let last = incoming.last();
        lemma_lookup_added(base, rest, key);
        rest.lemma_filter_push(last, test);
        assert(rest.push(last) =~= incoming);
        lemma_lookup_push(rest, last, key);
        lemma_lookup_push(rest.filter(test), last, key);
    }
}

/// The entries that are left of entries with distinct keys have distinct keys.
proof fn lemma_filter_distinct(entries: Seq<Pair>, test: spec_fn(Pair) -> bool)
    requires
        distinct_keys(entries),
    ensures
        distinct_keys(entries.filter(test)),
    decreases entries.len(),
{
    if entries.len() == 0 {
        reveal(Seq::filter);
    } else {
        let rest = entries.drop_last();
        let last = entries.last();
        assert forall|i: int, j: int| 0 <= i < j < rest.len() implies (#[trigger] rest[i]).key != (
        #[trigger] rest[j]).key by {
            assert(rest[i] == entries[i] && rest[j] == entries[j]);
        }
        lemma_filter_distinct(rest, test);
        rest.lemma_filter_push(last, test);
        assert(rest.push(last) =~= entries);
        let left = rest.filter(test);
        if test(last) {
            let all = left.push(last);
            assert forall|i: int, j: int| 0 <= i < j < all.len() implies (#[trigger] all[i]).key
                != (#[trigger] all[j]).key by {
                if j < left.len() {
                    assert(all[i] == left[i] && all[j] == left[j]);
                } else {
                    assert(left.contains(left[i]));
                    rest.lemma_filter_contains_rev(test, left[i]);
                    let k = choose|k: int| 0 <= k < rest.len() && rest[k] == left[i];
                    assert(entries[k] == left[i]);
                    assert(entries[entries.len() - 1] == last);
                }
            }
        }
    }
}

/// Each entry that a test leaves is one of the entries it was given.
proof fn lemma_filter_source(entries: Seq<Pair>, test: spec_fn(Pair) -> bool, i: int) -> (k: int)
    requires
        0 <= i < entries.filter(test).len(),
    ensures
        0 <= k < entries.len(),
        entries[k] == entries.filter(test)[i],
        test(entries[k]),
{
    let left = entries.filter(test);
    assert(left.contains(left[i]));
    entries.lemma_filter_contains_rev(test, left[i]);
    entries.lemma_filter_pred(test, i);
    choose|k: int| 0 <= k < entries.len() && entries[k] == left[i]
}

/// Among entries with distinct keys, the value of the key of the entry at `i`
/// is the value of that entry.
proof fn lemma_lookup_distinct(entries: Seq<Pair>, i: int)
    requires
        distinct_keys(entries),
        0 <= i < entries.len(),
    ensures
        lookup(entries, entries[i].key) == Some(entries[i].value),
{
    assert forall|j: int| 0 <= j < i implies (#[trigger] entries[j]).key != entries[i].key by {}
    lemma_first_index(entries, entries[i].key, i);
}

/// The value of a key in a merged mapping. A key that both mappings have has
/// the two values merged; a key that one of them has keeps the value it has
/// there; a key that neither has is not in the result.
pub proof fn law_merged_lookup(base: Seq<Pair>, incoming: Seq<Pair>, key: Tree)
    ensures
        merge_trees(Tree::Mapping(base), Tree::Mapping(incoming)).get(key) == match (
            lookup(base, key),
            lookup(incoming, key),
        ) {
            (Some(old), Some(new)) => Some(merge_trees(old, new)),
            (Some(old), None) => Some(old),
            (None, new) => new,
        },
{
    let kept = merge_kept(base, incoming);
    let added = merge_added(base, incoming);
    let all = kept + added;
    assert forall|k: int| 0 <= k < kept.len() implies (#[trigger] kept[k]).key == base[k].key by {}
    lemma_same_keys(kept, base, key);
    if has_key(base, key) {
        lemma_has_first(base, key);
        let first = first_index(base, key);
        lemma_first_index(base, key, first);
        assert(all[first] == kept[first]);
        assert forall|j: int| 0 <= j < first implies (#[trigger] all[j]).key != key by {
            assert(all[j] == kept[j]);
            assert(kept[j].key == base[j].key);
        }
        lemma_first_index(all, key, first);
    } else {
        lemma_lookup_after(kept, added, key);
        lemma_lookup_added(base, incoming, key);
    }
}

/// Where two mappings give a scalar to the same key, the merged mapping
/// gives that key the scalar of the incoming mapping.
pub proof fn law_override(base: Tree, incoming: Tree, key: Tree, old: Atom, new: Atom)
    requires
        base is Mapping,
        incoming is Mapping,
        base.get(key) == Some(Tree::Scalar(old)),
        incoming.get(key) == Some(Tree::Scalar(new)),
    ensures
        merge_trees(base, incoming).get(key) == Some(Tree::Scalar(new)),
{
    law_merged_lookup(base->Mapping_0, incoming->Mapping_0, key);
}

/// The keys of the base keep their places: the merged mapping holds, at each
/// place of the base, the key that the base holds there, and after them the
/// keys that only the incoming mapping has, in its order.
pub proof fn law_key_order(base: Seq<Pair>, incoming: Seq<Pair>)
    ensures
        merge_trees(Tree::Mapping(base), Tree::Mapping(incoming)) is Mapping,
        ({
            let merged = merge_trees(Tree::Mapping(base), Tree::Mapping(incoming))->Mapping_0;
            &&& merged.len() >= base.len()
            &&& forall|i: int| 0 <= i < base.len() ==> (#[trigger] merged[i]).key == base[i].key
            &&& merged.skip(base.len() as int) == incoming.filter(absent_from(base))
        }),
{
    let kept = merge_kept(base, incoming);
    let added = merge_added(base, incoming);
    let merged = kept + added;
    assert forall|i: int| 0 <= i < base.len() implies (#[trigger] merged[i]).key
        == base[i].key by {
        assert(merged[i] == kept[i]);
    }
    assert(merged.skip(base.len() as int) =~= added);
}

/// A well-formed document merged into itself is that document.
pub proof fn law_self_merge(doc: Tree)
    requires
        doc.well_formed(),
    ensures
        merge_trees(doc, doc) == doc,
    decreases doc,
{
    match doc {
        Tree::Mapping(entries) => {
            let kept = merge_kept(entries, entries);
            assert forall|k: int| 0 <= k < entries.len() implies kept[k] == entries[k] by {
                lemma_lookup_distinct(entries, k);
                law_self_merge(entries[k].value);
            }
            assert forall|k: int| 0 <= k < entries.len() implies !absent_from(entries)(
                #[trigger] entries[k],
            ) by {}
            lemma_filter_none(entries, absent_from(entries));
            assert(kept + merge_added(entries, entries) =~= entries);
        },
        _ => {},
    }
}

/// Merging the same document in a second time changes nothing.
pub proof fn law_idempotent(base: Tree, incoming: Tree)
    requires
        incoming.well_formed(),
    ensures
        merge_trees(merge_trees(base, incoming), incoming) == merge_trees(base, incoming),
    decreases base,
{
    match (base, incoming) {
        (Tree::Mapping(old), Tree::Mapping(new)) => {
            let kept = merge_kept(old, new);
            let added = merge_added(old, new);
            let once = kept + added;
            let again = merge_kept(once, new);
            assert forall|k: int| 0 <= k < once.len() implies again[k] == once[k] by {
                if k < old.len() {
                    assert(once[k] == kept[k]);
                    if has_key(new, old[k].key) {
                        lemma_has_first(new, old[k].key);
                        law_idempotent(old[k].value, new[first_index(new, old[k].key)].value);
                    }
                } else {
                    assert(once[k] == added[k - old.len()]);
                    let source = lemma_filter_source(new, absent_from(old), k - old.len());
                    lemma_lookup_distinct(new, source);
                    law_self_merge(new[source].value);
                }
            }
            assert forall|i: int| 0 <= i < new.len() implies !absent_from(once)(
                #[trigger] new[i],
            ) by {
                if has_key(old, new[i].key) {
                    let k = choose|k: int| 0 <= k < old.len() && (#[trigger] old[k]).key == new[i].key;
                    assert(once[k] == kept[k]);
                    assert(once[k].key == new[i].key);
                } else {
                    new.lemma_filter_contains(absent_from(old), i);
                    let k = choose|k: int| 0 <= k < added.len() && added[k] == new[i];
                    assert(once[old.len() + k] == new[i]);
                }
            }
            lemma_filter_none(new, absent_from(once));
            assert(again + merge_added(once, new) =~= once);
        },
        _ => {
            law_self_merge(incoming);
        },
    }
}

/// Merging well-formed trees gives a well-formed tree.
pub proof fn law_merge_well_formed(base: Tree, incoming: Tree)
    requires
        base.well_formed(),
        incoming.well_formed(),
    ensures
        merge_trees(base, incoming).well_formed(),
    decreases base,
{
    match (base, incoming) {
        (Tree::Mapping(old), Tree::Mapping(new)) => {
            let kept = merge_kept(old, new);
            let added = merge_added(old, new);
            let all = kept + added;
            lemma_filter_distinct(new, absent_from(old));
            assert forall|k: int| 0 <= k < all.len() implies (#[trigger] all[k]).key.well_formed()
                && all[k].value.well_formed() by {
                if k < old.len() {
                    assert(all[k] == kept[k]);
                    if has_key(new, old[k].key) {
                        lemma_has_first(new, old[k].key);
                        law_merge_well_formed(
                            old[k].value,
                            new[first_index(new, old[k].key)].value,
                        );
                    }
                } else {
                    assert(all[k] == added[k - old.len()]);
                    lemma_filter_source(new, absent_from(old), k - old.len());
                }
            }
            assert forall|i: int, j: int| 0 <= i < j < all.len() implies (#[trigger] all[i]).key != (
            #[trigger] all[j]).key by {
                if j < old.len() {
                    assert(all[i] == kept[i] && all[j] == kept[j]);
                    assert(old[i].key != old[j].key);
                } else if i < old.len() {
                    assert(all[i] == kept[i]);
                    assert(all[j] == added[j - old.len()]);
                    new.lemma_filter_pred(absent_from(old), j - old.len());
                    assert(old[i].key == all[i].key);
                } else {
                    assert(all[i] == added[i - old.len()]);
                    assert(all[j] == added[j - old.len()]);
                }
            }
        },
        _ => {},
    }
}

/// Setting a key in a well-formed mapping to a well-formed value leaves the
/// mapping well formed.
pub proof fn law_set_well_formed(tree: Tree, key: Tree, value: Tree)
    requires
        tree.well_formed(),
        key.well_formed(),
        value.well_formed(),
    ensures
        tree.set(key, value).well_formed(),
{
    match tree {
        Tree::Mapping(entries) => {
            let pair = Pair { key: key, value: value };
            if has_key(entries, key) {
                lemma_has_first(entries, key);
                let first = first_index(entries, key);
                let after = entries.update(first, pair);
                assert forall|i: int, j: int| 0 <= i < j < after.len() implies (
                #[trigger] after[i]).key != (#[trigger] after[j]).key by {
                    assert(after[i].key == entries[i].key);
                    assert(after[j].key == entries[j].key);
                }
                assert forall|i: int| 0 <= i < after.len() implies (
                #[trigger] after[i]).key.well_formed() && after[i].value.well_formed() by {
                    if i != first {
                        assert(after[i] == entries[i]);
                    }
                }
            } else {
                let after = entries.push(pair);
                assert forall|i: int, j: int| 0 <= i < j < after.len() implies (
                #[trigger] after[i]).key != (#[trigger] after[j]).key by {
                    assert(after[i] == entries[i]);
                    if j < entries.len() {
                        assert(after[j] == entries[j]);
                    }
                }
                assert forall|i: int| 0 <= i < after.len() implies (
                #[trigger] after[i]).key.well_formed() && after[i].value.well_formed() by {
                    if i < entries.len() {
                        assert(after[i] == entries[i]);
                    }
                }
            }
        },
        _ => {},
    }
}

/// A key that was set in a mapping has the value it was set to.
pub proof fn law_get_after_set(tree: Tree, key: Tree, value: Tree)
    requires
        tree is Mapping,
    ensures
        tree.set(key, value).get(key) == Some(value),
{
    let entries = tree->Mapping_0;
    let pair = Pair { key: key, value: value };
    if has_key(entries, key) {
        lemma_has_first(entries, key);
        let first = first_index(entries, key);
        let after = entries.update(first, pair);
        assert forall|j: int| 0 <= j < first implies (#[trigger] after[j]).key != key by {
            assert(after[j] == entries[j]);
        }
        lemma_first_index(after, key, first);
    } else {
        lemma_lookup_push(entries, pair, key);
    }
}

/// A document merged into the empty mapping is that document.
pub proof fn law_merge_into_empty(doc: Tree)
    ensures
        merge_trees(Tree::empty(), doc) == doc,
{
    match doc {
        Tree::Mapping(entries) => {
            let none = Seq::<Pair>::empty();
            assert forall|i: int| 0 <= i < entries.len() implies absent_from(none)(
                #[trigger] entries[i],
            ) by {}
            lemma_filter_all(entries, absent_from(none));
            assert(merge_kept(none, entries) + merge_added(none, entries) =~= entries);
        },
        _ => {},
    }
}

/// Merging no documents gives the empty mapping.
pub proof fn law_no_documents()
    ensures
        merge_all_trees(Seq::empty()) == Tree::empty(),
{
}

/// Merging a single document gives that document.
pub proof fn law_single_document(doc: Tree)
    ensures
        merge_all_trees(seq![doc]) == doc,
{
    let step = |acc: Tree, next: Tree| merge_trees(acc, next);
    let docs = seq![doc];
    assert(docs.drop_last() =~= Seq::<Tree>::empty());
    assert(docs.drop_last().fold_left(Tree::empty(), step) == Tree::empty());
    assert(docs.last() == doc);
    law_merge_into_empty(doc);
}

/// Merging the documents and then one more is merging that one into what
/// the others gave.
pub proof fn law_one_more_document(docs: Seq<Tree>, doc: Tree)
    ensures
        merge_all_trees(docs.push(doc)) == merge_trees(merge_all_trees(docs), doc),
{
    assert(docs.push(doc).drop_last() =~= docs);
}

/// Merging well-formed documents gives a well-formed document.
pub proof fn law_merge_all_well_formed(docs: Seq<Tree>)
    requires
        all_well_formed(docs),
    ensures
        merge_all_trees(docs).well_formed(),
    decreases docs.len(),
{
    if docs.len() > 0 {
        let rest = docs.drop_last();
        assert forall|i: int| 0 <= i < rest.len() implies (#[trigger] rest[i]).well_formed() by {
            assert(rest[i] == docs[i]);
        }
        law_merge_all_well_formed(rest);
        assert(rest.push(docs.last()) =~= docs);
        law_one_more_document(rest, docs.last());
        law_merge_well_formed(merge_all_trees(rest), docs.last());
    }
}

/// The documents of the texts and of one more text are those of the texts,
/// followed by those of that text.
pub proof fn law_one_more_text(texts: Seq<Seq<char>>, text: Seq<char>)
    ensures
        all_documents(texts.push(text)) == all_documents(texts) + match documents(text) {
            Some(docs) => docs,
            None => Seq::empty(),
        },
{
    assert(texts.push(text).drop_last() =~= texts);
}

/// Merging no texts gives the text of the empty mapping.
pub proof fn law_no_texts()
    ensures
        merged_text(Seq::empty()) == rendered(Tree::empty()),
{
}

/// Merging a single text that holds one document gives the text of that
/// document: what reading the text and writing it back gives.
pub proof fn law_single_text(text: Seq<char>, doc: Tree)
    requires
        documents(text) == Some(seq![doc]),
    ensures
        merged_text(seq![text]) == rendered(doc),
{
    let none = Seq::<Seq<char>>::empty();
    law_one_more_text(none, text);
    assert(none.push(text) =~= seq![text]);
    assert(all_documents(none) + seq![doc] =~= seq![doc]);
    law_single_document(doc);
}

/// Merging a text that holds one document a second time, right after the
/// first, gives the same text as merging it once.
pub proof fn law_repeated_text(texts: Seq<Seq<char>>, text: Seq<char>, doc: Tree)
    requires
        documents(text) == Some(seq![doc]),
    ensures
        merged_text(texts.push(text).push(text)) == merged_text(texts.push(text)),
{
    let before = all_documents(texts);
    law_one_more_text(texts, text);
    law_one_more_text(texts.push(text), text);
    assert(before + seq![doc] =~= before.push(doc));
    assert(before.push(doc) + seq![doc] =~= before.push(doc).push(doc));
    law_one_more_document(before, doc);
    law_one_more_document(before.push(doc), doc);
    assert(seq![doc][0].well_formed());
    law_idempotent(merge_all_trees(before), doc);
}

} // verus!
