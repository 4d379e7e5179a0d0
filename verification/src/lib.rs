//! Deep merge of YAML documents.
//!
//! A document is a tree of mappings, sequences and scalars. Merging a later
//! document into an earlier one overrides what the two share and keeps the
//! rest, and the keys of a mapping stay in the order in which they first
//! appeared.
//!
//! - [`tree`] holds the document tree, [`tree::Node`], and what it stands
//!   for in contracts, [`tree::Tree`].
//! - [`model`] states the rules of merging over [`tree::Tree`], and [`laws`]
//!   proves what follows from them.
//! - [`node`] and [`engine`] hold the operations on nodes and the merge
//!   itself, each proved to do what the model says.
//! - [`yaml`] reads nodes from YAML text and writes them back, through the
//!   `yaml_rust` crate.
//! - [`merge`] puts these together: texts in, merged text out.

pub mod engine;
pub mod laws;
pub mod model;
pub mod node;
pub mod tree;
pub mod yaml;

use crate::engine::merge_all;
use crate::model::merge_all_trees;
use crate::tree::{trees_of, Node, Tree};
use crate::yaml::{documents, parse, rendered, serialize, yaml_documents, ParseError};
use vstd::prelude::*;

verus! {

/// Why a list of texts could not be merged: one of them could not be read.
#[derive(Debug)]
pub struct MalformedDocument {
    /// The place of that text in the list, counted from 0.
    pub input: usize,
    /// What is wrong with it.
    pub cause: ParseError,
}

/// The texts that the strings hold.
pub open spec fn texts_of(files: Seq<String>) -> Seq<Seq<char>> {
    Seq::new(files.len(), |i: int| files[i]@)
}

/// Whether `i` is the place of the first text that cannot be read.
pub open spec fn is_first_unreadable(texts: Seq<Seq<char>>, i: int) -> bool {
    &&& 0 <= i < texts.len()
    &&& documents(texts[i]) is None
    &&& forall|j: int| 0 <= j < i ==> documents(#[trigger] texts[j]) is Some
}

/// Whether every text can be read.
pub open spec fn all_readable(texts: Seq<Seq<char>>) -> bool {
    forall|i: int| 0 <= i < texts.len() ==> documents(#[trigger] texts[i]) is Some
}

/// The documents of all the texts, in the order of the texts and, within a
/// text, in the order in which it holds them.
pub open spec fn all_documents(texts: Seq<Seq<char>>) -> Seq<Tree>
    decreases texts.len(),
{
    if texts.len() == 0 {
        Seq::empty()
    } else {
        all_documents(texts.drop_last()) + match documents(texts.last()) {
            Some(docs) => docs,
            None => Seq::empty(),
        }
    }
}

/// The text that merging `texts` gives: their documents merged from left to
/// right, written as YAML.
pub open spec fn merged_text(texts: Seq<Seq<char>>) -> Seq<char> {
    rendered(merge_all_trees(all_documents(texts)))
}

/// Merges YAML texts. The documents of all the texts are merged from left to
/// right, so that a later one overrides an earlier one, and the result is
/// written as YAML. If a text cannot be read, nothing is merged and the
/// error names the first such text.
pub fn merge(files: Vec<String>) -> (output: Result<String, MalformedDocument>)
    ensures
        match output {
            Ok(text) => all_readable(texts_of(files@)) && text@ == merged_text(texts_of(files@)),
            Err(error) => {
                &&& is_first_unreadable(texts_of(files@), error.input as int)
                &&& error.cause is Syntax <==> yaml_documents(
                    texts_of(files@)[error.input as int],
                ) is None
            },
        },
{
    let ghost texts = texts_of(files@);
    let mut docs: Vec<Node> = Vec::new();
    let mut i: usize = 0;
    while i < files.len()
        invariant
            i <= files.len(),
            texts == texts_of(files@),
            trees_of(docs@) == all_documents(texts.take(i as int)),
            forall|j: int| 0 <= j < i ==> documents(#[trigger] texts[j]) is Some,
        decreases files.len() - i,
    {
        assert(texts.take(i + 1).drop_last() =~= texts.take(i as int));
        assert(texts.take(i + 1).last() == texts[i as int]);
        match parse(files[i].as_str()) {
            Ok(mut more) => {
                let ghost before = docs@;
                let ghost added = more@;
                docs.append(&mut more);
                assert(trees_of(docs@) =~= trees_of(before) + trees_of(added));
            },
            Err(cause) => {
                return Err(MalformedDocument { input: i, cause: cause });
            },
        }
        i += 1;
    }
    assert(texts.take(files.len() as int) =~= texts);
    let merged = merge_all(docs);
    Ok(serialize(&merged))
}

} // verus!
