//! Reading documents from YAML text and writing them back.
//!
//! The text is parsed and written by the `yaml_rust` crate. What it makes of a
//! text, and the text it makes of a tree, are taken as given and go by the
//! names [`yaml_documents`] and [`yaml_text`].

use crate::model::all_well_formed;
use crate::tree::{trees_of, Entry, Node, Scalar, Tree};
use vstd::prelude::*;
use vstd::string::*;
use yaml_rust::{ScanError, Yaml, YamlEmitter, YamlLoader};

verus! {

/// `yaml_rust::Yaml`, a value as the parser builds it and the emitter reads it.
#[verifier::external_type_specification]
#[verifier::external_body]
pub struct ExYaml(Yaml);

/// `yaml_rust::ScanError`, the parser's report of a text that is not YAML.
#[verifier::external_type_specification]
#[verifier::external_body]
pub struct ExScanError(ScanError);

/// The documents that `YamlLoader::load_from_str` reads from `text`, each as a
/// tree, or `None` where it reports an error.
pub uninterp spec fn yaml_documents(text: Seq<char>) -> Option<Seq<Tree>>;

/// The text that `YamlEmitter::dump` writes for `tree`, the line that starts
/// the document included.
pub uninterp spec fn yaml_text(tree: Tree) -> Seq<char>;

/// The line with which the emitter starts every document.
pub open spec fn document_start() -> Seq<char> {
    seq!['-', '-', '-', '\n']
}

/// Why a text could not be read.
#[derive(Debug)]
pub enum ParseError {
    /// The text is not YAML.
    Syntax(ScanError),
    /// A mapping of the text holds the same key twice.
    DuplicateKey,
}

/// The documents of a text: those that the parser reads from it, where it
/// reads the text without error and all of them are well formed.
pub open spec fn documents(text: Seq<char>) -> Option<Seq<Tree>> {
    match yaml_documents(text) {
        Some(docs) => if all_well_formed(docs) {
            Some(docs)
        } else {
            None
        },
        None => None,
    }
}

/// A text without the line that starts a document, where it begins with
/// that line, and the text itself where it does not.
pub open spec fn without_start(text: Seq<char>) -> Seq<char> {
    if text.len() >= 4 && text.subrange(0, 4) == document_start() {
        text.skip(4)
    } else {
        text
    }
}

/// The text of a tree: what the emitter writes for it, without the line that
/// starts the document.
pub open spec fn rendered(tree: Tree) -> Seq<char> {
    without_start(yaml_text(tree))
}

/// Whether `i` is the place of the first tree of `docs` that is not well
/// formed.
pub open spec fn is_first_ill_formed(docs: Seq<Tree>, i: int) -> bool {
    &&& 0 <= i < docs.len()
    &&& !docs[i].well_formed()
    &&& forall|j: int| 0 <= j < i ==> (#[trigger] docs[j]).well_formed()
}

/// Turns a value of the parser into a node, variant by variant. The two
/// variants that stand for a value the parser could not make out,
/// `BadValue` and `Alias`, become `Null`, which is how the emitter writes
/// `BadValue`.
#[verifier::external_body]
fn node_from_yaml(yaml: Yaml) -> Node {
    match yaml {
        Yaml::Real(text) => Node::Scalar(Scalar::Real(text)),
        Yaml::Integer(value) => Node::Scalar(Scalar::Integer(value)),
        Yaml::String(text) => Node::Scalar(Scalar::Text(text)),
        Yaml::Boolean(value) => Node::Scalar(Scalar::Boolean(value)),
        Yaml::Array(items) => Node::Sequence(items.into_iter().map(node_from_yaml).collect()),
        Yaml::Hash(entries) => Node::Mapping(
            entries.into_iter().map(|(k, v)| Entry { key: node_from_yaml(k), value: node_from_yaml(v) }).collect(),
        ),
        Yaml::Alias(_) => Node::Null,
        Yaml::Null => Node::Null,
        Yaml::BadValue => Node::Null,
    }
}

/// Turns a node into a value for the emitter, variant by variant.
#[verifier::external_body]
fn yaml_from_node(node: &Node) -> Yaml {
    match node {
        Node::Mapping(entries) => Yaml::Hash(
            entries.iter().map(|e| (yaml_from_node(&e.key), yaml_from_node(&e.value))).collect(),
        ),
        Node::Sequence(items) => Yaml::Array(items.iter().map(yaml_from_node).collect()),
        Node::Scalar(Scalar::Text(text)) => Yaml::String(text.clone()),
        Node::Scalar(Scalar::Integer(value)) => Yaml::Integer(*value),
        Node::Scalar(Scalar::Real(text)) => Yaml::Real(text.clone()),
        Node::Scalar(Scalar::Boolean(value)) => Yaml::Boolean(*value),
        Node::Null => Yaml::Null,
    }
}

/// Calls `YamlLoader::load_from_str` on `text` and turns each document that
/// it returns into a node. Nothing is claimed of the outcome but that it is
/// the one that goes by the name [`yaml_documents`]: the same text gives the
/// same documents, or an error, every time.
#[verifier::external_body]
fn load_documents(text: &str) -> (loaded: Result<Vec<Node>, ScanError>)
    ensures
        match loaded {
            Ok(docs) => yaml_documents(text@) == Some(trees_of(docs@)),
            Err(_) => yaml_documents(text@) is None,
        },
{
    match YamlLoader::load_from_str(text) {
        Ok(docs) => Ok(docs.into_iter().map(node_from_yaml).collect()),
        Err(error) => Err(error),
    }
}

/// Calls `YamlEmitter::dump` on `node` and returns what it wrote. Nothing is
/// claimed of the text but that it is the one that goes by the name
/// [`yaml_text`]: the same tree gives the same text every time.
#[verifier::external_body]
fn dump_document(node: &Node) -> (text: String)
    ensures
        text@ == yaml_text(node@),
{
    let mut text = String::new();
    let _ = YamlEmitter::new(&mut text).dump(&yaml_from_node(node));
    text
}

/// The place of the first document that is not well formed, if there is one.
pub fn first_ill_formed(docs: &Vec<Node>) -> (found: Option<usize>)
    ensures
        match found {
            Some(i) => is_first_ill_formed(trees_of(docs@), i as int),
            None => all_well_formed(trees_of(docs@)),
        },
{
    let mut i: usize = 0;
    while i < docs.len()
        invariant
            i <= docs.len(),
            forall|k: int| 0 <= k < i ==> (#[trigger] trees_of(docs@)[k]).well_formed(),
        decreases docs.len() - i,
    {
        if !docs[i].is_well_formed() {
            return Some(i);
        }
        i += 1;
    }
    None
}

/// Reads the documents of a YAML text. A text may hold any number of
/// documents, none included.
pub fn parse(text: &str) -> (parsed: Result<Vec<Node>, ParseError>)
    ensures
        match parsed {
            Ok(docs) => documents(text@) == Some(trees_of(docs@)),
            Err(ParseError::Syntax(_)) => yaml_documents(text@) is None,
            Err(ParseError::DuplicateKey) => yaml_documents(text@) is Some && !all_well_formed(
                yaml_documents(text@).unwrap(),
            ),
        },
{
    match load_documents(text) {
        Ok(docs) => match first_ill_formed(&docs) {
            Some(_) => Err(ParseError::DuplicateKey),
            None => Ok(docs),
        },
        Err(error) => Err(ParseError::Syntax(error)),
    }
}

/// Takes the line that starts a document off the front of a text. A text
/// that does not begin with that line is returned as it is.
pub fn strip_document_start(text: &str) -> (body: String)
    ensures
        body@ == without_start(text@),
{
    let length = text.unicode_len();
    if length >= 4 && text.get_char(0) == '-' && text.get_char(1) == '-' && text.get_char(2)
        == '-' && text.get_char(3) == '\n' {
        assert(text@.subrange(0, 4) =~= document_start());
        text.substring_char(4, length).to_owned()
    } else {
        proof {
            if text@.len() >= 4 {
                let head = text@.subrange(0, 4);
                assert(head[0] == text@[0] && head[1] == text@[1] && head[2] == text@[2]
                    && head[3] == text@[3]);
            }
        }
        text.to_owned()
    }
}

/// Writes a node as YAML text. The keys of a mapping and the items of a
/// sequence come in the order in which the node holds them.
pub fn serialize(node: &Node) -> (text: String)
    ensures
        text@ == rendered(node@),
{
    let full = dump_document(node);
    strip_document_start(full.as_str())
}

} // verus!
