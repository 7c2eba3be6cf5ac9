//! A verified JSON value engine: a lexer, a recursive-descent grammar realised
//! as an explicit-stack parser, a tree-shaped value model with indexing and
//! mutation, a configurable pretty-printer, and a structural mapping protocol
//! for converting native composite values to and from the value tree.
//!
//! Numbers are carried as their validated literal text (see `json_number`):
//! the dumper re-emits that text unchanged, which makes number rendering a
//! single fixed round-trip-safe rule.

use vstd::prelude::*;

pub mod json_basic;
pub mod json_dumper;
pub mod json_impl;
pub mod json_laws;
pub mod json_lexer;
pub mod json_mapping;
pub mod json_number;
pub mod json_parser;

pub use json_basic::JsonData;
pub use json_basic::JsonError;
pub use json_basic::JsonNode;
pub use json_impl::JsonToken;
pub use json_number::JsonNumber;

verus! {

/// Parsing a whole text: tokenize strictly, then run the parser on the
/// token queue.  Any lexical failure fails the parse.
pub open spec fn spec_parse_text(s: Seq<char>) -> Option<JsonData> {
    let (ts, ok) = json_lexer::spec_tokenize(s);
    if ok {
        json_parser::spec_parse(ts)
    } else {
        None
    }
}

/// Parse a JSON document: one value, built from the text's token queue.
/// `None` on any lexical or grammatical failure.  A parsed tree is always
/// well-formed: keys are unique in each of its objects and its number
/// texts satisfy the number grammar.
pub fn parse_json(input: &str) -> (r: Option<JsonNode>)
    ensures
        match spec_parse_text(input@) {
            Some(v) => (r matches Some(n) && n@ == v),
            None => r is None,
        },
        r matches Some(n) ==> json_basic::wf_data(n@),
{
    proof {
        json_laws::lemma_parse_text_wf(input@);
    }
    let (tokens, ok) = json_lexer::parse_all(input);
    if ok {
        json_parser::parse_all(tokens)
    } else {
        None
    }
}

impl JsonNode {
    /// Render this tree as formatted text with the given indent width and
    /// string-escaping choice.
    pub fn dump(&self, indent: usize, escape_string: bool) -> (r: String)
        requires
            indent * json_dumper::spec_depth(self@) <= usize::MAX,
        ensures
            r@ == json_dumper::spec_dump_data(self@, indent as nat, escape_string, 0),
    {
        json_dumper::dump_json_node(self, indent, escape_string)
    }
}

/// A document: a wrapper owning the root of a value tree.
pub struct Json {
    root: JsonNode,
}

impl View for Json {
    type V = JsonData;

    closed spec fn view(&self) -> JsonData {
        self.root@
    }
}

impl Json {
    pub fn new(root: JsonNode) -> (r: Json)
        ensures
            r@ == root@,
    {
        Json { root }
    }

    pub fn get_root(&self) -> (r: &JsonNode)
        ensures
            (*r)@ == self@,
    {
        &self.root
    }

    pub fn get_root_mut(&mut self) -> (r: &mut JsonNode)
        ensures
            (*r)@ == old(self)@,
            final(self)@ == (*final(r))@,
    {
        &mut self.root
    }

    /// Render the document on one line.
    pub fn to_text(&self) -> (r: String)
        ensures
            r@ == json_dumper::spec_compact(self@),
    {
        self.root.to_text()
    }
}

} // verus!
