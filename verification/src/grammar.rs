//! Tree-sitter grammars: the parser and compiled syntax query of a language,
//! and the captures they find in a source file.
use vstd::prelude::*;

use streaming_iterator::StreamingIterator;

use crate::extractor::{Capture, CaptureView};
use crate::lang::Lang;
use crate::order::views;
use crate::parsing::ExtractError;
use crate::text::owned;

verus! {

#[verifier::external_type_specification]
#[verifier::external_body]
pub struct ExParser(tree_sitter::Parser);

#[verifier::external_type_specification]
#[verifier::external_body]
pub struct ExQuery(tree_sitter::Query);

/// Whether Tree-sitter takes the grammar of `lang` (its ABI version is one
/// the library supports).
pub uninterp spec fn grammar_loads(lang: Lang) -> bool;

/// Whether `query` compiles as a syntax query for the grammar of `lang`.
pub uninterp spec fn query_compiles(lang: Lang, query: Seq<char>) -> bool;

/// The captures of every match of `query`, compiled for the grammar of
/// `lang`, over the syntax tree of `source`, in match order.
pub uninterp spec fn syntax_captures(lang: Lang, query: Seq<char>, source: Seq<u8>) -> Seq<CaptureView>;

/// `Parser::new`: a parser with no grammar yet. Nothing is stated of it.
#[verifier::external_body]
fn new_parser() -> tree_sitter::Parser {
    tree_sitter::Parser::new()
}

/// `Parser::set_language` with the grammar of `lang` from its
/// `tree-sitter-*` crate: whether the parser took it. That depends on the
/// grammar alone (its ABI version), and is `grammar_loads(lang)`.
#[verifier::external_body]
fn set_grammar(parser: &mut tree_sitter::Parser, lang: Lang) -> (r: bool)
    ensures
        r == grammar_loads(lang),
{
    let language: tree_sitter::Language = match lang {
        Lang::JavaScript => tree_sitter_javascript::LANGUAGE,
        Lang::TypeScript => tree_sitter_typescript::LANGUAGE_TYPESCRIPT,
        Lang::Tsx => tree_sitter_typescript::LANGUAGE_TSX,
        Lang::Python => tree_sitter_python::LANGUAGE,
        Lang::Go => tree_sitter_go::LANGUAGE,
        Lang::Rust => tree_sitter_rust::LANGUAGE,
        Lang::Php => tree_sitter_php::LANGUAGE_PHP,
        Lang::Java => tree_sitter_java::LANGUAGE,
    }.into();
    parser.set_language(&language).is_ok()
}

/// `Query::new` for the grammar of `lang`: the compiled query, present
/// exactly when `query_compiles(lang, query)`.
#[verifier::external_body]
fn compile_query(lang: Lang, query: &str) -> (r: Option<tree_sitter::Query>)
    ensures
        r is Some == query_compiles(lang, query@),
{
    let language: tree_sitter::Language = match lang {
        Lang::JavaScript => tree_sitter_javascript::LANGUAGE,
        Lang::TypeScript => tree_sitter_typescript::LANGUAGE_TYPESCRIPT,
        Lang::Tsx => tree_sitter_typescript::LANGUAGE_TSX,
        Lang::Python => tree_sitter_python::LANGUAGE,
        Lang::Go => tree_sitter_go::LANGUAGE,
        Lang::Rust => tree_sitter_rust::LANGUAGE,
        Lang::Php => tree_sitter_php::LANGUAGE_PHP,
        Lang::Java => tree_sitter_java::LANGUAGE,
    }.into();
    tree_sitter::Query::new(&language, query).ok()
}

/// The parser of a language, holding its grammar, and its syntax query,
/// compiled from `query_text`. Only [`load`] makes one.
pub struct Grammar {
    lang: Lang,
    query_text: String,
    parser: tree_sitter::Parser,
    query: tree_sitter::Query,
}

impl Grammar {
    /// The language of the grammar.
    pub closed spec fn lang_of(&self) -> Lang {
        self.lang
    }

    /// The text the syntax query was compiled from.
    pub closed spec fn query_of(&self) -> Seq<char> {
        self.query_text@
    }

    pub fn lang(&self) -> (r: Lang)
        ensures
            r == self.lang_of(),
    {
        self.lang
    }
}

/// The grammar of `lang` with `query` compiled for it; the error names the
/// step that failed.
pub fn load(lang: Lang, query: &str) -> (r: Result<Grammar, ExtractError>)
    ensures
        match r {
            Ok(g) => grammar_loads(lang) && query_compiles(lang, query@) && g.lang_of() == lang
                && g.query_of() == query@,
            Err(e) => if !grammar_loads(lang) {
                e == ExtractError::Language(lang)
            } else {
                !query_compiles(lang, query@) && e == ExtractError::Query(lang)
            },
        },
{
    let mut parser = new_parser();
    if !set_grammar(&mut parser, lang) {
        return Err(ExtractError::Language(lang));
    }
    let compiled = match compile_query(lang, query) {
        Some(q) => q,
        None => return Err(ExtractError::Query(lang)),
    };
    Ok(Grammar { lang, query_text: owned(query), parser, query: compiled })
}

/// `Parser::parse` of `source` with the grammar's parser, then
/// `QueryCursor::matches` of its query over the tree: every capture of every
/// match, in match order, with its capture name, the node's text (decoded
/// with `String::from_utf8_lossy`), start and byte range. Parsing fails only
/// when the parser has no grammar or a timeout or cancellation flag was set;
/// a `Grammar` has its grammar and neither, so there is always a result. The
/// captures are `syntax_captures` of the grammar's language and query text
/// and the source. Each node's bytes are sliced out of `source`, so its range
/// lies within it, kept exactly when the source is shorter than 2^32 bytes.
#[verifier::external_body]
pub fn grammar_captures(g: &mut Grammar, source: &[u8]) -> (r: Option<Vec<Capture>>)
    ensures
        final(g).lang_of() == old(g).lang_of(),
        final(g).query_of() == old(g).query_of(),
        r matches Some(cs) && views(cs@) == syntax_captures(old(g).lang_of(), old(g).query_of(), source@),
        r matches Some(cs) ==> (source.len() <= u32::MAX ==> forall|i: int|
            0 <= i < cs.len() ==> #[trigger] cs@[i].start_byte <= cs@[i].end_byte <= source.len()),
{
    let tree = g.parser.parse(source, None)?;
    let mut cursor = tree_sitter::QueryCursor::new();
    let mut found = cursor.matches(&g.query, tree.root_node(), source);
    let mut out = Vec::new();
    while let Some(m) = found.next() {
        for c in m.captures {
            let n = c.node;
            let at = n.start_position();
            let text = String::from_utf8_lossy(&source[n.start_byte()..n.end_byte()]).into();
            let name = g.query.capture_names()[c.index as usize].into();
            out.push(Capture { name, text, row: at.row as u32, column: at.column as u32, start_byte: n.start_byte() as u32, end_byte: n.end_byte() as u32 });
        }
    }
    Some(out)
}

} // verus!
