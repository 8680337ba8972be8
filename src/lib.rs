//! Compiler from a line-oriented narrative script to a versioned document of
//! containers and stack-machine entries.
//!
//! The pipeline is lexing, parsing (with the symbol checks on knots and
//! stitches), resolution of diverts, generation of the container tree, and
//! writing the document as JSON. Bracketed suppressed text is discarded.
use vstd::prelude::*;

pub mod codegen;
pub mod json;
pub mod lexer;
pub mod parser;
pub mod resolver;
pub mod story;

use crate::codegen::{gen_upto, generate, generated, holds_at, is_line, lemma_glue_in_document, line_entries, resolved};
use crate::lexer::{Token, TokenKind};
use crate::story::Entry;
use crate::json::story_json;
use crate::story::{Container, Placed};
use crate::lexer::{LexError, lex, lex_spec};
use crate::parser::{Node, NodeKind, ParseError, nodes_ok, parse, parse_spec};
use crate::resolver::{all_resolve, bound, first_unresolved, resolve, resolves};
pub use crate::story::Story;

verus! {

/// The format version written into every document.
pub const INK_VERSION: u32 = 20;

/// Why a source text did not compile.
#[derive(Clone, Copy, Debug, PartialEq, Eq, Structural)]
pub enum Error {
    /// A lexical error.
    Lex(LexError),
    /// A structural error other than a duplicate name.
    Parse(ParseError),
    /// Two declarations of one qualified name: the offsets of both names.
    DuplicateSymbol(usize, usize),
    /// A divert that names no knot or stitch: the span of its target.
    UnresolvedDivert(usize, usize),
}

/// What compiling `s` comes to, as far as failure goes: the error, or `None`
/// when it succeeds. An unresolved divert is reported by the span of the
/// first divert in the document that names no knot or stitch.
pub open spec fn failure_of(s: Seq<char>) -> Option<Error> {
    match lex_spec(s) {
        Err(e) => Some(Error::Lex(e)),
        Ok(toks) => match parse_spec(s, toks) {
            Err(ParseError::DuplicateSymbol(a, b)) => Some(Error::DuplicateSymbol(a, b)),
            Err(e) => Some(Error::Parse(e)),
            Ok(nodes) => match first_unresolved(s, nodes, 0) {
                None => None,
                Some(p) => Some(Error::UnresolvedDivert(nodes[p].start, nodes[p].end)),
            },
        },
    }
}

/// The nodes of a document with every divert bound to its header.
pub open spec fn bound_all(s: Seq<char>, nodes: Seq<Node>) -> Seq<Node> {
    Seq::new(nodes.len(), |p: int| bound(s, nodes, p))
}

/// The containers and entries generated from the tokens `toks` of `s`, when
/// they parse.
pub open spec fn compiled_tokens(s: Seq<char>, toks: Seq<Token>) -> (Seq<Container>, Seq<Placed>) {
    match parse_spec(s, toks) {
        Ok(nodes) => generated(bound_all(s, nodes)),
        Err(_) => (seq![], seq![]),
    }
}

/// The containers and entries that compiling `s` generates, when it succeeds.
pub open spec fn compiled(s: Seq<char>) -> (Seq<Container>, Seq<Placed>) {
    match lex_spec(s) {
        Ok(toks) => compiled_tokens(s, toks),
        Err(_) => (seq![], seq![]),
    }
}

/// Comments leave no trace: the document compiled from `s` is the one
/// generated from its tokens with any comment token dropped, and `s` fails
/// to parse exactly when those tokens do.
pub proof fn lemma_comment_leaves_no_trace(s: Seq<char>, i: int)
    requires
        lex_spec(s) is Ok,
        0 <= i < lex_spec(s).unwrap().len(),
        lex_spec(s).unwrap()[i].kind == TokenKind::Comment,
    ensures
        compiled(s) == compiled_tokens(s, lex_spec(s).unwrap().remove(i)),
        parse_spec(s, lex_spec(s).unwrap()) == parse_spec(s, lex_spec(s).unwrap().remove(i)),
{
    crate::parser::lemma_comment_removed(s, lex_spec(s).unwrap(), i);
}

/// The nodes that the source `s` parses into (when it lexes and parses).
pub open spec fn parsed(s: Seq<char>) -> Seq<Node> {
    parse_spec(s, lex_spec(s).unwrap()).unwrap()
}

/// Glue on source text: where a line of `s` is followed by a `<>` line, the
/// compiled document holds the first line's entries, with no line break, and
/// right after them the glued line's.
pub proof fn lemma_glue_no_newline(s: Seq<char>, p: int)
    requires
        lex_spec(s) is Ok,
        parse_spec(s, lex_spec(s).unwrap()) is Ok,
        0 <= p,
        p + 1 < parsed(s).len(),
        is_line(parsed(s)[p].kind),
        parsed(s)[p + 1].kind == NodeKind::Glued,
    ensures
        exists|at: int| #[trigger] holds_at(compiled(s).1, at, line_entries(parsed(s), p) + line_entries(parsed(s), p + 1)),
        forall|j: int| 0 <= j < line_entries(parsed(s), p).len() ==> line_entries(parsed(s), p)[j] != Entry::Newline,
{
    let nodes = parsed(s);
    let b = bound_all(s, nodes);
    assert(b[p] == nodes[p]);
    assert(b[p + 1] == nodes[p + 1]);
    if p + 2 < nodes.len() {
        assert(b[p + 2].kind == nodes[p + 2].kind);
    }
    assert(line_entries(b, p) == line_entries(nodes, p));
    assert(line_entries(b, p + 1) == line_entries(nodes, p + 1));
    lemma_glue_in_document(b, p);
    let at = gen_upto(b, p).entries.len() as int;
    assert(holds_at(compiled(s).1, at, line_entries(nodes, p) + line_entries(nodes, p + 1)));
}

/// Compilation is deterministic: two documents compiled from the same source
/// text are written out as the same characters.
pub proof fn lemma_compiling_is_deterministic(a: &Story, b: &Story)
    requires
        a.source() == b.source(),
        a.version() == INK_VERSION,
        b.version() == INK_VERSION,
        (a.containers(), a.entries()) == compiled(a.source()),
        (b.containers(), b.entries()) == compiled(b.source()),
    ensures
        story_json(a.version() as nat, a.entries(), a.containers(), a.source())
            == story_json(b.version() as nat, b.entries(), b.containers(), b.source()),
{
}

proof fn lemma_bound_resolved(s: Seq<char>, nodes: Seq<Node>, v: Seq<Node>)
    requires
        all_resolve(s, nodes),
        nodes.len() <= usize::MAX,
        v.len() == nodes.len(),
        forall|p: int| 0 <= p < nodes.len() ==> #[trigger] v[p] == bound(s, nodes, p),
    ensures
        resolved(v),
{
    assert forall|p: int| 0 <= p < v.len() && #[trigger] v[p].kind == NodeKind::Divert implies {
        &&& v[p].target < v.len()
        &&& (v[v[p].target as int].kind is Knot || v[v[p].target as int].kind is Stitch)
    } by {
        assert(v[p] == bound(s, nodes, p));
        assert(resolves(s, nodes, p));
        crate::resolver::lemma_target_is_header(s, nodes, p);
        assert(nodes[p].kind == NodeKind::Divert);
        let t = resolve_target_of(s, nodes, p);
        assert(0 <= t < nodes.len());
        assert(v[p].target as int == t);
        assert(v[t] == bound(s, nodes, t));
        assert(v[t].kind == nodes[t].kind);
    }
}

proof fn lemma_first_unresolved(s: Seq<char>, nodes: Seq<Node>, p: int)
    requires
        0 <= p <= nodes.len(),
    ensures
        first_unresolved(s, nodes, p) is None <==> forall|q: int| p <= q < nodes.len() ==> #[trigger] resolves(s, nodes, q),
        first_unresolved(s, nodes, p) matches Some(q) ==> p <= q < nodes.len(),
    decreases nodes.len() - p,
{
    if p < nodes.len() {
        lemma_first_unresolved(s, nodes, p + 1);
    }
}

spec fn resolve_target_of(s: Seq<char>, nodes: Seq<Node>, p: int) -> int {
    crate::resolver::resolve_target(s, nodes, p).unwrap()
}

/// Compiles a source text into its document.
///
/// It fails with the lexer's error, the parser's (a duplicate name apart), a
/// duplicate name, or an unresolved divert, in that order of the stages; on
/// success the document holds the source and a well-formed container tree.
pub fn from_str(content: &str) -> (r: Result<Story, Error>)
    requires
        content@.len() < usize::MAX,
    ensures
        r is Ok <==> failure_of(content@) is None,
        r matches Err(e) ==> failure_of(content@) == Some(e),
        r matches Ok(st) ==> st.wf() && st.source() == content@ && st.version() == INK_VERSION
            && (st.containers(), st.entries()) == compiled(content@),
{
    let src = crate::json::chars_of(content);
    let toks = match lex(&src) {
        Ok(t) => t,
        Err(e) => {
            return Err(Error::Lex(e));
        },
    };
    let nodes = match parse(&src, &toks) {
        Ok(n) => n,
        Err(ParseError::DuplicateSymbol(a, b)) => {
            return Err(Error::DuplicateSymbol(a, b));
        },
        Err(e) => {
            return Err(Error::Parse(e));
        },
    };
    proof {
        lemma_first_unresolved(src@, nodes@, 0);
    }
    let bound_nodes = match resolve(&src, &nodes) {
        Ok(v) => v,
        Err(u) => {
            return Err(Error::UnresolvedDivert(u.start, u.end));
        },
    };
    proof {
        assert(bound_nodes@ =~= bound_all(src@, nodes@));
        lemma_bound_resolved(src@, nodes@, bound_nodes@);
        assert(nodes_ok(src@, bound_nodes@)) by {
            assert forall|k: int| 0 <= k < bound_nodes@.len() implies
                #[trigger] bound_nodes@[k].start <= bound_nodes@[k].end <= src@.len() by {
                assert(bound_nodes@[k] == bound(src@, nodes@, k));
            }
        }
    }
    let (containers, entries) = generate(&src, &bound_nodes);
    Ok(Story::assemble(INK_VERSION, src, containers, entries))
}

} // verus!
