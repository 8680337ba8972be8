//! Structural parsing of tokens into a flat sequence of weave nodes, with the
//! symbol checks that the declarations of knots and stitches call for.
use vstd::prelude::*;
use crate::lexer::{Token, TokenKind, spans_ok};

verus! {

/// What a node of the weave is.
#[derive(Clone, Copy, Debug, PartialEq, Eq, Structural)]
pub enum NodeKind {
    /// A knot header; it opens a knot that lasts until the next knot header.
    Knot,
    /// A stitch header within the current knot.
    Stitch,
    /// A choice with its nesting depth (at least 1).
    Choice(usize),
    /// A line of narrative text.
    Text,
    /// Text joined to the preceding line, with no line break between them.
    Glued,
    /// Out-of-band metadata.
    Tag,
    /// A jump; after resolution, `target` is the index of the header it names.
    Divert,
}

/// One node, with the span of source characters it carries.
#[derive(Clone, Copy, Debug, PartialEq, Eq, Structural)]
pub struct Node {
    pub kind: NodeKind,
    pub start: usize,
    pub end: usize,
    pub target: usize,
}

/// A structural error, with character offsets into the source.
#[derive(Clone, Copy, Debug, PartialEq, Eq, Structural)]
pub enum ParseError {
    /// A stitch declared before any knot.
    StitchOutsideKnot(usize),
    /// A choice more than one level deeper than the choice it would nest in.
    BadNesting(usize),
    /// A second declaration of a qualified name: the first and second name's offsets.
    DuplicateSymbol(usize, usize),
}

/// The parser's state after a prefix of the tokens: the nodes so far, the
/// depth of the innermost open choice, and the index of the current knot's
/// header (-1 before the first knot).
pub struct PState {
    pub nodes: Seq<Node>,
    pub depth: int,
    pub knot: int,
}

/// The characters that node `n` carries.
pub open spec fn text_of(s: Seq<char>, n: Node) -> Seq<char> {
    s.subrange(n.start as int, n.end as int)
}

/// The first index from `j` on of a knot header named `name`, or -1.
pub open spec fn find_knot(s: Seq<char>, nodes: Seq<Node>, j: int, name: Seq<char>) -> int
    decreases nodes.len() - j,
{
    if j < 0 || j >= nodes.len() {
        -1
    } else if nodes[j].kind == NodeKind::Knot && text_of(s, nodes[j]) == name {
        j
    } else {
        find_knot(s, nodes, j + 1, name)
    }
}

/// The first index from `j` on, before the next knot header, of a stitch
/// header named `name`, or -1.
pub open spec fn find_stitch(s: Seq<char>, nodes: Seq<Node>, j: int, name: Seq<char>) -> int
    decreases nodes.len() - j,
{
    if j < 0 || j >= nodes.len() || nodes[j].kind == NodeKind::Knot {
        -1
    } else if nodes[j].kind == NodeKind::Stitch && text_of(s, nodes[j]) == name {
        j
    } else {
        find_stitch(s, nodes, j + 1, name)
    }
}

pub open spec fn node_of(t: Token, kind: NodeKind) -> Node {
    Node { kind, start: t.start, end: t.end, target: 0 }
}

/// What one token does to the parser's state.
pub open spec fn parse_step(s: Seq<char>, st: PState, t: Token) -> Result<PState, ParseError> {
    let name = s.subrange(t.start as int, t.end as int);
    match t.kind {
        TokenKind::Comment | TokenKind::Suppression => Ok(st),
        TokenKind::Knot => {
            let j = find_knot(s, st.nodes, 0, name);
            if j >= 0 {
                Err(ParseError::DuplicateSymbol(st.nodes[j].start, t.start))
            } else {
                Ok(PState { nodes: st.nodes.push(node_of(t, NodeKind::Knot)), depth: 0, knot: st.nodes.len() as int })
            }
        },
        TokenKind::Stitch => {
            if st.knot < 0 {
                Err(ParseError::StitchOutsideKnot(t.start))
            } else {
                let j = find_stitch(s, st.nodes, st.knot + 1, name);
                if j >= 0 {
                    Err(ParseError::DuplicateSymbol(st.nodes[j].start, t.start))
                } else {
                    Ok(PState { nodes: st.nodes.push(node_of(t, NodeKind::Stitch)), depth: 0, knot: st.knot })
                }
            }
        },
        TokenKind::Choice(d) => {
            if d == 0 || d > st.depth + 1 {
                Err(ParseError::BadNesting(t.start))
            } else {
                Ok(PState { nodes: st.nodes.push(node_of(t, NodeKind::Choice(d))), depth: d as int, knot: st.knot })
            }
        },
        TokenKind::Divert => Ok(PState { nodes: st.nodes.push(node_of(t, NodeKind::Divert)), ..st }),
        TokenKind::Tag => Ok(PState { nodes: st.nodes.push(node_of(t, NodeKind::Tag)), ..st }),
        TokenKind::Glue => Ok(PState { nodes: st.nodes.push(node_of(t, NodeKind::Glued)), ..st }),
        TokenKind::Text => Ok(PState { nodes: st.nodes.push(node_of(t, NodeKind::Text)), ..st }),
    }
}

/// The parser's state after the first `k` tokens.
pub open spec fn parse_upto(s: Seq<char>, toks: Seq<Token>, k: int) -> Result<PState, ParseError>
    decreases k,
{
    if k <= 0 {
        Ok(PState { nodes: seq![], depth: 0, knot: -1 })
    } else {
        match parse_upto(s, toks, k - 1) {
            Err(e) => Err(e),
            Ok(st) => parse_step(s, st, toks[k - 1]),
        }
    }
}

/// The nodes of a whole token sequence.
pub open spec fn parse_spec(s: Seq<char>, toks: Seq<Token>) -> Result<Seq<Node>, ParseError> {
    match parse_upto(s, toks, toks.len() as int) {
        Ok(st) => Ok(st.nodes),
        Err(e) => Err(e),
    }
}

/// Once a prefix of the tokens fails, every longer prefix fails the same way.
pub proof fn lemma_parse_error_sticks(s: Seq<char>, toks: Seq<Token>, k: int, m: int)
    requires
        k <= m,
        parse_upto(s, toks, k) is Err,
    ensures
        parse_upto(s, toks, m) == parse_upto(s, toks, k),
    decreases m - k,
{
    if k < m {
        lemma_parse_error_sticks(s, toks, k, m - 1);
    }
}

/// A knot found by name is a knot header.
pub proof fn lemma_find_knot(s: Seq<char>, nodes: Seq<Node>, j: int, name: Seq<char>)
    ensures
        find_knot(s, nodes, j, name) == -1 || (0 <= find_knot(s, nodes, j, name) < nodes.len()
            && nodes[find_knot(s, nodes, j, name)].kind == NodeKind::Knot),
    decreases nodes.len() - j,
{
    if 0 <= j < nodes.len() {
        lemma_find_knot(s, nodes, j + 1, name);
    }
}

/// A stitch found by name is a stitch header.
pub proof fn lemma_find_stitch(s: Seq<char>, nodes: Seq<Node>, j: int, name: Seq<char>)
    ensures
        find_stitch(s, nodes, j, name) == -1 || (0 <= find_stitch(s, nodes, j, name) < nodes.len()
            && nodes[find_stitch(s, nodes, j, name)].kind == NodeKind::Stitch),
    decreases nodes.len() - j,
{
    if 0 <= j < nodes.len() {
        lemma_find_stitch(s, nodes, j + 1, name);
    }
}

/// A knot header named `name` at or after `i` is found.
pub proof fn lemma_find_knot_finds(s: Seq<char>, nodes: Seq<Node>, i: int, j: int, name: Seq<char>)
    requires
        0 <= i <= j < nodes.len(),
        nodes[j].kind == NodeKind::Knot,
        text_of(s, nodes[j]) == name,
    ensures
        0 <= find_knot(s, nodes, i, name) <= j,
    decreases j - i,
{
    if i < j && !(nodes[i].kind == NodeKind::Knot && text_of(s, nodes[i]) == name) {
        lemma_find_knot_finds(s, nodes, i + 1, j, name);
    }
}

/// A prefix that parses has a prefix that parses, and each step keeps the
/// nodes made so far.
proof fn lemma_prefix_grows(s: Seq<char>, toks: Seq<Token>, m: int)
    requires
        1 <= m <= toks.len(),
        parse_upto(s, toks, m) is Ok,
    ensures
        parse_upto(s, toks, m - 1) is Ok,
        parse_upto(s, toks, m - 1).unwrap().nodes.len() <= parse_upto(s, toks, m).unwrap().nodes.len(),
        parse_upto(s, toks, m).unwrap().nodes.subrange(0, parse_upto(s, toks, m - 1).unwrap().nodes.len() as int)
            == parse_upto(s, toks, m - 1).unwrap().nodes,
{
    let prev = parse_upto(s, toks, m - 1).unwrap().nodes;
    let cur = parse_upto(s, toks, m).unwrap().nodes;
    assert(cur == prev || cur == prev.push(cur.last()));
    assert(cur.subrange(0, prev.len() as int) =~= prev);
}

/// The header of a knot declared by token `i` stays among the nodes of every
/// longer prefix that parses; the result is its index.
proof fn lemma_knot_kept(s: Seq<char>, toks: Seq<Token>, i: int, m: int) -> (j: int)
    requires
        0 <= i < m <= toks.len(),
        toks[i].kind == TokenKind::Knot,
        parse_upto(s, toks, m) is Ok,
    ensures
        0 <= j < parse_upto(s, toks, m).unwrap().nodes.len(),
        parse_upto(s, toks, m).unwrap().nodes[j].kind == NodeKind::Knot,
        text_of(s, parse_upto(s, toks, m).unwrap().nodes[j]) == s.subrange(toks[i].start as int, toks[i].end as int),
    decreases m,
{
    lemma_prefix_grows(s, toks, m);
    if m == i + 1 {
        parse_upto(s, toks, i).unwrap().nodes.len() as int
    } else {
        let j = lemma_knot_kept(s, toks, i, m - 1);
        let prev = parse_upto(s, toks, m - 1).unwrap().nodes;
        let cur = parse_upto(s, toks, m).unwrap().nodes;
        assert(cur.subrange(0, prev.len() as int)[j] == cur[j]);
        j
    }
}

/// Two knots declared with the same name make parsing fail; when nothing
/// failed before the second declaration, the failure is a duplicate symbol
/// naming the second.
pub proof fn lemma_duplicate_knots_rejected(s: Seq<char>, toks: Seq<Token>, i: int, k: int)
    requires
        0 <= i < k < toks.len(),
        toks[i].kind == TokenKind::Knot,
        toks[k].kind == TokenKind::Knot,
        s.subrange(toks[i].start as int, toks[i].end as int) == s.subrange(toks[k].start as int, toks[k].end as int),
    ensures
        parse_spec(s, toks) is Err,
        parse_upto(s, toks, k) is Ok ==> (parse_spec(s, toks) matches Err(ParseError::DuplicateSymbol(_, b)) && b == toks[k].start),
{
    if parse_upto(s, toks, k) is Err {
        lemma_parse_error_sticks(s, toks, k, toks.len() as int);
    } else {
        let j = lemma_knot_kept(s, toks, i, k);
        let st = parse_upto(s, toks, k).unwrap();
        let name = s.subrange(toks[k].start as int, toks[k].end as int);
        lemma_find_knot_finds(s, st.nodes, 0, j, name);
        assert(parse_upto(s, toks, k + 1) is Err);
        lemma_parse_error_sticks(s, toks, k + 1, toks.len() as int);
    }
}

/// Parsing a token sequence with a comment removed gives what parsing the
/// whole sequence gives, prefix by prefix.
proof fn lemma_without_comment_upto(s: Seq<char>, toks: Seq<Token>, i: int, m: int)
    requires
        0 <= i < toks.len(),
        toks[i].kind == TokenKind::Comment,
        0 <= m <= toks.len(),
    ensures
        m <= i ==> parse_upto(s, toks, m) == parse_upto(s, toks.remove(i), m),
        m > i ==> parse_upto(s, toks, m) == parse_upto(s, toks.remove(i), m - 1),
    decreases m,
{
    let rest = toks.remove(i);
    if m > 0 {
        lemma_without_comment_upto(s, toks, i, m - 1);
        if m - 1 < i {
            assert(toks[m - 1] == rest[m - 1]);
        } else if m - 1 > i {
            assert(toks[m - 1] == rest[m - 2]);
        }
    }
}

/// Comments leave no trace: removing a comment token from the tokens of a
/// document does not change what parsing gives.
pub proof fn lemma_comment_removed(s: Seq<char>, toks: Seq<Token>, i: int)
    requires
        0 <= i < toks.len(),
        toks[i].kind == TokenKind::Comment,
    ensures
        parse_spec(s, toks) == parse_spec(s, toks.remove(i)),
{
    lemma_without_comment_upto(s, toks, i, toks.len() as int);
}

/// Every node's span lies within `s`.
pub open spec fn nodes_ok(s: Seq<char>, nodes: Seq<Node>) -> bool {
    forall|k: int| 0 <= k < nodes.len() ==> #[trigger] nodes[k].start <= nodes[k].end <= s.len()
}

/// Whether the spans `a..b` and `c..d` of `s` hold the same characters.
pub fn span_eq(s: &Vec<char>, a: usize, b: usize, c: usize, d: usize) -> (r: bool)
    requires
        a <= b <= s@.len(),
        c <= d <= s@.len(),
    ensures
        r == (s@.subrange(a as int, b as int) == s@.subrange(c as int, d as int)),
{
    if b - a != d - c {
        assert(s@.subrange(a as int, b as int).len() != s@.subrange(c as int, d as int).len());
        return false;
    }
    let mut i: usize = 0;
    while i < b - a
        invariant
            a <= b <= s@.len(),
            c <= d <= s@.len(),
            b - a == d - c,
            i <= b - a,
            forall|k: int| 0 <= k < i ==> s@.subrange(a as int, b as int)[k] == #[trigger] s@.subrange(c as int, d as int)[k],
        decreases b - a - i,
    {
        if s[a + i] != s[c + i] {
            assert(s@.subrange(a as int, b as int)[i as int] != s@.subrange(c as int, d as int)[i as int]);
            return false;
        }
        i = i + 1;
    }
    assert(s@.subrange(a as int, b as int) =~= s@.subrange(c as int, d as int));
    true
}

/// The first index of a knot header whose name is the span `a..b`, if any.
pub fn find_knot_exec(s: &Vec<char>, nodes: &Vec<Node>, a: usize, b: usize) -> (r: Option<usize>)
    requires
        a <= b <= s@.len(),
        nodes_ok(s@, nodes@),
    ensures
        match r {
            Some(j) => find_knot(s@, nodes@, 0, s@.subrange(a as int, b as int)) == j as int,
            None => find_knot(s@, nodes@, 0, s@.subrange(a as int, b as int)) == -1,
        },
        r matches Some(j) ==> j < nodes@.len(),
{
    let ghost name = s@.subrange(a as int, b as int);
    let mut j: usize = 0;
    while j < nodes.len()
        invariant
            j <= nodes@.len(),
            a <= b <= s@.len(),
            nodes_ok(s@, nodes@),
            name == s@.subrange(a as int, b as int),
            find_knot(s@, nodes@, 0, name) == find_knot(s@, nodes@, j as int, name),
        decreases nodes@.len() - j,
    {
        let n = nodes[j];
        if n.kind == NodeKind::Knot && span_eq(s, n.start, n.end, a, b) {
            return Some(j);
        }
        j = j + 1;
    }
    None
}

/// The first index from `from` on, before the next knot header, of a stitch
/// header whose name is the span `a..b`, if any.
pub fn find_stitch_exec(s: &Vec<char>, nodes: &Vec<Node>, from: usize, a: usize, b: usize) -> (r: Option<usize>)
    requires
        a <= b <= s@.len(),
        nodes_ok(s@, nodes@),
    ensures
        match r {
            Some(j) => find_stitch(s@, nodes@, from as int, s@.subrange(a as int, b as int)) == j as int,
            None => find_stitch(s@, nodes@, from as int, s@.subrange(a as int, b as int)) == -1,
        },
        r matches Some(j) ==> j < nodes@.len(),
{
    let ghost name = s@.subrange(a as int, b as int);
    let mut j: usize = from;
    while j < nodes.len()
        invariant
            from <= j,
            a <= b <= s@.len(),
            nodes_ok(s@, nodes@),
            name == s@.subrange(a as int, b as int),
            find_stitch(s@, nodes@, from as int, name) == find_stitch(s@, nodes@, j as int, name),
        decreases nodes@.len() - j,
    {
        let n = nodes[j];
        if n.kind == NodeKind::Knot {
            return None;
        }
        if n.kind == NodeKind::Stitch && span_eq(s, n.start, n.end, a, b) {
            return Some(j);
        }
        j = j + 1;
    }
    None
}

fn node(t: Token, kind: NodeKind) -> (r: Node)
    ensures
        r == node_of(t, kind),
{
    Node { kind, start: t.start, end: t.end, target: 0 }
}

/// Parses a token sequence into the nodes of its weave.
pub fn parse(s: &Vec<char>, toks: &Vec<Token>) -> (r: Result<Vec<Node>, ParseError>)
    requires
        spans_ok(s@, toks@),
    ensures
        match r {
            Ok(v) => parse_spec(s@, toks@) == Ok::<Seq<Node>, ParseError>(v@),
            Err(e) => parse_spec(s@, toks@) == Err::<Seq<Node>, ParseError>(e),
        },
        r matches Ok(v) ==> nodes_ok(s@, v@) && v@.len() <= toks@.len(),
{
    let mut nodes: Vec<Node> = Vec::new();
    let mut depth: usize = 0;
    let mut knot: Option<usize> = None;
    let mut k: usize = 0;
    while k < toks.len()
        invariant
            k <= toks@.len(),
            spans_ok(s@, toks@),
            nodes_ok(s@, nodes@),
            depth <= k,
            nodes@.len() <= k,
            knot matches Some(kn) ==> kn < nodes@.len(),
            parse_upto(s@, toks@, k as int) == Ok::<PState, ParseError>(PState {
                nodes: nodes@,
                depth: depth as int,
                knot: match knot { Some(kn) => kn as int, None => -1 },
            }),
        decreases toks@.len() - k,
    {
        let t = toks[k];
        assert(crate::lexer::span_ok(s@, toks@[k as int]));
        match t.kind {
            TokenKind::Comment | TokenKind::Suppression => {},
            TokenKind::Knot => {
                match find_knot_exec(s, &nodes, t.start, t.end) {
                    Some(j) => {
                        proof { lemma_parse_error_sticks(s@, toks@, k + 1, toks@.len() as int); }
                        return Err(ParseError::DuplicateSymbol(nodes[j].start, t.start));
                    },
                    None => {},
                }
                knot = Some(nodes.len());
                nodes.push(node(t, NodeKind::Knot));
                depth = 0;
            },
            TokenKind::Stitch => {
                match knot {
                    None => {
                        proof { lemma_parse_error_sticks(s@, toks@, k + 1, toks@.len() as int); }
                        return Err(ParseError::StitchOutsideKnot(t.start));
                    },
                    Some(kn) => {
                        match find_stitch_exec(s, &nodes, kn + 1, t.start, t.end) {
                            Some(j) => {
                                proof { lemma_parse_error_sticks(s@, toks@, k + 1, toks@.len() as int); }
                                return Err(ParseError::DuplicateSymbol(nodes[j].start, t.start));
                            },
                            None => {},
                        }
                    },
                }
                nodes.push(node(t, NodeKind::Stitch));
                depth = 0;
            },
            TokenKind::Choice(d) => {
                if d == 0 || d > depth + 1 {
                    proof { lemma_parse_error_sticks(s@, toks@, k + 1, toks@.len() as int); }
                    return Err(ParseError::BadNesting(t.start));
                }
                nodes.push(node(t, NodeKind::Choice(d)));
                depth = d;
            },
            TokenKind::Divert => {
                nodes.push(node(t, NodeKind::Divert));
            },
            TokenKind::Tag => {
                nodes.push(node(t, NodeKind::Tag));
            },
            TokenKind::Glue => {
                nodes.push(node(t, NodeKind::Glued));
            },
            TokenKind::Text => {
                nodes.push(node(t, NodeKind::Text));
            },
        }
        k = k + 1;
    }
    Ok(nodes)
}

} // verus!
