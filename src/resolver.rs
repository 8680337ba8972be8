//! Binding of divert targets to the headers of the knots and stitches they name.
use vstd::prelude::*;
use crate::lexer::{find_char, find_char_exec};
use crate::parser::{
    Node, NodeKind, find_knot, find_knot_exec, find_stitch, find_stitch_exec, nodes_ok,
};

verus! {

/// The index of the header of the knot that holds node `p`, or -1.
pub open spec fn owner_knot(nodes: Seq<Node>, p: int) -> int
    decreases p,
{
    if p <= 0 || p > nodes.len() {
        -1
    } else if nodes[p - 1].kind == NodeKind::Knot {
        p - 1
    } else {
        owner_knot(nodes, p - 1)
    }
}

/// The header that the divert at index `p` names: for `knot.stitch`, that
/// stitch of that knot; for a bare name, a stitch of the current knot, else a
/// knot.
pub open spec fn resolve_target(s: Seq<char>, nodes: Seq<Node>, p: int) -> Option<int> {
    let a = nodes[p].start as int;
    let b = nodes[p].end as int;
    let dot = find_char(s, a, b, '.');
    if dot < b {
        let kj = find_knot(s, nodes, 0, s.subrange(a, dot));
        if kj < 0 {
            None
        } else {
            let sj = find_stitch(s, nodes, kj + 1, s.subrange(dot + 1, b));
            if sj < 0 { None } else { Some(sj) }
        }
    } else {
        let name = s.subrange(a, b);
        let owner = owner_knot(nodes, p);
        let sj = if owner >= 0 { find_stitch(s, nodes, owner + 1, name) } else { -1 };
        if sj >= 0 {
            Some(sj)
        } else {
            let kj = find_knot(s, nodes, 0, name);
            if kj < 0 { None } else { Some(kj) }
        }
    }
}

pub open spec fn resolves(s: Seq<char>, nodes: Seq<Node>, p: int) -> bool {
    nodes[p].kind == NodeKind::Divert ==> resolve_target(s, nodes, p) is Some
}

/// Node `p` with its target bound, when it is a divert.
pub open spec fn bound(s: Seq<char>, nodes: Seq<Node>, p: int) -> Node {
    if nodes[p].kind == NodeKind::Divert {
        Node { target: resolve_target(s, nodes, p).unwrap() as usize, ..nodes[p] }
    } else {
        nodes[p]
    }
}

/// The index of the first node from `p` on that is a divert naming no header.
pub open spec fn first_unresolved(s: Seq<char>, nodes: Seq<Node>, p: int) -> Option<int>
    decreases nodes.len() - p,
{
    if p < 0 || p >= nodes.len() {
        None
    } else if !resolves(s, nodes, p) {
        Some(p)
    } else {
        first_unresolved(s, nodes, p + 1)
    }
}

/// Every divert of `nodes` names a header.
pub open spec fn all_resolve(s: Seq<char>, nodes: Seq<Node>) -> bool {
    forall|p: int| 0 <= p < nodes.len() ==> #[trigger] resolves(s, nodes, p)
}

/// A divert that resolves names the header of a knot or a stitch.
pub proof fn lemma_target_is_header(s: Seq<char>, nodes: Seq<Node>, p: int)
    requires
        0 <= p < nodes.len(),
        resolve_target(s, nodes, p) is Some,
    ensures
        0 <= resolve_target(s, nodes, p).unwrap() < nodes.len(),
        nodes[resolve_target(s, nodes, p).unwrap()].kind is Knot
            || nodes[resolve_target(s, nodes, p).unwrap()].kind is Stitch,
{
    let a = nodes[p].start as int;
    let b = nodes[p].end as int;
    let dot = find_char(s, a, b, '.');
    if dot < b {
        let kj = find_knot(s, nodes, 0, s.subrange(a, dot));
        crate::parser::lemma_find_knot(s, nodes, 0, s.subrange(a, dot));
        crate::parser::lemma_find_stitch(s, nodes, kj + 1, s.subrange(dot + 1, b));
    } else {
        let name = s.subrange(a, b);
        let owner = owner_knot(nodes, p);
        crate::parser::lemma_find_stitch(s, nodes, owner + 1, name);
        crate::parser::lemma_find_knot(s, nodes, 0, name);
    }
}

/// A bare divert whose name a knot declares anywhere in the document, before
/// or after the divert, resolves.
pub proof fn lemma_declared_knot_resolves(s: Seq<char>, nodes: Seq<Node>, p: int, j: int)
    requires
        0 <= p < nodes.len(),
        0 <= j < nodes.len(),
        nodes[p].kind == NodeKind::Divert,
        find_char(s, nodes[p].start as int, nodes[p].end as int, '.') >= nodes[p].end,
        nodes[j].kind == NodeKind::Knot,
        crate::parser::text_of(s, nodes[j]) == s.subrange(nodes[p].start as int, nodes[p].end as int),
    ensures
        resolve_target(s, nodes, p) is Some,
        resolves(s, nodes, p),
{
    let name = s.subrange(nodes[p].start as int, nodes[p].end as int);
    crate::parser::lemma_find_knot_finds(s, nodes, 0, j, name);
}

/// A divert whose target names no knot or stitch: the span of the target.
#[derive(Clone, Copy, Debug, PartialEq, Eq, Structural)]
pub struct Unresolved {
    pub start: usize,
    pub end: usize,
}

/// The index of the header of the knot that holds node `p`, if any.
pub fn owner_knot_exec(nodes: &Vec<Node>, p: usize) -> (r: Option<usize>)
    requires
        p <= nodes@.len(),
    ensures
        match r {
            Some(j) => owner_knot(nodes@, p as int) == j as int && j < p,
            None => owner_knot(nodes@, p as int) == -1,
        },
{
    let mut q: usize = p;
    while q > 0
        invariant
            q <= p <= nodes@.len(),
            owner_knot(nodes@, p as int) == owner_knot(nodes@, q as int),
        decreases q,
    {
        if nodes[q - 1].kind == NodeKind::Knot {
            return Some(q - 1);
        }
        q = q - 1;
    }
    None
}

/// The header that the divert at index `p` names, if any.
pub fn resolve_target_exec(s: &Vec<char>, nodes: &Vec<Node>, p: usize) -> (r: Option<usize>)
    requires
        p < nodes@.len(),
        nodes_ok(s@, nodes@),
    ensures
        match r {
            Some(j) => resolve_target(s@, nodes@, p as int) == Some(j as int),
            None => resolve_target(s@, nodes@, p as int) is None,
        },
        r matches Some(j) ==> j < nodes@.len(),
{
    let count = nodes.len();
    let a = nodes[p].start;
    let b = nodes[p].end;
    assert(nodes@[p as int].start <= nodes@[p as int].end <= s@.len());
    let dot = find_char_exec(s, a, b, '.');
    if dot < b {
        match find_knot_exec(s, nodes, a, dot) {
            None => None,
            Some(kj) => {
                assert(kj < count);
                find_stitch_exec(s, nodes, kj + 1, dot + 1, b)
            },
        }
    } else {
        let sj = match owner_knot_exec(nodes, p) {
            Some(owner) => find_stitch_exec(s, nodes, owner + 1, a, b),
            None => None,
        };
        match sj {
            Some(j) => Some(j),
            None => find_knot_exec(s, nodes, a, b),
        }
    }
}

/// Binds every divert to the header it names, or reports the first divert
/// that names none.
pub fn resolve(s: &Vec<char>, nodes: &Vec<Node>) -> (r: Result<Vec<Node>, Unresolved>)
    requires
        nodes_ok(s@, nodes@),
    ensures
        r is Ok <==> forall|p: int| 0 <= p < nodes@.len() ==> #[trigger] resolves(s@, nodes@, p),
        r matches Ok(v) ==> v@.len() == nodes@.len()
            && forall|p: int| 0 <= p < nodes@.len() ==> #[trigger] v@[p] == bound(s@, nodes@, p),
        r matches Err(e) ==> first_unresolved(s@, nodes@, 0) matches Some(p)
            && 0 <= p < nodes@.len()
            && e == (Unresolved { start: nodes@[p].start, end: nodes@[p].end }),
{
    let mut out: Vec<Node> = Vec::new();
    let mut p: usize = 0;
    while p < nodes.len()
        invariant
            p <= nodes@.len(),
            nodes_ok(s@, nodes@),
            out@.len() == p,
            forall|q: int| 0 <= q < p ==> #[trigger] resolves(s@, nodes@, q),
            forall|q: int| 0 <= q < p ==> #[trigger] out@[q] == bound(s@, nodes@, q),
            first_unresolved(s@, nodes@, 0) == first_unresolved(s@, nodes@, p as int),
        decreases nodes@.len() - p,
    {
        let n = nodes[p];
        if n.kind == NodeKind::Divert {
            match resolve_target_exec(s, nodes, p) {
                Some(j) => {
                    out.push(Node { target: j, ..n });
                },
                None => {
                    assert(!resolves(s@, nodes@, p as int));
                    return Err(Unresolved { start: n.start, end: n.end });
                },
            }
        } else {
            out.push(n);
        }
        p = p + 1;
    }
    Ok(out)
}

} // verus!
