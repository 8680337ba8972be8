//! Generation of the container tree and its entries from resolved nodes.
use vstd::prelude::*;
use crate::parser::{Node, NodeKind, nodes_ok};
use crate::story::{Container, Entry, Name, Placed, arena_wf, placed_ok};

verus! {

pub open spec fn is_opener(k: NodeKind) -> bool {
    k is Knot || k is Stitch || k is Choice
}

pub open spec fn is_line(k: NodeKind) -> bool {
    k is Text || k is Glued
}

/// How many of the first `q` nodes open a container.
pub open spec fn openers(nodes: Seq<Node>, q: int) -> int
    decreases q,
{
    if q <= 0 {
        0
    } else {
        openers(nodes, q - 1) + if is_opener(nodes[q - 1].kind) { 1int } else { 0int }
    }
}

/// The arena index of the container that node `q` opens: containers are made
/// in the order of their nodes, after the root.
pub open spec fn container_of(nodes: Seq<Node>, q: int) -> int {
    1 + openers(nodes, q)
}

/// Every divert names the header of a knot or stitch.
pub open spec fn resolved(nodes: Seq<Node>) -> bool {
    forall|p: int|
        0 <= p < nodes.len() && #[trigger] nodes[p].kind == NodeKind::Divert ==> {
            &&& nodes[p].target < nodes.len()
            &&& (nodes[nodes[p].target as int].kind is Knot || nodes[nodes[p].target as int].kind is Stitch)
        }
}

/// The entries that the line at node `p` puts in its container: its text, if
/// any, then a line break, unless the next node is glued to it.
pub open spec fn line_entries(nodes: Seq<Node>, p: int) -> Seq<Entry> {
    let n = nodes[p];
    let text = if n.start < n.end { seq![Entry::PushString(n.start, n.end)] } else { seq![] };
    if p + 1 < nodes.len() && nodes[p + 1].kind == NodeKind::Glued {
        text
    } else {
        text.push(Entry::Newline)
    }
}

/// The entries from `at` on are those of `line`.
pub open spec fn holds_at(es: Seq<Placed>, at: int, line: Seq<Entry>) -> bool {
    &&& 0 <= at
    &&& at + line.len() <= es.len()
    &&& forall|j: int| 0 <= j < line.len() ==> #[trigger] es[at + j].entry == line[j]
}

/// Each of the first `p` lines was emitted where `at` records.
pub open spec fn lines_placed(es: Seq<Placed>, nodes: Seq<Node>, at: Seq<int>, p: int) -> bool {
    forall|q: int| 0 <= q < p && is_line(#[trigger] nodes[q].kind) ==> holds_at(es, at[q], line_entries(nodes, q))
}

proof fn lemma_lines_grow(es1: Seq<Placed>, es2: Seq<Placed>, nodes: Seq<Node>, at: Seq<int>, p: int)
    requires
        lines_placed(es1, nodes, at, p),
        es1.len() <= es2.len(),
        es2.subrange(0, es1.len() as int) == es1,
    ensures
        lines_placed(es2, nodes, at, p),
{
    assert forall|q: int| 0 <= q < p && is_line(#[trigger] nodes[q].kind) implies holds_at(es2, at[q], line_entries(nodes, q)) by {
        let line = line_entries(nodes, q);
        assert(holds_at(es1, at[q], line));
        assert forall|j: int| 0 <= j < line.len() implies #[trigger] es2[at[q] + j].entry == line[j] by {
            assert(es2.subrange(0, es1.len() as int)[at[q] + j] == es2[at[q] + j]);
            assert(es1[at[q] + j].entry == line[j]);
        }
    }
}

/// Where glue joins a line to the next, the line ends with no line break.
pub proof fn lemma_glue_joins(nodes: Seq<Node>, p: int)
    requires
        0 <= p,
        p + 1 < nodes.len(),
        nodes[p + 1].kind == NodeKind::Glued,
    ensures
        forall|j: int| 0 <= j < line_entries(nodes, p).len() ==> line_entries(nodes, p)[j] != Entry::Newline,
{
}

proof fn lemma_openers_mono(nodes: Seq<Node>, a: int, b: int)
    requires
        0 <= a <= b,
    ensures
        openers(nodes, a) <= openers(nodes, b),
        openers(nodes, b) <= openers(nodes, a) + (b - a),
    decreases b - a,
{
    if a < b {
        lemma_openers_mono(nodes, a, b - 1);
    }
}

/// The arena index of the container that each node would open.
fn container_indices(nodes: &Vec<Node>) -> (r: Vec<usize>)
    requires
        nodes@.len() < usize::MAX,
    ensures
        r@.len() == nodes@.len(),
        forall|q: int| 0 <= q < nodes@.len() ==> #[trigger] r@[q] as int == container_of(nodes@, q),
{
    let mut r: Vec<usize> = Vec::new();
    let mut count: usize = 1;
    let mut q: usize = 0;
    while q < nodes.len()
        invariant
            q <= nodes@.len() < usize::MAX,
            r@.len() == q,
            count as int == container_of(nodes@, q as int),
            count <= q + 1,
            forall|k: int| 0 <= k < q ==> #[trigger] r@[k] as int == container_of(nodes@, k),
        decreases nodes@.len() - q,
    {
        r.push(count);
        if is_opener_exec(nodes[q].kind) {
            count = count + 1;
        }
        q = q + 1;
    }
    r
}

fn is_opener_exec(k: NodeKind) -> (r: bool)
    ensures
        r == is_opener(k),
{
    match k {
        NodeKind::Knot | NodeKind::Stitch | NodeKind::Choice(_) => true,
        _ => false,
    }
}

/// The entries of the first `count` containers are sound: each sits in an
/// existing container, carries spans within the source, and jumps below `total`.
pub open spec fn entries_sound(es: Seq<Placed>, count: int, n: int, total: int) -> bool {
    &&& forall|k: int| 0 <= k < es.len() ==> #[trigger] es[k].container < count
    &&& forall|k: int| 0 <= k < es.len() ==> crate::story::entry_ok(#[trigger] es[k].entry, n, total)
}

pub open spec fn is_header(k: NodeKind) -> bool {
    k is Knot || k is Stitch
}

/// The generator's working state: the arena, whether each container's flow
/// ended in a divert, the stack of open containers (the section's, then one
/// per open choice), the current knot's container, and the entries.
struct Gen {
    containers: Vec<Container>,
    diverted: Vec<bool>,
    stack: Vec<usize>,
    knot_c: usize,
    entries: Vec<Placed>,
}

/// The generator's state as values.
pub struct GenView {
    pub containers: Seq<Container>,
    pub diverted: Seq<bool>,
    pub stack: Seq<usize>,
    pub knot_c: usize,
    pub entries: Seq<Placed>,
}

/// Closes the open containers above the first `keep`, innermost first; each
/// whose flow did not end in a divert gets `End`.
pub open spec fn close_spec(g: GenView, keep: nat) -> GenView
    decreases g.stack.len(),
{
    if g.stack.len() > keep && g.stack.len() > 0 {
        let c = g.stack.last();
        let entries = if !g.diverted[c as int] {
            g.entries.push(Placed { container: c, entry: Entry::End })
        } else {
            g.entries
        };
        close_spec(GenView { stack: g.stack.drop_last(), entries, ..g }, keep)
    } else {
        g
    }
}

/// Puts `e` in the innermost open container.
pub open spec fn emit_spec(g: GenView, e: Entry) -> GenView {
    let top = g.stack.last();
    GenView {
        entries: g.entries.push(Placed { container: top, entry: e }),
        diverted: g.diverted.update(top as int, e is Divert),
        ..g
    }
}

/// Opens the container of a knot (under the root) or a stitch (under the
/// current knot), after closing every open one.
pub open spec fn header_spec(g: GenView, node: Node) -> GenView {
    let g1 = close_spec(g, 0);
    let parent: usize = if node.kind == NodeKind::Knot { 0 } else { g1.knot_c };
    let c = g1.containers.len() as usize;
    GenView {
        containers: g1.containers.push(Container { name: Name::Span(node.start, node.end), parent, choices: 0 }),
        diverted: g1.diverted.push(false),
        stack: g1.stack.push(c),
        knot_c: if node.kind == NodeKind::Knot { c } else { g1.knot_c },
        entries: g1.entries,
    }
}

/// Opens the container of a choice of depth `d`, the next choice of the
/// container it nests in; it starts with the choice's text and a line break.
pub open spec fn choice_spec(g: GenView, node: Node, d: usize) -> GenView {
    let keep: nat = if d == 0 { 1 } else if d <= g.stack.len() { d as nat } else { g.stack.len() };
    let g1 = close_spec(g, keep);
    let parent = g1.stack.last();
    let pc = g1.containers[parent as int];
    let cs = g1.containers.update(parent as int, Container { choices: (pc.choices + 1) as usize, ..pc });
    let c = cs.len() as usize;
    GenView {
        containers: cs.push(Container { name: Name::Choice(pc.choices), parent, choices: 0 }),
        diverted: g1.diverted.push(false),
        stack: g1.stack.push(c),
        knot_c: g1.knot_c,
        entries: g1.entries.push(Placed { container: c, entry: Entry::PushString(node.start, node.end) })
            .push(Placed { container: c, entry: Entry::Newline }),
    }
}

/// What node `p` does to the generator's state.
pub open spec fn node_spec(g: GenView, nodes: Seq<Node>, p: int) -> GenView {
    let node = nodes[p];
    match node.kind {
        NodeKind::Knot | NodeKind::Stitch => header_spec(g, node),
        NodeKind::Choice(d) => choice_spec(g, node, d),
        NodeKind::Text | NodeKind::Glued => {
            let g1 = if node.start < node.end { emit_spec(g, Entry::PushString(node.start, node.end)) } else { g };
            if p + 1 < nodes.len() && nodes[p + 1].kind == NodeKind::Glued {
                g1
            } else {
                emit_spec(g1, Entry::Newline)
            }
        },
        NodeKind::Tag => emit_spec(g, Entry::Tag(node.start, node.end)),
        NodeKind::Divert => emit_spec(g, Entry::Divert(container_of(nodes, node.target as int) as usize)),
    }
}

/// The generator's state after the first `p` nodes.
pub open spec fn gen_upto(nodes: Seq<Node>, p: int) -> GenView
    decreases p,
{
    if p <= 0 {
        GenView {
            containers: seq![Container { name: Name::Root, parent: 0, choices: 0 }],
            diverted: seq![false],
            stack: seq![0usize],
            knot_c: 0,
            entries: seq![],
        }
    } else {
        node_spec(gen_upto(nodes, p - 1), nodes, p - 1)
    }
}

/// The containers and entries generated from `nodes`.
pub open spec fn generated(nodes: Seq<Node>) -> (Seq<Container>, Seq<Placed>) {
    let g = close_spec(gen_upto(nodes, nodes.len() as int), 0);
    (g.containers, g.entries)
}

pub open spec fn is_prefix(a: Seq<Placed>, b: Seq<Placed>) -> bool {
    a.len() <= b.len() && b.subrange(0, a.len() as int) == a
}

proof fn lemma_prefix_trans(a: Seq<Placed>, b: Seq<Placed>, c: Seq<Placed>)
    requires
        is_prefix(a, b),
        is_prefix(b, c),
    ensures
        is_prefix(a, c),
{
    assert(c.subrange(0, a.len() as int) =~= c.subrange(0, b.len() as int).subrange(0, a.len() as int));
}

proof fn lemma_close_grows(g: GenView, keep: nat)
    ensures
        is_prefix(g.entries, close_spec(g, keep).entries),
    decreases g.stack.len(),
{
    if g.stack.len() > keep && g.stack.len() > 0 {
        let c = g.stack.last();
        let entries = if !g.diverted[c as int] {
            g.entries.push(Placed { container: c, entry: Entry::End })
        } else {
            g.entries
        };
        let g1 = GenView { stack: g.stack.drop_last(), entries, ..g };
        lemma_close_grows(g1, keep);
        assert(is_prefix(g.entries, entries)) by {
            assert(entries.subrange(0, g.entries.len() as int) =~= g.entries);
        }
        lemma_prefix_trans(g.entries, entries, close_spec(g1, keep).entries);
    } else {
        assert(g.entries.subrange(0, g.entries.len() as int) =~= g.entries);
    }
}

/// The entries of a line node follow those before it, and are exactly its
/// line's entries.
proof fn lemma_line_step(g: GenView, nodes: Seq<Node>, p: int)
    requires
        0 <= p < nodes.len(),
        is_line(nodes[p].kind),
    ensures
        node_spec(g, nodes, p).entries.len() == g.entries.len() + line_entries(nodes, p).len(),
        is_prefix(g.entries, node_spec(g, nodes, p).entries),
        holds_at(node_spec(g, nodes, p).entries, g.entries.len() as int, line_entries(nodes, p)),
{
    let r = node_spec(g, nodes, p).entries;
    assert(r.subrange(0, g.entries.len() as int) =~= g.entries);
}

proof fn lemma_node_grows(g: GenView, nodes: Seq<Node>, p: int)
    requires
        0 <= p < nodes.len(),
    ensures
        is_prefix(g.entries, node_spec(g, nodes, p).entries),
{
    let r = node_spec(g, nodes, p).entries;
    match nodes[p].kind {
        NodeKind::Knot | NodeKind::Stitch => {
            lemma_close_grows(g, 0);
        },
        NodeKind::Choice(d) => {
            let keep: nat = if d == 0 { 1 } else if d <= g.stack.len() { d as nat } else { g.stack.len() };
            lemma_close_grows(g, keep);
            let g1 = close_spec(g, keep);
            assert(r.subrange(0, g1.entries.len() as int) =~= g1.entries);
            lemma_prefix_trans(g.entries, g1.entries, r);
        },
        NodeKind::Text | NodeKind::Glued => {
            lemma_line_step(g, nodes, p);
        },
        _ => {
            assert(r.subrange(0, g.entries.len() as int) =~= g.entries);
        },
    }
}

proof fn lemma_upto_grows(nodes: Seq<Node>, a: int, b: int)
    requires
        0 <= a <= b <= nodes.len(),
    ensures
        is_prefix(gen_upto(nodes, a).entries, gen_upto(nodes, b).entries),
    decreases b - a,
{
    if a < b {
        lemma_upto_grows(nodes, a, b - 1);
        lemma_node_grows(gen_upto(nodes, b - 1), nodes, b - 1);
        lemma_prefix_trans(gen_upto(nodes, a).entries, gen_upto(nodes, b - 1).entries, gen_upto(nodes, b).entries);
    } else {
        let e = gen_upto(nodes, a).entries;
        assert(e.subrange(0, e.len() as int) =~= e);
    }
}

/// Glue in a generated document: where line `p` is followed by a glued line,
/// the document holds the entries of line `p` and then those of the glued
/// line, one after the other, and the first hold no line break.
pub proof fn lemma_glue_in_document(nodes: Seq<Node>, p: int)
    requires
        0 <= p,
        p + 1 < nodes.len(),
        is_line(nodes[p].kind),
        nodes[p + 1].kind == NodeKind::Glued,
    ensures
        holds_at(generated(nodes).1, gen_upto(nodes, p).entries.len() as int,
            line_entries(nodes, p) + line_entries(nodes, p + 1)),
        forall|j: int| 0 <= j < line_entries(nodes, p).len() ==> line_entries(nodes, p)[j] != Entry::Newline,
{
    let at = gen_upto(nodes, p).entries.len() as int;
    let e1 = gen_upto(nodes, p + 1).entries;
    let e2 = gen_upto(nodes, p + 2).entries;
    let l1 = line_entries(nodes, p);
    let l2 = line_entries(nodes, p + 1);
    lemma_line_step(gen_upto(nodes, p), nodes, p);
    lemma_line_step(gen_upto(nodes, p + 1), nodes, p + 1);
    lemma_upto_grows(nodes, p + 2, nodes.len() as int);
    lemma_close_grows(gen_upto(nodes, nodes.len() as int), 0);
    let es = generated(nodes).1;
    lemma_prefix_trans(e2, gen_upto(nodes, nodes.len() as int).entries, es);
    assert forall|j: int| 0 <= j < (l1 + l2).len() implies #[trigger] es[at + j].entry == (l1 + l2)[j] by {
        assert(es.subrange(0, e2.len() as int)[at + j] == es[at + j]);
        if j < l1.len() {
            assert(e1[at + j].entry == l1[j]);
            assert(e2.subrange(0, e1.len() as int)[at + j] == e2[at + j]);
        } else {
            assert(e2[e1.len() + (j - l1.len())].entry == l2[j - l1.len()]);
        }
    }
}

impl Gen {
    spec fn view(&self) -> GenView {
        GenView {
            containers: self.containers@,
            diverted: self.diverted@,
            stack: self.stack@,
            knot_c: self.knot_c,
            entries: self.entries@,
        }
    }

    #[verifier::opaque]
    spec fn sound(&self, ns: int, total: int, p: int) -> bool {
        &&& arena_wf(self.containers@)
        &&& forall|i: int| 0 <= i < self.containers@.len() ==> crate::story::name_ok(#[trigger] self.containers@[i].name, ns)
        &&& forall|i: int| 0 <= i < self.containers@.len() ==> #[trigger] self.containers@[i].choices <= p
        &&& entries_sound(self.entries@, self.containers@.len() as int, ns, total)
        &&& self.diverted@.len() == self.containers@.len()
        &&& self.stack@.len() >= 1
        &&& forall|k: int| 0 <= k < self.stack@.len() ==> #[trigger] self.stack@[k] < self.containers@.len()
        &&& self.knot_c < self.containers@.len()
    }

    /// `self` grew from `o`: entries appended, containers added, names kept.
    spec fn extends(&self, o: &Gen) -> bool {
        &&& o.entries@.len() <= self.entries@.len()
        &&& self.entries@.subrange(0, o.entries@.len() as int) == o.entries@
        &&& o.containers@.len() <= self.containers@.len()
        &&& forall|i: int| 0 <= i < o.containers@.len() ==> #[trigger] self.containers@[i].name == o.containers@[i].name
    }
}

/// Closes the open containers above the first `keep` (all, but the first,
/// when `keep` is 0): each whose flow did not end in a divert gets `End`.
fn close_to(g: &mut Gen, keep: usize, Ghost(ns): Ghost<int>, Ghost(total): Ghost<int>, Ghost(p): Ghost<int>)
    requires
        old(g).sound(ns, total, p),
    ensures
        final(g).view() == close_spec(old(g).view(), keep as nat),
        final(g).extends(old(g)),
        final(g).containers@ == old(g).containers@,
        final(g).diverted@ == old(g).diverted@,
        final(g).knot_c == old(g).knot_c,
        final(g).stack@.len() == if keep < old(g).stack@.len() { keep as int } else { old(g).stack@.len() as int },
        forall|k: int| 0 <= k < final(g).stack@.len() ==> #[trigger] final(g).stack@[k] < final(g).containers@.len(),
        entries_sound(final(g).entries@, final(g).containers@.len() as int, ns, total),
{
    proof {
        reveal(Gen::sound);
    }
    let ghost e0 = g.entries@;
    let ghost s0 = g.stack@;
    while g.stack.len() > keep
        invariant
            arena_wf(g.containers@),
            entries_sound(g.entries@, g.containers@.len() as int, ns, total),
            g.containers@ == old(g).containers@,
            g.diverted@ == old(g).diverted@,
            g.diverted@.len() == g.containers@.len(),
            g.knot_c == old(g).knot_c,
            e0 == old(g).entries@,
            s0 == old(g).stack@,
            g.stack@.len() <= s0.len(),
            g.stack@.len() >= if keep < s0.len() { keep as int } else { s0.len() as int },
            forall|k: int| 0 <= k < g.stack@.len() ==> #[trigger] g.stack@[k] < g.containers@.len(),
            e0.len() <= g.entries@.len(),
            g.entries@.subrange(0, e0.len() as int) == e0,
            close_spec(g.view(), keep as nat) == close_spec(old(g).view(), keep as nat),
        decreases g.stack@.len(),
    {
        let c = g.stack.pop().unwrap();
        assert(c < g.containers@.len());
        if !g.diverted[c] {
            g.entries.push(Placed { container: c, entry: Entry::End });
            assert(g.entries@.subrange(0, e0.len() as int) =~= e0);
        }
    }
}

/// Puts `e` in the innermost open container, and records whether its flow
/// now ends in a divert.
fn emit(g: &mut Gen, e: Entry, Ghost(ns): Ghost<int>, Ghost(total): Ghost<int>, Ghost(p): Ghost<int>)
    requires
        old(g).sound(ns, total, p),
        crate::story::entry_ok(e, ns, total),
    ensures
        final(g).view() == emit_spec(old(g).view(), e),
        final(g).sound(ns, total, p),
        final(g).extends(old(g)),
        final(g).containers@ == old(g).containers@,
        final(g).entries@ == old(g).entries@.push(Placed { container: old(g).stack@.last(), entry: e }),
{
    proof {
        reveal(Gen::sound);
    }
    let top = g.stack[g.stack.len() - 1];
    g.entries.push(Placed { container: top, entry: e });
    let d = match e {
        Entry::Divert(_) => true,
        _ => false,
    };
    g.diverted.set(top, d);
    assert(g.entries@.subrange(0, old(g).entries@.len() as int) =~= old(g).entries@);
}

/// Opens the container of a knot (a child of the root) or of a stitch (a
/// child of the current knot).
fn open_header(g: &mut Gen, node: Node, Ghost(ns): Ghost<int>, Ghost(total): Ghost<int>, Ghost(p): Ghost<int>)
    requires
        old(g).sound(ns, total, p),
        old(g).containers@.len() < total,
        node.start <= node.end <= ns,
        0 <= p,
    ensures
        final(g).view() == header_spec(old(g).view(), node),
        final(g).sound(ns, total, p + 1),
        final(g).extends(old(g)),
        final(g).containers@.len() == old(g).containers@.len() + 1,
        final(g).containers@[old(g).containers@.len() as int].name == Name::Span(node.start, node.end),
{
    proof {
        reveal(Gen::sound);
    }
    close_to(g, 0, Ghost(ns), Ghost(total), Ghost(p));
    let parent = if node.kind == NodeKind::Knot { 0 } else { g.knot_c };
    let c = g.containers.len();
    g.containers.push(Container { name: Name::Span(node.start, node.end), parent, choices: 0 });
    g.diverted.push(false);
    g.stack.push(c);
    if node.kind == NodeKind::Knot {
        g.knot_c = c;
    }
}

/// Opens the container of a choice of depth `d`: it closes the choices at
/// depth `d` and deeper, and becomes the next choice of the container left
/// innermost. It starts with the choice's text and a line break.
fn open_choice(g: &mut Gen, node: Node, d: usize, Ghost(ns): Ghost<int>, Ghost(total): Ghost<int>, Ghost(p): Ghost<int>)
    requires
        old(g).sound(ns, total, p),
        old(g).containers@.len() < total,
        node.start <= node.end <= ns,
        0 <= p < usize::MAX,
    ensures
        final(g).view() == choice_spec(old(g).view(), node, d),
        final(g).sound(ns, total, p + 1),
        final(g).extends(old(g)),
        final(g).containers@.len() == old(g).containers@.len() + 1,
        final(g).containers@[old(g).containers@.len() as int].name is Choice,
{
    proof {
        reveal(Gen::sound);
    }
    let keep = if d == 0 { 1 } else if d <= g.stack.len() { d } else { g.stack.len() };
    close_to(g, keep, Ghost(ns), Ghost(total), Ghost(p));
    let parent = g.stack[g.stack.len() - 1];
    let pc = g.containers[parent];
    g.containers.set(parent, Container { choices: pc.choices + 1, ..pc });
    let c = g.containers.len();
    g.containers.push(Container { name: Name::Choice(pc.choices), parent, choices: 0 });
    g.diverted.push(false);
    g.stack.push(c);
    let ghost e0 = g.entries@;
    g.entries.push(Placed { container: c, entry: Entry::PushString(node.start, node.end) });
    g.entries.push(Placed { container: c, entry: Entry::Newline });
    assert(g.entries@.subrange(0, e0.len() as int) =~= e0);
    assert(g.entries@.subrange(0, old(g).entries@.len() as int) =~= old(g).entries@);
}

/// What the first `p` nodes established still holds after node `p` is
/// generated, and node `p` adds its own part.
proof fn lemma_after_node(
    nodes: Seq<Node>,
    c0: Seq<Container>,
    c1: Seq<Container>,
    e0: Seq<Placed>,
    e1: Seq<Placed>,
    at0: Seq<int>,
    p: int,
)
    requires
        0 <= p < nodes.len(),
        at0.len() == p,
        c0.len() == container_of(nodes, p),
        c0.len() <= c1.len(),
        forall|i: int| 0 <= i < c0.len() ==> #[trigger] c1[i].name == c0[i].name,
        forall|q: int| 0 <= q < p && is_header(#[trigger] nodes[q].kind) ==>
            c0[container_of(nodes, q)].name == Name::Span(nodes[q].start, nodes[q].end),
        is_header(nodes[p].kind) ==> c1[container_of(nodes, p)].name == Name::Span(nodes[p].start, nodes[p].end),
        lines_placed(e0, nodes, at0, p),
        e0.len() <= e1.len(),
        e1.subrange(0, e0.len() as int) == e0,
        is_line(nodes[p].kind) ==> holds_at(e1, e0.len() as int, line_entries(nodes, p)),
    ensures
        forall|q: int| 0 <= q < p + 1 && is_header(#[trigger] nodes[q].kind) ==>
            c1[container_of(nodes, q)].name == Name::Span(nodes[q].start, nodes[q].end),
        lines_placed(e1, nodes, at0.push(e0.len() as int), p + 1),
{
    lemma_lines_grow(e0, e1, nodes, at0, p);
    let at = at0.push(e0.len() as int);
    assert forall|q: int| 0 <= q < p + 1 && is_line(#[trigger] nodes[q].kind) implies
        holds_at(e1, at[q], line_entries(nodes, q)) by {
        if q < p {
            assert(at[q] == at0[q]);
        }
    }
    assert forall|q: int| 0 <= q < p + 1 && is_header(#[trigger] nodes[q].kind) implies
        c1[container_of(nodes, q)].name == Name::Span(nodes[q].start, nodes[q].end) by {
        if q < p {
            lemma_openers_mono(nodes, q + 1, p);
            lemma_openers_mono(nodes, 0, q);
            assert(openers(nodes, q + 1) == openers(nodes, q) + 1);
            assert(container_of(nodes, q) < c0.len());
            let i = container_of(nodes, q);
            assert(c1[i].name == c0[i].name);
            assert(c1[container_of(nodes, q)].name == c0[container_of(nodes, q)].name);
        }
    }
}

/// What node generation reads: resolved nodes within a source of length
/// `ns`, and the container index of each node.
#[verifier::opaque]
spec fn ready(nodes: Seq<Node>, index: Seq<usize>, total: int, ns: int) -> bool {
    &&& resolved(nodes)
    &&& index.len() == nodes.len()
    &&& forall|q: int| 0 <= q < nodes.len() ==> #[trigger] index[q] as int == container_of(nodes, q)
    &&& total == container_of(nodes, nodes.len() as int)
    &&& forall|k: int| 0 <= k < nodes.len() ==> #[trigger] nodes[k].start <= nodes[k].end <= ns
}

/// Generates what node `p` calls for.
fn gen_node(g: &mut Gen, nodes: &Vec<Node>, index: &Vec<usize>, p: usize, Ghost(ns): Ghost<int>, Ghost(total): Ghost<int>)
    requires
        p < nodes@.len() < usize::MAX,
        ready(nodes@, index@, total, ns),
        old(g).sound(ns, total, p as int),
        old(g).containers@.len() == container_of(nodes@, p as int),
    ensures
        final(g).view() == node_spec(old(g).view(), nodes@, p as int),
        final(g).sound(ns, total, p + 1),
        final(g).extends(old(g)),
        final(g).containers@.len() == container_of(nodes@, p + 1),
        is_header(nodes@[p as int].kind) ==>
            final(g).containers@[container_of(nodes@, p as int)].name == Name::Span(nodes@[p as int].start, nodes@[p as int].end),
        is_line(nodes@[p as int].kind) ==> holds_at(final(g).entries@, old(g).entries@.len() as int, line_entries(nodes@, p as int)),
{
    proof {
        reveal(Gen::sound);
        reveal(ready);
    }
    let n = nodes.len();
    let node = nodes[p];
    proof {
        lemma_openers_mono(nodes@, p as int + 1, n as int);
    }
    match node.kind {
        NodeKind::Knot | NodeKind::Stitch => {
            open_header(g, node, Ghost(ns), Ghost(total), Ghost(p as int));
        },
        NodeKind::Choice(d) => {
            open_choice(g, node, d, Ghost(ns), Ghost(total), Ghost(p as int));
        },
        NodeKind::Text | NodeKind::Glued => {
            let ghost g0 = *g;
            if node.start < node.end {
                emit(g, Entry::PushString(node.start, node.end), Ghost(ns), Ghost(total), Ghost(p as int));
            }
            if !(p + 1 < n && nodes[p + 1].kind == NodeKind::Glued) {
                emit(g, Entry::Newline, Ghost(ns), Ghost(total), Ghost(p as int));
            }
            assert(g.entries@.subrange(0, g0.entries@.len() as int) =~= g0.entries@);
            assert(holds_at(g.entries@, g0.entries@.len() as int, line_entries(nodes@, p as int)));
        },
        NodeKind::Tag => {
            emit(g, Entry::Tag(node.start, node.end), Ghost(ns), Ghost(total), Ghost(p as int));
        },
        NodeKind::Divert => {
            let h = node.target;
            proof {
                lemma_openers_mono(nodes@, h as int + 1, n as int);
            }
            emit(g, Entry::Divert(index[h]), Ghost(ns), Ghost(total), Ghost(p as int));
        },
    }
}

/// Generates the container tree of resolved nodes: the root holds the text
/// before the first knot; each knot is a child of the root, each stitch a
/// child of its knot, and each choice a child of the container it nests in.
/// A container whose flow does not end in a divert ends with `End`.
#[verifier::rlimit(40)]
pub fn generate(s: &Vec<char>, nodes: &Vec<Node>) -> (r: (Vec<Container>, Vec<Placed>))
    requires
        nodes_ok(s@, nodes@),
        resolved(nodes@),
        nodes@.len() < usize::MAX,
    ensures
        (r.0@, r.1@) == generated(nodes@),
        arena_wf(r.0@),
        placed_ok(r.1@, r.0@, s@.len() as int),
        r.0@.len() == container_of(nodes@, nodes@.len() as int),
        forall|q: int| 0 <= q < nodes@.len() && is_header(#[trigger] nodes@[q].kind) ==>
            r.0@[container_of(nodes@, q)].name == Name::Span(nodes@[q].start, nodes@[q].end),
        exists|at: Seq<int>| lines_placed(r.1@, nodes@, at, nodes@.len() as int),
{
    let index = container_indices(nodes);
    let n = nodes.len();
    let ghost total = container_of(nodes@, n as int);
    let ghost ns = s@.len() as int;
    let mut containers: Vec<Container> = Vec::new();
    containers.push(Container { name: Name::Root, parent: 0, choices: 0 });
    let mut diverted: Vec<bool> = Vec::new();
    diverted.push(false);
    let mut stack: Vec<usize> = Vec::new();
    stack.push(0);
    let mut g = Gen { containers, diverted, stack, knot_c: 0, entries: Vec::new() };
    proof {
        reveal(ready);
        reveal(Gen::sound);
    }
    let ghost mut at: Seq<int> = seq![];
    let mut p: usize = 0;
    while p < n
        invariant
            p <= n == nodes@.len() < usize::MAX,
            ready(nodes@, index@, total, ns),
            total == container_of(nodes@, n as int),
            ns == s@.len(),
            g.sound(ns, total, p as int),
            g.containers@.len() == container_of(nodes@, p as int),
            forall|q: int| 0 <= q < p && is_header(#[trigger] nodes@[q].kind) ==>
                g.containers@[container_of(nodes@, q)].name == Name::Span(nodes@[q].start, nodes@[q].end),
            at.len() == p,
            lines_placed(g.entries@, nodes@, at, p as int),
            g.view() == gen_upto(nodes@, p as int),
        decreases n - p,
    {
        let ghost g0 = g;
        gen_node(&mut g, nodes, &index, p, Ghost(ns), Ghost(total));
        proof {
            lemma_after_node(nodes@, g0.containers@, g.containers@, g0.entries@, g.entries@, at, p as int);
            at = at.push(g0.entries@.len() as int);
        }
        p = p + 1;
    }
    let ghost g1 = g;
    close_to(&mut g, 0, Ghost(ns), Ghost(total), Ghost(n as int));
    proof {
        reveal(Gen::sound);
        lemma_lines_grow(g1.entries@, g.entries@, nodes@, at, n as int);
        assert(lines_placed(g.entries@, nodes@, at, n as int));
    }
    (g.containers, g.entries)
}

} // verus!
