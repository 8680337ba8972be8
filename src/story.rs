//! The compiled document: an arena of containers, the entries placed in them,
//! and the source text whose spans the entries carry.
use vstd::prelude::*;

verus! {

/// One instruction of the stack machine. Text is held as a span of the source.
#[derive(Clone, Copy, Debug, PartialEq, Eq, Structural)]
pub enum Entry {
    BeginEvaluation,
    EndEvaluation,
    BeginString,
    EndString,
    /// Text to output: the source characters `start..end`.
    PushString(usize, usize),
    Newline,
    End,
    /// Out-of-band metadata: the source characters `start..end`.
    Tag(usize, usize),
    /// A jump to the container at this index of the arena.
    Divert(usize),
}

/// How a container is addressed within its parent.
#[derive(Clone, Copy, Debug, PartialEq, Eq, Structural)]
pub enum Name {
    /// The root, which has no name.
    Root,
    /// A knot or stitch, named by the source characters `start..end`.
    Span(usize, usize),
    /// The choice with this ordinal among its parent's choices.
    Choice(usize),
}

/// A node of the container tree. Its parent comes before it in the arena.
#[derive(Clone, Copy, Debug, PartialEq, Eq, Structural)]
pub struct Container {
    pub name: Name,
    pub parent: usize,
    pub choices: usize,
}

/// An entry and the index of the container it belongs to.
#[derive(Clone, Copy, Debug, PartialEq, Eq, Structural)]
pub struct Placed {
    pub container: usize,
    pub entry: Entry,
}

/// The arena is a tree rooted at index 0: every other container's parent
/// comes before it.
pub open spec fn arena_wf(cs: Seq<Container>) -> bool {
    &&& cs.len() >= 1
    &&& cs[0].parent == 0
    &&& cs[0].name == Name::Root
    &&& forall|i: int| 0 < i < cs.len() ==> #[trigger] cs[i].parent < i
    &&& forall|i: int| 0 < i < cs.len() ==> !(#[trigger] cs[i].name is Root)
}

/// The spans an entry carries lie within a source of length `n`, and the
/// container it jumps to exists.
pub open spec fn entry_ok(e: Entry, n: int, count: int) -> bool {
    match e {
        Entry::PushString(a, b) => a <= b <= n,
        Entry::Tag(a, b) => a <= b <= n,
        Entry::Divert(c) => c < count,
        _ => true,
    }
}

pub open spec fn name_ok(nm: Name, n: int) -> bool {
    match nm {
        Name::Span(a, b) => a <= b <= n,
        _ => true,
    }
}

/// Every entry sits in an existing container and carries sound spans and jumps.
pub open spec fn placed_ok(es: Seq<Placed>, cs: Seq<Container>, n: int) -> bool {
    &&& forall|k: int| 0 <= k < es.len() ==> #[trigger] es[k].container < cs.len()
    &&& forall|k: int| 0 <= k < es.len() ==> entry_ok(#[trigger] es[k].entry, n, cs.len() as int)
    &&& forall|i: int| 0 <= i < cs.len() ==> name_ok(#[trigger] cs[i].name, n)
}

/// Container `i` reaches the root by following parents, in at most `i` steps.
pub open spec fn reaches_root(cs: Seq<Container>, i: int) -> bool
    decreases i,
{
    if i <= 0 {
        i == 0
    } else if 0 < i < cs.len() && cs[i].parent < i {
        reaches_root(cs, cs[i].parent as int)
    } else {
        false
    }
}

/// In a well-formed arena, every container is reachable from the root.
pub proof fn lemma_reaches_root(cs: Seq<Container>, i: int)
    requires
        arena_wf(cs),
        0 <= i < cs.len(),
    ensures
        reaches_root(cs, i),
    decreases i,
{
    if i > 0 {
        lemma_reaches_root(cs, cs[i].parent as int);
    }
}

/// Every jump in a well-formed document lands on an existing container, and
/// that container is reachable from the root.
pub proof fn lemma_diverts_reachable(st: &Story, k: int)
    requires
        st.wf(),
        0 <= k < st.entries().len(),
    ensures
        match st.entries()[k].entry {
            Entry::Divert(c) => c < st.containers().len() && reaches_root(st.containers(), c as int),
            _ => true,
        },
{
    if let Entry::Divert(c) = st.entries()[k].entry {
        assert(entry_ok(st.entries()[k].entry, st.source().len() as int, st.containers().len() as int));
        lemma_reaches_root(st.containers(), c as int);
    }
}

/// The compiled document: a format version, the source text, the container
/// arena, and the entries in the order they were generated.
pub struct Story {
    ink_version: u32,
    source: Vec<char>,
    containers: Vec<Container>,
    entries: Vec<Placed>,
}

impl Story {
    pub closed spec fn version(&self) -> u32 {
        self.ink_version
    }

    pub closed spec fn source(&self) -> Seq<char> {
        self.source@
    }

    pub closed spec fn containers(&self) -> Seq<Container> {
        self.containers@
    }

    pub closed spec fn entries(&self) -> Seq<Placed> {
        self.entries@
    }

    /// The container tree is rooted at index 0, and every entry sits in an
    /// existing container and refers only to the source and to containers.
    pub open spec fn wf(&self) -> bool {
        &&& arena_wf(self.containers())
        &&& placed_ok(self.entries(), self.containers(), self.source().len() as int)
    }

    pub fn assemble(ink_version: u32, source: Vec<char>, containers: Vec<Container>, entries: Vec<Placed>) -> (r: Story)
        requires
            arena_wf(containers@),
            placed_ok(entries@, containers@, source@.len() as int),
        ensures
            r.wf(),
            r.version() == ink_version,
            r.source() == source@,
            r.containers() == containers@,
            r.entries() == entries@,
    {
        Story { ink_version, source, containers, entries }
    }

    /// A document whose root container is empty.
    pub fn empty(ink_version: u32) -> (r: Story)
        ensures
            r.wf(),
            r.version() == ink_version,
            r.source().len() == 0,
            r.containers() == seq![Container { name: Name::Root, parent: 0, choices: 0 }],
            r.entries().len() == 0,
    {
        let mut containers: Vec<Container> = Vec::new();
        containers.push(Container { name: Name::Root, parent: 0, choices: 0 });
        let r = Story { ink_version, source: Vec::new(), containers, entries: Vec::new() };
        assert(r.containers() =~= seq![Container { name: Name::Root, parent: 0, choices: 0 }]);
        r
    }

    pub fn ink_version(&self) -> (r: u32)
        ensures
            r == self.version(),
    {
        self.ink_version
    }

    pub fn source_chars(&self) -> (r: &Vec<char>)
        ensures
            r@ == self.source(),
    {
        &self.source
    }

    pub fn containers_vec(&self) -> (r: &Vec<Container>)
        ensures
            r@ == self.containers(),
    {
        &self.containers
    }

    pub fn entries_vec(&self) -> (r: &Vec<Placed>)
        ensures
            r@ == self.entries(),
    {
        &self.entries
    }
}

} // verus!
