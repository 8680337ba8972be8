//! The output document as JSON text: `{"inkVersion":V,"root":C}`, where a
//! container is an array of its entries, followed, when it has children, by an
//! object that maps their names to their own arrays.
use vstd::prelude::*;
use crate::story::{Container, Entry, Name, Placed, Story, arena_wf, placed_ok};

verus! {

pub open spec fn digit(d: int) -> char {
    if d == 0 { '0' } else if d == 1 { '1' } else if d == 2 { '2' } else if d == 3 { '3' }
    else if d == 4 { '4' } else if d == 5 { '5' } else if d == 6 { '6' } else if d == 7 { '7' }
    else if d == 8 { '8' } else if d == 9 { '9' } else if d == 10 { 'a' } else if d == 11 { 'b' }
    else if d == 12 { 'c' } else if d == 13 { 'd' } else if d == 14 { 'e' } else { 'f' }
}

/// The decimal digits of `n`.
pub open spec fn decimal(n: nat) -> Seq<char>
    decreases n,
{
    if n < 10 {
        seq![digit(n as int)]
    } else {
        decimal(n / 10) + seq![digit((n % 10) as int)]
    }
}

/// A character as it stands inside a JSON string.
pub open spec fn escape(c: char) -> Seq<char> {
    if c == '"' {
        seq!['\\', '"']
    } else if c == '\\' {
        seq!['\\', '\\']
    } else if c == '\n' {
        seq!['\\', 'n']
    } else if c == '\r' {
        seq!['\\', 'r']
    } else if c == '\t' {
        seq!['\\', 't']
    } else if c == '\u{8}' {
        seq!['\\', 'b']
    } else if c == '\u{c}' {
        seq!['\\', 'f']
    } else if (c as u32) < 0x20 {
        seq!['\\', 'u', '0', '0', digit((c as u32 / 16) as int), digit((c as u32 % 16) as int)]
    } else {
        seq![c]
    }
}

/// The characters of `s`, each escaped.
pub open spec fn escaped(s: Seq<char>) -> Seq<char>
    decreases s.len(),
{
    if s.len() == 0 {
        seq![]
    } else {
        escaped(s.drop_last()) + escape(s.last())
    }
}

pub open spec fn quoted(s: Seq<char>) -> Seq<char> {
    seq!['"'] + escaped(s) + seq!['"']
}

/// The name of a container, as it stands in a path.
pub open spec fn name_text(nm: Name, src: Seq<char>) -> Seq<char> {
    match nm {
        Name::Root => seq![],
        Name::Span(a, b) => src.subrange(a as int, b as int),
        Name::Choice(k) => seq!['c', '-'] + decimal(k as nat),
    }
}

/// The dotted path from the root to container `i`.
pub open spec fn path(cs: Seq<Container>, src: Seq<char>, i: int) -> Seq<char>
    decreases i,
{
    if i <= 0 || i >= cs.len() || cs[i].parent >= i {
        seq![]
    } else if cs[i].parent == 0 {
        name_text(cs[i].name, src)
    } else {
        path(cs, src, cs[i].parent as int) + seq!['.'] + name_text(cs[i].name, src)
    }
}

/// An entry as JSON.
pub open spec fn entry_json(e: Entry, cs: Seq<Container>, src: Seq<char>) -> Seq<char> {
    match e {
        Entry::BeginEvaluation => quoted(seq!['e', 'v']),
        Entry::EndEvaluation => quoted(seq!['/', 'e', 'v']),
        Entry::BeginString => quoted(seq!['s', 't', 'r']),
        Entry::EndString => quoted(seq!['/', 's', 't', 'r']),
        Entry::PushString(a, b) => quoted(seq!['^'] + src.subrange(a as int, b as int)),
        Entry::Newline => quoted(seq!['\n']),
        Entry::End => quoted(seq!['d', 'o', 'n', 'e']),
        Entry::Tag(a, b) => seq!['{'] + quoted(seq!['#']) + seq![':'] + quoted(src.subrange(a as int, b as int)) + seq!['}'],
        Entry::Divert(c) => seq!['{'] + quoted(seq!['-', '>']) + seq![':'] + quoted(path(cs, src, c as int)) + seq!['}'],
    }
}

fn digit_exec(d: usize) -> (r: char)
    requires
        d < 16,
    ensures
        r == digit(d as int),
{
    if d == 0 { '0' } else if d == 1 { '1' } else if d == 2 { '2' } else if d == 3 { '3' }
    else if d == 4 { '4' } else if d == 5 { '5' } else if d == 6 { '6' } else if d == 7 { '7' }
    else if d == 8 { '8' } else if d == 9 { '9' } else if d == 10 { 'a' } else if d == 11 { 'b' }
    else if d == 12 { 'c' } else if d == 13 { 'd' } else if d == 14 { 'e' } else { 'f' }
}

fn push_decimal(out: &mut Vec<char>, n: usize)
    ensures
        final(out)@ == old(out)@ + decimal(n as nat),
    decreases n,
{
    if n >= 10 {
        push_decimal(out, n / 10);
    }
    out.push(digit_exec(n % 10));
    proof {
        if n >= 10 {
            assert(final(out)@ =~= old(out)@ + decimal(n as nat));
        } else {
            assert(final(out)@ =~= old(out)@ + decimal(n as nat));
        }
    }
}

fn push_seq(out: &mut Vec<char>, s: &[char])
    ensures
        final(out)@ == old(out)@ + s@,
{
    let mut i: usize = 0;
    while i < s.len()
        invariant
            i <= s@.len(),
            out@ == old(out)@ + s@.subrange(0, i as int),
        decreases s@.len() - i,
    {
        out.push(s[i]);
        i = i + 1;
        assert(out@ =~= old(out)@ + s@.subrange(0, i as int));
    }
    assert(s@.subrange(0, s@.len() as int) =~= s@);
}

fn push_escaped_char(out: &mut Vec<char>, c: char)
    ensures
        final(out)@ == old(out)@ + escape(c),
{
    if c == '"' {
        push_seq(out, &['\\', '"']);
    } else if c == '\\' {
        push_seq(out, &['\\', '\\']);
    } else if c == '\n' {
        push_seq(out, &['\\', 'n']);
    } else if c == '\r' {
        push_seq(out, &['\\', 'r']);
    } else if c == '\t' {
        push_seq(out, &['\\', 't']);
    } else if c == '\u{8}' {
        push_seq(out, &['\\', 'b']);
    } else if c == '\u{c}' {
        push_seq(out, &['\\', 'f']);
    } else if (c as u32) < 0x20 {
        let code = c as u32;
        push_seq(out, &['\\', 'u', '0', '0', digit_exec((code / 16) as usize), digit_exec((code % 16) as usize)]);
    } else {
        out.push(c);
    }
    assert(final(out)@ =~= old(out)@ + escape(c));
}

/// The characters of a literal.
fn lit(s: &str) -> (r: Vec<char>)
    ensures
        r@ == s@,
{
    chars_of(s)
}

/// The characters of `s`.
pub fn chars_of(s: &str) -> (r: Vec<char>)
    ensures
        r@ == s@,
{
    let n = s.unicode_len();
    let mut v: Vec<char> = Vec::new();
    let mut i: usize = 0;
    while i < n
        invariant
            n == s@.len(),
            i <= n,
            v@ == s@.subrange(0, i as int),
        decreases n - i,
    {
        v.push(s.get_char(i));
        i = i + 1;
        assert(v@ =~= s@.subrange(0, i as int));
    }
    assert(s@.subrange(0, n as int) =~= s@);
    v
}

/// Appends the span `a..b` of `src`, escaped and in quotes, after `prefix`.
fn push_quoted(out: &mut Vec<char>, prefix: &Vec<char>, src: &Vec<char>, a: usize, b: usize)
    requires
        a <= b <= src@.len(),
    ensures
        final(out)@ == old(out)@ + quoted(prefix@ + src@.subrange(a as int, b as int)),
{
    let ghost text = prefix@ + src@.subrange(a as int, b as int);
    out.push('"');
    let ghost base = out@;
    let mut i: usize = 0;
    while i < prefix.len()
        invariant
            i <= prefix@.len(),
            out@ == base + escaped(prefix@.subrange(0, i as int)),
        decreases prefix@.len() - i,
    {
        push_escaped_char(out, prefix[i]);
        proof {
            let s = prefix@.subrange(0, i + 1);
            assert(s.drop_last() =~= prefix@.subrange(0, i as int));
        }
        i = i + 1;
    }
    assert(prefix@.subrange(0, prefix@.len() as int) =~= prefix@);
    assert(text.subrange(0, i as int) =~= prefix@);
    let mut j: usize = a;
    while j < b
        invariant
            a <= j <= b <= src@.len(),
            i == prefix@.len(),
            text == prefix@ + src@.subrange(a as int, b as int),
            out@ == base + escaped(text.subrange(0, i + j - a)),
        decreases b - j,
    {
        push_escaped_char(out, src[j]);
        proof {
            let s = text.subrange(0, i + j + 1 - a);
            assert(s.drop_last() =~= text.subrange(0, i + j - a));
            assert(s.last() == src@[j as int]);
        }
        j = j + 1;
    }
    assert(text.subrange(0, i + b - a) =~= text);
    out.push('"');
    assert(final(out)@ =~= old(out)@ + quoted(text));
}

/// The JSON of the entries of container `i` from index `k` of `es` on; a comma
/// precedes each but the first of the whole list.
pub open spec fn entries_json(es: Seq<Placed>, cs: Seq<Container>, src: Seq<char>, i: int, k: int, first: bool) -> Seq<char>
    decreases es.len() - k,
{
    if k < 0 || k >= es.len() {
        seq![]
    } else if es[k].container == i {
        (if first { seq![] } else { seq![','] }) + entry_json(es[k].entry, cs, src)
            + entries_json(es, cs, src, i, k + 1, false)
    } else {
        entries_json(es, cs, src, i, k + 1, first)
    }
}

/// Container `i` as JSON.
pub open spec fn container_json(es: Seq<Placed>, cs: Seq<Container>, src: Seq<char>, i: int) -> Seq<char>
    decreases cs.len() - i, cs.len() - i + 1,
{
    if i < 0 || i >= cs.len() {
        seq![]
    } else {
        let e = entries_json(es, cs, src, i, 0, true);
        let c = children_json(es, cs, src, i, i + 1, true);
        let obj = if c.len() == 0 {
            seq![]
        } else {
            (if e.len() == 0 { seq![] } else { seq![','] }) + seq!['{'] + c + seq!['}']
        };
        seq!['['] + e + obj + seq![']']
    }
}

/// The members `"name":[...]` of the children of container `i` from index `j` on.
pub open spec fn children_json(es: Seq<Placed>, cs: Seq<Container>, src: Seq<char>, i: int, j: int, first: bool) -> Seq<char>
    decreases cs.len() - i, cs.len() - j,
{
    if i < 0 || j <= i || j >= cs.len() {
        seq![]
    } else if cs[j].parent == i {
        (if first { seq![] } else { seq![','] }) + quoted(name_text(cs[j].name, src)) + seq![':']
            + container_json(es, cs, src, j) + children_json(es, cs, src, i, j + 1, false)
    } else {
        children_json(es, cs, src, i, j + 1, first)
    }
}

/// The whole document as JSON.
pub open spec fn story_json(version: nat, es: Seq<Placed>, cs: Seq<Container>, src: Seq<char>) -> Seq<char> {
    seq!['{'] + quoted(seq!['i', 'n', 'k', 'V', 'e', 'r', 's', 'i', 'o', 'n']) + seq![':'] + decimal(version)
        + seq![','] + quoted(seq!['r', 'o', 'o', 't']) + seq![':'] + container_json(es, cs, src, 0) + seq!['}']
}

pub open spec fn names_ok(cs: Seq<Container>, n: int) -> bool {
    forall|i: int| 0 <= i < cs.len() ==> crate::story::name_ok(#[trigger] cs[i].name, n)
}

fn push_name(out: &mut Vec<char>, nm: Name, src: &Vec<char>)
    requires
        crate::story::name_ok(nm, src@.len() as int),
    ensures
        final(out)@ == old(out)@ + name_text(nm, src@),
{
    match nm {
        Name::Root => {
            assert(final(out)@ =~= old(out)@ + name_text(nm, src@));
        },
        Name::Span(a, b) => {
            let mut j: usize = a;
            while j < b
                invariant
                    a <= j <= b <= src@.len(),
                    out@ == old(out)@ + src@.subrange(a as int, j as int),
                decreases b - j,
            {
                out.push(src[j]);
                j = j + 1;
                assert(out@ =~= old(out)@ + src@.subrange(a as int, j as int));
            }
        },
        Name::Choice(k) => {
            out.push('c');
            out.push('-');
            push_decimal(out, k);
            assert(final(out)@ =~= old(out)@ + name_text(nm, src@));
        },
    }
}

/// Appends the dotted path of container `i`.
fn push_path(out: &mut Vec<char>, cs: &Vec<Container>, src: &Vec<char>, i: usize)
    requires
        arena_wf(cs@),
        names_ok(cs@, src@.len() as int),
        i < cs@.len(),
    ensures
        final(out)@ == old(out)@ + path(cs@, src@, i as int),
    decreases i,
{
    if i == 0 {
        assert(final(out)@ =~= old(out)@ + path(cs@, src@, i as int));
        return;
    }
    let parent = cs[i].parent;
    if parent != 0 {
        push_path(out, cs, src, parent);
        out.push('.');
    }
    push_name(out, cs[i].name, src);
    assert(final(out)@ =~= old(out)@ + path(cs@, src@, i as int));
}

/// Appends the path of container `i`, escaped and in quotes.
fn push_quoted_path(out: &mut Vec<char>, cs: &Vec<Container>, src: &Vec<char>, i: usize)
    requires
        arena_wf(cs@),
        names_ok(cs@, src@.len() as int),
        i < cs@.len(),
    ensures
        final(out)@ == old(out)@ + quoted(path(cs@, src@, i as int)),
{
    let mut p: Vec<char> = Vec::new();
    push_path(&mut p, cs, src, i);
    proof {
        reveal_strlit("");
        assert(""@ =~= Seq::<char>::empty());
    }
    assert(p@ =~= path(cs@, src@, i as int));
    let n = p.len();
    push_quoted(out, &lit(""), &p, 0, n);
    assert(Seq::<char>::empty() + p@.subrange(0, n as int) =~= p@);
}

fn push_entry(out: &mut Vec<char>, e: Entry, cs: &Vec<Container>, src: &Vec<char>)
    requires
        arena_wf(cs@),
        names_ok(cs@, src@.len() as int),
        crate::story::entry_ok(e, src@.len() as int, cs@.len() as int),
    ensures
        final(out)@ == old(out)@ + entry_json(e, cs@, src@),
{
    let ghost o = out@;
    let ghost empty = Seq::<char>::empty();
    proof {
        reveal_strlit("ev");
        reveal_strlit("/ev");
        reveal_strlit("str");
        reveal_strlit("/str");
        reveal_strlit("^");
        reveal_strlit("\n");
        reveal_strlit("done");
        reveal_strlit("#");
        reveal_strlit("->");
        reveal_strlit("");
        assert("ev"@ =~= seq!['e', 'v']);
        assert("/ev"@ =~= seq!['/', 'e', 'v']);
        assert("str"@ =~= seq!['s', 't', 'r']);
        assert("/str"@ =~= seq!['/', 's', 't', 'r']);
        assert("^"@ =~= seq!['^']);
        assert("\n"@ =~= seq!['\n']);
        assert("done"@ =~= seq!['d', 'o', 'n', 'e']);
        assert("#"@ =~= seq!['#']);
        assert("->"@ =~= seq!['-', '>']);
        assert(""@ =~= empty);
        assert(src@.subrange(0, 0) =~= empty);
        assert(seq!['e', 'v'] + empty =~= seq!['e', 'v']);
        assert(seq!['/', 'e', 'v'] + empty =~= seq!['/', 'e', 'v']);
        assert(seq!['s', 't', 'r'] + empty =~= seq!['s', 't', 'r']);
        assert(seq!['/', 's', 't', 'r'] + empty =~= seq!['/', 's', 't', 'r']);
        assert(seq!['\n'] + empty =~= seq!['\n']);
        assert(seq!['d', 'o', 'n', 'e'] + empty =~= seq!['d', 'o', 'n', 'e']);
        assert(seq!['#'] + empty =~= seq!['#']);
        assert(seq!['-', '>'] + empty =~= seq!['-', '>']);
    }
    match e {
        Entry::BeginEvaluation => push_quoted(out, &lit("ev"), src, 0, 0),
        Entry::EndEvaluation => push_quoted(out, &lit("/ev"), src, 0, 0),
        Entry::BeginString => push_quoted(out, &lit("str"), src, 0, 0),
        Entry::EndString => push_quoted(out, &lit("/str"), src, 0, 0),
        Entry::PushString(a, b) => push_quoted(out, &lit("^"), src, a, b),
        Entry::Newline => push_quoted(out, &lit("\n"), src, 0, 0),
        Entry::End => push_quoted(out, &lit("done"), src, 0, 0),
        Entry::Tag(a, b) => {
            out.push('{');
            let ghost o1 = out@;
            push_quoted(out, &lit("#"), src, 0, 0);
            let ghost o2 = out@;
            out.push(':');
            let ghost o3 = out@;
            push_quoted(out, &lit(""), src, a, b);
            let ghost o4 = out@;
            out.push('}');
            proof {
                assert(empty + src@.subrange(a as int, b as int) =~= src@.subrange(a as int, b as int));
                assert(o1 =~= o + seq!['{']);
                assert(o2 =~= o1 + quoted(seq!['#']));
                assert(o4 =~= o3 + quoted(src@.subrange(a as int, b as int)));
                assert(out@ =~= o + entry_json(e, cs@, src@));
            }
        },
        Entry::Divert(c) => {
            out.push('{');
            let ghost o1 = out@;
            push_quoted(out, &lit("->"), src, 0, 0);
            let ghost o2 = out@;
            out.push(':');
            push_quoted_path(out, cs, src, c);
            out.push('}');
            proof {
                assert(o1 =~= o + seq!['{']);
                assert(o2 =~= o1 + quoted(seq!['-', '>']));
                assert(out@ =~= o + entry_json(e, cs@, src@));
            }
        },
    }
}

fn push_all(out: &mut Vec<char>, s: &Vec<char>)
    ensures
        final(out)@ == old(out)@ + s@,
{
    let mut i: usize = 0;
    while i < s.len()
        invariant
            i <= s@.len(),
            out@ == old(out)@ + s@.subrange(0, i as int),
        decreases s@.len() - i,
    {
        out.push(s[i]);
        i = i + 1;
        assert(out@ =~= old(out)@ + s@.subrange(0, i as int));
    }
    assert(s@.subrange(0, s@.len() as int) =~= s@);
}

/// Whether a story's parts can be written out: a tree of containers whose
/// names and entries refer to the source and to containers that exist.
pub open spec fn writable(es: Seq<Placed>, cs: Seq<Container>, src: Seq<char>) -> bool {
    arena_wf(cs) && placed_ok(es, cs, src.len() as int)
}

fn push_entries(out: &mut Vec<char>, es: &Vec<Placed>, cs: &Vec<Container>, src: &Vec<char>, i: usize)
    requires
        writable(es@, cs@, src@),
    ensures
        final(out)@ == old(out)@ + entries_json(es@, cs@, src@, i as int, 0, true),
{
    let mut k: usize = 0;
    let mut first = true;
    while k < es.len()
        invariant
            writable(es@, cs@, src@),
            k <= es@.len(),
            old(out)@ + entries_json(es@, cs@, src@, i as int, 0, true)
                == out@ + entries_json(es@, cs@, src@, i as int, k as int, first),
        decreases es@.len() - k,
    {
        let pl = es[k];
        if pl.container == i {
            let ghost o = out@;
            if !first {
                out.push(',');
            }
            assert(crate::story::entry_ok(es@[k as int].entry, src@.len() as int, cs@.len() as int));
            push_entry(out, pl.entry, cs, src);
            proof {
                let sep: Seq<char> = if first { seq![] } else { seq![','] };
                assert(out@ == o + sep + entry_json(pl.entry, cs@, src@));
                assert(o + (sep + entry_json(pl.entry, cs@, src@) + entries_json(es@, cs@, src@, i as int, k + 1, false))
                    =~= out@ + entries_json(es@, cs@, src@, i as int, k + 1, false));
            }
            first = false;
        }
        k = k + 1;
    }
    assert(out@ + Seq::<char>::empty() =~= out@);
}

fn push_container(out: &mut Vec<char>, es: &Vec<Placed>, cs: &Vec<Container>, src: &Vec<char>, i: usize)
    requires
        writable(es@, cs@, src@),
        i < cs@.len(),
    ensures
        final(out)@ == old(out)@ + container_json(es@, cs@, src@, i as int),
    decreases cs@.len() - i, cs@.len() - i + 1,
{
    let mut e: Vec<char> = Vec::new();
    push_entries(&mut e, es, cs, src, i);
    let mut c: Vec<char> = Vec::new();
    let count = cs.len();
    assert(i < count);
    push_children(&mut c, es, cs, src, i, i + 1);
    assert(e@ =~= entries_json(es@, cs@, src@, i as int, 0, true));
    assert(c@ =~= children_json(es@, cs@, src@, i as int, i + 1, true));
    let ghost o = out@;
    out.push('[');
    push_all(out, &e);
    if c.len() > 0 {
        if e.len() > 0 {
            out.push(',');
        }
        out.push('{');
        push_all(out, &c);
        out.push('}');
    }
    out.push(']');
    assert(out@ =~= o + container_json(es@, cs@, src@, i as int));
}

fn push_children(out: &mut Vec<char>, es: &Vec<Placed>, cs: &Vec<Container>, src: &Vec<char>, i: usize, j0: usize)
    requires
        writable(es@, cs@, src@),
        i < j0,
        i < cs@.len(),
    ensures
        final(out)@ == old(out)@ + children_json(es@, cs@, src@, i as int, j0 as int, true),
    decreases cs@.len() - i, cs@.len() - j0,
{
    let mut j: usize = j0;
    let mut first = true;
    while j < cs.len()
        invariant
            writable(es@, cs@, src@),
            i < j0 <= j,
            i < cs@.len(),
            old(out)@ + children_json(es@, cs@, src@, i as int, j0 as int, true)
                == out@ + children_json(es@, cs@, src@, i as int, j as int, first),
        decreases cs@.len() - j,
    {
        if cs[j].parent == i {
            let ghost o = out@;
            if !first {
                out.push(',');
            }
            let mut nm: Vec<char> = Vec::new();
            assert(crate::story::name_ok(cs@[j as int].name, src@.len() as int));
            push_name(&mut nm, cs[j].name, src);
            let n = nm.len();
            push_quoted(out, &lit(""), &nm, 0, n);
            proof {
                reveal_strlit("");
                assert(""@ =~= Seq::<char>::empty());
                assert(Seq::<char>::empty() + nm@.subrange(0, n as int) =~= nm@);
            }
            out.push(':');
            push_container(out, es, cs, src, j);
            proof {
                let sep: Seq<char> = if first { seq![] } else { seq![','] };
                let item = sep + quoted(name_text(cs@[j as int].name, src@)) + seq![':'] + container_json(es@, cs@, src@, j as int);
                assert(out@ =~= o + item);
                assert(o + (item + children_json(es@, cs@, src@, i as int, j + 1, false))
                    =~= out@ + children_json(es@, cs@, src@, i as int, j + 1, false));
            }
            first = false;
        }
        j = j + 1;
    }
    assert(out@ + Seq::<char>::empty() =~= out@);
}

/// Relies on `String::from_iter` over `char`s: the string holds the
/// characters in order.
#[verifier::external_body]
fn string_of(v: Vec<char>) -> (r: String)
    ensures
        r@ == v@,
{
    String::from_iter(v)
}

impl Story {
    /// The document as JSON characters.
    pub fn json_chars(&self) -> (r: Vec<char>)
        requires
            self.wf(),
        ensures
            r@ == story_json(self.version() as nat, self.entries(), self.containers(), self.source()),
    {
        let mut out: Vec<char> = Vec::new();
        out.push('{');
        push_quoted(&mut out, &lit("inkVersion"), &lit(""), 0, 0);
        out.push(':');
        push_decimal(&mut out, self.ink_version() as usize);
        out.push(',');
        push_quoted(&mut out, &lit("root"), &lit(""), 0, 0);
        out.push(':');
        push_container(&mut out, self.entries_vec(), self.containers_vec(), self.source_chars(), 0);
        out.push('}');
        proof {
            reveal_strlit("inkVersion");
            reveal_strlit("root");
            reveal_strlit("");
            let empty = Seq::<char>::empty();
            assert(""@.subrange(0, 0) =~= empty);
            assert("inkVersion"@ + empty =~= seq!['i', 'n', 'k', 'V', 'e', 'r', 's', 'i', 'o', 'n']);
            assert("root"@ + empty =~= seq!['r', 'o', 'o', 't']);
            assert(out@ =~= story_json(self.version() as nat, self.entries(), self.containers(), self.source()));
        }
        out
    }

    /// One entry as JSON text, with its spans read from this document's source
    /// and its jumps from this document's containers.
    pub fn entry_to_json(&self, e: Entry) -> (r: String)
        requires
            self.wf(),
            crate::story::entry_ok(e, self.source().len() as int, self.containers().len() as int),
        ensures
            r@ == entry_json(e, self.containers(), self.source()),
    {
        let mut out: Vec<char> = Vec::new();
        push_entry(&mut out, e, self.containers_vec(), self.source_chars());
        assert(out@ =~= entry_json(e, self.containers(), self.source()));
        string_of(out)
    }

    /// The document as JSON text.
    pub fn to_json(&self) -> (r: String)
        requires
            self.wf(),
        ensures
            r@ == story_json(self.version() as nat, self.entries(), self.containers(), self.source()),
    {
        string_of(self.json_chars())
    }
}

/// The string an entry carries: the instruction's word for the fixed ones,
/// `^` and the text for output, the text of a tag, the path of a jump.
pub open spec fn entry_value(e: Entry, cs: Seq<Container>, src: Seq<char>) -> Seq<char> {
    match e {
        Entry::BeginEvaluation => seq!['e', 'v'],
        Entry::EndEvaluation => seq!['/', 'e', 'v'],
        Entry::BeginString => seq!['s', 't', 'r'],
        Entry::EndString => seq!['/', 's', 't', 'r'],
        Entry::PushString(a, b) => seq!['^'] + src.subrange(a as int, b as int),
        Entry::Newline => seq!['\n'],
        Entry::End => seq!['d', 'o', 'n', 'e'],
        Entry::Tag(a, b) => src.subrange(a as int, b as int),
        Entry::Divert(c) => path(cs, src, c as int),
    }
}

impl Story {
    /// The string that entry `e` carries, unescaped.
    pub fn entry_value(&self, e: Entry) -> (r: String)
        requires
            self.wf(),
            crate::story::entry_ok(e, self.source().len() as int, self.containers().len() as int),
        ensures
            r@ == entry_value(e, self.containers(), self.source()),
    {
        let src = self.source_chars();
        let mut out: Vec<char> = Vec::new();
        proof {
            reveal_strlit("ev");
            reveal_strlit("/ev");
            reveal_strlit("str");
            reveal_strlit("/str");
            reveal_strlit("\n");
            reveal_strlit("done");
            assert("ev"@ =~= seq!['e', 'v']);
            assert("/ev"@ =~= seq!['/', 'e', 'v']);
            assert("str"@ =~= seq!['s', 't', 'r']);
            assert("/str"@ =~= seq!['/', 's', 't', 'r']);
            assert("\n"@ =~= seq!['\n']);
            assert("done"@ =~= seq!['d', 'o', 'n', 'e']);
        }
        match e {
            Entry::BeginEvaluation => push_all(&mut out, &lit("ev")),
            Entry::EndEvaluation => push_all(&mut out, &lit("/ev")),
            Entry::BeginString => push_all(&mut out, &lit("str")),
            Entry::EndString => push_all(&mut out, &lit("/str")),
            Entry::PushString(a, b) => {
                out.push('^');
                push_name(&mut out, Name::Span(a, b), src);
            },
            Entry::Newline => push_all(&mut out, &lit("\n")),
            Entry::End => push_all(&mut out, &lit("done")),
            Entry::Tag(a, b) => push_name(&mut out, Name::Span(a, b), src),
            Entry::Divert(c) => push_path(&mut out, self.containers_vec(), src, c),
        }
        assert(out@ =~= entry_value(e, self.containers(), self.source()));
        string_of(out)
    }

    /// The name of container `i` within its parent.
    pub fn name_string(&self, i: usize) -> (r: String)
        requires
            self.wf(),
            i < self.containers().len(),
        ensures
            r@ == name_text(self.containers()[i as int].name, self.source()),
    {
        let mut out: Vec<char> = Vec::new();
        push_name(&mut out, self.containers_vec()[i].name, self.source_chars());
        assert(out@ =~= name_text(self.containers()[i as int].name, self.source()));
        string_of(out)
    }
}

} // verus!
