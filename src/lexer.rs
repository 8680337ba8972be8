//! Line-oriented lexical analysis over the characters of a source text.
use vstd::prelude::*;

verus! {

/// What a token is; its text is the span `start..end` of the source.
#[derive(Clone, Copy, Debug, PartialEq, Eq, Structural)]
pub enum TokenKind {
    /// `// text` or `/* text */`.
    Comment,
    /// `== name ==`: a knot declaration.
    Knot,
    /// `= name`: a stitch declaration.
    Stitch,
    /// `* text`, with the number of leading markers.
    Choice(usize),
    /// `-> target`, where the target is `name` or `knot.stitch`.
    Divert,
    /// `# text`.
    Tag,
    /// `<> text`.
    Glue,
    /// `[text]`.
    Suppression,
    /// Any other non-blank line.
    Text,
}

/// One token: its kind and the span of source characters that it carries.
#[derive(Clone, Copy, Debug, PartialEq, Eq, Structural)]
pub struct Token {
    pub kind: TokenKind,
    pub start: usize,
    pub end: usize,
}

/// A lexical error, with the character offset of the offending construct.
#[derive(Clone, Copy, Debug, PartialEq, Eq, Structural)]
pub enum LexError {
    UnterminatedComment(usize),
    UnterminatedSuppression(usize),
    InvalidIdentifier(usize),
}

pub open spec fn is_blank(c: char) -> bool {
    c == ' ' || c == '\t'
}

pub open spec fn is_ident_start(c: char) -> bool {
    ('a' <= c && c <= 'z') || ('A' <= c && c <= 'Z') || c == '_'
}

pub open spec fn is_ident_char(c: char) -> bool {
    is_ident_start(c) || ('0' <= c && c <= '9')
}

/// The first position from `i` on, before `end`, that holds no blank.
pub open spec fn skip_blank(s: Seq<char>, i: int, end: int) -> int
    decreases end - i,
{
    if 0 <= i < end && i < s.len() && is_blank(s[i]) {
        skip_blank(s, i + 1, end)
    } else {
        i
    }
}

/// The first position from `i` on, before `end`, that does not hold `c`.
pub open spec fn run_end(s: Seq<char>, i: int, end: int, c: char) -> int
    decreases end - i,
{
    if 0 <= i < end && i < s.len() && s[i] == c {
        run_end(s, i + 1, end, c)
    } else {
        i
    }
}

/// The first position from `i` on, before `end`, that holds neither `=` nor a blank.
pub open spec fn skip_decoration(s: Seq<char>, i: int, end: int) -> int
    decreases end - i,
{
    if 0 <= i < end && i < s.len() && (s[i] == '=' || is_blank(s[i])) {
        skip_decoration(s, i + 1, end)
    } else {
        i
    }
}

/// The first position from `i` on, before `end`, that holds no identifier character.
pub open spec fn ident_end(s: Seq<char>, i: int, end: int) -> int
    decreases end - i,
{
    if 0 <= i < end && i < s.len() && is_ident_char(s[i]) {
        ident_end(s, i + 1, end)
    } else {
        i
    }
}

/// The position of the line feed that ends the line holding `i`, or the length of `s`.
pub open spec fn line_end(s: Seq<char>, i: int) -> int
    decreases s.len() - i,
{
    if 0 <= i < s.len() && s[i] != '\n' {
        line_end(s, i + 1)
    } else {
        i
    }
}

/// Where the content of a line ends, given the end `end` of the line before
/// its line feed: a carriage return just before that end belongs to the
/// terminator; everything else, blanks included, is content.
pub open spec fn trim_end(s: Seq<char>, start: int, end: int) -> int {
    if start < end && 0 < end <= s.len() && s[end - 1] == '\r' {
        end - 1
    } else {
        end
    }
}

/// The first position from `i` on, before `end`, that holds `c`, or `end`.
pub open spec fn find_char(s: Seq<char>, i: int, end: int, c: char) -> int
    decreases end - i,
{
    if 0 <= i < end && i < s.len() && s[i] != c {
        find_char(s, i + 1, end, c)
    } else {
        i
    }
}

/// The first position `j` from `i` on where `*/` starts, or the length of `s`.
pub open spec fn find_close(s: Seq<char>, i: int) -> int
    decreases s.len() - i,
{
    if 0 <= i && i + 1 < s.len() && !(s[i] == '*' && s[i + 1] == '/') {
        find_close(s, i + 1)
    } else if 0 <= i && i + 1 < s.len() {
        i
    } else {
        s.len() as int
    }
}

pub open spec fn starts_with2(s: Seq<char>, i: int, end: int, a: char, b: char) -> bool {
    0 <= i && i + 1 < end && end <= s.len() && s[i] == a && s[i + 1] == b
}

/// Where a divert target starting at `t` ends, when it is well formed: an
/// identifier, optionally followed by `.` and a second identifier.
pub open spec fn path_end(s: Seq<char>, t: int, end: int) -> int {
    let e1 = ident_end(s, t, end);
    if e1 < end && s[e1] == '.' {
        ident_end(s, e1 + 1, end)
    } else {
        e1
    }
}

/// A divert target starting at `t`: an identifier, optionally `.` and a
/// second identifier, and then nothing but blanks up to `end`.
pub open spec fn valid_path(s: Seq<char>, t: int, end: int) -> bool {
    let e1 = ident_end(s, t, end);
    &&& t < end && is_ident_start(s[t])
    &&& (e1 < end && s[e1] == '.' ==> e1 + 1 < end && is_ident_start(s[e1 + 1]))
    &&& skip_blank(s, path_end(s, t, end), end) == end
}

pub open spec fn tok(kind: TokenKind, start: int, end: int) -> Option<Token> {
    Some(Token { kind, start: start as usize, end: end as usize })
}

/// The token that the line (or block comment) starting at `i` gives, and where
/// the next one starts.
pub open spec fn step(s: Seq<char>, i: int) -> Result<(Option<Token>, int), LexError> {
    let le = line_end(s, i);
    let next = if le < s.len() { le + 1 } else { le };
    let b = skip_blank(s, i, le);
    let ce = trim_end(s, b, le);
    if b >= ce {
        Ok((None, next))
    } else if starts_with2(s, b, ce, '/', '/') {
        Ok((tok(TokenKind::Comment, skip_blank(s, b + 2, ce), ce), next))
    } else if starts_with2(s, b, ce, '/', '*') {
        let j = find_close(s, b + 2);
        if j >= s.len() {
            Err(LexError::UnterminatedComment(b as usize))
        } else {
            Ok((tok(TokenKind::Comment, b + 2, j), j + 2))
        }
    } else if starts_with2(s, b, ce, '<', '>') {
        Ok((tok(TokenKind::Glue, skip_blank(s, b + 2, ce), ce), next))
    } else if starts_with2(s, b, ce, '-', '>') {
        let t = skip_blank(s, b + 2, ce);
        if valid_path(s, t, ce) {
            Ok((tok(TokenKind::Divert, t, path_end(s, t, ce)), next))
        } else {
            Err(LexError::InvalidIdentifier(b as usize))
        }
    } else if s[b] == '=' {
        let d = run_end(s, b, ce, '=');
        let ns = skip_blank(s, d, ce);
        let ne = ident_end(s, ns, ce);
        if ns < ce && is_ident_start(s[ns]) && skip_decoration(s, ne, ce) == ce {
            let kind = if d - b >= 2 { TokenKind::Knot } else { TokenKind::Stitch };
            Ok((tok(kind, ns, ne), next))
        } else {
            Err(LexError::InvalidIdentifier(b as usize))
        }
    } else if s[b] == '*' {
        let d = run_end(s, b, ce, '*');
        Ok((tok(TokenKind::Choice((d - b) as usize), skip_blank(s, d, ce), ce), next))
    } else if s[b] == '#' {
        Ok((tok(TokenKind::Tag, skip_blank(s, b + 1, ce), ce), next))
    } else if s[b] == '[' {
        let j = find_char(s, b + 1, ce, ']');
        if j >= ce {
            Err(LexError::UnterminatedSuppression(b as usize))
        } else {
            Ok((tok(TokenKind::Suppression, b + 1, j), next))
        }
    } else {
        Ok((tok(TokenKind::Text, b, ce), next))
    }
}

proof fn lemma_line_end(s: Seq<char>, i: int)
    requires
        0 <= i <= s.len(),
    ensures
        i <= line_end(s, i) <= s.len(),
        line_end(s, i) == s.len() || s[line_end(s, i)] == '\n',
        forall|k: int| i <= k < line_end(s, i) ==> s[k] != '\n',
    decreases s.len() - i,
{
    if i < s.len() && s[i] != '\n' {
        lemma_line_end(s, i + 1);
    }
}

proof fn lemma_skip_blank(s: Seq<char>, i: int, end: int)
    requires
        0 <= i <= end <= s.len(),
    ensures
        i <= skip_blank(s, i, end) <= end,
        skip_blank(s, i, end) < end ==> !is_blank(s[skip_blank(s, i, end)]),
        forall|k: int| i <= k < skip_blank(s, i, end) ==> is_blank(s[k]),
    decreases end - i,
{
    if i < end && is_blank(s[i]) {
        lemma_skip_blank(s, i + 1, end);
    }
}

/// A tag, glue, choice or text line gives a token whose text runs to the end
/// of the line, stopping only at its terminator (a line feed, or a carriage
/// return just before one or before the end of input): blanks at its end
/// stay. Its text holds no line feed, and starts with no blank.
pub proof fn lemma_rest_of_line(s: Seq<char>, i: int)
    requires
        0 <= i < s.len() <= usize::MAX,
        step(s, i) matches Ok((Some(t), _)) && (t.kind is Tag || t.kind is Glue || t.kind is Choice || t.kind is Text),
    ensures
        step(s, i) matches Ok((Some(t), _)) && {
            let le = line_end(s, i);
            &&& le == s.len() || s[le] == '\n'
            &&& (t.end == le || (t.end == le - 1 && s[t.end as int] == '\r'))
            &&& forall|k: int| t.start <= k < t.end ==> s[k] != '\n'
            &&& t.start < t.end ==> !is_blank(s[t.start as int])
        },
{
    let le = line_end(s, i);
    lemma_line_end(s, i);
    lemma_skip_blank(s, i, le);
    let b = skip_blank(s, i, le);
    let ce = trim_end(s, b, le);
    if b + 1 <= ce {
        lemma_skip_blank(s, b + 1, ce);
    }
    if b + 2 <= ce {
        lemma_skip_blank(s, b + 2, ce);
    }
    if s[b] == '*' {
        let d = run_end(s, b, ce, '*');
        lemma_run_end(s, b, ce, '*');
        lemma_skip_blank(s, d, ce);
    }
}

proof fn lemma_run_end(s: Seq<char>, i: int, end: int, c: char)
    requires
        0 <= i <= end <= s.len(),
    ensures
        i <= run_end(s, i, end, c) <= end,
    decreases end - i,
{
    if i < end && s[i] == c {
        lemma_run_end(s, i + 1, end, c);
    }
}

pub open spec fn opt_seq(t: Option<Token>) -> Seq<Token> {
    match t {
        Some(x) => seq![x],
        None => seq![],
    }
}

/// The tokens of `s` from position `i` on.
pub open spec fn lex_from(s: Seq<char>, i: int) -> Result<Seq<Token>, LexError>
    decreases s.len() - i,
{
    if i < 0 || i >= s.len() {
        Ok(seq![])
    } else {
        match step(s, i) {
            Err(e) => Err(e),
            Ok((t, n)) => if n <= i || n > s.len() {
                Ok(seq![])
            } else {
                match lex_from(s, n) {
                    Ok(rest) => Ok(opt_seq(t) + rest),
                    Err(e) => Err(e),
                }
            },
        }
    }
}

/// The tokens of a whole source text.
pub open spec fn lex_spec(s: Seq<char>) -> Result<Seq<Token>, LexError> {
    lex_from(s, 0)
}

pub open spec fn prepend(pre: Seq<Token>, r: Result<Seq<Token>, LexError>) -> Result<Seq<Token>, LexError> {
    match r {
        Ok(rest) => Ok(pre + rest),
        Err(e) => Err(e),
    }
}

fn blank(c: char) -> (r: bool)
    ensures
        r == is_blank(c),
{
    c == ' ' || c == '\t'
}

fn ident_start(c: char) -> (r: bool)
    ensures
        r == is_ident_start(c),
{
    ('a' <= c && c <= 'z') || ('A' <= c && c <= 'Z') || c == '_'
}

fn ident_char(c: char) -> (r: bool)
    ensures
        r == is_ident_char(c),
{
    ident_start(c) || ('0' <= c && c <= '9')
}

fn skip_blank_exec(s: &Vec<char>, i: usize, end: usize) -> (r: usize)
    requires
        i <= end <= s@.len(),
    ensures
        r as int == skip_blank(s@, i as int, end as int),
        i <= r <= end,
{
    let mut j = i;
    while j < end && blank(s[j])
        invariant
            i <= j <= end <= s@.len(),
            skip_blank(s@, i as int, end as int) == skip_blank(s@, j as int, end as int),
        decreases end - j,
    {
        j = j + 1;
    }
    j
}

fn run_end_exec(s: &Vec<char>, i: usize, end: usize, c: char) -> (r: usize)
    requires
        i <= end <= s@.len(),
    ensures
        r as int == run_end(s@, i as int, end as int, c),
        i <= r <= end,
{
    let mut j = i;
    while j < end && s[j] == c
        invariant
            i <= j <= end <= s@.len(),
            run_end(s@, i as int, end as int, c) == run_end(s@, j as int, end as int, c),
        decreases end - j,
    {
        j = j + 1;
    }
    j
}

fn skip_decoration_exec(s: &Vec<char>, i: usize, end: usize) -> (r: usize)
    requires
        i <= end <= s@.len(),
    ensures
        r as int == skip_decoration(s@, i as int, end as int),
        i <= r <= end,
{
    let mut j = i;
    while j < end && (s[j] == '=' || blank(s[j]))
        invariant
            i <= j <= end <= s@.len(),
            skip_decoration(s@, i as int, end as int) == skip_decoration(s@, j as int, end as int),
        decreases end - j,
    {
        j = j + 1;
    }
    j
}

fn ident_end_exec(s: &Vec<char>, i: usize, end: usize) -> (r: usize)
    requires
        i <= end <= s@.len(),
    ensures
        r as int == ident_end(s@, i as int, end as int),
        i <= r <= end,
{
    let mut j = i;
    while j < end && ident_char(s[j])
        invariant
            i <= j <= end <= s@.len(),
            ident_end(s@, i as int, end as int) == ident_end(s@, j as int, end as int),
        decreases end - j,
    {
        j = j + 1;
    }
    j
}

pub(crate) fn find_char_exec(s: &Vec<char>, i: usize, end: usize, c: char) -> (r: usize)
    requires
        i <= end <= s@.len(),
    ensures
        r as int == find_char(s@, i as int, end as int, c),
        i <= r <= end,
{
    let mut j = i;
    while j < end && s[j] != c
        invariant
            i <= j <= end <= s@.len(),
            find_char(s@, i as int, end as int, c) == find_char(s@, j as int, end as int, c),
        decreases end - j,
    {
        j = j + 1;
    }
    j
}

fn line_end_exec(s: &Vec<char>, i: usize) -> (r: usize)
    requires
        i <= s@.len(),
    ensures
        r as int == line_end(s@, i as int),
        i <= r <= s@.len(),
{
    let mut j = i;
    while j < s.len() && s[j] != '\n'
        invariant
            i <= j <= s@.len(),
            line_end(s@, i as int) == line_end(s@, j as int),
        decreases s@.len() - j,
    {
        j = j + 1;
    }
    j
}

fn trim_end_exec(s: &Vec<char>, start: usize, end: usize) -> (r: usize)
    requires
        start <= end <= s@.len(),
    ensures
        r as int == trim_end(s@, start as int, end as int),
        start <= r <= end,
{
    if start < end && s[end - 1] == '\r' {
        end - 1
    } else {
        end
    }
}

fn find_close_exec(s: &Vec<char>, i: usize) -> (r: usize)
    requires
        i <= s@.len() < usize::MAX,
    ensures
        r as int == find_close(s@, i as int),
        i <= r <= s@.len(),
        r < s@.len() ==> r + 1 < s@.len(),
{
    let mut j = i;
    while j + 1 < s.len() && !(s[j] == '*' && s[j + 1] == '/')
        invariant
            i <= j <= s@.len() < usize::MAX,
            find_close(s@, i as int) == find_close(s@, j as int),
        decreases s@.len() - j,
    {
        j = j + 1;
    }
    if j + 1 < s.len() {
        j
    } else {
        s.len()
    }
}

fn starts2(s: &Vec<char>, i: usize, end: usize, a: char, b: char) -> (r: bool)
    requires
        i <= end <= s@.len() < usize::MAX,
    ensures
        r == starts_with2(s@, i as int, end as int, a, b),
{
    i + 1 < end && s[i] == a && s[i + 1] == b
}

fn path_end_exec(s: &Vec<char>, t: usize, end: usize) -> (r: usize)
    requires
        t <= end <= s@.len(),
    ensures
        r as int == path_end(s@, t as int, end as int),
        t <= r <= end,
{
    let e1 = ident_end_exec(s, t, end);
    if e1 < end && s[e1] == '.' {
        ident_end_exec(s, e1 + 1, end)
    } else {
        e1
    }
}

fn valid_path_exec(s: &Vec<char>, t: usize, end: usize) -> (r: bool)
    requires
        t <= end <= s@.len(),
    ensures
        r == valid_path(s@, t as int, end as int),
{
    if t >= end || !ident_start(s[t]) {
        return false;
    }
    let e1 = ident_end_exec(s, t, end);
    if e1 < end && s[e1] == '.' && (e1 + 1 >= end || !ident_start(s[e1 + 1])) {
        return false;
    }
    let pe = path_end_exec(s, t, end);
    skip_blank_exec(s, pe, end) == end
}

fn make(kind: TokenKind, start: usize, end: usize) -> (r: Option<Token>)
    ensures
        r == tok(kind, start as int, end as int),
{
    Some(Token { kind, start, end })
}

/// Lexes the line (or block comment) that starts at `i`.
pub fn step_exec(s: &Vec<char>, i: usize) -> (r: Result<(Option<Token>, usize), LexError>)
    requires
        i < s@.len(),
        s@.len() < usize::MAX,
    ensures
        match r {
            Ok((t, n)) => step(s@, i as int) == Ok::<(Option<Token>, int), LexError>((t, n as int)),
            Err(e) => step(s@, i as int) == Err::<(Option<Token>, int), LexError>(e),
        },
        r matches Ok((_, n)) ==> i < n <= s@.len(),
        r matches Ok((Some(t), _)) ==> span_ok(s@, t),
{
    let le = line_end_exec(s, i);
    let next = if le < s.len() { le + 1 } else { le };
    let b = skip_blank_exec(s, i, le);
    let ce = trim_end_exec(s, b, le);
    if b >= ce {
        Ok((None, next))
    } else if starts2(s, b, ce, '/', '/') {
        let t = skip_blank_exec(s, b + 2, ce);
        Ok((make(TokenKind::Comment, t, ce), next))
    } else if starts2(s, b, ce, '/', '*') {
        let j = find_close_exec(s, b + 2);
        if j >= s.len() {
            Err(LexError::UnterminatedComment(b))
        } else {
            Ok((make(TokenKind::Comment, b + 2, j), j + 2))
        }
    } else if starts2(s, b, ce, '<', '>') {
        let t = skip_blank_exec(s, b + 2, ce);
        Ok((make(TokenKind::Glue, t, ce), next))
    } else if starts2(s, b, ce, '-', '>') {
        let t = skip_blank_exec(s, b + 2, ce);
        if valid_path_exec(s, t, ce) {
            let pe = path_end_exec(s, t, ce);
            Ok((make(TokenKind::Divert, t, pe), next))
        } else {
            Err(LexError::InvalidIdentifier(b))
        }
    } else if s[b] == '=' {
        let d = run_end_exec(s, b, ce, '=');
        let ns = skip_blank_exec(s, d, ce);
        let ne = ident_end_exec(s, ns, ce);
        if ns < ce && ident_start(s[ns]) && skip_decoration_exec(s, ne, ce) == ce {
            let kind = if d - b >= 2 { TokenKind::Knot } else { TokenKind::Stitch };
            Ok((make(kind, ns, ne), next))
        } else {
            Err(LexError::InvalidIdentifier(b))
        }
    } else if s[b] == '*' {
        let d = run_end_exec(s, b, ce, '*');
        let t = skip_blank_exec(s, d, ce);
        Ok((make(TokenKind::Choice(d - b), t, ce), next))
    } else if s[b] == '#' {
        let t = skip_blank_exec(s, b + 1, ce);
        Ok((make(TokenKind::Tag, t, ce), next))
    } else if s[b] == '[' {
        let j = find_char_exec(s, b + 1, ce, ']');
        if j >= ce {
            Err(LexError::UnterminatedSuppression(b))
        } else {
            Ok((make(TokenKind::Suppression, b + 1, j), next))
        }
    } else {
        Ok((make(TokenKind::Text, b, ce), next))
    }
}

/// The span of `t` lies within `s`.
pub open spec fn span_ok(s: Seq<char>, t: Token) -> bool {
    t.start <= t.end <= s.len()
}

/// Every token's span lies within `s`.
pub open spec fn spans_ok(s: Seq<char>, toks: Seq<Token>) -> bool {
    forall|k: int| 0 <= k < toks.len() ==> #[trigger] span_ok(s, toks[k])
}

/// Lexes a whole source text, given as its characters.
pub fn lex(s: &Vec<char>) -> (r: Result<Vec<Token>, LexError>)
    requires
        s@.len() < usize::MAX,
    ensures
        match r {
            Ok(v) => lex_spec(s@) == Ok::<Seq<Token>, LexError>(v@),
            Err(e) => lex_spec(s@) == Err::<Seq<Token>, LexError>(e),
        },
        r matches Ok(v) ==> spans_ok(s@, v@) && v@.len() <= s@.len(),
{
    let mut toks: Vec<Token> = Vec::new();
    let mut i: usize = 0;
    while i < s.len()
        invariant
            i <= s@.len() < usize::MAX,
            lex_spec(s@) == prepend(toks@, lex_from(s@, i as int)),
            spans_ok(s@, toks@),
            toks@.len() <= i,
        decreases s@.len() - i,
    {
        let st = step_exec(s, i);
        match st {
            Err(e) => {
                return Err(e);
            },
            Ok((t, n)) => {
                let ghost old_toks = toks@;
                match t {
                    Some(x) => toks.push(x),
                    None => {},
                }
                proof {
                    assert(n > i);
                    match lex_from(s@, n as int) {
                        Ok(rest) => {
                            assert(old_toks + (opt_seq(t) + rest) =~= toks@ + rest);
                        },
                        Err(_) => {},
                    }
                }
                i = n;
            },
        }
    }
    proof {
        assert(toks@ + seq![] =~= toks@);
    }
    Ok(toks)
}

} // verus!
