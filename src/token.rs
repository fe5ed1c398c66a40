use vstd::prelude::*;

verus! {

/// The delimiter of a token group.
#[derive(Debug, Clone, Copy, PartialEq, Eq, Structural)]
pub enum Delim {
    Paren,
    Bracket,
    Brace,
    Invisible,
}

/// One token of a flattened token stream.
#[derive(Debug, PartialEq, Eq)]
pub enum Tok {
    /// An identifier, as written (raw identifiers keep their `r#`).
    Ident(String),
    /// A punctuation character, and whether it is joined to the next token.
    Punct(char, bool),
    /// A literal, as written.
    Lit(String),
    /// The start of a group.
    Open(Delim),
    /// The end of the innermost open group.
    Close,
}

/// How a token changes the nesting depth.
pub open spec fn depth_delta(t: Tok) -> int {
    match t {
        Tok::Open(_) => 1,
        Tok::Close => -1,
        _ => 0,
    }
}

/// Index of the token that brings the depth, which is `d` before index `i`,
/// down to zero; `-1` when no such token follows.
pub open spec fn close_from(s: Seq<Tok>, i: int, d: int) -> int
    decreases s.len() - i,
{
    if 0 <= i < s.len() {
        if d + depth_delta(s[i]) == 0 {
            i
        } else {
            close_from(s, i + 1, d + depth_delta(s[i]))
        }
    } else {
        -1
    }
}

/// The contents of the parenthesised group that `s` starts with, if it does.
pub open spec fn paren_contents(s: Seq<Tok>) -> Option<Seq<Tok>> {
    if s.len() > 0 && s[0] == Tok::Open(Delim::Paren) && close_from(s, 1, 1) >= 1 {
        Some(s.subrange(1, close_from(s, 1, 1)))
    } else {
        None
    }
}

/// End of the longest run of tokens that satisfy `p`, starting at `i`.
pub open spec fn run_end(s: Seq<Tok>, i: int, p: spec_fn(Tok) -> bool) -> int
    decreases s.len() - i,
{
    if 0 <= i < s.len() && p(s[i]) {
        run_end(s, i + 1, p)
    } else {
        i
    }
}

pub proof fn lemma_run_end_bounds(s: Seq<Tok>, i: int, p: spec_fn(Tok) -> bool)
    requires
        0 <= i <= s.len(),
    ensures
        i <= run_end(s, i, p) <= s.len(),
        forall|j: int| i <= j < run_end(s, i, p) ==> p(#[trigger] s[j]),
    decreases s.len() - i,
{
    if i < s.len() && p(s[i]) {
        lemma_run_end_bounds(s, i + 1, p);
    }
}

pub fn copy_tok(t: &Tok) -> (r: Tok)
    ensures
        r == *t,
{
    match t {
        Tok::Ident(s) => Tok::Ident(s.clone()),
        Tok::Punct(c, j) => Tok::Punct(*c, *j),
        Tok::Lit(s) => Tok::Lit(s.clone()),
        Tok::Open(d) => Tok::Open(*d),
        Tok::Close => Tok::Close,
    }
}

/// A copy of `s[lo..hi]`.
pub fn copy_range(s: &Vec<Tok>, lo: usize, hi: usize) -> (r: Vec<Tok>)
    requires
        lo <= hi <= s@.len(),
    ensures
        r@ == s@.subrange(lo as int, hi as int),
{
    let mut r: Vec<Tok> = Vec::new();
    let mut i: usize = lo;
    while i < hi
        invariant
            lo <= i <= hi <= s@.len(),
            r@ == s@.subrange(lo as int, i as int),
        decreases hi - i,
    {
        r.push(copy_tok(&s[i]));
        i = i + 1;
        assert(r@ =~= s@.subrange(lo as int, i as int));
    }
    r
}

/// Finds the index of the token that closes the parenthesised group that `s`
/// starts with.
pub fn find_paren_close(s: &Vec<Tok>) -> (r: Option<usize>)
    ensures
        r is Some <==> paren_contents(s@) is Some,
        r matches Some(m) ==> m as int == close_from(s@, 1, 1) && 1 <= m < s@.len(),
{
    if s.len() == 0 {
        return None;
    }
    match &s[0] {
        Tok::Open(Delim::Paren) => {},
        _ => {
            return None;
        },
    }
    let mut i: usize = 1;
    let mut d: usize = 1;
    while i < s.len()
        invariant
            1 <= d <= i <= s@.len(),
            s@.len() > 0 && s@[0] == Tok::Open(Delim::Paren),
            close_from(s@, 1, 1) == close_from(s@, i as int, d as int),
        decreases s@.len() - i,
    {
        match &s[i] {
            Tok::Open(_) => {
                d = d + 1;
            },
            Tok::Close => {
                if d == 1 {
                    return Some(i);
                }
                d = d - 1;
            },
            _ => {},
        }
        i = i + 1;
    }
    None
}

} // verus!
