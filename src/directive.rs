use vstd::prelude::*;
use crate::token::{Tok, paren_contents, run_end, lemma_run_end_bounds, copy_range, find_paren_close};

verus! {

/// Why a generation was aborted.
#[derive(Debug, Clone, Copy, PartialEq, Eq, Structural)]
pub enum UsageError {
    /// A directive whose payload is not one parenthesised group.
    NotParenthesized,
    /// A kept directive whose payload does not start with a path.
    BadPath,
    /// A union, which has no filtering semantics.
    Union,
    /// A token other than an identifier or a comma in the variant list.
    BadConfigToken,
}

/// A parsed placement directive: the definitions it targets, and the tokens
/// that follow the target list.
pub struct Directive {
    pub targets: Vec<String>,
    pub rest: Vec<Tok>,
}

pub open spec fn names(v: Seq<String>) -> Seq<Seq<char>> {
    v.map_values(|s: String| s@)
}

/// The marker that names the base definition in a target list.
pub open spec fn wildcard() -> Seq<char> {
    seq!['_']
}

pub open spec fn is_comma(t: Tok) -> bool {
    t matches Tok::Punct(c, _) && c == ','
}

/// A token that may stand in a target list: a comma, the wildcard or a
/// declared variant name.
pub open spec fn is_target(vs: Seq<Seq<char>>, t: Tok) -> bool {
    match t {
        Tok::Punct(c, _) => c == ',',
        Tok::Ident(s) => s@ == wildcard() || vs.contains(s@),
        _ => false,
    }
}

pub open spec fn target_pred(vs: Seq<Seq<char>>) -> spec_fn(Tok) -> bool {
    |t: Tok| is_target(vs, t)
}

/// A token that may stand in a path: a colon or an identifier.
pub open spec fn is_path_tok(t: Tok) -> bool {
    match t {
        Tok::Punct(c, _) => c == ':',
        Tok::Ident(_) => true,
        _ => false,
    }
}

pub open spec fn path_pred() -> spec_fn(Tok) -> bool {
    |t: Tok| is_path_tok(t)
}

/// The identifiers of `s`, in order.
pub open spec fn idents_of(s: Seq<Tok>) -> Seq<Seq<char>>
    decreases s.len(),
{
    if s.len() == 0 {
        seq![]
    } else {
        match s.last() {
            Tok::Ident(x) => idents_of(s.drop_last()).push(x@),
            _ => idents_of(s.drop_last()),
        }
    }
}

/// Where the target list ends in a directive's contents `c`.
pub open spec fn target_end(vs: Seq<Seq<char>>, c: Seq<Tok>) -> int {
    run_end(c, 0, target_pred(vs))
}

/// The target names of a directive's contents `c`.
pub open spec fn targets_of(vs: Seq<Seq<char>>, c: Seq<Tok>) -> Seq<Seq<char>> {
    idents_of(c.take(target_end(vs, c)))
}

/// A lone colon, which may separate the target list from the payload.
pub open spec fn is_separator(t: Tok) -> bool {
    t == Tok::Punct(':', false)
}

/// The payload of a directive's contents `c`: what follows the target list and
/// its separating colon, if there is one.
pub open spec fn payload_of(vs: Seq<Seq<char>>, c: Seq<Tok>) -> Seq<Tok> {
    let rest = c.subrange(target_end(vs, c), c.len() as int);
    if rest.len() > 0 && is_separator(rest[0]) {
        rest.drop_first()
    } else {
        rest
    }
}

/// Whether a directive with target names `ts` is kept on the definition for
/// `cur` (`None` for the base definition).
pub open spec fn keeps(ts: Seq<Seq<char>>, cur: Option<Seq<char>>) -> bool {
    match cur {
        Some(v) => ts.contains(v),
        None => ts.contains(wildcard()),
    }
}

pub open spec fn opt_name(cur: Option<&String>) -> Option<Seq<char>> {
    match cur {
        Some(s) => Some(s@),
        None => None,
    }
}

/// The text that a path's tokens are read back from: each identifier is
/// followed by a space, and a colon by one unless it is joined to the next token.
pub open spec fn path_text(s: Seq<Tok>) -> Seq<char>
    decreases s.len(),
{
    if s.len() == 0 {
        seq![]
    } else {
        path_text(s.drop_last()) + match s.last() {
            Tok::Ident(x) => x@ + seq![' '],
            Tok::Punct(c, joint) => if joint {
                seq![c]
            } else {
                seq![c, ' ']
            },
            _ => seq![],
        }
    }
}

/// Whether `text` is one whole Rust path, as syn reads it.
pub uninterp spec fn parses_as_path(text: Seq<char>) -> bool;

/// Relies on `syn::parse_str::<syn::Path>`, which succeeds exactly when the whole
/// text is read as one path.
#[verifier::external_body]
fn parse_path(text: &str) -> (r: bool)
    ensures
        r == parses_as_path(text@),
{
    syn::parse_str::<syn::Path>(text).is_ok()
}

pub fn is_wildcard(s: &String) -> (r: bool)
    ensures
        r == (s@ == wildcard()),
{
    let w = String::from_str("_");
    proof {
        reveal_strlit("_");
        assert(w@ =~= wildcard());
    }
    *s == w
}

/// Whether `s` is one of the declared variant names.
pub fn is_declared(variants: &Vec<String>, s: &String) -> (r: bool)
    ensures
        r == names(variants@).contains(s@),
{
    let mut i: usize = 0;
    while i < variants.len()
        invariant
            i <= variants@.len(),
            forall|j: int| 0 <= j < i ==> variants@[j]@ != s@,
        decreases variants@.len() - i,
    {
        if variants[i] == *s {
            assert(names(variants@)[i as int] == s@);
            return true;
        }
        i = i + 1;
    }
    proof {
        if names(variants@).contains(s@) {
            let j = choose|j: int| 0 <= j < names(variants@).len() && names(variants@)[j] == s@;
            assert(variants@[j]@ == s@);
        }
    }
    false
}

pub fn is_target_tok(variants: &Vec<String>, t: &Tok) -> (r: bool)
    ensures
        r == is_target(names(variants@), *t),
{
    match t {
        Tok::Punct(c, _) => *c == ',',
        Tok::Ident(s) => is_wildcard(s) || is_declared(variants, s),
        _ => false,
    }
}

pub fn is_path_token(t: &Tok) -> (r: bool)
    ensures
        r == is_path_tok(*t),
{
    match t {
        Tok::Punct(c, _) => *c == ':',
        Tok::Ident(_) => true,
        _ => false,
    }
}

/// Parses the payload of a directive: one parenthesised group, whose contents
/// are the target list (commas, the wildcard and declared variant names), then
/// an optional lone colon, then the payload.
pub fn parse_directive(variants: &Vec<String>, tokens: &Vec<Tok>) -> (r: Result<Directive, UsageError>)
    ensures
        match paren_contents(tokens@) {
            None => r == Err::<Directive, UsageError>(UsageError::NotParenthesized),
            Some(c) => r matches Ok(d) && names(d.targets@) == targets_of(names(variants@), c)
                && d.rest@ == payload_of(names(variants@), c),
        },
{
    let m = match find_paren_close(tokens) {
        Some(m) => m,
        None => {
            return Err(UsageError::NotParenthesized);
        },
    };
    let c = copy_range(tokens, 1, m);
    let ghost vs = names(variants@);
    let ghost p = target_pred(vs);
    proof {
        lemma_run_end_bounds(c@, 0, p);
    }
    let mut targets: Vec<String> = Vec::new();
    let mut i: usize = 0;
    while i < c.len()
        invariant
            i <= c@.len(),
            run_end(c@, 0, p) == run_end(c@, i as int, p),
            names(targets@) == idents_of(c@.take(i as int)),
            p == target_pred(vs),
            vs == names(variants@),
        ensures
            i <= c@.len(),
            run_end(c@, 0, p) == i,
            names(targets@) == idents_of(c@.take(i as int)),
        decreases c@.len() - i,
    {
        if !is_target_tok(variants, &c[i]) {
            break;
        }
        assert(c@.take(i + 1).drop_last() =~= c@.take(i as int));
        assert(p(c@[i as int]));
        assert(run_end(c@, i as int, p) == run_end(c@, i + 1, p));
        if let Tok::Ident(s) = &c[i] {
            let ghost before = targets@;
            targets.push(s.clone());
            assert(names(targets@) =~= names(before).push(s@));
        }
        i = i + 1;
    }
    let start = if i < c.len() && matches!(&c[i], Tok::Punct(':', false)) {
        i + 1
    } else {
        i
    };
    let rest = copy_range(&c, start, c.len());
    proof {
        let r0 = c@.subrange(i as int, c@.len() as int);
        if i < c@.len() && is_separator(c@[i as int]) {
            assert(r0.drop_first() =~= c@.subrange(start as int, c@.len() as int));
        } else {
            assert(r0 =~= c@.subrange(start as int, c@.len() as int));
        }
    }
    Ok(Directive { targets, rest })
}

/// Whether a directive with target names `targets` is kept on the definition
/// for `cur` (`None` for the base definition).
pub fn matches_variant(targets: &Vec<String>, cur: Option<&String>) -> (r: bool)
    ensures
        r == keeps(names(targets@), opt_name(cur)),
{
    let mut i: usize = 0;
    while i < targets.len()
        invariant
            i <= targets@.len(),
            forall|j: int| 0 <= j < i ==> !(#[trigger] names(targets@)[j] == match opt_name(cur) {
                Some(v) => v,
                None => wildcard(),
            }),
        decreases targets@.len() - i,
    {
        let hit = match cur {
            Some(v) => targets[i] == *v,
            None => is_wildcard(&targets[i]),
        };
        assert(names(targets@)[i as int] == targets@[i as int]@);
        if hit {
            return true;
        }
        i = i + 1;
    }
    false
}

/// Renders the tokens of a path as text, for the path parser.
pub fn render_path(s: &Vec<Tok>) -> (r: String)
    requires
        forall|j: int| 0 <= j < s@.len() ==> is_path_tok(#[trigger] s@[j]),
    ensures
        r@ == path_text(s@),
{
    let mut r = String::new();
    let mut i: usize = 0;
    while i < s.len()
        invariant
            i <= s@.len(),
            forall|j: int| 0 <= j < s@.len() ==> is_path_tok(#[trigger] s@[j]),
            r@ == path_text(s@.take(i as int)),
        decreases s@.len() - i,
    {
        assert(s@.take(i + 1).drop_last() =~= s@.take(i as int));
        assert(is_path_tok(s@[i as int]));
        match &s[i] {
            Tok::Ident(x) => {
                r.append(x.as_str());
                r.append(" ");
                proof { reveal_strlit(" "); }
            },
            Tok::Punct(_, joint) => {
                if *joint {
                    r.append(":");
                    proof { reveal_strlit(":"); }
                } else {
                    r.append(": ");
                    proof { reveal_strlit(": "); }
                }
            },
            _ => {},
        }
        i = i + 1;
        assert(r@ =~= path_text(s@.take(i as int)));
    }
    assert(s@.take(i as int) =~= s@);
    r
}

/// Whether the rendered path tokens `s` form one whole path.
pub fn is_path(s: &Vec<Tok>) -> (r: bool)
    requires
        forall|j: int| 0 <= j < s@.len() ==> is_path_tok(#[trigger] s@[j]),
    ensures
        r == parses_as_path(path_text(s@)),
{
    let text = render_path(s);
    parse_path(text.as_str())
}

} // verus!
