use vstd::prelude::*;
use crate::token::{Tok, paren_contents, run_end, lemma_run_end_bounds, copy_range};
use crate::directive::{
    UsageError, parse_directive, matches_variant, is_path_token, is_path, is_path_tok, path_pred,
    path_text, parses_as_path, keeps, targets_of, payload_of, opt_name, names,
};

verus! {

/// An outer attribute `#[path tokens]`.
pub struct Attr {
    pub path: Vec<Tok>,
    pub tokens: Vec<Tok>,
}

pub struct AttrView {
    pub path: Seq<Tok>,
    pub tokens: Seq<Tok>,
}

impl View for Attr {
    type V = AttrView;

    open spec fn view(&self) -> AttrView {
        AttrView { path: self.path@, tokens: self.tokens@ }
    }
}

pub open spec fn views<T: View>(s: Seq<T>) -> Seq<T::V> {
    s.map_values(|x: T| x@)
}

pub open spec fn res_view<T: View>(r: Result<T, UsageError>) -> Result<T::V, UsageError> {
    match r {
        Ok(x) => Ok(x@),
        Err(e) => Err(e),
    }
}

pub open spec fn vec_res_view<T: View>(r: Result<Vec<T>, UsageError>) -> Result<Seq<T::V>, UsageError> {
    match r {
        Ok(v) => Ok(views(v@)),
        Err(e) => Err(e),
    }
}

pub open spec fn some_ok<B>(r: Result<B, UsageError>) -> Result<Option<B>, UsageError> {
    match r {
        Ok(b) => Ok(Some(b)),
        Err(e) => Err(e),
    }
}

/// What a fallible step over a sequence gives: the outputs of the items in
/// order, skipping the items that give none, or the error of the first item
/// that fails.
pub open spec fn collect<A, B>(s: Seq<A>, f: spec_fn(A) -> Result<Option<B>, UsageError>) -> Result<Seq<B>, UsageError>
    decreases s.len(),
{
    if s.len() == 0 {
        Ok(seq![])
    } else {
        match collect(s.drop_last(), f) {
            Err(e) => Err(e),
            Ok(pre) => match f(s.last()) {
                Err(e) => Err(e),
                Ok(None) => Ok(pre),
                Ok(Some(b)) => Ok(pre.push(b)),
            },
        }
    }
}

/// Once a prefix has failed, the whole sequence fails with the same error.
pub proof fn lemma_collect_err<A, B>(s: Seq<A>, f: spec_fn(A) -> Result<Option<B>, UsageError>, k: int)
    requires
        0 <= k <= s.len(),
        collect(s.take(k), f) is Err,
    ensures
        collect(s, f) == collect(s.take(k), f),
    decreases s.len(),
{
    if k < s.len() {
        assert(s.drop_last().take(k) =~= s.take(k));
        lemma_collect_err(s.drop_last(), f, k);
    } else {
        assert(s.take(k) =~= s);
    }
}

/// A step that never skips an item gives one output per item.
pub proof fn lemma_collect_total<A, B>(s: Seq<A>, f: spec_fn(A) -> Result<Option<B>, UsageError>, t: Seq<B>)
    requires
        collect(s, f) == Ok::<Seq<B>, UsageError>(t),
        forall|a: A| !(#[trigger] f(a) matches Ok(None)),
    ensures
        t.len() == s.len(),
        forall|i: int| 0 <= i < s.len() ==> f(#[trigger] s[i]) == Ok::<Option<B>, UsageError>(Some(t[i])),
    decreases s.len(),
{
    if s.len() > 0 {
        let pre = collect(s.drop_last(), f).unwrap();
        lemma_collect_total(s.drop_last(), f, pre);
        assert forall|i: int| 0 <= i < s.len() implies f(#[trigger] s[i]) == Ok::<Option<B>, UsageError>(Some(t[i])) by {
            if i < s.len() - 1 {
                assert(s[i] == s.drop_last()[i]);
            }
        }
    }
}

/// The name of the directive marker.
pub open spec fn marker() -> Seq<char> {
    seq!['a', 't', 't', 'r', 's', 'e', 't']
}

/// Whether an attribute path is the directive marker alone.
pub open spec fn is_marker(path: Seq<Tok>) -> bool {
    path.len() == 1 && (path[0] matches Tok::Ident(s) && s@ == marker())
}

/// The end of the path run at the start of a directive's payload.
pub open spec fn path_end(payload: Seq<Tok>) -> int {
    run_end(payload, 0, path_pred())
}

/// Whether the payload of a directive starts with a path: a non-empty run of
/// colons and identifiers that reads as one whole path.
pub open spec fn payload_has_path(payload: Seq<Tok>) -> bool {
    path_end(payload) > 0 && parses_as_path(path_text(payload.subrange(0, path_end(payload))))
}

/// What becomes of a directive with payload `payload`, given the path parser's
/// verdict `path_ok` on its path run and whether its targets select the
/// current definition: an error if the path run is empty or refused, else the
/// plain attribute `#[path rest]` when selected, else nothing.
pub open spec fn directive_result(payload: Seq<Tok>, path_ok: bool, keep: bool) -> Result<Option<AttrView>, UsageError> {
    let pe = path_end(payload);
    if pe == 0 || !path_ok {
        Err(UsageError::BadPath)
    } else if !keep {
        Ok(None)
    } else {
        Ok(Some(AttrView { path: payload.subrange(0, pe), tokens: payload.subrange(pe, payload.len() as int) }))
    }
}

/// What becomes of attribute `a` on the definition for `cur`: kept as it is,
/// kept with its directive wrapper stripped, dropped, or an error. A malformed
/// directive is an error whichever definition is being generated.
pub open spec fn attr_outcome(vs: Seq<Seq<char>>, cur: Option<Seq<char>>, a: AttrView) -> Result<Option<AttrView>, UsageError> {
    if !is_marker(a.path) {
        Ok(Some(a))
    } else {
        match paren_contents(a.tokens) {
            None => Err(UsageError::NotParenthesized),
            Some(c) => {
                let rest = payload_of(vs, c);
                directive_result(
                    rest,
                    parses_as_path(path_text(rest.subrange(0, path_end(rest)))),
                    keeps(targets_of(vs, c), cur),
                )
            },
        }
    }
}

pub open spec fn attr_step(vs: Seq<Seq<char>>, cur: Option<Seq<char>>) -> spec_fn(AttrView) -> Result<Option<AttrView>, UsageError> {
    |a: AttrView| attr_outcome(vs, cur, a)
}

pub open spec fn opt_attr_view(r: Result<Option<Attr>, UsageError>) -> Result<Option<AttrView>, UsageError> {
    match r {
        Ok(Some(a)) => Ok(Some(a@)),
        Ok(None) => Ok(None),
        Err(e) => Err(e),
    }
}


pub fn is_marker_path(path: &Vec<Tok>) -> (r: bool)
    ensures
        r == is_marker(path@),
{
    if path.len() != 1 {
        return false;
    }
    match &path[0] {
        Tok::Ident(s) => {
            let m = String::from_str("attrset");
            proof {
                reveal_strlit("attrset");
                assert(m@ =~= marker());
            }
            *s == m
        },
        _ => false,
    }
}

pub fn copy_attr(a: &Attr) -> (r: Attr)
    ensures
        r@ == a@,
{
    proof {
        assert(a.path@.subrange(0, a.path@.len() as int) =~= a.path@);
        assert(a.tokens@.subrange(0, a.tokens@.len() as int) =~= a.tokens@);
    }
    Attr { path: copy_range(&a.path, 0, a.path.len()), tokens: copy_range(&a.tokens, 0, a.tokens.len()) }
}

/// Rewrites one attribute for the definition for `cur`.
pub fn filter_attr(variants: &Vec<String>, cur: Option<&String>, a: &Attr) -> (r: Result<Option<Attr>, UsageError>)
    ensures
        opt_attr_view(r) == attr_outcome(names(variants@), opt_name(cur), a@),
{
    proof {
        assert(a.path@.subrange(0, a.path@.len() as int) =~= a.path@);
        assert(a.tokens@.subrange(0, a.tokens@.len() as int) =~= a.tokens@);
    }
    if !is_marker_path(&a.path) {
        return Ok(Some(copy_attr(a)));
    }
    let d = match parse_directive(variants, &a.tokens) {
        Ok(d) => d,
        Err(e) => {
            return Err(e);
        },
    };
    let p = path_run_end(&d.rest);
    let path_ok = if p == 0 {
        false
    } else {
        let path = copy_range(&d.rest, 0, p);
        proof {
            lemma_run_end_bounds(d.rest@, 0, path_pred());
            assert forall|j: int| 0 <= j < path@.len() implies is_path_tok(#[trigger] path@[j]) by {
                assert(path_pred()(d.rest@[j]));
            }
        }
        is_path(&path)
    };
    let keep = matches_variant(&d.targets, cur);
    apply_directive(&d.rest, path_ok, keep)
}

/// Finds the end of the path run at the start of `payload`.
pub fn path_run_end(payload: &Vec<Tok>) -> (r: usize)
    ensures
        r as int == path_end(payload@),
        r <= payload@.len(),
{
    let ghost pp = path_pred();
    let mut p: usize = 0;
    proof {
        lemma_run_end_bounds(payload@, 0, pp);
    }
    while p < payload.len()
        invariant
            p <= payload@.len(),
            run_end(payload@, 0, pp) == run_end(payload@, p as int, pp),
            pp == path_pred(),
        ensures
            p <= payload@.len(),
            run_end(payload@, 0, pp) == p,
        decreases payload@.len() - p,
    {
        if !is_path_token(&payload[p]) {
            break;
        }
        assert(pp(payload@[p as int]));
        assert(run_end(payload@, p as int, pp) == run_end(payload@, p + 1, pp));
        p = p + 1;
    }
    p
}

/// Finishes a directive once its path has been judged: `path_ok` is whether its
/// path run reads as a path, `keep` whether its targets select the definition
/// being generated.
pub fn apply_directive(payload: &Vec<Tok>, path_ok: bool, keep: bool) -> (r: Result<Option<Attr>, UsageError>)
    ensures
        opt_attr_view(r) == directive_result(payload@, path_ok, keep),
{
    let p = path_run_end(payload);
    if p == 0 || !path_ok {
        return Err(UsageError::BadPath);
    }
    if !keep {
        return Ok(None);
    }
    let path = copy_range(payload, 0, p);
    let tokens = copy_range(payload, p, payload.len());
    Ok(Some(Attr { path, tokens }))
}

/// Rewrites the attributes of one field for the definition for `cur`.
pub fn filter_attrs(variants: &Vec<String>, cur: Option<&String>, attrs: &Vec<Attr>) -> (r: Result<Vec<Attr>, UsageError>)
    ensures
        vec_res_view(r) == collect(views(attrs@), attr_step(names(variants@), opt_name(cur))),
{
    let ghost s = views(attrs@);
    let ghost f = attr_step(names(variants@), opt_name(cur));
    let mut out: Vec<Attr> = Vec::new();
    let mut i: usize = 0;
    assert(s.take(0) =~= Seq::<AttrView>::empty());
    assert(views(out@) =~= Seq::<AttrView>::empty());
    while i < attrs.len()
        invariant
            i <= attrs@.len(),
            s == views(attrs@),
            f == attr_step(names(variants@), opt_name(cur)),
            collect(s.take(i as int), f) == Ok::<Seq<AttrView>, UsageError>(views(out@)),
        decreases attrs@.len() - i,
    {
        let ghost before = out@;
        assert(s.take(i + 1).drop_last() =~= s.take(i as int));
        assert(s.take(i + 1).last() == attrs@[i as int]@);
        match filter_attr(variants, cur, &attrs[i]) {
            Err(e) => {
                proof {
                    lemma_collect_err(s, f, i + 1);
                }
                return Err(e);
            },
            Ok(None) => {},
            Ok(Some(a)) => {
                out.push(a);
                assert(views(out@) =~= views(before).push(a@));
            },
        }
        i = i + 1;
    }
    assert(s.take(i as int) =~= s);
    Ok(out)
}

/// One field: its attributes, its name (none in a tuple-like list) and its type.
pub struct Field {
    pub attrs: Vec<Attr>,
    pub name: Option<String>,
    pub ty: Vec<Tok>,
}

pub struct FieldView {
    pub attrs: Seq<AttrView>,
    pub name: Option<Seq<char>>,
    pub ty: Seq<Tok>,
}

impl View for Field {
    type V = FieldView;

    open spec fn view(&self) -> FieldView {
        FieldView {
            attrs: views(self.attrs@),
            name: match self.name {
                Some(n) => Some(n@),
                None => None,
            },
            ty: self.ty@,
        }
    }
}

/// A field list of a struct or of an enum variant.
pub enum Fields {
    Named(Vec<Field>),
    Unnamed(Vec<Field>),
    Unit,
}

pub enum FieldsView {
    Named(Seq<FieldView>),
    Unnamed(Seq<FieldView>),
    Unit,
}

impl View for Fields {
    type V = FieldsView;

    open spec fn view(&self) -> FieldsView {
        match self {
            Fields::Named(v) => FieldsView::Named(views(v@)),
            Fields::Unnamed(v) => FieldsView::Unnamed(views(v@)),
            Fields::Unit => FieldsView::Unit,
        }
    }
}

pub open spec fn field_outcome(vs: Seq<Seq<char>>, cur: Option<Seq<char>>, f: FieldView) -> Result<FieldView, UsageError> {
    match collect(f.attrs, attr_step(vs, cur)) {
        Ok(attrs) => Ok(FieldView { attrs, name: f.name, ty: f.ty }),
        Err(e) => Err(e),
    }
}

pub open spec fn field_step(vs: Seq<Seq<char>>, cur: Option<Seq<char>>) -> spec_fn(FieldView) -> Result<Option<FieldView>, UsageError> {
    |f: FieldView| some_ok(field_outcome(vs, cur, f))
}

pub open spec fn fields_outcome(vs: Seq<Seq<char>>, cur: Option<Seq<char>>, fs: FieldsView) -> Result<FieldsView, UsageError> {
    match fs {
        FieldsView::Named(s) => match collect(s, field_step(vs, cur)) {
            Ok(t) => Ok(FieldsView::Named(t)),
            Err(e) => Err(e),
        },
        FieldsView::Unnamed(s) => match collect(s, field_step(vs, cur)) {
            Ok(t) => Ok(FieldsView::Unnamed(t)),
            Err(e) => Err(e),
        },
        FieldsView::Unit => Ok(FieldsView::Unit),
    }
}

pub fn copy_name(n: &Option<String>) -> (r: Option<String>)
    ensures
        r == *n,
{
    match n {
        Some(s) => Some(s.clone()),
        None => None,
    }
}

/// Rewrites one field for the definition for `cur`; only its attributes change.
pub fn filter_field(variants: &Vec<String>, cur: Option<&String>, f: &Field) -> (r: Result<Field, UsageError>)
    ensures
        res_view(r) == field_outcome(names(variants@), opt_name(cur), f@),
{
    let attrs = match filter_attrs(variants, cur, &f.attrs) {
        Ok(a) => a,
        Err(e) => {
            return Err(e);
        },
    };
    proof {
        assert(f.ty@.subrange(0, f.ty@.len() as int) =~= f.ty@);
    }
    Ok(Field { attrs, name: copy_name(&f.name), ty: copy_range(&f.ty, 0, f.ty.len()) })
}

/// Rewrites a list of fields, keeping their order.
pub fn filter_field_list(variants: &Vec<String>, cur: Option<&String>, fields: &Vec<Field>) -> (r: Result<Vec<Field>, UsageError>)
    ensures
        vec_res_view(r) == collect(views(fields@), field_step(names(variants@), opt_name(cur))),
{
    let ghost s = views(fields@);
    let ghost f = field_step(names(variants@), opt_name(cur));
    let mut out: Vec<Field> = Vec::new();
    let mut i: usize = 0;
    assert(s.take(0) =~= Seq::<FieldView>::empty());
    assert(views(out@) =~= Seq::<FieldView>::empty());
    while i < fields.len()
        invariant
            i <= fields@.len(),
            s == views(fields@),
            f == field_step(names(variants@), opt_name(cur)),
            collect(s.take(i as int), f) == Ok::<Seq<FieldView>, UsageError>(views(out@)),
        decreases fields@.len() - i,
    {
        let ghost before = out@;
        assert(s.take(i + 1).drop_last() =~= s.take(i as int));
        assert(s.take(i + 1).last() == fields@[i as int]@);
        match filter_field(variants, cur, &fields[i]) {
            Err(e) => {
                proof {
                    lemma_collect_err(s, f, i + 1);
                }
                return Err(e);
            },
            Ok(g) => {
                out.push(g);
                assert(views(out@) =~= views(before).push(g@));
            },
        }
        i = i + 1;
    }
    assert(s.take(i as int) =~= s);
    Ok(out)
}

/// Rewrites a field list of any shape, keeping the shape.
pub fn filter_fields(variants: &Vec<String>, cur: Option<&String>, fields: &Fields) -> (r: Result<Fields, UsageError>)
    ensures
        res_view(r) == fields_outcome(names(variants@), opt_name(cur), fields@),
{
    match fields {
        Fields::Named(v) => match filter_field_list(variants, cur, v) {
            Ok(w) => Ok(Fields::Named(w)),
            Err(e) => Err(e),
        },
        Fields::Unnamed(v) => match filter_field_list(variants, cur, v) {
            Ok(w) => Ok(Fields::Unnamed(w)),
            Err(e) => Err(e),
        },
        Fields::Unit => Ok(Fields::Unit),
    }
}

} // verus!
