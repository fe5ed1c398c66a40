use vstd::prelude::*;
use crate::token::{paren_contents, lemma_run_end_bounds};
use crate::directive::{path_pred, UsageError, keeps, targets_of, wildcard, payload_of};
use crate::rewrite::{
    AttrView, FieldView, FieldsView, attr_outcome, attr_step, collect, lemma_collect_err,
    lemma_collect_total, field_outcome, field_step, fields_outcome, is_marker, some_ok,
    path_end, payload_has_path,
};
use crate::generate::{
    TypeDefView, DataView, VariantView, def_outcome, variant_step, all_defs, passes, def_step,
    derived_name,
};

verus! {

/// A directive whose payload is one parenthesised group and starts with a path.
pub open spec fn well_formed_directive(vs: Seq<Seq<char>>, a: AttrView) -> bool {
    is_marker(a.path) && paren_contents(a.tokens) is Some && payload_has_path(
        payload_of(vs, paren_contents(a.tokens).unwrap()),
    )
}

/// The target names of a directive.
pub open spec fn directive_targets(vs: Seq<Seq<char>>, a: AttrView) -> Seq<Seq<char>> {
    targets_of(vs, paren_contents(a.tokens).unwrap())
}

/// A directive with its wrapper stripped: the plain attribute `#[path rest]`.
pub open spec fn stripped(vs: Seq<Seq<char>>, a: AttrView) -> AttrView {
    let rest = payload_of(vs, paren_contents(a.tokens).unwrap());
    AttrView { path: rest.subrange(0, path_end(rest)), tokens: rest.subrange(path_end(rest), rest.len() as int) }
}

/// A well-formed directive survives, stripped, on a definition exactly when its
/// targets select that definition; otherwise it is dropped without error.
pub proof fn lemma_partition(vs: Seq<Seq<char>>, cur: Option<Seq<char>>, a: AttrView)
    requires
        well_formed_directive(vs, a),
    ensures
        keeps(directive_targets(vs, a), cur) ==> attr_outcome(vs, cur, a) == Ok::<Option<AttrView>, UsageError>(Some(stripped(vs, a))),
        !keeps(directive_targets(vs, a), cur) ==> attr_outcome(vs, cur, a) == Ok::<Option<AttrView>, UsageError>(None),
{
}

/// A directive whose payload does not start with a path is refused on every
/// definition, whether or not its targets select it.
pub proof fn lemma_bad_path_always_refused(vs: Seq<Seq<char>>, cur: Option<Seq<char>>, a: AttrView)
    requires
        is_marker(a.path),
        paren_contents(a.tokens) is Some,
        !payload_has_path(payload_of(vs, paren_contents(a.tokens).unwrap())),
    ensures
        attr_outcome(vs, cur, a) == Err::<Option<AttrView>, UsageError>(UsageError::BadPath),
{
    lemma_run_end_bounds(payload_of(vs, paren_contents(a.tokens).unwrap()), 0, path_pred());
}

/// An attribute that is not a directive is kept unchanged on every definition.
pub proof fn lemma_pass_through(vs: Seq<Seq<char>>, cur: Option<Seq<char>>, a: AttrView)
    requires
        !is_marker(a.path),
    ensures
        attr_outcome(vs, cur, a) == Ok::<Option<AttrView>, UsageError>(Some(a)),
{
}

/// A field that carries no directive comes out of every definition unchanged.
pub proof fn lemma_field_pass_through(vs: Seq<Seq<char>>, cur: Option<Seq<char>>, f: FieldView)
    requires
        forall|i: int| 0 <= i < f.attrs.len() ==> !is_marker(#[trigger] f.attrs[i].path),
    ensures
        field_outcome(vs, cur, f) == Ok::<FieldView, UsageError>(f),
{
    lemma_collect_keeps_all(f.attrs, attr_step(vs, cur));
    assert(collect(f.attrs, attr_step(vs, cur)) == Ok::<Seq<AttrView>, UsageError>(f.attrs));
}

proof fn lemma_collect_keeps_all(s: Seq<AttrView>, f: spec_fn(AttrView) -> Result<Option<AttrView>, UsageError>)
    requires
        forall|i: int| 0 <= i < s.len() ==> f(#[trigger] s[i]) == Ok::<Option<AttrView>, UsageError>(Some(s[i])),
    ensures
        collect(s, f) == Ok::<Seq<AttrView>, UsageError>(s),
    decreases s.len(),
{
    if s.len() > 0 {
        assert forall|i: int| 0 <= i < s.drop_last().len() implies f(#[trigger] s.drop_last()[i])
            == Ok::<Option<AttrView>, UsageError>(Some(s.drop_last()[i])) by {
            assert(s.drop_last()[i] == s[i]);
        }
        lemma_collect_keeps_all(s.drop_last(), f);
        assert(f(s.last()) == Ok::<Option<AttrView>, UsageError>(Some(s[s.len() - 1])));
        assert(s.drop_last().push(s.last()) =~= s);
    } else {
        assert(s =~= seq![]);
    }
}

/// Every item's output is in the collected sequence, and everything in it is
/// the output of some item.
pub proof fn lemma_collect_members<A, B>(s: Seq<A>, f: spec_fn(A) -> Result<Option<B>, UsageError>, t: Seq<B>)
    requires
        collect(s, f) == Ok::<Seq<B>, UsageError>(t),
    ensures
        forall|i: int| 0 <= i < s.len() && (#[trigger] f(s[i]) matches Ok(Some(_))) ==> t.contains(f(s[i]).unwrap().unwrap()),
        forall|j: int| 0 <= j < t.len() ==> exists|i: int| 0 <= i < s.len() && #[trigger] f(s[i]) == Ok::<Option<B>, UsageError>(Some(#[trigger] t[j])),
    decreases s.len(),
{
    if s.len() > 0 {
        let pre = collect(s.drop_last(), f).unwrap();
        lemma_collect_members(s.drop_last(), f, pre);
        let n = s.len() - 1;
        assert forall|i: int| 0 <= i < s.len() && (#[trigger] f(s[i]) matches Ok(Some(_))) implies t.contains(f(s[i]).unwrap().unwrap()) by {
            let x = f(s[i]).unwrap().unwrap();
            if i < n {
                assert(s.drop_last()[i] == s[i]);
                let k = choose|k: int| 0 <= k < pre.len() && pre[k] == x;
                assert(t[k] == x);
            } else {
                assert(t[t.len() - 1] == x);
            }
        }
        assert forall|j: int| 0 <= j < t.len() implies exists|i: int| 0 <= i < s.len() && #[trigger] f(s[i]) == Ok::<Option<B>, UsageError>(Some(#[trigger] t[j])) by {
            if j < pre.len() {
                let i = choose|i: int| 0 <= i < s.drop_last().len() && #[trigger] f(s.drop_last()[i]) == Ok::<Option<B>, UsageError>(Some(pre[j]));
                assert(s.drop_last()[i] == s[i]);
                assert(t[j] == pre[j]);
            } else {
                assert(f(s[n]) == Ok::<Option<B>, UsageError>(Some(t[j])));
            }
        }
    }
}

/// A well-formed directive that targets only the base definition is kept,
/// stripped, there and dropped from every variant's definition.
pub proof fn lemma_wildcard_only(vs: Seq<Seq<char>>, v: Seq<char>, a: AttrView)
    requires
        well_formed_directive(vs, a),
        directive_targets(vs, a) == seq![wildcard()],
        v != wildcard(),
    ensures
        attr_outcome(vs, None, a) == Ok::<Option<AttrView>, UsageError>(Some(stripped(vs, a))),
        attr_outcome(vs, Some(v), a) == Ok::<Option<AttrView>, UsageError>(None),
{
    let ts = directive_targets(vs, a);
    assert(ts[0] == wildcard());
    assert(!ts.contains(v));
}

/// A well-formed directive that targets one variant alone is kept, stripped, on
/// that variant's definition only.
pub proof fn lemma_single_target(vs: Seq<Seq<char>>, t: Seq<char>, cur: Option<Seq<char>>, a: AttrView)
    requires
        well_formed_directive(vs, a),
        directive_targets(vs, a) == seq![t],
        t != wildcard(),
    ensures
        cur == Some(t) ==> attr_outcome(vs, cur, a) == Ok::<Option<AttrView>, UsageError>(Some(stripped(vs, a))),
        cur != Some(t) ==> attr_outcome(vs, cur, a) == Ok::<Option<AttrView>, UsageError>(None),
{
    let ts = directive_targets(vs, a);
    assert(ts[0] == t);
    if let Some(v) = cur {
        if v != t {
            assert(!ts.contains(v));
        }
    } else {
        assert(!ts.contains(wildcard()));
    }
}

/// Two field lists of the same shape, with the same field names and types in
/// the same order.
pub open spec fn same_fields(a: FieldsView, b: FieldsView) -> bool {
    match (a, b) {
        (FieldsView::Named(x), FieldsView::Named(y)) => same_field_seq(x, y),
        (FieldsView::Unnamed(x), FieldsView::Unnamed(y)) => same_field_seq(x, y),
        (FieldsView::Unit, FieldsView::Unit) => true,
        _ => false,
    }
}

pub open spec fn same_field_seq(x: Seq<FieldView>, y: Seq<FieldView>) -> bool {
    x.len() == y.len() && forall|i: int| 0 <= i < x.len() ==> (#[trigger] x[i]).name == y[i].name && x[i].ty == y[i].ty
}

/// Two definitions with the same body shape, variants and fields.
pub open spec fn same_structure(a: TypeDefView, b: TypeDefView) -> bool {
    match (a.data, b.data) {
        (DataView::Struct(x), DataView::Struct(y)) => same_fields(x, y),
        (DataView::Enum(x), DataView::Enum(y)) => x.len() == y.len() && forall|i: int|
            0 <= i < x.len() ==> (#[trigger] x[i]).name == y[i].name && same_fields(x[i].fields, y[i].fields),
        _ => false,
    }
}

proof fn lemma_fields_structure(vs: Seq<Seq<char>>, cur: Option<Seq<char>>, fs: FieldsView)
    requires
        fields_outcome(vs, cur, fs) is Ok,
    ensures
        same_fields(fs, fields_outcome(vs, cur, fs).unwrap()),
{
    let f = field_step(vs, cur);
    assert forall|a: FieldView| !(#[trigger] f(a) matches Ok(None)) by {}
    match fs {
        FieldsView::Named(s) => {
            let t = collect(s, f).unwrap();
            lemma_collect_total(s, f, t);
            assert forall|i: int| 0 <= i < s.len() implies (#[trigger] s[i]).name == t[i].name && s[i].ty == t[i].ty by {
                assert(f(s[i]) == Ok::<Option<FieldView>, UsageError>(Some(t[i])));
            }
        },
        FieldsView::Unnamed(s) => {
            let t = collect(s, f).unwrap();
            lemma_collect_total(s, f, t);
            assert forall|i: int| 0 <= i < s.len() implies (#[trigger] s[i]).name == t[i].name && s[i].ty == t[i].ty by {
                assert(f(s[i]) == Ok::<Option<FieldView>, UsageError>(Some(t[i])));
            }
        },
        FieldsView::Unit => {},
    }
}

/// Each generated definition keeps the input's shape, the order and names of
/// its variants, and the order, names and types of every field list; only
/// attributes differ.
pub proof fn lemma_structure_preserved(vs: Seq<Seq<char>>, cur: Option<Seq<char>>, d: TypeDefView)
    requires
        def_outcome(vs, cur, d) is Ok,
    ensures
        same_structure(d, def_outcome(vs, cur, d).unwrap()),
        def_outcome(vs, cur, d).unwrap().name == derived_name(d.name, cur),
{
    match d.data {
        DataView::Struct(fs) => {
            lemma_fields_structure(vs, cur, fs);
        },
        DataView::Enum(s) => {
            let f = variant_step(vs, cur);
            assert forall|a: VariantView| !(#[trigger] f(a) matches Ok(None)) by {}
            let t = collect(s, f).unwrap();
            lemma_collect_total(s, f, t);
            assert forall|i: int| 0 <= i < s.len() implies (#[trigger] s[i]).name == t[i].name && same_fields(s[i].fields, t[i].fields) by {
                assert(f(s[i]) == Ok::<Option<VariantView>, UsageError>(Some(t[i])));
                lemma_fields_structure(vs, cur, s[i].fields);
            }
        },
        DataView::Union => {},
    }
}

/// The output is the base definition under the input's own name, followed by
/// one definition per declared variant, in declared order, each named with the
/// variant's name appended.
pub proof fn lemma_names(vs: Seq<Seq<char>>, d: TypeDefView)
    requires
        all_defs(vs, d) is Ok,
    ensures
        ({
            let ds = all_defs(vs, d).unwrap();
            &&& ds.len() == vs.len() + 1
            &&& ds[0].name == d.name
            &&& forall|i: int| 0 <= i < vs.len() ==> (#[trigger] ds[i + 1]).name == d.name + vs[i]
        }),
{
    let s = passes(vs);
    let f = def_step(vs, d);
    let ds = all_defs(vs, d).unwrap();
    assert forall|c: Option<Seq<char>>| !(#[trigger] f(c) matches Ok(None)) by {}
    lemma_collect_total(s, f, ds);
    assert(s[0] == None::<Seq<char>>);
    assert(f(s[0]) == Ok::<Option<TypeDefView>, UsageError>(Some(ds[0])));
    lemma_structure_preserved(vs, None, d);
    assert forall|i: int| 0 <= i < vs.len() implies (#[trigger] ds[i + 1]).name == d.name + vs[i] by {
        assert(s[i + 1] == Some(vs[i]));
        assert(f(s[i + 1]) == Ok::<Option<TypeDefView>, UsageError>(Some(ds[i + 1])));
        lemma_structure_preserved(vs, Some(vs[i]), d);
    }
}

/// A union is refused whatever its attributes hold.
pub proof fn lemma_union_refused(vs: Seq<Seq<char>>, d: TypeDefView)
    requires
        d.data == DataView::Union,
    ensures
        all_defs(vs, d) == Err::<Seq<TypeDefView>, UsageError>(UsageError::Union),
{
    let s = passes(vs);
    let f = def_step(vs, d);
    assert(s.take(1).drop_last() =~= s.take(0));
    assert(s.take(0) =~= Seq::<Option<Seq<char>>>::empty());
    assert(s[0] == None::<Seq<char>>);
    assert(s.take(1).last() == None::<Seq<char>>);
    assert(collect(s.take(0), f) == Ok::<Seq<TypeDefView>, UsageError>(seq![]));
    assert(f(None) == some_ok(def_outcome(vs, None, d)));
    assert(collect(s.take(1), f) == Err::<Seq<TypeDefView>, UsageError>(UsageError::Union));
    lemma_collect_err(s, f, 1);
}

/// The fields of a field list, whatever its shape.
pub open spec fn field_seq(fs: FieldsView) -> Seq<FieldView> {
    match fs {
        FieldsView::Named(s) => s,
        FieldsView::Unnamed(s) => s,
        FieldsView::Unit => seq![],
    }
}

/// The fields of a struct definition; none for an enum or a union.
pub open spec fn struct_fields(d: TypeDefView) -> Seq<FieldView> {
    match d.data {
        DataView::Struct(fs) => field_seq(fs),
        _ => seq![],
    }
}

/// In a rewritten field list, each field's attributes are that field's input
/// attributes, each rewritten on its own for `cur`.
pub proof fn lemma_fields_are_projections(vs: Seq<Seq<char>>, cur: Option<Seq<char>>, fs: FieldsView)
    requires
        fields_outcome(vs, cur, fs) is Ok,
    ensures
        field_seq(fields_outcome(vs, cur, fs).unwrap()).len() == field_seq(fs).len(),
        forall|j: int| 0 <= j < field_seq(fs).len() ==> collect((#[trigger] field_seq(fs)[j]).attrs, attr_step(vs, cur))
            == Ok::<Seq<AttrView>, UsageError>(field_seq(fields_outcome(vs, cur, fs).unwrap())[j].attrs),
{
    let f = field_step(vs, cur);
    assert forall|a: FieldView| !(#[trigger] f(a) matches Ok(None)) by {}
    let s = field_seq(fs);
    if !(fs matches FieldsView::Unit) {
        let t = collect(s, f).unwrap();
        lemma_collect_total(s, f, t);
        assert forall|j: int| 0 <= j < s.len() implies collect((#[trigger] s[j]).attrs, attr_step(vs, cur))
            == Ok::<Seq<AttrView>, UsageError>(t[j].attrs) by {
            assert(f(s[j]) == Ok::<Option<FieldView>, UsageError>(Some(t[j])));
        }
    }
}

/// Each generated definition is the input rewritten for its own pass alone:
/// the base definition first, then one per declared variant.
pub proof fn lemma_defs_are_projections(vs: Seq<Seq<char>>, d: TypeDefView)
    requires
        all_defs(vs, d) is Ok,
    ensures
        all_defs(vs, d).unwrap().len() == passes(vs).len(),
        passes(vs).len() == vs.len() + 1,
        passes(vs)[0] == None::<Seq<char>>,
        forall|k: int| 0 <= k < vs.len() ==> #[trigger] passes(vs)[k + 1] == Some(vs[k]),
        forall|k: int| 0 <= k < passes(vs).len() ==> def_outcome(vs, #[trigger] passes(vs)[k], d)
            == Ok::<TypeDefView, UsageError>(all_defs(vs, d).unwrap()[k]),
{
    let s = passes(vs);
    let f = def_step(vs, d);
    let ds = all_defs(vs, d).unwrap();
    assert forall|c: Option<Seq<char>>| !(#[trigger] f(c) matches Ok(None)) by {}
    lemma_collect_total(s, f, ds);
    assert forall|k: int| 0 <= k < s.len() implies def_outcome(vs, #[trigger] s[k], d)
        == Ok::<TypeDefView, UsageError>(ds[k]) by {
        assert(f(s[k]) == Ok::<Option<TypeDefView>, UsageError>(Some(ds[k])));
    }
}

/// On the definition of pass `k`, field `j` of a struct carries exactly its
/// input attributes rewritten for that pass.
proof fn lemma_struct_field_attrs(vs: Seq<Seq<char>>, d: TypeDefView, j: int, k: int)
    requires
        all_defs(vs, d) is Ok,
        d.data is Struct,
        0 <= j < struct_fields(d).len(),
        0 <= k < passes(vs).len(),
    ensures
        j < struct_fields(all_defs(vs, d).unwrap()[k]).len(),
        collect(struct_fields(d)[j].attrs, attr_step(vs, passes(vs)[k]))
            == Ok::<Seq<AttrView>, UsageError>(struct_fields(all_defs(vs, d).unwrap()[k])[j].attrs),
{
    lemma_defs_are_projections(vs, d);
    let cur = passes(vs)[k];
    assert(def_outcome(vs, cur, d) == Ok::<TypeDefView, UsageError>(all_defs(vs, d).unwrap()[k]));
    if let DataView::Struct(fs) = d.data {
        lemma_fields_are_projections(vs, cur, fs);
        assert(field_seq(fs)[j] == struct_fields(d)[j]);
    }
}

/// On every definition generated from a struct, a well-formed directive on a
/// field survives, stripped, exactly when its targets select that definition,
/// and adds nothing to the field otherwise.
pub proof fn lemma_partition_in_output(vs: Seq<Seq<char>>, d: TypeDefView, j: int, i: int, k: int)
    requires
        all_defs(vs, d) is Ok,
        d.data is Struct,
        0 <= j < struct_fields(d).len(),
        0 <= i < struct_fields(d)[j].attrs.len(),
        well_formed_directive(vs, struct_fields(d)[j].attrs[i]),
        0 <= k < passes(vs).len(),
    ensures
        ({
            let a = struct_fields(d)[j].attrs[i];
            let out = struct_fields(all_defs(vs, d).unwrap()[k])[j].attrs;
            &&& keeps(directive_targets(vs, a), passes(vs)[k]) ==> out.contains(stripped(vs, a))
            &&& !keeps(directive_targets(vs, a), passes(vs)[k]) ==> attr_outcome(vs, passes(vs)[k], a)
                == Ok::<Option<AttrView>, UsageError>(None)
            &&& forall|x: int| 0 <= x < out.len() ==> exists|y: int| 0 <= y < struct_fields(d)[j].attrs.len()
                && #[trigger] attr_outcome(vs, passes(vs)[k], struct_fields(d)[j].attrs[y])
                == Ok::<Option<AttrView>, UsageError>(Some(#[trigger] out[x]))
        }),
{
    let a = struct_fields(d)[j].attrs[i];
    let cur = passes(vs)[k];
    lemma_struct_field_attrs(vs, d, j, k);
    let out = struct_fields(all_defs(vs, d).unwrap()[k])[j].attrs;
    lemma_collect_members(struct_fields(d)[j].attrs, attr_step(vs, cur), out);
    lemma_partition(vs, cur, a);
    assert(attr_step(vs, cur)(struct_fields(d)[j].attrs[i]) == attr_outcome(vs, cur, a));
    assert forall|x: int| 0 <= x < out.len() implies exists|y: int| 0 <= y < struct_fields(d)[j].attrs.len()
        && #[trigger] attr_outcome(vs, cur, struct_fields(d)[j].attrs[y])
        == Ok::<Option<AttrView>, UsageError>(Some(#[trigger] out[x])) by {
        let y = choose|y: int| 0 <= y < struct_fields(d)[j].attrs.len() && #[trigger] attr_step(vs, cur)(struct_fields(d)[j].attrs[y])
            == Ok::<Option<AttrView>, UsageError>(Some(out[x]));
        assert(attr_step(vs, cur)(struct_fields(d)[j].attrs[y]) == attr_outcome(vs, cur, struct_fields(d)[j].attrs[y]));
    }
}

/// An attribute of a struct's field that is not a directive appears unchanged
/// on that field in every generated definition.
pub proof fn lemma_pass_through_in_output(vs: Seq<Seq<char>>, d: TypeDefView, j: int, i: int, k: int)
    requires
        all_defs(vs, d) is Ok,
        d.data is Struct,
        0 <= j < struct_fields(d).len(),
        0 <= i < struct_fields(d)[j].attrs.len(),
        !is_marker(struct_fields(d)[j].attrs[i].path),
        0 <= k < passes(vs).len(),
    ensures
        struct_fields(all_defs(vs, d).unwrap()[k])[j].attrs.contains(struct_fields(d)[j].attrs[i]),
{
    let a = struct_fields(d)[j].attrs[i];
    let cur = passes(vs)[k];
    lemma_struct_field_attrs(vs, d, j, k);
    let out = struct_fields(all_defs(vs, d).unwrap()[k])[j].attrs;
    lemma_collect_members(struct_fields(d)[j].attrs, attr_step(vs, cur), out);
    assert(attr_step(vs, cur)(struct_fields(d)[j].attrs[i]) == attr_outcome(vs, cur, a));
}

/// On a struct, a well-formed directive that targets only the base definition
/// survives, stripped, on the base definition and is dropped from every
/// variant's definition; one that targets a single variant survives on that
/// variant's definition alone.
pub proof fn lemma_exclusivity_in_output(vs: Seq<Seq<char>>, d: TypeDefView, j: int, i: int, k: int)
    requires
        all_defs(vs, d) is Ok,
        d.data is Struct,
        0 <= j < struct_fields(d).len(),
        0 <= i < struct_fields(d)[j].attrs.len(),
        well_formed_directive(vs, struct_fields(d)[j].attrs[i]),
        !vs.contains(wildcard()),
        0 <= k < passes(vs).len(),
    ensures
        ({
            let a = struct_fields(d)[j].attrs[i];
            let out = struct_fields(all_defs(vs, d).unwrap()[k])[j].attrs;
            &&& directive_targets(vs, a) == seq![wildcard()] ==> (k == 0 ==> out.contains(stripped(vs, a)))
                && (k > 0 ==> attr_outcome(vs, passes(vs)[k], a) == Ok::<Option<AttrView>, UsageError>(None))
            &&& forall|t: Seq<char>| directive_targets(vs, a) == seq![t] && t != wildcard() ==> (
                (passes(vs)[k] == Some(t) ==> out.contains(stripped(vs, a)))
                && (passes(vs)[k] != Some(t) ==> #[trigger] attr_outcome(vs, passes(vs)[k], a)
                    == Ok::<Option<AttrView>, UsageError>(None)))
        }),
{
    let a = struct_fields(d)[j].attrs[i];
    lemma_defs_are_projections(vs, d);
    lemma_partition_in_output(vs, d, j, i, k);
    if k > 0 {
        assert(passes(vs)[(k - 1) + 1] == Some(vs[k - 1]));
        assert(vs[k - 1] != wildcard());
        if directive_targets(vs, a) == seq![wildcard()] {
            lemma_wildcard_only(vs, vs[k - 1], a);
        }
    } else if directive_targets(vs, a) == seq![wildcard()] {
        assert(seq![wildcard()][0] == wildcard());
    }
    assert forall|t: Seq<char>| directive_targets(vs, a) == seq![t] && t != wildcard() implies (
        (passes(vs)[k] == Some(t) ==> struct_fields(all_defs(vs, d).unwrap()[k])[j].attrs.contains(stripped(vs, a)))
        && (passes(vs)[k] != Some(t) ==> #[trigger] attr_outcome(vs, passes(vs)[k], a)
            == Ok::<Option<AttrView>, UsageError>(None))) by {
        lemma_single_target(vs, t, passes(vs)[k], a);
        assert(seq![t][0] == t);
    }
}

} // verus!
