use vstd::prelude::*;
use crate::token::Tok;
use crate::directive::{UsageError, names, opt_name, idents_of};
use crate::rewrite::{
    Fields, FieldsView, filter_fields, fields_outcome, collect, lemma_collect_err, views, res_view,
    vec_res_view, some_ok,
};

verus! {

/// A variant of an enum.
pub struct Variant {
    pub name: String,
    pub fields: Fields,
}

pub struct VariantView {
    pub name: Seq<char>,
    pub fields: FieldsView,
}

impl View for Variant {
    type V = VariantView;

    open spec fn view(&self) -> VariantView {
        VariantView { name: self.name@, fields: self.fields@ }
    }
}

/// The body of a type definition.
pub enum Data {
    Struct(Fields),
    Enum(Vec<Variant>),
    Union,
}

pub enum DataView {
    Struct(FieldsView),
    Enum(Seq<VariantView>),
    Union,
}

impl View for Data {
    type V = DataView;

    open spec fn view(&self) -> DataView {
        match self {
            Data::Struct(f) => DataView::Struct(f@),
            Data::Enum(v) => DataView::Enum(views(v@)),
            Data::Union => DataView::Union,
        }
    }
}

/// A type definition: its name and its body.
pub struct TypeDef {
    pub name: String,
    pub data: Data,
}

pub struct TypeDefView {
    pub name: Seq<char>,
    pub data: DataView,
}

impl View for TypeDef {
    type V = TypeDefView;

    open spec fn view(&self) -> TypeDefView {
        TypeDefView { name: self.name@, data: self.data@ }
    }
}

pub open spec fn variant_outcome(vs: Seq<Seq<char>>, cur: Option<Seq<char>>, v: VariantView) -> Result<VariantView, UsageError> {
    match fields_outcome(vs, cur, v.fields) {
        Ok(f) => Ok(VariantView { name: v.name, fields: f }),
        Err(e) => Err(e),
    }
}

pub open spec fn variant_step(vs: Seq<Seq<char>>, cur: Option<Seq<char>>) -> spec_fn(VariantView) -> Result<Option<VariantView>, UsageError> {
    |v: VariantView| some_ok(variant_outcome(vs, cur, v))
}

/// The name of the definition generated for `cur`.
pub open spec fn derived_name(name: Seq<char>, cur: Option<Seq<char>>) -> Seq<char> {
    match cur {
        Some(v) => name + v,
        None => name,
    }
}

/// The definition generated from `d` for `cur` (`None` for the base one).
pub open spec fn def_outcome(vs: Seq<Seq<char>>, cur: Option<Seq<char>>, d: TypeDefView) -> Result<TypeDefView, UsageError> {
    match d.data {
        DataView::Struct(fs) => match fields_outcome(vs, cur, fs) {
            Ok(g) => Ok(TypeDefView { name: derived_name(d.name, cur), data: DataView::Struct(g) }),
            Err(e) => Err(e),
        },
        DataView::Enum(s) => match collect(s, variant_step(vs, cur)) {
            Ok(t) => Ok(TypeDefView { name: derived_name(d.name, cur), data: DataView::Enum(t) }),
            Err(e) => Err(e),
        },
        DataView::Union => Err(UsageError::Union),
    }
}

/// The definitions to generate, in order: the base one, then one per variant.
pub open spec fn passes(vs: Seq<Seq<char>>) -> Seq<Option<Seq<char>>> {
    seq![None].add(vs.map_values(|v: Seq<char>| Some(v)))
}

pub open spec fn def_step(vs: Seq<Seq<char>>, d: TypeDefView) -> spec_fn(Option<Seq<char>>) -> Result<Option<TypeDefView>, UsageError> {
    |cur: Option<Seq<char>>| some_ok(def_outcome(vs, cur, d))
}

/// Everything generated from `d` for the variants `vs`.
pub open spec fn all_defs(vs: Seq<Seq<char>>, d: TypeDefView) -> Result<Seq<TypeDefView>, UsageError> {
    collect(passes(vs), def_step(vs, d))
}

/// The variant list of the type-level directive: identifiers separated by commas.
pub open spec fn config_ok(s: Seq<Tok>) -> bool {
    forall|i: int| 0 <= i < s.len() ==> (#[trigger] s[i] matches Tok::Ident(_) || (s[i] matches Tok::Punct(c, _) && c == ','))
}

/// Rewrites one variant of an enum; only the attributes of its fields change.
pub fn filter_variant(variants: &Vec<String>, cur: Option<&String>, v: &Variant) -> (r: Result<Variant, UsageError>)
    ensures
        res_view(r) == variant_outcome(names(variants@), opt_name(cur), v@),
{
    match filter_fields(variants, cur, &v.fields) {
        Ok(f) => Ok(Variant { name: v.name.clone(), fields: f }),
        Err(e) => Err(e),
    }
}

/// Rewrites the variants of an enum, keeping their order.
pub fn filter_variant_list(variants: &Vec<String>, cur: Option<&String>, list: &Vec<Variant>) -> (r: Result<Vec<Variant>, UsageError>)
    ensures
        vec_res_view(r) == collect(views(list@), variant_step(names(variants@), opt_name(cur))),
{
    let ghost s = views(list@);
    let ghost f = variant_step(names(variants@), opt_name(cur));
    let mut out: Vec<Variant> = Vec::new();
    let mut i: usize = 0;
    assert(s.take(0) =~= Seq::<VariantView>::empty());
    assert(views(out@) =~= Seq::<VariantView>::empty());
    while i < list.len()
        invariant
            i <= list@.len(),
            s == views(list@),
            f == variant_step(names(variants@), opt_name(cur)),
            collect(s.take(i as int), f) == Ok::<Seq<VariantView>, UsageError>(views(out@)),
        decreases list@.len() - i,
    {
        let ghost before = out@;
        assert(s.take(i + 1).drop_last() =~= s.take(i as int));
        assert(s.take(i + 1).last() == list@[i as int]@);
        match filter_variant(variants, cur, &list[i]) {
            Err(e) => {
                proof {
                    lemma_collect_err(s, f, i + 1);
                }
                return Err(e);
            },
            Ok(g) => {
                out.push(g);
                assert(views(out@) =~= views(before).push(g@));
            },
        }
        i = i + 1;
    }
    assert(s.take(i as int) =~= s);
    Ok(out)
}

/// Generates the definition for `cur` from `d`: renamed with the variant's name
/// appended, and with each field's attributes rewritten.
pub fn filter_def(variants: &Vec<String>, cur: Option<&String>, d: &TypeDef) -> (r: Result<TypeDef, UsageError>)
    ensures
        res_view(r) == def_outcome(names(variants@), opt_name(cur), d@),
{
    let data = match &d.data {
        Data::Struct(fs) => match filter_fields(variants, cur, fs) {
            Ok(g) => Data::Struct(g),
            Err(e) => {
                return Err(e);
            },
        },
        Data::Enum(list) => match filter_variant_list(variants, cur, list) {
            Ok(t) => Data::Enum(t),
            Err(e) => {
                return Err(e);
            },
        },
        Data::Union => {
            return Err(UsageError::Union);
        },
    };
    let name = match cur {
        Some(v) => d.name.clone().concat(v.as_str()),
        None => d.name.clone(),
    };
    Ok(TypeDef { name, data })
}

/// Reads the variant list of the type-level directive.
pub fn parse_variants(config: &Vec<Tok>) -> (r: Result<Vec<String>, UsageError>)
    ensures
        match r {
            Ok(v) => config_ok(config@) && names(v@) == idents_of(config@),
            Err(e) => !config_ok(config@) && e == UsageError::BadConfigToken,
        },
{
    let mut out: Vec<String> = Vec::new();
    let mut i: usize = 0;
    while i < config.len()
        invariant
            i <= config@.len(),
            config_ok(config@.take(i as int)),
            names(out@) == idents_of(config@.take(i as int)),
        decreases config@.len() - i,
    {
        let ghost before = out@;
        assert(config@.take(i + 1).drop_last() =~= config@.take(i as int));
        match &config[i] {
            Tok::Ident(s) => {
                out.push(s.clone());
                assert(names(out@) =~= names(before).push(s@));
            },
            Tok::Punct(c, _) => {
                if *c != ',' {
                    assert(!(config@[i as int] matches Tok::Ident(_)));
                    return Err(UsageError::BadConfigToken);
                }
            },
            _ => {
                return Err(UsageError::BadConfigToken);
            },
        }
        i = i + 1;
        assert(config_ok(config@.take(i as int))) by {
            assert forall|j: int| 0 <= j < i implies #[trigger] config@.take(i as int)[j] == config@[j] by {}
        }
    }
    assert(config@.take(i as int) =~= config@);
    Ok(out)
}

/// Generates, from the variant list `config` and the definition `item`, the base
/// definition followed by one definition per listed variant, in list order.
pub fn attrsets(config: &Vec<Tok>, item: &TypeDef) -> (r: Result<Vec<TypeDef>, UsageError>)
    ensures
        !config_ok(config@) ==> r == Err::<Vec<TypeDef>, UsageError>(UsageError::BadConfigToken),
        config_ok(config@) ==> vec_res_view(r) == all_defs(idents_of(config@), item@),
{
    let variants = match parse_variants(config) {
        Ok(v) => v,
        Err(e) => {
            return Err(e);
        },
    };
    let ghost vs = names(variants@);
    let ghost s = passes(vs);
    let ghost f = def_step(vs, item@);
    let mut out: Vec<TypeDef> = Vec::new();
    assert(s.take(0) =~= Seq::<Option<Seq<char>>>::empty());
    assert(s.take(1).drop_last() =~= s.take(0));
    assert(s[0] == None::<Seq<char>>);
    assert(s.take(1).last() == None::<Seq<char>>);
    assert(collect(s.take(0), f) == Ok::<Seq<TypeDefView>, UsageError>(seq![]));
    assert(f(None) == some_ok(def_outcome(vs, None, item@)));
    match filter_def(&variants, None, item) {
        Ok(b) => {
            out.push(b);
            assert(views(out@) =~= seq![b@]);
        },
        Err(e) => {
            proof {
                lemma_collect_err(s, f, 1);
            }
            return Err(e);
        },
    }
    let mut i: usize = 0;
    while i < variants.len()
        invariant
            i <= variants@.len(),
            vs == names(variants@),
            config_ok(config@),
            vs == idents_of(config@),
            s == passes(vs),
            f == def_step(vs, item@),
            collect(s.take(i + 1), f) == Ok::<Seq<TypeDefView>, UsageError>(views(out@)),
        decreases variants@.len() - i,
    {
        let ghost before = out@;
        assert(s.take(i + 2).drop_last() =~= s.take(i + 1));
        assert(s[i + 1] == Some(vs[i as int]));
        assert(s.take(i + 2).last() == Some(variants@[i as int]@));
        match filter_def(&variants, Some(&variants[i]), item) {
            Err(e) => {
                proof {
                    lemma_collect_err(s, f, i + 2);
                }
                return Err(e);
            },
            Ok(g) => {
                out.push(g);
                assert(views(out@) =~= views(before).push(g@));
            },
        }
        i = i + 1;
    }
    assert(s.take(i + 1) =~= s);
    Ok(out)
}

} // verus!
