use attrsets::directive::UsageError;
use attrsets::generate::{attrsets, Data, TypeDef, Variant};
use attrsets::rewrite::{apply_directive, filter_field, Attr, Field, Fields};
use attrsets::token::{Delim, Tok};

fn id(s: &str) -> Tok {
    Tok::Ident(s.to_string())
}

fn comma() -> Tok {
    Tok::Punct(',', false)
}

fn colon() -> Tok {
    Tok::Punct(':', false)
}

/// `::`, as two joined colons.
fn path_sep() -> Vec<Tok> {
    vec![Tok::Punct(':', true), Tok::Punct(':', false)]
}

/// `#[attrset(<contents>)]`
fn directive(contents: Vec<Tok>) -> Attr {
    let mut tokens = vec![Tok::Open(Delim::Paren)];
    tokens.extend(contents);
    tokens.push(Tok::Close);
    Attr { path: vec![id("attrset")], tokens }
}

/// `#[doc = "x"]`
fn doc_attr() -> Attr {
    Attr { path: vec![id("doc")], tokens: vec![Tok::Punct('=', false), Tok::Lit("\"x\"".to_string())] }
}

fn field(name: &str, attrs: Vec<Attr>) -> Field {
    Field { attrs, name: Some(name.to_string()), ty: vec![id("u32")] }
}

fn config(names: &[&str]) -> Vec<Tok> {
    let mut out = Vec::new();
    for (i, n) in names.iter().enumerate() {
        if i > 0 {
            out.push(comma());
        }
        out.push(id(n));
    }
    out
}

fn strukt(fields: Vec<Field>) -> TypeDef {
    TypeDef { name: "T".to_string(), data: Data::Struct(Fields::Named(fields)) }
}

fn named_fields(d: &TypeDef) -> &Vec<Field> {
    match &d.data {
        Data::Struct(Fields::Named(v)) => v,
        _ => panic!("expected a struct with named fields"),
    }
}

fn first_field_attrs(d: &TypeDef) -> &Vec<Attr> {
    &named_fields(d)[0].attrs
}

#[test]
fn names_follow_declared_variants() {
    let out = attrsets(&config(&["A", "B"]), &strukt(vec![field("x", vec![])])).unwrap();
    let names: Vec<&str> = out.iter().map(|d| d.name.as_str()).collect();
    assert_eq!(names, vec!["T", "TA", "TB"]);
}

#[test]
fn no_variants_gives_base_only() {
    let out = attrsets(&vec![], &strukt(vec![field("x", vec![])])).unwrap();
    assert_eq!(out.len(), 1);
    assert_eq!(out[0].name, "T");
}

#[test]
fn duplicate_variants_give_duplicate_definitions() {
    let out = attrsets(&config(&["A", "A"]), &strukt(vec![])).unwrap();
    let names: Vec<&str> = out.iter().map(|d| d.name.as_str()).collect();
    assert_eq!(names, vec!["T", "TA", "TA"]);
}

#[test]
fn multi_target_directive_kept_on_base_and_variant() {
    let mut c = vec![id("_"), comma(), id("A"), colon(), id("foo")];
    c.extend(path_sep());
    c.push(id("bar"));
    let out = attrsets(&config(&["A", "B"]), &strukt(vec![field("x", vec![directive(c)])])).unwrap();
    let mut path = vec![id("foo")];
    path.extend(path_sep());
    path.push(id("bar"));
    for i in [0usize, 1] {
        let attrs = first_field_attrs(&out[i]);
        assert_eq!(attrs.len(), 1);
        assert_eq!(attrs[0].path, path);
        assert!(attrs[0].tokens.is_empty());
    }
    assert!(first_field_attrs(&out[2]).is_empty());
}

#[test]
fn wildcard_directive_only_on_base() {
    let d = directive(vec![id("_"), colon(), id("foo")]);
    let out = attrsets(&config(&["A", "B"]), &strukt(vec![field("x", vec![d])])).unwrap();
    assert_eq!(first_field_attrs(&out[0]).len(), 1);
    assert_eq!(first_field_attrs(&out[0])[0].path, vec![id("foo")]);
    assert!(first_field_attrs(&out[1]).is_empty());
    assert!(first_field_attrs(&out[2]).is_empty());
}

#[test]
fn single_variant_directive_only_on_that_variant() {
    let d = directive(vec![id("A"), colon(), id("foo")]);
    let out = attrsets(&config(&["A", "B"]), &strukt(vec![field("x", vec![d])])).unwrap();
    assert!(first_field_attrs(&out[0]).is_empty());
    assert_eq!(first_field_attrs(&out[1]).len(), 1);
    assert!(first_field_attrs(&out[2]).is_empty());
}

#[test]
fn other_attributes_pass_through_everywhere() {
    let d = directive(vec![id("B"), colon(), id("foo")]);
    let out = attrsets(&config(&["A", "B"]), &strukt(vec![field("x", vec![doc_attr(), d])])).unwrap();
    for def in &out {
        let attrs = first_field_attrs(def);
        assert_eq!(attrs[0].path, vec![id("doc")]);
        assert_eq!(attrs[0].tokens, doc_attr().tokens);
    }
    assert_eq!(first_field_attrs(&out[0]).len(), 1);
    assert_eq!(first_field_attrs(&out[1]).len(), 1);
    assert_eq!(first_field_attrs(&out[2]).len(), 2);
}

#[test]
fn trailing_tokens_become_attribute_body() {
    let c = vec![
        id("A"),
        colon(),
        id("serde"),
        Tok::Open(Delim::Paren),
        id("rename"),
        Tok::Punct('=', false),
        Tok::Lit("\"y\"".to_string()),
        Tok::Close,
    ];
    let out = attrsets(&config(&["A"]), &strukt(vec![field("x", vec![directive(c)])])).unwrap();
    let a = &first_field_attrs(&out[1])[0];
    assert_eq!(a.path, vec![id("serde")]);
    assert_eq!(
        a.tokens,
        vec![Tok::Open(Delim::Paren), id("rename"), Tok::Punct('=', false), Tok::Lit("\"y\"".to_string()), Tok::Close]
    );
}

#[test]
fn duplicate_targets_keep_one_copy() {
    let d = directive(vec![id("A"), comma(), id("A"), colon(), id("foo")]);
    let out = attrsets(&config(&["A"]), &strukt(vec![field("x", vec![d])])).unwrap();
    assert_eq!(first_field_attrs(&out[1]).len(), 1);
    assert!(first_field_attrs(&out[0]).is_empty());
}

#[test]
fn empty_target_list_never_survives() {
    let d = directive(vec![colon(), id("foo")]);
    let out = attrsets(&config(&["A"]), &strukt(vec![field("x", vec![d])])).unwrap();
    assert!(first_field_attrs(&out[0]).is_empty());
    assert!(first_field_attrs(&out[1]).is_empty());
}

#[test]
fn undeclared_target_alone_is_a_bad_path() {
    let d = directive(vec![id("C"), colon(), id("foo")]);
    let r = attrsets(&config(&["A", "B"]), &strukt(vec![field("x", vec![d])]));
    assert_eq!(r.err(), Some(UsageError::BadPath));
}

#[test]
fn bad_path_refused_even_where_not_kept() {
    let d = directive(vec![id("A"), colon(), Tok::Lit("1".to_string())]);
    let r = filter_field(&vec!["A".to_string(), "B".to_string()], None, &field("x", vec![d]));
    assert_eq!(r.err(), Some(UsageError::BadPath));
    let d = directive(vec![id("_"), colon(), Tok::Lit("1".to_string())]);
    let a = "A".to_string();
    let r = filter_field(&vec![a.clone()], Some(&a), &field("x", vec![d]));
    assert_eq!(r.err(), Some(UsageError::BadPath));
}

#[test]
fn empty_path_run_is_refused() {
    let d = directive(vec![id("_"), colon()]);
    let r = attrsets(&config(&["A"]), &strukt(vec![field("x", vec![d])]));
    assert_eq!(r.err(), Some(UsageError::BadPath));
}

fn foo_bar_payload() -> Vec<Tok> {
    let mut p = vec![id("foo")];
    p.extend(path_sep());
    p.push(id("bar"));
    p.push(Tok::Open(Delim::Paren));
    p.push(id("x"));
    p.push(Tok::Close);
    p
}

#[test]
fn accepted_path_is_split_from_its_body() {
    let r = apply_directive(&foo_bar_payload(), true, true).unwrap().unwrap();
    let mut path = vec![id("foo")];
    path.extend(path_sep());
    path.push(id("bar"));
    assert_eq!(r.path, path);
    assert_eq!(r.tokens, vec![Tok::Open(Delim::Paren), id("x"), Tok::Close]);
}

#[test]
fn accepted_path_not_selected_is_dropped() {
    assert!(apply_directive(&foo_bar_payload(), true, false).unwrap().is_none());
}

#[test]
fn refused_path_is_an_error_either_way() {
    assert_eq!(apply_directive(&foo_bar_payload(), false, true).err(), Some(UsageError::BadPath));
    assert_eq!(apply_directive(&foo_bar_payload(), false, false).err(), Some(UsageError::BadPath));
}

#[test]
fn payload_without_path_run_is_an_error() {
    let p = vec![Tok::Lit("1".to_string())];
    assert_eq!(apply_directive(&p, true, true).err(), Some(UsageError::BadPath));
}

#[test]
fn valid_path_with_no_targets_is_dropped() {
    let d = directive(vec![id("foo")]);
    let out = attrsets(&config(&["A"]), &strukt(vec![field("x", vec![d])])).unwrap();
    assert!(first_field_attrs(&out[0]).is_empty());
    assert!(first_field_attrs(&out[1]).is_empty());
}

#[test]
fn undeclared_target_after_kept_one_is_a_bad_path() {
    let d = directive(vec![id("_"), comma(), id("C"), colon(), id("foo")]);
    let r = attrsets(&config(&["A", "B"]), &strukt(vec![field("x", vec![d])]));
    assert_eq!(r.err(), Some(UsageError::BadPath));
}

#[test]
fn unparenthesised_directive_is_refused() {
    let d = Attr { path: vec![id("attrset")], tokens: vec![Tok::Punct('=', false), Tok::Lit("\"A\"".to_string())] };
    let r = attrsets(&config(&["A"]), &strukt(vec![field("x", vec![d])]));
    assert_eq!(r.err(), Some(UsageError::NotParenthesized));
}

#[test]
fn bracketed_directive_is_refused() {
    let d = Attr { path: vec![id("attrset")], tokens: vec![Tok::Open(Delim::Bracket), id("A"), Tok::Close] };
    let r = attrsets(&config(&["A"]), &strukt(vec![field("x", vec![d])]));
    assert_eq!(r.err(), Some(UsageError::NotParenthesized));
}

#[test]
fn bare_directive_is_refused() {
    let d = Attr { path: vec![id("attrset")], tokens: vec![] };
    let r = attrsets(&config(&["A"]), &strukt(vec![field("x", vec![d])]));
    assert_eq!(r.err(), Some(UsageError::NotParenthesized));
}

#[test]
fn union_is_refused() {
    let d = TypeDef { name: "U".to_string(), data: Data::Union };
    assert_eq!(attrsets(&config(&["A"]), &d).err(), Some(UsageError::Union));
}

#[test]
fn bad_config_token_is_refused() {
    let c = vec![id("A"), Tok::Punct('=', false)];
    assert_eq!(attrsets(&c, &strukt(vec![])).err(), Some(UsageError::BadConfigToken));
}

#[test]
fn kept_payload_without_path_is_refused() {
    let d = directive(vec![id("A"), colon(), Tok::Lit("1".to_string())]);
    let r = attrsets(&config(&["A"]), &strukt(vec![field("x", vec![d])]));
    assert_eq!(r.err(), Some(UsageError::BadPath));
}

#[test]
fn leading_path_separator_is_a_path() {
    let mut c = vec![id("A"), colon()];
    c.extend(path_sep());
    c.push(id("foo"));
    let out = attrsets(&config(&["A"]), &strukt(vec![field("x", vec![directive(c)])])).unwrap();
    assert_eq!(first_field_attrs(&out[1]).len(), 1);
}

#[test]
fn separated_colons_are_not_a_path() {
    let c = vec![id("A"), colon(), id("foo"), colon(), colon(), id("bar")];
    let r = attrsets(&config(&["A"]), &strukt(vec![field("x", vec![directive(c)])]));
    assert_eq!(r.err(), Some(UsageError::BadPath));
}

#[test]
fn enum_variants_filtered_and_kept_in_order() {
    let d = directive(vec![id("A"), colon(), id("foo")]);
    let item = TypeDef {
        name: "E".to_string(),
        data: Data::Enum(vec![
            Variant { name: "P".to_string(), fields: Fields::Unit },
            Variant {
                name: "Q".to_string(),
                fields: Fields::Unnamed(vec![Field { attrs: vec![d], name: None, ty: vec![id("u8")] }]),
            },
        ]),
    };
    let out = attrsets(&config(&["A"]), &item).unwrap();
    assert_eq!(out[1].name, "EA");
    for (i, def) in out.iter().enumerate() {
        match &def.data {
            Data::Enum(vs) => {
                assert_eq!(vs.len(), 2);
                assert_eq!(vs[0].name, "P");
                assert!(matches!(vs[0].fields, Fields::Unit));
                assert_eq!(vs[1].name, "Q");
                match &vs[1].fields {
                    Fields::Unnamed(f) => {
                        assert_eq!(f.len(), 1);
                        assert_eq!(f[0].ty, vec![id("u8")]);
                        assert_eq!(f[0].attrs.len(), if i == 1 { 1 } else { 0 });
                    },
                    _ => panic!("expected unnamed fields"),
                }
            },
            _ => panic!("expected an enum"),
        }
    }
}

#[test]
fn base_keeps_field_names_and_types() {
    let d = directive(vec![id("A"), colon(), id("foo")]);
    let item = strukt(vec![field("x", vec![d]), field("y", vec![doc_attr()])]);
    let out = attrsets(&config(&["A"]), &item).unwrap();
    for def in &out {
        let f = named_fields(def);
        assert_eq!(f.len(), 2);
        assert_eq!(f[0].name.as_deref(), Some("x"));
        assert_eq!(f[1].name.as_deref(), Some("y"));
        assert_eq!(f[0].ty, vec![id("u32")]);
    }
}

#[test]
fn directive_errors_come_from_base_first() {
    let good = directive(vec![id("A"), colon(), id("foo")]);
    let bad = Attr { path: vec![id("attrset")], tokens: vec![] };
    let r = attrsets(&config(&["A"]), &strukt(vec![field("x", vec![good]), field("y", vec![bad])]));
    assert_eq!(r.err(), Some(UsageError::NotParenthesized));
}

#[test]
fn comma_separated_payload_is_accepted() {
    let d = directive(vec![id("A"), comma(), id("foo")]);
    let out = attrsets(&config(&["A"]), &strukt(vec![field("x", vec![d])])).unwrap();
    assert_eq!(first_field_attrs(&out[1])[0].path, vec![id("foo")]);
    assert!(first_field_attrs(&out[0]).is_empty());
}
