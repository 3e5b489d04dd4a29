use proc_macro2::Span;
use proc_micro::{
    check_exclusive, known_attribute, parse_attrs, resolve_kind, scan_blocks, unique, AttrBlock,
    AttrNamespace, Kind, MaybeError, Tagged, WithSpan,
};
use syn::parse::{Parse, ParseStream, Parser};

#[derive(Debug, PartialEq)]
enum ParseAttribute {
    Rename(String),
    Ignore,
}

const RENAME: u64 = 0;
const IGNORE: u64 = 1;

fn kinds() -> Vec<Kind> {
    vec![
        Kind { id: RENAME, name: "rename".to_string() },
        Kind { id: IGNORE, name: "ignore".to_string() },
    ]
}

fn kind_of(attribute: &ParseAttribute) -> Kind {
    match attribute {
        ParseAttribute::Rename(_) => Kind { id: RENAME, name: "rename".to_string() },
        ParseAttribute::Ignore => Kind { id: IGNORE, name: "ignore".to_string() },
    }
}

impl Parse for ParseAttribute {
    fn parse(input: ParseStream) -> syn::Result<Self> {
        let ident: syn::Ident = input.parse()?;
        let kind = known_attribute(&ident, &kinds())?;
        if kind.id == RENAME {
            input.parse::<syn::token::Eq>()?;
            Ok(ParseAttribute::Rename(input.parse::<syn::LitStr>()?.value()))
        } else {
            Ok(ParseAttribute::Ignore)
        }
    }
}

struct Spanned(WithSpan<ParseAttribute>);

impl Parse for Spanned {
    fn parse(input: ParseStream) -> syn::Result<Self> {
        let span = input.span();
        Ok(Spanned(WithSpan(input.parse()?, span)))
    }
}

fn attrs(source: &str) -> Vec<syn::Attribute> {
    syn::Attribute::parse_outer.parse_str(source).unwrap()
}

fn tagged(spanned: Vec<Spanned>) -> Vec<Tagged<ParseAttribute>> {
    spanned
        .into_iter()
        .map(|Spanned(item)| Tagged(kind_of(&item.0), item))
        .collect()
}

fn messages(error: syn::Error) -> Vec<String> {
    error.into_iter().map(|e| e.to_string()).collect()
}

fn item(id: u64, name: &str, payload: u32) -> Tagged<u32> {
    Tagged(Kind { id, name: name.to_string() }, WithSpan(payload, Span::call_site()))
}

#[test]
fn repeated_rename_gives_duplicate_then_previous() {
    let mut errors = MaybeError::new();
    let parsed: Vec<Spanned> = parse_attrs(
        &AttrNamespace("macro_name"),
        &attrs("#[macro_name(rename = \"Ruby version\", rename = \"Specified rename twice, oops\")]"),
    )
    .push_unwrap(&mut errors);
    let _unique = unique(tagged(parsed)).push_unwrap(&mut errors);
    assert_eq!(
        vec![
            "Duplicate attribute: `rename`".to_string(),
            "previously `rename` defined here".to_string()
        ],
        messages(errors.maybe().unwrap())
    );
}

#[test]
fn ignore_beside_rename_is_an_exclusivity_violation() {
    let mut errors = MaybeError::new();
    let parsed: Vec<Spanned> = parse_attrs(
        &AttrNamespace("macro_name"),
        &attrs("#[macro_name(ignore, rename = \"Ruby version\")]"),
    )
    .push_unwrap(&mut errors);
    let exclusive = Kind { id: IGNORE, name: "ignore".to_string() };
    check_exclusive(&exclusive, &tagged(parsed)).push_unwrap(&mut errors);
    assert_eq!(
        vec![
            "Exclusive attribute. Remove either `ignore` or `rename`".to_string(),
            "cannot be used with `ignore`".to_string()
        ],
        messages(errors.maybe().unwrap())
    );
}

#[test]
fn scan_alone_yields_items_in_order_without_diagnostics() {
    let mut errors = MaybeError::new();
    let attributes: Vec<ParseAttribute> = parse_attrs(
        &AttrNamespace("macro_name"),
        &attrs("#[macro_name(ignore, rename = \"Ruby version\")]"),
    )
    .push_unwrap(&mut errors);
    assert!(errors.maybe().is_none());
    assert_eq!(
        vec![ParseAttribute::Ignore, ParseAttribute::Rename("Ruby version".to_string())],
        attributes
    );
}

#[test]
fn scan_through_namespace_method_keeps_spans() {
    let found = attrs("#[macro_name(ignore, rename = \"Ruby version\")]");
    let out = AttrNamespace("macro_name").parse_attrs::<Spanned>(&found);
    assert!(out.1.is_none());
    assert!(matches!(out.0.first(), Some(Spanned(WithSpan(ParseAttribute::Ignore, _)))));
    assert_eq!(13, out.0[0].0 .1.start().column);
    assert_eq!(21, out.0[1].0 .1.start().column);
}

#[test]
fn scan_skips_other_namespaces_and_keeps_block_order() {
    let found = attrs(
        "#[macro_name(ignore)] #[derive(Debug)] #[other(rename = \"x\")] #[a::macro_name(ignore)] #[macro_name(rename = \"a\", rename = \"b\")] #[Macro_name(ignore)]",
    );
    let out = parse_attrs::<ParseAttribute>(&AttrNamespace("macro_name"), &found);
    assert!(out.1.is_none());
    assert_eq!(
        vec![
            ParseAttribute::Ignore,
            ParseAttribute::Rename("a".to_string()),
            ParseAttribute::Rename("b".to_string())
        ],
        out.0
    );
}

#[test]
fn malformed_block_does_not_stop_later_blocks() {
    let found = attrs(
        "#[macro_name(unknown attribute here, ignore)] #[macro_name(rename = \"First\", rename = \"Again\")]",
    );
    let out = parse_attrs::<ParseAttribute>(&AttrNamespace("macro_name"), &found);
    assert_eq!(
        vec![
            ParseAttribute::Rename("First".to_string()),
            ParseAttribute::Rename("Again".to_string())
        ],
        out.0
    );
    assert_eq!(
        vec!["Unknown attribute: `unknown`. Must be one of `rename`, `ignore`".to_string()],
        messages(out.1.unwrap())
    );
}

#[test]
fn block_without_parentheses_is_reported() {
    let found = attrs("#[macro_name] #[macro_name(ignore)]");
    let out = parse_attrs::<ParseAttribute>(&AttrNamespace("macro_name"), &found);
    assert_eq!(vec![ParseAttribute::Ignore], out.0);
    assert_eq!(1, messages(out.1.unwrap()).len());
}

#[test]
fn no_blocks_give_nothing() {
    let out = parse_attrs::<ParseAttribute>(&AttrNamespace("macro_name"), &[]);
    assert!(out.0.is_empty());
    assert!(out.1.is_none());
}

#[test]
fn scan_blocks_gathers_retained_blocks_only() {
    let blocks: Vec<AttrBlock<u32>> = vec![
        AttrBlock { ident: Some("ns".to_string()), body: Ok(vec![1, 2]) },
        AttrBlock { ident: Some("other".to_string()), body: Ok(vec![3]) },
        AttrBlock {
            ident: Some("other".to_string()),
            body: Err(syn::Error::new(Span::call_site(), "foreign")),
        },
        AttrBlock { ident: None, body: Ok(vec![4]) },
        AttrBlock {
            ident: Some("ns".to_string()),
            body: Err(syn::Error::new(Span::call_site(), "bad block")),
        },
        AttrBlock { ident: Some("ns".to_string()), body: Ok(vec![]) },
        AttrBlock { ident: Some("ns".to_string()), body: Ok(vec![5]) },
    ];
    let out = scan_blocks(&AttrNamespace("ns"), blocks);
    assert_eq!(vec![1, 2, 5], out.0);
    assert_eq!(vec!["bad block".to_string()], messages(out.1.unwrap()));
}

#[test]
fn scan_blocks_keeps_every_diagnostic_of_a_block() {
    let mut twofold = syn::Error::new(Span::call_site(), "one");
    twofold.combine(syn::Error::new(Span::call_site(), "two"));
    let blocks: Vec<AttrBlock<u32>> = vec![
        AttrBlock { ident: Some("ns".to_string()), body: Err(twofold) },
        AttrBlock {
            ident: Some("ns".to_string()),
            body: Err(syn::Error::new(Span::call_site(), "three")),
        },
    ];
    let out = scan_blocks(&AttrNamespace("ns"), blocks);
    assert!(out.0.is_empty());
    assert_eq!(
        vec!["one".to_string(), "two".to_string(), "three".to_string()],
        messages(out.1.unwrap())
    );
}

#[test]
fn namespace_as_str_is_the_name() {
    assert_eq!("my_macro", AttrNamespace("my_macro").as_str());
}

#[test]
fn known_attribute_resolves_exact_names() {
    let rename: syn::Ident = syn::parse_str("rename").unwrap();
    let ignore: syn::Ident = syn::parse_str("ignore").unwrap();
    assert_eq!(RENAME, known_attribute(&rename, &kinds()).unwrap().id);
    let found = known_attribute(&ignore, &kinds()).unwrap();
    assert_eq!(IGNORE, found.id);
    assert_eq!("ignore", found.name);
}

#[test]
fn known_attribute_lists_every_kind_for_an_unknown_word() {
    let found: Vec<syn::Ident> = syn::punctuated::Punctuated::<syn::Ident, syn::token::Comma>::parse_terminated
        .parse_str("first, unknown")
        .unwrap()
        .into_iter()
        .collect();
    let error = known_attribute(&found[1], &kinds()).unwrap_err();
    assert_eq!(found[1].span().start(), error.span().start());
    assert_eq!(7, error.span().start().column);
    assert_eq!(
        vec!["Unknown attribute: `unknown`. Must be one of `rename`, `ignore`".to_string()],
        messages(error)
    );
}

#[test]
fn resolve_kind_is_case_sensitive_and_takes_the_first_match() {
    let twice = vec![
        Kind { id: 7, name: "same".to_string() },
        Kind { id: 8, name: "same".to_string() },
    ];
    assert_eq!(7, resolve_kind("same", Span::call_site(), &twice).unwrap().id);
    let error = resolve_kind("Same", Span::call_site(), &twice).unwrap_err();
    assert_eq!(
        vec!["Unknown attribute: `Same`. Must be one of `same`, `same`".to_string()],
        messages(error)
    );
}

#[test]
fn resolve_kind_with_no_kinds_lists_none() {
    let error = resolve_kind("word", Span::call_site(), &Vec::new()).unwrap_err();
    assert_eq!(
        vec!["Unknown attribute: `word`. Must be one of ".to_string()],
        messages(error)
    );
}

#[test]
fn unique_without_repeats_keeps_every_entry() {
    let out = unique(vec![item(2, "b", 20), item(1, "a", 10), item(3, "c", 30)]);
    assert!(out.1.is_none());
    assert_eq!(3, out.0.len());
    assert_eq!(10, out.0[&1].0);
    assert_eq!(20, out.0[&2].0);
    assert_eq!(30, out.0[&3].0);
}

#[test]
fn unique_of_nothing_is_empty() {
    let out = unique(Vec::<Tagged<u32>>::new());
    assert!(out.1.is_none());
    assert!(out.0.is_empty());
}

#[test]
fn unique_keeps_the_first_of_a_kind_whatever_the_payload() {
    let out = unique(vec![item(1, "a", 10), item(2, "b", 20), item(1, "a", 11), item(1, "a", 12)]);
    assert_eq!(2, out.0.len());
    assert_eq!(10, out.0[&1].0);
    assert_eq!(20, out.0[&2].0);
    assert_eq!(
        vec![
            "Duplicate attribute: `a`".to_string(),
            "previously `a` defined here".to_string(),
            "Duplicate attribute: `a`".to_string(),
            "previously `a` defined here".to_string()
        ],
        messages(out.1.unwrap())
    );
}

#[test]
fn unique_points_at_the_repeat_and_then_at_the_first() {
    let parsed: Vec<Spanned> = parse_attrs(
        &AttrNamespace("macro_name"),
        &attrs("#[macro_name(rename = \"a\", rename = \"b\", rename = \"c\")]"),
    )
    .0;
    let columns: Vec<usize> = parsed.iter().map(|s| s.0 .1.start().column).collect();
    assert_eq!(vec![13, 27, 41], columns);
    let out = unique(tagged(parsed));
    assert_eq!(ParseAttribute::Rename("a".to_string()), out.0[&RENAME].0);
    let at: Vec<usize> =
        out.1.unwrap().into_iter().map(|e| e.span().start().column).collect();
    assert_eq!(vec![27, 13, 41, 13], at);
}

#[test]
fn unique_again_on_a_clean_sequence_is_the_same() {
    let first = unique(vec![item(1, "a", 10), item(2, "b", 20)]);
    assert!(first.1.is_none());
    let mut kept: Vec<Tagged<u32>> = Vec::new();
    for (id, name) in [(1u64, "a"), (2u64, "b")] {
        kept.push(item(id, name, first.0[&id].0));
    }
    let second = unique(kept);
    assert!(second.1.is_none());
    assert_eq!(2, second.0.len());
    assert_eq!(10, second.0[&1].0);
    assert_eq!(20, second.0[&2].0);
}

#[test]
fn exclusive_absent_gives_no_diagnostic() {
    let exclusive = Kind { id: 9, name: "ignore".to_string() };
    let out = check_exclusive(&exclusive, &[item(1, "a", 0), item(2, "b", 0), item(1, "a", 0)]);
    assert!(out.1.is_none());
    let empty: Vec<Tagged<u32>> = Vec::new();
    assert!(check_exclusive(&exclusive, &empty).1.is_none());
}

#[test]
fn exclusive_alone_gives_no_diagnostic() {
    let exclusive = Kind { id: 9, name: "ignore".to_string() };
    let out = check_exclusive(&exclusive, &[item(9, "ignore", 0), item(9, "ignore", 1)]);
    assert!(out.1.is_none());
    let again = check_exclusive(&exclusive, &[item(9, "ignore", 0), item(9, "ignore", 1)]);
    assert!(again.to_result().is_ok());
}

#[test]
fn exclusive_after_the_other_kind_still_comes_first() {
    let exclusive = Kind { id: 9, name: "ignore".to_string() };
    let out = check_exclusive(&exclusive, &[item(1, "rename", 0), item(9, "ignore", 0)]);
    assert_eq!(
        vec![
            "Exclusive attribute. Remove either `ignore` or `rename`".to_string(),
            "cannot be used with `ignore`".to_string()
        ],
        messages(out.1.unwrap())
    );
}

#[test]
fn exclusive_lists_other_kinds_once_in_order_of_appearance() {
    let exclusive = Kind { id: 9, name: "ignore".to_string() };
    let out = check_exclusive(
        &exclusive,
        &[
            item(2, "b", 0),
            item(9, "ignore", 0),
            item(1, "a", 0),
            item(2, "b", 0),
            item(9, "ignore", 0),
        ],
    );
    assert_eq!(
        vec![
            "Exclusive attribute. Remove either `ignore` or `b`, `a`".to_string(),
            "Exclusive attribute. Remove either `ignore` or `b`, `a`".to_string(),
            "cannot be used with `ignore`".to_string(),
            "cannot be used with `ignore`".to_string(),
            "cannot be used with `ignore`".to_string()
        ],
        messages(out.1.unwrap())
    );
}

#[test]
fn exclusive_points_at_each_entry() {
    let parsed: Vec<Spanned> = parse_attrs(
        &AttrNamespace("macro_name"),
        &attrs("#[macro_name(rename = \"a\", ignore, ignore)]"),
    )
    .0;
    let columns: Vec<usize> = parsed.iter().map(|s| s.0 .1.start().column).collect();
    assert_eq!(vec![13, 27, 35], columns);
    let exclusive = Kind { id: IGNORE, name: "ignore".to_string() };
    let out = check_exclusive(&exclusive, &tagged(parsed));
    let at: Vec<usize> =
        out.1.unwrap().into_iter().map(|e| e.span().start().column).collect();
    assert_eq!(vec![35, 27, 13], at);
}

#[test]
fn only_foreign_blocks_give_nothing() {
    let found = attrs("#[derive(Debug)] #[other(ignore)] #[::macro_name(ignore)] #[a::b]");
    let out = parse_attrs::<ParseAttribute>(&AttrNamespace("macro_name"), &found);
    assert!(out.0.is_empty());
    assert!(out.1.is_none());
}

#[test]
fn foreign_blocks_anywhere_change_nothing() {
    let plain = attrs("#[macro_name(oops)] #[macro_name(ignore)] #[macro_name(rename = \"a\")]");
    let mixed = attrs(
        "#[doc = \"x\"] #[macro_name(oops)] #[other(oops)] #[other(ignore)] #[macro_name(ignore)] #[derive(Debug)] #[macro_name(rename = \"a\")] #[other]",
    );
    let one = parse_attrs::<ParseAttribute>(&AttrNamespace("macro_name"), &plain);
    let two = parse_attrs::<ParseAttribute>(&AttrNamespace("macro_name"), &mixed);
    assert_eq!(
        vec![ParseAttribute::Ignore, ParseAttribute::Rename("a".to_string())],
        one.0
    );
    assert_eq!(one.0, two.0);
    let first = messages(one.1.unwrap());
    assert_eq!(
        vec!["Unknown attribute: `oops`. Must be one of `rename`, `ignore`".to_string()],
        first
    );
    assert_eq!(first, messages(two.1.unwrap()));
}

#[test]
fn failed_block_always_gives_an_error() {
    let blocks: Vec<AttrBlock<u32>> = vec![
        AttrBlock {
            ident: Some("ns".to_string()),
            body: Err(syn::Error::new(Span::call_site(), "bad block")),
        },
        AttrBlock { ident: Some("ns".to_string()), body: Ok(vec![1, 2]) },
    ];
    let out = scan_blocks(&AttrNamespace("ns"), blocks);
    assert_eq!(vec![1, 2], out.0);
    assert!(out.1.is_some());
}
