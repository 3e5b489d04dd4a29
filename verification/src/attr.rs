//! Attribute entries and the checks made on them once they are collected.

use crate::error::{
    error_parts, lemma_single_pieces_len, new_error, option_parts, single_pieces, MaybeError, OkMaybe,
};
use proc_macro2::Span;
use std::collections::{HashMap, HashSet};
use vstd::prelude::*;
use vstd::string::StringExecFns;

verus! {

broadcast use vstd::std_specs::hash::group_hash_axioms;

/// A value together with the location it was read from.
#[derive(Debug)]
pub struct WithSpan<T>(pub T, pub Span);

/// The name that an attribute block must carry to be read:
/// `my_macro` for `#[my_macro(...)]`.
#[derive(Debug, Clone)]
pub struct AttrNamespace<'a>(pub &'a str);

/// The kind of an entry, whatever its payload. Two kinds are the same kind
/// when their `id`s agree; `name` is the spelling shown to the user.
#[derive(Debug, Clone)]
pub struct Kind {
    pub id: u64,
    pub name: String,
}

/// An entry with its kind set beside it.
#[derive(Debug)]
pub struct Tagged<T>(pub Kind, pub WithSpan<T>);

/// Whether some entry of `items` is of kind `id`.
pub open spec fn has_kind<T>(items: Seq<Tagged<T>>, id: u64) -> bool {
    exists|i: int| 0 <= i < items.len() && (#[trigger] items[i]).0.id == id
}

/// The position of the first entry of kind `id`, where there is one.
pub open spec fn first_of_kind<T>(items: Seq<Tagged<T>>, id: u64) -> int
    decreases items.len(),
{
    if items.len() == 0 {
        0
    } else if has_kind(items.drop_last(), id) {
        first_of_kind(items.drop_last(), id)
    } else {
        items.len() - 1
    }
}

/// For every kind present, the first entry of that kind.
pub open spec fn first_by_kind<T>(items: Seq<Tagged<T>>) -> Map<u64, WithSpan<T>> {
    Map::new(|id: u64| has_kind(items, id), |id: u64| items[first_of_kind(items, id)].1)
}

/// The names, each between backticks, separated by a comma and a space.
pub open spec fn join_ticked(names: Seq<Seq<char>>) -> Seq<char>
    decreases names.len(),
{
    if names.len() == 0 {
        Seq::empty()
    } else {
        let head = if names.len() == 1 {
            Seq::empty()
        } else {
            join_ticked(names.drop_last()) + ", "@
        };
        head + "`"@ + names.last() + "`"@
    }
}

/// The message at a repeated entry.
pub open spec fn duplicate_message(name: Seq<char>) -> Seq<char> {
    "Duplicate attribute: `"@ + name + "`"@
}

/// The message at the entry that a repeated one collides with.
pub open spec fn previous_message(name: Seq<char>) -> Seq<char> {
    "previously `"@ + name + "` defined here"@
}

/// The diagnostics that repeated kinds give rise to: for each entry whose
/// kind occurred before, one at that entry and one at the first entry of the
/// kind.
pub open spec fn duplicate_parts<T>(items: Seq<Tagged<T>>) -> Seq<(Seq<char>, Span)>
    decreases items.len(),
{
    if items.len() == 0 {
        Seq::empty()
    } else {
        let init = items.drop_last();
        let last = items.last();
        if has_kind(init, last.0.id) {
            duplicate_parts(init) + seq![
                (duplicate_message(last.0.name@), last.1.1),
                (previous_message(last.0.name@), init[first_of_kind(init, last.0.id)].1.1),
            ]
        } else {
            duplicate_parts(init)
        }
    }
}

/// The elements of `v`, last first.
fn reversed<T>(v: Vec<T>) -> (r: Vec<T>)
    ensures
        r@.len() == v@.len(),
        forall|i: int| 0 <= i < r@.len() ==> r@[i] == v@[v@.len() - 1 - i],
{
    let mut v = v;
    let ghost all = v@;
    let mut r: Vec<T> = Vec::new();
    while v.len() > 0
        invariant
            v@.len() + r@.len() == all.len(),
            v@ == all.take(v@.len() as int),
            forall|i: int| 0 <= i < r@.len() ==> r@[i] == all[all.len() - 1 - i],
        decreases v@.len(),
    {
        let x = v.pop().unwrap();
        r.push(x);
        proof {
            assert(v@ =~= all.take(v@.len() as int));
        }
    }
    r
}

/// `name` between backticks, appended to `text` behind a separator where
/// `count` names went before.
fn append_ticked(text: &mut String, count: usize, name: &str)
    ensures
        final(text)@ == old(text)@ + (if count == 0 {
            Seq::<char>::empty()
        } else {
            ", "@
        }) + "`"@ + name@ + "`"@,
{
    if count > 0 {
        text.append(", ");
    }
    text.append("`");
    text.append(name);
    text.append("`");
    proof {
        assert(final(text)@ =~= old(text)@ + (if count == 0 {
            Seq::<char>::empty()
        } else {
            ", "@
        }) + "`"@ + name@ + "`"@);
    }
}

/// Appending a name to a list appends it, ticked and separated, to the
/// joined text.
pub proof fn lemma_join_ticked_push(names: Seq<Seq<char>>, name: Seq<char>)
    ensures
        join_ticked(names.push(name)) == join_ticked(names) + (if names.len() == 0 {
            Seq::<char>::empty()
        } else {
            ", "@
        }) + "`"@ + name + "`"@,
{
    assert(names.push(name).drop_last() =~= names);
    if names.len() == 0 {
        assert(join_ticked(names) =~= Seq::<char>::empty());
        assert(join_ticked(names) + Seq::<char>::empty() =~= Seq::<char>::empty());
    }
}

/// The display names of `kinds`, in order.
pub open spec fn kind_names(kinds: Seq<Kind>) -> Seq<Seq<char>> {
    Seq::new(kinds.len(), |i: int| kinds[i].name@)
}

/// The message for a word that names no kind.
pub open spec fn unknown_message(word: Seq<char>, names: Seq<Seq<char>>) -> Seq<char> {
    "Unknown attribute: `"@ + word + "`. Must be one of "@ + join_ticked(names)
}

/// `proc_macro2::Ident`: one identifier token; `syn::Ident` is the same
/// type.
#[verifier::external_type_specification]
#[verifier::external_body]
pub struct ExIdent(proc_macro2::Ident);

/// The text of an identifier token.
pub uninterp spec fn ident_string(ident: proc_macro2::Ident) -> Seq<char>;

/// The location of an identifier token.
pub uninterp spec fn ident_span(ident: proc_macro2::Ident) -> Span;

/// Calls `Ident::to_string`. Trusted: the result is the token's text.
#[verifier::external_body]
fn text_of_ident(identity: &syn::Ident) -> (text: String)
    ensures
        text@ == ident_string(*identity),
{
    identity.to_string()
}

/// Calls `Ident::span`. Trusted: the result is the token's location.
#[verifier::external_body]
fn span_of_ident(identity: &syn::Ident) -> (span: Span)
    ensures
        span == ident_span(*identity),
{
    identity.span()
}

/// Whether `r` is what resolving `word`, read at `span`, against `kinds`
/// comes to: the first kind of exactly that name, or, where no kind has it,
/// an error of one diagnostic at `span` that names the word and lists the
/// name of every kind.
pub open spec fn is_resolution(
    word: Seq<char>,
    span: Span,
    kinds: Seq<Kind>,
    r: Result<Kind, syn::Error>,
) -> bool {
    match r {
        Ok(kind) => exists|i: int|
            0 <= i < kinds.len() && #[trigger] kinds[i] == kind && kinds[i].name@ == word
                && forall|j: int| 0 <= j < i ==> (#[trigger] kinds[j]).name@ != word,
        Err(e) => {
            &&& forall|i: int| 0 <= i < kinds.len() ==> (#[trigger] kinds[i]).name@ != word
            &&& error_parts(e) == seq![(unknown_message(word, kind_names(kinds)), span)]
        },
    }
}

/// Resolves an identifier token against the kinds of an enumeration, given
/// in declaration order.
pub fn known_attribute(identity: &syn::Ident, kinds: &Vec<Kind>) -> (r: Result<Kind, syn::Error>)
    ensures
        is_resolution(ident_string(*identity), ident_span(*identity), kinds@, r),
{
    let text = text_of_ident(identity);
    resolve_kind(text.as_str(), span_of_ident(identity), kinds)
}

/// Resolves a bare word, read at `span`, against the kinds of an
/// enumeration, given in declaration order: the first kind of exactly that
/// name, or an error at `span` that names the word and lists every kind
/// there is.
pub fn resolve_kind(identity: &str, span: Span, kinds: &Vec<Kind>) -> (r: Result<Kind, syn::Error>)
    ensures
        is_resolution(identity@, span, kinds@, r),
{
    let word: String = identity.to_owned();
    let mut listed = String::from_str("");
    let mut i: usize = 0;
    proof {
        reveal_strlit("");
        assert(kind_names(kinds@.take(0)) =~= Seq::<Seq<char>>::empty());
        assert(listed@ =~= join_ticked(kind_names(kinds@.take(0))));
    }
    while i < kinds.len()
        invariant
            0 <= i <= kinds@.len(),
            word@ == identity@,
            forall|j: int| 0 <= j < i ==> kinds@[j].name@ != identity@,
            listed@ == join_ticked(kind_names(kinds@.take(i as int))),
        decreases kinds@.len() - i,
    {
        let kind = &kinds[i];
        if kind.name == word {
            let found = Kind { id: kind.id, name: kind.name.clone() };
            assert(kinds@[i as int] == found);
            return Ok(found);
        }
        append_ticked(&mut listed, i, kind.name.as_str());
        proof {
            lemma_join_ticked_push(kind_names(kinds@.take(i as int)), kind.name@);
            assert(kind_names(kinds@.take(i + 1)) =~= kind_names(kinds@.take(i as int)).push(
                kind.name@,
            ));
        }
        i += 1;
    }
    let mut message = String::from_str("Unknown attribute: `");
    message.append(identity);
    message.append("`. Must be one of ");
    message.append(listed.as_str());
    proof {
        assert(kinds@.take(i as int) =~= kinds@);
    }
    Err(new_error(span, message))
}

/// The first entry of a kind is of that kind, and no entry before it is.
pub proof fn lemma_first_of_kind<T>(items: Seq<Tagged<T>>, id: u64)
    requires
        has_kind(items, id),
    ensures
        0 <= first_of_kind(items, id) < items.len(),
        items[first_of_kind(items, id)].0.id == id,
        forall|j: int| 0 <= j < first_of_kind(items, id) ==> (#[trigger] items[j]).0.id != id,
    decreases items.len(),
{
    let init = items.drop_last();
    lemma_has_kind_push(items, id);
    if has_kind(init, id) {
        lemma_first_of_kind(init, id);
        let f = first_of_kind(init, id);
        assert(init[f] == items[f]);
        assert forall|j: int| 0 <= j < f implies (#[trigger] items[j]).0.id != id by {
            assert(init[j] == items[j]);
        }
    } else {
        assert forall|j: int| 0 <= j < items.len() - 1 implies (#[trigger] items[j]).0.id != id by {
            assert(init[j] == items[j]);
        }
    }
}

/// A kind is present after one more entry exactly if it was present before
/// or is the kind of that entry.
pub proof fn lemma_has_kind_push<T>(items: Seq<Tagged<T>>, id: u64)
    requires
        items.len() > 0,
    ensures
        has_kind(items, id) <==> (has_kind(items.drop_last(), id) || items.last().0.id == id),
{
    let init = items.drop_last();
    if has_kind(items, id) {
        let i = choose|i: int| 0 <= i < items.len() && (#[trigger] items[i]).0.id == id;
        if i < items.len() - 1 {
            assert(init[i] == items[i]);
        }
    }
    if has_kind(init, id) {
        let i = choose|i: int| 0 <= i < init.len() && (#[trigger] init[i]).0.id == id;
        assert(items[i] == init[i]);
    }
    if items.last().0.id == id {
        assert(items[items.len() - 1].0.id == id);
    }
}

/// One more entry adds itself to the entries kept, unless its kind was
/// there before.
pub proof fn lemma_first_by_kind_push<T>(items: Seq<Tagged<T>>)
    requires
        items.len() > 0,
    ensures
        first_by_kind(items) == if has_kind(items.drop_last(), items.last().0.id) {
            first_by_kind(items.drop_last())
        } else {
            first_by_kind(items.drop_last()).insert(items.last().0.id, items.last().1)
        },
{
    let init = items.drop_last();
    let last = items.last();
    let expected = if has_kind(init, last.0.id) {
        first_by_kind(init)
    } else {
        first_by_kind(init).insert(last.0.id, last.1)
    };
    assert forall|id: u64| first_by_kind(items).contains_key(id) <==> expected.contains_key(
        id,
    ) by {
        lemma_has_kind_push(items, id);
    }
    assert forall|id: u64| first_by_kind(items).contains_key(id) implies first_by_kind(items)[id]
        == expected[id] by {
        lemma_has_kind_push(items, id);
        if has_kind(init, id) {
            lemma_first_of_kind(init, id);
            assert(init[first_of_kind(init, id)] == items[first_of_kind(init, id)]);
        }
    }
    assert(first_by_kind(items) =~= expected);
}

/// Keeps the first entry of each kind and reports every later entry of a
/// kind already seen: one diagnostic at the repeated entry, then one at the
/// entry kept for that kind.
pub fn unique<T>(parsed_attributes: Vec<Tagged<T>>) -> (r: OkMaybe<
    HashMap<u64, WithSpan<T>>,
    syn::Error,
>)
    ensures
        r.0@ == first_by_kind(parsed_attributes@),
        option_parts(r.1) == duplicate_parts(parsed_attributes@),
        r.1 is None <==> duplicate_parts(parsed_attributes@).len() == 0,
{
    let ghost all = parsed_attributes@;
    let total = parsed_attributes.len();
    let mut pending = reversed(parsed_attributes);
    let mut seen: HashMap<u64, WithSpan<T>> = HashMap::new();
    let mut errors = MaybeError::new();
    proof {
        assert(seen@ =~= first_by_kind(all.take(0)));
    }
    while pending.len() > 0
        invariant
            total == all.len(),
            pending@.len() <= total,
            forall|i: int| 0 <= i < pending@.len() ==> pending@[i] == all[total - 1 - i],
            seen@ == first_by_kind(all.take(total - pending@.len())),
            errors.diagnostics() == duplicate_parts(all.take(total - pending@.len())),
            single_pieces(errors@),
        decreases pending@.len(),
    {
        let ghost done = total - pending@.len();
        let ghost before = all.take(done);
        let ghost after = all.take(done + 1);
        let Tagged(kind, attribute) = pending.pop().unwrap();
        let span = attribute.1;
        proof {
            assert(after.drop_last() =~= before);
            assert(after.last() == all[done]);
            lemma_first_by_kind_push(after);
        }
        let prior = match seen.get(&kind.id) {
            Some(first) => Some(first.1),
            None => None,
        };
        match prior {
            Some(prior) => {
                let mut duplicate = String::from_str("Duplicate attribute: `");
                duplicate.append(kind.name.as_str());
                duplicate.append("`");
                let mut previous = String::from_str("previously `");
                previous.append(kind.name.as_str());
                previous.append("` defined here");
                errors.push_back(new_error(span, duplicate));
                errors.push_back(new_error(prior, previous));
                proof {
                    lemma_first_of_kind(before, kind.id);
                    assert(errors.diagnostics() =~= duplicate_parts(after));
                }
            },
            None => {
                seen.insert(kind.id, attribute);
            },
        }
    }
    proof {
        assert(all.take(total as int) =~= all);
        lemma_single_pieces_len(errors@);
    }
    OkMaybe(seen, errors.maybe())
}

/// The names of the kinds other than `exclusive` that occur in `items`, each
/// once, in the order in which the kinds first occur.
pub open spec fn other_names<T>(exclusive: u64, items: Seq<Tagged<T>>) -> Seq<Seq<char>>
    decreases items.len(),
{
    if items.len() == 0 {
        Seq::empty()
    } else {
        let init = items.drop_last();
        let last = items.last();
        if last.0.id == exclusive || has_kind(init, last.0.id) {
            other_names(exclusive, init)
        } else {
            other_names(exclusive, init).push(last.0.name@)
        }
    }
}

/// The message at an entry of the exclusive kind.
pub open spec fn exclusive_message(exclusive: Seq<char>, others: Seq<Seq<char>>) -> Seq<char> {
    "Exclusive attribute. Remove either `"@ + exclusive + "` or "@ + join_ticked(others)
}

/// The message at an entry that stands beside the exclusive kind.
pub open spec fn cannot_message(exclusive: Seq<char>) -> Seq<char> {
    "cannot be used with `"@ + exclusive + "`"@
}

/// One diagnostic per entry: `at_exclusive` for each entry of the exclusive
/// kind, put ahead of all that were there, and `at_other` for each other
/// entry, put behind them.
pub open spec fn exclusive_walk<T>(
    exclusive: u64,
    at_exclusive: Seq<char>,
    at_other: Seq<char>,
    items: Seq<Tagged<T>>,
) -> Seq<(Seq<char>, Span)>
    decreases items.len(),
{
    if items.len() == 0 {
        Seq::empty()
    } else {
        let rest = exclusive_walk(exclusive, at_exclusive, at_other, items.drop_last());
        let last = items.last();
        if last.0.id == exclusive {
            seq![(at_exclusive, last.1.1)] + rest
        } else {
            rest + seq![(at_other, last.1.1)]
        }
    }
}

/// Whether the exclusive kind stands beside another kind in `items`.
pub open spec fn is_violated<T>(exclusive: u64, items: Seq<Tagged<T>>) -> bool {
    has_kind(items, exclusive) && other_names(exclusive, items).len() > 0
}

/// The diagnostics of the exclusivity check: none unless the exclusive kind
/// stands beside another, else one per entry.
pub open spec fn exclusive_parts<T>(exclusive: Kind, items: Seq<Tagged<T>>) -> Seq<
    (Seq<char>, Span),
> {
    if is_violated(exclusive.id, items) {
        exclusive_walk(
            exclusive.id,
            exclusive_message(exclusive.name@, other_names(exclusive.id, items)),
            cannot_message(exclusive.name@),
            items,
        )
    } else {
        Seq::empty()
    }
}

/// Reports an exclusive kind that stands beside any other kind: at each
/// entry of the exclusive kind, ahead of everything else, which kinds to
/// choose between; at each other entry that it cannot stay. Repeated kinds
/// are not this check's concern.
pub fn check_exclusive<T>(exclusive: &Kind, collection: &[Tagged<T>]) -> (r: OkMaybe<
    (),
    syn::Error,
>)
    ensures
        option_parts(r.1) == exclusive_parts(*exclusive, collection@),
        r.1 is None <==> !is_violated(exclusive.id, collection@),
{
    let ghost all = collection@;
    let mut errors = MaybeError::new();
    let mut seen: HashSet<u64> = HashSet::new();
    let mut others = String::from_str("");
    let mut count: usize = 0;
    let mut i: usize = 0;
    proof {
        reveal_strlit("");
        assert(others@ =~= join_ticked(other_names(exclusive.id, all.take(0))));
    }
    while i < collection.len()
        invariant
            all == collection@,
            0 <= i <= all.len(),
            count <= i,
            count == other_names(exclusive.id, all.take(i as int)).len(),
            others@ == join_ticked(other_names(exclusive.id, all.take(i as int))),
            forall|id: u64| seen@.contains(id) <==> has_kind(all.take(i as int), id),
        decreases all.len() - i,
    {
        let kind = &collection[i].0;
        proof {
            assert(all.take(i + 1).drop_last() =~= all.take(i as int));
            assert(all.take(i + 1).last() == all[i as int]);
            assert forall|id: u64|
                has_kind(all.take(i + 1), id) <==> (has_kind(all.take(i as int), id) || id
                    == kind.id) by {
                lemma_has_kind_push(all.take(i + 1), id);
            }
        }
        if seen.insert(kind.id) {
            if kind.id != exclusive.id {
                append_ticked(&mut others, count, kind.name.as_str());
                proof {
                    lemma_join_ticked_push(
                        other_names(exclusive.id, all.take(i as int)),
                        kind.name@,
                    );
                }
                count += 1;
            }
        }
        i += 1;
    }
    proof {
        assert(all.take(i as int) =~= all);
    }
    if seen.contains(&exclusive.id) && count > 0 {
        let mut at_exclusive = String::from_str("Exclusive attribute. Remove either `");
        at_exclusive.append(exclusive.name.as_str());
        at_exclusive.append("` or ");
        at_exclusive.append(others.as_str());
        let mut at_other = String::from_str("cannot be used with `");
        at_other.append(exclusive.name.as_str());
        at_other.append("`");
        let mut j: usize = 0;
        while j < collection.len()
            invariant
                all == collection@,
                0 <= j <= all.len(),
                errors@.len() == j,
                single_pieces(errors@),
                errors.diagnostics() == exclusive_walk(
                    exclusive.id,
                    at_exclusive@,
                    at_other@,
                    all.take(j as int),
                ),
            decreases all.len() - j,
        {
            let Tagged(kind, attribute) = &collection[j];
            proof {
                assert(all.take(j + 1).drop_last() =~= all.take(j as int));
                assert(all.take(j + 1).last() == all[j as int]);
            }
            if kind.id == exclusive.id {
                errors.push_front(new_error(attribute.1, at_exclusive.clone()));
            } else {
                errors.push_back(new_error(attribute.1, at_other.clone()));
            }
            j += 1;
        }
        proof {
            assert(all.take(j as int) =~= all);
            assert(all.len() > 0);
        }
    }
    OkMaybe((), errors.maybe())
}

/// `syn::Attribute`: one attribute block as it stands on a declaration.
#[verifier::external_type_specification]
#[verifier::external_body]
pub struct ExAttribute(syn::Attribute);

/// The identifier that an attribute block leads with, as text: `Some` where
/// the block's path is a single identifier, `None` where it has more
/// segments, a leading `::` or arguments.
pub uninterp spec fn attribute_ident(attr: syn::Attribute) -> Option<Seq<char>>;

/// Calls `syn::Path::get_ident` on the path of the block and
/// `Ident::to_string` on what it finds. Trusted: the result is the text of
/// the block's leading identifier.
#[verifier::external_body]
fn leading_ident(attr: &syn::Attribute) -> (ident: Option<String>)
    ensures
        optional_text(ident) == attribute_ident(*attr),
{
    attr.path().get_ident().map(|ident| ident.to_string())
}

/// Calls `syn::Attribute::parse_args_with` with
/// `Punctuated::parse_terminated`, which reads the comma-separated entries
/// between the block's parentheses with the parser of `T`. Nothing is
/// claimed of the outcome: that parser decides it. The block must lead with
/// a single identifier: for a block without parentheses the call reads the
/// first and the last segment of its path.
#[verifier::external_body]
fn parse_body<T: syn::parse::Parse>(attr: &syn::Attribute) -> (body: Result<Vec<T>, syn::Error>)
    requires
        attribute_ident(*attr) is Some,
{
    attr.parse_args_with(syn::punctuated::Punctuated::<T, syn::token::Comma>::parse_terminated)
        .map(|entries| entries.into_iter().collect())
}

/// One attribute block once read: the identifier it leads with, and either
/// the entries of its body or the error met in reading them.
#[derive(Debug)]
pub struct AttrBlock<T> {
    pub ident: Option<String>,
    pub body: Result<Vec<T>, syn::Error>,
}

/// An optional name as text.
pub open spec fn optional_text(ident: Option<String>) -> Option<Seq<char>> {
    match ident {
        Some(name) => Some(name@),
        None => None,
    }
}

/// Whether a block belongs to `namespace`: it leads with exactly that
/// identifier.
pub open spec fn is_retained<T>(namespace: Seq<char>, block: AttrBlock<T>) -> bool {
    optional_text(block.ident) == Some(namespace)
}

/// The entries of the blocks of `namespace` that could be read, block after
/// block and in each block's own order.
pub open spec fn scanned_items<T>(namespace: Seq<char>, blocks: Seq<AttrBlock<T>>) -> Seq<T>
    decreases blocks.len(),
{
    if blocks.len() == 0 {
        Seq::empty()
    } else {
        let before = scanned_items(namespace, blocks.drop_last());
        match blocks.last().body {
            Ok(items) if is_retained(namespace, blocks.last()) => before + items@,
            _ => before,
        }
    }
}

/// The diagnostics of the blocks of `namespace` that could not be read,
/// block after block.
pub open spec fn scanned_parts<T>(namespace: Seq<char>, blocks: Seq<AttrBlock<T>>) -> Seq<
    (Seq<char>, Span),
>
    decreases blocks.len(),
{
    if blocks.len() == 0 {
        Seq::empty()
    } else {
        let before = scanned_parts(namespace, blocks.drop_last());
        match blocks.last().body {
            Err(e) if is_retained(namespace, blocks.last()) => before + error_parts(e),
            _ => before,
        }
    }
}

/// Whether some block of `namespace` could not be read.
pub open spec fn any_failed<T>(namespace: Seq<char>, blocks: Seq<AttrBlock<T>>) -> bool {
    exists|i: int|
        0 <= i < blocks.len() && is_retained(namespace, #[trigger] blocks[i])
            && blocks[i].body is Err
}

/// A block has failed among those seen after one more exactly if one had
/// before or that one did.
pub proof fn lemma_any_failed_push<T>(namespace: Seq<char>, blocks: Seq<AttrBlock<T>>)
    requires
        blocks.len() > 0,
    ensures
        any_failed(namespace, blocks) <==> (any_failed(namespace, blocks.drop_last()) || (
        is_retained(namespace, blocks.last()) && blocks.last().body is Err)),
{
    let init = blocks.drop_last();
    if any_failed(namespace, blocks) {
        let i = choose|i: int|
            0 <= i < blocks.len() && is_retained(namespace, #[trigger] blocks[i])
                && blocks[i].body is Err;
        if i < blocks.len() - 1 {
            assert(init[i] == blocks[i]);
        }
    }
    if any_failed(namespace, init) {
        let i = choose|i: int|
            0 <= i < init.len() && is_retained(namespace, #[trigger] init[i]) && init[i].body is Err;
        assert(blocks[i] == init[i]);
    }
    if is_retained(namespace, blocks.last()) && blocks.last().body is Err {
        assert(blocks[blocks.len() - 1] == blocks.last());
    }
}

/// Blocks of which none belongs to the namespace give no entries and no
/// diagnostics.
pub proof fn lemma_scan_all_foreign<T>(namespace: Seq<char>, blocks: Seq<AttrBlock<T>>)
    requires
        forall|i: int| 0 <= i < blocks.len() ==> !is_retained(namespace, #[trigger] blocks[i]),
    ensures
        scanned_items(namespace, blocks) == Seq::<T>::empty(),
        scanned_parts(namespace, blocks) == Seq::<(Seq<char>, Span)>::empty(),
        !any_failed(namespace, blocks),
    decreases blocks.len(),
{
    if blocks.len() > 0 {
        let init = blocks.drop_last();
        assert forall|i: int| 0 <= i < init.len() implies !is_retained(
            namespace,
            #[trigger] init[i],
        ) by {
            assert(init[i] == blocks[i]);
        }
        lemma_scan_all_foreign(namespace, init);
        assert(blocks[blocks.len() - 1] == blocks.last());
    }
}

/// Whether `ident` is exactly `namespace`.
fn leads_with(namespace: &String, ident: &Option<String>) -> (b: bool)
    ensures
        b == (optional_text(*ident) == Some(namespace@)),
{
    match ident {
        Some(name) => *name == *namespace,
        None => false,
    }
}

/// Gathers the entries of the blocks that belong to `namespace`, in block
/// order and then entry order. A block of the namespace that could not be
/// read gives its error and no entries; the blocks after it are gathered all
/// the same. Blocks of any other name give nothing. There is an error
/// exactly if a block of the namespace could not be read.
pub fn scan_blocks<T>(namespace: &AttrNamespace, blocks: Vec<AttrBlock<T>>) -> (r: OkMaybe<
    Vec<T>,
    syn::Error,
>)
    ensures
        r.0@ == scanned_items(namespace.0@, blocks@),
        option_parts(r.1) == scanned_parts(namespace.0@, blocks@),
        r.1 is None <==> scanned_parts(namespace.0@, blocks@).len() == 0,
        r.1 is Some <==> any_failed(namespace.0@, blocks@),
{
    let ghost all = blocks@;
    let total = blocks.len();
    let wanted: String = namespace.0.to_owned();
    let mut pending = reversed(blocks);
    let mut attributes: Vec<T> = Vec::new();
    let mut errors = MaybeError::new();
    while pending.len() > 0
        invariant
            total == all.len(),
            wanted@ == namespace.0@,
            pending@.len() <= total,
            forall|i: int| 0 <= i < pending@.len() ==> pending@[i] == all[total - 1 - i],
            attributes@ == scanned_items(wanted@, all.take(total - pending@.len())),
            errors.diagnostics() == scanned_parts(wanted@, all.take(total - pending@.len())),
            single_pieces(errors@),
            errors@.len() > 0 <==> any_failed(wanted@, all.take(total - pending@.len())),
        decreases pending@.len(),
    {
        let ghost done = total - pending@.len();
        let block = pending.pop().unwrap();
        proof {
            assert(all.take(done + 1).drop_last() =~= all.take(done));
            assert(all.take(done + 1).last() == block);
            lemma_any_failed_push(wanted@, all.take(done + 1));
        }
        let AttrBlock { ident, body } = block;
        if leads_with(&wanted, &ident) {
            match body {
                Ok(items) => {
                    let mut items = items;
                    attributes.append(&mut items);
                },
                Err(error) => {
                    errors.push_back(error);
                },
            }
        }
    }
    proof {
        assert(all.take(total as int) =~= all);
        lemma_single_pieces_len(errors@);
    }
    OkMaybe(attributes, errors.maybe())
}

/// Whether `blocks` are `attrs` once read: as many, each leading with the
/// identifier of the attribute it was read from.
pub open spec fn are_read_from<T>(blocks: Seq<AttrBlock<T>>, attrs: Seq<syn::Attribute>) -> bool {
    &&& blocks.len() == attrs.len()
    &&& forall|i: int|
        0 <= i < blocks.len() ==> optional_text((#[trigger] blocks[i]).ident) == attribute_ident(
            attrs[i],
        )
}

/// Reads the attribute blocks that belong to `namespace` and gathers their
/// entries as `scan_blocks` does. Only blocks of the namespace are read at
/// all; what reading one comes to is up to the parser of `T`. Where no block
/// belongs to the namespace, there are no entries and no error.
pub fn parse_attrs<T: syn::parse::Parse>(namespace: &AttrNamespace, attrs: &[syn::Attribute]) -> (r:
    OkMaybe<Vec<T>, syn::Error>)
    ensures
        exists|blocks: Seq<AttrBlock<T>>|
            {
                &&& #[trigger] are_read_from(blocks, attrs@)
                &&& r.0@ == scanned_items(namespace.0@, blocks)
                &&& option_parts(r.1) == scanned_parts(namespace.0@, blocks)
                &&& (r.1 is None <==> scanned_parts(namespace.0@, blocks).len() == 0)
                &&& (r.1 is Some <==> any_failed(namespace.0@, blocks))
            },
        (forall|i: int|
            0 <= i < attrs@.len() ==> attribute_ident(#[trigger] attrs@[i]) != Some(namespace.0@))
            ==> r.0@.len() == 0 && r.1 is None,
{
    let wanted: String = namespace.0.to_owned();
    let mut blocks: Vec<AttrBlock<T>> = Vec::new();
    let mut i: usize = 0;
    while i < attrs.len()
        invariant
            0 <= i <= attrs@.len(),
            are_read_from(blocks@, attrs@.take(i as int)),
        decreases attrs@.len() - i,
    {
        let ident = leading_ident(&attrs[i]);
        let body = if leads_with(&wanted, &ident) {
            parse_body::<T>(&attrs[i])
        } else {
            Ok(Vec::new())
        };
        blocks.push(AttrBlock { ident, body });
        i += 1;
    }
    proof {
        assert(attrs@.take(i as int) =~= attrs@);
        if forall|i: int|
            0 <= i < attrs@.len() ==> attribute_ident(#[trigger] attrs@[i]) != Some(
                namespace.0@,
            ) {
            assert forall|i: int| 0 <= i < blocks@.len() implies !is_retained(
                namespace.0@,
                #[trigger] blocks@[i],
            ) by {
                assert(attribute_ident(attrs@[i]) != Some(namespace.0@));
            }
            lemma_scan_all_foreign(namespace.0@, blocks@);
        }
    }
    scan_blocks(namespace, blocks)
}

impl<'a> AttrNamespace<'a> {
    /// The namespace as text.
    pub fn as_str(&self) -> (name: &'a str)
        ensures
            name@ == self.0@,
    {
        self.0
    }

    /// Reads the attribute blocks of this namespace: `parse_attrs` with the
    /// namespace in front.
    pub fn parse_attrs<T: syn::parse::Parse>(&self, attrs: &[syn::Attribute]) -> (r: OkMaybe<
        Vec<T>,
        syn::Error,
    >)
        ensures
            exists|blocks: Seq<AttrBlock<T>>|
                {
                    &&& #[trigger] are_read_from(blocks, attrs@)
                    &&& r.0@ == scanned_items(self.0@, blocks)
                    &&& option_parts(r.1) == scanned_parts(self.0@, blocks)
                    &&& (r.1 is None <==> scanned_parts(self.0@, blocks).len() == 0)
                    &&& (r.1 is Some <==> any_failed(self.0@, blocks))
                },
            (forall|i: int|
                0 <= i < attrs@.len() ==> attribute_ident(#[trigger] attrs@[i]) != Some(self.0@))
                ==> r.0@.len() == 0 && r.1 is None,
    {
        parse_attrs(self, attrs)
    }
}

} // verus!
