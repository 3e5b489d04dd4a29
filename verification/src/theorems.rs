//! What the checks come to on sequences of a known shape.

use crate::attr::{
    any_failed, cannot_message, duplicate_message, duplicate_parts, exclusive_message, exclusive_parts,
    exclusive_walk, first_by_kind, first_of_kind, has_kind, is_retained, is_violated,
    lemma_any_failed_push, lemma_first_of_kind, other_names, previous_message, scanned_items, scanned_parts, AttrBlock,
    Kind, Tagged,
};
use crate::error::error_parts;
use proc_macro2::Span;
use vstd::prelude::*;

verus! {

/// Whether no two entries of `items` are of the same kind.
pub open spec fn no_kind_repeats<T>(items: Seq<Tagged<T>>) -> bool {
    forall|i: int, j: int|
        0 <= i < j < items.len() ==> (#[trigger] items[i]).0.id != (#[trigger] items[j]).0.id
}

/// Where no kind repeats, the duplicate check has nothing to report and
/// keeps every entry under its kind.
pub proof fn lemma_unique_without_repeats<T>(items: Seq<Tagged<T>>)
    requires
        no_kind_repeats(items),
    ensures
        duplicate_parts(items) == Seq::<(Seq<char>, Span)>::empty(),
        forall|i: int|
            0 <= i < items.len() ==> first_by_kind(items).contains_key(
                (#[trigger] items[i]).0.id,
            ) && first_by_kind(items)[items[i].0.id] == items[i].1,
    decreases items.len(),
{
    if items.len() > 0 {
        let init = items.drop_last();
        let last = items.last();
        assert forall|i: int, j: int| 0 <= i < j < init.len() implies (#[trigger] init[i]).0.id
            != (#[trigger] init[j]).0.id by {
            assert(init[i] == items[i] && init[j] == items[j]);
        }
        lemma_unique_without_repeats(init);
        if has_kind(init, last.0.id) {
            let i = choose|i: int| 0 <= i < init.len() && (#[trigger] init[i]).0.id == last.0.id;
            assert(items[i] == init[i]);
            assert(items[items.len() - 1] == last);
        }
    }
    assert forall|i: int| 0 <= i < items.len() implies first_by_kind(items).contains_key(
        (#[trigger] items[i]).0.id,
    ) && first_by_kind(items)[items[i].0.id] == items[i].1 by {
        lemma_first_of_kind(items, items[i].0.id);
        let f = first_of_kind(items, items[i].0.id);
        if f < i {
            assert(items[f].0.id == items[i].0.id);
        }
    }
}

/// A sequence that the duplicate check has nothing to report on repeats no
/// kind, so that every one of its entries is kept: the check, made again on
/// what it kept, comes to the same.
pub proof fn lemma_clean_is_kept<T>(items: Seq<Tagged<T>>)
    requires
        duplicate_parts(items).len() == 0,
    ensures
        no_kind_repeats(items),
        forall|i: int|
            0 <= i < items.len() ==> first_by_kind(items).contains_key(
                (#[trigger] items[i]).0.id,
            ) && first_by_kind(items)[items[i].0.id] == items[i].1,
    decreases items.len(),
{
    if items.len() > 0 {
        let init = items.drop_last();
        let last = items.last();
        lemma_clean_is_kept(init);
        assert forall|i: int, j: int| 0 <= i < j < items.len() implies (#[trigger] items[i]).0.id
            != (#[trigger] items[j]).0.id by {
            if j < items.len() - 1 {
                assert(init[i] == items[i] && init[j] == items[j]);
            } else {
                assert(init[i] == items[i]);
            }
        }
    }
    lemma_unique_without_repeats(items);
}

/// Where exactly two entries share a kind, the duplicate check reports
/// exactly twice: at the later of the two that it is a duplicate, then at
/// the earlier that the kind was defined there. The earlier one is kept.
pub proof fn lemma_single_repeat<T>(items: Seq<Tagged<T>>, a: int, b: int)
    requires
        0 <= a < b < items.len(),
        items[a].0.id == items[b].0.id,
        forall|i: int, j: int|
            0 <= i < j < items.len() && (#[trigger] items[i]).0.id == (#[trigger] items[j]).0.id
                ==> i == a && j == b,
    ensures
        duplicate_parts(items) == seq![
            (duplicate_message(items[b].0.name@), items[b].1.1),
            (previous_message(items[b].0.name@), items[a].1.1),
        ],
        first_by_kind(items).contains_key(items[b].0.id),
        first_by_kind(items)[items[b].0.id] == items[a].1,
    decreases items.len(),
{
    let init = items.drop_last();
    let last = items.last();
    let n = items.len() as int;
    if b == n - 1 {
        assert forall|i: int, j: int| 0 <= i < j < init.len() implies (#[trigger] init[i]).0.id
            != (#[trigger] init[j]).0.id by {
            assert(init[i] == items[i] && init[j] == items[j]);
        }
        lemma_unique_without_repeats(init);
        assert(init[a] == items[a]);
        assert(has_kind(init, last.0.id));
        lemma_first_of_kind(init, last.0.id);
        let f = first_of_kind(init, last.0.id);
        assert(init[f] == items[f]);
        if f < a {
            assert(items[f].0.id == items[a].0.id);
        }
        assert(f == a);
        assert(duplicate_parts(items) =~= seq![
            (duplicate_message(items[b].0.name@), items[b].1.1),
            (previous_message(items[b].0.name@), items[a].1.1),
        ]);
    } else {
        assert(init[a] == items[a] && init[b] == items[b]);
        assert forall|i: int, j: int|
            0 <= i < j < init.len() && (#[trigger] init[i]).0.id == (#[trigger] init[j]).0.id
                implies i == a && j == b by {
            assert(init[i] == items[i] && init[j] == items[j]);
        }
        lemma_single_repeat(init, a, b);
        if has_kind(init, last.0.id) {
            let i = choose|i: int| 0 <= i < init.len() && (#[trigger] init[i]).0.id == last.0.id;
            assert(items[i] == init[i]);
            assert(items[n - 1] == last);
        }
    }
    assert(has_kind(items, items[b].0.id));
    lemma_first_of_kind(items, items[b].0.id);
    let g = first_of_kind(items, items[b].0.id);
    if g < a {
        assert(items[g].0.id == items[a].0.id);
    }
}

/// Where the exclusive kind does not occur, the exclusivity check has
/// nothing to report.
pub proof fn lemma_exclusive_absent<T>(exclusive: Kind, items: Seq<Tagged<T>>)
    requires
        !has_kind(items, exclusive.id),
    ensures
        !is_violated(exclusive.id, items),
        exclusive_parts(exclusive, items) == Seq::<(Seq<char>, Span)>::empty(),
{
}

/// Where every entry is of the exclusive kind, the exclusivity check has
/// nothing to report.
pub proof fn lemma_exclusive_alone<T>(exclusive: Kind, items: Seq<Tagged<T>>)
    requires
        forall|i: int| 0 <= i < items.len() ==> (#[trigger] items[i]).0.id == exclusive.id,
    ensures
        other_names(exclusive.id, items).len() == 0,
        !is_violated(exclusive.id, items),
        exclusive_parts(exclusive, items) == Seq::<(Seq<char>, Span)>::empty(),
    decreases items.len(),
{
    if items.len() > 0 {
        let init = items.drop_last();
        assert forall|i: int| 0 <= i < init.len() implies (#[trigger] init[i]).0.id
            == exclusive.id by {
            assert(init[i] == items[i]);
        }
        lemma_exclusive_alone(exclusive, init);
        assert(items[items.len() - 1].0.id == exclusive.id);
    }
}

/// The walk yields one diagnostic per entry.
pub proof fn lemma_exclusive_walk_len<T>(
    exclusive: u64,
    at_exclusive: Seq<char>,
    at_other: Seq<char>,
    items: Seq<Tagged<T>>,
)
    ensures
        exclusive_walk(exclusive, at_exclusive, at_other, items).len() == items.len(),
    decreases items.len(),
{
    if items.len() > 0 {
        lemma_exclusive_walk_len(exclusive, at_exclusive, at_other, items.drop_last());
    }
}

/// The exclusivity check has nothing to report exactly where the exclusive
/// kind is missing or stands alone, which the entries alone decide: made
/// again on a sequence it found clean, it finds it clean.
pub proof fn lemma_exclusive_clean<T>(exclusive: Kind, items: Seq<Tagged<T>>)
    ensures
        exclusive_parts(exclusive, items).len() == 0 <==> !is_violated(exclusive.id, items),
        is_violated(exclusive.id, items) ==> exclusive_parts(exclusive, items).len()
            == items.len(),
{
    lemma_exclusive_walk_len(
        exclusive.id,
        exclusive_message(exclusive.name@, other_names(exclusive.id, items)),
        cannot_message(exclusive.name@),
        items,
    );
}

/// Where one entry of the exclusive kind stands beside one entry of another
/// kind, in either order, the exclusivity check reports exactly twice: at
/// the exclusive entry which of the two to remove, then at the other that it
/// cannot be used with the exclusive kind.
pub proof fn lemma_exclusive_beside_one<T>(exclusive: Kind, items: Seq<Tagged<T>>, e: int, o: int)
    requires
        items.len() == 2,
        (e == 0 && o == 1) || (e == 1 && o == 0),
        items[e].0.id == exclusive.id,
        items[o].0.id != exclusive.id,
    ensures
        is_violated(exclusive.id, items),
        exclusive_parts(exclusive, items) == seq![
            (exclusive_message(exclusive.name@, seq![items[o].0.name@]), items[e].1.1),
            (cannot_message(exclusive.name@), items[o].1.1),
        ],
{
    let one = items.drop_last();
    let none = one.drop_last();
    let at_exclusive = exclusive_message(exclusive.name@, other_names(exclusive.id, items));
    let at_other = cannot_message(exclusive.name@);
    assert(one.len() == 1 && none.len() == 0);
    assert(one[0] == items[0] && one.last() == items[0] && items.last() == items[1]);
    assert(other_names(exclusive.id, none) =~= Seq::<Seq<char>>::empty());
    assert(!has_kind(none, items[0].0.id));
    assert(exclusive_walk(exclusive.id, at_exclusive, at_other, none) =~= Seq::empty());
    if e == 0 {
        assert(other_names(exclusive.id, one) =~= Seq::<Seq<char>>::empty());
        assert(!has_kind(one, items[1].0.id)) by {
            if has_kind(one, items[1].0.id) {
                let i = choose|i: int| 0 <= i < one.len() && (#[trigger] one[i]).0.id == items[1].0.id;
                assert(one[i] == items[0]);
            }
        }
    } else {
        assert(other_names(exclusive.id, one) =~= seq![items[0].0.name@]);
    }
    assert(other_names(exclusive.id, items) =~= seq![items[o].0.name@]);
    assert(has_kind(items, exclusive.id)) by {
        assert(items[e].0.id == exclusive.id);
    }
    assert(exclusive_walk(exclusive.id, at_exclusive, at_other, one) =~= if e == 0 {
        seq![(at_exclusive, items[0].1.1)]
    } else {
        seq![(at_other, items[0].1.1)]
    });
    assert(exclusive_parts(exclusive, items) =~= seq![
        (exclusive_message(exclusive.name@, seq![items[o].0.name@]), items[e].1.1),
        (cannot_message(exclusive.name@), items[o].1.1),
    ]);
}

/// Scanning blocks laid end to end gives what scanning each run gives, end
/// to end: entries and diagnostics keep block order.
pub proof fn lemma_scan_concat<T>(namespace: Seq<char>, a: Seq<AttrBlock<T>>, b: Seq<AttrBlock<T>>)
    ensures
        scanned_items(namespace, a + b) == scanned_items(namespace, a) + scanned_items(
            namespace,
            b,
        ),
        scanned_parts(namespace, a + b) == scanned_parts(namespace, a) + scanned_parts(
            namespace,
            b,
        ),
    decreases b.len(),
{
    if b.len() == 0 {
        assert(a + b =~= a);
        assert(scanned_items(namespace, a) + scanned_items(namespace, b) =~= scanned_items(
            namespace,
            a,
        ));
        assert(scanned_parts(namespace, a) + scanned_parts(namespace, b) =~= scanned_parts(
            namespace,
            a,
        ));
    } else {
        lemma_scan_concat(namespace, a, b.drop_last());
        assert((a + b).drop_last() =~= a + b.drop_last());
        assert((a + b).last() == b.last());
        assert(scanned_items(namespace, a + b) =~= scanned_items(namespace, a) + scanned_items(
            namespace,
            b,
        ));
        assert(scanned_parts(namespace, a + b) =~= scanned_parts(namespace, a) + scanned_parts(
            namespace,
            b,
        ));
    }
}

/// A block of another name contributes nothing: with it taken out, the scan
/// gives the same entries and the same diagnostics.
pub proof fn lemma_scan_skips_foreign<T>(namespace: Seq<char>, blocks: Seq<AttrBlock<T>>, i: int)
    requires
        0 <= i < blocks.len(),
        !is_retained(namespace, blocks[i]),
    ensures
        scanned_items(namespace, blocks.remove(i)) == scanned_items(namespace, blocks),
        scanned_parts(namespace, blocks.remove(i)) == scanned_parts(namespace, blocks),
{
    let front = blocks.take(i);
    let one = seq![blocks[i]];
    let back = blocks.skip(i + 1);
    assert(blocks =~= (front + one) + back);
    assert(blocks.remove(i) =~= front + back);
    lemma_scan_concat(namespace, front + one, back);
    lemma_scan_concat(namespace, front, one);
    lemma_scan_concat(namespace, front, back);
    assert(one.drop_last() =~= Seq::<AttrBlock<T>>::empty());
    assert(scanned_items(namespace, one.drop_last()) =~= Seq::<T>::empty());
    assert(scanned_parts(namespace, one.drop_last()) =~= Seq::empty());
    assert(scanned_items(namespace, one) =~= Seq::<T>::empty());
    assert(scanned_parts(namespace, one) =~= Seq::empty());
    assert(scanned_items(namespace, front) + scanned_items(namespace, one) =~= scanned_items(
        namespace,
        front,
    ));
    assert(scanned_parts(namespace, front) + scanned_parts(namespace, one) =~= scanned_parts(
        namespace,
        front,
    ));
}

/// A block of the namespace that could be read contributes exactly its
/// entries, in their order, and no diagnostic.
pub proof fn lemma_scan_one_read<T>(namespace: Seq<char>, block: AttrBlock<T>)
    requires
        is_retained(namespace, block),
        block.body is Ok,
    ensures
        scanned_items(namespace, seq![block]) == block.body->Ok_0@,
        scanned_parts(namespace, seq![block]) == Seq::<(Seq<char>, Span)>::empty(),
{
    let one = seq![block];
    assert(one.drop_last() =~= Seq::<AttrBlock<T>>::empty());
    assert(scanned_items(namespace, one.drop_last()) =~= Seq::<T>::empty());
    assert(scanned_parts(namespace, one.drop_last()) =~= Seq::empty());
    assert(scanned_items(namespace, one) =~= block.body->Ok_0@);
}

/// A block of the namespace that could not be read contributes no entries
/// and exactly the diagnostics of its error, in their order.
pub proof fn lemma_scan_one_failed<T>(namespace: Seq<char>, block: AttrBlock<T>)
    requires
        is_retained(namespace, block),
        block.body is Err,
    ensures
        scanned_items(namespace, seq![block]) == Seq::<T>::empty(),
        scanned_parts(namespace, seq![block]) == error_parts(block.body->Err_0),
        any_failed(namespace, seq![block]),
{
    let one = seq![block];
    assert(one.drop_last() =~= Seq::<AttrBlock<T>>::empty());
    assert(scanned_items(namespace, one.drop_last()) =~= Seq::<T>::empty());
    assert(scanned_parts(namespace, one.drop_last()) =~= Seq::empty());
    assert(scanned_parts(namespace, one) =~= error_parts(block.body->Err_0));
    assert(one[0] == block);
}

/// The blocks of `namespace` among `blocks`, in their order.
pub open spec fn retained_blocks<T>(namespace: Seq<char>, blocks: Seq<AttrBlock<T>>) -> Seq<
    AttrBlock<T>,
> {
    blocks.filter(|block: AttrBlock<T>| is_retained(namespace, block))
}

/// The scan sees only the blocks of the namespace: with every other block
/// taken out, wherever it stood, the entries and the diagnostics are the
/// same.
pub proof fn lemma_scan_retained_only<T>(namespace: Seq<char>, blocks: Seq<AttrBlock<T>>)
    ensures
        scanned_items(namespace, blocks) == scanned_items(
            namespace,
            retained_blocks(namespace, blocks),
        ),
        scanned_parts(namespace, blocks) == scanned_parts(
            namespace,
            retained_blocks(namespace, blocks),
        ),
        any_failed(namespace, blocks) <==> any_failed(
            namespace,
            retained_blocks(namespace, blocks),
        ),
    decreases blocks.len(),
{
    reveal(Seq::filter);
    if blocks.len() > 0 {
        let init = blocks.drop_last();
        let last = blocks.last();
        let kept = retained_blocks(namespace, init);
        lemma_scan_retained_only(namespace, init);
        lemma_any_failed_push(namespace, blocks);
        if is_retained(namespace, last) {
            assert(retained_blocks(namespace, blocks) == kept.push(last));
            assert(kept.push(last).drop_last() =~= kept);
            assert(kept.push(last).last() == last);
            lemma_any_failed_push(namespace, kept.push(last));
        } else {
            assert(retained_blocks(namespace, blocks) == kept);
        }
    } else {
        assert(retained_blocks(namespace, blocks) =~= blocks);
    }
}

/// Two runs of blocks that agree on the blocks of the namespace, whatever
/// other blocks stand between them and however many, give the same entries
/// and the same diagnostics.
pub proof fn lemma_scan_same_retained<T>(
    namespace: Seq<char>,
    a: Seq<AttrBlock<T>>,
    b: Seq<AttrBlock<T>>,
)
    requires
        retained_blocks(namespace, a) == retained_blocks(namespace, b),
    ensures
        scanned_items(namespace, a) == scanned_items(namespace, b),
        scanned_parts(namespace, a) == scanned_parts(namespace, b),
        any_failed(namespace, a) <==> any_failed(namespace, b),
{
    lemma_scan_retained_only(namespace, a);
    lemma_scan_retained_only(namespace, b);
}

} // verus!
