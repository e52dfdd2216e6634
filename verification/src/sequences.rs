//! Facts about filtered sequences that the loops of this library share.

use vstd::prelude::*;

verus! {

/// Filtering one item more of a sequence keeps what was kept and adds the
/// new item where it passes.
pub proof fn lemma_filter_take_step<A>(items: Seq<A>, keep: spec_fn(A) -> bool, i: int)
    requires
        0 <= i < items.len(),
    ensures
        items.take(i + 1).filter(keep) == if keep(items[i]) {
            items.take(i).filter(keep).push(items[i])
        } else {
            items.take(i).filter(keep)
        },
{
    assert(items.take(i + 1) =~= items.take(i).push(items[i]));
    items.take(i).lemma_filter_push(items[i], keep);
}

/// Filtering nothing keeps nothing.
pub proof fn lemma_filter_nothing<A>(items: Seq<A>, keep: spec_fn(A) -> bool)
    requires
        items.len() == 0,
    ensures
        items.filter(keep) == Seq::<A>::empty(),
{
    reveal(Seq::filter);
    assert(items.filter(keep) =~= Seq::<A>::empty());
}

/// A filter that turns an item away yields fewer items than it was given.
pub proof fn lemma_filter_drops<A>(items: Seq<A>, keep: spec_fn(A) -> bool, k: int)
    requires
        0 <= k < items.len(),
        !keep(items[k]),
    ensures
        items.filter(keep).len() < items.len(),
    decreases items.len(),
{
    reveal(Seq::filter);
    let front = items.drop_last();
    front.lemma_filter_len(keep);
    if k < items.len() - 1 {
        lemma_filter_drops(front, keep, k);
    }
}

/// A filter that turns nothing away yields what it was given.
pub proof fn lemma_filter_keeps_all<A>(items: Seq<A>, keep: spec_fn(A) -> bool)
    requires
        forall|i: int| 0 <= i < items.len() ==> keep(#[trigger] items[i]),
    ensures
        items.filter(keep) == items,
    decreases items.len(),
{
    reveal(Seq::filter);
    if items.len() > 0 {
        let front = items.drop_last();
        assert forall|i: int| 0 <= i < front.len() implies keep(#[trigger] front[i]) by {
            assert(front[i] == items[i]);
        }
        lemma_filter_keeps_all(front, keep);
        assert(front.push(items.last()) =~= items);
    } else {
        assert(items.filter(keep) =~= items);
    }
}

/// What a filter keeps passes the test and stood in the sequence, and what
/// stood in the sequence and passes the test is kept.
pub proof fn lemma_filter_members<A>(items: Seq<A>, keep: spec_fn(A) -> bool)
    ensures
        forall|item: A| #[trigger]
            items.filter(keep).contains(item) <==> items.contains(item) && keep(item),
    decreases items.len(),
{
    reveal(Seq::filter);
    if items.len() > 0 {
        let front = items.drop_last();
        lemma_filter_members(front, keep);
        assert forall|item: A| #[trigger]
            items.filter(keep).contains(item) <==> items.contains(item) && keep(item) by {
            if items.filter(keep).contains(item) {
                let k = choose|k: int|
                    0 <= k < items.filter(keep).len() && items.filter(keep)[k] == item;
                if keep(items.last()) && k == front.filter(keep).len() {
                    assert(items[items.len() - 1] == item);
                } else {
                    assert(front.filter(keep)[k] == item);
                    assert(front.filter(keep).contains(item));
                    let j = choose|j: int| 0 <= j < front.len() && front[j] == item;
                    assert(items[j] == item);
                }
            }
            if items.contains(item) && keep(item) {
                let j = choose|j: int| 0 <= j < items.len() && items[j] == item;
                if j == items.len() - 1 {
                    assert(items.filter(keep)[front.filter(keep).len() as int] == item);
                } else {
                    assert(front[j] == item);
                    assert(front.contains(item));
                    assert(front.filter(keep).contains(item));
                    let k = choose|k: int|
                        0 <= k < front.filter(keep).len() && front.filter(keep)[k] == item;
                    assert(items.filter(keep)[k] == item);
                }
            }
        }
    }
}

} // verus!
