//! Subsequences: what is left of a sequence when items are taken out and the
//! others keep their order.

use vstd::prelude::*;

verus! {

/// `at` says where each item of `part` stands in `whole`: one position for each
/// item, later items at later positions.
pub open spec fn embeds<T>(part: Seq<T>, whole: Seq<T>, at: Seq<int>) -> bool {
    &&& at.len() == part.len()
    &&& forall|i: int|
        0 <= i < at.len() ==> 0 <= #[trigger] at[i] < whole.len() && whole[at[i]] == part[i]
    &&& forall|i: int, j: int| 0 <= i < j < at.len() ==> at[i] < at[j]
}

/// `part` is `whole` with some items left out, the others in their order.
pub open spec fn is_subsequence<T>(part: Seq<T>, whole: Seq<T>) -> bool {
    exists|at: Seq<int>| embeds(part, whole, at)
}

/// The test that every item passes.
pub open spec fn always<T>() -> spec_fn(T) -> bool {
    |item: T| true
}

/// A filter whose test every item passes keeps the whole sequence.
pub proof fn lemma_filter_keeps_all<T>(items: Seq<T>, test: spec_fn(T) -> bool)
    requires
        forall|i: int| 0 <= i < items.len() ==> test(#[trigger] items[i]),
    ensures
        items.filter(test) == items,
    decreases items.len(),
{
    reveal(Seq::filter);
    if items.len() > 0 {
        lemma_filter_keeps_all(items.drop_last(), test);
        assert(items.drop_last().push(items.last()) =~= items);
    }
}

/// Where every item that passes `narrow` also passes `wide`, what `narrow`
/// keeps is a subsequence of what `wide` keeps.
pub proof fn lemma_filter_narrower<T>(
    items: Seq<T>,
    narrow: spec_fn(T) -> bool,
    wide: spec_fn(T) -> bool,
)
    requires
        forall|i: int| 0 <= i < items.len() && narrow(#[trigger] items[i]) ==> wide(items[i]),
    ensures
        is_subsequence(items.filter(narrow), items.filter(wide)),
    decreases items.len(),
{
    reveal(Seq::filter);
    if items.len() == 0 {
        assert(embeds(items.filter(narrow), items.filter(wide), Seq::<int>::empty()));
    } else {
        let front = items.drop_last();
        let last = items.last();
        assert forall|i: int| 0 <= i < front.len() && narrow(#[trigger] front[i]) implies wide(
            front[i],
        ) by {
            assert(front[i] == items[i]);
        }
        lemma_filter_narrower(front, narrow, wide);
        let at = choose|at: Seq<int>| embeds(front.filter(narrow), front.filter(wide), at);
        if narrow(last) {
            let longer = at.push(front.filter(wide).len() as int);
            assert(embeds(items.filter(narrow), items.filter(wide), longer));
        } else {
            assert(embeds(items.filter(narrow), items.filter(wide), at));
        }
    }
}

/// What a filter keeps is a subsequence of what it was given.
pub proof fn lemma_filter_is_subsequence<T>(items: Seq<T>, test: spec_fn(T) -> bool)
    ensures
        is_subsequence(items.filter(test), items),
{
    lemma_filter_narrower(items, test, always::<T>());
    lemma_filter_keeps_all(items, always::<T>());
}

} // verus!
