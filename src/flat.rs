//! Concatenation of a sequence of buckets, in bucket-major order.
use vstd::prelude::*;

verus! {

/// All the items of `bs`, bucket 0 first, each bucket in its own order.
pub open spec fn flat<A>(bs: Seq<Seq<A>>) -> Seq<A>
    decreases bs.len(),
{
    if bs.len() == 0 {
        Seq::empty()
    } else {
        flat(bs.drop_last()) + bs.last()
    }
}

/// Replacing one bucket changes the total length by the difference in length.
pub proof fn lemma_flat_update_len<A>(bs: Seq<Seq<A>>, h: int, x: Seq<A>)
    requires
        0 <= h < bs.len(),
    ensures
        flat(bs.update(h, x)).len() == flat(bs).len() - bs[h].len() + x.len(),
    decreases bs.len(),
{
    let us = bs.update(h, x);
    if h == bs.len() - 1 {
        assert(us.drop_last() =~= bs.drop_last());
    } else {
        assert(us.drop_last() =~= bs.drop_last().update(h, x));
        lemma_flat_update_len(bs.drop_last(), h, x);
    }
}

/// The items of the first `b` buckets come first.
pub proof fn lemma_flat_prefix<A>(bs: Seq<Seq<A>>, b: int)
    requires
        0 <= b <= bs.len(),
    ensures
        flat(bs.take(b)).len() <= flat(bs).len(),
        forall|i: int| 0 <= i < flat(bs.take(b)).len() ==> flat(bs)[i] == flat(bs.take(b))[i],
    decreases bs.len() - b,
{
    if b < bs.len() {
        lemma_flat_prefix(bs, b + 1);
        assert(bs.take(b + 1).drop_last() =~= bs.take(b));
    } else {
        assert(bs.take(b) =~= bs);
    }
}

/// Where bucket `b` starts among all the items.
pub open spec fn start_of<A>(bs: Seq<Seq<A>>, b: int) -> int {
    flat(bs.take(b)).len() as int
}

/// Item `j` of bucket `b` stands at `start_of(bs, b) + j`, and the next bucket
/// starts where this one ends.
pub proof fn lemma_flat_at<A>(bs: Seq<Seq<A>>, b: int)
    requires
        0 <= b < bs.len(),
    ensures
        start_of(bs, b + 1) == start_of(bs, b) + bs[b].len(),
        start_of(bs, b + 1) <= flat(bs).len(),
        forall|j: int|
            0 <= j < bs[b].len() ==> #[trigger] flat(bs)[start_of(bs, b) + j] == bs[b][j],
{
    assert(bs.take(b + 1).drop_last() =~= bs.take(b));
    lemma_flat_prefix(bs, b + 1);
    assert forall|j: int| 0 <= j < bs[b].len() implies #[trigger] flat(bs)[start_of(bs, b) + j]
        == bs[b][j] by {
        assert(flat(bs.take(b + 1))[start_of(bs, b) + j] == bs[b][j]);
    }
}

/// Past the last bucket, every item has been counted.
pub proof fn lemma_flat_end<A>(bs: Seq<Seq<A>>)
    ensures
        start_of(bs, bs.len() as int) == flat(bs).len(),
{
    assert(bs.take(bs.len() as int) =~= bs);
}

/// Buckets that are all empty hold no item.
pub proof fn lemma_flat_empty<A>(bs: Seq<Seq<A>>)
    requires
        forall|b: int| 0 <= b < bs.len() ==> (#[trigger] bs[b]).len() == 0,
    ensures
        flat(bs).len() == 0,
    decreases bs.len(),
{
    if bs.len() > 0 {
        lemma_flat_empty(bs.drop_last());
    }
}

} // verus!
