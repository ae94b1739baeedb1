//! The table of per-symbol costs used to weigh grammar patterns: one entry
//! per symbol id, filled from (symbol id, cost) pairs where the last pair
//! for an id wins, and a default for ids no pair mentions.
use vstd::prelude::*;

verus! {

/// The cost of symbol `id` after the pairs are applied in order: the cost of
/// the last pair for `id`, or `default` when no pair names it.
pub open spec fn cost_of<T>(pairs: Seq<(u32, T)>, default: T, id: int) -> T
    decreases pairs.len(),
{
    if pairs.len() == 0 {
        default
    } else if pairs.last().0 as int == id {
        pairs.last().1
    } else {
        cost_of(pairs.drop_last(), default, id)
    }
}

/// A table of `len` costs, entry `i` holding `cost_of(pairs, default, i)`.
/// Pairs whose symbol id is `len` or more are skipped.
pub fn build_costs<T: Copy>(len: usize, default: T, pairs: &Vec<(u32, T)>) -> (costs: Vec<T>)
    ensures
        costs@.len() == len,
        forall|i: int| 0 <= i < len ==> #[trigger] costs@[i] == cost_of(pairs@, default, i),
{
    let mut costs: Vec<T> = Vec::with_capacity(len);
    let mut i: usize = 0;
    while i < len
        invariant
            i <= len,
            costs@.len() == i,
            forall|j: int| 0 <= j < i ==> #[trigger] costs@[j] == default,
        decreases len - i,
    {
        costs.push(default);
        i = i + 1;
    }
    let mut k: usize = 0;
    while k < pairs.len()
        invariant
            k <= pairs@.len(),
            costs@.len() == len,
            forall|j: int|
                0 <= j < len ==> #[trigger] costs@[j] == cost_of(pairs@.take(k as int), default, j),
        decreases pairs@.len() - k,
    {
        let (id, cost) = pairs[k];
        proof {
            assert(pairs@.take(k + 1).drop_last() =~= pairs@.take(k as int));
            assert(pairs@.take(k + 1).last() == pairs@[k as int]);
        }
        if (id as usize) < costs.len() {
            costs.set(id as usize, cost);
        }
        k = k + 1;
    }
    proof {
        assert(pairs@.take(k as int) =~= pairs@);
    }
    costs
}

/// Grows a cost table to at least `needed` entries by appending `fill`;
/// existing entries are kept.
pub fn pad_costs<T: Copy>(costs: &mut Vec<T>, needed: usize, fill: T)
    ensures
        final(costs)@.len() == if old(costs)@.len() < needed {
            needed as nat
        } else {
            old(costs)@.len()
        },
        forall|i: int| 0 <= i < old(costs)@.len() ==> #[trigger] final(costs)@[i] == old(costs)@[i],
        forall|i: int|
            old(costs)@.len() <= i < final(costs)@.len() ==> #[trigger] final(costs)@[i] == fill,
{
    let ghost start = costs@;
    while costs.len() < needed
        invariant
            start.len() <= costs@.len(),
            start.len() < needed ==> costs@.len() <= needed,
            start.len() >= needed ==> costs@.len() == start.len(),
            forall|i: int| 0 <= i < start.len() ==> #[trigger] costs@[i] == start[i],
            forall|i: int| start.len() <= i < costs@.len() ==> #[trigger] costs@[i] == fill,
        decreases needed - costs@.len(),
    {
        costs.push(fill);
    }
}

/// A later pair for the same symbol overrides every earlier one.
pub proof fn lemma_last_pair_wins<T>(pairs: Seq<(u32, T)>, default: T, id: u32, cost: T)
    ensures
        cost_of(pairs.push((id, cost)), default, id as int) == cost,
{
    assert(pairs.push((id, cost)).last() == (id, cost));
}

/// Pairs for other symbols leave a symbol's cost unchanged.
pub proof fn lemma_other_pair_keeps_cost<T>(
    pairs: Seq<(u32, T)>,
    default: T,
    id: u32,
    cost: T,
    other: int,
)
    requires
        other != id as int,
    ensures
        cost_of(pairs.push((id, cost)), default, other) == cost_of(pairs, default, other),
{
    assert(pairs.push((id, cost)).drop_last() =~= pairs);
}

} // verus!
