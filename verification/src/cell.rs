use vstd::prelude::*;
use crate::random::{roll_below, SeededRng};
use crate::rule_model::FrequencyHints;
use crate::simple_bit_set::{ascending, lists_in_order, SimpleBitSet};

verus! {

/// The sum of the weights of `values`.
pub open spec fn total_weight(values: Seq<usize>, weights: Seq<u32>) -> int
    decreases values.len(),
{
    if values.len() == 0 {
        0
    } else {
        weights[values[0] as int] + total_weight(values.drop_first(), weights)
    }
}

/// No total weight is negative.
proof fn lemma_total_weight_nonnegative(values: Seq<usize>, weights: Seq<u32>)
    ensures
        total_weight(values, weights) >= 0,
    decreases values.len(),
{
    if values.len() > 0 {
        lemma_total_weight_nonnegative(values.drop_first(), weights);
    }
}

/// When every weight is at least one, the total weight is at least the number of values.
pub proof fn lemma_total_weight_at_least_len(values: Seq<usize>, weights: Seq<u32>)
    requires
        forall|k: int| 0 <= k < values.len() ==> weights[#[trigger] values[k] as int] >= 1,
    ensures
        total_weight(values, weights) >= values.len(),
    decreases values.len(),
{
    if values.len() > 0 {
        assert(weights[values[0] as int] >= 1);
        assert forall|k: int| 0 <= k < values.drop_first().len() implies weights[#[trigger] values.drop_first()[k] as int]
            >= 1 by {
            assert(values.drop_first()[k] == values[k + 1]);
        }
        lemma_total_weight_at_least_len(values.drop_first(), weights);
    }
}

/// The increasing listing of a set without its least member is the rest of the listing.
proof fn lemma_listing_drop_first(q: Seq<usize>, s: Set<int>)
    requires
        lists_in_order(q, s),
        q.len() > 0,
    ensures
        lists_in_order(q.drop_first(), s.remove(q[0] as int)),
        forall|x: int| s.contains(x) ==> q[0] <= x,
{
    let t = s.remove(q[0] as int);
    let q2 = q.drop_first();
    assert forall|x: int| t.contains(x) <==> exists|k: int| 0 <= k < q2.len() && q2[k] as int == x by {
        if t.contains(x) {
            let k = choose|k: int| 0 <= k < q.len() && q[k] as int == x;
            assert(k != 0);
            assert(q2[k - 1] as int == x);
        }
        if exists|k: int| 0 <= k < q2.len() && q2[k] as int == x {
            let k = choose|k: int| 0 <= k < q2.len() && q2[k] as int == x;
            assert(q[k + 1] as int == x);
            assert(q[0] < q[k + 1]);
        }
    }
    assert forall|x: int| s.contains(x) implies q[0] <= x by {
        let k = choose|k: int| 0 <= k < q.len() && q[k] as int == x;
        if k > 0 {
            assert(q[0] < q[k]);
        }
    }
}

/// The listing of a subset weighs no more than the listing of the set.
pub proof fn lemma_total_weight_subset(q1: Seq<usize>, s1: Set<int>, q2: Seq<usize>, s2: Set<int>, weights: Seq<u32>)
    requires
        lists_in_order(q1, s1),
        lists_in_order(q2, s2),
        s1.subset_of(s2),
    ensures
        total_weight(q1, weights) <= total_weight(q2, weights),
    decreases q2.len(),
{
    if q2.len() == 0 {
        if q1.len() > 0 {
            assert(s1.contains(q1[0] as int));
            assert(s2.contains(q1[0] as int));
        }
    } else {
        let x = q2[0];
        lemma_listing_drop_first(q2, s2);
        lemma_total_weight_nonnegative(q2.drop_first(), weights);
        if q1.len() > 0 && q1[0] == x {
            lemma_listing_drop_first(q1, s1);
            lemma_total_weight_subset(q1.drop_first(), s1.remove(x as int), q2.drop_first(), s2.remove(x as int), weights);
        } else {
            assert(!s1.contains(x as int)) by {
                if s1.contains(x as int) {
                    lemma_listing_drop_first(q1, s1);
                    assert(s2.contains(q1[0] as int));
                    assert(q1[0] <= x);
                    assert(x <= q1[0]);
                }
            }
            assert(s1.subset_of(s2.remove(x as int)));
            lemma_total_weight_subset(q1, s1, q2.drop_first(), s2.remove(x as int), weights);
        }
    }
}

/// Laid out one after another, each as wide as its weight, the values cover the rolls
/// below their total weight: a roll falls in the slice of some value, at or after the
/// total weight of the values before it and before that total plus its own weight, and
/// [`weighted_pick`] gives that value.
pub proof fn lemma_roll_lands_in_its_slice(values: Seq<usize>, weights: Seq<u32>, roll: int)
    requires
        0 <= roll < total_weight(values, weights),
    ensures
        exists|k: int|
            0 <= k < values.len() && total_weight(values.take(k), weights) <= roll < total_weight(
                values.take(k) + seq![values[k]],
                weights,
            ) && weighted_pick(values, weights, roll) == values[k],
    decreases values.len(),
{
    if values.len() == 0 {
        assert(total_weight(values, weights) == 0);
    } else {
        let w0 = weights[values[0] as int] as int;
        let e = Seq::<usize>::empty();
        assert(values.take(0) =~= e);
        if roll < w0 {
            let one = values.take(0) + seq![values[0]];
            assert(one[0] == values[0]);
            assert(one.drop_first() =~= e);
            assert(total_weight(e, weights) == 0);
            assert(total_weight(one, weights) == w0);
        } else {
            let rest = values.drop_first();
            lemma_roll_lands_in_its_slice(rest, weights, roll - w0);
            let k = choose|k: int|
                0 <= k < rest.len() && total_weight(rest.take(k), weights) <= roll - w0 < total_weight(
                    rest.take(k) + seq![rest[k]],
                    weights,
                ) && weighted_pick(rest, weights, roll - w0) == rest[k];
            assert(values.take(k + 1)[0] == values[0]);
            assert(values.take(k + 1).drop_first() =~= rest.take(k));
            assert((values.take(k + 1) + seq![values[k + 1]])[0] == values[0]);
            assert((values.take(k + 1) + seq![values[k + 1]]).drop_first() =~= rest.take(k) + seq![rest[k]]);
            assert(values[k + 1] == rest[k]);
        }
    }
}

/// The value that `roll` lands on when the values are laid out one after another, each
/// as wide as its weight: the first value whose weight is more than what is left of the
/// roll once the weights of the values before it are taken off.
pub open spec fn weighted_pick(values: Seq<usize>, weights: Seq<u32>, roll: int) -> usize
    decreases values.len(),
{
    if values.len() == 0 {
        0
    } else if roll < weights[values[0] as int] {
        values[0]
    } else {
        weighted_pick(values.drop_first(), weights, roll - weights[values[0] as int])
    }
}

/// Every value indexes a weight.
pub open spec fn weighs_all(values: Seq<usize>, weights: Seq<u32>) -> bool {
    forall|k: int| 0 <= k < values.len() ==> (#[trigger] values[k]) < weights.len()
}

/// A roll below the total weight lands on one of the values, and on one whose weight is
/// not zero.
pub proof fn lemma_weighted_pick_lands(values: Seq<usize>, weights: Seq<u32>, roll: int)
    requires
        weighs_all(values, weights),
        0 <= roll < total_weight(values, weights),
    ensures
        values.contains(weighted_pick(values, weights, roll)),
        weights[weighted_pick(values, weights, roll) as int] > 0,
    decreases values.len(),
{
    assert(values[0] == values[0]);
    if roll >= weights[values[0] as int] {
        assert forall|k: int| 0 <= k < values.drop_first().len() implies (#[trigger] values.drop_first()[k])
            < weights.len() by {
            assert(values.drop_first()[k] == values[k + 1]);
        }
        lemma_weighted_pick_lands(values.drop_first(), weights, roll - weights[values[0] as int]);
        let p = weighted_pick(values, weights, roll);
        let k = choose|k: int| 0 <= k < values.drop_first().len() && values.drop_first()[k] == p;
        assert(values[k + 1] == p);
    }
}

/// The value of `values` that `roll` lands on (see [`weighted_pick`]).
pub fn choose_weighted(values: &[usize], weights: &[u32], roll: u32) -> (r: usize)
    requires
        weighs_all(values@, weights@),
        total_weight(values@, weights@) <= u32::MAX,
        roll < total_weight(values@, weights@),
    ensures
        r == weighted_pick(values@, weights@, roll as int),
{
    let mut sum: u32 = 0;
    let mut k: usize = 0;
    proof {
        assert(values@.skip(0) =~= values@);
    }
    while k < values.len()
        invariant
            0 <= k <= values@.len(),
            weighs_all(values@, weights@),
            total_weight(values@, weights@) <= u32::MAX,
            roll < total_weight(values@, weights@),
            sum <= roll,
            sum + total_weight(values@.skip(k as int), weights@) == total_weight(values@, weights@),
            weighted_pick(values@.skip(k as int), weights@, roll - sum) == weighted_pick(
                values@,
                weights@,
                roll as int,
            ),
        decreases values@.len() - k,
    {
        let ghost rest = values@.skip(k as int);
        proof {
            assert(rest[0] == values@[k as int]);
            assert(rest.drop_first() =~= values@.skip(k + 1));
            lemma_total_weight_nonnegative(rest.drop_first(), weights@);
        }
        let value = values[k];
        let weight = weights[value];
        sum = sum + weight;
        if sum > roll {
            return value;
        }
        k += 1;
    }
    proof {
        assert(values@.skip(k as int).len() == 0);
    }
    0
}

/// One cell of the output grid: the patterns it may still take and, once it is
/// collapsed, the one it took.
#[derive(Debug)]
pub struct Cell {
    pub possible_values: SimpleBitSet,
    pub collapsed_val: Option<u32>,
    pub is_collapsed: bool,
}

impl Cell {
    /// The cell has taken `value`: that is the only pattern left to it.
    pub open spec fn collapsed_to(&self, value: int) -> bool {
        &&& self.is_collapsed
        &&& self.collapsed_val == Some(value as u32)
        &&& self.possible_values@ == set![value]
    }

    /// A cell that may still take any pattern of `possible_values`.
    pub fn new(possible_values: SimpleBitSet) -> (r: Cell)
        ensures
            r.possible_values@ == possible_values@,
            r.possible_values.capacity() == possible_values.capacity(),
            r.collapsed_val is None,
            !r.is_collapsed,
    {
        Cell { possible_values, collapsed_val: None, is_collapsed: false }
    }

    /// Settles the cell on one of its possible patterns, drawn at random in proportion
    /// to the weights: a roll below the total weight of the possible patterns, taken in
    /// increasing order, picks the pattern it lands on.
    pub fn collapse(&mut self, frequency_hints: &FrequencyHints, rng: &mut SeededRng)
        requires
            forall|v: int| old(self).possible_values@.contains(v) ==> v < frequency_hints.weights@.len(),
            0 < total_weight(ascending(old(self).possible_values@), frequency_hints.weights@) <= u32::MAX,
        ensures
            exists|roll: int|
                {
                    &&& 0 <= roll < total_weight(ascending(old(self).possible_values@), frequency_hints.weights@)
                    &&& final(self).collapsed_to(
                        weighted_pick(ascending(old(self).possible_values@), frequency_hints.weights@, roll) as int,
                    )
                },
            final(self).is_collapsed,
            final(self).collapsed_val is Some,
            exists|v: int|
                {
                    &&& old(self).possible_values@.contains(v)
                    &&& frequency_hints.weights@[v] > 0
                    &&& #[trigger] final(self).collapsed_to(v)
                },
            final(self).possible_values.capacity() == old(self).possible_values.capacity(),
            final(rng).seed() == old(rng).seed(),
            final(rng).draws().len() == old(rng).draws().len() + 1,
            final(rng).draws().drop_last() == old(rng).draws(),
            exists|k: int|
                {
                    &&& 0 <= k < ascending(old(self).possible_values@).len()
                    &&& total_weight(ascending(old(self).possible_values@).take(k), frequency_hints.weights@)
                        <= final(rng).draws().last()
                    &&& final(rng).draws().last() < total_weight(
                        ascending(old(self).possible_values@).take(k) + seq![ascending(old(self).possible_values@)[k]],
                        frequency_hints.weights@,
                    )
                    &&& #[trigger] final(self).collapsed_to(ascending(old(self).possible_values@)[k] as int)
                },
    {
        let ghost before = self.possible_values@;
        let values = self.possible_values.members();
        let ghost listed = values@;
        proof {
            SimpleBitSet::lemma_members_bounded(&self.possible_values);
            assert forall|k: int| 0 <= k < listed.len() implies (#[trigger] listed[k]) < frequency_hints.weights@.len() by {
                assert(listed.to_set().contains(listed[k]));
                assert(listed.to_set().map(|i: usize| i as int).contains(listed[k] as int));
            }
        }
        let total = sum_weights(&values, &frequency_hints.weights);
        let roll = roll_below(rng, total);
        let chosen = choose_weighted(values.as_slice(), frequency_hints.weights.as_slice(), roll);
        proof {
            lemma_roll_lands_in_its_slice(listed, frequency_hints.weights@, roll as int);
            lemma_weighted_pick_lands(listed, frequency_hints.weights@, roll as int);
            let k = choose|k: int| 0 <= k < listed.len() && listed[k] == chosen;
            assert(listed.to_set().contains(chosen));
            assert(listed.to_set().map(|i: usize| i as int).contains(chosen as int));
            assert(before.contains(chosen as int));
        }
        self.possible_values.clear_all();
        self.possible_values.set(chosen);
        self.collapsed_val = Some(chosen as u32);
        self.is_collapsed = true;
        proof {
            assert(self.possible_values@ =~= set![chosen as int]);
            assert(self.collapsed_to(chosen as int));
            assert(rng.draws().last() == roll);
            assert(rng.draws().drop_last() =~= old(rng).draws());
        }
    }
}

/// The total weight of `values`.
fn sum_weights(values: &Vec<usize>, weights: &Vec<u32>) -> (r: u32)
    requires
        weighs_all(values@, weights@),
        total_weight(values@, weights@) <= u32::MAX,
    ensures
        r == total_weight(values@, weights@),
{
    let mut sum: u32 = 0;
    let mut k: usize = 0;
    proof {
        assert(values@.skip(0) =~= values@);
    }
    while k < values.len()
        invariant
            0 <= k <= values@.len(),
            weighs_all(values@, weights@),
            total_weight(values@, weights@) <= u32::MAX,
            sum + total_weight(values@.skip(k as int), weights@) == total_weight(values@, weights@),
        decreases values@.len() - k,
    {
        let ghost rest = values@.skip(k as int);
        proof {
            assert(rest[0] == values@[k as int]);
            assert(rest.drop_first() =~= values@.skip(k + 1));
            lemma_total_weight_nonnegative(rest.drop_first(), weights@);
        }
        sum = sum + weights[values[k]];
        k += 1;
    }
    proof {
        assert(values@.skip(k as int).len() == 0);
    }
    sum
}

} // verus!
