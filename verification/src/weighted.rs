//! Smooth weighted round robin.
//!
//! Every member carries a running balance. In each round the members that
//! may be picked gain their weight, the one with the highest balance wins,
//! and the winner pays back all that was handed out in the round. A member
//! of weight 3 beside one of weight 1 so wins three rounds in four, spread
//! out over time instead of three in a row.

use vstd::prelude::*;

verus! {

/// The sum of those `values` that `mask` picks out.
pub open spec fn masked_sum(values: Seq<int>, mask: Seq<bool>) -> int
    decreases values.len(),
{
    if values.len() == 0 {
        0
    } else {
        masked_sum(values.drop_last(), mask) + if mask[values.len() - 1] {
            values.last()
        } else {
            0
        }
    }
}

/// How many of the first `n` places `mask` picks out.
pub open spec fn masked_count(mask: Seq<bool>, n: nat) -> int
    decreases n,
{
    if n == 0 {
        0
    } else {
        masked_count(mask, (n - 1) as nat) + if mask[n - 1] {
            1int
        } else {
            0
        }
    }
}

/// The mask that picks out every one of `n` places.
pub open spec fn everyone(n: nat) -> Seq<bool> {
    Seq::new(n, |i: int| true)
}

/// The sum of all weights.
pub open spec fn total_weight(weights: Seq<int>) -> int {
    masked_sum(weights, everyone(weights.len()))
}

/// The balances after the members in `eligible` have gained their weight.
pub open spec fn raised(weights: Seq<int>, balances: Seq<int>, eligible: Seq<bool>) -> Seq<int> {
    Seq::new(
        balances.len(),
        |i: int|
            balances[i] + if eligible[i] {
                weights[i]
            } else {
                0
            },
    )
}

/// Whether `j` is the first eligible member of highest balance.
pub open spec fn is_winner(balances: Seq<int>, eligible: Seq<bool>, j: int) -> bool {
    &&& 0 <= j < balances.len()
    &&& eligible[j]
    &&& forall|i: int| 0 <= i < j && eligible[i] ==> #[trigger] balances[i] < balances[j]
    &&& forall|i: int|
        j < i < balances.len() && eligible[i] ==> #[trigger] balances[i] <= balances[j]
}

/// The balances after a round that `j` has won.
pub open spec fn settled(
    weights: Seq<int>,
    balances: Seq<int>,
    eligible: Seq<bool>,
    j: int,
) -> Seq<int> {
    let up = raised(weights, balances, eligible);
    up.update(j, up[j] - masked_sum(weights, eligible))
}

/// The winner of a round, if any member is eligible, and the balances after it.
pub open spec fn play_round(
    weights: Seq<int>,
    balances: Seq<int>,
    eligible: Seq<bool>,
) -> (Option<int>, Seq<int>) {
    let up = raised(weights, balances, eligible);
    if exists|j: int| is_winner(up, eligible, j) {
        let j = choose|j: int| is_winner(up, eligible, j);
        (Some(j), settled(weights, balances, eligible, j))
    } else {
        (None, balances)
    }
}

/// What holds of the balances after any number of rounds, whoever was
/// eligible in each: they sum to zero, and no group of `k` out of `n` members
/// is ahead of the others by more than `k * (n - k)` times the total weight.
pub open spec fn balanced(weights: Seq<int>, balances: Seq<int>) -> bool {
    let n = weights.len() as int;
    &&& balances.len() == n
    &&& masked_sum(balances, everyone(weights.len())) == 0
    &&& forall|mask: Seq<bool>|
        mask.len() == n ==> #[trigger] masked_sum(balances, mask) <= total_weight(weights)
            * ahead_limit(n, masked_count(mask, n as nat))
}

/// `k * (n - k)`.
pub open spec fn ahead_limit(n: int, k: int) -> int {
    k * (n - k)
}

pub open spec fn not_negative(weights: Seq<int>) -> bool {
    forall|i: int| 0 <= i < weights.len() ==> #[trigger] weights[i] >= 0
}

pub proof fn lemma_sum_agrees(a: Seq<int>, b: Seq<int>, mask_a: Seq<bool>, mask_b: Seq<bool>)
    requires
        a.len() == b.len(),
        forall|i: int|
            0 <= i < a.len() ==> mask_a[i] == #[trigger] mask_b[i] && (mask_a[i] ==> a[i] == b[i]),
    ensures
        masked_sum(a, mask_a) == masked_sum(b, mask_b),
    decreases a.len(),
{
    if a.len() > 0 {
        assert forall|i: int| 0 <= i < a.drop_last().len() implies mask_a[i] == #[trigger] mask_b[i]
            && (mask_a[i] ==> a.drop_last()[i] == b.drop_last()[i]) by {
            assert(mask_a[i] == mask_b[i]);
        }
        lemma_sum_agrees(a.drop_last(), b.drop_last(), mask_a, mask_b);
        assert(mask_a[a.len() - 1] == mask_b[a.len() - 1]);
    }
}

/// Adding a place to the mask adds its value.
proof fn lemma_sum_mask_set(values: Seq<int>, mask: Seq<bool>, j: int)
    requires
        mask.len() >= values.len(),
        0 <= j < values.len(),
        !mask[j],
    ensures
        masked_sum(values, mask.update(j, true)) == masked_sum(values, mask) + values[j],
        masked_count(mask.update(j, true), values.len()) == masked_count(mask, values.len()) + 1,
    decreases values.len(),
{
    let last = values.len() - 1;
    let m = mask.update(j, true);
    if j < last {
        lemma_sum_mask_set(values.drop_last(), mask, j);
    } else {
        lemma_sum_agrees(values.drop_last(), values.drop_last(), mask, m);
        lemma_count_agrees(mask, m, last as nat);
    }
}

proof fn lemma_count_agrees(a: Seq<bool>, b: Seq<bool>, n: nat)
    requires
        forall|i: int| 0 <= i < n ==> a[i] == #[trigger] b[i],
    ensures
        masked_count(a, n) == masked_count(b, n),
    decreases n,
{
    if n > 0 {
        lemma_count_agrees(a, b, (n - 1) as nat);
        assert(a[n - 1] == b[n - 1]);
    }
}

/// Changing one value changes the sum by the difference, if it is picked out.
proof fn lemma_sum_update(values: Seq<int>, mask: Seq<bool>, j: int, v: int)
    requires
        0 <= j < values.len(),
    ensures
        masked_sum(values.update(j, v), mask) == masked_sum(values, mask) + if mask[j] {
            v - values[j]
        } else {
            0
        },
    decreases values.len(),
{
    let last = values.len() - 1;
    let changed = values.update(j, v);
    if j < last {
        assert(changed.drop_last() =~= values.drop_last().update(j, v));
        lemma_sum_update(values.drop_last(), mask, j, v);
    } else {
        assert(changed.drop_last() =~= values.drop_last());
    }
}

spec fn both(a: Seq<bool>, b: Seq<bool>) -> Seq<bool> {
    Seq::new(a.len(), |i: int| a[i] && b[i])
}

/// What a group gains in a round is the weight of its eligible members.
proof fn lemma_sum_raised(
    weights: Seq<int>,
    balances: Seq<int>,
    eligible: Seq<bool>,
    mask: Seq<bool>,
)
    requires
        weights.len() == balances.len(),
        mask.len() >= balances.len(),
    ensures
        masked_sum(raised(weights, balances, eligible), mask) == masked_sum(balances, mask)
            + masked_sum(weights, both(mask, eligible)),
    decreases balances.len(),
{
    if balances.len() > 0 {
        let last = balances.len() - 1;
        lemma_sum_raised(weights.drop_last(), balances.drop_last(), eligible, mask);
        assert(raised(weights, balances, eligible).drop_last() =~= raised(
            weights.drop_last(),
            balances.drop_last(),
            eligible,
        ));
        assert(both(mask, eligible)[last] == (mask[last] && eligible[last]));
    }
}

/// A larger group has no smaller weight, and no group has a negative one.
pub proof fn lemma_sum_monotone(weights: Seq<int>, small: Seq<bool>, large: Seq<bool>)
    requires
        not_negative(weights),
        forall|i: int| 0 <= i < weights.len() && small[i] ==> #[trigger] large[i],
    ensures
        0 <= masked_sum(weights, small) <= masked_sum(weights, large),
    decreases weights.len(),
{
    if weights.len() > 0 {
        let last = weights.len() - 1;
        assert forall|i: int| 0 <= i < weights.drop_last().len() implies #[trigger] weights.drop_last()[i]
            >= 0 by {
            assert(weights[i] >= 0);
        }
        assert forall|i: int| 0 <= i < weights.drop_last().len() && small[i] implies #[trigger] large[i] by {
            assert(large[i]);
        }
        lemma_sum_monotone(weights.drop_last(), small, large);
        assert(weights[last] >= 0);
        assert(small[last] ==> large[last]);
    }
}

/// A sum over values that are nowhere above zero is not above zero.
proof fn lemma_sum_not_positive(values: Seq<int>, mask: Seq<bool>)
    requires
        forall|i: int| 0 <= i < values.len() && mask[i] ==> #[trigger] values[i] <= 0,
    ensures
        masked_sum(values, mask) <= 0,
    decreases values.len(),
{
    if values.len() > 0 {
        assert forall|i: int| 0 <= i < values.drop_last().len() && mask[i] implies #[trigger] values.drop_last()[i]
            <= 0 by {
            assert(values[i] <= 0);
        }
        lemma_sum_not_positive(values.drop_last(), mask);
        assert(mask[values.len() - 1] ==> values[values.len() - 1] <= 0);
    }
}

/// There is one winner at most.
pub proof fn winner_is_unique(balances: Seq<int>, eligible: Seq<bool>, i: int, j: int)
    requires
        is_winner(balances, eligible, i),
        is_winner(balances, eligible, j),
    ensures
        i == j,
{
    if i < j {
        assert(balances[i] < balances[j]);
        assert(balances[j] <= balances[i]);
    } else if j < i {
        assert(balances[j] < balances[i]);
        assert(balances[i] <= balances[j]);
    }
}

/// The arithmetic behind the bound on a group that was passed over: `limit`
/// loses two in every step away from its middle.
proof fn lemma_limit_steps(total: int, n: int, k: int)
    ensures
        total * ahead_limit(n, k + 1) + total * ahead_limit(n, k - 1) == 2 * (total * ahead_limit(
            n,
            k,
        )) - 2 * total,
{
    assert(total * ahead_limit(n, k + 1) + total * ahead_limit(n, k - 1) == 2 * (total
        * ahead_limit(n, k)) - 2 * total) by (nonlinear_arith)
        requires
            ahead_limit(n, k + 1) == (k + 1) * (n - (k + 1)),
            ahead_limit(n, k - 1) == (k - 1) * (n - (k - 1)),
            ahead_limit(n, k) == k * (n - k),
    ;
}

/// A round keeps the balances bounded, whoever may be picked in it.
pub proof fn round_keeps_balance(
    weights: Seq<int>,
    balances: Seq<int>,
    eligible: Seq<bool>,
    j: int,
)
    requires
        not_negative(weights),
        eligible.len() == weights.len(),
        balanced(weights, balances),
        is_winner(raised(weights, balances, eligible), eligible, j),
    ensures
        balanced(weights, settled(weights, balances, eligible, j)),
{
    let n = weights.len() as int;
    let total = total_weight(weights);
    let up = raised(weights, balances, eligible);
    let after = settled(weights, balances, eligible, j);
    let handed_out = masked_sum(weights, eligible);
    assert forall|mask: Seq<bool>| mask.len() == n implies #[trigger] masked_sum(after, mask)
        <= total * ahead_limit(n, masked_count(mask, n as nat)) by {
        let k = masked_count(mask, n as nat);
        let gain = masked_sum(weights, both(mask, eligible));
        lemma_sum_update(up, mask, j, up[j] - handed_out);
        lemma_sum_raised(weights, balances, eligible, mask);
        assert(masked_sum(balances, mask) <= total * ahead_limit(n, k));
        if mask[j] {
            lemma_sum_monotone(weights, both(mask, eligible), eligible);
        } else if exists|i: int| 0 <= i < n && mask[i] && eligible[i] {
            let i = choose|i: int| 0 <= i < n && mask[i] && eligible[i];
            let wider = mask.update(j, true);
            let narrower = mask.update(i, false);
            lemma_sum_mask_set(balances, mask, j);
            lemma_sum_mask_set(balances, narrower, i);
            assert(narrower.update(i, true) =~= mask);
            assert(masked_sum(balances, wider) <= total * ahead_limit(n, k + 1));
            assert(masked_sum(balances, narrower) <= total * ahead_limit(n, k - 1));
            lemma_limit_steps(total, n, k);
            assert(up[i] <= up[j]);
            // The group's gain and the winner's weight are parts of the total.
            lemma_sum_mask_set(weights, both(mask, eligible), j);
            lemma_sum_monotone(
                weights,
                both(mask, eligible).update(j, true),
                everyone(weights.len()),
            );
            lemma_sum_monotone(weights, both(mask, eligible), everyone(weights.len()));
            assert(weights[i] >= 0);
        } else {
            let nobody = Seq::new(n as nat, |i: int| false);
            lemma_sum_agrees(weights, weights, both(mask, eligible), nobody);
            lemma_nobody(weights);
        }
    }
    let all = everyone(weights.len());
    lemma_sum_update(up, all, j, up[j] - handed_out);
    lemma_sum_raised(weights, balances, eligible, all);
    lemma_sum_agrees(weights, weights, both(all, eligible), eligible);
}

/// What the eligible members gain in a round, its winner pays back.
pub proof fn rounds_hand_out_nothing(
    weights: Seq<int>,
    balances: Seq<int>,
    eligible: Seq<bool>,
    j: int,
)
    requires
        weights.len() == balances.len(),
        eligible.len() == balances.len(),
        0 <= j < balances.len(),
    ensures
        masked_sum(settled(weights, balances, eligible, j), everyone(balances.len()))
            == masked_sum(balances, everyone(balances.len())),
{
    let all = everyone(balances.len());
    let up = raised(weights, balances, eligible);
    let handed_out = masked_sum(weights, eligible);
    lemma_sum_update(up, all, j, up[j] - handed_out);
    lemma_sum_raised(weights, balances, eligible, all);
    lemma_sum_agrees(weights, weights, both(all, eligible), eligible);
}

proof fn lemma_nobody(values: Seq<int>)
    ensures
        masked_sum(values, Seq::new(values.len(), |i: int| false)) == 0,
    decreases values.len(),
{
    if values.len() > 0 {
        lemma_nobody(values.drop_last());
        lemma_sum_agrees(
            values.drop_last(),
            values.drop_last(),
            Seq::new(values.len(), |i: int| false),
            Seq::new(values.drop_last().len(), |i: int| false),
        );
    }
}

/// A single balance stays within the total weight times the number of the
/// other members, on either side of zero.
pub proof fn balance_is_bounded(weights: Seq<int>, balances: Seq<int>, i: int)
    requires
        balanced(weights, balances),
        0 <= i < weights.len(),
    ensures
        -(total_weight(weights) * (weights.len() - 1)) <= balances[i] <= total_weight(weights) * (
        weights.len() - 1),
{
    let n = weights.len() as int;
    let nobody = Seq::new(n as nat, |k: int| false);
    let only = nobody.update(i, true);
    lemma_nobody(balances);
    lemma_sum_mask_set(balances, nobody, i);
    lemma_count_nobody(n as nat);
    assert(masked_sum(balances, only) <= total_weight(weights) * ahead_limit(n, 1));
    assert(ahead_limit(n, 1) == n - 1);
    let all = everyone(n as nat);
    let others = all.update(i, false);
    lemma_sum_mask_set(balances, others, i);
    assert(others.update(i, true) =~= all);
    lemma_count_everyone(n as nat);
    assert(masked_sum(balances, others) <= total_weight(weights) * ahead_limit(n, n - 1));
    assert(ahead_limit(n, n - 1) == n - 1) by (nonlinear_arith)
        requires
            ahead_limit(n, n - 1) == (n - 1) * (n - (n - 1)),
    ;
}

proof fn lemma_count_nobody(n: nat)
    ensures
        masked_count(Seq::new(n, |k: int| false), n) == 0,
    decreases n,
{
    if n > 0 {
        lemma_count_nobody((n - 1) as nat);
        lemma_count_agrees(
            Seq::new(n, |k: int| false),
            Seq::new((n - 1) as nat, |k: int| false),
            (n - 1) as nat,
        );
    }
}

proof fn lemma_count_everyone(n: nat)
    ensures
        masked_count(everyone(n), n) == n,
    decreases n,
{
    if n > 0 {
        lemma_count_everyone((n - 1) as nat);
        lemma_count_agrees(everyone(n), everyone((n - 1) as nat), (n - 1) as nat);
    }
}

/// The weights as numbers.
pub open spec fn weight_values(weights: Seq<u32>) -> Seq<int> {
    Seq::new(weights.len(), |i: int| weights[i] as int)
}

/// The balances as numbers.
pub open spec fn balance_values(balances: Seq<i128>) -> Seq<int> {
    Seq::new(balances.len(), |i: int| balances[i] as int)
}

proof fn lemma_total_is_bounded(weights: Seq<u32>, mask: Seq<bool>)
    ensures
        0 <= masked_sum(weight_values(weights), mask) <= weights.len() * 0xffff_ffff,
    decreases weights.len(),
{
    if weights.len() > 0 {
        lemma_total_is_bounded(weights.drop_last(), mask);
        assert(weight_values(weights).drop_last() =~= weight_values(weights.drop_last()));
    }
}

proof fn lemma_fresh_is_balanced(weights: Seq<int>, balances: Seq<int>)
    requires
        not_negative(weights),
        weights.len() == balances.len(),
        forall|i: int| 0 <= i < balances.len() ==> #[trigger] balances[i] == 0,
    ensures
        balanced(weights, balances),
{
    let n = weights.len() as int;
    assert forall|mask: Seq<bool>| mask.len() == n implies #[trigger] masked_sum(balances, mask)
        <= total_weight(weights) * ahead_limit(n, masked_count(mask, n as nat)) by {
        lemma_sum_zero(balances, mask);
        lemma_sum_monotone(weights, mask, everyone(weights.len()));
        lemma_count_bounds(mask, n as nat);
        let k = masked_count(mask, n as nat);
        let t = total_weight(weights);
        assert(0 <= t * ahead_limit(n, k)) by (nonlinear_arith)
            requires
                0 <= t,
                0 <= k <= n,
                ahead_limit(n, k) == k * (n - k),
        ;
    }
    lemma_sum_zero(balances, everyone(weights.len()));
}

proof fn lemma_count_bounds(mask: Seq<bool>, n: nat)
    ensures
        0 <= masked_count(mask, n) <= n,
    decreases n,
{
    if n > 0 {
        lemma_count_bounds(mask, (n - 1) as nat);
    }
}

proof fn lemma_sum_zero(values: Seq<int>, mask: Seq<bool>)
    requires
        forall|i: int| 0 <= i < values.len() ==> #[trigger] values[i] == 0,
    ensures
        masked_sum(values, mask) == 0,
    decreases values.len(),
{
    if values.len() > 0 {
        assert forall|i: int| 0 <= i < values.drop_last().len() implies #[trigger] values.drop_last()[i]
            == 0 by {
            assert(values[i] == 0);
        }
        lemma_sum_zero(values.drop_last(), mask);
        assert(values[values.len() - 1] == 0);
    }
}

/// The weights of a group's members and their running balances.
#[derive(Debug)]
pub struct SmoothWeights {
    weights: Vec<u32>,
    balances: Vec<i128>,
}

impl SmoothWeights {
    #[verifier::type_invariant]
    spec fn well_formed(self) -> bool {
        &&& self.weights@.len() <= u32::MAX
        &&& balanced(weight_values(self.weights@), balance_values(self.balances@))
    }

    /// The weight of each member.
    pub closed spec fn weights(&self) -> Seq<int> {
        weight_values(self.weights@)
    }

    /// The running balance of each member.
    pub closed spec fn balances(&self) -> Seq<int> {
        balance_values(self.balances@)
    }

    /// A group in which no round has been played.
    pub fn new(weights: Vec<u32>) -> (s: Self)
        requires
            weights@.len() <= u32::MAX,
        ensures
            s.weights() == weight_values(weights@),
            s.balances() == Seq::new(weights@.len(), |i: int| 0int),
            balanced(s.weights(), s.balances()),
    {
        let mut balances: Vec<i128> = Vec::new();
        let n: usize = weights.len();
        let mut i: usize = 0;
        while i < n
            invariant
                i <= n,
                balances@.len() == i,
                forall|k: int| 0 <= k < i ==> #[trigger] balances@[k] == 0,
            decreases n - i,
        {
            balances.push(0);
            i = i + 1;
        }
        proof {
            lemma_fresh_is_balanced(weight_values(weights@), balance_values(balances@));
            assert(balance_values(balances@) =~= Seq::new(weights@.len(), |i: int| 0int));
        }
        SmoothWeights { weights, balances }
    }

    /// The number of members.
    pub fn len(&self) -> (n: usize)
        ensures
            n == self.weights().len(),
            n == self.balances().len(),
            balanced(self.weights(), self.balances()),
    {
        proof {
            use_type_invariant(self);
        }
        self.weights.len()
    }

    /// Plays one round among the members marked in `eligible`.
    pub fn pick(&mut self, eligible: &Vec<bool>) -> (winner: Option<usize>)
        requires
            eligible@.len() == old(self).weights().len(),
        ensures
            final(self).weights() == old(self).weights(),
            ({
                let round = play_round(old(self).weights(), old(self).balances(), eligible@);
                &&& final(self).balances() == round.1
                &&& match winner {
                    Some(j) => round.0 == Some(j as int),
                    None => round.0 is None,
                }
            }),
    {
        proof {
            use_type_invariant(&*self);
        }
        let ghost ws = self.weights();
        let ghost before = self.balances();
        let ghost up = raised(ws, before, eligible@);
        let mut rest = SmoothWeights::new(Vec::new());
        std::mem::swap(self, &mut rest);
        let SmoothWeights { weights, mut balances } = rest;
        let n: usize = weights.len();
        let mut handed_out: i128 = 0;
        let mut best: Option<usize> = None;
        let mut i: usize = 0;
        while i < n
            invariant
                i <= n,
                n <= u32::MAX,
                n == weights@.len(),
                n == balances@.len(),
                n == eligible@.len(),
                n == before.len(),
                ws == weight_values(weights@),
                up == raised(ws, before, eligible@),
                balanced(ws, before),
                handed_out == masked_sum(ws.take(i as int), eligible@),
                forall|k: int| 0 <= k < i ==> #[trigger] balances@[k] == up[k],
                forall|k: int| i <= k < n ==> #[trigger] balances@[k] == before[k],
                match best {
                    Some(j) => j < i && is_winner(up.take(i as int), eligible@, j as int),
                    None => forall|k: int| 0 <= k < i ==> !#[trigger] eligible@[k],
                },
            decreases n - i,
        {
            proof {
                balance_is_bounded(ws, before, i as int);
                lemma_total_is_bounded(weights@, everyone(weights@.len()));
                lemma_total_is_bounded(weights@.take(i as int), eligible@);
                assert(weight_values(weights@.take(i as int)) =~= ws.take(i as int));
                let total = total_weight(ws);
                assert(total * (n - 1) <= 0xffff_ffff * 0xffff_ffff * 0xffff_ffff) by (nonlinear_arith)
                    requires
                        0 <= total <= n * 0xffff_ffff,
                        1 <= n <= 0xffff_ffff,
                ;
                assert(ws.take(i + 1).drop_last() =~= ws.take(i as int));
                assert(balances@[i as int] == before[i as int]);
                assert(up.take(i + 1).drop_last() =~= up.take(i as int));
            }
            if eligible[i] {
                let w: i128 = weights[i] as i128;
                handed_out = handed_out + w;
                let b: i128 = balances[i] + w;
                balances.set(i, b);
                let better = match best {
                    Some(j) => {
                        assert(balances@[j as int] == up[j as int]);
                        balances[j] < b
                    },
                    None => true,
                };
                if better {
                    proof {
                        assert(is_winner(up.take(i + 1), eligible@, i as int)) by {
                            assert forall|k: int| 0 <= k < i && eligible@[k] implies #[trigger] up.take(
                                i + 1,
                            )[k] < up.take(i + 1)[i as int] by {
                                let j = best->0 as int;
                                assert(up.take(i as int)[k] <= up.take(i as int)[j]);
                            }
                        }
                    }
                    best = Some(i);
                } else {
                    proof {
                        let j = best->0 as int;
                        assert(is_winner(up.take(i + 1), eligible@, j)) by {
                            assert forall|k: int| 0 <= k < j && eligible@[k] implies #[trigger] up.take(
                                i + 1,
                            )[k] < up.take(i + 1)[j] by {
                                assert(up.take(i as int)[k] < up.take(i as int)[j]);
                            }
                            assert forall|k: int| j < k < i + 1 && eligible@[k] implies #[trigger] up.take(
                                i + 1,
                            )[k] <= up.take(i + 1)[j] by {
                                if k < i {
                                    assert(up.take(i as int)[k] <= up.take(i as int)[j]);
                                }
                            }
                        }
                    }
                }
            } else {
                proof {
                    if let Some(j) = best {
                        let j = j as int;
                        assert(is_winner(up.take(i + 1), eligible@, j)) by {
                            assert forall|k: int| 0 <= k < j && eligible@[k] implies #[trigger] up.take(
                                i + 1,
                            )[k] < up.take(i + 1)[j] by {
                                assert(up.take(i as int)[k] < up.take(i as int)[j]);
                            }
                            assert forall|k: int| j < k < i + 1 && eligible@[k] implies #[trigger] up.take(
                                i + 1,
                            )[k] <= up.take(i + 1)[j] by {
                                assert(up.take(i as int)[k] <= up.take(i as int)[j]);
                            }
                        }
                    }
                }
            }
            i = i + 1;
        }
        proof {
            assert(up.take(n as int) =~= up);
            assert(ws.take(n as int) =~= ws);
        }
        match best {
            Some(j) => {
                proof {
                    balance_is_bounded(ws, before, j as int);
                    lemma_total_is_bounded(weights@, everyone(weights@.len()));
                    lemma_total_is_bounded(weights@, eligible@);
                    let total = total_weight(ws);
                    assert(total * (n - 1) <= 0xffff_ffff * 0xffff_ffff * 0xffff_ffff) by (nonlinear_arith)
                        requires
                            0 <= total <= n * 0xffff_ffff,
                            1 <= n <= 0xffff_ffff,
                    ;
                    assert(balances@[j as int] == up[j as int]);
                }
                let paid: i128 = balances[j] - handed_out;
                balances.set(j, paid);
                proof {
                    assert(balance_values(balances@) =~= settled(ws, before, eligible@, j as int));
                    lemma_weights_not_negative(weights@);
                    round_keeps_balance(ws, before, eligible@, j as int);
                    let chosen = choose|c: int| is_winner(up, eligible@, c);
                    winner_is_unique(up, eligible@, j as int, chosen);
                }
                *self = SmoothWeights { weights, balances };
                Some(j)
            },
            None => {
                proof {
                    assert forall|k: int| 0 <= k < n implies #[trigger] balance_values(balances@)[k]
                        == before[k] by {
                        assert(balances@[k] == up[k]);
                        assert(!eligible@[k]);
                    }
                    assert(balance_values(balances@) =~= before);
                    assert forall|c: int| !is_winner(up, eligible@, c) by {
                        if 0 <= c < n {
                            assert(!eligible@[c]);
                        }
                    }
                }
                *self = SmoothWeights { weights, balances };
                None
            },
        }
    }
}

proof fn lemma_weights_not_negative(weights: Seq<u32>)
    ensures
        not_negative(weight_values(weights)),
{
}

/// Who wins `rounds` rounds in a row among the same eligible members, all
/// balances being zero at the start: the balances after them, and how many
/// rounds each member has won.
pub open spec fn play_rounds(weights: Seq<int>, eligible: Seq<bool>, rounds: nat) -> (
    Seq<int>,
    Seq<int>,
)
    decreases rounds,
{
    let nothing = Seq::new(weights.len(), |i: int| 0int);
    if rounds == 0 {
        (nothing, nothing)
    } else {
        let (balances, wins) = play_rounds(weights, eligible, (rounds - 1) as nat);
        let (winner, after) = play_round(weights, balances, eligible);
        match winner {
            Some(j) => (after, wins.update(j, wins[j] + 1)),
            None => (after, wins),
        }
    }
}

proof fn lemma_some_winner(balances: Seq<int>, eligible: Seq<bool>, n: int) -> (j: int)
    requires
        0 <= n <= balances.len(),
        exists|i: int| 0 <= i < n && eligible[i],
    ensures
        0 <= j < n,
        is_winner(balances.take(n), eligible, j),
    decreases n,
{
    let part = balances.take(n);
    let last = n - 1;
    if exists|i: int| 0 <= i < last && eligible[i] {
        let j = lemma_some_winner(balances, eligible, last);
        let before = balances.take(last);
        if eligible[last] && balances[last] > balances[j] {
            assert forall|i: int| 0 <= i < last && eligible[i] implies #[trigger] part[i]
                < part[last] by {
                if i < j {
                    assert(before[i] < before[j]);
                } else if i > j {
                    assert(before[i] <= before[j]);
                }
            }
            last
        } else {
            assert forall|i: int| 0 <= i < j && eligible[i] implies #[trigger] part[i]
                < part[j] by {
                assert(before[i] < before[j]);
            }
            assert forall|i: int| j < i < n && eligible[i] implies #[trigger] part[i]
                <= part[j] by {
                if i < last {
                    assert(before[i] <= before[j]);
                }
            }
            j
        }
    } else {
        assert(eligible[last]);
        last
    }
}

/// A round with an eligible member has a winner.
pub proof fn somebody_wins(weights: Seq<int>, balances: Seq<int>, eligible: Seq<bool>, i: int)
    requires
        weights.len() == balances.len(),
        eligible.len() == balances.len(),
        0 <= i < balances.len(),
        eligible[i],
    ensures
        match play_round(weights, balances, eligible).0 {
            Some(j) => 0 <= j < balances.len() && eligible[j],
            None => false,
        },
{
    let up = raised(weights, balances, eligible);
    let j = lemma_some_winner(up, eligible, up.len() as int);
    assert(up.take(up.len() as int) =~= up);
}

/// What holds after each round: a member's balance is its weight for every
/// round less the eligible total for every win, and stays above minus that
/// total.
proof fn lemma_play_rounds(weights: Seq<int>, eligible: Seq<bool>, rounds: nat)
    requires
        not_negative(weights),
        eligible.len() == weights.len(),
        masked_sum(weights, eligible) > 0,
    ensures
        ({
            let (balances, wins) = play_rounds(weights, eligible, rounds);
            let total = masked_sum(weights, eligible);
            &&& balances.len() == weights.len()
            &&& wins.len() == weights.len()
            &&& masked_sum(balances, eligible) == 0
            &&& forall|i: int|
                0 <= i < weights.len() ==> {
                    &&& #[trigger] balances[i] > -total
                    &&& wins[i] >= 0
                    &&& eligible[i] ==> balances[i] == rounds * weights[i] - wins[i] * total
                    &&& !eligible[i] ==> balances[i] == 0 && wins[i] == 0
                }
        }),
    decreases rounds,
{
    let total = masked_sum(weights, eligible);
    let (balances, wins) = play_rounds(weights, eligible, rounds);
    if rounds == 0 {
        lemma_sum_zero(balances, eligible);
    } else {
        lemma_play_rounds(weights, eligible, (rounds - 1) as nat);
        let (before, wins_before) = play_rounds(weights, eligible, (rounds - 1) as nat);
        let up = raised(weights, before, eligible);
        if forall|i: int| 0 <= i < weights.len() ==> !eligible[i] {
            lemma_sum_agrees(weights, weights, eligible, Seq::new(weights.len(), |i: int| false));
            lemma_nobody(weights);
        }
        let j = lemma_some_winner(up, eligible, up.len() as int);
        assert(up.take(up.len() as int) =~= up);
        let chosen = choose|c: int| is_winner(up, eligible, c);
        winner_is_unique(up, eligible, j, chosen);
        assert(balances == settled(weights, before, eligible, j));
        assert(wins == wins_before.update(j, wins_before[j] + 1));
        lemma_sum_raised(weights, before, eligible, eligible);
        lemma_sum_agrees(weights, weights, both(eligible, eligible), eligible);
        lemma_sum_update(up, eligible, j, up[j] - total);
        assert(up[j] > 0) by {
            if up[j] <= 0 {
                assert forall|i: int| 0 <= i < up.len() && eligible[i] implies #[trigger] up[i]
                    <= 0 by {
                    if i < j {
                        assert(up[i] < up[j]);
                    } else if i > j {
                        assert(up[i] <= up[j]);
                    }
                }
                lemma_sum_not_positive(up, eligible);
            }
        }
        assert forall|i: int| 0 <= i < weights.len() implies {
            &&& #[trigger] balances[i] > -total
            &&& wins[i] >= 0
            &&& eligible[i] ==> balances[i] == rounds * weights[i] - wins[i] * total
            &&& !eligible[i] ==> balances[i] == 0 && wins[i] == 0
        } by {
            assert(before[i] > -total);
            assert(weights[i] >= 0);
            let r = rounds as int;
            let w = weights[i];
            let c = wins_before[i];
            assert((r - 1) * w + w == r * w) by (nonlinear_arith);
            assert((c + 1) * total == c * total + total) by (nonlinear_arith);
        }
    }
}

/// Over as many rounds as the eligible weights sum to, every eligible member
/// wins exactly as many rounds as its weight says, and all balances are back
/// at zero, so that the next rounds go the same way.
pub proof fn wins_are_proportional_to_weight(weights: Seq<int>, eligible: Seq<bool>)
    requires
        not_negative(weights),
        eligible.len() == weights.len(),
    ensures
        ({
            let rounds = masked_sum(weights, eligible) as nat;
            let (balances, wins) = play_rounds(weights, eligible, rounds);
            &&& balances == Seq::new(weights.len(), |i: int| 0int)
            &&& forall|i: int|
                0 <= i < weights.len() && eligible[i] ==> #[trigger] wins[i] == weights[i]
            &&& forall|i: int|
                0 <= i < weights.len() && !eligible[i] ==> #[trigger] wins[i] == 0
        }),
{
    let total = masked_sum(weights, eligible);
    lemma_sum_monotone(weights, eligible, eligible);
    let (balances, wins) = play_rounds(weights, eligible, total as nat);
    if total > 0 {
        lemma_play_rounds(weights, eligible, total as nat);
        assert forall|i: int| 0 <= i < weights.len() implies #[trigger] balances[i] >= 0 by {
            if eligible[i] {
                assert(balances[i] > -total);
                let d = weights[i] - wins[i];
                assert(balances[i] == d * total) by (nonlinear_arith)
                    requires
                        balances[i] == total * weights[i] - wins[i] * total,
                        d == weights[i] - wins[i],
                ;
                assert(d >= 0) by (nonlinear_arith)
                    requires
                        d * total > -total,
                        total > 0,
                ;
                assert(d * total >= 0) by (nonlinear_arith)
                    requires
                        d >= 0,
                        total > 0,
                ;
            }
        }
        lemma_zero_sum_of_not_negative(balances, eligible);
        assert forall|i: int| 0 <= i < weights.len() implies balances[i] == 0 && (eligible[i]
            ==> #[trigger] wins[i] == weights[i]) && (!eligible[i] ==> wins[i] == 0) by {
            assert(balances[i] >= 0);
            if eligible[i] {
                assert(wins[i] == weights[i]) by (nonlinear_arith)
                    requires
                        0 == total * weights[i] - wins[i] * total,
                        total > 0,
                ;
            }
        }
        assert(balances =~= Seq::new(weights.len(), |i: int| 0int));
    } else {
        assert forall|i: int| 0 <= i < weights.len() && eligible[i] implies weights[i] == 0 by {
            lemma_member_of_sum(weights, eligible, i);
        }
    }
}

/// A sum over values that are nowhere below `-limit` is at least that many
/// times as low as there are values beside the one at place `i`, which is not
/// part of it.
proof fn lemma_sum_at_least(values: Seq<int>, mask: Seq<bool>, limit: int, i: int)
    requires
        0 <= limit,
        forall|k: int| 0 <= k < values.len() ==> #[trigger] values[k] >= -limit,
        0 <= i < values.len() ==> !mask[i],
    ensures
        masked_sum(values, mask) >= -(limit * (values.len() - if 0 <= i < values.len() {
            1int
        } else {
            0
        })),
    decreases values.len(),
{
    let n = values.len() as int;
    if n > 0 {
        let rest = values.drop_last();
        assert forall|k: int| 0 <= k < rest.len() implies #[trigger] rest[k] >= -limit by {
            assert(values[k] >= -limit);
        }
        lemma_sum_at_least(rest, mask, limit, i);
        assert(values[n - 1] >= -limit);
        assert(limit * (n - 1) == limit * n - limit) by (nonlinear_arith);
        assert(limit * (n - 2) == limit * n - 2 * limit) by (nonlinear_arith);
    }
}

/// Who wins the round that comes after `rounds` others.
pub open spec fn round_winner(weights: Seq<int>, eligible: Seq<bool>, rounds: nat) -> Option<int> {
    play_round(weights, play_rounds(weights, eligible, rounds).0, eligible).0
}

/// The rounds repeat: as many rounds later as the eligible weights sum to, the
/// balances are the same again and the same member wins.
pub proof fn rounds_repeat(weights: Seq<int>, eligible: Seq<bool>, rounds: nat)
    requires
        not_negative(weights),
        eligible.len() == weights.len(),
    ensures
        ({
            let later = rounds + masked_sum(weights, eligible) as nat;
            &&& play_rounds(weights, eligible, later).0 == play_rounds(weights, eligible, rounds).0
            &&& round_winner(weights, eligible, later) == round_winner(weights, eligible, rounds)
        }),
    decreases rounds,
{
    if rounds == 0 {
        wins_are_proportional_to_weight(weights, eligible);
    } else {
        rounds_repeat(weights, eligible, (rounds - 1) as nat);
    }
}

/// Every member has a balance and a number of wins.
pub proof fn lemma_wins_length(weights: Seq<int>, eligible: Seq<bool>, rounds: nat)
    ensures
        play_rounds(weights, eligible, rounds).0.len() == weights.len(),
        play_rounds(weights, eligible, rounds).1.len() == weights.len(),
    decreases rounds,
{
    if rounds > 0 {
        lemma_wins_length(weights, eligible, (rounds - 1) as nat);
    }
}

/// Weights that are not negative have no negative sum.
pub proof fn total_is_not_negative(weights: Seq<int>)
    requires
        not_negative(weights),
    ensures
        total_weight(weights) >= 0,
{
    lemma_sum_monotone(weights, everyone(weights.len()), everyone(weights.len()));
}

/// Members do not lose wins.
proof fn lemma_wins_grow(weights: Seq<int>, eligible: Seq<bool>, rounds: nat, more: nat, i: int)
    requires
        not_negative(weights),
        eligible.len() == weights.len(),
        masked_sum(weights, eligible) > 0,
        0 <= i < weights.len(),
    ensures
        play_rounds(weights, eligible, rounds).1[i] <= play_rounds(
            weights,
            eligible,
            rounds + more,
        ).1[i],
        more > 0 && round_winner(weights, eligible, rounds) == Some(i) ==> play_rounds(
            weights,
            eligible,
            rounds,
        ).1[i] < play_rounds(weights, eligible, rounds + more).1[i],
    decreases more,
{
    if more > 0 {
        lemma_wins_grow(weights, eligible, rounds, (more - 1) as nat, i);
        lemma_play_rounds(weights, eligible, (rounds + more - 1) as nat);
    }
}

/// In any rounds in a row, as many as the eligible weights sum to, an eligible
/// member wins exactly as many as its weight says and the others win none.
pub proof fn any_rounds_in_a_row_are_proportional(
    weights: Seq<int>,
    eligible: Seq<bool>,
    rounds: nat,
    i: int,
)
    requires
        not_negative(weights),
        eligible.len() == weights.len(),
        0 <= i < weights.len(),
    ensures
        ({
            let later = rounds + masked_sum(weights, eligible) as nat;
            play_rounds(weights, eligible, later).1[i] - play_rounds(weights, eligible, rounds).1[i]
                == if eligible[i] {
                weights[i]
            } else {
                0
            }
        }),
{
    let total = masked_sum(weights, eligible);
    lemma_sum_monotone(weights, eligible, eligible);
    if eligible[i] {
        lemma_member_of_sum(weights, eligible, i);
    }
    if total > 0 {
        let later = rounds + total as nat;
        rounds_repeat(weights, eligible, rounds);
        lemma_play_rounds(weights, eligible, rounds);
        lemma_play_rounds(weights, eligible, later);
        let (balances, wins) = play_rounds(weights, eligible, rounds);
        let (balances_later, wins_later) = play_rounds(weights, eligible, later);
        assert(balances[i] == balances_later[i]);
        if eligible[i] {
            assert(wins_later[i] - wins[i] == weights[i]) by (nonlinear_arith)
                requires
                    rounds * weights[i] - wins[i] * total == (rounds + total) * weights[i]
                        - wins_later[i] * total,
                    total > 0,
            ;
        }
    }
}

/// A member without weight never wins while others have some.
pub proof fn weightless_members_never_win(
    weights: Seq<int>,
    eligible: Seq<bool>,
    rounds: nat,
    i: int,
)
    requires
        not_negative(weights),
        eligible.len() == weights.len(),
        masked_sum(weights, eligible) > 0,
        0 <= i < weights.len(),
        weights[i] == 0,
    ensures
        round_winner(weights, eligible, rounds) != Some(i),
{
    any_rounds_in_a_row_are_proportional(weights, eligible, rounds, i);
    lemma_wins_grow(weights, eligible, rounds, masked_sum(weights, eligible) as nat, i);
}

/// Every round goes to the eligible member that is furthest behind its share of
/// the rounds up to this one, the first of several.
pub proof fn winner_is_furthest_behind(
    weights: Seq<int>,
    eligible: Seq<bool>,
    rounds: nat,
    i: int,
)
    requires
        not_negative(weights),
        eligible.len() == weights.len(),
        0 <= i < weights.len(),
        eligible[i],
    ensures
        ({
            let total = masked_sum(weights, eligible);
            let wins = play_rounds(weights, eligible, rounds).1;
            match round_winner(weights, eligible, rounds) {
                Some(j) => {
                    let behind = (rounds + 1) * weights[i] - wins[i] * total;
                    let most = (rounds + 1) * weights[j] - wins[j] * total;
                    &&& 0 <= j < weights.len()
                    &&& eligible[j]
                    &&& behind <= most
                    &&& i < j ==> behind < most
                },
                None => false,
            }
        }),
{
    let total = masked_sum(weights, eligible);
    let (balances, wins) = play_rounds(weights, eligible, rounds);
    lemma_wins_length(weights, eligible, rounds);
    somebody_wins(weights, balances, eligible, i);
    let up = raised(weights, balances, eligible);
    let j = round_winner(weights, eligible, rounds)->0;
    assert(is_winner(up, eligible, j));
    assert(up[i] <= up[j]);
    assert(i < j ==> up[i] < up[j]);
    lemma_sum_monotone(weights, eligible, eligible);
    lemma_member_of_sum(weights, eligible, i);
    lemma_member_of_sum(weights, eligible, j);
    if total > 0 {
        lemma_play_rounds(weights, eligible, rounds);
        assert(balances[i] > -total && balances[j] > -total);
    } else {
        lemma_idle_rounds(weights, eligible, rounds);
        assert(wins[i] * total == 0 && wins[j] * total == 0) by (nonlinear_arith)
            requires
                total == 0,
        ;
    }
    assert((rounds + 1) * weights[i] == rounds * weights[i] + weights[i]) by (nonlinear_arith);
    assert((rounds + 1) * weights[j] == rounds * weights[j] + weights[j]) by (nonlinear_arith);
    if total == 0 {
        assert(rounds * weights[i] == 0) by (nonlinear_arith)
            requires
                weights[i] == 0,
        ;
        assert(rounds * weights[j] == 0) by (nonlinear_arith)
            requires
                weights[j] == 0,
        ;
    }
}

/// Rounds among members without weight leave all balances at zero.
proof fn lemma_idle_rounds(weights: Seq<int>, eligible: Seq<bool>, rounds: nat)
    requires
        not_negative(weights),
        eligible.len() == weights.len(),
        masked_sum(weights, eligible) == 0,
    ensures
        forall|i: int|
            0 <= i < weights.len() ==> #[trigger] play_rounds(weights, eligible, rounds).0[i] == 0,
    decreases rounds,
{
    lemma_wins_length(weights, eligible, rounds);
    if rounds > 0 {
        lemma_idle_rounds(weights, eligible, (rounds - 1) as nat);
        lemma_wins_length(weights, eligible, (rounds - 1) as nat);
        let before = play_rounds(weights, eligible, (rounds - 1) as nat).0;
        assert forall|i: int| 0 <= i < weights.len() implies #[trigger] play_rounds(
            weights,
            eligible,
            rounds,
        ).0[i] == 0 by {
            assert(before[i] == 0);
            if eligible[i] {
                lemma_member_of_sum(weights, eligible, i);
            }
        }
    }
}

/// However many rounds have been played, no eligible member is ahead of its
/// share of them by a whole round, and none is behind it by more than a round
/// for each other member: wins are spread out, not bunched.
pub proof fn wins_stay_close_to_the_share(
    weights: Seq<int>,
    eligible: Seq<bool>,
    rounds: nat,
    i: int,
)
    requires
        not_negative(weights),
        eligible.len() == weights.len(),
        0 <= i < weights.len(),
        eligible[i],
        masked_sum(weights, eligible) > 0,
    ensures
        ({
            let total = masked_sum(weights, eligible);
            let wins = play_rounds(weights, eligible, rounds).1;
            &&& wins[i] * total < rounds * weights[i] + total
            &&& wins[i] * total >= rounds * weights[i] - total * (weights.len() - 1)
        }),
{
    let total = masked_sum(weights, eligible);
    let (balances, wins) = play_rounds(weights, eligible, rounds);
    lemma_play_rounds(weights, eligible, rounds);
    assert(balances[i] > -total);
    let others = eligible.update(i, false);
    lemma_sum_mask_set(balances, others, i);
    assert(others.update(i, true) =~= eligible);
    lemma_sum_at_least(balances, others, total, i);
}

proof fn lemma_member_of_sum(weights: Seq<int>, mask: Seq<bool>, i: int)
    requires
        not_negative(weights),
        0 <= i < weights.len(),
        mask.len() == weights.len(),
        mask[i],
    ensures
        0 <= weights[i] <= masked_sum(weights, mask),
{
    let without = mask.update(i, false);
    lemma_sum_mask_set(weights, without, i);
    assert(without.update(i, true) =~= mask);
    lemma_sum_monotone(weights, without, mask);
    assert(weights[i] >= 0);
}

/// Values that are nowhere below zero and sum to zero are all zero.
proof fn lemma_zero_sum_of_not_negative(values: Seq<int>, mask: Seq<bool>)
    requires
        mask.len() == values.len(),
        not_negative(values),
        masked_sum(values, mask) == 0,
    ensures
        forall|i: int| 0 <= i < values.len() && mask[i] ==> #[trigger] values[i] == 0,
{
    assert forall|i: int| 0 <= i < values.len() && mask[i] implies #[trigger] values[i] == 0 by {
        lemma_member_of_sum(values, mask, i);
    }
}

} // verus!
