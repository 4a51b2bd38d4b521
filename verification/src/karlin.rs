//! The threshold distribution of the randomized policy, and rejection sampling
//! from it.
//!
//! For a recovery cost `c` of at least one, the randomized policy waits `t`
//! ticks before it discards with a chance that grows with `t` like `e^(t/c)`,
//! for `t` from zero to `c`. The library holds such a density as a table of
//! integer weights, one for each `t` of the domain, in whatever scale the
//! table's maker chose: only the weights' proportions matter. The last weight
//! is the peak, and bounds every other.

use vstd::prelude::*;

use crate::error::Error;
use crate::random::{Draw, RandomSource};

verus! {

/// How many candidates `sample` tries before it gives up.
pub const MAX_ATTEMPTS: u32 = 10_000;

/// Whether `weights` can serve as a density: the domain reaches beyond the
/// waiting time zero, the last weight is positive, and none exceeds the last.
pub open spec fn is_density(weights: Seq<u64>) -> bool {
    &&& weights.len() >= 2
    &&& weights.last() > 0
    &&& forall|t: int| 0 <= t < weights.len() ==> #[trigger] weights[t] <= weights.last()
}

/// Whether a draw from a density with the given weights can be rejected:
/// some weight lies so far below the peak that a height can exceed it.
pub open spec fn can_reject(weights: Seq<u64>) -> bool {
    exists|t: int| 0 <= t < weights.len() && #[trigger] weights[t] + 1 < weights.last()
}

/// The acceptance test of rejection sampling: a candidate waiting time is
/// accepted when the height drawn for it does not exceed its weight. A
/// candidate outside the domain is never accepted.
pub open spec fn accepted(weights: Seq<u64>, candidate: u64, height: u64) -> bool {
    candidate < weights.len() && height <= weights[candidate as int]
}

/// Whether the draws at positions `2 * i` and `2 * i + 1` of `made` are those
/// of one attempt: a candidate from the whole domain, then a height from the
/// numbers below the peak.
pub open spec fn is_attempt(weights: Seq<u64>, made: Seq<Draw>, i: int) -> bool {
    &&& made[2 * i].low == 0
    &&& made[2 * i].high == weights.len() - 1
    &&& made[2 * i + 1].low == 0
    &&& made[2 * i + 1].high == weights.last() - 1
}

/// Whether the first `tried` pairs of `made` are attempts that were
/// rejected.
pub open spec fn rejected_so_far(weights: Seq<u64>, made: Seq<Draw>, tried: int) -> bool {
    forall|i: int|
        0 <= i < tried ==> #[trigger] is_attempt(weights, made, i) && !accepted(
            weights,
            made[2 * i].value,
            made[2 * i + 1].value,
        )
}

/// Whether `outcome` is what rejection sampling from `weights` gives when
/// `made` are the draws it makes.
///
/// A waiting time is the candidate of the last pair of draws: that pair is an
/// attempt that was accepted, every pair before it an attempt that was
/// rejected, and there are at most `MAX_ATTEMPTS` pairs. A failure comes after
/// exactly `MAX_ATTEMPTS` attempts, all rejected.
pub open spec fn sampled(weights: Seq<u64>, made: Seq<Draw>, outcome: Result<u64, Error>) -> bool {
    match outcome {
        Ok(waiting) => {
            let last = made.len() / 2 - 1;
            &&& made.len() >= 2
            &&& made.len() % 2 == 0
            &&& made.len() <= 2 * MAX_ATTEMPTS
            &&& rejected_so_far(weights, made, last)
            &&& is_attempt(weights, made, last)
            &&& accepted(weights, made[2 * last].value, made[2 * last + 1].value)
            &&& waiting == made[2 * last].value
        },
        Err(e) => {
            &&& e == Error::SamplingExhausted
            &&& made.len() == 2 * MAX_ATTEMPTS
            &&& rejected_so_far(weights, made, MAX_ATTEMPTS as int)
        },
    }
}

/// Whether the numbers that came in `a` and in `b` are the same as far as
/// both reach.
pub open spec fn same_numbers(a: Seq<Draw>, b: Seq<Draw>) -> bool {
    forall|i: int| 0 <= i < a.len() && 0 <= i < b.len() ==> a[i].value == b[i].value
}

/// Rejection sampling is determined by the numbers drawn: two samplings from
/// the same weights, to which the same numbers come, make the same draws and
/// have the same outcome.
pub proof fn lemma_sampling_determined(
    weights: Seq<u64>,
    made_a: Seq<Draw>,
    outcome_a: Result<u64, Error>,
    made_b: Seq<Draw>,
    outcome_b: Result<u64, Error>,
)
    requires
        sampled(weights, made_a, outcome_a),
        sampled(weights, made_b, outcome_b),
        same_numbers(made_a, made_b),
    ensures
        made_a =~= made_b,
        outcome_a == outcome_b,
{
    lemma_no_fewer_attempts(weights, made_a, outcome_a, made_b, outcome_b);
    lemma_no_fewer_attempts(weights, made_b, outcome_b, made_a, outcome_a);
    let tried = made_a.len() as int / 2;
    assert forall|j: int| 0 <= j < made_a.len() implies made_a[j] == made_b[j] by {
        let i = j / 2;
        assert(is_attempt(weights, made_a, i));
        assert(is_attempt(weights, made_b, i));
    }
    assert(made_a =~= made_b);
    if outcome_a is Ok || outcome_b is Ok {
        // The last pair was accepted in one sampling, so the other did not
        // reject it.
        assert(is_attempt(weights, made_a, tried - 1));
        assert(is_attempt(weights, made_b, tried - 1));
    }
}

/// Of two samplings to which the same numbers come, neither makes fewer
/// attempts than the other: it would end on a pair that the other rejected.
proof fn lemma_no_fewer_attempts(
    weights: Seq<u64>,
    made_a: Seq<Draw>,
    outcome_a: Result<u64, Error>,
    made_b: Seq<Draw>,
    outcome_b: Result<u64, Error>,
)
    requires
        sampled(weights, made_a, outcome_a),
        sampled(weights, made_b, outcome_b),
        same_numbers(made_a, made_b),
    ensures
        made_a.len() / 2 >= made_b.len() / 2,
{
    if made_a.len() / 2 < made_b.len() / 2 {
        let last = made_a.len() as int / 2 - 1;
        assert(outcome_a is Ok);
        assert(is_attempt(weights, made_b, last));
    }
}

/// A density over the waiting times `0..=c`, as a table of weights.
#[derive(Debug)]
pub struct Density {
    weights: Vec<u64>,
}

impl View for Density {
    type V = Seq<u64>;

    closed spec fn view(&self) -> Seq<u64> {
        self.weights@
    }
}

impl Clone for Density {
    fn clone(&self) -> (copy: Self)
        ensures
            copy@ == self@,
    {
        proof {
            use_type_invariant(self);
        }
        let weights = self.weights.clone();
        assert(weights@ =~= self.weights@);
        Density { weights }
    }
}

impl Density {
    #[verifier::type_invariant]
    spec fn well_formed(self) -> bool {
        is_density(self.weights@)
    }

    /// The density with the given weights, the weight of waiting time `t` at
    /// index `t`.
    ///
    /// Refused, in this order: a table without weights; a table of one
    /// weight, whose domain ends at a cost of zero; a last weight of zero; a
    /// weight above the last.
    pub fn new(weights: Vec<u64>) -> (r: Result<Density, Error>)
        ensures
            is_density(weights@) <==> r is Ok,
            r matches Ok(density) ==> density@ == weights@,
            r matches Err(e) ==> e == (if weights@.len() == 0 {
                Error::EmptyDensity
            } else if weights@.len() == 1 {
                Error::ZeroCost
            } else if weights@.last() == 0 {
                Error::ZeroPeak
            } else {
                Error::WeightAbovePeak
            }),
    {
        if weights.len() == 0 {
            return Err(Error::EmptyDensity);
        }
        if weights.len() == 1 {
            return Err(Error::ZeroCost);
        }
        let peak: u64 = weights[weights.len() - 1];
        if peak == 0 {
            return Err(Error::ZeroPeak);
        }
        let mut t: usize = 0;
        while t < weights.len()
            invariant
                t <= weights.len(),
                weights.len() >= 2,
                peak == weights@.last(),
                peak > 0,
                forall|u: int| 0 <= u < t ==> #[trigger] weights@[u] <= peak,
            decreases weights.len() - t,
        {
            if weights[t] > peak {
                return Err(Error::WeightAbovePeak);
            }
            t += 1;
        }
        Ok(Density { weights })
    }

    /// The end of the domain: the longest waiting time the density covers, at
    /// least one.
    pub fn cost(&self) -> (c: u64)
        ensures
            c == self@.len() - 1,
            c >= 1,
    {
        proof {
            use_type_invariant(self);
        }
        (self.weights.len() - 1) as u64
    }

    /// The weight at the end of the domain, which bounds all the others.
    pub fn peak(&self) -> (p: u64)
        ensures
            is_density(self@),
            p == self@.last(),
    {
        proof {
            use_type_invariant(self);
        }
        self.weights[self.weights.len() - 1]
    }

    /// The weight of waiting time `t`; zero outside the domain.
    pub fn weight(&self, t: u64) -> (w: u64)
        ensures
            w == (if t < self@.len() {
                self@[t as int]
            } else {
                0
            }),
    {
        if t < self.weights.len() as u64 {
            self.weights[t as usize]
        } else {
            0
        }
    }
}

/// The acceptance test of rejection sampling, on one candidate and the
/// height drawn for it.
pub fn accepts(density: &Density, candidate: u64, height: u64) -> (yes: bool)
    ensures
        yes == accepted(density@, candidate, height),
{
    candidate < density.weights.len() as u64 && height <= density.weights[candidate as usize]
}

/// Draws a waiting time from `density` by rejection sampling.
///
/// Each attempt draws a candidate uniformly from the domain and a height
/// uniformly from the numbers below the peak, and accepts the candidate if it
/// passes the acceptance test. The first candidate accepted is returned, and
/// nothing is drawn after it. After `MAX_ATTEMPTS` rejections the function
/// gives up with `Error::SamplingExhausted`.
///
/// So the draws made here are added to the source's record, and the outcome
/// is what `sampled` says of them. The waiting time lies in the domain, and
/// the function can only give up if the density can reject a candidate.
pub fn sample(density: &Density, source: &mut RandomSource) -> (r: Result<u64, Error>)
    ensures
        old(source).history().is_prefix_of(final(source).history()),
        sampled(
            density@,
            final(source).history().skip(old(source).history().len() as int),
            r,
        ),
        r matches Ok(waiting) ==> waiting < density@.len(),
        r is Err ==> can_reject(density@),
{
    let cost: u64 = density.cost();
    let peak: u64 = density.peak();
    let ghost before = source.history();
    let mut attempt: u32 = 0;
    while attempt < MAX_ATTEMPTS
        invariant
            attempt <= MAX_ATTEMPTS,
            is_density(density@),
            cost == density@.len() - 1,
            peak == density@.last(),
            before == old(source).history(),
            before.is_prefix_of(source.history()),
            source.history().len() == before.len() + 2 * attempt,
            rejected_so_far(density@, source.history().skip(before.len() as int), attempt as int),
            attempt > 0 ==> can_reject(density@),
        decreases MAX_ATTEMPTS - attempt,
    {
        let ghost earlier = source.history();
        let candidate: u64 = source.draw_up_to(cost);
        let height: u64 = source.draw_up_to(peak - 1);
        let yes = accepts(density, candidate, height);
        proof {
            let made = source.history().skip(before.len() as int);
            let made_earlier = earlier.skip(before.len() as int);
            assert(made =~= made_earlier.push(
                Draw { low: 0, high: cost, value: candidate },
            ).push(Draw { low: 0, high: (peak - 1) as u64, value: height }));
            assert(is_attempt(density@, made, attempt as int));
            assert forall|i: int| 0 <= i < attempt implies #[trigger] is_attempt(
                density@,
                made,
                i,
            ) && !accepted(density@, made[2 * i].value, made[2 * i + 1].value) by {
                assert(is_attempt(density@, made_earlier, i));
            }
            if !yes {
                assert(density@[candidate as int] + 1 < density@.last());
            }
        }
        if yes {
            return Ok(candidate);
        }
        attempt += 1;
    }
    Err(Error::SamplingExhausted)
}

} // verus!
