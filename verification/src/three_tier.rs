//! The three-tier model: between keeping and discarding stands compressing,
//! which costs less per tick than keeping and less to recover from than a
//! discard.
//!
//! Costs are fixed-point numbers: a field holds its cost in units of
//! `1 / COST_UNIT`, so that `COST_UNIT` stands for a cost of one. Accrued costs
//! are in the same units.

use vstd::prelude::*;

use crate::error::Error;
use crate::karlin::{
    can_reject, lemma_sampling_determined, same_numbers, sample, sampled, Density,
};
use crate::random::{Draw, RandomSource};
use crate::ratio::CompetitiveRatio;
use crate::trace::accessed;
use crate::two_tier::{larger, time_until};
use crate::{can_break_off, reaches, Algorithm, Policy, Simulator};

verus! {

/// The fixed-point representation of a cost of one.
pub const COST_UNIT: u64 = 1_000;

/// The cost configuration of the three-tier model, each cost in units of
/// `1 / COST_UNIT`.
#[derive(Debug, Clone, Copy, PartialEq, Eq, Structural)]
pub struct Costs {
    /// Charged for each tick without access while keeping.
    pub keep_time_cost: u64,
    /// Charged for each tick without access while compressed.
    pub compressed_time_cost: u64,
    /// Charged when compressed data is accessed.
    pub recover_from_compressed_cost: u64,
    /// Charged when discarded data is accessed.
    pub recover_from_discard_cost: u64,
}

impl Costs {
    /// The constraints on a configuration: compressing is cheaper per tick
    /// than keeping, and cheaper to recover from than discarding.
    pub open spec fn valid(self) -> bool {
        &&& self.compressed_time_cost < self.keep_time_cost
        &&& self.recover_from_compressed_cost < self.recover_from_discard_cost
    }

    /// Checks the constraints, the per-tick costs first.
    pub fn validate(&self) -> (r: Result<(), Error>)
        ensures
            r is Ok <==> self.valid(),
            r matches Err(e) ==> e == (if self.compressed_time_cost >= self.keep_time_cost {
                Error::CompressedNotCheaper
            } else {
                Error::RecoveryNotCheaper
            }),
    {
        if self.compressed_time_cost >= self.keep_time_cost {
            return Err(Error::CompressedNotCheaper);
        }
        if self.recover_from_compressed_cost >= self.recover_from_discard_cost {
            return Err(Error::RecoveryNotCheaper);
        }
        Ok(())
    }

    /// Whether a wait of `delta` ticks is within the keep threshold
    /// `recover_from_compressed_cost / (1 - compressed_time_cost)`.
    ///
    /// The quotient is compared without dividing, by multiplying both sides
    /// with the divisor, which turns the comparison round where the divisor is
    /// negative. So where compressing costs less than one per tick, the wait
    /// is within the threshold when it costs no more to keep at one per tick
    /// than to compress and recover. Where compressing costs more than one per
    /// tick the threshold is below zero, or zero if the recovery is free, and
    /// no wait of a tick or more is within it. Where compressing costs exactly
    /// one per tick there is no threshold, and every wait is within.
    pub open spec fn within_keep_threshold(self, delta: nat) -> bool {
        if self.compressed_time_cost <= COST_UNIT {
            delta * (COST_UNIT - self.compressed_time_cost) <= self.recover_from_compressed_cost
        } else {
            delta * (COST_UNIT - self.compressed_time_cost) >= self.recover_from_compressed_cost
        }
    }

    /// Whether a wait of `delta` ticks is beyond the compress threshold
    /// `(recover_from_discard_cost - recover_from_compressed_cost) /
    /// compressed_time_cost`.
    ///
    /// The quotient is compared without dividing: the wait is beyond the
    /// threshold when `delta` ticks compressed and one recovery from
    /// compression come to more than one recovery from a discard. Where
    /// compressing is free, no wait is beyond it.
    pub open spec fn beyond_compress_threshold(self, delta: nat) -> bool {
        delta * self.compressed_time_cost + self.recover_from_compressed_cost
            > self.recover_from_discard_cost
    }

    /// The keep threshold in whole ticks:
    /// `recover_from_compressed_cost / (1 - compressed_time_cost)`, rounded
    /// down. It is defined where compressing does not cost exactly one per
    /// tick, and is below or at zero where it costs more.
    pub open spec fn keep_threshold(self) -> int
        recommends
            self.compressed_time_cost != COST_UNIT,
    {
        if self.compressed_time_cost < COST_UNIT {
            self.recover_from_compressed_cost as int / (COST_UNIT - self.compressed_time_cost)
        } else {
            let over = self.compressed_time_cost - COST_UNIT;
            -((self.recover_from_compressed_cost + over - 1) / over)
        }
    }

    /// The compress threshold in whole ticks:
    /// `(recover_from_discard_cost - recover_from_compressed_cost) /
    /// compressed_time_cost`, rounded down. It is defined where compressing is
    /// not free.
    pub open spec fn compress_threshold(self) -> nat
        recommends
            self.compressed_time_cost > 0,
            self.recover_from_compressed_cost <= self.recover_from_discard_cost,
    {
        ((self.recover_from_discard_cost - self.recover_from_compressed_cost)
            / self.compressed_time_cost as int) as nat
    }

    /// Where the thresholds are defined, a wait is within the keep threshold
    /// exactly if it is at most `keep_threshold`, and beyond the compress
    /// threshold exactly if it is more than `compress_threshold`.
    pub proof fn lemma_thresholds(self, delta: nat)
        ensures
            self.compressed_time_cost != COST_UNIT ==> (self.within_keep_threshold(delta) <==> delta
                <= self.keep_threshold()),
            self.compressed_time_cost > COST_UNIT ==> (self.within_keep_threshold(delta) <==> delta
                == 0 && self.recover_from_compressed_cost == 0),
            self.compressed_time_cost > 0 && self.recover_from_compressed_cost
                <= self.recover_from_discard_cost ==> (self.beyond_compress_threshold(delta)
                <==> delta > self.compress_threshold()),
    {
        let c = self.compressed_time_cost as int;
        let rc = self.recover_from_compressed_cost as int;
        let rd = self.recover_from_discard_cost as int;
        let d = delta as int;
        if c < COST_UNIT {
            lemma_at_most_quotient(d, rc, COST_UNIT - c);
        }
        if c > COST_UNIT {
            let over = c - COST_UNIT;
            let up = (rc + over - 1) / over;
            vstd::arithmetic::div_mod::lemma_fundamental_div_mod(rc + over - 1, over);
            vstd::arithmetic::div_mod::lemma_mod_bound(rc + over - 1, over);
            assert(up >= 0 && (up == 0 <==> rc == 0)) by (nonlinear_arith)
                requires
                    rc + over - 1 == over * up + (rc + over - 1) % over,
                    0 <= (rc + over - 1) % over < over,
                    rc >= 0,
                    over > 0,
            ;
            assert(d * (COST_UNIT - c) == -(d * over)) by (nonlinear_arith)
                requires
                    over == c - COST_UNIT,
            ;
            assert(d * over >= 0 && (d * over == 0 <==> d == 0)) by (nonlinear_arith)
                requires
                    d >= 0,
                    over > 0,
            ;
        }
        if c > 0 && rc <= rd {
            lemma_at_most_quotient(d, rd - rc, c);
        }
    }

    /// The policy for a resource that will next be accessed `delta` ticks from
    /// now: discard beyond the compress threshold; otherwise compress beyond
    /// the keep threshold; otherwise keep. A wait that equals a threshold is
    /// within it.
    pub open spec fn choice(self, delta: nat) -> Policy {
        if self.beyond_compress_threshold(delta) {
            Policy::Discard
        } else if !self.within_keep_threshold(delta) {
            Policy::Compress
        } else {
            Policy::Keep
        }
    }

    /// The policy for a resource that will next be accessed `delta` ticks from
    /// now.
    pub fn choose_policy(&self, delta: u64) -> (policy: Policy)
        ensures
            policy == self.choice(delta as nat),
    {
        let unit: u128 = COST_UNIT as u128;
        let rate: u128 = self.compressed_time_cost as u128;
        let recovery: u128 = self.recover_from_compressed_cost as u128;
        assert(delta * rate + recovery <= u128::MAX && delta * unit <= u128::MAX) by (nonlinear_arith)
            requires
                delta <= u64::MAX,
                rate <= u64::MAX,
                recovery <= u64::MAX,
                unit == 1000,
        ;
        let compressed: u128 = (delta as u128) * rate + recovery;
        if compressed > self.recover_from_discard_cost as u128 {
            return Policy::Discard;
        }
        let within = if rate <= unit {
            assert(delta * (unit - rate) == delta * unit - delta * rate) by (nonlinear_arith);
            (delta as u128) * unit <= compressed
        } else {
            assert(delta * (unit - rate) >= recovery <==> delta == 0 && recovery == 0)
                by (nonlinear_arith)
                requires
                    rate > unit,
                    delta >= 0,
                    recovery >= 0,
            ;
            delta == 0 && recovery == 0
        };
        if within {
            Policy::Keep
        } else {
            Policy::Compress
        }
    }

    /// What a tick without access costs under `policy`.
    pub open spec fn holding_cost(self, policy: Policy) -> nat {
        match policy {
            Policy::Keep => self.keep_time_cost as nat,
            Policy::Compress => self.compressed_time_cost as nat,
            Policy::Discard => 0,
        }
    }

    /// What an access costs under `policy`.
    pub open spec fn recovery_cost(self, policy: Policy) -> nat {
        match policy {
            Policy::Keep => 0,
            Policy::Compress => self.recover_from_compressed_cost as nat,
            Policy::Discard => self.recover_from_discard_cost as nat,
        }
    }

    /// The most that a single tick can cost under a valid configuration.
    pub open spec fn max_charge(self) -> nat {
        larger(self.keep_time_cost as nat, self.recover_from_discard_cost as nat)
    }

    /// The longest wait before a discard that the randomized instance draws:
    /// the whole part of the cost of recovering from a discard.
    pub open spec fn discard_wait_limit(self) -> nat {
        (self.recover_from_discard_cost / COST_UNIT) as nat
    }

    /// The longest wait before compressing that the randomized instance draws:
    /// the whole part of the cost of recovering from compression.
    pub open spec fn compress_wait_limit(self) -> nat {
        (self.recover_from_compressed_cost / COST_UNIT) as nat
    }
}

/// A whole number is at most a quotient rounded down exactly if its product
/// with the divisor is at most the dividend.
proof fn lemma_at_most_quotient(x: int, a: int, b: int)
    requires
        0 <= x,
        0 <= a,
        0 < b,
    ensures
        x <= a / b <==> x * b <= a,
{
    vstd::arithmetic::div_mod::lemma_fundamental_div_mod(a, b);
    vstd::arithmetic::div_mod::lemma_mod_bound(a, b);
    let q = a / b;
    if x <= q {
        assert(x * b <= q * b) by (nonlinear_arith)
            requires
                x <= q,
                0 < b,
        ;
        assert(b * q == q * b) by (nonlinear_arith);
    } else {
        assert(x * b >= (q + 1) * b) by (nonlinear_arith)
            requires
                x >= q + 1,
                0 < b,
        ;
        assert((q + 1) * b == b * q + b) by (nonlinear_arith);
    }
}

/// Model of the offline instance of the three-tier model.
pub struct OfflineState {
    pub costs: Costs,
    pub trace: Seq<u64>,
    pub clock: nat,
    pub cursor: nat,
    pub policy: Policy,
    pub accrued: nat,
}

impl OfflineState {
    /// The state before the first tick: clock zero, keeping, nothing accrued.
    pub open spec fn fresh(costs: Costs, trace: Seq<u64>) -> Self {
        OfflineState { costs, trace, clock: 0, cursor: 0, policy: Policy::Keep, accrued: 0 }
    }

    /// Whether every access of the trace has been served.
    pub open spec fn exhausted(self) -> bool {
        self.cursor >= self.trace.len()
    }

    /// The policy for the tick that is about to be charged: while keeping, the
    /// instance chooses anew by the time left until the next access.
    pub open spec fn decided(self) -> Policy {
        if self.policy == Policy::Keep {
            self.costs.choice(time_until(self.trace[self.cursor as int] as nat, self.clock + 1))
        } else {
            self.policy
        }
    }

    /// One tick. Once the trace is exhausted only the clock moves. Before
    /// that, the decision comes first; a tick without access is charged the
    /// holding cost of the policy; a tick with access moves the cursor on,
    /// charges the recovery that the policy calls for, and returns to keeping.
    pub open spec fn tick(self, access: bool) -> Self {
        if self.exhausted() {
            OfflineState { clock: self.clock + 1, ..self }
        } else {
            let decided = self.decided();
            if !access {
                OfflineState {
                    clock: self.clock + 1,
                    policy: decided,
                    accrued: self.accrued + self.costs.holding_cost(decided),
                    ..self
                }
            } else {
                OfflineState {
                    clock: self.clock + 1,
                    cursor: self.cursor + 1,
                    policy: Policy::Keep,
                    accrued: self.accrued + self.costs.recovery_cost(decided),
                    ..self
                }
            }
        }
    }
}

/// The omniscient instance of the three-tier model.
#[derive(Debug)]
pub struct OfflineInstance {
    t: u64,
    access_list: Vec<u64>,
    cursor: usize,
    accrued_cost: u64,
    costs: Costs,
    policy: Policy,
}

impl View for OfflineInstance {
    type V = OfflineState;

    closed spec fn view(&self) -> OfflineState {
        OfflineState {
            costs: self.costs,
            trace: self.access_list@,
            clock: self.t as nat,
            cursor: self.cursor as nat,
            policy: self.policy,
            accrued: self.accrued_cost as nat,
        }
    }
}

impl Clone for OfflineInstance {
    fn clone(&self) -> (copy: Self)
        ensures
            copy@ == self@,
    {
        let access_list = self.access_list.clone();
        assert(access_list@ =~= self.access_list@);
        Self {
            t: self.t,
            access_list,
            cursor: self.cursor,
            accrued_cost: self.accrued_cost,
            costs: self.costs,
            policy: self.policy,
        }
    }
}

impl OfflineInstance {
    /// A fresh instance that knows every access in `access_list`. Costs that
    /// break a constraint are refused with the error of `Costs::validate`.
    pub fn new(costs: Costs, access_list: Vec<u64>) -> (r: Result<Self, Error>)
        ensures
            r is Ok <==> costs.valid(),
            r matches Ok(instance) ==> instance.inv() && instance@ == OfflineState::fresh(
                costs,
                access_list@,
            ),
            r matches Err(e) ==> e == (if costs.compressed_time_cost >= costs.keep_time_cost {
                Error::CompressedNotCheaper
            } else {
                Error::RecoveryNotCheaper
            }),
    {
        match costs.validate() {
            Ok(()) => {},
            Err(e) => {
                return Err(e);
            },
        }
        Ok(Self { t: 0, access_list, cursor: 0, accrued_cost: 0, costs, policy: Policy::Keep })
    }

    /// The instance's current policy.
    pub fn policy(&self) -> (policy: Policy)
        ensures
            policy == self@.policy,
    {
        self.policy
    }
}

impl Algorithm for OfflineInstance {
    open spec fn inv(&self) -> bool {
        &&& self@.costs.valid()
        &&& self@.cursor <= self@.trace.len()
    }

    open spec fn clock(&self) -> nat {
        self@.clock
    }

    open spec fn accrued(&self) -> nat {
        self@.accrued
    }

    open spec fn max_charge(&self) -> nat {
        self@.costs.max_charge()
    }

    open spec fn steps_to(&self, access: bool, next: &Self) -> bool {
        next@ == self@.tick(access)
    }

    open spec fn can_fail(&self, access: bool) -> bool {
        false
    }

    fn tick(&mut self, access: bool) -> (r: Result<(), Error>)
        ensures
            r is Ok,
            final(self)@ == old(self)@.tick(access),
    {
        let now: u64 = self.t + 1;
        self.t = now;
        if self.cursor >= self.access_list.len() {
            return Ok(());
        }
        if self.policy == Policy::Keep {
            let next_access: u64 = self.access_list[self.cursor];
            let delta: u64 = if next_access >= now {
                next_access - now
            } else {
                0
            };
            self.policy = self.costs.choose_policy(delta);
        }
        if !access {
            match self.policy {
                Policy::Keep => {
                    self.accrued_cost += self.costs.keep_time_cost;
                },
                Policy::Compress => {
                    self.accrued_cost += self.costs.compressed_time_cost;
                },
                Policy::Discard => {},
            }
            return Ok(());
        }
        self.cursor += 1;
        match self.policy {
            Policy::Compress => {
                self.accrued_cost += self.costs.recover_from_compressed_cost;
            },
            Policy::Discard => {
                self.accrued_cost += self.costs.recover_from_discard_cost;
            },
            Policy::Keep => {},
        }
        self.policy = Policy::Keep;
        Ok(())
    }

    fn total_accrued_cost(&self) -> (cost: u64) {
        self.accrued_cost
    }
}

/// Whether `made` are the draws of two samplings, one from `first` and then
/// one from `second`, that gave the waiting times `wait_first` and
/// `wait_second`.
pub open spec fn sampled_twice(
    first: Seq<u64>,
    second: Seq<u64>,
    made: Seq<Draw>,
    wait_first: u64,
    wait_second: u64,
) -> bool {
    exists|cut: int|
        0 <= cut <= made.len() && #[trigger] sampled(first, made.take(cut), Ok(wait_first))
            && sampled(second, made.skip(cut), Ok(wait_second))
}

/// Whether `made` are the draws of a sampling from `first` that gave up, or
/// of one that gave a waiting time and then one from `second` that gave up.
pub open spec fn sampling_twice_failed(first: Seq<u64>, second: Seq<u64>, made: Seq<Draw>) -> bool {
    ||| sampled(first, made, Err(Error::SamplingExhausted))
    ||| exists|cut: int, wait_first: u64|
        0 <= cut <= made.len() && #[trigger] sampled(first, made.take(cut), Ok(wait_first))
            && sampled(second, made.skip(cut), Err(Error::SamplingExhausted))
}

/// The draws of two calls in a row part into those of the first and those of
/// the second.
proof fn lemma_two_in_a_row(before: Seq<Draw>, between: Seq<Draw>, after: Seq<Draw>)
    requires
        before.is_prefix_of(between),
        between.is_prefix_of(after),
    ensures
        before.is_prefix_of(after),
        after.skip(before.len() as int).take(between.len() - before.len()) == between.skip(
            before.len() as int,
        ),
        after.skip(before.len() as int).skip(between.len() - before.len()) == after.skip(
            between.len() as int,
        ),
{
    assert(after.skip(before.len() as int).take(between.len() - before.len()) =~= between.skip(
        before.len() as int,
    ));
    assert(after.skip(before.len() as int).skip(between.len() - before.len()) =~= after.skip(
        between.len() as int,
    ));
}

/// Two samplings in a row are determined by the numbers drawn.
pub proof fn lemma_sampling_twice_determined(
    first: Seq<u64>,
    second: Seq<u64>,
    made_a: Seq<Draw>,
    wait_first_a: u64,
    wait_second_a: u64,
    made_b: Seq<Draw>,
    wait_first_b: u64,
    wait_second_b: u64,
)
    requires
        sampled_twice(first, second, made_a, wait_first_a, wait_second_a),
        sampled_twice(first, second, made_b, wait_first_b, wait_second_b),
        same_numbers(made_a, made_b),
    ensures
        made_a =~= made_b,
        wait_first_a == wait_first_b,
        wait_second_a == wait_second_b,
{
    let cut_a = choose|cut: int|
        0 <= cut <= made_a.len() && #[trigger] sampled(first, made_a.take(cut), Ok(wait_first_a))
            && sampled(second, made_a.skip(cut), Ok(wait_second_a));
    let cut_b = choose|cut: int|
        0 <= cut <= made_b.len() && #[trigger] sampled(first, made_b.take(cut), Ok(wait_first_b))
            && sampled(second, made_b.skip(cut), Ok(wait_second_b));
    lemma_sampling_determined(
        first,
        made_a.take(cut_a),
        Ok(wait_first_a),
        made_b.take(cut_b),
        Ok(wait_first_b),
    );
    assert(made_a.take(cut_a).len() == made_b.take(cut_b).len());
    assert(cut_a == cut_b);
    assert forall|i: int|
        0 <= i < made_a.skip(cut_a).len() && 0 <= i < made_b.skip(cut_b).len() implies made_a.skip(
        cut_a,
    )[i].value == made_b.skip(cut_b)[i].value by {
        assert(made_a.skip(cut_a)[i] == made_a[cut_a + i]);
        assert(made_b.skip(cut_b)[i] == made_b[cut_b + i]);
    }
    lemma_sampling_determined(
        second,
        made_a.skip(cut_a),
        Ok(wait_second_a),
        made_b.skip(cut_b),
        Ok(wait_second_b),
    );
    assert(made_a =~= made_a.take(cut_a) + made_a.skip(cut_a));
    assert(made_b =~= made_b.take(cut_b) + made_b.skip(cut_b));
}

/// Model of the randomized online instance of the three-tier model.
pub struct OnlineState {
    pub costs: Costs,
    pub clock: nat,
    pub last_access: nat,
    pub policy: Policy,
    pub accrued: nat,
}

impl OnlineState {
    /// The state before the first tick: clock zero, keeping, nothing accrued.
    pub open spec fn fresh(costs: Costs) -> Self {
        OnlineState { costs, clock: 0, last_access: 0, policy: Policy::Keep, accrued: 0 }
    }

    /// The policy for the tick that is about to be charged. While keeping, the
    /// instance discards once `wait_discard` ticks have passed since the last
    /// access, and otherwise compresses once `wait_compress` ticks have.
    pub open spec fn decided(self, wait_discard: nat, wait_compress: nat) -> Policy {
        let elapsed = self.clock + 1 - self.last_access;
        if self.policy != Policy::Keep {
            self.policy
        } else if elapsed >= wait_discard {
            Policy::Discard
        } else if elapsed >= wait_compress {
            Policy::Compress
        } else {
            Policy::Keep
        }
    }

    /// One tick under the given waiting times. A tick without access is
    /// charged the holding cost of the policy. A tick with access is remembered
    /// as the last access, charges the recovery that the policy calls for, and
    /// returns to keeping.
    pub open spec fn tick(self, wait_discard: nat, wait_compress: nat, access: bool) -> Self {
        let decided = self.decided(wait_discard, wait_compress);
        if !access {
            OnlineState {
                clock: self.clock + 1,
                policy: decided,
                accrued: self.accrued + self.costs.holding_cost(decided),
                ..self
            }
        } else {
            OnlineState {
                clock: self.clock + 1,
                last_access: self.clock + 1,
                policy: Policy::Keep,
                accrued: self.accrued + self.costs.recovery_cost(decided),
                ..self
            }
        }
    }
}

/// The randomized online instance of the three-tier model. After every
/// access it draws how long to wait before discarding and how long to wait
/// before compressing.
pub struct KarlinInstance {
    t: u64,
    accrued_cost: u64,
    costs: Costs,
    policy: Policy,
    last_access: u64,
    t_to_wait_before_discard: u64,
    t_to_wait_before_compress: u64,
    discard_density: Density,
    compress_density: Density,
    source: RandomSource,
}

impl View for KarlinInstance {
    type V = OnlineState;

    closed spec fn view(&self) -> OnlineState {
        OnlineState {
            costs: self.costs,
            clock: self.t as nat,
            last_access: self.last_access as nat,
            policy: self.policy,
            accrued: self.accrued_cost as nat,
        }
    }
}

impl KarlinInstance {
    /// The wait before a discard that is in force.
    pub closed spec fn wait_discard(&self) -> nat {
        self.t_to_wait_before_discard as nat
    }

    /// The wait before compressing that is in force.
    pub closed spec fn wait_compress(&self) -> nat {
        self.t_to_wait_before_compress as nat
    }

    /// The weights of the density that waits before a discard are drawn from.
    pub closed spec fn discard_density(&self) -> Seq<u64> {
        self.discard_density@
    }

    /// The weights of the density that waits before compressing are drawn
    /// from.
    pub closed spec fn compress_density(&self) -> Seq<u64> {
        self.compress_density@
    }

    /// The draws made from the instance's random source so far, those made
    /// before the instance took it over included.
    pub closed spec fn history(&self) -> Seq<Draw> {
        self.source.history()
    }

    /// A fresh instance, with its first two waiting times drawn.
    ///
    /// Refused, in this order: costs that break a constraint, with the error
    /// of `Costs::validate`; a density that does not cover the waiting times
    /// up to the whole part of its recovery cost, with `Error::DensityDomain`.
    /// Since no density ends at zero, a recovery cost below one is always
    /// refused. If a waiting time cannot be drawn, the error is
    /// `Error::SamplingExhausted`.
    ///
    /// The wait before a discard is sampled first, the wait before compressing
    /// after it.
    pub fn new(
        costs: Costs,
        discard_density: Density,
        compress_density: Density,
        source: RandomSource,
    ) -> (r: Result<Self, Error>)
        ensures
            r matches Ok(instance) ==> {
                &&& instance.inv()
                &&& instance@ == OnlineState::fresh(costs)
                &&& instance.discard_density() == discard_density@
                &&& instance.compress_density() == compress_density@
                &&& source.history().is_prefix_of(instance.history())
                &&& sampled_twice(
                    discard_density@,
                    compress_density@,
                    instance.history().skip(source.history().len() as int),
                    instance.wait_discard() as u64,
                    instance.wait_compress() as u64,
                )
            },
            costs.valid() && (costs.discard_wait_limit() == 0 || costs.compress_wait_limit() == 0)
                ==> r == Err::<Self, Error>(Error::DensityDomain),
            r matches Err(e) ==> e == Self::refusal(costs, discard_density@, compress_density@),
            r == Err::<Self, Error>(Error::SamplingExhausted) ==> can_reject(discard_density@)
                || can_reject(compress_density@),
            Self::refusal(costs, discard_density@, compress_density@) != Error::SamplingExhausted
                ==> r is Err,
    {
        match costs.validate() {
            Ok(()) => {},
            Err(e) => {
                return Err(e);
            },
        }
        if discard_density.cost() != costs.recover_from_discard_cost / COST_UNIT
            || compress_density.cost() != costs.recover_from_compressed_cost / COST_UNIT {
            return Err(Error::DensityDomain);
        }
        let mut source = source;
        let ghost before = source.history();
        let wait_discard: u64 = match sample(&discard_density, &mut source) {
            Ok(waiting) => waiting,
            Err(e) => {
                return Err(e);
            },
        };
        let ghost between = source.history();
        let wait_compress: u64 = match sample(&compress_density, &mut source) {
            Ok(waiting) => waiting,
            Err(e) => {
                return Err(e);
            },
        };
        proof {
            lemma_two_in_a_row(before, between, source.history());
        }
        Ok(
            Self {
                t: 0,
                costs,
                accrued_cost: 0,
                policy: Policy::Keep,
                last_access: 0,
                t_to_wait_before_discard: wait_discard,
                t_to_wait_before_compress: wait_compress,
                discard_density,
                compress_density,
                source,
            },
        )
    }

    /// The only error with which `new` can refuse the given arguments.
    pub open spec fn refusal(costs: Costs, discard_density: Seq<u64>, compress_density: Seq<u64>) -> Error {
        if costs.compressed_time_cost >= costs.keep_time_cost {
            Error::CompressedNotCheaper
        } else if costs.recover_from_compressed_cost >= costs.recover_from_discard_cost {
            Error::RecoveryNotCheaper
        } else if discard_density.len() != costs.discard_wait_limit() + 1 || compress_density.len()
            != costs.compress_wait_limit() + 1 {
            Error::DensityDomain
        } else {
            Error::SamplingExhausted
        }
    }

    /// The instance's current policy.
    pub fn policy(&self) -> (policy: Policy)
        ensures
            policy == self@.policy,
    {
        self.policy
    }

    /// The wait before a discard that is in force.
    pub fn wait_before_discard(&self) -> (waiting: u64)
        ensures
            waiting == self.wait_discard(),
    {
        self.t_to_wait_before_discard
    }

    /// The wait before compressing that is in force.
    pub fn wait_before_compress(&self) -> (waiting: u64)
        ensures
            waiting == self.wait_compress(),
    {
        self.t_to_wait_before_compress
    }
}

impl Algorithm for KarlinInstance {
    open spec fn inv(&self) -> bool {
        &&& self@.costs.valid()
        &&& self@.last_access <= self@.clock
        &&& self.wait_discard() <= self@.costs.discard_wait_limit()
        &&& self.wait_compress() <= self@.costs.compress_wait_limit()
        &&& self.discard_density().len() == self@.costs.discard_wait_limit() + 1
        &&& self.compress_density().len() == self@.costs.compress_wait_limit() + 1
    }

    open spec fn clock(&self) -> nat {
        self@.clock
    }

    open spec fn accrued(&self) -> nat {
        self@.accrued
    }

    open spec fn max_charge(&self) -> nat {
        self@.costs.max_charge()
    }

    /// The step of the model under the waiting times in force. A tick
    /// without access draws nothing and leaves the waiting times as they are.
    /// A tick with access samples twice, and the waiting times sampled are in
    /// force from then on.
    open spec fn steps_to(&self, access: bool, next: &Self) -> bool {
        &&& next@ == self@.tick(self.wait_discard(), self.wait_compress(), access)
        &&& next.discard_density() == self.discard_density()
        &&& next.compress_density() == self.compress_density()
        &&& next.wait_discard() <= next@.costs.discard_wait_limit()
        &&& next.wait_compress() <= next@.costs.compress_wait_limit()
        &&& self.history().is_prefix_of(next.history())
        &&& if access {
            sampled_twice(
                self.discard_density(),
                self.compress_density(),
                next.history().skip(self.history().len() as int),
                next.wait_discard() as u64,
                next.wait_compress() as u64,
            )
        } else {
            &&& next.wait_discard() == self.wait_discard()
            &&& next.wait_compress() == self.wait_compress()
            &&& next.history() == self.history()
        }
    }

    /// Only a tick with access draws, and only a density that can reject a
    /// candidate can exhaust a draw.
    open spec fn can_fail(&self, access: bool) -> bool {
        access && (can_reject(self.discard_density()) || can_reject(self.compress_density()))
    }

    fn tick(&mut self, access: bool) -> (r: Result<(), Error>)
        ensures
            !access ==> r is Ok,
            r is Err ==> {
                &&& final(self)@ == old(self)@
                &&& final(self).wait_discard() == old(self).wait_discard()
                &&& final(self).wait_compress() == old(self).wait_compress()
                &&& final(self).discard_density() == old(self).discard_density()
                &&& final(self).compress_density() == old(self).compress_density()
                &&& old(self).history().is_prefix_of(final(self).history())
                &&& sampling_twice_failed(
                    old(self).discard_density(),
                    old(self).compress_density(),
                    final(self).history().skip(old(self).history().len() as int),
                )
            },
    {
        let mut wait_discard: u64 = self.t_to_wait_before_discard;
        let mut wait_compress: u64 = self.t_to_wait_before_compress;
        if access {
            let ghost before = self.source.history();
            match sample(&self.discard_density, &mut self.source) {
                Ok(drawn) => {
                    wait_discard = drawn;
                },
                Err(e) => {
                    return Err(e);
                },
            }
            let ghost between = self.source.history();
            let r = sample(&self.compress_density, &mut self.source);
            proof {
                lemma_two_in_a_row(before, between, self.source.history());
            }
            match r {
                Ok(drawn) => {
                    wait_compress = drawn;
                },
                Err(e) => {
                    return Err(e);
                },
            }
        }
        self.t += 1;
        if self.policy == Policy::Keep {
            let time_elapsed: u64 = self.t - self.last_access;
            let should_discard = time_elapsed >= self.t_to_wait_before_discard;
            let should_compress = time_elapsed >= self.t_to_wait_before_compress;
            if should_discard {
                self.policy = Policy::Discard;
            } else if should_compress {
                self.policy = Policy::Compress;
            }
        }
        if !access {
            match self.policy {
                Policy::Keep => {
                    self.accrued_cost += self.costs.keep_time_cost;
                },
                Policy::Compress => {
                    self.accrued_cost += self.costs.compressed_time_cost;
                },
                Policy::Discard => {},
            }
            return Ok(());
        }
        self.last_access = self.t;
        self.t_to_wait_before_discard = wait_discard;
        self.t_to_wait_before_compress = wait_compress;
        match self.policy {
            Policy::Compress => {
                self.accrued_cost += self.costs.recover_from_compressed_cost;
            },
            Policy::Discard => {
                self.accrued_cost += self.costs.recover_from_discard_cost;
            },
            Policy::Keep => {},
        }
        self.policy = Policy::Keep;
        Ok(())
    }

    fn total_accrued_cost(&self) -> (cost: u64) {
        self.accrued_cost
    }
}

/// The record of draws of a randomized instance only grows.
pub proof fn lemma_history_grows(
    start: KarlinInstance,
    trace: Seq<u64>,
    n: nat,
    end: KarlinInstance,
)
    requires
        reaches(start, trace, 0, n, end),
    ensures
        start.history().is_prefix_of(end.history()),
    decreases n,
{
    if n > 0 {
        let mid = choose|mid: KarlinInstance|
            reaches(start, trace, 0, (n - 1) as nat, mid) && #[trigger] mid.steps_to(
                accessed(trace, 0 + n),
                &end,
            );
        lemma_history_grows(start, trace, (n - 1) as nat, mid);
    }
}

/// A randomized run is determined by the numbers drawn: two instances in the
/// same state, with the same waiting times and densities, that take `n` ticks
/// along the same trace and to which the same numbers come, make the same
/// draws, sample the same waiting times and arrive at the same state.
pub proof fn lemma_equal_draws_equal_runs(
    a: KarlinInstance,
    b: KarlinInstance,
    trace: Seq<u64>,
    n: nat,
    end_a: KarlinInstance,
    end_b: KarlinInstance,
)
    requires
        a@ == b@,
        a.wait_discard() == b.wait_discard(),
        a.wait_compress() == b.wait_compress(),
        a.discard_density() == b.discard_density(),
        a.compress_density() == b.compress_density(),
        reaches(a, trace, 0, n, end_a),
        reaches(b, trace, 0, n, end_b),
        same_numbers(
            end_a.history().skip(a.history().len() as int),
            end_b.history().skip(b.history().len() as int),
        ),
    ensures
        end_a@ == end_b@,
        end_a.wait_discard() == end_b.wait_discard(),
        end_a.wait_compress() == end_b.wait_compress(),
        end_a.discard_density() == end_b.discard_density(),
        end_a.compress_density() == end_b.compress_density(),
        end_a.history().skip(a.history().len() as int) == end_b.history().skip(
            b.history().len() as int,
        ),
    decreases n,
{
    lemma_history_grows(a, trace, n, end_a);
    lemma_history_grows(b, trace, n, end_b);
    if n > 0 {
        let m = (n - 1) as nat;
        let access = accessed(trace, 0 + n);
        let mid_a = choose|mid: KarlinInstance|
            reaches(a, trace, 0, m, mid) && #[trigger] mid.steps_to(access, &end_a);
        let mid_b = choose|mid: KarlinInstance|
            reaches(b, trace, 0, m, mid) && #[trigger] mid.steps_to(access, &end_b);
        lemma_history_grows(a, trace, m, mid_a);
        lemma_history_grows(b, trace, m, mid_b);
        let skip_a = a.history().len() as int;
        let skip_b = b.history().len() as int;
        let made_a = end_a.history().skip(skip_a);
        let made_b = end_b.history().skip(skip_b);
        let earlier_a = mid_a.history().skip(skip_a);
        let earlier_b = mid_b.history().skip(skip_b);
        assert forall|i: int| 0 <= i < earlier_a.len() && 0 <= i < earlier_b.len() implies earlier_a[i].value
            == earlier_b[i].value by {
            assert(earlier_a[i] == made_a[i]);
            assert(earlier_b[i] == made_b[i]);
        }
        lemma_equal_draws_equal_runs(a, b, trace, m, mid_a, mid_b);
        assert(earlier_a.len() == earlier_b.len());
        if access {
            let new_a = end_a.history().skip(mid_a.history().len() as int);
            let new_b = end_b.history().skip(mid_b.history().len() as int);
            assert forall|i: int| 0 <= i < new_a.len() && 0 <= i < new_b.len() implies new_a[i].value
                == new_b[i].value by {
                assert(new_a[i] == made_a[earlier_a.len() + i]);
                assert(new_b[i] == made_b[earlier_b.len() + i]);
            }
            lemma_sampling_twice_determined(
                mid_a.discard_density(),
                mid_a.compress_density(),
                new_a,
                end_a.wait_discard() as u64,
                end_a.wait_compress() as u64,
                new_b,
                end_b.wait_discard() as u64,
                end_b.wait_compress() as u64,
            );
            assert(made_a =~= earlier_a + new_a);
            assert(made_b =~= earlier_b + new_b);
        } else {
            assert(made_a =~= earlier_a);
            assert(made_b =~= earlier_b);
        }
    } else {
        assert(end_a.history().skip(a.history().len() as int) =~= end_b.history().skip(
            b.history().len() as int,
        ));
    }
}

/// The offline instance after `n` ticks along `trace`.
pub open spec fn offline_run(costs: Costs, trace: Seq<u64>, n: nat) -> OfflineState
    decreases n,
{
    if n == 0 {
        OfflineState::fresh(costs, trace)
    } else {
        offline_run(costs, trace, (n - 1) as nat).tick(accessed(trace, n))
    }
}

/// What the offline instance has paid after `n` ticks along `trace`.
pub open spec fn offline_cost(costs: Costs, trace: Seq<u64>, n: nat) -> nat {
    offline_run(costs, trace, n).accrued
}

/// A fresh offline instance that takes `n` ticks along its own trace arrives
/// at `offline_run`.
pub proof fn lemma_offline_reaches(start: OfflineInstance, n: nat, end: OfflineInstance)
    requires
        start@ == OfflineState::fresh(start@.costs, start@.trace),
        reaches(start, start@.trace, 0, n, end),
    ensures
        end@ == offline_run(start@.costs, start@.trace, n),
    decreases n,
{
    if n > 0 {
        let mid = choose|mid: OfflineInstance|
            reaches(start, start@.trace, 0, (n - 1) as nat, mid) && #[trigger] mid.steps_to(
                accessed(start@.trace, 0 + n),
                &end,
            );
        lemma_offline_reaches(start, (n - 1) as nat, mid);
    }
}

/// Runs the offline instance and the given online instance over the same
/// trace for `num_ticks` ticks each, and returns what each has paid, in units
/// of `1 / COST_UNIT`.
///
/// Costs that break a constraint are refused with the error of
/// `Costs::validate`. Otherwise the offline cost is that of a fresh offline
/// instance, the online cost is that of a state which `instance` reaches in
/// `num_ticks` steps, and the function fails only if the online instance fails
/// on some tick of its run.
pub fn calculate_competitive_ratio<T: Algorithm>(
    instance: T,
    costs: Costs,
    access_list: Vec<u64>,
    num_ticks: u64,
) -> (r: Result<CompetitiveRatio, Error>)
    requires
        instance.inv(),
        instance.clock() + num_ticks <= u64::MAX,
        instance.accrued() + num_ticks * instance.max_charge() <= u64::MAX,
        num_ticks * costs.max_charge() <= u64::MAX,
    ensures
        r matches Ok(ratio) ==> {
            &&& costs.valid()
            &&& ratio.offline_cost == offline_cost(costs, access_list@, num_ticks as nat)
            &&& exists|end: T| #[trigger]
                reaches(instance, access_list@, 0, num_ticks as nat, end) && ratio.online_cost
                    == end.accrued()
        },
        !costs.valid() ==> r is Err,
        r matches Err(e) ==> e == (if costs.compressed_time_cost >= costs.keep_time_cost {
            Error::CompressedNotCheaper
        } else if costs.recover_from_compressed_cost >= costs.recover_from_discard_cost {
            Error::RecoveryNotCheaper
        } else {
            Error::SamplingExhausted
        }),
        r is Err && costs.valid() ==> can_break_off(instance, access_list@, 0, num_ticks as nat),
        costs.valid() && (forall|state: T, access: bool| !#[trigger] state.can_fail(access))
            ==> r is Ok,
{
    let trace = access_list.clone();
    assert(trace@ =~= access_list@);
    let offline = match OfflineInstance::new(costs, trace) {
        Ok(offline) => offline,
        Err(e) => {
            return Err(e);
        },
    };
    let ghost offline_start = offline;
    let mut sim = Simulator::new(access_list.clone(), offline);
    assert(sim.trace() =~= access_list@);
    let ran = sim.run(num_ticks);
    assert(ran is Ok);
    proof {
        lemma_offline_reaches(offline_start, num_ticks as nat, sim.instance());
    }
    let offline_cost: u64 = sim.total_accrued_cost();

    let mut sim = Simulator::new(access_list, instance);
    match sim.run(num_ticks) {
        Ok(()) => {},
        Err(e) => {
            return Err(e);
        },
    }
    let online_cost: u64 = sim.total_accrued_cost();
    Ok(CompetitiveRatio { online_cost, offline_cost })
}

} // verus!
