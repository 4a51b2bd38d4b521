//! The two-tier model: the resource is either kept, at a cost per tick, or
//! discarded, and then recovered at a price when it is next accessed.

use vstd::prelude::*;

use crate::error::Error;
use crate::karlin::{
    can_reject, lemma_sampling_determined, same_numbers, sample, sampled, Density,
};
use crate::random::{Draw, RandomSource};
use crate::ratio::CompetitiveRatio;
use crate::trace::accessed;
use crate::{can_break_off, reaches, Algorithm, Policy, Simulator};

verus! {

/// The larger of two numbers.
pub open spec fn larger(a: nat, b: nat) -> nat {
    if a >= b {
        a
    } else {
        b
    }
}

/// Ticks left from `now` until `next`; zero if `next` is already past.
pub open spec fn time_until(next: nat, now: nat) -> nat {
    if next >= now {
        (next - now) as nat
    } else {
        0
    }
}

/// Model of the offline instance: it reads the trace ahead of the clock
/// through a cursor that stands at the next access not yet served.
pub struct OfflineState {
    pub keep_cost: nat,
    pub recover_cost: nat,
    pub trace: Seq<u64>,
    pub clock: nat,
    pub cursor: nat,
    pub policy: Policy,
    pub accrued: nat,
}

impl OfflineState {
    /// The state before the first tick: clock zero, keeping, nothing accrued.
    pub open spec fn fresh(keep_cost: nat, recover_cost: nat, trace: Seq<u64>) -> Self {
        OfflineState {
            keep_cost,
            recover_cost,
            trace,
            clock: 0,
            cursor: 0,
            policy: Policy::Keep,
            accrued: 0,
        }
    }

    /// The policy for the tick that is about to be charged. While keeping, the
    /// instance discards as soon as the next access is at least `recover_cost`
    /// ticks away; with no access left to look at, it goes on as it is.
    pub open spec fn decided(self) -> Policy {
        if self.policy == Policy::Keep && self.cursor < self.trace.len() && time_until(
            self.trace[self.cursor as int] as nat,
            self.clock + 1,
        ) >= self.recover_cost {
            Policy::Discard
        } else {
            self.policy
        }
    }

    /// One tick. The decision comes first, so the tick on which the instance
    /// discards is not charged. A tick without access is charged the keep cost
    /// while keeping. A tick with access moves the cursor on and, if the
    /// resource was discarded, charges the recovery and returns to keeping.
    pub open spec fn tick(self, access: bool) -> Self {
        let decided = self.decided();
        if !access {
            OfflineState {
                clock: self.clock + 1,
                policy: decided,
                accrued: self.accrued + if decided == Policy::Keep {
                    self.keep_cost
                } else {
                    0
                },
                ..self
            }
        } else {
            OfflineState {
                clock: self.clock + 1,
                cursor: if self.cursor < self.trace.len() {
                    self.cursor + 1
                } else {
                    self.cursor
                },
                policy: if decided == Policy::Discard {
                    Policy::Keep
                } else {
                    decided
                },
                accrued: self.accrued + if decided == Policy::Discard {
                    self.recover_cost
                } else {
                    0
                },
                ..self
            }
        }
    }
}

/// The omniscient instance of the two-tier model.
#[derive(Debug)]
pub struct OfflineInstance {
    t: u64,
    access_list: Vec<u64>,
    cursor: usize,
    keep_cost: u64,
    recover_cost: u64,
    accrued_cost: u64,
    policy: Policy,
}

impl View for OfflineInstance {
    type V = OfflineState;

    closed spec fn view(&self) -> OfflineState {
        OfflineState {
            keep_cost: self.keep_cost as nat,
            recover_cost: self.recover_cost as nat,
            trace: self.access_list@,
            clock: self.t as nat,
            cursor: self.cursor as nat,
            policy: self.policy,
            accrued: self.accrued_cost as nat,
        }
    }
}

impl Clone for OfflineInstance {
    fn clone(&self) -> (copy: Self)
        ensures
            copy@ == self@,
    {
        let access_list = self.access_list.clone();
        assert(access_list@ =~= self.access_list@);
        Self {
            t: self.t,
            access_list,
            cursor: self.cursor,
            keep_cost: self.keep_cost,
            recover_cost: self.recover_cost,
            accrued_cost: self.accrued_cost,
            policy: self.policy,
        }
    }
}

impl OfflineInstance {
    /// A fresh instance that knows every access in `access_list`.
    pub fn new(keep_cost: u64, recover_cost: u64, access_list: Vec<u64>) -> (instance: Self)
        ensures
            instance.inv(),
            instance@ == OfflineState::fresh(keep_cost as nat, recover_cost as nat, access_list@),
    {
        Self {
            t: 0,
            access_list,
            cursor: 0,
            keep_cost,
            recover_cost,
            accrued_cost: 0,
            policy: Policy::Keep,
        }
    }

    /// The instance's current policy.
    pub fn policy(&self) -> (policy: Policy)
        ensures
            policy == self@.policy,
    {
        self.policy
    }
}

impl Algorithm for OfflineInstance {
    open spec fn inv(&self) -> bool {
        self@.cursor <= self@.trace.len()
    }

    open spec fn clock(&self) -> nat {
        self@.clock
    }

    open spec fn accrued(&self) -> nat {
        self@.accrued
    }

    open spec fn max_charge(&self) -> nat {
        larger(self@.keep_cost, self@.recover_cost)
    }

    open spec fn steps_to(&self, access: bool, next: &Self) -> bool {
        next@ == self@.tick(access)
    }

    open spec fn can_fail(&self, access: bool) -> bool {
        false
    }

    fn tick(&mut self, access: bool) -> (r: Result<(), Error>)
        ensures
            r is Ok,
            final(self)@ == old(self)@.tick(access),
    {
        let now: u64 = self.t + 1;
        self.t = now;
        if self.policy == Policy::Keep && self.cursor < self.access_list.len() {
            let next: u64 = self.access_list[self.cursor];
            let remaining: u64 = if next >= now {
                next - now
            } else {
                0
            };
            if remaining >= self.recover_cost {
                self.policy = Policy::Discard;
            }
        }
        if !access {
            if self.policy == Policy::Keep {
                self.accrued_cost += self.keep_cost;
            }
            return Ok(());
        }
        if self.cursor < self.access_list.len() {
            self.cursor += 1;
        }
        if self.policy == Policy::Discard {
            self.accrued_cost += self.recover_cost;
            self.policy = Policy::Keep;
        }
        Ok(())
    }

    fn total_accrued_cost(&self) -> (cost: u64) {
        self.accrued_cost
    }
}

/// Model of an online instance that discards once the resource has gone
/// unaccessed for a threshold number of ticks.
pub struct OnlineState {
    pub keep_cost: nat,
    pub recover_cost: nat,
    pub clock: nat,
    pub last_access: nat,
    pub policy: Policy,
    pub accrued: nat,
}

impl OnlineState {
    /// The state before the first tick: clock zero, keeping, nothing accrued.
    pub open spec fn fresh(keep_cost: nat, recover_cost: nat) -> Self {
        OnlineState {
            keep_cost,
            recover_cost,
            clock: 0,
            last_access: 0,
            policy: Policy::Keep,
            accrued: 0,
        }
    }

    /// The policy for the tick that is about to be charged: while keeping, the
    /// instance discards once `threshold` ticks have passed since the last
    /// access.
    pub open spec fn decided(self, threshold: nat) -> Policy {
        if self.policy == Policy::Keep && self.clock + 1 - self.last_access >= threshold {
            Policy::Discard
        } else {
            self.policy
        }
    }

    /// One tick under the given threshold. A tick without access is charged
    /// the keep cost while keeping. A tick with access is remembered as the
    /// last access and, if the resource was discarded, charges the recovery and
    /// returns to keeping.
    pub open spec fn tick(self, threshold: nat, access: bool) -> Self {
        let decided = self.decided(threshold);
        if !access {
            OnlineState {
                clock: self.clock + 1,
                policy: decided,
                accrued: self.accrued + if decided == Policy::Keep {
                    self.keep_cost
                } else {
                    0
                },
                ..self
            }
        } else {
            OnlineState {
                clock: self.clock + 1,
                last_access: self.clock + 1,
                policy: if decided == Policy::Discard {
                    Policy::Keep
                } else {
                    decided
                },
                accrued: self.accrued + if decided == Policy::Discard {
                    self.recover_cost
                } else {
                    0
                },
                ..self
            }
        }
    }
}

/// The deterministic online instance: it discards once the resource has gone
/// unaccessed for as many ticks as a recovery costs.
#[derive(Debug)]
pub struct NaiveInstance {
    t: u64,
    keep_cost: u64,
    recover_cost: u64,
    policy: Policy,
    accrued_cost: u64,
    last_access: u64,
}

impl View for NaiveInstance {
    type V = OnlineState;

    closed spec fn view(&self) -> OnlineState {
        OnlineState {
            keep_cost: self.keep_cost as nat,
            recover_cost: self.recover_cost as nat,
            clock: self.t as nat,
            last_access: self.last_access as nat,
            policy: self.policy,
            accrued: self.accrued_cost as nat,
        }
    }
}

impl Clone for NaiveInstance {
    fn clone(&self) -> (copy: Self)
        ensures
            copy@ == self@,
    {
        Self {
            t: self.t,
            keep_cost: self.keep_cost,
            recover_cost: self.recover_cost,
            policy: self.policy,
            accrued_cost: self.accrued_cost,
            last_access: self.last_access,
        }
    }
}

impl NaiveInstance {
    /// A fresh instance.
    pub fn new(keep_cost: u64, recover_cost: u64) -> (instance: Self)
        ensures
            instance.inv(),
            instance@ == OnlineState::fresh(keep_cost as nat, recover_cost as nat),
    {
        Self {
            t: 0,
            last_access: 0,
            keep_cost,
            recover_cost,
            policy: Policy::Keep,
            accrued_cost: 0,
        }
    }

    /// The instance's current policy.
    pub fn policy(&self) -> (policy: Policy)
        ensures
            policy == self@.policy,
    {
        self.policy
    }
}

impl Algorithm for NaiveInstance {
    open spec fn inv(&self) -> bool {
        self@.last_access <= self@.clock
    }

    open spec fn clock(&self) -> nat {
        self@.clock
    }

    open spec fn accrued(&self) -> nat {
        self@.accrued
    }

    open spec fn max_charge(&self) -> nat {
        larger(self@.keep_cost, self@.recover_cost)
    }

    open spec fn steps_to(&self, access: bool, next: &Self) -> bool {
        next@ == self@.tick(self@.recover_cost, access)
    }

    open spec fn can_fail(&self, access: bool) -> bool {
        false
    }

    fn tick(&mut self, access: bool) -> (r: Result<(), Error>)
        ensures
            r is Ok,
            final(self)@ == old(self)@.tick(old(self)@.recover_cost, access),
    {
        self.t += 1;
        let should_discard = (self.t - self.last_access) >= self.recover_cost;
        if self.policy == Policy::Keep && should_discard {
            self.policy = Policy::Discard;
        }
        if !access {
            if self.policy == Policy::Keep {
                self.accrued_cost += self.keep_cost;
            }
            return Ok(());
        }
        self.last_access = self.t;
        if self.policy == Policy::Discard {
            self.accrued_cost += self.recover_cost;
            self.policy = Policy::Keep;
        }
        Ok(())
    }

    fn total_accrued_cost(&self) -> (cost: u64) {
        self.accrued_cost
    }
}

/// The randomized online instance: it discards once the resource has gone
/// unaccessed for a threshold number of ticks, and draws a new threshold, at
/// most the recovery cost, after every access.
pub struct KarlinInstance {
    t: u64,
    keep_cost: u64,
    recover_cost: u64,
    policy: Policy,
    accrued_cost: u64,
    last_access: u64,
    t_to_wait_before_discard: u64,
    density: Density,
    source: RandomSource,
}

impl View for KarlinInstance {
    type V = OnlineState;

    closed spec fn view(&self) -> OnlineState {
        OnlineState {
            keep_cost: self.keep_cost as nat,
            recover_cost: self.recover_cost as nat,
            clock: self.t as nat,
            last_access: self.last_access as nat,
            policy: self.policy,
            accrued: self.accrued_cost as nat,
        }
    }
}

impl KarlinInstance {
    /// The threshold in force: how long the instance waits after an access
    /// before it discards.
    pub closed spec fn threshold(&self) -> nat {
        self.t_to_wait_before_discard as nat
    }

    /// The weights of the density that thresholds are drawn from.
    pub closed spec fn density(&self) -> Seq<u64> {
        self.density@
    }

    /// The draws made from the instance's random source so far, those made
    /// before the instance took it over included.
    pub closed spec fn history(&self) -> Seq<Draw> {
        self.source.history()
    }

    /// A fresh instance that draws its thresholds from `density`, with the
    /// randomness of `source`. The first threshold is drawn here, by `sample`.
    ///
    /// `density` must cover the waiting times up to `recover_cost`, or the
    /// instance is refused with `Error::DensityDomain`; since no density ends
    /// at zero, a recovery cost of zero is always refused. If the first
    /// threshold cannot be drawn, the error is `Error::SamplingExhausted`.
    pub fn new(keep_cost: u64, recover_cost: u64, density: Density, source: RandomSource) -> (r:
        Result<Self, Error>)
        ensures
            density@.len() - 1 != recover_cost <==> r == Err::<Self, Error>(Error::DensityDomain),
            recover_cost == 0 ==> r == Err::<Self, Error>(Error::DensityDomain),
            r matches Ok(instance) ==> {
                &&& instance.inv()
                &&& instance@ == OnlineState::fresh(keep_cost as nat, recover_cost as nat)
                &&& instance.density() == density@
                &&& source.history().is_prefix_of(instance.history())
                &&& sampled(
                    density@,
                    instance.history().skip(source.history().len() as int),
                    Ok(instance.threshold() as u64),
                )
            },
            r matches Err(e) ==> e == Error::DensityDomain || (e == Error::SamplingExhausted
                && can_reject(density@)),
    {
        if density.cost() != recover_cost {
            return Err(Error::DensityDomain);
        }
        let mut source = source;
        let waiting: u64 = match sample(&density, &mut source) {
            Ok(waiting) => waiting,
            Err(e) => {
                return Err(e);
            },
        };
        Ok(
            Self {
                t: 0,
                last_access: 0,
                keep_cost,
                recover_cost,
                policy: Policy::Keep,
                accrued_cost: 0,
                t_to_wait_before_discard: waiting,
                density,
                source,
            },
        )
    }

    /// The instance's current policy.
    pub fn policy(&self) -> (policy: Policy)
        ensures
            policy == self@.policy,
    {
        self.policy
    }

    /// The threshold in force.
    pub fn wait_before_discard(&self) -> (waiting: u64)
        ensures
            waiting == self.threshold(),
    {
        self.t_to_wait_before_discard
    }
}

impl Algorithm for KarlinInstance {
    open spec fn inv(&self) -> bool {
        &&& self@.last_access <= self@.clock
        &&& self.threshold() <= self@.recover_cost
        &&& self.density().len() == self@.recover_cost + 1
    }

    open spec fn clock(&self) -> nat {
        self@.clock
    }

    open spec fn accrued(&self) -> nat {
        self@.accrued
    }

    open spec fn max_charge(&self) -> nat {
        larger(self@.keep_cost, self@.recover_cost)
    }

    /// The step of the threshold policy under the threshold in force. A tick
    /// without access draws nothing and leaves the threshold as it is. A tick
    /// with access samples once, and the waiting time sampled is the threshold
    /// from then on.
    open spec fn steps_to(&self, access: bool, next: &Self) -> bool {
        &&& next@ == self@.tick(self.threshold(), access)
        &&& next.density() == self.density()
        &&& next.threshold() <= next@.recover_cost
        &&& self.history().is_prefix_of(next.history())
        &&& if access {
            sampled(
                self.density(),
                next.history().skip(self.history().len() as int),
                Ok(next.threshold() as u64),
            )
        } else {
            next.threshold() == self.threshold() && next.history() == self.history()
        }
    }

    /// Only a tick with access draws a threshold, and only a density that can
    /// reject a candidate can exhaust the draw.
    open spec fn can_fail(&self, access: bool) -> bool {
        access && can_reject(self.density())
    }

    fn tick(&mut self, access: bool) -> (r: Result<(), Error>)
        ensures
            !access ==> r is Ok,
            r is Err ==> {
                &&& final(self)@ == old(self)@
                &&& final(self).threshold() == old(self).threshold()
                &&& final(self).density() == old(self).density()
                &&& old(self).history().is_prefix_of(final(self).history())
                &&& sampled(
                    old(self).density(),
                    final(self).history().skip(old(self).history().len() as int),
                    Err(Error::SamplingExhausted),
                )
            },
    {
        let mut waiting: u64 = self.t_to_wait_before_discard;
        if access {
            match sample(&self.density, &mut self.source) {
                Ok(drawn) => {
                    waiting = drawn;
                },
                Err(e) => {
                    return Err(e);
                },
            }
        }
        self.t += 1;
        let time_elapsed: u64 = self.t - self.last_access;
        let should_discard = time_elapsed >= self.t_to_wait_before_discard;
        if self.policy == Policy::Keep && should_discard {
            self.policy = Policy::Discard;
        }
        if !access {
            if self.policy == Policy::Keep {
                self.accrued_cost += self.keep_cost;
            }
            return Ok(());
        }
        self.t_to_wait_before_discard = waiting;
        self.last_access = self.t;
        if self.policy == Policy::Discard {
            self.accrued_cost += self.recover_cost;
            self.policy = Policy::Keep;
        }
        Ok(())
    }

    fn total_accrued_cost(&self) -> (cost: u64) {
        self.accrued_cost
    }
}

/// The offline instance after `n` ticks along `trace`.
pub open spec fn offline_run(keep_cost: nat, recover_cost: nat, trace: Seq<u64>, n: nat) -> OfflineState
    decreases n,
{
    if n == 0 {
        OfflineState::fresh(keep_cost, recover_cost, trace)
    } else {
        offline_run(keep_cost, recover_cost, trace, (n - 1) as nat).tick(accessed(trace, n))
    }
}

/// What the offline instance has paid after `n` ticks along `trace`.
pub open spec fn offline_cost(keep_cost: nat, recover_cost: nat, trace: Seq<u64>, n: nat) -> nat {
    offline_run(keep_cost, recover_cost, trace, n).accrued
}

/// The deterministic online instance after `n` ticks along `trace`.
pub open spec fn naive_run(keep_cost: nat, recover_cost: nat, trace: Seq<u64>, n: nat) -> OnlineState
    decreases n,
{
    if n == 0 {
        OnlineState::fresh(keep_cost, recover_cost)
    } else {
        naive_run(keep_cost, recover_cost, trace, (n - 1) as nat).tick(
            recover_cost,
            accessed(trace, n),
        )
    }
}

/// What the deterministic online instance has paid after `n` ticks along
/// `trace`.
pub open spec fn naive_cost(keep_cost: nat, recover_cost: nat, trace: Seq<u64>, n: nat) -> nat {
    naive_run(keep_cost, recover_cost, trace, n).accrued
}

/// The number of ticks up to tick `n` that carry an access.
pub open spec fn access_count(trace: Seq<u64>, n: nat) -> nat
    decreases n,
{
    if n == 0 {
        0
    } else {
        access_count(trace, (n - 1) as nat) + (if accessed(trace, n) {
            1nat
        } else {
            0nat
        })
    }
}

/// The randomized online instance after `n` ticks along `trace`, given the
/// thresholds it drew: `thresholds[i]` is the threshold in force after `i`
/// accesses.
pub open spec fn randomized_run(
    keep_cost: nat,
    recover_cost: nat,
    trace: Seq<u64>,
    thresholds: Seq<nat>,
    n: nat,
) -> OnlineState
    decreases n,
{
    if n == 0 {
        OnlineState::fresh(keep_cost, recover_cost)
    } else {
        randomized_run(keep_cost, recover_cost, trace, thresholds, (n - 1) as nat).tick(
            thresholds[access_count(trace, (n - 1) as nat) as int],
            accessed(trace, n),
        )
    }
}

/// What the randomized online instance has paid after `n` ticks along
/// `trace`, given the thresholds it drew.
pub open spec fn randomized_cost(
    keep_cost: nat,
    recover_cost: nat,
    trace: Seq<u64>,
    thresholds: Seq<nat>,
    n: nat,
) -> nat {
    randomized_run(keep_cost, recover_cost, trace, thresholds, n).accrued
}

/// The number of accesses does not shrink as the clock goes on.
proof fn lemma_access_count_grows(trace: Seq<u64>, m: nat, n: nat)
    requires
        m <= n,
    ensures
        access_count(trace, m) <= access_count(trace, n),
    decreases n,
{
    if m < n {
        lemma_access_count_grows(trace, m, (n - 1) as nat);
    }
}

/// A run of `n` ticks reads only the thresholds in force before its last
/// tick.
proof fn lemma_run_reads_thresholds_in_force(
    keep_cost: nat,
    recover_cost: nat,
    trace: Seq<u64>,
    a: Seq<nat>,
    b: Seq<nat>,
    n: nat,
)
    requires
        n > 0 ==> forall|i: int| 0 <= i <= access_count(trace, (n - 1) as nat) ==> a[i] == b[i],
    ensures
        randomized_run(keep_cost, recover_cost, trace, a, n) == randomized_run(
            keep_cost,
            recover_cost,
            trace,
            b,
            n,
        ),
    decreases n,
{
    if n > 0 {
        let m = (n - 1) as nat;
        if m > 0 {
            lemma_access_count_grows(trace, (m - 1) as nat, m);
        }
        lemma_run_reads_thresholds_in_force(keep_cost, recover_cost, trace, a, b, m);
    }
}

/// The state of a randomized instance is determined by the thresholds it
/// drew: whatever a fresh instance reaches in `n` ticks along `trace` is the
/// `randomized_run` for some thresholds, one for the start and one for each
/// access, none above the recovery cost. The lemma hands back those thresholds.
pub proof fn lemma_randomized_reaches(
    start: KarlinInstance,
    trace: Seq<u64>,
    n: nat,
    end: KarlinInstance,
) -> (thresholds: Seq<nat>)
    requires
        start@ == OnlineState::fresh(start@.keep_cost, start@.recover_cost),
        start.threshold() <= start@.recover_cost,
        reaches(start, trace, 0, n, end),
    ensures
        thresholds.len() == access_count(trace, n) + 1,
        thresholds[0] == start.threshold(),
        thresholds.last() == end.threshold(),
        forall|i: int| 0 <= i < thresholds.len() ==> thresholds[i] <= start@.recover_cost,
        end@ == randomized_run(start@.keep_cost, start@.recover_cost, trace, thresholds, n),
        end@.keep_cost == start@.keep_cost,
        end@.recover_cost == start@.recover_cost,
    decreases n,
{
    if n == 0 {
        seq![start.threshold()]
    } else {
        let m = (n - 1) as nat;
        let mid = choose|mid: KarlinInstance|
            reaches(start, trace, 0, m, mid) && #[trigger] mid.steps_to(
                accessed(trace, 0 + n),
                &end,
            );
        let before = lemma_randomized_reaches(start, trace, m, mid);
        let thresholds = if accessed(trace, n) {
            before.push(end.threshold())
        } else {
            before
        };
        if m > 0 {
            lemma_access_count_grows(trace, (m - 1) as nat, m);
        }
        lemma_run_reads_thresholds_in_force(
            start@.keep_cost,
            start@.recover_cost,
            trace,
            before,
            thresholds,
            m,
        );
        assert(thresholds[access_count(trace, m) as int] == mid.threshold());
        thresholds
    }
}

/// The record of draws of a randomized instance only grows.
pub proof fn lemma_history_grows(
    start: KarlinInstance,
    trace: Seq<u64>,
    n: nat,
    end: KarlinInstance,
)
    requires
        reaches(start, trace, 0, n, end),
    ensures
        start.history().is_prefix_of(end.history()),
    decreases n,
{
    if n > 0 {
        let mid = choose|mid: KarlinInstance|
            reaches(start, trace, 0, (n - 1) as nat, mid) && #[trigger] mid.steps_to(
                accessed(trace, 0 + n),
                &end,
            );
        lemma_history_grows(start, trace, (n - 1) as nat, mid);
    }
}

/// A randomized run is determined by the numbers drawn: two instances in the
/// same state, with the same threshold and density, that take `n` ticks along
/// the same trace and to which the same numbers come, make the same draws,
/// sample the same thresholds and arrive at the same state.
pub proof fn lemma_equal_draws_equal_runs(
    a: KarlinInstance,
    b: KarlinInstance,
    trace: Seq<u64>,
    n: nat,
    end_a: KarlinInstance,
    end_b: KarlinInstance,
)
    requires
        a@ == b@,
        a.threshold() == b.threshold(),
        a.density() == b.density(),
        reaches(a, trace, 0, n, end_a),
        reaches(b, trace, 0, n, end_b),
        same_numbers(
            end_a.history().skip(a.history().len() as int),
            end_b.history().skip(b.history().len() as int),
        ),
    ensures
        end_a@ == end_b@,
        end_a.threshold() == end_b.threshold(),
        end_a.density() == end_b.density(),
        end_a.history().skip(a.history().len() as int) == end_b.history().skip(
            b.history().len() as int,
        ),
    decreases n,
{
    lemma_history_grows(a, trace, n, end_a);
    lemma_history_grows(b, trace, n, end_b);
    if n > 0 {
        let m = (n - 1) as nat;
        let access = accessed(trace, 0 + n);
        let mid_a = choose|mid: KarlinInstance|
            reaches(a, trace, 0, m, mid) && #[trigger] mid.steps_to(access, &end_a);
        let mid_b = choose|mid: KarlinInstance|
            reaches(b, trace, 0, m, mid) && #[trigger] mid.steps_to(access, &end_b);
        lemma_history_grows(a, trace, m, mid_a);
        lemma_history_grows(b, trace, m, mid_b);
        let skip_a = a.history().len() as int;
        let skip_b = b.history().len() as int;
        let made_a = end_a.history().skip(skip_a);
        let made_b = end_b.history().skip(skip_b);
        let earlier_a = mid_a.history().skip(skip_a);
        let earlier_b = mid_b.history().skip(skip_b);
        assert forall|i: int| 0 <= i < earlier_a.len() && 0 <= i < earlier_b.len() implies earlier_a[i].value
            == earlier_b[i].value by {
            assert(earlier_a[i] == made_a[i]);
            assert(earlier_b[i] == made_b[i]);
        }
        lemma_equal_draws_equal_runs(a, b, trace, m, mid_a, mid_b);
        assert(earlier_a.len() == earlier_b.len());
        if access {
            let new_a = end_a.history().skip(mid_a.history().len() as int);
            let new_b = end_b.history().skip(mid_b.history().len() as int);
            assert forall|i: int| 0 <= i < new_a.len() && 0 <= i < new_b.len() implies new_a[i].value
                == new_b[i].value by {
                assert(new_a[i] == made_a[earlier_a.len() + i]);
                assert(new_b[i] == made_b[earlier_b.len() + i]);
            }
            lemma_sampling_determined(
                mid_a.density(),
                new_a,
                Ok(end_a.threshold() as u64),
                new_b,
                Ok(end_b.threshold() as u64),
            );
            assert(made_a =~= earlier_a + new_a);
            assert(made_b =~= earlier_b + new_b);
        } else {
            assert(made_a =~= earlier_a);
            assert(made_b =~= earlier_b);
        }
    } else {
        assert(end_a.history().skip(a.history().len() as int) =~= end_b.history().skip(
            b.history().len() as int,
        ));
    }
}

/// A fresh offline instance that takes `n` ticks along its own trace arrives
/// at `offline_run`.
pub proof fn lemma_offline_reaches(start: OfflineInstance, n: nat, end: OfflineInstance)
    requires
        start@ == OfflineState::fresh(start@.keep_cost, start@.recover_cost, start@.trace),
        reaches(start, start@.trace, 0, n, end),
    ensures
        end@ == offline_run(start@.keep_cost, start@.recover_cost, start@.trace, n),
    decreases n,
{
    if n > 0 {
        let mid = choose|mid: OfflineInstance|
            reaches(start, start@.trace, 0, (n - 1) as nat, mid) && #[trigger] mid.steps_to(
                accessed(start@.trace, 0 + n),
                &end,
            );
        lemma_offline_reaches(start, (n - 1) as nat, mid);
    }
}

/// A fresh deterministic online instance that takes `n` ticks along `trace`
/// arrives at `naive_run`.
pub proof fn lemma_naive_reaches(start: NaiveInstance, trace: Seq<u64>, n: nat, end: NaiveInstance)
    requires
        start@ == OnlineState::fresh(start@.keep_cost, start@.recover_cost),
        reaches(start, trace, 0, n, end),
    ensures
        end@ == naive_run(start@.keep_cost, start@.recover_cost, trace, n),
        end@.keep_cost == start@.keep_cost,
        end@.recover_cost == start@.recover_cost,
    decreases n,
{
    if n > 0 {
        let mid = choose|mid: NaiveInstance|
            reaches(start, trace, 0, (n - 1) as nat, mid) && #[trigger] mid.steps_to(
                accessed(trace, 0 + n),
                &end,
            );
        lemma_naive_reaches(start, trace, (n - 1) as nat, mid);
    }
}

/// Runs the offline instance and the given online instance over the same
/// trace for `num_ticks` ticks each, and returns what each has paid.
///
/// The offline cost is that of a fresh offline instance with the given costs.
/// The online cost is that of a state which `instance` reaches in `num_ticks`
/// steps. The function fails only if the online instance fails on some tick of
/// its run.
pub fn calculate_competitive_ratio<T: Algorithm>(
    instance: T,
    keep_cost: u64,
    recover_cost: u64,
    access_list: Vec<u64>,
    num_ticks: u64,
) -> (r: Result<CompetitiveRatio, Error>)
    requires
        instance.inv(),
        instance.clock() + num_ticks <= u64::MAX,
        instance.accrued() + num_ticks * instance.max_charge() <= u64::MAX,
        num_ticks * larger(keep_cost as nat, recover_cost as nat) <= u64::MAX,
    ensures
        r matches Ok(ratio) ==> {
            &&& ratio.offline_cost == offline_cost(
                keep_cost as nat,
                recover_cost as nat,
                access_list@,
                num_ticks as nat,
            )
            &&& exists|end: T| #[trigger]
                reaches(instance, access_list@, 0, num_ticks as nat, end) && ratio.online_cost
                    == end.accrued()
        },
        r matches Err(e) ==> e == Error::SamplingExhausted && can_break_off(
            instance,
            access_list@,
            0,
            num_ticks as nat,
        ),
        (forall|state: T, access: bool| !#[trigger] state.can_fail(access)) ==> r is Ok,
{
    let trace = access_list.clone();
    assert(trace@ =~= access_list@);
    let offline = OfflineInstance::new(keep_cost, recover_cost, trace);
    let ghost offline_start = offline;
    let mut sim = Simulator::new(access_list.clone(), offline);
    assert(sim.trace() =~= access_list@);
    let ran = sim.run(num_ticks);
    assert(ran is Ok);
    proof {
        lemma_offline_reaches(offline_start, num_ticks as nat, sim.instance());
    }
    let offline_cost: u64 = sim.total_accrued_cost();

    let mut sim = Simulator::new(access_list, instance);
    match sim.run(num_ticks) {
        Ok(()) => {},
        Err(e) => {
            return Err(e);
        },
    }
    let online_cost: u64 = sim.total_accrued_cost();
    Ok(CompetitiveRatio { online_cost, offline_cost })
}

} // verus!
