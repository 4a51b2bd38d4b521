//! Competitive analysis of retention policies for a cached resource.
//!
//! A policy instance is a discrete-time state machine: once per tick it is told
//! whether the resource was accessed, decides whether to keep, compress or
//! discard it, and accrues the cost of that decision. An online instance decides
//! from the past alone; the offline instance knows the whole access trace. Both
//! are driven over the same trace, and the quotient of their accrued costs is the
//! competitive ratio of the online policy.

pub mod competitive;
pub mod error;
pub mod karlin;
pub mod random;
pub mod ratio;
pub mod three_tier;
pub mod trace;
pub mod two_tier;
pub mod util;

use vstd::prelude::*;

use crate::error::Error;
use crate::trace::{accessed, contains};

verus! {

/// What an instance currently does with the resource.
#[derive(Debug, Clone, Copy, PartialEq, Eq, Structural)]
pub enum Policy {
    /// Held ready, at the keep cost per tick.
    Keep,
    /// Dropped: free to hold, recovered at a price on the next access.
    Discard,
    /// Held compressed: cheaper per tick than keeping, cheaper to recover than
    /// after a discard.
    Compress,
}

/// A policy instance: a state machine that takes one step per tick and accrues
/// cost.
///
/// The spec functions are the instance's model. `steps_to` is the transition
/// relation; it is a relation, not a function, because a randomized instance
/// draws part of its next state.
pub trait Algorithm: Sized {
    /// The instance's internal invariant.
    spec fn inv(&self) -> bool;

    /// Ticks taken so far.
    spec fn clock(&self) -> nat;

    /// Cost accrued so far, in the units of the instance's cost configuration.
    spec fn accrued(&self) -> nat;

    /// An upper bound on what one tick can add to the accrued cost.
    spec fn max_charge(&self) -> nat;

    /// Whether one tick with the given access flag can lead from `self` to
    /// `next`.
    spec fn steps_to(&self, access: bool, next: &Self) -> bool;

    /// Whether a tick with the given access flag can fail.
    spec fn can_fail(&self, access: bool) -> bool;

    /// Advances the instance by one tick. `access` says whether the resource
    /// is accessed at that tick.
    ///
    /// The accrued cost never decreases, and grows by at most `max_charge`.
    /// A tick that fails leaves clock and cost as they were.
    fn tick(&mut self, access: bool) -> (r: Result<(), Error>)
        requires
            old(self).inv(),
            old(self).clock() < u64::MAX,
            old(self).accrued() + old(self).max_charge() <= u64::MAX,
        ensures
            final(self).inv(),
            final(self).max_charge() == old(self).max_charge(),
            r is Ok ==> {
                &&& old(self).steps_to(access, final(self))
                &&& final(self).clock() == old(self).clock() + 1
                &&& old(self).accrued() <= final(self).accrued()
                &&& final(self).accrued() <= old(self).accrued() + old(self).max_charge()
            },
            r is Err ==> {
                &&& old(self).can_fail(access)
                &&& r == Err::<(), Error>(Error::SamplingExhausted)
                &&& final(self).clock() == old(self).clock()
                &&& final(self).accrued() == old(self).accrued()
            },
    ;

    /// The cost accrued so far.
    fn total_accrued_cost(&self) -> (cost: u64)
        ensures
            cost == self.accrued(),
    ;
}

/// Whether `end` can be reached from `start` in `n` ticks that follow tick
/// `t0`, when the tick numbered `t` carries an access exactly if `t` occurs in
/// `trace`.
pub open spec fn reaches<T: Algorithm>(
    start: T,
    trace: Seq<u64>,
    t0: nat,
    n: nat,
    end: T,
) -> bool
    decreases n,
{
    if n == 0 {
        end == start
    } else {
        exists|mid: T|
            reaches(start, trace, t0, (n - 1) as nat, mid) && #[trigger] mid.steps_to(
                accessed(trace, t0 + n),
                &end,
            )
    }
}

/// Whether a run of `n` ticks from `start` after tick `t0` along `trace` can
/// break off: some state on the way can fail on the tick that follows it.
pub open spec fn can_break_off<T: Algorithm>(start: T, trace: Seq<u64>, t0: nat, n: nat) -> bool {
    exists|m: nat, mid: T|
        m < n && #[trigger] reaches(start, trace, t0, m, mid) && mid.can_fail(
            accessed(trace, t0 + m + 1),
        )
}

/// Drives one instance along an access trace, one tick at a time.
#[derive(Debug)]
pub struct Simulator<T: Algorithm> {
    t: u64,
    access: Vec<u64>,
    node: T,
}

impl<T: Algorithm> Simulator<T> {
    /// Ticks simulated so far.
    pub closed spec fn clock(&self) -> nat {
        self.t as nat
    }

    /// The ticks at which the resource is accessed.
    pub closed spec fn trace(&self) -> Seq<u64> {
        self.access@
    }

    /// The instance being driven.
    pub closed spec fn instance(&self) -> T {
        self.node
    }

    /// A simulator at tick zero that will drive `node` along `access`.
    pub fn new(access: Vec<u64>, node: T) -> (sim: Self)
        ensures
            sim.clock() == 0,
            sim.trace() == access@,
            sim.instance() == node,
    {
        Self { t: 0, access, node }
    }

    /// Advances the clock by one and hands the instance that tick, with an
    /// access exactly if the new tick number occurs in the trace.
    ///
    /// If the instance fails, the simulator's clock stays where it was.
    pub fn tick(&mut self) -> (r: Result<(), Error>)
        requires
            old(self).clock() < u64::MAX,
            old(self).instance().inv(),
            old(self).instance().clock() < u64::MAX,
            old(self).instance().accrued() + old(self).instance().max_charge() <= u64::MAX,
        ensures
            final(self).trace() == old(self).trace(),
            final(self).instance().inv(),
            final(self).instance().max_charge() == old(self).instance().max_charge(),
            r is Ok ==> {
                &&& final(self).clock() == old(self).clock() + 1
                &&& old(self).instance().steps_to(
                    accessed(old(self).trace(), old(self).clock() + 1),
                    &final(self).instance(),
                )
                &&& final(self).instance().clock() == old(self).instance().clock() + 1
                &&& old(self).instance().accrued() <= final(self).instance().accrued()
                &&& final(self).instance().accrued() <= old(self).instance().accrued() + old(
                    self,
                ).instance().max_charge()
            },
            r is Err ==> {
                &&& r == Err::<(), Error>(Error::SamplingExhausted)
                &&& old(self).instance().can_fail(
                    accessed(old(self).trace(), old(self).clock() + 1),
                )
                &&& final(self).clock() == old(self).clock()
                &&& final(self).instance().clock() == old(self).instance().clock()
                &&& final(self).instance().accrued() == old(self).instance().accrued()
            },
    {
        let now: u64 = self.t + 1;
        let should_access = contains(&self.access, now);
        let r = self.node.tick(should_access);
        if r.is_ok() {
            self.t = now;
        }
        r
    }

    /// Takes `num_ticks` ticks, or as many as succeed.
    ///
    /// On success the instance has gone through `num_ticks` states, each a
    /// step from the one before. The run breaks off at the first tick on which
    /// the instance fails: after some `m` ticks that succeeded, in a state that
    /// can fail on the tick that follows. Clock and cost then stand where that
    /// tick found them.
    pub fn run(&mut self, num_ticks: u64) -> (r: Result<(), Error>)
        requires
            old(self).clock() + num_ticks <= u64::MAX,
            old(self).instance().inv(),
            old(self).instance().clock() + num_ticks <= u64::MAX,
            old(self).instance().accrued() + num_ticks * old(self).instance().max_charge()
                <= u64::MAX,
        ensures
            final(self).trace() == old(self).trace(),
            final(self).instance().inv(),
            final(self).instance().max_charge() == old(self).instance().max_charge(),
            old(self).instance().accrued() <= final(self).instance().accrued(),
            final(self).instance().accrued() <= old(self).instance().accrued() + num_ticks * old(
                self,
            ).instance().max_charge(),
            r is Ok ==> {
                &&& final(self).clock() == old(self).clock() + num_ticks
                &&& final(self).instance().clock() == old(self).instance().clock() + num_ticks
                &&& reaches(
                    old(self).instance(),
                    old(self).trace(),
                    old(self).clock(),
                    num_ticks as nat,
                    final(self).instance(),
                )
            },
            r is Err ==> {
                &&& r == Err::<(), Error>(Error::SamplingExhausted)
                &&& exists|m: nat, mid: T|
                    {
                        &&& m < num_ticks
                        &&& #[trigger] reaches(
                            old(self).instance(),
                            old(self).trace(),
                            old(self).clock(),
                            m,
                            mid,
                        )
                        &&& mid.can_fail(accessed(old(self).trace(), old(self).clock() + m + 1))
                        &&& final(self).clock() == old(self).clock() + m
                        &&& final(self).instance().clock() == mid.clock()
                        &&& final(self).instance().accrued() == mid.accrued()
                    }
            },
            (forall|state: T, access: bool| !#[trigger] state.can_fail(access)) ==> r is Ok,
    {
        let ghost charge = self.instance().max_charge();
        let mut done: u64 = 0;
        while done < num_ticks
            invariant
                done <= num_ticks,
                self.trace() == old(self).trace(),
                self.clock() == old(self).clock() + done,
                old(self).clock() + num_ticks <= u64::MAX,
                self.instance().inv(),
                self.instance().max_charge() == charge,
                charge == old(self).instance().max_charge(),
                self.instance().clock() == old(self).instance().clock() + done,
                old(self).instance().clock() + num_ticks <= u64::MAX,
                old(self).instance().accrued() <= self.instance().accrued(),
                self.instance().accrued() <= old(self).instance().accrued() + done * charge,
                old(self).instance().accrued() + num_ticks * charge <= u64::MAX,
                reaches(
                    old(self).instance(),
                    old(self).trace(),
                    old(self).clock(),
                    done as nat,
                    self.instance(),
                ),
            decreases num_ticks - done,
        {
            let ghost before = self.instance();
            proof {
                lemma_charges_fit(done as nat, num_ticks as nat, charge);
            }
            let r = self.tick();
            if r.is_err() {
                assert(reaches(
                    old(self).instance(),
                    old(self).trace(),
                    old(self).clock(),
                    done as nat,
                    before,
                ));
                return r;
            }
            assert(before.steps_to(
                accessed(old(self).trace(), old(self).clock() + done as nat + 1),
                &self.instance(),
            ));
            done += 1;
        }
        Ok(())
    }

    /// The instance being driven.
    pub fn node(&self) -> (node: &T)
        ensures
            *node == self.instance(),
    {
        &self.node
    }

    /// The cost the driven instance has accrued so far.
    pub fn total_accrued_cost(&self) -> (cost: u64)
        ensures
            cost == self.instance().accrued(),
    {
        self.node.total_accrued_cost()
    }
}

/// With room for `n` charges, there is room for one more after `i < n` of them.
proof fn lemma_charges_fit(i: nat, n: nat, charge: nat)
    requires
        i < n,
    ensures
        (i + 1) * charge <= n * charge,
        (i + 1) * charge == i * charge + charge,
        i * charge <= n * charge,
{
    assert((i + 1) * charge <= n * charge) by (nonlinear_arith)
        requires
            i + 1 <= n,
    ;
    assert((i + 1) * charge == i * charge + charge) by (nonlinear_arith);
    assert(i * charge <= n * charge) by (nonlinear_arith)
        requires
            i <= n,
    ;
}

} // verus!
