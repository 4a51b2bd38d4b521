//! What the two-tier policies cost relative to one another.
//!
//! The offline instance and an online instance are followed side by side along
//! a well-formed trace. At every tick the offline instance's cursor splits the
//! trace into the accesses served and those to come, and each instance's
//! policy is known from the access last served, the access to come and the
//! clock. The cost bounds are invariants of that joint run.

use vstd::prelude::*;

use crate::trace::{accessed, is_trace};
use crate::two_tier::{
    access_count, naive_cost, naive_run, offline_cost, offline_run, randomized_cost,
    randomized_run, OfflineState, OnlineState,
};
use crate::Policy;

verus! {

/// The tick of the last access of `trace`; zero for a trace without accesses.
pub open spec fn horizon(trace: Seq<u64>) -> nat {
    if trace.len() == 0 {
        0
    } else {
        trace.last() as nat
    }
}

/// The tick of the access just before position `cursor` of `trace`; zero
/// before the first.
pub open spec fn served(trace: Seq<u64>, cursor: nat) -> nat {
    if cursor == 0 {
        0
    } else {
        trace[cursor - 1] as nat
    }
}

/// The number of ticks from the access before position `i` of `trace`, or
/// from tick zero, to the access at position `i`.
pub open spec fn gap(trace: Seq<u64>, i: int) -> int {
    trace[i] - served(trace, i as nat)
}

/// The number of ticks after an access through which an online instance with
/// the given threshold keeps the resource: one less than the threshold.
pub open spec fn kept_ticks(threshold: nat) -> nat {
    if threshold >= 1 {
        (threshold - 1) as nat
    } else {
        0
    }
}

/// The number of ticks up to tick `n` that come after the last access of
/// `trace` and after an online instance with the given threshold has
/// discarded. On these ticks the offline instance, which finds no further
/// access to look at, still keeps and pays.
pub open spec fn overrun(trace: Seq<u64>, n: nat, threshold: nat) -> nat {
    if n > horizon(trace) + kept_ticks(threshold) {
        (n - horizon(trace) - kept_ticks(threshold)) as nat
    } else {
        0
    }
}

/// Whether keeping for as long as the deterministic online instance keeps
/// costs no more than one recovery. It holds for a keep cost of one.
pub open spec fn keeping_pays(keep_cost: nat, recover_cost: nat) -> bool {
    keep_cost * kept_ticks(recover_cost) <= recover_cost
}

/// What an online instance in the given state still owes: a recovery if it
/// has discarded, nothing if it keeps.
pub open spec fn owed(on: OnlineState) -> nat {
    if on.policy == Policy::Discard {
        on.recover_cost
    } else {
        0
    }
}

/// Whether the offline state `off` and the online state `on`, which discards
/// after `threshold` ticks without access, stand at the same tick of a joint
/// run along the trace of `off`.
spec fn in_step(off: OfflineState, on: OnlineState, threshold: nat) -> bool {
    let trace = off.trace;
    let next = trace[off.cursor as int];
    &&& is_trace(trace)
    &&& off.keep_cost == on.keep_cost
    &&& off.recover_cost == on.recover_cost
    &&& off.clock == on.clock
    &&& off.cursor <= trace.len()
    &&& forall|j: int| 0 <= j < off.cursor ==> #[trigger] trace[j] <= off.clock
    &&& off.cursor < trace.len() ==> next > off.clock
    &&& on.last_access == served(trace, off.cursor)
    &&& on.last_access <= on.clock
    &&& off.policy == (if on.clock > on.last_access && off.cursor < trace.len() && next
        - on.last_access - 1 >= off.recover_cost {
        Policy::Discard
    } else {
        Policy::Keep
    })
    &&& on.policy == (if on.clock > on.last_access && on.clock - on.last_access >= threshold {
        Policy::Discard
    } else {
        Policy::Keep
    })
}

/// On a well-formed trace, the tick after the clock carries an access exactly
/// if it is the tick the cursor stands at.
proof fn lemma_access_at_cursor(off: OfflineState, on: OnlineState, threshold: nat)
    requires
        in_step(off, on, threshold),
    ensures
        accessed(off.trace, off.clock + 1) <==> (off.cursor < off.trace.len()
            && off.trace[off.cursor as int] == off.clock + 1),
        off.cursor < off.trace.len() ==> off.trace[off.cursor as int] <= horizon(off.trace),
        off.cursor == off.trace.len() ==> on.last_access == horizon(off.trace),
{
    let trace = off.trace;
    if accessed(trace, off.clock + 1) {
        let i = choose|i: int| 0 <= i < trace.len() && #[trigger] trace[i] == off.clock + 1;
        if i < off.cursor {
            assert(trace[i] <= off.clock);
        } else if i > off.cursor {
            assert(trace[off.cursor as int] < trace[i]);
        }
    }
    if off.cursor < trace.len() && trace[off.cursor as int] == off.clock + 1 {
        assert(trace[off.cursor as int] == off.clock + 1);
    }
    if off.cursor + 1 < trace.len() {
        assert(trace[off.cursor as int] < trace[trace.len() - 1]);
    }
}

/// One tick of the joint run keeps the two instances in step, whatever
/// threshold the online instance adopts after an access.
proof fn lemma_step_in_step(off: OfflineState, on: OnlineState, threshold: nat, adopted: nat)
    requires
        in_step(off, on, threshold),
        !accessed(off.trace, off.clock + 1) ==> adopted == threshold,
    ensures
        in_step(
            off.tick(accessed(off.trace, off.clock + 1)),
            on.tick(threshold, accessed(off.trace, off.clock + 1)),
            adopted,
        ),
{
    lemma_access_at_cursor(off, on, threshold);
    let trace = off.trace;
    let access = accessed(trace, off.clock + 1);
    let off2 = off.tick(access);
    if access {
        assert forall|j: int| 0 <= j < off2.cursor implies #[trigger] trace[j] <= off2.clock by {
            if j < off.cursor {
                assert(trace[j] <= off.clock);
            }
        }
        if off2.cursor < trace.len() {
            assert(trace[off.cursor as int] < trace[off2.cursor as int]);
        }
    } else {
        assert forall|j: int| 0 <= j < off2.cursor implies #[trigger] trace[j] <= off2.clock by {
            assert(trace[j] <= off.clock);
        }
    }
}

proof fn lemma_scale(a: int, b: int, k: int)
    requires
        a <= b,
        0 <= k,
    ensures
        a * k <= b * k,
        (a + 1) * k == a * k + k,
        k * a == a * k,
        k * (a + 1) == k * a + k,
        0 <= a ==> 0 <= a * k,
        a == 0 ==> a * k == 0,
{
    assert(a * k <= b * k) by (nonlinear_arith)
        requires
            a <= b,
            0 <= k,
    ;
    assert((a + 1) * k == a * k + k) by (nonlinear_arith);
    assert(k * a == a * k) by (nonlinear_arith);
    assert(k * (a + 1) == k * a + k) by (nonlinear_arith);
    assert(0 <= a ==> 0 <= a * k) by (nonlinear_arith)
        requires
            0 <= k,
    ;
    assert(a == 0 ==> a * k == 0) by (nonlinear_arith);
}

/// Adding one to a factor adds the other factor to the product.
proof fn lemma_one_more(a: int, s: int)
    ensures
        s * (a + 1) == s * a + s,
        a == 0 ==> s * a == 0,
{
    assert(s * (a + 1) == s * a + s) by (nonlinear_arith);
    assert(a == 0 ==> s * a == 0) by (nonlinear_arith);
}

/// By how much keeping for as long as the deterministic online instance
/// keeps costs more than one recovery; zero where it costs no more.
pub open spec fn keeping_excess(keep_cost: nat, recover_cost: nat) -> nat {
    if keep_cost * kept_ticks(recover_cost) > recover_cost {
        (keep_cost * kept_ticks(recover_cost) - recover_cost) as nat
    } else {
        0
    }
}

/// What a schedule of waits may save on the offline instance in each gap:
/// the excess of keeping, and, where keeping is free, the recovery that the
/// offline instance pays after a long gap and a schedule that keeps is spared.
pub open spec fn schedule_allowance(keep_cost: nat, recover_cost: nat) -> nat {
    if keep_cost == 0 {
        recover_cost
    } else {
        keeping_excess(keep_cost, recover_cost)
    }
}

/// What the online instance has paid for keeping since the last access, up
/// to one recovery.
spec fn kept_so_far(on: OnlineState) -> int {
    let paid = (on.clock - on.last_access) * on.keep_cost;
    if paid < on.recover_cost {
        paid
    } else {
        on.recover_cost as int
    }
}

/// The cost invariant behind the optimality of the offline instance, with an
/// allowance of `excess` for each gap.
///
/// Where the online instance has discarded and the offline instance keeps
/// until an access to come, the offline instance will have paid, by that
/// access, no more than the online instance has paid and will then pay to
/// recover, and the allowance for the gaps so far and this one. Where the
/// offline instance has discarded and the online instance keeps, the offline
/// instance is ahead by what the online instance has paid for keeping.
/// Everywhere else the offline instance has paid no more than the online
/// instance, the overrun and the allowance for the gaps so far.
spec fn no_dearer(off: OfflineState, on: OnlineState, threshold: nat, excess: nat) -> bool {
    if off.policy == Policy::Keep && on.policy == Policy::Discard && off.cursor < off.trace.len() {
        off.accrued + (off.trace[off.cursor as int] - 1 - off.clock) * off.keep_cost <= on.accrued
            + on.recover_cost + excess * (off.cursor + 1)
    } else if off.policy == Policy::Discard && on.policy == Policy::Keep {
        off.accrued + kept_so_far(on) <= on.accrued + excess * off.cursor
    } else {
        off.accrued <= on.accrued + off.keep_cost * overrun(off.trace, off.clock, threshold)
            + excess * off.cursor
    }
}

/// Whether an allowance of `excess` for each gap covers what an online
/// instance with the given threshold may save on the offline instance. An
/// instance that waits for as long as a recovery costs saves nothing. One
/// that waits less may save the excess of keeping. One that waits longer may
/// also be spared a recovery, if it keeps for nothing.
spec fn covers(excess: nat, threshold: nat, keep_cost: nat, recover_cost: nat) -> bool {
    ||| threshold == recover_cost
    ||| {
        &&& excess >= keeping_excess(keep_cost, recover_cost)
        &&& threshold <= recover_cost || keep_cost >= 1 || excess >= recover_cost
    }
}

/// One tick of the joint run preserves `no_dearer`, given an allowance that
/// covers the online instance's threshold.
proof fn lemma_step_no_dearer(
    off: OfflineState,
    on: OnlineState,
    threshold: nat,
    adopted: nat,
    excess: nat,
)
    requires
        in_step(off, on, threshold),
        no_dearer(off, on, threshold, excess),
        !accessed(off.trace, off.clock + 1) ==> adopted == threshold,
        covers(excess, threshold, on.keep_cost, on.recover_cost),
    ensures
        in_step(
            off.tick(accessed(off.trace, off.clock + 1)),
            on.tick(threshold, accessed(off.trace, off.clock + 1)),
            adopted,
        ),
        no_dearer(
            off.tick(accessed(off.trace, off.clock + 1)),
            on.tick(threshold, accessed(off.trace, off.clock + 1)),
            adopted,
            excess,
        ),
        off.tick(accessed(off.trace, off.clock + 1)).cursor == off.cursor + (if accessed(
            off.trace,
            off.clock + 1,
        ) {
            1nat
        } else {
            0nat
        }),
{
    lemma_step_in_step(off, on, threshold, adopted);
    lemma_access_at_cursor(off, on, threshold);
    let trace = off.trace;
    let access = accessed(trace, off.clock + 1);
    let off2 = off.tick(access);
    let on2 = on.tick(threshold, access);
    let k = off.keep_cost as int;
    let r = off.recover_cost as int;
    let x = excess as int;
    let served = off.cursor as int;
    let waited = on.clock - on.last_access;
    let over = overrun(trace, off.clock, threshold) as int;
    let over2 = overrun(trace, off2.clock, adopted) as int;
    lemma_scale(over, over, k);
    lemma_scale(over2, over2, k);
    lemma_scale(waited, waited, k);
    lemma_one_more(served, x);
    lemma_scale(0, served, x);
    assert(x * served >= 0) by (nonlinear_arith)
        requires
            x >= 0,
            served >= 0,
    ;
    if off.cursor == trace.len() {
        // Past the last access the offline instance keeps and pays; the
        // overrun grows by one exactly if the online instance has discarded.
        assert(over2 == over + (if on2.policy == Policy::Discard {
            1int
        } else {
            0int
        }));
        assert(off2.accrued == off.accrued + k);
        assert(off.accrued <= on.accrued + k * over + x * served);
        assert(no_dearer(off2, on2, adopted, excess));
    } else {
        let next = trace[off.cursor as int] as int;
        let left = next - 1 - off.clock;
        assert(over == 0 && over2 == 0);
        lemma_scale(left - 1, left, k);
        if access {
            assert(left == 0);
            assert(off2.cursor == served + 1);
            if off.policy == Policy::Discard && on.policy == Policy::Keep && on.decided(threshold)
                == Policy::Keep {
                // The online instance has kept through a gap that the offline
                // instance pays a recovery for: its keeping came to as much,
                // unless it keeps for nothing.
                assert(waited >= r);
                if k >= 1 {
                    lemma_scale(r, waited, k);
                    assert(r * k >= r) by (nonlinear_arith)
                        requires
                            k >= 1,
                            r >= 0,
                    ;
                }
            }
            assert(no_dearer(off2, on2, adopted, excess));
        } else if off2.policy == Policy::Keep && on2.policy == Policy::Discard && on.policy
            == Policy::Keep && threshold != on.recover_cost {
            // The online instance discards ahead of the offline instance:
            // what the offline instance will pay until the access is at most
            // one recovery and the excess.
            lemma_scale(left, r - 1, k);
            lemma_scale(r - 1, r - 1, k);
            assert(kept_ticks(on.recover_cost) == r - 1);
            assert(left * k <= r + x);
        } else {
            assert(no_dearer(off2, on2, adopted, excess));
        }
    }
}

/// The joint run of the offline and the deterministic online instance stays
/// in step and keeps `no_dearer` without any allowance.
proof fn lemma_joint_naive_run(keep_cost: nat, recover_cost: nat, trace: Seq<u64>, n: nat)
    requires
        is_trace(trace),
    ensures
        in_step(
            offline_run(keep_cost, recover_cost, trace, n),
            naive_run(keep_cost, recover_cost, trace, n),
            recover_cost,
        ),
        no_dearer(
            offline_run(keep_cost, recover_cost, trace, n),
            naive_run(keep_cost, recover_cost, trace, n),
            recover_cost,
            0,
        ),
        offline_run(keep_cost, recover_cost, trace, n).trace == trace,
        offline_run(keep_cost, recover_cost, trace, n).clock == n,
        offline_run(keep_cost, recover_cost, trace, n).keep_cost == keep_cost,
        offline_run(keep_cost, recover_cost, trace, n).recover_cost == recover_cost,
    decreases n,
{
    if n > 0 {
        let m = (n - 1) as nat;
        lemma_joint_naive_run(keep_cost, recover_cost, trace, m);
        lemma_step_no_dearer(
            offline_run(keep_cost, recover_cost, trace, m),
            naive_run(keep_cost, recover_cost, trace, m),
            recover_cost,
            recover_cost,
            0,
        );
    } else {
        lemma_scale(0, 0, keep_cost as int);
    }
}

/// The offline instance is never dearer than the deterministic online
/// instance, but for the overrun: on a well-formed trace, after any number of
/// ticks, it has paid at most what the online instance has paid, and the keep
/// cost for each tick of the overrun.
///
/// The overrun counts the ticks after the last access on which the online
/// instance has discarded. The offline instance looks for a next access,
/// finds none, and goes on keeping; on those ticks it pays and the online
/// instance does not. A run that ends before them has no overrun, and there
/// the offline cost is at most the online cost.
pub proof fn lemma_offline_at_most_naive(
    keep_cost: nat,
    recover_cost: nat,
    trace: Seq<u64>,
    n: nat,
)
    requires
        is_trace(trace),
    ensures
        offline_cost(keep_cost, recover_cost, trace, n) <= naive_cost(
            keep_cost,
            recover_cost,
            trace,
            n,
        ) + keep_cost * overrun(trace, n, recover_cost),
        n <= horizon(trace) + kept_ticks(recover_cost) ==> offline_cost(
            keep_cost,
            recover_cost,
            trace,
            n,
        ) <= naive_cost(keep_cost, recover_cost, trace, n),
{
    lemma_joint_naive_run(keep_cost, recover_cost, trace, n);
    lemma_scale(0, 0, keep_cost as int);
    let off = offline_run(keep_cost, recover_cost, trace, n);
    lemma_one_more(off.cursor as int, 0);
    assert(0 * off.cursor == 0) by (nonlinear_arith);
}

/// The joint run of the offline instance and an online instance that follows
/// a schedule of waits stays in step and keeps `no_dearer`, given an allowance
/// that covers every wait of the schedule.
proof fn lemma_joint_schedule_run(
    keep_cost: nat,
    recover_cost: nat,
    trace: Seq<u64>,
    thresholds: Seq<nat>,
    n: nat,
    excess: nat,
)
    requires
        is_trace(trace),
        thresholds.len() > access_count(trace, n),
        forall|i: int|
            0 <= i < thresholds.len() ==> covers(
                excess,
                #[trigger] thresholds[i],
                keep_cost,
                recover_cost,
            ),
    ensures
        in_step(
            offline_run(keep_cost, recover_cost, trace, n),
            randomized_run(keep_cost, recover_cost, trace, thresholds, n),
            thresholds[access_count(trace, n) as int],
        ),
        no_dearer(
            offline_run(keep_cost, recover_cost, trace, n),
            randomized_run(keep_cost, recover_cost, trace, thresholds, n),
            thresholds[access_count(trace, n) as int],
            excess,
        ),
        offline_run(keep_cost, recover_cost, trace, n).trace == trace,
        offline_run(keep_cost, recover_cost, trace, n).clock == n,
        offline_run(keep_cost, recover_cost, trace, n).keep_cost == keep_cost,
        offline_run(keep_cost, recover_cost, trace, n).recover_cost == recover_cost,
        offline_run(keep_cost, recover_cost, trace, n).cursor == access_count(trace, n),
    decreases n,
{
    let x = excess as int;
    if n > 0 {
        let m = (n - 1) as nat;
        lemma_joint_schedule_run(keep_cost, recover_cost, trace, thresholds, m, excess);
        lemma_step_no_dearer(
            offline_run(keep_cost, recover_cost, trace, m),
            randomized_run(keep_cost, recover_cost, trace, thresholds, m),
            thresholds[access_count(trace, m) as int],
            thresholds[access_count(trace, n) as int],
            excess,
        );
    } else {
        lemma_scale(0, 0, keep_cost as int);
        assert(x * 0 == 0) by (nonlinear_arith);
    }
}

/// What `no_dearer` says of the costs alone.
proof fn lemma_no_dearer_bound(off: OfflineState, on: OnlineState, threshold: nat, excess: nat)
    requires
        in_step(off, on, threshold),
        no_dearer(off, on, threshold, excess),
    ensures
        off.accrued <= on.accrued + owed(on) + off.keep_cost * overrun(
            off.trace,
            off.clock,
            threshold,
        ) + excess * (off.cursor + 1),
        excess == 0 && off.clock <= horizon(off.trace) && on.policy == Policy::Keep
            ==> off.accrued <= on.accrued,
{
    let k = off.keep_cost as int;
    let x = excess as int;
    let served = off.cursor as int;
    lemma_scale(0, overrun(off.trace, off.clock, threshold) as int, k);
    lemma_scale(0, on.clock - on.last_access, k);
    lemma_one_more(served, x);
    assert(x * served >= 0) by (nonlinear_arith)
        requires
            x >= 0,
            served >= 0,
    ;
    assert(x == 0 ==> x * (served + 1) == 0) by (nonlinear_arith);
    if off.policy == Policy::Keep && on.policy == Policy::Discard && off.cursor
        < off.trace.len() {
        let left = off.trace[off.cursor as int] - 1 - off.clock;
        lemma_scale(0, left, k);
    }
}

/// The offline instance is never dearer than the randomized online instance
/// with the recovery that instance still owes, but for the overrun and the
/// excess of keeping.
///
/// On a well-formed trace, after any number of ticks and whatever thresholds
/// were drawn, none above the recovery cost: the offline instance has paid at
/// most what the online instance has paid and still owes, the keep cost for
/// each tick of the overrun, and the excess of keeping for each gap begun. An
/// instance that has discarded owes a recovery, which it pays on the next
/// access; one that keeps owes nothing.
///
/// The excess is zero where keeping costs no more than one recovery. So
/// there, at a state that keeps, in a run that ends no later than the last
/// access of the trace, the offline cost is at most the online cost.
///
/// A randomized instance may discard at once; where keeping through a gap
/// costs more than a recovery, it then beats the offline instance, which keeps
/// through every gap shorter than the recovery cost.
pub proof fn lemma_offline_at_most_randomized(
    keep_cost: nat,
    recover_cost: nat,
    trace: Seq<u64>,
    thresholds: Seq<nat>,
    n: nat,
)
    requires
        is_trace(trace),
        thresholds.len() > access_count(trace, n),
        forall|i: int| 0 <= i < thresholds.len() ==> thresholds[i] <= recover_cost,
    ensures
        offline_cost(keep_cost, recover_cost, trace, n) <= randomized_cost(
            keep_cost,
            recover_cost,
            trace,
            thresholds,
            n,
        ) + owed(randomized_run(keep_cost, recover_cost, trace, thresholds, n)) + keep_cost
            * overrun(trace, n, thresholds[access_count(trace, n) as int]) + keeping_excess(
            keep_cost,
            recover_cost,
        ) * (access_count(trace, n) + 1),
        keeping_pays(keep_cost, recover_cost) && n <= horizon(trace) && randomized_run(
            keep_cost,
            recover_cost,
            trace,
            thresholds,
            n,
        ).policy == Policy::Keep ==> offline_cost(keep_cost, recover_cost, trace, n)
            <= randomized_cost(keep_cost, recover_cost, trace, thresholds, n),
{
    let excess = keeping_excess(keep_cost, recover_cost);
    lemma_joint_schedule_run(keep_cost, recover_cost, trace, thresholds, n, excess);
    lemma_no_dearer_bound(
        offline_run(keep_cost, recover_cost, trace, n),
        randomized_run(keep_cost, recover_cost, trace, thresholds, n),
        thresholds[access_count(trace, n) as int],
        excess,
    );
}

/// No schedule of waits is cheaper than the offline instance, but for what it
/// still owes, the overrun and the allowance.
///
/// A schedule says, for the start and for each access, after how many ticks
/// without access the resource is discarded; `randomized_run` follows it.
/// Every way to keep and discard between accesses is such a schedule, whether
/// it is made up in advance, drawn, or chosen with the trace in view. On a
/// well-formed trace, after any number of ticks, the offline instance has paid
/// at most what the schedule has paid and still owes, the keep cost for each
/// tick of the overrun, and the allowance for each gap begun.
///
/// The allowance is zero where keeping costs something, and no more than one
/// recovery for as long as the deterministic online instance keeps; with a
/// keep cost of one it is zero. So there, at a state that keeps, in a run that
/// ends no later than the last access of the trace, no schedule has paid less
/// than the offline instance.
pub proof fn lemma_no_schedule_is_cheaper(
    keep_cost: nat,
    recover_cost: nat,
    trace: Seq<u64>,
    schedule: Seq<nat>,
    n: nat,
)
    requires
        is_trace(trace),
        schedule.len() > access_count(trace, n),
    ensures
        offline_cost(keep_cost, recover_cost, trace, n) <= randomized_cost(
            keep_cost,
            recover_cost,
            trace,
            schedule,
            n,
        ) + owed(randomized_run(keep_cost, recover_cost, trace, schedule, n)) + keep_cost
            * overrun(trace, n, schedule[access_count(trace, n) as int]) + schedule_allowance(
            keep_cost,
            recover_cost,
        ) * (access_count(trace, n) + 1),
        keep_cost >= 1 && keeping_pays(keep_cost, recover_cost) && n <= horizon(trace)
            && randomized_run(keep_cost, recover_cost, trace, schedule, n).policy == Policy::Keep
            ==> offline_cost(keep_cost, recover_cost, trace, n) <= randomized_cost(
            keep_cost,
            recover_cost,
            trace,
            schedule,
            n,
        ),
{
    let excess = schedule_allowance(keep_cost, recover_cost);
    lemma_joint_schedule_run(keep_cost, recover_cost, trace, schedule, n, excess);
    lemma_no_dearer_bound(
        offline_run(keep_cost, recover_cost, trace, n),
        randomized_run(keep_cost, recover_cost, trace, schedule, n),
        schedule[access_count(trace, n) as int],
        excess,
    );
}

/// Whether no access of `trace` follows the access before it, or tick zero,
/// by exactly `length` ticks.
pub open spec fn no_gap_of(trace: Seq<u64>, length: nat) -> bool {
    forall|i: int| 0 <= i < trace.len() ==> #[trigger] gap(trace, i) != length
}

/// How many of the first `upto` accesses of `trace` follow the access before
/// them, or tick zero, by exactly `length` ticks.
pub open spec fn exact_gaps(trace: Seq<u64>, length: nat, upto: nat) -> nat
    decreases upto,
{
    if upto == 0 {
        0
    } else {
        exact_gaps(trace, length, (upto - 1) as nat) + (if gap(trace, upto - 1) == length {
            1nat
        } else {
            0nat
        })
    }
}

/// How many of the first `upto` accesses of `trace` follow the access before
/// them, or tick zero, by more than `length` ticks.
pub open spec fn long_gaps(trace: Seq<u64>, length: nat, upto: nat) -> nat
    decreases upto,
{
    if upto == 0 {
        0
    } else {
        long_gaps(trace, length, (upto - 1) as nat) + (if gap(trace, upto - 1) > length {
            1nat
        } else {
            0nat
        })
    }
}

/// By how much a recovery costs more than keeping for as long as the
/// deterministic online instance keeps; negative where keeping costs more.
pub open spec fn margin(keep_cost: nat, recover_cost: nat) -> int {
    recover_cost - keep_cost * kept_ticks(recover_cost)
}

/// The cost invariant behind the competitiveness of the deterministic online
/// instance: with the margin added for each longer gap served, the online cost
/// stays within twice the offline cost with the margin added for each exact
/// gap. Within a gap the bound is off by what one instance has paid and the
/// other has not: the online instance is ahead by its keeping while the
/// offline instance has discarded, and behind by the keeping while both keep.
spec fn within_twice(off: OfflineState, on: OnlineState) -> bool {
    let r = on.recover_cost;
    let k = on.keep_cost;
    let waited = on.clock - on.last_access;
    let online = on.accrued + margin(k, r) * long_gaps(off.trace, r, off.cursor);
    let twice = 2 * off.accrued + margin(k, r) * exact_gaps(off.trace, r, off.cursor);
    if off.policy == Policy::Keep {
        if off.cursor < off.trace.len() && on.policy == Policy::Keep {
            online + waited * k <= twice
        } else {
            online <= twice
        }
    } else {
        if on.policy == Policy::Keep {
            online <= twice + waited * k
        } else {
            online <= twice + kept_ticks(r) * k
        }
    }
}

/// One tick of the joint run with the deterministic online instance
/// preserves `within_twice`.
proof fn lemma_step_within_twice(off: OfflineState, on: OnlineState)
    requires
        in_step(off, on, on.recover_cost),
        within_twice(off, on),
    ensures
        in_step(
            off.tick(accessed(off.trace, off.clock + 1)),
            on.tick(on.recover_cost, accessed(off.trace, off.clock + 1)),
            on.recover_cost,
        ),
        within_twice(
            off.tick(accessed(off.trace, off.clock + 1)),
            on.tick(on.recover_cost, accessed(off.trace, off.clock + 1)),
        ),
{
    lemma_step_in_step(off, on, on.recover_cost, on.recover_cost);
    lemma_access_at_cursor(off, on, on.recover_cost);
    let trace = off.trace;
    let access = accessed(trace, off.clock + 1);
    let off2 = off.tick(access);
    let on2 = on.tick(on.recover_cost, access);
    let k = off.keep_cost as int;
    let r = off.recover_cost as int;
    let kept = kept_ticks(on.recover_cost) as int;
    let s = margin(on.keep_cost, on.recover_cost);
    let waited = on.clock - on.last_access;
    let exact = exact_gaps(trace, on.recover_cost, off.cursor) as int;
    let long = long_gaps(trace, on.recover_cost, off.cursor) as int;
    let exact2 = exact_gaps(trace, on.recover_cost, off2.cursor) as int;
    let long2 = long_gaps(trace, on.recover_cost, off2.cursor) as int;
    lemma_scale(kept, kept, k);
    lemma_scale(waited, waited, k);
    lemma_scale(0, 0, k);
    assert(s == r - kept * k);
    lemma_one_more(exact, s);
    lemma_one_more(long, s);
    if access {
        let length = gap(trace, off.cursor as int);
        assert(length == waited + 1);
        assert(exact2 == exact + (if length == r {
            1int
        } else {
            0int
        }));
        assert(long2 == long + (if length > r {
            1int
        } else {
            0int
        }));
        assert(on2.clock - on2.last_access == 0);
        if length < r {
            assert(waited <= kept);
        } else if length == r {
            assert(waited == kept);
        }
        assert(within_twice(off2, on2));
    } else {
        assert(exact2 == exact && long2 == long);
        if off.cursor < trace.len() {
            if off2.policy == Policy::Discard && on2.policy == Policy::Discard && on.policy
                == Policy::Keep {
                assert(waited <= kept);
                lemma_scale(waited, kept, k);
            }
        }
        assert(within_twice(off2, on2));
    }
}

/// The joint run of the offline and the deterministic online instance stays
/// in step and keeps `within_twice`.
proof fn lemma_joint_within_twice(keep_cost: nat, recover_cost: nat, trace: Seq<u64>, n: nat)
    requires
        is_trace(trace),
    ensures
        in_step(
            offline_run(keep_cost, recover_cost, trace, n),
            naive_run(keep_cost, recover_cost, trace, n),
            recover_cost,
        ),
        within_twice(
            offline_run(keep_cost, recover_cost, trace, n),
            naive_run(keep_cost, recover_cost, trace, n),
        ),
        offline_run(keep_cost, recover_cost, trace, n).trace == trace,
        offline_run(keep_cost, recover_cost, trace, n).clock == n,
        offline_run(keep_cost, recover_cost, trace, n).keep_cost == keep_cost,
        offline_run(keep_cost, recover_cost, trace, n).recover_cost == recover_cost,
        offline_run(keep_cost, recover_cost, trace, n).cursor == access_count(trace, n),
    decreases n,
{
    if n > 0 {
        let m = (n - 1) as nat;
        lemma_joint_within_twice(keep_cost, recover_cost, trace, m);
        lemma_access_at_cursor(
            offline_run(keep_cost, recover_cost, trace, m),
            naive_run(keep_cost, recover_cost, trace, m),
            recover_cost,
        );
        lemma_step_within_twice(
            offline_run(keep_cost, recover_cost, trace, m),
            naive_run(keep_cost, recover_cost, trace, m),
        );
    } else {
        lemma_one_more(0, margin(keep_cost, recover_cost));
        lemma_scale(0, 0, keep_cost as int);
    }
}

/// Without a gap of exactly `length` ticks, no exact gap is counted.
proof fn lemma_no_exact_gaps(trace: Seq<u64>, length: nat, upto: nat)
    requires
        no_gap_of(trace, length),
        upto <= trace.len(),
    ensures
        exact_gaps(trace, length, upto) == 0,
    decreases upto,
{
    if upto > 0 {
        lemma_no_exact_gaps(trace, length, (upto - 1) as nat);
        assert(gap(trace, upto - 1) != length);
    }
}

/// What the deterministic online instance pays, against twice what the
/// offline instance pays, gap by gap.
///
/// Over a gap longer than `recover_cost` the online instance pays twice what
/// the offline instance pays, less the margin; over a gap of exactly
/// `recover_cost`, twice and the margin more; over a shorter gap, the same. So
/// on a well-formed trace, after any number of ticks: the online cost, with
/// the margin added for each longer gap among the accesses so far, is at most
/// twice the offline cost, with the margin added for each exact gap among
/// them, and, while the offline instance has discarded, with what the online
/// instance pays for keeping before it discards too.
///
/// Hence the factor of two: where keeping costs no more than one recovery, so
/// that the margin is not negative, where no gap is exact, and where the
/// offline instance keeps, as it does right after every access, the online
/// cost is at most twice the offline cost.
///
/// On a gap of exactly `recover_cost` ticks the online instance discards on
/// the very tick of the access and pays a recovery that the offline instance,
/// which kept, is spared; there the factor of two holds only if longer gaps
/// make up for it.
pub proof fn lemma_naive_at_most_twice_offline(
    keep_cost: nat,
    recover_cost: nat,
    trace: Seq<u64>,
    n: nat,
)
    requires
        is_trace(trace),
    ensures
        naive_cost(keep_cost, recover_cost, trace, n) + margin(keep_cost, recover_cost)
            * long_gaps(trace, recover_cost, access_count(trace, n)) <= 2 * offline_cost(
            keep_cost,
            recover_cost,
            trace,
            n,
        ) + margin(keep_cost, recover_cost) * exact_gaps(
            trace,
            recover_cost,
            access_count(trace, n),
        ) + (if offline_run(keep_cost, recover_cost, trace, n).policy == Policy::Discard {
            keep_cost * kept_ticks(recover_cost)
        } else {
            0
        }),
        keeping_pays(keep_cost, recover_cost) && no_gap_of(trace, recover_cost) && offline_run(
            keep_cost,
            recover_cost,
            trace,
            n,
        ).policy == Policy::Keep ==> naive_cost(keep_cost, recover_cost, trace, n) <= 2
            * offline_cost(keep_cost, recover_cost, trace, n),
{
    lemma_joint_within_twice(keep_cost, recover_cost, trace, n);
    let off = offline_run(keep_cost, recover_cost, trace, n);
    let on = naive_run(keep_cost, recover_cost, trace, n);
    let k = keep_cost as int;
    let kept = kept_ticks(recover_cost) as int;
    let s = margin(keep_cost, recover_cost);
    let waited = on.clock - on.last_access;
    lemma_scale(kept, kept, k);
    lemma_scale(0, waited, k);
    if off.policy == Policy::Discard && on.policy == Policy::Keep {
        lemma_scale(waited, kept, k);
    }
    if keeping_pays(keep_cost, recover_cost) && no_gap_of(trace, recover_cost) {
        lemma_no_exact_gaps(trace, recover_cost, off.cursor);
        lemma_one_more(0, s);
        assert(s * long_gaps(trace, recover_cost, off.cursor) >= 0) by (nonlinear_arith)
            requires
                s >= 0,
                long_gaps(trace, recover_cost, off.cursor) >= 0,
        ;
    }
}

/// What the offline instance pays over a gap of `length` ticks that ends in
/// an access: a recovery if it discards, which it does if the ticks before the
/// access are at least as many as a recovery costs, and else the keep cost for
/// each of those ticks.
pub open spec fn offline_gap_cost(keep_cost: nat, recover_cost: nat, length: int) -> int {
    if length - 1 >= recover_cost {
        recover_cost as int
    } else {
        (length - 1) * keep_cost
    }
}

/// What the deterministic online instance pays over a gap of `length` ticks
/// that ends in an access: the keep cost for each tick before the access
/// through which it keeps, and a recovery if the gap is at least as long as a
/// recovery costs.
pub open spec fn naive_gap_cost(keep_cost: nat, recover_cost: nat, length: int) -> int {
    lesser(length - 1, kept_ticks(recover_cost) as int) * keep_cost + (if length >= recover_cost {
        recover_cost as int
    } else {
        0
    })
}

/// The lesser of two numbers.
pub open spec fn lesser(a: int, b: int) -> int {
    if a <= b {
        a
    } else {
        b
    }
}

/// What the offline instance pays over the first `upto` gaps of `trace`.
pub open spec fn offline_gaps_cost(
    keep_cost: nat,
    recover_cost: nat,
    trace: Seq<u64>,
    upto: nat,
) -> int
    decreases upto,
{
    if upto == 0 {
        0
    } else {
        offline_gaps_cost(keep_cost, recover_cost, trace, (upto - 1) as nat) + offline_gap_cost(
            keep_cost,
            recover_cost,
            gap(trace, upto - 1),
        )
    }
}

/// What the deterministic online instance pays over the first `upto` gaps of
/// `trace`.
pub open spec fn naive_gaps_cost(keep_cost: nat, recover_cost: nat, trace: Seq<u64>, upto: nat) -> int
    decreases upto,
{
    if upto == 0 {
        0
    } else {
        naive_gaps_cost(keep_cost, recover_cost, trace, (upto - 1) as nat) + naive_gap_cost(
            keep_cost,
            recover_cost,
            gap(trace, upto - 1),
        )
    }
}

/// What the offline instance has paid, at tick `n`, since the last access:
/// nothing if an access is to come for which it has discarded, and else the
/// keep cost for each tick.
pub open spec fn offline_running_cost(
    keep_cost: nat,
    recover_cost: nat,
    trace: Seq<u64>,
    n: nat,
) -> int {
    let served_so_far = access_count(trace, n);
    if served_so_far < trace.len() && gap(trace, served_so_far as int) - 1 >= recover_cost {
        0
    } else {
        (n - served(trace, served_so_far)) * keep_cost
    }
}

/// What the deterministic online instance has paid, at tick `n`, since the
/// last access: the keep cost for each tick through which it kept.
pub open spec fn naive_running_cost(
    keep_cost: nat,
    recover_cost: nat,
    trace: Seq<u64>,
    n: nat,
) -> int {
    lesser(n - served(trace, access_count(trace, n)), kept_ticks(recover_cost) as int) * keep_cost
}

/// The joint run of the offline and the deterministic online instance stays
/// in step, and each has paid what the gaps so far and the gap in progress
/// come to.
proof fn lemma_joint_costs_by_gaps(keep_cost: nat, recover_cost: nat, trace: Seq<u64>, n: nat)
    requires
        is_trace(trace),
    ensures
        in_step(
            offline_run(keep_cost, recover_cost, trace, n),
            naive_run(keep_cost, recover_cost, trace, n),
            recover_cost,
        ),
        offline_run(keep_cost, recover_cost, trace, n).trace == trace,
        offline_run(keep_cost, recover_cost, trace, n).clock == n,
        offline_run(keep_cost, recover_cost, trace, n).keep_cost == keep_cost,
        offline_run(keep_cost, recover_cost, trace, n).recover_cost == recover_cost,
        offline_run(keep_cost, recover_cost, trace, n).cursor == access_count(trace, n),
        offline_cost(keep_cost, recover_cost, trace, n) == offline_gaps_cost(
            keep_cost,
            recover_cost,
            trace,
            access_count(trace, n),
        ) + offline_running_cost(keep_cost, recover_cost, trace, n),
        naive_cost(keep_cost, recover_cost, trace, n) == naive_gaps_cost(
            keep_cost,
            recover_cost,
            trace,
            access_count(trace, n),
        ) + naive_running_cost(keep_cost, recover_cost, trace, n),
    decreases n,
{
    let k = keep_cost as int;
    let kept = kept_ticks(recover_cost) as int;
    if n > 0 {
        let m = (n - 1) as nat;
        lemma_joint_costs_by_gaps(keep_cost, recover_cost, trace, m);
        let off = offline_run(keep_cost, recover_cost, trace, m);
        let on = naive_run(keep_cost, recover_cost, trace, m);
        lemma_step_in_step(off, on, recover_cost, recover_cost);
        lemma_access_at_cursor(off, on, recover_cost);
        let waited = on.clock - on.last_access;
        lemma_scale(waited, waited, k);
        lemma_scale(lesser(waited, kept), lesser(waited, kept), k);
        lemma_scale(0, 0, k);
        if accessed(trace, n) {
            assert(gap(trace, off.cursor as int) == waited + 1);
            assert(n - served(trace, access_count(trace, n)) == 0);
        } else {
            assert(n - served(trace, access_count(trace, n)) == waited + 1);
        }
    } else {
        lemma_scale(0, 0, k);
        assert(lesser(0, kept) == 0);
    }
}

/// The costs of the two deterministic instances in closed form: on a
/// well-formed trace, after any number of ticks, each has paid what the gaps
/// closed by the accesses so far come to, and what the gap in progress has
/// come to so far.
pub proof fn lemma_costs_by_gaps(keep_cost: nat, recover_cost: nat, trace: Seq<u64>, n: nat)
    requires
        is_trace(trace),
    ensures
        offline_cost(keep_cost, recover_cost, trace, n) == offline_gaps_cost(
            keep_cost,
            recover_cost,
            trace,
            access_count(trace, n),
        ) + offline_running_cost(keep_cost, recover_cost, trace, n),
        naive_cost(keep_cost, recover_cost, trace, n) == naive_gaps_cost(
            keep_cost,
            recover_cost,
            trace,
            access_count(trace, n),
        ) + naive_running_cost(keep_cost, recover_cost, trace, n),
{
    lemma_joint_costs_by_gaps(keep_cost, recover_cost, trace, n);
}

} // verus!
