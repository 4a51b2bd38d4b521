//! Random access traces.

use vstd::prelude::*;

use crate::random::{Draw, RandomSource};
use crate::trace::is_trace;

verus! {

/// Whether each element of `s` is less than the next.
pub open spec fn ascending(s: Seq<u64>) -> bool {
    forall|i: int, j: int| 0 <= i < j < s.len() ==> s[i] < s[j]
}

/// Whether `a` and `b` hold the same numbers, however often and in whatever
/// order.
pub open spec fn same_members(a: Seq<u64>, b: Seq<u64>) -> bool {
    forall|x: u64| a.contains(x) <==> b.contains(x)
}

/// Puts `value` in its place in the ascending `list`, unless it is there
/// already.
pub fn insert_distinct(list: &mut Vec<u64>, value: u64)
    requires
        ascending(old(list)@),
    ensures
        ascending(final(list)@),
        forall|x: u64| final(list)@.contains(x) <==> old(list)@.contains(x) || x == value,
        final(list)@.len() == old(list)@.len() + (if old(list)@.contains(value) {
            0nat
        } else {
            1nat
        }),
{
    let mut at: usize = 0;
    while at < list.len() && list[at] < value
        invariant
            at <= list.len(),
            list@ == old(list)@,
            forall|j: int| 0 <= j < at ==> list@[j] < value,
        decreases list.len() - at,
    {
        at += 1;
    }
    let ghost before = list@;
    if at < list.len() && list[at] == value {
        assert(before.contains(value));
        return ;
    }
    assert(!before.contains(value)) by {
        if before.contains(value) {
            let k = choose|k: int| 0 <= k < before.len() && before[k] == value;
            if k > at {
                assert(before[at as int] < before[k]);
            }
        }
    }
    list.insert(at, value);
    proof {
        let after = list@;
        before.insert_ensures(at as int, value);
        assert forall|i: int, j: int| 0 <= i < j < after.len() implies after[i] < after[j] by {
            if i < at && j > at {
                assert(after[i] == before[i] && after[j] == before[j - 1]);
            }
        }
        assert forall|x: u64| after.contains(x) <==> before.contains(x) || x == value by {
            if after.contains(x) {
                let k = choose|k: int| 0 <= k < after.len() && after[k] == x;
                if k < at {
                    assert(before[k] == x);
                } else if k > at {
                    assert(before[k - 1] == x);
                }
            }
            if before.contains(x) {
                let k = choose|k: int| 0 <= k < before.len() && before[k] == x;
                if k < at {
                    assert(after[k] == x);
                } else {
                    assert(after[k + 1] == x);
                }
            }
            if x == value {
                assert(after[at as int] == x);
            }
        }
    }
}

/// The numbers of `values` in ascending order, each once.
pub fn sorted_distinct(values: &Vec<u64>) -> (list: Vec<u64>)
    ensures
        ascending(list@),
        same_members(list@, values@),
        list@.len() <= values@.len(),
{
    let mut list: Vec<u64> = Vec::new();
    let mut done: usize = 0;
    while done < values.len()
        invariant
            done <= values.len(),
            ascending(list@),
            list@.len() <= done,
            forall|x: u64| list@.contains(x) <==> values@.subrange(0, done as int).contains(x),
        decreases values.len() - done,
    {
        let ghost seen = values@.subrange(0, done as int);
        let ghost grown = values@.subrange(0, done + 1);
        insert_distinct(&mut list, values[done]);
        proof {
            assert(grown =~= seen.push(values@[done as int]));
            assert forall|x: u64| list@.contains(x) <==> grown.contains(x) by {
                if grown.contains(x) {
                    let k = choose|k: int| 0 <= k < grown.len() && grown[k] == x;
                    if k < done {
                        assert(seen[k] == x);
                    }
                }
                if seen.contains(x) {
                    let k = choose|k: int| 0 <= k < seen.len() && seen[k] == x;
                    assert(grown[k] == x);
                }
                if x == values@[done as int] {
                    assert(grown[done as int] == x);
                }
            }
        }
        done += 1;
    }
    assert(values@.subrange(0, done as int) =~= values@);
    list
}

/// An access trace of at most `len` accesses, drawn from the ticks `1` to
/// `max_value`: `len` ticks are drawn, put in ascending order, and each kept
/// once.
///
/// So the trace holds exactly the numbers that came in the `len` draws made
/// here. To draw at all, `max_value` must be at least one, since there is no
/// tick zero to draw.
pub fn generate_access_list(len: usize, max_value: u64, source: &mut RandomSource) -> (list: Vec<
    u64,
>)
    requires
        len > 0 ==> max_value >= 1,
    ensures
        is_trace(list@),
        forall|i: int| 0 <= i < list@.len() ==> #[trigger] list@[i] <= max_value,
        list@.len() <= len,
        len > 0 ==> list@.len() > 0,
        old(source).history().is_prefix_of(final(source).history()),
        final(source).history().len() == old(source).history().len() + len,
        forall|i: int|
            old(source).history().len() <= i < final(source).history().len() ==> (
            #[trigger] final(source).history()[i]).low == 1 && final(source).history()[i].high
                == max_value,
        forall|x: u64|
            list@.contains(x) <==> exists|i: int|
                old(source).history().len() <= i < final(source).history().len() && (
                #[trigger] final(source).history()[i]).value == x,
{
    let ghost before = source.history();
    let mut drawn: Vec<u64> = Vec::new();
    while drawn.len() < len
        invariant
            drawn.len() <= len,
            len > 0 ==> max_value >= 1,
            before == old(source).history(),
            before.is_prefix_of(source.history()),
            source.history().len() == before.len() + drawn.len(),
            forall|i: int| 0 <= i < drawn@.len() ==> 1 <= #[trigger] drawn@[i] <= max_value,
            forall|i: int|
                0 <= i < drawn@.len() ==> (#[trigger] source.history()[before.len() + i])
                    == (Draw { low: 1, high: max_value, value: drawn@[i] }),
        decreases len - drawn.len(),
    {
        let tick: u64 = source.draw_between(1, max_value);
        drawn.push(tick);
    }
    let list = sorted_distinct(&drawn);
    proof {
        let history = source.history();
        assert forall|i: int| 0 <= i < list@.len() implies 1 <= #[trigger] list@[i]
            <= max_value by {
            assert(list@.contains(list@[i]));
            assert(drawn@.contains(list@[i]));
        }
        if len > 0 {
            assert(drawn@.contains(drawn@[0]));
            assert(list@.contains(drawn@[0]));
        }
        assert forall|i: int| before.len() <= i < history.len() implies (#[trigger] history[i]).low
            == 1 && history[i].high == max_value by {
            assert(history[before.len() + (i - before.len())].low == 1);
        }
        assert forall|x: u64| list@.contains(x) <==> exists|i: int|
            before.len() <= i < history.len() && (#[trigger] history[i]).value == x by {
            if list@.contains(x) {
                assert(drawn@.contains(x));
                let j = choose|j: int| 0 <= j < drawn@.len() && drawn@[j] == x;
                assert(history[before.len() + j].value == x);
            }
            if exists|i: int| before.len() <= i < history.len() && (#[trigger] history[i]).value
                == x {
                let i = choose|i: int|
                    before.len() <= i < history.len() && (#[trigger] history[i]).value == x;
                assert(history[before.len() + (i - before.len())].value == drawn@[i
                    - before.len()]);
                assert(drawn@.contains(x));
            }
        }
    }
    list
}

} // verus!
