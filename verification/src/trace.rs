//! Access traces: the ticks at which the resource is accessed.

use vstd::prelude::*;

verus! {

/// Whether `s` is a well-formed access trace: positive tick numbers in
/// strictly ascending order.
pub open spec fn is_trace(s: Seq<u64>) -> bool {
    &&& forall|i: int| 0 <= i < s.len() ==> #[trigger] s[i] >= 1
    &&& forall|i: int, j: int| 0 <= i < j < s.len() ==> s[i] < s[j]
}

/// Whether tick `t` carries an access according to `s`.
pub open spec fn accessed(s: Seq<u64>, t: nat) -> bool {
    exists|i: int| 0 <= i < s.len() && #[trigger] s[i] == t
}

/// Whether `t` occurs in `list`.
pub fn contains(list: &Vec<u64>, t: u64) -> (found: bool)
    ensures
        found == accessed(list@, t as nat),
{
    let mut i: usize = 0;
    while i < list.len()
        invariant
            i <= list.len(),
            forall|j: int| 0 <= j < i ==> list@[j] != t,
        decreases list.len() - i,
    {
        if list[i] == t {
            return true;
        }
        i += 1;
    }
    false
}

/// Whether `list` is a well-formed access trace.
pub fn check_trace(list: &Vec<u64>) -> (ok: bool)
    ensures
        ok == is_trace(list@),
{
    let mut i: usize = 0;
    while i < list.len()
        invariant
            i <= list.len(),
            forall|j: int| 0 <= j < i ==> #[trigger] list@[j] >= 1,
            forall|j: int| 0 < j < i ==> list@[j - 1] < #[trigger] list@[j],
        decreases list.len() - i,
    {
        if list[i] == 0 {
            return false;
        }
        if i > 0 && list[i - 1] >= list[i] {
            return false;
        }
        i += 1;
    }
    proof {
        lemma_adjacent_ascending(list@);
    }
    true
}

/// A sequence whose neighbours ascend strictly ascends strictly throughout.
pub proof fn lemma_adjacent_ascending(s: Seq<u64>)
    requires
        forall|j: int| 0 < j < s.len() ==> s[j - 1] < #[trigger] s[j],
    ensures
        forall|i: int, j: int| 0 <= i < j < s.len() ==> s[i] < s[j],
{
    assert forall|i: int, j: int| 0 <= i < j < s.len() implies s[i] < s[j] by {
        lemma_ascending_between(s, i, j);
    }
}

proof fn lemma_ascending_between(s: Seq<u64>, i: int, j: int)
    requires
        forall|k: int| 0 < k < s.len() ==> s[k - 1] < #[trigger] s[k],
        0 <= i < j < s.len(),
    ensures
        s[i] < s[j],
    decreases j - i,
{
    if j - 1 > i {
        lemma_ascending_between(s, i, j - 1);
    }
}

} // verus!
