//! Where an agent's style shifts suddenly between consecutive snapshots.

use vstd::prelude::*;

verus! {

/// The snapshots, among the first `k + 1`, reached by a step that exceeds the
/// threshold: `i + 1` for each step `i < k` with `exceeds[i]`, in order.
pub open spec fn shifts_upto(exceeds: Seq<bool>, k: int) -> Seq<usize>
    decreases k,
{
    if k <= 0 {
        seq![]
    } else if exceeds[k - 1] {
        shifts_upto(exceeds, k - 1).push(k as usize)
    } else {
        shifts_upto(exceeds, k - 1)
    }
}

/// Given, for each step between consecutive snapshots, whether its drift
/// exceeds the threshold, the index of the snapshot after each such step.
pub fn shift_positions(exceeds: &[bool]) -> (r: Vec<usize>)
    ensures
        r@ == shifts_upto(exceeds@, exceeds@.len() as int),
{
    let mut r: Vec<usize> = Vec::new();
    let mut i: usize = 0;
    while i < exceeds.len()
        invariant
            i <= exceeds@.len(),
            r@ == shifts_upto(exceeds@, i as int),
        decreases exceeds@.len() - i,
    {
        if exceeds[i] {
            r.push(i + 1);
        }
        i = i + 1;
    }
    r
}

/// Reported shifts point at snapshots after the first, in increasing order,
/// each at most once, and there is one for each step that exceeds the
/// threshold.
pub proof fn law_shifts_are_ordered(exceeds: Seq<bool>, k: int)
    requires
        0 <= k <= exceeds.len(),
        exceeds.len() < usize::MAX,
    ensures
        forall|a: int, b: int|
            0 <= a < b < shifts_upto(exceeds, k).len() ==> shifts_upto(exceeds, k)[a]
                < shifts_upto(exceeds, k)[b],
        forall|a: int|
            0 <= a < shifts_upto(exceeds, k).len() ==> 1 <= #[trigger] shifts_upto(exceeds, k)[a]
                <= k,
        forall|i: int|
            0 <= i < k ==> (exceeds[i] <==> shifts_upto(exceeds, k).contains((i + 1) as usize)),
    decreases k,
{
    if k > 0 {
        law_shifts_are_ordered(exceeds, k - 1);
        let p = shifts_upto(exceeds, k - 1);
        let s = shifts_upto(exceeds, k);
        assert forall|i: int| 0 <= i < k implies (exceeds[i] <==> s.contains((i + 1) as usize)) by {
            if i < k - 1 {
                if exceeds[i] {
                    let t = choose|t: int| 0 <= t < p.len() && p[t] == (i + 1) as usize;
                    assert(s[t] == (i + 1) as usize);
                }
                if s.contains((i + 1) as usize) {
                    let t = choose|t: int| 0 <= t < s.len() && s[t] == (i + 1) as usize;
                    if t < p.len() {
                        assert(p[t] == s[t]);
                    }
                }
            } else {
                if exceeds[i] {
                    assert(s[s.len() - 1] == k as usize);
                }
                if s.contains((i + 1) as usize) {
                    let t = choose|t: int| 0 <= t < s.len() && s[t] == (i + 1) as usize;
                    if t < p.len() {
                        assert(p[t] == s[t]);
                    }
                }
            }
        }
    }
}

} // verus!
