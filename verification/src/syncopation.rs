//! How often an output length breaks away from the trend of the two
//! outputs before it.

use vstd::prelude::*;

verus! {

/// The length expected at position `i` when the step from `i - 2` to `i - 1`
/// goes on: `2 * s[i - 1] - s[i - 2]`.
pub open spec fn trend_at(s: Seq<usize>, i: int) -> int {
    2 * s[i - 1] - s[i - 2]
}

/// Absolute value.
pub open spec fn abs(x: int) -> int {
    if x < 0 {
        -x
    } else {
        x
    }
}

/// Whether the length at `i` deviates from the trend by more than 30% of the
/// trend's magnitude: `|s[i] - t| > floor(0.3 * |t|)`, which for integers is
/// `10 * |s[i] - t| > 3 * |t|`.
pub open spec fn off_trend(s: Seq<usize>, i: int) -> bool {
    10 * abs(s[i] - trend_at(s, i)) > 3 * abs(trend_at(s, i))
}

/// The number of positions `i` with `2 <= i < k` that are off trend.
pub open spec fn off_trend_count(s: Seq<usize>, k: int) -> nat
    decreases k,
{
    if k <= 2 {
        0
    } else {
        off_trend_count(s, k - 1) + if off_trend(s, k - 1) {
            1nat
        } else {
            0nat
        }
    }
}

proof fn lemma_count_bound(s: Seq<usize>, k: int)
    ensures
        off_trend_count(s, k) <= if k <= 2 {
            0
        } else {
            k - 2
        },
    decreases k,
{
    if k > 2 {
        lemma_count_bound(s, k - 1);
    }
}

/// Each position from the third on adds exactly one to the count when its
/// length deviates from `t = 2 * s[k - 1] - s[k - 2]` by more than 30% of
/// `|t|`, and nothing otherwise; the count has no cap.
pub proof fn law_each_off_trend_step_counts(s: Seq<usize>, k: int)
    requires
        2 <= k < s.len(),
    ensures
        off_trend_count(s, k + 1) == off_trend_count(s, k) + if 10 * (if s[k] - (2 * s[k - 1]
            - s[k - 2]) < 0 {
            (2 * s[k - 1] - s[k - 2]) - s[k]
        } else {
            s[k] - (2 * s[k - 1] - s[k - 2])
        }) > 3 * (if 2 * s[k - 1] - s[k - 2] < 0 {
            s[k - 2] - 2 * s[k - 1]
        } else {
            2 * s[k - 1] - s[k - 2]
        }) {
            1int
        } else {
            0int
        },
{
}

proof fn lemma_all_off_trend(s: Seq<usize>, k: int)
    requires
        2 <= k <= s.len(),
        forall|i: int| 2 <= i < s.len() ==> #[trigger] off_trend(s, i),
    ensures
        off_trend_count(s, k) == k - 2,
    decreases k,
{
    if k > 2 {
        lemma_all_off_trend(s, k - 1);
        assert(off_trend(s, k - 1));
    }
}

proof fn lemma_none_off_trend(s: Seq<usize>, k: int)
    requires
        k <= s.len(),
        forall|i: int| 2 <= i < s.len() ==> !#[trigger] off_trend(s, i),
    ensures
        off_trend_count(s, k) == 0,
    decreases k,
{
    if k > 2 {
        lemma_none_off_trend(s, k - 1);
        assert(!off_trend(s, k - 1));
    }
}

/// When every output from the third on deviates from the trend of the two
/// before it by more than 30% (`10 * |s[i] - t| > 3 * |t|`, with
/// `t = 2 * s[i - 1] - s[i - 2]`), all `n - 2` of them are counted; when none
/// does, the count is zero.
pub proof fn law_count_of_uniform_patterns(s: Seq<usize>)
    requires
        s.len() >= 2,
    ensures
        (forall|i: int|
            #![trigger s[i]]
            2 <= i < s.len() ==> 10 * (if s[i] - (2 * s[i - 1] - s[i - 2]) < 0 {
                (2 * s[i - 1] - s[i - 2]) - s[i]
            } else {
                s[i] - (2 * s[i - 1] - s[i - 2])
            }) > 3 * (if 2 * s[i - 1] - s[i - 2] < 0 {
                s[i - 2] - 2 * s[i - 1]
            } else {
                2 * s[i - 1] - s[i - 2]
            })) ==> off_trend_count(s, s.len() as int) == s.len() - 2,
        (forall|i: int|
            #![trigger s[i]]
            2 <= i < s.len() ==> !(10 * (if s[i] - (2 * s[i - 1] - s[i - 2]) < 0 {
                (2 * s[i - 1] - s[i - 2]) - s[i]
            } else {
                s[i] - (2 * s[i - 1] - s[i - 2])
            }) > 3 * (if 2 * s[i - 1] - s[i - 2] < 0 {
                s[i - 2] - 2 * s[i - 1]
            } else {
                2 * s[i - 1] - s[i - 2]
            }))) ==> off_trend_count(s, s.len() as int) == 0,
{
    if forall|i: int|
        #![trigger s[i]]
        2 <= i < s.len() ==> 10 * (if s[i] - (2 * s[i - 1] - s[i - 2]) < 0 {
                (2 * s[i - 1] - s[i - 2]) - s[i]
            } else {
                s[i] - (2 * s[i - 1] - s[i - 2])
            }) > 3 * (if 2 * s[i - 1] - s[i - 2] < 0 {
                s[i - 2] - 2 * s[i - 1]
            } else {
                2 * s[i - 1] - s[i - 2]
            }) {
        assert forall|i: int| 2 <= i < s.len() implies #[trigger] off_trend(s, i) by {
            assert(s[i] == s[i]);
        }
        lemma_all_off_trend(s, s.len() as int);
    }
    if forall|i: int|
        #![trigger s[i]]
        2 <= i < s.len() ==> !(10 * (if s[i] - (2 * s[i - 1] - s[i - 2]) < 0 {
                (2 * s[i - 1] - s[i - 2]) - s[i]
            } else {
                s[i] - (2 * s[i - 1] - s[i - 2])
            }) > 3 * (if 2 * s[i - 1] - s[i - 2] < 0 {
                s[i - 2] - 2 * s[i - 1]
            } else {
                2 * s[i - 1] - s[i - 2]
            })) {
        assert forall|i: int| 2 <= i < s.len() implies !#[trigger] off_trend(s, i) by {
            assert(s[i] == s[i]);
        }
        lemma_none_off_trend(s, s.len() as int);
    }
}

/// The number of outputs, from the third on, whose length is off the trend of
/// the two before it. The syncopation index is this count divided by
/// `lengths.len() - 2` (zero when there are fewer than three outputs).
pub fn syncopated_steps(lengths: &[usize]) -> (count: usize)
    ensures
        count == off_trend_count(lengths@, lengths@.len() as int),
        lengths@.len() < 3 ==> count == 0,
        lengths@.len() >= 3 ==> count <= lengths@.len() - 2,
{
    proof {
        lemma_count_bound(lengths@, lengths@.len() as int);
    }
    let n = lengths.len();
    if n < 3 {
        return 0;
    }
    let mut count: usize = 0;
    let mut i: usize = 2;
    while i < n
        invariant
            n == lengths@.len(),
            2 <= i <= n,
            count == off_trend_count(lengths@, i as int),
            count <= i - 2,
        decreases n - i,
    {
        let trend: i128 = 2 * (lengths[i - 1] as i128) - lengths[i - 2] as i128;
        let gap: i128 = lengths[i] as i128 - trend;
        let gap_abs: i128 = if gap < 0 {
            -gap
        } else {
            gap
        };
        let trend_abs: i128 = if trend < 0 {
            -trend
        } else {
            trend
        };
        if 10 * gap_abs > 3 * trend_abs {
            count = count + 1;
        }
        i = i + 1;
    }
    count
}

} // verus!
