//! Information density of an output (distinct words over words) and the
//! outputs at the two ends of the density range, compared exactly.

use vstd::prelude::*;
use crate::text::WordCounts;

verus! {

/// Numerator of the density of an output: its distinct words, or zero when it
/// has no words.
pub open spec fn density_num(w: WordCounts) -> int {
    if w.words == 0 {
        0
    } else {
        w.unique as int
    }
}

/// Denominator of the density of an output: its words, or one when it has
/// none.
pub open spec fn density_den(w: WordCounts) -> int {
    if w.words == 0 {
        1
    } else {
        w.words as int
    }
}

/// Whether `a` is at most as dense as `b`.
pub open spec fn density_le(a: WordCounts, b: WordCounts) -> bool {
    density_num(a) * density_den(b) <= density_num(b) * density_den(a)
}

/// The most and the least dense outputs, each the first of its kind.
pub open spec fn is_extremes(c: Seq<WordCounts>, hi: int, lo: int) -> bool {
    &&& 0 <= hi < c.len()
    &&& 0 <= lo < c.len()
    &&& forall|j: int| 0 <= j < c.len() ==> density_le(#[trigger] c[j], c[hi])
    &&& forall|j: int| 0 <= j < hi ==> !density_le(c[hi], #[trigger] c[j])
    &&& forall|j: int| 0 <= j < c.len() ==> density_le(c[lo], #[trigger] c[j])
    &&& forall|j: int| 0 <= j < lo ==> !density_le(#[trigger] c[j], c[lo])
}

/// Whether `a` is at most as dense as `b`, by cross-multiplication.
fn at_most_as_dense(a: WordCounts, b: WordCounts) -> (r: bool)
    ensures
        r == density_le(a, b),
{
    let (an, ad): (u128, u128) = if a.words == 0 {
        (0, 1)
    } else {
        (a.unique as u128, a.words as u128)
    };
    let (bn, bd): (u128, u128) = if b.words == 0 {
        (0, 1)
    } else {
        (b.unique as u128, b.words as u128)
    };
    proof {
        assert(an * bd <= usize::MAX * usize::MAX) by (nonlinear_arith)
            requires
                an <= usize::MAX,
                bd <= usize::MAX,
        ;
        assert(bn * ad <= usize::MAX * usize::MAX) by (nonlinear_arith)
            requires
                bn <= usize::MAX,
                ad <= usize::MAX,
        ;
        assert(usize::MAX * usize::MAX < u128::MAX) by (nonlinear_arith);
    }
    an * bd <= bn * ad
}

proof fn lemma_le_total(a: WordCounts, b: WordCounts)
    ensures
        density_le(a, b) || density_le(b, a),
{
}

proof fn lemma_le_trans(a: WordCounts, b: WordCounts, c: WordCounts)
    requires
        density_le(a, b),
        density_le(b, c),
    ensures
        density_le(a, c),
{
    let (an, ad, bn, bd, cn, cd) = (
        density_num(a),
        density_den(a),
        density_num(b),
        density_den(b),
        density_num(c),
        density_den(c),
    );
    assert(an * cd <= cn * ad) by (nonlinear_arith)
        requires
            an * bd <= bn * ad,
            bn * cd <= cn * bd,
            ad > 0,
            bd > 0,
            cd > 0,
            an >= 0,
            bn >= 0,
            cn >= 0,
    ;
}

/// The indices of the densest and the sparsest output (the first of each),
/// or `None` when there are no outputs. The dynamic range is the density of
/// the first minus that of the second.
pub fn density_extremes(counts: &[WordCounts]) -> (r: Option<(usize, usize)>)
    ensures
        r is None <==> counts@.len() == 0,
        r matches Some((hi, lo)) ==> is_extremes(counts@, hi as int, lo as int),
{
    if counts.len() == 0 {
        return None;
    }
    let mut hi: usize = 0;
    let mut lo: usize = 0;
    let mut i: usize = 1;
    while i < counts.len()
        invariant
            1 <= i <= counts@.len(),
            hi < i,
            lo < i,
            forall|j: int| 0 <= j < i ==> density_le(#[trigger] counts@[j], counts@[hi as int]),
            forall|j: int| 0 <= j < hi ==> !density_le(counts@[hi as int], #[trigger] counts@[j]),
            forall|j: int| 0 <= j < i ==> density_le(counts@[lo as int], #[trigger] counts@[j]),
            forall|j: int| 0 <= j < lo ==> !density_le(#[trigger] counts@[j], counts@[lo as int]),
        decreases counts@.len() - i,
    {
        let c = counts[i];
        if !at_most_as_dense(c, counts[hi]) {
            proof {
                lemma_le_total(c, counts@[hi as int]);
                assert forall|j: int| 0 <= j < i implies density_le(
                    #[trigger] counts@[j],
                    c,
                ) by {
                    lemma_le_trans(counts@[j], counts@[hi as int], c);
                }
                assert forall|j: int| 0 <= j < i implies !density_le(c, #[trigger] counts@[j]) by {
                    if density_le(c, counts@[j]) {
                        lemma_le_trans(c, counts@[j], counts@[hi as int]);
                    }
                }
            }
            hi = i;
        }
        if !at_most_as_dense(counts[lo], c) {
            proof {
                lemma_le_total(c, counts@[lo as int]);
                assert forall|j: int| 0 <= j < i implies density_le(c, #[trigger] counts@[j]) by {
                    lemma_le_trans(c, counts@[lo as int], counts@[j]);
                }
                assert forall|j: int| 0 <= j < i implies !density_le(#[trigger] counts@[j], c) by {
                    if density_le(counts@[j], c) {
                        lemma_le_trans(counts@[lo as int], counts@[j], c);
                    }
                }
            }
            lo = i;
        }
        i = i + 1;
    }
    Some((hi, lo))
}

/// The densest output is at least as dense as the sparsest one: the dynamic
/// range is never negative.
pub proof fn law_dynamic_range_nonnegative(c: Seq<WordCounts>, hi: int, lo: int)
    requires
        is_extremes(c, hi, lo),
    ensures
        density_le(c[lo], c[hi]),
{
    assert(density_le(c[lo], c[hi]));
}

} // verus!

verus! {

/// The densest output has the largest ratio of distinct words to words and
/// the sparsest the smallest, compared on the word counts themselves
/// (`u / w` against `u' / w'` by `u * w' <= u' * w`); an output with no words
/// has density zero. So the dynamic range is never negative.
pub proof fn law_extremes_by_word_ratio(c: Seq<WordCounts>, hi: int, lo: int)
    requires
        is_extremes(c, hi, lo),
    ensures
        forall|j: int|
            0 <= j < c.len() && c[j].words > 0 && c[hi].words > 0 ==> #[trigger] c[j].unique
                * c[hi].words <= c[hi].unique * c[j].words,
        forall|j: int|
            0 <= j < c.len() && c[j].words > 0 && c[hi].words == 0 ==> #[trigger] c[j].unique == 0,
        forall|j: int|
            0 <= j < c.len() && c[j].words > 0 && c[lo].words > 0 ==> c[lo].unique * c[j].words
                <= #[trigger] c[j].unique * c[lo].words,
        c[lo].words > 0 ==> c[lo].unique == 0 || forall|j: int|
            0 <= j < c.len() ==> #[trigger] c[j].words > 0,
        c[lo].words > 0 && c[hi].words > 0 ==> c[lo].unique * c[hi].words <= c[hi].unique
            * c[lo].words,
{
    assert forall|j: int|
        0 <= j < c.len() && c[j].words > 0 && c[hi].words > 0 implies #[trigger] c[j].unique
            * c[hi].words <= c[hi].unique * c[j].words by {
        assert(density_le(c[j], c[hi]));
    }
    assert forall|j: int|
        0 <= j < c.len() && c[j].words > 0 && c[hi].words == 0 implies #[trigger] c[j].unique == 0 by {
        assert(density_le(c[j], c[hi]));
        assert(c[j].unique * 1 <= 0 * c[j].words);
    }
    assert forall|j: int|
        0 <= j < c.len() && c[j].words > 0 && c[lo].words > 0 implies c[lo].unique * c[j].words
            <= #[trigger] c[j].unique * c[lo].words by {
        assert(density_le(c[lo], c[j]));
    }
    if c[lo].words > 0 && c[lo].unique != 0 {
        assert forall|j: int| 0 <= j < c.len() implies #[trigger] c[j].words > 0 by {
            assert(density_le(c[lo], c[j]));
            if c[j].words == 0 {
                assert(c[lo].unique * 1 <= 0 * c[lo].words);
            }
        }
    }
    assert(density_le(c[lo], c[hi]));
}

} // verus!
