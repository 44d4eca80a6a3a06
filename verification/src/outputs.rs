//! The exact summary of a set of outputs from which an agent's timbre
//! profile is computed.

use vstd::prelude::*;
use crate::density::{density_extremes, density_le, is_extremes};
use crate::spread::{law_totals_ignore_order, length_spread, spread_of, LengthSpread};
use crate::syncopation::{off_trend_count, syncopated_steps};
use crate::text::{word_counts, words, WordCounts};

verus! {

/// Per-output measurements and the exact terms of the four timbre features.
pub struct OutputStats {
    /// Number of outputs.
    pub sample_count: usize,
    /// Length of each output, in bytes.
    pub lengths: Vec<usize>,
    /// Words and distinct words of each output.
    pub counts: Vec<WordCounts>,
    /// Terms of the rhythm ratio (coefficient of variation of the lengths).
    pub rhythm: LengthSpread,
    /// Number of outputs off the trend of the two before them.
    pub syncopated: usize,
    /// Densest and sparsest output, when there is any output.
    pub density_span: Option<(usize, usize)>,
}

/// The summary `from_outputs` gives for `outputs`.
pub open spec fn summarizes(r: OutputStats, outputs: Seq<&str>) -> bool {
    &&& r.sample_count == outputs.len()
    &&& r.lengths@.len() == outputs.len()
    &&& r.counts@.len() == outputs.len()
    &&& forall|i: int|
        0 <= i < outputs.len() ==> #[trigger] r.lengths@[i] == outputs[i].len()
    &&& forall|i: int|
        0 <= i < outputs.len() ==> (#[trigger] r.counts@[i]).words == words(outputs[i]@).len()
            && r.counts@[i].unique == words(outputs[i]@).to_set().len()
    &&& r.rhythm == spread_of(r.lengths@)
    &&& r.syncopated == off_trend_count(r.lengths@, r.lengths@.len() as int)
    &&& (r.density_span is None <==> outputs.len() == 0)
    &&& (r.density_span matches Some((hi, lo)) ==> is_extremes(r.counts@, hi as int, lo as int))
}

impl OutputStats {
    /// Measures each output and computes the feature terms.
    pub fn from_outputs(outputs: &[&str]) -> (r: Self)
        ensures
            summarizes(r, outputs@),
    {
        let mut lengths: Vec<usize> = Vec::new();
        let mut counts: Vec<WordCounts> = Vec::new();
        let mut i: usize = 0;
        while i < outputs.len()
            invariant
                i <= outputs@.len(),
                lengths@.len() == i,
                counts@.len() == i,
                forall|k: int|
                    0 <= k < i ==> #[trigger] lengths@[k] == outputs@[k].len(),
                forall|k: int|
                    0 <= k < i ==> (#[trigger] counts@[k]).words == words(outputs@[k]@).len()
                        && counts@[k].unique == words(outputs@[k]@).to_set().len(),
            decreases outputs@.len() - i,
        {
            let text: &str = outputs[i];
            lengths.push(text.len());
            counts.push(word_counts(text));
            i = i + 1;
        }
        let rhythm = length_spread(lengths.as_slice());
        let syncopated = syncopated_steps(lengths.as_slice());
        let density_span = density_extremes(counts.as_slice());
        OutputStats {
            sample_count: outputs.len(),
            lengths,
            counts,
            rhythm,
            syncopated,
            density_span,
        }
    }
}

} // verus!

verus! {

/// An output of one order is an output of the other, with the same word
/// counts.
proof fn lemma_same_output(a: Seq<&str>, b: Seq<&str>, ra: OutputStats, rb: OutputStats, i: int) -> (j: int)
    requires
        a.to_multiset() == b.to_multiset(),
        summarizes(ra, a),
        summarizes(rb, b),
        0 <= i < a.len(),
    ensures
        0 <= j < b.len(),
        rb.counts@[j] == ra.counts@[i],
{
    broadcast use vstd::seq_lib::group_to_multiset_ensures;

    assert(a.contains(a[i]));
    assert(a.to_multiset().count(a[i]) > 0);
    assert(b.to_multiset().count(a[i]) > 0);
    let j = choose|j: int| 0 <= j < b.len() && b[j] == a[i];
    assert(ra.counts@[i] == rb.counts@[j]);
    j
}

/// The same outputs in another order give the same sample count, the same
/// rhythm terms and equally dense densest and sparsest outputs (only the
/// syncopation count, which follows the order, may differ).
pub proof fn law_summary_ignores_order(a: Seq<&str>, b: Seq<&str>, ra: OutputStats, rb: OutputStats)
    requires
        a.to_multiset() == b.to_multiset(),
        summarizes(ra, a),
        summarizes(rb, b),
    ensures
        ra.sample_count == rb.sample_count,
        ra.rhythm == rb.rhythm,
        ra.density_span is Some <==> rb.density_span is Some,
        ra.density_span matches Some((ha, la)) ==> rb.density_span matches Some((hb, lb))
            && density_le(ra.counts@[ha as int], rb.counts@[hb as int])
            && density_le(rb.counts@[hb as int], ra.counts@[ha as int])
            && density_le(ra.counts@[la as int], rb.counts@[lb as int])
            && density_le(rb.counts@[lb as int], ra.counts@[la as int]),
{
    broadcast use vstd::seq_lib::group_to_multiset_ensures;

    let f = |s: &str| s.len();
    law_totals_ignore_order(a, b, f);
    assert(ra.lengths@ =~= a.map_values(f));
    assert(rb.lengths@ =~= b.map_values(f));
    if ra.density_span is Some {
        let (ha, la) = ra.density_span->0;
        let (hb, lb) = rb.density_span->0;
        let ib = lemma_same_output(b, a, rb, ra, hb as int);
        let jb = lemma_same_output(a, b, ra, rb, ha as int);
        let il = lemma_same_output(b, a, rb, ra, lb as int);
        let jl = lemma_same_output(a, b, ra, rb, la as int);
        assert(density_le(ra.counts@[ib], ra.counts@[ha as int]));
        assert(density_le(rb.counts@[jb], rb.counts@[hb as int]));
        assert(density_le(ra.counts@[la as int], ra.counts@[il]));
        assert(density_le(rb.counts@[lb as int], rb.counts@[jl]));
    }
}

} // verus!
