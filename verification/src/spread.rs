//! How much the lengths of an agent's outputs vary: the exact integer terms
//! of their coefficient of variation.

use vstd::prelude::*;

verus! {

/// Sum of the lengths.
pub open spec fn total(s: Seq<usize>) -> nat
    decreases s.len(),
{
    if s.len() == 0 {
        0
    } else {
        total(s.drop_last()) + s.last() as nat
    }
}

/// Sum of the squared lengths.
pub open spec fn total_sq(s: Seq<usize>) -> nat
    decreases s.len(),
{
    if s.len() == 0 {
        0
    } else {
        total_sq(s.drop_last()) + (s.last() as nat) * (s.last() as nat)
    }
}

/// Sum of the squared gaps between `x` and each of the lengths.
pub open spec fn gaps_to(s: Seq<usize>, x: int) -> int
    decreases s.len(),
{
    if s.len() == 0 {
        0
    } else {
        gaps_to(s.drop_last(), x) + (s.last() - x) * (s.last() - x)
    }
}

/// Sum of the squared gaps over all pairs of lengths.
pub open spec fn pair_gaps(s: Seq<usize>) -> int
    decreases s.len(),
{
    if s.len() == 0 {
        0
    } else {
        pair_gaps(s.drop_last()) + gaps_to(s.drop_last(), s.last() as int)
    }
}

/// `n * (sum of squares) - (sum)^2`: the variance of the lengths times `n^2`.
pub open spec fn spread_term(s: Seq<usize>) -> int {
    s.len() * total_sq(s) - total(s) * total(s)
}

/// The terms from which the coefficient of variation of a list of lengths
/// is computed.
#[derive(Debug, Clone, Copy, PartialEq, Eq, Structural)]
pub enum LengthSpread {
    /// Fewer than two lengths, or all of them zero: the ratio is zero.
    Flat,
    /// The ratio is `sqrt(spread) / total`, where `total` is the sum of the
    /// lengths and `spread` is `n` times the sum of their squares minus the
    /// square of their sum (that is, `n^2` times their variance).
    Varied { total: u128, spread: u128 },
    /// `n` times the sum of the squared lengths exceeds `u128::MAX`.
    TooLarge,
}

/// What `length_spread` returns for the lengths `s`.
pub open spec fn spread_of(s: Seq<usize>) -> LengthSpread {
    if s.len() < 2 || total(s) == 0 {
        LengthSpread::Flat
    } else if s.len() * total_sq(s) > u128::MAX {
        LengthSpread::TooLarge
    } else {
        LengthSpread::Varied { total: total(s) as u128, spread: spread_term(s) as u128 }
    }
}

proof fn lemma_gaps_to_expand(s: Seq<usize>, x: int)
    ensures
        gaps_to(s, x) == total_sq(s) - 2 * x * total(s) + s.len() * x * x,
    decreases s.len(),
{
    if s.len() > 0 {
        let p = s.drop_last();
        let y = s.last() as int;
        lemma_gaps_to_expand(p, x);
        let (q, t, n) = (total_sq(p) as int, total(p) as int, p.len() as int);
        assert(gaps_to(s, x) == gaps_to(p, x) + (y - x) * (y - x));
        assert(total_sq(s) == q + y * y);
        assert(total(s) == t + y);
        assert((y - x) * (y - x) == y * y - 2 * x * y + x * x) by (nonlinear_arith);
        assert(2 * x * (t + y) == 2 * x * t + 2 * x * y) by (nonlinear_arith);
        assert((n + 1) * x * x == n * x * x + x * x) by (nonlinear_arith);
        assert(s.len() == n + 1);
        assert(2 * x * total(s) == 2 * x * t + 2 * x * y);
        assert(s.len() * x * x == n * x * x + x * x);
    } else {
        assert(s.len() * x * x == 0 && 2 * x * total(s) == 0) by (nonlinear_arith)
            requires
                s.len() == 0,
                total(s) == 0,
        ;
    }
}

proof fn lemma_gaps_nonneg(s: Seq<usize>, x: int)
    ensures
        gaps_to(s, x) >= 0,
    decreases s.len(),
{
    if s.len() > 0 {
        lemma_gaps_nonneg(s.drop_last(), x);
        let d = s.last() - x;
        assert(d * d >= 0) by (nonlinear_arith);
    }
}

/// `n` times the sum of the squared lengths, minus the square of their sum,
/// is the sum of the squared gaps between every two of the lengths; so it is
/// never negative.
pub proof fn law_spread_is_pair_gaps(s: Seq<usize>)
    ensures
        spread_term(s) == pair_gaps(s),
        pair_gaps(s) >= 0,
        total(s) * total(s) <= s.len() * total_sq(s),
    decreases s.len(),
{
    if s.len() > 0 {
        let p = s.drop_last();
        let x = s.last() as int;
        law_spread_is_pair_gaps(p);
        lemma_gaps_to_expand(p, x);
        lemma_gaps_nonneg(p, x);
        let (q, t, n) = (total_sq(p) as int, total(p) as int, p.len() as int);
        assert((n + 1) * (q + x * x) - (t + x) * (t + x) == (n * q - t * t) + (q - 2 * x * t + n
            * x * x)) by (nonlinear_arith);
    }
}

proof fn lemma_uniform_gaps(s: Seq<usize>, x: int)
    requires
        forall|i: int| 0 <= i < s.len() ==> s[i] == x,
    ensures
        gaps_to(s, x) == 0,
    decreases s.len(),
{
    if s.len() > 0 {
        let p = s.drop_last();
        lemma_uniform_gaps(p, x);
        assert(s.last() == x);
        assert(gaps_to(s, x) == gaps_to(p, x) + (s.last() - x) * (s.last() - x));
    }
}

/// Lengths that are all equal do not spread at all.
pub proof fn law_uniform_lengths_have_no_spread(s: Seq<usize>)
    requires
        forall|i: int, j: int| 0 <= i < s.len() && 0 <= j < s.len() ==> s[i] == s[j],
    ensures
        spread_term(s) == 0,
    decreases s.len(),
{
    law_spread_is_pair_gaps(s);
    if s.len() > 0 {
        let p = s.drop_last();
        law_uniform_lengths_have_no_spread(p);
        law_spread_is_pair_gaps(p);
        assert forall|i: int| 0 <= i < p.len() implies p[i] == s.last() by {
            assert(s[i] == s[s.len() - 1]);
        }
        lemma_uniform_gaps(p, s.last() as int);
        assert(pair_gaps(s) == pair_gaps(p) + gaps_to(p, s.last() as int));
    }
}

proof fn lemma_zero_gaps_uniform(s: Seq<usize>, x: int)
    requires
        gaps_to(s, x) == 0,
    ensures
        forall|i: int| 0 <= i < s.len() ==> s[i] == x,
    decreases s.len(),
{
    if s.len() > 0 {
        let p = s.drop_last();
        let d = s.last() - x;
        lemma_gaps_nonneg(p, x);
        assert(d * d >= 0) by (nonlinear_arith);
        assert(d * d == 0);
        assert(d == 0) by (nonlinear_arith)
            requires
                d * d == 0,
        ;
        lemma_zero_gaps_uniform(p, x);
        assert forall|i: int| 0 <= i < s.len() implies s[i] == x by {
            if i < p.len() {
                assert(s[i] == p[i]);
            }
        }
    }
}

/// Lengths that do not spread at all are all equal: the rhythm ratio is zero
/// exactly when every output has the same length (or the lengths sum to 0).
pub proof fn law_no_spread_means_uniform_lengths(s: Seq<usize>)
    requires
        spread_term(s) == 0,
    ensures
        forall|i: int, j: int| 0 <= i < s.len() && 0 <= j < s.len() ==> s[i] == s[j],
    decreases s.len(),
{
    law_spread_is_pair_gaps(s);
    if s.len() > 0 {
        let p = s.drop_last();
        law_spread_is_pair_gaps(p);
        lemma_gaps_nonneg(p, s.last() as int);
        assert(pair_gaps(s) == pair_gaps(p) + gaps_to(p, s.last() as int));
        law_no_spread_means_uniform_lengths(p);
        lemma_zero_gaps_uniform(p, s.last() as int);
        assert forall|i: int, j: int| 0 <= i < s.len() && 0 <= j < s.len() implies s[i] == s[j] by {
            if i < p.len() {
                assert(s[i] == p[i]);
            }
            if j < p.len() {
                assert(s[j] == p[j]);
            }
        }
    }
}

proof fn lemma_total_remove(s: Seq<usize>, j: int)
    requires
        0 <= j < s.len(),
    ensures
        total(s) == total(s.remove(j)) + s[j],
        total_sq(s) == total_sq(s.remove(j)) + s[j] * s[j],
    decreases s.len(),
{
    if j == s.len() - 1 {
        assert(s.remove(j) =~= s.drop_last());
    } else {
        let p = s.drop_last();
        lemma_total_remove(p, j);
        assert(s.remove(j).drop_last() =~= p.remove(j));
        assert(s.remove(j).last() == s.last());
        assert(p[j] == s[j]);
    }
}

/// The sum and the sum of squares of values drawn from a sequence do not
/// depend on its order.
pub proof fn law_totals_ignore_order<A>(a: Seq<A>, b: Seq<A>, f: spec_fn(A) -> usize)
    requires
        a.to_multiset() == b.to_multiset(),
    ensures
        a.len() == b.len(),
        total(a.map_values(f)) == total(b.map_values(f)),
        total_sq(a.map_values(f)) == total_sq(b.map_values(f)),
    decreases a.len(),
{
    broadcast use vstd::seq_lib::group_to_multiset_ensures;

    vstd::seq_lib::to_multiset_len(a);
    vstd::seq_lib::to_multiset_len(b);
    if a.len() == 0 {
        assert(b.len() == 0);
        assert(a.map_values(f) =~= seq![]);
        assert(b.map_values(f) =~= seq![]);
    } else {
        let x = a.last();
        assert(a.contains(x)) by {
            assert(a[a.len() - 1] == x);
        }
        assert(a.to_multiset().count(x) > 0);
        assert(b.to_multiset().count(x) > 0);
        assert(b.contains(x));
        let j = choose|j: int| 0 <= j < b.len() && b[j] == x;
        let a1 = a.drop_last();
        let b1 = b.remove(j);
        assert(a1 =~= a.remove(a.len() - 1));
        law_totals_ignore_order(a1, b1, f);
        let am = a.map_values(f);
        let bm = b.map_values(f);
        assert(am.drop_last() =~= a1.map_values(f));
        assert(bm.remove(j) =~= b1.map_values(f));
        lemma_total_remove(bm, j);
    }
}

/// The spread terms depend only on the lengths, not on their order.
pub proof fn law_spread_ignores_order(a: Seq<usize>, b: Seq<usize>)
    requires
        a.to_multiset() == b.to_multiset(),
    ensures
        spread_of(a) == spread_of(b),
{
    let id = |x: usize| x;
    law_totals_ignore_order(a, b, id);
    assert(a.map_values(id) =~= a);
    assert(b.map_values(id) =~= b);
}

proof fn lemma_total_zero(s: Seq<usize>)
    ensures
        total(s) == 0 <==> forall|i: int| 0 <= i < s.len() ==> s[i] == 0,
    decreases s.len(),
{
    if s.len() > 0 {
        let p = s.drop_last();
        lemma_total_zero(p);
        assert(forall|i: int| 0 <= i < p.len() ==> #[trigger] p[i] == s[i]);
        if total(s) == 0 {
            assert forall|i: int| 0 <= i < s.len() implies s[i] == 0 by {
                if i < p.len() {
                    assert(p[i] == s[i]);
                }
            }
        }
    }
}

/// The rhythm terms are flat exactly when there are fewer than two lengths
/// or every length is zero; any other list of lengths, of any size, has its
/// spread measured.
pub proof fn law_flat_exactly_for_short_or_empty_lengths(s: Seq<usize>)
    ensures
        spread_of(s) is Flat <==> (s.len() < 2 || forall|i: int| 0 <= i < s.len() ==> s[i] == 0),
{
    lemma_total_zero(s);
}

/// For two or more lengths, not all zero, whose terms fit, the result carries
/// their sum and `n` times the sum of their squares minus the square of their
/// sum, for every number `n` of lengths.
pub proof fn law_varied_terms(s: Seq<usize>)
    requires
        s.len() >= 2,
        exists|i: int| 0 <= i < s.len() && s[i] > 0,
        s.len() * total_sq(s) <= u128::MAX,
    ensures
        spread_of(s) == (LengthSpread::Varied {
            total: total(s) as u128,
            spread: (s.len() * total_sq(s) - total(s) * total(s)) as u128,
        }),
        total(s) * total(s) <= s.len() * total_sq(s),
{
    lemma_total_zero(s);
    law_spread_is_pair_gaps(s);
}

/// The sum and the sum of squares grow by each length and its square.
pub proof fn law_totals_add_up(s: Seq<usize>, x: usize)
    ensures
        total(s.push(x)) == total(s) + x,
        total_sq(s.push(x)) == total_sq(s) + x * x,
{
    assert(s.push(x).drop_last() =~= s);
}

/// The coefficient-of-variation terms of `lengths`, computed exactly.
pub fn length_spread(lengths: &[usize]) -> (r: LengthSpread)
    ensures
        r == spread_of(lengths@),
{
    let n = lengths.len();
    if n < 2 {
        return LengthSpread::Flat;
    }
    let mut sum: u128 = 0;
    let mut sq: u128 = 0;
    let mut sq_fits = true;
    let mut i: usize = 0;
    while i < n
        invariant
            n == lengths@.len(),
            i <= n,
            sum == total(lengths@.take(i as int)),
            sum <= i * (usize::MAX as int),
            sq_fits ==> sq == total_sq(lengths@.take(i as int)),
            !sq_fits ==> total_sq(lengths@.take(i as int)) > u128::MAX,
        decreases n - i,
    {
        let x = lengths[i];
        let ghost p = lengths@.take(i as int);
        assert(lengths@.take(i + 1).drop_last() =~= p);
        assert(i * (usize::MAX as int) + usize::MAX <= usize::MAX * usize::MAX) by (nonlinear_arith)
            requires
                i < usize::MAX,
        ;
        assert(usize::MAX * usize::MAX < u128::MAX) by (nonlinear_arith);
        assert((i + 1) * (usize::MAX as int) == i * (usize::MAX as int) + usize::MAX) by (nonlinear_arith);
        assert(x * x <= usize::MAX * usize::MAX) by (nonlinear_arith)
            requires
                x <= usize::MAX,
        ;
        sum = sum + x as u128;
        let xx = (x as u128) * (x as u128);
        if sq_fits {
            match sq.checked_add(xx) {
                Some(v) => {
                    sq = v;
                },
                None => {
                    sq_fits = false;
                },
            }
        }
        i = i + 1;
    }
    assert(lengths@.take(n as int) =~= lengths@);
    if sum == 0 {
        return LengthSpread::Flat;
    }
    if !sq_fits {
        assert(n * total_sq(lengths@) > u128::MAX) by (nonlinear_arith)
            requires
                n >= 2,
                total_sq(lengths@) > u128::MAX,
        ;
        return LengthSpread::TooLarge;
    }
    match (n as u128).checked_mul(sq) {
        None => LengthSpread::TooLarge,
        Some(nq) => {
            proof {
                law_spread_is_pair_gaps(lengths@);
            }
            let ss = sum * sum;
            LengthSpread::Varied { total: sum, spread: nq - ss }
        },
    }
}

} // verus!
