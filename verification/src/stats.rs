//! Exact integer statistics: sums, sums of squares, and variance ratios.
//!
//! A population variance of integer values is a rational number; it is kept
//! as an explicit numerator/denominator pair so that every comparison made by
//! the search is exact.

use vstd::multiset::Multiset;
use vstd::prelude::*;

verus! {

/// Sum of a sequence of integers.
pub open spec fn seqsum(s: Seq<int>) -> int
    decreases s.len(),
{
    if s.len() == 0 {
        0
    } else {
        seqsum(s.drop_last()) + s.last()
    }
}

/// Sum of the squares of a sequence of integers.
pub open spec fn seqsqsum(s: Seq<int>) -> int
    decreases s.len(),
{
    if s.len() == 0 {
        0
    } else {
        seqsqsum(s.drop_last()) + s.last() * s.last()
    }
}

pub proof fn lemma_seqsum_push(s: Seq<int>, x: int)
    ensures
        seqsum(s.push(x)) == seqsum(s) + x,
        seqsqsum(s.push(x)) == seqsqsum(s) + x * x,
{
    assert(s.push(x).drop_last() =~= s);
    assert(s.push(x).last() == x);
}

pub proof fn lemma_seqsum_nonneg(s: Seq<int>)
    requires
        forall|i: int| 0 <= i < s.len() ==> s[i] >= 0,
    ensures
        seqsum(s) >= 0,
        seqsqsum(s) >= 0,
    decreases s.len(),
{
    if s.len() > 0 {
        lemma_seqsum_nonneg(s.drop_last());
        assert(s.last() * s.last() >= 0) by (nonlinear_arith);
    }
}

/// The sum of a split is the split of the sums.
pub proof fn lemma_seqsum_split(s: Seq<int>, i: int)
    requires
        0 <= i <= s.len(),
    ensures
        seqsum(s) == seqsum(s.subrange(0, i)) + seqsum(s.subrange(i, s.len() as int)),
        seqsqsum(s) == seqsqsum(s.subrange(0, i)) + seqsqsum(s.subrange(i, s.len() as int)),
    decreases s.len() - i,
{
    let n = s.len() as int;
    if i == n {
        assert(s.subrange(0, n) =~= s);
        assert(s.subrange(n, n).len() == 0);
    } else {
        lemma_seqsum_split(s, i + 1);
        let a = s.subrange(0, i);
        let b = s.subrange(0, i + 1);
        assert(b =~= a.push(s[i]));
        lemma_seqsum_push(a, s[i]);
        let c = s.subrange(i, n);
        let d = s.subrange(i + 1, n);
        assert(c =~= seq![s[i]] + d);
        lemma_seqsum_cons(s[i], d);
    }
}

pub proof fn lemma_seqsum_cons(x: int, s: Seq<int>)
    ensures
        seqsum(seq![x] + s) == x + seqsum(s),
        seqsqsum(seq![x] + s) == x * x + seqsqsum(s),
    decreases s.len(),
{
    if s.len() == 0 {
        let t = seq![x] + s;
        assert(t.len() == 1);
        assert(t.last() == x);
        assert(t.drop_last() =~= Seq::<int>::empty());
        assert(seqsum(t.drop_last()) == 0);
        assert(seqsqsum(t.drop_last()) == 0);
        assert(seqsum(t) == seqsum(t.drop_last()) + t.last());
        assert(seqsqsum(t) == seqsqsum(t.drop_last()) + t.last() * t.last());
        assert(seqsum(s) == 0);
        assert(seqsqsum(s) == 0);
    } else {
        lemma_seqsum_cons(x, s.drop_last());
        assert((seq![x] + s).drop_last() =~= seq![x] + s.drop_last());
        assert((seq![x] + s).last() == s.last());
    }
}

/// Every element of a nonnegative sequence is at most the sum.
pub proof fn lemma_elem_le_seqsum(s: Seq<int>, i: int)
    requires
        forall|k: int| 0 <= k < s.len() ==> s[k] >= 0,
        0 <= i < s.len(),
    ensures
        s[i] <= seqsum(s),
    decreases s.len(),
{
    if i == s.len() - 1 {
        lemma_seqsum_nonneg(s.drop_last());
    } else {
        lemma_elem_le_seqsum(s.drop_last(), i);
        assert(s.drop_last()[i] == s[i]);
    }
}

/// Two distinct elements of a nonnegative sequence sum to at most the sum.
pub proof fn lemma_two_elems_le_seqsum(s: Seq<int>, i: int, j: int)
    requires
        forall|k: int| 0 <= k < s.len() ==> s[k] >= 0,
        0 <= i < s.len(),
        0 <= j < s.len(),
        i != j,
    ensures
        s[i] + s[j] <= seqsum(s),
    decreases s.len(),
{
    if j == s.len() - 1 {
        lemma_elem_le_seqsum(s.drop_last(), i);
    } else if i == s.len() - 1 {
        lemma_elem_le_seqsum(s.drop_last(), j);
    } else {
        lemma_two_elems_le_seqsum(s.drop_last(), i, j);
    }
}

/// For nonnegative values the sum of squares is at most the square of the sum.
pub proof fn lemma_seqsqsum_le_square(s: Seq<int>)
    requires
        forall|k: int| 0 <= k < s.len() ==> s[k] >= 0,
    ensures
        seqsqsum(s) <= seqsum(s) * seqsum(s),
    decreases s.len(),
{
    if s.len() > 0 {
        lemma_seqsqsum_le_square(s.drop_last());
        lemma_seqsum_nonneg(s.drop_last());
        let q = seqsqsum(s.drop_last());
        let t = seqsum(s.drop_last());
        let x = s.last();
        assert(q + x * x <= (t + x) * (t + x)) by (nonlinear_arith)
            requires
                q <= t * t,
                t >= 0,
                x >= 0,
        ;
    }
}

/// `2 * seqsum(s) * x <= seqsqsum(s) + s.len() * x * x`, the elementwise
/// `2ab <= a^2 + b^2` summed over the sequence.
proof fn lemma_double_product(s: Seq<int>, x: int)
    ensures
        2 * seqsum(s) * x <= seqsqsum(s) + s.len() * x * x,
    decreases s.len(),
{
    if s.len() > 0 {
        lemma_double_product(s.drop_last(), x);
        let t = seqsum(s.drop_last());
        let q = seqsqsum(s.drop_last());
        let y = s.last();
        let n = s.drop_last().len() as int;
        assert(2 * (t + y) * x <= (q + y * y) + (n + 1) * x * x) by (nonlinear_arith)
            requires
                2 * t * x <= q + n * x * x,
        ;
    }
}

/// The square of the sum is at most the length times the sum of squares;
/// hence a population variance numerator is never negative.
pub proof fn lemma_square_le_len_sqsum(s: Seq<int>)
    ensures
        seqsum(s) * seqsum(s) <= s.len() * seqsqsum(s),
    decreases s.len(),
{
    if s.len() > 0 {
        lemma_square_le_len_sqsum(s.drop_last());
        lemma_double_product(s.drop_last(), s.last());
        let t = seqsum(s.drop_last());
        let q = seqsqsum(s.drop_last());
        let x = s.last();
        let n = s.drop_last().len() as int;
        assert((t + x) * (t + x) <= (n + 1) * (q + x * x)) by (nonlinear_arith)
            requires
                t * t <= n * q,
                2 * t * x <= q + n * x * x,
                n >= 0,
        ;
    }
}

/// Removing one element removes its contribution from the sum.
pub proof fn lemma_seqsum_remove(s: Seq<int>, j: int)
    requires
        0 <= j < s.len(),
    ensures
        seqsum(s) == seqsum(s.remove(j)) + s[j],
    decreases s.len(),
{
    if j == s.len() - 1 {
        assert(s.remove(j) =~= s.drop_last());
    } else {
        assert(s.remove(j).drop_last() =~= s.drop_last().remove(j));
        assert(s.remove(j).last() == s.last());
        lemma_seqsum_remove(s.drop_last(), j);
        assert(s.drop_last()[j] == s[j]);
    }
}

/// The sum depends only on the multiset of values, not on their order.
pub proof fn lemma_seqsum_multiset(s1: Seq<int>, s2: Seq<int>)
    requires
        s1.to_multiset() == s2.to_multiset(),
    ensures
        seqsum(s1) == seqsum(s2),
    decreases s1.len(),
{
    broadcast use vstd::seq_lib::group_to_multiset_ensures;
    broadcast use vstd::multiset::group_multiset_axioms;

    assert(s1.to_multiset().len() == s1.len());
    assert(s2.to_multiset().len() == s2.len());
    if s1.len() == 0 {
        assert(s2.len() == 0);
    } else {
        let x = s1.last();
        assert(s1 =~= s1.drop_last().push(x));
        assert(s1.drop_last().push(x).to_multiset() =~= s1.drop_last().to_multiset().insert(x));
        assert(s1.to_multiset().count(x) > 0);
        assert(s2.to_multiset().count(x) > 0);
        assert(s2.contains(x));
        let j = choose|j: int| 0 <= j < s2.len() && s2[j] == x;
        assert(s2.remove(j).to_multiset() == s2.to_multiset().remove(s2[j]));
        assert(s1.drop_last().to_multiset() =~= s2.remove(j).to_multiset());
        lemma_seqsum_multiset(s1.drop_last(), s2.remove(j));
        lemma_seqsum_remove(s2, j);
    }
}

/// The integer values of a sequence of machine words.
pub open spec fn ints_of(s: Seq<u64>) -> Seq<int> {
    s.map_values(|x: u64| x as int)
}

/// Equal multisets of words have equal multisets of integer values.
pub proof fn lemma_ints_of_multiset(s1: Seq<u64>, s2: Seq<u64>)
    requires
        s1.to_multiset() == s2.to_multiset(),
    ensures
        ints_of(s1).to_multiset() == ints_of(s2).to_multiset(),
    decreases s1.len(),
{
    broadcast use vstd::seq_lib::group_to_multiset_ensures;
    broadcast use vstd::multiset::group_multiset_axioms;

    assert(s1.to_multiset().len() == s1.len());
    assert(s2.to_multiset().len() == s2.len());
    if s1.len() == 0 {
        assert(s2.len() == 0);
        assert(ints_of(s1) =~= Seq::<int>::empty());
        assert(ints_of(s2) =~= Seq::<int>::empty());
    } else {
        let x = s1.last();
        assert(s1 =~= s1.drop_last().push(x));
        assert(s1.drop_last().push(x).to_multiset() =~= s1.drop_last().to_multiset().insert(x));
        assert(s2.to_multiset().count(x) > 0);
        assert(s2.contains(x));
        let j = choose|j: int| 0 <= j < s2.len() && s2[j] == x;
        assert(s2.remove(j).to_multiset() == s2.to_multiset().remove(s2[j]));
        assert(s1.drop_last().to_multiset() =~= s2.remove(j).to_multiset());
        lemma_ints_of_multiset(s1.drop_last(), s2.remove(j));
        assert(ints_of(s1) =~= ints_of(s1.drop_last()).push(x as int));
        assert(ints_of(s1.drop_last()).push(x as int).to_multiset() =~= ints_of(
            s1.drop_last(),
        ).to_multiset().insert(x as int));
        assert(ints_of(s2).remove(j) =~= ints_of(s2.remove(j)));
        assert(ints_of(s2).remove(j).to_multiset() == ints_of(s2).to_multiset().remove(
            ints_of(s2)[j],
        ));
        assert(ints_of(s2)[j] == x as int);
        assert(ints_of(s2).to_multiset().count(x as int) > 0) by {
            assert(ints_of(s2).contains(x as int));
        }
        assert(ints_of(s1).to_multiset() =~= ints_of(s2).to_multiset());
    }
}

/// Sorts a vector of words ascending; the multiset of values is unchanged.
pub fn sort_u64(v: &mut Vec<u64>)
    ensures
        final(v)@.len() == old(v)@.len(),
        forall|i: int, j: int| 0 <= i < j < final(v)@.len() ==> final(v)@[i] <= final(v)@[j],
        final(v)@.to_multiset() == old(v)@.to_multiset(),
{
    broadcast use vstd::seq_lib::group_to_multiset_ensures;
    broadcast use vstd::multiset::group_multiset_axioms;

    let ghost orig = v@;
    let mut out: Vec<u64> = Vec::new();
    while v.len() > 0
        invariant
            out@.to_multiset().add(v@.to_multiset()) == orig.to_multiset(),
            out@.len() + v@.len() == orig.len(),
            forall|i: int, j: int| 0 <= i < j < out@.len() ==> out@[i] <= out@[j],
            forall|p: int, q: int|
                0 <= p < out@.len() && 0 <= q < v@.len() ==> out@[p] <= v@[q],
        decreases v@.len(),
    {
        let mut mi: usize = 0;
        let mut k: usize = 1;
        while k < v.len()
            invariant
                v@.len() > 0,
                mi < k,
                k <= v@.len(),
                forall|q: int| 0 <= q < k ==> v@[mi as int] <= v@[q],
            decreases v@.len() - k,
        {
            if v[k] < v[mi] {
                mi = k;
            }
            k += 1;
        }
        let ghost vpre = v@;
        let ghost opre = out@;
        let x = v.remove(mi);
        out.push(x);
        proof {
            broadcast use vstd::seq_lib::group_to_multiset_ensures;
            broadcast use vstd::multiset::group_multiset_axioms;

            assert(vpre.remove(mi as int).to_multiset() == vpre.to_multiset().remove(
                vpre[mi as int],
            ));
            assert(v@.to_multiset() =~= vpre.to_multiset().remove(x));
            assert(opre.push(x).to_multiset() =~= opre.to_multiset().insert(x));
            assert(out@.to_multiset() =~= opre.to_multiset().insert(x));
            assert(vpre.to_multiset().count(x) > 0) by {
                assert(vpre.contains(x));
            }
            assert(out@.to_multiset().add(v@.to_multiset()) =~= orig.to_multiset());
            assert forall|p: int, q: int|
                0 <= p < out@.len() && 0 <= q < v@.len() implies out@[p] <= v@[q] by {
                if p < opre.len() {
                    assert(out@[p] == opre[p]);
                    if q < mi {
                        assert(v@[q] == vpre[q]);
                    } else {
                        assert(v@[q] == vpre[q + 1]);
                    }
                } else {
                    assert(out@[p] == x);
                    if q < mi {
                        assert(v@[q] == vpre[q]);
                    } else {
                        assert(v@[q] == vpre[q + 1]);
                    }
                }
            }
            assert forall|i: int, j: int| 0 <= i < j < out@.len() implies out@[i] <= out@[j] by {
                if j < opre.len() {
                } else {
                    assert(out@[j] == x);
                    assert(out@[i] == opre[i]);
                    assert(opre[i] <= vpre[mi as int]);
                }
            }
        }
    }
    proof {
        assert(v@.len() == 0);
        assert(v@.to_multiset() =~= Multiset::<u64>::empty());
        assert(out@.to_multiset() =~= orig.to_multiset());
    }
    *v = out;
}

/// Scaled squared deviations `(total - t*g)^2` summed over a group of
/// tentatively unmerged values.
pub open spec fn sqdev_sum(kept: Seq<int>, total: int, t: int) -> int
    decreases kept.len(),
{
    if kept.len() == 0 {
        0
    } else {
        sqdev_sum(kept.drop_last(), total, t) + (total - t * kept.last()) * (total - t
            * kept.last())
    }
}

pub proof fn lemma_sqdev_push(kept: Seq<int>, x: int, total: int, t: int)
    ensures
        sqdev_sum(kept.push(x), total, t) == sqdev_sum(kept, total, t) + (total - t * x) * (
        total - t * x),
{
    assert(kept.push(x).drop_last() =~= kept);
    assert(kept.push(x).last() == x);
}

/// One sweep step over the sorted values kept unmerged: at the first prefix
/// whose merged average stays below the next value, the exact variance of
/// that grouping (as numerator and scaled denominator `t^3 * w`); zero when
/// no crossover point exists.
pub open spec fn sweep(kept: Seq<int>, spread: int, total: int, t: int, i: int) -> (int, int)
    decreases kept.len() - i,
{
    if i + 1 >= kept.len() {
        (0, 1)
    } else {
        let w = i + 1;
        let s = spread + seqsum(kept.subrange(0, w));
        if s < kept[w] * (w + 1) {
            (
                (total * w - s * t) * (total * w - s * t) + w * sqdev_sum(
                    kept.subrange(w, kept.len() as int),
                    total,
                    t,
                ),
                t * t * t * w,
            )
        } else {
            sweep(kept, spread, total, t, i + 1)
        }
    }
}

/// The lower-bound estimate for fusing the sorted values down to `t` groups:
/// the `t` largest values are kept, all smaller ones are merged into one
/// sweeping bucket, and the first admissible grouping is scored.
pub open spec fn estimate_spec(sorted: Seq<int>, t: int) -> (int, int) {
    let n = sorted.len() as int;
    let spread = seqsum(sorted.subrange(0, n - t));
    let kept = sorted.subrange(n - t, n);
    sweep(kept, spread, seqsum(sorted), t, 0)
}

/// An exact nonnegative rational, the form every variance is returned in.
pub struct Ratio {
    pub num: u128,
    pub den: u128,
}

/// `a < b` as rationals, by cross-multiplication.
pub open spec fn ratio_lt_spec(a: Ratio, b: Ratio) -> bool {
    a.num * b.den < b.num * a.den
}

/// Exact strict comparison of two nonnegative rationals.
pub fn ratio_lt(a: &Ratio, b: &Ratio) -> (r: bool)
    requires
        a.den > 0,
        b.den > 0,
        a.num * b.den <= u128::MAX,
        b.num * a.den <= u128::MAX,
    ensures
        r == ratio_lt_spec(*a, *b),
{
    a.num * b.den < b.num * a.den
}

} // verus!
