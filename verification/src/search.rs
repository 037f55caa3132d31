//! Branch-and-bound search for a low-variance fusion sequence.
//!
//! Every adjacent pair is a candidate fusion; each candidate state is scored
//! by the adjacency-free sweep estimate and pruned when that estimate cannot
//! beat the best terminal state recorded so far. The estimate is a heuristic
//! cutoff, not a proved lower bound, so pruning trades exhaustiveness for
//! speed; what is proved is that any returned graph is reachable from the
//! input by valid fusions, and that the search succeeds exactly when some
//! fusion sequence reaches the target count.

use crate::country::{
    fusion_shape, gdps_of, has_name, idx_of, links_of, links_to, sum_sq_of, total_of,
    unique_names, wf, Country, MAX_TOTAL_GDP,
};
use crate::order::{lex_cmp, lex_lt, Cmp};
use crate::region::{concat_name, copy_bytes, fused_name, RegionV};
use crate::stats::{
    lemma_seqsum_nonneg, lemma_seqsqsum_le_square, lemma_square_le_len_sqsum, ratio_lt, Ratio,
};
use vstd::prelude::*;

verus! {

/// Why an optimization run failed.
#[derive(Debug, PartialEq, Eq)]
pub enum OptimizeError {
    /// The target region count exceeds the current region count.
    TargetTooLarge,
    /// A nonempty graph cannot be fused down to zero regions.
    ZeroTarget,
    /// No terminal state was ever reached (disconnected graph).
    NoSolution,
}

/// The shared best-known result of a search: the best terminal graph seen so
/// far, with its sum of squared GDP values as the comparison score. With the
/// region count and the preserved total fixed, comparing variances is
/// exactly comparing these scores.
pub struct Best {
    pub found: Option<Country>,
    pub score: u128,
}

/// What the search maintains about the best-known cell: any recorded graph
/// is well formed, terminal, carries the preserved total, and is scored by
/// its exact sum of squares.
pub open spec fn best_inv(b: Best, t: int, total: int) -> bool {
    match b.found {
        Some(c) => wf(c@) && c@.len() == t && total_of(c@) == total && b.score as int
            == sum_sq_of(c@),
        None => true,
    }
}

/// One valid fusion step leads from `a` to `b`: some linked pair, taken
/// with the greater name first and a fresh fused name, produces exactly `b`.
pub open spec fn fuses_to(a: Seq<RegionV>, b: Seq<RegionV>) -> bool {
    exists|l: Seq<u8>, r: Seq<u8>|
        links_to(a, l, r) && lex_lt(r, l) && !has_name(a, fused_name(l, r))
            && #[trigger] fusion_shape(a, b, l, r)
}

/// `b` is obtained from `a` by a sequence of valid fusion steps (possibly
/// none).
pub open spec fn reaches(a: Seq<RegionV>, b: Seq<RegionV>) -> bool
    decreases a.len(),
{
    a == b || (exists|c: Seq<RegionV>|
        c.len() == a.len() - 1 && #[trigger] fuses_to(a, c) && reaches(c, b))
}

/// Some graph with exactly `t` regions is reachable from `a` by fusions.
pub open spec fn reachable_terminal(a: Seq<RegionV>, t: int) -> bool {
    exists|c: Seq<RegionV>| #[trigger] reaches(a, c) && c.len() == t
}

/// Fusing one graph at one ordered pair yields one state: the shape
/// predicate, whose link list is strictly sorted with a fixed member set,
/// admits a single sequence.
proof fn lemma_fusion_deterministic(
    a: Seq<RegionV>,
    b1: Seq<RegionV>,
    b2: Seq<RegionV>,
    l: Seq<u8>,
    r: Seq<u8>,
)
    requires
        fusion_shape(a, b1, l, r),
        fusion_shape(a, b2, l, r),
    ensures
        b1 == b2,
{
    let x1 = b1.last();
    let x2 = b2.last();
    assert(forall|m: Seq<u8>| x1.links.contains(m) <==> x2.links.contains(m));
    crate::region::lemma_names_sorted_unique(x1.links, x2.links);
    assert(x1 == x2);
}

/// This ordered pair can be fused and some graph reached through it has
/// exactly `t` regions.
spec fn pair_leads(a: Seq<RegionV>, l: Seq<u8>, r: Seq<u8>, t: int) -> bool {
    &&& links_to(a, l, r)
    &&& lex_lt(r, l)
    &&& !has_name(a, fused_name(l, r))
    &&& exists|c: Seq<RegionV>| #[trigger] fusion_shape(a, c, l, r) && reachable_terminal(c, t)
}

/// The list holds the pair of the two names.
pub open spec fn pair_listed(ps: Seq<(Vec<u8>, Vec<u8>)>, a: Seq<u8>, b: Seq<u8>) -> bool {
    exists|q: int| 0 <= q < ps.len() && (#[trigger] ps[q]).0@ == a && ps[q].1@ == b
}

/// Every undirected adjacent pair, enumerated once: the lexicographically
/// greater name first, and no linked pair missed.
fn candidate_pairs(c: &Country) -> (pairs: Vec<(Vec<u8>, Vec<u8>)>)
    requires
        wf(c@),
    ensures
        forall|q: int|
            0 <= q < pairs@.len() ==> links_to(c@, (#[trigger] pairs@[q]).0@, pairs@[q].1@),
        forall|q: int|
            0 <= q < pairs@.len() ==> lex_lt((#[trigger] pairs@[q]).1@, pairs@[q].0@),
        forall|i: int, k: int|
            0 <= i < c@.len() && 0 <= k < c@[i].links.len() && lex_lt(
                #[trigger] c@[i].links[k],
                c@[i].name,
            ) ==> pair_listed(pairs@, c@[i].name, c@[i].links[k]),
{
    let mut pairs: Vec<(Vec<u8>, Vec<u8>)> = Vec::new();
    let n = c.regions.len();
    let mut i: usize = 0;
    proof {
        assert(c@.len() == c.regions@.len());
    }
    while i < n
        invariant
            i <= n,
            n == c.regions@.len(),
            c@.len() == n,
            wf(c@),
            forall|q: int|
                0 <= q < pairs@.len() ==> links_to(c@, (#[trigger] pairs@[q]).0@, pairs@[q].1@),
            forall|q: int|
                0 <= q < pairs@.len() ==> lex_lt((#[trigger] pairs@[q]).1@, pairs@[q].0@),
            forall|a: int, kk: int|
                0 <= a < i && 0 <= kk < c@[a].links.len() && lex_lt(
                    #[trigger] c@[a].links[kk],
                    c@[a].name,
                ) ==> pair_listed(pairs@, c@[a].name, c@[a].links[kk]),
        decreases n - i,
    {
        let m = c.regions[i].links.len();
        let mut k: usize = 0;
        while k < m
            invariant
                i < n,
                k <= m,
                n == c.regions@.len(),
                c@.len() == n,
                wf(c@),
                m == c.regions@[i as int].links@.len(),
                m == c@[i as int].links.len(),
                forall|q: int|
                    0 <= q < pairs@.len() ==> links_to(
                        c@,
                        (#[trigger] pairs@[q]).0@,
                        pairs@[q].1@,
                    ),
                forall|q: int|
                    0 <= q < pairs@.len() ==> lex_lt((#[trigger] pairs@[q]).1@, pairs@[q].0@),
                forall|a: int, kk: int|
                    0 <= a < i && 0 <= kk < c@[a].links.len() && lex_lt(
                        #[trigger] c@[a].links[kk],
                        c@[a].name,
                    ) ==> pair_listed(pairs@, c@[a].name, c@[a].links[kk]),
                forall|kk: int|
                    0 <= kk < k && lex_lt(
                        #[trigger] c@[i as int].links[kk],
                        c@[i as int].name,
                    ) ==> pair_listed(pairs@, c@[i as int].name, c@[i as int].links[kk]),
            decreases m - k,
        {
            let link = &c.regions[i].links[k];
            let name = &c.regions[i].name;
            proof {
                assert(c@[i as int] == c.regions@[i as int]@);
                assert(c@[i as int].name == c.regions@[i as int].name@);
                assert(c@[i as int].links[k as int] == c.regions@[i as int].links@[k as int]@);
            }
            let take = match lex_cmp(link, name) {
                Cmp::Lt => true,
                _ => false,
            };
            if take {
                let ghost before = pairs@;
                pairs.push((copy_bytes(name), copy_bytes(link)));
                proof {
                    assert(c@[i as int].links.contains(link@)) by {
                        assert(c@[i as int].links[k as int] == link@);
                    }
                    assert(links_to(c@, name@, link@)) by {
                        assert(has_name(c@, name@)) by {
                            assert(c@[i as int].name == name@);
                        }
                        let j = crate::country::idx_of(c@, name@);
                        assert(0 <= j < c@.len() && c@[j].name == name@);
                        assert(j == i as int) by {
                            if j != i as int {
                                assert(unique_names(c@));
                                assert(false);
                            }
                        }
                    }
                    assert(forall|q: int|
                        0 <= q < before.len() ==> pairs@[q] == #[trigger] before[q]);
                    assert forall|a: Seq<u8>, b: Seq<u8>| pair_listed(before, a, b) implies
                        pair_listed(pairs@, a, b) by {
                        let q = choose|q: int|
                            0 <= q < before.len() && (#[trigger] before[q]).0@ == a
                                && before[q].1@ == b;
                        assert(pairs@[q] == before[q]);
                    }
                    assert(pairs@[pairs@.len() - 1].0@ == name@);
                    assert(pairs@[pairs@.len() - 1].1@ == link@);
                    assert(pair_listed(pairs@, c@[i as int].name, c@[i as int].links[k as int]));
                }
            } else {
                proof {
                    assert(!lex_lt(c@[i as int].links[k as int], c@[i as int].name));
                }
            }
            k += 1;
        }
        i += 1;
    }
    pairs
}

impl Country {
    /// One node of the search: at a terminal state, records the graph in the
    /// best-known cell when its variance is strictly better; otherwise tries
    /// every adjacent-pair fusion, skipping candidates whose sweep estimate
    /// cannot beat the best-known variance. Whatever the cell holds
    /// afterwards is a terminal state reached from this graph by valid
    /// fusions (or the unchanged earlier best), a terminal state is recorded
    /// whenever one is reachable at all, and a terminal visit never leaves a
    /// worse score behind.
    pub fn optimize3_recursion(&self, target_count: usize, best_yet: &mut Best)
        requires
            wf(self@),
            1 <= target_count <= self@.len(),
            best_inv(*old(best_yet), target_count as int, total_of(self@)),
        ensures
            best_inv(*final(best_yet), target_count as int, total_of(self@)),
            old(best_yet).found is Some ==> final(best_yet).found is Some,
            (old(best_yet).found is Some && final(best_yet).found is Some)
                ==> final(best_yet).score <= old(best_yet).score,
            self@.len() == target_count ==> final(best_yet).found is Some,
            self@.len() == target_count ==> final(best_yet).score <= sum_sq_of(self@),
            final(best_yet).found matches Some(c) ==> ((old(best_yet).found matches Some(c0)
                && c == c0) || reaches(self@, c@)),
            old(best_yet).found is None && reachable_terminal(self@, target_count as int)
                ==> final(best_yet).found is Some,
        decreases self@.len() - target_count,
    {
        let n = self.len();
        if n == target_count {
            let s = self.sum_sq();
            let better = match &best_yet.found {
                Option::None => true,
                Option::Some(_) => s < best_yet.score,
            };
            if better {
                let dup = self.duplicate();
                proof {
                    assert(reaches(self@, dup@));
                }
                best_yet.found = Some(dup);
                best_yet.score = s;
            }
            return ;
        }
        let t = target_count;
        let tot = self.total_gdp();
        let pairs = candidate_pairs(self);
        let mut k: usize = 0;
        while k < pairs.len()
            invariant
                wf(self@),
                1 <= t < self@.len(),
                t == target_count,
                tot as int == total_of(self@),
                tot <= MAX_TOTAL_GDP,
                k <= pairs@.len(),
                forall|q: int|
                    0 <= q < pairs@.len() ==> links_to(
                        self@,
                        (#[trigger] pairs@[q]).0@,
                        pairs@[q].1@,
                    ),
                best_inv(*best_yet, t as int, total_of(self@)),
                old(best_yet).found is Some ==> best_yet.found is Some,
                (old(best_yet).found is Some && best_yet.found is Some)
                    ==> best_yet.score <= old(best_yet).score,
                forall|q: int|
                    0 <= q < pairs@.len() ==> lex_lt((#[trigger] pairs@[q]).1@, pairs@[q].0@),
                best_yet.found matches Some(c) ==> ((old(best_yet).found matches Some(c0)
                    && c == c0) || reaches(self@, c@)),
                (old(best_yet).found is None && best_yet.found is None) ==> forall|q: int|
                    0 <= q < k ==> !pair_leads(
                        self@,
                        (#[trigger] pairs@[q]).0@,
                        pairs@[q].1@,
                        t as int,
                    ),
            decreases pairs@.len() - k,
        {
            let a = &pairs[k].0;
            let b = &pairs[k].1;
            let fname = concat_name(a, b);
            proof {
                assert(fname@ == fused_name(a@, b@));
                assert(pairs@[k as int].0@ == a@);
                assert(pairs@[k as int].1@ == b@);
                assert(links_to(self@, a@, b@));
                assert(lex_lt(b@, a@));
            }
            // a fused name colliding with an existing region cannot occur on
            // separator-free input names; such a candidate is skipped
            if !self.contains_name(&fname) {
                let mut c2 = self.duplicate();
                c2.fuse_regions(a, b);
                proof {
                    assert(fusion_shape(self@, c2@, a@, b@));
                    assert(fuses_to(self@, c2@));
                    assert(c2@.len() == self@.len() - 1);
                }
                let explore = match &best_yet.found {
                    Option::None => true,
                    Option::Some(bc) => {
                        proof {
                            let g = gdps_of(bc@);
                            assert(g.len() == bc@.len());
                            assert(forall|x: int| 0 <= x < g.len() ==> #[trigger] g[x] >= 0);
                            lemma_seqsum_nonneg(g);
                            lemma_seqsqsum_le_square(g);
                            lemma_square_le_len_sqsum(g);
                            assert(total_of(bc@) * total_of(bc@) <= 0x10000000000000000)
                                by (nonlinear_arith)
                                requires
                                    0 <= total_of(bc@) <= 0x100000000,
                            ;
                            assert((t as int) * (best_yet.score as int) <= 0x100
                                * 0x10000000000000000) by (nonlinear_arith)
                                requires
                                    0 <= t as int <= 0x100,
                                    0 <= best_yet.score as int <= 0x10000000000000000,
                            ;
                            assert((tot as int) * (tot as int) <= (t as int) * (best_yet.score
                                as int)) by {
                                assert(total_of(bc@) * total_of(bc@) <= bc@.len() * sum_sq_of(
                                    bc@,
                                ));
                            }
                            assert(1 <= (t as int) * (t as int) <= 0x10000) by (nonlinear_arith)
                                requires
                                    1 <= t as int <= 0x100,
                            ;
                        }
                        let est = c2.optimal_std_dev_sq(t);
                        let bv = Ratio {
                            num: (t as u128) * best_yet.score - (tot as u128) * (tot as u128),
                            den: (t as u128) * (t as u128),
                        };
                        proof {
                            assert(est.num * bv.den <= 0x8000000000000000000000000 * 0x10000)
                                by (nonlinear_arith)
                                requires
                                    0 <= est.num <= 0x8000000000000000000000000,
                                    0 <= bv.den <= 0x10000,
                            ;
                            assert(bv.num * est.den <= 0x100000000000000000000 * 0x100000000)
                                by (nonlinear_arith)
                                requires
                                    0 <= bv.num <= 0x100000000000000000000,
                                    0 <= est.den <= 0x100000000,
                            ;
                        }
                        ratio_lt(&est, &bv)
                    },
                };
                if explore {
                    let ghost before_call = *best_yet;
                    c2.optimize3_recursion(t, best_yet);
                    proof {
                        // any newly recorded best is reachable through this
                        // fusion step
                        if best_yet.found is Some {
                            let cc = best_yet.found->Some_0;
                            if !(before_call.found is Some && cc == before_call.found->Some_0) {
                                assert(reaches(c2@, cc@));
                                assert(reaches(self@, cc@));
                            }
                        }
                        // an empty cell after the call means this subtree
                        // holds no terminal state
                        if old(best_yet).found is None && best_yet.found is None {
                            assert(before_call.found is None);
                            assert(!reachable_terminal(c2@, t as int));
                            assert(!pair_leads(self@, a@, b@, t as int)) by {
                                if pair_leads(self@, a@, b@, t as int) {
                                    let c3 = choose|c3: Seq<RegionV>|
                                        #[trigger] fusion_shape(self@, c3, a@, b@)
                                            && reachable_terminal(c3, t as int);
                                    lemma_fusion_deterministic(self@, c3, c2@, a@, b@);
                                }
                            }
                        }
                    }
                } else {
                    proof {
                        // pruning only happens once a best is recorded
                        assert(best_yet.found is Some);
                    }
                }
            } else {
                proof {
                    // a colliding fused name means this pair is no valid
                    // fusion step at all
                    assert(has_name(self@, fused_name(a@, b@)));
                    assert(!pair_leads(self@, a@, b@, t as int));
                }
            }
            k += 1;
        }
        proof {
            // if a terminal state is reachable and the cell is still empty,
            // some candidate pair must have led to it: contradiction
            if old(best_yet).found is None && best_yet.found is None && reachable_terminal(
                self@,
                t as int,
            ) {
                let cterm = choose|c: Seq<RegionV>|
                    #[trigger] reaches(self@, c) && c.len() == t as int;
                assert(self@ != cterm);
                assert(exists|c: Seq<RegionV>|
                    c.len() == self@.len() - 1 && #[trigger] fuses_to(self@, c) && reaches(
                        c,
                        cterm,
                    ));
                let mid = choose|c: Seq<RegionV>|
                    c.len() == self@.len() - 1 && #[trigger] fuses_to(self@, c) && reaches(
                        c,
                        cterm,
                    );
                assert(exists|l: Seq<u8>, r: Seq<u8>|
                    links_to(self@, l, r) && lex_lt(r, l) && !has_name(self@, fused_name(l, r))
                        && #[trigger] fusion_shape(self@, mid, l, r));
                let (l, r) = choose|l: Seq<u8>, r: Seq<u8>|
                    links_to(self@, l, r) && lex_lt(r, l) && !has_name(self@, fused_name(l, r))
                        && #[trigger] fusion_shape(self@, mid, l, r);
                let i = idx_of(self@, l);
                assert(0 <= i < self@.len() && self@[i].name == l);
                assert(self@[i].links.contains(r)) by {
                    assert(links_of(self@, l) == self@[idx_of(self@, l)].links);
                }
                let kk = choose|kk: int|
                    0 <= kk < self@[i].links.len() && self@[i].links[kk] == r;
                assert(lex_lt(self@[i].links[kk], self@[i].name));
                assert(pair_listed(pairs@, self@[i].name, self@[i].links[kk]));
                let q = choose|q: int|
                    0 <= q < pairs@.len() && (#[trigger] pairs@[q]).0@ == l && pairs@[q].1@
                        == r;
                assert(!pair_leads(self@, l, r, t as int));
                assert(reachable_terminal(mid, t as int)) by {
                    assert(reaches(mid, cterm) && cterm.len() == t as int);
                }
                assert(pair_leads(self@, l, r, t as int));
                assert(false);
            }
        }
    }

    /// Reduces the graph to exactly `target_count` regions by a pruned
    /// search over fusion sequences, preferring low GDP variance. A target
    /// equal to the current count succeeds without change; a larger target,
    /// or a zero target on a nonempty graph, fails without change. For a
    /// target genuinely below the count, the call succeeds exactly when some
    /// fusion sequence reaches it (it fails, unchanged, on a graph whose
    /// components cannot be reduced far enough), and the resulting graph is
    /// itself obtained from the input by valid fusions. Minimality of the
    /// result's variance is not part of the contract: the sweep estimate
    /// used for pruning can overestimate, so a pruned branch may hide a
    /// better grouping.
    pub fn optimize3(&mut self, target_count: usize) -> (res: Result<(), OptimizeError>)
        requires
            wf(old(self)@),
        ensures
            wf(final(self)@),
            res is Ok ==> final(self)@.len() == target_count && total_of(final(self)@)
                == total_of(old(self)@),
            res is Err ==> final(self)@ == old(self)@,
            target_count == old(self)@.len() ==> res is Ok && final(self)@ == old(self)@,
            target_count > old(self)@.len() ==> res == Err::<(), OptimizeError>(
                OptimizeError::TargetTooLarge,
            ),
            target_count == 0 && old(self)@.len() > 0 ==> res == Err::<(), OptimizeError>(
                OptimizeError::ZeroTarget,
            ),
            0 < target_count < old(self)@.len() ==> (res is Ok || res == Err::<(),
                OptimizeError>(OptimizeError::NoSolution)),
            res is Ok ==> reaches(old(self)@, final(self)@),
            0 < target_count < old(self)@.len() ==> (res is Ok <==> reachable_terminal(
                old(self)@,
                target_count as int,
            )),
    {
        let n = self.len();
        if target_count == n {
            proof {
                assert(reaches(self@, self@));
            }
            return Ok(());
        }
        if target_count > n {
            return Err(OptimizeError::TargetTooLarge);
        }
        if target_count == 0 {
            return Err(OptimizeError::ZeroTarget);
        }
        let mut best = Best { found: None, score: 0 };
        self.optimize3_recursion(target_count, &mut best);
        match best.found {
            Option::Some(c) => {
                proof {
                    assert(reaches(self@, c@));
                    assert(c@.len() == target_count as int);
                    assert(reachable_terminal(self@, target_count as int));
                    assert(c@ == c.regions@.map_values(|r: crate::region::Region| r@));
                }
                self.regions = c.regions;
                Ok(())
            },
            Option::None => {
                proof {
                    // an empty cell refutes reachability of any terminal
                    assert(!reachable_terminal(self@, target_count as int));
                }
                Err(OptimizeError::NoSolution)
            },
        }
    }
}

} // verus!
