//! A country: an undirected graph of regions keyed by unique names, with
//! mutual (symmetric) adjacency, and the fusion operation on it.

use crate::order::{bytes_eq, lex_lt};
use crate::region::{
    copy_bytes, fused_name, names_sorted, region_ok, views_of, Region, RegionV,
};
use crate::stats::{
    estimate_spec, ints_of, lemma_elem_le_seqsum, lemma_ints_of_multiset, lemma_seqsum_multiset,
    lemma_seqsum_nonneg, lemma_seqsum_push, lemma_seqsum_split, lemma_sqdev_push,
    lemma_seqsqsum_le_square, lemma_square_le_len_sqsum, lemma_two_elems_le_seqsum, seqsqsum,
    seqsum, sort_u64, sqdev_sum, sweep, Ratio,
};
use vstd::prelude::*;
use vstd::relations::{sorted_by, total_ordering};
use vstd::seq_lib::lemma_sorted_unique;

verus! {

/// Most regions a country may hold; keeps every statistic within bounds.
pub const MAX_REGIONS: usize = 256;

/// Largest admissible sum of all GDP values, in integer units; fusion
/// preserves the total, so the bound holds throughout a search.
pub const MAX_TOTAL_GDP: u64 = 4294967296;

/// The full set of regions, forming an undirected graph via mutual adjacency.
pub struct Country {
    pub regions: Vec<Region>,
}

impl View for Country {
    type V = Seq<RegionV>;

    open spec fn view(&self) -> Seq<RegionV> {
        self.regions@.map_values(|r: Region| r@)
    }
}

/// The GDP values of a region sequence, in order.
pub open spec fn gdps_of(rs: Seq<RegionV>) -> Seq<int> {
    rs.map_values(|r: RegionV| r.gdp)
}

/// Sum of all GDP values.
pub open spec fn total_of(rs: Seq<RegionV>) -> int {
    seqsum(gdps_of(rs))
}

/// Sum of the squares of all GDP values.
pub open spec fn sum_sq_of(rs: Seq<RegionV>) -> int {
    seqsqsum(gdps_of(rs))
}

/// The GDP values in ascending order.
pub open spec fn sorted_gdps(rs: Seq<RegionV>) -> Seq<int> {
    gdps_of(rs).sort_by(|a: int, b: int| a <= b)
}

/// Some region carries this name.
pub open spec fn has_name(rs: Seq<RegionV>, n: Seq<u8>) -> bool {
    exists|i: int| 0 <= i < rs.len() && (#[trigger] rs[i]).name == n
}

/// The index of the region carrying this name (the index, under
/// [`unique_names`]).
pub open spec fn idx_of(rs: Seq<RegionV>, n: Seq<u8>) -> int {
    choose|i: int| 0 <= i < rs.len() && (#[trigger] rs[i]).name == n
}

/// GDP of the region carrying this name.
pub open spec fn gdp_of(rs: Seq<RegionV>, n: Seq<u8>) -> int {
    rs[idx_of(rs, n)].gdp
}

/// Link list of the region carrying this name.
pub open spec fn links_of(rs: Seq<RegionV>, n: Seq<u8>) -> Seq<Seq<u8>> {
    rs[idx_of(rs, n)].links
}

/// The region named `a` exists and lists `b` among its links.
pub open spec fn links_to(rs: Seq<RegionV>, a: Seq<u8>, b: Seq<u8>) -> bool {
    has_name(rs, a) && links_of(rs, a).contains(b)
}

/// No two regions share a name.
pub open spec fn unique_names(rs: Seq<RegionV>) -> bool {
    forall|i: int, j: int| 0 <= i < j < rs.len() ==> (#[trigger] rs[i]).name != (#[trigger] rs[j]).name
}

/// Some region is named `n` and lists `me` among its links.
pub open spec fn linked_back(rs: Seq<RegionV>, me: Seq<u8>, n: Seq<u8>) -> bool {
    exists|j: int| 0 <= j < rs.len() && (#[trigger] rs[j]).name == n && rs[j].links.contains(me)
}

/// Graph symmetry: every link names an existing region that links back.
pub open spec fn symmetric(rs: Seq<RegionV>) -> bool {
    forall|i: int, k: int|
        0 <= i < rs.len() && 0 <= k < rs[i].links.len() ==> linked_back(
            rs,
            rs[i].name,
            #[trigger] rs[i].links[k],
        )
}

/// Well-formed graph: unique names, symmetric adjacency, locally sound
/// regions, nonnegative GDP, and within the size bounds.
pub open spec fn wf(rs: Seq<RegionV>) -> bool {
    &&& unique_names(rs)
    &&& symmetric(rs)
    &&& forall|i: int| 0 <= i < rs.len() ==> region_ok(#[trigger] rs[i])
    &&& forall|i: int| 0 <= i < rs.len() ==> (#[trigger] rs[i]).gdp >= 0
    &&& total_of(rs) <= MAX_TOTAL_GDP as int
    &&& rs.len() <= MAX_REGIONS as int
}

/// `s` with the first occurrence of `n` removed, if any.
pub open spec fn remove_first(s: Seq<Seq<u8>>, n: Seq<u8>) -> Seq<Seq<u8>>
    decreases s.len(),
{
    if s.len() == 0 {
        s
    } else if s[0] == n {
        s.drop_first()
    } else {
        seq![s[0]] + remove_first(s.drop_first(), n)
    }
}

proof fn lemma_remove_first_at(s: Seq<Seq<u8>>, p: int, n: Seq<u8>)
    requires
        0 <= p < s.len(),
        s[p] == n,
        forall|k: int| 0 <= k < p ==> s[k] != n,
    ensures
        remove_first(s, n) =~= s.remove(p),
    decreases p,
{
    if p == 0 {
        assert(s.drop_first() =~= s.remove(0));
    } else {
        assert(s.drop_first()[p - 1] == s[p]);
        assert(forall|k: int| 0 <= k < p - 1 ==> #[trigger] s.drop_first()[k] == s[k + 1]);
        lemma_remove_first_at(s.drop_first(), p - 1, n);
        assert(seq![s[0]] + s.drop_first().remove(p - 1) =~= s.remove(p));
    }
}

proof fn lemma_remove_first_absent(s: Seq<Seq<u8>>, n: Seq<u8>)
    requires
        !s.contains(n),
    ensures
        remove_first(s, n) =~= s,
    decreases s.len(),
{
    if s.len() > 0 {
        assert(s[0] != n);
        assert(forall|k: int| 0 <= k < s.drop_first().len() ==> #[trigger] s.drop_first()[k]
            == s[k + 1]);
        assert(!s.drop_first().contains(n)) by {
            if s.drop_first().contains(n) {
                let k = choose|k: int| 0 <= k < s.drop_first().len() && s.drop_first()[k] == n;
                assert(s[k + 1] == n);
            }
        }
        lemma_remove_first_absent(s.drop_first(), n);
        assert(seq![s[0]] + s.drop_first() =~= s);
    }
}

/// Filtering keeps exactly the matching elements, never grows, and
/// preserves distinctness.
pub proof fn lemma_filter_props<A>(s: Seq<A>, pred: spec_fn(A) -> bool)
    ensures
        forall|x: A| #[trigger] s.filter(pred).contains(x) <==> (s.contains(x) && pred(x)),
        s.filter(pred).len() <= s.len(),
        (s.filter(pred).len() == s.len()) <==> (forall|i: int|
            0 <= i < s.len() ==> pred(#[trigger] s[i])),
        s.no_duplicates() ==> s.filter(pred).no_duplicates(),
    decreases s.len(),
{
    reveal(Seq::filter);
    if s.len() == 0 {
        assert forall|x: A| #[trigger] s.filter(pred).contains(x) implies false by {}
    } else {
        let d = s.drop_last();
        let l = s.last();
        lemma_filter_props(d, pred);
        let fd = d.filter(pred);
        let fs = s.filter(pred);
        assert(fs == if pred(l) {
            fd.push(l)
        } else {
            fd
        });
        assert forall|x: A| #[trigger] fs.contains(x) implies (s.contains(x) && pred(x)) by {
            if pred(l) {
                let k = choose|k: int| 0 <= k < fs.len() && fs[k] == x;
                if k < fd.len() {
                    assert(fd.contains(x));
                    let m = choose|m: int| 0 <= m < d.len() && d[m] == x;
                    assert(s[m] == x);
                } else {
                    assert(x == l);
                    assert(s[s.len() - 1] == l);
                }
            } else {
                assert(fd.contains(x));
                let m = choose|m: int| 0 <= m < d.len() && d[m] == x;
                assert(s[m] == x);
            }
        }
        assert forall|x: A| s.contains(x) && pred(x) implies #[trigger] fs.contains(x) by {
            let k = choose|k: int| 0 <= k < s.len() && s[k] == x;
            if k < s.len() - 1 {
                assert(d[k] == x);
                assert(fd.contains(x));
                let m = choose|m: int| 0 <= m < fd.len() && fd[m] == x;
                assert(fs[m] == x);
            } else {
                assert(x == l);
                assert(fs[fs.len() - 1] == l);
            }
        }
        if s.no_duplicates() {
            assert(d.no_duplicates());
            assert(fd.no_duplicates());
            if pred(l) {
                assert(!d.contains(l)) by {
                    if d.contains(l) {
                        let m = choose|m: int| 0 <= m < d.len() && d[m] == l;
                        assert(s[m] == s[s.len() - 1]);
                    }
                }
                assert(!fd.contains(l));
                assert forall|i: int, j: int| 0 <= i < j < fs.len() implies fs[i] != fs[j] by {
                    if j < fd.len() {
                    } else {
                        assert(fs[j] == l);
                        assert(fd.contains(fs[i])) by {
                            assert(fs[i] == fd[i]);
                        }
                    }
                }
            }
        }
        if s.filter(pred).len() == s.len() {
            assert(fd.len() == d.len() && pred(l));
            assert forall|i: int| 0 <= i < s.len() implies pred(#[trigger] s[i]) by {
                if i < s.len() - 1 {
                    assert(s[i] == d[i]);
                }
            }
        }
        if forall|i: int| 0 <= i < s.len() ==> pred(#[trigger] s[i]) {
            assert(pred(l)) by {
                assert(s[s.len() - 1] == l);
            }
            assert(forall|i: int| 0 <= i < d.len() ==> pred(#[trigger] d[i])) by {
                assert(forall|i: int| 0 <= i < d.len() ==> d[i] == s[i]);
            }
            assert(fs.len() == s.len());
        }
    }
}

/// A filter that keeps every element is the identity.
pub proof fn lemma_filter_all<A>(s: Seq<A>, pred: spec_fn(A) -> bool)
    requires
        forall|i: int| 0 <= i < s.len() ==> pred(#[trigger] s[i]),
    ensures
        s.filter(pred) == s,
    decreases s.len(),
{
    reveal(Seq::filter);
    if s.len() > 0 {
        assert(forall|i: int| 0 <= i < s.drop_last().len() ==> #[trigger] s.drop_last()[i]
            == s[i]);
        lemma_filter_all(s.drop_last(), pred);
        assert(pred(s.last())) by {
            assert(s[s.len() - 1] == s.last());
        }
        assert(s.filter(pred) =~= s);
    } else {
        assert(s.filter(pred) =~= s);
    }
}

/// A filter of a sequence of regions with pairwise distinct names keeps the
/// names pairwise distinct.
pub proof fn lemma_filter_unique_names(s: Seq<RegionV>, pred: spec_fn(RegionV) -> bool)
    requires
        unique_names(s),
    ensures
        unique_names(s.filter(pred)),
{
    lemma_filter_props(s, pred);
    assert(s.no_duplicates()) by {
        assert forall|i: int, j: int| 0 <= i < j < s.len() implies s[i] != s[j] by {
            assert(s[i].name != s[j].name);
        }
    }
    let fs = s.filter(pred);
    assert forall|i: int, j: int| 0 <= i < j < fs.len() implies (#[trigger] fs[i]).name
        != (#[trigger] fs[j]).name by {
        assert(fs[i] != fs[j]);
        assert(fs.contains(fs[i]) && fs.contains(fs[j])) by {
            assert(fs[i] == fs[i]);
        }
        assert(s.contains(fs[i]) && s.contains(fs[j]));
        let p = choose|p: int| 0 <= p < s.len() && s[p] == fs[i];
        let q = choose|q: int| 0 <= q < s.len() && s[q] == fs[j];
        assert(p != q);
        if fs[i].name == fs[j].name {
            if p < q {
                assert(s[p].name != s[q].name);
            } else {
                assert(s[q].name != s[p].name);
            }
        }
    }
}

/// Keep every link that names neither fused source region.
pub open spec fn keep_name(l: Seq<u8>, r: Seq<u8>) -> spec_fn(Seq<u8>) -> bool {
    |x: Seq<u8>| x != l && x != r
}

/// A neighbor's rewritten link list: both old names dropped, and the fused
/// name appended exactly when one of them was present.
pub open spec fn rewrite_spec(ls: Seq<Seq<u8>>, l: Seq<u8>, r: Seq<u8>, f: Seq<u8>) -> Seq<
    Seq<u8>,
> {
    let kept = ls.filter(keep_name(l, r));
    if kept.len() < ls.len() {
        kept.push(f)
    } else {
        kept
    }
}

/// A region with its links rewritten after a fusion of `l` and `r` into `f`.
pub open spec fn rewrite_region(rv: RegionV, l: Seq<u8>, r: Seq<u8>, f: Seq<u8>) -> RegionV {
    RegionV { name: rv.name, gdp: rv.gdp, links: rewrite_spec(rv.links, l, r, f) }
}

/// What the rewritten link list contains.
pub proof fn lemma_rewrite_membership(ls: Seq<Seq<u8>>, l: Seq<u8>, r: Seq<u8>, f: Seq<u8>)
    ensures
        forall|n: Seq<u8>| #[trigger] rewrite_spec(ls, l, r, f).contains(n) <==> ((ls.contains(n)
            && n != l && n != r) || (n == f && (ls.contains(l) || ls.contains(r)))),
        ls.no_duplicates() && !ls.contains(f) ==> rewrite_spec(ls, l, r, f).no_duplicates(),
{
    let pred = keep_name(l, r);
    lemma_filter_props(ls, pred);
    let kept = ls.filter(pred);
    let out = rewrite_spec(ls, l, r, f);
    assert((kept.len() < ls.len()) <==> (ls.contains(l) || ls.contains(r))) by {
        if kept.len() < ls.len() {
            assert(!(forall|i: int| 0 <= i < ls.len() ==> pred(#[trigger] ls[i])));
            let i = choose|i: int| 0 <= i < ls.len() && !pred(ls[i]);
            assert(ls[i] == l || ls[i] == r);
        }
        if ls.contains(l) || ls.contains(r) {
            if ls.contains(l) {
                let i = choose|i: int| 0 <= i < ls.len() && ls[i] == l;
                assert(!pred(ls[i]));
                if kept.len() == ls.len() {
                    assert(pred(ls[i]));
                }
            } else {
                let i = choose|i: int| 0 <= i < ls.len() && ls[i] == r;
                assert(!pred(ls[i]));
                if kept.len() == ls.len() {
                    assert(pred(ls[i]));
                }
            }
        }
    }
    assert forall|n: Seq<u8>| #[trigger] out.contains(n) implies ((ls.contains(n) && n != l && n
        != r) || (n == f && (ls.contains(l) || ls.contains(r)))) by {
        if kept.len() < ls.len() {
            let k = choose|k: int| 0 <= k < out.len() && out[k] == n;
            if k < kept.len() {
                assert(kept.contains(n)) by {
                    assert(kept[k] == n);
                }
            } else {
                assert(n == f);
            }
        } else {
            assert(kept.contains(n));
        }
    }
    assert forall|n: Seq<u8>| ((ls.contains(n) && n != l && n != r) || (n == f && (ls.contains(l)
        || ls.contains(r)))) implies #[trigger] out.contains(n) by {
        if ls.contains(n) && n != l && n != r {
            assert(kept.contains(n));
            let k = choose|k: int| 0 <= k < kept.len() && kept[k] == n;
            assert(out[k] == n);
        } else {
            assert(out[out.len() - 1] == f);
        }
    }
    if ls.no_duplicates() && !ls.contains(f) {
        assert(kept.no_duplicates());
        if kept.len() < ls.len() {
            assert(!kept.contains(f));
            assert forall|i: int, j: int| 0 <= i < j < out.len() implies out[i] != out[j] by {
                if j < kept.len() {
                } else {
                    assert(out[j] == f);
                    assert(kept.contains(out[i])) by {
                        assert(out[i] == kept[i]);
                    }
                }
            }
        }
    }
}

/// A region that survives the fusion of the two named regions.
pub open spec fn survives_pred(l: Seq<u8>, r: Seq<u8>) -> spec_fn(RegionV) -> bool {
    |rv: RegionV| rv.name != l && rv.name != r
}

/// Every surviving region with its links rewritten.
pub open spec fn rewrite_all(s: Seq<RegionV>, l: Seq<u8>, r: Seq<u8>, f: Seq<u8>) -> Seq<
    RegionV,
> {
    s.map_values(|rv: RegionV| rewrite_region(rv, l, r, f))
}

/// The exact shape of the graph after fusing the regions named `l` and `r`:
/// every survivor stands, in order, with its links rewritten, and the fused
/// region stands last, carrying the joined name, the exact GDP sum, and the
/// sorted, deduplicated union of the two old link lists minus the pair
/// itself. Together with [`names_sorted`] this pins the resulting state
/// completely.
pub open spec fn fusion_shape(a: Seq<RegionV>, b: Seq<RegionV>, l: Seq<u8>, r: Seq<u8>) -> bool {
    let f = fused_name(l, r);
    &&& b.len() >= 1
    &&& b == rewrite_all(a.filter(survives_pred(l, r)), l, r, f).push(b.last())
    &&& b.last().name == f
    &&& b.last().gdp == gdp_of(a, l) + gdp_of(a, r)
    &&& names_sorted(b.last().links)
    &&& forall|m: Seq<u8>|
        b.last().links.contains(m) <==> ((links_of(a, l).contains(m) || links_of(
            a,
            r,
        ).contains(m)) && m != l && m != r)
}

proof fn lemma_total_push(s: Seq<RegionV>, rv: RegionV)
    ensures
        total_of(s.push(rv)) == total_of(s) + rv.gdp,
    decreases s.len(),
{
    assert(gdps_of(s.push(rv)) =~= gdps_of(s).push(rv.gdp)) by {
        assert(forall|k: int| 0 <= k < s.len() ==> #[trigger] gdps_of(s.push(rv))[k] == s.push(
            rv,
        )[k].gdp);
        assert(forall|k: int| 0 <= k < s.len() ==> #[trigger] gdps_of(s)[k] == s[k].gdp);
    }
    lemma_seqsum_push(gdps_of(s), rv.gdp);
}

/// Executable link rewrite, exact to [`rewrite_spec`].
fn rewrite_links(links: &Vec<Vec<u8>>, l: &Vec<u8>, r: &Vec<u8>, f: &Vec<u8>) -> (res: Vec<
    Vec<u8>,
>)
    ensures
        views_of(res@) == rewrite_spec(views_of(links@), l@, r@, f@),
{
    let ghost ls = views_of(links@);
    let ghost pred = keep_name(l@, r@);
    let mut res: Vec<Vec<u8>> = Vec::new();
    let mut removed = false;
    let n = links.len();
    let mut j: usize = 0;
    proof {
        assert(ls.len() == n);
        assert(ls.subrange(0, 0).filter(pred) =~= Seq::<Seq<u8>>::empty()) by {
            reveal(Seq::filter);
        }
    }
    while j < n
        invariant
            j <= n,
            n == links@.len(),
            ls == views_of(links@),
            ls.len() == n,
            pred == keep_name(l@, r@),
            res@.len() == ls.subrange(0, j as int).filter(pred).len(),
            views_of(res@) =~= ls.subrange(0, j as int).filter(pred),
            removed <==> ls.subrange(0, j as int).filter(pred).len() < j,
        decreases n - j,
    {
        let ghost pre = ls.subrange(0, j as int);
        let ghost pre1 = ls.subrange(0, j + 1);
        proof {
            assert(ls[j as int] == links@[j as int]@);
            assert(pre1.drop_last() =~= pre);
            assert(pre1.last() == ls[j as int]);
            reveal(Seq::filter);
            assert(pre1.filter(pred) == if pred(ls[j as int]) {
                pre.filter(pred).push(ls[j as int])
            } else {
                pre.filter(pred)
            });
            lemma_filter_props(pre, pred);
        }
        let keep_l = !bytes_eq(&links[j], l);
        let keep_r = !bytes_eq(&links[j], r);
        if keep_l && keep_r {
            let ghost before = res@;
            res.push(copy_bytes(&links[j]));
            proof {
                assert(res@ == before.push(res@[res@.len() - 1]));
                assert forall|k: int| 0 <= k < res@.len() implies #[trigger] views_of(res@)[k]
                    == pre1.filter(pred)[k] by {
                    assert(views_of(res@)[k] == res@[k]@);
                    if k < before.len() {
                        assert(res@[k] == before[k]);
                        assert(views_of(before)[k] == before[k]@);
                    }
                }
                assert(views_of(res@) =~= pre1.filter(pred));
            }
        } else {
            removed = true;
            proof {
                assert(!pred(ls[j as int]));
            }
        }
        j += 1;
    }
    proof {
        assert(ls.subrange(0, n as int) =~= ls);
    }
    if removed {
        let ghost before = res@;
        res.push(copy_bytes(f));
        proof {
            assert forall|k: int| 0 <= k < res@.len() implies #[trigger] views_of(res@)[k]
                == rewrite_spec(ls, l@, r@, f@)[k] by {
                assert(views_of(res@)[k] == res@[k]@);
                if k < before.len() {
                    assert(res@[k] == before[k]);
                    assert(views_of(before)[k] == before[k]@);
                }
            }
            assert(views_of(res@) =~= rewrite_spec(ls, l@, r@, f@));
        }
    } else {
        proof {
            assert(views_of(res@) =~= rewrite_spec(ls, l@, r@, f@));
        }
    }
    res
}

impl Country {
    /// An independent copy with the same mathematical value.
    pub fn duplicate(&self) -> (c: Country)
        ensures
            c@ == self@,
    {
        let mut regions: Vec<Region> = Vec::new();
        let mut i: usize = 0;
        while i < self.regions.len()
            invariant
                i <= self.regions@.len(),
                regions@.len() == i,
                regions@.map_values(|r: Region| r@) =~= self@.subrange(0, i as int),
            decreases self.regions@.len() - i,
        {
            let ghost before = regions@;
            let r = self.regions[i].duplicate();
            proof {
                assert(r@ == self.regions@[i as int]@);
                assert(self@[i as int] == self.regions@[i as int]@);
            }
            regions.push(r);
            proof {
                assert(regions@ == before.push(r));
                let mv = regions@.map_values(|r2: Region| r2@);
                let bv = before.map_values(|r2: Region| r2@);
                assert forall|k: int| 0 <= k < regions@.len() implies #[trigger] mv[k]
                    == self@.subrange(0, i + 1)[k] by {
                    assert(self@.len() == self.regions@.len());
                    assert(mv[k] == regions@[k]@);
                    if k < i {
                        assert(regions@[k] == before[k]);
                        assert(bv[k] == before[k]@);
                    } else {
                        assert(regions@[k] == r);
                    }
                }
                assert(mv =~= self@.subrange(0, i + 1));
            }
            i += 1;
        }
        proof {
            assert(self@.subrange(0, self.regions@.len() as int) =~= self@);
        }
        Country { regions }
    }

    /// Index of the region carrying `name`, which must be present.
    pub fn index_of_name(&self, name: &Vec<u8>) -> (i: usize)
        requires
            has_name(self@, name@),
        ensures
            i < self@.len(),
            self@[i as int].name == name@,
    {
        let n = self.regions.len();
        let mut i: usize = 0;
        proof {
            assert(self@.len() == self.regions@.len());
        }
        while i < n
            invariant
                i <= n,
                n == self.regions@.len(),
                self@.len() == n,
                has_name(self@, name@),
                forall|k: int| 0 <= k < i ==> (#[trigger] self@[k]).name != name@,
            decreases n - i,
        {
            if bytes_eq(&self.regions[i].name, name) {
                proof {
                    assert(self@[i as int].name == self.regions@[i as int].name@);
                }
                return i;
            }
            proof {
                assert(self@[i as int].name == self.regions@[i as int].name@);
            }
            i += 1;
        }
        proof {
            let j = choose|j: int| 0 <= j < self@.len() && (#[trigger] self@[j]).name == name@;
            assert(self@[j].name != name@);
            assert(false);
        }
        0
    }

    /// Whether a region with this name exists.
    pub fn contains_name(&self, name: &Vec<u8>) -> (r: bool)
        ensures
            r == has_name(self@, name@),
    {
        let n = self.regions.len();
        let mut i: usize = 0;
        proof {
            assert(self@.len() == self.regions@.len());
        }
        while i < n
            invariant
                i <= n,
                n == self.regions@.len(),
                self@.len() == n,
                forall|k: int| 0 <= k < i ==> (#[trigger] self@[k]).name != name@,
            decreases n - i,
        {
            if bytes_eq(&self.regions[i].name, name) {
                proof {
                    assert(self@[i as int].name == self.regions@[i as int].name@);
                }
                return true;
            }
            proof {
                assert(self@[i as int].name == self.regions@[i as int].name@);
            }
            i += 1;
        }
        proof {
            if has_name(self@, name@) {
                let j = choose|j: int|
                    0 <= j < self@.len() && (#[trigger] self@[j]).name == name@;
                assert(self@[j].name != name@);
            }
        }
        false
    }

    /// Number of regions.
    pub fn len(&self) -> (n: usize)
        ensures
            n == self@.len(),
    {
        proof {
            assert(self@.len() == self.regions@.len());
        }
        self.regions.len()
    }

    /// Exact total GDP of all regions.
    pub fn total_gdp(&self) -> (t: u64)
        requires
            wf(self@),
        ensures
            t as int == total_of(self@),
    {
        let ghost g = gdps_of(self@);
        proof {
            assert(g.len() == self@.len());
            assert(self@.len() == self.regions@.len());
            assert(forall|k: int| 0 <= k < g.len() ==> #[trigger] g[k] == self@[k].gdp);
            assert(forall|k: int| 0 <= k < g.len() ==> #[trigger] g[k] >= 0);
        }
        let n = self.regions.len();
        let mut acc: u64 = 0;
        let mut i: usize = 0;
        while i < n
            invariant
                i <= n,
                n == self.regions@.len(),
                g == gdps_of(self@),
                g.len() == n,
                self@.len() == n,
                wf(self@),
                forall|k: int| 0 <= k < g.len() ==> #[trigger] g[k] >= 0,
                acc as int == seqsum(g.subrange(0, i as int)),
            decreases n - i,
        {
            proof {
                lemma_seqsum_split(g, i + 1);
                let suffix = g.subrange(i + 1, g.len() as int);
                assert(forall|k: int| 0 <= k < suffix.len() ==> #[trigger] suffix[k] >= 0);
                lemma_seqsum_nonneg(suffix);
                assert(g.subrange(0, i + 1) =~= g.subrange(0, i as int).push(g[i as int]));
                lemma_seqsum_push(g.subrange(0, i as int), g[i as int]);
                assert(g[i as int] == self@[i as int].gdp);
                assert(self@[i as int].gdp == self.regions@[i as int].gdp as int);
                assert(seqsum(g.subrange(0, i + 1)) <= total_of(self@));
            }
            acc = acc + self.regions[i].gdp;
            i += 1;
        }
        proof {
            assert(g.subrange(0, n as int) =~= g);
        }
        acc
    }

    /// Exact sum of the squares of all GDP values.
    pub fn sum_sq(&self) -> (q: u128)
        requires
            wf(self@),
        ensures
            q as int == sum_sq_of(self@),
            q as int <= total_of(self@) * total_of(self@),
    {
        let ghost g = gdps_of(self@);
        proof {
            assert(g.len() == self@.len());
            assert(self@.len() == self.regions@.len());
            assert(forall|k: int| 0 <= k < g.len() ==> #[trigger] g[k] == self@[k].gdp);
            assert(forall|k: int| 0 <= k < g.len() ==> #[trigger] g[k] >= 0);
        }
        let n = self.regions.len();
        let mut acc: u128 = 0;
        let mut i: usize = 0;
        proof {
            lemma_seqsum_nonneg(g);
            let t = total_of(self@);
            assert(t * t >= 0) by (nonlinear_arith)
                requires
                    t >= 0,
            ;
        }
        while i < n
            invariant
                i <= n,
                n == self.regions@.len(),
                g == gdps_of(self@),
                g.len() == n,
                self@.len() == n,
                wf(self@),
                forall|k: int| 0 <= k < g.len() ==> #[trigger] g[k] >= 0,
                acc as int == seqsqsum(g.subrange(0, i as int)),
                acc as int <= total_of(self@) * total_of(self@),
        decreases n - i,
        {
            proof {
                lemma_seqsum_split(g, i + 1);
                let prefix1 = g.subrange(0, i + 1);
                let suffix = g.subrange(i + 1, g.len() as int);
                assert(forall|k: int| 0 <= k < suffix.len() ==> #[trigger] suffix[k] >= 0);
                assert(forall|k: int| 0 <= k < prefix1.len() ==> #[trigger] prefix1[k] >= 0);
                lemma_seqsum_nonneg(suffix);
                lemma_seqsqsum_le_square(prefix1);
                lemma_seqsum_nonneg(prefix1);
                assert(prefix1 =~= g.subrange(0, i as int).push(g[i as int]));
                lemma_seqsum_push(g.subrange(0, i as int), g[i as int]);
                assert(g[i as int] == self@[i as int].gdp);
                assert(self@[i as int].gdp == self.regions@[i as int].gdp as int);
                // the partial sum of squares stays below the square of the total
                let s1 = seqsum(prefix1);
                let t = total_of(self@);
                assert(s1 <= t);
                assert(s1 * s1 <= t * t) by (nonlinear_arith)
                    requires
                        0 <= s1,
                        s1 <= t,
                ;
                assert(seqsqsum(prefix1) <= t * t);
                assert(t <= MAX_TOTAL_GDP as int);
                assert(t * t <= MAX_TOTAL_GDP as int * MAX_TOTAL_GDP as int) by (nonlinear_arith)
                    requires
                        0 <= t,
                        t <= MAX_TOTAL_GDP as int,
                ;
            }
            let x = self.regions[i].gdp as u128;
            acc = acc + x * x;
            i += 1;
        }
        proof {
            assert(g.subrange(0, n as int) =~= g);
        }
        acc
    }

    /// Removes the first occurrence of `name` from the named region's links.
    /// A one-sided edit: symmetry is the caller's concern.
    pub fn remove_link_from_region(&mut self, region_name: &Vec<u8>, name: &Vec<u8>)
        requires
            has_name(old(self)@, region_name@),
            unique_names(old(self)@),
        ensures
            final(self)@ == old(self)@.update(
                idx_of(old(self)@, region_name@),
                (RegionV {
                    name: old(self)@[idx_of(old(self)@, region_name@)].name,
                    gdp: old(self)@[idx_of(old(self)@, region_name@)].gdp,
                    links: remove_first(
                        old(self)@[idx_of(old(self)@, region_name@)].links,
                        name@,
                    ),
                }),
            ),
    {
        let ghost rs = self@;
        let i = self.index_of_name(region_name);
        proof {
            assert(idx_of(rs, region_name@) == i as int) by {
                let j = idx_of(rs, region_name@);
                assert(rs[i as int].name == region_name@);
                assert(0 <= j < rs.len() && rs[j].name == region_name@);
                if j != i as int {
                    assert(false);
                }
            }
        }
        let mut reg = self.regions.remove(i);
        let ghost ls = views_of(reg.links@);
        let n = reg.links.len();
        let mut pos: usize = n;
        let mut j: usize = 0;
        proof {
            assert(ls.len() == n);
        }
        while j < n
            invariant
                j <= n,
                n == reg.links@.len(),
                ls == views_of(reg.links@),
                ls.len() == n,
                pos == n || (pos < j && ls[pos as int] == name@),
                pos == n ==> forall|k: int| 0 <= k < j ==> #[trigger] ls[k] != name@,
                pos < n ==> forall|k: int| 0 <= k < pos ==> #[trigger] ls[k] != name@,
            decreases n - j,
        {
            if pos == n {
                if bytes_eq(&reg.links[j], name) {
                    proof {
                        assert(ls[j as int] == reg.links@[j as int]@);
                    }
                    pos = j;
                } else {
                    proof {
                        assert(ls[j as int] == reg.links@[j as int]@);
                    }
                }
            }
            j += 1;
        }
        if pos < n {
            let _ = reg.links.remove(pos);
            proof {
                lemma_remove_first_at(ls, pos as int, name@);
                assert(views_of(reg.links@) =~= ls.remove(pos as int)) by {
                    assert(forall|k: int| 0 <= k < reg.links@.len() ==> #[trigger] views_of(
                        reg.links@,
                    )[k] == reg.links@[k]@);
                }
            }
        } else {
            proof {
                assert(!ls.contains(name@)) by {
                    if ls.contains(name@) {
                        let k = choose|k: int| 0 <= k < ls.len() && ls[k] == name@;
                        assert(ls[k] != name@);
                    }
                }
                lemma_remove_first_absent(ls, name@);
            }
        }
        self.regions.insert(i, reg);
        proof {
            let target = RegionV {
                name: rs[i as int].name,
                gdp: rs[i as int].gdp,
                links: remove_first(rs[i as int].links, name@),
            };
            assert(reg@ == target);
            assert(final(self)@ =~= rs.update(i as int, target)) by {
                assert(forall|k: int| 0 <= k < final(self)@.len() ==> #[trigger] final(self)@[k]
                    == final(self).regions@[k]@);
                assert(forall|k: int| 0 <= k < rs.len() ==> #[trigger] rs[k]
                    == old(self).regions@[k]@);
            }
        }
    }

    /// Appends `name` to the named region's links.
    /// A one-sided edit: symmetry is the caller's concern.
    pub fn add_link_to_region(&mut self, region_name: &Vec<u8>, name: &Vec<u8>)
        requires
            has_name(old(self)@, region_name@),
            unique_names(old(self)@),
        ensures
            final(self)@ == old(self)@.update(
                idx_of(old(self)@, region_name@),
                (RegionV {
                    name: old(self)@[idx_of(old(self)@, region_name@)].name,
                    gdp: old(self)@[idx_of(old(self)@, region_name@)].gdp,
                    links: old(self)@[idx_of(old(self)@, region_name@)].links.push(name@),
                }),
            ),
    {
        let ghost rs = self@;
        let i = self.index_of_name(region_name);
        proof {
            assert(idx_of(rs, region_name@) == i as int) by {
                let j = idx_of(rs, region_name@);
                assert(rs[i as int].name == region_name@);
                assert(0 <= j < rs.len() && rs[j].name == region_name@);
                if j != i as int {
                    assert(false);
                }
            }
        }
        let mut reg = self.regions.remove(i);
        let ghost ls = views_of(reg.links@);
        reg.links.push(copy_bytes(name));
        proof {
            assert(views_of(reg.links@) =~= ls.push(name@)) by {
                assert(forall|k: int| 0 <= k < reg.links@.len() ==> #[trigger] views_of(
                    reg.links@,
                )[k] == reg.links@[k]@);
            }
        }
        self.regions.insert(i, reg);
        proof {
            let target = RegionV {
                name: rs[i as int].name,
                gdp: rs[i as int].gdp,
                links: rs[i as int].links.push(name@),
            };
            assert(reg@ == target);
            assert(final(self)@ =~= rs.update(i as int, target)) by {
                assert(forall|k: int| 0 <= k < final(self)@.len() ==> #[trigger] final(self)@[k]
                    == final(self).regions@[k]@);
                assert(forall|k: int| 0 <= k < rs.len() ==> #[trigger] rs[k]
                    == old(self).regions@[k]@);
            }
        }
    }

    /// The mean GDP, as an exact ratio.
    pub fn avg_gdp(&self) -> (r: Ratio)
        requires
            wf(self@),
            self@.len() > 0,
        ensures
            r.num as int == total_of(self@),
            r.den as int == self@.len(),
            r.den >= 1,
    {
        let t = self.total_gdp();
        let n = self.len();
        Ratio { num: t as u128, den: n as u128 }
    }

    /// The population variance of GDP across the regions, as the exact ratio
    /// `(n * sum of squares - total^2) / n^2`; returned in squared units
    /// deliberately, since the search only compares variances.
    pub fn std_dev_sq(&self) -> (r: Ratio)
        requires
            wf(self@),
            self@.len() > 0,
        ensures
            r.num as int == self@.len() * sum_sq_of(self@) - total_of(self@) * total_of(self@),
            r.den as int == self@.len() * self@.len(),
            r.den >= 1,
    {
        let q = self.sum_sq();
        let t = self.total_gdp();
        let n = self.len();
        proof {
            let g = gdps_of(self@);
            assert(g.len() == self@.len());
            assert(forall|k: int| 0 <= k < g.len() ==> #[trigger] g[k] >= 0);
            lemma_seqsum_nonneg(g);
            lemma_square_le_len_sqsum(g);
            assert(n <= MAX_REGIONS);
            assert(t <= MAX_TOTAL_GDP);
            assert(total_of(self@) * total_of(self@) <= 0x10000000000000000) by (nonlinear_arith)
                requires
                    0 <= total_of(self@) <= 0x100000000,
            ;
            assert((n as int) * (q as int) <= 0x100 * 0x10000000000000000) by (nonlinear_arith)
                requires
                    0 <= n as int <= 0x100,
                    0 <= q as int <= 0x10000000000000000,
            ;
            assert((t as int) * (t as int) <= 0x10000000000000000) by (nonlinear_arith)
                requires
                    0 <= t as int <= 0x100000000,
            ;
            assert(1 <= (n as int) * (n as int) <= 0x10000) by (nonlinear_arith)
                requires
                    1 <= n as int <= 0x100,
            ;
            assert((t as int) * (t as int) <= (n as int) * (q as int));
        }
        let num = (n as u128) * q - (t as u128) * (t as u128);
        let den = (n as u128) * (n as u128);
        Ratio { num, den }
    }

    /// The pruning estimate for fusing down to `target_count` regions,
    /// computed adjacency-free over the sorted GDP values: the
    /// `target_count` largest values are tentatively kept apart and all
    /// smaller values are merged into one sweeping bucket; the first
    /// grouping whose merged average stays below the next kept value is
    /// scored exactly, and the fallback is zero. The sweep only ever merges
    /// a prefix of the sorted values into a single bucket, so the estimate
    /// can exceed the best feasible variance; the search treats it as a
    /// heuristic cutoff.
    #[verifier::rlimit(100)]
    pub fn optimal_std_dev_sq(&self, target_count: usize) -> (r: Ratio)
        requires
            wf(self@),
            1 <= target_count <= self@.len(),
        ensures
            r.num as int == estimate_spec(sorted_gdps(self@), target_count as int).0,
            r.den as int == estimate_spec(sorted_gdps(self@), target_count as int).1,
            r.den >= 1,
            r.den <= 0x100000000,
            r.num < 0x8000000000000000000000000,
    {
        let ghost g = gdps_of(self@);
        proof {
            assert(g.len() == self@.len());
            assert(self@.len() == self.regions@.len());
            assert(forall|k: int| 0 <= k < g.len() ==> #[trigger] g[k] == self@[k].gdp);
            assert(forall|k: int| 0 <= k < g.len() ==> #[trigger] g[k] >= 0);
        }
        let n = self.regions.len();
        let t = target_count;
        // gather the GDP values
        let mut sv: Vec<u64> = Vec::new();
        let mut c: usize = 0;
        while c < n
            invariant
                c <= n,
                n == self.regions@.len(),
                g == gdps_of(self@),
                g.len() == n,
                self@.len() == n,
                sv@.len() == c,
                forall|k: int| 0 <= k < c ==> #[trigger] sv@[k] as int == g[k],
            decreases n - c,
        {
            proof {
                assert(g[c as int] == self@[c as int].gdp);
                assert(self@[c as int].gdp == self.regions@[c as int].gdp as int);
            }
            sv.push(self.regions[c].gdp);
            c += 1;
        }
        let ghost ov = sv@;
        proof {
            assert(ints_of(ov) =~= g) by {
                assert(forall|k: int| 0 <= k < ov.len() ==> #[trigger] ints_of(ov)[k] == ov[k]
                    as int);
            }
        }
        sort_u64(&mut sv);
        let ghost ss = ints_of(sv@);
        proof {
            let leq = |a: int, b: int| a <= b;
            lemma_ints_of_multiset(sv@, ov);
            g.lemma_sort_by_ensures(leq);
            assert(total_ordering(leq));
            assert(sorted_by(ss, leq)) by {
                assert(forall|k: int| 0 <= k < ss.len() ==> #[trigger] ss[k] == sv@[k] as int);
            }
            assert(sorted_by(sorted_gdps(self@), leq));
            assert(ss.to_multiset() == sorted_gdps(self@).to_multiset());
            lemma_sorted_unique(ss, sorted_gdps(self@), leq);
            assert(ss == sorted_gdps(self@));
            lemma_seqsum_multiset(ss, g);
            assert(seqsum(ss) == total_of(self@));
            assert(forall|k: int| 0 <= k < ss.len() ==> #[trigger] ss[k] >= 0);
            assert forall|k: int| 0 <= k < ss.len() implies #[trigger] ss[k] <= seqsum(ss) by {
                lemma_elem_le_seqsum(ss, k);
            }
        }
        let tt = self.total_gdp();
        let to_fuse = n - t;
        // sum of the values to be merged away
        let mut spread: u64 = 0;
        let mut j: usize = 0;
        while j < to_fuse
            invariant
                j <= to_fuse,
                to_fuse <= n,
                n == sv@.len(),
                ss == ints_of(sv@),
                ss.len() == n,
                tt as int == seqsum(ss),
                forall|k: int| 0 <= k < ss.len() ==> #[trigger] ss[k] >= 0,
                spread as int == seqsum(ss.subrange(0, j as int)),
            decreases to_fuse - j,
        {
            proof {
                lemma_seqsum_split(ss, j + 1);
                let suffix = ss.subrange(j + 1, ss.len() as int);
                assert(forall|k: int| 0 <= k < suffix.len() ==> #[trigger] suffix[k] >= 0);
                lemma_seqsum_nonneg(suffix);
                assert(ss.subrange(0, j + 1) =~= ss.subrange(0, j as int).push(ss[j as int]));
                lemma_seqsum_push(ss.subrange(0, j as int), ss[j as int]);
                assert(ss[j as int] == sv@[j as int] as int);
            }
            spread = spread + sv[j];
            j += 1;
        }
        let ghost kept = ss.subrange(to_fuse as int, n as int);
        proof {
            assert(kept.len() == t);
            assert(forall|k: int| 0 <= k < kept.len() ==> #[trigger] kept[k] == ss[
                to_fuse + k]);
            lemma_seqsum_split(ss, to_fuse as int);
            let tail = ss.subrange(to_fuse as int, ss.len() as int);
            assert(forall|k: int| 0 <= k < tail.len() ==> #[trigger] tail[k] >= 0);
            lemma_seqsum_nonneg(tail);
            assert(spread as int <= tt as int);
            assert(kept.subrange(0, 0).len() == 0);
            assert(seqsum(kept.subrange(0, 0)) == 0);
        }
        let mut sum: u64 = 0;
        let mut i: usize = 0;
        while i + 1 < t
            invariant
                i <= t - 1,
                1 <= t <= n,
                to_fuse == n - t,
                n == sv@.len(),
                ss == ints_of(sv@),
                ss.len() == n,
                tt as int == seqsum(ss),
                tt <= MAX_TOTAL_GDP,
                t <= MAX_REGIONS,
                n <= MAX_REGIONS,
                ss == sorted_gdps(self@),
                wf(self@),
                t == target_count,
                forall|k: int| 0 <= k < ss.len() ==> #[trigger] ss[k] >= 0,
                forall|k: int| 0 <= k < ss.len() ==> #[trigger] ss[k] <= seqsum(ss),
                kept == ss.subrange(to_fuse as int, n as int),
                kept.len() == t,
                spread as int == seqsum(ss.subrange(0, to_fuse as int)),
                sum as int == seqsum(kept.subrange(0, i as int)),
                sum as int + spread as int <= tt,
                sweep(kept, spread as int, tt as int, t as int, 0) == sweep(
                    kept,
                    spread as int,
                    tt as int,
                    t as int,
                    i as int,
                ),
            decreases t - i,
        {
            let w = i + 1;
            proof {
                // the next prefix sum, together with the spread, stays below
                // the total
                lemma_seqsum_split(ss, to_fuse as int);
                lemma_seqsum_split(ss, to_fuse + w);
                let mid = ss.subrange(to_fuse as int, to_fuse + w);
                let tail = ss.subrange(to_fuse + w, ss.len() as int);
                assert(forall|k: int| 0 <= k < tail.len() ==> #[trigger] tail[k] >= 0);
                lemma_seqsum_nonneg(tail);
                assert(mid =~= kept.subrange(0, w as int));
                let pref = ss.subrange(0, to_fuse + w);
                lemma_seqsum_split(pref, to_fuse as int);
                assert(pref.subrange(0, to_fuse as int) =~= ss.subrange(0, to_fuse as int));
                assert(pref.subrange(to_fuse as int, pref.len() as int) =~= mid);
                assert(kept.subrange(0, w as int) =~= kept.subrange(0, i as int).push(
                    kept[i as int],
                ));
                lemma_seqsum_push(kept.subrange(0, i as int), kept[i as int]);
                assert(kept[i as int] == ss[to_fuse + i]);
                assert(ss[to_fuse + i] == sv@[to_fuse + i] as int);
                assert(kept[w as int] == ss[to_fuse + w]);
                assert(ss[to_fuse + w] == sv@[to_fuse + w] as int);
            }
            let a = sv[to_fuse + i];
            sum = sum + a;
            let b = sv[to_fuse + i + 1];
            let merged: u128 = sum as u128 + spread as u128;
            proof {
                assert(merged as int == spread as int + seqsum(kept.subrange(0, w as int)));
                assert(merged <= 0x100000000);
                assert(b as int == kept[w as int]);
                assert(b as int <= seqsum(ss));
                assert((b as int) * ((w as int) + 1) <= 0x100000000 * 0x101) by (nonlinear_arith)
                    requires
                        0 <= b as int <= 0x100000000,
                        0 <= w as int + 1 <= 0x101,
                ;
            }
            let next: u128 = (b as u128) * ((w as u128) + 1);
            proof {
                assert(next as int == kept[w as int] * (w + 1));
            }
            if merged < next {
                // crossover found: score this exact grouping
                proof {
                    assert((tt as int) * (w as int) <= 0x100000000 * 0x100) by (nonlinear_arith)
                        requires
                            0 <= tt as int <= 0x100000000,
                            0 <= w as int <= 0x100,
                    ;
                    assert((merged as int) * (t as int) <= 0x100000000 * 0x100)
                        by (nonlinear_arith)
                        requires
                            0 <= merged as int <= 0x100000000,
                            0 <= t as int <= 0x100,
                    ;
                }
                let tw = (tt as u128) * (w as u128);
                let stv = merged * (t as u128);
                let d = if tw >= stv {
                    tw - stv
                } else {
                    stv - tw
                };
                proof {
                    assert(d as int * d as int == (tt as int * w as int - merged as int * t
                        as int) * (tt as int * w as int - merged as int * t as int))
                        by (nonlinear_arith)
                        requires
                            d as int == if tw as int >= stv as int {
                                tw as int - stv as int
                            } else {
                                stv as int - tw as int
                            },
                            tw as int == tt as int * w as int,
                            stv as int == merged as int * t as int,
                    ;
                    assert(tw <= 0x10000000000);
                    assert(stv <= 0x10000000000);
                    assert(d <= 0x20000000000);
                }
                let mut acc: u128 = 0;
                let mut p: usize = w;
                while p < t
                    invariant
                        w <= p <= t,
                        1 <= t <= n,
                        to_fuse == n - t,
                        n == sv@.len(),
                        ss == ints_of(sv@),
                        ss.len() == n,
                        tt as int == seqsum(ss),
                        tt <= MAX_TOTAL_GDP,
                        t <= MAX_REGIONS,
                        forall|k: int| 0 <= k < ss.len() ==> #[trigger] ss[k] >= 0,
                        forall|k: int| 0 <= k < ss.len() ==> #[trigger] ss[k] <= seqsum(ss),
                        kept == ss.subrange(to_fuse as int, n as int),
                        kept.len() == t,
                        acc as int == sqdev_sum(
                            kept.subrange(w as int, p as int),
                            tt as int,
                            t as int,
                        ),
                        acc <= (p as u128) * 0x400000000000000000000,
                    decreases t - p,
                {
                    let gv = sv[to_fuse + p];
                    proof {
                        assert(kept[p as int] == ss[to_fuse + p]);
                        assert(ss[to_fuse + p] == sv@[to_fuse + p] as int);
                        assert(gv as int <= seqsum(ss));
                        assert((gv as int) * (t as int) <= 0x100000000 * 0x100)
                            by (nonlinear_arith)
                            requires
                                0 <= gv as int <= 0x100000000,
                                0 <= t as int <= 0x100,
                        ;
                    }
                    let gt = (gv as u128) * (t as u128);
                    let dev = if (tt as u128) >= gt {
                        (tt as u128) - gt
                    } else {
                        gt - (tt as u128)
                    };
                    proof {
                        assert(gt <= 0x10000000000);
                        assert(dev <= 0x20000000000);
                        assert(dev as int * dev as int == (tt as int - t as int * gv as int) * (
                        tt as int - t as int * gv as int)) by (nonlinear_arith)
                            requires
                                dev as int == if tt as int >= gt as int {
                                    tt as int - gt as int
                                } else {
                                    gt as int - tt as int
                                },
                                gt as int == gv as int * t as int,
                        ;
                        assert(dev as u128 * dev as u128 <= 0x400000000000000000000)
                            by (nonlinear_arith)
                            requires
                                0 <= dev as u128 <= 0x20000000000,
                        ;
                        assert(kept.subrange(w as int, p + 1) =~= kept.subrange(
                            w as int,
                            p as int,
                        ).push(kept[p as int]));
                        lemma_sqdev_push(
                            kept.subrange(w as int, p as int),
                            kept[p as int],
                            tt as int,
                            t as int,
                        );
                    }
                    acc = acc + dev * dev;
                    p += 1;
                }
                proof {
                    assert(d * d <= 0x400000000000000000000) by (nonlinear_arith)
                        requires
                            0 <= d <= 0x20000000000,
                    ;
                    assert((w as u128) * acc <= 0x4000000000000000000000000) by (nonlinear_arith)
                        requires
                            0 <= acc <= (t as u128) * 0x400000000000000000000,
                            0 <= w as u128 <= 0x100,
                            t as u128 <= 0x100,
                    ;
                    assert((t as u128) * (t as u128) <= 0x10000) by (nonlinear_arith)
                        requires
                            1 <= t as u128 <= 0x100,
                    ;
                    assert((t as u128) * (t as u128) * (t as u128) <= 0x1000000)
                        by (nonlinear_arith)
                        requires
                            1 <= t as u128 <= 0x100,
                            (t as u128) * (t as u128) <= 0x10000,
                    ;
                    assert((t as u128) * (t as u128) * (t as u128) * (w as u128) >= 1 && (t
                        as u128) * (t as u128) * (t as u128) * (w as u128) <= 0x100000000)
                        by (nonlinear_arith)
                        requires
                            1 <= t as u128 <= 0x100,
                            1 <= w as u128 <= 0x100,
                            (t as u128) * (t as u128) * (t as u128) <= 0x1000000,
                    ;
                }
                let num = d * d + (w as u128) * acc;
                let den = (t as u128) * (t as u128) * (t as u128) * (w as u128);
                proof {
                    // this branch is the value of the whole sweep
                    assert(sweep(kept, spread as int, tt as int, t as int, i as int) == (
                    num as int, den as int)) by {
                        assert(i + 1 < kept.len());
                        assert(spread as int + seqsum(kept.subrange(0, w as int)) < kept[
                            w as int] * (w + 1));
                        assert(kept.subrange(w as int, t as int) =~= kept.subrange(
                            w as int,
                            kept.len() as int,
                        ));
                    }
                    assert(estimate_spec(sorted_gdps(self@), t as int) == sweep(
                        kept,
                        spread as int,
                        tt as int,
                        t as int,
                        0,
                    )) by {
                        assert(sorted_gdps(self@) == ss);
                        assert(ss.subrange(0, ss.len() - t) =~= ss.subrange(0, to_fuse as int));
                        assert(ss.subrange(ss.len() - t, ss.len() as int) =~= kept);
                    }
                }
                return Ratio { num, den };
            }
            proof {
                assert(sweep(kept, spread as int, tt as int, t as int, i as int) == sweep(
                    kept,
                    spread as int,
                    tt as int,
                    t as int,
                    i + 1,
                )) by {
                    assert(i + 1 < kept.len());
                    assert(!(spread as int + seqsum(kept.subrange(0, w as int)) < kept[
                        w as int] * (w + 1)));
                }
            }
            i += 1;
        }
        proof {
            assert(sweep(kept, spread as int, tt as int, t as int, i as int) == (0int, 1int));
            assert(estimate_spec(sorted_gdps(self@), t as int) == sweep(
                kept,
                spread as int,
                tt as int,
                t as int,
                0,
            )) by {
                assert(sorted_gdps(self@) == ss);
                assert(ss.subrange(0, ss.len() - t) =~= ss.subrange(0, to_fuse as int));
                assert(ss.subrange(ss.len() - t, ss.len() as int) =~= kept);
            }
        }
        Ratio { num: 0, den: 1 }
    }

    /// Fuses the two named, mutually linked regions: both are removed, the
    /// fused region replaces them, and every neighbor that pointed at either
    /// old name is rewired to the fused name, duplicates collapsed. The
    /// graph-symmetry invariant holds afterwards, the region count decreases
    /// by exactly one, the total GDP is unchanged, and the fused region's
    /// GDP is the exact sum of the two inputs' GDP.
    #[verifier::rlimit(100)]
    pub fn fuse_regions(&mut self, left_name: &Vec<u8>, right_name: &Vec<u8>)
        requires
            wf(old(self)@),
            links_to(old(self)@, left_name@, right_name@),
            !has_name(old(self)@, fused_name(left_name@, right_name@)),
        ensures
            wf(final(self)@),
            final(self)@.len() == old(self)@.len() - 1,
            total_of(final(self)@) == total_of(old(self)@),
            forall|n: Seq<u8>|
                has_name(final(self)@, n) <==> ((has_name(old(self)@, n) && n != left_name@
                    && n != right_name@) || n == fused_name(left_name@, right_name@)),
            gdp_of(final(self)@, fused_name(left_name@, right_name@)) == gdp_of(
                old(self)@,
                left_name@,
            ) + gdp_of(old(self)@, right_name@),
            fusion_shape(old(self)@, final(self)@, left_name@, right_name@),
            forall|n: Seq<u8>| #![auto]
                has_name(old(self)@, n) && n != left_name@ && n != right_name@ ==> has_name(
                    final(self)@,
                    n,
                ) && gdp_of(final(self)@, n) == gdp_of(old(self)@, n) && links_of(
                    final(self)@,
                    n,
                ) == rewrite_spec(
                    links_of(old(self)@, n),
                    left_name@,
                    right_name@,
                    fused_name(left_name@, right_name@),
                ),
            forall|n: Seq<u8>| #![auto]
                has_name(old(self)@, n) && n != left_name@ && n != right_name@ && !links_of(
                    old(self)@,
                    n,
                ).contains(left_name@) && !links_of(old(self)@, n).contains(right_name@)
                    ==> links_of(final(self)@, n) == links_of(old(self)@, n),
    {
        let ghost rs = self@;
        let ghost l = left_name@;
        let ghost r = right_name@;
        let ghost f = fused_name(l, r);
        let il = self.index_of_name(left_name);
        proof {
            assert(idx_of(rs, l) == il as int) by {
                let j = idx_of(rs, l);
                assert(0 <= j < rs.len() && rs[j].name == l);
                if j != il as int {
                    assert(false);
                }
            }
            assert(rs[il as int].links.contains(r));
            let k = choose|k: int| 0 <= k < rs[il as int].links.len() && rs[il as int].links[k]
                == r;
            assert(linked_back(rs, rs[il as int].name, rs[il as int].links[k]));
            let j = choose|j: int|
                0 <= j < rs.len() && (#[trigger] rs[j]).name == r && rs[j].links.contains(l);
            assert(has_name(rs, r));
        }
        let ir = self.index_of_name(right_name);
        proof {
            let j = choose|j: int|
                0 <= j < rs.len() && (#[trigger] rs[j]).name == r && rs[j].links.contains(l);
            assert(j == ir as int) by {
                if j != ir as int {
                    assert(false);
                }
            }
            assert(rs[ir as int].links.contains(l));
            assert(idx_of(rs, r) == ir as int) by {
                let j2 = idx_of(rs, r);
                assert(0 <= j2 < rs.len() && rs[j2].name == r);
                if j2 != ir as int {
                    assert(false);
                }
            }
            assert(il != ir) by {
                if il == ir {
                    assert(rs[il as int].links.contains(rs[il as int].name));
                    assert(region_ok(rs[il as int]));
                }
            }
            let g = gdps_of(rs);
            assert(forall|k: int| 0 <= k < g.len() ==> #[trigger] g[k] == rs[k].gdp);
            assert(forall|k: int| 0 <= k < g.len() ==> #[trigger] g[k] >= 0);
            lemma_two_elems_le_seqsum(g, il as int, ir as int);
            assert(rs[il as int].gdp + rs[ir as int].gdp <= total_of(rs));
        }
        let left = self.regions[il].duplicate();
        let right = self.regions[ir].duplicate();
        proof {
            assert(left@ == rs[il as int]);
            assert(right@ == rs[ir as int]);
            assert(region_ok(left@) && region_ok(right@));
            assert(left@.name != right@.name) by {
                if l == r {
                    assert(rs[il as int].links.contains(rs[il as int].name));
                }
            }
        }
        let fused = left.fuse(right);
        proof {
            assert(fused@.name == f);
            assert(fused@.gdp == rs[il as int].gdp + rs[ir as int].gdp);
        }
        let n = self.regions.len();
        let mut out: Vec<Region> = Vec::new();
        let mut i: usize = 0;
        proof {
            assert(rs.subrange(0, 0).filter(survives_pred(l, r)) =~= Seq::<RegionV>::empty()) by {
                reveal(Seq::filter);
            }
        }
        while i < n
            invariant
                self@ == rs,
                n == self.regions@.len(),
                rs.len() == n,
                i <= n,
                wf(rs),
                il < n,
                ir < n,
                il != ir,
                rs[il as int].name == l,
                rs[ir as int].name == r,
                l == left_name@,
                r == right_name@,
                f == fused_name(l, r),
                fused@.name == f,
                out@.len() as int == i as int - (if i > il {
                    1int
                } else {
                    0int
                }) - (if i > ir {
                    1int
                } else {
                    0int
                }),
                out@.map_values(|x: Region| x@) =~= rewrite_all(
                    rs.subrange(0, i as int).filter(survives_pred(l, r)),
                    l,
                    r,
                    f,
                ),
                total_of(out@.map_values(|x: Region| x@)) == total_of(rs.subrange(0, i as int)) - (
                if i > il {
                    rs[il as int].gdp
                } else {
                    0int
                }) - (if i > ir {
                    rs[ir as int].gdp
                } else {
                    0int
                }),
            decreases n - i,
        {
            let ghost pre = rs.subrange(0, i as int);
            let ghost pre1 = rs.subrange(0, i + 1);
            let ghost pred = survives_pred(l, r);
            proof {
                assert(pre1.drop_last() =~= pre);
                assert(pre1.last() == rs[i as int]);
                reveal(Seq::filter);
                assert(pre1.filter(pred) == if pred(rs[i as int]) {
                    pre.filter(pred).push(rs[i as int])
                } else {
                    pre.filter(pred)
                });
                assert(gdps_of(pre1) =~= gdps_of(pre).push(rs[i as int].gdp)) by {
                    assert(forall|k: int| 0 <= k < pre1.len() ==> #[trigger] gdps_of(pre1)[k]
                        == pre1[k].gdp);
                    assert(forall|k: int| 0 <= k < pre.len() ==> #[trigger] gdps_of(pre)[k]
                        == pre[k].gdp);
                }
                lemma_seqsum_push(gdps_of(pre), rs[i as int].gdp);
            }
            if i != il && i != ir {
                proof {
                    assert(rs[i as int].name != l) by {
                        if rs[i as int].name == l {
                            if (i as int) < il as int {
                                assert(rs[i as int].name != rs[il as int].name);
                            } else {
                                assert(rs[il as int].name != rs[i as int].name);
                            }
                        }
                    }
                    assert(rs[i as int].name != r) by {
                        if rs[i as int].name == r {
                            if (i as int) < ir as int {
                                assert(rs[i as int].name != rs[ir as int].name);
                            } else {
                                assert(rs[ir as int].name != rs[i as int].name);
                            }
                        }
                    }
                    assert(pred(rs[i as int]));
                }
                let reg = &self.regions[i];
                proof {
                    assert(*reg == self.regions@[i as int]);
                    assert(rs[i as int] == self.regions@[i as int]@);
                    assert(views_of(reg.links@) == rs[i as int].links);
                    assert(fused.name@ == f);
                }
                let new_links = rewrite_links(&reg.links, left_name, right_name, &fused.name);
                let nr = Region {
                    name: copy_bytes(&reg.name),
                    gdp: reg.gdp,
                    links: new_links,
                };
                let ghost before = out@;
                proof {
                    assert(nr@.name == rs[i as int].name);
                    assert(nr@.gdp == rs[i as int].gdp);
                    assert(nr@.links == views_of(new_links@));
                    assert(views_of(new_links@) == rewrite_spec(views_of(reg.links@), l, r, f));
                    assert(nr@ == rewrite_region(rs[i as int], l, r, f));
                }
                out.push(nr);
                proof {
                    let mv = out@.map_values(|x: Region| x@);
                    let bv = before.map_values(|x: Region| x@);
                    let target = rewrite_all(pre1.filter(pred), l, r, f);
                    assert forall|k: int| 0 <= k < mv.len() implies #[trigger] mv[k]
                        == target[k] by {
                        assert(mv[k] == out@[k]@);
                        if k < before.len() {
                            assert(out@[k] == before[k]);
                            assert(bv[k] == before[k]@);
                            assert(bv[k] == rewrite_all(pre.filter(pred), l, r, f)[k]);
                        } else {
                            assert(out@[k] == nr);
                        }
                    }
                    assert(mv =~= target);
                    assert(bv.push(nr@) =~= mv);
                    lemma_total_push(bv, nr@);
                }
            } else {
                proof {
                    assert(!pred(rs[i as int])) by {
                        if i == il {
                            assert(rs[i as int].name == l);
                        } else {
                            assert(rs[i as int].name == r);
                        }
                    }
                }
            }
            i += 1;
        }
        proof {
            assert(rs.subrange(0, n as int) =~= rs);
        }
        let ghost m = out@.len() as int;
        let ghost rw = out@.map_values(|x: Region| x@);
        out.push(fused);
        self.regions = out;
        proof {
            let fin = final(self)@;
            let pred = survives_pred(l, r);
            let gs = rs.filter(pred);
            assert(rw == rewrite_all(gs, l, r, f));
            assert(rw.len() == gs.len());
            assert(forall|k: int| 0 <= k < gs.len() ==> #[trigger] rw[k] == rewrite_region(
                gs[k],
                l,
                r,
                f,
            ));
            assert(fin =~= rw.push(fused@)) by {
                assert(forall|k: int| 0 <= k < fin.len() ==> #[trigger] fin[k]
                    == final(self).regions@[k]@);
                assert(forall|k: int| 0 <= k < m ==> #[trigger] final(self).regions@[k]
                    == out@[k]);
            }
            lemma_filter_props(rs, pred);
            lemma_filter_unique_names(rs, pred);
            lemma_total_push(rw, fused@);
            // every link of a well-formed graph names some region
            assert forall|i2: int, k2: int|
                0 <= i2 < rs.len() && 0 <= k2 < rs[i2].links.len() implies has_name(
                rs,
                #[trigger] rs[i2].links[k2],
            ) by {
                assert(linked_back(rs, rs[i2].name, rs[i2].links[k2]));
                let j = choose|j: int|
                    0 <= j < rs.len() && (#[trigger] rs[j]).name == rs[i2].links[k2]
                        && rs[j].links.contains(rs[i2].name);
            }
            // each survivor is an element of the old graph, at a known index
            assert forall|p: int| 0 <= p < gs.len() implies exists|q: int|
                0 <= q < rs.len() && rs[q] == #[trigger] gs[p] by {
                assert(gs.contains(gs[p]));
                assert(rs.contains(gs[p]));
            }
            // old names never equal the fused name
            assert forall|i2: int| 0 <= i2 < rs.len() implies (#[trigger] rs[i2]).name != f by {
                if rs[i2].name == f {
                    assert(has_name(rs, f));
                }
            }
            // region names of the result
            assert forall|n2: Seq<u8>|
                has_name(fin, n2) <==> ((has_name(rs, n2) && n2 != l && n2 != r) || n2 == f) by {
                if has_name(fin, n2) {
                    let i2 = choose|i2: int|
                        0 <= i2 < fin.len() && (#[trigger] fin[i2]).name == n2;
                    if i2 < m {
                        assert(fin[i2] == rw[i2]);
                        assert(rw[i2].name == gs[i2].name);
                        let q = choose|q: int| 0 <= q < rs.len() && rs[q] == gs[i2];
                        assert(rs[q].name == n2);
                        assert(pred(gs[i2]));
                    }
                }
                if has_name(rs, n2) && n2 != l && n2 != r {
                    let q = choose|q: int|
                        0 <= q < rs.len() && (#[trigger] rs[q]).name == n2;
                    assert(pred(rs[q]));
                    assert(rs.contains(rs[q]));
                    assert(gs.contains(rs[q]));
                    let p = choose|p: int| 0 <= p < gs.len() && gs[p] == rs[q];
                    assert(fin[p].name == n2);
                }
                if n2 == f {
                    assert(fin[m].name == f);
                }
            }
            // pairwise distinct names in the result
            assert forall|i2: int, j2: int| 0 <= i2 < j2 < fin.len() implies (
            #[trigger] fin[i2]).name != (#[trigger] fin[j2]).name by {
                if j2 < m {
                    assert(fin[i2].name == gs[i2].name && fin[j2].name == gs[j2].name);
                    assert(unique_names(gs));
                } else {
                    assert(fin[j2].name == f);
                    assert(fin[i2].name == gs[i2].name);
                    let q = choose|q: int| 0 <= q < rs.len() && rs[q] == gs[i2];
                    assert(rs[q].name != f);
                }
            }
            // local well-formedness and nonnegative GDP of every result region
            assert forall|i2: int| 0 <= i2 < fin.len() implies region_ok(#[trigger] fin[i2])
                && fin[i2].gdp >= 0 by {
                if i2 < m {
                    let q = choose|q: int| 0 <= q < rs.len() && rs[q] == gs[i2];
                    assert(region_ok(rs[q]));
                    assert(rs[q].gdp >= 0);
                    lemma_rewrite_membership(gs[i2].links, l, r, f);
                    assert(!gs[i2].links.contains(f)) by {
                        if gs[i2].links.contains(f) {
                            let k2 = choose|k2: int|
                                0 <= k2 < rs[q].links.len() && rs[q].links[k2] == f;
                            assert(has_name(rs, f));
                        }
                    }
                    assert(fin[i2].links.no_duplicates());
                    assert(!fin[i2].links.contains(fin[i2].name)) by {
                        if fin[i2].links.contains(gs[i2].name) {
                            assert((gs[i2].links.contains(gs[i2].name) && gs[i2].name != l
                                && gs[i2].name != r) || (gs[i2].name == f && (
                            gs[i2].links.contains(l) || gs[i2].links.contains(r))));
                            assert(rs[q].name != f);
                        }
                    }
                } else {
                    assert(fin[i2] == fused@);
                    assert(names_sorted(fused@.links));
                    assert forall|a: int, b: int| 0 <= a < b < fused@.links.len() implies
                        fused@.links[a] != fused@.links[b] by {
                        assert(lex_lt(fused@.links[a], fused@.links[b]));
                        crate::order::lemma_lex_trichotomy(fused@.links[a], fused@.links[b]);
                    }
                    assert(!fused@.links.contains(f)) by {
                        if fused@.links.contains(f) {
                            assert((rs[il as int].links.contains(f) || rs[ir as int
                            ].links.contains(f)) && f != l && f != r);
                            if rs[il as int].links.contains(f) {
                                let k2 = choose|k2: int|
                                    0 <= k2 < rs[il as int].links.len() && rs[il as int
                                    ].links[k2] == f;
                                assert(has_name(rs, f));
                            } else {
                                let k2 = choose|k2: int|
                                    0 <= k2 < rs[ir as int].links.len() && rs[ir as int
                                    ].links[k2] == f;
                                assert(has_name(rs, f));
                            }
                        }
                    }
                }
            }
            // symmetry of the result
            assert forall|i2: int, k2: int|
                0 <= i2 < fin.len() && 0 <= k2 < fin[i2].links.len() implies linked_back(
                fin,
                fin[i2].name,
                #[trigger] fin[i2].links[k2],
            ) by {
                let n2 = fin[i2].links[k2];
                if i2 < m {
                    let me = gs[i2].name;
                    let q = choose|q: int| 0 <= q < rs.len() && rs[q] == gs[i2];
                    assert(pred(gs[i2]));
                    lemma_rewrite_membership(gs[i2].links, l, r, f);
                    assert(fin[i2].links.contains(n2)) by {
                        assert(fin[i2].links[k2] == n2);
                    }
                    if gs[i2].links.contains(n2) && n2 != l && n2 != r {
                        let kk = choose|kk: int|
                            0 <= kk < rs[q].links.len() && rs[q].links[kk] == n2;
                        assert(linked_back(rs, rs[q].name, rs[q].links[kk]));
                        let j = choose|j: int|
                            0 <= j < rs.len() && (#[trigger] rs[j]).name == n2
                                && rs[j].links.contains(me);
                        assert(pred(rs[j]));
                        assert(rs.contains(rs[j]));
                        assert(gs.contains(rs[j]));
                        let p = choose|p: int| 0 <= p < gs.len() && gs[p] == rs[j];
                        lemma_rewrite_membership(gs[p].links, l, r, f);
                        assert(fin[p].name == n2);
                        assert(fin[p].links.contains(me)) by {
                            assert(me != l && me != r);
                            assert(gs[p].links.contains(me));
                        }
                    } else {
                        assert(n2 == f && (gs[i2].links.contains(l) || gs[i2].links.contains(
                            r,
                        )));
                        assert(fin[m].name == f);
                        assert(me != l && me != r);
                        if gs[i2].links.contains(l) {
                            let kk = choose|kk: int|
                                0 <= kk < rs[q].links.len() && rs[q].links[kk] == l;
                            assert(linked_back(rs, rs[q].name, rs[q].links[kk]));
                            let j = choose|j: int|
                                0 <= j < rs.len() && (#[trigger] rs[j]).name == l
                                    && rs[j].links.contains(me);
                            assert(j == il as int) by {
                                if j != il as int {
                                    assert(false);
                                }
                            }
                            assert(rs[il as int].links.contains(me));
                            assert(fused@.links.contains(me));
                        } else {
                            let kk = choose|kk: int|
                                0 <= kk < rs[q].links.len() && rs[q].links[kk] == r;
                            assert(linked_back(rs, rs[q].name, rs[q].links[kk]));
                            let j = choose|j: int|
                                0 <= j < rs.len() && (#[trigger] rs[j]).name == r
                                    && rs[j].links.contains(me);
                            assert(j == ir as int) by {
                                if j != ir as int {
                                    assert(false);
                                }
                            }
                            assert(rs[ir as int].links.contains(me));
                            assert(fused@.links.contains(me));
                        }
                        assert(linked_back(fin, me, f)) by {
                            assert(fin[m].name == f && fin[m].links.contains(me));
                        }
                    }
                } else {
                    assert(fin[i2] == fused@);
                    assert(fused@.links.contains(n2)) by {
                        assert(fused@.links[k2] == n2);
                    }
                    assert((rs[il as int].links.contains(n2) || rs[ir as int].links.contains(
                        n2,
                    )) && n2 != l && n2 != r);
                    if rs[il as int].links.contains(n2) {
                        let kk = choose|kk: int|
                            0 <= kk < rs[il as int].links.len() && rs[il as int].links[kk] == n2;
                        assert(linked_back(rs, rs[il as int].name, rs[il as int].links[kk]));
                        let j = choose|j: int|
                            0 <= j < rs.len() && (#[trigger] rs[j]).name == n2
                                && rs[j].links.contains(l);
                        assert(pred(rs[j]));
                        assert(rs.contains(rs[j]));
                        assert(gs.contains(rs[j]));
                        let p = choose|p: int| 0 <= p < gs.len() && gs[p] == rs[j];
                        lemma_rewrite_membership(gs[p].links, l, r, f);
                        assert(fin[p].name == n2);
                        assert(fin[p].links.contains(f));
                    } else {
                        let kk = choose|kk: int|
                            0 <= kk < rs[ir as int].links.len() && rs[ir as int].links[kk] == n2;
                        assert(linked_back(rs, rs[ir as int].name, rs[ir as int].links[kk]));
                        let j = choose|j: int|
                            0 <= j < rs.len() && (#[trigger] rs[j]).name == n2
                                && rs[j].links.contains(r);
                        assert(pred(rs[j]));
                        assert(rs.contains(rs[j]));
                        assert(gs.contains(rs[j]));
                        let p = choose|p: int| 0 <= p < gs.len() && gs[p] == rs[j];
                        lemma_rewrite_membership(gs[p].links, l, r, f);
                        assert(fin[p].name == n2);
                        assert(fin[p].links.contains(f));
                    }
                }
            }
            // the fused region's GDP, read back by name
            assert(gdp_of(fin, f) == rs[il as int].gdp + rs[ir as int].gdp) by {
                let j = idx_of(fin, f);
                assert(fin[m].name == f);
                assert(has_name(fin, f));
                assert(0 <= j < fin.len() && fin[j].name == f);
                if j != m {
                    assert(fin[j].name == gs[j].name);
                    let q = choose|q: int| 0 <= q < rs.len() && rs[q] == gs[j];
                    assert(rs[q].name != f);
                }
            }
            assert(gdp_of(rs, l) == rs[il as int].gdp);
            assert(gdp_of(rs, r) == rs[ir as int].gdp);
            // the exact shape of the result
            assert(links_of(rs, l) == rs[il as int].links);
            assert(links_of(rs, r) == rs[ir as int].links);
            assert(fin.last() == fused@);
            assert(fusion_shape(rs, fin, l, r));
            // every survivor keeps its name and GDP, links rewritten
            assert forall|n: Seq<u8>| #![auto]
                has_name(rs, n) && n != l && n != r implies has_name(fin, n) && gdp_of(fin, n)
                == gdp_of(rs, n) && links_of(fin, n) == rewrite_spec(
                links_of(rs, n),
                l,
                r,
                f,
            ) by {
                let q = choose|q: int| 0 <= q < rs.len() && (#[trigger] rs[q]).name == n;
                assert(pred(rs[q]));
                assert(rs.contains(rs[q]));
                assert(gs.contains(rs[q]));
                let p = choose|p: int| 0 <= p < gs.len() && gs[p] == rs[q];
                assert(fin[p] == rewrite_region(gs[p], l, r, f));
                assert(fin[p].name == n);
                assert(has_name(fin, n));
                let j2 = idx_of(fin, n);
                assert(0 <= j2 < fin.len() && fin[j2].name == n);
                assert(j2 == p) by {
                    if j2 != p {
                        if j2 < p {
                            assert(fin[j2].name != fin[p].name);
                        } else {
                            assert(fin[p].name != fin[j2].name);
                        }
                    }
                }
                let q2 = idx_of(rs, n);
                assert(0 <= q2 < rs.len() && rs[q2].name == n);
                assert(q2 == q) by {
                    if q2 != q {
                        if q2 < q {
                            assert(rs[q2].name != rs[q].name);
                        } else {
                            assert(rs[q].name != rs[q2].name);
                        }
                    }
                }
            }
            // a region linked to neither fused region is untouched
            assert forall|n: Seq<u8>| #![auto]
                has_name(rs, n) && n != l && n != r && !links_of(rs, n).contains(l)
                    && !links_of(rs, n).contains(r) implies links_of(fin, n) == links_of(
                rs,
                n,
            ) by {
                let ls = links_of(rs, n);
                assert forall|k2: int| 0 <= k2 < ls.len() implies keep_name(l, r)(
                    #[trigger] ls[k2],
                ) by {
                    if ls[k2] == l {
                        assert(ls.contains(l));
                    }
                    if ls[k2] == r {
                        assert(ls.contains(r));
                    }
                }
                lemma_filter_all(ls, keep_name(l, r));
                assert(rewrite_spec(ls, l, r, f) == ls);
            }
        }
    }
}

} // verus!
