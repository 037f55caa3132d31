//! A region: a named node with a GDP value and a list of neighbor names.

use crate::order::{bytes_eq, lex_cmp, lemma_lex_trans, lemma_lex_trichotomy, lex_lt, Cmp};
use vstd::prelude::*;

verus! {

/// Separator byte between the two source names of a fused region,
/// and between neighbor names in the text format.
pub const DASH: u8 = 45;

/// An adjacency-list node: a unique name, an economic output in integer
/// units, and the names of the adjacent regions.
pub struct Region {
    pub name: Vec<u8>,
    pub gdp: u64,
    pub links: Vec<Vec<u8>>,
}

/// The mathematical value of a [`Region`].
pub ghost struct RegionV {
    pub name: Seq<u8>,
    pub gdp: int,
    pub links: Seq<Seq<u8>>,
}

/// The sequence of byte-string values of a sequence of byte vectors.
pub open spec fn views_of(v: Seq<Vec<u8>>) -> Seq<Seq<u8>> {
    v.map_values(|x: Vec<u8>| x@)
}

impl View for Region {
    type V = RegionV;

    open spec fn view(&self) -> RegionV {
        RegionV { name: self.name@, gdp: self.gdp as int, links: views_of(self.links@) }
    }
}

/// Local well-formedness of a region: no link to itself, no duplicate link.
pub open spec fn region_ok(r: RegionV) -> bool {
    &&& !r.links.contains(r.name)
    &&& r.links.no_duplicates()
}

/// Name of the region obtained by fusing a region named `a` with one named `b`.
pub open spec fn fused_name(a: Seq<u8>, b: Seq<u8>) -> Seq<u8> {
    a + seq![DASH] + b
}

/// A strictly ascending sequence of names (hence without duplicates).
pub open spec fn names_sorted(s: Seq<Seq<u8>>) -> bool {
    forall|i: int, j: int| 0 <= i < j < s.len() ==> lex_lt(s[i], s[j])
}

/// Two strictly sorted name lists with the same members are the same list.
pub proof fn lemma_names_sorted_unique(s1: Seq<Seq<u8>>, s2: Seq<Seq<u8>>)
    requires
        names_sorted(s1),
        names_sorted(s2),
        forall|n: Seq<u8>| s1.contains(n) <==> s2.contains(n),
    ensures
        s1 == s2,
    decreases s1.len(),
{
    if s1.len() == 0 {
        if s2.len() > 0 {
            assert(s2.contains(s2[0]));
            assert(s1.contains(s2[0]));
            let i = choose|i: int| 0 <= i < s1.len() && s1[i] == s2[0];
            assert(false);
        }
        assert(s1 =~= s2);
    } else {
        assert(s1.contains(s1[0]));
        assert(s2.contains(s1[0]));
        if s2.len() == 0 {
            let j = choose|j: int| 0 <= j < s2.len() && s2[j] == s1[0];
            assert(false);
        }
        // the heads are both the least member, so they are equal
        let j = choose|j: int| 0 <= j < s2.len() && s2[j] == s1[0];
        assert(s2.contains(s2[0]));
        assert(s1.contains(s2[0]));
        let i = choose|i: int| 0 <= i < s1.len() && s1[i] == s2[0];
        if j > 0 {
            assert(lex_lt(s2[0], s2[j]));
            if i > 0 {
                assert(lex_lt(s1[0], s1[i]));
                lemma_lex_trans(s2[0], s1[0], s1[i]);
                lemma_lex_trichotomy(s2[0], s1[i]);
            } else {
                lemma_lex_trichotomy(s2[0], s2[j]);
            }
            assert(false);
        }
        assert(s2[0] == s1[0]);
        let t1 = s1.drop_first();
        let t2 = s2.drop_first();
        assert(forall|a: int| 0 <= a < t1.len() ==> #[trigger] t1[a] == s1[a + 1]);
        assert(forall|a: int| 0 <= a < t2.len() ==> #[trigger] t2[a] == s2[a + 1]);
        assert(names_sorted(t1));
        assert(names_sorted(t2));
        assert forall|n: Seq<u8>| t1.contains(n) <==> t2.contains(n) by {
            if t1.contains(n) {
                let a = choose|a: int| 0 <= a < t1.len() && t1[a] == n;
                assert(s1[a + 1] == n);
                assert(s1.contains(n));
                assert(s2.contains(n));
                let b = choose|b: int| 0 <= b < s2.len() && s2[b] == n;
                assert(b != 0) by {
                    if b == 0 {
                        assert(lex_lt(s1[0], s1[a + 1]));
                        lemma_lex_trichotomy(s1[0], s1[a + 1]);
                    }
                }
                assert(t2[b - 1] == n);
                assert(t2.contains(n));
            }
            if t2.contains(n) {
                let a = choose|a: int| 0 <= a < t2.len() && t2[a] == n;
                assert(s2[a + 1] == n);
                assert(s2.contains(n));
                assert(s1.contains(n));
                let b = choose|b: int| 0 <= b < s1.len() && s1[b] == n;
                assert(b != 0) by {
                    if b == 0 {
                        assert(lex_lt(s2[0], s2[a + 1]));
                        lemma_lex_trichotomy(s2[0], s2[a + 1]);
                    }
                }
                assert(t1[b - 1] == n);
                assert(t1.contains(n));
            }
        }
        lemma_names_sorted_unique(t1, t2);
        assert(s1 =~= s2) by {
            assert(s1.len() == 1 + t1.len());
            assert(s2.len() == 1 + t2.len());
            assert(forall|a: int| 1 <= a < s1.len() ==> #[trigger] s1[a] == t1[a - 1]);
            assert(forall|a: int| 1 <= a < s2.len() ==> #[trigger] s2[a] == t2[a - 1]);
        }
    }
}

/// Builds the fused name `a`, separator, `b`.
pub fn concat_name(a: &Vec<u8>, b: &Vec<u8>) -> (r: Vec<u8>)
    ensures
        r@ == fused_name(a@, b@),
{
    let mut r: Vec<u8> = Vec::new();
    let mut i: usize = 0;
    while i < a.len()
        invariant
            i <= a@.len(),
            r@ =~= a@.subrange(0, i as int),
        decreases a@.len() - i,
    {
        r.push(a[i]);
        i += 1;
    }
    proof {
        assert(r@ =~= a@);
    }
    r.push(DASH);
    let mut j: usize = 0;
    while j < b.len()
        invariant
            j <= b@.len(),
            r@ =~= a@ + seq![DASH] + b@.subrange(0, j as int),
        decreases b@.len() - j,
    {
        r.push(b[j]);
        j += 1;
    }
    proof {
        assert(r@ =~= fused_name(a@, b@));
    }
    r
}

/// An independent copy of a byte string.
pub fn copy_bytes(v: &Vec<u8>) -> (r: Vec<u8>)
    ensures
        r@ == v@,
{
    let mut r: Vec<u8> = Vec::new();
    let mut i: usize = 0;
    while i < v.len()
        invariant
            i <= v@.len(),
            r@ =~= v@.subrange(0, i as int),
        decreases v@.len() - i,
    {
        r.push(v[i]);
        i += 1;
    }
    proof {
        assert(r@ =~= v@);
    }
    r
}

/// Inserts a name into a strictly sorted list of names, keeping it strictly
/// sorted; a name already present is not inserted twice.
pub fn insert_sorted(v: &mut Vec<Vec<u8>>, x: Vec<u8>)
    requires
        names_sorted(views_of(old(v)@)),
    ensures
        names_sorted(views_of(final(v)@)),
        forall|n: Seq<u8>|
            views_of(final(v)@).contains(n) <==> (views_of(old(v)@).contains(n) || n == x@),
{
    let ghost s = views_of(v@);
    let n = v.len();
    let mut pos: usize = 0;
    let mut dup = false;
    let mut j: usize = 0;
    while j < n
        invariant
            n == v@.len(),
            v@.len() == s.len(),
            views_of(v@) == s,
            names_sorted(s),
            j <= n,
            pos <= j,
            forall|k: int| 0 <= k < pos ==> lex_lt(s[k], x@),
            forall|k: int| pos <= k < j ==> !lex_lt(s[k], x@),
            dup <==> exists|k: int| 0 <= k < j && s[k] == x@,
        decreases n - j,
    {
        proof {
            assert(s[j as int] == v@[j as int]@);
        }
        match lex_cmp(&v[j], &x) {
            Cmp::Lt => {
                proof {
                    lemma_lex_trichotomy(s[j as int], x@);
                    assert forall|k: int| 0 <= k < j + 1 implies lex_lt(s[k], x@) by {
                        if k < j {
                            if k < pos {
                            } else {
                                assert(!lex_lt(s[k], x@));
                                // sorted: s[k] comes before s[j], which is below x
                                assert(lex_lt(s[k], s[j as int]));
                                lemma_lex_trans(s[k], s[j as int], x@);
                                assert(false);
                            }
                        }
                    }
                }
                pos = j + 1;
            },
            Cmp::Eq => {
                proof {
                    assert(s[j as int] == x@);
                }
                dup = true;
            },
            Cmp::Gt => {
                proof {
                    lemma_lex_trichotomy(s[j as int], x@);
                }
            },
        }
        j += 1;
    }
    if dup {
        return ;
    }
    proof {
        assert forall|k: int| pos <= k < n implies lex_lt(x@, s[k]) by {
            lemma_lex_trichotomy(s[k], x@);
        }
    }
    v.insert(pos, x);
    proof {
        let s2 = views_of(v@);
        assert(s2 =~= s.insert(pos as int, x@)) by {
            assert(forall|k: int|
                0 <= k < s2.len() ==> s2[k] == #[trigger] v@[k]@);
        }
        assert forall|i: int, j2: int| 0 <= i < j2 < s2.len() implies lex_lt(s2[i], s2[j2]) by {
            let p = pos as int;
            if i < p && j2 < p {
                assert(s2[i] == s[i] && s2[j2] == s[j2]);
            } else if i < p && j2 == p {
                assert(s2[i] == s[i] && s2[j2] == x@);
            } else if i < p && j2 > p {
                assert(s2[i] == s[i] && s2[j2] == s[j2 - 1]);
                if j2 - 1 < p {
                    lemma_lex_trans(s[i], x@, s[j2 - 1]);
                }
            } else if i == p {
                assert(s2[i] == x@ && s2[j2] == s[j2 - 1]);
            } else {
                assert(s2[i] == s[i - 1] && s2[j2] == s[j2 - 1]);
            }
        }
        assert forall|m: Seq<u8>|
            views_of(final(v)@).contains(m) <==> (s.contains(m) || m == x@) by {
            let p = pos as int;
            if s2.contains(m) {
                let k = choose|k: int| 0 <= k < s2.len() && s2[k] == m;
                if k < p {
                    assert(s[k] == m);
                } else if k == p {
                } else {
                    assert(s[k - 1] == m);
                }
            }
            if s.contains(m) {
                let k = choose|k: int| 0 <= k < s.len() && s[k] == m;
                if k < p {
                    assert(s2[k] == m);
                } else {
                    assert(s2[k + 1] == m);
                }
            }
            if m == x@ {
                assert(s2[p] == m);
            }
        }
    }
}

impl Region {
    /// An independent copy with the same mathematical value.
    pub fn duplicate(&self) -> (r: Region)
        ensures
            r@ == self@,
    {
        let name = copy_bytes(&self.name);
        let mut links: Vec<Vec<u8>> = Vec::new();
        let mut i: usize = 0;
        while i < self.links.len()
            invariant
                i <= self.links@.len(),
                links@.len() == i,
                views_of(links@) =~= views_of(self.links@).subrange(0, i as int),
            decreases self.links@.len() - i,
        {
            let ghost before = links@;
            proof {
                assert(i < self.links@.len());
            }
            let c = copy_bytes(&self.links[i]);
            proof {
                assert(c@ == self.links@[i as int]@);
            }
            links.push(c);
            proof {
                assert(links@ == before.push(c));
                assert(views_of(self.links@).len() == self.links@.len());
                assert forall|k: int| 0 <= k < links@.len() implies #[trigger] views_of(links@)[k]
                    == views_of(self.links@).subrange(0, i + 1)[k] by {
                    let s = views_of(self.links@);
                    assert(s.len() == self.links@.len());
                    assert(0 <= i + 1 <= s.len());
                    assert(k < i + 1);
                    assert(views_of(links@)[k] == links@[k]@);
                    assert(s.subrange(0, i + 1)[k] == s[k]);
                    assert(s[k] == self.links@[k]@);
                    if k < i {
                        assert(links@[k] == before[k]);
                        assert(views_of(before)[k] == before[k]@);
                        assert(views_of(before)[k] == views_of(self.links@).subrange(0, i as int)[k]);
                    } else {
                        assert(links@[k] == c);
                    }
                }
                assert(views_of(links@).len() == views_of(self.links@).subrange(0, i + 1).len());
                assert(views_of(links@) =~= views_of(self.links@).subrange(0, i + 1));
            }
            i += 1;
        }
        proof {
            assert(views_of(links@) =~= views_of(self.links@));
        }
        let r = Region { name, gdp: self.gdp, links };
        proof {
            assert(r@ == self@);
        }
        r
    }

    /// Fuses two mutually linked regions into one: the GDP is the exact sum
    /// of the two inputs' GDP, the name is the two names joined by the
    /// separator, and the links are the union of both link lists with the
    /// mutual reference removed, deduplicated and sorted.
    pub fn fuse(self, other: Region) -> (r: Region)
        requires
            self@.links.contains(other@.name),
            other@.links.contains(self@.name),
            region_ok(self@),
            region_ok(other@),
            self@.name != other@.name,
            self@.gdp + other@.gdp <= u64::MAX,
        ensures
            r@.name == fused_name(self@.name, other@.name),
            r@.gdp == self@.gdp + other@.gdp,
            names_sorted(r@.links),
            forall|n: Seq<u8>|
                r@.links.contains(n) <==> ((self@.links.contains(n) || other@.links.contains(n))
                    && n != self@.name && n != other@.name),
    {
        let name = concat_name(&self.name, &other.name);
        let gdp = self.gdp + other.gdp;
        let mut links: Vec<Vec<u8>> = Vec::new();
        let mut i: usize = 0;
        while i < self.links.len()
            invariant
                i <= self.links@.len(),
                names_sorted(views_of(links@)),
                forall|n: Seq<u8>|
                    views_of(links@).contains(n) <==> (views_of(self.links@).subrange(
                        0,
                        i as int,
                    ).contains(n) && n != other@.name),
            decreases self.links@.len() - i,
        {
            let ghost before = views_of(links@);
            if !bytes_eq(&self.links[i], &other.name) {
                let l = copy_bytes(&self.links[i]);
                insert_sorted(&mut links, l);
            }
            proof {
                assert forall|n: Seq<u8>|
                    views_of(links@).contains(n) <==> (views_of(self.links@).subrange(
                        0,
                        i + 1,
                    ).contains(n) && n != other@.name) by {
                    let pre = views_of(self.links@).subrange(0, i as int);
                    let pre1 = views_of(self.links@).subrange(0, i + 1);
                    assert(pre1 =~= pre.push(self.links@[i as int]@));
                    if pre1.contains(n) && n != other@.name {
                        let k = choose|k: int| 0 <= k < pre1.len() && pre1[k] == n;
                        if k < i {
                            assert(pre.contains(n));
                        }
                    }
                    if pre.contains(n) {
                        assert(pre1.contains(n)) by {
                            let k = choose|k: int| 0 <= k < pre.len() && pre[k] == n;
                            assert(pre1[k] == n);
                        }
                    }
                    if n == self.links@[i as int]@ {
                        assert(pre1[i as int] == n);
                    }
                }
            }
            i += 1;
        }
        proof {
            assert(views_of(self.links@).subrange(0, self.links@.len() as int) =~= views_of(
                self.links@,
            ));
        }
        let mut j: usize = 0;
        while j < other.links.len()
            invariant
                j <= other.links@.len(),
                names_sorted(views_of(links@)),
                forall|n: Seq<u8>|
                    views_of(links@).contains(n) <==> ((views_of(self.links@).contains(n)
                        && n != other@.name) || (views_of(other.links@).subrange(
                        0,
                        j as int,
                    ).contains(n) && n != self@.name)),
            decreases other.links@.len() - j,
        {
            if !bytes_eq(&other.links[j], &self.name) {
                let l = copy_bytes(&other.links[j]);
                insert_sorted(&mut links, l);
            }
            proof {
                assert forall|n: Seq<u8>|
                    views_of(links@).contains(n) <==> ((views_of(self.links@).contains(n)
                        && n != other@.name) || (views_of(other.links@).subrange(
                        0,
                        j + 1,
                    ).contains(n) && n != self@.name)) by {
                    let pre = views_of(other.links@).subrange(0, j as int);
                    let pre1 = views_of(other.links@).subrange(0, j + 1);
                    assert(pre1 =~= pre.push(other.links@[j as int]@));
                    if pre1.contains(n) && n != self@.name {
                        let k = choose|k: int| 0 <= k < pre1.len() && pre1[k] == n;
                        if k < j {
                            assert(pre.contains(n));
                        }
                    }
                    if pre.contains(n) {
                        assert(pre1.contains(n)) by {
                            let k = choose|k: int| 0 <= k < pre.len() && pre[k] == n;
                            assert(pre1[k] == n);
                        }
                    }
                    if n == other.links@[j as int]@ {
                        assert(pre1[j as int] == n);
                    }
                }
            }
            j += 1;
        }
        proof {
            assert(views_of(other.links@).subrange(0, other.links@.len() as int) =~= views_of(
                other.links@,
            ));
        }
        let r = Region { name, gdp, links };
        proof {
            // a region never links itself, so dropping the mutual reference
            // is exactly dropping both source names from the union
            assert forall|n: Seq<u8>|
                r@.links.contains(n) <==> ((self@.links.contains(n) || other@.links.contains(n))
                    && n != self@.name && n != other@.name) by {
                if self@.links.contains(n) && n == self@.name {
                    assert(false);
                }
                if other@.links.contains(n) && n == other@.name {
                    assert(false);
                }
            }
        }
        r
    }
}

} // verus!
