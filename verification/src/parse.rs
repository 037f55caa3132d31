//! The flat line-based text format: one region per line,
//! `NAME : GDP : NEIGHBOR-NEIGHBOR-...`, with GDP in integer units and an
//! empty third field for a region with no neighbors.

use crate::country::{gdps_of, linked_back, symmetric, unique_names, wf, Country, MAX_REGIONS,
    MAX_TOTAL_GDP};
use crate::order::bytes_eq;
use crate::region::{copy_bytes, region_ok, views_of, Region, RegionV};
use crate::stats::{lemma_seqsum_push, seqsum};
use vstd::prelude::*;

verus! {

/// A decimal digit.
pub open spec fn is_digit(b: u8) -> bool {
    48 <= b <= 57
}

pub open spec fn all_digits(s: Seq<u8>) -> bool {
    forall|i: int| 0 <= i < s.len() ==> is_digit(#[trigger] s[i])
}

/// The number a string of decimal digits denotes.
pub open spec fn dec_value(s: Seq<u8>) -> int
    decreases s.len(),
{
    if s.len() == 0 {
        0
    } else {
        dec_value(s.drop_last()) * 10 + (s.last() - 48)
    }
}

/// Index of the first occurrence of byte `b` at or after `from`, or -1.
pub open spec fn find_byte(s: Seq<u8>, b: u8, from: int) -> int
    decreases s.len() - from,
{
    if from < 0 || from >= s.len() {
        -1
    } else if s[from] == b {
        from
    } else {
        find_byte(s, b, from + 1)
    }
}

/// The field separator `" : "` starts at `i`.
pub open spec fn sep_at(s: Seq<u8>, i: int) -> bool {
    0 <= i && i + 3 <= s.len() && s[i] == 32 && s[i + 1] == 58 && s[i + 2] == 32
}

/// Index of the first separator at or after `from`, or -1.
pub open spec fn find_sep(s: Seq<u8>, from: int) -> int
    decreases s.len() - from,
{
    if from < 0 || from + 3 > s.len() {
        -1
    } else if sep_at(s, from) {
        from
    } else {
        find_sep(s, from + 1)
    }
}

/// The segments of `s` between occurrences of `b`.
pub open spec fn split_on(s: Seq<u8>, b: u8) -> Seq<Seq<u8>>
    decreases s.len(),
    via split_on_decreases
{
    let k = find_byte(s, b, 0);
    if k < 0 {
        seq![s]
    } else {
        seq![s.subrange(0, k)] + split_on(s.skip(k + 1), b)
    }
}

#[via_fn]
proof fn split_on_decreases(s: Seq<u8>, b: u8) {
    lemma_find_byte_ge(s, b, 0);
}

proof fn lemma_find_byte_ge(s: Seq<u8>, b: u8, from: int)
    ensures
        find_byte(s, b, from) >= 0 ==> from <= find_byte(s, b, from) < s.len() && s[find_byte(
            s,
            b,
            from,
        )] == b,
    decreases s.len() - from,
{
    if 0 <= from < s.len() && s[from] != b {
        lemma_find_byte_ge(s, b, from + 1);
    }
}

/// The region a line denotes, if it is well formed: the name up to the
/// first separator, the integer GDP between the first two separators, and
/// the neighbors in the following field, split on the dash; any further
/// fields are ignored, and an empty neighbor field means no neighbors.
pub open spec fn parse_line_spec(s: Seq<u8>) -> Option<RegionV> {
    let i = find_sep(s, 0);
    if i < 0 {
        None
    } else {
        let name = s.subrange(0, i);
        let rest = s.skip(i + 3);
        let j = find_sep(rest, 0);
        if j < 0 {
            None
        } else {
            let gdp_field = rest.subrange(0, j);
            let rest2 = rest.skip(j + 3);
            let k = find_sep(rest2, 0);
            let links_field = if k < 0 {
                rest2
            } else {
                rest2.subrange(0, k)
            };
            if 1 <= gdp_field.len() <= 10 && all_digits(gdp_field) {
                let links = if links_field.len() == 0 {
                    Seq::<Seq<u8>>::empty()
                } else {
                    split_on(links_field, 45)
                };
                Some(RegionV { name, gdp: dec_value(gdp_field), links })
            } else {
                None
            }
        }
    }
}

/// The regions of a sequence of lines, if every line is well formed.
pub open spec fn parse_all(lines: Seq<Seq<u8>>) -> Option<Seq<RegionV>>
    decreases lines.len(),
{
    if lines.len() == 0 {
        Some(Seq::<RegionV>::empty())
    } else {
        match parse_all(lines.drop_last()) {
            None => None,
            Some(rs) => match parse_line_spec(lines.last()) {
                None => None,
                Some(rv) => Some(rs.push(rv)),
            },
        }
    }
}

/// The lines of an input text: split on newline, a trailing empty segment
/// (from a final newline) dropped.
pub open spec fn lines_of(s: Seq<u8>) -> Seq<Seq<u8>> {
    let raw = split_on(s, 10);
    if raw.len() > 0 && raw.last().len() == 0 {
        raw.drop_last()
    } else {
        raw
    }
}

/// Why an input text was rejected.
#[derive(Debug, PartialEq, Eq)]
pub enum InputError {
    /// Some line does not parse: a missing field or a bad number.
    Malformed,
    /// The parsed regions do not form a well-formed graph: a duplicate
    /// name, a broken or asymmetric link, a self-loop, a duplicate link,
    /// or a graph beyond the size bounds.
    Invalid,
}

/// Finds the first separator of a line, as [`find_sep`] does.
fn find_sep_exec(s: &Vec<u8>, from: usize) -> (r: Option<usize>)
    requires
        from <= s@.len(),
    ensures
        r matches Some(p) ==> find_sep(s@, from as int) == p as int && from <= p && sep_at(
            s@,
            p as int,
        ),
        r is None ==> find_sep(s@, from as int) == -1,
{
    let n = s.len();
    let mut i: usize = from;
    while n >= 3 && i <= n - 3
        invariant
            from <= i,
            i <= n,
            n == s@.len(),
            find_sep(s@, from as int) == find_sep(s@, i as int),
        decreases n - i,
    {
        if s[i] == 32 && s[i + 1] == 58 && s[i + 2] == 32 {
            proof {
                assert(sep_at(s@, i as int));
            }
            return Some(i);
        }
        proof {
            assert(!sep_at(s@, i as int));
        }
        i += 1;
    }
    None
}

/// Finds the first occurrence of a byte, as [`find_byte`] does.
fn find_byte_exec(s: &Vec<u8>, b: u8, from: usize) -> (r: Option<usize>)
    requires
        from <= s@.len(),
    ensures
        r matches Some(p) ==> find_byte(s@, b, from as int) == p as int && from <= p && p
            < s@.len() && s@[p as int] == b,
        r is None ==> find_byte(s@, b, from as int) == -1,
{
    let n = s.len();
    let mut i: usize = from;
    while i < n
        invariant
            from <= i,
            i <= n,
            n == s@.len(),
            find_byte(s@, b, from as int) == find_byte(s@, b, i as int),
        decreases n - i,
    {
        if s[i] == b {
            return Some(i);
        }
        i += 1;
    }
    None
}

/// Copies the bytes of `s` in `[a, b)`.
fn subvec(s: &Vec<u8>, a: usize, b: usize) -> (r: Vec<u8>)
    requires
        a <= b <= s@.len(),
    ensures
        r@ == s@.subrange(a as int, b as int),
{
    let mut r: Vec<u8> = Vec::new();
    let mut i: usize = a;
    while i < b
        invariant
            a <= i <= b,
            b <= s@.len(),
            r@ =~= s@.subrange(a as int, i as int),
        decreases b - i,
    {
        r.push(s[i]);
        proof {
            assert(r@ =~= s@.subrange(a as int, i + 1));
        }
        i += 1;
    }
    proof {
        assert(r@ =~= s@.subrange(a as int, b as int));
    }
    r
}

/// Splits on a byte, as [`split_on`] does.
fn split_on_exec(s: Vec<u8>, b: u8) -> (r: Vec<Vec<u8>>)
    ensures
        views_of(r@) == split_on(s@, b),
    decreases s@.len(),
{
    match find_byte_exec(&s, b, 0) {
        Option::None => {
            let mut r: Vec<Vec<u8>> = Vec::new();
            r.push(s);
            proof {
                assert(views_of(r@) =~= split_on(r[0]@, b));
            }
            r
        },
        Option::Some(k) => {
            proof {
                lemma_find_byte_ge(s@, b, 0);
            }
            let head = subvec(&s, 0, k);
            let tail = subvec(&s, k + 1, s.len());
            proof {
                assert(tail@ =~= s@.skip(k + 1));
                assert(tail@.len() < s@.len());
            }
            let mut rest = split_on_exec(tail, b);
            let ghost prev = rest@;
            rest.insert(0, head);
            proof {
                assert forall|q: int| 0 <= q < rest@.len() implies #[trigger] views_of(rest@)[q]
                    == split_on(s@, b)[q] by {
                    assert(views_of(rest@)[q] == rest@[q]@);
                    if q == 0 {
                        assert(rest@[0] == head);
                    } else {
                        assert(rest@[q] == prev[q - 1]);
                        assert(views_of(prev)[q - 1] == prev[q - 1]@);
                    }
                }
                assert(views_of(rest@) =~= split_on(s@, b));
            }
            rest
        },
    }
}

/// Parses a decimal integer field of at most ten digits.
fn parse_u64(s: &Vec<u8>) -> (r: Option<u64>)
    ensures
        r is Some <==> (1 <= s@.len() <= 10 && all_digits(s@)),
        r matches Some(v) ==> v as int == dec_value(s@),
{
    let n = s.len();
    if n == 0 || n > 10 {
        return None;
    }
    let mut acc: u64 = 0;
    let mut i: usize = 0;
    while i < n
        invariant
            i <= n,
            1 <= n <= 10,
            n == s@.len(),
            acc as int == dec_value(s@.subrange(0, i as int)),
            acc < 10000000000,
            forall|k: int| 0 <= k < i ==> is_digit(#[trigger] s@[k]),
        decreases n - i,
    {
        let b = s[i];
        if b < 48 || b > 57 {
            return None;
        }
        proof {
            let pre1 = s@.subrange(0, i + 1);
            assert(pre1.drop_last() =~= s@.subrange(0, i as int));
            assert(pre1.last() == s@[i as int]);
            assert(all_digits(pre1)) by {
                assert(forall|k: int| 0 <= k < pre1.len() ==> #[trigger] pre1[k] == s@[k]);
            }
            lemma_dec_bounds(pre1);
            lemma_pow10_mono(pre1.len() as int, 10);
            assert(pow10(10) == 10000000000) by {
                reveal_with_fuel(pow10, 12);
            }
        }
        acc = acc * 10 + ((b - 48) as u64);
        i += 1;
    }
    proof {
        assert(s@.subrange(0, n as int) =~= s@);
    }
    Some(acc)
}

/// The canonical decimal digits of a number.
fn u64_to_dec(v: u64) -> (r: Vec<u8>)
    ensures
        all_digits(r@),
        r@.len() >= 1,
        dec_value(r@) == v as int,
        r@[0] != 48 || r@.len() == 1,
    decreases v,
{
    if v < 10 {
        let mut r: Vec<u8> = Vec::new();
        r.push((v as u8) + 48);
        proof {
            assert(r@.drop_last() =~= Seq::<u8>::empty());
            assert(dec_value(r@.drop_last()) == 0);
            assert(r@.last() == (v as u8) + 48);
            assert(dec_value(r@) == v as int);
            assert(is_digit(r@[0]));
        }
        r
    } else {
        let mut r = u64_to_dec(v / 10);
        let d = ((v % 10) as u8) + 48;
        let ghost before = r@;
        r.push(d);
        proof {
            assert(r@.drop_last() =~= before);
            assert(r@.last() == d);
            assert(dec_value(r@) == dec_value(before) * 10 + (d - 48));
            assert(dec_value(before) * 10 + (v % 10) as int == v as int);
            assert(r@[0] == before[0]);
            if before.len() == 1 {
                assert(before.drop_last() =~= Seq::<u8>::empty());
                assert(dec_value(before.drop_last()) == 0);
                assert(before.last() == before[0]);
                assert(dec_value(before) == before[0] - 48);
                assert(before[0] != 48) by {
                    assert(v / 10 >= 1);
                }
            }
            assert forall|i: int| 0 <= i < r@.len() implies is_digit(#[trigger] r@[i]) by {
                if i < before.len() {
                    assert(r@[i] == before[i]);
                }
            }
        }
        r
    }
}

/// Parses one line of the text format, exactly as [`parse_line_spec`]
/// reads it.
pub fn parse_region_line(line: &Vec<u8>) -> (r: Result<Region, InputError>)
    ensures
        r matches Ok(reg) ==> parse_line_spec(line@) == Some(reg@),
        r is Err ==> parse_line_spec(line@) is None,
{
    let i = match find_sep_exec(line, 0) {
        Option::Some(i) => i,
        Option::None => {
            return Err(InputError::Malformed);
        },
    };
    let nlen = line.len();
    proof {
        assert(i + 3 <= nlen);
    }
    let name = subvec(line, 0, i);
    let rest = subvec(line, i + 3, nlen);
    proof {
        assert(rest@ =~= line@.skip(i + 3));
    }
    let j = match find_sep_exec(&rest, 0) {
        Option::Some(j) => j,
        Option::None => {
            return Err(InputError::Malformed);
        },
    };
    let rlen = rest.len();
    proof {
        assert(j + 3 <= rlen);
    }
    let gdp_field = subvec(&rest, 0, j);
    let rest2 = subvec(&rest, j + 3, rlen);
    proof {
        assert(rest2@ =~= rest@.skip(j + 3));
    }
    let links_field = match find_sep_exec(&rest2, 0) {
        Option::Some(k) => subvec(&rest2, 0, k),
        Option::None => rest2,
    };
    let gdp = match parse_u64(&gdp_field) {
        Option::Some(g) => g,
        Option::None => {
            return Err(InputError::Malformed);
        },
    };
    let links: Vec<Vec<u8>> = if links_field.len() == 0 {
        Vec::new()
    } else {
        split_on_exec(links_field, 45)
    };
    let reg = Region { name, gdp, links };
    proof {
        if links_field@.len() == 0 {
            assert(reg@.links =~= Seq::<Seq<u8>>::empty());
        }
        assert(parse_line_spec(line@) == Some(reg@));
    }
    Ok(reg)
}

/// Serializes a region back to its text line. Parsing the line yields the
/// region unchanged: names must be nonempty and free of the separator
/// bytes, and the GDP must stay within the model's total bound.
pub fn region_to_line(r: &Region) -> (line: Vec<u8>)
    requires
        plain_name(r@.name),
        forall|k: int| 0 <= k < r@.links.len() ==> plain_name(#[trigger] r@.links[k]),
        r@.gdp <= MAX_TOTAL_GDP as int,
    ensures
        parse_line_spec(line@) == Some(r@),
{
    let mut line = copy_bytes(&r.name);
    line.push(32);
    line.push(58);
    line.push(32);
    let digits = u64_to_dec(r.gdp);
    let mut p: usize = 0;
    while p < digits.len()
        invariant
            p <= digits@.len(),
            line@ =~= r.name@ + seq![32u8, 58u8, 32u8] + digits@.subrange(0, p as int),
        decreases digits@.len() - p,
    {
        line.push(digits[p]);
        proof {
            assert(line@ =~= r.name@ + seq![32u8, 58u8, 32u8] + digits@.subrange(0, p + 1));
        }
        p += 1;
    }
    proof {
        assert(digits@.subrange(0, digits@.len() as int) =~= digits@);
    }
    line.push(32);
    line.push(58);
    line.push(32);
    let mut q: usize = 0;
    while q < r.links.len()
        invariant
            q <= r.links@.len(),
            line@ =~= r.name@ + seq![32u8, 58u8, 32u8] + digits@ + seq![32u8, 58u8, 32u8]
                + join_dash(r@.links.subrange(0, q as int)),
            forall|k: int| 0 <= k < r@.links.len() ==> plain_name(#[trigger] r@.links[k]),
            r@.links == views_of(r.links@),
        decreases r.links@.len() - q,
    {
        if q > 0 {
            line.push(45);
        }
        let mut b: usize = 0;
        let ghost linestart = line@;
        while b < r.links[q].len()
            invariant
                q < r.links@.len(),
                b <= r.links@[q as int]@.len(),
                line@ =~= linestart + r.links@[q as int]@.subrange(0, b as int),
            decreases r.links@[q as int]@.len() - b,
        {
            line.push(r.links[q][b]);
            proof {
                assert(line@ =~= linestart + r.links@[q as int]@.subrange(0, b + 1));
            }
            b += 1;
        }
        proof {
            assert(r.links@[q as int]@.subrange(0, r.links@[q as int]@.len() as int) =~= r.links@[
                q as int]@);
            assert(r@.links[q as int] == r.links@[q as int]@);
            lemma_join_dash_push(r@.links.subrange(0, q as int), r@.links[q as int]);
            assert(r@.links.subrange(0, q + 1) =~= r@.links.subrange(0, q as int).push(
                r@.links[q as int],
            ));
            assert(line@ =~= r.name@ + seq![32u8, 58u8, 32u8] + digits@ + seq![
                32u8,
                58u8,
                32u8,
            ] + join_dash(r@.links.subrange(0, q + 1)));
        }
        q += 1;
    }
    proof {
        assert(r@.links.subrange(0, r@.links.len() as int) =~= r@.links);
        lemma_line_round_trip(r@, digits@);
        assert(line@ =~= r@.name + seq![32u8, 58u8, 32u8] + digits@ + seq![32u8, 58u8, 32u8]
            + join_dash(r@.links));
    }
    line
}

/// A name the text format can carry: nonempty, and free of the colon, the
/// dash and the newline.
pub open spec fn plain_name(n: Seq<u8>) -> bool {
    n.len() > 0 && forall|i: int|
        0 <= i < n.len() ==> #[trigger] n[i] != 58 && n[i] != 45 && n[i] != 10
}

/// The neighbor names joined by the dash.
pub open spec fn join_dash(ls: Seq<Seq<u8>>) -> Seq<u8>
    decreases ls.len(),
{
    if ls.len() == 0 {
        Seq::<u8>::empty()
    } else if ls.len() == 1 {
        ls[0]
    } else {
        join_dash(ls.drop_last()) + seq![45u8] + ls.last()
    }
}

/// Whether a list of names contains the given one.
fn vec_contains(list: &Vec<Vec<u8>>, x: &Vec<u8>) -> (r: bool)
    ensures
        r == views_of(list@).contains(x@),
{
    let n = list.len();
    let mut i: usize = 0;
    while i < n
        invariant
            i <= n,
            n == list@.len(),
            forall|k: int| 0 <= k < i ==> #[trigger] views_of(list@)[k] != x@,
        decreases n - i,
    {
        if bytes_eq(&list[i], x) {
            proof {
                assert(views_of(list@)[i as int] == x@);
            }
            return true;
        }
        proof {
            assert(views_of(list@)[i as int] == list@[i as int]@);
        }
        i += 1;
    }
    proof {
        if views_of(list@).contains(x@) {
            let k = choose|k: int| 0 <= k < views_of(list@).len() && views_of(list@)[k] == x@;
            assert(views_of(list@)[k] != x@);
        }
    }
    false
}

impl Country {
    /// Whether the graph satisfies the full well-formedness invariant:
    /// unique names, symmetric adjacency, no self-loops or duplicate links,
    /// and the size bounds.
    pub fn check_wf(&self) -> (r: bool)
        ensures
            r == wf(self@),
    {
        let n = self.regions.len();
        proof {
            assert(self@.len() == self.regions@.len());
            assert(forall|i: int| 0 <= i < self@.len() ==> #[trigger] self@[i]
                == self.regions@[i]@);
            assert(forall|i: int| 0 <= i < self@.len() ==> (#[trigger] self@[i]).gdp >= 0);
        }
        if n > MAX_REGIONS {
            return false;
        }
        // unique names
        let mut i: usize = 0;
        while i < n
            invariant
                i <= n,
                n == self.regions@.len(),
                self@.len() == n,
                forall|a: int, b: int|
                    0 <= a < b < n && a < i ==> (#[trigger] self@[a]).name != (
                    #[trigger] self@[b]).name,
            decreases n - i,
        {
            let mut j: usize = i + 1;
            while j < n
                invariant
                    i < j,
                    j <= n,
                    i < n,
                    n == self.regions@.len(),
                    self@.len() == n,
                    forall|b: int| i < b < j ==> (#[trigger] self@[b]).name != self@[i as int].name,
                decreases n - j,
            {
                if bytes_eq(&self.regions[i].name, &self.regions[j].name) {
                    proof {
                        assert(self@[i as int].name == self@[j as int].name);
                    }
                    return false;
                }
                proof {
                    assert(self@[j as int].name == self.regions@[j as int].name@);
                    assert(self@[i as int].name == self.regions@[i as int].name@);
                }
                j += 1;
            }
            i += 1;
        }
        // each region: no self-loop, no duplicate link
        let mut i2: usize = 0;
        while i2 < n
            invariant
                i2 <= n,
                n == self.regions@.len(),
                self@.len() == n,
                forall|a: int| 0 <= a < i2 ==> region_ok(#[trigger] self@[a]),
            decreases n - i2,
        {
            if vec_contains(&self.regions[i2].links, &self.regions[i2].name) {
                proof {
                    assert(self@[i2 as int].links.contains(self@[i2 as int].name));
                }
                return false;
            }
            let m = self.regions[i2].links.len();
            let mut k: usize = 0;
            while k < m
                invariant
                    k <= m,
                    i2 < n,
                    n == self.regions@.len(),
                    self@.len() == n,
                    m == self.regions@[i2 as int].links@.len(),
                    forall|a: int, b: int|
                        0 <= a < b < m && a < k ==> self@[i2 as int].links[a] != self@[
                            i2 as int].links[b],
                decreases m - k,
            {
                let mut k2: usize = k + 1;
                while k2 < m
                    invariant
                        k < k2,
                        k2 <= m,
                        k < m,
                        i2 < n,
                        n == self.regions@.len(),
                        self@.len() == n,
                        m == self.regions@[i2 as int].links@.len(),
                        forall|b: int|
                            k < b < k2 ==> self@[i2 as int].links[b] != self@[i2 as int].links[
                                k as int],
                    decreases m - k2,
                {
                    if bytes_eq(&self.regions[i2].links[k], &self.regions[i2].links[k2]) {
                        proof {
                            assert(self@[i2 as int].links[k as int] == self@[i2 as int].links[
                                k2 as int]);
                            assert(!self@[i2 as int].links.no_duplicates());
                        }
                        return false;
                    }
                    proof {
                        assert(self@[i2 as int].links[k2 as int] == self.regions@[i2 as int
                        ].links@[k2 as int]@);
                        assert(self@[i2 as int].links[k as int] == self.regions@[i2 as int
                        ].links@[k as int]@);
                    }
                    k2 += 1;
                }
                k += 1;
            }
            proof {
                assert(self@[i2 as int].links.no_duplicates());
                assert(region_ok(self@[i2 as int]));
            }
            i2 += 1;
        }
        // symmetry
        let mut i3: usize = 0;
        while i3 < n
            invariant
                i3 <= n,
                n == self.regions@.len(),
                self@.len() == n,
                forall|a: int, k: int|
                    0 <= a < i3 && 0 <= k < self@[a].links.len() ==> linked_back(
                        self@,
                        self@[a].name,
                        #[trigger] self@[a].links[k],
                    ),
            decreases n - i3,
        {
            let m = self.regions[i3].links.len();
            let mut k: usize = 0;
            while k < m
                invariant
                    k <= m,
                    i3 < n,
                    n == self.regions@.len(),
                    self@.len() == n,
                    m == self.regions@[i3 as int].links@.len(),
                    m == self@[i3 as int].links.len(),
                    forall|kk: int|
                        0 <= kk < k ==> linked_back(
                            self@,
                            self@[i3 as int].name,
                            #[trigger] self@[i3 as int].links[kk],
                        ),
                decreases m - k,
            {
                let link = &self.regions[i3].links[k];
                proof {
                    assert(self@[i3 as int].links[k as int] == link@);
                }
                let mut ok = false;
                let mut j: usize = 0;
                while j < n
                    invariant
                        j <= n,
                        i3 < n,
                        k < m,
                        n == self.regions@.len(),
                        self@.len() == n,
                        link@ == self@[i3 as int].links[k as int],
                        ok ==> linked_back(self@, self@[i3 as int].name, link@),
                        !ok ==> forall|b: int|
                            0 <= b < j ==> !((#[trigger] self@[b]).name == link@
                                && self@[b].links.contains(self@[i3 as int].name)),
                    decreases n - j,
                {
                    if !ok {
                        if bytes_eq(&self.regions[j].name, link) {
                            if vec_contains(&self.regions[j].links, &self.regions[i3].name) {
                                proof {
                                    assert(self@[j as int].name == link@);
                                    assert(self@[j as int].links.contains(
                                        self@[i3 as int].name,
                                    ));
                                }
                                ok = true;
                            } else {
                                proof {
                                    assert(!self@[j as int].links.contains(
                                        self@[i3 as int].name,
                                    ));
                                }
                            }
                        } else {
                            proof {
                                assert(self@[j as int].name == self.regions@[j as int].name@);
                            }
                        }
                    }
                    j += 1;
                }
                if !ok {
                    proof {
                        assert(!linked_back(self@, self@[i3 as int].name, link@)) by {
                            if linked_back(self@, self@[i3 as int].name, link@) {
                                let b = choose|b: int|
                                    0 <= b < self@.len() && (#[trigger] self@[b]).name == link@
                                        && self@[b].links.contains(self@[i3 as int].name);
                            }
                        }
                        assert(!symmetric(self@)) by {
                            if symmetric(self@) {
                                assert(linked_back(
                                    self@,
                                    self@[i3 as int].name,
                                    self@[i3 as int].links[k as int],
                                ));
                            }
                        }
                    }
                    return false;
                }
                k += 1;
            }
            i3 += 1;
        }
        // total within bounds
        let mut acc: u128 = 0;
        let mut i4: usize = 0;
        proof {
            assert(gdps_of(self@).subrange(0, 0).len() == 0);
        }
        while i4 < n
            invariant
                i4 <= n,
                n == self.regions@.len(),
                self@.len() == n,
                n <= MAX_REGIONS,
                gdps_of(self@).len() == n,
                forall|a: int| 0 <= a < n ==> #[trigger] gdps_of(self@)[a] == self@[a].gdp,
                acc as int == seqsum(gdps_of(self@).subrange(0, i4 as int)),
                acc <= (i4 as u128) * 0xffffffffffffffff,
            decreases n - i4,
        {
            proof {
                let g = gdps_of(self@);
                assert(g.subrange(0, i4 + 1) =~= g.subrange(0, i4 as int).push(g[i4 as int]));
                lemma_seqsum_push(g.subrange(0, i4 as int), g[i4 as int]);
                assert(g[i4 as int] == self@[i4 as int].gdp);
                assert(self@[i4 as int].gdp == self.regions@[i4 as int].gdp as int);
            }
            acc = acc + (self.regions[i4].gdp as u128);
            i4 += 1;
        }
        proof {
            assert(gdps_of(self@).subrange(0, n as int) =~= gdps_of(self@));
        }
        if acc > (MAX_TOTAL_GDP as u128) {
            return false;
        }
        true
    }
}

/// Parses a whole input text into a country: one region per line, a
/// trailing newline tolerated. The graph invariants are not assumed here;
/// [`Country::check_wf`] validates them.
pub fn from_text(input: &Vec<u8>) -> (r: Result<Country, InputError>)
    ensures
        r matches Ok(c) ==> parse_all(lines_of(input@)) == Some(c@),
        r is Err ==> parse_all(lines_of(input@)) is None,
{
    let text = copy_bytes(input);
    let mut lines = split_on_exec(text, 10);
    proof {
        assert(views_of(lines@) == split_on(input@, 10));
        assert(views_of(lines@).len() == lines@.len());
        assert(split_on(input@, 10).len() > 0) by {
            let k = find_byte(input@, 10, 0);
            if k < 0 {
            }
        }
    }
    if lines[lines.len() - 1].len() == 0 {
        let ghost before = lines@;
        let _ = lines.pop();
        proof {
            assert(views_of(before)[before.len() - 1] == before[before.len() - 1]@);
            assert(views_of(lines@) =~= lines_of(input@)) by {
                assert(forall|q: int| 0 <= q < lines@.len() ==> #[trigger] views_of(lines@)[q]
                    == before[q]@);
                assert(forall|q: int| 0 <= q < before.len() ==> #[trigger] views_of(before)[q]
                    == before[q]@);
            }
        }
    } else {
        proof {
            assert(views_of(lines@)[lines@.len() - 1] == lines@[lines@.len() - 1]@);
            assert(views_of(lines@) == lines_of(input@));
        }
    }
    let ghost ls = views_of(lines@);
    let mut regions: Vec<Region> = Vec::new();
    let n = lines.len();
    let mut i: usize = 0;
    proof {
        assert(ls.subrange(0, 0).len() == 0);
        assert(parse_all(ls.subrange(0, 0)) == Some(Seq::<RegionV>::empty()));
    }
    while i < n
        invariant
            i <= n,
            n == lines@.len(),
            ls == views_of(lines@),
            ls == lines_of(input@),
            ls.len() == n,
            parse_all(ls.subrange(0, i as int)) == Some(
                regions@.map_values(|x: Region| x@),
            ),
        decreases n - i,
    {
        proof {
            assert(ls[i as int] == lines@[i as int]@);
        }
        match parse_region_line(&lines[i]) {
            Ok(reg) => {
                let ghost before = regions@;
                regions.push(reg);
                proof {
                    let pre1 = ls.subrange(0, i + 1);
                    assert(pre1.drop_last() =~= ls.subrange(0, i as int));
                    assert(pre1.last() == ls[i as int]);
                    let mv = regions@.map_values(|x: Region| x@);
                    let bv = before.map_values(|x: Region| x@);
                    assert(mv =~= bv.push(reg@)) by {
                        assert(forall|q: int| 0 <= q < mv.len() ==> #[trigger] mv[q]
                            == regions@[q]@);
                        assert(forall|q: int| 0 <= q < bv.len() ==> #[trigger] bv[q]
                            == before[q]@);
                    }
                    assert(parse_all(pre1) == Some(mv));
                }
            },
            Err(_) => {
                proof {
                    lemma_parse_all_prefix_none(ls, i as int);
                }
                return Err(InputError::Malformed);
            },
        }
        i += 1;
    }
    proof {
        assert(ls.subrange(0, n as int) =~= ls);
    }
    Ok(Country { regions })
}

/// Parses and validates an input text in one step: the result is a
/// well-formed graph, ready for fusion and optimization.
pub fn from_text_checked(input: &Vec<u8>) -> (r: Result<Country, InputError>)
    ensures
        r matches Ok(c) ==> parse_all(lines_of(input@)) == Some(c@) && wf(c@),
        r == Err::<Country, InputError>(InputError::Malformed) <==> parse_all(lines_of(input@))
            is None,
        r matches Err(e) && e == InputError::Invalid ==> (parse_all(lines_of(input@)) matches
            Some(rs) && !wf(rs)),
{
    match from_text(input) {
        Ok(c) => {
            if c.check_wf() {
                Ok(c)
            } else {
                Err(InputError::Invalid)
            }
        },
        Err(_) => Err(InputError::Malformed),
    }
}

/// A line that does not parse poisons the whole text.
proof fn lemma_parse_all_prefix_none(ls: Seq<Seq<u8>>, i: int)
    requires
        0 <= i < ls.len(),
        parse_line_spec(ls[i]) is None,
    ensures
        parse_all(ls) is None,
    decreases ls.len(),
{
    if ls.len() > 0 {
        if i == ls.len() - 1 {
            assert(ls.last() == ls[i]);
        } else {
            assert(ls.drop_last()[i] == ls[i]);
            lemma_parse_all_prefix_none(ls.drop_last(), i);
        }
    }
}

pub open spec fn pow10(n: int) -> int
    decreases n,
{
    if n <= 0 {
        1
    } else {
        10 * pow10(n - 1)
    }
}

proof fn lemma_find_sep_at(s: Seq<u8>, from: int, p: int)
    requires
        0 <= from <= p,
        sep_at(s, p),
        forall|i: int| from <= i < p ==> !sep_at(s, i),
    ensures
        find_sep(s, from) == p,
    decreases p - from,
{
    if from < p {
        lemma_find_sep_at(s, from + 1, p);
    }
}

proof fn lemma_find_sep_none(s: Seq<u8>, from: int)
    requires
        from >= 0,
        forall|i: int| from <= i < s.len() ==> !sep_at(s, i),
    ensures
        find_sep(s, from) == -1,
    decreases s.len() - from,
{
    if from + 3 <= s.len() {
        lemma_find_sep_none(s, from + 1);
    }
}

proof fn lemma_find_byte_at(s: Seq<u8>, b: u8, from: int, p: int)
    requires
        0 <= from <= p < s.len(),
        s[p] == b,
        forall|i: int| from <= i < p ==> s[i] != b,
    ensures
        find_byte(s, b, from) == p,
    decreases p - from,
{
    if from < p {
        lemma_find_byte_at(s, b, from + 1, p);
    }
}

proof fn lemma_find_byte_none(s: Seq<u8>, b: u8, from: int)
    requires
        from >= 0,
        forall|i: int| from <= i < s.len() ==> s[i] != b,
    ensures
        find_byte(s, b, from) == -1,
    decreases s.len() - from,
{
    if from < s.len() {
        lemma_find_byte_none(s, b, from + 1);
    }
}

/// Joined plain names contain neither colon nor newline, and a dash only as
/// a separator.
proof fn lemma_join_bytes(ls: Seq<Seq<u8>>)
    requires
        forall|k: int| 0 <= k < ls.len() ==> plain_name(#[trigger] ls[k]),
    ensures
        forall|i: int| 0 <= i < join_dash(ls).len() ==> #[trigger] join_dash(ls)[i] != 58,
    decreases ls.len(),
{
    if ls.len() <= 1 {
    } else {
        lemma_join_bytes(ls.drop_last());
        assert(forall|k: int| 0 <= k < ls.drop_last().len() ==> #[trigger] ls.drop_last()[k]
            == ls[k]);
        let j = join_dash(ls);
        let jd = join_dash(ls.drop_last());
        assert forall|i: int| 0 <= i < j.len() implies #[trigger] j[i] != 58 by {
            if i < jd.len() {
                assert(j[i] == jd[i]);
            } else if i == jd.len() {
                assert(j[i] == 45);
            } else {
                assert(j[i] == ls.last()[i - jd.len() - 1]);
            }
        }
    }
}

/// The front decomposition of a join of two or more names.
proof fn lemma_join_front(ls: Seq<Seq<u8>>)
    requires
        ls.len() >= 2,
    ensures
        join_dash(ls) == ls[0] + seq![45u8] + join_dash(ls.drop_first()),
    decreases ls.len(),
{
    if ls.len() == 2 {
        assert(ls.drop_last().drop_last() =~= Seq::<Seq<u8>>::empty());
        assert(ls.drop_last() =~= seq![ls[0]]);
        assert(join_dash(ls.drop_last()) == ls[0]);
        assert(ls.drop_first() =~= seq![ls[1]]);
        assert(join_dash(ls.drop_first()) == ls[1]);
        assert(join_dash(ls) =~= ls[0] + seq![45u8] + join_dash(ls.drop_first()));
    } else {
        let dl = ls.drop_last();
        lemma_join_front(dl);
        let df = ls.drop_first();
        assert(df.drop_last() =~= dl.drop_first());
        assert(df.last() == ls.last());
        assert(df.len() >= 2);
        assert(join_dash(df) == join_dash(dl.drop_first()) + seq![45u8] + ls.last());
        assert(dl[0] == ls[0]);
        assert(join_dash(ls) == join_dash(dl) + seq![45u8] + ls.last());
        assert(join_dash(ls) =~= ls[0] + seq![45u8] + join_dash(df));
    }
}

/// Splitting a join of plain names on the dash restores the names.
proof fn lemma_split_join(ls: Seq<Seq<u8>>)
    requires
        ls.len() >= 1,
        forall|k: int| 0 <= k < ls.len() ==> plain_name(#[trigger] ls[k]),
    ensures
        split_on(join_dash(ls), 45) == ls,
    decreases ls.len(),
{
    let j = join_dash(ls);
    if ls.len() == 1 {
        assert(j == ls[0]);
        assert(forall|i: int| 0 <= i < j.len() ==> #[trigger] j[i] != 45);
        lemma_find_byte_none(j, 45, 0);
        assert(split_on(j, 45) =~= ls);
    } else {
        lemma_join_front(ls);
        let head = ls[0];
        let tail = join_dash(ls.drop_first());
        assert(j == head + seq![45u8] + tail);
        assert(j[head.len() as int] == 45);
        assert(forall|i: int| 0 <= i < head.len() ==> #[trigger] j[i] == head[i] && j[i] != 45);
        lemma_find_byte_at(j, 45, 0, head.len() as int);
        assert(j.subrange(0, head.len() as int) =~= head);
        assert(j.skip(head.len() as int + 1) =~= tail);
        assert(forall|k: int| 0 <= k < ls.drop_first().len() ==> #[trigger] ls.drop_first()[k]
            == ls[k + 1]);
        lemma_split_join(ls.drop_first());
        assert(split_on(j, 45) =~= seq![head] + ls.drop_first());
        assert(seq![head] + ls.drop_first() =~= ls);
    }
}

/// Every digit string lies below the power of ten of its length, and a
/// multi-digit string without a leading zero reaches the power below it.
proof fn lemma_dec_bounds(s: Seq<u8>)
    requires
        all_digits(s),
    ensures
        0 <= dec_value(s),
        dec_value(s) < pow10(s.len() as int),
        s.len() >= 1 && s[0] != 48 ==> dec_value(s) >= pow10(s.len() - 1),
    decreases s.len(),
{
    if s.len() > 0 {
        let d = s.drop_last();
        assert(forall|i: int| 0 <= i < d.len() ==> #[trigger] d[i] == s[i]);
        lemma_dec_bounds(d);
        assert(is_digit(s.last())) by {
            assert(s[s.len() - 1] == s.last());
        }
        assert(dec_value(s) == dec_value(d) * 10 + (s.last() - 48));
        assert(dec_value(d) * 10 + (s.last() - 48) < pow10(s.len() as int)) by (nonlinear_arith)
            requires
                dec_value(d) < pow10(s.len() - 1),
                0 <= s.last() - 48 <= 9,
                pow10(s.len() as int) == 10 * pow10(s.len() - 1),
        ;
        if s.len() >= 2 && s[0] != 48 {
            assert(d[0] != 48);
            assert(dec_value(d) * 10 + (s.last() - 48) >= pow10(s.len() - 1))
                by (nonlinear_arith)
                requires
                    dec_value(d) >= pow10(s.len() - 2),
                    0 <= s.last() - 48,
                    pow10(s.len() - 1) == 10 * pow10(s.len() - 2),
            ;
        }
        if s.len() == 1 && s[0] != 48 {
            assert(dec_value(d) == 0);
            assert(s.last() == s[0]);
        }
    }
}

/// Parsing the serialized line of a region restores the region exactly.
proof fn lemma_line_round_trip(rv: RegionV, digits: Seq<u8>)
    requires
        plain_name(rv.name),
        forall|k: int| 0 <= k < rv.links.len() ==> plain_name(#[trigger] rv.links[k]),
        all_digits(digits),
        digits.len() >= 1,
        digits[0] != 48 || digits.len() == 1,
        dec_value(digits) == rv.gdp,
        rv.gdp <= MAX_TOTAL_GDP as int,
    ensures
        parse_line_spec(rv.name + seq![32u8, 58u8, 32u8] + digits + seq![32u8, 58u8, 32u8]
            + join_dash(rv.links)) == Some(rv),
{
    let sep = seq![32u8, 58u8, 32u8];
    let jl = join_dash(rv.links);
    let s = rv.name + sep + digits + sep + jl;
    let nl = rv.name.len() as int;
    let dl = digits.len() as int;
    // ten digits at most, else the value would exceed the total bound
    lemma_dec_bounds(digits);
    assert(dl <= 10) by {
        if dl >= 11 {
            assert(pow10(10) == 10000000000) by {
                reveal_with_fuel(pow10, 12);
            }
            assert(pow10(dl - 1) >= pow10(10)) by {
                lemma_pow10_mono(10, dl - 1);
            }
            assert(dec_value(digits) >= 10000000000);
        }
    }
    // the first separator stands right after the name
    assert(sep_at(s, nl));
    assert forall|i: int| 0 <= i < nl implies !sep_at(s, i) by {
        if i + 1 < nl {
            assert(s[i + 1] == rv.name[i + 1]);
        } else {
            assert(s[i + 1] == 32);
        }
    }
    lemma_find_sep_at(s, 0, nl);
    assert(s.subrange(0, nl) =~= rv.name);
    let rest = s.skip(nl + 3);
    assert(rest =~= digits + sep + jl);
    // the second separator stands right after the digits
    assert(sep_at(rest, dl));
    assert forall|i: int| 0 <= i < dl implies !sep_at(rest, i) by {
        assert(rest[i] == digits[i]);
        assert(is_digit(digits[i]));
    }
    lemma_find_sep_at(rest, 0, dl);
    assert(rest.subrange(0, dl) =~= digits);
    let rest2 = rest.skip(dl + 3);
    assert(rest2 =~= jl);
    // no separator inside the joined neighbor names
    lemma_join_bytes(rv.links);
    assert forall|i: int| 0 <= i < rest2.len() implies !sep_at(rest2, i) by {
        if i + 3 <= rest2.len() {
            assert(rest2[i + 1] == jl[i + 1]);
            assert(jl[i + 1] != 58);
        }
    }
    lemma_find_sep_none(rest2, 0);
    if rv.links.len() == 0 {
        assert(jl.len() == 0);
        assert(parse_line_spec(s) == Some(
            (RegionV { name: rv.name, gdp: dec_value(digits), links: Seq::<Seq<u8>>::empty() }),
        ));
        assert(rv.links =~= Seq::<Seq<u8>>::empty());
    } else {
        assert(jl.len() > 0) by {
            assert(plain_name(rv.links[0]));
            if rv.links.len() == 1 {
                assert(jl == rv.links[0]);
            } else {
                lemma_join_front(rv.links);
            }
        }
        lemma_split_join(rv.links);
    }
}

proof fn lemma_pow10_mono(a: int, b: int)
    requires
        0 <= a <= b,
    ensures
        pow10(a) <= pow10(b),
        pow10(a) >= 1,
    decreases b - a,
{
    if a < b {
        lemma_pow10_mono(a, b - 1);
    }
    lemma_pow10_pos(a);
}

proof fn lemma_pow10_pos(a: int)
    ensures
        pow10(a) >= 1,
    decreases a,
{
    if a > 0 {
        lemma_pow10_pos(a - 1);
    }
}

proof fn lemma_join_dash_push(ls: Seq<Seq<u8>>, x: Seq<u8>)
    ensures
        ls.len() == 0 ==> join_dash(ls.push(x)) == x,
        ls.len() > 0 ==> join_dash(ls.push(x)) == join_dash(ls) + seq![45u8] + x,
{
    assert(ls.push(x).drop_last() =~= ls);
    assert(ls.push(x).last() == x);
    if ls.len() == 0 {
        assert(join_dash(ls.push(x)) == ls.push(x)[0]);
        assert(ls.push(x)[0] == x);
    }
}

} // verus!
