//! Genome-level summary: how much of each assembly the called loci occupy.
//!
//! Intervals are half-open and 0-based.  The occupied part of a contig is the
//! union of the intervals on it, and its size is the number of positions in
//! that union, so that overlapping and touching loci are counted once.

use crate::decimal::{
    all_numeric, digits, lemma_decimal_text_numeric, push_digits, push_rounded, round_div,
    rounded_text,
};
use crate::fixed::SCALE;
use crate::model::{loci, Locus, PairedLocus};
use crate::scoring::{cell, class_header, class_row, class_rows, class_table, score_text, Call, Score};
use crate::text::{
    blank, chars_of, free_of, is_blank, is_space, lemma_lines_grow, lemma_lines_one,
    lemma_split_from_next, lines, rows, split, split_fields, split_lines, split_from, string_of,
    strip_cr,
};
use vstd::hash_map::StringHashMap;
use vstd::prelude::*;
use vstd::set_lib::{
    lemma_int_range, lemma_len_subset, lemma_map_size, lemma_set_disjoint_lens, set_int_range,
};

verus! {

/// The positions that the intervals of `v` cover together.
pub open spec fn covered(v: Seq<(u32, u32)>) -> Set<int> {
    Set::new(|x: int| exists|i: int| 0 <= i < v.len() && (#[trigger] v[i]).0 <= x < v[i].1)
}

/// The order in which intervals are swept: by start, then by end.
pub open spec fn interval_le(a: (u32, u32), b: (u32, u32)) -> bool {
    a.0 < b.0 || (a.0 == b.0 && a.1 <= b.1)
}

/// Whether `v` is in sweeping order.
pub open spec fn in_sweep_order(v: Seq<(u32, u32)>) -> bool {
    forall|i: int, j: int| 0 <= i < j < v.len() ==> interval_le(#[trigger] v[i], #[trigger] v[j])
}

/// `sort_by_key` of the standard library, with an interval itself as its key:
/// the vector is rearranged, nothing added or lost, so that it is ordered by
/// start and then by end.
#[verifier::external_body]
fn sort_intervals(v: &mut Vec<(u32, u32)>)
    ensures
        final(v)@.to_multiset() == old(v)@.to_multiset(),
        in_sweep_order(final(v)@),
{
    v.sort_by_key(|x| (x.0, x.1));
}

/// What a sequence of intervals covers depends only on which intervals occur
/// in it: neither on their order nor on how often one occurs.
pub proof fn lemma_covered_same_intervals(a: Seq<(u32, u32)>, b: Seq<(u32, u32)>)
    requires
        forall|x: (u32, u32)| a.contains(x) <==> b.contains(x),
    ensures
        covered(a) == covered(b),
{
    assert forall|x: int| covered(a).contains(x) <==> covered(b).contains(x) by {
        if covered(a).contains(x) {
            let i = choose|i: int| 0 <= i < a.len() && (#[trigger] a[i]).0 <= x < a[i].1;
            assert(a.contains(a[i]));
            let j = choose|j: int| 0 <= j < b.len() && b[j] == a[i];
            assert(b[j].0 <= x < b[j].1);
        }
        if covered(b).contains(x) {
            let i = choose|i: int| 0 <= i < b.len() && (#[trigger] b[i]).0 <= x < b[i].1;
            assert(b.contains(b[i]));
            let j = choose|j: int| 0 <= j < a.len() && a[j] == b[i];
            assert(a[j].0 <= x < a[j].1);
        }
    }
    assert(covered(a) =~= covered(b));
}

/// The union of intervals does not depend on the order in which they are
/// given.
pub proof fn lemma_covered_permutation(a: Seq<(u32, u32)>, b: Seq<(u32, u32)>)
    requires
        a.to_multiset() == b.to_multiset(),
    ensures
        covered(a) == covered(b),
{
    broadcast use vstd::seq_lib::group_to_multiset_ensures;

    assert forall|x: (u32, u32)| a.contains(x) <==> b.contains(x) by {
        assert(a.contains(x) <==> a.to_multiset().count(x) > 0);
        assert(b.contains(x) <==> b.to_multiset().count(x) > 0);
    }
    lemma_covered_same_intervals(a, b);
}

/// Intervals given together cover what they cover apart; so the union is
/// idempotent: giving every interval twice covers no more.
pub proof fn lemma_covered_concat(a: Seq<(u32, u32)>, b: Seq<(u32, u32)>)
    ensures
        covered(a + b) == covered(a).union(covered(b)),
        covered(a + a) == covered(a),
{
    let ab = a + b;
    assert forall|x: int| covered(ab).contains(x) <==> covered(a).union(covered(b)).contains(
        x,
    ) by {
        if covered(ab).contains(x) {
            let i = choose|i: int| 0 <= i < ab.len() && (#[trigger] ab[i]).0 <= x < ab[i].1;
            if i < a.len() {
                assert(a[i].0 <= x < a[i].1);
            } else {
                assert(b[i - a.len()].0 <= x < b[i - a.len()].1);
            }
        }
        if covered(a).contains(x) {
            let i = choose|i: int| 0 <= i < a.len() && (#[trigger] a[i]).0 <= x < a[i].1;
            assert(ab[i].0 <= x < ab[i].1);
        }
        if covered(b).contains(x) {
            let i = choose|i: int| 0 <= i < b.len() && (#[trigger] b[i]).0 <= x < b[i].1;
            assert(ab[i + a.len()].0 <= x < ab[i + a.len()].1);
        }
    }
    assert(covered(ab) =~= covered(a).union(covered(b)));
    let aa = a + a;
    assert forall|x: (u32, u32)| aa.contains(x) <==> a.contains(x) by {
        if aa.contains(x) {
            let i = choose|i: int| 0 <= i < aa.len() && aa[i] == x;
            if i < a.len() {
                assert(a[i] == x);
            } else {
                assert(a[i - a.len()] == x);
            }
        }
        if a.contains(x) {
            let i = choose|i: int| 0 <= i < a.len() && a[i] == x;
            assert(aa[i] == x);
        }
    }
    lemma_covered_same_intervals(aa, a);
}

/// What the intervals of `v` cover lies between 0 and 2^32, so it is finite.
pub proof fn lemma_covered_finite(v: Seq<(u32, u32)>)
    ensures
        covered(v).finite(),
        covered(v).len() <= 0x1_0000_0000,
{
    lemma_int_range(0, 0x1_0000_0000);
    assert(covered(v).subset_of(set_int_range(0, 0x1_0000_0000)));
    lemma_len_subset(covered(v), set_int_range(0, 0x1_0000_0000));
}

/// Whether the intervals of `m` are merged: none is empty, they ascend, and
/// there is a gap between any two of them.
pub open spec fn is_merged(m: Seq<(u32, u32)>) -> bool {
    &&& forall|i: int| 0 <= i < m.len() ==> (#[trigger] m[i]).0 < m[i].1
    &&& forall|i: int, j: int| 0 <= i < j < m.len() ==> (#[trigger] m[i]).1 < (#[trigger] m[j]).0
}

/// The sum of the lengths of the first `n` intervals of `m`.
pub open spec fn total_len(m: Seq<(u32, u32)>, n: nat) -> nat
    recommends
        n <= m.len(),
    decreases n,
{
    if n == 0 {
        0
    } else {
        total_len(m, (n - 1) as nat) + (m[n - 1].1 - m[n - 1].0) as nat
    }
}

/// A single interval covers the positions from its start up to its end.
proof fn lemma_covered_one(s: u32, e: u32)
    ensures
        covered(seq![(s, e)]) == set_int_range(s as int, e as int),
{
    assert forall|x: int| set_int_range(s as int, e as int).contains(x) implies covered(
        seq![(s, e)],
    ).contains(x) by {
        assert(seq![(s, e)][0].0 <= x < seq![(s, e)][0].1);
    }
    assert(covered(seq![(s, e)]) =~= set_int_range(s as int, e as int));
}

/// Merged intervals cover as many positions as their lengths add up to, all
/// of them below the end of the last interval.
pub proof fn lemma_merged_len(m: Seq<(u32, u32)>, n: nat)
    requires
        is_merged(m),
        n <= m.len(),
    ensures
        covered(m.take(n as int)).finite(),
        covered(m.take(n as int)).len() == total_len(m, n),
        n > 0 ==> total_len(m, n) <= m[n - 1].1,
        forall|x: int| covered(m.take(n as int)).contains(x) ==> n > 0 && 0 <= x < m[n - 1].1,
    decreases n,
{
    if n == 0 {
        assert(covered(m.take(0)) =~= Set::<int>::empty());
    } else {
        lemma_merged_len(m, (n - 1) as nat);
        let before = covered(m.take(n - 1));
        let last = m[n - 1];
        let piece = set_int_range(last.0 as int, last.1 as int);
        assert(m.take(n as int) =~= m.take(n - 1) + seq![last]);
        lemma_covered_concat(m.take(n - 1), seq![last]);
        lemma_covered_one(last.0, last.1);
        lemma_int_range(last.0 as int, last.1 as int);
        assert(before.disjoint(piece)) by {
            if n > 1 {
                assert(m[n - 2].1 < m[n - 1].0);
            }
        }
        lemma_set_disjoint_lens(before, piece);
        assert(before + piece =~= before.union(piece));
        if n > 1 {
            assert(m[n - 2].1 < m[n - 1].0);
        }
    }
}

/// The first of merged intervals begins where what they cover begins, and
/// ends at the first position after that which they do not cover.
proof fn lemma_merged_first(a: Seq<(u32, u32)>, b: Seq<(u32, u32)>)
    requires
        is_merged(a),
        is_merged(b),
        covered(a) == covered(b),
        a.len() > 0,
    ensures
        b.len() > 0,
        a[0] == b[0],
{
    assert(covered(a).contains(a[0].0 as int));
    let j = choose|j: int| 0 <= j < b.len() && (#[trigger] b[j]).0 <= a[0].0 < b[j].1;
    if j > 0 {
        assert(b[0].1 < b[j].0);
    }
    assert(covered(b).contains(b[0].0 as int));
    let i = choose|i: int| 0 <= i < a.len() && (#[trigger] a[i]).0 <= b[0].0 < a[i].1;
    if i > 0 {
        assert(a[0].1 < a[i].0);
    }
    assert(a[0].0 == b[0].0);
    if a[0].1 < b[0].1 {
        assert(covered(b).contains(a[0].1 as int));
        let k = choose|k: int| 0 <= k < a.len() && (#[trigger] a[k]).0 <= a[0].1 < a[k].1;
        if k > 0 {
            assert(a[0].1 < a[k].0);
        }
    }
    if b[0].1 < a[0].1 {
        assert(covered(a).contains(b[0].1 as int));
        let k = choose|k: int| 0 <= k < b.len() && (#[trigger] b[k]).0 <= b[0].1 < b[k].1;
        if k > 0 {
            assert(b[0].1 < b[k].0);
        }
    }
}

/// Merged intervals without the first cover what the whole covers less the
/// first interval.
proof fn lemma_merged_rest(a: Seq<(u32, u32)>)
    requires
        is_merged(a),
        a.len() > 0,
    ensures
        is_merged(a.drop_first()),
        covered(a.drop_first()) == covered(a).difference(
            set_int_range(a[0].0 as int, a[0].1 as int),
        ),
{
    let rest = a.drop_first();
    assert forall|i: int, j: int| 0 <= i < j < rest.len() implies (#[trigger] rest[i]).1 < (
    #[trigger] rest[j]).0 by {
        assert(a[i + 1].1 < a[j + 1].0);
    }
    let first = set_int_range(a[0].0 as int, a[0].1 as int);
    assert forall|x: int| covered(rest).contains(x) <==> covered(a).difference(first).contains(
        x,
    ) by {
        if covered(rest).contains(x) {
            let i = choose|i: int| 0 <= i < rest.len() && (#[trigger] rest[i]).0 <= x < rest[i].1;
            assert(a[i + 1].0 <= x < a[i + 1].1);
            assert(a[0].1 < a[i + 1].0);
        }
        if covered(a).difference(first).contains(x) {
            let i = choose|i: int| 0 <= i < a.len() && (#[trigger] a[i]).0 <= x < a[i].1;
            assert(i > 0);
            assert(rest[i - 1].0 <= x < rest[i - 1].1);
        }
    }
    assert(covered(rest) =~= covered(a).difference(first));
}

/// There is one way only to write a set of positions as merged intervals:
/// merged intervals that cover the same are the same.  So merging again
/// changes nothing, and the order in which intervals are given does not
/// show in what they merge to.
pub proof fn lemma_merged_unique(a: Seq<(u32, u32)>, b: Seq<(u32, u32)>)
    requires
        is_merged(a),
        is_merged(b),
        covered(a) == covered(b),
    ensures
        a == b,
    decreases a.len(),
{
    if a.len() == 0 {
        if b.len() > 0 {
            lemma_merged_first(b, a);
        }
        assert(a =~= b);
    } else {
        lemma_merged_first(a, b);
        lemma_merged_rest(a);
        lemma_merged_rest(b);
        lemma_merged_unique(a.drop_first(), b.drop_first());
        assert(a =~= seq![a[0]] + a.drop_first());
        assert(b =~= seq![b[0]] + b.drop_first());
    }
}

/// The union of the intervals of `v` as merged intervals: overlapping and
/// touching intervals become one, and an interval whose end is not after
/// its start is left out.
pub fn merge_intervals(v: Vec<(u32, u32)>) -> (m: Vec<(u32, u32)>)
    ensures
        is_merged(m@),
        covered(m@) == covered(v@),
{
    let mut v = v;
    let ghost given = v@;
    sort_intervals(&mut v);
    proof {
        lemma_covered_permutation(given, v@);
    }
    let mut out: Vec<(u32, u32)> = Vec::new();
    let mut cur: (u32, u32) = (0, 0);
    let mut i: usize = 0;
    assert(covered(out@) =~= Set::<int>::empty());
    assert(covered(v@.take(0)) =~= Set::<int>::empty());
    while i < v.len()
        invariant
            i <= v.len(),
            in_sweep_order(v@),
            cur.0 <= cur.1,
            is_merged(out@),
            out.len() > 0 ==> out[out.len() - 1].1 < cur.0,
            covered(v@.take(i as int)) == covered(out@).union(
                set_int_range(cur.0 as int, cur.1 as int),
            ),
            cur.0 == cur.1 ==> out.len() == 0,
            cur.0 < cur.1 ==> exists|k: int| 0 <= k < i && (#[trigger] v@[k]).0 == cur.0,
        decreases v.len() - i,
    {
        let (s, e) = v[i];
        let ghost before = covered(v@.take(i as int));
        let ghost after = covered(v@.take(i + 1));
        proof {
            assert(v@.take(i + 1) =~= v@.take(i as int) + seq![(s, e)]);
            lemma_covered_concat(v@.take(i as int), seq![(s, e)]);
            lemma_covered_one(s, e);
        }
        if s < e {
            if cur.0 < cur.1 && s <= cur.1 {
                proof {
                    let k = choose|k: int| 0 <= k < i && (#[trigger] v@[k]).0 == cur.0;
                    assert(interval_le(v@[k], v@[i as int]));
                }
                let end = if e > cur.1 {
                    e
                } else {
                    cur.1
                };
                assert(after =~= covered(out@).union(set_int_range(cur.0 as int, end as int)));
                cur = (cur.0, end);
            } else {
                if cur.0 < cur.1 {
                    let ghost kept = out@;
                    out.push(cur);
                    proof {
                        assert(out@ =~= kept + seq![cur]);
                        lemma_covered_concat(kept, seq![cur]);
                        lemma_covered_one(cur.0, cur.1);
                        assert forall|a: int, b: int| 0 <= a < b < out.len() implies (
                        #[trigger] out@[a]).1 < (#[trigger] out@[b]).0 by {
                            if b < kept.len() {
                                assert(kept[a].1 < kept[b].0);
                            } else if a + 1 < kept.len() {
                                assert(kept[a].1 < kept[kept.len() - 1].0);
                            }
                        }
                    }
                }
                assert(after =~= covered(out@).union(set_int_range(s as int, e as int)));
                cur = (s, e);
            }
        } else {
            assert(after =~= before);
        }
        i += 1;
    }
    assert(v@.take(i as int) =~= v@);
    if cur.0 < cur.1 {
        let ghost kept = out@;
        out.push(cur);
        proof {
            assert(out@ =~= kept + seq![cur]);
            lemma_covered_concat(kept, seq![cur]);
            lemma_covered_one(cur.0, cur.1);
            assert forall|a: int, b: int| 0 <= a < b < out.len() implies (#[trigger] out@[a]).1 < (
            #[trigger] out@[b]).0 by {
                if b < kept.len() {
                    assert(kept[a].1 < kept[b].0);
                } else if a + 1 < kept.len() {
                    assert(kept[a].1 < kept[kept.len() - 1].0);
                }
            }
        }
    } else {
        assert(covered(out@).union(set_int_range(cur.0 as int, cur.1 as int)) =~= covered(out@));
    }
    out
}

/// The number of positions that the intervals of `v` cover together:
/// overlapping and touching intervals are counted once, and an interval
/// whose end is not after its start covers nothing.
pub fn union_len(v: Vec<(u32, u32)>) -> (total: u64)
    ensures
        total == covered(v@).len(),
        total <= 0x1_0000_0000,
{
    let m = merge_intervals(v);
    let mut total: u64 = 0;
    let mut i: usize = 0;
    while i < m.len()
        invariant
            i <= m.len(),
            is_merged(m@),
            total == total_len(m@, i as nat),
            i > 0 ==> total <= m[i - 1].1,
        decreases m.len() - i,
    {
        proof {
            lemma_merged_len(m@, (i + 1) as nat);
        }
        total = total + (m[i].1 - m[i].0) as u64;
        i += 1;
    }
    proof {
        lemma_merged_len(m@, m.len() as nat);
        assert(m@.take(m.len() as int) =~= m@);
    }
    total
}

/// The positions of `on` together with the name `contig`.
pub open spec fn tagged(contig: Seq<char>, on: Set<int>) -> Set<(Seq<char>, int)> {
    Set::new(|p: (Seq<char>, int)| p.0 == contig && on.contains(p.1))
}

/// A set of positions on one contig is as large as the set without the
/// contig's name.
pub proof fn lemma_tagged_len(contig: Seq<char>, on: Set<int>)
    requires
        on.finite(),
    ensures
        tagged(contig, on).finite(),
        tagged(contig, on).len() == on.len(),
{
    let f = |x: int| (contig, x);
    assert(on.map(f) =~= tagged(contig, on)) by {
        assert forall|p: (Seq<char>, int)| tagged(contig, on).contains(p) implies on.map(
            f,
        ).contains(p) by {
            assert(on.contains(p.1) && f(p.1) == p);
        }
    }
    assert(vstd::relations::injective_on(f, on));
    lemma_map_size(on, tagged(contig, on), f);
}

/// Intervals gathered by contig: for each contig name the intervals that
/// were added under it.
pub struct IntervalMap {
    names: Vec<String>,
    buckets: Vec<Vec<(u32, u32)>>,
}

impl IntervalMap {
    /// Each contig has one bucket, and no contig name occurs twice.
    pub closed spec fn wf(&self) -> bool {
        &&& self.names.len() == self.buckets.len()
        &&& forall|i: int, j: int|
            0 <= i < j < self.names.len() ==> (#[trigger] self.names[i])@ != (
            #[trigger] self.names[j])@
    }

    /// The number of contigs that have an interval.
    pub closed spec fn contigs(&self) -> nat {
        self.names.len() as nat
    }

    /// The positions covered on the first `n` contigs.
    pub closed spec fn positions_upto(&self, n: int) -> Set<(Seq<char>, int)> {
        Set::new(
            |p: (Seq<char>, int)|
                exists|i: int|
                    0 <= i < n && i < self.names.len() && (#[trigger] self.names[i])@ == p.0
                        && covered(self.buckets[i]@).contains(p.1),
        )
    }

    /// The covered positions, each with the name of its contig.
    pub closed spec fn positions(&self) -> Set<(Seq<char>, int)> {
        self.positions_upto(self.names.len() as int)
    }

    /// A map without intervals.
    pub fn new() -> (m: Self)
        ensures
            m.wf(),
            m.contigs() == 0,
            m.positions() == Set::<(Seq<char>, int)>::empty(),
    {
        let m = IntervalMap { names: Vec::new(), buckets: Vec::new() };
        assert(m.positions() =~= Set::<(Seq<char>, int)>::empty());
        m
    }

    /// The position of `contig` among the names, if it is there.
    fn find(&self, contig: &String) -> (r: Option<usize>)
        ensures
            match r {
                Some(i) => i < self.names.len() && self.names[i as int]@ == contig@,
                None => forall|i: int| 0 <= i < self.names.len() ==> self.names[i]@ != contig@,
            },
    {
        let mut i: usize = 0;
        while i < self.names.len()
            invariant
                i <= self.names.len(),
                forall|k: int| 0 <= k < i ==> self.names[k]@ != contig@,
            decreases self.names.len() - i,
        {
            if self.names[i] == *contig {
                return Some(i);
            }
            i += 1;
        }
        None
    }
}

/// Adds the interval from `start` to `end` on `contig`; an interval whose end
/// is not after its start is left out.
pub fn add_interval(map: &mut IntervalMap, contig: &str, start: u32, end: u32)
    requires
        old(map).wf(),
    ensures
        final(map).wf(),
        final(map).positions() == old(map).positions().union(
            tagged(contig@, set_int_range(start as int, end as int)),
        ),
        old(map).contigs() <= final(map).contigs() <= old(map).contigs() + 1,
{
    let ghost piece = tagged(contig@, set_int_range(start as int, end as int));
    if start >= end {
        assert(map.positions().union(piece) =~= map.positions());
        return ;
    }
    let name = contig.to_owned();
    match map.find(&name) {
        Some(i) => {
            let ghost bucket = map.buckets[i as int]@;
            map.buckets[i].push((start, end));
            proof {
                let grown = bucket.push((start, end));
                assert(grown =~= bucket + seq![(start, end)]);
                lemma_covered_concat(bucket, seq![(start, end)]);
                lemma_covered_one(start, end);
                assert forall|p: (Seq<char>, int)|
                    map.positions().contains(p) <==> old(map).positions().union(piece).contains(
                        p,
                    ) by {
                    if map.positions().contains(p) {
                        let k = choose|k: int|
                            0 <= k < map.names.len() && (#[trigger] map.names[k])@ == p.0
                                && covered(map.buckets[k]@).contains(p.1);
                        if k != i {
                            assert(old(map).names[k]@ == p.0 && covered(
                                old(map).buckets[k]@,
                            ).contains(p.1));
                        } else if covered(bucket).contains(p.1) {
                            assert(old(map).names[k]@ == p.0 && covered(
                                old(map).buckets[k]@,
                            ).contains(p.1));
                        }
                    }
                    if old(map).positions().contains(p) {
                        let k = choose|k: int|
                            0 <= k < old(map).names.len() && (#[trigger] old(map).names[k])@ == p.0
                                && covered(old(map).buckets[k]@).contains(p.1);
                        assert(map.names[k]@ == p.0 && covered(map.buckets[k]@).contains(p.1));
                    }
                    if piece.contains(p) {
                        assert(map.names[i as int]@ == p.0 && covered(
                            map.buckets[i as int]@,
                        ).contains(p.1));
                    }
                }
                assert(map.positions() =~= old(map).positions().union(piece));
            }
        },
        None => {
            let mut bucket: Vec<(u32, u32)> = Vec::new();
            bucket.push((start, end));
            map.names.push(name);
            map.buckets.push(bucket);
            proof {
                let last = map.names.len() - 1;
                assert(map.buckets[last]@ =~= seq![(start, end)]);
                lemma_covered_one(start, end);
                assert forall|p: (Seq<char>, int)|
                    map.positions().contains(p) <==> old(map).positions().union(piece).contains(
                        p,
                    ) by {
                    if map.positions().contains(p) {
                        let k = choose|k: int|
                            0 <= k < map.names.len() && (#[trigger] map.names[k])@ == p.0
                                && covered(map.buckets[k]@).contains(p.1);
                        if k != last {
                            assert(old(map).names[k]@ == p.0 && covered(
                                old(map).buckets[k]@,
                            ).contains(p.1));
                        }
                    }
                    if old(map).positions().contains(p) {
                        let k = choose|k: int|
                            0 <= k < old(map).names.len() && (#[trigger] old(map).names[k])@ == p.0
                                && covered(old(map).buckets[k]@).contains(p.1);
                        assert(map.names[k]@ == p.0 && covered(map.buckets[k]@).contains(p.1));
                    }
                    if piece.contains(p) {
                        assert(map.names[last]@ == p.0 && covered(map.buckets[last]@).contains(
                            p.1,
                        ));
                    }
                }
                assert(map.positions() =~= old(map).positions().union(piece));
            }
        },
    }
}

/// A copy of `v`.
fn copy_intervals(v: &Vec<(u32, u32)>) -> (r: Vec<(u32, u32)>)
    ensures
        r@ == v@,
{
    let mut r: Vec<(u32, u32)> = Vec::new();
    let mut i: usize = 0;
    while i < v.len()
        invariant
            i <= v.len(),
            r@ == v@.take(i as int),
        decreases v.len() - i,
    {
        r.push(v[i]);
        i += 1;
    }
    r
}

/// The number of positions that the intervals of `m` cover, over all
/// contigs.
pub fn union_len_all(m: &IntervalMap) -> (total: u64)
    requires
        m.wf(),
        m.contigs() <= 0xFFFF_FFFF,
    ensures
        total == m.positions().len(),
        m.positions().finite(),
{
    let mut total: u64 = 0;
    let mut i: usize = 0;
    assert(m.positions_upto(0) =~= Set::<(Seq<char>, int)>::empty());
    while i < m.buckets.len()
        invariant
            m.wf(),
            m.contigs() <= 0xFFFF_FFFF,
            i <= m.buckets.len(),
            m.positions_upto(i as int).finite(),
            total == m.positions_upto(i as int).len(),
            total <= i * 0x1_0000_0000,
        decreases m.buckets.len() - i,
    {
        let bucket = copy_intervals(&m.buckets[i]);
        let n = union_len(bucket);
        proof {
            let name = m.names[i as int]@;
            let on = covered(m.buckets[i as int]@);
            lemma_covered_finite(m.buckets[i as int]@);
            lemma_tagged_len(name, on);
            let before = m.positions_upto(i as int);
            let piece = tagged(name, on);
            assert(before.disjoint(piece)) by {
                assert forall|p: (Seq<char>, int)| before.contains(p) implies !piece.contains(
                    p,
                ) by {
                    let k = choose|k: int|
                        0 <= k < i && k < m.names.len() && (#[trigger] m.names[k])@ == p.0
                            && covered(m.buckets[k]@).contains(p.1);
                    assert(m.names[k]@ != m.names[i as int]@);
                }
            }
            lemma_set_disjoint_lens(before, piece);
            assert(m.positions_upto(i + 1) =~= before + piece) by {
                assert forall|p: (Seq<char>, int)| (before + piece).contains(p) implies
                    m.positions_upto(i + 1).contains(p) by {
                    if before.contains(p) {
                        let k = choose|k: int|
                            0 <= k < i && k < m.names.len() && (#[trigger] m.names[k])@ == p.0
                                && covered(m.buckets[k]@).contains(p.1);
                        assert(0 <= k < i + 1);
                    } else {
                        assert(m.names[i as int]@ == p.0 && covered(
                            m.buckets[i as int]@,
                        ).contains(p.1));
                    }
                }
            }
            assert((i + 1) * 0x1_0000_0000 == i * 0x1_0000_0000 + 0x1_0000_0000) by (nonlinear_arith);
            assert(i * 0x1_0000_0000 <= 0xFFFF_FFFF * 0x1_0000_0000) by (nonlinear_arith)
                requires
                    i <= 0xFFFF_FFFF,
            ;
        }
        total = total + n;
        i += 1;
    }
    total
}

/// Counts of loci and of occupied positions, with the occupied share of each
/// assembly in millionths of a percent.
#[derive(Debug, Clone, Copy)]
pub struct Summary {
    pub n_pairs: usize,
    pub n_numt: usize,
    pub n_nimt: usize,
    pub nuclear_bp_total: u64,
    pub nuclear_bp_numt: u64,
    pub nuclear_pct_numt: u128,
    pub mito_bp_total: u64,
    pub mito_bp_nimt: u64,
    pub mito_pct_nimt: u128,
    pub mito_bp_covered_by_numt_homologs: u64,
    pub mito_pct_covered_by_numt_homologs: u128,
    pub nuc_bp_covered_by_nimt_homologs: u64,
    pub nuc_pct_covered_by_nimt_homologs: u128,
}

/// `numer` as a percentage of `denom`, in millionths of a percent and
/// rounded down; a `denom` of 0 counts as 1.
pub open spec fn pct_spec(numer: nat, denom: nat) -> nat {
    numer * 100 * SCALE as nat / (if denom == 0 {
        1
    } else {
        denom
    })
}

/// A percentage of a part of the whole is at most 100, and it is 0 when the
/// part is empty.
pub proof fn lemma_pct_bounds(numer: nat, denom: nat)
    ensures
        numer == 0 ==> pct_spec(numer, denom) == 0,
        numer <= denom ==> pct_spec(numer, denom) <= 100 * SCALE,
{
    let d: nat = if denom == 0 {
        1
    } else {
        denom
    };
    assert(numer == 0 ==> numer * 100 * SCALE as nat / d == 0) by (nonlinear_arith)
        requires
            d >= 1,
    ;
    assert(numer <= denom ==> numer * 100 * SCALE as nat / d <= 100 * SCALE as nat)
        by (nonlinear_arith)
        requires
            d >= 1,
            d >= denom,
    ;
}

/// `numer` as a percentage of `denom`, in millionths of a percent.
pub fn pct(numer: u64, denom: u64) -> (r: u128)
    ensures
        r == pct_spec(numer as nat, denom as nat),
        numer == 0 ==> r == 0,
        numer <= denom ==> r <= 100 * SCALE,
{
    proof {
        lemma_pct_bounds(numer as nat, denom as nat);
    }
    let d: u128 = if denom == 0 {
        1
    } else {
        denom as u128
    };
    assert(numer as nat * 100 * SCALE as nat <= 0xFFFF_FFFF_FFFF_FFFF * 100 * 1_000_000)
        by (nonlinear_arith)
        requires
            numer <= 0xFFFF_FFFF_FFFF_FFFF,
            SCALE == 1_000_000,
    ;
    (numer as u128) * 100 * (SCALE as u128) / d
}

/// The sum of the first `n` lengths.
pub open spec fn sum_lengths(lens: Seq<u64>, n: nat) -> nat
    recommends
        n <= lens.len(),
    decreases n,
{
    if n == 0 {
        0
    } else {
        sum_lengths(lens, (n - 1) as nat) + lens[n - 1] as nat
    }
}

/// The sum of the first `n` lengths grows with `n`.
pub proof fn lemma_sum_lengths_grows(lens: Seq<u64>, n: nat, m: nat)
    requires
        n <= m <= lens.len(),
    ensures
        sum_lengths(lens, n) <= sum_lengths(lens, m),
    decreases m - n,
{
    if n < m {
        lemma_sum_lengths_grows(lens, n, (m - 1) as nat);
    }
}

/// The length of an assembly: the sum of the lengths of its contigs, or
/// nothing when that sum does not fit in 64 bits.
pub fn assembly_length(lens: &Vec<u64>) -> (r: Option<u64>)
    ensures
        r == (if sum_lengths(lens@, lens.len() as nat) <= u64::MAX {
            Some(sum_lengths(lens@, lens.len() as nat) as u64)
        } else {
            None
        }),
{
    let mut total: u64 = 0;
    let mut i: usize = 0;
    while i < lens.len()
        invariant
            i <= lens.len(),
            total == sum_lengths(lens@, i as nat),
        decreases lens.len() - i,
    {
        if lens[i] > u64::MAX - total {
            proof {
                lemma_sum_lengths_grows(lens@, (i + 1) as nat, lens.len() as nat);
            }
            return None;
        }
        total = total + lens[i];
        i += 1;
    }
    Some(total)
}

/// The call that `calls` holds for a pair id; `Ambiguous` where it holds none.
pub open spec fn call_for(calls: Map<Seq<char>, String>, pair_id: Seq<char>) -> Seq<char> {
    if calls.contains_key(pair_id) {
        calls[pair_id]@
    } else {
        "Ambiguous"@
    }
}

/// How many of the first `n` loci have the call `name`.
pub open spec fn count_called(
    pairs: Seq<Locus>,
    calls: Map<Seq<char>, String>,
    name: Seq<char>,
    n: nat,
) -> nat
    recommends
        n <= pairs.len(),
    decreases n,
{
    if n == 0 {
        0
    } else {
        count_called(pairs, calls, name, (n - 1) as nat) + if call_for(calls, pairs[n - 1].pair_id)
            == name {
            1nat
        } else {
            0nat
        }
    }
}

/// No more loci have a call than there are loci, and a locus has one call
/// only.
pub proof fn lemma_count_called_bounds(
    pairs: Seq<Locus>,
    calls: Map<Seq<char>, String>,
    name: Seq<char>,
    other: Seq<char>,
    n: nat,
)
    requires
        name != other,
    ensures
        count_called(pairs, calls, name, n) + count_called(pairs, calls, other, n) <= n,
    decreases n,
{
    if n > 0 {
        lemma_count_called_bounds(pairs, calls, name, other, (n - 1) as nat);
    }
}

/// The nuclear positions inside the first `n` loci that have the call `name`.
pub open spec fn nuclear_positions(
    pairs: Seq<Locus>,
    calls: Map<Seq<char>, String>,
    name: Seq<char>,
    n: nat,
) -> Set<(Seq<char>, int)> {
    Set::new(
        |p: (Seq<char>, int)|
            exists|i: int|
                0 <= i < n && i < pairs.len() && call_for(calls, (#[trigger] pairs[i]).pair_id)
                    == name && pairs[i].nuc_contig == p.0 && pairs[i].nuc_start <= p.1
                    < pairs[i].nuc_end,
    )
}

/// The mitochondrial positions inside the first `n` loci that have the call
/// `name`.
pub open spec fn mito_positions(
    pairs: Seq<Locus>,
    calls: Map<Seq<char>, String>,
    name: Seq<char>,
    n: nat,
) -> Set<(Seq<char>, int)> {
    Set::new(
        |p: (Seq<char>, int)|
            exists|i: int|
                0 <= i < n && i < pairs.len() && call_for(calls, (#[trigger] pairs[i]).pair_id)
                    == name && pairs[i].mito_contig == p.0 && pairs[i].mito_start <= p.1
                    < pairs[i].mito_end,
    )
}

/// One more locus adds its nuclear interval if it has the call, and nothing
/// otherwise.
proof fn lemma_nuclear_positions_step(
    pairs: Seq<Locus>,
    calls: Map<Seq<char>, String>,
    name: Seq<char>,
    n: nat,
)
    requires
        n < pairs.len(),
    ensures
        call_for(calls, pairs[n as int].pair_id) == name ==> nuclear_positions(
            pairs,
            calls,
            name,
            n + 1,
        ) == nuclear_positions(pairs, calls, name, n).union(
            tagged(
                pairs[n as int].nuc_contig,
                set_int_range(pairs[n as int].nuc_start as int, pairs[n as int].nuc_end as int),
            ),
        ),
        call_for(calls, pairs[n as int].pair_id) != name ==> nuclear_positions(
            pairs,
            calls,
            name,
            n + 1,
        ) == nuclear_positions(pairs, calls, name, n),
{
    let before = nuclear_positions(pairs, calls, name, n);
    let after = nuclear_positions(pairs, calls, name, n + 1);
    let piece = tagged(
        pairs[n as int].nuc_contig,
        set_int_range(pairs[n as int].nuc_start as int, pairs[n as int].nuc_end as int),
    );
    assert forall|p: (Seq<char>, int)| before.contains(p) implies after.contains(p) by {
        let i = choose|i: int|
            0 <= i < n && i < pairs.len() && call_for(calls, (#[trigger] pairs[i]).pair_id) == name
                && pairs[i].nuc_contig == p.0 && pairs[i].nuc_start <= p.1 < pairs[i].nuc_end;
        assert(0 <= i < n + 1);
    }
    if call_for(calls, pairs[n as int].pair_id) == name {
        assert forall|p: (Seq<char>, int)| piece.contains(p) implies after.contains(p) by {
            assert(call_for(calls, pairs[n as int].pair_id) == name && pairs[n as int].nuc_contig
                == p.0);
        }
        assert(after =~= before.union(piece));
    } else {
        assert(after =~= before);
    }
}

/// One more locus adds its mitochondrial interval if it has the call, and
/// nothing otherwise.
proof fn lemma_mito_positions_step(
    pairs: Seq<Locus>,
    calls: Map<Seq<char>, String>,
    name: Seq<char>,
    n: nat,
)
    requires
        n < pairs.len(),
    ensures
        call_for(calls, pairs[n as int].pair_id) == name ==> mito_positions(
            pairs,
            calls,
            name,
            n + 1,
        ) == mito_positions(pairs, calls, name, n).union(
            tagged(
                pairs[n as int].mito_contig,
                set_int_range(pairs[n as int].mito_start as int, pairs[n as int].mito_end as int),
            ),
        ),
        call_for(calls, pairs[n as int].pair_id) != name ==> mito_positions(
            pairs,
            calls,
            name,
            n + 1,
        ) == mito_positions(pairs, calls, name, n),
{
    let before = mito_positions(pairs, calls, name, n);
    let after = mito_positions(pairs, calls, name, n + 1);
    let piece = tagged(
        pairs[n as int].mito_contig,
        set_int_range(pairs[n as int].mito_start as int, pairs[n as int].mito_end as int),
    );
    assert forall|p: (Seq<char>, int)| before.contains(p) implies after.contains(p) by {
        let i = choose|i: int|
            0 <= i < n && i < pairs.len() && call_for(calls, (#[trigger] pairs[i]).pair_id) == name
                && pairs[i].mito_contig == p.0 && pairs[i].mito_start <= p.1 < pairs[i].mito_end;
        assert(0 <= i < n + 1);
    }
    if call_for(calls, pairs[n as int].pair_id) == name {
        assert forall|p: (Seq<char>, int)| piece.contains(p) implies after.contains(p) by {
            assert(call_for(calls, pairs[n as int].pair_id) == name && pairs[n as int].mito_contig
                == p.0);
        }
        assert(after =~= before.union(piece));
    } else {
        assert(after =~= before);
    }
}

/// The two definite calls have different names.
proof fn lemma_call_names_differ()
    ensures
        "Likely_NUMT"@ != "Likely_NIMT"@,
{
    reveal_strlit("Likely_NUMT");
    reveal_strlit("Likely_NIMT");
    assert("Likely_NUMT"@[8] == 'U');
    assert("Likely_NIMT"@[8] == 'I');
}

/// Summarises a run: how many loci were called each way, and how many
/// positions of each assembly they occupy.
///
/// A locus counts under the call that `calls` holds for its pair id, and as
/// `Ambiguous` where `calls` holds none; only `Likely_NUMT` and `Likely_NIMT`
/// loci occupy anything.  Loci called `Likely_NUMT` occupy the nuclear
/// assembly with their nuclear intervals and cover the mitochondrial assembly
/// with their mitochondrial intervals; for `Likely_NIMT` it is the reverse.
pub fn compute_percentages(
    mito_bp_total: u64,
    nuclear_bp_total: u64,
    pairs: &Vec<PairedLocus>,
    calls: &StringHashMap<String>,
) -> (s: Summary)
    requires
        pairs.len() <= 0xFFFF_FFFF,
    ensures
        s.n_pairs == pairs.len(),
        s.n_numt + s.n_nimt <= s.n_pairs,
        s.n_numt == count_called(loci(pairs@), calls@, "Likely_NUMT"@, pairs.len() as nat),
        s.n_nimt == count_called(loci(pairs@), calls@, "Likely_NIMT"@, pairs.len() as nat),
        s.nuclear_bp_total == nuclear_bp_total,
        s.mito_bp_total == mito_bp_total,
        s.nuclear_bp_numt == nuclear_positions(
            loci(pairs@),
            calls@,
            "Likely_NUMT"@,
            pairs.len() as nat,
        ).len(),
        s.mito_bp_nimt == mito_positions(
            loci(pairs@),
            calls@,
            "Likely_NIMT"@,
            pairs.len() as nat,
        ).len(),
        s.mito_bp_covered_by_numt_homologs == mito_positions(
            loci(pairs@),
            calls@,
            "Likely_NUMT"@,
            pairs.len() as nat,
        ).len(),
        s.nuc_bp_covered_by_nimt_homologs == nuclear_positions(
            loci(pairs@),
            calls@,
            "Likely_NIMT"@,
            pairs.len() as nat,
        ).len(),
        s.nuclear_pct_numt == pct_spec(s.nuclear_bp_numt as nat, nuclear_bp_total as nat),
        s.mito_pct_nimt == pct_spec(s.mito_bp_nimt as nat, mito_bp_total as nat),
        s.mito_pct_covered_by_numt_homologs == pct_spec(
            s.mito_bp_covered_by_numt_homologs as nat,
            mito_bp_total as nat,
        ),
        s.nuc_pct_covered_by_nimt_homologs == pct_spec(
            s.nuc_bp_covered_by_nimt_homologs as nat,
            nuclear_bp_total as nat,
        ),
        s.nuclear_bp_numt == 0 ==> s.nuclear_pct_numt == 0,
        s.mito_bp_nimt == 0 ==> s.mito_pct_nimt == 0,
        s.mito_bp_covered_by_numt_homologs == 0 ==> s.mito_pct_covered_by_numt_homologs == 0,
        s.nuc_bp_covered_by_nimt_homologs == 0 ==> s.nuc_pct_covered_by_nimt_homologs == 0,
        s.nuclear_bp_numt <= nuclear_bp_total ==> s.nuclear_pct_numt <= 100 * SCALE,
        s.mito_bp_nimt <= mito_bp_total ==> s.mito_pct_nimt <= 100 * SCALE,
        s.mito_bp_covered_by_numt_homologs <= mito_bp_total
            ==> s.mito_pct_covered_by_numt_homologs <= 100 * SCALE,
        s.nuc_bp_covered_by_nimt_homologs <= nuclear_bp_total
            ==> s.nuc_pct_covered_by_nimt_homologs <= 100 * SCALE,
{
    let numt = String::from_str("Likely_NUMT");
    let nimt = String::from_str("Likely_NIMT");
    let mut n_numt: usize = 0;
    let mut n_nimt: usize = 0;
    let mut nuc_intervals_numt = IntervalMap::new();
    let mut mito_intervals_nimt = IntervalMap::new();
    let mut mito_intervals_from_numt = IntervalMap::new();
    let mut nuc_intervals_from_nimt = IntervalMap::new();
    let ghost all = loci(pairs@);
    proof {
        lemma_call_names_differ();
        assert(nuclear_positions(all, calls@, numt@, 0) =~= Set::<(Seq<char>, int)>::empty());
        assert(nuclear_positions(all, calls@, nimt@, 0) =~= Set::<(Seq<char>, int)>::empty());
        assert(mito_positions(all, calls@, numt@, 0) =~= Set::<(Seq<char>, int)>::empty());
        assert(mito_positions(all, calls@, nimt@, 0) =~= Set::<(Seq<char>, int)>::empty());
    }
    let mut i: usize = 0;
    while i < pairs.len()
        invariant
            i <= pairs.len() <= 0xFFFF_FFFF,
            all == loci(pairs@),
            numt@ == "Likely_NUMT"@,
            nimt@ == "Likely_NIMT"@,
            numt@ != nimt@,
            n_numt == count_called(all, calls@, numt@, i as nat),
            n_nimt == count_called(all, calls@, nimt@, i as nat),
            n_numt <= i,
            n_nimt <= i,
            nuc_intervals_numt.wf(),
            mito_intervals_nimt.wf(),
            mito_intervals_from_numt.wf(),
            nuc_intervals_from_nimt.wf(),
            nuc_intervals_numt.contigs() <= i,
            mito_intervals_nimt.contigs() <= i,
            mito_intervals_from_numt.contigs() <= i,
            nuc_intervals_from_nimt.contigs() <= i,
            nuc_intervals_numt.positions() == nuclear_positions(all, calls@, numt@, i as nat),
            mito_intervals_nimt.positions() == mito_positions(all, calls@, nimt@, i as nat),
            mito_intervals_from_numt.positions() == mito_positions(all, calls@, numt@, i as nat),
            nuc_intervals_from_nimt.positions() == nuclear_positions(all, calls@, nimt@, i as nat),
        decreases pairs.len() - i,
    {
        let p = &pairs[i];
        proof {
            assert(all[i as int] == p@);
            lemma_nuclear_positions_step(all, calls@, numt@, i as nat);
            lemma_nuclear_positions_step(all, calls@, nimt@, i as nat);
            lemma_mito_positions_step(all, calls@, numt@, i as nat);
            lemma_mito_positions_step(all, calls@, nimt@, i as nat);
        }
        let (is_numt, is_nimt) = match calls.get(p.pair_id.as_str()) {
            Some(call) => (*call == numt, *call == nimt),
            None => {
                proof {
                    reveal_strlit("Ambiguous");
                    reveal_strlit("Likely_NUMT");
                    reveal_strlit("Likely_NIMT");
                    assert("Ambiguous"@.len() != "Likely_NUMT"@.len());
                    assert("Ambiguous"@.len() != "Likely_NIMT"@.len());
                }
                (false, false)
            },
        };
        assert(is_numt == (call_for(calls@, p@.pair_id) == numt@));
        assert(is_nimt == (call_for(calls@, p@.pair_id) == nimt@));
        if is_numt {
            n_numt += 1;
            add_interval(&mut nuc_intervals_numt, p.nuc_contig.as_str(), p.nuc_start, p.nuc_end);
            add_interval(
                &mut mito_intervals_from_numt,
                p.mito_contig.as_str(),
                p.mito_start,
                p.mito_end,
            );
        } else if is_nimt {
            n_nimt += 1;
            add_interval(
                &mut mito_intervals_nimt,
                p.mito_contig.as_str(),
                p.mito_start,
                p.mito_end,
            );
            add_interval(
                &mut nuc_intervals_from_nimt,
                p.nuc_contig.as_str(),
                p.nuc_start,
                p.nuc_end,
            );
        }
        i += 1;
    }
    proof {
        lemma_count_called_bounds(all, calls@, numt@, nimt@, pairs.len() as nat);
    }
    let nuclear_bp_numt = union_len_all(&nuc_intervals_numt);
    let mito_bp_nimt = union_len_all(&mito_intervals_nimt);
    let mito_bp_covered_by_numt_homologs = union_len_all(&mito_intervals_from_numt);
    let nuc_bp_covered_by_nimt_homologs = union_len_all(&nuc_intervals_from_nimt);
    Summary {
        n_pairs: pairs.len(),
        n_numt,
        n_nimt,
        nuclear_bp_total,
        nuclear_bp_numt,
        nuclear_pct_numt: pct(nuclear_bp_numt, nuclear_bp_total),
        mito_bp_total,
        mito_bp_nimt,
        mito_pct_nimt: pct(mito_bp_nimt, mito_bp_total),
        mito_bp_covered_by_numt_homologs,
        mito_pct_covered_by_numt_homologs: pct(mito_bp_covered_by_numt_homologs, mito_bp_total),
        nuc_bp_covered_by_nimt_homologs,
        nuc_pct_covered_by_nimt_homologs: pct(nuc_bp_covered_by_nimt_homologs, nuclear_bp_total),
    }
}

/// One line of the summary table: a metric, a tab, its value, a line feed.
pub open spec fn metric_line(metric: Seq<char>, value: Seq<char>) -> Seq<char> {
    metric + seq!['\t'] + value + seq!['\n']
}

/// The text of a percentage held in millionths of a percent, with six digits
/// after the point.
pub open spec fn pct_text(p: u128) -> Seq<char> {
    rounded_text(false, p as nat, 0, 6)
}

/// The lines of the summary table that count the loci.
pub open spec fn count_lines(s: Summary) -> Seq<char> {
    metric_line("n_pairs"@, digits(s.n_pairs as nat)) + metric_line(
        "n_numt"@,
        digits(s.n_numt as nat),
    ) + metric_line("n_nimt"@, digits(s.n_nimt as nat))
}

/// The lines of the summary table on what occupies the nuclear assembly.
pub open spec fn nuclear_lines(s: Summary) -> Seq<char> {
    metric_line("nuclear_bp_total"@, digits(s.nuclear_bp_total as nat)) + metric_line(
        "nuclear_bp_numt"@,
        digits(s.nuclear_bp_numt as nat),
    ) + metric_line("nuclear_pct_numt"@, pct_text(s.nuclear_pct_numt))
}

/// The lines of the summary table on what occupies the mitochondrial
/// assembly.
pub open spec fn mito_lines(s: Summary) -> Seq<char> {
    metric_line("mito_bp_total"@, digits(s.mito_bp_total as nat)) + metric_line(
        "mito_bp_nimt"@,
        digits(s.mito_bp_nimt as nat),
    ) + metric_line("mito_pct_nimt"@, pct_text(s.mito_pct_nimt))
}

/// The lines of the summary table on what the homologs of the called loci
/// cover in the other assembly.
pub open spec fn homolog_lines(s: Summary) -> Seq<char> {
    metric_line(
        "mito_bp_covered_by_numt_homologs"@,
        digits(s.mito_bp_covered_by_numt_homologs as nat),
    ) + metric_line(
        "mito_pct_covered_by_numt_homologs"@,
        pct_text(s.mito_pct_covered_by_numt_homologs),
    ) + metric_line(
        "nuc_bp_covered_by_nimt_homologs"@,
        digits(s.nuc_bp_covered_by_nimt_homologs as nat),
    ) + metric_line(
        "nuc_pct_covered_by_nimt_homologs"@,
        pct_text(s.nuc_pct_covered_by_nimt_homologs),
    )
}

/// The summary table: a header line and one line for each metric.
pub open spec fn summary_table(s: Summary) -> Seq<char> {
    "metric\tvalue\n"@ + count_lines(s) + nuclear_lines(s) + mito_lines(s) + homolog_lines(s)
}

/// Appends the line of a metric that is a count.
fn push_count_line(out: &mut String, metric: &str, value: u128)
    ensures
        final(out)@ == old(out)@ + metric_line(metric@, digits(value as nat)),
{
    out.append(metric);
    out.push('\t');
    push_digits(out, value);
    out.push('\n');
    assert(out@ =~= old(out)@ + metric_line(metric@, digits(value as nat)));
}

/// Appends the line of a metric that is a percentage.
fn push_pct_line(out: &mut String, metric: &str, value: u128)
    ensures
        final(out)@ == old(out)@ + metric_line(metric@, pct_text(value)),
{
    out.append(metric);
    out.push('\t');
    push_rounded(out, false, value, 0, 6);
    out.push('\n');
    assert(out@ =~= old(out)@ + metric_line(metric@, pct_text(value)));
}

/// Appends the lines that count the loci.
fn push_count_lines(out: &mut String, s: &Summary)
    ensures
        final(out)@ == old(out)@ + count_lines(*s),
{
    push_count_line(out, "n_pairs", s.n_pairs as u128);
    push_count_line(out, "n_numt", s.n_numt as u128);
    push_count_line(out, "n_nimt", s.n_nimt as u128);
    assert(out@ =~= old(out)@ + count_lines(*s));
}

/// Appends the lines on what occupies the nuclear assembly.
fn push_nuclear_lines(out: &mut String, s: &Summary)
    ensures
        final(out)@ == old(out)@ + nuclear_lines(*s),
{
    push_count_line(out, "nuclear_bp_total", s.nuclear_bp_total as u128);
    push_count_line(out, "nuclear_bp_numt", s.nuclear_bp_numt as u128);
    push_pct_line(out, "nuclear_pct_numt", s.nuclear_pct_numt);
    assert(out@ =~= old(out)@ + nuclear_lines(*s));
}

/// Appends the lines on what occupies the mitochondrial assembly.
fn push_mito_lines(out: &mut String, s: &Summary)
    ensures
        final(out)@ == old(out)@ + mito_lines(*s),
{
    push_count_line(out, "mito_bp_total", s.mito_bp_total as u128);
    push_count_line(out, "mito_bp_nimt", s.mito_bp_nimt as u128);
    push_pct_line(out, "mito_pct_nimt", s.mito_pct_nimt);
    assert(out@ =~= old(out)@ + mito_lines(*s));
}

/// Appends the lines on what the homologs cover in the other assembly.
fn push_homolog_lines(out: &mut String, s: &Summary)
    ensures
        final(out)@ == old(out)@ + homolog_lines(*s),
{
    push_count_line(
        out,
        "mito_bp_covered_by_numt_homologs",
        s.mito_bp_covered_by_numt_homologs as u128,
    );
    push_pct_line(out, "mito_pct_covered_by_numt_homologs", s.mito_pct_covered_by_numt_homologs);
    push_count_line(
        out,
        "nuc_bp_covered_by_nimt_homologs",
        s.nuc_bp_covered_by_nimt_homologs as u128,
    );
    push_pct_line(out, "nuc_pct_covered_by_nimt_homologs", s.nuc_pct_covered_by_nimt_homologs);
    assert(out@ =~= old(out)@ + homolog_lines(*s));
}

/// Writes the summary to `out` as a table of two columns, metric and value.
pub fn write_summary_tsv(out: &mut String, s: &Summary)
    ensures
        final(out)@ == old(out)@ + summary_table(*s),
{
    out.append("metric\tvalue\n");
    push_count_lines(out, s);
    push_nuclear_lines(out, s);
    push_mito_lines(out, s);
    push_homolog_lines(out, s);
    assert(out@ =~= old(out)@ + summary_table(*s));
}

/// The calls that the first `n` lines of a table of calls give: the first
/// line is a header; a line of white space only, or without a tab, gives
/// nothing; any other line gives its second field as the call of its first
/// field, and a later line for the same pair id replaces an earlier one.
pub open spec fn calls_upto(ls: Seq<Seq<char>>, n: nat) -> Map<Seq<char>, Seq<char>>
    recommends
        n <= ls.len(),
    decreases n,
{
    if n <= 1 {
        Map::empty()
    } else {
        let before = calls_upto(ls, (n - 1) as nat);
        let line = ls[n - 1];
        let fields = split(line, '\t');
        if is_blank(line) || fields.len() < 2 {
            before
        } else {
            before.insert(fields[0], fields[1])
        }
    }
}

/// The calls that a table of calls gives, by pair id.
pub open spec fn calls_of(table: Seq<char>) -> Map<Seq<char>, Seq<char>> {
    calls_upto(lines(table), lines(table).len())
}

/// The calls of `m` as sequences of characters.
pub open spec fn call_names(m: Map<Seq<char>, String>) -> Map<Seq<char>, Seq<char>> {
    m.map_values(|v: String| v@)
}

/// Reads a table of calls into a map from pair id to call.
pub fn parse_calls_tsv_str(s: &str) -> (m: StringHashMap<String>)
    ensures
        call_names(m@) == calls_of(s@),
{
    let text = chars_of(s);
    let ls = split_lines(&text);
    let mut m: StringHashMap<String> = StringHashMap::new();
    assert(call_names(m@) =~= calls_upto(rows(ls@), 0));
    assert(call_names(m@) =~= calls_upto(rows(ls@), 1));
    let mut i: usize = 1;
    while i < ls.len()
        invariant
            1 <= i,
            rows(ls@) == lines(s@),
            call_names(m@) == calls_upto(
                rows(ls@),
                if i <= ls.len() {
                    i as nat
                } else {
                    ls.len() as nat
                },
            ),
        decreases ls.len() - i,
    {
        let line = &ls[i];
        assert(rows(ls@)[i as int] == line@);
        if !blank(line) {
            let fields = split_fields(line, '\t');
            if fields.len() >= 2 {
                let pid = string_of(&fields[0]);
                let call = string_of(&fields[1]);
                assert(rows(fields@)[0] == fields[0]@);
                assert(rows(fields@)[1] == fields[1]@);
                let ghost before = m@;
                m.insert(pid, call);
                assert(call_names(m@) =~= call_names(before).insert(fields[0]@, fields[1]@));
            }
        }
        i += 1;
    }
    m
}

/// The calls made for the first `n` loci, by pair id; where a pair id occurs
/// twice the later locus counts.
pub open spec fn made_calls(pairs: Seq<Locus>, scores: Seq<Score>, n: nat) -> Map<
    Seq<char>,
    Seq<char>,
>
    recommends
        n <= pairs.len(),
        n <= scores.len(),
    decreases n,
{
    if n == 0 {
        Map::empty()
    } else {
        made_calls(pairs, scores, (n - 1) as nat).insert(
            pairs[n - 1].pair_id,
            scores[n - 1].call.name(),
        )
    }
}

/// The line of the table of calls for a locus, without the line feed at its
/// end.
pub open spec fn class_line(p: Locus, sc: Score) -> Seq<char> {
    cell(p.pair_id) + cell(sc.call.name()) + cell(score_text(sc.confidence)) + sc.call.reason()
}

/// The names and reason codes of the calls hold neither tab nor line feed, a
/// name begins with a letter, and a reason code ends with one.
proof fn lemma_call_texts(c: Call)
    ensures
        free_of(c.name(), '\t'),
        free_of(c.name(), '\n'),
        free_of(c.reason(), '\n'),
        c.name().len() > 0,
        !is_space(c.name()[0]),
        c.reason().len() > 0,
        c.reason().last() != '\r',
{
    reveal_strlit("Likely_NUMT");
    reveal_strlit("Likely_NIMT");
    reveal_strlit("Ambiguous");
    reveal_strlit("score_difference");
    reveal_strlit("delta_below_threshold");
}

/// The line of a locus whose pair id holds neither tab nor line feed is read
/// back as this pair id and the name of its call.
proof fn lemma_class_line_read_back(p: Locus, sc: Score)
    requires
        free_of(p.pair_id, '\t'),
        free_of(p.pair_id, '\n'),
    ensures
        free_of(class_line(p, sc), '\n'),
        strip_cr(class_line(p, sc)) == class_line(p, sc),
        !is_blank(class_line(p, sc)),
        split(class_line(p, sc), '\t').len() >= 2,
        split(class_line(p, sc), '\t')[0] == p.pair_id,
        split(class_line(p, sc), '\t')[1] == sc.call.name(),
        class_row(p, sc) == class_line(p, sc) + seq!['\n'],
{
    let id = p.pair_id;
    let name = sc.call.name();
    let conf = score_text(sc.confidence);
    let reason = sc.call.reason();
    let line = class_line(p, sc);
    lemma_call_texts(sc.call);
    lemma_decimal_text_numeric(
        sc.confidence < 0,
        round_div(vstd::math::abs(sc.confidence) as nat, crate::decimal::pow10(8)),
        4,
    );
    assert(all_numeric(conf));
    let a = id.len() as int;
    let b = a + 1 + name.len();
    let c = b + 1 + conf.len();
    assert(line.len() == c + 1 + reason.len());
    assert forall|x: int| 0 <= x < line.len() implies line[x] != '\n' by {
        if x < a {
            assert(line[x] == id[x]);
        } else if x == a {
            assert(line[x] == '\t');
        } else if x < b {
            assert(line[x] == name[x - a - 1]);
        } else if x == b {
            assert(line[x] == '\t');
        } else if x < c {
            assert(line[x] == conf[x - b - 1]);
        } else if x == c {
            assert(line[x] == '\t');
        } else {
            assert(line[x] == reason[x - c - 1]);
        }
    }
    assert(line.last() == reason.last());
    assert(line[a + 1] == name[0]);
    assert(line[a] == '\t');
    assert(line[b] == '\t');
    assert forall|j: int| 0 <= j < a implies line[j] != '\t' by {
        assert(line[j] == id[j]);
    }
    assert forall|j: int| a + 1 <= j < b implies line[j] != '\t' by {
        assert(line[j] == name[j - a - 1]);
    }
    lemma_split_from_next(line, '\t', 0, 0, a);
    lemma_split_from_next(line, '\t', a + 1, a + 1, b);
    assert(line.subrange(0, a) =~= id);
    assert(line.subrange(a + 1, b) =~= name);
    let rest = split_from(line, '\t', b + 1, b + 1);
    assert(split(line, '\t') == seq![id] + (seq![name] + rest));
    assert(class_row(p, sc) =~= line + seq!['\n']);
}

/// The header of the table of calls is one line.
proof fn lemma_class_header_is_one_line()
    ensures
        class_header().len() > 0,
        class_header().last() == '\n',
        lines(class_header()).len() == 1,
{
    reveal_strlit("pair_id\tcall\tconfidence\treason_codes\n");
    let h = class_header();
    let l = h.drop_last();
    assert(h =~= l + seq!['\n']);
    assert forall|x: int| 0 <= x < l.len() implies l[x] != '\n' by {
        assert(l[x] == h[x]);
    }
    lemma_lines_one(l);
}

/// The lines of the table of calls for the first `n` loci: the header line
/// and then the line of each locus.
pub open spec fn class_lines(pairs: Seq<Locus>, scores: Seq<Score>, n: nat) -> Seq<Seq<char>>
    recommends
        n <= pairs.len(),
        n <= scores.len(),
    decreases n,
{
    if n == 0 {
        lines(class_header())
    } else {
        class_lines(pairs, scores, (n - 1) as nat).push(class_line(pairs[n - 1], scores[n - 1]))
    }
}

/// The line of the locus at position `i` is the line after the header and
/// the lines of the loci before it.
proof fn lemma_class_lines_index(pairs: Seq<Locus>, scores: Seq<Score>, n: nat)
    ensures
        class_lines(pairs, scores, n).len() == n + 1,
        forall|i: int|
            0 <= i < n ==> #[trigger] class_lines(pairs, scores, n)[i + 1] == class_line(
                pairs[i],
                scores[i],
            ),
    decreases n,
{
    lemma_class_header_is_one_line();
    if n > 0 {
        lemma_class_lines_index(pairs, scores, (n - 1) as nat);
        let before = class_lines(pairs, scores, (n - 1) as nat);
        let now = class_lines(pairs, scores, n);
        assert forall|i: int| 0 <= i < n implies #[trigger] now[i + 1] == class_line(
            pairs[i],
            scores[i],
        ) by {
            if i < n - 1 {
                assert(now[i + 1] == before[i + 1]);
            }
        }
    }
}

/// The table of calls is read as its lines: the header line and then the
/// line of each locus.
proof fn lemma_class_table_lines(pairs: Seq<Locus>, scores: Seq<Score>, n: nat)
    requires
        n <= pairs.len(),
        n <= scores.len(),
        forall|i: int|
            0 <= i < n ==> free_of((#[trigger] pairs[i]).pair_id, '\t') && free_of(
                pairs[i].pair_id,
                '\n',
            ),
    ensures
        class_table(pairs, scores, n).len() > 0,
        class_table(pairs, scores, n).last() == '\n',
        lines(class_table(pairs, scores, n)) == class_lines(pairs, scores, n),
    decreases n,
{
    if n == 0 {
        lemma_class_header_is_one_line();
        assert(class_table(pairs, scores, 0) =~= class_header());
    } else {
        let m = (n - 1) as nat;
        lemma_class_table_lines(pairs, scores, m);
        let before = class_table(pairs, scores, m);
        let line = class_line(pairs[m as int], scores[m as int]);
        assert(free_of(pairs[m as int].pair_id, '\t') && free_of(pairs[m as int].pair_id, '\n'));
        lemma_class_line_read_back(pairs[m as int], scores[m as int]);
        crate::scoring::lemma_tables_grow(pairs, scores, m);
        lemma_lines_grow(before, line);
    }
}

/// The calls read from the lines of the table of calls are the calls made:
/// after the header, line after line.
proof fn lemma_calls_upto_made(ls: Seq<Seq<char>>, pairs: Seq<Locus>, scores: Seq<Score>, n: nat)
    requires
        n <= pairs.len(),
        n <= scores.len(),
        n + 1 <= ls.len(),
        forall|i: int|
            0 <= i < n ==> free_of((#[trigger] pairs[i]).pair_id, '\t') && free_of(
                pairs[i].pair_id,
                '\n',
            ),
        forall|i: int| 0 <= i < n ==> #[trigger] ls[i + 1] == class_line(pairs[i], scores[i]),
    ensures
        calls_upto(ls, n + 1) == made_calls(pairs, scores, n),
    decreases n,
{
    if n > 0 {
        let m = (n - 1) as nat;
        lemma_calls_upto_made(ls, pairs, scores, m);
        lemma_class_line_read_back(pairs[m as int], scores[m as int]);
        assert(ls[m as int + 1] == class_line(pairs[m as int], scores[m as int]));
    }
}

/// What the scoring writes, the summary reads: from the table of calls that
/// is written for loci whose pair ids hold neither tab nor line feed, the
/// calls that were made are read back, each under its pair id.
pub proof fn lemma_calls_read_back(pairs: Seq<Locus>, scores: Seq<Score>, n: nat)
    requires
        n <= pairs.len(),
        n <= scores.len(),
        forall|i: int|
            0 <= i < n ==> free_of((#[trigger] pairs[i]).pair_id, '\t') && free_of(
                pairs[i].pair_id,
                '\n',
            ),
    ensures
        calls_of(class_table(pairs, scores, n)) == made_calls(pairs, scores, n),
{
    lemma_class_table_lines(pairs, scores, n);
    lemma_class_lines_index(pairs, scores, n);
    lemma_calls_upto_made(class_lines(pairs, scores, n), pairs, scores, n);
}

/// Where no two loci share a pair id, each locus is found under its pair id
/// with its own call.
pub proof fn lemma_made_calls_distinct(pairs: Seq<Locus>, scores: Seq<Score>, n: nat, i: int)
    requires
        0 <= i < n <= pairs.len(),
        n <= scores.len(),
        forall|a: int, b: int|
            0 <= a < b < n ==> (#[trigger] pairs[a]).pair_id != (#[trigger] pairs[b]).pair_id,
    ensures
        made_calls(pairs, scores, n).contains_key(pairs[i].pair_id),
        made_calls(pairs, scores, n)[pairs[i].pair_id] == scores[i].call.name(),
    decreases n,
{
    if i < n - 1 {
        lemma_made_calls_distinct(pairs, scores, (n - 1) as nat, i);
        assert(pairs[i].pair_id != pairs[n - 1].pair_id);
    }
}

} // verus!
