//! Read evidence around a locus: the regions to query, the local median
//! depth, and the fraction of reads that span a window.
//!
//! A read spans a window when it covers the whole of it.  Reads that are
//! unmapped, have a mapping quality below 20 or lie on another contig do not
//! count at all.  The spanning window reaches as far to each side of the
//! midpoint as the caller says: its width is not capped.

use crate::decimal::{digits, push_digits};
use crate::fixed::{lemma_ratio_unit, ratio, ratio_of, SCALE};
use crate::model::{loci, CoverageSummary, Locus, PairedLocus, SpanSummary};
use crate::text::{
    chars_of, lines, parse_i32, parse_signed, parse_unsigned, parse_unsigned_max, rows, same_chars,
    split, split_fields, split_lines, split_words, words,
};
use vstd::hash_map::StringHashMap;
use vstd::prelude::*;
use vstd::relations::{sorted_by, total_ordering};
use vstd::seq_lib::lemma_sorted_unique;

verus! {

/// Half-open window on a reference, 0-based: from `start` up to `end`.
#[derive(Debug, Clone, Copy)]
pub struct Window {
    pub start: i64,
    pub end: i64,
}

/// The first position of the region that is queried for `w`, counted from 1:
/// the window does not reach below the start of the contig.
pub open spec fn region_first(w: Window) -> int {
    (if w.start > 0 {
        w.start as int
    } else {
        0
    }) + 1
}

/// The last position of the region that is queried for `w`, counted from 1
/// and itself part of the region: the region holds at least the position
/// after `w.start`, and never ends below 0.
pub open spec fn region_last(w: Window) -> int {
    let e = if w.end > w.start + 1 {
        w.end as int
    } else {
        w.start + 1
    };
    if e < 0 {
        0
    } else {
        e
    }
}

/// The text of the region that is queried for `w` on `rname`: the name, a
/// colon, the first position, a hyphen, the last position.
pub open spec fn region_text(rname: Seq<char>, w: Window) -> Seq<char> {
    rname + seq![':'] + digits(region_first(w) as nat) + seq!['-'] + digits(region_last(w) as nat)
}

/// The first position of the region that is queried for `w`.
pub fn first_of(w: Window) -> (r: i128)
    ensures
        r == region_first(w),
        r >= 1,
{
    if w.start > 0 {
        w.start as i128 + 1
    } else {
        1
    }
}

/// The last position of the region that is queried for `w`.
pub fn last_of(w: Window) -> (r: i128)
    ensures
        r == region_last(w),
        r >= 0,
{
    let e: i128 = if w.end as i128 > w.start as i128 + 1 {
        w.end as i128
    } else {
        w.start as i128 + 1
    };
    if e < 0 {
        0
    } else {
        e
    }
}

/// The region to query for the window `w` on the reference `rname`, in the
/// 1-based inclusive form `name:first-last`.
pub fn region_str(rname: &str, w: Window) -> (r: String)
    ensures
        r@ == region_text(rname@, w),
{
    let mut r = String::new();
    r.append(rname);
    r.push(':');
    push_digits(&mut r, first_of(w) as u128);
    r.push('-');
    push_digits(&mut r, last_of(w) as u128);
    assert(r@ =~= region_text(rname@, w));
    r
}

/// Whether an alignment operation consumes the reference: match, sequence
/// match, mismatch, deletion, skip.
pub open spec fn consumes_reference(c: char) -> bool {
    c == 'M' || c == '=' || c == 'X' || c == 'D' || c == 'N'
}

/// Whether an alignment operation leaves the reference where it is:
/// insertion, soft clip, hard clip, padding.
pub open spec fn keeps_reference(c: char) -> bool {
    c == 'I' || c == 'S' || c == 'H' || c == 'P'
}

/// The reference length that `s[i..]` consumes, after a run length `num` read
/// so far and a length `acc` consumed so far; nothing if another character
/// than a digit or an operation occurs.
pub open spec fn cigar_scan(s: Seq<char>, i: int, num: nat, acc: nat) -> Option<nat>
    decreases s.len() - i,
{
    if i >= s.len() || i < 0 {
        Some(acc)
    } else if '0' <= s[i] <= '9' {
        cigar_scan(s, i + 1, num * 10 + (s[i] as u32 - '0' as u32) as nat, acc)
    } else if consumes_reference(s[i]) {
        cigar_scan(s, i + 1, 0, acc + num)
    } else if keeps_reference(s[i]) {
        cigar_scan(s, i + 1, 0, acc)
    } else {
        None
    }
}

/// The reference length that the alignment description `s` consumes: the sum
/// of the run lengths of its reference-consuming operations.
pub open spec fn cigar_ref_len(s: Seq<char>) -> Option<nat> {
    cigar_scan(s, 0, 0, 0)
}

/// The reference length that an alignment description consumes, capped at
/// the largest 32-bit number; nothing if the description is malformed.
pub fn parse_cigar_chars(cigar: &Vec<char>) -> (r: Option<u32>)
    ensures
        r == match cigar_ref_len(cigar@) {
            Some(n) => Some(
                if n > u32::MAX {
                    u32::MAX
                } else {
                    n as u32
                },
            ),
            None => None,
        },
{
    let mut num: u64 = 0;
    let mut acc: u64 = 0;
    let ghost mut full_num: nat = 0;
    let ghost mut full_acc: nat = 0;
    let mut i: usize = 0;
    while i < cigar.len()
        invariant
            i <= cigar.len(),
            cigar_ref_len(cigar@) == cigar_scan(cigar@, i as int, full_num, full_acc),
            num == (if full_num > u64::MAX {
                u64::MAX as nat
            } else {
                full_num
            }),
            acc == (if full_acc > u64::MAX {
                u64::MAX as nat
            } else {
                full_acc
            }),
        decreases cigar.len() - i,
    {
        let c = cigar[i];
        if '0' <= c && c <= '9' {
            let d: u64 = (c as u32 - '0' as u32) as u64;
            if num > (u64::MAX - d) / 10 {
                num = u64::MAX;
            } else {
                num = num * 10 + d;
            }
            proof {
                full_num = full_num * 10 + d as nat;
            }
        } else if c == 'M' || c == '=' || c == 'X' || c == 'D' || c == 'N' {
            if num > u64::MAX - acc {
                acc = u64::MAX;
            } else {
                acc = acc + num;
            }
            num = 0;
            proof {
                full_acc = full_acc + full_num;
                full_num = 0;
            }
        } else if c == 'I' || c == 'S' || c == 'H' || c == 'P' {
            num = 0;
            proof {
                full_num = 0;
            }
        } else {
            return None;
        }
        i += 1;
    }
    if acc > u32::MAX as u64 {
        Some(u32::MAX)
    } else {
        Some(acc as u32)
    }
}

/// The reference length that an alignment description consumes, capped at
/// the largest 32-bit number; nothing if the description is malformed.
pub fn parse_cigar_ref_consumed(cigar: &str) -> (r: Option<u32>)
    ensures
        r == match cigar_ref_len(cigar@) {
            Some(n) => Some(
                if n > u32::MAX {
                    u32::MAX
                } else {
                    n as u32
                },
            ),
            None => None,
        },
{
    let chars = chars_of(cigar);
    parse_cigar_chars(&chars)
}

/// The order of depths: smaller first.
pub open spec fn depth_le() -> spec_fn(u64, u64) -> bool {
    |a: u64, b: u64| a <= b
}

/// The median of values that are in ascending order: the middle one, or the
/// mean of the two middle ones rounded down; 0 when there is no value.
pub open spec fn median_of_sorted(t: Seq<u64>) -> nat {
    if t.len() == 0 {
        0
    } else if t.len() % 2 == 1 {
        t[t.len() as int / 2] as nat
    } else {
        ((t[t.len() as int / 2 - 1] + t[t.len() as int / 2]) / 2) as nat
    }
}

/// The median of `s`: the median of its values put in ascending order.
pub open spec fn median_spec(s: Seq<u64>) -> nat {
    median_of_sorted(s.sort_by(depth_le()))
}

/// The order of depths is a total order.
pub proof fn lemma_depth_order_total()
    ensures
        total_ordering(depth_le()),
{
    assert(vstd::relations::reflexive(depth_le()));
    assert(vstd::relations::antisymmetric(depth_le()));
    assert(vstd::relations::transitive(depth_le()));
    assert(vstd::relations::strongly_connected(depth_le()));
}

/// Values in ascending order are their own sorted arrangement.
pub proof fn lemma_sorted_is_sort(t: Seq<u64>)
    requires
        sorted_by(t, depth_le()),
    ensures
        t.sort_by(depth_le()) == t,
{
    lemma_depth_order_total();
    t.lemma_sort_by_ensures(depth_le());
    lemma_sorted_unique(t.sort_by(depth_le()), t, depth_le());
}

/// The median of no value is 0, the median of one value is that value, and
/// the median of two values is their mean.
pub proof fn lemma_median_small(x: u64, y: u64)
    ensures
        median_spec(Seq::<u64>::empty()) == 0,
        median_spec(seq![x]) == x,
        median_spec(seq![x, y]) == (x + y) / 2,
{
    lemma_sorted_is_sort(Seq::<u64>::empty());
    lemma_sorted_is_sort(seq![x]);
    if x <= y {
        lemma_sorted_is_sort(seq![x, y]);
    } else {
        lemma_depth_order_total();
        lemma_sorted_is_sort(seq![y, x]);
        seq![x, y].lemma_sort_by_ensures(depth_le());
        assert(seq![x, y].to_multiset() =~= seq![y, x].to_multiset()) by {
            broadcast use vstd::seq_lib::group_to_multiset_ensures;

            assert(seq![x, y] =~= seq![x].push(y));
            assert(seq![y, x] =~= seq![y].push(x));
            assert(seq![x] =~= Seq::<u64>::empty().push(x));
            assert(seq![y] =~= Seq::<u64>::empty().push(y));
        }
        lemma_sorted_unique(seq![x, y].sort_by(depth_le()), seq![y, x], depth_le());
    }
}

/// The median does not depend on the order of the values.
pub proof fn lemma_median_permutation(a: Seq<u64>, b: Seq<u64>)
    requires
        a.to_multiset() == b.to_multiset(),
    ensures
        median_spec(a) == median_spec(b),
{
    lemma_depth_order_total();
    a.lemma_sort_by_ensures(depth_le());
    b.lemma_sort_by_ensures(depth_le());
    lemma_sorted_unique(a.sort_by(depth_le()), b.sort_by(depth_le()), depth_le());
}

/// `sort` of the standard library on a vector of integers: the vector is
/// rearranged, nothing added or lost, into ascending order.
#[verifier::external_body]
fn sort_values(v: &mut Vec<u64>)
    ensures
        final(v)@.to_multiset() == old(v)@.to_multiset(),
        sorted_by(final(v)@, depth_le()),
{
    v.sort();
}

/// The median of `v`, rounded down; 0 when `v` is empty.
pub fn median(v: Vec<u64>) -> (m: u64)
    ensures
        m == median_spec(v@),
{
    let mut v = v;
    let ghost given = v@;
    sort_values(&mut v);
    proof {
        lemma_sorted_is_sort(v@);
        lemma_median_permutation(given, v@);
    }
    let n = v.len();
    if n == 0 {
        0
    } else if n % 2 == 1 {
        v[n / 2]
    } else {
        ((v[n / 2 - 1] as u128 + v[n / 2] as u128) / 2) as u64
    }
}

/// The depth that one line of a depth listing reports, in millionths: its
/// third word, if that is a number of 32 bits; nothing otherwise.
pub open spec fn line_depth(line: Seq<char>) -> Option<u64> {
    let w = words(line);
    if w.len() >= 3 {
        match parse_unsigned(w[2], u32::MAX as nat) {
            Some(n) => Some((n * SCALE) as u64),
            None => None,
        }
    } else {
        None
    }
}

/// The depths that the first `n` lines report, in the order of the lines.
pub open spec fn depth_values(ls: Seq<Seq<char>>, n: nat) -> Seq<u64>
    recommends
        n <= ls.len(),
    decreases n,
{
    if n == 0 {
        Seq::empty()
    } else {
        let before = depth_values(ls, (n - 1) as nat);
        match line_depth(ls[n - 1]) {
            Some(d) => before.push(d),
            None => before,
        }
    }
}

/// The local median depth that a depth listing gives, in millionths.
pub open spec fn local_depth(listing: Seq<char>) -> nat {
    median_spec(depth_values(lines(listing), lines(listing).len()))
}

/// The local median depth of a region, in millionths, from the depth listing
/// of that region: one line for each position, with the depth as third
/// word.  A line without a depth is passed over, and an empty listing gives
/// a depth of 0.
pub fn local_median_depth(depth_output: &str) -> (m: u64)
    ensures
        m == local_depth(depth_output@),
{
    let text = chars_of(depth_output);
    let ls = split_lines(&text);
    let mut depths: Vec<u64> = Vec::new();
    let mut i: usize = 0;
    while i < ls.len()
        invariant
            i <= ls.len(),
            rows(ls@) == lines(depth_output@),
            depths@ == depth_values(rows(ls@), i as nat),
        decreases ls.len() - i,
    {
        assert(rows(ls@)[i as int] == ls[i as int]@);
        let w = split_words(&ls[i]);
        if w.len() >= 3 {
            assert(rows(w@)[2] == w[2]@);
            match parse_unsigned_max(&w[2], u32::MAX as u64) {
                Some(x) => {
                    assert(x * SCALE <= u32::MAX * 1_000_000) by (nonlinear_arith)
                        requires
                            x <= u32::MAX,
                            SCALE == 1_000_000,
                    ;
                    depths.push(x * SCALE);
                },
                None => {},
            }
        }
        i += 1;
    }
    median(depths)
}

/// The least mapping quality of a read that counts.
pub const MIN_MAPQ: u8 = 20;

/// The field `k` of a record; `*` where the record has no such field.
pub open spec fn field_or_star(f: Seq<Seq<char>>, k: int) -> Seq<char> {
    if 0 <= k < f.len() {
        f[k]
    } else {
        seq!['*']
    }
}

/// The field `k` of a record as an unsigned number of at most `max`; 0 where
/// the record has no such field or it is no such number.
pub open spec fn unsigned_or_zero(f: Seq<Seq<char>>, k: int, max: nat) -> nat {
    if 0 <= k < f.len() {
        match parse_unsigned(f[k], max) {
            Some(n) => n,
            None => 0,
        }
    } else {
        0
    }
}

/// The field `k` of a record as a signed number of 32 bits; 0 where the
/// record has no such field or it is no such number.
pub open spec fn signed_or_zero(f: Seq<Seq<char>>, k: int) -> int {
    if 0 <= k < f.len() {
        match parse_signed(f[k], i32::MIN as int, i32::MAX as int) {
            Some(n) => n,
            None => 0,
        }
    } else {
        0
    }
}

/// The reference interval of the read that one line of an alignment
/// listing describes, first and last position counted from 1, if the read
/// counts: the line is no header, the read is mapped (bit 4 of the flag is
/// clear) to `rname` with a mapping quality of at least 20, and its
/// alignment description is well formed and consumes at least one position.
pub open spec fn read_interval(line: Seq<char>, rname: Seq<char>) -> Option<(int, int)> {
    let f = split(line, '\t');
    let flag = unsigned_or_zero(f, 1, 0xFFFF) as u16;
    let pos = signed_or_zero(f, 3);
    let mapq = unsigned_or_zero(f, 4, 0xFF);
    if line.len() == 0 || line[0] == '@' {
        None
    } else if flag & 4 != 0 || mapq < MIN_MAPQ || field_or_star(f, 2) != rname {
        None
    } else {
        match cigar_ref_len(field_or_star(f, 5)) {
            Some(n) => if n == 0 {
                None
            } else if n > u32::MAX {
                Some((pos, pos + u32::MAX - 1))
            } else {
                Some((pos, pos + n - 1))
            },
            None => None,
        }
    }
}

/// Whether a read on the reference interval `r` spans the window `w`: it
/// begins at or before the first position of the window's region and ends at
/// or after the last.
pub open spec fn spans_window(r: (int, int), w: Window) -> bool {
    r.0 <= region_first(w) && r.1 >= region_last(w)
}

/// How many of the first `n` lines describe a read that counts.
pub open spec fn count_reads(ls: Seq<Seq<char>>, rname: Seq<char>, n: nat) -> nat
    recommends
        n <= ls.len(),
    decreases n,
{
    if n == 0 {
        0
    } else {
        count_reads(ls, rname, (n - 1) as nat) + if read_interval(ls[n - 1], rname) is Some {
            1nat
        } else {
            0nat
        }
    }
}

/// How many of the first `n` lines describe a read that counts and spans `w`.
pub open spec fn count_spanning(ls: Seq<Seq<char>>, rname: Seq<char>, w: Window, n: nat) -> nat
    recommends
        n <= ls.len(),
    decreases n,
{
    if n == 0 {
        0
    } else {
        count_spanning(ls, rname, w, (n - 1) as nat) + match read_interval(ls[n - 1], rname) {
            Some(r) => if spans_window(r, w) {
                1nat
            } else {
                0nat
            },
            None => 0nat,
        }
    }
}

/// The fraction of the reads of an alignment listing that span `w`, in
/// millionths; 0 when no read counts.
pub open spec fn span_share(listing: Seq<char>, rname: Seq<char>, w: Window) -> nat {
    let ls = lines(listing);
    ratio(count_spanning(ls, rname, w, ls.len()), count_reads(ls, rname, ls.len()))
}

/// There are no more spanning reads than reads, so a span fraction is at
/// most one.
pub proof fn lemma_span_share_unit(ls: Seq<Seq<char>>, rname: Seq<char>, w: Window, n: nat)
    ensures
        count_spanning(ls, rname, w, n) <= count_reads(ls, rname, n) <= n,
        ratio(count_spanning(ls, rname, w, n), count_reads(ls, rname, n)) <= SCALE,
    decreases n,
{
    if n > 0 {
        lemma_span_share_unit(ls, rname, w, (n - 1) as nat);
    }
    lemma_ratio_unit(count_spanning(ls, rname, w, n), count_reads(ls, rname, n));
}

/// The field `k` of a record as an unsigned number of at most `max`.
fn field_unsigned(f: &Vec<Vec<char>>, k: usize, max: u64) -> (r: u64)
    ensures
        r == unsigned_or_zero(rows(f@), k as int, max as nat),
        r <= max,
{
    if k < f.len() {
        assert(rows(f@)[k as int] == f[k as int]@);
        match parse_unsigned_max(&f[k], max) {
            Some(n) => n,
            None => 0,
        }
    } else {
        0
    }
}

/// The field `k` of a record as a signed number of 32 bits.
fn field_signed(f: &Vec<Vec<char>>, k: usize) -> (r: i32)
    ensures
        r == signed_or_zero(rows(f@), k as int),
{
    if k < f.len() {
        assert(rows(f@)[k as int] == f[k as int]@);
        match parse_i32(&f[k]) {
            Some(n) => n,
            None => 0,
        }
    } else {
        0
    }
}

/// The reference interval of the read that `line` describes, if it counts.
fn read_of(line: &Vec<char>, rname: &Vec<char>, star: &Vec<char>) -> (r: Option<(i64, i64)>)
    requires
        star@ == seq!['*'],
    ensures
        match read_interval(line@, rname@) {
            Some(iv) => r == Some((iv.0 as i64, iv.1 as i64)) && i32::MIN <= iv.0 <= i32::MAX
                && iv.0 <= iv.1 < iv.0 + 0x1_0000_0000,
            None => r is None,
        },
{
    if line.len() == 0 || line[0] == '@' {
        return None;
    }
    let f = split_fields(line, '\t');
    let flag = field_unsigned(&f, 1, 0xFFFF) as u16;
    let pos = field_signed(&f, 3);
    let mapq = field_unsigned(&f, 4, 0xFF);
    if (flag & 4) != 0 || mapq < MIN_MAPQ as u64 {
        return None;
    }
    let on_rname = if 2 < f.len() {
        assert(rows(f@)[2] == f[2]@);
        same_chars(&f[2], rname)
    } else {
        same_chars(star, rname)
    };
    if !on_rname {
        return None;
    }
    let consumed = if 5 < f.len() {
        assert(rows(f@)[5] == f[5]@);
        parse_cigar_chars(&f[5])
    } else {
        parse_cigar_chars(star)
    };
    match consumed {
        Some(n) => if n == 0 {
            None
        } else {
            Some((pos as i64, pos as i64 + n as i64 - 1))
        },
        None => None,
    }
}

/// The fraction, in millionths, of the reads of an alignment listing that
/// span the window `w` on `rname`; 0 when no read counts.
///
/// The listing has one line for each read, with tabs between the fields:
/// name, flag, reference name, position counted from 1, mapping quality,
/// alignment description.
pub fn span_fraction(view_output: &str, rname: &str, w: Window) -> (r: u64)
    ensures
        r == span_share(view_output@, rname@, w),
        r <= SCALE,
{
    let text = chars_of(view_output);
    let name = chars_of(rname);
    let mut star: Vec<char> = Vec::new();
    star.push('*');
    assert(star@ =~= seq!['*']);
    let ls = split_lines(&text);
    let first = first_of(w);
    let last = last_of(w);
    let mut total: u64 = 0;
    let mut spanning: u64 = 0;
    let mut i: usize = 0;
    while i < ls.len()
        invariant
            i <= ls.len(),
            star@ == seq!['*'],
            name@ == rname@,
            first == region_first(w),
            last == region_last(w),
            rows(ls@) == lines(view_output@),
            total == count_reads(rows(ls@), rname@, i as nat),
            spanning == count_spanning(rows(ls@), rname@, w, i as nat),
            spanning <= total <= i,
        decreases ls.len() - i,
    {
        assert(rows(ls@)[i as int] == ls[i as int]@);
        match read_of(&ls[i], &name, &star) {
            Some(iv) => {
                total += 1;
                if iv.0 as i128 <= first && iv.1 as i128 >= last {
                    spanning += 1;
                }
            },
            None => {},
        }
        i += 1;
    }
    proof {
        lemma_span_share_unit(rows(ls@), rname@, w, ls.len() as nat);
    }
    ratio_of(spanning, total) as u64
}

/// The midpoint of the interval from `start` to `end`, rounded down.
pub open spec fn midpoint(start: u32, end: u32) -> int {
    (start + end) / 2
}

/// The window of half-width `half` around `mid`.
pub open spec fn window_around(mid: int, half: u32) -> Window {
    Window { start: (mid - half) as i64, end: (mid + half) as i64 }
}

/// The four windows of a locus: on each side one in which the depth is taken
/// and a tighter one that a read has to span.
#[derive(Debug, Clone, Copy)]
pub struct LocusWindows {
    pub nuc_depth: Window,
    pub mito_depth: Window,
    pub nuc_span: Window,
    pub mito_span: Window,
}

/// The windows of the locus `p`, for a flank of `flank` and a spanning
/// half-width of `win`.
pub open spec fn windows_of(p: Locus, flank: u32, win: u32) -> LocusWindows {
    LocusWindows {
        nuc_depth: window_around(midpoint(p.nuc_start, p.nuc_end), flank),
        mito_depth: window_around(midpoint(p.mito_start, p.mito_end), flank),
        nuc_span: window_around(midpoint(p.nuc_start, p.nuc_end), win),
        mito_span: window_around(midpoint(p.mito_start, p.mito_end), win),
    }
}

/// The window of half-width `half` around the midpoint of an interval.
fn window_at(start: u32, end: u32, half: u32) -> (w: Window)
    ensures
        w == window_around(midpoint(start, end), half),
{
    let mid: i64 = (start as i64 + end as i64) / 2;
    Window { start: mid - half as i64, end: mid + half as i64 }
}

/// The windows around the midpoints of the locus `p`: the depth windows
/// reach `flank` bases to each side, the spanning windows `win` bases.
pub fn locus_windows(p: &PairedLocus, flank: u32, win: u32) -> (w: LocusWindows)
    ensures
        w == windows_of(p@, flank, win),
{
    LocusWindows {
        nuc_depth: window_at(p.nuc_start, p.nuc_end, flank),
        mito_depth: window_at(p.mito_start, p.mito_end, flank),
        nuc_span: window_at(p.nuc_start, p.nuc_end, win),
        mito_span: window_at(p.mito_start, p.mito_end, win),
    }
}

/// The four regions to query for a locus, each in the form
/// `name:first-last`: on each side the region of the depth window and the
/// region of the spanning window.
#[derive(Debug, Clone)]
pub struct LocusRegions {
    pub nuc_depth: String,
    pub mito_depth: String,
    pub nuc_span: String,
    pub mito_span: String,
}

/// The regions to query for the locus `p`: the nuclear windows on its
/// nuclear contig and the mitochondrial windows on its mitochondrial contig.
pub fn locus_regions(p: &PairedLocus, flank: u32, win: u32) -> (r: LocusRegions)
    ensures
        r.nuc_depth@ == region_text(p@.nuc_contig, windows_of(p@, flank, win).nuc_depth),
        r.mito_depth@ == region_text(p@.mito_contig, windows_of(p@, flank, win).mito_depth),
        r.nuc_span@ == region_text(p@.nuc_contig, windows_of(p@, flank, win).nuc_span),
        r.mito_span@ == region_text(p@.mito_contig, windows_of(p@, flank, win).mito_span),
{
    let w = locus_windows(p, flank, win);
    LocusRegions {
        nuc_depth: region_str(p.nuc_contig.as_str(), w.nuc_depth),
        mito_depth: region_str(p.mito_contig.as_str(), w.mito_depth),
        nuc_span: region_str(p.nuc_contig.as_str(), w.nuc_span),
        mito_span: region_str(p.mito_contig.as_str(), w.mito_span),
    }
}

/// What the reads say about one locus: the local median depth and the span
/// fraction on each side, in millionths.
#[derive(Debug, Clone, Copy, PartialEq, Eq, Structural)]
pub struct LocusEvidence {
    pub depth_nuc: u64,
    pub depth_mito: u64,
    pub span_nuc: u64,
    pub span_mito: u64,
}

/// The evidence for the locus `p` from the four listings queried for its
/// windows: the depth listings of the two depth windows and the alignment
/// listings of the two spanning windows of half-width `win`.
pub fn locus_evidence(
    p: &PairedLocus,
    win: u32,
    depth_nuc: &str,
    depth_mito: &str,
    view_nuc: &str,
    view_mito: &str,
) -> (e: LocusEvidence)
    ensures
        e.depth_nuc == local_depth(depth_nuc@),
        e.depth_mito == local_depth(depth_mito@),
        e.span_nuc == span_share(
            view_nuc@,
            p@.nuc_contig,
            window_around(midpoint(p.nuc_start, p.nuc_end), win),
        ),
        e.span_mito == span_share(
            view_mito@,
            p@.mito_contig,
            window_around(midpoint(p.mito_start, p.mito_end), win),
        ),
        e.span_nuc <= SCALE,
        e.span_mito <= SCALE,
{
    LocusEvidence {
        depth_nuc: local_median_depth(depth_nuc),
        depth_mito: local_median_depth(depth_mito),
        span_nuc: span_fraction(
            view_nuc,
            p.nuc_contig.as_str(),
            window_at(p.nuc_start, p.nuc_end, win),
        ),
        span_mito: span_fraction(
            view_mito,
            p.mito_contig.as_str(),
            window_at(p.mito_start, p.mito_end, win),
        ),
    }
}

/// The local depths of the first `n` loci by pair id; where a pair id occurs
/// twice the later locus counts.
pub open spec fn depth_map(pairs: Seq<Locus>, ev: Seq<LocusEvidence>, n: nat) -> Map<
    Seq<char>,
    (u64, u64),
>
    recommends
        n <= pairs.len() == ev.len(),
    decreases n,
{
    if n == 0 {
        Map::empty()
    } else {
        depth_map(pairs, ev, (n - 1) as nat).insert(
            pairs[n - 1].pair_id,
            (ev[n - 1].depth_nuc, ev[n - 1].depth_mito),
        )
    }
}

/// The span fractions of the first `n` loci by pair id; where a pair id
/// occurs twice the later locus counts.
pub open spec fn span_map(pairs: Seq<Locus>, ev: Seq<LocusEvidence>, n: nat) -> Map<
    Seq<char>,
    (u64, u64),
>
    recommends
        n <= pairs.len() == ev.len(),
    decreases n,
{
    if n == 0 {
        Map::empty()
    } else {
        span_map(pairs, ev, (n - 1) as nat).insert(
            pairs[n - 1].pair_id,
            (ev[n - 1].span_nuc, ev[n - 1].span_mito),
        )
    }
}

/// The local nuclear depths of all loci, in their order.
pub open spec fn nuclear_depths(ev: Seq<LocusEvidence>) -> Seq<u64> {
    Seq::new(ev.len(), |i: int| ev[i].depth_nuc)
}

/// The local mitochondrial depths of all loci, in their order.
pub open spec fn mito_depths(ev: Seq<LocusEvidence>) -> Seq<u64> {
    Seq::new(ev.len(), |i: int| ev[i].depth_mito)
}

/// Why the evidence could not be summarised.
#[derive(Debug, Clone, Copy, PartialEq, Eq, Structural)]
pub enum EvidenceError {
    /// There is not one piece of evidence for each locus.
    Count,
}

/// Gathers the evidence of all loci: the depths and span fractions by pair
/// id, and as genome-wide depth on each side the median of the local
/// depths.
///
/// `evidence` holds the evidence of each locus in the order of `pairs`.
pub fn compute_coverage_and_spans_with_tools(
    pairs: &Vec<PairedLocus>,
    evidence: &Vec<LocusEvidence>,
) -> (r: Result<(CoverageSummary, SpanSummary), EvidenceError>)
    ensures
        r is Ok <==> evidence.len() == pairs.len(),
        r is Err ==> r->Err_0 == EvidenceError::Count,
        r is Ok ==> {
            let (coverage, spans) = r->Ok_0;
            &&& coverage.per_pair@ == depth_map(loci(pairs@), evidence@, pairs.len() as nat)
            &&& spans.per_pair@ == span_map(loci(pairs@), evidence@, pairs.len() as nat)
            &&& coverage.nuclear_median == median_spec(nuclear_depths(evidence@))
            &&& coverage.mito_median == median_spec(mito_depths(evidence@))
        },
{
    if evidence.len() != pairs.len() {
        return Err(EvidenceError::Count);
    }
    let mut per_pair_depth: StringHashMap<(u64, u64)> = StringHashMap::new();
    let mut per_pair_span: StringHashMap<(u64, u64)> = StringHashMap::new();
    let mut nuc_locals: Vec<u64> = Vec::new();
    let mut mito_locals: Vec<u64> = Vec::new();
    let mut i: usize = 0;
    while i < pairs.len()
        invariant
            i <= pairs.len() == evidence.len(),
            per_pair_depth@ == depth_map(loci(pairs@), evidence@, i as nat),
            per_pair_span@ == span_map(loci(pairs@), evidence@, i as nat),
            nuc_locals@ == nuclear_depths(evidence@).take(i as int),
            mito_locals@ == mito_depths(evidence@).take(i as int),
        decreases pairs.len() - i,
    {
        let p = &pairs[i];
        let e = &evidence[i];
        assert(loci(pairs@)[i as int] == p@);
        per_pair_depth.insert(p.pair_id.clone(), (e.depth_nuc, e.depth_mito));
        per_pair_span.insert(p.pair_id.clone(), (e.span_nuc, e.span_mito));
        nuc_locals.push(e.depth_nuc);
        mito_locals.push(e.depth_mito);
        assert(nuc_locals@ =~= nuclear_depths(evidence@).take(i + 1));
        assert(mito_locals@ =~= mito_depths(evidence@).take(i + 1));
        i += 1;
    }
    assert(nuc_locals@ =~= nuclear_depths(evidence@));
    assert(mito_locals@ =~= mito_depths(evidence@));
    let nuclear_median = median(nuc_locals);
    let mito_median = median(mito_locals);
    Ok(
        (
            CoverageSummary { nuclear_median, mito_median, per_pair: per_pair_depth },
            SpanSummary { per_pair: per_pair_span },
        ),
    )
}

} // verus!
