//! Alignment hits between the two assemblies: reading them from the
//! tab-separated pairwise mapping format, and pairing each hit with its
//! reciprocal hits.

use crate::decimal::{lemma_padded_value, padded, push_padded};
use crate::fixed::{lemma_ratio_unit, ratio, ratio_of, SCALE};
use crate::model::{loci, Locus, PairedLocus};
use crate::text::{
    chars_of, digits_value, free_of, lines, parse_unsigned, parse_unsigned_max, rows, split, split_fields, split_lines,
    string_of, trim, trimmed,
};
use vstd::prelude::*;

verus! {

/// One alignment hit of a query sequence on a target sequence.
#[derive(Debug, Clone)]
pub struct PafRecord {
    pub qname: String,
    pub qstart: u32,
    pub qend: u32,
    pub tname: String,
    pub tstart: u32,
    pub tend: u32,
    /// Number of matching residues.
    pub matches: u32,
    /// Length of the alignment block.
    pub alnlen: u32,
    pub mapq: u8,
    /// `matches / alnlen` in millionths, rounded down; 0 if `alnlen` is 0.
    pub identity: u64,
    pub strand: char,
}

/// What a [`PafRecord`] holds, with names as sequences of characters.
pub ghost struct Hit {
    pub qname: Seq<char>,
    pub qstart: u32,
    pub qend: u32,
    pub tname: Seq<char>,
    pub tstart: u32,
    pub tend: u32,
    pub matches: u32,
    pub alnlen: u32,
    pub mapq: u8,
    pub identity: u64,
    pub strand: char,
}

impl View for PafRecord {
    type V = Hit;

    open spec fn view(&self) -> Hit {
        Hit {
            qname: self.qname@,
            qstart: self.qstart,
            qend: self.qend,
            tname: self.tname@,
            tstart: self.tstart,
            tend: self.tend,
            matches: self.matches,
            alnlen: self.alnlen,
            mapq: self.mapq,
            identity: self.identity,
            strand: self.strand,
        }
    }
}

/// The view of each record of `v`.
pub open spec fn hits(v: Seq<PafRecord>) -> Seq<Hit> {
    Seq::new(v.len(), |i: int| v[i]@)
}

/// The identity of a hit with `matches` matching residues in a block of
/// `alnlen`, in millionths.
pub open spec fn identity_of(matches: u32, alnlen: u32) -> nat {
    ratio(matches as nat, alnlen as nat)
}

/// The identity of a hit is 0 when its alignment block is empty, and at most
/// one when no more residues match than the block holds.
pub proof fn lemma_identity_unit(matches: u32, alnlen: u32)
    ensures
        alnlen == 0 ==> identity_of(matches, alnlen) == 0,
        matches <= alnlen ==> identity_of(matches, alnlen) <= SCALE,
{
    lemma_ratio_unit(matches as nat, alnlen as nat);
}

impl PafRecord {
    /// The hit with the given fields, and with the identity that they give.
    pub fn from_fields(
        qname: String,
        qstart: u32,
        qend: u32,
        strand: char,
        tname: String,
        tstart: u32,
        tend: u32,
        matches: u32,
        alnlen: u32,
        mapq: u8,
    ) -> (r: PafRecord)
        ensures
            r@ == (Hit {
                qname: qname@,
                qstart,
                qend,
                tname: tname@,
                tstart,
                tend,
                matches,
                alnlen,
                mapq,
                identity: identity_of(matches, alnlen) as u64,
                strand,
            }),
            alnlen == 0 ==> r.identity == 0,
            matches <= alnlen ==> r.identity <= SCALE,
    {
        proof {
            lemma_identity_unit(matches, alnlen);
        }
        let identity = ratio_of(matches as u64, alnlen as u64);
        assert(identity <= 0xFFFF_FFFF * 1_000_000) by (nonlinear_arith)
            requires
                identity <= matches as nat * SCALE as nat,
                matches <= 0xFFFF_FFFF,
                SCALE == 1_000_000,
        ;
        PafRecord {
            qname,
            qstart,
            qend,
            tname,
            tstart,
            tend,
            matches,
            alnlen,
            mapq,
            identity: identity as u64,
            strand,
        }
    }
}

/// What is wrong with a malformed record.
#[derive(Debug, Clone, Copy, PartialEq, Eq, Structural)]
pub enum PafErrorKind {
    /// The record has fewer than the twelve mandatory fields.
    FieldCount,
    /// A length, a coordinate, a count or the mapping quality is not a
    /// number in its range.
    Number,
    /// The strand is neither `+` nor `-`.
    Strand,
}

/// A malformed record, with its position among the lines counted from 0.
#[derive(Debug, Clone, Copy, PartialEq, Eq, Structural)]
pub struct PafError {
    pub line: usize,
    pub kind: PafErrorKind,
}

/// Whether the field `k` of a record is a number of at most `max`.
pub open spec fn is_number(f: Seq<Seq<char>>, k: int, max: nat) -> bool {
    parse_unsigned(f[k], max) is Some
}

/// The number in the field `k` of a record.
pub open spec fn number_at(f: Seq<Seq<char>>, k: int, max: nat) -> nat {
    parse_unsigned(f[k], max)->0
}

/// The hit that one line describes.
///
/// White space at the two ends of the line does not count.  The line must
/// have twelve fields or more, with tabs between them: query name, length,
/// start and end, strand, target name, length, start and end, number of
/// matches, length of the alignment block, mapping quality.  What follows
/// the twelfth field is not read.  The strand is the first character of its
/// field.
pub open spec fn parse_record(line: Seq<char>) -> Result<Hit, PafErrorKind> {
    let f = split(trim(line), '\t');
    let m = u32::MAX as nat;
    if f.len() < 12 {
        Err(PafErrorKind::FieldCount)
    } else if !is_number(f, 1, m) || !is_number(f, 2, m) || !is_number(f, 3, m) {
        Err(PafErrorKind::Number)
    } else if f[4].len() == 0 || (f[4][0] != '+' && f[4][0] != '-') {
        Err(PafErrorKind::Strand)
    } else if !is_number(f, 6, m) || !is_number(f, 7, m) || !is_number(f, 8, m) || !is_number(
        f,
        9,
        m,
    ) || !is_number(f, 10, m) || !is_number(f, 11, 0xFF) {
        Err(PafErrorKind::Number)
    } else {
        Ok(
            Hit {
                qname: f[0],
                qstart: number_at(f, 2, m) as u32,
                qend: number_at(f, 3, m) as u32,
                tname: f[5],
                tstart: number_at(f, 7, m) as u32,
                tend: number_at(f, 8, m) as u32,
                matches: number_at(f, 9, m) as u32,
                alnlen: number_at(f, 10, m) as u32,
                mapq: number_at(f, 11, 0xFF) as u8,
                identity: identity_of(number_at(f, 9, m) as u32, number_at(f, 10, m) as u32) as u64,
                strand: f[4][0],
            },
        )
    }
}

/// Whether a hit passes the filter: its identity and its alignment block
/// length are not below the two minima.
pub open spec fn passes(h: Hit, min_id: u64, min_len: u32) -> bool {
    h.identity >= min_id && h.alnlen >= min_len
}

/// The hits that the first `n` lines give and that pass the filter, in the
/// order of the lines; or the first malformed record among those lines.
pub open spec fn hits_upto(ls: Seq<Seq<char>>, min_id: u64, min_len: u32, n: nat) -> Result<
    Seq<Hit>,
    PafError,
>
    recommends
        n <= ls.len(),
    decreases n,
{
    if n == 0 {
        Ok(Seq::empty())
    } else {
        match hits_upto(ls, min_id, min_len, (n - 1) as nat) {
            Err(e) => Err(e),
            Ok(before) => match parse_record(ls[n - 1]) {
                Err(kind) => Err(PafError { line: (n - 1) as usize, kind }),
                Ok(h) => if passes(h, min_id, min_len) {
                    Ok(before.push(h))
                } else {
                    Ok(before)
                },
            },
        }
    }
}

/// The hits that an alignment file gives and that pass the filter.
pub open spec fn hits_of(file: Seq<char>, min_id: u64, min_len: u32) -> Result<Seq<Hit>, PafError> {
    hits_upto(lines(file), min_id, min_len, lines(file).len())
}

/// The number in the field `k` of a record.
fn field_number(f: &Vec<Vec<char>>, k: usize, max: u64) -> (r: Option<u64>)
    requires
        k < f.len(),
    ensures
        r is Some <==> is_number(rows(f@), k as int, max as nat),
        r is Some ==> r->0 == number_at(rows(f@), k as int, max as nat),
        r is Some ==> r->0 <= max,
{
    assert(rows(f@)[k as int] == f[k as int]@);
    parse_unsigned_max(&f[k], max)
}

/// The hit that `line` describes.
pub fn parse_line(line: &Vec<char>) -> (r: Result<PafRecord, PafErrorKind>)
    ensures
        match parse_record(line@) {
            Ok(h) => r is Ok && r->Ok_0@ == h,
            Err(kind) => r == Err::<PafRecord, PafErrorKind>(kind),
        },
{
    let body = trimmed(line);
    let f = split_fields(&body, '\t');
    let m: u64 = u32::MAX as u64;
    if f.len() < 12 {
        return Err(PafErrorKind::FieldCount);
    }
    let qlen = field_number(&f, 1, m);
    let qstart = field_number(&f, 2, m);
    let qend = field_number(&f, 3, m);
    if qlen.is_none() || qstart.is_none() || qend.is_none() {
        return Err(PafErrorKind::Number);
    }
    assert(rows(f@)[4] == f[4]@);
    if f[4].len() == 0 || (f[4][0] != '+' && f[4][0] != '-') {
        return Err(PafErrorKind::Strand);
    }
    let strand = f[4][0];
    let tlen = field_number(&f, 6, m);
    let tstart = field_number(&f, 7, m);
    let tend = field_number(&f, 8, m);
    let matches = field_number(&f, 9, m);
    let alnlen = field_number(&f, 10, m);
    let mapq = field_number(&f, 11, 0xFF);
    if tlen.is_none() || tstart.is_none() || tend.is_none() || matches.is_none() || alnlen.is_none()
        || mapq.is_none() {
        return Err(PafErrorKind::Number);
    }
    assert(rows(f@)[0] == f[0]@);
    assert(rows(f@)[5] == f[5]@);
    Ok(
        PafRecord::from_fields(
            string_of(&f[0]),
            qstart.unwrap() as u32,
            qend.unwrap() as u32,
            strand,
            string_of(&f[5]),
            tstart.unwrap() as u32,
            tend.unwrap() as u32,
            matches.unwrap() as u32,
            alnlen.unwrap() as u32,
            mapq.unwrap() as u8,
        ),
    )
}

/// Reads the hits of an alignment file and keeps those with an identity of
/// at least `min_id` (in millionths) and an alignment block of at least
/// `min_len`.  A malformed record is not passed over: the first one is
/// reported as the error.
pub fn read_paf(file: &str, min_id: u64, min_len: u32) -> (r: Result<Vec<PafRecord>, PafError>)
    ensures
        match hits_of(file@, min_id, min_len) {
            Ok(v) => r is Ok && hits(r->Ok_0@) == v,
            Err(e) => r == Err::<Vec<PafRecord>, PafError>(e),
        },
{
    let text = chars_of(file);
    let ls = split_lines(&text);
    let mut out: Vec<PafRecord> = Vec::new();
    let mut i: usize = 0;
    assert(hits(out@) =~= Seq::<Hit>::empty());
    while i < ls.len()
        invariant
            i <= ls.len(),
            rows(ls@) == lines(file@),
            hits_upto(rows(ls@), min_id, min_len, i as nat) == Ok::<Seq<Hit>, PafError>(hits(out@)),
        decreases ls.len() - i,
    {
        assert(rows(ls@)[i as int] == ls[i as int]@);
        match parse_line(&ls[i]) {
            Ok(rec) => {
                if rec.identity >= min_id && rec.alnlen >= min_len {
                    let ghost before = hits(out@);
                    out.push(rec);
                    assert(hits(out@) =~= before.push(rec@));
                }
            },
            Err(kind) => {
                proof {
                    let stop = PafError { line: i, kind };
                    assert(hits_upto(rows(ls@), min_id, min_len, (i + 1) as nat) == Err::<
                        Seq<Hit>,
                        PafError,
                    >(stop));
                    lemma_error_stays(rows(ls@), min_id, min_len, (i + 1) as nat, ls.len() as nat);
                }
                return Err(PafError { line: i, kind });
            },
        }
        i += 1;
    }
    Ok(out)
}

/// Once a malformed record has been met, more lines do not change the error.
proof fn lemma_error_stays(ls: Seq<Seq<char>>, min_id: u64, min_len: u32, n: nat, m: nat)
    requires
        n <= m,
        hits_upto(ls, min_id, min_len, n) is Err,
    ensures
        hits_upto(ls, min_id, min_len, m) == hits_upto(ls, min_id, min_len, n),
    decreases m - n,
{
    if n < m {
        lemma_error_stays(ls, min_id, min_len, n, (m - 1) as nat);
    }
}

/// The best identity for the hit `driver`, in millionths: the largest among
/// its own and those of the first `n` hits of `recips` that go the other way
/// between the same two sequences.
pub open spec fn best_identity(driver: Hit, recips: Seq<Hit>, n: nat) -> u64
    recommends
        n <= recips.len(),
    decreases n,
{
    if n == 0 {
        driver.identity
    } else {
        let before = best_identity(driver, recips, (n - 1) as nat);
        let b = recips[n - 1];
        if is_reciprocal(driver, b) && b.identity > before {
            b.identity
        } else {
            before
        }
    }
}

/// Whether `b` goes the other way between the two sequences of `driver`.
pub open spec fn is_reciprocal(driver: Hit, b: Hit) -> bool {
    b.qname == driver.tname && b.tname == driver.qname
}

/// The best identity is the identity of the hit or of one of its reciprocal
/// hits, and none of those is larger.
pub proof fn lemma_best_identity_is_max(driver: Hit, recips: Seq<Hit>, n: nat)
    requires
        n <= recips.len(),
    ensures
        best_identity(driver, recips, n) >= driver.identity,
        forall|k: int|
            0 <= k < n && is_reciprocal(driver, #[trigger] recips[k]) ==> best_identity(
                driver,
                recips,
                n,
            ) >= recips[k].identity,
        best_identity(driver, recips, n) == driver.identity || exists|k: int|
            0 <= k < n && is_reciprocal(driver, #[trigger] recips[k]) && best_identity(
                driver,
                recips,
                n,
            ) == recips[k].identity,
    decreases n,
{
    if n > 0 {
        lemma_best_identity_is_max(driver, recips, (n - 1) as nat);
        let before = best_identity(driver, recips, (n - 1) as nat);
        if before != driver.identity && !(is_reciprocal(driver, recips[n - 1]) && recips[n
            - 1].identity > before) {
            let k = choose|k: int|
                0 <= k < n - 1 && is_reciprocal(driver, #[trigger] recips[k]) && before
                    == recips[k].identity;
            assert(0 <= k < n);
        }
    }
}

/// The id of the locus at position `index`, counted from 0: `P` and the
/// position counted from 1, with zeros in front up to six digits.
pub open spec fn pair_id_of(index: nat) -> Seq<char> {
    seq!['P'] + padded(index + 1, 6)
}

/// Loci at different positions have different ids.
pub proof fn lemma_pair_ids_distinct(i: nat, j: nat)
    requires
        i != j,
    ensures
        pair_id_of(i) != pair_id_of(j),
{
    lemma_padded_value(i + 1, 6);
    lemma_padded_value(j + 1, 6);
    if pair_id_of(i) == pair_id_of(j) {
        assert(pair_id_of(i).drop_first() =~= padded(i + 1, 6));
        assert(pair_id_of(j).drop_first() =~= padded(j + 1, 6));
        assert(digits_value(padded(i + 1, 6)) == digits_value(padded(j + 1, 6)));
    }
}

/// The id of a locus holds neither tab nor line feed.
pub proof fn lemma_pair_id_plain(index: nat)
    ensures
        free_of(pair_id_of(index), '\t'),
        free_of(pair_id_of(index), '\n'),
{
    lemma_padded_value(index + 1, 6);
    let id = pair_id_of(index);
    let number = padded(index + 1, 6);
    assert forall|x: int| 0 <= x < id.len() implies id[x] != '\t' && id[x] != '\n' by {
        if x > 0 {
            assert(id[x] == number[x - 1]);
            assert(crate::text::is_digit(number[x - 1]));
        }
    }
}

/// The smaller of two coordinates.
pub open spec fn lower(a: u32, b: u32) -> u32 {
    if a <= b {
        a
    } else {
        b
    }
}

/// The larger of two coordinates.
pub open spec fn upper(a: u32, b: u32) -> u32 {
    if a <= b {
        b
    } else {
        a
    }
}

/// The locus that the hit `driver` at position `index` gives: the query is
/// the mitochondrial side and the target the nuclear side, each interval
/// put in ascending order.
pub open spec fn paired_locus(driver: Hit, recips: Seq<Hit>, index: nat) -> Locus {
    Locus {
        pair_id: pair_id_of(index),
        nuc_contig: driver.tname,
        nuc_start: lower(driver.tstart, driver.tend),
        nuc_end: upper(driver.tstart, driver.tend),
        mito_contig: driver.qname,
        mito_start: lower(driver.qstart, driver.qend),
        mito_end: upper(driver.qstart, driver.qend),
        aln_len: driver.alnlen,
        aln_ident: best_identity(driver, recips, recips.len()),
    }
}

/// The loci that the hits `drivers` give with the reciprocal hits `recips`.
pub open spec fn paired(drivers: Seq<Hit>, recips: Seq<Hit>) -> Seq<Locus> {
    Seq::new(drivers.len(), |i: int| paired_locus(drivers[i], recips, i as nat))
}

/// The ids and the intervals of the loci depend on the driving hits and on
/// their order alone: other reciprocal hits change at most the identities.
pub proof fn lemma_pairing_ignores_reciprocals(
    drivers: Seq<Hit>,
    recips: Seq<Hit>,
    others: Seq<Hit>,
    i: int,
)
    requires
        0 <= i < drivers.len(),
    ensures
        paired(drivers, recips).len() == paired(drivers, others).len() == drivers.len(),
        paired(drivers, recips)[i].pair_id == pair_id_of(i as nat),
        paired(drivers, recips)[i] == (Locus {
            aln_ident: paired(drivers, recips)[i].aln_ident,
            ..paired(drivers, others)[i]
        }),
{
}

/// A hit that was read has the identity that its matches and its alignment
/// block give.
pub proof fn lemma_parsed_identity(line: Seq<char>)
    requires
        parse_record(line) is Ok,
    ensures
        ({
            let h = parse_record(line)->Ok_0;
            &&& h.identity == identity_of(h.matches, h.alnlen)
            &&& h.alnlen == 0 ==> h.identity == 0
            &&& h.matches <= h.alnlen ==> h.identity <= SCALE
        }),
{
    let f = split(trim(line), '\t');
    let m = u32::MAX as nat;
    let matches = number_at(f, 9, m) as u32;
    let alnlen = number_at(f, 10, m) as u32;
    lemma_identity_unit(matches, alnlen);
    assert(identity_of(matches, alnlen) <= u32::MAX * 1_000_000) by (nonlinear_arith)
        requires
            identity_of(matches, alnlen) == ratio(matches as nat, alnlen as nat),
            ratio(matches as nat, alnlen as nat) <= matches as nat * 1_000_000,
            matches <= u32::MAX,
    ;
}

/// The intervals of a locus are in ascending order, and its identity is at
/// most one if that of the hit and of its reciprocal hits is.
pub proof fn lemma_paired_locus_bounds(driver: Hit, recips: Seq<Hit>, index: nat)
    requires
        driver.identity <= SCALE,
        forall|k: int| 0 <= k < recips.len() ==> (#[trigger] recips[k]).identity <= SCALE,
    ensures
        paired_locus(driver, recips, index).nuc_start <= paired_locus(
            driver,
            recips,
            index,
        ).nuc_end,
        paired_locus(driver, recips, index).mito_start <= paired_locus(
            driver,
            recips,
            index,
        ).mito_end,
        driver.identity <= paired_locus(driver, recips, index).aln_ident <= SCALE,
{
    lemma_best_identity_is_max(driver, recips, recips.len());
}

/// The best identity for `driver` among its own and its reciprocal hits.
fn best_of(driver: &PafRecord, recips: &Vec<PafRecord>) -> (r: u64)
    ensures
        r == best_identity(driver@, hits(recips@), recips.len() as nat),
{
    let mut best = driver.identity;
    let mut k: usize = 0;
    while k < recips.len()
        invariant
            k <= recips.len(),
            best == best_identity(driver@, hits(recips@), k as nat),
        decreases recips.len() - k,
    {
        let b = &recips[k];
        assert(hits(recips@)[k as int] == b@);
        if b.qname == driver.tname && b.tname == driver.qname && b.identity > best {
            best = b.identity;
        }
        k += 1;
    }
    best
}

/// Pairs each driving hit (mitochondrial query on nuclear target) with its
/// reciprocal hits (nuclear query on mitochondrial target), and gives one
/// locus for each driving hit, in their order.  Neighbouring hits are not
/// merged, whatever the gap.
pub fn pair_and_merge(m2n: &Vec<PafRecord>, n2m: Vec<PafRecord>, _merge_gap: u32) -> (r: Vec<
    PairedLocus,
>)
    ensures
        loci(r@) == paired(hits(m2n@), hits(n2m@)),
{
    let mut out: Vec<PairedLocus> = Vec::new();
    let mut i: usize = 0;
    while i < m2n.len()
        invariant
            i <= m2n.len(),
            out.len() == i,
            forall|k: int|
                0 <= k < i ==> (#[trigger] out[k])@ == paired_locus(
                    hits(m2n@)[k],
                    hits(n2m@),
                    k as nat,
                ),
        decreases m2n.len() - i,
    {
        let rec = &m2n[i];
        assert(hits(m2n@)[i as int] == rec@);
        let ident = best_of(rec, &n2m);
        let mut pair_id = String::new();
        pair_id.push('P');
        push_padded(&mut pair_id, i as u128 + 1, 6);
        assert(pair_id@ =~= pair_id_of(i as nat));
        let (mito_start, mito_end) = if rec.qstart <= rec.qend {
            (rec.qstart, rec.qend)
        } else {
            (rec.qend, rec.qstart)
        };
        let (nuc_start, nuc_end) = if rec.tstart <= rec.tend {
            (rec.tstart, rec.tend)
        } else {
            (rec.tend, rec.tstart)
        };
        out.push(
            PairedLocus {
                pair_id,
                nuc_contig: rec.tname.clone(),
                nuc_start,
                nuc_end,
                mito_contig: rec.qname.clone(),
                mito_start,
                mito_end,
                aln_len: rec.alnlen,
                aln_ident: ident,
            },
        );
        i += 1;
    }
    assert(loci(out@) =~= paired(hits(m2n@), hits(n2m@)));
    out
}

} // verus!
