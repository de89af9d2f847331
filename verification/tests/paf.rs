use onsm::io::paf::{pair_and_merge, read_paf, PafError, PafErrorKind, PafRecord};
use paf::{PafRecord as R, Tag, Type, Writer};
use std::collections::HashMap;

#[test]
fn read_filter_roundtrip() {
    let mut file: Vec<u8> = Vec::new();
    {
        let mut w = Writer::new(&mut file);
        let mut opt = HashMap::new();
        opt.insert("tp".to_string(), Tag::tp(Type::Char('P')));
        // matches=90, alnlen=100 → 0.9
        let rec = R::new(
            "mito1".to_string(),
            1000,
            0,
            100,
            '+',
            "chr1".to_string(),
            5000,
            1000,
            1100,
            90,
            100,
            60,
            opt,
        );
        w.write_record(&rec).unwrap();
    }
    let text = String::from_utf8(file).unwrap();
    let v = read_paf(&text, 900_000, 50).unwrap();
    assert_eq!(v.len(), 1);
    assert_eq!(v[0].qname, "mito1");
    assert_eq!(v[0].tname, "chr1");
}

const LINE: &str = "mito1\t1000\t0\t100\t+\tchr1\t5000\t1000\t1100\t90\t100\t60";

#[test]
fn record_fields_are_read_in_order() {
    let v = read_paf("m\t+16569\t20\t10\t-x\tchr2\t7\t4294967295\t0\t1\t3\t255\tNM:i:2\txx\n", 0, 0).unwrap();
    assert_eq!(v.len(), 1);
    let r = &v[0];
    assert_eq!((r.qname.as_str(), r.qstart, r.qend), ("m", 20, 10));
    assert_eq!((r.tname.as_str(), r.tstart, r.tend), ("chr2", 4294967295, 0));
    assert_eq!((r.matches, r.alnlen, r.mapq, r.strand), (1, 3, 255, '-'));
    assert_eq!(r.identity, 333_333);
}

#[test]
fn identity_is_the_share_of_matches() {
    let id = |m: u32, a: u32| {
        PafRecord::from_fields("q".into(), 0, 0, '+', "t".into(), 0, 0, m, a, 0).identity
    };
    assert_eq!(id(90, 100), 900_000);
    assert_eq!(id(100, 100), 1_000_000);
    assert_eq!(id(0, 100), 0);
    assert_eq!(id(5, 0), 0);
    assert_eq!(id(0, 0), 0);
    assert_eq!(id(2, 3), 666_666);
    assert_eq!(id(5, 3), 1_666_666);
    assert_eq!(id(u32::MAX, 1), 4_294_967_295_000_000);
}

#[test]
fn records_below_a_minimum_are_dropped() {
    let file = format!("{LINE}\n{LINE}");
    assert_eq!(read_paf(&file, 900_000, 100).unwrap().len(), 2);
    assert_eq!(read_paf(&file, 900_001, 100).unwrap().len(), 0);
    assert_eq!(read_paf(&file, 900_000, 101).unwrap().len(), 0);
    assert_eq!(read_paf("", 0, 0).unwrap().len(), 0);
    let mixed = "a\t1\t0\t1\t+\tb\t1\t0\t1\t1\t2\t0\nc\t1\t0\t1\t+\td\t1\t0\t1\t2\t2\t0\r\n";
    let v = read_paf(mixed, 600_000, 0).unwrap();
    assert_eq!(v.len(), 1);
    assert_eq!(v[0].qname, "c");
}

fn error_of(file: &str) -> PafError {
    read_paf(file, 0, 0).unwrap_err()
}

#[test]
fn malformed_records_are_reported_with_their_line() {
    assert_eq!(error_of("\n"), PafError { line: 0, kind: PafErrorKind::FieldCount });
    assert_eq!(
        error_of(&format!("{LINE}\n{LINE}\n\n{LINE}\n")),
        PafError { line: 2, kind: PafErrorKind::FieldCount }
    );
    assert_eq!(
        error_of("mito1\t1000\t0\t100\t+\tchr1\t5000\t1000\t1100\t90\t100"),
        PafError { line: 0, kind: PafErrorKind::FieldCount }
    );
    // a tab at the end of the line does not count as a field
    assert_eq!(
        error_of("mito1\t1000\t0\t100\t+\tchr1\t5000\t1000\t1100\t90\t100\t\n"),
        PafError { line: 0, kind: PafErrorKind::FieldCount }
    );
    assert_eq!(
        error_of(&format!("{LINE}\nmito1\t1000\t-1\t100\t+\tchr1\t5000\t1000\t1100\t90\t100\t60\n")),
        PafError { line: 1, kind: PafErrorKind::Number }
    );
    assert_eq!(
        error_of("mito1\t1000\t0\t100\t+\tchr1\t5000\t1000\t1100\t90\t100\t256\n"),
        PafError { line: 0, kind: PafErrorKind::Number }
    );
    assert_eq!(
        error_of("mito1\t1000\t0\t100\t+\tchr1\t4294967296\t1000\t1100\t90\t100\t60\n"),
        PafError { line: 0, kind: PafErrorKind::Number }
    );
    assert_eq!(
        error_of("mito1\t1000\t0\t100\t*\tchr1\t5000\t1000\t1100\t90\t100\t60\n"),
        PafError { line: 0, kind: PafErrorKind::Strand }
    );
    assert_eq!(
        error_of("mito1\t1000\t0\t100\t\tchr1\t5000\t1000\t1100\t90\t100\t60\n"),
        PafError { line: 0, kind: PafErrorKind::Strand }
    );
    // the strand is looked at before the fields after it
    assert_eq!(
        error_of("mito1\t1000\t0\t100\t?\tchr1\tx\t1000\t1100\t90\t100\t60\n"),
        PafError { line: 0, kind: PafErrorKind::Strand }
    );
    assert_eq!(
        error_of("mito1\tx\t0\t100\t?\tchr1\t5000\t1000\t1100\t90\t100\t60\n"),
        PafError { line: 0, kind: PafErrorKind::Number }
    );
}

fn hit(q: &str, qs: u32, qe: u32, t: &str, ts: u32, te: u32, matches: u32, alnlen: u32) -> PafRecord {
    PafRecord::from_fields(q.into(), qs, qe, '+', t.into(), ts, te, matches, alnlen, 60)
}

#[test]
fn pairing_gives_one_locus_for_each_driving_hit() {
    let m2n = vec![
        hit("m1", 300, 100, "chr1", 1000, 1200, 180, 200),
        hit("m1", 100, 300, "chr2", 50, 10, 190, 200),
        hit("m2", 0, 5, "chr1", 7, 7, 5, 5),
    ];
    let n2m = vec![
        hit("chr1", 0, 0, "m1", 0, 0, 95, 100),
        hit("chr1", 0, 0, "m1", 0, 0, 99, 100),
        hit("chr1", 0, 0, "m1", 0, 0, 97, 100),
        hit("chr2", 0, 0, "m1", 0, 0, 90, 100),
        hit("m2", 0, 0, "chr1", 0, 0, 100, 100),
        hit("chr2", 0, 0, "m2", 0, 0, 100, 100),
    ];
    let loci = pair_and_merge(&m2n, n2m, 50);
    assert_eq!(loci.len(), 3);
    let ids: Vec<&str> = loci.iter().map(|l| l.pair_id.as_str()).collect();
    assert_eq!(ids, vec!["P000001", "P000002", "P000003"]);
    let l = &loci[0];
    assert_eq!((l.nuc_contig.as_str(), l.nuc_start, l.nuc_end), ("chr1", 1000, 1200));
    assert_eq!((l.mito_contig.as_str(), l.mito_start, l.mito_end), ("m1", 100, 300));
    assert_eq!((l.aln_len, l.aln_ident), (200, 990_000));
    let l = &loci[1];
    assert_eq!((l.nuc_contig.as_str(), l.nuc_start, l.nuc_end), ("chr2", 10, 50));
    assert_eq!(l.aln_ident, 950_000); // its own, above the reciprocal 0.90
    assert_eq!((loci[2].nuc_start, loci[2].nuc_end, loci[2].aln_ident), (7, 7, 1_000_000));
}

#[test]
fn pairing_is_deterministic() {
    let m2n = vec![hit("m1", 0, 10, "chr1", 0, 10, 9, 10), hit("m1", 5, 15, "chr1", 5, 15, 9, 10)];
    let with = pair_and_merge(&m2n, vec![hit("chr1", 0, 0, "m1", 0, 0, 10, 10)], 50);
    let again = pair_and_merge(&m2n, vec![hit("chr1", 0, 0, "m1", 0, 0, 10, 10)], 50);
    let without = pair_and_merge(&m2n, vec![], 0);
    for i in 0..2 {
        assert_eq!(with[i].pair_id, again[i].pair_id);
        assert_eq!(with[i].aln_ident, again[i].aln_ident);
        assert_eq!(with[i].pair_id, without[i].pair_id);
        assert_eq!(
            (with[i].nuc_start, with[i].nuc_end, with[i].mito_start, with[i].mito_end),
            (without[i].nuc_start, without[i].nuc_end, without[i].mito_start, without[i].mito_end)
        );
    }
    assert_eq!((with[0].aln_ident, without[0].aln_ident), (1_000_000, 900_000));
    assert_eq!(pair_and_merge(&vec![], vec![], 50).len(), 0);
}
