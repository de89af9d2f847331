use onsm::io::runfiles::{ensure_exists, InputError};
use onsm::model::RunManifest;
use onsm::subcommands::classify::CmdClassify;
use onsm::subcommands::dump::{CmdDump, DumpError};
use onsm::subcommands::reuse::CmdReuse;
use onsm::subcommands::syscheck::version;
use onsm::util::mapping::{get_version, preset_for, resolve_bin, ToolNotFound};
use std::path::Path;

#[test]
fn exists_ok() {
    ensure_exists(true, true).unwrap();
}

#[test]
fn missing_err() {
    let p = Path::new("/nope/nope/nope");
    let e = ensure_exists(p.exists(), p.is_file()).unwrap_err();
    assert!(e.message("/nope/nope/nope").contains("input not found"));
}

#[test]
fn inputs_must_be_regular_files() {
    assert_eq!(ensure_exists(false, false), Err(InputError::NotFound));
    assert_eq!(ensure_exists(false, true), Err(InputError::NotFound));
    assert_eq!(ensure_exists(true, false), Err(InputError::NotAFile));
    assert_eq!(ensure_exists(true, true), Ok(()));
    assert_eq!(InputError::NotFound.message("reads.fq"), "input not found: reads.fq");
    assert_eq!(InputError::NotAFile.message("/tmp"), "not a file: /tmp");
}

#[test]
fn preset_selection() {
    // no actual spawn, just exercise error branch
    let e = preset_for("bad").unwrap_err();
    assert!(e.message("bad").contains("unknown --platform"));
}

#[test]
fn preset_follows_the_platform() {
    assert_eq!(preset_for("hifi"), Ok("map-hifi"));
    assert_eq!(preset_for("ont"), Ok("map-ont"));
    assert!(preset_for("").is_err());
    assert!(preset_for("HiFi").is_err());
    assert_eq!(preset_for("x").unwrap_err().message("x"), "unknown --platform x; use hifi|ont");
}

#[test]
fn a_given_tool_path_wins_over_the_search_path() {
    assert_eq!(resolve_bin(Some("/opt/mm2"), Some("/usr/bin/minimap2")), Ok("/opt/mm2".to_string()));
    assert_eq!(resolve_bin(Some("/definitely/not/here"), None), Ok("/definitely/not/here".to_string()));
    assert_eq!(resolve_bin(None, Some("/usr/bin/minimap2")), Ok("/usr/bin/minimap2".to_string()));
    assert_eq!(resolve_bin(None, None), Err(ToolNotFound));
    assert_eq!(
        ToolNotFound.message("minimap2"),
        "minimap2 not found in PATH. Install or pass --minimap2"
    );
}

#[test]
fn tool_version_is_the_first_line_it_prints() {
    assert_eq!(get_version("2.28-r1209\n"), "2.28-r1209");
    assert_eq!(get_version("samtools 1.19\nUsing htslib 1.19\n"), "samtools 1.19");
    assert_eq!(get_version(""), "");
    assert_eq!(get_version("\nlater"), "");
}

#[test]
fn compiler_version_is_reported_if_recorded() {
    assert_eq!(version(None), "unknown");
    assert_eq!(version(Some("1.79.0")), "1.79.0");
    assert_eq!(version(Some("")), "");
}

fn classify(threads: Option<usize>) -> CmdClassify {
    CmdClassify {
        mito: "mito.fa".into(),
        nuclear: "nuc.fa".into(),
        reads: vec!["a.fq".into(), "b.fq.gz".into()],
        platform: "ont".into(),
        out: "out".into(),
        minimap2: None,
        samtools: None,
        threads,
        keep_tmp: false,
    }
}

#[test]
fn threads_are_capped_unless_asked_for() {
    assert_eq!(classify(Some(64)).threads_for(Some(8)), 64);
    assert_eq!(classify(Some(0)).threads_for(None), 0);
    assert_eq!(classify(None).threads_for(Some(8)), 8);
    assert_eq!(classify(None).threads_for(Some(16)), 16);
    assert_eq!(classify(None).threads_for(Some(128)), 16);
    assert_eq!(classify(None).threads_for(None), 4);
}

#[test]
fn manifest_records_inputs_and_thresholds() {
    let m = classify(None).manifest(6);
    assert_eq!((m.mito.as_str(), m.nuclear.as_str(), m.platform.as_str()), ("mito.fa", "nuc.fa", "ont"));
    assert_eq!(m.reads, vec!["a.fq", "b.fq.gz"]);
    assert_eq!(m.threads, 6);
    assert_eq!((m.min_id, m.min_len, m.merge_gap, m.flank_bp, m.win_bp), (900_000, 100, 50, 500, 250));
    let m = RunManifest::new("m", "n", &vec![], "hifi", 1, 950_000, 2, 3, 4, 5);
    assert_eq!((m.mito.as_str(), m.nuclear.as_str(), m.platform.as_str()), ("m", "n", "hifi"));
    assert_eq!(m.reads.len(), 0);
    assert_eq!((m.threads, m.min_id, m.min_len, m.merge_gap, m.flank_bp, m.win_bp), (1, 950_000, 2, 3, 4, 5));
}

#[test]
fn rescoring_names_the_first_missing_file() {
    assert_eq!(
        CmdReuse::artifacts(),
        ["mito_to_nuc.paf", "nuc_to_mito.paf", "reads_to_nuc.bam", "reads_to_mito.bam"]
    );
    assert_eq!(CmdReuse::first_missing(&[true, true, true, true]), None);
    assert_eq!(CmdReuse::first_missing(&[false, false, true, false]), Some("mito_to_nuc.paf"));
    assert_eq!(CmdReuse::first_missing(&[true, false, true, false]), Some("nuc_to_mito.paf"));
    assert_eq!(CmdReuse::first_missing(&[true, true, false, false]), Some("reads_to_nuc.bam"));
    assert_eq!(CmdReuse::first_missing(&[true, true, true, false]), Some("reads_to_mito.bam"));
}

#[test]
fn lookup_finds_the_first_line_that_begins_with_the_pair_id() {
    let cmd = |pair: &str| CmdDump { run: "out".into(), pair: pair.into(), fasta_out: None, json: None };
    let table = "pair_id\tcall\nP000010\tx\nP000001\ty\nP0000011\tz\n";
    assert_eq!(
        cmd("P000001").select(table),
        Ok(("pair_id\tcall".to_string(), "P000001\ty".to_string()))
    );
    assert_eq!(
        cmd("P00001").select(table),
        Ok(("pair_id\tcall".to_string(), "P000010\tx".to_string()))
    );
    assert_eq!(
        cmd("").select(table),
        Ok(("pair_id\tcall".to_string(), "P000010\tx".to_string()))
    );
    assert_eq!(cmd("P000002").select(table), Err(DumpError::PairNotFound));
    // the header is not searched
    assert_eq!(cmd("pair_id").select(table), Err(DumpError::PairNotFound));
    assert_eq!(cmd("").select(""), Err(DumpError::PairNotFound));
    assert_eq!(cmd("").select("only a header\n"), Err(DumpError::PairNotFound));
}
