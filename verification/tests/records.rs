use rkvr::config::{default_cleanup_days, Config};
use rkvr::errors::ArchiveError;
use rkvr::metadata::{parse_metadata, render_metadata, split_lines, Metadata};
use rkvr::paths::{
    as_paths, bytes_eq, file_name_of, is_wf_abs_path, join_path, parent_of, relative_to,
};
use rkvr::recover::{
    batch_outcome, metadata_name, partition_batch, plan_batch_recovery, read_metadata,
    recovery_step, BatchEntry, RecoveryStage,
};
use rkvr::search::{classify_line, directory_matches, pattern_matches, LineKind};

fn v(s: &str) -> Vec<u8> {
    s.as_bytes().to_vec()
}

fn contains_sub(hay: &[u8], needle: &str) -> bool {
    let n = needle.as_bytes();
    hay.windows(n.len().max(1)).any(|w| w == n)
}

#[test]
fn file_name_and_parent() {
    assert_eq!(file_name_of(&v("/tmp/src/app.log")), v("app.log"));
    assert_eq!(parent_of(&v("/tmp/src/app.log")), v("/tmp/src"));
    assert_eq!(parent_of(&v("/app.log")), v("/"));
    assert_eq!(file_name_of(&v("plain")), v("plain"));
    assert_eq!(join_path(&v("/tmp/src"), &v("app.log")), v("/tmp/src/app.log"));
    assert_eq!(join_path(&v("/"), &v("app.log")), v("/app.log"));
}

#[test]
fn canonical_shape_check() {
    assert!(is_wf_abs_path(&v("/")));
    assert!(is_wf_abs_path(&v("/tmp/src/app.log")));
    assert!(!is_wf_abs_path(&v("")));
    assert!(!is_wf_abs_path(&v("relative/path")));
    assert!(!is_wf_abs_path(&v("/tmp//x")));
    assert!(!is_wf_abs_path(&v("/tmp/")));
}

#[test]
fn relative_paths() {
    assert_eq!(relative_to(&v("/tmp/src/deep/a.log"), &v("/tmp/src")), v("deep/a.log"));
    assert_eq!(relative_to(&v("/elsewhere/a.log"), &v("/tmp/src")), v("a.log"));
    assert_eq!(relative_to(&v("/a.log"), &v("/")), v("a.log"));
}

#[test]
fn test_as_paths() {
    let strings = vec![v("/tmp/file1.txt"), v("relative/file2.txt")];
    let home = v("/home/user");
    let paths = as_paths(&strings, &home);
    assert_eq!(paths.len(), 2);
    assert_eq!(paths[0], v("/tmp/file1.txt"));
    assert_eq!(paths[1], v("relative/file2.txt"));
}

#[test]
fn as_paths_expands_tilde() {
    let strings = vec![v("~/notes.txt")];
    let paths = as_paths(&strings, &v("/home/user"));
    assert_eq!(paths[0], v("/home/user/notes.txt"));
}

#[test]
fn bytes_eq_compares_contents() {
    assert!(bytes_eq(&v("abc"), &v("abc")));
    assert!(!bytes_eq(&v("abc"), &v("abd")));
    assert!(!bytes_eq(&v("abc"), &v("ab")));
}

#[test]
fn test_create_metadata() {
    let m = Metadata {
        cwd: v("/tmp/source"),
        targets: vec![v("test.txt")],
        contents: vec![v("test.txt  1000  12 B")],
    };
    let text = render_metadata(&m);
    assert!(contains_sub(&text, "cwd: /tmp/source"));
    assert!(contains_sub(&text, "- test.txt"));
    assert!(contains_sub(&text, "contents: |"));
}

#[test]
fn metadata_round_trips() {
    let m = Metadata {
        cwd: v("/tmp/src"),
        targets: vec![v("app.log"), v("error.log")],
        contents: vec![v("app.log"), v("error.log"), v("")],
    };
    let text = render_metadata(&m);
    let back = parse_metadata(&text).expect("rendered metadata parses");
    assert_eq!(back.cwd, v("/tmp/src"));
    assert_eq!(back.targets, vec![v("app.log"), v("error.log")]);
    assert_eq!(back.contents, vec![v("app.log"), v("error.log"), v("")]);
}

#[test]
fn metadata_round_trips_empty_targets() {
    let m = Metadata { cwd: v("/tmp"), targets: vec![], contents: vec![] };
    let text = render_metadata(&m);
    let back = parse_metadata(&text).expect("rendered metadata parses");
    assert_eq!(back.cwd, v("/tmp"));
    assert!(back.targets.is_empty());
    assert!(back.contents.is_empty());
}

#[test]
fn parse_accepts_bare_record() {
    let text = v("cwd: /tmp\ntargets: []\ncontents: |");
    let m = parse_metadata(&text).expect("minimal record parses");
    assert_eq!(m.cwd, v("/tmp"));
    assert!(m.targets.is_empty());
    assert!(m.contents.is_empty());
}

#[test]
fn multi_line_names_cannot_be_recorded() {
    let good = Metadata { cwd: v("/tmp"), targets: vec![v("a.txt")], contents: vec![v("a.txt")] };
    assert!(rkvr::metadata::metadata_is_single_line(&good));
    let bad_target =
        Metadata { cwd: v("/tmp"), targets: vec![v("a\nb.txt")], contents: vec![] };
    assert!(!rkvr::metadata::metadata_is_single_line(&bad_target));
    let bad_cwd = Metadata { cwd: v("/t\nmp"), targets: vec![], contents: vec![] };
    assert!(!rkvr::metadata::metadata_is_single_line(&bad_cwd));
}

#[test]
fn parse_rejects_foreign_text() {
    assert!(parse_metadata(&v("not a record")).is_none());
    assert!(parse_metadata(&v("")).is_none());
    assert!(parse_metadata(&v("cwd: /tmp\nbogus\ncontents: |")).is_none());
}

#[test]
fn split_lines_drops_terminators() {
    let lines = split_lines(&v("a\nbb\n\nc"));
    assert_eq!(lines, vec![v("a"), v("bb"), v(""), v("c")]);
    let lines = split_lines(&v("a\n"));
    assert_eq!(lines, vec![v("a")]);
    assert!(split_lines(&v("")).is_empty());
}

#[test]
fn corrupt_metadata_is_fatal_for_the_batch() {
    match read_metadata(&v("/r/1700"), &v("garbage")) {
        Err(ArchiveError::MetadataCorrupt { batch }) => assert_eq!(batch, v("/r/1700")),
        _ => panic!("expected MetadataCorrupt"),
    }
    assert!(read_metadata(&v("/r/1700"), &v("cwd: /tmp\ntargets: []\ncontents: |")).is_ok());
}

fn entry(name: &str, owner: u32) -> BatchEntry {
    BatchEntry { name: v(name), owner }
}

#[test]
fn recovery_partitions_batch_entries() {
    // targets list a.txt; the directory also holds a bundle and the record
    let entries = vec![entry("a.txt", 1000), entry("others.tar.gz", 1000), entry("metadata.yml", 1000)];
    let targets = vec![v("a.txt")];
    let (to_copy, to_extract) = partition_batch(&entries, &targets);
    assert_eq!(to_copy.len(), 1);
    assert_eq!(to_copy[0].name, v("a.txt"));
    assert_eq!(to_extract.len(), 1);
    assert_eq!(to_extract[0].name, v("others.tar.gz"));
}

#[test]
fn recovery_plan_restores_into_recorded_origin() {
    let entries = vec![entry("a.txt", 1000), entry("others.tar.gz", 1000), entry("metadata.yml", 1000)];
    let targets = vec![v("a.txt")];
    let (extracts, copies) =
        plan_batch_recovery(&v("/r/1700"), &entries, &v("/tmp/src"), &targets, 1000, false)
            .expect("user-owned batch recovers without elevation");
    assert_eq!(copies.len(), 1);
    assert_eq!(copies[0].src, v("/r/1700/a.txt"));
    assert_eq!(copies[0].dest, v("/tmp/src/a.txt"), "copied member returns to its origin");
    assert!(!copies[0].elevated);
    assert_eq!(extracts.len(), 1);
    assert_eq!(extracts[0].program, v("tar"));
    assert_eq!(extracts[0].args, vec![v("xzf"), v("/r/1700/others.tar.gz"), v("-C"), v("/tmp/src")]);
}

#[test]
fn recovery_denies_foreign_members_without_sudo() {
    let entries = vec![entry("b.tar.gz", 0), entry("metadata.yml", 1000)];
    let targets: Vec<Vec<u8>> = vec![];
    match plan_batch_recovery(&v("/r/1700"), &entries, &v("/tmp/src"), &targets, 1000, false) {
        Err(ArchiveError::PrivilegeDenied { path, owner }) => {
            assert_eq!(owner, 0);
            assert_eq!(path, v("/r/1700/b.tar.gz"), "the offending member is named");
        }
        _ => panic!("expected PrivilegeDenied"),
    }
    let (extracts, _) =
        plan_batch_recovery(&v("/r/1700"), &entries, &v("/tmp/src"), &targets, 1000, true)
            .expect("elevation permits the foreign bundle");
    assert_eq!(extracts[0].program, v("sudo"));
    assert!(extracts[0].args.contains(&v("--same-owner")));
}

#[test]
fn batch_deleted_only_after_full_restore() {
    assert!(batch_outcome(&v("/r/1700"), 2, 2).is_ok());
    match batch_outcome(&v("/r/1700"), 1, 2) {
        Err(ArchiveError::PartialRecovery { batch }) => assert_eq!(batch, v("/r/1700")),
        _ => panic!("expected PartialRecovery"),
    }
}

#[test]
fn recovery_stages_advance_in_order() {
    let s = RecoveryStage::Located;
    let s = recovery_step(s, true);
    assert!(matches!(s, RecoveryStage::MetadataLoaded));
    let s = recovery_step(s, true);
    assert!(matches!(s, RecoveryStage::MembersPartitioned));
    let s = recovery_step(s, true);
    assert!(matches!(s, RecoveryStage::MembersRestored));
    let s = recovery_step(s, true);
    assert!(matches!(s, RecoveryStage::BatchRemoved));
}

#[test]
fn failed_step_keeps_the_batch() {
    let s = recovery_step(RecoveryStage::MembersPartitioned, false);
    assert!(matches!(s, RecoveryStage::MembersPartitioned));
    let s = recovery_step(RecoveryStage::MembersRestored, false);
    assert!(!matches!(s, RecoveryStage::BatchRemoved));
}

#[test]
fn metadata_file_name() {
    assert_eq!(metadata_name(), v("metadata.yml"));
}

#[test]
fn listing_selects_by_fuzzy_match() {
    let name = v("1700000000");
    let path = v("/var/tmp/rmrf/1700000000");
    let lines = vec![v("cwd: /tmp/source"), v("- app.log")];
    // an exact pattern matches the directory name
    assert!(pattern_matches(&name, &path, &lines, &v("1700000000"), 70));
    // a pattern found nowhere matches nothing
    assert!(!pattern_matches(&name, &path, &lines, &v("zzqqzz"), 70));
    // an empty query lists every directory
    assert!(directory_matches(&name, &path, &lines, &vec![], 70));
    assert!(directory_matches(&name, &path, &lines, &vec![v("1700000000")], 70));
    assert!(!directory_matches(&name, &path, &lines, &vec![v("zzqqzz")], 70));
}

#[test]
fn listing_orders_newest_first() {
    let names = vec![v("1700000000"), v("1700000002"), v("1700000001")];
    let sorted = rkvr::search::sort_names_desc(names);
    assert_eq!(sorted, vec![v("1700000002"), v("1700000001"), v("1700000000")]);
    assert!(rkvr::search::sort_names_desc(vec![]).is_empty());
}

#[test]
fn metadata_lines_classified_for_display() {
    assert!(matches!(classify_line(&v("cwd: /tmp/src")), LineKind::CwdLine));
    assert!(matches!(classify_line(&v("targets:")), LineKind::TargetsLine));
    assert!(matches!(classify_line(&v("contents: |")), LineKind::ContentsLine));
    assert!(matches!(classify_line(&v("- app.log")), LineKind::ItemLine));
    assert!(matches!(classify_line(&v("  app.log  12 B")), LineKind::IndentedLine));
    assert!(matches!(classify_line(&v("   ")), LineKind::PlainLine));
    assert!(matches!(classify_line(&v("something else")), LineKind::PlainLine));
}

#[test]
fn config_defaults() {
    assert_eq!(default_cleanup_days(), 30);
    let c = Config::assemble(None, None, None, v("/home/user/.local/share/rkvr/archive"));
    assert_eq!(c.cleanup_days, 30);
    assert!(!c.auto_cleanup);
    assert_eq!(c.archive_location, v("/home/user/.local/share/rkvr/archive"));
}

#[test]
fn config_partial_file_keeps_other_defaults() {
    let c = Config::assemble(Some(15), None, None, v("/d"));
    assert_eq!(c.cleanup_days, 15);
    assert!(!c.auto_cleanup);
    assert_eq!(c.archive_location, v("/d"));
}

#[test]
fn config_full_file_overrides_everything() {
    let c = Config::assemble(Some(45), Some(true), Some(v("/tmp/test_archive")), v("/d"));
    assert_eq!(c.cleanup_days, 45);
    assert!(c.auto_cleanup);
    assert_eq!(c.archive_location, v("/tmp/test_archive"));
}
