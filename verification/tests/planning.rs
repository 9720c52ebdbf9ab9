use rkvr::categorize::{categorize_paths, is_archive, Target};
use rkvr::cli::{plan_action, Action, ActionPlan, Args, StoreKind};
use rkvr::command::{build_status, create_tar_command, extract_command, plan_removal, RemovalPlan};
use rkvr::errors::ArchiveError;
use rkvr::plan::{dec_of, plan_archive, plan_directory_archive, plan_group_archive};
use rkvr::policy::{check_unit_policy, requires_escalation};
use rkvr::sweep::{sweep_decision, sweep_plan, SweepAction, SweepEntry};

fn v(s: &str) -> Vec<u8> {
    s.as_bytes().to_vec()
}

fn file(path: &str, owner: u32) -> Target {
    Target { path: v(path), owner, is_dir: false }
}

fn dir(path: &str, owner: u32) -> Target {
    Target { path: v(path), owner, is_dir: true }
}

fn args_contain(args: &[Vec<u8>], needle: &str) -> bool {
    args.iter().any(|a| a == &v(needle))
}

#[test]
fn test_categorize_paths_same_directory() {
    let targets = vec![file("/base/logs/app.log", 1000), file("/base/logs/error.log", 1000)];
    let root = v("/var/tmp/rmrf");
    let cat = categorize_paths(&targets, &root);
    assert_eq!(cat.directories.len(), 0, "Should have no directories");
    assert_eq!(cat.groups.len(), 1, "Should have one group");
    assert_eq!(cat.groups[0].files.len(), 2, "Group should contain both files");
    assert_eq!(cat.groups[0].parent, v("/base/logs"));
}

#[test]
fn test_categorize_paths_mixed_files_and_directories() {
    let targets = vec![file("/base/logs/app.log", 1000), dir("/base/project", 1000)];
    let root = v("/var/tmp/rmrf");
    let cat = categorize_paths(&targets, &root);
    assert_eq!(cat.directories.len(), 1, "Should have one directory");
    assert_eq!(cat.groups.len(), 1, "Should have one file group");
    assert_eq!(cat.directories[0].path, v("/base/project"), "Directory should match");
    assert_eq!(cat.groups[0].files.len(), 1, "File group should contain one file");
}

#[test]
fn categorize_rejects_the_destination_root() {
    let targets = vec![dir("/var/tmp/rmrf", 1000), file("/base/a.txt", 1000)];
    let root = v("/var/tmp/rmrf");
    let cat = categorize_paths(&targets, &root);
    assert_eq!(cat.rejected.len(), 1);
    assert_eq!(cat.rejected[0].path, v("/var/tmp/rmrf"));
    assert_eq!(cat.directories.len(), 0);
    assert_eq!(cat.groups.len(), 1);
}

#[test]
fn grouping_n_files_n_distinct_parents() {
    let targets = vec![
        file("/a/app.log", 1000),
        file("/b/system.log", 1000),
        file("/c/debug.log", 1000),
    ];
    let cat = categorize_paths(&targets, &v("/var/tmp/rmrf"));
    assert_eq!(cat.groups.len(), 3, "one batch per distinct parent directory");
}

#[test]
fn test_is_archive() {
    assert!(is_archive(&v("/tmp/test.tar.gz")), "Should recognize .tar.gz as archive");
    assert!(!is_archive(&v("/tmp/test.txt")), "Should not recognize .txt as archive");
    assert!(is_archive(&v("/tmp/a.ZIP")));
    assert!(is_archive(&v("/tmp/b.7z")));
    assert!(is_archive(&v("/tmp/c.tgz")));
    assert!(is_archive(&v("/tmp/d.xz")));
    assert!(!is_archive(&v("/tmp/.gz")));
    assert!(!is_archive(&v("/tmp/plain")));
}

#[test]
fn test_create_tar_command_relative_paths() {
    let tarball = v("/tmp/test.tar.gz");
    let cwd = v("/tmp/source");
    let targets = vec![v("file1.txt"), v("file2.txt")];
    let command = create_tar_command(false, &tarball, &cwd, &targets);
    assert_eq!(command.program, v("tar"));
    assert!(args_contain(&command.args, "file1.txt"));
    assert!(args_contain(&command.args, "file2.txt"));
}

#[test]
fn test_create_tar_command_with_sudo() {
    let tarball = v("/tmp/test.tar.gz");
    let cwd = v("/tmp/source");
    let targets = vec![v("file1.txt")];
    let command = create_tar_command(true, &tarball, &cwd, &targets);
    assert_eq!(command.program, v("sudo"));
    assert!(args_contain(&command.args, "tar"));
}

#[test]
fn tar_command_relativizes_absolute_targets() {
    let command = create_tar_command(
        false,
        &v("/tmp/out.tar.gz"),
        &v("/tmp/source"),
        &vec![v("/tmp/source/deep/file.log")],
    );
    assert_eq!(command.args, vec![
        v("-czf"),
        v("/tmp/out.tar.gz"),
        v("-C"),
        v("/tmp/source"),
        v("deep/file.log"),
    ]);
}

#[test]
fn escalation_decision() {
    let members = vec![file("/a/x", 1000), file("/a/y", 1000)];
    assert!(!requires_escalation(&members, 1000));
    let mixed = vec![file("/a/x", 1000), file("/a/y", 0)];
    assert!(requires_escalation(&mixed, 1000));
}

#[test]
fn policy_fails_closed_without_sudo() {
    let mixed = vec![file("/a/x", 1000), file("/a/y", 0)];
    match check_unit_policy(&mixed, 1000, false) {
        Err(ArchiveError::PrivilegeDenied { path, owner }) => {
            assert_eq!(path, v("/a/y"));
            assert_eq!(owner, 0);
        }
        other => panic!("expected PrivilegeDenied, got {:?}", other.is_ok()),
    }
    assert_eq!(check_unit_policy(&mixed, 1000, true).unwrap(), true);
    let own = vec![file("/a/x", 1000)];
    assert_eq!(check_unit_policy(&own, 1000, false).unwrap(), false);
}

#[test]
fn ownership_invariant_blocks_the_whole_unit() {
    // a foreign-owned member with elevation disabled: no plan, no artifact
    let group = rkvr::categorize::FileGroup {
        parent: v("/tmp/src"),
        files: vec![file("/tmp/src/app.log", 0)],
    };
    let res = plan_group_archive(&v("/tmp/rmrf"), 1700000000, &group, 1000, false);
    match res {
        Err(ArchiveError::PrivilegeDenied { path, owner }) => {
            assert_eq!(path, v("/tmp/src/app.log"));
            assert_eq!(owner, 0);
        }
        Ok(_) => panic!("unit must fail closed"),
        Err(_) => panic!("wrong error kind"),
    }
}

#[test]
fn single_file_archive_scenario() {
    // one loose file, destination root /tmp/rmrf, no elevation needed
    let group = rkvr::categorize::FileGroup {
        parent: v("/tmp/src"),
        files: vec![file("/tmp/src/app.log", 1000)],
    };
    let plan = plan_group_archive(&v("/tmp/rmrf"), 1700000000, &group, 1000, false).unwrap();
    assert_eq!(plan.base, v("/tmp/rmrf/1700000000"));
    assert_eq!(plan.cwd, v("/tmp/src"), "metadata cwd is the parent directory");
    assert_eq!(plan.meta_targets, vec![v("app.log")]);
    assert_eq!(plan.members, vec![v("/tmp/src/app.log")]);
    assert!(plan.copies.is_empty(), "a .log file is not copied verbatim");
    let bundle = plan.bundle.expect("one compressed bundle");
    assert_eq!(bundle.program, v("tar"));
    assert_eq!(bundle.args, vec![
        v("-czf"),
        v("/tmp/rmrf/1700000000/src.tar.gz"),
        v("-C"),
        v("/tmp/src"),
        v("app.log"),
    ]);
}

#[test]
fn group_splits_bundle_members_from_loose() {
    let group = rkvr::categorize::FileGroup {
        parent: v("/tmp/src"),
        files: vec![file("/tmp/src/app.log", 1000), file("/tmp/src/old.tar.gz", 1000)],
    };
    let plan = plan_group_archive(&v("/tmp/rmrf"), 42, &group, 1000, true).unwrap();
    assert_eq!(plan.copies.len(), 1, "the already-compressed file is copied verbatim");
    assert_eq!(plan.copies[0].src, v("/tmp/src/old.tar.gz"));
    assert_eq!(plan.copies[0].dest, v("/tmp/rmrf/42/old.tar.gz"));
    assert!(!plan.copies[0].elevated);
    let bundle = plan.bundle.expect("the loose file is bundled");
    assert!(args_contain(&bundle.args, "app.log"));
    assert!(!args_contain(&bundle.args, "old.tar.gz"));
}

#[test]
fn directory_of_only_compressed_files_yields_no_bundle() {
    // every descendant already compressed: the unit is a no-op bundle-wise,
    // but metadata (and later removal) still proceed
    let d = dir("/tmp/project", 1000);
    let members = vec![file("/tmp/project/a.tar.gz", 1000), file("/tmp/project/b.zip", 1000)];
    let plan = plan_directory_archive(&v("/tmp/rmrf"), 7, &d, &members, 1000, false).unwrap();
    assert!(plan.bundle.is_none(), "nothing left to bundle");
    assert_eq!(plan.meta_targets, vec![v("project")]);
    assert_eq!(plan.cwd, v("/tmp"));
    assert_eq!(plan.base, v("/tmp/rmrf/7"));
    // the same no-op holds for a foreign-owned directory once elevation is
    // permitted
    let foreign = dir("/tmp/project", 0);
    let plan = plan_directory_archive(&v("/tmp/rmrf"), 7, &foreign, &members, 1000, true).unwrap();
    assert!(plan.bundle.is_none());
}

#[test]
fn directory_with_loose_members_is_bundled() {
    let d = dir("/tmp/project", 1000);
    let members = vec![
        file("/tmp/project/README.md", 1000),
        file("/tmp/project/src/main.rs", 1000),
    ];
    let plan = plan_directory_archive(&v("/tmp/rmrf"), 7, &d, &members, 1000, false).unwrap();
    let bundle = plan.bundle.expect("loose members are bundled");
    assert_eq!(bundle.program, v("tar"));
    assert!(args_contain(&bundle.args, "project/README.md"));
    assert!(args_contain(&bundle.args, "project/src/main.rs"));
    assert!(args_contain(&bundle.args, "/tmp/rmrf/7/project.tar.gz"));
}

#[test]
fn foreign_directory_without_sudo_is_denied() {
    let d = dir("/tmp/project", 0);
    let members = vec![file("/tmp/project/README.md", 0)];
    match plan_directory_archive(&v("/tmp/rmrf"), 7, &d, &members, 1000, false) {
        Err(ArchiveError::PrivilegeDenied { path, owner }) => {
            assert_eq!(path, v("/tmp/project"));
            assert_eq!(owner, 0);
        }
        _ => panic!("expected PrivilegeDenied"),
    }
}

#[test]
fn invocation_reconstructs_original_paths() {
    // metadata.cwd joined with each recorded target name is exactly the
    // archived member's absolute path
    let targets = vec![
        file("/base/logs/app.log", 1000),
        file("/base/logs/error.log", 1000),
        dir("/base/project", 1000),
    ];
    let root = v("/var/tmp/rmrf");
    let cat = categorize_paths(&targets, &root);
    let dir_members = vec![vec![file("/base/project/main.rs", 1000)]];
    let plans = plan_archive(&root, 1700000000, &cat, &dir_members, 1000, true);
    assert_eq!(plans.len(), 2, "one batch per group plus one per directory");
    for p in plans {
        let p = p.unwrap();
        assert_eq!(p.members.len(), p.meta_targets.len());
        for (member, name) in p.members.iter().zip(p.meta_targets.iter()) {
            let mut joined = p.cwd.clone();
            joined.push(b'/');
            joined.extend_from_slice(name);
            assert_eq!(&joined, member);
        }
    }
}

#[test]
fn batch_identifiers_never_collide_within_an_invocation() {
    // enough same-parent groups that a directory id computed from a fixed
    // offset would collide with a late group id: twelve groups, two
    // directories
    let mut targets: Vec<Target> = (0..12)
        .map(|i| file(&format!("/p{}/x.log", i), 1000))
        .collect();
    targets.push(dir("/c", 1000));
    targets.push(dir("/d", 1000));
    let root = v("/var/tmp/rmrf");
    let cat = categorize_paths(&targets, &root);
    assert_eq!(cat.groups.len(), 12);
    assert_eq!(cat.directories.len(), 2);
    let dir_members = vec![vec![], vec![]];
    let plans = plan_archive(&root, 1000, &cat, &dir_members, 1000, true);
    assert_eq!(plans.len(), 14, "one batch per unit");
    let plans: Vec<_> = plans.into_iter().map(|p| p.unwrap()).collect();
    let mut ids: Vec<u64> = plans.iter().map(|p| p.id).collect();
    let before = ids.len();
    ids.sort();
    ids.dedup();
    assert_eq!(ids.len(), before, "identifiers are pairwise distinct");
    let mut bases: Vec<Vec<u8>> = plans.iter().map(|p| p.base.clone()).collect();
    bases.sort();
    bases.dedup();
    assert_eq!(bases.len(), before, "batch directories are pairwise distinct");
}

#[test]
fn dec_of_renders_decimal() {
    assert_eq!(dec_of(0), v("0"));
    assert_eq!(dec_of(42), v("42"));
    assert_eq!(dec_of(1234567890123456789), v("1234567890123456789"));
    assert_eq!(dec_of(u64::MAX), v("18446744073709551615"));
}

#[test]
fn build_status_verdicts() {
    assert!(build_status(&v("/tmp/rmrf/1/src.tar.gz"), 0).is_ok());
    match build_status(&v("/tmp/rmrf/1/src.tar.gz"), 2) {
        Err(ArchiveError::BuildFailed { artifact, status }) => {
            assert_eq!(artifact, v("/tmp/rmrf/1/src.tar.gz"));
            assert_eq!(status, 2);
        }
        _ => panic!("expected BuildFailed"),
    }
}

#[test]
fn removal_routes() {
    match plan_removal(&v("/tmp/x"), true, 0, 1000, true) {
        RemovalPlan::Elevated(c) => {
            assert_eq!(c.program, v("sudo"));
            assert_eq!(c.args, vec![v("rm"), v("-rf"), v("/tmp/x")]);
        }
        RemovalPlan::Direct => panic!("foreign entry under sudo is removed through elevation"),
    }
    match plan_removal(&v("/tmp/y"), false, 0, 1000, true) {
        RemovalPlan::Elevated(c) => {
            assert_eq!(c.args, vec![v("rm"), v("-f"), v("/tmp/y")]);
        }
        RemovalPlan::Direct => panic!(),
    }
    assert!(matches!(plan_removal(&v("/tmp/z"), true, 1000, 1000, true), RemovalPlan::Direct));
    assert!(matches!(plan_removal(&v("/tmp/z"), true, 0, 1000, false), RemovalPlan::Direct));
}

#[test]
fn extraction_commands() {
    let ok = extract_command(&v("/r/1/b.tar.gz"), &v("/tmp/src"), 1000, 1000, false).unwrap();
    assert_eq!(ok.program, v("tar"));
    assert_eq!(ok.args, vec![v("xzf"), v("/r/1/b.tar.gz"), v("-C"), v("/tmp/src")]);
    let elevated = extract_command(&v("/r/1/b.tar.gz"), &v("/tmp/src"), 0, 1000, true).unwrap();
    assert_eq!(elevated.program, v("sudo"));
    assert_eq!(elevated.args, vec![
        v("tar"),
        v("xpf"),
        v("/r/1/b.tar.gz"),
        v("-C"),
        v("/tmp/src"),
        v("--same-owner"),
    ]);
    match extract_command(&v("/r/1/b.tar.gz"), &v("/tmp/src"), 0, 1000, false) {
        Err(ArchiveError::PrivilegeDenied { path, owner }) => {
            assert_eq!(path, v("/r/1/b.tar.gz"));
            assert_eq!(owner, 0);
        }
        _ => panic!("expected PrivilegeDenied"),
    }
}

fn entry(path: &str, owner: u32, is_dir: bool, age_secs: u64) -> SweepEntry {
    SweepEntry { path: v(path), owner, is_dir, age_secs }
}

#[test]
fn sweep_decisions() {
    let me = 1000;
    let day = 86400;
    assert!(matches!(
        sweep_decision(&entry("/r/1", me, true, 5 * day), me, 30, false),
        SweepAction::KeepRecent
    ));
    assert!(matches!(
        sweep_decision(&entry("/r/1", me, true, 31 * day), me, 30, false),
        SweepAction::Remove { elevated: false }
    ));
    assert!(matches!(
        sweep_decision(&entry("/r/1", 0, true, 31 * day), me, 30, true),
        SweepAction::Remove { elevated: true }
    ));
    assert!(matches!(
        sweep_decision(&entry("/r/1", 0, true, 31 * day), me, 30, false),
        SweepAction::SkipPrivilege
    ));
    // the threshold is strict: exactly at the limit nothing is removed
    assert!(matches!(
        sweep_decision(&entry("/r/1", me, true, 30 * day), me, 30, false),
        SweepAction::KeepRecent
    ));
}

#[test]
fn sweep_is_idempotent_on_survivors() {
    let me = 1000;
    let day = 86400;
    let entries = vec![
        entry("/r/1", me, true, 40 * day),
        entry("/r/2", me, true, 2 * day),
        entry("/r/3", 0, true, 40 * day),
    ];
    let first = sweep_plan(&entries, me, 30, false);
    let survivors: Vec<SweepEntry> = entries
        .into_iter()
        .zip(first.iter())
        .filter(|(_, a)| !matches!(a, SweepAction::Remove { .. }))
        .map(|(e, _)| e)
        .collect();
    assert_eq!(survivors.len(), 2);
    let second = sweep_plan(&survivors, me, 30, false);
    assert!(
        second.iter().all(|a| !matches!(a, SweepAction::Remove { .. })),
        "a second sweep with no new batches deletes nothing"
    );
}

fn one_arg() -> Args {
    Args { targets: vec![v("x")] }
}

#[test]
fn action_plans() {
    assert!(matches!(
        plan_action(&Action::Rmrf(one_arg())),
        ActionPlan::Archive { store: StoreKind::RmrfStore, remove_originals: true, sweep_after: true }
    ));
    assert!(matches!(
        plan_action(&Action::Bkup(one_arg())),
        ActionPlan::Archive { store: StoreKind::BkupStore, remove_originals: false, sweep_after: false }
    ));
    assert!(matches!(
        plan_action(&Action::BkupRmrf(one_arg())),
        ActionPlan::Archive { store: StoreKind::BkupStore, remove_originals: true, sweep_after: false }
    ));
    assert!(matches!(
        plan_action(&Action::Rcvr(one_arg())),
        ActionPlan::Recover { store: StoreKind::RmrfStore }
    ));
    assert!(matches!(
        plan_action(&Action::LsBkup(one_arg())),
        ActionPlan::List { store: StoreKind::BkupStore }
    ));
    assert!(matches!(
        plan_action(&Action::LsRmrf(one_arg())),
        ActionPlan::List { store: StoreKind::RmrfStore }
    ));
}

#[test]
fn default_action_is_removal() {
    let a = Action::default();
    match a {
        Action::Rmrf(args) => assert!(args.targets.is_empty()),
        _ => panic!("the default action archives and removes"),
    }
}
