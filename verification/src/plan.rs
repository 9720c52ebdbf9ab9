//! Building archive units into batch plans.
//!
//! One archive unit — a directory, or a group of loose files sharing a
//! parent — becomes exactly one batch: a destination directory named by the
//! batch identifier, verbatim copies of the members that are already
//! compressed, at most one compressed bundle holding the rest, and the
//! metadata record.  The ownership policy is evaluated once per unit,
//! before anything else; a unit that needs elevation without permission
//! yields an error and no plan at all.  Batch identifiers within one
//! invocation are spread out so that units never collide.

use vstd::prelude::*;
use crate::paths::{
    wf_abs_path, parent_spec, parent_of, file_name_spec, file_name_of, join_spec, join_path, rel_to_spec,
    clone_bytes, push_all, lemma_parent_join, lemma_join_right_injective, byte_seqs, SEP,
};
use crate::categorize::{
    Target, TargetV, FileGroup, Categorized, views, is_archive_path, is_archive, lemma_filter_push,
    groups_wf, group_pred,
};
use crate::policy::{escalation_spec, first_bad, check_unit_policy};
use crate::command::{Cmd, CmdV, lit_sudo, lit_tar, tar_create_prefix, create_tar_command};
use crate::errors::ArchiveError;

verus! {

/// The decimal digits of `n`, most significant first.
pub open spec fn dec_spec(n: nat) -> Seq<u8>
    decreases n,
{
    if n < 10 {
        seq![(48 + n) as u8]
    } else {
        dec_spec(n / 10).push((48 + n % 10) as u8)
    }
}

/// The decimal digits of `n` as bytes.
pub fn dec_of(n: u64) -> (r: Vec<u8>)
    ensures
        r@ == dec_spec(n as nat),
{
    let mut digits: Vec<u8> = Vec::new();
    let mut m: u64 = n;
    while m >= 10
        invariant
            dec_spec(n as nat) == dec_spec(m as nat) + digits@.reverse(),
        decreases m,
    {
        let d: u8 = (m % 10) as u8;
        let ghost pre = digits@;
        digits.push(48 + d);
        m = m / 10;
        proof {
            assert(digits@ == pre.push((48 + (m as nat * 10 + d as nat) % 10) as u8)) by {
                assert(digits@ == pre.push((48 + d) as u8));
            }
            assert(digits@.reverse() =~= seq![(48 + d) as u8] + pre.reverse());
            assert(dec_spec(n as nat) =~= dec_spec(m as nat) + digits@.reverse());
        }
    }
    let mut r: Vec<u8> = Vec::new();
    r.push(48 + (m as u8));
    proof {
        assert(r@ =~= dec_spec(m as nat));
    }
    let mut j: usize = digits.len();
    while j > 0
        invariant
            j <= digits@.len(),
            r@ == dec_spec(m as nat) + digits@.subrange(j as int, digits@.len() as int).reverse(),
        decreases j,
    {
        j = j - 1;
        let ghost pre = r@;
        r.push(digits[j]);
        proof {
            assert(digits@.subrange(j as int, digits@.len() as int).reverse() =~= digits@.subrange(
                j as int + 1,
                digits@.len() as int,
            ).reverse().push(digits@[j as int]));
            assert(r@ =~= dec_spec(m as nat) + digits@.subrange(
                j as int,
                digits@.len() as int,
            ).reverse());
        }
    }
    proof {
        assert(digits@.subrange(0, digits@.len() as int) =~= digits@);
        assert(r@ =~= dec_spec(n as nat));
    }
    r
}

pub proof fn lemma_dec_spec_len(n: nat)
    ensures
        dec_spec(n).len() >= 1,
        n >= 10 ==> dec_spec(n).len() >= 2,
    decreases n,
{
    if n >= 10 {
        lemma_dec_spec_len(n / 10);
    }
}

/// Two different numbers never share a decimal rendering, so batch
/// directories named by different identifiers never coincide.
pub proof fn lemma_dec_spec_injective(a: nat, b: nat)
    requires
        dec_spec(a) == dec_spec(b),
    ensures
        a == b,
    decreases a,
{
    lemma_dec_spec_len(a);
    lemma_dec_spec_len(b);
    if a < 10 && b < 10 {
        assert(dec_spec(a)[0] == (48 + a) as u8);
        assert(dec_spec(b)[0] == (48 + b) as u8);
    } else if a < 10 {
        assert(dec_spec(a).len() == 1);
        assert(dec_spec(b).len() >= 2);
    } else if b < 10 {
        assert(dec_spec(a).len() >= 2);
        assert(dec_spec(b).len() == 1);
    } else {
        assert(dec_spec(a).last() == (48 + a % 10) as u8);
        assert(dec_spec(b).last() == (48 + b % 10) as u8);
        assert(a % 10 == b % 10);
        assert(dec_spec(a).drop_last() =~= dec_spec(a / 10));
        assert(dec_spec(b).drop_last() =~= dec_spec(b / 10));
        lemma_dec_spec_injective(a / 10, b / 10);
    }
}

/// `.tar.gz`
pub open spec fn lit_targz() -> Seq<u8> {
    seq![46u8, 116u8, 97u8, 114u8, 46u8, 103u8, 122u8]
}

fn targz_vec() -> (r: Vec<u8>)
    ensures
        r@ == lit_targz(),
{
    let r: Vec<u8> = vec![46, 116, 97, 114, 46, 103, 122];
    proof {
        assert(r@ =~= lit_targz());
    }
    r
}

/// One verbatim copy of an already-compressed member into the batch.
pub struct CopyAction {
    pub src: Vec<u8>,
    pub dest: Vec<u8>,
    pub elevated: bool,
}

/// The mathematical value of a `CopyAction`.
#[verifier::ext_equal]
pub ghost struct CopyV {
    pub src: Seq<u8>,
    pub dest: Seq<u8>,
    pub elevated: bool,
}

impl View for CopyAction {
    type V = CopyV;

    open spec fn view(&self) -> CopyV {
        CopyV { src: self.src@, dest: self.dest@, elevated: self.elevated }
    }
}

/// The views of a sequence of copy actions.
pub open spec fn copy_views(s: Seq<CopyAction>) -> Seq<CopyV> {
    s.map_values(|c: CopyAction| c@)
}

/// The plan for one batch: where it lives, what its metadata will record,
/// and the copy and bundle work that materializes it.  The `members` are
/// the unit's original absolute paths, in the order the metadata records
/// their names.
pub struct BatchPlan {
    pub id: u64,
    pub base: Vec<u8>,
    pub cwd: Vec<u8>,
    pub members: Vec<Vec<u8>>,
    pub meta_targets: Vec<Vec<u8>>,
    pub copies: Vec<CopyAction>,
    pub bundle: Option<Cmd>,
}

/// The mathematical value of a `BatchPlan`.
#[verifier::ext_equal]
pub ghost struct BatchPlanV {
    pub id: u64,
    pub base: Seq<u8>,
    pub cwd: Seq<u8>,
    pub members: Seq<Seq<u8>>,
    pub meta_targets: Seq<Seq<u8>>,
    pub copies: Seq<CopyV>,
    pub bundle: Option<CmdV>,
}

impl View for BatchPlan {
    type V = BatchPlanV;

    open spec fn view(&self) -> BatchPlanV {
        BatchPlanV {
            id: self.id,
            base: self.base@,
            cwd: self.cwd@,
            members: byte_seqs(self.members@),
            meta_targets: byte_seqs(self.meta_targets@),
            copies: copy_views(self.copies@),
            bundle: match self.bundle {
                Some(c) => Some(c@),
                None => None,
            },
        }
    }
}

/// Accepts members that are already compressed and will be copied verbatim.
pub open spec fn archive_pred() -> spec_fn(TargetV) -> bool {
    |t: TargetV| is_archive_path(t.path)
}

/// Accepts members that will be combined into the compressed bundle.
pub open spec fn loose_pred() -> spec_fn(TargetV) -> bool {
    |t: TargetV| !is_archive_path(t.path)
}

/// What every target of a unit must look like: a canonicalized absolute
/// file path, other than the root itself, under the unit's parent.
pub open spec fn unit_file_ok(t: TargetV, parent: Seq<u8>) -> bool {
    &&& wf_abs_path(t.path)
    &&& t.path.len() >= 2
    &&& parent_spec(t.path) == parent
}

/// What a correct plan for one same-parent file group states.
pub open spec fn group_plan_ok(
    p: BatchPlanV,
    files: Seq<TargetV>,
    parent: Seq<u8>,
    root: Seq<u8>,
    id: u64,
    me: u32,
) -> bool {
    let need = escalation_spec(files, me);
    let base = join_spec(root, dec_spec(id as nat));
    let bundle_files = files.filter(loose_pred());
    &&& p.id == id
    &&& p.base == base
    &&& p.cwd == parent
    &&& p.members == files.map_values(|t: TargetV| t.path)
    &&& p.meta_targets == files.map_values(|t: TargetV| file_name_spec(t.path))
    &&& p.copies == files.filter(archive_pred()).map_values(
        |t: TargetV|
            CopyV {
                src: t.path,
                dest: join_spec(base, file_name_spec(t.path)),
                elevated: t.owner != me,
            },
    )
    &&& match p.bundle {
        None => bundle_files.len() == 0,
        Some(c) => {
            &&& bundle_files.len() > 0
            &&& c.program == if need {
                lit_sudo()
            } else {
                lit_tar()
            }
            &&& c.args == (if need {
                seq![lit_tar()]
            } else {
                Seq::<Seq<u8>>::empty()
            }) + tar_create_prefix(join_spec(base, file_name_spec(parent) + lit_targz()), parent)
                + bundle_files.map_values(|t: TargetV| rel_to_spec(t.path, parent))
        },
    }
}

/// Plans the batch for one same-parent file group.  The ownership decision
/// is made first and once: when some member belongs to another user and
/// elevation is disallowed, the result is `PrivilegeDenied` naming the
/// first such member, and no plan — hence no artifact, no metadata and no
/// deletion — exists for the unit.  Already-compressed members are copied
/// verbatim (elevated exactly for members of other users); the rest become
/// one bundle named after the parent directory, built relative to it.
pub fn plan_group_archive(root: &Vec<u8>, id: u64, group: &FileGroup, me: u32, sudo: bool) -> (r:
    Result<BatchPlan, ArchiveError>)
    requires
        group.files@.len() > 0,
        forall|i: int|
            0 <= i < group.files@.len() ==> unit_file_ok(
                #[trigger] views(group.files@)[i],
                group.parent@,
            ),
    ensures
        r is Err <==> escalation_spec(views(group.files@), me) && !sudo,
        match r {
            Ok(p) => group_plan_ok(p@, views(group.files@), group.parent@, root@, id, me),
            Err(e) => e matches ArchiveError::PrivilegeDenied { path, owner } && path@ == views(
                group.files@,
            )[first_bad(views(group.files@), me)].path && owner == views(group.files@)[first_bad(
                views(group.files@),
                me,
            )].owner,
        },
{
    let ghost fs = views(group.files@);
    let need = match check_unit_policy(&group.files, me, sudo) {
        Ok(b) => b,
        Err(e) => {
            return Err(e);
        },
    };
    let digits = dec_of(id);
    let base = join_path(root, &digits);
    let mut members: Vec<Vec<u8>> = Vec::new();
    let mut meta_targets: Vec<Vec<u8>> = Vec::new();
    let mut copies: Vec<CopyAction> = Vec::new();
    let mut loose_paths: Vec<Vec<u8>> = Vec::new();
    let mut i: usize = 0;
    proof {
        assert(fs.subrange(0, 0) =~= Seq::<TargetV>::empty());
        reveal(Seq::filter);
        assert(byte_seqs(members@) =~= fs.subrange(0, 0).map_values(|t: TargetV| t.path));
        assert(byte_seqs(meta_targets@) =~= fs.subrange(0, 0).map_values(
            |t: TargetV| file_name_spec(t.path),
        ));
        assert(copy_views(copies@) =~= fs.subrange(0, 0).filter(archive_pred()).map_values(
            |t: TargetV|
                CopyV {
                    src: t.path,
                    dest: join_spec(base@, file_name_spec(t.path)),
                    elevated: t.owner != me,
                },
        ));
        assert(byte_seqs(loose_paths@) =~= fs.subrange(0, 0).filter(loose_pred()).map_values(
            |t: TargetV| t.path,
        ));
    }
    while i < group.files.len()
        invariant
            i <= group.files@.len(),
            fs == views(group.files@),
            byte_seqs(members@) == fs.subrange(0, i as int).map_values(|t: TargetV| t.path),
            byte_seqs(meta_targets@) == fs.subrange(0, i as int).map_values(
                |t: TargetV| file_name_spec(t.path),
            ),
            copy_views(copies@) == fs.subrange(0, i as int).filter(archive_pred()).map_values(
                |t: TargetV|
                    CopyV {
                        src: t.path,
                        dest: join_spec(base@, file_name_spec(t.path)),
                        elevated: t.owner != me,
                    },
            ),
            byte_seqs(loose_paths@) == fs.subrange(0, i as int).filter(loose_pred()).map_values(
                |t: TargetV| t.path,
            ),
        decreases group.files@.len() - i,
    {
        let f = &group.files[i];
        let name = file_name_of(&f.path);
        let ghost pre_members = members@;
        let member_copy = clone_bytes(&f.path);
        let ghost member_v = member_copy@;
        members.push(member_copy);
        let ghost pre_meta = meta_targets@;
        let name_copy = clone_bytes(&name);
        let ghost name_v = name_copy@;
        meta_targets.push(name_copy);
        proof {
            let prefix = fs.subrange(0, i as int);
            let prefix1 = fs.subrange(0, i as int + 1);
            assert(prefix1 =~= prefix.push(fs[i as int]));
            assert(fs[i as int] == group.files@[i as int]@);
            assert(member_v == fs[i as int].path);
            assert(name_v == file_name_spec(fs[i as int].path));
            assert(byte_seqs(members@) =~= byte_seqs(pre_members).push(member_v));
            assert(byte_seqs(members@) =~= prefix1.map_values(|t: TargetV| t.path));
            assert(byte_seqs(meta_targets@) =~= byte_seqs(pre_meta).push(name_v));
            assert(byte_seqs(meta_targets@) =~= prefix1.map_values(
                |t: TargetV| file_name_spec(t.path),
            ));
        }
        if is_archive(&f.path) {
            let dest = join_path(&base, &name);
            let ghost pre_copies = copies@;
            let action = CopyAction { src: clone_bytes(&f.path), dest, elevated: f.owner != me };
            let ghost action_v = action@;
            copies.push(action);
            proof {
                let prefix = fs.subrange(0, i as int);
                let prefix1 = fs.subrange(0, i as int + 1);
                assert(prefix1 =~= prefix.push(fs[i as int]));
                assert(fs[i as int] == group.files@[i as int]@);
                lemma_filter_push(prefix, fs[i as int], archive_pred());
                lemma_filter_push(prefix, fs[i as int], loose_pred());
                assert(action_v == CopyV {
                    src: fs[i as int].path,
                    dest: join_spec(base@, file_name_spec(fs[i as int].path)),
                    elevated: fs[i as int].owner != me,
                });
                assert(copy_views(copies@) =~= copy_views(pre_copies).push(action_v));
                assert(copy_views(copies@) =~= prefix1.filter(archive_pred()).map_values(
                    |t: TargetV|
                        CopyV {
                            src: t.path,
                            dest: join_spec(base@, file_name_spec(t.path)),
                            elevated: t.owner != me,
                        },
                ));
                assert(byte_seqs(loose_paths@) =~= prefix1.filter(loose_pred()).map_values(
                    |t: TargetV| t.path,
                ));
            }
        } else {
            let ghost pre_loose = loose_paths@;
            let loose_copy = clone_bytes(&f.path);
            let ghost loose_v = loose_copy@;
            loose_paths.push(loose_copy);
            proof {
                let prefix = fs.subrange(0, i as int);
                let prefix1 = fs.subrange(0, i as int + 1);
                assert(prefix1 =~= prefix.push(fs[i as int]));
                assert(fs[i as int] == group.files@[i as int]@);
                lemma_filter_push(prefix, fs[i as int], archive_pred());
                lemma_filter_push(prefix, fs[i as int], loose_pred());
                assert(loose_v == fs[i as int].path);
                assert(byte_seqs(loose_paths@) =~= byte_seqs(pre_loose).push(loose_v));
                assert(byte_seqs(loose_paths@) =~= prefix1.filter(loose_pred()).map_values(
                    |t: TargetV| t.path,
                ));
                assert(copy_views(copies@) =~= prefix1.filter(archive_pred()).map_values(
                    |t: TargetV|
                        CopyV {
                            src: t.path,
                            dest: join_spec(base@, file_name_spec(t.path)),
                            elevated: t.owner != me,
                        },
                ));
            }
        }
        i = i + 1;
    }
    proof {
        assert(fs.subrange(0, fs.len() as int) =~= fs);
    }
    let bundle: Option<Cmd>;
    if loose_paths.len() == 0 {
        bundle = None;
        proof {
            assert(fs.filter(loose_pred()).map_values(|t: TargetV| t.path).len() == 0);
            assert(fs.filter(loose_pred()).len() == 0);
        }
    } else {
        let mut tar_name = file_name_of(&group.parent);
        let gz = targz_vec();
        push_all(&mut tar_name, &gz);
        let tarball = join_path(&base, &tar_name);
        let c = create_tar_command(need, &tarball, &group.parent, &loose_paths);
        proof {
            assert(fs.filter(loose_pred()).len() > 0) by {
                assert(fs.filter(loose_pred()).map_values(|t: TargetV| t.path).len() > 0);
            }
            let lp = fs.filter(loose_pred());
            assert forall|k: int| 0 <= k < lp.len() implies crate::command::tar_target_views(
                loose_paths@,
                group.parent@,
            )[k] == rel_to_spec(lp[k].path, group.parent@) by {
                assert(byte_seqs(loose_paths@)[k] == lp[k].path);
                assert(loose_paths@[k]@ == lp[k].path);
                assert(lp.contains(lp[k]));
                assert(fs.contains(lp[k])) by {
                    fs.lemma_filter_contains_rev(loose_pred(), lp[k]);
                }
                let w = choose|w: int| 0 <= w < fs.len() && fs[w] == lp[k];
                assert(unit_file_ok(views(group.files@)[w], group.parent@));
                assert(lp[k].path[0] == SEP && lp[k].path.len() > 0);
                assert(crate::command::tar_target_spec(lp[k].path, group.parent@) == rel_to_spec(
                    lp[k].path,
                    group.parent@,
                ));
            }
            assert(crate::command::tar_target_views(loose_paths@, group.parent@) =~= lp.map_values(
                |t: TargetV| rel_to_spec(t.path, group.parent@),
            ));
        }
        bundle = Some(c);
    }
    let p = BatchPlan { id, base, cwd: clone_bytes(&group.parent), members, meta_targets, copies, bundle };
    Ok(p)
}

/// Categorization's output feeds planning directly: when every loose-file
/// target is a canonicalized absolute path, every file of every group
/// satisfies what the planners require of a unit member.
pub proof fn lemma_groups_feed_planning(groups: Seq<FileGroup>, targets: Seq<Target>, root: Seq<u8>)
    requires
        groups_wf(groups, targets, root),
        forall|j: int|
            0 <= j < targets.len() && !(#[trigger] targets[j]@).is_dir ==> wf_abs_path(
                targets[j]@.path,
            ) && targets[j]@.path.len() >= 2,
    ensures
        forall|g: int, i: int|
            0 <= g < groups.len() && 0 <= i < groups[g].files@.len() ==> unit_file_ok(
                #[trigger] views(groups[g].files@)[i],
                groups[g].parent@,
            ),
{
    assert forall|g: int, i: int|
        0 <= g < groups.len() && 0 <= i < groups[g].files@.len() implies unit_file_ok(
        #[trigger] views(groups[g].files@)[i],
        groups[g].parent@,
    ) by {
        let fv = views(groups[g].files@);
        assert(fv == views(targets).filter(group_pred(root, groups[g].parent@)));
        Seq::lemma_filter_pred(views(targets), group_pred(root, groups[g].parent@), i);
        let e = fv[i];
        assert(fv.contains(e));
        views(targets).lemma_filter_contains_rev(group_pred(root, groups[g].parent@), e);
        let w = choose|w: int| 0 <= w < views(targets).len() && views(targets)[w] == e;
        assert(views(targets)[w] == targets[w]@);
        assert(!targets[w]@.is_dir);
        assert(wf_abs_path(e.path) && e.path.len() >= 2);
        assert(parent_spec(e.path) == groups[g].parent@);
    }
}

/// `PrivilegeDenied` naming the first member of `files` owned by another
/// user.
pub open spec fn denied_for(e: ArchiveError, files: Seq<TargetV>, me: u32) -> bool {
    e matches ArchiveError::PrivilegeDenied { path, owner } && path@ == files[first_bad(
        files,
        me,
    )].path && owner == files[first_bad(files, me)].owner
}

/// What a correct plan for one whole-directory unit states.
pub open spec fn dir_plan_ok(
    p: BatchPlanV,
    dir: TargetV,
    members: Seq<TargetV>,
    root: Seq<u8>,
    id: u64,
    me: u32,
) -> bool {
    let need = dir.owner != me;
    let base = join_spec(root, dec_spec(id as nat));
    let cwd = parent_spec(dir.path);
    let bundle_files = members.filter(loose_pred());
    &&& p.id == id
    &&& p.base == base
    &&& p.cwd == cwd
    &&& p.members == seq![dir.path]
    &&& p.meta_targets == seq![file_name_spec(dir.path)]
    &&& p.copies == Seq::<CopyV>::empty()
    &&& match p.bundle {
        None => bundle_files.len() == 0,
        Some(c) => {
            &&& bundle_files.len() > 0
            &&& c.program == if need {
                lit_sudo()
            } else {
                lit_tar()
            }
            &&& c.args == (if need {
                seq![lit_tar()]
            } else {
                Seq::<Seq<u8>>::empty()
            }) + tar_create_prefix(join_spec(base, file_name_spec(dir.path) + lit_targz()), cwd)
                + bundle_files.map_values(|t: TargetV| rel_to_spec(t.path, cwd))
        },
    }
}

/// Plans the batch for one whole-directory unit.  The directory's owner is
/// checked first: a directory of another user is only archived under
/// elevation, else the unit fails closed with `PrivilegeDenied` and no plan
/// exists.  Only the directory's not-already-compressed descendants are
/// bundled, relative to the directory's parent; when every descendant is
/// already compressed there is nothing to bundle and the unit's plan
/// carries no bundle at all — metadata and removal still proceed.
pub fn plan_directory_archive(root: &Vec<u8>, id: u64, dir: &Target, members: &Vec<Target>,
    me: u32, sudo: bool) -> (r: Result<BatchPlan, ArchiveError>)
    requires
        wf_abs_path(dir.path@),
        dir.path@.len() >= 2,
        forall|i: int|
            0 <= i < members@.len() ==> wf_abs_path((#[trigger] views(members@)[i]).path) && views(
                members@,
            )[i].path.len() >= 1,
    ensures
        r is Err <==> dir@.owner != me && !sudo,
        match r {
            Ok(p) => dir_plan_ok(p@, dir@, views(members@), root@, id, me),
            Err(e) => e matches ArchiveError::PrivilegeDenied { path, owner } && path@ == dir.path@
                && owner == dir@.owner,
        },
{
    if dir.owner != me && !sudo {
        return Err(ArchiveError::PrivilegeDenied { path: clone_bytes(&dir.path), owner: dir.owner });
    }
    let need = dir.owner != me;
    let digits = dec_of(id);
    let base = join_path(root, &digits);
    let cwd = parent_of(&dir.path);
    let name = file_name_of(&dir.path);
    let ghost ms = views(members@);
    let mut loose_paths: Vec<Vec<u8>> = Vec::new();
    let mut i: usize = 0;
    proof {
        assert(ms.subrange(0, 0) =~= Seq::<TargetV>::empty());
        reveal(Seq::filter);
        assert(byte_seqs(loose_paths@) =~= ms.subrange(0, 0).filter(loose_pred()).map_values(
            |t: TargetV| t.path,
        ));
    }
    while i < members.len()
        invariant
            i <= members@.len(),
            ms == views(members@),
            byte_seqs(loose_paths@) == ms.subrange(0, i as int).filter(loose_pred()).map_values(
                |t: TargetV| t.path,
            ),
        decreases members@.len() - i,
    {
        let f = &members[i];
        let ghost prefix = ms.subrange(0, i as int);
        let ghost prefix1 = ms.subrange(0, i as int + 1);
        proof {
            assert(prefix1 =~= prefix.push(ms[i as int]));
            assert(ms[i as int] == members@[i as int]@);
            lemma_filter_push(prefix, ms[i as int], loose_pred());
        }
        if !is_archive(&f.path) {
            let ghost pre_loose = loose_paths@;
            let loose_copy = clone_bytes(&f.path);
            let ghost loose_v = loose_copy@;
            loose_paths.push(loose_copy);
            proof {
                assert(loose_v == ms[i as int].path);
                assert(byte_seqs(loose_paths@) =~= byte_seqs(pre_loose).push(loose_v));
                assert(byte_seqs(loose_paths@) =~= prefix1.filter(loose_pred()).map_values(
                    |t: TargetV| t.path,
                ));
            }
        }
        i = i + 1;
    }
    proof {
        assert(ms.subrange(0, ms.len() as int) =~= ms);
    }
    let bundle: Option<Cmd>;
    if loose_paths.len() == 0 {
        bundle = None;
        proof {
            assert(ms.filter(loose_pred()).map_values(|t: TargetV| t.path).len() == 0);
            assert(ms.filter(loose_pred()).len() == 0);
        }
    } else {
        let mut tar_name = clone_bytes(&name);
        let gz = targz_vec();
        push_all(&mut tar_name, &gz);
        let tarball = join_path(&base, &tar_name);
        let c = create_tar_command(need, &tarball, &cwd, &loose_paths);
        proof {
            let lp = ms.filter(loose_pred());
            assert(lp.len() > 0) by {
                assert(lp.map_values(|t: TargetV| t.path).len() > 0);
            }
            assert forall|k: int| 0 <= k < lp.len() implies crate::command::tar_target_views(
                loose_paths@,
                cwd@,
            )[k] == rel_to_spec(lp[k].path, cwd@) by {
                assert(byte_seqs(loose_paths@)[k] == lp[k].path);
                assert(loose_paths@[k]@ == lp[k].path);
                assert(lp.contains(lp[k]));
                assert(ms.contains(lp[k])) by {
                    ms.lemma_filter_contains_rev(loose_pred(), lp[k]);
                }
                let w = choose|w: int| 0 <= w < ms.len() && ms[w] == lp[k];
                assert(wf_abs_path((views(members@)[w]).path));
                assert(lp[k].path[0] == SEP && lp[k].path.len() > 0);
                assert(crate::command::tar_target_spec(lp[k].path, cwd@) == rel_to_spec(
                    lp[k].path,
                    cwd@,
                ));
            }
            assert(crate::command::tar_target_views(loose_paths@, cwd@) =~= lp.map_values(
                |t: TargetV| rel_to_spec(t.path, cwd@),
            ));
        }
        bundle = Some(c);
    }
    let mut plan_members: Vec<Vec<u8>> = Vec::new();
    plan_members.push(clone_bytes(&dir.path));
    let mut meta_targets: Vec<Vec<u8>> = Vec::new();
    meta_targets.push(name);
    let copies: Vec<CopyAction> = Vec::new();
    proof {
        assert(byte_seqs(plan_members@) =~= seq![dir.path@]);
        assert(byte_seqs(meta_targets@) =~= seq![file_name_spec(dir.path@)]);
        assert(copy_views(copies@) =~= Seq::<CopyV>::empty());
    }
    Ok(BatchPlan { id, base, cwd, members: plan_members, meta_targets, copies, bundle })
}

/// The identifier a planned unit received; meaningful for `Ok` entries.
pub open spec fn plan_id(r: Result<BatchPlan, ArchiveError>) -> u64 {
    match r {
        Ok(p) => p.id,
        Err(_) => 0,
    }
}

/// The batch directory a planned unit received; meaningful for `Ok`
/// entries.
pub open spec fn plan_base(r: Result<BatchPlan, ArchiveError>) -> Seq<u8> {
    match r {
        Ok(p) => p.base@,
        Err(_) => Seq::empty(),
    }
}

/// Plans a whole invocation: one batch per same-parent group, then one per
/// directory.  The k-th unit overall receives the identifier
/// `timestamp + k*1000`, so identifiers — and with them batch directories —
/// are pairwise distinct however many groups and directories one
/// invocation holds.  A unit that fails the ownership policy yields its
/// error in place; the other units are planned regardless.
pub fn plan_archive(root: &Vec<u8>, timestamp: u64, cat: &Categorized, dir_members: &Vec<
    Vec<Target>,
>, me: u32, sudo: bool) -> (r: Vec<Result<BatchPlan, ArchiveError>>)
    requires
        dir_members@.len() == cat.directories@.len(),
        timestamp + (cat.groups@.len() + cat.directories@.len()) * 1000 <= u64::MAX,
        forall|g: int|
            0 <= g < cat.groups@.len() ==> (#[trigger] cat.groups@[g].files@).len() > 0,
        forall|g: int, i: int|
            0 <= g < cat.groups@.len() && 0 <= i < cat.groups@[g].files@.len() ==> unit_file_ok(
                #[trigger] views(cat.groups@[g].files@)[i],
                cat.groups@[g].parent@,
            ),
        forall|d: int|
            0 <= d < cat.directories@.len() ==> wf_abs_path(
                (#[trigger] cat.directories@[d]@).path,
            ) && cat.directories@[d]@.path.len() >= 2,
        forall|d: int, i: int|
            0 <= d < cat.directories@.len() && 0 <= i < dir_members@[d]@.len() ==> wf_abs_path(
                (#[trigger] views(dir_members@[d]@)[i]).path,
            ) && views(dir_members@[d]@)[i].path.len() >= 1,
    ensures
        r@.len() == cat.groups@.len() + cat.directories@.len(),
        forall|g: int|
            0 <= g < cat.groups@.len() ==> match #[trigger] r@[g] {
                Ok(p) => group_plan_ok(
                    p@,
                    views(cat.groups@[g].files@),
                    cat.groups@[g].parent@,
                    root@,
                    (timestamp + g * 1000) as u64,
                    me,
                ),
                Err(e) => escalation_spec(views(cat.groups@[g].files@), me) && !sudo && denied_for(
                    e,
                    views(cat.groups@[g].files@),
                    me,
                ),
            },
        forall|d: int|
            0 <= d < cat.directories@.len() ==> match #[trigger] r@[cat.groups@.len() + d] {
                Ok(p) => dir_plan_ok(
                    p@,
                    cat.directories@[d]@,
                    views(dir_members@[d]@),
                    root@,
                    (timestamp + (cat.groups@.len() + d) * 1000) as u64,
                    me,
                ),
                Err(e) => cat.directories@[d]@.owner != me && !sudo && (e matches
                    ArchiveError::PrivilegeDenied { path, owner } && path@
                    == cat.directories@[d]@.path && owner == cat.directories@[d]@.owner),
            },
        forall|k: int|
            0 <= k < r@.len() && (#[trigger] r@[k]) is Ok ==> plan_id(r@[k]) == (timestamp + k
                * 1000) as u64,
        forall|i: int, j: int|
            0 <= i < j < r@.len() && r@[i] is Ok && r@[j] is Ok ==> #[trigger] plan_id(r@[i])
                != #[trigger] plan_id(r@[j]) && plan_base(r@[i]) != plan_base(r@[j]),
{
    let mut r: Vec<Result<BatchPlan, ArchiveError>> = Vec::new();
    let n_groups = cat.groups.len();
    let mut g: usize = 0;
    while g < n_groups
        invariant
            g <= n_groups,
            n_groups == cat.groups@.len(),
            r@.len() == g,
            timestamp + (cat.groups@.len() + cat.directories@.len()) * 1000 <= u64::MAX,
            forall|h: int|
                0 <= h < cat.groups@.len() ==> (#[trigger] cat.groups@[h].files@).len() > 0,
            forall|h: int, i: int|
                0 <= h < cat.groups@.len() && 0 <= i < cat.groups@[h].files@.len() ==> unit_file_ok(
                    #[trigger] views(cat.groups@[h].files@)[i],
                    cat.groups@[h].parent@,
                ),
            forall|h: int|
                0 <= h < g ==> match #[trigger] r@[h] {
                    Ok(p) => group_plan_ok(
                        p@,
                        views(cat.groups@[h].files@),
                        cat.groups@[h].parent@,
                        root@,
                        (timestamp + h * 1000) as u64,
                        me,
                    ),
                    Err(e) => escalation_spec(views(cat.groups@[h].files@), me) && !sudo
                        && denied_for(e, views(cat.groups@[h].files@), me),
                },
        decreases n_groups - g,
    {
        let id: u64 = timestamp + (g as u64) * 1000;
        let res = plan_group_archive(root, id, &cat.groups[g], me, sudo);
        let ghost pre_r = r@;
        r.push(res);
        proof {
            assert(r@ == pre_r.push(r@[pre_r.len() as int]));
        }
        g = g + 1;
    }
    let n_dirs = cat.directories.len();
    let mut d: usize = 0;
    while d < n_dirs
        invariant
            d <= n_dirs,
            n_dirs == cat.directories@.len(),
            n_groups == cat.groups@.len(),
            dir_members@.len() == cat.directories@.len(),
            r@.len() == n_groups + d,
            timestamp + (cat.groups@.len() + cat.directories@.len()) * 1000 <= u64::MAX,
            forall|e: int|
                0 <= e < cat.directories@.len() ==> wf_abs_path(
                    (#[trigger] cat.directories@[e]@).path,
                ) && cat.directories@[e]@.path.len() >= 2,
            forall|e: int, i: int|
                0 <= e < cat.directories@.len() && 0 <= i < dir_members@[e]@.len() ==> wf_abs_path(
                    (#[trigger] views(dir_members@[e]@)[i]).path,
                ) && views(dir_members@[e]@)[i].path.len() >= 1,
            forall|h: int|
                0 <= h < n_groups ==> match #[trigger] r@[h] {
                    Ok(p) => group_plan_ok(
                        p@,
                        views(cat.groups@[h].files@),
                        cat.groups@[h].parent@,
                        root@,
                        (timestamp + h * 1000) as u64,
                        me,
                    ),
                    Err(e) => escalation_spec(views(cat.groups@[h].files@), me) && !sudo
                        && denied_for(e, views(cat.groups@[h].files@), me),
                },
            forall|h: int|
                0 <= h < d ==> match #[trigger] r@[n_groups + h] {
                    Ok(p) => dir_plan_ok(
                        p@,
                        cat.directories@[h]@,
                        views(dir_members@[h]@),
                        root@,
                        (timestamp + (cat.groups@.len() + h) * 1000) as u64,
                        me,
                    ),
                    Err(e) => cat.directories@[h]@.owner != me && !sudo && (e matches
                        ArchiveError::PrivilegeDenied { path, owner } && path@
                        == cat.directories@[h]@.path && owner == cat.directories@[h]@.owner),
                },
        decreases n_dirs - d,
    {
        let id: u64 = timestamp + (n_groups as u64 + d as u64) * 1000;
        proof {
            assert(wf_abs_path((cat.directories@[d as int]@).path));
            assert(forall|i: int|
                0 <= i < dir_members@[d as int]@.len() ==> wf_abs_path(
                    (#[trigger] views(dir_members@[d as int]@)[i]).path,
                ) && views(dir_members@[d as int]@)[i].path.len() >= 1);
        }
        let res = plan_directory_archive(root, id, &cat.directories[d], &dir_members[d], me, sudo);
        let ghost pre_r = r@;
        r.push(res);
        proof {
            assert(r@ == pre_r.push(r@[pre_r.len() as int]));
        }
        d = d + 1;
    }
    proof {
        assert forall|k: int| 0 <= k < r@.len() && (#[trigger] r@[k]) is Ok implies plan_id(r@[k])
            == (timestamp + k * 1000) as u64 by {
            if k >= n_groups {
                assert(r@[k] == r@[n_groups + (k - n_groups)]);
            }
        }
        assert forall|i: int, j: int|
            0 <= i < j < r@.len() && r@[i] is Ok && r@[j] is Ok implies #[trigger] plan_id(r@[i])
            != #[trigger] plan_id(r@[j]) && plan_base(r@[i]) != plan_base(r@[j]) by {
            let idi = plan_id(r@[i]);
            let idj = plan_id(r@[j]);
            assert(idi == (timestamp + i * 1000) as u64);
            assert(idj == (timestamp + j * 1000) as u64);
            assert(idi < idj);
            assert(plan_base(r@[i]) == join_spec(root@, dec_spec(idi as nat))) by {
                if i < n_groups {
                    let pv = r@[i]->Ok_0;
                    assert(group_plan_ok(
                        pv@,
                        views(cat.groups@[i].files@),
                        cat.groups@[i].parent@,
                        root@,
                        (timestamp + i * 1000) as u64,
                        me,
                    ));
                } else {
                    assert(r@[i] == r@[n_groups + (i - n_groups)]);
                    let pv = r@[i]->Ok_0;
                    assert(dir_plan_ok(
                        pv@,
                        cat.directories@[i - n_groups]@,
                        views(dir_members@[i - n_groups]@),
                        root@,
                        (timestamp + (cat.groups@.len() + (i - n_groups)) * 1000) as u64,
                        me,
                    ));
                }
            }
            assert(plan_base(r@[j]) == join_spec(root@, dec_spec(idj as nat))) by {
                if j < n_groups {
                    let pv = r@[j]->Ok_0;
                    assert(group_plan_ok(
                        pv@,
                        views(cat.groups@[j].files@),
                        cat.groups@[j].parent@,
                        root@,
                        (timestamp + j * 1000) as u64,
                        me,
                    ));
                } else {
                    assert(r@[j] == r@[n_groups + (j - n_groups)]);
                    let pv = r@[j]->Ok_0;
                    assert(dir_plan_ok(
                        pv@,
                        cat.directories@[j - n_groups]@,
                        views(dir_members@[j - n_groups]@),
                        root@,
                        (timestamp + (cat.groups@.len() + (j - n_groups)) * 1000) as u64,
                        me,
                    ));
                }
            }
            if plan_base(r@[i]) == plan_base(r@[j]) {
                lemma_join_right_injective(root@, dec_spec(idi as nat), dec_spec(idj as nat));
                lemma_dec_spec_injective(idi as nat, idj as nat);
            }
        }
    }
    r
}

/// For every successfully planned group batch, the recorded origin
/// directory joined with the i-th recorded target name reconstructs the
/// i-th archived member's absolute path exactly.
pub proof fn lemma_group_plan_reconstructs(
    p: BatchPlanV,
    files: Seq<TargetV>,
    parent: Seq<u8>,
    root: Seq<u8>,
    id: u64,
    me: u32,
)
    requires
        group_plan_ok(p, files, parent, root, id, me),
        forall|i: int| 0 <= i < files.len() ==> unit_file_ok(#[trigger] files[i], parent),
    ensures
        p.meta_targets.len() == p.members.len(),
        forall|i: int|
            0 <= i < p.members.len() ==> join_spec(p.cwd, #[trigger] p.meta_targets[i])
                == p.members[i],
{
    assert forall|i: int|
        0 <= i < p.members.len() implies join_spec(p.cwd, #[trigger] p.meta_targets[i])
        == p.members[i] by {
        assert(p.members[i] == files[i].path);
        assert(p.meta_targets[i] == file_name_spec(files[i].path));
        assert(unit_file_ok(files[i], parent));
        lemma_parent_join(files[i].path);
    }
}

/// The same reconstruction for a whole-directory batch: its single
/// recorded name, joined to the recorded origin, is the directory's path.
pub proof fn lemma_dir_plan_reconstructs(
    p: BatchPlanV,
    dir: TargetV,
    members: Seq<TargetV>,
    root: Seq<u8>,
    id: u64,
    me: u32,
)
    requires
        dir_plan_ok(p, dir, members, root, id, me),
        wf_abs_path(dir.path),
        dir.path.len() >= 2,
    ensures
        p.meta_targets.len() == p.members.len(),
        forall|i: int|
            0 <= i < p.members.len() ==> join_spec(p.cwd, #[trigger] p.meta_targets[i])
                == p.members[i],
{
    lemma_parent_join(dir.path);
}

} // verus!
