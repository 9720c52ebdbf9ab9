//! The recovery reconciler's decisions.
//!
//! Recovery reverses one batch: its metadata record is read back, the
//! batch directory's entries (all but the record itself) are partitioned
//! against the recorded target names — an entry whose name matches a
//! recorded target was copied verbatim and is restored by copy, every
//! other entry is a compressed bundle and is restored by extraction — and
//! only a batch whose every member restored may be deleted.  A batch that
//! fails part-way stays on disk for inspection.

use vstd::prelude::*;
use crate::paths::{byte_seqs, bytes_eq, clone_bytes, join_spec, join_path};
use crate::metadata::{Metadata, parse_spec, parse_metadata};
use crate::command::{
    Cmd, CmdV, lit_sudo, lit_tar, lit_xpf, lit_xzf, lit_chdir, lit_same_owner, extract_command,
};
use crate::plan::{CopyAction, CopyV, copy_views};
use crate::errors::ArchiveError;

verus! {

/// `metadata.yml`
pub open spec fn lit_metadata_name() -> Seq<u8> {
    seq![109u8, 101u8, 116u8, 97u8, 100u8, 97u8, 116u8, 97u8, 46u8, 121u8, 109u8, 108u8]
}

/// The record's file name inside every batch directory.
pub fn metadata_name() -> (r: Vec<u8>)
    ensures
        r@ == lit_metadata_name(),
{
    let r: Vec<u8> = vec![109, 101, 116, 97, 100, 97, 116, 97, 46, 121, 109, 108];
    proof {
        assert(r@ =~= lit_metadata_name());
    }
    r
}

/// One entry of a batch directory: its base name and its owner.
pub struct BatchEntry {
    pub name: Vec<u8>,
    pub owner: u32,
}

/// The mathematical value of a `BatchEntry`.
#[verifier::ext_equal]
pub ghost struct BatchEntryV {
    pub name: Seq<u8>,
    pub owner: u32,
}

impl View for BatchEntry {
    type V = BatchEntryV;

    open spec fn view(&self) -> BatchEntryV {
        BatchEntryV { name: self.name@, owner: self.owner }
    }
}

/// The views of a sequence of batch entries.
pub open spec fn batch_entry_views(s: Seq<BatchEntry>) -> Seq<BatchEntryV> {
    s.map_values(|e: BatchEntry| e@)
}

/// Accepts entries restored by copy: not the record itself, and named
/// exactly like a recorded target.
pub open spec fn copy_entry_pred(targets: Seq<Seq<u8>>) -> spec_fn(BatchEntryV) -> bool {
    |e: BatchEntryV| e.name != lit_metadata_name() && targets.contains(e.name)
}

/// Accepts entries restored by extraction: not the record itself, and not
/// matching any recorded target.
pub open spec fn extract_entry_pred(targets: Seq<Seq<u8>>) -> spec_fn(BatchEntryV) -> bool {
    |e: BatchEntryV| e.name != lit_metadata_name() && !targets.contains(e.name)
}

/// Partitions a batch directory's entries against the recorded target
/// names: copied-verbatim members first, bundles second, both in directory
/// order; the record itself belongs to neither side.
pub fn partition_batch(entries: &Vec<BatchEntry>, targets: &Vec<Vec<u8>>) -> (r: (
    Vec<BatchEntry>,
    Vec<BatchEntry>,
))
    ensures
        batch_entry_views(r.0@) == batch_entry_views(entries@).filter(
            copy_entry_pred(byte_seqs(targets@)),
        ),
        batch_entry_views(r.1@) == batch_entry_views(entries@).filter(
            extract_entry_pred(byte_seqs(targets@)),
        ),
{
    let ghost es = batch_entry_views(entries@);
    let ghost ts = byte_seqs(targets@);
    let meta = metadata_name();
    let mut to_copy: Vec<BatchEntry> = Vec::new();
    let mut to_extract: Vec<BatchEntry> = Vec::new();
    let mut i: usize = 0;
    proof {
        assert(es.subrange(0, 0) =~= Seq::<BatchEntryV>::empty());
        reveal(Seq::filter);
        assert(batch_entry_views(to_copy@) =~= es.subrange(0, 0).filter(copy_entry_pred(ts)));
        assert(batch_entry_views(to_extract@) =~= es.subrange(0, 0).filter(
            extract_entry_pred(ts),
        ));
    }
    while i < entries.len()
        invariant
            i <= entries@.len(),
            es == batch_entry_views(entries@),
            ts == byte_seqs(targets@),
            meta@ == lit_metadata_name(),
            batch_entry_views(to_copy@) == es.subrange(0, i as int).filter(copy_entry_pred(ts)),
            batch_entry_views(to_extract@) == es.subrange(0, i as int).filter(
                extract_entry_pred(ts),
            ),
        decreases entries@.len() - i,
    {
        let e = &entries[i];
        let is_meta = bytes_eq(&e.name, &meta);
        let mut in_targets = false;
        let mut t: usize = 0;
        while t < targets.len()
            invariant
                t <= targets@.len(),
                ts == byte_seqs(targets@),
                in_targets ==> ts.contains(e.name@),
                !in_targets ==> forall|u: int| 0 <= u < t ==> ts[u] != e.name@,
            decreases targets@.len() - t,
        {
            if bytes_eq(&targets[t], &e.name) {
                in_targets = true;
                proof {
                    assert(ts[t as int] == e.name@);
                }
            }
            t = t + 1;
        }
        proof {
            if !in_targets {
                assert(!ts.contains(e.name@));
            }
            assert(es[i as int] == entries@[i as int]@);
        }
        let ghost prefix = es.subrange(0, i as int);
        let ghost prefix1 = es.subrange(0, i as int + 1);
        proof {
            assert(prefix1 =~= prefix.push(es[i as int]));
            crate::categorize::lemma_filter_push(prefix, es[i as int], copy_entry_pred(ts));
            crate::categorize::lemma_filter_push(prefix, es[i as int], extract_entry_pred(ts));
        }
        if !is_meta {
            if in_targets {
                let ghost pre = to_copy@;
                let dup = BatchEntry { name: clone_bytes(&e.name), owner: e.owner };
                let ghost dv = dup@;
                to_copy.push(dup);
                proof {
                    assert(batch_entry_views(to_copy@) =~= batch_entry_views(pre).push(dv));
                    assert(batch_entry_views(to_copy@) =~= prefix1.filter(copy_entry_pred(ts)));
                    assert(batch_entry_views(to_extract@) =~= prefix1.filter(
                        extract_entry_pred(ts),
                    ));
                }
            } else {
                let ghost pre = to_extract@;
                let dup = BatchEntry { name: clone_bytes(&e.name), owner: e.owner };
                let ghost dv = dup@;
                to_extract.push(dup);
                proof {
                    assert(batch_entry_views(to_extract@) =~= batch_entry_views(pre).push(dv));
                    assert(batch_entry_views(to_extract@) =~= prefix1.filter(
                        extract_entry_pred(ts),
                    ));
                    assert(batch_entry_views(to_copy@) =~= prefix1.filter(copy_entry_pred(ts)));
                }
            }
        } else {
            proof {
                assert(batch_entry_views(to_copy@) =~= prefix1.filter(copy_entry_pred(ts)));
                assert(batch_entry_views(to_extract@) =~= prefix1.filter(extract_entry_pred(ts)));
            }
        }
        i = i + 1;
    }
    proof {
        assert(es.subrange(0, es.len() as int) =~= es);
    }
    (to_copy, to_extract)
}

/// The extraction command for one bundle: elevated with ownership kept for
/// a bundle of another user, direct otherwise.
pub open spec fn extract_cmd_spec(bundle: Seq<u8>, restore_to: Seq<u8>, elevated: bool) -> CmdV {
    if elevated {
        CmdV {
            program: lit_sudo(),
            args: seq![lit_tar(), lit_xpf(), bundle, lit_chdir(), restore_to, lit_same_owner()],
        }
    } else {
        CmdV { program: lit_tar(), args: seq![lit_xzf(), bundle, lit_chdir(), restore_to] }
    }
}

/// The views of a sequence of commands.
pub open spec fn cmd_views(s: Seq<Cmd>) -> Seq<CmdV> {
    s.map_values(|c: Cmd| c@)
}

/// The full restoration plan for one batch: the extraction command of
/// every bundle and the copy of every verbatim member, all back into the
/// recorded origin directory.  When some member belongs to another user
/// and elevation is unavailable, the result is `PrivilegeDenied` naming
/// such a member, and nothing of the batch is restored or deleted.
pub fn plan_batch_recovery(batch_dir: &Vec<u8>, entries: &Vec<BatchEntry>, meta_cwd: &Vec<u8>,
    targets: &Vec<Vec<u8>>, me: u32, sudo: bool) -> (r: Result<
    (Vec<Cmd>, Vec<CopyAction>),
    ArchiveError,
>)
    ensures
        ({
            let es = batch_entry_views(entries@);
            let ts = byte_seqs(targets@);
            match r {
                Ok(p) => {
                    &&& !(exists|i: int|
                        0 <= i < es.len() && (#[trigger] es[i]).name != lit_metadata_name()
                            && es[i].owner != me) || sudo
                    &&& cmd_views(p.0@) == es.filter(extract_entry_pred(ts)).map_values(
                        |e: BatchEntryV|
                            extract_cmd_spec(
                                join_spec(batch_dir@, e.name),
                                meta_cwd@,
                                e.owner != me,
                            ),
                    )
                    &&& copy_views(p.1@) == es.filter(copy_entry_pred(ts)).map_values(
                        |e: BatchEntryV|
                            CopyV {
                                src: join_spec(batch_dir@, e.name),
                                dest: join_spec(meta_cwd@, e.name),
                                elevated: e.owner != me,
                            },
                    )
                },
                Err(e) => {
                    &&& !sudo
                    &&& exists|i: int|
                        0 <= i < es.len() && (#[trigger] es[i]).name != lit_metadata_name()
                            && es[i].owner != me && (e matches ArchiveError::PrivilegeDenied {
                            path,
                            owner,
                        } && path@ == join_spec(batch_dir@, es[i].name) && owner == es[i].owner)
                },
            }
        }),
{
    let ghost es = batch_entry_views(entries@);
    let ghost ts = byte_seqs(targets@);
    let (to_copy, to_extract) = partition_batch(entries, targets);
    let mut extracts: Vec<Cmd> = Vec::new();
    let mut copies: Vec<CopyAction> = Vec::new();
    let ghost xs = es.filter(extract_entry_pred(ts));
    let ghost cs = es.filter(copy_entry_pred(ts));
    let mut i: usize = 0;
    proof {
        assert(xs.subrange(0, 0) =~= Seq::<BatchEntryV>::empty());
        assert(cmd_views(extracts@) =~= xs.subrange(0, 0).map_values(
            |e: BatchEntryV|
                extract_cmd_spec(join_spec(batch_dir@, e.name), meta_cwd@, e.owner != me),
        ));
    }
    while i < to_extract.len()
        invariant
            i <= to_extract@.len(),
            batch_entry_views(to_extract@) == xs,
            xs == es.filter(extract_entry_pred(ts)),
            es == batch_entry_views(entries@),
            ts == byte_seqs(targets@),
            sudo || forall|j: int| 0 <= j < i ==> (#[trigger] xs[j]).owner == me,
            cmd_views(extracts@) == xs.subrange(0, i as int).map_values(
                |e: BatchEntryV|
                    extract_cmd_spec(join_spec(batch_dir@, e.name), meta_cwd@, e.owner != me),
            ),
        decreases to_extract@.len() - i,
    {
        let e = &to_extract[i];
        let bundle = join_path(batch_dir, &e.name);
        let cmd = match extract_command(&bundle, meta_cwd, e.owner, me, sudo) {
            Ok(c) => c,
            Err(err) => {
                proof {
                    assert(xs[i as int] == to_extract@[i as int]@);
                    assert(xs[i as int].owner != me && !sudo);
                    assert(xs.contains(xs[i as int]));
                    es.lemma_filter_contains_rev(extract_entry_pred(ts), xs[i as int]);
                    let w = choose|w: int| 0 <= w < es.len() && es[w] == xs[i as int];
                    assert(es[w].name != lit_metadata_name() && es[w].owner != me);
                    assert(err matches ArchiveError::PrivilegeDenied { path, owner } && path@
                        == join_spec(batch_dir@, es[w].name) && owner == es[w].owner);
                }
                return Err(err);
            },
        };
        let ghost pre = extracts@;
        let ghost cv = cmd@;
        extracts.push(cmd);
        proof {
            assert(xs[i as int] == to_extract@[i as int]@);
            assert(cv == extract_cmd_spec(
                join_spec(batch_dir@, xs[i as int].name),
                meta_cwd@,
                xs[i as int].owner != me,
            ));
            assert(cmd_views(extracts@) =~= cmd_views(pre).push(cv));
            assert(xs.subrange(0, i as int + 1) =~= xs.subrange(0, i as int).push(xs[i as int]));
            assert(cmd_views(extracts@) =~= xs.subrange(0, i as int + 1).map_values(
                |e: BatchEntryV|
                    extract_cmd_spec(join_spec(batch_dir@, e.name), meta_cwd@, e.owner != me),
            ));
        }
        i = i + 1;
    }
    proof {
        assert(xs.subrange(0, xs.len() as int) =~= xs);
    }
    let mut i: usize = 0;
    proof {
        assert(cs.subrange(0, 0) =~= Seq::<BatchEntryV>::empty());
        assert(copy_views(copies@) =~= cs.subrange(0, 0).map_values(
            |e: BatchEntryV|
                CopyV {
                    src: join_spec(batch_dir@, e.name),
                    dest: join_spec(meta_cwd@, e.name),
                    elevated: e.owner != me,
                },
        ));
    }
    while i < to_copy.len()
        invariant
            i <= to_copy@.len(),
            batch_entry_views(to_copy@) == cs,
            cs == es.filter(copy_entry_pred(ts)),
            es == batch_entry_views(entries@),
            ts == byte_seqs(targets@),
            sudo || forall|j: int| 0 <= j < i ==> (#[trigger] cs[j]).owner == me,
            copy_views(copies@) == cs.subrange(0, i as int).map_values(
                |e: BatchEntryV|
                    CopyV {
                        src: join_spec(batch_dir@, e.name),
                        dest: join_spec(meta_cwd@, e.name),
                        elevated: e.owner != me,
                    },
            ),
        decreases to_copy@.len() - i,
    {
        let e = &to_copy[i];
        if e.owner != me && !sudo {
            let denied = ArchiveError::PrivilegeDenied {
                path: join_path(batch_dir, &e.name),
                owner: e.owner,
            };
            proof {
                assert(cs[i as int] == to_copy@[i as int]@);
                assert(cs.contains(cs[i as int]));
                es.lemma_filter_contains_rev(copy_entry_pred(ts), cs[i as int]);
                let w = choose|w: int| 0 <= w < es.len() && es[w] == cs[i as int];
                assert(es[w].name != lit_metadata_name() && es[w].owner != me);
                assert(denied matches ArchiveError::PrivilegeDenied { path, owner } && path@
                    == join_spec(batch_dir@, es[w].name) && owner == es[w].owner);
            }
            return Err(denied);
        }
        let ghost pre = copies@;
        let action = CopyAction {
            src: join_path(batch_dir, &e.name),
            dest: join_path(meta_cwd, &e.name),
            elevated: e.owner != me,
        };
        let ghost av = action@;
        copies.push(action);
        proof {
            assert(cs[i as int] == to_copy@[i as int]@);
            assert(av == CopyV {
                src: join_spec(batch_dir@, cs[i as int].name),
                dest: join_spec(meta_cwd@, cs[i as int].name),
                elevated: cs[i as int].owner != me,
            });
            assert(copy_views(copies@) =~= copy_views(pre).push(av));
            assert(cs.subrange(0, i as int + 1) =~= cs.subrange(0, i as int).push(cs[i as int]));
            assert(copy_views(copies@) =~= cs.subrange(0, i as int + 1).map_values(
                |e: BatchEntryV|
                    CopyV {
                        src: join_spec(batch_dir@, e.name),
                        dest: join_spec(meta_cwd@, e.name),
                        elevated: e.owner != me,
                    },
            ));
        }
        i = i + 1;
    }
    proof {
        assert(cs.subrange(0, cs.len() as int) =~= cs);
        if !sudo {
            assert forall|j: int|
                0 <= j < es.len() && (#[trigger] es[j]).name != lit_metadata_name() implies
                es[j].owner == me by {
                if ts.contains(es[j].name) {
                    es.lemma_filter_contains(copy_entry_pred(ts), j);
                    let w = choose|w: int| 0 <= w < cs.len() && cs[w] == es[j];
                    assert(cs[w].owner == me);
                } else {
                    es.lemma_filter_contains(extract_entry_pred(ts), j);
                    let w = choose|w: int| 0 <= w < xs.len() && xs[w] == es[j];
                    assert(xs[w].owner == me);
                }
            }
        }
    }
    Ok((extracts, copies))
}

/// Reads a batch's record back from its on-disk text; a text that does not
/// parse is fatal for this batch alone, surfaced as `MetadataCorrupt`
/// naming the batch.
pub fn read_metadata(batch: &Vec<u8>, text: &Vec<u8>) -> (r: Result<Metadata, ArchiveError>)
    ensures
        match r {
            Ok(m) => parse_spec(text@) == Some(m@),
            Err(e) => parse_spec(text@) is None && (e matches ArchiveError::MetadataCorrupt {
                batch: b,
            } && b@ == batch@),
        },
{
    match parse_metadata(text) {
        Some(m) => Ok(m),
        None => Err(ArchiveError::MetadataCorrupt { batch: clone_bytes(batch) }),
    }
}

/// The archival/recovery round trip for a copied member: recovering a
/// batch into the origin directory its metadata records sends the entry
/// named like the i-th recorded target back to the i-th archived member's
/// exact original absolute path — which is where `plan_batch_recovery`
/// directs that entry's copy.
pub proof fn lemma_copy_round_trip(
    p: crate::plan::BatchPlanV,
    files: Seq<crate::categorize::TargetV>,
    parent: Seq<u8>,
    root: Seq<u8>,
    id: u64,
    me: u32,
    e: BatchEntryV,
    i: int,
)
    requires
        crate::plan::group_plan_ok(p, files, parent, root, id, me),
        forall|k: int|
            0 <= k < files.len() ==> crate::plan::unit_file_ok(#[trigger] files[k], parent),
        0 <= i < p.meta_targets.len(),
        e.name == p.meta_targets[i],
    ensures
        join_spec(p.cwd, e.name) == p.members[i],
{
    crate::plan::lemma_group_plan_reconstructs(p, files, parent, root, id, me);
}

/// The stages one batch passes through while being recovered.
pub enum RecoveryStage {
    Located,
    MetadataLoaded,
    MembersPartitioned,
    MembersRestored,
    BatchRemoved,
}

/// The stage reached after one successful step.
pub open spec fn next_stage(s: RecoveryStage) -> RecoveryStage {
    match s {
        RecoveryStage::Located => RecoveryStage::MetadataLoaded,
        RecoveryStage::MetadataLoaded => RecoveryStage::MembersPartitioned,
        RecoveryStage::MembersPartitioned => RecoveryStage::MembersRestored,
        RecoveryStage::MembersRestored => RecoveryStage::BatchRemoved,
        RecoveryStage::BatchRemoved => RecoveryStage::BatchRemoved,
    }
}

/// Advances the per-batch state machine by one step.  The batch directory
/// is reached for deletion only from `MembersRestored` after a successful
/// step: any failure earlier leaves the stage — and the batch — as it was.
pub fn recovery_step(s: RecoveryStage, step_ok: bool) -> (r: RecoveryStage)
    ensures
        r == if step_ok {
            next_stage(s)
        } else {
            s
        },
        r is BatchRemoved <==> (s is MembersRestored && step_ok) || s is BatchRemoved,
{
    if step_ok {
        match s {
            RecoveryStage::Located => RecoveryStage::MetadataLoaded,
            RecoveryStage::MetadataLoaded => RecoveryStage::MembersPartitioned,
            RecoveryStage::MembersPartitioned => RecoveryStage::MembersRestored,
            RecoveryStage::MembersRestored => RecoveryStage::BatchRemoved,
            RecoveryStage::BatchRemoved => RecoveryStage::BatchRemoved,
        }
    } else {
        s
    }
}

/// The verdict on one batch's restoration: only a batch whose every member
/// restored may be deleted; anything less keeps the batch and is surfaced
/// as `PartialRecovery` naming it.
pub fn batch_outcome(batch: &Vec<u8>, restored: usize, total: usize) -> (r: Result<
    (),
    ArchiveError,
>)
    requires
        restored <= total,
    ensures
        r is Ok <==> restored == total,
        r matches Err(e) ==> (e matches ArchiveError::PartialRecovery { batch: b } && b@
            == batch@),
{
    if restored == total {
        Ok(())
    } else {
        Err(ArchiveError::PartialRecovery { batch: clone_bytes(batch) })
    }
}

} // verus!
