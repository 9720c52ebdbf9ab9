//! Building the external commands the archiver runs.
//!
//! The compression, extraction, elevated-copy and elevated-removal steps are
//! delegated to external utilities.  The exact program and argument vector
//! for each of them is computed — and verified — here; spawning the process
//! and reading its exit status stay with the caller, which feeds the status
//! back through `build_status`.
//!
//! Every path handed to the compression step is expressed relative to the
//! unit's working directory, never absolute, so a bundle later restores
//! cleanly into an arbitrary location.

use vstd::prelude::*;
use crate::paths::{SEP, rel_to_spec, relative_to, clone_bytes};
use crate::errors::ArchiveError;

verus! {

/// One external command to be spawned by the caller: a program and its
/// argument vector.
pub struct Cmd {
    pub program: Vec<u8>,
    pub args: Vec<Vec<u8>>,
}

/// The byte sequences of an argument vector.
pub open spec fn arg_views(s: Seq<Vec<u8>>) -> Seq<Seq<u8>> {
    s.map_values(|a: Vec<u8>| a@)
}

/// The mathematical value of a `Cmd`.
#[verifier::ext_equal]
pub ghost struct CmdV {
    pub program: Seq<u8>,
    pub args: Seq<Seq<u8>>,
}

impl View for Cmd {
    type V = CmdV;

    open spec fn view(&self) -> CmdV {
        CmdV { program: self.program@, args: arg_views(self.args@) }
    }
}

/// `sudo`
pub open spec fn lit_sudo() -> Seq<u8> {
    seq![115u8, 117u8, 100u8, 111u8]
}

/// `tar`
pub open spec fn lit_tar() -> Seq<u8> {
    seq![116u8, 97u8, 114u8]
}

/// `-czf`
pub open spec fn lit_czf() -> Seq<u8> {
    seq![45u8, 99u8, 122u8, 102u8]
}

/// `-C`
pub open spec fn lit_chdir() -> Seq<u8> {
    seq![45u8, 67u8]
}

/// `xpf`
pub open spec fn lit_xpf() -> Seq<u8> {
    seq![120u8, 112u8, 102u8]
}

/// `xzf`
pub open spec fn lit_xzf() -> Seq<u8> {
    seq![120u8, 122u8, 102u8]
}

/// `--same-owner`
pub open spec fn lit_same_owner() -> Seq<u8> {
    seq![45u8, 45u8, 115u8, 97u8, 109u8, 101u8, 45u8, 111u8, 119u8, 110u8, 101u8, 114u8]
}

/// `rm`
pub open spec fn lit_rm() -> Seq<u8> {
    seq![114u8, 109u8]
}

/// `-rf`
pub open spec fn lit_rf() -> Seq<u8> {
    seq![45u8, 114u8, 102u8]
}

/// `-f`
pub open spec fn lit_f() -> Seq<u8> {
    seq![45u8, 102u8]
}

/// `cp`
pub open spec fn lit_cp() -> Seq<u8> {
    seq![99u8, 112u8]
}

/// `-a`
pub open spec fn lit_archive_flag() -> Seq<u8> {
    seq![45u8, 97u8]
}

fn sudo_prog() -> (r: Vec<u8>)
    ensures
        r@ == lit_sudo(),
{
    let r: Vec<u8> = vec![115, 117, 100, 111];
    proof {
        assert(r@ =~= lit_sudo());
    }
    r
}

fn tar_prog() -> (r: Vec<u8>)
    ensures
        r@ == lit_tar(),
{
    let r: Vec<u8> = vec![116, 97, 114];
    proof {
        assert(r@ =~= lit_tar());
    }
    r
}

fn czf_arg() -> (r: Vec<u8>)
    ensures
        r@ == lit_czf(),
{
    let r: Vec<u8> = vec![45, 99, 122, 102];
    proof {
        assert(r@ =~= lit_czf());
    }
    r
}

fn chdir_arg() -> (r: Vec<u8>)
    ensures
        r@ == lit_chdir(),
{
    let r: Vec<u8> = vec![45, 67];
    proof {
        assert(r@ =~= lit_chdir());
    }
    r
}

fn xpf_arg() -> (r: Vec<u8>)
    ensures
        r@ == lit_xpf(),
{
    let r: Vec<u8> = vec![120, 112, 102];
    proof {
        assert(r@ =~= lit_xpf());
    }
    r
}

fn xzf_arg() -> (r: Vec<u8>)
    ensures
        r@ == lit_xzf(),
{
    let r: Vec<u8> = vec![120, 122, 102];
    proof {
        assert(r@ =~= lit_xzf());
    }
    r
}

fn same_owner_arg() -> (r: Vec<u8>)
    ensures
        r@ == lit_same_owner(),
{
    let r: Vec<u8> = vec![45, 45, 115, 97, 109, 101, 45, 111, 119, 110, 101, 114];
    proof {
        assert(r@ =~= lit_same_owner());
    }
    r
}

fn rm_arg() -> (r: Vec<u8>)
    ensures
        r@ == lit_rm(),
{
    let r: Vec<u8> = vec![114, 109];
    proof {
        assert(r@ =~= lit_rm());
    }
    r
}

fn rf_arg() -> (r: Vec<u8>)
    ensures
        r@ == lit_rf(),
{
    let r: Vec<u8> = vec![45, 114, 102];
    proof {
        assert(r@ =~= lit_rf());
    }
    r
}

fn f_arg() -> (r: Vec<u8>)
    ensures
        r@ == lit_f(),
{
    let r: Vec<u8> = vec![45, 102];
    proof {
        assert(r@ =~= lit_f());
    }
    r
}

fn cp_arg() -> (r: Vec<u8>)
    ensures
        r@ == lit_cp(),
{
    let r: Vec<u8> = vec![99, 112];
    proof {
        assert(r@ =~= lit_cp());
    }
    r
}

fn archive_flag_arg() -> (r: Vec<u8>)
    ensures
        r@ == lit_archive_flag(),
{
    let r: Vec<u8> = vec![45, 97];
    proof {
        assert(r@ =~= lit_archive_flag());
    }
    r
}

/// How one tar target is written on the command line: an absolute path is
/// made relative to the working directory, anything else is kept verbatim.
pub open spec fn tar_target_spec(t: Seq<u8>, cwd: Seq<u8>) -> Seq<u8> {
    if t.len() > 0 && t[0] == SEP {
        rel_to_spec(t, cwd)
    } else {
        t
    }
}

/// The tar targets of a whole list, in order.
pub open spec fn tar_target_views(ts: Seq<Vec<u8>>, cwd: Seq<u8>) -> Seq<Seq<u8>> {
    ts.map_values(|t: Vec<u8>| tar_target_spec(t@, cwd))
}

/// The fixed part of a bundle-creation argument vector.
pub open spec fn tar_create_prefix(tarball: Seq<u8>, cwd: Seq<u8>) -> Seq<Seq<u8>> {
    seq![lit_czf(), tarball, lit_chdir(), cwd]
}

/// The command that creates the compressed bundle `tarball_path` from
/// `targets`, working relative to `cwd`.  With `sudo` the same tar
/// invocation is issued through the elevation utility.
pub fn create_tar_command(sudo: bool, tarball_path: &Vec<u8>, cwd: &Vec<u8>, targets: &Vec<
    Vec<u8>,
>) -> (c: Cmd)
    ensures
        c.program@ == if sudo {
            lit_sudo()
        } else {
            lit_tar()
        },
        arg_views(c.args@) == (if sudo {
            seq![lit_tar()]
        } else {
            Seq::<Seq<u8>>::empty()
        }) + tar_create_prefix(tarball_path@, cwd@) + tar_target_views(targets@, cwd@),
{
    let mut args: Vec<Vec<u8>> = Vec::new();
    if sudo {
        args.push(tar_prog());
    }
    args.push(czf_arg());
    args.push(clone_bytes(tarball_path));
    args.push(chdir_arg());
    args.push(clone_bytes(cwd));
    let ghost head = arg_views(args@);
    proof {
        assert(head =~= (if sudo {
            seq![lit_tar()]
        } else {
            Seq::<Seq<u8>>::empty()
        }) + tar_create_prefix(tarball_path@, cwd@));
    }
    let mut i: usize = 0;
    while i < targets.len()
        invariant
            i <= targets@.len(),
            arg_views(args@) == head + tar_target_views(targets@.subrange(0, i as int), cwd@),
        decreases targets@.len() - i,
    {
        let t = &targets[i];
        let rel = if t.len() > 0 && t[0] == SEP {
            relative_to(t, cwd)
        } else {
            clone_bytes(t)
        };
        let ghost pre_args = args@;
        let ghost rel_v = rel@;
        args.push(rel);
        proof {
            assert(args@ == pre_args.push(rel));
            assert(arg_views(args@) =~= arg_views(pre_args).push(rel_v));
            assert(targets@.subrange(0, i as int + 1) =~= targets@.subrange(0, i as int).push(
                targets@[i as int],
            ));
            assert(tar_target_views(targets@.subrange(0, i as int + 1), cwd@) =~= tar_target_views(
                targets@.subrange(0, i as int),
                cwd@,
            ).push(tar_target_spec(targets@[i as int]@, cwd@)));
            assert(arg_views(args@) =~= head + tar_target_views(
                targets@.subrange(0, i as int + 1),
                cwd@,
            ));
        }
        i = i + 1;
    }
    proof {
        assert(targets@.subrange(0, targets@.len() as int) =~= targets@);
    }
    let program = if sudo {
        sudo_prog()
    } else {
        tar_prog()
    };
    Cmd { program, args }
}

/// The command that restores the bundle at `bundle` into `restore_to`.
/// A bundle owned by another user needs elevation and keeps its recorded
/// ownership on restore; without permission to elevate, nothing is run and
/// `PrivilegeDenied` names the bundle.  A bundle owned by the invoking user
/// is extracted directly.
pub fn extract_command(bundle: &Vec<u8>, restore_to: &Vec<u8>, owner: u32, me: u32,
    sudo_allowed: bool) -> (r: Result<Cmd, ArchiveError>)
    ensures
        owner != me && !sudo_allowed ==> (r matches Err(e) && (e matches
            ArchiveError::PrivilegeDenied { path, owner: o } && path@ == bundle@ && o == owner)),
        owner != me && sudo_allowed ==> (r matches Ok(c) && c.program@ == lit_sudo() && arg_views(
            c.args@,
        ) == seq![lit_tar(), lit_xpf(), bundle@, lit_chdir(), restore_to@, lit_same_owner()]),
        owner == me ==> (r matches Ok(c) && c.program@ == lit_tar() && arg_views(c.args@)
            == seq![lit_xzf(), bundle@, lit_chdir(), restore_to@]),
{
    if owner != me {
        if !sudo_allowed {
            return Err(
                ArchiveError::PrivilegeDenied { path: clone_bytes(bundle), owner },
            );
        }
        let mut args: Vec<Vec<u8>> = Vec::new();
        args.push(tar_prog());
        args.push(xpf_arg());
        args.push(clone_bytes(bundle));
        args.push(chdir_arg());
        args.push(clone_bytes(restore_to));
        args.push(same_owner_arg());
        proof {
            assert(arg_views(args@) =~= seq![
                lit_tar(),
                lit_xpf(),
                bundle@,
                lit_chdir(),
                restore_to@,
                lit_same_owner(),
            ]);
        }
        Ok(Cmd { program: sudo_prog(), args })
    } else {
        let mut args: Vec<Vec<u8>> = Vec::new();
        args.push(xzf_arg());
        args.push(clone_bytes(bundle));
        args.push(chdir_arg());
        args.push(clone_bytes(restore_to));
        proof {
            assert(arg_views(args@) =~= seq![lit_xzf(), bundle@, lit_chdir(), restore_to@]);
        }
        Ok(Cmd { program: tar_prog(), args })
    }
}

/// How one member is removed: directly through the filesystem, or through
/// the elevation utility when the member belongs to another user.
pub enum RemovalPlan {
    /// The caller removes the member itself (remove the file, or the whole
    /// directory tree).
    Direct,
    /// The caller runs this command instead.
    Elevated(Cmd),
}

/// The removal route for one member: elevated exactly when elevation is
/// permitted and the member is owned by another user, matching the policy
/// decision made for its unit; direct otherwise.
pub fn plan_removal(path: &Vec<u8>, is_dir: bool, owner: u32, me: u32, sudo: bool) -> (r:
    RemovalPlan)
    ensures
        (sudo && owner != me) <==> r matches RemovalPlan::Elevated(_),
        r matches RemovalPlan::Elevated(c) ==> (c.program@ == lit_sudo() && arg_views(c.args@)
            == seq![
            lit_rm(),
            if is_dir {
                lit_rf()
            } else {
                lit_f()
            },
            path@,
        ]),
{
    if sudo && owner != me {
        let mut args: Vec<Vec<u8>> = Vec::new();
        args.push(rm_arg());
        if is_dir {
            args.push(rf_arg());
        } else {
            args.push(f_arg());
        }
        args.push(clone_bytes(path));
        proof {
            assert(arg_views(args@) =~= seq![
                lit_rm(),
                if is_dir {
                    lit_rf()
                } else {
                    lit_f()
                },
                path@,
            ]);
        }
        RemovalPlan::Elevated(Cmd { program: sudo_prog(), args })
    } else {
        RemovalPlan::Direct
    }
}

/// The elevated copy command `sudo cp -a src dest`, used for a member owned
/// by another user once its unit's policy decision allowed elevation.
pub fn copy_command(src: &Vec<u8>, dest: &Vec<u8>) -> (c: Cmd)
    ensures
        c.program@ == lit_sudo(),
        arg_views(c.args@) == seq![lit_cp(), lit_archive_flag(), src@, dest@],
{
    let mut args: Vec<Vec<u8>> = Vec::new();
    args.push(cp_arg());
    args.push(archive_flag_arg());
    args.push(clone_bytes(src));
    args.push(clone_bytes(dest));
    proof {
        assert(arg_views(args@) =~= seq![lit_cp(), lit_archive_flag(), src@, dest@]);
    }
    Cmd { program: sudo_prog(), args }
}

/// The verdict on one artifact's external build step: exit status zero
/// succeeds; anything else aborts the unit with `BuildFailed` naming the
/// artifact and the status.
pub fn build_status(artifact: &Vec<u8>, status: i32) -> (r: Result<(), ArchiveError>)
    ensures
        r is Ok <==> status == 0,
        r matches Err(e) ==> (e matches ArchiveError::BuildFailed { artifact: a, status: st } && a@
            == artifact@ && st == status),
{
    if status == 0 {
        Ok(())
    } else {
        Err(ArchiveError::BuildFailed { artifact: clone_bytes(artifact), status })
    }
}

} // verus!
