//! The ownership policy guard.
//!
//! The invoking user's identifier is compared once against the owner of
//! every member of a unit; if any differs, the whole unit requires elevated
//! execution.  When elevation is required but disallowed, the unit fails
//! closed — before any copy, compression or deletion — with an error naming
//! the first offending member and its owner.  The decision is made once per
//! unit and reused for every mutating step of that unit.

use vstd::prelude::*;
use crate::categorize::{Target, TargetV, views};
use crate::errors::ArchiveError;

verus! {

/// Whether any member is owned by someone other than the invoking user.
pub open spec fn escalation_spec(s: Seq<TargetV>, me: u32) -> bool {
    exists|i: int| 0 <= i < s.len() && s[i].owner != me
}

/// The first index whose owner differs from `me`, or -1 when all match.
pub open spec fn first_bad(s: Seq<TargetV>, me: u32) -> int
    decreases s.len(),
{
    if s.len() == 0 {
        -1
    } else if s[0].owner != me {
        0
    } else {
        let rest = first_bad(s.subrange(1, s.len() as int), me);
        if rest == -1 {
            -1
        } else {
            rest + 1
        }
    }
}

/// The first mismatch is the unique one preceded only by matches.
pub proof fn lemma_first_bad_is(s: Seq<TargetV>, me: u32, k: int)
    requires
        0 <= k < s.len(),
        s[k].owner != me,
        forall|j: int| 0 <= j < k ==> s[j].owner == me,
    ensures
        first_bad(s, me) == k,
    decreases s.len(),
{
    if k > 0 {
        let rest = s.subrange(1, s.len() as int);
        lemma_first_bad_is(rest, me, k - 1);
    }
}

/// With every owner matching, there is no first mismatch.
pub proof fn lemma_first_bad_none(s: Seq<TargetV>, me: u32)
    requires
        forall|j: int| 0 <= j < s.len() ==> s[j].owner == me,
    ensures
        first_bad(s, me) == -1,
    decreases s.len(),
{
    if s.len() > 0 {
        lemma_first_bad_none(s.subrange(1, s.len() as int), me);
    }
}

/// Whether acting on all of `members` requires elevated privileges: true
/// exactly when some member's owner differs from the invoking user `me`.
pub fn requires_escalation(members: &Vec<Target>, me: u32) -> (r: bool)
    ensures
        r == escalation_spec(views(members@), me),
{
    let mut i: usize = 0;
    while i < members.len()
        invariant
            i <= members@.len(),
            forall|j: int| 0 <= j < i ==> views(members@)[j].owner == me,
        decreases members@.len() - i,
    {
        if members[i].owner != me {
            proof {
                assert(views(members@)[i as int].owner != me);
            }
            return true;
        }
        i = i + 1;
    }
    false
}

/// The escalation decision for one unit, made once and reused for every
/// step of that unit.  `Ok(true)` means every mutating step must run
/// elevated; `Ok(false)` means direct execution suffices.  When elevation
/// is required but `sudo_allowed` is false, the unit fails closed with
/// `PrivilegeDenied` naming the first offending member, before any side
/// effect can have happened.
pub fn check_unit_policy(members: &Vec<Target>, me: u32, sudo_allowed: bool) -> (r: Result<
    bool,
    ArchiveError,
>)
    ensures
        ({
            let vs = views(members@);
            match r {
                Ok(need) => {
                    &&& need == escalation_spec(vs, me)
                    &&& (escalation_spec(vs, me) ==> sudo_allowed)
                },
                Err(e) => {
                    &&& escalation_spec(vs, me)
                    &&& !sudo_allowed
                    &&& e matches ArchiveError::PrivilegeDenied { path, owner } && path@
                        == vs[first_bad(vs, me)].path && owner == vs[first_bad(vs, me)].owner
                },
            }
        }),
{
    let mut i: usize = 0;
    while i < members.len()
        invariant
            i <= members@.len(),
            forall|j: int| 0 <= j < i ==> views(members@)[j].owner == me,
        decreases members@.len() - i,
    {
        if members[i].owner != me {
            proof {
                assert(views(members@)[i as int].owner != me);
                lemma_first_bad_is(views(members@), me, i as int);
            }
            if sudo_allowed {
                return Ok(true);
            } else {
                return Err(
                    ArchiveError::PrivilegeDenied {
                        path: crate::paths::clone_bytes(&members[i].path),
                        owner: members[i].owner,
                    },
                );
            }
        }
        i = i + 1;
    }
    Ok(false)
}

} // verus!
