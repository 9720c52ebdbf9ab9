//! The retention sweeper's decisions.
//!
//! The caller enumerates the immediate entries of the destination root and
//! reports each entry's owner, kind and age; the decision for every entry
//! is made here.  An entry older than the threshold is removed — directly
//! when the invoking user owns it, through elevation when permitted — and
//! otherwise skipped, never force-deleted and never silently dropped from
//! consideration on later runs.  Sweeping what a sweep left behind removes
//! nothing more: the sweep is idempotent.

use vstd::prelude::*;

verus! {

/// One immediate entry of the destination root at sweep time.
pub struct SweepEntry {
    pub path: Vec<u8>,
    pub owner: u32,
    pub is_dir: bool,
    pub age_secs: u64,
}

/// The mathematical value of a `SweepEntry`.
#[verifier::ext_equal]
pub ghost struct SweepEntryV {
    pub path: Seq<u8>,
    pub owner: u32,
    pub is_dir: bool,
    pub age_secs: u64,
}

impl View for SweepEntry {
    type V = SweepEntryV;

    open spec fn view(&self) -> SweepEntryV {
        SweepEntryV {
            path: self.path@,
            owner: self.owner,
            is_dir: self.is_dir,
            age_secs: self.age_secs,
        }
    }
}

/// The views of a sequence of sweep entries.
pub open spec fn entry_views(s: Seq<SweepEntry>) -> Seq<SweepEntryV> {
    s.map_values(|e: SweepEntry| e@)
}

/// Seconds per retention day.
pub const SECS_PER_DAY: u64 = 86400;

/// What the sweeper does with one entry.
pub enum SweepAction {
    /// Not yet past the threshold: left alone.
    KeepRecent,
    /// Expired and deletable: directly, or through elevation.
    Remove { elevated: bool },
    /// Expired but owned by another user while elevation is unavailable:
    /// skipped and surfaced as `SweepSkipped`, not force-deleted.
    SkipPrivilege,
}

/// Whether an entry's age exceeds the retention threshold.
pub open spec fn expired(e: SweepEntryV, days: u64) -> bool {
    e.age_secs > days * (SECS_PER_DAY as nat)
}

/// The sweep decision for one entry: expired entries of the invoking user
/// are removed directly, expired entries of other users only under
/// elevation, and everything younger is kept.
pub open spec fn decision_spec(e: SweepEntryV, me: u32, days: u64, sudo: bool) -> SweepAction {
    if !expired(e, days) {
        SweepAction::KeepRecent
    } else if e.owner == me {
        SweepAction::Remove { elevated: false }
    } else if sudo {
        SweepAction::Remove { elevated: true }
    } else {
        SweepAction::SkipPrivilege
    }
}

/// The sweep decision for one entry.
pub fn sweep_decision(e: &SweepEntry, me: u32, days: u64, sudo: bool) -> (r: SweepAction)
    requires
        days * (SECS_PER_DAY as nat) <= u64::MAX,
    ensures
        r == decision_spec(e@, me, days, sudo),
{
    let threshold: u64 = days * SECS_PER_DAY;
    if e.age_secs <= threshold {
        SweepAction::KeepRecent
    } else if e.owner == me {
        SweepAction::Remove { elevated: false }
    } else if sudo {
        SweepAction::Remove { elevated: true }
    } else {
        SweepAction::SkipPrivilege
    }
}

/// The decisions for a whole root, entry by entry.  One entry's outcome
/// never depends on another's, so a failure acting on one entry cannot
/// change what is decided for the rest.
pub fn sweep_plan(entries: &Vec<SweepEntry>, me: u32, days: u64, sudo: bool) -> (r: Vec<
    SweepAction,
>)
    requires
        days * (SECS_PER_DAY as nat) <= u64::MAX,
    ensures
        r@.len() == entries@.len(),
        forall|i: int|
            0 <= i < entries@.len() ==> r@[i] == decision_spec(
                (#[trigger] entries@[i])@,
                me,
                days,
                sudo,
            ),
{
    let mut r: Vec<SweepAction> = Vec::new();
    let mut i: usize = 0;
    while i < entries.len()
        invariant
            i <= entries@.len(),
            r@.len() == i,
            days * (SECS_PER_DAY as nat) <= u64::MAX,
            forall|j: int|
                0 <= j < i ==> r@[j] == decision_spec((#[trigger] entries@[j])@, me, days, sudo),
        decreases entries@.len() - i,
    {
        let a = sweep_decision(&entries[i], me, days, sudo);
        r.push(a);
        i = i + 1;
    }
    r
}

/// Whether a decision deletes the entry.
pub open spec fn is_removal(a: SweepAction) -> bool {
    a is Remove
}

/// The entries a sweep leaves in place.
pub open spec fn surviving(entries: Seq<SweepEntryV>, me: u32, days: u64, sudo: bool) -> Seq<
    SweepEntryV,
> {
    entries.filter(|e: SweepEntryV| !is_removal(decision_spec(e, me, days, sudo)))
}

/// Filtering keeps a sequence whole when every element already passes.
pub proof fn lemma_filter_all<A>(s: Seq<A>, pred: spec_fn(A) -> bool)
    requires
        forall|i: int| 0 <= i < s.len() ==> pred(#[trigger] s[i]),
    ensures
        s.filter(pred) == s,
    decreases s.len(),
{
    reveal(Seq::filter);
    if s.len() > 0 {
        assert forall|i: int| 0 <= i < s.drop_last().len() implies pred(
            #[trigger] s.drop_last()[i],
        ) by {
            assert(s.drop_last()[i] == s[i]);
        }
        lemma_filter_all(s.drop_last(), pred);
        assert(s.filter(pred) =~= s);
    } else {
        assert(s.filter(pred) =~= s);
    }
}

/// Running the retention sweep twice in succession, with no intervening
/// archival, deletes nothing on the second run: the entries surviving the
/// first sweep all survive the second unchanged.
pub proof fn lemma_sweep_idempotent(entries: Seq<SweepEntryV>, me: u32, days: u64, sudo: bool)
    ensures
        surviving(surviving(entries, me, days, sudo), me, days, sudo) == surviving(
            entries,
            me,
            days,
            sudo,
        ),
{
    let pred = |e: SweepEntryV| !is_removal(decision_spec(e, me, days, sudo));
    let kept = entries.filter(pred);
    assert forall|i: int| 0 <= i < kept.len() implies pred(#[trigger] kept[i]) by {
        Seq::lemma_filter_pred(entries, pred, i);
    }
    lemma_filter_all(kept, pred);
}

} // verus!
