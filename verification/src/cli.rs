//! The request surface: which action an invocation performs, on which
//! store, and with what follow-up work.
//!
//! The surrounding binary parses the command line into these types; the
//! mapping from an action to what it does — which store it works against,
//! whether originals are removed, whether the retention sweep runs — is
//! decided and verified here.

use vstd::prelude::*;

verus! {

/// The positional targets of one subcommand.
pub struct Args {
    pub targets: Vec<Vec<u8>>,
}

/// One invocation's request: an optional configuration file, free
/// positional targets, and the chosen action.
pub struct Cli {
    pub config: Option<Vec<u8>>,
    pub targets: Vec<Vec<u8>>,
    pub action: Option<Action>,
}

/// The subcommands: archive-and-remove, backup, recover, the two listing
/// views, and backup-then-remove.
pub enum Action {
    Bkup(Args),
    Rmrf(Args),
    Rcvr(Args),
    LsBkup(Args),
    LsRmrf(Args),
    BkupRmrf(Args),
}

impl Default for Action {
    /// An invocation without a subcommand archives and removes.
    fn default() -> (r: Self)
        ensures
            r matches Action::Rmrf(a) && a.targets@.len() == 0,
    {
        Action::Rmrf(Args { targets: Vec::new() })
    }
}

/// Which store an action works against.
pub enum StoreKind {
    RmrfStore,
    BkupStore,
}

/// What one invocation does: archive targets (optionally removing the
/// originals and sweeping afterwards), recover batches, or list a store.
pub enum ActionPlan {
    Archive { store: StoreKind, remove_originals: bool, sweep_after: bool },
    Recover { store: StoreKind },
    List { store: StoreKind },
}

/// How each action maps to its work: removal archives into the rmrf store,
/// removes the originals and sweeps; backup archives into the backup store
/// and touches nothing else; backup-then-remove archives into the backup
/// store and removes the originals without sweeping; recovery reads the
/// rmrf store; the listing views read their store.
pub open spec fn action_plan_spec(a: Action) -> ActionPlan {
    match a {
        Action::Bkup(_) => ActionPlan::Archive {
            store: StoreKind::BkupStore,
            remove_originals: false,
            sweep_after: false,
        },
        Action::Rmrf(_) => ActionPlan::Archive {
            store: StoreKind::RmrfStore,
            remove_originals: true,
            sweep_after: true,
        },
        Action::Rcvr(_) => ActionPlan::Recover { store: StoreKind::RmrfStore },
        Action::LsBkup(_) => ActionPlan::List { store: StoreKind::BkupStore },
        Action::LsRmrf(_) => ActionPlan::List { store: StoreKind::RmrfStore },
        Action::BkupRmrf(_) => ActionPlan::Archive {
            store: StoreKind::BkupStore,
            remove_originals: true,
            sweep_after: false,
        },
    }
}

/// The work an action stands for.
pub fn plan_action(a: &Action) -> (r: ActionPlan)
    ensures
        r == action_plan_spec(*a),
{
    match a {
        Action::Bkup(_) => ActionPlan::Archive {
            store: StoreKind::BkupStore,
            remove_originals: false,
            sweep_after: false,
        },
        Action::Rmrf(_) => ActionPlan::Archive {
            store: StoreKind::RmrfStore,
            remove_originals: true,
            sweep_after: true,
        },
        Action::Rcvr(_) => ActionPlan::Recover { store: StoreKind::RmrfStore },
        Action::LsBkup(_) => ActionPlan::List { store: StoreKind::BkupStore },
        Action::LsRmrf(_) => ActionPlan::List { store: StoreKind::RmrfStore },
        Action::BkupRmrf(_) => ActionPlan::Archive {
            store: StoreKind::BkupStore,
            remove_originals: true,
            sweep_after: false,
        },
    }
}

impl Action {
    /// The positional targets the action was invoked with.
    pub fn targets(&self) -> (r: &Vec<Vec<u8>>)
        ensures
            r == match self {
                Action::Bkup(a) => &a.targets,
                Action::Rmrf(a) => &a.targets,
                Action::Rcvr(a) => &a.targets,
                Action::LsBkup(a) => &a.targets,
                Action::LsRmrf(a) => &a.targets,
                Action::BkupRmrf(a) => &a.targets,
            },
    {
        match self {
            Action::Bkup(a) => &a.targets,
            Action::Rmrf(a) => &a.targets,
            Action::Rcvr(a) => &a.targets,
            Action::LsBkup(a) => &a.targets,
            Action::LsRmrf(a) => &a.targets,
            Action::BkupRmrf(a) => &a.targets,
        }
    }
}

} // verus!
