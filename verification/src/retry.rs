//! The bounded retry loop around one requested operation. A conflict failure
//! can be recovered once the user (or the confirm-all mode) agrees to
//! uninstall every owner named in the conflict report; the whole original
//! operation is then re-attempted from scratch. Any other failure, or an
//! exhausted attempt budget, ends the run with an error.

use vstd::prelude::*;
use crate::install::{Error, FileConfilctCheck, FileConfilctCheckV};

verus! {

/// How many times one requested operation is attempted at most.
pub const MAX_ATTEMPTS: u64 = 4;

/// What the orchestrator does after one attempt.
#[derive(Debug)]
pub enum RetryAction {
    /// The operation succeeded; stop.
    Done,
    /// Uninstall these install ids, then run the whole operation again.
    RetryAfterUninstall(Vec<String>),
    /// Report the error and end the run with a failure status.
    Fail,
}

/// The install ids named in a conflict report, in order.
pub open spec fn conflict_ids(cl: Seq<FileConfilctCheckV>) -> Seq<Seq<char>> {
    cl.map_values(|c: FileConfilctCheckV| c.installed)
}

/// Decide the next step from one attempt's outcome. Only a file conflict is
/// recoverable, and only when the cleanup was confirmed and attempts remain;
/// the recovery uninstalls exactly the owners the conflict names.
pub fn retry_decision(
    outcome: &Result<(), Error>,
    confirmed_cleanup: bool,
    attempts_left: u64,
) -> (r: RetryAction)
    ensures
        match outcome {
            Ok(_) => r is Done,
            Err(e) => {
                if e matches Error::FileConflict(_, cl) && confirmed_cleanup && attempts_left > 0 {
                    r matches RetryAction::RetryAfterUninstall(ids) && ids.deep_view()
                        == conflict_ids(
                        (e->FileConflict_1).deep_view(),
                    )
                } else {
                    r is Fail
                }
            },
        },
{
    match outcome {
        Ok(_) => RetryAction::Done,
        Err(e) => match e {
            Error::FileConflict(_, cl) => {
                if confirmed_cleanup && attempts_left > 0 {
                    let mut ids: Vec<String> = Vec::new();
                    let mut i: usize = 0;
                    while i < cl.len()
                        invariant
                            i <= cl.len(),
                            ids.deep_view() == conflict_ids(cl.deep_view().take(i as int)),
                        decreases cl.len() - i,
                    {
                        let ghost before = ids.deep_view();
                        ids.push(cl[i].installed.clone());
                        proof {
                            assert(ids.deep_view() =~= before.push(
                                cl.deep_view()[i as int].installed,
                            ));
                            assert(conflict_ids(cl.deep_view().take(i + 1 as int)) =~= before.push(
                                cl.deep_view()[i as int].installed,
                            ));
                        }
                        i = i + 1;
                    }
                    proof {
                        assert(cl.deep_view().take(cl.deep_view().len() as int) =~= cl.deep_view());
                    }
                    RetryAction::RetryAfterUninstall(ids)
                } else {
                    RetryAction::Fail
                }
            },
            _ => RetryAction::Fail,
        },
    }
}

} // verus!
