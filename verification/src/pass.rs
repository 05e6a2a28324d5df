//! The whole pass: discovery, then the rewrite by what discovery found.

use crate::builder::SysBuilder;
use crate::discovery::{discover, GatherModulesToCut};
use crate::emission::{cut, failed, Failure, OutcomeView};
use crate::error::PassError;
use crate::ir::SysView;
use crate::rewrite::{cut_all, CutReport};
use vstd::prelude::*;

verus! {

/// What the whole pass makes of a system: the rewrite by the containers
/// that discovery finds. Where discovery fails the system is left as it was.
pub open spec fn split(sv: SysView) -> Result<OutcomeView, Failure> {
    match discover(sv, Map::empty(), sv.len()) {
        Err(e) => Err(failed(e, sv)),
        Ok(map) => cut(sv, map),
    }
}

/// Splits every module of `sys` that holds a barrier marker, but for test
/// harnesses, into its stages.
pub fn split_modules(sys: &mut SysBuilder) -> (r: Result<CutReport, PassError>)
    requires
        old(sys)@.wf(),
    ensures
        match r {
            Ok(report) => split(old(sys)@) == Ok::<OutcomeView, Failure>(
                OutcomeView {
                    sys: final(sys)@,
                    created: report.created@,
                    skipped: report.skipped@,
                },
            ),
            Err(e) => split(old(sys)@) == Err::<OutcomeView, Failure>(failed(e, final(sys)@)),
        },
        final(sys)@.wf(),
        old(sys)@.grows_to(final(sys)@),
{
    let found = {
        let mut gather = GatherModulesToCut::new(&*sys);
        match gather.enter(&*sys) {
            Err(e) => Err(e),
            Ok(()) => Ok(gather.into_submodule_container_map()),
        }
    };
    match found {
        Err(e) => {
            proof {
                sys@.lemma_grows_refl();
            }
            Err(e)
        },
        Ok(map) => cut_all(sys, &map),
    }
}

} // verus!
