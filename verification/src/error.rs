//! Why a pass gave up.

use vstd::prelude::*;

verus! {

/// A failure that ends a pass: the analysis or the system it works on does
/// not hold what the pass needs.
#[derive(Debug, Clone, Copy, PartialEq, Eq, Structural)]
pub enum PassError {
    /// The module has barrier values and no input to start the walk from.
    MissingInput,
    /// A level that the walk or the rewrite came to has no stage.
    MissingStage,
    /// A stage reads a value that the stage before it does not hand over.
    MissingHandoff,
    /// An expression uses, or a stage hands on, a value that the stage does not hold.
    MissingValue,
    /// A key addresses no node of the kind that is needed.
    DanglingKey,
    /// The module that a call goes to has no port of the name that is bound.
    MissingPort,
    /// A cut would open a stage under a key that has a stage already.
    StageTaken,
    /// An edge of a graph leads to a key that is not greater: the single
    /// cut does not walk such a graph.
    BackwardEdge,
}

} // verus!
