//! The result channel's vocabulary: every command the backend accepts is
//! answered by exactly one of these values.

use vstd::prelude::*;
use crate::error::ResymError;
use crate::diffing::DiffedType;

verus! {

/// An ordered list of (display name, type index) pairs.
pub type TypeList = Vec<(String, u32)>;

/// One asynchronous result, tagged by the command family it answers.
#[derive(Debug)]
pub enum FrontendCommand {
    LoadPDBResult(Result<usize, ResymError>),
    ReconstructTypeResult(Result<String, ResymError>),
    DiffTypeResult(Result<DiffedType, ResymError>),
    UpdateFilteredTypes(TypeList),
}

} // verus!
