//! The commands of the program.

pub mod transform;

use crate::cli::cmd::transform::Transform;
use vstd::prelude::*;

verus! {

/// A command of the program.
#[derive(Debug, Clone)]
pub enum Command {
    /// Reshape a transcript.
    Transform(Transform),
}

} // verus!
