//! The ways in which reordering a variant list can fail.

use vstd::prelude::*;

verus! {

/// Why a list of variants could not be reordered. Either failure ends the
/// whole operation: nothing is produced.
#[derive(Debug, Clone, Copy, PartialEq, Eq, Structural)]
pub enum ReorderError {
    /// A regular (non-I-frame) variant names no audio group, so there is no
    /// key to group it by.
    MissingAudioGroup,
    /// A variant's bandwidth is not a decimal number that fits a machine word.
    MalformedBandwidth,
}

} // verus!
