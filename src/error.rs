use vstd::prelude::*;

verus! {

/// Why a sequence could not be loaded.
#[derive(Debug, Clone, Copy, PartialEq, Eq, Structural)]
pub enum CvError {
    /// A symbol outside the residue alphabet.
    InvalidResidue,
    /// A record with fewer than `LEN - 1` residues, or sequence data before any header.
    MalformedRecord,
    /// No residues at all.
    EmptySequence,
    /// More residues than the exact arithmetic of the background model can hold.
    SequenceTooLong,
}

} // verus!
