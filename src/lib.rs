//! Remaps alignments made against a doubled circular reference back onto
//! the single-copy reference.
//!
//! Reads from a circular molecule (a plasmid) are aligned against two copies
//! of its sequence laid end to end, so that a linear aligner can find reads
//! that run across the origin. This crate turns such alignments back into
//! coordinates on one copy: an alignment that crosses the boundary between
//! the copies becomes a single operation list in which the part past the
//! boundary comes first, a gap operation stands for the uncovered middle of
//! the reference, and the part before the boundary comes last.

mod cigar;
mod record;
mod split;

pub use split::mod_cigar;

pub use cigar::{new_cigar, ref_occupancy, Cigar};


pub use record::{
    is_primary, AlignmentRecord, RemapError, Remapper, FLAG_DUPLICATE, FLAG_QC_FAIL,
    FLAG_SECONDARY, FLAG_SUPPLEMENTARY, FLAG_UNMAPPED, NONPRIMARY,
};
