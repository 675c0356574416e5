use vstd::prelude::*;

verus! {

/// Failures that the engine itself can detect.
///
/// `CorruptData` reports a backing buffer whose content is non-empty but not
/// a valid serialized collection (or one whose dimension differs from the
/// configured one).  `DimensionMismatch` reports an embedding vector whose
/// length differs from the collection's configured dimensionality.
/// I/O and provider failures arise outside the engine and are reported by
/// the surrounding application.
#[derive(Clone, Copy, PartialEq, Eq, Structural, Debug)]
pub enum StoreError {
    CorruptData,
    DimensionMismatch { expected: usize, actual: usize },
}

} // verus!
