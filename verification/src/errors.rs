use vstd::prelude::*;

verus! {

/// Errors reported by the maze library.
///
/// Configuration errors are detected before any traversal begins; a failed
/// search is reported instead of looping forever.
#[derive(Clone, Copy, Debug, PartialEq, Eq, Structural)]
pub enum MazeError {
    /// A grid dimension is zero (or, for the radial topology, the spoke
    /// count is too small to form distinct neighbors).
    EmptyGrid,
    /// A bias parameter lies outside the accepted range.
    BiasOutOfRange,
    /// The configured room bounds are empty or do not fit inside the grid
    /// with a one-cell margin.
    BadRoomBounds,
    /// A start or stop coordinate lies outside the grid.
    OutOfBounds,
    /// The stop cell cannot be reached from the start cell through the
    /// currently open passages.
    Unreachable,
}

} // verus!
