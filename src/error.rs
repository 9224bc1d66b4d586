use vstd::prelude::*;

verus! {

/// Why an analysis run stopped.
#[derive(Clone, Copy, Debug, PartialEq, Eq, Structural)]
pub enum ClusterError {
    /// The cluster count is zero or exceeds the number of songs, or an initial
    /// centroid names no song.
    Configuration,
    /// There are no songs.
    EmptyInput,
    /// A cluster to be averaged has no members.
    DegenerateCluster { cluster: usize },
    /// A song record lacks well-defined features.
    MalformedEntity,
}

} // verus!
