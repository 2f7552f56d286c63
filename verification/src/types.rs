//! The k-nearest-neighbour graph, as far as the integer logic reads it.
use vstd::prelude::*;

verus! {

/// A k-nearest-neighbour graph: row `i` lists the neighbours of node `i`,
/// most similar first. (The similarity values themselves are floating point
/// and travel beside the graph, outside this library.)
pub struct KnnGraph {
    pub nbrs: Vec<Vec<u32>>,
}

impl KnnGraph {
    /// The neighbour lists.
    pub open spec fn rows(&self) -> Seq<Seq<u32>> {
        self.nbrs@.map_values(|r: Vec<u32>| r@)
    }

    /// Every listed neighbour is a node of the graph.
    pub open spec fn in_range(&self) -> bool {
        forall|i: int, j: int|
            0 <= i < self.rows().len() && 0 <= j < self.rows()[i].len() ==> (
            #[trigger] self.rows()[i][j]) < self.rows().len()
    }
}

} // verus!
