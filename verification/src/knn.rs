//! Shape of the nearest-neighbour graph built by the vector index.
use vstd::prelude::*;

use crate::error::FcesError;

verus! {

/// Number of neighbours kept per node for `n` nodes when `k` are asked for:
/// `min(k, n)`; an empty feature matrix is refused.
pub fn knn_width(n: usize, k: usize) -> (r: Result<usize, FcesError>)
    ensures
        match r {
            Ok(w) => n > 0 && w == if k < n {
                k
            } else {
                n
            },
            Err(FcesError::InvalidInput(_)) => n == 0,
            Err(_) => false,
        },
{
    if n == 0 {
        return Err(FcesError::InvalidInput("特征矩阵为空".to_owned()));
    }
    if k < n {
        Ok(k)
    } else {
        Ok(n)
    }
}

/// The neighbour row of one node from the keys that a search returned (most
/// similar first): `width` entries, the first keys (truncated to 32 bits) and
/// zeros where the search returned fewer.
pub fn neighbor_row(keys: &Vec<u64>, width: usize) -> (row: Vec<u32>)
    ensures
        row@.len() == width,
        forall|j: int|
            0 <= j < width ==> #[trigger] row@[j] == if j < keys@.len() {
                keys@[j] as u32
            } else {
                0u32
            },
{
    let mut row: Vec<u32> = Vec::new();
    let mut j: usize = 0;
    while j < width
        invariant
            j <= width,
            row@.len() == j,
            forall|t: int|
                0 <= t < j ==> #[trigger] row@[t] == if t < keys@.len() {
                    keys@[t] as u32
                } else {
                    0u32
                },
        decreases width - j,
    {
        if j < keys.len() {
            row.push(keys[j] as u32);
        } else {
            row.push(0);
        }
        j += 1;
    }
    row
}

} // verus!
