//! Neighbour-based edge probability (NEP): the index bookkeeping of the
//! second-order distance. For node `i` and its `r`-th neighbour `m`, the
//! probability that `m` gives to its own `c`-th neighbour is projected onto the
//! column that this neighbour occupies in `i`'s list. The probabilities are
//! floating point and are combined outside this library; this module computes
//! which column of `m`'s row lands in which column of `i`'s row.
use vstd::prelude::*;

use crate::types::KnnGraph;

verus! {

/// Last position of `x` in `s`, if any.
pub open spec fn last_index(s: Seq<u32>, x: int) -> Option<nat>
    decreases s.len(),
{
    if s.len() == 0 {
        None
    } else if s.last() as int == x {
        Some((s.len() - 1) as nat)
    } else {
        last_index(s.drop_last(), x)
    }
}

proof fn lemma_last_index(s: Seq<u32>, x: int)
    ensures
        match last_index(s, x) {
            Some(p) => p < s.len() && s[p as int] as int == x,
            None => forall|t: int| 0 <= t < s.len() ==> s[t] as int != x,
        },
    decreases s.len(),
{
    if s.len() > 0 && s.last() as int != x {
        lemma_last_index(s.drop_last(), x);
        assert forall|t: int| 0 <= t < s.len() - 1 implies s[t] == s.drop_last()[t] by {}
    }
}

/// The last position of `x` in `s` is `l` exactly when `s[l]` is `x` and no
/// later entry is.
pub proof fn lemma_last_index_meaning(s: Seq<u32>, x: int, l: nat)
    ensures
        last_index(s, x) == Some(l) <==> (l < s.len() && s[l as int] as int == x && forall|t: int|
            l < t < s.len() ==> s[t] as int != x),
    decreases s.len(),
{
    if s.len() > 0 {
        let n = s.len() - 1;
        let d = s.drop_last();
        if s.last() as int == x {
            if l < n {
                assert(s[n] as int == x);
            }
        } else {
            lemma_last_index_meaning(d, x, l);
            assert forall|t: int| 0 <= t < n implies s[t] == d[t] by {}
            if l < n && s[l as int] as int == x {
                if forall|t: int| l < t < n ==> d[t] as int != x {
                    assert forall|t: int| l < t < s.len() implies s[t] as int != x by {
                        if t < n {
                            assert(s[t] == d[t]);
                        }
                    }
                } else {
                    let t = choose|t: int| l < t < n && d[t] as int == x;
                    assert(l < t < n && d[t] as int == x);
                    assert(s[t] == d[t]);
                }
            }
        }
    }
}

/// What the projection means, in terms of the two rows alone: column `l` of
/// `row` receives column `c` of `nrow` exactly when the node of `nrow[c]`
/// stands at `l` and nowhere later in `row`, and no later column of `nrow`
/// holds that node; whatever the positions. Where no column of `nrow` holds
/// the node that stands last at `l`, nothing is projected.
pub proof fn lemma_projected_col_meaning(nrow: Seq<u32>, row: Seq<u32>, l: nat, c: nat)
    ensures
        projected_col(nrow, row, l) == Some(c) <==> (c < nrow.len() && l < row.len() && nrow[c as int]
            == row[l as int] && (forall|t: int| l < t < row.len() ==> row[t] != row[l as int]) && (
        forall|c2: int| c < c2 < nrow.len() ==> nrow[c2] != row[l as int])),
        projected_col(nrow, row, l) is None <==> (l >= row.len() || (exists|t: int|
            l < t < row.len() && row[t] == row[l as int]) || (forall|c2: int|
            0 <= c2 < nrow.len() ==> nrow[c2] != row[l as int])),
    decreases nrow.len(),
{
    if nrow.len() > 0 {
        let n = (nrow.len() - 1) as int;
        let d = nrow.drop_last();
        let v = nrow[n];
        lemma_projected_col_meaning(d, row, l, c);
        lemma_last_index_meaning(row, v as int, l);
        assert forall|c2: int| 0 <= c2 < n implies d[c2] == nrow[c2] by {}
        if last_index(row, v as int) == Some(l) {
            assert(projected_col(nrow, row, l) == Some(n as nat));
            assert(row[l as int] == v);
            if c < n {
                assert(nrow[n] == row[l as int]);
            }
        } else {
            assert(projected_col(nrow, row, l) == projected_col(d, row, l));
            let last_at_l = l < row.len() && (forall|t: int| l < t < row.len() ==> row[t] != row[l as int]);
            if last_at_l {
                assert(v != row[l as int]);
                if c < n && nrow[c as int] == row[l as int] && (forall|c2: int| c < c2 < n ==> d[c2] != row[l as int]) {
                    assert forall|c2: int| c < c2 < nrow.len() implies nrow[c2] != row[l as int] by {
                        if c2 < n {
                            assert(d[c2] == nrow[c2]);
                        }
                    }
                }
                if forall|c2: int| c < c2 < nrow.len() ==> nrow[c2] != row[l as int] {
                    assert forall|c2: int| c < c2 < n implies d[c2] != row[l as int] by {
                        assert(d[c2] == nrow[c2]);
                    }
                }
                if forall|c2: int| 0 <= c2 < n ==> d[c2] != row[l as int] {
                    assert forall|c2: int| 0 <= c2 < nrow.len() implies nrow[c2] != row[l as int] by {
                        if c2 < n {
                            assert(d[c2] == nrow[c2]);
                        }
                    }
                }
                if forall|c2: int| 0 <= c2 < nrow.len() ==> nrow[c2] != row[l as int] {
                    assert forall|c2: int| 0 <= c2 < n implies d[c2] != row[l as int] by {
                        assert(d[c2] == nrow[c2]);
                    }
                }
            }
        }
    }
}

/// The column of the neighbour row `nrow` whose probability ends up in
/// column `l` of the row `row`: the last column of `nrow` whose node stands
/// (last) at position `l` of `row`. Later writes overwrite earlier ones.
pub open spec fn projected_col(nrow: Seq<u32>, row: Seq<u32>, l: nat) -> Option<nat>
    decreases nrow.len(),
{
    if nrow.len() == 0 {
        None
    } else if last_index(row, nrow.last() as int) == Some(l) {
        Some((nrow.len() - 1) as nat)
    } else {
        projected_col(nrow.drop_last(), row, l)
    }
}

/// Reusable scratch space for the NEP computation: the position of each node
/// in the neighbour list of the node being processed. Between two rows every
/// entry is empty.
pub struct NepWorkspace {
    pos: Vec<Option<usize>>,
}

impl NepWorkspace {
    /// Number of nodes the workspace covers.
    pub closed spec fn size(&self) -> nat {
        self.pos@.len()
    }

    /// No position is recorded.
    pub closed spec fn is_clear(&self) -> bool {
        forall|x: int| 0 <= x < self.pos@.len() ==> (#[trigger] self.pos@[x]) is None
    }

    /// A workspace for a graph of `n` nodes.
    pub fn new(n: usize) -> (ws: Self)
        ensures
            ws.size() == n,
            ws.is_clear(),
    {
        let mut pos: Vec<Option<usize>> = Vec::new();
        let mut t: usize = 0;
        while t < n
            invariant
                t <= n,
                pos@.len() == t,
                forall|x: int| 0 <= x < t ==> (#[trigger] pos@[x]) is None,
            decreases n - t,
        {
            pos.push(None);
            t += 1;
        }
        NepWorkspace { pos }
    }

    /// For node `i`, returns a table with one line per neighbour `r` of `i`
    /// (in the order of `i`'s list) and one entry per column `l` of `i`'s
    /// list: the column of the `r`-th neighbour's own list whose probability
    /// projects onto column `l`, or `None` where nothing does. The workspace
    /// is empty again afterwards.
    pub fn shared_columns(&mut self, graph: &KnnGraph, i: usize) -> (table: Vec<Vec<Option<usize>>>)
        requires
            old(self).is_clear(),
            old(self).size() == graph.rows().len(),
            graph.in_range(),
            i < graph.rows().len(),
        ensures
            final(self).is_clear(),
            final(self).size() == old(self).size(),
            table@.len() == graph.rows()[i as int].len(),
            forall|r: int|
                0 <= r < table@.len() ==> (#[trigger] table@[r])@.len() == graph.rows()[i as int].len(),
            forall|r: int, l: int|
                0 <= r < table@.len() && 0 <= l < table@[r]@.len() ==> match (#[trigger] table@[r]@[l]) {
                    Some(c) => projected_col(
                        graph.rows()[graph.rows()[i as int][r] as int],
                        graph.rows()[i as int],
                        l as nat,
                    ) == Some(c as nat),
                    None => projected_col(
                        graph.rows()[graph.rows()[i as int][r] as int],
                        graph.rows()[i as int],
                        l as nat,
                    ) is None,
                },
    {
        let ghost rows = graph.rows();
        let n = self.pos.len();
        let row = &graph.nbrs[i];
        assert(row@ == rows[i as int]);
        let k = row.len();
        // Record, for each node of the row, the last column where it stands.
        let mut j: usize = 0;
        while j < k
            invariant
                row@ == rows[i as int],
                k == row@.len(),
                n == self.pos@.len(),
                n == rows.len(),
                graph.in_range(),
                rows == graph.rows(),
                i < n,
                j <= k,
                forall|x: int|
                    0 <= x < n ==> match (#[trigger] self.pos@[x]) {
                        Some(p) => last_index(row@.take(j as int), x) == Some(p as nat) && p < j,
                        None => last_index(row@.take(j as int), x) is None,
                    },
            decreases k - j,
        {
            let x = row[j] as usize;
            assert(rows[i as int][j as int] < rows.len());
            self.pos.set(x, Some(j));
            assert(row@.take(j + 1).drop_last() =~= row@.take(j as int));
            j += 1;
        }
        assert(row@.take(k as int) =~= row@);
        // Project each neighbour's row onto the columns of row `i`.
        let mut table: Vec<Vec<Option<usize>>> = Vec::new();
        let mut r: usize = 0;
        while r < k
            invariant
                row@ == rows[i as int],
                k == row@.len(),
                n == self.pos@.len(),
                n == rows.len(),
                graph.in_range(),
                rows == graph.rows(),
                i < n,
                r <= k,
                table@.len() == r,
                forall|x: int|
                    0 <= x < n ==> match (#[trigger] self.pos@[x]) {
                        Some(p) => last_index(row@, x) == Some(p as nat) && p < k,
                        None => last_index(row@, x) is None,
                    },
                forall|r2: int| 0 <= r2 < r ==> (#[trigger] table@[r2])@.len() == k,
                forall|r2: int, l: int|
                    0 <= r2 < r && 0 <= l < k ==> match (#[trigger] table@[r2]@[l]) {
                        Some(c) => projected_col(rows[rows[i as int][r2] as int], row@, l as nat)
                            == Some(c as nat),
                        None => projected_col(rows[rows[i as int][r2] as int], row@, l as nat) is None,
                    },
            decreases k - r,
        {
            let m = row[r] as usize;
            assert(rows[i as int][r as int] < rows.len());
            let nrow = &graph.nbrs[m];
            assert(nrow@ == rows[m as int]);
            let mut line: Vec<Option<usize>> = Vec::new();
            let mut l: usize = 0;
            while l < k
                invariant
                    l <= k,
                    line@.len() == l,
                    forall|t: int| 0 <= t < l ==> (#[trigger] line@[t]) is None,
                decreases k - l,
            {
                line.push(None);
                l += 1;
            }
            let mut c: usize = 0;
            while c < nrow.len()
                invariant
                    row@ == rows[i as int],
                    k == row@.len(),
                    nrow@ == rows[m as int],
                    n == self.pos@.len(),
                    n == rows.len(),
                    graph.in_range(),
                    rows == graph.rows(),
                    m < n,
                    c <= nrow@.len(),
                    line@.len() == k,
                    forall|x: int|
                        0 <= x < n ==> match (#[trigger] self.pos@[x]) {
                            Some(p) => last_index(row@, x) == Some(p as nat) && p < k,
                            None => last_index(row@, x) is None,
                        },
                    forall|t: int|
                        0 <= t < k ==> match (#[trigger] line@[t]) {
                            Some(cc) => projected_col(nrow@.take(c as int), row@, t as nat) == Some(
                                cc as nat,
                            ),
                            None => projected_col(nrow@.take(c as int), row@, t as nat) is None,
                        },
                decreases nrow@.len() - c,
            {
                let x = nrow[c] as usize;
                assert(rows[m as int][c as int] < rows.len());
                let ghost before = line@;
                match self.pos[x] {
                    Some(p) => {
                        line.set(p, Some(c));
                    },
                    None => {},
                }
                assert(nrow@.take(c + 1).drop_last() =~= nrow@.take(c as int));
                assert forall|t: int| 0 <= t < k implies match (#[trigger] line@[t]) {
                    Some(cc) => projected_col(nrow@.take(c + 1), row@, t as nat) == Some(cc as nat),
                    None => projected_col(nrow@.take(c + 1), row@, t as nat) is None,
                } by {
                    assert(nrow@.take(c + 1).last() == nrow@[c as int]);
                    if last_index(row@, nrow@[c as int] as int) != Some(t as nat) {
                        assert(line@[t] == before[t]);
                    }
                }
                c += 1;
            }
            assert(nrow@.take(nrow@.len() as int) =~= nrow@);
            table.push(line);
            r += 1;
        }
        // Clear the positions again.
        assert forall|x: int| 0 <= x < n && (#[trigger] self.pos@[x]) is Some implies exists|w: int|
            0 <= w < k && row@[w] as int == x by {
            lemma_last_index(row@, x);
        }
        let mut j: usize = 0;
        while j < k
            invariant
                row@ == rows[i as int],
                k == row@.len(),
                n == self.pos@.len(),
                n == rows.len(),
                graph.in_range(),
                rows == graph.rows(),
                i < n,
                j <= k,
                forall|x: int|
                    0 <= x < n && (#[trigger] self.pos@[x]) is Some ==> exists|w: int|
                        j <= w < k && row@[w] as int == x,
            decreases k - j,
        {
            let x = row[j] as usize;
            assert(rows[i as int][j as int] < rows.len());
            let ghost before = self.pos@;
            self.pos.set(x, None);
            assert forall|y: int|
                0 <= y < n && (#[trigger] self.pos@[y]) is Some implies exists|w: int|
                    j + 1 <= w < k && row@[w] as int == y by {
                assert(before[y] is Some);
            }
            j += 1;
        }
        table
    }
}

} // verus!
