//! FC-ES (face clustering by early stopping): the integer logic of the
//! clustering pipeline, verified. The pipeline reads a feature matrix, builds
//! a k-nearest-neighbour graph, turns its similarities into second-order
//! (NEP) distances, links each node to its neighbours until the first one
//! that falls below the threshold, finds communities in the link graph and
//! returns the clusters. The floating-point stages and the calls of the
//! vector index, of Infomap and of the Leiden algorithm stand outside this
//! crate; this crate holds the decisions and the bookkeeping between them.
pub mod clustering;
pub mod community;
pub mod error;
pub mod infomap;
pub mod knn;
pub mod nep;
pub mod text;
pub mod types;

use vstd::prelude::*;

use crate::clustering::seqs_of;

verus! {

/// The number of neighbours used when none is given.
pub const DEFAULT_K: usize = 80;

/// Number of neighbours for `n` samples: `k` where given, else
/// `min(80, n)`.
pub fn resolve_k(k: Option<usize>, n: usize) -> (r: usize)
    ensures
        match k {
            Some(v) => r == v,
            None => r == if DEFAULT_K < n {
                DEFAULT_K
            } else {
                n
            },
        },
{
    match k {
        Some(v) => v,
        None => if DEFAULT_K < n {
            DEFAULT_K
        } else {
            n
        },
    }
}

/// The clusters of `cs` with more than one member, in order.
pub open spec fn multi_member(cs: Seq<Seq<usize>>) -> Seq<Seq<usize>>
    decreases cs.len(),
{
    if cs.len() == 0 {
        seq![]
    } else {
        let prev = multi_member(cs.drop_last());
        if cs.last().len() > 1 {
            prev.push(cs.last())
        } else {
            prev
        }
    }
}

/// Keeping the clusters with more than one member is a filter: exactly those
/// clusters stay, in their order, whatever their size beyond one.
pub proof fn lemma_multi_member_is_filter(cs: Seq<Seq<usize>>)
    ensures
        multi_member(cs) == cs.filter(|x: Seq<usize>| x.len() > 1),
        forall|c: int| 0 <= c < cs.len() && (#[trigger] cs[c]).len() > 1 ==> multi_member(cs).contains(cs[c]),
        forall|k: int|
            0 <= k < multi_member(cs).len() ==> (#[trigger] multi_member(cs)[k]).len() > 1
                && cs.contains(multi_member(cs)[k]),
    decreases cs.len(),
{
    broadcast use vstd::seq_lib::group_filter_ensures;

    reveal(Seq::filter);
    if cs.len() > 0 {
        lemma_multi_member_is_filter(cs.drop_last());
    }
    let f = cs.filter(|x: Seq<usize>| x.len() > 1);
    assert(multi_member(cs) =~= f);
    assert forall|c: int| 0 <= c < cs.len() && (#[trigger] cs[c]).len() > 1 implies f.contains(cs[c]) by {
        cs.lemma_filter_contains(|x: Seq<usize>| x.len() > 1, c);
    }
    assert forall|k: int| 0 <= k < f.len() implies (#[trigger] f[k]).len() > 1 && cs.contains(f[k]) by {
        cs.lemma_filter_pred(|x: Seq<usize>| x.len() > 1, k);
        assert(f.contains(f[k]));
    }
}

/// Drops the single-member clusters where `drop` is set.
pub fn drop_singletons(clusters: Vec<Vec<usize>>, drop: bool) -> (kept: Vec<Vec<usize>>)
    ensures
        seqs_of(kept@) == if drop {
            multi_member(seqs_of(clusters@))
        } else {
            seqs_of(clusters@)
        },
        drop ==> forall|c: int| 0 <= c < kept@.len() ==> (#[trigger] kept@[c])@.len() > 1,
        drop ==> forall|c: int|
            0 <= c < clusters@.len() && (#[trigger] clusters@[c])@.len() > 1 ==> seqs_of(
                kept@,
            ).contains(clusters@[c]@),
        drop ==> forall|k: int| 0 <= k < kept@.len() ==> seqs_of(clusters@).contains((#[trigger] kept@[k])@),
{
    if !drop {
        return clusters;
    }
    let ghost all = seqs_of(clusters@);
    let mut kept: Vec<Vec<usize>> = Vec::new();
    let mut rest = clusters;
    // Move the clusters out in order.
    let mut i: usize = 0;
    let n = rest.len();
    while i < n
        invariant
            i <= n,
            rest@.len() == n,
            n == all.len(),
            forall|t: int| i <= t < n ==> (#[trigger] rest@[t])@ == all[t],
            seqs_of(kept@) == multi_member(all.take(i as int)),
            forall|c: int| 0 <= c < kept@.len() ==> (#[trigger] kept@[c])@.len() > 1,
        decreases n - i,
    {
        let mut c: Vec<usize> = Vec::new();
        std::mem::swap(&mut c, &mut rest[i]);
        assert(all.take(i + 1).drop_last() =~= all.take(i as int));
        if c.len() > 1 {
            let ghost before = seqs_of(kept@);
            kept.push(c);
            assert(seqs_of(kept@) =~= before.push(all[i as int]));
        }
        i += 1;
    }
    assert(all.take(n as int) =~= all);
    proof {
        lemma_multi_member_is_filter(all);
        assert forall|c: int| 0 <= c < clusters@.len() && (#[trigger] clusters@[c])@.len() > 1 implies seqs_of(
            kept@,
        ).contains(clusters@[c]@) by {
            assert(all[c] == clusters@[c]@);
        }
        assert forall|k: int| 0 <= k < kept@.len() implies all.contains((#[trigger] kept@[k])@) by {
            assert(seqs_of(kept@)[k] == kept@[k]@);
        }
    }
    kept
}

} // verus!
