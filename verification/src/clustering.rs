//! FC-ES clustering core: early-stopping link construction and the assembly
//! of the final cluster list from community assignments and isolated nodes.
use std::collections::HashMap;
use std::collections::HashSet;

use vstd::prelude::*;

use crate::types::KnnGraph;

verus! {

broadcast use vstd::std_specs::hash::group_hash_axioms;

/// Contents of a vector of vectors.
pub open spec fn seqs_of(v: Seq<Vec<usize>>) -> Seq<Seq<usize>> {
    v.map_values(|c: Vec<usize>| c@)
}

/// Modules of `ms` in the order of their first appearance.
pub open spec fn module_order(ms: Seq<(usize, u32)>) -> Seq<u32>
    decreases ms.len(),
{
    if ms.len() == 0 {
        seq![]
    } else {
        let prev = module_order(ms.drop_last());
        if prev.contains(ms.last().1) {
            prev
        } else {
            prev.push(ms.last().1)
        }
    }
}

/// Nodes of module `m` in `ms` that are below `n`, in order of appearance.
pub open spec fn module_members(ms: Seq<(usize, u32)>, m: u32, n: nat) -> Seq<usize>
    decreases ms.len(),
{
    if ms.len() == 0 {
        seq![]
    } else {
        let prev = module_members(ms.drop_last(), m, n);
        if ms.last().1 == m && ms.last().0 < n {
            prev.push(ms.last().0)
        } else {
            prev
        }
    }
}

/// The non-empty groups of `gs`, in order.
pub open spec fn nonempty_groups(gs: Seq<Seq<usize>>) -> Seq<Seq<usize>>
    decreases gs.len(),
{
    if gs.len() == 0 {
        seq![]
    } else {
        let prev = nonempty_groups(gs.drop_last());
        if gs.last().len() > 0 {
            prev.push(gs.last())
        } else {
            prev
        }
    }
}

/// The member lists of all modules, in order of first appearance.
pub open spec fn module_groups(ms: Seq<(usize, u32)>, n: nat) -> Seq<Seq<usize>> {
    module_order(ms).map_values(|m: u32| module_members(ms, m, n))
}

/// One cluster per module that keeps at least one node below `n`.
pub open spec fn module_clusters(ms: Seq<(usize, u32)>, n: nat) -> Seq<Seq<usize>> {
    nonempty_groups(module_groups(ms, n))
}

/// `x` belongs to one of the clusters `cs`.
pub open spec fn in_some(cs: Seq<Seq<usize>>, x: usize) -> bool {
    exists|c: int| 0 <= c < cs.len() && #[trigger] cs[c].contains(x)
}

/// `cs` followed by a singleton cluster for each of `singles` that no earlier
/// cluster holds, in the order of `singles`.
pub open spec fn add_singletons(cs: Seq<Seq<usize>>, singles: Seq<usize>) -> Seq<Seq<usize>>
    decreases singles.len(),
{
    if singles.len() == 0 {
        cs
    } else {
        let prev = add_singletons(cs, singles.drop_last());
        if in_some(prev, singles.last()) {
            prev
        } else {
            prev.push(seq![singles.last()])
        }
    }
}

/// The clusters that `run` yields for `n` nodes, the community assignments
/// `ms` (`(node, module)` pairs) and the isolated nodes `singles`.
pub open spec fn assembled_clusters(n: nat, ms: Seq<(usize, u32)>, singles: Seq<usize>) -> Seq<
    Seq<usize>,
> {
    add_singletons(module_clusters(ms, n), singles)
}

proof fn lemma_absent_module_has_no_members(ms: Seq<(usize, u32)>, m: u32, n: nat)
    requires
        !module_order(ms).contains(m),
    ensures
        module_members(ms, m, n) == Seq::<usize>::empty(),
    decreases ms.len(),
{
    if ms.len() > 0 {
        let prev = module_order(ms.drop_last());
        if prev.contains(m) {
            let k = choose|k: int| 0 <= k < prev.len() && prev[k] == m;
            if !prev.contains(ms.last().1) {
                assert(module_order(ms)[k] == m);
            }
        }
        lemma_absent_module_has_no_members(ms.drop_last(), m, n);
        if ms.last().1 == m {
            if prev.contains(ms.last().1) {
            } else {
                assert(module_order(ms)[prev.len() as int] == m);
            }
        }
    }
}

/// Groups the community assignments by module, drops the nodes at or above
/// `num_nodes`, keeps one cluster per module that still has a node (modules in
/// the order of their first appearance, nodes in the order they were listed),
/// then adds a singleton cluster for each isolated node that no cluster holds.
pub fn run(num_nodes: usize, memberships: &Vec<(usize, u32)>, singles: &Vec<usize>) -> (clusters:
    Vec<Vec<usize>>)
    ensures
        seqs_of(clusters@) == assembled_clusters(num_nodes as nat, memberships@, singles@),
        forall|c: int| 0 <= c < clusters@.len() ==> (#[trigger] clusters@[c])@.len() > 0,
        forall|x: usize|
            in_some(seqs_of(clusters@), x) <==> (singles@.contains(x) || assigned(
                memberships@,
                num_nodes as nat,
                x,
            )),
        distinct_nodes(memberships@, num_nodes as nat) ==> no_repeats(seqs_of(clusters@)),
{
    let ghost ms = memberships@;
    let ghost n = num_nodes as nat;
    let mut order: Vec<u32> = Vec::new();
    let mut groups: Vec<Vec<usize>> = Vec::new();
    let mut index: HashMap<u32, usize> = HashMap::new();
    let mut i: usize = 0;
    while i < memberships.len()
        invariant
            ms == memberships@,
            n == num_nodes,
            i <= ms.len(),
            order@ == module_order(ms.take(i as int)),
            groups@.len() == order@.len(),
            forall|k: int|
                0 <= k < order@.len() ==> (#[trigger] groups@[k])@ == module_members(
                    ms.take(i as int),
                    order@[k],
                    n,
                ),
            forall|a: int, b: int|
                0 <= a < order@.len() && 0 <= b < order@.len() && a != b ==> order@[a]
                    != order@[b],
            forall|m: u32| #[trigger] index@.contains_key(m) <==> order@.contains(m),
            forall|m: u32|
                #[trigger] index@.contains_key(m) ==> index@[m] < order@.len() && order@[index@[m]
                    as int] == m,
        decreases ms.len() - i,
    {
        let (node, module) = memberships[i];
        let ghost pre = ms.take(i as int);
        let ghost post = ms.take(i + 1);
        assert(post.drop_last() =~= pre);
        assert(post.last() == (node, module));
        match index.get(&module) {
            Some(k) => {
                let k = *k;
                assert(order@.contains(module));
                if node < num_nodes {
                    groups[k].push(node);
                }
                assert forall|k2: int| 0 <= k2 < order@.len() implies (#[trigger] groups@[k2])@
                    == module_members(post, order@[k2], n) by {
                    if k2 != k {
                        assert(order@[k2] != module);
                    }
                }
            },
            None => {
                let k = order.len();
                assert(!order@.contains(module));
                proof {
                    lemma_absent_module_has_no_members(pre, module, n);
                }
                let ghost old_order = order@;
                order.push(module);
                let mut g: Vec<usize> = Vec::new();
                if node < num_nodes {
                    g.push(node);
                }
                assert(g@ =~= module_members(post, module, n));
                groups.push(g);
                index.insert(module, k);
                assert forall|m: u32| #[trigger] index@.contains_key(m) <==> order@.contains(m) by {
                    if m == module {
                        assert(order@[k as int] == module);
                    } else {
                        if order@.contains(m) {
                            let t = choose|t: int| 0 <= t < order@.len() && order@[t] == m;
                            assert(old_order[t] == m);
                        }
                        if old_order.contains(m) {
                            let t = choose|t: int| 0 <= t < old_order.len() && old_order[t] == m;
                            assert(order@[t] == m);
                        }
                    }
                }
                assert forall|k2: int| 0 <= k2 < order@.len() implies (#[trigger] groups@[k2])@
                    == module_members(post, order@[k2], n) by {
                    if k2 != k {
                        assert(order@[k2] != module);
                    }
                }
            },
        }
        i += 1;
    }
    assert(ms.take(ms.len() as int) =~= ms);
    let ghost gs = module_groups(ms, n);
    assert(seqs_of(groups@) =~= gs);
    let mut clusters: Vec<Vec<usize>> = Vec::new();
    let mut labeled: HashSet<usize> = HashSet::new();
    let mut k: usize = 0;
    while k < groups.len()
        invariant
            k <= groups@.len(),
            gs.len() == groups@.len(),
            forall|t: int| k <= t < groups@.len() ==> (#[trigger] groups@[t])@ == gs[t],
            seqs_of(clusters@) == nonempty_groups(gs.take(k as int)),
            forall|x: usize| #[trigger] labeled@.contains(x) <==> in_some(seqs_of(clusters@), x),
        decreases groups@.len() - k,
    {
        assert(gs.take(k + 1).drop_last() =~= gs.take(k as int));
        let mut g: Vec<usize> = Vec::new();
        std::mem::swap(&mut g, &mut groups[k]);
        assert(g@ == gs[k as int]);
        if g.len() > 0 {
            let ghost before = seqs_of(clusters@);
            let mut t: usize = 0;
            while t < g.len()
                invariant
                    t <= g@.len(),
                    forall|x: usize| #[trigger]
                        labeled@.contains(x) <==> (in_some(before, x) || g@.take(t as int).contains(
                            x,
                        )),
                decreases g@.len() - t,
            {
                labeled.insert(g[t]);
                assert forall|x: usize| #[trigger]
                    labeled@.contains(x) <==> (in_some(before, x) || g@.take(t + 1).contains(
                        x,
                    )) by {
                    if g@.take(t as int).contains(x) {
                        let w = choose|w: int| 0 <= w < t && g@.take(t as int)[w] == x;
                        assert(g@.take(t + 1)[w] == x);
                    }
                    if x == g@[t as int] {
                        assert(g@.take(t + 1)[t as int] == x);
                    }
                    let longer = g@.take(t + 1);
                    if longer.contains(x) && x != g@[t as int] {
                        let w = choose|w: int| 0 <= w < longer.len() && longer[w] == x;
                        assert(g@.take(t as int)[w] == x);
                    }
                }
                t += 1;
            }
            assert(g@.take(g@.len() as int) =~= g@);
            clusters.push(g);
            assert(seqs_of(clusters@) =~= before.push(gs[k as int]));
            assert forall|x: usize| #[trigger]
                labeled@.contains(x) <==> in_some(seqs_of(clusters@), x) by {
                let now = seqs_of(clusters@);
                if in_some(before, x) {
                    let c = choose|c: int| 0 <= c < before.len() && before[c].contains(x);
                    assert(now[c] == before[c]);
                }
                if in_some(now, x) {
                    let c = choose|c: int| 0 <= c < now.len() && now[c].contains(x);
                    if c < before.len() {
                        assert(now[c] == before[c]);
                    }
                }
                if gs[k as int].contains(x) {
                    assert(now[before.len() as int] == gs[k as int]);
                }
            }
        } else {
            assert(seqs_of(clusters@) =~= nonempty_groups(gs.take(k + 1)));
        }
        k += 1;
    }
    assert(gs.take(gs.len() as int) =~= gs);
    let ghost base = nonempty_groups(gs);
    let mut j: usize = 0;
    while j < singles.len()
        invariant
            j <= singles@.len(),
            base == module_clusters(ms, n),
            seqs_of(clusters@) == add_singletons(base, singles@.take(j as int)),
            forall|x: usize| #[trigger] labeled@.contains(x) <==> in_some(seqs_of(clusters@), x),
        decreases singles@.len() - j,
    {
        let s = singles[j];
        assert(singles@.take(j + 1).drop_last() =~= singles@.take(j as int));
        if !labeled.contains(&s) {
            let ghost before = seqs_of(clusters@);
            labeled.insert(s);
            let single = vec![s];
            clusters.push(single);
            assert(single@ =~= seq![s]);
            assert(seqs_of(clusters@) =~= before.push(seq![s]));
            assert forall|x: usize| #[trigger]
                labeled@.contains(x) <==> in_some(seqs_of(clusters@), x) by {
                let now = seqs_of(clusters@);
                if in_some(before, x) {
                    let c = choose|c: int| 0 <= c < before.len() && before[c].contains(x);
                    assert(now[c] == before[c]);
                }
                if in_some(now, x) {
                    let c = choose|c: int| 0 <= c < now.len() && now[c].contains(x);
                    if c < before.len() {
                        assert(now[c] == before[c]);
                    } else {
                        assert(now[c] == seq![s]);
                    }
                }
                if x == s {
                    assert(now[before.len() as int][0] == s);
                    assert(now[before.len() as int].contains(s));
                }
            }
        }
        j += 1;
    }
    assert(singles@.take(singles@.len() as int) =~= singles@);
    proof {
        lemma_assembled_clusters(num_nodes, ms, singles@);
        assert forall|c: int| 0 <= c < clusters@.len() implies (#[trigger] clusters@[c])@.len() > 0 by {
            assert(seqs_of(clusters@)[c] == clusters@[c]@);
            assert(assembled_clusters(num_nodes as nat, ms, singles@)[c].len() > 0);
        }
    }
    clusters
}

/// No node below `n` is listed twice in the community assignments (nodes at
/// or above `n`, which are dropped, may repeat).
pub open spec fn distinct_nodes(ms: Seq<(usize, u32)>, n: nat) -> bool {
    forall|a: int, b: int|
        0 <= a < b < ms.len() && (#[trigger] ms[a]).0 == (#[trigger] ms[b]).0 ==> ms[a].0 >= n
}

/// No node occurs twice in the clusters: none twice in one cluster, none in two.
pub open spec fn no_repeats(cs: Seq<Seq<usize>>) -> bool {
    &&& forall|c: int| 0 <= c < cs.len() ==> (#[trigger] cs[c]).no_duplicates()
    &&& forall|c1: int, c2: int, x: usize|
        0 <= c1 < c2 < cs.len() && #[trigger] cs[c1].contains(x) ==> !#[trigger] cs[c2].contains(x)
}

/// `x` is listed in the community assignments as a node below `n`.
pub open spec fn assigned(ms: Seq<(usize, u32)>, n: nat, x: usize) -> bool {
    exists|i: int| 0 <= i < ms.len() && (#[trigger] ms[i]).0 == x && x < n
}

proof fn lemma_members_contain(ms: Seq<(usize, u32)>, m: u32, n: nat, x: usize)
    ensures
        module_members(ms, m, n).contains(x) <==> exists|i: int|
            0 <= i < ms.len() && (#[trigger] ms[i]) == (x, m) && x < n,
    decreases ms.len(),
{
    if ms.len() > 0 {
        let prev = ms.drop_last();
        lemma_members_contain(prev, m, n, x);
        let cur = module_members(ms, m, n);
        let old_members = module_members(prev, m, n);
        if old_members.contains(x) {
            let w = choose|w: int| 0 <= w < old_members.len() && old_members[w] == x;
            assert(cur[w] == x);
            let i = choose|i: int| 0 <= i < prev.len() && (#[trigger] prev[i]) == (x, m) && x < n;
            assert(ms[i] == prev[i]);
        }
        if exists|i: int| 0 <= i < ms.len() && (#[trigger] ms[i]) == (x, m) && x < n {
            let i = choose|i: int| 0 <= i < ms.len() && (#[trigger] ms[i]) == (x, m) && x < n;
            if i < ms.len() - 1 {
                assert(prev[i] == ms[i]);
            } else {
                assert(cur[cur.len() - 1] == x);
            }
        }
        if cur.contains(x) {
            let w = choose|w: int| 0 <= w < cur.len() && cur[w] == x;
            if w < old_members.len() {
                assert(old_members[w] == x);
                let i = choose|i: int| 0 <= i < prev.len() && (#[trigger] prev[i]) == (x, m) && x < n;
                assert(ms[i] == prev[i]);
            } else {
                assert(ms[ms.len() - 1] == (x, m));
            }
        }
    }
}

proof fn lemma_members_distinct(ms: Seq<(usize, u32)>, m: u32, n: nat)
    requires
        distinct_nodes(ms, n),
    ensures
        module_members(ms, m, n).no_duplicates(),
    decreases ms.len(),
{
    if ms.len() > 0 {
        let prev = ms.drop_last();
        assert(distinct_nodes(prev, n)) by {
            assert forall|a: int, b: int| 0 <= a < b < prev.len() && (#[trigger] prev[a]).0
                == (#[trigger] prev[b]).0 implies prev[a].0 >= n by {
                assert(prev[a] == ms[a] && prev[b] == ms[b]);
            }
        }
        lemma_members_distinct(prev, m, n);
        let x = ms.last().0;
        if ms.last().1 == m && x < n {
            lemma_members_contain(prev, m, n, x);
            if module_members(prev, m, n).contains(x) {
                let i = choose|i: int| 0 <= i < prev.len() && (#[trigger] prev[i]) == (x, m) && x < n;
                assert(ms[i] == prev[i]);
                assert(ms[i].0 == ms[ms.len() - 1].0);
            }
        }
    }
}

proof fn lemma_order_distinct_complete(ms: Seq<(usize, u32)>)
    ensures
        module_order(ms).no_duplicates(),
        forall|i: int| 0 <= i < ms.len() ==> module_order(ms).contains(#[trigger] ms[i].1),
        forall|m: u32| #[trigger] module_order(ms).contains(m) ==> exists|i: int| 0 <= i < ms.len() && ms[i].1 == m,
    decreases ms.len(),
{
    if ms.len() > 0 {
        let prev = ms.drop_last();
        lemma_order_distinct_complete(prev);
        let po = module_order(prev);
        let o = module_order(ms);
        assert forall|i: int| 0 <= i < ms.len() implies o.contains(#[trigger] ms[i].1) by {
            if i < ms.len() - 1 {
                assert(prev[i] == ms[i]);
                assert(po.contains(prev[i].1));
                let w = choose|w: int| 0 <= w < po.len() && po[w] == prev[i].1;
                assert(o[w] == po[w]);
            } else if !po.contains(ms[i].1) {
                assert(o[po.len() as int] == ms[i].1);
            }
        }
        assert forall|m: u32| #[trigger] o.contains(m) implies exists|i: int| 0 <= i < ms.len() && ms[i].1 == m by {
            let w = choose|w: int| 0 <= w < o.len() && o[w] == m;
            if w < po.len() {
                assert(po[w] == m);
                assert(po.contains(m));
                let i = choose|i: int| 0 <= i < prev.len() && prev[i].1 == m;
                assert(ms[i] == prev[i]);
            } else {
                assert(ms[ms.len() - 1].1 == m);
            }
        }
    }
}

proof fn lemma_groups(ms: Seq<(usize, u32)>, n: nat)
    ensures
        forall|x: usize| (exists|c: int| 0 <= c < module_groups(ms, n).len() && (#[trigger] module_groups(ms, n)[c]).contains(x)) <==> assigned(ms, n, x),
        distinct_nodes(ms, n) ==> no_repeats(module_groups(ms, n)),
{
    let gs = module_groups(ms, n);
    let o = module_order(ms);
    lemma_order_distinct_complete(ms);
    assert forall|x: usize| (exists|c: int| 0 <= c < gs.len() && (#[trigger] gs[c]).contains(x)) <==> assigned(ms, n, x) by {
        if exists|c: int| 0 <= c < gs.len() && (#[trigger] gs[c]).contains(x) {
            let c = choose|c: int| 0 <= c < gs.len() && (#[trigger] gs[c]).contains(x);
            lemma_members_contain(ms, o[c], n, x);
            let i = choose|i: int| 0 <= i < ms.len() && (#[trigger] ms[i]) == (x, o[c]) && x < n;
            assert(ms[i].0 == x);
        }
        if assigned(ms, n, x) {
            let i = choose|i: int| 0 <= i < ms.len() && (#[trigger] ms[i]).0 == x && x < n;
            let m = ms[i].1;
            assert(o.contains(ms[i].1));
            let c = choose|c: int| 0 <= c < o.len() && o[c] == m;
            lemma_members_contain(ms, m, n, x);
            assert(ms[i] == (x, m));
            assert(gs[c].contains(x));
        }
    }
    if distinct_nodes(ms, n) {
        assert forall|c: int| 0 <= c < gs.len() implies (#[trigger] gs[c]).no_duplicates() by {
            lemma_members_distinct(ms, o[c], n);
        }
        assert forall|c1: int, c2: int, x: usize|
            0 <= c1 < c2 < gs.len() && #[trigger] gs[c1].contains(x) implies !#[trigger] gs[c2].contains(x) by {
            lemma_members_contain(ms, o[c1], n, x);
            lemma_members_contain(ms, o[c2], n, x);
            if gs[c2].contains(x) {
                let i = choose|i: int| 0 <= i < ms.len() && (#[trigger] ms[i]) == (x, o[c1]) && x < n;
                let j = choose|j: int| 0 <= j < ms.len() && (#[trigger] ms[j]) == (x, o[c2]) && x < n;
                if i < j {
                    assert(ms[i].0 == ms[j].0);
                } else if j < i {
                    assert(ms[j].0 == ms[i].0);
                }
                assert(o[c1] != o[c2]);
            }
        }
    }
}

proof fn lemma_nonempty_groups(gs: Seq<Seq<usize>>)
    ensures
        forall|c: int| 0 <= c < nonempty_groups(gs).len() ==> (#[trigger] nonempty_groups(gs)[c]).len() > 0,
        forall|x: usize| in_some(nonempty_groups(gs), x) <==> (exists|c: int| 0 <= c < gs.len() && (#[trigger] gs[c]).contains(x)),
        no_repeats(gs) ==> no_repeats(nonempty_groups(gs)),
    decreases gs.len(),
{
    if gs.len() > 0 {
        let prev = gs.drop_last();
        lemma_nonempty_groups(prev);
        let np = nonempty_groups(prev);
        let ng = nonempty_groups(gs);
        assert forall|x: usize| in_some(ng, x) <==> (exists|c: int| 0 <= c < gs.len() && (#[trigger] gs[c]).contains(x)) by {
            if in_some(ng, x) {
                let c = choose|c: int| 0 <= c < ng.len() && #[trigger] ng[c].contains(x);
                if c < np.len() {
                    assert(ng[c] == np[c]);
                    assert(in_some(np, x));
                    let c2 = choose|c2: int| 0 <= c2 < prev.len() && (#[trigger] prev[c2]).contains(x);
                    assert(gs[c2] == prev[c2]);
                } else {
                    assert(gs[gs.len() - 1].contains(x));
                }
            }
            if exists|c: int| 0 <= c < gs.len() && (#[trigger] gs[c]).contains(x) {
                let c = choose|c: int| 0 <= c < gs.len() && (#[trigger] gs[c]).contains(x);
                if c < gs.len() - 1 {
                    assert(prev[c] == gs[c]);
                    assert(in_some(np, x));
                    let c2 = choose|c2: int| 0 <= c2 < np.len() && #[trigger] np[c2].contains(x);
                    assert(ng[c2] == np[c2]);
                } else {
                    assert(gs.last().len() > 0);
                    assert(ng[np.len() as int] == gs.last());
                }
            }
        }
        if no_repeats(gs) {
            assert(no_repeats(prev)) by {
                assert forall|c: int| 0 <= c < prev.len() implies (#[trigger] prev[c]).no_duplicates() by {
                    assert(prev[c] == gs[c]);
                }
                assert forall|c1: int, c2: int, x: usize|
                    0 <= c1 < c2 < prev.len() && #[trigger] prev[c1].contains(x) implies !#[trigger] prev[c2].contains(x) by {
                    assert(prev[c1] == gs[c1] && prev[c2] == gs[c2]);
                }
            }
            if gs.last().len() > 0 {
                assert forall|c: int| 0 <= c < ng.len() implies (#[trigger] ng[c]).no_duplicates() by {
                    if c < np.len() {
                        assert(ng[c] == np[c]);
                    } else {
                        assert(ng[c] == gs[gs.len() - 1]);
                    }
                }
                assert forall|c1: int, c2: int, x: usize|
                    0 <= c1 < c2 < ng.len() && #[trigger] ng[c1].contains(x) implies !#[trigger] ng[c2].contains(x) by {
                    assert(ng[c1] == np[c1]);
                    if c2 < np.len() {
                        assert(ng[c2] == np[c2]);
                    } else if ng[c2].contains(x) {
                        assert(in_some(np, x));
                        let c3 = choose|c3: int| 0 <= c3 < prev.len() && (#[trigger] prev[c3]).contains(x);
                        assert(gs[c3] == prev[c3]);
                        assert(ng[c2] == gs[gs.len() - 1]);
                    }
                }
            }
        }
        assert forall|c: int| 0 <= c < ng.len() implies (#[trigger] ng[c]).len() > 0 by {
            if c < np.len() {
                assert(ng[c] == np[c]);
            }
        }
    }
}

proof fn lemma_add_singletons(cs: Seq<Seq<usize>>, singles: Seq<usize>)
    ensures
        forall|x: usize| in_some(add_singletons(cs, singles), x) <==> (in_some(cs, x) || singles.contains(x)),
        (forall|c: int| 0 <= c < cs.len() ==> (#[trigger] cs[c]).len() > 0) ==> forall|c: int|
            0 <= c < add_singletons(cs, singles).len() ==> (#[trigger] add_singletons(cs, singles)[c]).len() > 0,
        no_repeats(cs) ==> no_repeats(add_singletons(cs, singles)),
        add_singletons(cs, singles).len() >= cs.len(),
        forall|c: int| 0 <= c < cs.len() ==> #[trigger] add_singletons(cs, singles)[c] == cs[c],
    decreases singles.len(),
{
    if singles.len() > 0 {
        let ps = singles.drop_last();
        let s = singles.last();
        lemma_add_singletons(cs, ps);
        let prev = add_singletons(cs, ps);
        let cur = add_singletons(cs, singles);
        assert forall|x: usize| in_some(cur, x) <==> (in_some(cs, x) || singles.contains(x)) by {
            assert(in_some(prev, x) <==> (in_some(cs, x) || ps.contains(x)));
            assert(in_some(prev, s) <==> (in_some(cs, s) || ps.contains(s)));
            assert(singles.contains(x) <==> (ps.contains(x) || x == s)) by {
                if ps.contains(x) {
                    let w = choose|w: int| 0 <= w < ps.len() && ps[w] == x;
                    assert(singles[w] == x);
                }
                if singles.contains(x) && x != s {
                    let w = choose|w: int| 0 <= w < singles.len() && singles[w] == x;
                    assert(ps[w] == x);
                }
                if x == s {
                    assert(singles[singles.len() - 1] == x);
                }
            }
            if in_some(prev, s) {
                assert(cur == prev);
            } else {
                assert(cur == prev.push(seq![s]));
                assert(in_some(cur, x) <==> (in_some(prev, x) || x == s)) by {
                    if in_some(prev, x) {
                        let c = choose|c: int| 0 <= c < prev.len() && #[trigger] prev[c].contains(x);
                        assert(cur[c] == prev[c]);
                    }
                    if in_some(cur, x) {
                        let c = choose|c: int| 0 <= c < cur.len() && #[trigger] cur[c].contains(x);
                        if c < prev.len() {
                            assert(cur[c] == prev[c]);
                        } else {
                            assert(cur[c] == seq![s]);
                        }
                    }
                    if x == s {
                        assert(cur[prev.len() as int] == seq![s]);
                        assert(cur[prev.len() as int][0] == s);
                        assert(cur[prev.len() as int].contains(s));
                    }
                }
            }
        }
        if !in_some(prev, s) {
            assert forall|c: int| 0 <= c < cs.len() implies #[trigger] cur[c] == cs[c] by {
                assert(cur[c] == prev[c]);
            }
            if no_repeats(cs) {
                assert forall|c: int| 0 <= c < cur.len() implies (#[trigger] cur[c]).no_duplicates() by {
                    if c < prev.len() {
                        assert(cur[c] == prev[c]);
                    } else {
                        assert(cur[c] == seq![s]);
                    }
                }
                assert forall|c1: int, c2: int, x: usize|
                    0 <= c1 < c2 < cur.len() && #[trigger] cur[c1].contains(x) implies !#[trigger] cur[c2].contains(x) by {
                    assert(cur[c1] == prev[c1]);
                    if c2 < prev.len() {
                        assert(cur[c2] == prev[c2]);
                    } else if cur[c2].contains(x) {
                        assert(cur[c2] == seq![s]);
                        assert(x == s);
                        assert(in_some(prev, s));
                    }
                }
            }
            assert forall|c: int| 0 <= c < cur.len() && (forall|c3: int| 0 <= c3 < cs.len() ==> (#[trigger] cs[c3]).len() > 0)
                implies (#[trigger] cur[c]).len() > 0 by {
                if c < prev.len() {
                    assert(cur[c] == prev[c]);
                }
            }
        }
    }
}

/// A sequence without repetitions whose elements are exactly the numbers
/// below `n` has length `n`.
proof fn lemma_exact_range_len(s: Seq<usize>, n: usize)
    requires
        s.no_duplicates(),
        forall|i: int| 0 <= i < s.len() ==> #[trigger] s[i] < n,
        forall|x: usize| x < n ==> #[trigger] s.contains(x),
    ensures
        s.len() == n,
    decreases n,
{
    if n == 0 {
        if s.len() > 0 {
            assert(s[0] < n);
        }
    } else {
        let top = (n - 1) as usize;
        assert(s.contains(top));
        let p = choose|p: int| 0 <= p < s.len() && s[p] == top;
        let r = s.remove(p);
        assert forall|i: int| 0 <= i < r.len() implies #[trigger] r[i] < top by {
            if i < p {
                assert(r[i] == s[i]);
            } else {
                assert(r[i] == s[i + 1]);
            }
        }
        assert forall|x: usize| x < top implies #[trigger] r.contains(x) by {
            assert(s.contains(x));
            let q = choose|q: int| 0 <= q < s.len() && s[q] == x;
            if q < p {
                assert(r[q] == x);
            } else {
                assert(q != p);
                assert(r[q - 1] == x);
            }
        }
        assert(r.no_duplicates()) by {
            assert forall|a: int, b: int| 0 <= a < r.len() && 0 <= b < r.len() && a != b implies r[a] != r[b] by {
                let a2 = if a < p { a } else { a + 1 };
                let b2 = if b < p { b } else { b + 1 };
                assert(r[a] == s[a2] && r[b] == s[b2]);
            }
        }
        lemma_exact_range_len(r, top);
    }
}

/// Flattening clusters without repeats gives a sequence without repeats,
/// whose elements are the members of the clusters.
proof fn lemma_flatten_clusters(cs: Seq<Seq<usize>>)
    ensures
        forall|x: usize| #[trigger] cs.flatten().contains(x) <==> in_some(cs, x),
        no_repeats(cs) ==> cs.flatten().no_duplicates(),
        (forall|c: int| 0 <= c < cs.len() ==> (#[trigger] cs[c]).len() > 0) ==> cs.len() <= cs.flatten().len(),
    decreases cs.len(),
{
    if cs.len() > 0 {
        let prev = cs.drop_last();
        let last = cs.last();
        lemma_flatten_clusters(prev);
        assert(cs =~= prev.push(last));
        prev.lemma_flatten_push(last);
        let f = cs.flatten();
        let fp = prev.flatten();
        assert(f =~= fp + last);
        assert forall|x: usize| #[trigger] f.contains(x) <==> in_some(cs, x) by {
            if f.contains(x) {
                let w = choose|w: int| 0 <= w < f.len() && f[w] == x;
                if w < fp.len() {
                    assert(fp[w] == x);
                    assert(fp.contains(x));
                    let c = choose|c: int| 0 <= c < prev.len() && #[trigger] prev[c].contains(x);
                    assert(cs[c] == prev[c]);
                } else {
                    assert(last[w - fp.len()] == x);
                    assert(cs[cs.len() - 1].contains(x));
                }
            }
            if in_some(cs, x) {
                let c = choose|c: int| 0 <= c < cs.len() && #[trigger] cs[c].contains(x);
                if c < prev.len() {
                    assert(prev[c] == cs[c]);
                    assert(in_some(prev, x));
                    assert(fp.contains(x));
                    let w = choose|w: int| 0 <= w < fp.len() && fp[w] == x;
                    assert(f[w] == x);
                } else {
                    let w = choose|w: int| 0 <= w < last.len() && last[w] == x;
                    assert(f[fp.len() + w] == x);
                }
            }
        }
        if no_repeats(cs) {
            assert(no_repeats(prev)) by {
                assert forall|c: int| 0 <= c < prev.len() implies (#[trigger] prev[c]).no_duplicates() by {
                    assert(prev[c] == cs[c]);
                }
                assert forall|c1: int, c2: int, x: usize|
                    0 <= c1 < c2 < prev.len() && #[trigger] prev[c1].contains(x) implies !#[trigger] prev[c2].contains(x) by {
                    assert(prev[c1] == cs[c1] && prev[c2] == cs[c2]);
                }
            }
            assert(last.no_duplicates()) by {
                assert(cs[cs.len() - 1] == last);
            }
            assert forall|i: int, j: int| 0 <= i < fp.len() && 0 <= j < last.len() implies fp[i] != last[j] by {
                let x = fp[i];
                assert(fp.contains(x));
                assert(in_some(prev, x));
                let c = choose|c: int| 0 <= c < prev.len() && #[trigger] prev[c].contains(x);
                assert(cs[c] == prev[c]);
                assert(cs[cs.len() - 1] == last);
                if last[j] == x {
                    assert(last.contains(x));
                }
            }
            vstd::seq_lib::lemma_no_dup_in_concat(fp, last);
        }
        if forall|c: int| 0 <= c < cs.len() ==> (#[trigger] cs[c]).len() > 0 {
            assert forall|c: int| 0 <= c < prev.len() implies (#[trigger] prev[c]).len() > 0 by {
                assert(prev[c] == cs[c]);
            }
            assert(cs[cs.len() - 1].len() > 0);
        }
    }
}

/// Laws of the assembled clusters: every cluster has a member; a node is in
/// a cluster exactly when it is an isolated node or a node below `n` with a
/// community; where no node below `n` has two community assignments (ids at
/// or above `n` are dropped and may repeat), no node is in two
/// clusters or twice in one; and where, besides, every node below `n` is
/// isolated or has a community and every isolated node is below `n`, the
/// clusters hold `n` members in all and there are at most `n` of them.
pub proof fn lemma_assembled_clusters(n: usize, ms: Seq<(usize, u32)>, singles: Seq<usize>)
    ensures
        ({
            let cs = assembled_clusters(n as nat, ms, singles);
            &&& forall|c: int| 0 <= c < cs.len() ==> (#[trigger] cs[c]).len() > 0
            &&& forall|x: usize| in_some(cs, x) <==> (singles.contains(x) || assigned(ms, n as nat, x))
            &&& distinct_nodes(ms, n as nat) ==> no_repeats(cs)
            &&& (distinct_nodes(ms, n as nat) && (forall|i: int| 0 <= i < singles.len() ==> #[trigger] singles[i] < n)
                && (forall|x: usize| x < n ==> singles.contains(x) || #[trigger] assigned(ms, n as nat, x)))
                ==> cs.flatten().len() == n && cs.len() <= n
        }),
{
    let gs = module_groups(ms, n as nat);
    let mc = module_clusters(ms, n as nat);
    let cs = assembled_clusters(n as nat, ms, singles);
    lemma_groups(ms, n as nat);
    lemma_nonempty_groups(gs);
    lemma_add_singletons(mc, singles);
    lemma_flatten_clusters(cs);
    assert forall|x: usize| in_some(cs, x) <==> (singles.contains(x) || assigned(ms, n as nat, x)) by {
        assert(in_some(mc, x) <==> (exists|c: int| 0 <= c < gs.len() && (#[trigger] gs[c]).contains(x)));
    }
    if distinct_nodes(ms, n as nat) && (forall|i: int| 0 <= i < singles.len() ==> #[trigger] singles[i] < n)
        && (forall|x: usize| x < n ==> singles.contains(x) || #[trigger] assigned(ms, n as nat, x)) {
        let f = cs.flatten();
        assert forall|i: int| 0 <= i < f.len() implies #[trigger] f[i] < n by {
            let x = f[i];
            assert(f.contains(x));
            if singles.contains(x) {
                let w = choose|w: int| 0 <= w < singles.len() && singles[w] == x;
                assert(singles[w] < n);
            }
        }
        assert forall|x: usize| x < n implies #[trigger] f.contains(x) by {
            assert(singles.contains(x) || assigned(ms, n as nat, x));
            assert(in_some(cs, x));
        }
        lemma_exact_range_len(f, n);
    }
}

/// A directed link of the early-stopping graph: `src` links to `dst`, which
/// stands in column `col` of `src`'s neighbour list (the similarity of the link
/// is the one of that column).
#[derive(Clone, Copy, Debug, PartialEq, Eq)]
pub struct Link {
    pub src: usize,
    pub dst: usize,
    pub col: usize,
}

/// Column at which the scan of `row` for node `i`, resumed at column `j`,
/// stops: the first column at or after `j` that holds another node and fails
/// the filter (`keep` false), or the end of the row.
pub open spec fn stop_from(row: Seq<u32>, keep: Seq<bool>, i: int, j: int) -> int
    decreases row.len() - j,
{
    if j >= row.len() {
        row.len() as int
    } else if row[j] as int != i && !keep[j] {
        j
    } else {
        stop_from(row, keep, i, j + 1)
    }
}

/// Column at which the scan of node `i`'s neighbours stops (early stopping).
pub open spec fn stop_col(rows: Seq<Seq<u32>>, keeps: Seq<Seq<bool>>, i: int) -> int {
    stop_from(rows[i], keeps[i], i, 0)
}

/// Node `i` links to the neighbour in column `j`: the column comes before the
/// stop and holds another node (self loops are skipped).
pub open spec fn is_linked(rows: Seq<Seq<u32>>, keeps: Seq<Seq<bool>>, i: int, j: int) -> bool {
    &&& 0 <= i < rows.len()
    &&& 0 <= j < stop_col(rows, keeps, i)
    &&& rows[i][j] as int != i
}

/// Node `i` links to at least one other node.
pub open spec fn has_link(rows: Seq<Seq<u32>>, keeps: Seq<Seq<bool>>, i: int) -> bool {
    exists|j: int| is_linked(rows, keeps, i, j)
}

/// `e` is a link of the graph, recorded with the last column that links its
/// source to its target (a later insertion of the same pair overwrites an
/// earlier one).
pub open spec fn link_ok(rows: Seq<Seq<u32>>, keeps: Seq<Seq<bool>>, e: Link) -> bool {
    &&& is_linked(rows, keeps, e.src as int, e.col as int)
    &&& rows[e.src as int][e.col as int] as usize == e.dst
    &&& forall|j: int|
        e.col < j && is_linked(rows, keeps, e.src as int, j) ==> rows[e.src as int][j] as usize
            != e.dst
}

/// `e` is recorded for node `i` while its row has been scanned up to column `j`.
spec fn row_entry_ok(row: Seq<u32>, e: Link, i: int, j: int) -> bool {
    &&& e.src == i
    &&& e.col < j
    &&& row[e.col as int] as usize == e.dst
    &&& e.dst as int != i
    &&& forall|j2: int| e.col < j2 < j ==> row[j2] as usize != e.dst
}

proof fn lemma_stop_from(row: Seq<u32>, keep: Seq<bool>, i: int, from: int, j: int)
    requires
        0 <= from <= j <= row.len(),
        keep.len() == row.len(),
        forall|t: int| from <= t < j && row[t] as int != i ==> keep[t],
        j == row.len() || (row[j] as int != i && !keep[j]),
    ensures
        stop_from(row, keep, i, from) == j,
    decreases j - from,
{
    if from < j {
        lemma_stop_from(row, keep, i, from + 1, j);
    }
}

/// Records `e` among the entries of `links` from index `from` on: it replaces
/// the entry with the same target if there is one, else it is appended.
fn upsert_link(links: &mut Vec<Link>, from: usize, e: Link)
    requires
        from <= old(links)@.len(),
        forall|a: int, b: int|
            from <= a < b < old(links)@.len() ==> (#[trigger] old(links)@[a]).dst != (
            #[trigger] old(links)@[b]).dst,
    ensures
        final(links)@.len() >= old(links)@.len(),
        forall|u: int| 0 <= u < from ==> final(links)@[u] == old(links)@[u],
        forall|u: int|
            from <= u < old(links)@.len() && old(links)@[u].dst != e.dst ==> final(links)@[u]
                == old(links)@[u],
        forall|u: int|
            from <= u < final(links)@.len() ==> final(links)@[u] == e || (u < old(links)@.len()
                && final(links)@[u] == old(links)@[u] && old(links)@[u].dst != e.dst),
        exists|u: int| from <= u < final(links)@.len() && final(links)@[u] == e,
        forall|a: int, b: int|
            from <= a < b < final(links)@.len() ==> (#[trigger] final(links)@[a]).dst != (
            #[trigger] final(links)@[b]).dst,
{
    let mut t = from;
    while t < links.len()
        invariant
            from <= t <= links@.len(),
            links@ == old(links)@,
            forall|a: int, b: int|
                from <= a < b < links@.len() ==> (#[trigger] links@[a]).dst != (
                #[trigger] links@[b]).dst,
            forall|u: int| from <= u < t ==> (#[trigger] links@[u]).dst != e.dst,
        decreases links@.len() - t,
    {
        if links[t].dst == e.dst {
            let ghost before = links@;
            links.set(t, e);
            assert(links@[t as int] == e);
            assert forall|u: int| from <= u < links@.len() && u != t implies links@[u] == before[u]
                && before[u].dst != e.dst by {
                if u > t {
                    assert(before[t as int].dst != before[u].dst);
                }
            }
            return;
        }
        t += 1;
    }
    links.push(e);
    assert(links@[links@.len() - 1] == e);
}

/// Scans the neighbour list `row` of node `i` (with its filter outcomes
/// `keep`) and records its links among the entries of `links` from the current
/// end on. Returns whether the node links to any other node.
#[verifier::spinoff_prover]
#[verifier::rlimit(40)]
fn scan_row(row: &Vec<u32>, keep: &Vec<bool>, i: usize, links: &mut Vec<Link>) -> (any: bool)
    requires
        keep@.len() == row@.len(),
    ensures
        final(links)@.len() >= old(links)@.len(),
        forall|u: int| 0 <= u < old(links)@.len() ==> final(links)@[u] == old(links)@[u],
        forall|u: int|
            old(links)@.len() <= u < final(links)@.len() ==> row_entry_ok(
                row@,
                #[trigger] final(links)@[u],
                i as int,
                stop_from(row@, keep@, i as int, 0),
            ),
        forall|a: int, b: int|
            old(links)@.len() <= a < b < final(links)@.len() ==> (#[trigger] final(links)@[a]).dst
                != (#[trigger] final(links)@[b]).dst,
        forall|t: int|
            0 <= t < stop_from(row@, keep@, i as int, 0) && row@[t] as int != i ==> exists|u: int|
                old(links)@.len() <= u < final(links)@.len() && (#[trigger] final(links)@[u]).dst
                    == row@[t] as usize,
        any <==> exists|t: int| 0 <= t < stop_from(row@, keep@, i as int, 0) && row@[t] as int != i,
        0 <= stop_from(row@, keep@, i as int, 0) <= row@.len(),
{
    let row_start = links.len();
    let ghost prefix = links@;
    let mut any = false;
    let mut j: usize = 0;
    let mut stopped = false;
    while j < row.len() && !stopped
        invariant
            keep@.len() == row@.len(),
            j <= row@.len(),
            row_start == prefix.len(),
            row_start <= links@.len(),
            forall|t: int| 0 <= t < row_start ==> links@[t] == prefix[t],
            forall|t: int| 0 <= t < j && row@[t] as int != i ==> keep@[t],
            stopped ==> j < row@.len() && row@[j as int] as int != i && !keep@[j as int],
            forall|t: int|
                row_start <= t < links@.len() ==> row_entry_ok(
                    row@,
                    #[trigger] links@[t],
                    i as int,
                    j as int,
                ),
            forall|a: int, b: int|
                row_start <= a < b < links@.len() ==> (#[trigger] links@[a]).dst != (
                #[trigger] links@[b]).dst,
            forall|t: int|
                0 <= t < j && row@[t] as int != i ==> exists|u: int|
                    row_start <= u < links@.len() && (#[trigger] links@[u]).dst == row@[t] as usize,
            any <==> exists|t: int| 0 <= t < j && row@[t] as int != i,
        decreases row@.len() - j + (if stopped {
            0int
        } else {
            1int
        }),
    {
        let nb = row[j] as usize;
        if nb != i {
            if keep[j] {
                let ghost old_links = links@;
                let entry = Link { src: i, dst: nb, col: j };
                upsert_link(links, row_start, entry);
                assert forall|u: int| row_start <= u < links@.len() implies row_entry_ok(
                    row@,
                    #[trigger] links@[u],
                    i as int,
                    j + 1,
                ) by {
                    if links@[u] != entry {
                        assert(row_entry_ok(row@, old_links[u], i as int, j as int));
                    }
                }
                assert forall|t2: int| 0 <= t2 < j + 1 && row@[t2] as int != i implies exists|u: int|
                    row_start <= u < links@.len() && (#[trigger] links@[u]).dst == row@[t2] as usize by {
                    let v = choose|v: int| row_start <= v < links@.len() && links@[v] == entry;
                    if t2 < j {
                        let u = choose|u: int|
                            row_start <= u < old_links.len() && (#[trigger] old_links[u]).dst
                                == row@[t2] as usize;
                        if old_links[u].dst != nb {
                            assert(links@[u] == old_links[u]);
                        } else {
                            assert(links@[v].dst == row@[t2] as usize);
                        }
                    } else {
                        assert(links@[v].dst == row@[t2] as usize);
                    }
                }
                any = true;
                j += 1;
            } else {
                stopped = true;
            }
        } else {
            j += 1;
        }
    }
    proof {
        lemma_stop_from(row@, keep@, i as int, 0, j as int);
    }
    any
}

/// `links` and `singles` are the outcome of early stopping on the neighbour
/// lists `rows` with the filter outcomes `keeps`: every recorded link is a
/// link of the graph, kept with the last column that gives it; no pair is
/// recorded twice; the links come in order of their source; every link of
/// the graph is recorded; and `singles` lists, in increasing order, exactly
/// the nodes without a link.
pub open spec fn early_stop_links(
    rows: Seq<Seq<u32>>,
    keeps: Seq<Seq<bool>>,
    links: Seq<Link>,
    singles: Seq<usize>,
) -> bool {
    &&& forall|t: int| 0 <= t < links.len() ==> link_ok(rows, keeps, #[trigger] links[t])
    &&& forall|a: int, b: int|
        0 <= a < b < links.len() ==> (#[trigger] links[a]).src <= (#[trigger] links[b]).src && (
        links[a].src != links[b].src || links[a].dst != links[b].dst)
    &&& forall|i: int, j: int|
        #[trigger] is_linked(rows, keeps, i, j) ==> exists|t: int|
            0 <= t < links.len() && (#[trigger] links[t]).src == i && links[t].dst
                == rows[i][j] as usize
    &&& forall|a: int, b: int|
        0 <= a < b < singles.len() ==> (#[trigger] singles[a]) < (#[trigger] singles[b])
    &&& forall|t: int|
        0 <= t < singles.len() ==> (#[trigger] singles[t]) < rows.len() && !has_link(
            rows,
            keeps,
            singles[t] as int,
        )
    &&& forall|i: int| 0 <= i < rows.len() && !has_link(rows, keeps, i) ==> singles.contains(i as usize)
}

/// The scan resumed at column `j` stops at the first column from `j` on that
/// holds another node and fails the filter, or at the end of the row.
proof fn lemma_stop_from_first_failure(row: Seq<u32>, keep: Seq<bool>, i: int, j: int)
    requires
        0 <= j <= row.len(),
    ensures
        j <= stop_from(row, keep, i, j) <= row.len(),
        forall|u: int| j <= u < stop_from(row, keep, i, j) ==> row[u] as int == i || keep[u],
        stop_from(row, keep, i, j) == row.len() || (row[stop_from(row, keep, i, j)] as int != i
            && !keep[stop_from(row, keep, i, j)]),
    decreases row.len() - j,
{
    if j < row.len() {
        lemma_stop_from_first_failure(row, keep, i, j + 1);
    }
}

/// A node links to the neighbour in column `j` exactly when that neighbour is
/// another node and every column up to `j` holds the node itself or passes
/// the filter: the scan goes on through every passing column, whatever its
/// position, and ends at the first failing one.
pub proof fn lemma_linked_iff_all_earlier_pass(
    rows: Seq<Seq<u32>>,
    keeps: Seq<Seq<bool>>,
    i: int,
    j: int,
)
    requires
        0 <= i < rows.len(),
        keeps.len() == rows.len(),
        keeps[i].len() == rows[i].len(),
    ensures
        is_linked(rows, keeps, i, j) <==> (0 <= j < rows[i].len() && rows[i][j] as int != i
            && forall|u: int| 0 <= u <= j ==> rows[i][u] as int == i || keeps[i][u]),
{
    lemma_stop_from_first_failure(rows[i], keeps[i], i, 0);
    let s = stop_col(rows, keeps, i);
    if 0 <= j < rows[i].len() && rows[i][j] as int != i && (forall|u: int|
        0 <= u <= j ==> rows[i][u] as int == i || keeps[i][u]) {
        if s <= j {
            assert(rows[i][s] as int == i || keeps[i][s]);
        }
    }
}

/// Early stopping in terms of the neighbour lists and the filter alone: every
/// recorded link goes from a node to another node whose column, and every
/// column before it, holds the node itself or passes the filter; every such
/// column gives a recorded link, whatever its position in the row; and a node
/// is isolated exactly when no column gives it a link.
pub proof fn lemma_early_stop_links_meaning(
    rows: Seq<Seq<u32>>,
    keeps: Seq<Seq<bool>>,
    links: Seq<Link>,
    singles: Seq<usize>,
)
    requires
        keeps.len() == rows.len(),
        forall|i: int| 0 <= i < rows.len() ==> (#[trigger] keeps[i]).len() == rows[i].len(),
        early_stop_links(rows, keeps, links, singles),
    ensures
        forall|t: int|
            0 <= t < links.len() ==> {
                let e = #[trigger] links[t];
                &&& e.src < rows.len()
                &&& e.col < rows[e.src as int].len()
                &&& rows[e.src as int][e.col as int] as usize == e.dst
                &&& e.dst != e.src
                &&& forall|u: int|
                    0 <= u <= e.col ==> rows[e.src as int][u] as int == e.src as int
                        || keeps[e.src as int][u]
            },
        forall|i: int, j: int|
            0 <= i < rows.len() && 0 <= j < rows[i].len() && #[trigger] rows[i][j] as int != i
                && (forall|u: int| 0 <= u <= j ==> rows[i][u] as int == i || keeps[i][u])
                ==> exists|t: int|
                0 <= t < links.len() && (#[trigger] links[t]).src == i && links[t].dst
                    == rows[i][j] as usize,
        forall|i: int|
            #![trigger rows[i]]
            0 <= i < rows.len() ==> (singles.contains(i as usize) <==> !exists|j: int|
                0 <= j < rows[i].len() && #[trigger] rows[i][j] as int != i && forall|u: int|
                    0 <= u <= j ==> rows[i][u] as int == i || keeps[i][u]),
{
    assert forall|t: int| 0 <= t < links.len() implies {
        let e = #[trigger] links[t];
        &&& e.src < rows.len()
        &&& e.col < rows[e.src as int].len()
        &&& rows[e.src as int][e.col as int] as usize == e.dst
        &&& e.dst != e.src
        &&& forall|u: int|
            0 <= u <= e.col ==> rows[e.src as int][u] as int == e.src as int || keeps[e.src as int][u]
    } by {
        let e = links[t];
        assert(link_ok(rows, keeps, e));
        lemma_linked_iff_all_earlier_pass(rows, keeps, e.src as int, e.col as int);
    }
    assert forall|i: int, j: int|
        0 <= i < rows.len() && 0 <= j < rows[i].len() && #[trigger] rows[i][j] as int != i && (forall|u: int|
            0 <= u <= j ==> rows[i][u] as int == i || keeps[i][u]) implies exists|t: int|
        0 <= t < links.len() && (#[trigger] links[t]).src == i && links[t].dst == rows[i][j] as usize by {
        lemma_linked_iff_all_earlier_pass(rows, keeps, i, j);
        assert(is_linked(rows, keeps, i, j));
    }
    assert forall|i: int| #![trigger rows[i]] 0 <= i < rows.len() implies (singles.contains(i as usize) <==> !exists|j: int|
        0 <= j < rows[i].len() && #[trigger] rows[i][j] as int != i && forall|u: int|
            0 <= u <= j ==> rows[i][u] as int == i || keeps[i][u]) by {
        if singles.contains(i as usize) {
            let w = choose|w: int| 0 <= w < singles.len() && singles[w] == i as usize;
            assert(!has_link(rows, keeps, singles[w] as int));
            if exists|j: int| 0 <= j < rows[i].len() && #[trigger] rows[i][j] as int != i && forall|u: int|
                0 <= u <= j ==> rows[i][u] as int == i || keeps[i][u] {
                let j = choose|j: int| 0 <= j < rows[i].len() && #[trigger] rows[i][j] as int != i && forall|u: int|
                    0 <= u <= j ==> rows[i][u] as int == i || keeps[i][u];
                lemma_linked_iff_all_earlier_pass(rows, keeps, i, j);
            }
        } else {
            assert(has_link(rows, keeps, i));
            let j = choose|j: int| is_linked(rows, keeps, i, j);
            lemma_linked_iff_all_earlier_pass(rows, keeps, i, j);
        }
    }
}

proof fn lemma_stop_from_bounds(row: Seq<u32>, keep: Seq<bool>, i: int, j: int)
    requires
        0 <= j <= row.len(),
    ensures
        j <= stop_from(row, keep, i, j) <= row.len(),
    decreases row.len() - j,
{
    if j < row.len() {
        lemma_stop_from_bounds(row, keep, i, j + 1);
    }
}

proof fn lemma_stop_from_monotone(row: Seq<u32>, strict: Seq<bool>, loose: Seq<bool>, i: int, j: int)
    requires
        0 <= j <= row.len(),
        strict.len() == row.len(),
        loose.len() == row.len(),
        forall|t: int| 0 <= t < row.len() && strict[t] ==> loose[t],
    ensures
        stop_from(row, strict, i, j) <= stop_from(row, loose, i, j),
    decreases row.len() - j,
{
    if j < row.len() {
        lemma_stop_from_monotone(row, strict, loose, i, j + 1);
        lemma_stop_from_bounds(row, loose, i, j + 1);
    }
}

/// A stricter filter (a higher threshold) never adds links: where every
/// column that passes `strict` also passes `loose`, every link under `strict`
/// is a link under `loose`, and every node isolated under `loose` is
/// isolated under `strict`.
pub proof fn lemma_stricter_filter_fewer_links(
    rows: Seq<Seq<u32>>,
    strict: Seq<Seq<bool>>,
    loose: Seq<Seq<bool>>,
)
    requires
        strict.len() == rows.len(),
        loose.len() == rows.len(),
        forall|i: int| 0 <= i < rows.len() ==> (#[trigger] strict[i]).len() == rows[i].len(),
        forall|i: int| 0 <= i < rows.len() ==> (#[trigger] loose[i]).len() == rows[i].len(),
        forall|i: int, j: int|
            0 <= i < rows.len() && 0 <= j < rows[i].len() && #[trigger] strict[i][j] ==> loose[i][j],
    ensures
        forall|i: int, j: int| #[trigger] is_linked(rows, strict, i, j) ==> is_linked(rows, loose, i, j),
        forall|i: int| 0 <= i < rows.len() && !has_link(rows, loose, i) ==> !has_link(rows, strict, i),
{
    assert forall|i: int, j: int| #[trigger] is_linked(rows, strict, i, j) implies is_linked(rows, loose, i, j) by {
        lemma_stop_from_monotone(rows[i], strict[i], loose[i], i, 0);
    }
    assert forall|i: int| 0 <= i < rows.len() && !has_link(rows, loose, i) implies !has_link(rows, strict, i) by {
        if has_link(rows, strict, i) {
            let j = choose|j: int| is_linked(rows, strict, i, j);
            assert(is_linked(rows, loose, i, j));
        }
    }
}

/// Every node of the graph ends up in a cluster when the communities assign
/// every source of a link: a node without a link is isolated and gets a
/// cluster of its own, a node with a link has a community. Where, besides, no
/// node below `n` has two community assignments, the clusters hold each node once: `n`
/// members in all, in at most `n` clusters.
pub proof fn lemma_every_node_clustered(
    rows: Seq<Seq<u32>>,
    keeps: Seq<Seq<bool>>,
    links: Seq<Link>,
    singles: Seq<usize>,
    ms: Seq<(usize, u32)>,
)
    requires
        rows.len() <= usize::MAX,
        early_stop_links(rows, keeps, links, singles),
        forall|t: int| 0 <= t < links.len() ==> assigned(ms, rows.len(), #[trigger] links[t].src),
    ensures
        forall|x: usize| x < rows.len() ==> in_some(assembled_clusters(rows.len(), ms, singles), x),
        distinct_nodes(ms, rows.len()) ==> assembled_clusters(rows.len(), ms, singles).flatten().len() == rows.len()
            && assembled_clusters(rows.len(), ms, singles).len() <= rows.len(),
{
    let n = rows.len() as usize;
    lemma_assembled_clusters(n, ms, singles);
    assert forall|x: usize| x < n implies singles.contains(x) || #[trigger] assigned(ms, n as nat, x) by {
        if !singles.contains(x) {
            assert(has_link(rows, keeps, x as int));
            let j = choose|j: int| is_linked(rows, keeps, x as int, j);
            let t = choose|t: int|
                0 <= t < links.len() && (#[trigger] links[t]).src == x as int && links[t].dst
                    == rows[x as int][j] as usize;
            assert(assigned(ms, rows.len(), links[t].src));
        }
    }
    assert forall|x: usize| x < rows.len() implies in_some(assembled_clusters(rows.len(), ms, singles), x) by {
        assert(singles.contains(x) || assigned(ms, n as nat, x));
    }
}

/// Builds the early-stopping link graph. For each node, its neighbours are
/// visited in order; a neighbour equal to the node itself is skipped; a
/// neighbour that passes the filter (`keep`, which says for each column
/// whether its similarity clears the threshold and, where one is set, the
/// cosine threshold) is linked; the first that fails ends the node's scan.
/// Returns the links, without two for the same pair and in order of their
/// source, and the nodes that link to no other node, in increasing order.
#[verifier::spinoff_prover]
#[verifier::rlimit(40)]
pub fn get_links(graph: &KnnGraph, keep: &Vec<Vec<bool>>) -> (result: (Vec<Link>, Vec<usize>))
    requires
        keep@.len() == graph.rows().len(),
        forall|i: int| 0 <= i < keep@.len() ==> (#[trigger] keep@[i])@.len() == graph.rows()[i].len(),
    ensures
        early_stop_links(graph.rows(), keep@.map_values(|r: Vec<bool>| r@), result.0@, result.1@),
{
    let ghost rows = graph.rows();
    let ghost keeps = keep@.map_values(|r: Vec<bool>| r@);
    let n = graph.nbrs.len();
    let mut links: Vec<Link> = Vec::new();
    let mut singles: Vec<usize> = Vec::new();
    let mut i: usize = 0;
    while i < n
        invariant
            n == rows.len(),
            rows == graph.rows(),
            keeps == keep@.map_values(|r: Vec<bool>| r@),
            keep@.len() == n,
            forall|i2: int| 0 <= i2 < n ==> (#[trigger] keep@[i2])@.len() == rows[i2].len(),
            i <= n,
            forall|t: int|
                0 <= t < links@.len() ==> (#[trigger] links@[t]).src < i && link_ok(
                    rows,
                    keeps,
                    links@[t],
                ),
            forall|a: int, b: int|
                0 <= a < b < links@.len() ==> (#[trigger] links@[a]).src <= (
                #[trigger] links@[b]).src && (links@[a].src != links@[b].src || links@[a].dst
                    != links@[b].dst),
            forall|i2: int, j: int|
                0 <= i2 < i && #[trigger] is_linked(rows, keeps, i2, j) ==> exists|t: int|
                    0 <= t < links@.len() && (#[trigger] links@[t]).src == i2 && links@[t].dst
                        == rows[i2][j] as usize,
            forall|a: int, b: int|
                0 <= a < b < singles@.len() ==> (#[trigger] singles@[a]) < (
                #[trigger] singles@[b]),
            forall|t: int|
                0 <= t < singles@.len() ==> (#[trigger] singles@[t]) < i && !has_link(
                    rows,
                    keeps,
                    singles@[t] as int,
                ),
            forall|i2: int|
                0 <= i2 < i && !has_link(rows, keeps, i2) ==> singles@.contains(i2 as usize),
        decreases n - i,
    {
        let row = &graph.nbrs[i];
        let krow = &keep[i];
        assert(row@ == rows[i as int]);
        assert(krow@ == keeps[i as int]);
        let row_start = links.len();
        let ghost prefix = links@;
        let any = scan_row(row, krow, i, &mut links);
        let ghost stop = stop_from(row@, krow@, i as int, 0);
        assert(stop == stop_col(rows, keeps, i as int));
        proof {
            lemma_links_after_row(rows, keeps, prefix, links@, i as int);
        }
        let ghost old_singles = singles@;
        if !any {
            singles.push(i);
        }
        proof {
            lemma_singles_after_row(rows, keeps, old_singles, singles@, i, any);
        }
        i += 1;
    }
    (links, singles)
}

/// After scanning row `i`, the isolated nodes recorded so far satisfy the
/// invariant of `get_links` for rows up to `i`.
proof fn lemma_singles_after_row(
    rows: Seq<Seq<u32>>,
    keeps: Seq<Seq<bool>>,
    old_singles: Seq<usize>,
    singles: Seq<usize>,
    i: usize,
    any: bool,
)
    requires
        i < rows.len(),
        any <==> exists|t: int| 0 <= t < stop_col(rows, keeps, i as int) && rows[i as int][t] as int != i,
        singles == (if any {
            old_singles
        } else {
            old_singles.push(i)
        }),
        forall|a: int, b: int|
            0 <= a < b < old_singles.len() ==> (#[trigger] old_singles[a]) < (
            #[trigger] old_singles[b]),
        forall|t: int|
            0 <= t < old_singles.len() ==> (#[trigger] old_singles[t]) < i && !has_link(
                rows,
                keeps,
                old_singles[t] as int,
            ),
        forall|i2: int|
            0 <= i2 < i && !has_link(rows, keeps, i2) ==> old_singles.contains(i2 as usize),
    ensures
        forall|a: int, b: int|
            0 <= a < b < singles.len() ==> (#[trigger] singles[a]) < (#[trigger] singles[b]),
        forall|t: int|
            0 <= t < singles.len() ==> (#[trigger] singles[t]) < i + 1 && !has_link(
                rows,
                keeps,
                singles[t] as int,
            ),
        forall|i2: int|
            0 <= i2 < i + 1 && !has_link(rows, keeps, i2) ==> singles.contains(i2 as usize),
{
    if any {
        let w = choose|w: int| 0 <= w < stop_col(rows, keeps, i as int) && rows[i as int][w] as int != i;
        assert(is_linked(rows, keeps, i as int, w));
    } else {
        assert(singles[old_singles.len() as int] == i);
        assert forall|a: int, b: int| 0 <= a < b < singles.len() implies (#[trigger] singles[a]) < (
        #[trigger] singles[b]) by {
            assert(singles[a] == old_singles[a]);
            if b < old_singles.len() {
                assert(singles[b] == old_singles[b]);
            }
        }
        assert forall|t: int| 0 <= t < singles.len() implies (#[trigger] singles[t]) < i + 1
            && !has_link(rows, keeps, singles[t] as int) by {
            if t < old_singles.len() {
                assert(singles[t] == old_singles[t]);
            } else {
                assert(!has_link(rows, keeps, i as int));
            }
        }
    }
    assert forall|i2: int| 0 <= i2 < i + 1 && !has_link(rows, keeps, i2) implies singles.contains(
        i2 as usize,
    ) by {
        if i2 < i {
            let w = choose|w: int| 0 <= w < old_singles.len() && old_singles[w] == i2 as usize;
            assert(singles[w] == i2 as usize);
        }
    }
}

/// After scanning row `i`, the links recorded so far satisfy the invariant of
/// `get_links` for rows up to `i`.
proof fn lemma_links_after_row(
    rows: Seq<Seq<u32>>,
    keeps: Seq<Seq<bool>>,
    prefix: Seq<Link>,
    links: Seq<Link>,
    i: int,
)
    requires
        0 <= i < rows.len(),
        keeps.len() == rows.len(),
        links.len() >= prefix.len(),
        forall|u: int| 0 <= u < prefix.len() ==> links[u] == prefix[u],
        forall|t: int|
            0 <= t < prefix.len() ==> (#[trigger] prefix[t]).src < i && link_ok(rows, keeps, prefix[t]),
        forall|a: int, b: int|
            0 <= a < b < prefix.len() ==> (#[trigger] prefix[a]).src <= (#[trigger] prefix[b]).src
                && (prefix[a].src != prefix[b].src || prefix[a].dst != prefix[b].dst),
        forall|i2: int, j: int|
            0 <= i2 < i && #[trigger] is_linked(rows, keeps, i2, j) ==> exists|t: int|
                0 <= t < prefix.len() && (#[trigger] prefix[t]).src == i2 && prefix[t].dst
                    == rows[i2][j] as usize,
        forall|u: int|
            prefix.len() <= u < links.len() ==> row_entry_ok(
                rows[i],
                #[trigger] links[u],
                i,
                stop_col(rows, keeps, i),
            ),
        forall|a: int, b: int|
            prefix.len() <= a < b < links.len() ==> (#[trigger] links[a]).dst != (
            #[trigger] links[b]).dst,
        forall|t: int|
            0 <= t < stop_col(rows, keeps, i) && rows[i][t] as int != i ==> exists|u: int|
                prefix.len() <= u < links.len() && (#[trigger] links[u]).dst == rows[i][t] as usize,
    ensures
        forall|t: int|
            0 <= t < links.len() ==> (#[trigger] links[t]).src < i + 1 && link_ok(rows, keeps, links[t]),
        forall|a: int, b: int|
            0 <= a < b < links.len() ==> (#[trigger] links[a]).src <= (#[trigger] links[b]).src
                && (links[a].src != links[b].src || links[a].dst != links[b].dst),
        forall|i2: int, j: int|
            0 <= i2 < i + 1 && #[trigger] is_linked(rows, keeps, i2, j) ==> exists|t: int|
                0 <= t < links.len() && (#[trigger] links[t]).src == i2 && links[t].dst
                    == rows[i2][j] as usize,
{
    assert forall|t: int| 0 <= t < links.len() implies (#[trigger] links[t]).src < i + 1 && link_ok(
        rows,
        keeps,
        links[t],
    ) by {
        if t >= prefix.len() {
            assert(row_entry_ok(rows[i], links[t], i, stop_col(rows, keeps, i)));
        } else {
            assert(links[t] == prefix[t]);
        }
    }
    assert forall|a: int, b: int| 0 <= a < b < links.len() implies (#[trigger] links[a]).src <= (
    #[trigger] links[b]).src && (links[a].src != links[b].src || links[a].dst != links[b].dst) by {
        if a < prefix.len() {
            assert(links[a] == prefix[a]);
            if b < prefix.len() {
                assert(links[b] == prefix[b]);
            } else {
                assert(row_entry_ok(rows[i], links[b], i, stop_col(rows, keeps, i)));
            }
        } else {
            assert(row_entry_ok(rows[i], links[a], i, stop_col(rows, keeps, i)));
            assert(row_entry_ok(rows[i], links[b], i, stop_col(rows, keeps, i)));
        }
    }
    assert forall|i2: int, j: int|
        0 <= i2 < i + 1 && #[trigger] is_linked(rows, keeps, i2, j) implies exists|t: int|
            0 <= t < links.len() && (#[trigger] links[t]).src == i2 && links[t].dst
                == rows[i2][j] as usize by {
        if i2 < i {
            let t = choose|t: int|
                0 <= t < prefix.len() && (#[trigger] prefix[t]).src == i2 && prefix[t].dst
                    == rows[i2][j] as usize;
            assert(links[t] == prefix[t]);
        } else {
            let u = choose|u: int|
                prefix.len() <= u < links.len() && (#[trigger] links[u]).dst == rows[i][j] as usize;
            assert(row_entry_ok(rows[i], links[u], i, stop_col(rows, keeps, i)));
        }
    }
}

} // verus!
