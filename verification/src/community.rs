//! Community detection: where the Infomap executable is found, the choice
//! between Infomap and the Leiden fallback, and the integer bookkeeping around
//! the Leiden call (node indexing, undirected edge keys, labelling).
use vstd::prelude::*;

use std::collections::HashMap;

use crate::error::FcesError;
use crate::text::chars_of;

verus! {

/// An entry of a directory searched for the Infomap executable.
pub struct DirEntryInfo {
    /// The entry's file name.
    pub name: String,
    /// The entry is a regular file.
    pub is_file: bool,
}

/// Where the Infomap executable was found.
#[derive(Clone, Copy, Debug, PartialEq, Eq)]
pub enum InfomapLocation {
    /// Entry `entry` of the searched directory `dir`.
    Directory { dir: usize, entry: usize },
    /// The command `Infomap`, resolved through the search path.
    OnPath,
}

/// Code point of `c` with ASCII upper-case letters made lower case.
pub open spec fn ascii_lower(c: char) -> u32 {
    if 0x41 <= (c as u32) <= 0x5A {
        ((c as u32) + 0x20) as u32
    } else {
        c as u32
    }
}

/// `name` spells `target` up to ASCII case.
pub open spec fn same_ignoring_case(name: Seq<char>, target: Seq<char>) -> bool {
    &&& name.len() == target.len()
    &&& forall|t: int| 0 <= t < name.len() ==> ascii_lower(#[trigger] name[t]) == target[t] as u32
}

pub open spec fn infomap_name() -> Seq<char> {
    seq!['i', 'n', 'f', 'o', 'm', 'a', 'p']
}

pub open spec fn infomap_exe_name() -> Seq<char> {
    seq!['i', 'n', 'f', 'o', 'm', 'a', 'p', '.', 'e', 'x', 'e']
}

/// The name is `infomap` or `infomap.exe` in lower case. (Only ASCII letters
/// lower-case into the letters of these two names, so comparing up to ASCII
/// case is the same as comparing the lower-cased name.)
pub open spec fn is_infomap_name(name: Seq<char>) -> bool {
    same_ignoring_case(name, infomap_name()) || same_ignoring_case(name, infomap_exe_name())
}

/// The directory entry is the Infomap executable.
pub open spec fn is_infomap_entry(e: DirEntryInfo) -> bool {
    e.is_file && is_infomap_name(e.name@)
}

/// Some entry of the listings is the Infomap executable.
pub open spec fn listed(listings: Seq<Vec<DirEntryInfo>>) -> bool {
    exists|d: int, e: int|
        0 <= d < listings.len() && 0 <= e < listings[d]@.len() && is_infomap_entry(
            #[trigger] listings[d]@[e],
        )
}

/// Entry `e` of directory `d` is the first Infomap executable of the
/// listings, in the order of the directories and then of their entries.
pub open spec fn first_listed(listings: Seq<Vec<DirEntryInfo>>, d: int, e: int) -> bool {
    &&& 0 <= d < listings.len()
    &&& 0 <= e < listings[d]@.len()
    &&& is_infomap_entry(listings[d]@[e])
    &&& forall|d2: int, e2: int|
        0 <= d2 < listings.len() && 0 <= e2 < listings[d2]@.len() && (d2 < d || (d2 == d && e2
            < e)) ==> !is_infomap_entry(#[trigger] listings[d2]@[e2])
}

fn same_ignoring_case_exec(name: &Vec<char>, target: &Vec<char>) -> (b: bool)
    ensures
        b == same_ignoring_case(name@, target@),
{
    if name.len() != target.len() {
        return false;
    }
    let mut t: usize = 0;
    while t < name.len()
        invariant
            name@.len() == target@.len(),
            t <= name@.len(),
            forall|u: int| 0 <= u < t ==> ascii_lower(#[trigger] name@[u]) == target@[u] as u32,
        decreases name@.len() - t,
    {
        let c = name[t];
        let u = c as u32;
        let lower = if 0x41 <= u && u <= 0x5A {
            u + 0x20
        } else {
            u
        };
        if lower != target[t] as u32 {
            return false;
        }
        t += 1;
    }
    true
}

fn is_infomap_entry_exec(e: &DirEntryInfo) -> (b: bool)
    ensures
        b == is_infomap_entry(*e),
{
    if !e.is_file {
        return false;
    }
    let name = chars_of(e.name.as_str());
    let a = vec!['i', 'n', 'f', 'o', 'm', 'a', 'p'];
    let b = vec!['i', 'n', 'f', 'o', 'm', 'a', 'p', '.', 'e', 'x', 'e'];
    assert(a@ =~= infomap_name());
    assert(b@ =~= infomap_exe_name());
    same_ignoring_case_exec(&name, &a) || same_ignoring_case_exec(&name, &b)
}

/// Locates the Infomap executable from the entries of the searched
/// directories (in search order) and whether running `Infomap --version`
/// succeeded: the first entry that is a file named `infomap` or
/// `infomap.exe` (in any ASCII case), else the command on the search path if
/// the probe succeeded, else nothing. Where an entry matches, the probe's
/// outcome does not matter.
pub fn find_infomap_path(listings: &Vec<Vec<DirEntryInfo>>, probe_succeeded: bool) -> (r: Option<
    InfomapLocation,
>)
    ensures
        match r {
            Some(InfomapLocation::Directory { dir, entry }) => first_listed(
                listings@,
                dir as int,
                entry as int,
            ),
            Some(InfomapLocation::OnPath) => !listed(listings@) && probe_succeeded,
            None => !listed(listings@) && !probe_succeeded,
        },
{
    let mut d: usize = 0;
    while d < listings.len()
        invariant
            d <= listings@.len(),
            forall|d2: int, e2: int|
                0 <= d2 < d && 0 <= e2 < listings@[d2]@.len() ==> !is_infomap_entry(
                    #[trigger] listings@[d2]@[e2],
                ),
        decreases listings@.len() - d,
    {
        let dir = &listings[d];
        let mut e: usize = 0;
        while e < dir.len()
            invariant
                d < listings@.len(),
                dir@ == listings@[d as int]@,
                e <= dir@.len(),
                forall|d2: int, e2: int|
                    0 <= d2 < d && 0 <= e2 < listings@[d2]@.len() ==> !is_infomap_entry(
                        #[trigger] listings@[d2]@[e2],
                    ),
                forall|e2: int| 0 <= e2 < e ==> !is_infomap_entry(#[trigger] dir@[e2]),
            decreases dir@.len() - e,
        {
            if is_infomap_entry_exec(&dir[e]) {
                return Some(InfomapLocation::Directory { dir: d, entry: e });
            }
            e += 1;
        }
        d += 1;
    }
    if probe_succeeded {
        Some(InfomapLocation::OnPath)
    } else {
        None
    }
}

/// Infomap is available: some searched directory holds it, or the probe of
/// the command on the search path succeeded.
pub fn has_infomap(listings: &Vec<Vec<DirEntryInfo>>, probe_succeeded: bool) -> (b: bool)
    ensures
        b == (listed(listings@) || probe_succeeded),
{
    let r = find_infomap_path(listings, probe_succeeded);
    match r {
        Some(InfomapLocation::Directory { dir, entry }) => {
            assert(listed(listings@)) by {
                assert(is_infomap_entry(listings@[dir as int]@[entry as int]));
            }
            true
        },
        Some(InfomapLocation::OnPath) => true,
        None => false,
    }
}

/// The Infomap executable to run: the one found, or else the command
/// `Infomap` on the search path.
pub fn find_infomap(listings: &Vec<Vec<DirEntryInfo>>, probe_succeeded: bool) -> (loc:
    InfomapLocation)
    ensures
        match loc {
            InfomapLocation::Directory { dir, entry } => first_listed(
                listings@,
                dir as int,
                entry as int,
            ),
            InfomapLocation::OnPath => !listed(listings@),
        },
{
    match find_infomap_path(listings, probe_succeeded) {
        Some(loc) => loc,
        None => InfomapLocation::OnPath,
    }
}

/// The labels (community indices) that the communities `parts` give to the
/// index `t`: one per occurrence, communities in order.
pub open spec fn labels_of(parts: Seq<Seq<usize>>, t: int) -> Seq<u32>
    decreases parts.len(),
{
    if parts.len() == 0 {
        seq![]
    } else {
        labels_of(parts.drop_last(), t) + occurrences(parts.last(), t, (parts.len() - 1) as u32)
    }
}

/// One `c` for each occurrence of `t` in `part`.
pub open spec fn occurrences(part: Seq<usize>, t: int, c: u32) -> Seq<u32>
    decreases part.len(),
{
    if part.len() == 0 {
        seq![]
    } else {
        occurrences(part.drop_last(), t, c) + if part.last() as int == t {
            seq![c]
        } else {
            seq![]
        }
    }
}

/// `(node, community)` pairs for the nodes at indices below `upto`, in index
/// order, each node with its labels in community order.
pub open spec fn labelled_upto(nodes: Seq<usize>, parts: Seq<Seq<usize>>, upto: nat) -> Seq<
    (usize, u32),
>
    decreases upto,
{
    if upto == 0 {
        seq![]
    } else {
        let t = (upto - 1) as int;
        labelled_upto(nodes, parts, (upto - 1) as nat) + labels_of(parts, t).map_values(
            |l: u32| (nodes[t], l),
        )
    }
}

/// When the communities partition the indices below `upto` (each occurs
/// exactly once in all), the labelled nodes are the nodes themselves, in
/// order, one pair each.
pub proof fn lemma_partition_labels(nodes: Seq<usize>, parts: Seq<Seq<usize>>, upto: nat)
    requires
        upto <= nodes.len(),
        forall|t: int| 0 <= t < upto ==> (#[trigger] labels_of(parts, t)).len() == 1,
    ensures
        labelled_upto(nodes, parts, upto).len() == upto,
        forall|t: int|
            0 <= t < upto ==> (#[trigger] labelled_upto(nodes, parts, upto)[t]) == (
            nodes[t],
            labels_of(parts, t)[0],
        ),
    decreases upto,
{
    if upto > 0 {
        let t0 = (upto - 1) as int;
        lemma_partition_labels(nodes, parts, (upto - 1) as nat);
        assert(labels_of(parts, t0).len() == 1);
        let prev = labelled_upto(nodes, parts, (upto - 1) as nat);
        let cur = labelled_upto(nodes, parts, upto);
        assert forall|t: int| 0 <= t < upto implies (#[trigger] cur[t]) == (nodes[t], labels_of(parts, t)[0]) by {
            if t < t0 {
                assert(cur[t] == prev[t]);
            }
        }
    }
}

/// Every entry of `occurrences(part, t, c)` is `c`, and there is one at all
/// exactly when `t` occurs in `part`.
proof fn lemma_occurrences(part: Seq<usize>, t: int, c: u32)
    ensures
        forall|k: int| 0 <= k < occurrences(part, t, c).len() ==> #[trigger] occurrences(part, t, c)[k] == c,
        occurrences(part, t, c).len() > 0 <==> exists|q: int| 0 <= q < part.len() && part[q] as int == t,
    decreases part.len(),
{
    if part.len() > 0 {
        let d = part.drop_last();
        lemma_occurrences(d, t, c);
        let prev = occurrences(d, t, c);
        let occ = occurrences(part, t, c);
        assert forall|k: int| 0 <= k < occ.len() implies #[trigger] occ[k] == c by {
            if k < prev.len() {
                assert(occ[k] == prev[k]);
            }
        }
        if exists|q: int| 0 <= q < part.len() && part[q] as int == t {
            let q = choose|q: int| 0 <= q < part.len() && part[q] as int == t;
            if q < part.len() - 1 {
                assert(d[q] == part[q]);
            }
        }
        if exists|q: int| 0 <= q < d.len() && d[q] as int == t {
            let q = choose|q: int| 0 <= q < d.len() && d[q] as int == t;
            assert(d[q] == part[q]);
        }
    }
}

/// The labels of index `t` are the indices of the communities that hold `t`:
/// each label is the index of such a community, and each such community
/// gives its index.
proof fn lemma_labels_of(parts: Seq<Seq<usize>>, t: int)
    ensures
        forall|k: int|
            0 <= k < labels_of(parts, t).len() ==> exists|c: int, q: int|
                0 <= c < parts.len() && 0 <= q < parts[c].len() && parts[c][q] as int == t
                    && #[trigger] labels_of(parts, t)[k] == c as u32,
        forall|c: int, q: int|
            0 <= c < parts.len() && 0 <= q < parts[c].len() && #[trigger] parts[c][q] as int == t
                ==> labels_of(parts, t).contains(c as u32),
    decreases parts.len(),
{
    if parts.len() > 0 {
        let n = parts.len() - 1;
        let d = parts.drop_last();
        lemma_labels_of(d, t);
        lemma_occurrences(parts[n], t, n as u32);
        let prev = labels_of(d, t);
        let occ = occurrences(parts[n], t, n as u32);
        let all = labels_of(parts, t);
        assert(all == prev + occ);
        assert forall|k: int| 0 <= k < all.len() implies exists|c: int, q: int|
            0 <= c < parts.len() && 0 <= q < parts[c].len() && parts[c][q] as int == t
                && #[trigger] all[k] == c as u32 by {
            if k < prev.len() {
                assert(all[k] == prev[k]);
                let (c, q) = choose|c: int, q: int|
                    0 <= c < d.len() && 0 <= q < d[c].len() && d[c][q] as int == t && #[trigger] prev[k]
                        == c as u32;
                assert(d[c] == parts[c]);
            } else {
                assert(all[k] == occ[k - prev.len()]);
                assert(occ[k - prev.len()] == n as u32);
                let q = choose|q: int| 0 <= q < parts[n].len() && parts[n][q] as int == t;
                assert(parts[n][q] as int == t);
            }
        }
        assert forall|c: int, q: int|
            0 <= c < parts.len() && 0 <= q < parts[c].len() && #[trigger] parts[c][q] as int == t
                implies all.contains(c as u32) by {
            if c < n {
                assert(d[c] == parts[c]);
                assert(d[c][q] as int == t);
                let k = choose|k: int| 0 <= k < prev.len() && prev[k] == c as u32;
                assert(all[k] == prev[k]);
            } else {
                assert(occ[0] == n as u32);
                assert(all[prev.len() as int] == occ[0]);
            }
        }
    }
}

/// Where `t` occurs once in `part`, at `q0`, it gets one label.
proof fn lemma_occurrences_once(part: Seq<usize>, t: int, c: u32, q0: int)
    requires
        0 <= q0 < part.len(),
        part[q0] as int == t,
        forall|q: int| 0 <= q < part.len() && #[trigger] part[q] as int == t ==> q == q0,
    ensures
        occurrences(part, t, c) == seq![c],
    decreases part.len(),
{
    let n = part.len() - 1;
    let d = part.drop_last();
    if q0 == n {
        lemma_occurrences(d, t, c);
        if exists|q: int| 0 <= q < d.len() && d[q] as int == t {
            let q = choose|q: int| 0 <= q < d.len() && d[q] as int == t;
            assert(part[q] == d[q]);
        }
        assert(occurrences(d, t, c) =~= Seq::<u32>::empty());
        assert(occurrences(part, t, c) =~= seq![c]);
    } else {
        assert(part[n] as int != t);
        assert forall|q: int| 0 <= q < d.len() && #[trigger] d[q] as int == t implies q == q0 by {
            assert(part[q] == d[q]);
        }
        assert(d[q0] == part[q0]);
        lemma_occurrences_once(d, t, c, q0);
        assert(occurrences(part, t, c) =~= occurrences(d, t, c));
    }
}

/// Where `t` occurs exactly once among the communities, at `parts[c0][q0]`,
/// its only label is `c0`.
proof fn lemma_labels_of_once(parts: Seq<Seq<usize>>, t: int, c0: int, q0: int)
    requires
        0 <= c0 < parts.len(),
        0 <= q0 < parts[c0].len(),
        parts[c0][q0] as int == t,
        forall|c: int, q: int|
            0 <= c < parts.len() && 0 <= q < parts[c].len() && #[trigger] parts[c][q] as int == t
                ==> c == c0 && q == q0,
    ensures
        labels_of(parts, t) == seq![c0 as u32],
    decreases parts.len(),
{
    let n = parts.len() - 1;
    let d = parts.drop_last();
    lemma_occurrences(parts[n], t, n as u32);
    if c0 == n {
        lemma_labels_of(d, t);
        if labels_of(d, t).len() > 0 {
            let (c, q) = choose|c: int, q: int|
                0 <= c < d.len() && 0 <= q < d[c].len() && d[c][q] as int == t && #[trigger] labels_of(
                    d,
                    t,
                )[0] == c as u32;
            assert(d[c] == parts[c]);
            assert(parts[c][q] as int == t);
        }
        assert forall|q: int| 0 <= q < parts[n].len() && #[trigger] parts[n][q] as int == t implies q
            == q0 by {
            assert(parts[n][q] as int == t);
        }
        lemma_occurrences_once(parts[n], t, n as u32, q0);
        assert(labels_of(parts, t) =~= seq![c0 as u32]);
    } else {
        if exists|q: int| 0 <= q < parts[n].len() && parts[n][q] as int == t {
            let q = choose|q: int| 0 <= q < parts[n].len() && parts[n][q] as int == t;
            assert(parts[n][q] as int == t);
        }
        assert(occurrences(parts[n], t, n as u32) =~= Seq::<u32>::empty());
        assert forall|c: int, q: int|
            0 <= c < d.len() && 0 <= q < d[c].len() && #[trigger] d[c][q] as int == t implies c == c0
                && q == q0 by {
            assert(d[c] == parts[c]);
            assert(parts[c][q] as int == t);
        }
        assert(d[c0] == parts[c0]);
        lemma_labels_of_once(d, t, c0, q0);
        assert(labels_of(parts, t) =~= labels_of(d, t));
    }
}

/// Index `t` is a member of some community.
pub open spec fn in_community(parts: Seq<Seq<usize>>, t: int) -> bool {
    exists|c: int, q: int|
        0 <= c < parts.len() && 0 <= q < parts[c].len() && #[trigger] parts[c][q] as int == t
}

/// When the communities partition the indices below `upto` (every index is
/// the member of exactly one community, once), there is exactly one pair per
/// index, in index order, and the pair of a member of community `c` carries
/// the label `c`.
pub proof fn lemma_partition_labelled(nodes: Seq<usize>, parts: Seq<Seq<usize>>, upto: nat)
    requires
        upto <= nodes.len(),
        forall|t: int| 0 <= t < upto ==> #[trigger] in_community(parts, t),
        forall|c1: int, q1: int, c2: int, q2: int|
            0 <= c1 < parts.len() && 0 <= q1 < parts[c1].len() && 0 <= c2 < parts.len() && 0 <= q2
                < parts[c2].len() && #[trigger] parts[c1][q1] == #[trigger] parts[c2][q2]
                && parts[c1][q1] < upto ==> c1 == c2 && q1 == q2,
    ensures
        labelled_upto(nodes, parts, upto).len() == upto,
        forall|c: int, q: int|
            0 <= c < parts.len() && 0 <= q < parts[c].len() && #[trigger] parts[c][q] < upto
                ==> labelled_upto(nodes, parts, upto)[parts[c][q] as int] == (
                nodes[parts[c][q] as int],
                c as u32,
            ),
{
    assert forall|t: int| 0 <= t < upto implies (#[trigger] labels_of(parts, t)).len() == 1 by {
        assert(in_community(parts, t));
        let (c0, q0) = choose|c: int, q: int|
            0 <= c < parts.len() && 0 <= q < parts[c].len() && #[trigger] parts[c][q] as int == t;
        lemma_labels_of_once(parts, t, c0, q0);
    }
    lemma_partition_labels(nodes, parts, upto);
    assert forall|c: int, q: int|
        0 <= c < parts.len() && 0 <= q < parts[c].len() && #[trigger] parts[c][q] < upto
            implies labelled_upto(nodes, parts, upto)[parts[c][q] as int] == (
            nodes[parts[c][q] as int],
            c as u32,
        ) by {
        let t = parts[c][q] as int;
        lemma_labels_of_once(parts, t, c, q);
        assert(labelled_upto(nodes, parts, upto)[t] == (nodes[t], labels_of(parts, t)[0]));
    }
}

/// `pair` is a node of community `c` (some member `parts[c][q]`, an index
/// below `upto`) labelled with `c` itself.
pub open spec fn community_member(
    nodes: Seq<usize>,
    parts: Seq<Seq<usize>>,
    upto: nat,
    pair: (usize, u32),
) -> bool {
    exists|c: int, q: int|
        #![trigger parts[c][q]]
        0 <= c < parts.len() && 0 <= q < parts[c].len() && parts[c][q] < upto && pair == (
            nodes[parts[c][q] as int],
            c as u32,
        )
}

/// What the labels say, in terms of the communities alone: every pair is a
/// node of some community `c` with the label `c` itself, and every member of
/// every community `c` (among the indices below `upto`) gets the label `c`.
/// Different communities give different labels.
pub proof fn lemma_labelled_upto_meaning(nodes: Seq<usize>, parts: Seq<Seq<usize>>, upto: nat)
    requires
        upto <= nodes.len(),
    ensures
        forall|a: int|
            0 <= a < labelled_upto(nodes, parts, upto).len() ==> community_member(
                nodes,
                parts,
                upto,
                #[trigger] labelled_upto(nodes, parts, upto)[a],
            ),
        forall|c: int, q: int|
            0 <= c < parts.len() && 0 <= q < parts[c].len() && #[trigger] parts[c][q] < upto
                ==> labelled_upto(nodes, parts, upto).contains((nodes[parts[c][q] as int], c as u32)),
    decreases upto,
{
    if upto == 0 {
        assert(labelled_upto(nodes, parts, upto) =~= Seq::<(usize, u32)>::empty());
    } else {
        let t = (upto - 1) as int;
        lemma_labelled_upto_meaning(nodes, parts, (upto - 1) as nat);
        lemma_labels_of(parts, t);
        let prev = labelled_upto(nodes, parts, (upto - 1) as nat);
        let lab = labels_of(parts, t);
        let cur = labelled_upto(nodes, parts, upto);
        let tail = lab.map_values(|l: u32| (nodes[t], l));
        assert(cur == prev + tail);
        assert forall|a: int| 0 <= a < cur.len() implies community_member(
            nodes,
            parts,
            upto,
            #[trigger] cur[a],
        ) by {
            if a < prev.len() {
                assert(cur[a] == prev[a]);
                let (c, q) = choose|c: int, q: int|
                    #![trigger parts[c][q]]
                    0 <= c < parts.len() && 0 <= q < parts[c].len() && parts[c][q] < upto - 1
                        && prev[a] == (nodes[parts[c][q] as int], c as u32);
                assert(parts[c][q] < upto);
            } else {
                let k = a - prev.len();
                assert(cur[a] == tail[k]);
                assert(tail[k] == (nodes[t], lab[k]));
                let (c, q) = choose|c: int, q: int|
                    0 <= c < parts.len() && 0 <= q < parts[c].len() && parts[c][q] as int == t
                        && #[trigger] lab[k] == c as u32;
                assert(parts[c][q] < upto);
            }
        }
        assert forall|c: int, q: int|
            0 <= c < parts.len() && 0 <= q < parts[c].len() && #[trigger] parts[c][q] < upto
                implies cur.contains((nodes[parts[c][q] as int], c as u32)) by {
            let x = (nodes[parts[c][q] as int], c as u32);
            if parts[c][q] < upto - 1 {
                let a = choose|a: int| 0 <= a < prev.len() && prev[a] == x;
                assert(cur[a] == prev[a]);
            } else {
                assert(parts[c][q] as int == t);
                assert(lab.contains(c as u32));
                let k = choose|k: int| 0 <= k < lab.len() && lab[k] == c as u32;
                assert(cur[prev.len() + k] == tail[k]);
            }
        }
    }
}

/// Sorts `v` in increasing order, by `slice::sort`.
#[verifier::external_body]
fn sort_nodes(v: &mut Vec<usize>)
    ensures
        final(v)@.to_multiset() == old(v)@.to_multiset(),
        final(v)@.len() == old(v)@.len(),
        forall|a: int, b: int| 0 <= a < b < final(v)@.len() ==> final(v)@[a] <= final(v)@[b],
{
    v.sort();
}

/// `x` is the source or the target of one of the links.
pub open spec fn is_endpoint(links: Seq<(usize, usize)>, x: usize) -> bool {
    exists|k: int| 0 <= k < links.len() && ((#[trigger] links[k]).0 == x || links[k].1 == x)
}

/// Both endpoints of every link, in order.
fn endpoints(links: &Vec<(usize, usize)>) -> (all: Vec<usize>)
    ensures
        forall|x: usize| #[trigger] all@.contains(x) <==> is_endpoint(links@, x),
{
    let mut all: Vec<usize> = Vec::new();
    let mut k: usize = 0;
    while k < links.len()
        invariant
            k <= links@.len(),
            forall|x: usize|
                #[trigger] all@.contains(x) <==> is_endpoint(links@.take(k as int), x),
        decreases links@.len() - k,
    {
        let (s, d) = links[k];
        let ghost before = all@;
        let ghost pre = links@.take(k as int);
        let ghost post = links@.take(k + 1);
        all.push(s);
        all.push(d);
        assert forall|x: usize| #[trigger] all@.contains(x) <==> is_endpoint(post, x) by {
            if all@.contains(x) {
                let w = choose|w: int| 0 <= w < all@.len() && all@[w] == x;
                if w < before.len() {
                    assert(before[w] == x);
                    assert(before.contains(x));
                    let k2 = choose|k2: int| 0 <= k2 < pre.len() && ((#[trigger] pre[k2]).0 == x || pre[k2].1 == x);
                    assert(post[k2] == pre[k2]);
                } else {
                    assert(post[k as int] == (s, d));
                }
            }
            if is_endpoint(post, x) {
                let k2 = choose|k2: int| 0 <= k2 < post.len() && ((#[trigger] post[k2]).0 == x || post[k2].1 == x);
                if k2 < k {
                    assert(pre[k2] == post[k2]);
                    assert(is_endpoint(pre, x));
                    assert(before.contains(x));
                    let w = choose|w: int| 0 <= w < before.len() && before[w] == x;
                    assert(all@[w] == x);
                } else if post[k2].0 == x {
                    assert(all@[before.len() as int] == x);
                } else {
                    assert(all@[before.len() as int + 1] == x);
                }
            }
        }
        k += 1;
    }
    assert(links@.take(links@.len() as int) =~= links@);
    all
}

/// The values of `all`, each once, in increasing order.
fn sorted_unique(all: Vec<usize>) -> (nodes: Vec<usize>)
    ensures
        forall|a: int, b: int| 0 <= a < b < nodes@.len() ==> nodes@[a] < nodes@[b],
        forall|x: usize| #[trigger] nodes@.contains(x) <==> all@.contains(x),
{
    broadcast use vstd::seq_lib::group_to_multiset_ensures;

    let mut all = all;
    let ghost unsorted = all@;
    sort_nodes(&mut all);
    assert forall|x: usize| #[trigger] all@.contains(x) <==> unsorted.contains(x) by {
        assert(all@.to_multiset().count(x) == unsorted.to_multiset().count(x));
    }
    let mut nodes: Vec<usize> = Vec::new();
    let mut t: usize = 0;
    while t < all.len()
        invariant
            t <= all@.len(),
            forall|a: int, b: int| 0 <= a < b < all@.len() ==> all@[a] <= all@[b],
            forall|a: int, b: int| 0 <= a < b < nodes@.len() ==> nodes@[a] < nodes@[b],
            nodes@.len() > 0 ==> t > 0 && nodes@.last() == all@[t - 1],
            t > 0 ==> nodes@.len() > 0,
            forall|x: usize| #[trigger] nodes@.contains(x) <==> all@.take(t as int).contains(x),
        decreases all@.len() - t,
    {
        let x = all[t];
        let ghost before = nodes@;
        let ghost pre = all@.take(t as int);
        let ghost post = all@.take(t + 1);
        if nodes.len() == 0 || nodes[nodes.len() - 1] != x {
            nodes.push(x);
        }
        assert forall|y: usize| #[trigger] nodes@.contains(y) <==> post.contains(y) by {
            if nodes@.contains(y) {
                let w = choose|w: int| 0 <= w < nodes@.len() && nodes@[w] == y;
                if w < before.len() {
                    assert(before[w] == y);
                    assert(before.contains(y));
                    let w2 = choose|w2: int| 0 <= w2 < pre.len() && pre[w2] == y;
                    assert(post[w2] == y);
                } else {
                    assert(post[t as int] == y);
                }
            }
            if post.contains(y) {
                let w = choose|w: int| 0 <= w < post.len() && post[w] == y;
                if w < t {
                    assert(pre[w] == y);
                    assert(pre.contains(y));
                    assert(before.contains(y));
                    let w2 = choose|w2: int| 0 <= w2 < before.len() && before[w2] == y;
                    assert(nodes@[w2] == y);
                } else if before.len() > 0 && before.last() == x {
                    assert(nodes@[before.len() - 1] == y);
                } else {
                    assert(nodes@[before.len() as int] == y);
                }
            }
        }
        t += 1;
    }
    assert(all@.take(all@.len() as int) =~= all@);
    nodes
}

/// The position of each value of the strictly increasing `nodes`.
fn positions(nodes: &Vec<usize>) -> (index: HashMap<usize, usize>)
    ensures
        forall|x: usize| #[trigger] index@.contains_key(x) <==> nodes@.contains(x),
        forall|x: usize|
            #[trigger] index@.contains_key(x) ==> index@[x] < nodes@.len() && nodes@[index@[x] as int]
                == x,
{
    broadcast use vstd::std_specs::hash::group_hash_axioms;

    let mut index: HashMap<usize, usize> = HashMap::new();
    let mut p: usize = 0;
    while p < nodes.len()
        invariant
            p <= nodes@.len(),
            forall|x: usize| #[trigger] index@.contains_key(x) <==> nodes@.take(p as int).contains(x),
            forall|x: usize|
                #[trigger] index@.contains_key(x) ==> index@[x] < p && nodes@[index@[x] as int] == x,
        decreases nodes@.len() - p,
    {
        let ghost pre = nodes@.take(p as int);
        let ghost post = nodes@.take(p + 1);
        index.insert(nodes[p], p);
        assert forall|x: usize| #[trigger] index@.contains_key(x) <==> post.contains(x) by {
            if pre.contains(x) {
                let w = choose|w: int| 0 <= w < pre.len() && pre[w] == x;
                assert(post[w] == x);
            }
            if post.contains(x) && x != nodes@[p as int] {
                let w = choose|w: int| 0 <= w < post.len() && post[w] == x;
                assert(pre[w] == x);
            }
            if x == nodes@[p as int] {
                assert(post[p as int] == x);
            }
        }
        p += 1;
    }
    assert(nodes@.take(nodes@.len() as int) =~= nodes@);
    index
}

/// The undirected graph handed to the Leiden algorithm, by its integer
/// structure: its nodes (the endpoints of the links, in increasing order,
/// each once) and, for each directed link, the undirected edge between the
/// indices of its endpoints (smaller index first). The weights of the links
/// that share an edge add up, outside this library.
pub struct UndirectedGraph {
    nodes: Vec<usize>,
    edges: Vec<(usize, usize)>,
}

impl UndirectedGraph {
    #[verifier::type_invariant]
    spec fn sorted_nodes(self) -> bool {
        forall|a: int, b: int| 0 <= a < b < self.nodes@.len() ==> self.nodes@[a] < self.nodes@[b]
    }

    pub closed spec fn node_seq(&self) -> Seq<usize> {
        self.nodes@
    }

    pub closed spec fn edge_seq(&self) -> Seq<(usize, usize)> {
        self.edges@
    }

    /// Builds the structure from the directed links `(source, target)`.
    pub fn build(links: &Vec<(usize, usize)>) -> (g: Self)
        ensures
            forall|a: int, b: int|
                0 <= a < b < g.node_seq().len() ==> g.node_seq()[a] < g.node_seq()[b],
            forall|x: usize|
                #[trigger] g.node_seq().contains(x) <==> is_endpoint(links@, x),
            g.edge_seq().len() == links@.len(),
            forall|k: int|
                0 <= k < links@.len() ==> {
                    let (u, v) = #[trigger] g.edge_seq()[k];
                    &&& u <= v < g.node_seq().len()
                    &&& (g.node_seq()[u as int] == links@[k].0 && g.node_seq()[v as int]
                        == links@[k].1) || (g.node_seq()[u as int] == links@[k].1
                        && g.node_seq()[v as int] == links@[k].0)
                },
    {
        broadcast use vstd::std_specs::hash::group_hash_axioms;

        let all = endpoints(links);
        let nodes = sorted_unique(all);
        let index = positions(&nodes);
        let mut edges: Vec<(usize, usize)> = Vec::new();
        let mut k: usize = 0;
        while k < links.len()
            invariant
                k <= links@.len(),
                edges@.len() == k,
                forall|a: int, b: int| 0 <= a < b < nodes@.len() ==> nodes@[a] < nodes@[b],
                forall|x: usize| #[trigger] index@.contains_key(x) <==> nodes@.contains(x),
                forall|x: usize|
                    #[trigger] index@.contains_key(x) ==> index@[x] < nodes@.len()
                        && nodes@[index@[x] as int] == x,
                forall|x: usize| #[trigger] nodes@.contains(x) <==> is_endpoint(links@, x),
                forall|k2: int|
                    0 <= k2 < k ==> {
                        let (u, v) = #[trigger] edges@[k2];
                        &&& u <= v < nodes@.len()
                        &&& (nodes@[u as int] == links@[k2].0 && nodes@[v as int] == links@[k2].1)
                            || (nodes@[u as int] == links@[k2].1 && nodes@[v as int]
                            == links@[k2].0)
                    },
            decreases links@.len() - k,
        {
            let (s, d) = links[k];
            assert(is_endpoint(links@, s) && is_endpoint(links@, d)) by {
                assert(links@[k as int] == (s, d));
            }
            assert(nodes@.contains(s));
            assert(nodes@.contains(d));
            let u = *index.get(&s).unwrap();
            let v = *index.get(&d).unwrap();
            if u <= v {
                edges.push((u, v));
            } else {
                edges.push((v, u));
            }
            k += 1;
        }
        UndirectedGraph { nodes, edges }
    }

    /// Number of nodes.
    pub fn num_nodes(&self) -> (n: usize)
        ensures
            n == self.node_seq().len(),
    {
        self.nodes.len()
    }

    /// The undirected edge of each directed link, as indices into the nodes.
    pub fn edges(&self) -> (e: &Vec<(usize, usize)>)
        ensures
            e@ == self.edge_seq(),
    {
        &self.edges
    }

    /// Turns communities of node indices (community `c` is `parts[c]`) into
    /// `(node, community)` pairs, ordered by node; the labels of one node keep
    /// the order of the communities.
    pub fn label_communities(&self, parts: &Vec<Vec<usize>>) -> (labels: Vec<(usize, u32)>)
        requires
            forall|c: int, q: int|
                0 <= c < parts@.len() && 0 <= q < parts@[c]@.len() ==> (#[trigger] parts@[c]@[q])
                    < self.node_seq().len(),
        ensures
            labels@ == labelled_upto(
                self.node_seq(),
                parts@.map_values(|p: Vec<usize>| p@),
                self.node_seq().len(),
            ),
            forall|a: int, b: int| 0 <= a < b < labels@.len() ==> labels@[a].0 <= labels@[b].0,
            forall|a: int|
                0 <= a < labels@.len() ==> community_member(
                    self.node_seq(),
                    parts@.map_values(|p: Vec<usize>| p@),
                    self.node_seq().len(),
                    #[trigger] labels@[a],
                ),
            forall|c: int, q: int|
                0 <= c < parts@.len() && 0 <= q < parts@[c]@.len() ==> labels@.contains(
                    (self.node_seq()[#[trigger] parts@[c]@[q] as int], c as u32),
                ),
    {
        proof {
            use_type_invariant(self);
        }
        let ghost ps = parts@.map_values(|p: Vec<usize>| p@);
        let n = self.nodes.len();
        let mut buckets: Vec<Vec<u32>> = Vec::new();
        let mut t: usize = 0;
        while t < n
            invariant
                t <= n,
                buckets@.len() == t,
                forall|t2: int| 0 <= t2 < t ==> (#[trigger] buckets@[t2])@ == Seq::<u32>::empty(),
            decreases n - t,
        {
            buckets.push(Vec::new());
            t += 1;
        }
        let mut c: usize = 0;
        while c < parts.len()
            invariant
                n == self.node_seq().len(),
                ps == parts@.map_values(|p: Vec<usize>| p@),
                c <= parts@.len(),
                buckets@.len() == n,
                forall|c2: int, q: int|
                    0 <= c2 < parts@.len() && 0 <= q < parts@[c2]@.len() ==> (
                    #[trigger] parts@[c2]@[q]) < n,
                forall|t2: int| 0 <= t2 < n ==> (#[trigger] buckets@[t2])@ == labels_of(ps.take(c as int), t2),
            decreases parts@.len() - c,
        {
            let part = &parts[c];
            let mut q: usize = 0;
            while q < part.len()
                invariant
                    n == self.node_seq().len(),
                    c < parts@.len(),
                    part@ == parts@[c as int]@,
                    q <= part@.len(),
                    buckets@.len() == n,
                    forall|q2: int| 0 <= q2 < part@.len() ==> (#[trigger] part@[q2]) < n,
                    forall|t2: int|
                        0 <= t2 < n ==> (#[trigger] buckets@[t2])@ == labels_of(ps.take(c as int), t2)
                            + occurrences(part@.take(q as int), t2, c as u32),
                decreases part@.len() - q,
            {
                let x = part[q];
                assert(part@.take(q + 1).drop_last() =~= part@.take(q as int));
                let ghost before = buckets@;
                buckets[x].push(c as u32);
                assert forall|t2: int| 0 <= t2 < n implies (#[trigger] buckets@[t2])@ == labels_of(
                    ps.take(c as int),
                    t2,
                ) + occurrences(part@.take(q + 1), t2, c as u32) by {
                    if t2 != x {
                        assert(buckets@[t2] == before[t2]);
                        assert(occurrences(part@.take(q + 1), t2, c as u32) =~= occurrences(
                            part@.take(q as int),
                            t2,
                            c as u32,
                        ));
                    } else {
                        assert(buckets@[t2]@ =~= labels_of(ps.take(c as int), t2) + occurrences(
                            part@.take(q + 1),
                            t2,
                            c as u32,
                        ));
                    }
                }
                q += 1;
            }
            assert(part@.take(part@.len() as int) =~= part@);
            assert(ps.take(c + 1).drop_last() =~= ps.take(c as int));
            assert(ps.take(c + 1).last() == part@);
            assert forall|t2: int| 0 <= t2 < n implies (#[trigger] buckets@[t2])@ == labels_of(
                ps.take(c + 1),
                t2,
            ) by {
                assert(labels_of(ps.take(c + 1), t2) =~= labels_of(ps.take(c as int), t2)
                    + occurrences(part@, t2, c as u32));
            }
            c += 1;
        }
        assert(ps.take(parts@.len() as int) =~= ps);
        let mut labels: Vec<(usize, u32)> = Vec::new();
        let mut t: usize = 0;
        while t < n
            invariant
                n == self.node_seq().len(),
                t <= n,
                buckets@.len() == n,
                forall|a: int, b: int| 0 <= a < b < n ==> self.node_seq()[a] < self.node_seq()[b],
                forall|t2: int| 0 <= t2 < n ==> (#[trigger] buckets@[t2])@ == labels_of(ps, t2),
                labels@ == labelled_upto(self.node_seq(), ps, t as nat),
                forall|a: int, b: int| 0 <= a < b < labels@.len() ==> labels@[a].0 <= labels@[b].0,
                forall|a: int| 0 <= a < labels@.len() && t > 0 ==> labels@[a].0 <= self.node_seq()[t - 1],
            decreases n - t,
        {
            let bucket = &buckets[t];
            let node = self.nodes[t];
            let ghost start = labels@;
            let mut r: usize = 0;
            while r < bucket.len()
                invariant
                    t < n,
                    node == self.node_seq()[t as int],
                    bucket@ == labels_of(ps, t as int),
                    r <= bucket@.len(),
                    labels@ == start + bucket@.take(r as int).map_values(|l: u32| (node, l)),
                    forall|a: int, b: int| 0 <= a < b < start.len() ==> start[a].0 <= start[b].0,
                    forall|a: int| 0 <= a < start.len() ==> start[a].0 <= node,
                    forall|a: int, b: int| 0 <= a < b < labels@.len() ==> labels@[a].0 <= labels@[b].0,
                    forall|a: int| 0 <= a < labels@.len() ==> labels@[a].0 <= node,
                decreases bucket@.len() - r,
            {
                labels.push((node, bucket[r]));
                assert(labels@ =~= start + bucket@.take(r + 1).map_values(|l: u32| (node, l)));
                r += 1;
            }
            assert(bucket@.take(bucket@.len() as int) =~= bucket@);
            assert(labelled_upto(self.node_seq(), ps, (t + 1) as nat) =~= start + labels_of(
                ps,
                t as int,
            ).map_values(|l: u32| (self.node_seq()[t as int], l)));
            t += 1;
        }
        proof {
            lemma_labelled_upto_meaning(self.node_seq(), ps, n as nat);
            assert forall|c: int, q: int|
                0 <= c < parts@.len() && 0 <= q < parts@[c]@.len() implies labels@.contains(
                    (self.node_seq()[#[trigger] parts@[c]@[q] as int], c as u32),
                ) by {
                assert(ps[c] == parts@[c]@);
                assert(ps[c][q] < n);
            }
        }
        labels
    }
}

/// What community detection is told next.
pub enum CommunityEvent {
    /// Detection starts on a graph with `num_links` links.
    Started { num_links: usize },
    /// The search for the Infomap executable ended; `available` says whether
    /// it was found.
    InfomapProbed { available: bool },
    /// Infomap ran, with this outcome.
    InfomapFinished(Result<Vec<(usize, u32)>, FcesError>),
}

/// What community detection does next.
pub enum CommunityAction {
    /// Detection is over, with these `(node, module)` assignments.
    Done(Vec<(usize, u32)>),
    /// Look for the Infomap executable.
    ProbeInfomap,
    /// Run Infomap on the links.
    RunInfomap,
    /// Run the Leiden algorithm on the links; its outcome is the result.
    RunLeiden,
}

/// The decisions of community detection: an empty graph has no communities
/// (and nothing is looked for); otherwise Infomap is preferred where it is
/// available, and the Leiden algorithm is the fallback where it is not or
/// where it fails.
pub fn detect_communities(event: CommunityEvent) -> (action: CommunityAction)
    ensures
        match event {
            CommunityEvent::Started { num_links } => if num_links == 0 {
                action matches CommunityAction::Done(v) && v@.len() == 0
            } else {
                action is ProbeInfomap
            },
            CommunityEvent::InfomapProbed { available } => if available {
                action is RunInfomap
            } else {
                action is RunLeiden
            },
            CommunityEvent::InfomapFinished(Ok(v)) => action == CommunityAction::Done(v),
            CommunityEvent::InfomapFinished(Err(_)) => action is RunLeiden,
        },
{
    match event {
        CommunityEvent::Started { num_links } => {
            if num_links == 0 {
                CommunityAction::Done(Vec::new())
            } else {
                CommunityAction::ProbeInfomap
            }
        },
        CommunityEvent::InfomapProbed { available } => {
            if available {
                CommunityAction::RunInfomap
            } else {
                CommunityAction::RunLeiden
            }
        },
        CommunityEvent::InfomapFinished(Ok(v)) => CommunityAction::Done(v),
        CommunityEvent::InfomapFinished(Err(_)) => CommunityAction::RunLeiden,
    }
}

} // verus!
