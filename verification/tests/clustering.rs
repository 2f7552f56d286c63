use fces::clustering::{get_links, run, Link};
use fces::types::KnnGraph;
use fces::{drop_singletons, resolve_k};

#[test]
fn run_groups_by_module_in_order_of_appearance() {
    let memberships = vec![(2, 7), (0, 3), (1, 7), (3, 3)];
    let clusters = run(4, &memberships, &vec![]);
    assert_eq!(clusters, vec![vec![2, 1], vec![0, 3]]);
}

#[test]
fn run_drops_sentinels_and_empty_modules() {
    let memberships = vec![(5, 0), (6, 0), (0, 1), (7, 2), (1, 2)];
    let clusters = run(3, &memberships, &vec![2]);
    assert_eq!(clusters, vec![vec![0], vec![1], vec![2]]);
}

#[test]
fn run_adds_each_unclustered_single_once() {
    let memberships = vec![(0, 1), (1, 1)];
    let clusters = run(5, &memberships, &vec![1, 3, 3, 4]);
    assert_eq!(clusters, vec![vec![0, 1], vec![3], vec![4]]);
}

#[test]
fn run_covers_every_node_once() {
    let memberships = vec![(0, 2), (3, 1), (1, 2), (4, 1)];
    let singles = vec![2, 5];
    let clusters = run(6, &memberships, &singles);
    let mut all: Vec<usize> = clusters.iter().flatten().copied().collect();
    all.sort();
    assert_eq!(all, vec![0, 1, 2, 3, 4, 5]);
    assert!(clusters.iter().all(|c| !c.is_empty()));
    assert!(clusters.len() <= 6);
}

fn graph(rows: &[&[u32]]) -> KnnGraph {
    KnnGraph { nbrs: rows.iter().map(|r| r.to_vec()).collect() }
}

#[test]
fn get_links_stops_at_first_failing_neighbour() {
    let g = graph(&[&[0, 1, 2, 3], &[1, 0, 2, 3], &[2, 3, 0, 1], &[3, 2, 1, 0]]);
    let keep = vec![
        vec![true, true, false, true],
        vec![false, true, true, true],
        vec![true, false, true, true],
        vec![false, false, true, true],
    ];
    let (links, singles) = get_links(&g, &keep);
    assert_eq!(
        links,
        vec![
            Link { src: 0, dst: 1, col: 1 },
            Link { src: 1, dst: 0, col: 1 },
            Link { src: 1, dst: 2, col: 2 },
            Link { src: 1, dst: 3, col: 3 },
        ]
    );
    assert_eq!(singles, vec![2, 3]);
}

#[test]
fn get_links_skips_self_and_keeps_last_column_of_repeated_pair() {
    let g = graph(&[&[1, 0, 1, 2], &[0, 0, 1, 1]]);
    let keep = vec![vec![true, false, true, false], vec![true, true, false, true]];
    let (links, singles) = get_links(&g, &keep);
    assert_eq!(links, vec![Link { src: 0, dst: 1, col: 2 }, Link { src: 1, dst: 0, col: 1 }]);
    assert!(singles.is_empty());
}

#[test]
fn get_links_isolated_nodes() {
    let g = graph(&[&[0], &[1, 0]]);
    let keep = vec![vec![false], vec![true, false]];
    let (links, singles) = get_links(&g, &keep);
    assert!(links.is_empty());
    assert_eq!(singles, vec![0, 1]);
}

#[test]
fn pipeline_assigns_every_node() {
    let g = graph(&[&[0, 1, 2], &[1, 0, 2], &[2, 1, 0], &[3, 0, 1]]);
    let keep = vec![vec![true, true, false], vec![true, true, false], vec![true, false, true], vec![true, false, false]];
    let (links, singles) = get_links(&g, &keep);
    let memberships: Vec<(usize, u32)> = vec![(0, 1), (1, 1)];
    assert!(links.iter().all(|l| memberships.iter().any(|m| m.0 == l.src)));
    let clusters = run(4, &memberships, &singles);
    assert_eq!(clusters, vec![vec![0, 1], vec![2], vec![3]]);
    assert_eq!(clusters.iter().map(|c| c.len()).sum::<usize>(), 4);
}

#[test]
fn default_k_and_singleton_filter() {
    assert_eq!(resolve_k(None, 12), 12);
    assert_eq!(resolve_k(None, 500), 80);
    assert_eq!(resolve_k(Some(5), 12), 5);
    let clusters = vec![vec![1, 2], vec![3], vec![4, 5, 6], vec![0]];
    assert_eq!(drop_singletons(clusters.clone(), true), vec![vec![1, 2], vec![4, 5, 6]]);
    assert_eq!(drop_singletons(clusters.clone(), false), clusters);
}

#[test]
fn stricter_filter_never_adds_links() {
    let g = graph(&[&[0, 1, 2, 3], &[1, 2, 0, 3], &[2, 0, 1, 3], &[3, 2, 1, 0]]);
    let loose = vec![
        vec![true, true, true, false],
        vec![true, true, true, true],
        vec![true, true, false, true],
        vec![true, false, true, true],
    ];
    let strict = vec![
        vec![true, true, false, false],
        vec![true, false, true, true],
        vec![true, true, false, true],
        vec![true, false, false, true],
    ];
    let (loose_links, loose_singles) = get_links(&g, &loose);
    let (strict_links, strict_singles) = get_links(&g, &strict);
    for l in &strict_links {
        assert!(loose_links.iter().any(|m| m.src == l.src && m.dst == l.dst));
    }
    for s in &loose_singles {
        assert!(strict_singles.contains(s));
    }
    assert_eq!(strict_links.len(), 2);
    assert_eq!(loose_links.len(), 6);
    assert_eq!(strict_singles, vec![1, 3]);
    assert_eq!(loose_singles, vec![3]);
}

#[test]
fn repeated_sentinel_ids_do_not_repeat_in_clusters() {
    let memberships = vec![(9, 0), (0, 0), (9, 1), (1, 1), (9, 0)];
    let clusters = run(3, &memberships, &vec![2]);
    assert_eq!(clusters, vec![vec![0], vec![1], vec![2]]);
}
