use fces::community::{
    detect_communities, find_infomap, find_infomap_path, has_infomap, CommunityAction,
    CommunityEvent, DirEntryInfo, InfomapLocation, UndirectedGraph,
};
use fces::error::FcesError;

fn entry(name: &str, is_file: bool) -> DirEntryInfo {
    DirEntryInfo { name: name.to_string(), is_file }
}

#[test]
fn finds_first_infomap_executable() {
    let listings = vec![
        vec![entry("a.txt", true), entry("Infomap", false)],
        vec![entry("readme", true), entry("INFOMAP.EXE", true), entry("infomap", true)],
    ];
    assert_eq!(
        find_infomap_path(&listings, true),
        Some(InfomapLocation::Directory { dir: 1, entry: 1 })
    );
    assert!(has_infomap(&listings, false));
}

#[test]
fn falls_back_to_search_path_probe() {
    let listings = vec![vec![entry("infomap.sh", true), entry("info map", true)]];
    assert_eq!(find_infomap_path(&listings, true), Some(InfomapLocation::OnPath));
    assert_eq!(find_infomap_path(&listings, false), None);
    assert!(!has_infomap(&listings, false));
    assert_eq!(find_infomap(&listings, false), InfomapLocation::OnPath);
    assert_eq!(find_infomap(&vec![vec![entry("InfoMap", true)]], false), InfomapLocation::Directory { dir: 0, entry: 0 });
}

#[test]
fn community_detection_decisions() {
    match detect_communities(CommunityEvent::Started { num_links: 0 }) {
        CommunityAction::Done(v) => assert!(v.is_empty()),
        _ => panic!("an empty graph has no communities"),
    }
    assert!(matches!(
        detect_communities(CommunityEvent::Started { num_links: 3 }),
        CommunityAction::ProbeInfomap
    ));
    assert!(matches!(
        detect_communities(CommunityEvent::InfomapProbed { available: true }),
        CommunityAction::RunInfomap
    ));
    assert!(matches!(
        detect_communities(CommunityEvent::InfomapProbed { available: false }),
        CommunityAction::RunLeiden
    ));
    match detect_communities(CommunityEvent::InfomapFinished(Ok(vec![(0, 1)]))) {
        CommunityAction::Done(v) => assert_eq!(v, vec![(0, 1)]),
        _ => panic!("Infomap's result is final"),
    }
    assert!(matches!(
        detect_communities(CommunityEvent::InfomapFinished(Err(FcesError::InfomapExecution(
            "x".to_string()
        )))),
        CommunityAction::RunLeiden
    ));
}

#[test]
fn undirected_graph_indexes_nodes_in_order() {
    let links = vec![(20, 5), (5, 10), (10, 5), (25, 20)];
    let g = UndirectedGraph::build(&links);
    assert_eq!(g.num_nodes(), 4);
    assert_eq!(g.edges(), &vec![(0, 2), (0, 1), (0, 1), (2, 3)]);
}

#[test]
fn leiden_labels_sorted_by_node() {
    let links = vec![(3, 0), (2, 1), (4, 5)];
    let g = UndirectedGraph::build(&links);
    let parts = vec![vec![5, 4], vec![3, 0], vec![2, 1]];
    let labels = g.label_communities(&parts);
    assert_eq!(labels, vec![(0, 1), (1, 2), (2, 2), (3, 1), (4, 0), (5, 0)]);
    for i in 1..labels.len() {
        assert!(labels[i].0 > labels[i - 1].0);
    }
}

#[test]
fn leiden_labels_empty_partition() {
    let g = UndirectedGraph::build(&vec![]);
    assert_eq!(g.num_nodes(), 0);
    assert!(g.label_communities(&vec![]).is_empty());
}

#[test]
fn labelled_nodes_are_all_link_endpoints() {
    let links = vec![(5, 10), (10, 15), (20, 25)];
    let g = UndirectedGraph::build(&links);
    let parts = vec![vec![0, 1, 2], vec![3, 4]];
    let labels = g.label_communities(&parts);
    let nodes: Vec<usize> = labels.iter().map(|(n, _)| *n).collect();
    assert_eq!(nodes, vec![5, 10, 15, 20, 25]);
    assert_eq!(labels, vec![(5, 0), (10, 0), (15, 0), (20, 1), (25, 1)]);
}
