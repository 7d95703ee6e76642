use mother::graph::{compute_clusters, ClusterInfo};
use mother::records::{Concept, Relation};

fn concepts(names: &[&str]) -> Vec<Concept> {
    names
        .iter()
        .enumerate()
        .map(|(i, n)| Concept {
            id: i as i64,
            name: n.to_string(),
            definition: String::new(),
            confidence: 3000,
            created_at: String::new(),
        })
        .collect()
}

fn rel(from: &str, kind: &str, to: &str) -> Relation {
    Relation {
        id: 0,
        from: from.to_string(),
        relation_type: kind.to_string(),
        to: to.to_string(),
        created_at: String::new(),
    }
}

fn shape(cs: &[ClusterInfo]) -> Vec<(Vec<String>, Vec<String>)> {
    cs.iter().map(|c| (c.nodes.clone(), c.top.clone())).collect()
}

fn strs(v: &[&str]) -> Vec<String> {
    v.iter().map(|s| s.to_string()).collect()
}

#[test]
fn two_linked_and_one_isolated() {
    let out = compute_clusters(&concepts(&["a", "b", "c"]), &vec![rel("a", "uses", "b")]);
    assert_eq!(
        shape(&out),
        vec![(strs(&["a", "b"]), strs(&["a", "b"])), (strs(&["c"]), strs(&["c"]))]
    );
}

#[test]
fn clusters_partition_every_node() {
    let cs = concepts(&["e", "d", "c", "b", "a", "f"]);
    let rels = vec![rel("a", "r", "b"), rel("c", "r", "d"), rel("d", "r", "e"), rel("x", "r", "a")];
    let out = compute_clusters(&cs, &rels);
    let mut all: Vec<String> = out.iter().flat_map(|c| c.nodes.clone()).collect();
    all.sort();
    assert_eq!(all, strs(&["a", "b", "c", "d", "e", "f", "x"]));
    assert_eq!(
        out.iter().map(|c| c.nodes.clone()).collect::<Vec<_>>(),
        vec![strs(&["a", "b", "x"]), strs(&["c", "d", "e"]), strs(&["f"])]
    );
}

#[test]
fn top_nodes_rank_by_degree_then_name() {
    let cs = concepts(&["hub", "a", "b", "c", "d"]);
    let rels = vec![
        rel("hub", "r", "a"),
        rel("hub", "r", "b"),
        rel("hub", "r", "c"),
        rel("d", "r", "c"),
        rel("a", "r", "hub"),
    ];
    let out = compute_clusters(&cs, &rels);
    assert_eq!(out.len(), 1);
    assert_eq!(out[0].nodes, strs(&["a", "b", "c", "d", "hub"]));
    assert_eq!(out[0].top, strs(&["hub", "c", "a"]));
}

#[test]
fn no_concepts_no_clusters() {
    assert!(compute_clusters(&vec![], &vec![]).is_empty());
}

#[test]
fn self_loop_counts_as_own_neighbour() {
    let out = compute_clusters(&concepts(&["m", "n"]), &vec![rel("n", "r", "n")]);
    assert_eq!(shape(&out), vec![(strs(&["m"]), strs(&["m"])), (strs(&["n"]), strs(&["n"]))]);
}

#[test]
fn duplicate_concept_names_appear_once() {
    let out = compute_clusters(&concepts(&["z", "z", "y"]), &vec![]);
    assert_eq!(out.iter().map(|c| c.nodes.clone()).collect::<Vec<_>>(), vec![strs(&["y"]), strs(&["z"])]);
}
