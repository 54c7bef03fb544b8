use std::collections::HashSet;
use wiki_graph::crawl::EdgeRecord;
use wiki_graph::graph::{Graph, UnknownSource, UnknownVertex};
use wiki_graph::store::load;

fn names(list: &[&str]) -> Vec<String> {
    list.iter().map(|s| s.to_string()).collect()
}

fn record(source: &str, links: &[&str]) -> EdgeRecord {
    EdgeRecord { source: source.to_string(), links: names(links) }
}

fn chain() -> Graph {
    let vertices = names(&["A", "B", "C", "D", "E"]);
    let records = vec![record("A", &["B"]), record("B", &["C"]), record("C", &["D"])];
    Graph::new(vertices, &records).unwrap()
}

fn unknown(name: &str) -> UnknownVertex {
    UnknownVertex { name: name.to_string() }
}

/// The distance from `start` to `end`, in edges, found by expanding children
/// level by level.
fn distance(graph: &Graph, start: &str, end: &str) -> Option<usize> {
    let vertices = graph.vertices();
    let target = vertices.iter().position(|v| v == end).unwrap();
    let mut seen: HashSet<usize> = HashSet::new();
    let mut level = vec![vertices.iter().position(|v| v == start).unwrap()];
    seen.insert(level[0]);
    let mut hops = 0;
    while !level.is_empty() {
        if level.contains(&target) {
            return Some(hops);
        }
        let mut next = Vec::new();
        for v in &level {
            for child in graph.get_children(&vertices[*v]).unwrap() {
                if seen.insert(child) {
                    next.push(child);
                }
            }
        }
        level = next;
        hops += 1;
    }
    None
}

#[test]
fn path_along_a_chain() {
    let graph = chain();
    assert_eq!(graph.path("A", "D"), Ok(names(&["A", "B", "C", "D"])));
    assert_eq!(graph.path("A", "E"), Ok(Vec::new()));
}

#[test]
fn path_respects_direction() {
    let graph = chain();
    assert_eq!(graph.path("D", "A"), Ok(Vec::new()));
    assert_eq!(graph.path("B", "D"), Ok(names(&["B", "C", "D"])));
    assert_eq!(graph.path("E", "A"), Ok(Vec::new()));
}

#[test]
fn path_to_itself_is_the_vertex_alone() {
    let graph = chain();
    assert_eq!(graph.path("A", "A"), Ok(names(&["A"])));
    assert_eq!(graph.path("E", "E"), Ok(names(&["E"])));
}

#[test]
fn unknown_names_are_reported() {
    let graph = chain();
    assert_eq!(graph.path("X", "A"), Err(unknown("X")));
    assert_eq!(graph.path("A", "Y"), Err(unknown("Y")));
    assert_eq!(graph.path("X", "Y"), Err(unknown("X")));
    assert_eq!(graph.get_children("X"), Err(unknown("X")));
    assert_eq!(graph.get_parents("X"), Err(unknown("X")));
    assert_eq!(graph.path("a", "D"), Err(unknown("a")));
}

#[test]
fn shortcut_beats_the_long_way() {
    let vertices = names(&["A", "B", "C", "D", "E"]);
    let records = vec![
        record("A", &["B", "E"]),
        record("B", &["C"]),
        record("C", &["D"]),
        record("E", &["D"]),
    ];
    let graph = Graph::new(vertices, &records).unwrap();
    assert_eq!(graph.path("A", "D"), Ok(names(&["A", "E", "D"])));
}

#[test]
fn path_through_a_cycle_ends() {
    let vertices = names(&["A", "B", "C", "D"]);
    let records =
        vec![record("A", &["B"]), record("B", &["A", "C"]), record("C", &["A", "B"])];
    let graph = Graph::new(vertices, &records).unwrap();
    assert_eq!(graph.path("A", "C"), Ok(names(&["A", "B", "C"])));
    assert_eq!(graph.path("C", "B"), Ok(names(&["C", "B"])));
    assert_eq!(graph.path("A", "D"), Ok(Vec::new()));
}

#[test]
fn path_length_is_the_distance_by_expansion() {
    let vertices = names(&["0", "1", "2", "3", "4", "5", "6", "7", "8", "9"]);
    let records = vec![
        record("0", &["1", "2", "3"]),
        record("1", &["4", "0"]),
        record("2", &["4", "5"]),
        record("3", &["3", "6"]),
        record("4", &["7"]),
        record("5", &["7", "1"]),
        record("6", &["5", "0"]),
        record("7", &["8"]),
        record("8", &["2"]),
    ];
    let graph = Graph::new(vertices.clone(), &records).unwrap();
    for start in &vertices {
        for end in &vertices {
            let path = graph.path(start, end).unwrap();
            match distance(&graph, start, end) {
                Some(hops) => {
                    assert_eq!(path.len(), hops + 1, "{} to {}", start, end);
                    assert_eq!(&path[0], start);
                    assert_eq!(&path[path.len() - 1], end);
                    for pair in path.windows(2) {
                        let to = vertices.iter().position(|v| v == &pair[1]).unwrap();
                        assert!(graph.get_children(&pair[0]).unwrap().contains(&to));
                    }
                },
                None => assert!(path.is_empty(), "{} to {}", start, end),
            }
        }
    }
    assert_eq!(graph.path("0", "8").unwrap().len(), 5);
    assert_eq!(graph.path("9", "0"), Ok(Vec::new()));
    assert_eq!(graph.path("0", "9"), Ok(Vec::new()));
}

#[test]
fn children_and_parents() {
    let vertices = names(&["A", "B", "C", "D"]);
    let records = vec![
        record("A", &["C", "B", "C"]),
        record("B", &["C"]),
        record("D", &["C", "D", "A"]),
    ];
    let graph = Graph::new(vertices, &records).unwrap();
    assert_eq!(graph.get_children("A"), Ok(vec![2, 1]));
    assert_eq!(graph.get_children("B"), Ok(vec![2]));
    assert_eq!(graph.get_children("C"), Ok(vec![]));
    assert_eq!(graph.get_children("D"), Ok(vec![2, 3, 0]));
    assert_eq!(graph.get_parents("C"), Ok(vec![0, 1, 3]));
    assert_eq!(graph.get_parents("A"), Ok(vec![3]));
    assert_eq!(graph.get_parents("B"), Ok(vec![0]));
    assert_eq!(graph.get_parents("D"), Ok(vec![3]));
}

#[test]
fn record_with_unknown_source_is_refused() {
    let vertices = names(&["A", "B"]);
    let records = vec![record("A", &["B"]), record("Z", &["A"]), record("Y", &[])];
    assert!(matches!(Graph::new(vertices, &records), Err(UnknownSource { record: 1 })));
}

#[test]
fn graph_without_records_has_no_edges() {
    let graph = Graph::new(names(&["A", "B"]), &Vec::new()).unwrap();
    assert_eq!(graph.adjacency(), &vec![Vec::<usize>::new(), Vec::new()]);
    assert_eq!(graph.path("A", "B"), Ok(Vec::new()));
    let empty = Graph::new(Vec::new(), &Vec::new()).unwrap();
    assert!(empty.vertices().is_empty());
    assert_eq!(empty.path("A", "B"), Err(unknown("A")));
}

#[test]
fn loaded_graph_answers_queries() {
    let graph = load("A\nB\nC\nD\nE", "A: B\nB: C\nC: D").unwrap();
    assert_eq!(graph.path("A", "D"), Ok(names(&["A", "B", "C", "D"])));
    assert_eq!(graph.path("A", "E"), Ok(Vec::new()));
    assert_eq!(graph.get_children("B"), Ok(vec![2]));
    assert_eq!(graph.get_parents("B"), Ok(vec![0]));
}

#[test]
fn wide_layers_are_searched_once() {
    let width = 40usize;
    let layers = 6usize;
    let mut vertices = vec!["start".to_string()];
    for layer in 0..layers {
        for i in 0..width {
            vertices.push(format!("{}_{}", layer, i));
        }
    }
    vertices.push("end".to_string());
    let layer_names =
        |layer: usize| (0..width).map(|i| format!("{}_{}", layer, i)).collect::<Vec<_>>();
    let mut records = vec![EdgeRecord { source: "start".to_string(), links: layer_names(0) }];
    for layer in 0..layers {
        let links = if layer + 1 < layers { layer_names(layer + 1) } else { vec!["end".to_string()] };
        for source in layer_names(layer) {
            records.push(EdgeRecord { source, links: links.clone() });
        }
    }
    let graph = Graph::new(vertices, &records).unwrap();
    let path = graph.path("start", "end").unwrap();
    assert_eq!(path.len(), layers + 2);
    assert_eq!(path[1], "0_0");
}
