use std::collections::{HashMap, HashSet};
use wiki_graph::crawl::{Crawl, EdgeRecord};

fn page(links: &[&str]) -> String {
    let mut text = String::from("<html><p>");
    for link in links {
        text.push_str(&format!("<a href=\"/wiki/{}\">{}</a> ", link, link));
    }
    text.push_str("</p></html>");
    text
}

fn web(pages: &[(&str, &[&str])]) -> HashMap<String, String> {
    pages.iter().map(|(name, links)| (name.to_string(), page(links))).collect()
}

/// Runs a whole crawl over pages held in memory; a page that is not there
/// counts as a failed fetch. Returns the crawl and every frontier it had.
fn run(web: &HashMap<String, String>, seed: &str, max_depth: usize) -> (Crawl, Vec<Vec<String>>) {
    let mut crawl = Crawl::new(seed.to_string(), max_depth);
    let mut frontiers = vec![crawl.frontier()];
    while !crawl.is_finished() {
        let records: Vec<EdgeRecord> = crawl
            .frontier()
            .into_iter()
            .map(|name| {
                let content = web.get(&name).map(|text| text.as_str());
                EdgeRecord::from_page(name, content)
            })
            .collect();
        crawl = crawl.advance(records);
        frontiers.push(crawl.frontier());
    }
    (crawl, frontiers)
}

fn names(list: &[&str]) -> Vec<String> {
    list.iter().map(|s| s.to_string()).collect()
}

#[test]
fn depth_zero_yields_the_seed_alone() {
    let web = web(&[("A", &["B", "C"])]);
    let crawl = Crawl::new("A".to_string(), 0);
    assert!(crawl.is_finished());
    assert_eq!(crawl.level(), 0);
    assert_eq!(crawl.vertices(), &names(&["A"]));
    assert!(crawl.edges().is_empty());
    let (crawl, frontiers) = run(&web, "A", 0);
    assert_eq!(frontiers.len(), 1);
    let (vertices, edges) = crawl.into_parts();
    assert_eq!(vertices, names(&["A"]));
    assert_eq!(edges, Vec::<EdgeRecord>::new());
}

#[test]
fn finished_crawl_ignores_further_records() {
    let crawl = Crawl::new("A".to_string(), 0);
    let records = vec![EdgeRecord { source: "A".to_string(), links: names(&["B"]) }];
    let crawl = crawl.advance(records);
    assert_eq!(crawl.level(), 0);
    assert_eq!(crawl.vertices(), &names(&["A"]));
    assert!(crawl.edges().is_empty());
    assert_eq!(crawl.frontier(), names(&["A"]));
}

#[test]
fn new_crawl_has_the_seed_as_frontier() {
    let crawl = Crawl::new("Start".to_string(), 3);
    assert!(!crawl.is_finished());
    assert_eq!(crawl.frontier(), names(&["Start"]));
    assert_eq!(crawl.vertices(), &names(&["Start"]));
    assert_eq!(crawl.level(), 0);
}

#[test]
fn one_level_merges_links_in_record_then_link_order() {
    let crawl = Crawl::new("A".to_string(), 5);
    let records = vec![
        EdgeRecord { source: "A".to_string(), links: names(&["C", "B", "C", "A"]) },
        EdgeRecord { source: "X".to_string(), links: names(&["B", "D"]) },
    ];
    let crawl = crawl.advance(records.clone());
    assert_eq!(crawl.level(), 1);
    assert_eq!(crawl.vertices(), &names(&["A", "C", "B", "D"]));
    assert_eq!(crawl.frontier(), names(&["C", "B", "D"]));
    assert_eq!(crawl.edges(), &records);
}

#[test]
fn every_vertex_is_listed_once_and_queued_once() {
    let web = web(&[
        ("A", &["B", "C", "B"]),
        ("B", &["A", "C", "D"]),
        ("C", &["D", "A", "E", "E"]),
        ("D", &["A", "B", "C", "D", "E"]),
        ("E", &["F"]),
        ("F", &["A"]),
    ]);
    let (crawl, frontiers) = run(&web, "A", 10);
    let vertices = crawl.vertices().clone();
    let distinct: HashSet<&String> = vertices.iter().collect();
    assert_eq!(distinct.len(), vertices.len());
    assert_eq!(vertices, names(&["A", "B", "C", "D", "E", "F"]));
    let mut queued: HashSet<String> = HashSet::new();
    for frontier in &frontiers {
        for name in frontier {
            assert!(queued.insert(name.clone()), "{} was queued twice", name);
        }
    }
    assert_eq!(
        frontiers,
        vec![
            names(&["A"]),
            names(&["B", "C"]),
            names(&["D", "E"]),
            names(&["F"]),
            names(&[]),
        ]
    );
}

#[test]
fn depth_bounds_the_levels() {
    let web = web(&[("A", &["B"]), ("B", &["C"]), ("C", &["D"]), ("D", &["E"]), ("E", &[])]);
    for depth in 0..7usize {
        let (crawl, frontiers) = run(&web, "A", depth);
        let processed = depth.min(5);
        assert_eq!(crawl.level(), processed);
        assert_eq!(frontiers.len(), processed + 1);
        assert_eq!(crawl.edges().len(), processed);
        let expected = names(&["A", "B", "C", "D", "E"]);
        let found = (depth + 1).min(5);
        assert_eq!(crawl.vertices(), &expected[..found].to_vec());
    }
}

#[test]
fn crawl_stops_early_when_the_frontier_empties() {
    let web = web(&[("A", &["B"]), ("B", &["A"])]);
    let (crawl, _) = run(&web, "A", 1024);
    assert!(crawl.is_finished());
    assert_eq!(crawl.level(), 2);
    assert!(crawl.frontier().is_empty());
    assert_eq!(crawl.vertices(), &names(&["A", "B"]));
}

#[test]
fn failed_page_gives_a_record_without_links() {
    let record = EdgeRecord::from_page("Gone".to_string(), None);
    assert_eq!(record, EdgeRecord { source: "Gone".to_string(), links: Vec::new() });
    let web = web(&[("A", &["Gone", "B"]), ("B", &[])]);
    let (crawl, _) = run(&web, "A", 10);
    assert_eq!(crawl.vertices(), &names(&["A", "Gone", "B"]));
    assert_eq!(
        crawl.edges(),
        &vec![
            EdgeRecord { source: "A".to_string(), links: names(&["Gone", "B"]) },
            EdgeRecord { source: "Gone".to_string(), links: Vec::new() },
            EdgeRecord { source: "B".to_string(), links: Vec::new() },
        ]
    );
}

#[test]
fn record_of_a_page_holds_its_links() {
    let text = page(&["X", "Kategorie:Y", "Z"]);
    let record = EdgeRecord::from_page("P".to_string(), Some(&text));
    assert_eq!(record.source, "P");
    assert_eq!(record.links, names(&["X", "Z"]));
}

#[test]
fn result_does_not_depend_on_the_order_of_records() {
    let forward = vec![
        EdgeRecord { source: "B".to_string(), links: names(&["D", "E"]) },
        EdgeRecord { source: "C".to_string(), links: names(&["E", "F"]) },
    ];
    let backward: Vec<EdgeRecord> = forward.iter().rev().cloned().collect();
    let first = vec![EdgeRecord { source: "A".to_string(), links: names(&["B", "C"]) }];
    let one = Crawl::new("A".to_string(), 9).advance(first.clone()).advance(forward);
    let two = Crawl::new("A".to_string(), 9).advance(first).advance(backward);
    let set_one: HashSet<String> = one.vertices().iter().cloned().collect();
    let set_two: HashSet<String> = two.vertices().iter().cloned().collect();
    assert_eq!(set_one, set_two);
    assert_eq!(one.vertices(), &names(&["A", "B", "C", "D", "E", "F"]));
    assert_eq!(two.vertices(), &names(&["A", "B", "C", "E", "F", "D"]));
}
