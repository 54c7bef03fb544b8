use std::collections::HashMap;
use wiki_graph::crawl::{Crawl, EdgeRecord};
use wiki_graph::store::{load, parse_edges, parse_vertices, render_edges, render_vertices};

fn page(links: &[&str]) -> String {
    let mut text = String::from("<body><p>Intro ");
    for link in links {
        text.push_str(&format!("<a href=\"/wiki/{}\" title=\"{}\">{}</a>, ", link, link, link));
    }
    text.push_str("</p><p>Footer <a href=\"/wiki/Spezial:Suche\">search</a></p></body>");
    text
}

fn crawl_all(web: &HashMap<&str, String>, seed: &str, max_depth: usize) -> (Vec<String>, Vec<EdgeRecord>) {
    let mut crawl = Crawl::new(seed.to_string(), max_depth);
    while !crawl.is_finished() {
        let mut records = Vec::new();
        for name in crawl.frontier() {
            let content = web.get(name.as_str()).map(|text| text.as_str());
            records.push(EdgeRecord::from_page(name, content));
        }
        records.reverse();
        crawl = crawl.advance(records);
    }
    crawl.into_parts()
}

fn small_web() -> HashMap<&'static str, String> {
    let mut web = HashMap::new();
    web.insert("Berlin", page(&["Spree", "Deutschland", "Kategorie:Stadt"]));
    web.insert("Spree", page(&["Havel", "Berlin"]));
    web.insert("Deutschland", page(&["Berlin", "Europa"]));
    web.insert("Havel", page(&["Elbe"]));
    web.insert("Elbe", page(&["Nordsee", "Deutschland"]));
    web.insert("Nordsee", page(&[]));
    web
}

#[test]
fn crawled_graph_is_stored_and_queried() {
    let web = small_web();
    let (vertices, edges) = crawl_all(&web, "Berlin", 1024);
    assert_eq!(vertices.len(), 7);
    assert_eq!(vertices[0], "Berlin");
    assert_eq!(edges.len(), 7);

    let vertex_text = render_vertices(&vertices);
    let edge_text = render_edges(&edges);
    assert_eq!(parse_vertices(&vertex_text), vertices);
    assert_eq!(parse_edges(&edge_text), Ok(edges));

    let graph = load(&vertex_text, &edge_text).unwrap();
    assert_eq!(
        graph.path("Berlin", "Nordsee"),
        Ok(vec![
            "Berlin".to_string(),
            "Spree".to_string(),
            "Havel".to_string(),
            "Elbe".to_string(),
            "Nordsee".to_string(),
        ])
    );
    assert_eq!(
        graph.path("Elbe", "Europa"),
        Ok(vec!["Elbe".to_string(), "Deutschland".to_string(), "Europa".to_string()])
    );
    assert_eq!(graph.path("Nordsee", "Berlin"), Ok(Vec::new()));
    assert_eq!(graph.path("Europa", "Berlin"), Ok(Vec::new()));
    assert!(graph.path("Kategorie:Stadt", "Berlin").is_err());
    assert!(graph.contains("Europa"));
    assert!(!graph.contains("Spezial:Suche"));
}

#[test]
fn shallow_crawl_leaves_the_last_level_unfetched() {
    let web = small_web();
    let (vertices, edges) = crawl_all(&web, "Berlin", 2);
    assert_eq!(
        vertices,
        vec!["Berlin", "Spree", "Deutschland", "Europa", "Havel"]
            .into_iter()
            .map(String::from)
            .collect::<Vec<_>>()
    );
    let sources: Vec<&str> = edges.iter().map(|record| record.source.as_str()).collect();
    assert_eq!(sources, vec!["Berlin", "Deutschland", "Spree"]);

    let graph = load(&render_vertices(&vertices), &render_edges(&edges)).unwrap();
    assert_eq!(graph.get_children("Havel"), Ok(vec![]));
    assert_eq!(graph.get_children("Spree"), Ok(vec![4, 0]));
    assert_eq!(graph.get_parents("Berlin"), Ok(vec![1, 2]));
    assert_eq!(
        graph.path("Berlin", "Havel"),
        Ok(vec!["Berlin".to_string(), "Spree".to_string(), "Havel".to_string()])
    );
}
