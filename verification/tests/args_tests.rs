use wiki_graph::args::{Args, Mode};

#[test]
fn defaults() {
    let args = Args::default();
    assert_eq!(args.scan_url, None);
    assert_eq!(args.shortest_path, None);
    assert_eq!(args.threads, 250);
    assert_eq!(args.max_depth, 1024);
    assert_eq!(args.mode(), Mode::Idle);
}

#[test]
fn scan_selects_a_crawl() {
    let args = Args { scan_url: Some("Berlin".to_string()), max_depth: 3, threads: 8, ..Args::default() };
    assert_eq!(
        args.mode(),
        Mode::Crawl { seed: "Berlin".to_string(), max_depth: 3, threads: 8 }
    );
}

#[test]
fn graph_name_selects_queries() {
    let args = Args { shortest_path: Some("Berlin".to_string()), ..Args::default() };
    assert_eq!(args.mode(), Mode::Query { name: "Berlin".to_string() });
}

#[test]
fn scan_comes_before_queries() {
    let args = Args {
        scan_url: Some("A".to_string()),
        shortest_path: Some("B".to_string()),
        ..Args::default()
    };
    assert_eq!(args.mode(), Mode::Crawl { seed: "A".to_string(), max_depth: 1024, threads: 250 });
}
