use wiki_graph::extract::{denied, extract};
use wiki_graph::text::to_chars;

fn anchor(target: &str) -> String {
    format!("<a href=\"/wiki/{}\" title=\"x\">x</a>", target)
}

#[test]
fn category_anchor_is_excluded() {
    let page = format!("<p>See {} here.</p>", anchor("Kategorie:Test"));
    assert_eq!(extract(&page), Vec::<String>::new());
}

#[test]
fn ordinary_anchor_is_included() {
    let page = format!("<p>See {} here.</p>", anchor("Ort:Berlin"));
    assert_eq!(extract(&page), vec!["Ort:Berlin".to_string()]);
}

#[test]
fn denied_and_allowed_anchors_side_by_side() {
    let page = format!(
        "<p>{} and {} and {}</p>",
        anchor("Kategorie:Test"),
        anchor("Ort:Berlin"),
        anchor("Hilfe:Suche")
    );
    assert_eq!(extract(&page), vec!["Ort:Berlin".to_string()]);
}

#[test]
fn every_denied_prefix_is_rejected() {
    for prefix in [
        "Datei",
        "Kategorie",
        "Hilfe",
        "Benutzer",
        "Spezial",
        "Wikipedia",
        "Diskussion",
    ] {
        let target = format!("{}:Etwas", prefix);
        let page = format!("<p>{}</p>", anchor(&target));
        assert_eq!(extract(&page), Vec::<String>::new(), "{}", prefix);
        assert!(denied(&to_chars(&target)));
        assert!(denied(&to_chars(prefix)));
    }
}

#[test]
fn prefix_must_stand_at_the_start() {
    assert!(!denied(&to_chars("Ort:Kategorie")));
    assert!(!denied(&to_chars("kategorie:klein")));
    assert!(!denied(&to_chars("Date")));
    assert!(!denied(&to_chars("")));
    let page = format!("<p>{}</p>", anchor("Ort:Kategorie"));
    assert_eq!(extract(&page), vec!["Ort:Kategorie".to_string()]);
}

#[test]
fn links_come_in_text_order_with_repeats() {
    let page = format!(
        "<p>{}{}</p><div>skip</div><p>{}{}</p>",
        anchor("B"),
        anchor("A"),
        anchor("C"),
        anchor("B")
    );
    assert_eq!(
        extract(&page),
        vec!["B".to_string(), "A".to_string(), "C".to_string(), "B".to_string()]
    );
}

#[test]
fn text_outside_paragraphs_is_ignored() {
    let page = format!(
        "{}<p>{}</p>{}<p>none</p>{}",
        anchor("Before"),
        anchor("Inside"),
        anchor("Between"),
        anchor("After")
    );
    assert_eq!(extract(&page), vec!["Inside".to_string()]);
}

#[test]
fn page_without_paragraphs_has_no_links() {
    let page = anchor("Ort:Berlin");
    assert_eq!(extract(&page), Vec::<String>::new());
}

#[test]
fn empty_page_has_no_links() {
    assert_eq!(extract(""), Vec::<String>::new());
    assert_eq!(extract("<p></p>"), Vec::<String>::new());
    assert_eq!(extract("<p>plain text, no anchors</p>"), Vec::<String>::new());
}

#[test]
fn unclosed_paragraph_runs_to_the_next_or_the_end() {
    let page = format!("<p>{}<p>{}", anchor("One"), anchor("Two"));
    assert_eq!(extract(&page), vec!["One".to_string(), "Two".to_string()]);
}

#[test]
fn anchor_without_quote_runs_to_the_end_of_the_paragraph() {
    let page = "<p><a href=\"/wiki/Trunc</p><a href=\"/wiki/Lost\">";
    assert_eq!(extract(page), vec!["Trunc".to_string()]);
}

#[test]
fn anchor_with_empty_target_yields_the_empty_name() {
    let page = "<p><a href=\"/wiki/\">home</a></p>";
    assert_eq!(extract(page), vec![String::new()]);
}

#[test]
fn other_anchors_are_not_links() {
    let page = "<p><a href=\"https://example.org/wiki/X\">x</a> <a href=\"/w/index.php\">y</a></p>";
    assert_eq!(extract(page), Vec::<String>::new());
}

#[test]
fn names_keep_their_characters() {
    let page = format!("<p>{}</p>", anchor("Köln_(Stadt)#Geschichte"));
    assert_eq!(extract(&page), vec!["Köln_(Stadt)#Geschichte".to_string()]);
}
