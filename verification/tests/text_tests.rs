use wiki_graph::text::{
    after_slice, before_slice, find, join_strings, matches_at, split_slices, starts_with, to_chars,
    to_string, to_strings,
};

fn pieces(text: &str, pat: &str) -> Vec<String> {
    let chars = to_chars(text);
    let pat = to_chars(pat);
    let slices = split_slices(&chars, &pat);
    to_strings(&slices)
}

#[test]
fn chars_and_back() {
    let chars = to_chars("aä€b");
    assert_eq!(chars, vec!['a', 'ä', '€', 'b']);
    assert_eq!(to_string(&chars), "aä€b");
    assert_eq!(to_string(&chars[1..3]), "ä€");
    assert_eq!(to_chars(""), Vec::<char>::new());
    assert_eq!(to_string(&[]), "");
}

#[test]
fn find_gives_the_leftmost_occurrence() {
    let text = to_chars("abcabc");
    assert_eq!(find(&text, &to_chars("bc")), Some(1));
    assert_eq!(find(&text, &to_chars("abc")), Some(0));
    assert_eq!(find(&text, &to_chars("c")), Some(2));
    assert_eq!(find(&text, &to_chars("cb")), None);
    assert_eq!(find(&text, &to_chars("abcabcd")), None);
    assert_eq!(find(&to_chars(""), &to_chars("a")), None);
    assert_eq!(find(&text, &to_chars("")), Some(0));
}

#[test]
fn matches_at_checks_one_position() {
    let text = to_chars("abcabc");
    assert!(matches_at(&text, &to_chars("bc"), 1));
    assert!(matches_at(&text, &to_chars("bc"), 4));
    assert!(!matches_at(&text, &to_chars("bc"), 0));
    assert!(!matches_at(&text, &to_chars("bc"), 5));
    assert!(!matches_at(&text, &to_chars("bc"), 100));
    assert!(matches_at(&text, &to_chars(""), 6));
    assert!(!matches_at(&text, &to_chars(""), 7));
}

#[test]
fn starts_with_compares_the_front() {
    assert!(starts_with(&to_chars("Datei:x"), &to_chars("Datei")));
    assert!(starts_with(&to_chars("Datei"), &to_chars("Datei")));
    assert!(!starts_with(&to_chars("Date"), &to_chars("Datei")));
    assert!(!starts_with(&to_chars("xDatei"), &to_chars("Datei")));
    assert!(starts_with(&to_chars("x"), &to_chars("")));
}

#[test]
fn split_cuts_at_every_occurrence() {
    assert_eq!(pieces("a, b, c", ", "), vec!["a", "b", "c"]);
    assert_eq!(pieces("abc", ", "), vec!["abc"]);
    assert_eq!(pieces("", ", "), vec![""]);
    assert_eq!(pieces(", ", ", "), vec!["", ""]);
    assert_eq!(pieces("a, ", ", "), vec!["a", ""]);
    assert_eq!(pieces(", a", ", "), vec!["", "a"]);
    assert_eq!(pieces("a,, b", ", "), vec!["a,", "b"]);
    assert_eq!(pieces("aaa", "aa"), vec!["", "a"]);
    assert_eq!(pieces("x\n\ny", "\n"), vec!["x", "", "y"]);
}

#[test]
fn before_and_after_the_first_occurrence() {
    let text = to_chars("key: value: more");
    let sep = to_chars(": ");
    assert_eq!(to_string(before_slice(&text, &sep)), "key");
    assert_eq!(to_string(after_slice(&text, &sep)), "value: more");
    let plain = to_chars("no separator");
    assert_eq!(to_string(before_slice(&plain, &sep)), "no separator");
    assert_eq!(to_string(after_slice(&plain, &sep)), "");
    let ends = to_chars("key: ");
    assert_eq!(to_string(before_slice(&ends, &sep)), "key");
    assert_eq!(to_string(after_slice(&ends, &sep)), "");
}

#[test]
fn join_puts_the_separator_between_parts() {
    let parts = vec!["a".to_string(), "b".to_string(), "c".to_string()];
    assert_eq!(join_strings(&parts, ", "), "a, b, c");
    assert_eq!(join_strings(&vec!["a".to_string()], ", "), "a");
    assert_eq!(join_strings(&Vec::new(), ", "), "");
    assert_eq!(join_strings(&vec![String::new(), String::new()], ", "), ", ");
}

#[test]
fn split_undoes_join() {
    let parts = vec!["a:".to_string(), String::new(), "b c".to_string(), ",".to_string()];
    let text = join_strings(&parts, ", ");
    assert_eq!(text, "a:, , b c, ,");
    assert_eq!(pieces(&text, ", "), parts);
}
