use browsr::parsing::{format_strings, group_lines, split_strings};
use browsr::tree::Node;

fn lines_of(v: &[&str]) -> Vec<String> {
    v.iter().map(|s| s.to_string()).collect()
}

#[test]
fn format_adds_line_breaks() {
    let out = format_strings("Foo {a, b}".to_string());
    assert_eq!(out, "Foo {\na\n b\n}");
}

#[test]
fn format_brackets() {
    let out = format_strings("[1,2]".to_string());
    assert_eq!(out, "[\n1\n2\n]");
}

#[test]
fn format_strips_quotes() {
    let out = format_strings("\"x\" 'y'".to_string());
    assert_eq!(out, " x   y ");
}

#[test]
fn format_strips_wrappers() {
    assert_eq!(format_strings("Str(abc)".to_string()), " abc)");
    assert_eq!(format_strings("Some(5)".to_string()), " 5)");
    assert_eq!(format_strings("Str(".to_string()), " ");
    assert_eq!(format_strings("Some(".to_string()), " ");
}

#[test]
fn format_wrapper_prefixes_stay() {
    // Shorter than the markers: the characters are kept as they are.
    assert_eq!(format_strings("Str".to_string()), "Str");
    assert_eq!(format_strings("Some".to_string()), "Some");
}

#[test]
fn format_empty() {
    assert_eq!(format_strings(String::new()), "");
}

fn count(s: &str, c: char) -> usize {
    s.chars().filter(|&x| x == c).count()
}

#[test]
fn format_keeps_delimiters_balanced() {
    // The formatter introduces no unmatched delimiter: every one of the four
    // delimiters occurs exactly as often as in the source.
    let raw = "Outer {a, Inner [1, 2], \"t\"}";
    let out = format_strings(raw.to_string());
    for c in ['{', '}', '[', ']'] {
        assert_eq!(count(&out, c), count(raw, c));
    }
}

#[test]
fn split_trims_lines() {
    let out = split_strings("a\n b \nc".to_string());
    assert_eq!(out, vec!["a", "b", "c"]);
}

#[test]
fn split_empty_input() {
    assert_eq!(split_strings(String::new()), vec![""]);
}

#[test]
fn split_keeps_empty_lines() {
    assert_eq!(split_strings("a\n\nb".to_string()), vec!["a", "", "b"]);
}

#[test]
fn group_builds_two_leaves() {
    // The line holding the opening delimiter becomes the label of the nested
    // group; its leaves follow until the closing line.
    let lines = lines_of(&["root", "{", "a", "b", "}"]);
    let mut pos: usize = 0;
    let tree = group_lines(None, &lines, &mut pos);
    assert_eq!(pos, 5);
    assert_eq!(tree.label, "root");
    assert_eq!(tree.children.len(), 1);
    let group = &tree.children[0];
    assert_eq!(group.label, "{");
    assert!(!group.leaf);
    assert_eq!(group.children.len(), 2);
    assert_eq!(group.children[0].label, "a");
    assert!(group.children[0].leaf);
    assert_eq!(group.children[1].label, "b");
    assert!(group.children[1].leaf);
}

#[test]
fn group_unbalanced_degrades_gracefully() {
    // A missing closing line ends the group at the end of the input; nothing
    // fails.
    let lines = lines_of(&["root", "{", "a"]);
    let mut pos: usize = 0;
    let tree = group_lines(None, &lines, &mut pos);
    assert_eq!(pos, 3);
    assert_eq!(tree.label, "root");
    assert_eq!(tree.children.len(), 1);
    let group = &tree.children[0];
    assert_eq!(group.label, "{");
    assert_eq!(group.children.len(), 1);
    assert_eq!(group.children[0].label, "a");
}

#[test]
fn group_label_line_style() {
    let lines = lines_of(&["Foo {", "x", "}"]);
    let mut pos: usize = 0;
    let tree = group_lines(None, &lines, &mut pos);
    assert_eq!(tree.label, "Foo {");
    assert_eq!(tree.children.len(), 1);
    assert_eq!(tree.children[0].label, "x");
}

#[test]
fn group_with_explicit_start() {
    let lines = lines_of(&["a", "b"]);
    let mut pos: usize = 0;
    let tree = group_lines(Some(&"top".to_string()), &lines, &mut pos);
    assert_eq!(tree.label, "top");
    assert_eq!(tree.children.len(), 2);
    assert_eq!(tree.children[0].label, "a");
    assert_eq!(tree.children[1].label, "b");
}

fn serialize(n: &Node, out: &mut Vec<String>) {
    out.push(n.label.clone());
    for c in &n.children {
        serialize(c, out);
    }
}

#[test]
fn group_round_trip_labels() {
    // Pre-order serialization reproduces the label lines: every line except
    // the pure closing ones, in document order.
    let lines = lines_of(&["Outer {", "a", "Inner [", "x", "y", "]", "b", "}"]);
    let mut pos: usize = 0;
    let tree = group_lines(None, &lines, &mut pos);
    assert_eq!(pos, lines.len());
    let mut labels = Vec::new();
    serialize(&tree, &mut labels);
    assert_eq!(labels, vec!["Outer {", "a", "Inner [", "x", "y", "b"]);
}

#[test]
fn group_nested_structure() {
    let lines = lines_of(&["Outer {", "a", "Inner {", "b", "}", "c", "}"]);
    let mut pos: usize = 0;
    let tree = group_lines(None, &lines, &mut pos);
    assert_eq!(tree.label, "Outer {");
    assert_eq!(tree.children.len(), 3);
    assert_eq!(tree.children[0].label, "a");
    assert_eq!(tree.children[1].label, "Inner {");
    assert_eq!(tree.children[1].children.len(), 1);
    assert_eq!(tree.children[1].children[0].label, "b");
    assert_eq!(tree.children[2].label, "c");
}
