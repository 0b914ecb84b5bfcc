//! The swap lines of the run report.

use vyges_vt_swap::report::{change_report, changes_json_text};

fn swap(i: &str, o: &str, n: &str) -> (String, String, String) {
    (i.to_string(), o.to_string(), n.to_string())
}

#[test]
fn report_lines() {
    let ch = vec![swap("u1", "INV", "INV_HVT"), swap("u2", "INV", "INV_HVT")];
    assert_eq!(change_report(&ch), "    u1: INV -> INV_HVT\n    u2: INV -> INV_HVT\n");
    assert_eq!(change_report(&vec![]), "");
}

#[test]
fn report_json_objects() {
    let ch = vec![swap("u1", "INV", "INV_HVT"), swap("u2", "INV_HVT", "INV")];
    assert_eq!(
        changes_json_text(&ch),
        "{\"inst\":\"u1\",\"old\":\"INV\",\"new\":\"INV_HVT\"},{\"inst\":\"u2\",\"old\":\"INV_HVT\",\"new\":\"INV\"}"
    );
    assert_eq!(changes_json_text(&vec![]), "");
    assert_eq!(
        changes_json_text(&vec![swap("a", "B", "C")]),
        "{\"inst\":\"a\",\"old\":\"B\",\"new\":\"C\"}"
    );
}

#[test]
fn report_json_escapes_names() {
    let ch = vec![swap("a\"b", "\\INV", "X\n\t\u{1}")];
    assert_eq!(
        changes_json_text(&ch),
        "{\"inst\":\"a\\\"b\",\"old\":\"\\\\INV\",\"new\":\"X\\u000a\\u0009\\u0001\"}"
    );
    // non-ASCII names stay as they are
    assert_eq!(
        changes_json_text(&vec![swap("µ1", "INV", "INV")]),
        "{\"inst\":\"µ1\",\"old\":\"INV\",\"new\":\"INV\"}"
    );
}

#[test]
fn json_escape_of_plain_and_special_text() {
    let mut s = String::from("x");
    vyges_vt_swap::report::push_json_escaped(&mut s, "\u{1f}\u{20}\"\\/");
    assert_eq!(s, "x\\u001f \\\"\\\\/");
}
