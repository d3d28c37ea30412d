use prec::edits::{splice, PendingEdit};
use prec::text::chars_of;
use prec::Parser;

fn edit(start: usize, end: usize, text: &str) -> PendingEdit {
    PendingEdit { start, end, text: text.to_string() }
}

#[test]
fn splice_replaces_the_range() {
    let buf = chars_of("hello");
    assert_eq!(splice(&buf, &edit(1, 3, "EY")), chars_of("hEYlo"));
    assert_eq!(splice(&buf, &edit(0, 5, "")), chars_of(""));
    assert_eq!(splice(&buf, &edit(2, 2, "--")), chars_of("he--llo"));
}

#[test]
fn splice_is_cut_off_at_the_end() {
    let buf = chars_of("hello");
    assert_eq!(splice(&buf, &edit(3, 99, "X")), chars_of("helX"));
    assert_eq!(splice(&buf, &edit(9, 12, "!")), chars_of("hello!"));
}

#[test]
fn splice_that_ends_before_it_starts_removes_nothing() {
    let buf = chars_of("hello");
    assert_eq!(splice(&buf, &edit(4, 2, "-")), chars_of("hell-o"));
}

#[test]
fn insert_carries_out_edits_from_the_last() {
    let mut parser = Parser::new("abcdef".to_string());
    parser.insert(vec![edit(0, 1, "XX"), edit(3, 5, "Y")]);
    assert_eq!(parser.src, "XXbcYf");
}

#[test]
fn insert_of_edits_apart_keeps_what_lies_between() {
    let mut parser = Parser::new("0123456789".to_string());
    parser.insert(vec![edit(1, 2, "one"), edit(4, 6, ""), edit(9, 10, "nine!")]);
    assert_eq!(parser.src, "0one2367" .to_string() + "8nine!");
}

#[test]
fn insert_of_nothing_changes_nothing() {
    let mut parser = Parser::new("abc".to_string());
    parser.insert(Vec::new());
    assert_eq!(parser.src, "abc");
    assert!(parser.classes.is_empty());
    assert!(parser.issues.is_empty());
}

#[test]
fn insert_counts_characters() {
    let mut parser = Parser::new("\u{e9}\u{e9}x\u{e9}".to_string());
    parser.insert(vec![edit(2, 3, "y")]);
    assert_eq!(parser.src, "\u{e9}\u{e9}y\u{e9}");
}
