use prec::text::{chars_of, is_at, joined, occurrences, push_range, push_str, replace, string_of, text_of};

#[test]
fn chars_and_string_round_trip() {
    let v = chars_of("h\u{e9}llo \u{2192} x");
    assert_eq!(v.len(), 9);
    assert_eq!(v[1], '\u{e9}');
    assert_eq!(string_of(&v), "h\u{e9}llo \u{2192} x");
}

#[test]
fn chars_of_empty_is_empty() {
    assert_eq!(chars_of(""), Vec::<char>::new());
    assert_eq!(string_of(&Vec::new()), "");
}

#[test]
fn push_str_appends_in_order() {
    let mut v = vec!['a'];
    push_str(&mut v, "bc");
    push_str(&mut v, "");
    assert_eq!(v, vec!['a', 'b', 'c']);
}

#[test]
fn push_range_copies_the_range() {
    let src = chars_of("abcdef");
    let mut v = vec!['x'];
    push_range(&mut v, &src, 2, 5);
    push_range(&mut v, &src, 3, 3);
    assert_eq!(v, vec!['x', 'c', 'd', 'e']);
}

#[test]
fn text_of_takes_characters_not_bytes() {
    let src = chars_of("\u{e9}\u{e9}ab");
    assert_eq!(text_of(&src, 1, 3), "\u{e9}a");
    assert_eq!(text_of(&src, 4, 4), "");
}

#[test]
fn joined_puts_one_after_the_other() {
    assert_eq!(joined("ab", "cd"), "abcd");
    assert_eq!(joined("", "cd"), "cd");
}

#[test]
fn is_at_tells_where_a_pattern_stands() {
    let buf = chars_of("a->b");
    let pat = chars_of("->");
    assert!(is_at(&buf, &pat, 1));
    assert!(!is_at(&buf, &pat, 0));
    assert!(!is_at(&buf, &pat, 3));
    assert!(!is_at(&buf, &pat, 40));
    assert!(is_at(&buf, &Vec::new(), 4));
    assert!(!is_at(&buf, &Vec::new(), 5));
}

#[test]
fn occurrences_do_not_overlap() {
    assert_eq!(occurrences(&chars_of("aaaa"), &chars_of("aa")), vec![0, 2]);
    assert_eq!(occurrences(&chars_of("aaaaa"), &chars_of("aa")), vec![0, 2]);
    assert_eq!(occurrences(&chars_of("abcabc"), &chars_of("bc")), vec![1, 4]);
}

#[test]
fn occurrences_of_nothing_or_too_much_are_none() {
    assert_eq!(occurrences(&chars_of("abc"), &chars_of("")), Vec::<usize>::new());
    assert_eq!(occurrences(&chars_of("abc"), &chars_of("abcd")), Vec::<usize>::new());
    assert_eq!(occurrences(&chars_of(""), &chars_of("a")), Vec::<usize>::new());
    assert_eq!(occurrences(&chars_of("abc"), &chars_of("abc")), vec![0]);
}

#[test]
fn occurrences_count_characters() {
    assert_eq!(occurrences(&chars_of("\u{e9}\u{e9}new"), &chars_of("new")), vec![2]);
}

#[test]
fn replace_changes_each_match() {
    assert_eq!(replace("a,b,,c", ",", ";"), "a;b;;c");
    assert_eq!(replace("superb super", "super", "self->super"), "self->superb self->super");
    assert_eq!(replace("aaa", "aa", "b"), "ba");
}

#[test]
fn replace_leaves_the_rest() {
    assert_eq!(replace("no match here", "super", "self->super"), "no match here");
    assert_eq!(replace("abc", "", "x"), "abc");
    assert_eq!(replace("", "a", "x"), "");
    assert_eq!(replace("supe super", "super", "S"), "supe S");
}
