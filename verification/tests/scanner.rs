use prec::scanner::{
    advance, blank, collect_back_until, collect_until, find_stop, find_stop_back, strip, trim, Stop,
};
use prec::text::chars_of;

#[test]
fn blank_is_unicode_white_space() {
    for c in [' ', '\t', '\n', '\r', '\u{b}', '\u{c}', '\u{85}', '\u{a0}', '\u{1680}', '\u{2000}',
        '\u{200a}', '\u{2028}', '\u{2029}', '\u{202f}', '\u{205f}', '\u{3000}']
    {
        assert!(blank(c));
        assert!(c.is_whitespace());
    }
    for c in ['a', '0', '+', '{', '\u{8}', '\u{e}', '\u{200b}', '\u{feff}', '\u{1f}'] {
        assert!(!blank(c));
        assert!(!c.is_whitespace());
    }
}

#[test]
fn blank_agrees_with_std_on_the_basic_plane() {
    let mut n: u32 = 0;
    while n < 0x10000 {
        if let Some(c) = char::from_u32(n) {
            assert_eq!(blank(c), c.is_whitespace());
        }
        n += 1;
    }
}

#[test]
fn stop_tests_one_character() {
    assert!(Stop::At(')').test(')'));
    assert!(!Stop::At(')').test('('));
    assert!(Stop::AtEither(' ', '{').test('{'));
    assert!(Stop::AtEither(' ', '{').test(' '));
    assert!(!Stop::AtEither(' ', '{').test('}'));
    assert!(Stop::AtAny(' ', '\n', ',').test(','));
    assert!(Stop::AtAny(' ', '\n', ',').test('\n'));
    assert!(!Stop::AtAny(' ', '\n', ',').test('\t'));
    assert!(Stop::Past('+').test('A'));
    assert!(!Stop::Past('+').test('+'));
    assert!(Stop::PastBlank.test('x'));
    assert!(!Stop::PastBlank.test(' '));
}

#[test]
fn advance_stays_in_the_text() {
    assert_eq!(advance(10, 4, 3), 7);
    assert_eq!(advance(10, 4, 6), 10);
    assert_eq!(advance(10, 8, 5), 10);
    assert_eq!(advance(10, 10, 1), 10);
    assert_eq!(advance(10, 0, usize::MAX), 10);
    assert_eq!(advance(0, 0, 0), 0);
}

#[test]
fn find_stop_is_the_first_to_the_right() {
    let buf = chars_of("ab(cd(e");
    assert_eq!(find_stop(&buf, 0, Stop::At('(')), 2);
    assert_eq!(find_stop(&buf, 2, Stop::At('(')), 2);
    assert_eq!(find_stop(&buf, 3, Stop::At('(')), 5);
    assert_eq!(find_stop(&buf, 6, Stop::At('(')), 7);
    assert_eq!(find_stop(&buf, 7, Stop::At('(')), 7);
}

#[test]
fn find_stop_back_is_the_nearest_to_the_left() {
    let buf = chars_of("a, b c");
    assert_eq!(find_stop_back(&buf, 6, Stop::AtAny(' ', '\n', ',')), 5);
    assert_eq!(find_stop_back(&buf, 4, Stop::AtAny(' ', '\n', ',')), 3);
    assert_eq!(find_stop_back(&buf, 3, Stop::AtAny(' ', '\n', ',')), 3);
    assert_eq!(find_stop_back(&buf, 1, Stop::AtAny(' ', '\n', ',')), 0);
    assert_eq!(find_stop_back(&buf, 0, Stop::AtAny(' ', '\n', ',')), 0);
}

#[test]
fn collect_until_leaves_the_stop_out_and_skips() {
    let buf = chars_of("foo(bar) {baz}");
    assert_eq!(collect_until(&buf, 0, 1, Stop::At('(')), ("foo".to_string(), 4, true));
    assert_eq!(collect_until(&buf, 4, 3, Stop::At(')')), ("bar".to_string(), 10, true));
    assert_eq!(collect_until(&buf, 10, 1, Stop::At('}')), ("baz".to_string(), 14, true));
    assert_eq!(collect_until(&buf, 4, 0, Stop::At(')')), ("bar".to_string(), 7, true));
}

#[test]
fn collect_until_at_a_stop_yields_nothing() {
    let buf = chars_of("{x}");
    assert_eq!(collect_until(&buf, 0, 1, Stop::At('{')), (String::new(), 1, true));
}

#[test]
fn collect_until_without_a_stop_runs_to_the_end() {
    let buf = chars_of("abc");
    assert_eq!(collect_until(&buf, 1, 1, Stop::At('x')), ("bc".to_string(), 3, false));
    assert_eq!(collect_until(&buf, 1, 7, Stop::At('c')), ("b".to_string(), 3, true));
}

#[test]
fn collect_until_past_the_end_yields_nothing() {
    let buf = chars_of("abc");
    assert_eq!(collect_until(&buf, 3, 2, Stop::At('x')), (String::new(), 3, false));
    assert_eq!(collect_until(&buf, 10, 2, Stop::At('x')), (String::new(), 3, false));
    assert_eq!(collect_until(&Vec::new(), 0, 1, Stop::At('x')), (String::new(), 0, false));
}

#[test]
fn collect_until_counts_no_depth() {
    let buf = chars_of("f(g(1), 2)");
    assert_eq!(collect_until(&buf, 2, 1, Stop::At(')')), ("g(1".to_string(), 6, true));
    let block = chars_of("{ if (a) { b; } c; }");
    assert_eq!(
        collect_until(&block, 1, 1, Stop::At('}')),
        (" if (a) { b; ".to_string(), 15, true)
    );
}

#[test]
fn collect_back_until_reads_to_the_left() {
    let buf = chars_of("a, b->m");
    assert_eq!(collect_back_until(&buf, 4, Stop::AtAny(' ', '\n', ',')), ("b".to_string(), 3));
    assert_eq!(collect_back_until(&buf, 1, Stop::AtAny(' ', '\n', ',')), ("a".to_string(), 0));
    assert_eq!(collect_back_until(&buf, 3, Stop::AtAny(' ', '\n', ',')), (String::new(), 3));
    assert_eq!(collect_back_until(&buf, 99, Stop::At(',')), (" b->m".to_string(), 2));
}

#[test]
fn trim_takes_white_space_from_both_ends() {
    assert_eq!(trim("  a b \n"), "a b");
    assert_eq!(trim("a"), "a");
    assert_eq!(trim("   "), "");
    assert_eq!(trim(""), "");
    assert_eq!(trim("\u{a0}x\u{3000}"), "x");
    assert_eq!(trim(" \t void "), " \t void ".trim());
}

#[test]
fn strip_takes_the_mark_from_both_ends() {
    assert_eq!(strip("++A+", Stop::Past('+')), "A");
    assert_eq!(strip("+A+B+", Stop::Past('+')), "A+B");
    assert_eq!(strip("+++", Stop::Past('+')), "");
    assert_eq!(strip(" +A", Stop::Past('+')), " +A");
    assert_eq!(strip("+A ", Stop::Past('+')), "+A ".trim_matches('+'));
}
