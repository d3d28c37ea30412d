use prec::calls::call_site_edit;
use prec::issues::Issue;
use prec::text::chars_of;
use prec::Parser;

fn rewritten(src: &str, method: &str) -> String {
    let mut parser = Parser::new(src.to_string());
    parser.parse_call(method.to_string());
    assert!(parser.classes.is_empty());
    parser.src
}

fn issues(src: &str, method: &str) -> Vec<Issue> {
    let mut parser = Parser::new(src.to_string());
    parser.parse_call(method.to_string());
    parser.issues
}

#[test]
fn call_with_arguments_takes_the_receiver_first() {
    assert_eq!(rewritten("x->m(a, b)", "m"), "m(x, a, b)");
}

#[test]
fn call_without_arguments_has_no_separator() {
    assert_eq!(rewritten("x->m()", "m"), "m(x)");
}

#[test]
fn call_keeps_what_stands_round_it() {
    assert_eq!(rewritten("int r = obj->get(1);\n", "get"), "int r = get(obj, 1);\n");
}

#[test]
fn calls_are_rewritten_all_over_the_text() {
    let src = "int r = obj->get(1);\nfoo(a,b->get(2));\nc->get()\n";
    assert_eq!(rewritten(src, "get"), "int r = get(obj, 1);\nfoo(a,get(b, 2));\nget(c)\n");
}

#[test]
fn receiver_ends_at_space_line_break_or_comma() {
    assert_eq!(rewritten("a b->m(1)", "m"), "a m(b, 1)");
    assert_eq!(rewritten("a\nb->m(1)", "m"), "a\nm(b, 1)");
    assert_eq!(rewritten("a,b->m(1)", "m"), "a,m(b, 1)");
    assert_eq!(rewritten("a\tb->m(1)", "m"), "m(a\tb, 1)");
    assert_eq!(rewritten("(*p).q->m(1)", "m"), "m((*p).q, 1)");
}

#[test]
fn call_of_another_method_stays() {
    assert_eq!(rewritten("x->other(1)", "m"), "x->other(1)");
    assert_eq!(rewritten("", "m"), "");
}

#[test]
fn arguments_end_at_the_first_closing_bracket() {
    assert_eq!(rewritten("x->m(f(1), 2)", "m"), "m(x, f(1), 2)");
}

#[test]
fn call_without_closing_bracket_runs_to_the_end() {
    assert_eq!(rewritten("x->m(a", "m"), "m(x, a)");
    assert_eq!(rewritten("x->m", "m"), "m(x)");
}

#[test]
fn call_site_edit_covers_receiver_to_bracket() {
    let buf = chars_of("ab p->move(5); cd");
    let (edit, found) = call_site_edit(&buf, "move", 4);
    assert_eq!(edit.start, 3);
    assert_eq!(edit.end, 13);
    assert_eq!(edit.text, "move(p, 5)");
    assert!(found.is_empty());
}

#[test]
fn closed_calls_raise_no_issue() {
    assert_eq!(issues("x->m(a, b) y->m()", "m"), Vec::<Issue>::new());
    assert_eq!(issues("nothing here", "m"), Vec::<Issue>::new());
}

#[test]
fn call_without_closing_bracket_is_noted() {
    assert_eq!(issues("x->m(a", "m"), vec![Issue::UnterminatedBlock { at: 1 }]);
    assert_eq!(issues("a->m(1) b->m(2", "m"), vec![Issue::UnterminatedBlock { at: 9 }]);
}

#[test]
fn issues_of_calls_come_after_those_noted_before() {
    let mut parser = Parser::new("x->m(a".to_string());
    parser.issues.push(Issue::UnknownClass { at: 7, name: "Q".to_string() });
    parser.parse_call("m".to_string());
    assert_eq!(
        parser.issues,
        vec![
            Issue::UnknownClass { at: 7, name: "Q".to_string() },
            Issue::UnterminatedBlock { at: 1 }
        ]
    );
}

#[test]
fn calls_that_overlap_are_carried_out_from_the_last() {
    assert_eq!(rewritten("a->m(b->m())", "m"), "m(a, b->m()");
    assert_eq!(issues("a->m(b->m())", "m"), Vec::<Issue>::new());
}

#[test]
fn call_offsets_count_characters() {
    assert_eq!(rewritten("\u{e9}\u{e9} x->m(\u{e9})", "m"), "\u{e9}\u{e9} m(x, \u{e9})");
}
