use prec::constructors::{augment, emit_method_refs, has_char, new_site_edit};
use prec::issues::Issue;
use prec::symbols::ClassEntry;
use prec::text::chars_of;
use prec::Parser;

fn entry(name: &str, methods: &[&str]) -> ClassEntry {
    let mut list = Vec::new();
    for m in methods {
        list.push(m.to_string());
    }
    ClassEntry { name: name.to_string(), methods: list }
}

fn constructed(src: &str, table: Vec<ClassEntry>) -> String {
    let mut parser = Parser::new(src.to_string());
    parser.classes = table;
    let before = parser.classes.len();
    parser.parse_constructor();
    assert_eq!(parser.classes.len(), before);
    parser.src
}

#[test]
fn construction_lists_the_methods_in_their_order() {
    let out = constructed("new C(1, 2, )", vec![entry("C", &["m1", "m2"])]);
    assert_eq!(out, "(C){1, 2, C_m1, C_m2,}");
    let swapped = constructed("new C(1, 2, )", vec![entry("C", &["m2", "m1"])]);
    assert_eq!(swapped, "(C){1, 2, C_m2, C_m1,}");
    let single = constructed("new C(1)", vec![entry("C", &["m1", "m2"])]);
    assert_eq!(single, "(C){1, C_m1, C_m2,}");
    let plain = constructed("new C(1, 2)", vec![entry("C", &["m1", "m2"])]);
    assert_eq!(plain, "(C){1, 2, C_m1, C_m2,}");
}

#[test]
fn construction_without_arguments_lists_the_methods_alone() {
    assert_eq!(constructed("new C()", vec![entry("C", &["m1", "m2"])]), "(C){C_m1, C_m2,}");
    assert_eq!(constructed("new C( )", vec![entry("C", &["m1", "m2"])]), "(C){ C_m1, C_m2,}");
}

#[test]
fn construction_with_a_braced_list_puts_the_methods_inside() {
    let out = constructed("new C({1, 2, })", vec![entry("C", &["m1", "m2"])]);
    assert_eq!(out, "(C){{1, 2, C_m1, C_m2,}}");
    let single = constructed("new C({1})", vec![entry("C", &["m1", "m2"])]);
    assert_eq!(single, "(C){{1, C_m1, C_m2,}}");
    let plain = constructed("new C({1, 2})", vec![entry("C", &["m1", "m2"])]);
    assert_eq!(plain, "(C){{1, 2, C_m1, C_m2,}}");
    let empty = constructed("new C({})", vec![entry("C", &["m1", "m2"])]);
    assert_eq!(empty, "(C){{C_m1, C_m2,}}");
}

#[test]
fn separator_stands_behind_an_argument_that_no_comma_follows() {
    assert_eq!(constructed("new C(1)", vec![entry("C", &["m"])]), "(C){1, C_m,}");
    assert_eq!(constructed("new C(1, )", vec![entry("C", &["m"])]), "(C){1, C_m,}");
    assert_eq!(constructed("new C(1,)", vec![entry("C", &["m"])]), "(C){1,C_m,}");
    assert_eq!(constructed("new C(1, 2)", vec![entry("C", &["m"])]), "(C){1, 2, C_m,}");
    assert_eq!(constructed("new C(1, 2 )", vec![entry("C", &["m"])]), "(C){1, 2 , C_m,}");
    assert_eq!(constructed("new C(a, b, c)", vec![entry("C", &["m"])]), "(C){a, b, c, C_m,}");
}

#[test]
fn construction_of_an_unknown_class_passes_the_arguments_on() {
    assert_eq!(constructed("new D(1, 2)", vec![entry("C", &["m1"])]), "(D){1, 2}");
    assert_eq!(constructed("new D(1, 2)", Vec::new()), "(D){1, 2}");
}

#[test]
fn construction_goes_by_the_first_entry_of_the_name() {
    let table = vec![entry("C", &["a"]), entry("C", &["b"])];
    assert_eq!(constructed("new C(1)", table), "(C){1, C_a,}");
}

#[test]
fn construction_of_a_class_without_methods_adds_none() {
    assert_eq!(constructed("new C(1, 2)", vec![entry("C", &[])]), "(C){1, 2}");
    assert_eq!(constructed("new C(7)", vec![entry("C", &[])]), "(C){7}");
    assert_eq!(constructed("new C()", vec![entry("C", &[])]), "(C){}");
}

#[test]
fn constructions_are_rewritten_all_over_the_text() {
    let src = "a = new C(1); b = new D(); c = new C(2, 3, );";
    let out = constructed(src, vec![entry("C", &["m"])]);
    assert_eq!(out, "a = (C){1, C_m,}; b = (D){}; c = (C){2, 3, C_m,};");
}

#[test]
fn second_run_changes_nothing() {
    let table = vec![entry("C", &["m1", "m2"])];
    let once = constructed("p = new C(1);\nq = new C();\n", table);
    assert!(!once.contains("new"));
    let twice = constructed(&once, vec![entry("C", &["m1", "m2"])]);
    assert_eq!(twice, once);
}

#[test]
fn text_without_new_stays() {
    let src = "int main() { return 0; }";
    assert_eq!(constructed(src, vec![entry("C", &["m"])]), src);
    assert_eq!(constructed("", Vec::new()), "");
}

#[test]
fn construction_without_closing_bracket_runs_to_the_end() {
    assert_eq!(constructed("new C(1", vec![entry("C", &["m"])]), "(C){1, C_m,}");
    assert_eq!(constructed("new", Vec::new()), "(){}");
}

#[test]
fn method_refs_are_joined_by_spaces() {
    assert_eq!(emit_method_refs(&entry("P", &["a", "b", "c"])), "P_a, P_b, P_c,");
    assert_eq!(emit_method_refs(&entry("P", &["a"])), "P_a,");
    assert_eq!(emit_method_refs(&entry("P", &[])), "");
}

#[test]
fn augment_splices_at_the_end_or_before_the_closing_brace() {
    let e = entry("P", &["a", "b"]);
    assert_eq!(augment("", &e), "P_a, P_b,");
    assert_eq!(augment("x", &e), "x, P_a, P_b,");
    assert_eq!(augment("1, 2", &e), "1, 2, P_a, P_b,");
    assert_eq!(augment("{1, 2}", &e), "{1, 2, P_a, P_b,}");
    assert_eq!(augment("{}", &e), "{P_a, P_b,}");
    assert_eq!(augment("f(", &e), "f(P_a, P_b,");
    assert_eq!(augment("1, 2", &entry("P", &[])), "1, 2");
    assert_eq!(augment("", &entry("P", &[])), "");
    assert_eq!(augment("1, 2, ", &e), "1, 2, P_a, P_b,");
    assert_eq!(augment("{1}", &e), "{1, P_a, P_b,}");
    assert_eq!(augment("{1, 2, }", &e), "{1, 2, P_a, P_b,}");
    assert_eq!(augment("{1}, ", &e), "{1}, P_a, P_b,");
    assert_eq!(augment("1}", &e), "1}, P_a, P_b,");
}

#[test]
fn has_char_finds_a_character() {
    assert!(has_char(&chars_of("a,b"), ','));
    assert!(!has_char(&chars_of("ab"), ','));
    assert!(!has_char(&Vec::new(), ','));
}

#[test]
fn new_site_edit_reaches_from_keyword_to_bracket() {
    let buf = chars_of("p = new Point(1, 2);");
    let (edit, found) = new_site_edit(&buf, &vec![entry("Point", &["move"])], 4);
    assert_eq!(edit.start, 4);
    assert_eq!(edit.end, 19);
    assert_eq!(edit.text, "(Point){1, 2, Point_move,}");
    assert!(found.is_empty());
}

fn issues(src: &str, table: Vec<ClassEntry>) -> Vec<Issue> {
    let mut parser = Parser::new(src.to_string());
    parser.classes = table;
    parser.parse_constructor();
    parser.issues
}

#[test]
fn construction_of_a_known_class_raises_no_issue() {
    assert_eq!(issues("p = new C(1, 2);", vec![entry("C", &["m"])]), Vec::<Issue>::new());
    assert_eq!(issues("no construction", Vec::new()), Vec::<Issue>::new());
}

#[test]
fn construction_of_an_unknown_class_is_noted() {
    assert_eq!(
        issues("p = new D(1, 2);", vec![entry("C", &["m"])]),
        vec![Issue::UnknownClass { at: 4, name: "D".to_string() }]
    );
}

#[test]
fn construction_without_a_bracket_is_noted() {
    assert_eq!(
        issues("new C(1, 2", vec![entry("C", &["m"])]),
        vec![Issue::UnterminatedBlock { at: 0 }]
    );
    assert_eq!(
        issues("renew", Vec::new()),
        vec![
            Issue::UnterminatedBlock { at: 2 },
            Issue::UnknownClass { at: 2, name: String::new() }
        ]
    );
}

#[test]
fn issues_of_constructions_come_in_the_order_of_the_text() {
    assert_eq!(
        issues("new A(); new C(); new B(", vec![entry("C", &[])]),
        vec![
            Issue::UnknownClass { at: 0, name: "A".to_string() },
            Issue::UnterminatedBlock { at: 18 },
            Issue::UnknownClass { at: 18, name: "B".to_string() }
        ]
    );
}

#[test]
fn each_reference_is_an_argument_of_its_own_and_stands_once() {
    for args in ["1, 2", "1", "a, b, c", "x + y, z"] {
        let src = format!("p = new C({});", args);
        let out = constructed(&src, vec![entry("C", &["m1", "m2"])]);
        assert_eq!(out, format!("p = (C){{{}, C_m1, C_m2,}};", args));
        assert_eq!(out.matches("C_m1").count(), 1);
        assert_eq!(out.matches("C_m2").count(), 1);
    }
}
