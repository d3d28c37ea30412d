use prec::issues::Issue;
use prec::methods::method_site_edit;
use prec::text::chars_of;
use prec::Parser;

fn method_names(parser: &Parser, k: usize) -> Vec<&str> {
    let mut out = Vec::new();
    for m in parser.classes[k].methods.iter() {
        out.push(m.as_str());
    }
    out
}

#[test]
fn method_becomes_a_function_with_a_receiver() {
    let mut parser = Parser::new("void Point::move(int dx) { x = x + dx; }".to_string());
    parser.parse_method("Point".to_string());
    assert_eq!(parser.src, "void Point_move(Point *self; int dx) { x = x + dx; }");
    assert_eq!(parser.classes.len(), 1);
    assert_eq!(parser.classes[0].name, "Point");
    assert_eq!(method_names(&parser, 0), vec!["move"]);
}

#[test]
fn parameters_follow_the_receiver_with_the_separator_of_the_output() {
    let mut parser = Parser::new("int C::add(int p1, int p2) { return p1 + p2; }".to_string());
    parser.parse_method("C".to_string());
    assert_eq!(parser.src, "int C_add(C *self; int p1; int p2) { return p1 + p2; }");
}

#[test]
fn super_in_the_body_is_read_through_the_receiver() {
    let src = "int B::get(int a) { return super.x + a + supper; }";
    let mut parser = Parser::new(src.to_string());
    parser.parse_method("B".to_string());
    assert_eq!(parser.src, "int B_get(B *self; int a) { return self->super.x + a + supper; }");
}

#[test]
fn super_outside_the_body_stays() {
    let src = "// super\nint B::get(int super) { super; }\nsuper";
    let mut parser = Parser::new(src.to_string());
    parser.parse_method("B".to_string());
    assert_eq!(parser.src, "// super\nint B_get(B *self; int super) { self->super; }\nsuper");
}

#[test]
fn return_type_is_what_stands_before_on_the_line() {
    let src = "int x;\n  unsigned long  C::size() { return 1; }\nint y;";
    let mut parser = Parser::new(src.to_string());
    parser.parse_method("C".to_string());
    assert_eq!(parser.src, "int x;\nunsigned long C_size(C *self; ) { return 1; }\nint y;");
}

#[test]
fn methods_are_noted_in_the_order_met_and_once() {
    let src = "void C::b() { 1; }\nvoid C::a() { 2; }\nvoid C::b() { 3; }\n";
    let mut parser = Parser::new(src.to_string());
    parser.parse_method("C".to_string());
    assert_eq!(parser.classes.len(), 1);
    assert_eq!(method_names(&parser, 0), vec!["b", "a"]);
    assert_eq!(
        parser.src,
        "void C_b(C *self; ) { 1; }\nvoid C_a(C *self; ) { 2; }\nvoid C_b(C *self; ) { 3; }\n"
    );
}

#[test]
fn methods_of_other_classes_stay() {
    let src = "void D::f() { }\n";
    let mut parser = Parser::new(src.to_string());
    parser.parse_method("C".to_string());
    assert_eq!(parser.src, src);
    assert!(parser.classes.is_empty());
}

#[test]
fn calls_of_the_method_are_rewritten_with_it() {
    let src = "void C::run(int n) { }\nint main() { c->run(3); d->stop(); }";
    let mut parser = Parser::new(src.to_string());
    parser.parse_method("C".to_string());
    assert_eq!(parser.src, "void C_run(C *self; int n) { }\nint main() { run(c, 3); d->stop(); }");
}

#[test]
fn a_later_method_is_read_after_the_calls_of_an_earlier_one_changed() {
    let src = "void C::f() { }\nvoid C::g() { self->f(1); }\n";
    let mut parser = Parser::new(src.to_string());
    parser.parse_method("C".to_string());
    assert_eq!(parser.src, "void C_f(C *self; ) { }\nvoid C_g(C *self; ) { f(self, 1); }\n");
    assert_eq!(method_names(&parser, 0), vec!["f", "g"]);
}

#[test]
fn method_without_closing_brace_runs_to_the_end() {
    let mut parser = Parser::new("void C::f() { a;".to_string());
    parser.parse_method("C".to_string());
    assert_eq!(parser.src, "void C_f(C *self; ) { a;}");
}

#[test]
fn method_site_edit_reaches_from_type_to_brace() {
    let buf = chars_of("x\nint C::f(a,b) {super}y");
    let (edit, name, found) = method_site_edit(&buf, "C", 6);
    assert_eq!(name, "f");
    assert_eq!(edit.start, 2);
    assert_eq!(edit.end, 23);
    assert_eq!(edit.text, "int C_f(C *self; a;b) {self->super}");
    assert!(found.is_empty());
}

#[test]
fn whole_methods_raise_no_issue() {
    let src = "void C::f() { }\nvoid C::g() { self->f(1); }\n";
    let mut parser = Parser::new(src.to_string());
    parser.parse_method("C".to_string());
    assert_eq!(parser.issues, Vec::<Issue>::new());
}

#[test]
fn method_without_a_mark_is_noted() {
    let mut open_body = Parser::new("void C::f() { a;".to_string());
    open_body.parse_method("C".to_string());
    assert_eq!(open_body.issues, vec![Issue::UnterminatedBlock { at: 5 }]);
    let mut open_list = Parser::new("void C::f(int a".to_string());
    open_list.parse_method("C".to_string());
    assert_eq!(open_list.issues, vec![Issue::UnterminatedBlock { at: 5 }]);
    let mut no_list = Parser::new("x = C::f;".to_string());
    no_list.parse_method("C".to_string());
    assert_eq!(no_list.issues, vec![Issue::UnterminatedBlock { at: 4 }]);
}

#[test]
fn issues_of_the_calls_come_before_those_of_the_methods() {
    let src = "void C::f() { }\nvoid C::g() {\nx->g(1";
    let mut parser = Parser::new(src.to_string());
    parser.parse_method("C".to_string());
    assert_eq!(
        parser.issues,
        vec![Issue::UnterminatedBlock { at: 31 }, Issue::UnterminatedBlock { at: 21 }]
    );
    assert_eq!(parser.src, "void C_f(C *self; ) { }\nvoid C_g(C *self; ) {\ng(x, 1)}");
}

#[test]
fn call_without_arguments_before_two_methods_moves_neither() {
    let mut parser = Parser::new("x->g()\nint C::g() {}\nint C::m() {}".to_string());
    parser.parse_method("C".to_string());
    assert_eq!(parser.src, "g(x)\nint C_g(C *self; ) {}\nint C_m(C *self; ) {}");
    assert_eq!(parser.classes.len(), 1);
    assert_eq!(parser.classes[0].name, "C");
    assert_eq!(method_names(&parser, 0), vec!["g", "m"]);
    assert!(parser.issues.is_empty());
}

#[test]
fn call_with_arguments_before_two_methods_moves_neither() {
    let src = "int r = x->g(1, 2);\nint C::g(int a, int b) { return a; }\nint C::m() { return 0; }\n";
    let mut parser = Parser::new(src.to_string());
    parser.parse_method("C".to_string());
    assert_eq!(
        parser.src,
        "int r = g(x, 1, 2);\nint C_g(C *self; int a; int b) { return a; }\nint C_m(C *self; ) { return 0; }\n"
    );
    assert_eq!(method_names(&parser, 0), vec!["g", "m"]);
    assert!(parser.issues.is_empty());
}

#[test]
fn method_behind_a_call_that_shrank_is_read_where_it_stands() {
    let src = "void C::m() { }\ny->m();\nz->m();\nvoid C::n() { }\nw->n();\nvoid C::o(int k) { }\n";
    let mut parser = Parser::new(src.to_string());
    parser.parse_method("C".to_string());
    assert_eq!(
        parser.src,
        "void C_m(C *self; ) { }\nm(y);\nm(z);\nvoid C_n(C *self; ) { }\nn(w);\nvoid C_o(C *self; int k) { }\n"
    );
    assert_eq!(method_names(&parser, 0), vec!["m", "n", "o"]);
    assert!(parser.issues.is_empty());
}

#[test]
fn calls_in_the_bodies_of_methods_are_rewritten() {
    let src = "int C::f() { return x->g(); }\nint C::g() { return y->g(); }\n";
    let mut parser = Parser::new(src.to_string());
    parser.parse_method("C".to_string());
    assert_eq!(
        parser.src,
        "int C_f(C *self; ) { return g(x); }\nint C_g(C *self; ) { return g(y); }\n"
    );
    assert_eq!(method_names(&parser, 0), vec!["f", "g"]);
}
