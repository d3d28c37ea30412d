use prec::issues::Issue;
use prec::templates::PREAMBLE;
use prec::Parser;

#[test]
fn new_parser_holds_the_text_and_no_class() {
    let parser = Parser::new("class A { }".to_string());
    assert_eq!(parser.src, "class A { }");
    assert!(parser.classes.is_empty());
    assert!(parser.issues.is_empty());
}

#[test]
fn point_program_is_rewritten() {
    let src = "class Point { int x; int y; }\nvoid Point::move(int dx) { x = x + dx; }\np->move(5)\nnew Point(1, 2)";
    let mut parser = Parser::new(src.to_string());
    parser.parse();
    let out = parser.src.clone();
    assert!(out.contains("typedef struct Point { int x; int y; } Point;"));
    assert!(out.contains("void Point_move(Point *self; int dx) { x = x + dx; }"));
    assert!(out.contains("move(p, 5)"));
    assert!(out.contains("(Point){1, 2, Point_move,}"));
    assert!(!out.contains("new Point("));
    let expected = format!(
        "{}{}",
        PREAMBLE,
        "typedef struct Point { int x; int y; } Point;\nvoid Point_move(Point *self; int dx) { x = x + dx; }\nmove(p, 5)\n(Point){1, 2, Point_move,}"
    );
    assert_eq!(out, expected);
    assert_eq!(parser.classes.len(), 1);
    assert_eq!(parser.classes[0].name, "Point");
    assert_eq!(parser.classes[0].methods, vec!["move".to_string()]);
    assert_eq!(parser.issues, Vec::<Issue>::new());
}

#[test]
fn program_with_parent_and_main_is_rewritten() {
    let src = "class Shape { int id; }\nclass Circle +Shape { int r; }\nint Circle::area(int k) { return super.id + r * k; }\nint Circle::twice() { return 2; }\nint main() {\n    Circle c = new Circle(1, 2, );\n    Circle *p = &c;\n    int a = p->area(3);\n    return p->twice();\n}\n";
    let mut parser = Parser::new(src.to_string());
    parser.parse();
    let expected = format!(
        "{}{}",
        PREAMBLE,
        "typedef struct Shape { int id; } Shape;\ntypedef struct Circle { int r; \n\tShape super;\n} Circle;\nint Circle_area(Circle *self; int k) { return self->super.id + r * k; }\nint Circle_twice(Circle *self; ) { return 2; }\nint main() {\n    Circle c = (Circle){1, 2, Circle_area, Circle_twice,};\n    Circle *p = &c;\n    int a = area(p, 3);\n    return twice(p);\n}\n"
    );
    assert_eq!(parser.src, expected);
    assert_eq!(parser.classes.len(), 2);
    assert_eq!(parser.classes[0].name, "Shape");
    assert!(parser.classes[0].methods.is_empty());
    assert_eq!(parser.classes[1].name, "Circle");
    assert_eq!(parser.classes[1].methods, vec!["area".to_string(), "twice".to_string()]);
}

#[test]
fn plain_text_gets_the_preamble_alone() {
    let mut parser = Parser::new("int main() { return 0; }\n".to_string());
    parser.parse();
    assert_eq!(parser.src, format!("{}{}", PREAMBLE, "int main() { return 0; }\n"));
    assert!(parser.classes.is_empty());
}

#[test]
fn construction_of_a_class_that_was_not_declared_adds_no_method() {
    let mut parser = Parser::new("class A { int a; }\nx = new B(1, 2);\n".to_string());
    parser.parse();
    assert_eq!(
        parser.src,
        format!("{}{}", PREAMBLE, "typedef struct A { int a; } A;\nx = (B){1, 2};\n")
    );
    let at = PREAMBLE.chars().count() + "typedef struct A { int a; } A;\nx = ".len();
    assert_eq!(parser.issues, vec![Issue::UnknownClass { at, name: "B".to_string() }]);
}

#[test]
fn issues_come_in_the_order_of_the_passes() {
    let src = "class A { int a; }\nclass A { int b; }\nx = new B(1);\ny->f(";
    let mut parser = Parser::new(src.to_string());
    parser.parse();
    assert_eq!(parser.issues.len(), 2);
    assert_eq!(parser.issues[0], Issue::DuplicateClass { at: 19, name: "A".to_string() });
    assert!(matches!(parser.issues[1], Issue::UnknownClass { .. }));
}

#[test]
fn parse_is_classes_then_constructions() {
    let src = "class P { int x; }\nint P::get() { return x; }\nq = new P(7);\n";
    let mut whole = Parser::new(src.to_string());
    whole.parse();
    let mut steps = Parser::new(src.to_string());
    steps.parse_classes();
    steps.parse_constructor();
    assert_eq!(whole.src, steps.src);
    assert_eq!(whole.classes.len(), steps.classes.len());
}

#[test]
fn entries_met_before_stay_in_the_table() {
    let mut parser = Parser::new("class B { int b; }\nint A::f() { 1; }\n".to_string());
    parser.parse_method("A".to_string());
    assert_eq!(parser.classes.len(), 1);
    parser.parse();
    assert_eq!(parser.classes.len(), 2);
    assert_eq!(parser.classes[0].name, "A");
    assert_eq!(parser.classes[0].methods, vec!["f".to_string()]);
    assert_eq!(parser.classes[1].name, "B");
}

#[test]
fn text_beyond_ascii_is_rewritten_by_characters() {
    let src = "// caf\u{e9} \u{2192}\nclass P { int \u{e9}; }\nint P::get() { return \u{e9}; }\nq = new P(1);\nq->get();\n";
    let mut parser = Parser::new(src.to_string());
    parser.parse();
    assert_eq!(
        parser.src,
        format!(
            "{}{}",
            PREAMBLE,
            "// caf\u{e9} \u{2192}\ntypedef struct P { int \u{e9}; } P;\nint P_get(P *self; ) { return \u{e9}; }\nq = (P){1, P_get,};\nget(q);\n"
        )
    );
    assert!(parser.issues.is_empty());
}

#[test]
fn output_begins_with_the_preamble_whatever_the_text() {
    for src in ["", "new", "ew X()", "w", "class", "new new new", "x->y(", "class A {} new A(new A())"] {
        let mut parser = Parser::new(src.to_string());
        parser.parse();
        assert!(parser.src.starts_with(PREAMBLE));
    }
}

#[test]
fn point_program_on_one_line_is_rewritten() {
    let src = "class Point { int x; int y; } void Point::move(int dx) { x = x + dx; } p->move(5) new Point(1, 2)";
    let mut parser = Parser::new(src.to_string());
    parser.parse();
    assert_eq!(
        parser.src,
        format!(
            "{}{}",
            PREAMBLE,
            "typedef struct Point { int x; int y; } Point; void Point_move(Point *self; int dx) { x = x + dx; } move(p, 5) (Point){1, 2, Point_move,}"
        )
    );
    assert_eq!(parser.classes.len(), 1);
    assert_eq!(parser.classes[0].methods, vec!["move".to_string()]);
    assert!(parser.issues.is_empty());
}

#[test]
fn point_program_with_main_lists_the_reference_as_an_argument() {
    let src = "class Point { int x; int y; }\nvoid Point::move(int dx) { x = x + dx; }\nint main() { Point *p = new Point(1, 2); p->move(5); }\n";
    let mut parser = Parser::new(src.to_string());
    parser.parse();
    assert_eq!(
        parser.src,
        format!(
            "{}{}",
            PREAMBLE,
            "typedef struct Point { int x; int y; } Point;\nvoid Point_move(Point *self; int dx) { x = x + dx; }\nint main() { Point *p = (Point){1, 2, Point_move,}; move(p, 5); }\n"
        )
    );
    assert!(!parser.src.contains("new Point("));
    assert_eq!(parser.src.matches("Point_move,").count(), 1);
    assert!(parser.issues.is_empty());
}
