use prec::templates::{
    emit_call, emit_class, emit_method, emit_method_ref, emit_new, emit_super_field, PREAMBLE,
};

#[test]
fn preamble_holds_no_construct() {
    assert!(!PREAMBLE.contains("new"));
    assert!(!PREAMBLE.contains("class"));
    assert!(!PREAMBLE.contains("->"));
    assert!(!PREAMBLE.contains("::"));
    assert!(PREAMBLE.starts_with("#include <stddef.h>\n"));
    assert!(PREAMBLE.ends_with("\n\n"));
}

#[test]
fn class_template_is_a_record() {
    assert_eq!(emit_class("Point", " int x; int y; "), "typedef struct Point { int x; int y; } Point;");
    assert_eq!(emit_class("E", ""), "typedef struct E {} E;");
}

#[test]
fn super_field_template_names_the_parent() {
    assert_eq!(emit_super_field("Shape"), "\n\tShape super;\n");
}

#[test]
fn method_template_takes_the_receiver_first() {
    assert_eq!(
        emit_method("Point", "void", "move", "int dx; int dy", " x += dx; "),
        "void Point_move(Point *self; int dx; int dy) { x += dx; }"
    );
    assert_eq!(emit_method("C", "int", "get", "", ""), "int C_get(C *self; ) {}");
}

#[test]
fn call_template_separates_only_where_arguments_follow() {
    assert_eq!(emit_call("m", "x", "a, b"), "m(x, a, b)");
    assert_eq!(emit_call("m", "x", ""), "m(x)");
    assert_eq!(emit_call("m", "x", " "), "m(x,  )");
}

#[test]
fn new_template_builds_the_record() {
    assert_eq!(emit_new("Point", "1, 2"), "(Point){1, 2}");
    assert_eq!(emit_new("Point", ""), "(Point){}");
}

#[test]
fn method_ref_template_qualifies_the_name() {
    assert_eq!(emit_method_ref("Point", "move"), "Point_move,");
}
