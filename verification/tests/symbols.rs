use prec::symbols::{declare, find_class, has_name, register, ClassEntry};

fn names(entry: &ClassEntry) -> Vec<&str> {
    let mut out = Vec::new();
    for m in entry.methods.iter() {
        out.push(m.as_str());
    }
    out
}

#[test]
fn declare_adds_an_entry_without_methods() {
    let mut table: Vec<ClassEntry> = Vec::new();
    declare(&mut table, "Point".to_string());
    assert_eq!(table.len(), 1);
    assert_eq!(table[0].name, "Point");
    assert!(table[0].methods.is_empty());
}

#[test]
fn declare_again_adds_a_second_entry() {
    let mut table: Vec<ClassEntry> = Vec::new();
    declare(&mut table, "Point".to_string());
    register(&mut table, &"Point".to_string(), "move".to_string());
    declare(&mut table, "Point".to_string());
    assert_eq!(table.len(), 2);
    assert_eq!(names(&table[0]), vec!["move"]);
    assert!(table[1].methods.is_empty());
    assert_eq!(find_class(&table, &"Point".to_string()), 0);
}

#[test]
fn register_keeps_the_order_of_first_sight() {
    let mut table: Vec<ClassEntry> = Vec::new();
    declare(&mut table, "A".to_string());
    declare(&mut table, "B".to_string());
    register(&mut table, &"B".to_string(), "m2".to_string());
    register(&mut table, &"B".to_string(), "m1".to_string());
    register(&mut table, &"A".to_string(), "m1".to_string());
    register(&mut table, &"B".to_string(), "m2".to_string());
    assert_eq!(table.len(), 2);
    assert_eq!(names(&table[0]), vec!["m1"]);
    assert_eq!(names(&table[1]), vec!["m2", "m1"]);
}

#[test]
fn register_of_a_known_method_changes_nothing() {
    let mut table: Vec<ClassEntry> = Vec::new();
    register(&mut table, &"A".to_string(), "f".to_string());
    register(&mut table, &"A".to_string(), "f".to_string());
    assert_eq!(table.len(), 1);
    assert_eq!(names(&table[0]), vec!["f"]);
}

#[test]
fn register_for_an_unknown_class_adds_it() {
    let mut table: Vec<ClassEntry> = Vec::new();
    declare(&mut table, "A".to_string());
    register(&mut table, &"C".to_string(), "run".to_string());
    assert_eq!(table.len(), 2);
    assert_eq!(table[1].name, "C");
    assert_eq!(names(&table[1]), vec!["run"]);
}

#[test]
fn find_class_gives_the_length_where_none_is() {
    let mut table: Vec<ClassEntry> = Vec::new();
    assert_eq!(find_class(&table, &"A".to_string()), 0);
    declare(&mut table, "A".to_string());
    declare(&mut table, "B".to_string());
    assert_eq!(find_class(&table, &"B".to_string()), 1);
    assert_eq!(find_class(&table, &"b".to_string()), 2);
    assert_eq!(find_class(&table, &"B ".to_string()), 2);
}

#[test]
fn has_name_compares_whole_names() {
    let list = vec!["move".to_string(), "area".to_string()];
    assert!(has_name(&list, &"area".to_string()));
    assert!(!has_name(&list, &"are".to_string()));
    assert!(!has_name(&Vec::new(), &"area".to_string()));
}
