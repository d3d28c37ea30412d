use prec::issues::{note_all, note_if, Issue};

#[test]
fn note_if_adds_the_issue_where_the_condition_holds() {
    let mut list = vec![Issue::UnterminatedBlock { at: 1 }];
    note_if(&mut list, false, Issue::UnterminatedBlock { at: 2 });
    assert_eq!(list, vec![Issue::UnterminatedBlock { at: 1 }]);
    note_if(&mut list, true, Issue::DuplicateClass { at: 3, name: "A".to_string() });
    assert_eq!(
        list,
        vec![
            Issue::UnterminatedBlock { at: 1 },
            Issue::DuplicateClass { at: 3, name: "A".to_string() }
        ]
    );
}

#[test]
fn note_all_keeps_the_order() {
    let mut list = vec![Issue::UnterminatedBlock { at: 1 }];
    note_all(
        &mut list,
        vec![
            Issue::UnknownClass { at: 2, name: "B".to_string() },
            Issue::UnterminatedBlock { at: 3 },
        ],
    );
    note_all(&mut list, Vec::new());
    assert_eq!(
        list,
        vec![
            Issue::UnterminatedBlock { at: 1 },
            Issue::UnknownClass { at: 2, name: "B".to_string() },
            Issue::UnterminatedBlock { at: 3 }
        ]
    );
}
