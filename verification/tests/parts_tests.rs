use inboxid::parts::Part;

fn leaf(mimetype: &str) -> Part {
    Part { mimetype: mimetype.to_string(), subparts: vec![] }
}

fn node(mimetype: &str, subparts: Vec<Part>) -> Part {
    Part { mimetype: mimetype.to_string(), subparts }
}

fn message() -> Part {
    node(
        "multipart/mixed",
        vec![
            node("multipart/alternative", vec![leaf("text/plain"), leaf("text/html")]),
            leaf("application/pdf"),
            node("message/rfc822", vec![leaf("text/calendar")]),
        ],
    )
}

#[test]
fn parts_are_numbered_in_the_order_of_the_listing() {
    let m = message();
    let expected = [
        "multipart/alternative",
        "text/plain",
        "text/html",
        "application/pdf",
        "message/rfc822",
        "text/calendar",
    ];
    for (i, mimetype) in expected.iter().enumerate() {
        let mut counter = 1;
        let part = m.get_tree_part(&mut counter, i + 1).unwrap();
        assert_eq!(&part.mimetype, mimetype);
        assert_eq!(counter, i + 1);
    }
}

#[test]
fn numbers_without_a_part_find_nothing() {
    let m = message();
    let mut counter = 1;
    assert!(m.get_tree_part(&mut counter, 7).is_none());
    assert_eq!(counter, 7);
    let mut zero = 1;
    assert!(m.get_tree_part(&mut zero, 0).is_none());
    assert_eq!(zero, 1);
    let mut alone = 1;
    assert!(leaf("text/plain").get_tree_part(&mut alone, 1).is_none());
    assert_eq!(alone, 1);
}

#[test]
fn numbering_can_start_anywhere() {
    let m = message();
    let mut counter = 10;
    assert_eq!(m.get_tree_part(&mut counter, 12).unwrap().mimetype, "text/html");
    let mut top = usize::MAX;
    assert_eq!(m.get_tree_part(&mut top, usize::MAX).unwrap().mimetype, "multipart/alternative");
}
