use inboxid::mail::{parse_mail, EasyMail, RawEntry};
use inboxid::order::sort_by_date;
use inboxid::thread::{find_id, reply_words, ThreadError, ThreadGraph};

fn mail(uid: u32, mid: &str, replies: &str, date: &str) -> EasyMail {
    let mut data = String::new();
    if !mid.is_empty() {
        data.push_str(&format!("Message-ID: {}\r\n", mid));
    }
    if !replies.is_empty() {
        data.push_str(&format!("In-Reply-To: {}\r\n", replies));
    }
    if !date.is_empty() {
        data.push_str(&format!("Date: {}\r\n", date));
    }
    data.push_str("Subject: s\r\n\r\nbody");
    parse_mail(&RawEntry {
        id: format!("1_{}", uid),
        flags: String::new(),
        data: data.into_bytes(),
    })
    .unwrap()
}

fn day(d: u32) -> String {
    format!("{:02} Jan 2020 00:00:00 +0000", d)
}

fn vertices(out: &Vec<(usize, usize)>) -> Vec<usize> {
    out.iter().map(|p| p.0).collect()
}

#[test]
fn sorting_by_date_is_stable() {
    assert_eq!(
        sort_by_date(&vec![(3, 0), (1, 1), (3, 2), (2, 3), (1, 4)]),
        vec![(1, 1), (1, 4), (2, 3), (3, 0), (3, 2)]
    );
    assert_eq!(sort_by_date(&vec![]), vec![]);
    assert_eq!(sort_by_date(&vec![(i64::MIN, 7), (i64::MAX, 8), (0, 9)]), vec![
        (i64::MIN, 7),
        (0, 9),
        (i64::MAX, 8)
    ]);
}

#[test]
fn sorting_distinct_dates_does_not_depend_on_the_input_order() {
    let a = sort_by_date(&vec![(5, 0), (1, 1), (3, 2)]);
    let b = sort_by_date(&vec![(3, 2), (5, 0), (1, 1)]);
    assert_eq!(a, b);
    assert_eq!(a, vec![(1, 1), (3, 2), (5, 0)]);
}

#[test]
fn identifiers_are_looked_up_in_order() {
    let ids = vec!["<a>".to_string(), "<b>".to_string(), "<a>".to_string()];
    assert_eq!(find_id(&ids, "<a>"), 0);
    assert_eq!(find_id(&ids, "<b>"), 1);
    assert_eq!(find_id(&ids, "<c>"), 3);
}

#[test]
fn replies_name_what_they_reply_to() {
    let m = mail(1, "<x>", "<a>  <b>", "");
    assert_eq!(reply_words(&m), vec!["<a>", "<b>"]);
    assert!(reply_words(&mail(2, "<y>", "", "")).is_empty());
}

#[test]
fn thread_synthesis() {
    let a = mail(1, "<a>", "", &day(1));
    let b = mail(2, "<b>", "<a>", &day(5));
    let c = mail(3, "<c>", "<missing>", &day(3));
    let g = ThreadGraph::build("INBOX", vec![a, b, c]).unwrap();
    assert_eq!(g.real, 3);
    assert_eq!(g.mails.len(), 4);
    assert_eq!(g.ids, vec!["<a>", "<b>", "<c>", "<missing>"]);
    assert!(g.mails[3].is_pseudo());
    assert_eq!(g.mails[3].subject, "<missing>");
    assert_eq!(g.root_vertices(), vec![0, 3]);
    assert_eq!(g.subtree_date(0), g.mails[1].date);
    assert_eq!(g.subtree_date(3), g.mails[2].date);
    assert_eq!(g.threads(), vec![(3, 0), (2, 1), (0, 0), (1, 1)]);
}

#[test]
fn the_order_of_roots_follows_the_latest_date_below_them() {
    let a = mail(1, "<a>", "", &day(1));
    let b = mail(2, "<b>", "<a>", &day(2));
    let c = mail(3, "<c>", "<missing>", &day(3));
    let g = ThreadGraph::build("INBOX", vec![a, b, c]).unwrap();
    assert_eq!(g.threads(), vec![(0, 0), (1, 1), (3, 0), (2, 1)]);
}

#[test]
fn replies_are_ordered_by_the_latest_date_below_them() {
    let root = mail(1, "<r>", "", &day(1));
    let late = mail(2, "<late>", "<r>", &day(9));
    let early = mail(3, "<early>", "<r>", &day(2));
    let deep = mail(4, "<deep>", "<early>", &day(4));
    let g = ThreadGraph::build("INBOX", vec![root, late, early, deep]).unwrap();
    assert_eq!(g.threads(), vec![(0, 0), (2, 1), (3, 2), (1, 1)]);
    let again = mail(5, "<x>", "<early>", &day(20));
    let h = ThreadGraph::build(
        "INBOX",
        vec![
            mail(1, "<r>", "", &day(1)),
            mail(2, "<late>", "<r>", &day(9)),
            mail(3, "<early>", "<r>", &day(2)),
            again,
        ],
    )
    .unwrap();
    assert_eq!(h.threads(), vec![(0, 0), (1, 1), (2, 1), (3, 2)]);
}

#[test]
fn every_message_is_listed_once() {
    let mails = vec![
        mail(1, "<a>", "", &day(1)),
        mail(2, "<b>", "<a>", &day(2)),
        mail(3, "<c>", "<a> <b>", &day(3)),
        mail(4, "<d>", "<c> <a>", &day(4)),
        mail(5, "<e>", "<zz>", &day(5)),
        mail(6, "", "<zz>", &day(6)),
    ];
    let g = ThreadGraph::build("INBOX", mails).unwrap();
    let mut seen = vertices(&g.threads());
    seen.sort();
    assert_eq!(seen, vec![0, 1, 2, 3, 4, 5, 6]);
    assert_eq!(g.ids[5], "<INBOX_1_6@no-message-id>");
}

#[test]
fn a_message_with_two_parents_is_listed_under_the_first_reached() {
    let mails = vec![
        mail(1, "<a>", "", &day(1)),
        mail(2, "<b>", "", &day(2)),
        mail(3, "<c>", "<a> <b>", &day(3)),
    ];
    let g = ThreadGraph::build("INBOX", mails).unwrap();
    assert_eq!(g.threads(), vec![(0, 0), (2, 1), (1, 0)]);
}

#[test]
fn cycles_are_tolerated() {
    let mails = vec![
        mail(1, "<a>", "<b>", &day(1)),
        mail(2, "<b>", "<a>", &day(2)),
        mail(3, "<c>", "", &day(3)),
        mail(4, "<d>", "<d>", &day(4)),
    ];
    let g = ThreadGraph::build("INBOX", mails).unwrap();
    assert_eq!(g.root_vertices(), vec![2]);
    assert_eq!(g.threads(), vec![(2, 0)]);
    assert_eq!(g.subtree_date(0), g.mails[1].date);
}

#[test]
fn a_cycle_below_a_root_is_listed_once() {
    let mails = vec![
        mail(1, "<r>", "", &day(1)),
        mail(2, "<a>", "<r> <b>", &day(2)),
        mail(3, "<b>", "<a>", &day(3)),
    ];
    let g = ThreadGraph::build("INBOX", mails).unwrap();
    assert_eq!(g.threads(), vec![(0, 0), (1, 1), (2, 2)]);
}

#[test]
fn duplicate_message_ids_are_an_error() {
    let mails = vec![
        mail(1, "<a>", "", &day(1)),
        mail(2, "<b>", "", &day(2)),
        mail(3, "<a>", "", &day(3)),
        mail(4, "<b>", "", &day(4)),
    ];
    assert_eq!(ThreadGraph::build("INBOX", mails).err(), Some(ThreadError::DuplicateId(2)));
}

#[test]
fn an_empty_mailbox_has_no_threads() {
    let g = ThreadGraph::build("INBOX", vec![]).unwrap();
    assert!(g.threads().is_empty());
    assert!(g.root_vertices().is_empty());
}

#[test]
fn a_pseudo_mail_appears_once_however_often_it_is_referred_to() {
    let mails = vec![
        mail(1, "<a>", "<gone>", &day(1)),
        mail(2, "<b>", "<gone>", &day(2)),
        mail(3, "<c>", "<gone> <gone>", &day(3)),
    ];
    let g = ThreadGraph::build("INBOX", mails).unwrap();
    assert_eq!(g.mails.len(), 4);
    assert_eq!(g.threads(), vec![(3, 0), (0, 1), (1, 1), (2, 1)]);
    assert_eq!(g.order_by_date(&vec![2, 0, 1]), vec![0, 1, 2]);
}
