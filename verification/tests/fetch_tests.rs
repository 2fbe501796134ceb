use inboxid::fetch::{
    choose_range, finish_fetch, parse_watermark, range_to_string, read_watermark,
    render_watermark, row_for_fetched, FetchRange, Watermark,
};
use inboxid::id::MaildirID;

#[test]
fn watermark_files_are_read_leniently() {
    assert_eq!(parse_watermark("100,3"), Watermark { uid_validity: 100, last_uid: 3 });
    assert_eq!(parse_watermark(" 100 , 3\n"), Watermark { uid_validity: 100, last_uid: 3 });
    assert_eq!(parse_watermark("100"), Watermark { uid_validity: 100, last_uid: 0 });
    assert_eq!(parse_watermark("x,3"), Watermark { uid_validity: 0, last_uid: 3 });
    assert_eq!(parse_watermark("1,2,3"), Watermark { uid_validity: 1, last_uid: 0 });
    assert_eq!(parse_watermark(""), Watermark { uid_validity: 0, last_uid: 0 });
    assert_eq!(parse_watermark("4294967296,1"), Watermark { uid_validity: 0, last_uid: 1 });
    assert_eq!(read_watermark(None), Watermark { uid_validity: 0, last_uid: 0 });
    assert_eq!(read_watermark(Some("7,9")), Watermark { uid_validity: 7, last_uid: 9 });
}

#[test]
fn watermark_files_are_written_exactly() {
    assert_eq!(render_watermark(Watermark { uid_validity: 100, last_uid: 3 }), "100,3");
    assert_eq!(render_watermark(Watermark { uid_validity: 0, last_uid: 0 }), "0,0");
    let w = Watermark { uid_validity: 4294967295, last_uid: 12 };
    assert_eq!(parse_watermark(&render_watermark(w)), w);
}

#[test]
fn the_range_follows_epoch_and_next_uid() {
    let w = Watermark { uid_validity: 100, last_uid: 3 };
    assert_eq!(choose_range(200, 2, w), FetchRange::All);
    assert_eq!(choose_range(100, 4, w), FetchRange::Nothing);
    assert_eq!(choose_range(100, 7, w), FetchRange::From(4));
    assert_eq!(choose_range(100, 2, w), FetchRange::From(4));
    let top = Watermark { uid_validity: 1, last_uid: u32::MAX };
    assert_eq!(choose_range(1, 5, top), FetchRange::From(4294967296));
}

#[test]
fn ranges_are_written_for_imap() {
    assert_eq!(range_to_string(FetchRange::All), Some("1:*".to_string()));
    assert_eq!(range_to_string(FetchRange::From(4)), Some("4:*".to_string()));
    assert_eq!(range_to_string(FetchRange::Nothing), None);
}

#[test]
fn the_new_watermark_is_the_larger_of_next_uid_and_what_was_seen() {
    let w = Watermark { uid_validity: 100, last_uid: 3 };
    assert_eq!(finish_fetch(100, 7, w, &[4, 5, 6]), Watermark { uid_validity: 100, last_uid: 6 });
    assert_eq!(finish_fetch(100, 5, w, &[9]), Watermark { uid_validity: 100, last_uid: 9 });
    assert_eq!(finish_fetch(100, 2, w, &[]), Watermark { uid_validity: 100, last_uid: 3 });
    assert_eq!(finish_fetch(100, 0, w, &[]), Watermark { uid_validity: 100, last_uid: 3 });
}

#[test]
fn a_new_epoch_resets_the_watermark() {
    let w = Watermark { uid_validity: 100, last_uid: 30 };
    assert_eq!(finish_fetch(200, 2, w, &[1]), Watermark { uid_validity: 200, last_uid: 1 });
    assert_eq!(finish_fetch(200, 1, w, &[]), Watermark { uid_validity: 200, last_uid: 0 });
}

#[test]
fn fetched_messages_get_their_row() {
    let id = MaildirID::new(100, 1);
    let row = row_for_fetched("INBOX", id, b"Message-ID: <a@host>\r\nSubject: x\r\n\r\nbody")
        .unwrap();
    assert_eq!(row.mailbox, "INBOX");
    assert_eq!(row.id, id);
    assert_eq!(row.message_id, "<a@host>");
    assert_eq!(row.flags, "");
    let bare = row_for_fetched("INBOX", id, b"Subject: x\r\n\r\nbody").unwrap();
    assert_eq!(bare.message_id, "<INBOX_100_1@no-message-id>");
    assert!(row_for_fetched("INBOX", id, b"Subject: x\r\n\rbroken").is_none());
}

#[test]
fn fetching_twice_is_fetching_once() {
    let start = read_watermark(None);
    let first = choose_range(100, 4, start);
    assert_eq!(first, FetchRange::All);
    let w1 = finish_fetch(100, 4, start, &[1, 2, 3]);
    assert_eq!(choose_range(100, 4, w1), FetchRange::Nothing);
    let odd = finish_fetch(100, 4, start, &[1, 2, 9]);
    assert_eq!(choose_range(100, 4, odd), FetchRange::From(10));
    assert_eq!(finish_fetch(100, 4, odd, &[9]), odd);
}
