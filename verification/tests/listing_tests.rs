use inboxid::id::MaildirID;
use inboxid::listing::{
    count_unread, filter_store_query, flags_display, is_mailbox_name, is_unread, listing_line,
    row_of_mail, row_style, skips_filter, RowStyle,
};
use inboxid::mail::{parse_mail, RawEntry};

#[test]
fn lines_are_styled_by_their_flags() {
    assert_eq!(row_style("SE"), RowStyle::Deleted);
    assert_eq!(row_style("TE"), RowStyle::Deleted);
    assert_eq!(row_style("ST"), RowStyle::Trashed);
    assert_eq!(row_style("R"), RowStyle::Unread);
    assert_eq!(row_style(""), RowStyle::Unread);
    assert_eq!(row_style("RS"), RowStyle::Plain);
}

#[test]
fn marks_show_flagged_replied_and_unread() {
    assert_eq!(flags_display("FRS"), "+R ");
    assert_eq!(flags_display(""), "*");
    assert_eq!(flags_display("S"), " ");
    assert_eq!(flags_display("F"), "+*");
    assert_eq!(flags_display("R"), "R*");
}

#[test]
fn unread_messages_are_counted() {
    assert!(is_unread("RF"));
    assert!(!is_unread("S"));
    let flags = vec!["S".to_string(), "".to_string(), "RS".to_string(), "U".to_string()];
    assert_eq!(count_unread(&flags), 2);
    assert_eq!(count_unread(&vec![]), 0);
}

#[test]
fn hidden_directories_are_no_mailboxes() {
    assert!(is_mailbox_name("INBOX"));
    assert!(!is_mailbox_name(".gone"));
    assert!(is_mailbox_name("a.b"));
    assert!(is_mailbox_name(""));
}

#[test]
fn the_filter_passes_over_marked_messages() {
    assert!(skips_filter("ST"));
    assert!(skips_filter("E"));
    assert!(!skips_filter("SRFU"));
    assert_eq!(filter_store_query("RSx"), "FLAGS.SILENT (\\Answered \\Seen)");
    assert_eq!(filter_store_query(""), "FLAGS.SILENT ()");
}

#[test]
fn a_record_gives_its_index_row() {
    let mail = parse_mail(&RawEntry {
        id: "5_6".to_string(),
        flags: "S".to_string(),
        data: b"Message-ID: <m@h>\r\n\r\n".to_vec(),
    })
    .unwrap();
    let row = row_of_mail("Work", &mail);
    assert_eq!(row.mailbox, "Work");
    assert_eq!(row.id, MaildirID::new(5, 6));
    assert_eq!(row.message_id, "<m@h>");
    assert_eq!(row.flags, "S");
}

#[test]
fn lines_are_fitted_to_the_width() {
    assert_eq!(listing_line("Hello", "Ann", "2016-10-02 14:06", 30), "Hello     Ann 2016-10-02 14:06");
    assert_eq!(listing_line("Hello world", "Ann", "d", 10), "Hell Ann d");
    assert_eq!(listing_line("Hello", "Ann", "date", 3), " Ann date");
    assert_eq!(listing_line("Gr\u{fc}\u{df}e", "A", "d", 7), "Gr\u{fc} A d");
    assert_eq!(listing_line("", "", "", 4), "    ");
}
