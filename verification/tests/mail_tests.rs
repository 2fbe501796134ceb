use inboxid::flags::Flag;
use inboxid::id::{IdError, MaildirID};
use inboxid::mail::{
    get_all_values, get_mails, key_matches, parse_mail, EasyMail, Header, HeadersExtension,
    MailError, RawEntry, Sender,
};
use inboxid::mid::{fallback_mid, is_fallback_mid, message_id_or_fallback};

fn entry(id: &str, flags: &str, data: &str) -> RawEntry {
    RawEntry { id: id.to_string(), flags: flags.to_string(), data: data.as_bytes().to_vec() }
}

fn header(key: &str, value: &str) -> Header {
    Header { key: key.to_string(), value: value.to_string() }
}

#[test]
fn made_up_identifiers_have_the_documented_form() {
    assert_eq!(fallback_mid("INBOX", MaildirID::new(100, 2)), "<INBOX_100_2@no-message-id>");
    assert!(is_fallback_mid(&fallback_mid("a_b", MaildirID::new(0, 0))));
    assert!(!is_fallback_mid("<x@host>"));
    assert_eq!(
        message_id_or_fallback("".to_string(), "INBOX", MaildirID::new(1, 2)),
        "<INBOX_1_2@no-message-id>"
    );
    assert_eq!(
        message_id_or_fallback("<x@host>".to_string(), "INBOX", MaildirID::new(1, 2)),
        "<x@host>"
    );
}

#[test]
fn header_names_are_compared_without_case() {
    assert!(key_matches("Message-ID", "message-id"));
    assert!(key_matches("MESSAGE-ID", "Message-Id"));
    assert!(!key_matches("Message-ID", "Message-IDs"));
    assert!(!key_matches("From", "Form"));
    assert!(!key_matches("k", "\u{212a}"));
}

#[test]
fn header_values_are_collected_in_order() {
    let headers = vec![header("Key", "1"), header("Other", "x"), header("key", "2")];
    assert_eq!(get_all_values(&headers, "KEY"), vec!["1", "2"]);
    assert!(get_all_values(&headers, "missing").is_empty());
    assert_eq!(headers.get_header("key"), "1 2");
    assert_eq!(headers.get_header("missing"), "");
}

#[test]
fn multiple_message_ids_are_joined_by_a_space() {
    let headers = vec![header("Message-ID", "<a@x>"), header("Message-Id", "<b@x>")];
    assert_eq!(headers.message_id("INBOX", MaildirID::new(1, 2)), "<a@x> <b@x>");
    let none: Vec<Header> = vec![header("Subject", "s")];
    assert_eq!(none.message_id("INBOX", MaildirID::new(1, 2)), "<INBOX_1_2@no-message-id>");
}

#[test]
fn a_stored_message_becomes_a_record() {
    let m = parse_mail(&entry(
        "100_2",
        "RS",
        "From: John Doe <john@doe.com>\r\nSubject: Hello\r\nDate: Sun, 02 Oct 2016 07:06:22 -0700 (PDT)\r\nMessage-ID: <a@host>\r\n\r\nbody",
    ))
    .unwrap();
    assert!(!m.is_pseudo());
    assert_eq!(m.id, MaildirID::new(100, 2));
    assert_eq!(m.get_flags(), "RS");
    assert_eq!(m.subject, "Hello");
    assert_eq!(m.from_raw, "John Doe <john@doe.com>");
    assert_eq!(
        m.from,
        Some(Sender { display_name: Some("John Doe".to_string()), addr: "john@doe.com".to_string() })
    );
    assert_eq!(m.date, 1475417182);
    assert_eq!(m.date_iso, "2016-10-02 14:06");
    assert_eq!(m.from(false), "John Doe");
    assert_eq!(m.from(true), "John Doe <john@doe.com>");
    assert_eq!(m.message_id("INBOX"), "<a@host>");
    assert_eq!(m.get_header("subject"), "Hello");
    assert_eq!(m.get_header_values("Message-ID"), vec!["<a@host>"]);
}

#[test]
fn a_missing_date_is_the_epoch_and_shown_as_unknown() {
    let m = parse_mail(&entry("1_1", "", "Subject: s\r\n\r\n")).unwrap();
    assert_eq!(m.date, 0);
    assert_eq!(m.date_iso, "????-??-??");
}

#[test]
fn an_unreadable_date_is_the_epoch_and_shown_as_unknown() {
    let m = parse_mail(&entry("1_1", "", "Date: 99 Foo 2016\r\n\r\n")).unwrap();
    assert_eq!(m.date, 0);
    assert_eq!(m.date_iso, "????-??-??");
}

#[test]
fn the_epoch_itself_is_a_date() {
    let m = parse_mail(&entry("1_1", "", "Date: Thu, 01 Jan 1970 00:00:00 +0000\r\n\r\n")).unwrap();
    assert_eq!(m.date, 0);
    assert_eq!(m.date_iso, "1970-01-01 00:00");
}

#[test]
fn a_missing_sender_yields_the_raw_from() {
    let m = parse_mail(&entry("1_1", "", "From: a@x.org, b@y.org\r\n\r\n")).unwrap();
    assert_eq!(m.from, None);
    assert_eq!(m.from(true), "a@x.org, b@y.org");
    let n = parse_mail(&entry("1_1", "", "Subject: s\r\n\r\n")).unwrap();
    assert_eq!(n.from(false), "");
    let bare = parse_mail(&entry("1_1", "", "From: a@x.org\r\n\r\n")).unwrap();
    assert_eq!(bare.from(false), "");
    assert_eq!(bare.from(true), " <a@x.org>");
}

#[test]
fn records_fail_with_the_reason() {
    assert_eq!(
        parse_mail(&entry("nonsense", "", "Subject: s\r\n\r\n")),
        Err(MailError::Id(IdError::MissingSeparator))
    );
    assert_eq!(
        parse_mail(&entry("1_x", "", "Subject: s\r\n\r\n")),
        Err(MailError::Id(IdError::InvalidUid))
    );
    assert_eq!(parse_mail(&entry("1_1", "", "Subject: s\r\n\rx")), Err(MailError::Headers));
}

#[test]
fn records_are_made_in_order_until_one_fails() {
    let good = vec![
        entry("1_1", "S", "Subject: one\r\n\r\n"),
        entry("1_2", "", "Subject: two\r\n\r\n"),
    ];
    let mails = get_mails(&good).unwrap();
    assert_eq!(mails.len(), 2);
    assert_eq!(mails[0].subject, "one");
    assert_eq!(mails[1].subject, "two");
    let bad = vec![
        entry("1_1", "S", "Subject: one\r\n\r\n"),
        entry("1_2", "", "Subject: s\r\n\rx"),
        entry("nonsense", "", "Subject: three\r\n\r\n"),
    ];
    assert_eq!(get_mails(&bad), Err(MailError::Headers));
    assert_eq!(get_mails(&vec![]), Ok(vec![]));
}

#[test]
fn a_pseudo_record_stands_for_a_missing_message() {
    let m = EasyMail::new_pseudo("<missing@host>".to_string());
    assert!(m.is_pseudo());
    assert_eq!(m.id, MaildirID::new(0, 0));
    assert_eq!(m.subject, "<missing@host>");
    assert_eq!(m.get_flags(), "S");
    assert_eq!(m.from(true), "");
    assert_eq!(m.date, 0);
    assert_eq!(m.date_iso, "????-??-??");
}

#[test]
fn flags_of_a_record_are_changed_in_memory() {
    let mut m = parse_mail(&entry("1_1", "RU", "Subject: s\r\n\r\n")).unwrap();
    assert!(m.has_flag2('U'));
    assert!(m.has_flag(&Flag::Answered));
    assert!(!m.has_flag(&Flag::Seen));
    m.mark_as_read(true);
    assert_eq!(m.get_flags(), "RS");
    m.mark_as_read(false);
    assert_eq!(m.get_flags(), "RU");
    m.add_flag(Flag::Deleted);
    m.add_flag2('E');
    assert_eq!(m.get_flags(), "RUTE");
    m.remove_flag(Flag::Answered);
    m.remove_flag2('E');
    assert_eq!(m.get_flags(), "UT");
    m.mark_as_read(true);
    m.mark_as_read(true);
    assert_eq!(m.get_flags(), "TSS");
}
