use inboxid::flags::Flag;
use inboxid::id::MaildirID;
use inboxid::index::{Index, IndexRow};
use inboxid::plan::{
    compute_sync_actions, find_remote, has_id, has_trash, index_remote, is_selected, note_remote,
    Folder, RemoteMail, RemoteMessage, SyncAction,
};

fn row(mailbox: &str, v: u32, u: u32, mid: &str, flags: &str) -> IndexRow {
    IndexRow {
        mailbox: mailbox.to_string(),
        id: MaildirID::new(v, u),
        message_id: mid.to_string(),
        flags: flags.to_string(),
    }
}

fn index_of(rows: Vec<IndexRow>) -> Index {
    Index { rows }
}

fn mail(mid: &str, v: u32, u: u32, flags: Vec<Flag>) -> RemoteMail {
    RemoteMail { message_id: mid.to_string(), id: MaildirID::new(v, u), flags }
}

fn folder(name: &str, is_trash: bool, mails: Vec<RemoteMail>) -> Folder {
    Folder { name: name.to_string(), is_trash, mails: Some(mails) }
}

fn message(uid: u32, flags: Vec<Flag>, header: &str) -> RemoteMessage {
    RemoteMessage { uid, flags, header: header.as_bytes().to_vec() }
}

#[test]
fn the_listing_of_the_server_is_indexed_by_message_id() {
    let mails = index_remote(
        "INBOX",
        100,
        &vec![
            message(1, vec![Flag::Seen], "Message-ID: <a@h>\r\n\r\n"),
            message(2, vec![Flag::Deleted], "Message-ID: <b@h>\r\n\r\n"),
            message(3, vec![], "\r\n"),
            message(4, vec![], ""),
        ],
    );
    assert_eq!(
        mails,
        vec![
            mail("<a@h>", 100, 1, vec![Flag::Seen]),
            mail("<INBOX_100_3@no-message-id>", 100, 3, vec![]),
            mail("<INBOX_100_4@no-message-id>", 100, 4, vec![]),
        ]
    );
}

#[test]
fn a_later_message_replaces_one_known_under_the_same_identifier() {
    let mut mails = vec![mail("<a@h>", 1, 1, vec![]), mail("<b@h>", 1, 2, vec![])];
    note_remote(&mut mails, "INBOX", MaildirID::new(1, 3), &[Flag::Seen], "<a@h>".to_string());
    assert_eq!(mails, vec![mail("<a@h>", 1, 3, vec![Flag::Seen]), mail("<b@h>", 1, 2, vec![])]);
    assert_eq!(find_remote(&mails, "<b@h>"), 1);
    assert_eq!(find_remote(&mails, "<c@h>"), 2);
}

#[test]
fn mailboxes_are_selected_by_name_or_all() {
    assert!(is_selected(&vec![], "INBOX"));
    assert!(is_selected(&vec!["A".to_string(), "INBOX".to_string()], "INBOX"));
    assert!(!is_selected(&vec!["A".to_string()], "INBOX"));
}

#[test]
fn trash_folders_are_found() {
    assert!(!has_trash(&vec![folder("INBOX", false, vec![])]));
    assert!(has_trash(&vec![folder("INBOX", false, vec![]), folder("Bin", true, vec![])]));
    assert!(!has_trash(&vec![]));
}

#[test]
fn an_unknown_message_is_fetched() {
    let folders = vec![folder("INBOX", false, vec![mail("<a@h>", 100, 1, vec![])])];
    assert_eq!(
        compute_sync_actions(&folders, &index_of(vec![])),
        vec![SyncAction::Fetch("INBOX".to_string(), vec![MaildirID::new(100, 1)])]
    );
}

#[test]
fn trash_folders_are_not_fetched() {
    let folders = vec![folder("Trash", true, vec![mail("<a@h>", 100, 1, vec![])])];
    assert_eq!(compute_sync_actions(&folders, &index_of(vec![])), vec![]);
}

#[test]
fn a_trashed_message_is_moved_on_the_server_or_only_locally() {
    let folders = vec![
        folder("INBOX", false, vec![mail("<a@h>", 100, 1, vec![])]),
        folder("Trash", true, vec![]),
    ];
    let index = index_of(vec![
        row("INBOX", 100, 1, "<a@h>", "ST"),
        row("INBOX", 100, 2, "<INBOX_100_2@no-message-id>", "T"),
    ]);
    assert_eq!(
        compute_sync_actions(&folders, &index),
        vec![
            SyncAction::TrashRemote("INBOX".to_string(), MaildirID::new(100, 1)),
            SyncAction::TrashLocal("INBOX".to_string(), MaildirID::new(100, 2)),
        ]
    );
}

#[test]
fn without_a_trash_folder_trashed_mail_stays() {
    let folders = vec![folder("INBOX", false, vec![mail("<a@h>", 100, 1, vec![])])];
    let index = index_of(vec![row("INBOX", 100, 1, "<a@h>", "TE")]);
    assert_eq!(compute_sync_actions(&folders, &index), vec![]);
}

#[test]
fn trashed_mail_in_the_trash_folder_stays() {
    let folders = vec![folder("Trash", true, vec![mail("<a@h>", 100, 1, vec![])])];
    let index = index_of(vec![row("Trash", 100, 1, "<a@h>", "T")]);
    assert_eq!(compute_sync_actions(&folders, &index), vec![]);
}

#[test]
fn a_message_marked_for_destruction_is_deleted() {
    let folders = vec![folder("INBOX", false, vec![mail("<a@h>", 100, 1, vec![])])];
    let index = index_of(vec![
        row("INBOX", 100, 1, "<a@h>", "E"),
        row("INBOX", 100, 2, "<INBOX_100_2@no-message-id>", "SE"),
    ]);
    assert_eq!(
        compute_sync_actions(&folders, &index),
        vec![
            SyncAction::DeleteRemote("INBOX".to_string(), MaildirID::new(100, 1)),
            SyncAction::DeleteLocal("INBOX".to_string(), MaildirID::new(100, 2)),
        ]
    );
}

#[test]
fn flags_are_updated_where_seen_differs() {
    let folders = vec![folder(
        "INBOX",
        false,
        vec![
            mail("<a@h>", 100, 1, vec![]),
            mail("<b@h>", 100, 2, vec![Flag::Seen]),
            mail("<c@h>", 100, 3, vec![Flag::Seen]),
            mail("<d@h>", 100, 4, vec![]),
        ],
    )];
    let index = index_of(vec![
        row("INBOX", 100, 1, "<a@h>", "S"),
        row("INBOX", 100, 2, "<b@h>", "U"),
        row("INBOX", 100, 3, "<c@h>", "RS"),
        row("INBOX", 100, 4, "<d@h>", ""),
    ]);
    assert_eq!(
        compute_sync_actions(&folders, &index),
        vec![SyncAction::UpdateFlags(
            "INBOX".to_string(),
            vec![
                (MaildirID::new(100, 1), vec![], "S".to_string()),
                (MaildirID::new(100, 2), vec![Flag::Seen], "U".to_string()),
            ]
        )]
    );
}

#[test]
fn stale_rows_are_removed_but_made_up_identifiers_stay() {
    let folders = vec![folder("INBOX", false, vec![mail("<a@h>", 200, 1, vec![])])];
    let index = index_of(vec![
        row("INBOX", 100, 1, "<old@h>", ""),
        row("INBOX", 100, 2, "<INBOX_100_2@no-message-id>", ""),
        row("INBOX", 200, 1, "<a@h>", ""),
        row("Other", 100, 9, "<gone@h>", ""),
    ]);
    assert_eq!(
        compute_sync_actions(&folders, &index),
        vec![SyncAction::RemoveStale(vec![(
            "INBOX".to_string(),
            vec![(100, 1, (100u64 << 32) | 1)]
        )])]
    );
}

#[test]
fn mailboxes_that_are_left_out_are_not_planned() {
    let folders = vec![
        Folder { name: "INBOX".to_string(), is_trash: false, mails: None },
        folder("Work", false, vec![]),
    ];
    let index = index_of(vec![
        row("INBOX", 100, 1, "<a@h>", "E"),
        row("Work", 5, 1, "<w@h>", "E"),
    ]);
    assert_eq!(
        compute_sync_actions(&folders, &index),
        vec![SyncAction::DeleteLocal("Work".to_string(), MaildirID::new(5, 1))]
    );
}

#[test]
fn actions_name_their_mailbox() {
    let id = MaildirID::new(1, 1);
    assert_eq!(SyncAction::TrashRemote("A".to_string(), id).mailbox(), Some("A"));
    assert_eq!(SyncAction::TrashLocal("B".to_string(), id).mailbox(), Some("B"));
    assert_eq!(SyncAction::DeleteRemote("C".to_string(), id).mailbox(), Some("C"));
    assert_eq!(SyncAction::DeleteLocal("D".to_string(), id).mailbox(), Some("D"));
    assert_eq!(SyncAction::UpdateFlags("E".to_string(), vec![]).mailbox(), Some("E"));
    assert_eq!(SyncAction::Hardlink("F".to_string(), vec![]).mailbox(), Some("F"));
    assert_eq!(SyncAction::Fetch("G".to_string(), vec![]).mailbox(), Some("G"));
    assert_eq!(SyncAction::RemoveStale(vec![]).mailbox(), None);
}

#[test]
fn the_index_answers_its_queries() {
    let mut index = Index::new();
    index.save(row("A", 1, 1, "<x@h>", ""));
    index.save(row("B", 1, 1, "<x@h>", "S"));
    index.save(row("A", 1, 2, "<y@h>", ""));
    assert_eq!(index.in_mailbox("A"), vec![row("A", 1, 1, "<x@h>", ""), row("A", 1, 2, "<y@h>", "")]);
    assert_eq!(
        index.by_message_id("<x@h>"),
        vec![row("A", 1, 1, "<x@h>", ""), row("B", 1, 1, "<x@h>", "S")]
    );
    index.update_flags(MaildirID::new(1, 1), "RS");
    assert_eq!(index.by_message_id("<x@h>")[0].flags, "RS");
    assert_eq!(index.by_message_id("<x@h>")[1].flags, "RS");
    index.delete("A", MaildirID::new(1, 1));
    assert_eq!(index.rows, vec![row("B", 1, 1, "<x@h>", "RS"), row("A", 1, 2, "<y@h>", "")]);
    index.delete_mailbox("A");
    assert_eq!(index.copy().rows, vec![row("B", 1, 1, "<x@h>", "RS")]);
}

#[test]
fn a_message_that_leaves_the_server_is_neither_linked_nor_fetched() {
    let folders = vec![
        folder("INBOX", false, vec![mail("<a@h>", 100, 1, vec![]), mail("<b@h>", 100, 2, vec![])]),
        folder("Trash", true, vec![]),
    ];
    let index = index_of(vec![
        row("INBOX", 100, 1, "<a@h>", "T"),
        row("Work", 7, 1, "<a@h>", ""),
        row("INBOX", 100, 2, "<b@h>", "E"),
    ]);
    assert_eq!(
        compute_sync_actions(&folders, &index),
        vec![
            SyncAction::TrashRemote("INBOX".to_string(), MaildirID::new(100, 1)),
            SyncAction::DeleteRemote("INBOX".to_string(), MaildirID::new(100, 2)),
        ]
    );
    assert!(has_id(&vec!["<a@h>".to_string()], "<a@h>"));
    assert!(!has_id(&vec!["<a@h>".to_string()], "<b@h>"));
}
