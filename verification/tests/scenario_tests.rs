use inboxid::exec::{Command, Event, Executor, FetchedMail};
use inboxid::fetch::{
    choose_range, finish_fetch, range_to_string, read_watermark, render_watermark,
    row_for_fetched, FetchRange,
};
use inboxid::flags::Flag;
use inboxid::id::{gen_id, MaildirID};
use inboxid::index::{Index, IndexRow};
use inboxid::plan::{compute_sync_actions, index_remote, Folder, RemoteMessage, SyncAction};

fn body(mid: &str) -> Vec<u8> {
    format!("Message-ID: {}\r\nSubject: s\r\n\r\nbody", mid).into_bytes()
}

fn listed(uid: u32, mid: &str) -> RemoteMessage {
    RemoteMessage {
        uid,
        flags: vec![],
        header: format!("Message-ID: {}\r\n\r\n", mid).into_bytes(),
    }
}

/// One run of the fetcher against a server that holds `messages` in the
/// epoch `uid_validity`: gives the names of the files it wrote, and the
/// content of the watermark file afterwards.
fn fetch_run(
    uid_validity: u32,
    uid_next: u32,
    messages: &Vec<(u32, &str)>,
    files: &mut Vec<String>,
    index: &mut Index,
    watermark: Option<String>,
) -> Option<String> {
    let w = read_watermark(watermark.as_deref());
    let range = choose_range(uid_validity, uid_next, w);
    let from = match range {
        FetchRange::Nothing => return watermark,
        FetchRange::All => 1,
        FetchRange::From(n) => n,
    };
    assert!(range_to_string(range).is_some());
    let top = messages.iter().map(|m| m.0).max();
    let mut seen = Vec::new();
    for (uid, mid) in messages {
        if (*uid as u64) >= from || Some(*uid) == top {
            seen.push(*uid);
            let name = gen_id(uid_validity, *uid);
            if !files.contains(&name) {
                files.push(name);
                let id = MaildirID::new(uid_validity, *uid);
                index.save(row_for_fetched("INBOX", id, &body(mid)).unwrap());
            }
        }
    }
    Some(render_watermark(finish_fetch(uid_validity, uid_next, w, &seen)))
}

#[test]
fn fresh_fetch() {
    let mut files = Vec::new();
    let mut index = Index::new();
    let server = vec![(1, "<a@h>"), (2, "<b@h>"), (3, "<c@h>")];
    let uid = fetch_run(100, 4, &server, &mut files, &mut index, None);
    assert_eq!(files, vec!["100_1", "100_2", "100_3"]);
    assert_eq!(uid, Some("100,3".to_string()));
    assert_eq!(index.rows.len(), 3);
    assert_eq!(index.rows[1].id, MaildirID::new(100, 2));
    assert_eq!(index.rows[1].message_id, "<b@h>");
}

#[test]
fn incremental_fetch_no_op() {
    let mut files = Vec::new();
    let mut index = Index::new();
    let server = vec![(1, "<a@h>"), (2, "<b@h>"), (3, "<c@h>")];
    let first = fetch_run(100, 4, &server, &mut files, &mut index, None);
    let second = fetch_run(100, 4, &server, &mut files, &mut index, first.clone());
    assert_eq!(files, vec!["100_1", "100_2", "100_3"]);
    assert_eq!(second, first);
    assert_eq!(index.rows.len(), 3);
}

#[test]
fn uidvalidity_change() {
    let mut files = Vec::new();
    let mut index = Index::new();
    let old = vec![(1, "<a@h>"), (2, "<b@h>"), (3, "<c@h>")];
    let first = fetch_run(100, 4, &old, &mut files, &mut index, None);
    let new = vec![(1, "<new@h>")];
    let second = fetch_run(200, 2, &new, &mut files, &mut index, first);
    assert_eq!(files, vec!["100_1", "100_2", "100_3", "200_1"]);
    assert_eq!(second, Some("200,1".to_string()));
    let folders = vec![Folder {
        name: "INBOX".to_string(),
        is_trash: false,
        mails: Some(index_remote("INBOX", 200, &vec![listed(1, "<new@h>")])),
    }];
    assert_eq!(
        compute_sync_actions(&folders, &index),
        vec![SyncAction::RemoveStale(vec![(
            "INBOX".to_string(),
            vec![
                (100, 1, MaildirID::new(100, 1).to_u64()),
                (100, 2, MaildirID::new(100, 2).to_u64()),
                (100, 3, MaildirID::new(100, 3).to_u64()),
            ]
        )])]
    );
}

#[test]
fn mark_trash_round_trip() {
    let mut files = Vec::new();
    let mut index = Index::new();
    let server = vec![(1, "<a@h>"), (2, "<b@h>"), (3, "<c@h>")];
    let _ = fetch_run(100, 4, &server, &mut files, &mut index, None);
    index.update_flags(MaildirID::new(100, 2), "T");
    let folders = vec![
        Folder {
            name: "INBOX".to_string(),
            is_trash: false,
            mails: Some(index_remote(
                "INBOX",
                100,
                &vec![listed(1, "<a@h>"), listed(2, "<b@h>"), listed(3, "<c@h>")],
            )),
        },
        Folder { name: "Trash".to_string(), is_trash: true, mails: Some(vec![]) },
    ];
    let plan = compute_sync_actions(&folders, &index);
    let id = MaildirID::new(100, 2);
    assert_eq!(plan, vec![SyncAction::TrashRemote("INBOX".to_string(), id)]);
    let mut e = Executor::new(plan, index, folders, Some("Trash".to_string()));
    assert_eq!(e.step(Event::Next), vec![Command::Select("INBOX".to_string())]);
    assert_eq!(
        e.step(Event::Selected(100)),
        vec![
            Command::Move(2, "Trash".to_string()),
            Command::Archive("INBOX".to_string(), id),
            Command::Remove("INBOX".to_string(), id),
            Command::IndexDelete("INBOX".to_string(), id),
        ]
    );
    assert!(e.index.by_message_id("<b@h>").is_empty());
    assert_eq!(e.index.rows.len(), 2);
    let none: Vec<FetchedMail> = vec![];
    assert_eq!(e.step(Event::Fetched(none)), vec![]);
    let closing = e.step(Event::Next);
    assert_eq!(
        closing,
        vec![
            Command::Reconcile("INBOX".to_string(), MaildirID::new(100, 1), vec![]),
            Command::Reconcile("INBOX".to_string(), MaildirID::new(100, 3), vec![]),
            Command::Expunge,
            Command::Logout
        ]
    );
}

#[test]
fn cross_folder_duplicate() {
    let index = Index {
        rows: vec![IndexRow {
            mailbox: "INBOX".to_string(),
            id: MaildirID::new(100, 5),
            message_id: "<x@host>".to_string(),
            flags: "S".to_string(),
        }],
    };
    let folders = vec![
        Folder {
            name: "INBOX".to_string(),
            is_trash: false,
            mails: Some(index_remote("INBOX", 100, &vec![RemoteMessage {
                uid: 5,
                flags: vec![Flag::Seen],
                header: b"Message-ID: <x@host>\r\n\r\n".to_vec(),
            }])),
        },
        Folder {
            name: "Archive".to_string(),
            is_trash: false,
            mails: Some(index_remote("Archive", 50, &vec![RemoteMessage {
                uid: 3,
                flags: vec![Flag::Flagged],
                header: b"Message-ID: <x@host>\r\n\r\n".to_vec(),
            }])),
        },
    ];
    let plan = compute_sync_actions(&folders, &index);
    let new_id = MaildirID::new(50, 3);
    assert_eq!(
        plan,
        vec![SyncAction::Hardlink(
            "Archive".to_string(),
            vec![(new_id, "<x@host>".to_string(), vec![Flag::Flagged])]
        )]
    );
    let mut e = Executor::new(plan, index, folders, None);
    assert_eq!(e.step(Event::Next), vec![Command::Select("Archive".to_string())]);
    let commands = e.step(Event::Selected(50));
    let row = IndexRow {
        mailbox: "Archive".to_string(),
        id: new_id,
        message_id: "<x@host>".to_string(),
        flags: "S".to_string(),
    };
    assert_eq!(
        commands,
        vec![
            Command::Link(
                "INBOX".to_string(),
                MaildirID::new(100, 5),
                "Archive".to_string(),
                new_id,
                "S".to_string()
            ),
            Command::IndexSave(row.clone()),
            Command::Store(3, inboxid::exec::FlagChange::SeenAdd),
        ]
    );
    assert!(!commands.iter().any(|c| matches!(c, Command::Fetch(_))));
    assert_eq!(e.index.rows.len(), 2);
    assert_eq!(e.index.rows[1], row);
}
