use inboxid::exec::{
    store_query, uid_set, Command, Event, Executor, FetchedMail, FlagChange, Stage, Warning,
};
use inboxid::flags::Flag;
use inboxid::id::MaildirID;
use inboxid::index::{Index, IndexRow};
use inboxid::plan::{compute_sync_actions, Folder, RemoteMail, SyncAction};

fn row(mailbox: &str, v: u32, u: u32, mid: &str, flags: &str) -> IndexRow {
    IndexRow {
        mailbox: mailbox.to_string(),
        id: MaildirID::new(v, u),
        message_id: mid.to_string(),
        flags: flags.to_string(),
    }
}

fn mail(mid: &str, v: u32, u: u32, flags: Vec<Flag>) -> RemoteMail {
    RemoteMail { message_id: mid.to_string(), id: MaildirID::new(v, u), flags }
}

fn folder(name: &str, is_trash: bool, mails: Vec<RemoteMail>) -> Folder {
    Folder { name: name.to_string(), is_trash, mails: Some(mails) }
}

fn s(x: &str) -> String {
    x.to_string()
}

fn fetched(uid: u32, flags: Vec<Flag>, body: &str, stored: bool) -> FetchedMail {
    FetchedMail { uid, flags, body: body.as_bytes().to_vec(), stored }
}

/// Runs the executor to its end. Every mailbox is in the epoch given; a fetch
/// is answered with the messages given.
fn run(e: &mut Executor, epoch: u32, answer: Vec<FetchedMail>) -> Vec<Command> {
    let mut all = Vec::new();
    let mut event = Event::Next;
    let mut rounds = 0;
    while !e.is_finished() {
        rounds += 1;
        assert!(rounds < 1000);
        let commands = e.step(event);
        event = match commands.last() {
            Some(Command::Select(_)) => Event::Selected(epoch),
            Some(Command::Fetch(_)) => Event::Fetched(answer.clone()),
            _ => Event::Next,
        };
        all.extend(commands);
    }
    all
}

#[test]
fn store_arguments_are_exact() {
    assert_eq!(store_query(FlagChange::Deleted), "+FLAGS.SILENT (\\Deleted)");
    assert_eq!(store_query(FlagChange::SeenAdd), "+FLAGS.SILENT (\\Seen)");
    assert_eq!(store_query(FlagChange::SeenRemove), "-FLAGS.SILENT (\\Seen)");
    assert_eq!(uid_set(&vec![1, 22, 333]), "1,22,333");
    assert_eq!(uid_set(&vec![7]), "7");
    assert_eq!(uid_set(&vec![]), "");
}

#[test]
fn an_empty_plan_rewrites_flags_and_logs_out() {
    let remote = vec![folder("INBOX", false, vec![mail("<a@h>", 1, 1, vec![Flag::Seen])])];
    let mut e = Executor::new(vec![], Index::new(), remote, None);
    assert_eq!(
        e.step(Event::Next),
        vec![Command::Reconcile(s("INBOX"), MaildirID::new(1, 1), vec![Flag::Seen]), Command::Logout]
    );
    assert!(e.is_finished());
    assert_eq!(e.step(Event::Next), vec![]);
    assert_eq!(e.stage, Stage::Finished);
}

#[test]
fn a_mailbox_is_selected_before_its_action_and_expunged_after() {
    let id = MaildirID::new(100, 2);
    let plan = vec![
        SyncAction::DeleteLocal(s("INBOX"), id),
        SyncAction::DeleteLocal(s("INBOX"), MaildirID::new(100, 3)),
        SyncAction::DeleteLocal(s("Work"), MaildirID::new(100, 4)),
    ];
    let mut e = Executor::new(plan, Index::new(), vec![], None);
    assert_eq!(e.step(Event::Next), vec![Command::Select(s("INBOX"))]);
    assert_eq!(e.stage, Stage::Selecting);
    assert_eq!(
        e.step(Event::Selected(100)),
        vec![Command::Remove(s("INBOX"), id), Command::IndexDelete(s("INBOX"), id)]
    );
    assert_eq!(
        e.step(Event::Next),
        vec![
            Command::Remove(s("INBOX"), MaildirID::new(100, 3)),
            Command::IndexDelete(s("INBOX"), MaildirID::new(100, 3))
        ]
    );
    assert_eq!(e.step(Event::Next), vec![Command::Expunge, Command::Select(s("Work"))]);
    assert_eq!(
        e.step(Event::Selected(100)),
        vec![
            Command::Remove(s("Work"), MaildirID::new(100, 4)),
            Command::IndexDelete(s("Work"), MaildirID::new(100, 4))
        ]
    );
    assert_eq!(e.step(Event::Next), vec![Command::Expunge, Command::Logout]);
}

#[test]
fn an_action_of_another_epoch_is_skipped_with_a_warning() {
    let id = MaildirID::new(100, 2);
    let index = Index { rows: vec![row("INBOX", 100, 2, "<a@h>", "T")] };
    let plan = vec![
        SyncAction::TrashRemote(s("INBOX"), id),
        SyncAction::UpdateFlags(s("INBOX"), vec![(id, vec![], s("S"))]),
        SyncAction::Hardlink(s("INBOX"), vec![(id, s("<a@h>"), vec![])]),
        SyncAction::Fetch(s("INBOX"), vec![id]),
    ];
    let mut e = Executor::new(plan, index.copy(), vec![], Some(s("Trash")));
    let commands = run(&mut e, 200, vec![]);
    let warn = Command::Warn(Warning::Mismatch, s("INBOX"), id);
    assert_eq!(
        commands,
        vec![
            Command::Select(s("INBOX")),
            warn.clone(),
            warn.clone(),
            warn.clone(),
            warn,
            Command::Expunge,
            Command::Logout
        ]
    );
    assert_eq!(e.index, index);
}

#[test]
fn a_remote_delete_stores_the_flag_then_deletes_locally() {
    let id = MaildirID::new(100, 2);
    let index = Index { rows: vec![row("INBOX", 100, 2, "<a@h>", "E")] };
    let remote = vec![folder("INBOX", false, vec![mail("<a@h>", 100, 2, vec![])])];
    let plan = vec![SyncAction::DeleteRemote(s("INBOX"), id)];
    let mut e = Executor::new(plan, index, remote, None);
    assert_eq!(
        run(&mut e, 100, vec![]),
        vec![
            Command::Select(s("INBOX")),
            Command::Store(2, FlagChange::Deleted),
            Command::Remove(s("INBOX"), id),
            Command::IndexDelete(s("INBOX"), id),
            Command::Expunge,
            Command::Logout
        ]
    );
    assert!(e.index.rows.is_empty());
}

#[test]
fn trashing_without_a_trash_folder_only_warns() {
    let id = MaildirID::new(100, 2);
    let plan = vec![SyncAction::TrashRemote(s("INBOX"), id)];
    let mut e = Executor::new(plan, Index::new(), vec![], None);
    assert_eq!(
        run(&mut e, 100, vec![]),
        vec![
            Command::Select(s("INBOX")),
            Command::Warn(Warning::NoTrash, s("INBOX"), id),
            Command::Expunge,
            Command::Logout
        ]
    );
}

#[test]
fn seen_is_settled_on_the_server_and_remembered() {
    let a = MaildirID::new(100, 1);
    let b = MaildirID::new(100, 2);
    let c = MaildirID::new(100, 3);
    let remote = vec![folder(
        "INBOX",
        false,
        vec![
            mail("<a@h>", 100, 1, vec![]),
            mail("<b@h>", 100, 2, vec![Flag::Flagged, Flag::Seen]),
            mail("<c@h>", 100, 3, vec![Flag::Seen]),
        ],
    )];
    let plan = vec![SyncAction::UpdateFlags(
        s("INBOX"),
        vec![
            (a, vec![], s("S")),
            (b, vec![Flag::Flagged, Flag::Seen], s("U")),
            (c, vec![Flag::Seen], s("")),
        ],
    )];
    let mut e = Executor::new(plan, Index::new(), remote, None);
    assert_eq!(
        run(&mut e, 100, vec![]),
        vec![
            Command::Select(s("INBOX")),
            Command::Store(1, FlagChange::SeenAdd),
            Command::Store(2, FlagChange::SeenRemove),
            Command::Reconcile(s("INBOX"), a, vec![Flag::Seen]),
            Command::Reconcile(s("INBOX"), b, vec![Flag::Flagged]),
            Command::Reconcile(s("INBOX"), c, vec![Flag::Seen]),
            Command::Expunge,
            Command::Logout
        ]
    );
}

#[test]
fn fetched_messages_are_stored_before_they_are_indexed() {
    let plan = vec![SyncAction::Fetch(
        s("INBOX"),
        vec![MaildirID::new(100, 4), MaildirID::new(100, 5), MaildirID::new(100, 6)],
    )];
    let mut e = Executor::new(plan, Index::new(), vec![], None);
    let answer = vec![
        fetched(4, vec![Flag::Seen, Flag::Flagged], "Message-ID: <d@h>\r\n\r\nx", false),
        fetched(5, vec![], "Subject: s\r\n\r\nx", true),
        fetched(6, vec![], "Subject: s\r\n\rx", false),
    ];
    let saved = IndexRow {
        mailbox: s("INBOX"),
        id: MaildirID::new(100, 4),
        message_id: s("<d@h>"),
        flags: s("SF"),
    };
    assert_eq!(
        run(&mut e, 100, answer),
        vec![
            Command::Select(s("INBOX")),
            Command::Fetch(vec![4, 5, 6]),
            Command::Save(s("INBOX"), MaildirID::new(100, 4), s("SF"), 0),
            Command::IndexSave(saved.clone()),
            Command::Warn(Warning::AlreadyStored, s("INBOX"), MaildirID::new(100, 5)),
            Command::Warn(Warning::Unreadable, s("INBOX"), MaildirID::new(100, 6)),
            Command::Expunge,
            Command::Logout
        ]
    );
    assert_eq!(e.index.rows, vec![saved]);
}

#[test]
fn a_link_without_a_source_only_warns() {
    let id = MaildirID::new(50, 3);
    let plan = vec![SyncAction::Hardlink(s("Archive"), vec![(id, s("<x@host>"), vec![])])];
    let mut e = Executor::new(plan, Index::new(), vec![], None);
    assert_eq!(
        run(&mut e, 50, vec![]),
        vec![
            Command::Select(s("Archive")),
            Command::Warn(Warning::NoSource, s("Archive"), id),
            Command::Expunge,
            Command::Logout
        ]
    );
}

#[test]
fn stale_messages_are_archived_deleted_and_taken_out_of_the_index() {
    let index = Index {
        rows: vec![row("INBOX", 100, 1, "<a@h>", ""), row("INBOX", 200, 1, "<b@h>", "")],
    };
    let plan = vec![SyncAction::RemoveStale(vec![(s("INBOX"), vec![(100, 1, (100u64 << 32) | 1)])])];
    let mut e = Executor::new(plan, index, vec![], None);
    let id = MaildirID::new(100, 1);
    assert_eq!(
        run(&mut e, 200, vec![]),
        vec![
            Command::Archive(s("INBOX"), id),
            Command::Remove(s("INBOX"), id),
            Command::IndexDelete(s("INBOX"), id),
            Command::Logout
        ]
    );
    assert_eq!(e.index.rows, vec![row("INBOX", 200, 1, "<b@h>", "")]);
}

#[test]
fn reports_that_are_not_waited_for_change_nothing() {
    let plan = vec![SyncAction::DeleteLocal(s("INBOX"), MaildirID::new(1, 1))];
    let mut e = Executor::new(plan, Index::new(), vec![], None);
    let before = e.clone();
    assert_eq!(e.step(Event::Selected(1)), vec![]);
    assert_eq!(e.step(Event::Fetched(vec![])), vec![]);
    assert_eq!(e, before);
    let _ = e.step(Event::Next);
    let waiting = e.clone();
    assert_eq!(e.step(Event::Next), vec![]);
    assert_eq!(e, waiting);
}

#[test]
fn replanning_after_the_plan_was_applied_finds_nothing_to_do() {
    let folders = vec![
        folder(
            "INBOX",
            false,
            vec![
                mail("<a@h>", 100, 1, vec![]),
                mail("<b@h>", 100, 2, vec![Flag::Seen]),
                mail("<c@h>", 100, 3, vec![]),
                mail("<d@h>", 100, 4, vec![]),
            ],
        ),
        folder("Work", false, vec![mail("<b@h>", 100, 7, vec![])]),
        folder("Trash", true, vec![]),
    ];
    let index = Index {
        rows: vec![
            row("INBOX", 100, 1, "<a@h>", "T"),
            row("INBOX", 100, 2, "<b@h>", "U"),
            row("INBOX", 100, 3, "<c@h>", "E"),
            row("INBOX", 100, 9, "<gone@h>", ""),
        ],
    };
    let plan = compute_sync_actions(&folders, &index);
    assert_eq!(
        plan,
        vec![
            SyncAction::TrashRemote(s("INBOX"), MaildirID::new(100, 1)),
            SyncAction::DeleteRemote(s("INBOX"), MaildirID::new(100, 3)),
            SyncAction::UpdateFlags(
                s("INBOX"),
                vec![(MaildirID::new(100, 2), vec![Flag::Seen], s("U"))]
            ),
            SyncAction::Fetch(s("INBOX"), vec![MaildirID::new(100, 4)]),
            SyncAction::Hardlink(s("Work"), vec![(MaildirID::new(100, 7), s("<b@h>"), vec![])]),
            SyncAction::RemoveStale(vec![(s("INBOX"), vec![(100, 9, (100u64 << 32) | 9)])]),
        ]
    );
    let mut e = Executor::new(plan, index, folders, Some(s("Trash")));
    let answer = vec![fetched(4, vec![], "Message-ID: <d@h>\r\n\r\nx", false)];
    let _ = run(&mut e, 100, answer);
    let again = compute_sync_actions(&e.remote, &e.index);
    assert_eq!(again, vec![]);
}

#[test]
fn a_run_is_ended_between_two_actions() {
    let plan = vec![
        SyncAction::DeleteLocal(s("INBOX"), MaildirID::new(1, 1)),
        SyncAction::DeleteLocal(s("INBOX"), MaildirID::new(1, 2)),
    ];
    let remote = vec![folder("INBOX", false, vec![mail("<a@h>", 1, 3, vec![])])];
    let mut e = Executor::new(plan, Index::new(), remote, None);
    assert_eq!(e.step(Event::Next), vec![Command::Select(s("INBOX"))]);
    let waiting = e.clone();
    assert_eq!(e.step(Event::Cancel), vec![]);
    assert_eq!(e, waiting);
    assert_eq!(e.step(Event::Selected(1)).len(), 2);
    assert_eq!(e.step(Event::Cancel), vec![Command::Expunge, Command::Logout]);
    assert!(e.is_finished());
    assert_eq!(e.next, 1);
    let mut idle = Executor::new(vec![], Index::new(), vec![], None);
    assert_eq!(idle.step(Event::Cancel), vec![Command::Logout]);
}

#[test]
fn warnings_and_failures_are_taken_note_of() {
    let id = MaildirID::new(100, 2);
    let plan = vec![
        SyncAction::DeleteLocal(s("INBOX"), MaildirID::new(200, 1)),
        SyncAction::DeleteLocal(s("INBOX"), id),
    ];
    let mut e = Executor::new(plan, Index::new(), vec![], None);
    assert!(e.succeeded());
    let _ = e.step(Event::Next);
    let _ = e.step(Event::Selected(200));
    assert!(e.succeeded());
    assert_eq!(e.step(Event::Next), vec![Command::Warn(Warning::Mismatch, s("INBOX"), id)]);
    assert!(!e.succeeded());
    let mut f = Executor::new(vec![], Index::new(), vec![], None);
    let before = f.clone();
    assert_eq!(f.step(Event::Failed), vec![]);
    assert!(!f.succeeded());
    assert_eq!(f.stage, before.stage);
    assert_eq!(f.step(Event::Next), vec![Command::Logout]);
    assert!(!f.succeeded());
}
