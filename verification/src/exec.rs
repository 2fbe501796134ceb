//! The executor of a plan: for each action the commands to carry out on the
//! server, on the stored messages and on the index. The executor decides; its
//! caller performs the commands and reports what the server answered.

use vstd::prelude::*;
use crate::flags::{
    apply_seen_change, copy_flags, imap_flags_to_maildir, mirrored, seen_change, seen_change_of,
    with_seen_change, Flag, SeenChange,
};
use crate::id::MaildirID;
use crate::index::{copy_row, row_views, rows_with, rows_without, Index, IndexRow, RowView};
use crate::mail::{header_of, parsed_headers, read_headers, HeadersExtension};
use crate::mid::message_id_of;
use crate::plan::{
    action_views, flag_items, folder_views, link_items, mail_views, stale_items,
    ActionView, Folder, FolderView, RemoteMail, RemoteMailView, SyncAction,
};
use crate::text::str_eq;

verus! {

/// A change of the flags of a message on the server.
#[derive(Debug, Clone, Copy, PartialEq, Eq, Structural)]
pub enum FlagChange {
    /// `+FLAGS.SILENT (\Deleted)`
    Deleted,
    /// `+FLAGS.SILENT (\Seen)`
    SeenAdd,
    /// `-FLAGS.SILENT (\Seen)`
    SeenRemove,
}

/// Why an action, or a part of one, was passed over.
#[derive(Debug, Clone, Copy, PartialEq, Eq, Structural)]
pub enum Warning {
    /// The identifier belongs to another epoch than the one the mailbox is in.
    Mismatch,
    /// The server has no trash folder.
    NoTrash,
    /// No stored copy of the message is left to link from.
    NoSource,
    /// The message that the server sent is stored already.
    AlreadyStored,
    /// The header section of the message that the server sent cannot be read.
    Unreadable,
}

/// One thing for the caller to do.
#[derive(Debug, Clone, PartialEq, Eq)]
pub enum Command {
    /// `SELECT` the mailbox, and report its `UIDVALIDITY`.
    Select(String),
    /// `EXPUNGE` the selected mailbox.
    Expunge,
    /// `LOGOUT`.
    Logout,
    /// `UID MOVE` the message with this UID to the mailbox named.
    Move(u32, String),
    /// `UID STORE` the change on the message with this UID.
    Store(u32, FlagChange),
    /// `UID FETCH` the messages with these UIDs whole, and report them.
    Fetch(Vec<u32>),
    /// Link the stored message into the archive of removed messages. A failure
    /// is of no account.
    Archive(String, MaildirID),
    /// Delete the stored message.
    Remove(String, MaildirID),
    /// Link the stored message of the first mailbox into the second one,
    /// under the second identifier and with the flags given.
    Link(String, MaildirID, String, MaildirID, String),
    /// Store the message reported at this index under the identifier and with
    /// the flags given.
    Save(String, MaildirID, String, usize),
    /// Delete the rows of the message from the index.
    IndexDelete(String, MaildirID),
    /// Save the row to the index.
    IndexSave(IndexRow),
    /// Rewrite the flags of the stored message to agree with these flags of
    /// the server.
    Reconcile(String, MaildirID, Vec<Flag>),
    /// Tell the user that something was passed over.
    Warn(Warning, String, MaildirID),
}

/// What a command says, as plain values.
pub enum CommandView {
    Select(Seq<char>),
    Expunge,
    Logout,
    Move(u32, Seq<char>),
    Store(u32, FlagChange),
    Fetch(Seq<u32>),
    Archive(Seq<char>, MaildirID),
    Remove(Seq<char>, MaildirID),
    Link(Seq<char>, MaildirID, Seq<char>, MaildirID, Seq<char>),
    Save(Seq<char>, MaildirID, Seq<char>, usize),
    IndexDelete(Seq<char>, MaildirID),
    IndexSave(RowView),
    Reconcile(Seq<char>, MaildirID, Seq<Flag>),
    Warn(Warning, Seq<char>, MaildirID),
}

impl View for Command {
    type V = CommandView;

    open spec fn view(&self) -> CommandView {
        match *self {
            Command::Select(m) => CommandView::Select(m@),
            Command::Expunge => CommandView::Expunge,
            Command::Logout => CommandView::Logout,
            Command::Move(uid, m) => CommandView::Move(uid, m@),
            Command::Store(uid, c) => CommandView::Store(uid, c),
            Command::Fetch(uids) => CommandView::Fetch(uids@),
            Command::Archive(m, id) => CommandView::Archive(m@, id),
            Command::Remove(m, id) => CommandView::Remove(m@, id),
            Command::Link(a, x, b, y, f) => CommandView::Link(a@, x, b@, y, f@),
            Command::Save(m, id, f, k) => CommandView::Save(m@, id, f@, k),
            Command::IndexDelete(m, id) => CommandView::IndexDelete(m@, id),
            Command::IndexSave(row) => CommandView::IndexSave(row@),
            Command::Reconcile(m, id, f) => CommandView::Reconcile(m@, id, f@),
            Command::Warn(w, m, id) => CommandView::Warn(w, m@, id),
        }
    }
}

/// What the commands say, in their order.
pub open spec fn command_views(commands: Seq<Command>) -> Seq<CommandView> {
    commands.map_values(|c: Command| c@)
}

/// A message as the server sent it whole: its UID, its flags, its bytes, and
/// whether a message is stored under its identifier already.
#[derive(Debug, Clone, PartialEq, Eq)]
pub struct FetchedMail {
    pub uid: u32,
    pub flags: Vec<Flag>,
    pub body: Vec<u8>,
    pub stored: bool,
}

/// The command that settles `\Seen` on the server, if there is anything to
/// settle.
pub open spec fn seen_commands(id: MaildirID, change: SeenChange) -> Seq<CommandView> {
    match change {
        SeenChange::Add => seq![CommandView::Store(id.uid, FlagChange::SeenAdd)],
        SeenChange::Remove => seq![CommandView::Store(id.uid, FlagChange::SeenRemove)],
        SeenChange::Keep => seq![],
    }
}

/// The commands that take a stored message away: it is linked into the
/// archive, deleted, and only then taken out of the index.
pub open spec fn away(mailbox: Seq<char>, id: MaildirID) -> Seq<CommandView> {
    seq![
        CommandView::Archive(mailbox, id),
        CommandView::Remove(mailbox, id),
        CommandView::IndexDelete(mailbox, id),
    ]
}

/// The messages without the one at `id`.
pub open spec fn mails_without(mails: Seq<RemoteMailView>, id: MaildirID) -> Seq<RemoteMailView> {
    mails.filter(|m: RemoteMailView| m.id != id)
}

/// The messages with `\Seen` changed on the one at `id`.
pub open spec fn mails_changed(mails: Seq<RemoteMailView>, id: MaildirID, change: SeenChange)
    -> Seq<RemoteMailView> {
    mails.map_values(
        |m: RemoteMailView|
            if m.id == id {
                RemoteMailView { flags: with_seen_change(m.flags, change), ..m }
            } else {
                m
            },
    )
}

/// What is known of the server, without the message `id` of `mailbox`.
pub open spec fn folders_without(folders: Seq<FolderView>, mailbox: Seq<char>, id: MaildirID)
    -> Seq<FolderView> {
    folders.map_values(
        |f: FolderView|
            match f.mails {
                Some(mails) => if f.name == mailbox {
                    FolderView { mails: Some(mails_without(mails, id)), ..f }
                } else {
                    f
                },
                None => f,
            },
    )
}

/// What is known of the server, with `\Seen` changed on the message `id` of
/// `mailbox`.
pub open spec fn folders_changed(
    folders: Seq<FolderView>,
    mailbox: Seq<char>,
    id: MaildirID,
    change: SeenChange,
) -> Seq<FolderView> {
    folders.map_values(
        |f: FolderView|
            match f.mails {
                Some(mails) => if f.name == mailbox {
                    FolderView { mails: Some(mails_changed(mails, id, change)), ..f }
                } else {
                    f
                },
                None => f,
            },
    )
}

/// What the executor knows while it works: the index as the commands given so
/// far leave it, the mailboxes of the server with their messages, and the
/// commands to give.
pub struct Run {
    pub index: Seq<RowView>,
    pub remote: Seq<FolderView>,
    pub commands: Seq<CommandView>,
}

/// The run after the action on the one message `id` of `mailbox`. An action
/// on a message of another epoch than `uid_validity`, the epoch of the
/// selected mailbox, only warns.
pub open spec fn run_single(
    r: Run,
    a: ActionView,
    mailbox: Seq<char>,
    id: MaildirID,
    uid_validity: u32,
    trash: Option<Seq<char>>,
) -> Run {
    if id.uid_validity != uid_validity {
        Run { commands: r.commands.push(CommandView::Warn(Warning::Mismatch, mailbox, id)), ..r }
    } else {
        match a {
            ActionView::TrashRemote(_, _) => match trash {
                Some(t) => Run {
                    index: rows_without(r.index, mailbox, id),
                    remote: folders_without(r.remote, mailbox, id),
                    commands: r.commands.push(CommandView::Move(id.uid, t)) + away(mailbox, id),
                },
                None => Run {
                    commands: r.commands.push(CommandView::Warn(Warning::NoTrash, mailbox, id)),
                    ..r
                },
            },
            ActionView::TrashLocal(_, _) => Run {
                index: rows_without(r.index, mailbox, id),
                commands: r.commands + away(mailbox, id),
                ..r
            },
            ActionView::DeleteRemote(_, _) => Run {
                index: rows_without(r.index, mailbox, id),
                remote: folders_without(r.remote, mailbox, id),
                commands: r.commands + seq![
                    CommandView::Store(id.uid, FlagChange::Deleted),
                    CommandView::Remove(mailbox, id),
                    CommandView::IndexDelete(mailbox, id),
                ],
            },
            ActionView::DeleteLocal(_, _) => Run {
                index: rows_without(r.index, mailbox, id),
                commands: r.commands + seq![
                    CommandView::Remove(mailbox, id),
                    CommandView::IndexDelete(mailbox, id),
                ],
                ..r
            },
            _ => r,
        }
    }
}

/// The run after `\Seen` was settled for one message of `mailbox`.
pub open spec fn run_flag(
    r: Run,
    mailbox: Seq<char>,
    item: (MaildirID, Seq<Flag>, Seq<char>),
    uid_validity: u32,
) -> Run {
    let (id, remote_flags, local_flags) = item;
    if id.uid_validity != uid_validity {
        Run { commands: r.commands.push(CommandView::Warn(Warning::Mismatch, mailbox, id)), ..r }
    } else {
        let change = seen_change_of(local_flags, remote_flags);
        Run {
            remote: folders_changed(r.remote, mailbox, id, change),
            commands: r.commands + seen_commands(id, change),
            ..r
        }
    }
}

/// The run after `\Seen` was settled for the messages `items` of `mailbox`.
pub open spec fn run_flags(
    r: Run,
    mailbox: Seq<char>,
    items: Seq<(MaildirID, Seq<Flag>, Seq<char>)>,
    uid_validity: u32,
) -> Run
    decreases items.len(),
{
    if items.len() == 0 {
        r
    } else {
        run_flag(
            run_flags(r, mailbox, items.drop_last(), uid_validity),
            mailbox,
            items.last(),
            uid_validity,
        )
    }
}

/// The run after one message was linked into `mailbox`. The copy is linked
/// from the first row that the index still has for the message; the file is
/// linked before the row is saved, and `\Seen` is settled last.
pub open spec fn run_link(
    r: Run,
    mailbox: Seq<char>,
    item: (MaildirID, Seq<char>, Seq<Flag>),
    uid_validity: u32,
) -> Run {
    let (id, message_id, remote_flags) = item;
    if id.uid_validity != uid_validity {
        Run { commands: r.commands.push(CommandView::Warn(Warning::Mismatch, mailbox, id)), ..r }
    } else {
        let rows = rows_with(r.index, message_id);
        if rows.len() == 0 {
            Run {
                commands: r.commands.push(CommandView::Warn(Warning::NoSource, mailbox, id)),
                ..r
            }
        } else {
            let source = rows[0];
            let row = RowView { mailbox, id, message_id, flags: source.flags };
            let change = seen_change_of(source.flags, remote_flags);
            Run {
                index: r.index.push(row),
                remote: folders_changed(r.remote, mailbox, id, change),
                commands: r.commands + seq![
                    CommandView::Link(source.mailbox, source.id, mailbox, id, source.flags),
                    CommandView::IndexSave(row),
                ] + seen_commands(id, change),
            }
        }
    }
}

/// The run after the messages `items` were linked into `mailbox`.
pub open spec fn run_links(
    r: Run,
    mailbox: Seq<char>,
    items: Seq<(MaildirID, Seq<char>, Seq<Flag>)>,
    uid_validity: u32,
) -> Run
    decreases items.len(),
{
    if items.len() == 0 {
        r
    } else {
        run_link(
            run_links(r, mailbox, items.drop_last(), uid_validity),
            mailbox,
            items.last(),
            uid_validity,
        )
    }
}

/// The UIDs of the messages of the epoch `uid_validity` among `ids`.
pub open spec fn valid_uids(ids: Seq<MaildirID>, uid_validity: u32) -> Seq<u32>
    decreases ids.len(),
{
    if ids.len() == 0 {
        seq![]
    } else if ids.last().uid_validity == uid_validity {
        valid_uids(ids.drop_last(), uid_validity).push(ids.last().uid)
    } else {
        valid_uids(ids.drop_last(), uid_validity)
    }
}

/// A warning for each message of another epoch than `uid_validity`.
pub open spec fn mismatch_warnings(mailbox: Seq<char>, ids: Seq<MaildirID>, uid_validity: u32)
    -> Seq<CommandView>
    decreases ids.len(),
{
    if ids.len() == 0 {
        seq![]
    } else if ids.last().uid_validity != uid_validity {
        mismatch_warnings(mailbox, ids.drop_last(), uid_validity).push(
            CommandView::Warn(Warning::Mismatch, mailbox, ids.last()),
        )
    } else {
        mismatch_warnings(mailbox, ids.drop_last(), uid_validity)
    }
}

/// The commands that ask the server for the messages `ids` of `mailbox`: a
/// warning for each message of another epoch, and one fetch of the others, if
/// there are any.
pub open spec fn fetch_commands(mailbox: Seq<char>, ids: Seq<MaildirID>, uid_validity: u32) -> Seq<
    CommandView,
> {
    let uids = valid_uids(ids, uid_validity);
    if uids.len() > 0 {
        mismatch_warnings(mailbox, ids, uid_validity).push(CommandView::Fetch(uids))
    } else {
        mismatch_warnings(mailbox, ids, uid_validity)
    }
}

/// The run after the stale messages `items` of `mailbox` were taken away.
pub open spec fn run_stale(r: Run, mailbox: Seq<char>, items: Seq<(u32, u32, u64)>) -> Run
    decreases items.len(),
{
    if items.len() == 0 {
        r
    } else {
        let p = run_stale(r, mailbox, items.drop_last());
        let id = MaildirID { uid_validity: items.last().0, uid: items.last().1 };
        Run {
            index: rows_without(p.index, mailbox, id),
            commands: p.commands + away(mailbox, id),
            ..p
        }
    }
}

/// The run after the stale messages of the mailboxes `list` were taken away.
pub open spec fn run_all_stale(r: Run, list: Seq<(Seq<char>, Seq<(u32, u32, u64)>)>) -> Run
    decreases list.len(),
{
    if list.len() == 0 {
        r
    } else {
        run_stale(run_all_stale(r, list.drop_last()), list.last().0, list.last().1)
    }
}

/// The run after the message at index `k` of what the server sent for
/// `mailbox` was dealt with. A message that is stored already, or whose
/// headers cannot be read, only warns. Another one is stored with the flags
/// of the server mirrored, and then gets its row.
pub open spec fn run_fetched(
    r: Run,
    mailbox: Seq<char>,
    uid_validity: u32,
    mail: FetchedMail,
    k: usize,
) -> Run {
    let id = MaildirID { uid_validity, uid: mail.uid };
    if mail.stored {
        Run {
            commands: r.commands.push(CommandView::Warn(Warning::AlreadyStored, mailbox, id)),
            ..r
        }
    } else {
        match parsed_headers(mail.body@) {
            None => Run {
                commands: r.commands.push(CommandView::Warn(Warning::Unreadable, mailbox, id)),
                ..r
            },
            Some(headers) => {
                let flags = mirrored(seq![], mail.flags@);
                let row = RowView {
                    mailbox,
                    id,
                    message_id: message_id_of(header_of(headers, "Message-ID"@), mailbox, id),
                    flags,
                };
                Run {
                    index: r.index.push(row),
                    commands: r.commands + seq![
                        CommandView::Save(mailbox, id, flags, k),
                        CommandView::IndexSave(row),
                    ],
                    ..r
                }
            },
        }
    }
}

/// The run after the first `n` messages that the server sent were dealt with.
pub open spec fn run_all_fetched(
    r: Run,
    mailbox: Seq<char>,
    uid_validity: u32,
    mails: Seq<FetchedMail>,
    n: int,
) -> Run
    decreases n,
{
    if n <= 0 {
        r
    } else {
        run_fetched(
            run_all_fetched(r, mailbox, uid_validity, mails, n - 1),
            mailbox,
            uid_validity,
            mails[n - 1],
            (n - 1) as usize,
        )
    }
}

/// The commands that rewrite the flags of the messages `mails` of `mailbox`.
pub open spec fn reconcile_commands(mailbox: Seq<char>, mails: Seq<RemoteMailView>) -> Seq<
    CommandView,
> {
    mails.map_values(|m: RemoteMailView| CommandView::Reconcile(mailbox, m.id, m.flags))
}

/// The commands that rewrite the flags of every message that the server is
/// known to have.
pub open spec fn closing_commands(folders: Seq<FolderView>) -> Seq<CommandView>
    decreases folders.len(),
{
    if folders.len() == 0 {
        seq![]
    } else {
        let f = folders.last();
        closing_commands(folders.drop_last()) + match f.mails {
            Some(mails) => reconcile_commands(f.name, mails),
            None => seq![],
        }
    }
}

/// The run that the executor is in.
pub open spec fn run_of(index: Index, remote: Seq<Folder>, commands: Seq<Command>) -> Run {
    Run { index: index@, remote: folder_views(remote), commands: command_views(commands) }
}

/// The name as plain characters, if there is one.
pub open spec fn optional_name(name: Option<String>) -> Option<Seq<char>> {
    match name {
        Some(n) => Some(n@),
        None => None,
    }
}

fn emit(commands: &mut Vec<Command>, c: Command)
    ensures
        command_views(final(commands)@) == command_views(old(commands)@).push(c@),
{
    commands.push(c);
    assert(command_views(commands@) =~= command_views(old(commands)@).push(c@));
}

fn emit_away(commands: &mut Vec<Command>, mailbox: &str, id: MaildirID)
    ensures
        command_views(final(commands)@) == command_views(old(commands)@) + away(mailbox@, id),
{
    emit(commands, Command::Archive(mailbox.to_owned(), id));
    emit(commands, Command::Remove(mailbox.to_owned(), id));
    emit(commands, Command::IndexDelete(mailbox.to_owned(), id));
    assert(command_views(commands@) =~= command_views(old(commands)@) + away(mailbox@, id));
}

fn emit_seen(commands: &mut Vec<Command>, id: MaildirID, change: SeenChange)
    ensures
        command_views(final(commands)@) == command_views(old(commands)@) + seen_commands(
            id,
            change,
        ),
{
    match change {
        SeenChange::Add => {
            emit(commands, Command::Store(id.uid, FlagChange::SeenAdd));
        },
        SeenChange::Remove => {
            emit(commands, Command::Store(id.uid, FlagChange::SeenRemove));
        },
        SeenChange::Keep => {},
    }
    assert(command_views(commands@) =~= command_views(old(commands)@) + seen_commands(id, change));
}

/// A message with the same content.
pub fn copy_mail(m: &RemoteMail) -> (r: RemoteMail)
    ensures
        r@ == m@,
{
    RemoteMail {
        message_id: m.message_id.clone(),
        id: m.id,
        flags: copy_flags(m.flags.as_slice()),
    }
}

fn without_mail(mails: &Vec<RemoteMail>, id: MaildirID) -> (r: Vec<RemoteMail>)
    ensures
        mail_views(r@) == mails_without(mail_views(mails@), id),
{
    let mut r: Vec<RemoteMail> = Vec::new();
    let n = mails.len();
    let ghost all = mail_views(mails@);
    for i in 0..n
        invariant
            n == mails@.len(),
            all == mail_views(mails@),
            mail_views(r@) == mails_without(all.take(i as int), id),
    {
        proof {
            assert(all.take(i + 1).drop_last() == all.take(i as int));
            assert(all.take(i + 1).last() == mails@[i as int]@);
            reveal(Seq::filter);
        }
        if mails[i].id != id {
            let ghost before = mail_views(r@);
            r.push(copy_mail(&mails[i]));
            assert(mail_views(r@) == before.push(mails@[i as int]@));
        }
    }
    assert(all.take(n as int) == all);
    r
}

fn changed_mails(mails: &Vec<RemoteMail>, id: MaildirID, change: SeenChange) -> (r: Vec<
    RemoteMail,
>)
    ensures
        mail_views(r@) == mails_changed(mail_views(mails@), id, change),
{
    let mut r: Vec<RemoteMail> = Vec::new();
    let n = mails.len();
    let ghost all = mail_views(mails@);
    for i in 0..n
        invariant
            n == mails@.len(),
            all == mail_views(mails@),
            mail_views(r@) == mails_changed(all, id, change).take(i as int),
    {
        let ghost before = mail_views(r@);
        let mut m = copy_mail(&mails[i]);
        if m.id == id {
            apply_seen_change(&mut m.flags, change);
        }
        r.push(m);
        assert(mail_views(r@) == before.push(m@));
        assert(mail_views(r@) =~= mails_changed(all, id, change).take(i + 1));
    }
    assert(mails_changed(all, id, change).take(n as int) == mails_changed(all, id, change));
    r
}

/// Forgets the message `id` of `mailbox`: the server no longer has it there.
pub fn drop_remote(remote: &mut Vec<Folder>, mailbox: &str, id: MaildirID)
    ensures
        folder_views(final(remote)@) == folders_without(folder_views(old(remote)@), mailbox@, id),
{
    let n = remote.len();
    let ghost all = folder_views(remote@);
    let ghost target = folders_without(all, mailbox@, id);
    for i in 0..n
        invariant
            n == remote@.len(),
            all == folder_views(old(remote)@),
            target == folders_without(all, mailbox@, id),
            all.len() == n,
            target.len() == n,
            forall|k: int| 0 <= k < i ==> (#[trigger] remote@[k])@ == target[k],
            forall|k: int| i <= k < n ==> (#[trigger] remote@[k])@ == all[k],
    {
        let f = &remote[i];
        assert(remote@[i as int]@ == all[i as int]);
        if str_eq(f.name.as_str(), mailbox) {
            match &f.mails {
                Some(mails) => {
                    let changed = Folder {
                        name: f.name.clone(),
                        is_trash: f.is_trash,
                        mails: Some(without_mail(mails, id)),
                    };
                    remote.set(i, changed);
                },
                None => {},
            }
        }
    }
    assert(folder_views(remote@) =~= target);
}

/// Takes note of a change of `\Seen` on the message `id` of `mailbox`.
pub fn change_remote(remote: &mut Vec<Folder>, mailbox: &str, id: MaildirID, change: SeenChange)
    ensures
        folder_views(final(remote)@) == folders_changed(
            folder_views(old(remote)@),
            mailbox@,
            id,
            change,
        ),
{
    let n = remote.len();
    let ghost all = folder_views(remote@);
    let ghost target = folders_changed(all, mailbox@, id, change);
    for i in 0..n
        invariant
            n == remote@.len(),
            all == folder_views(old(remote)@),
            target == folders_changed(all, mailbox@, id, change),
            all.len() == n,
            target.len() == n,
            forall|k: int| 0 <= k < i ==> (#[trigger] remote@[k])@ == target[k],
            forall|k: int| i <= k < n ==> (#[trigger] remote@[k])@ == all[k],
    {
        let f = &remote[i];
        assert(remote@[i as int]@ == all[i as int]);
        if str_eq(f.name.as_str(), mailbox) {
            match &f.mails {
                Some(mails) => {
                    let changed = Folder {
                        name: f.name.clone(),
                        is_trash: f.is_trash,
                        mails: Some(changed_mails(mails, id, change)),
                    };
                    remote.set(i, changed);
                },
                None => {},
            }
        }
    }
    assert(folder_views(remote@) =~= target);
}

/// Carries out an action on the one message `id` of `mailbox`, which is
/// selected and in the epoch `uid_validity`.
pub fn execute_single(
    index: &mut Index,
    remote: &mut Vec<Folder>,
    commands: &mut Vec<Command>,
    action: &SyncAction,
    mailbox: &str,
    id: MaildirID,
    uid_validity: u32,
    trash: &Option<String>,
)
    ensures
        run_of(*final(index), final(remote)@, final(commands)@) == run_single(
            run_of(*old(index), old(remote)@, old(commands)@),
            action@,
            mailbox@,
            id,
            uid_validity,
            optional_name(*trash),
        ),
{
    if id.uid_validity != uid_validity {
        emit(commands, Command::Warn(Warning::Mismatch, mailbox.to_owned(), id));
        return ;
    }
    match action {
        SyncAction::TrashRemote(_, _) => match trash {
            Some(t) => {
                emit(commands, Command::Move(id.uid, t.clone()));
                emit_away(commands, mailbox, id);
                index.delete(mailbox, id);
                drop_remote(remote, mailbox, id);
            },
            None => {
                emit(commands, Command::Warn(Warning::NoTrash, mailbox.to_owned(), id));
            },
        },
        SyncAction::TrashLocal(_, _) => {
            emit_away(commands, mailbox, id);
            index.delete(mailbox, id);
        },
        SyncAction::DeleteRemote(_, _) => {
            let ghost before = command_views(commands@);
            emit(commands, Command::Store(id.uid, FlagChange::Deleted));
            emit(commands, Command::Remove(mailbox.to_owned(), id));
            emit(commands, Command::IndexDelete(mailbox.to_owned(), id));
            assert(command_views(commands@) =~= before + seq![
                CommandView::Store(id.uid, FlagChange::Deleted),
                CommandView::Remove(mailbox@, id),
                CommandView::IndexDelete(mailbox@, id),
            ]);
            index.delete(mailbox, id);
            drop_remote(remote, mailbox, id);
        },
        SyncAction::DeleteLocal(_, _) => {
            let ghost before = command_views(commands@);
            emit(commands, Command::Remove(mailbox.to_owned(), id));
            emit(commands, Command::IndexDelete(mailbox.to_owned(), id));
            assert(command_views(commands@) =~= before + seq![
                CommandView::Remove(mailbox@, id),
                CommandView::IndexDelete(mailbox@, id),
            ]);
            index.delete(mailbox, id);
        },
        _ => {},
    }
}

/// Settles `\Seen` for the messages `items` of `mailbox`, which is selected
/// and in the epoch `uid_validity`.
pub fn execute_flags(
    index: &Index,
    remote: &mut Vec<Folder>,
    commands: &mut Vec<Command>,
    mailbox: &str,
    items: &Vec<(MaildirID, Vec<Flag>, String)>,
    uid_validity: u32,
)
    ensures
        run_of(*index, final(remote)@, final(commands)@) == run_flags(
            run_of(*index, old(remote)@, old(commands)@),
            mailbox@,
            flag_items(items@),
            uid_validity,
        ),
{
    let n = items.len();
    let ghost start = run_of(*index, remote@, commands@);
    let ghost all = flag_items(items@);
    for i in 0..n
        invariant
            n == items@.len(),
            all == flag_items(items@),
            run_of(*index, remote@, commands@) == run_flags(
                start,
                mailbox@,
                all.take(i as int),
                uid_validity,
            ),
    {
        proof {
            assert(all.take(i + 1).drop_last() == all.take(i as int));
            assert(all.take(i + 1).last() == (
                items@[i as int].0,
                items@[i as int].1@,
                items@[i as int].2@,
            ));
        }
        let id = items[i].0;
        if id.uid_validity != uid_validity {
            emit(commands, Command::Warn(Warning::Mismatch, mailbox.to_owned(), id));
        } else {
            let change = seen_change(items[i].2.as_str(), items[i].1.as_slice());
            emit_seen(commands, id, change);
            change_remote(remote, mailbox, id, change);
        }
    }
    assert(all.take(n as int) == all);
}

/// Links the messages `items` into `mailbox`, which is selected and in the
/// epoch `uid_validity`.
pub fn execute_links(
    index: &mut Index,
    remote: &mut Vec<Folder>,
    commands: &mut Vec<Command>,
    mailbox: &str,
    items: &Vec<(MaildirID, String, Vec<Flag>)>,
    uid_validity: u32,
)
    ensures
        run_of(*final(index), final(remote)@, final(commands)@) == run_links(
            run_of(*old(index), old(remote)@, old(commands)@),
            mailbox@,
            link_items(items@),
            uid_validity,
        ),
{
    let n = items.len();
    let ghost start = run_of(*index, remote@, commands@);
    let ghost all = link_items(items@);
    for i in 0..n
        invariant
            n == items@.len(),
            all == link_items(items@),
            run_of(*index, remote@, commands@) == run_links(
                start,
                mailbox@,
                all.take(i as int),
                uid_validity,
            ),
    {
        proof {
            assert(all.take(i + 1).drop_last() == all.take(i as int));
            assert(all.take(i + 1).last() == (
                items@[i as int].0,
                items@[i as int].1@,
                items@[i as int].2@,
            ));
        }
        let id = items[i].0;
        if id.uid_validity != uid_validity {
            emit(commands, Command::Warn(Warning::Mismatch, mailbox.to_owned(), id));
        } else {
            let rows = index.by_message_id(items[i].1.as_str());
            if rows.len() == 0 {
                emit(commands, Command::Warn(Warning::NoSource, mailbox.to_owned(), id));
            } else {
                let source = &rows[0];
                assert(row_views(rows@)[0] == source@);
                let row = IndexRow {
                    mailbox: mailbox.to_owned(),
                    id,
                    message_id: items[i].1.clone(),
                    flags: source.flags.clone(),
                };
                let change = seen_change(source.flags.as_str(), items[i].2.as_slice());
                let ghost before = command_views(commands@);
                emit(
                    commands,
                    Command::Link(
                        source.mailbox.clone(),
                        source.id,
                        mailbox.to_owned(),
                        id,
                        source.flags.clone(),
                    ),
                );
                emit(commands, Command::IndexSave(copy_row(&row)));
                assert(command_views(commands@) =~= before + seq![
                    CommandView::Link(source.mailbox@, source.id, mailbox@, id, source.flags@),
                    CommandView::IndexSave(row@),
                ]);
                emit_seen(commands, id, change);
                index.save(row);
                change_remote(remote, mailbox, id, change);
            }
        }
    }
    assert(all.take(n as int) == all);
}

/// The commands that ask the server for the messages `ids` of `mailbox`,
/// which is selected and in the epoch `uid_validity`.
pub fn execute_fetch(
    commands: &mut Vec<Command>,
    mailbox: &str,
    ids: &Vec<MaildirID>,
    uid_validity: u32,
) -> (asked: bool)
    ensures
        command_views(final(commands)@) == command_views(old(commands)@) + fetch_commands(
            mailbox@,
            ids@,
            uid_validity,
        ),
        asked == (valid_uids(ids@, uid_validity).len() > 0),
{
    let mut uids: Vec<u32> = Vec::new();
    let n = ids.len();
    let ghost before = command_views(commands@);
    assert(command_views(commands@) =~= before + Seq::<CommandView>::empty());
    for i in 0..n
        invariant
            n == ids@.len(),
            uids@ == valid_uids(ids@.take(i as int), uid_validity),
            command_views(commands@) == before + mismatch_warnings(
                mailbox@,
                ids@.take(i as int),
                uid_validity,
            ),
    {
        proof {
            assert(ids@.take(i + 1).drop_last() == ids@.take(i as int));
        }
        let ghost so_far = mismatch_warnings(mailbox@, ids@.take(i as int), uid_validity);
        if ids[i].uid_validity == uid_validity {
            uids.push(ids[i].uid);
        } else {
            emit(commands, Command::Warn(Warning::Mismatch, mailbox.to_owned(), ids[i]));
            assert(command_views(commands@) =~= before + so_far.push(
                CommandView::Warn(Warning::Mismatch, mailbox@, ids@[i as int]),
            ));
        }
    }
    assert(ids@.take(n as int) == ids@);
    if uids.len() > 0 {
        let ghost warned = mismatch_warnings(mailbox@, ids@, uid_validity);
        let ghost u = uids@;
        emit(commands, Command::Fetch(uids));
        assert(command_views(commands@) =~= before + warned.push(CommandView::Fetch(u)));
        true
    } else {
        false
    }
}

/// Takes the stale messages of the mailboxes `list` away.
pub fn execute_stale(
    index: &mut Index,
    remote: &Vec<Folder>,
    commands: &mut Vec<Command>,
    list: &Vec<(String, Vec<(u32, u32, u64)>)>,
)
    ensures
        run_of(*final(index), remote@, final(commands)@) == run_all_stale(
            run_of(*old(index), remote@, old(commands)@),
            stale_items(list@),
        ),
{
    let n = list.len();
    let ghost start = run_of(*index, remote@, commands@);
    let ghost all = stale_items(list@);
    for i in 0..n
        invariant
            n == list@.len(),
            all == stale_items(list@),
            run_of(*index, remote@, commands@) == run_all_stale(start, all.take(i as int)),
    {
        proof {
            assert(all.take(i + 1).drop_last() == all.take(i as int));
            assert(all.take(i + 1).last() == (list@[i as int].0@, list@[i as int].1@));
        }
        let mailbox = list[i].0.as_str();
        let items = &list[i].1;
        let m = items.len();
        let ghost base = run_of(*index, remote@, commands@);
        for k in 0..m
            invariant
                m == items@.len(),
                run_of(*index, remote@, commands@) == run_stale(
                    base,
                    mailbox@,
                    items@.take(k as int),
                ),
        {
            proof {
                assert(items@.take(k + 1).drop_last() == items@.take(k as int));
            }
            let id = MaildirID::new(items[k].0, items[k].1);
            emit_away(commands, mailbox, id);
            index.delete(mailbox, id);
        }
        assert(items@.take(m as int) == items@);
    }
    assert(all.take(n as int) == all);
}

/// Deals with the messages that the server sent for `mailbox`, which is in
/// the epoch `uid_validity`.
pub fn execute_fetched(
    index: &mut Index,
    remote: &Vec<Folder>,
    commands: &mut Vec<Command>,
    mailbox: &str,
    uid_validity: u32,
    mails: &Vec<FetchedMail>,
)
    ensures
        run_of(*final(index), remote@, final(commands)@) == run_all_fetched(
            run_of(*old(index), remote@, old(commands)@),
            mailbox@,
            uid_validity,
            mails@,
            mails@.len() as int,
        ),
{
    let n = mails.len();
    let ghost start = run_of(*index, remote@, commands@);
    for k in 0..n
        invariant
            n == mails@.len(),
            run_of(*index, remote@, commands@) == run_all_fetched(
                start,
                mailbox@,
                uid_validity,
                mails@,
                k as int,
            ),
    {
        let mail = &mails[k];
        let id = MaildirID::new(uid_validity, mail.uid);
        if mail.stored {
            emit(commands, Command::Warn(Warning::AlreadyStored, mailbox.to_owned(), id));
        } else {
            match read_headers(mail.body.as_slice()) {
                None => {
                    emit(commands, Command::Warn(Warning::Unreadable, mailbox.to_owned(), id));
                },
                Some(headers) => {
                    let flags = imap_flags_to_maildir(String::new(), mail.flags.as_slice());
                    let row = IndexRow {
                        mailbox: mailbox.to_owned(),
                        id,
                        message_id: headers.message_id(mailbox, id),
                        flags: flags.clone(),
                    };
                    let ghost before = command_views(commands@);
                    emit(commands, Command::Save(mailbox.to_owned(), id, flags, k));
                    emit(commands, Command::IndexSave(copy_row(&row)));
                    assert(command_views(commands@) =~= before + seq![
                        CommandView::Save(mailbox@, id, row.flags@, k),
                        CommandView::IndexSave(row@),
                    ]);
                    index.save(row);
                },
            }
        }
    }
}

/// The commands that rewrite the flags of every message that the server is
/// known to have.
pub fn execute_closing(commands: &mut Vec<Command>, remote: &Vec<Folder>)
    ensures
        command_views(final(commands)@) == command_views(old(commands)@) + closing_commands(
            folder_views(remote@),
        ),
{
    let n = remote.len();
    let ghost before = command_views(commands@);
    let ghost all = folder_views(remote@);
    assert(command_views(commands@) =~= before + closing_commands(all.take(0)));
    for i in 0..n
        invariant
            n == remote@.len(),
            all == folder_views(remote@),
            command_views(commands@) == before + closing_commands(all.take(i as int)),
    {
        proof {
            assert(all.take(i + 1).drop_last() == all.take(i as int));
            assert(all.take(i + 1).last() == remote@[i as int]@);
        }
        let ghost done = closing_commands(all.take(i as int));
        match &remote[i].mails {
            Some(mails) => {
                let m = mails.len();
                let ghost target = reconcile_commands(remote@[i as int].name@, mail_views(mails@));
                assert(command_views(commands@) =~= before + done + target.take(0));
                for k in 0..m
                    invariant
                        m == mails@.len(),
                        i < remote@.len(),
                        target == reconcile_commands(remote@[i as int].name@, mail_views(mails@)),
                        command_views(commands@) == before + done + target.take(k as int),
                {
                    emit(
                        commands,
                        Command::Reconcile(
                            remote[i].name.clone(),
                            mails[k].id,
                            copy_flags(mails[k].flags.as_slice()),
                        ),
                    );
                    assert(command_views(commands@) =~= before + done + target.take(k + 1));
                }
                assert(target.take(m as int) == target);
                assert(before + done + target =~= before + (done + target));
            },
            None => {
                assert(before + done =~= before + (done + Seq::<CommandView>::empty()));
            },
        }
    }
    assert(all.take(n as int) == all);
}

/// Where the executor stands.
#[derive(Debug, Clone, Copy, PartialEq, Eq, Structural)]
pub enum Stage {
    /// It can go on to the next action.
    Ready,
    /// It waits for the epoch of the mailbox it asked to select.
    Selecting,
    /// It waits for the messages it asked to fetch.
    Fetching,
    /// The plan is carried out.
    Finished,
}

/// What the caller reports.
#[derive(Debug, Clone, PartialEq, Eq)]
pub enum Event {
    /// The commands given were performed.
    Next,
    /// The mailbox was selected and is in this epoch.
    Selected(u32),
    /// The server sent these messages.
    Fetched(Vec<FetchedMail>),
    /// The commands given were performed, and the user wants the run to end.
    Cancel,
    /// A command could not be performed on the stored messages, and the
    /// commands after it were left out. It is reported besides the report
    /// that the executor waits for.
    Failed,
}

/// What a report says, as plain values.
pub enum EventView {
    Next,
    Selected(u32),
    Fetched(Seq<FetchedMail>),
    Cancel,
    Failed,
}

impl View for Event {
    type V = EventView;

    open spec fn view(&self) -> EventView {
        match *self {
            Event::Next => EventView::Next,
            Event::Selected(uid_validity) => EventView::Selected(uid_validity),
            Event::Fetched(mails) => EventView::Fetched(mails@),
            Event::Cancel => EventView::Cancel,
            Event::Failed => EventView::Failed,
        }
    }
}

/// The executor of a plan.
#[derive(Debug, Clone, PartialEq, Eq)]
pub struct Executor {
    /// The actions to carry out, in their order.
    pub plan: Vec<SyncAction>,
    /// The index of the action to carry out next.
    pub next: usize,
    pub stage: Stage,
    /// The mailbox that is selected, and its epoch.
    pub selected: Option<(String, u32)>,
    /// The trash folder of the server.
    pub trash: Option<String>,
    /// The index as the commands given so far leave it.
    pub index: Index,
    /// The mailboxes of the server, with the messages they are known to hold.
    pub remote: Vec<Folder>,
    /// Whether anything was passed over or failed so far.
    pub skipped: bool,
}

/// Where an executor stands, as plain values.
pub struct ExecutorView {
    pub plan: Seq<ActionView>,
    pub next: usize,
    pub stage: Stage,
    pub selected: Option<(Seq<char>, u32)>,
    pub trash: Option<Seq<char>>,
    pub index: Seq<RowView>,
    pub remote: Seq<FolderView>,
    pub skipped: bool,
}

impl View for Executor {
    type V = ExecutorView;

    open spec fn view(&self) -> ExecutorView {
        ExecutorView {
            plan: action_views(self.plan@),
            next: self.next,
            stage: self.stage,
            selected: match self.selected {
                Some((m, uid_validity)) => Some((m@, uid_validity)),
                None => None,
            },
            trash: optional_name(self.trash),
            index: self.index@,
            remote: folder_views(self.remote@),
            skipped: self.skipped,
        }
    }
}

/// A step of the executor: where it stands afterwards, and what it asks for.
pub struct Step {
    pub state: ExecutorView,
    pub commands: Seq<CommandView>,
}

/// The step that leaves everything as it is.
pub open spec fn idle(s: ExecutorView) -> Step {
    Step { state: s, commands: seq![] }
}

/// The number after `n`, as far as there is one.
pub open spec fn following(n: usize) -> usize {
    if n < usize::MAX {
        (n + 1) as usize
    } else {
        n
    }
}

/// The executor after a run on the action it was at, ready for the next one.
pub open spec fn advanced(s: ExecutorView, r: Run) -> Step {
    Step {
        state: ExecutorView {
            index: r.index,
            remote: r.remote,
            next: following(s.next),
            stage: Stage::Ready,
            ..s
        },
        commands: r.commands,
    }
}

/// The step that carries out the action `a`, with the mailbox it works on
/// selected and in the epoch `uid_validity`.
pub open spec fn performed(s: ExecutorView, a: ActionView, uid_validity: u32) -> Step {
    let r = Run { index: s.index, remote: s.remote, commands: seq![] };
    match a {
        ActionView::TrashRemote(m, id) => advanced(
            s,
            run_single(r, a, m, id, uid_validity, s.trash),
        ),
        ActionView::TrashLocal(m, id) => advanced(
            s,
            run_single(r, a, m, id, uid_validity, s.trash),
        ),
        ActionView::DeleteRemote(m, id) => advanced(
            s,
            run_single(r, a, m, id, uid_validity, s.trash),
        ),
        ActionView::DeleteLocal(m, id) => advanced(
            s,
            run_single(r, a, m, id, uid_validity, s.trash),
        ),
        ActionView::UpdateFlags(m, items) => advanced(s, run_flags(r, m, items, uid_validity)),
        ActionView::Hardlink(m, items) => advanced(s, run_links(r, m, items, uid_validity)),
        ActionView::Fetch(m, ids) => {
            if valid_uids(ids, uid_validity).len() > 0 {
                Step {
                    state: ExecutorView { stage: Stage::Fetching, ..s },
                    commands: fetch_commands(m, ids, uid_validity),
                }
            } else {
                advanced(s, Run { commands: fetch_commands(m, ids, uid_validity), ..r })
            }
        },
        ActionView::RemoveStale(list) => advanced(s, run_all_stale(r, list)),
    }
}

/// The commands that end the work with a mailbox: it is expunged, if one is
/// selected.
pub open spec fn leaving(selected: Option<(Seq<char>, u32)>) -> Seq<CommandView> {
    match selected {
        Some(_) => seq![CommandView::Expunge],
        None => seq![],
    }
}

/// The mailbox that an action works on.
pub open spec fn mailbox_of(a: ActionView) -> Option<Seq<char>> {
    crate::plan::action_mailbox(a)
}

/// What the executor does when told to go on. At the end of the plan it
/// rewrites the flags of the messages that the server still has, leaves the
/// selected mailbox and logs out. An action on the selected mailbox, or on
/// none, is carried out. For an action on another mailbox the selected one
/// is left and the other one selected first.
pub open spec fn stepped_ready(s: ExecutorView) -> Step {
    if s.next >= s.plan.len() {
        Step {
            state: ExecutorView { stage: Stage::Finished, ..s },
            commands: closing_commands(s.remote) + leaving(s.selected).push(CommandView::Logout),
        }
    } else {
        let a = s.plan[s.next as int];
        match mailbox_of(a) {
            None => performed(s, a, 0),
            Some(m) => match s.selected {
                Some((current, uid_validity)) => if current == m {
                    performed(s, a, uid_validity)
                } else {
                    Step {
                        state: ExecutorView { stage: Stage::Selecting, ..s },
                        commands: leaving(s.selected).push(CommandView::Select(m)),
                    }
                },
                None => Step {
                    state: ExecutorView { stage: Stage::Selecting, ..s },
                    commands: seq![CommandView::Select(m)],
                },
            },
        }
    }
}

/// Whether one of the commands is a warning.
pub open spec fn warns(commands: Seq<CommandView>) -> bool {
    exists|k: int| 0 <= k < commands.len() && (#[trigger] commands[k]) is Warn
}

/// What the executor does with a report of its caller. A failure is taken
/// note of. Otherwise the executor goes on as the report asks for, and takes
/// note of it where it has to warn.
pub open spec fn stepped(s: ExecutorView, e: EventView) -> Step {
    if e is Failed {
        Step { state: ExecutorView { skipped: true, ..s }, commands: seq![] }
    } else {
        let t = reacted(s, e);
        Step {
            state: ExecutorView { skipped: s.skipped || warns(t.commands), ..t.state },
            commands: t.commands,
        }
    }
}

/// How the executor goes on after a report of its caller. A wish to end the
/// run is granted between two actions: the selected mailbox is left, and the
/// executor logs out without going on.
pub open spec fn reacted(s: ExecutorView, e: EventView) -> Step {
    match (s.stage, e) {
        (Stage::Ready, EventView::Next) => stepped_ready(s),
        (Stage::Ready, EventView::Cancel) => Step {
            state: ExecutorView { stage: Stage::Finished, ..s },
            commands: leaving(s.selected).push(CommandView::Logout),
        },
        (Stage::Selecting, EventView::Selected(uid_validity)) => {
            if s.next < s.plan.len() {
                match mailbox_of(s.plan[s.next as int]) {
                    Some(m) => performed(
                        ExecutorView { selected: Some((m, uid_validity)), ..s },
                        s.plan[s.next as int],
                        uid_validity,
                    ),
                    None => idle(s),
                }
            } else {
                idle(s)
            }
        },
        (Stage::Fetching, EventView::Fetched(mails)) => {
            match s.selected {
                Some((m, uid_validity)) => advanced(
                    s,
                    run_all_fetched(
                        Run { index: s.index, remote: s.remote, commands: seq![] },
                        m,
                        uid_validity,
                        mails,
                        mails.len() as int,
                    ),
                ),
                None => idle(s),
            }
        },
        _ => idle(s),
    }
}

fn has_warning(commands: &Vec<Command>) -> (r: bool)
    ensures
        r == warns(command_views(commands@)),
{
    let n = commands.len();
    let ghost v = command_views(commands@);
    for i in 0..n
        invariant
            n == commands@.len(),
            v == command_views(commands@),
            forall|k: int| 0 <= k < i ==> !((#[trigger] v[k]) is Warn),
    {
        assert(v[i as int] == commands@[i as int]@);
        match &commands[i] {
            Command::Warn(_, _, _) => {
                return true;
            },
            _ => {},
        }
    }
    false
}

impl Executor {
    /// The executor of `plan`, with nothing selected and nothing done.
    pub fn new(plan: Vec<SyncAction>, index: Index, remote: Vec<Folder>, trash: Option<String>)
        -> (e: Self)
        ensures
            e@ == (ExecutorView {
                plan: action_views(plan@),
                next: 0,
                stage: Stage::Ready,
                selected: None,
                trash: optional_name(trash),
                index: index@,
                remote: folder_views(remote@),
                skipped: false,
            }),
    {
        Executor {
            plan,
            next: 0,
            stage: Stage::Ready,
            selected: None,
            trash,
            index,
            remote,
            skipped: false,
        }
    }

    /// Whether every action went through so far: nothing was passed over with
    /// a warning, and no failure was reported.
    pub fn succeeded(&self) -> (r: bool)
        ensures
            r == !self@.skipped,
    {
        !self.skipped
    }

    /// Whether the plan is carried out.
    pub fn is_finished(&self) -> (r: bool)
        ensures
            r == (self@.stage == Stage::Finished),
    {
        match self.stage {
            Stage::Finished => true,
            _ => false,
        }
    }

    fn advance(&mut self)
        ensures
            *final(self) == (Executor {
                next: following(old(self).next),
                stage: Stage::Ready,
                ..*old(self)
            }),
    {
        if self.next < usize::MAX {
            self.next = self.next + 1;
        }
        self.stage = Stage::Ready;
    }

    fn perform(&mut self, uid_validity: u32) -> (commands: Vec<Command>)
        requires
            old(self).next < old(self).plan@.len(),
        ensures
            final(self)@ == performed(
                old(self)@,
                old(self)@.plan[old(self).next as int],
                uid_validity,
            ).state,
            command_views(commands@) == performed(
                old(self)@,
                old(self)@.plan[old(self).next as int],
                uid_validity,
            ).commands,
    {
        let mut commands: Vec<Command> = Vec::new();
        assert(command_views(commands@) =~= Seq::<CommandView>::empty());
        let asked = match &self.plan[self.next] {
            SyncAction::TrashRemote(m, id) => {
                execute_single(
                    &mut self.index,
                    &mut self.remote,
                    &mut commands,
                    &self.plan[self.next],
                    m.as_str(),
                    *id,
                    uid_validity,
                    &self.trash,
                );
                false
            },
            SyncAction::TrashLocal(m, id) => {
                execute_single(
                    &mut self.index,
                    &mut self.remote,
                    &mut commands,
                    &self.plan[self.next],
                    m.as_str(),
                    *id,
                    uid_validity,
                    &self.trash,
                );
                false
            },
            SyncAction::DeleteRemote(m, id) => {
                execute_single(
                    &mut self.index,
                    &mut self.remote,
                    &mut commands,
                    &self.plan[self.next],
                    m.as_str(),
                    *id,
                    uid_validity,
                    &self.trash,
                );
                false
            },
            SyncAction::DeleteLocal(m, id) => {
                execute_single(
                    &mut self.index,
                    &mut self.remote,
                    &mut commands,
                    &self.plan[self.next],
                    m.as_str(),
                    *id,
                    uid_validity,
                    &self.trash,
                );
                false
            },
            SyncAction::UpdateFlags(m, items) => {
                execute_flags(
                    &self.index,
                    &mut self.remote,
                    &mut commands,
                    m.as_str(),
                    items,
                    uid_validity,
                );
                false
            },
            SyncAction::Hardlink(m, items) => {
                execute_links(
                    &mut self.index,
                    &mut self.remote,
                    &mut commands,
                    m.as_str(),
                    items,
                    uid_validity,
                );
                false
            },
            SyncAction::Fetch(m, ids) => {
                let asked = execute_fetch(&mut commands, m.as_str(), ids, uid_validity);
                assert(command_views(commands@) =~= fetch_commands(m@, ids@, uid_validity));
                asked
            },
            SyncAction::RemoveStale(list) => {
                execute_stale(&mut self.index, &self.remote, &mut commands, list);
                false
            },
        };
        if asked {
            self.stage = Stage::Fetching;
        } else {
            self.advance();
        }
        commands
    }

    /// Takes a report of the caller and gives the commands to perform next.
    /// The caller performs them in their order and reports `Next`, or
    /// `Cancel` to end the run; the answer to a `Select` or a `Fetch`, which
    /// is always the last command given, is reported in place of `Next`. A
    /// report that the executor does not wait for changes nothing.
    pub fn step(&mut self, event: Event) -> (commands: Vec<Command>)
        ensures
            final(self)@ == stepped(old(self)@, event@).state,
            command_views(commands@) == stepped(old(self)@, event@).commands,
    {
        match event {
            Event::Failed => {
                self.skipped = true;
                let commands: Vec<Command> = Vec::new();
                assert(command_views(commands@) =~= Seq::<CommandView>::empty());
                commands
            },
            event => {
                let commands = self.react(event);
                if has_warning(&commands) {
                    self.skipped = true;
                }
                commands
            },
        }
    }

    fn react(&mut self, event: Event) -> (commands: Vec<Command>)
        requires
            !(event is Failed),
        ensures
            final(self)@ == reacted(old(self)@, event@).state,
            command_views(commands@) == reacted(old(self)@, event@).commands,
    {
        match (self.stage, event) {
            (Stage::Ready, Event::Next) => {
                if self.next >= self.plan.len() {
                    let mut commands: Vec<Command> = Vec::new();
                    assert(command_views(commands@) =~= Seq::<CommandView>::empty());
                    execute_closing(&mut commands, &self.remote);
                    if self.selected.is_some() {
                        emit(&mut commands, Command::Expunge);
                    }
                    emit(&mut commands, Command::Logout);
                    self.stage = Stage::Finished;
                    assert(command_views(commands@) =~= closing_commands(self@.remote) + leaving(
                        self@.selected,
                    ).push(CommandView::Logout));
                    return commands;
                }
                let target: Option<String> = match self.plan[self.next].mailbox() {
                    Some(m) => Some(m.to_owned()),
                    None => None,
                };
                match target {
                    None => self.perform(0),
                    Some(m) => {
                        let current: Option<u32> = match &self.selected {
                            Some((name, uid_validity)) => if str_eq(name.as_str(), m.as_str()) {
                                Some(*uid_validity)
                            } else {
                                None
                            },
                            None => None,
                        };
                        match current {
                            Some(uid_validity) => self.perform(uid_validity),
                            None => {
                                let mut commands: Vec<Command> = Vec::new();
                                assert(command_views(commands@) =~= Seq::<CommandView>::empty());
                                if self.selected.is_some() {
                                    emit(&mut commands, Command::Expunge);
                                }
                                emit(&mut commands, Command::Select(m));
                                self.stage = Stage::Selecting;
                                assert(command_views(commands@) =~= leaving(
                                    old(self)@.selected,
                                ).push(CommandView::Select(m@)));
                                commands
                            },
                        }
                    },
                }
            },
            (Stage::Ready, Event::Cancel) => {
                let mut commands: Vec<Command> = Vec::new();
                assert(command_views(commands@) =~= Seq::<CommandView>::empty());
                if self.selected.is_some() {
                    emit(&mut commands, Command::Expunge);
                }
                emit(&mut commands, Command::Logout);
                self.stage = Stage::Finished;
                commands
            },
            (Stage::Selecting, Event::Selected(uid_validity)) => {
                if self.next < self.plan.len() {
                    let target: Option<String> = match self.plan[self.next].mailbox() {
                        Some(m) => Some(m.to_owned()),
                        None => None,
                    };
                    match target {
                        Some(m) => {
                            self.selected = Some((m, uid_validity));
                            self.perform(uid_validity)
                        },
                        None => {
                            let commands: Vec<Command> = Vec::new();
                            assert(command_views(commands@) =~= Seq::<CommandView>::empty());
                            commands
                        },
                    }
                } else {
                    let commands: Vec<Command> = Vec::new();
                    assert(command_views(commands@) =~= Seq::<CommandView>::empty());
                    commands
                }
            },
            (Stage::Fetching, Event::Fetched(mails)) => {
                let mut commands: Vec<Command> = Vec::new();
                assert(command_views(commands@) =~= Seq::<CommandView>::empty());
                match &self.selected {
                    Some((m, uid_validity)) => {
                        execute_fetched(
                            &mut self.index,
                            &self.remote,
                            &mut commands,
                            m.as_str(),
                            *uid_validity,
                            &mails,
                        );
                        self.advance();
                    },
                    None => {},
                }
                commands
            },
            _ => {
                let commands: Vec<Command> = Vec::new();
                assert(command_views(commands@) =~= Seq::<CommandView>::empty());
                commands
            },
        }
    }
}

/// Whether a command changes the index.
pub open spec fn touches_index(c: CommandView) -> bool {
    c is IndexSave || c is IndexDelete
}

/// Whether the command `c` may follow `prev`: a row is saved right after its
/// message was stored or linked with the very flags of the row, and deleted
/// right after its message was deleted.
pub open spec fn settled_by(prev: CommandView, c: CommandView) -> bool {
    match c {
        CommandView::IndexSave(row) => match prev {
            CommandView::Link(_, _, m, id, f) => m == row.mailbox && id == row.id && f
                == row.flags,
            CommandView::Save(m, id, f, _) => m == row.mailbox && id == row.id && f == row.flags,
            _ => false,
        },
        CommandView::IndexDelete(m, id) => prev == CommandView::Remove(m, id),
        _ => true,
    }
}

/// Whether the index follows the store in `commands`: no row is saved before
/// its message is stored, and none is deleted before its message is.
pub open spec fn in_order(commands: Seq<CommandView>) -> bool {
    forall|k: int|
        0 <= k < commands.len() && touches_index(#[trigger] commands[k]) ==> k > 0 && settled_by(
            commands[k - 1],
            commands[k],
        )
}

/// Commands in order, followed by commands in order that do not start with a
/// change of the index, are in order.
pub proof fn lemma_in_order_append(a: Seq<CommandView>, b: Seq<CommandView>)
    requires
        in_order(a),
        in_order(b),
        b.len() > 0 ==> !touches_index(b[0]),
    ensures
        in_order(a + b),
{
    let c = a + b;
    assert forall|k: int| 0 <= k < c.len() && touches_index(#[trigger] c[k]) implies k > 0
        && settled_by(c[k - 1], c[k]) by {
        if k < a.len() {
            assert(c[k] == a[k]);
            assert(c[k - 1] == a[k - 1]);
        } else {
            assert(c[k] == b[k - a.len()]);
            assert(k - a.len() > 0);
            assert(c[k - 1] == b[k - a.len() - 1]);
        }
    }
}

proof fn lemma_in_order_push(a: Seq<CommandView>, c: CommandView)
    requires
        in_order(a),
        !touches_index(c),
    ensures
        in_order(a.push(c)),
{
    lemma_in_order_append(a, seq![c]);
    assert(a.push(c) =~= a + seq![c]);
}

proof fn lemma_away_in_order(a: Seq<CommandView>, mailbox: Seq<char>, id: MaildirID)
    requires
        in_order(a),
    ensures
        in_order(a + away(mailbox, id)),
{
    lemma_in_order_append(a, away(mailbox, id));
}

proof fn lemma_seen_in_order(a: Seq<CommandView>, id: MaildirID, change: SeenChange)
    requires
        in_order(a),
    ensures
        in_order(a + seen_commands(id, change)),
{
    lemma_in_order_append(a, seen_commands(id, change));
}

proof fn lemma_single_in_order(
    r: Run,
    a: ActionView,
    mailbox: Seq<char>,
    id: MaildirID,
    uid_validity: u32,
    trash: Option<Seq<char>>,
)
    requires
        in_order(r.commands),
    ensures
        in_order(run_single(r, a, mailbox, id, uid_validity, trash).commands),
{
    let w = CommandView::Warn(Warning::Mismatch, mailbox, id);
    lemma_in_order_push(r.commands, w);
    lemma_in_order_push(r.commands, CommandView::Warn(Warning::NoTrash, mailbox, id));
    lemma_away_in_order(r.commands, mailbox, id);
    match trash {
        Some(t) => {
            lemma_in_order_push(r.commands, CommandView::Move(id.uid, t));
            lemma_away_in_order(r.commands.push(CommandView::Move(id.uid, t)), mailbox, id);
        },
        None => {},
    }
    lemma_in_order_append(
        r.commands,
        seq![
            CommandView::Store(id.uid, FlagChange::Deleted),
            CommandView::Remove(mailbox, id),
            CommandView::IndexDelete(mailbox, id),
        ],
    );
    lemma_in_order_append(
        r.commands,
        seq![CommandView::Remove(mailbox, id), CommandView::IndexDelete(mailbox, id)],
    );
}

proof fn lemma_flags_in_order(
    r: Run,
    mailbox: Seq<char>,
    items: Seq<(MaildirID, Seq<Flag>, Seq<char>)>,
    uid_validity: u32,
)
    requires
        in_order(r.commands),
    ensures
        in_order(run_flags(r, mailbox, items, uid_validity).commands),
    decreases items.len(),
{
    if items.len() > 0 {
        lemma_flags_in_order(r, mailbox, items.drop_last(), uid_validity);
        let p = run_flags(r, mailbox, items.drop_last(), uid_validity);
        let (id, remote_flags, local_flags) = items.last();
        lemma_in_order_push(p.commands, CommandView::Warn(Warning::Mismatch, mailbox, id));
        lemma_seen_in_order(p.commands, id, seen_change_of(local_flags, remote_flags));
    }
}

proof fn lemma_links_in_order(
    r: Run,
    mailbox: Seq<char>,
    items: Seq<(MaildirID, Seq<char>, Seq<Flag>)>,
    uid_validity: u32,
)
    requires
        in_order(r.commands),
    ensures
        in_order(run_links(r, mailbox, items, uid_validity).commands),
    decreases items.len(),
{
    if items.len() > 0 {
        lemma_links_in_order(r, mailbox, items.drop_last(), uid_validity);
        let p = run_links(r, mailbox, items.drop_last(), uid_validity);
        let (id, message_id, remote_flags) = items.last();
        lemma_in_order_push(p.commands, CommandView::Warn(Warning::Mismatch, mailbox, id));
        lemma_in_order_push(p.commands, CommandView::Warn(Warning::NoSource, mailbox, id));
        let rows = rows_with(p.index, message_id);
        if rows.len() > 0 {
            let source = rows[0];
            let row = RowView { mailbox, id, message_id, flags: source.flags };
            let pair = seq![
                CommandView::Link(source.mailbox, source.id, mailbox, id, source.flags),
                CommandView::IndexSave(row),
            ];
            lemma_in_order_append(p.commands, pair);
            lemma_seen_in_order(
                p.commands + pair,
                id,
                seen_change_of(source.flags, remote_flags),
            );
        }
    }
}

proof fn lemma_stale_in_order(r: Run, mailbox: Seq<char>, items: Seq<(u32, u32, u64)>)
    requires
        in_order(r.commands),
    ensures
        in_order(run_stale(r, mailbox, items).commands),
    decreases items.len(),
{
    if items.len() > 0 {
        lemma_stale_in_order(r, mailbox, items.drop_last());
        let p = run_stale(r, mailbox, items.drop_last());
        let id = MaildirID { uid_validity: items.last().0, uid: items.last().1 };
        lemma_away_in_order(p.commands, mailbox, id);
    }
}

proof fn lemma_all_stale_in_order(r: Run, list: Seq<(Seq<char>, Seq<(u32, u32, u64)>)>)
    requires
        in_order(r.commands),
    ensures
        in_order(run_all_stale(r, list).commands),
    decreases list.len(),
{
    if list.len() > 0 {
        lemma_all_stale_in_order(r, list.drop_last());
        lemma_stale_in_order(run_all_stale(r, list.drop_last()), list.last().0, list.last().1);
    }
}

proof fn lemma_fetched_in_order(
    r: Run,
    mailbox: Seq<char>,
    uid_validity: u32,
    mails: Seq<FetchedMail>,
    n: int,
)
    requires
        in_order(r.commands),
    ensures
        in_order(run_all_fetched(r, mailbox, uid_validity, mails, n).commands),
    decreases n,
{
    if n > 0 {
        lemma_fetched_in_order(r, mailbox, uid_validity, mails, n - 1);
        let p = run_all_fetched(r, mailbox, uid_validity, mails, n - 1);
        let mail = mails[n - 1];
        let id = MaildirID { uid_validity, uid: mail.uid };
        lemma_in_order_push(p.commands, CommandView::Warn(Warning::AlreadyStored, mailbox, id));
        lemma_in_order_push(p.commands, CommandView::Warn(Warning::Unreadable, mailbox, id));
        match parsed_headers(mail.body@) {
            Some(headers) => {
                let flags = mirrored(seq![], mail.flags@);
                let row = RowView {
                    mailbox,
                    id,
                    message_id: message_id_of(header_of(headers, "Message-ID"@), mailbox, id),
                    flags,
                };
                lemma_in_order_append(
                    p.commands,
                    seq![
                        CommandView::Save(mailbox, id, flags, (n - 1) as usize),
                        CommandView::IndexSave(row),
                    ],
                );
            },
            None => {},
        }
    }
}

proof fn lemma_warnings_in_order(mailbox: Seq<char>, ids: Seq<MaildirID>, uid_validity: u32)
    ensures
        in_order(mismatch_warnings(mailbox, ids, uid_validity)),
        in_order(fetch_commands(mailbox, ids, uid_validity)),
    decreases ids.len(),
{
    if ids.len() > 0 {
        lemma_warnings_in_order(mailbox, ids.drop_last(), uid_validity);
        lemma_in_order_push(
            mismatch_warnings(mailbox, ids.drop_last(), uid_validity),
            CommandView::Warn(Warning::Mismatch, mailbox, ids.last()),
        );
    }
    lemma_in_order_push(
        mismatch_warnings(mailbox, ids, uid_validity),
        CommandView::Fetch(valid_uids(ids, uid_validity)),
    );
}

proof fn lemma_closing_in_order(folders: Seq<FolderView>)
    ensures
        forall|k: int|
            0 <= k < closing_commands(folders).len() ==> !touches_index(
                #[trigger] closing_commands(folders)[k],
            ),
    decreases folders.len(),
{
    if folders.len() > 0 {
        lemma_closing_in_order(folders.drop_last());
        let before = closing_commands(folders.drop_last());
        let f = folders.last();
        let c = closing_commands(folders);
        assert forall|k: int| 0 <= k < c.len() implies !touches_index(#[trigger] c[k]) by {
            if k < before.len() {
                assert(c[k] == before[k]);
            } else {
                match f.mails {
                    Some(mails) => {
                        assert(c[k] == reconcile_commands(f.name, mails)[k - before.len()]);
                    },
                    None => {},
                }
            }
        }
    }
}

proof fn lemma_performed_in_order(s: ExecutorView, a: ActionView, uid_validity: u32)
    ensures
        in_order(performed(s, a, uid_validity).commands),
{
    let r = Run { index: s.index, remote: s.remote, commands: seq![] };
    match a {
        ActionView::TrashRemote(m, id) => lemma_single_in_order(
            r,
            a,
            m,
            id,
            uid_validity,
            s.trash,
        ),
        ActionView::TrashLocal(m, id) => lemma_single_in_order(r, a, m, id, uid_validity, s.trash),
        ActionView::DeleteRemote(m, id) => lemma_single_in_order(
            r,
            a,
            m,
            id,
            uid_validity,
            s.trash,
        ),
        ActionView::DeleteLocal(m, id) => lemma_single_in_order(
            r,
            a,
            m,
            id,
            uid_validity,
            s.trash,
        ),
        ActionView::UpdateFlags(m, items) => lemma_flags_in_order(r, m, items, uid_validity),
        ActionView::Hardlink(m, items) => lemma_links_in_order(r, m, items, uid_validity),
        ActionView::Fetch(m, ids) => lemma_warnings_in_order(m, ids, uid_validity),
        ActionView::RemoveStale(list) => lemma_all_stale_in_order(r, list),
    }
}

/// The index follows the store: whatever the executor is told, in the
/// commands it gives no row is saved before its message is stored or linked
/// under the identifier and with the flags of the row, and no row is deleted
/// before its message is deleted.
pub proof fn lemma_step_in_order(s: ExecutorView, e: EventView)
    ensures
        in_order(stepped(s, e).commands),
{
    if !(e is Failed) {
        lemma_reacted_in_order(s, e);
    }
}

proof fn lemma_reacted_in_order(s: ExecutorView, e: EventView)
    ensures
        in_order(reacted(s, e).commands),
{
    match (s.stage, e) {
        (Stage::Ready, EventView::Next) => {
            if s.next >= s.plan.len() {
                lemma_closing_in_order(s.remote);
                let c = closing_commands(s.remote) + leaving(s.selected).push(
                    CommandView::Logout,
                );
                assert forall|k: int| 0 <= k < c.len() implies !touches_index(#[trigger] c[k]) by {
                    if k < closing_commands(s.remote).len() {
                        assert(c[k] == closing_commands(s.remote)[k]);
                    }
                }
            } else {
                let a = s.plan[s.next as int];
                lemma_performed_in_order(s, a, 0);
                match s.selected {
                    Some((current, uid_validity)) => {
                        lemma_performed_in_order(s, a, uid_validity);
                    },
                    None => {},
                }
            }
        },
        (Stage::Ready, EventView::Cancel) => {},
        (Stage::Selecting, EventView::Selected(uid_validity)) => {
            if s.next < s.plan.len() {
                match mailbox_of(s.plan[s.next as int]) {
                    Some(m) => {
                        lemma_performed_in_order(
                            ExecutorView { selected: Some((m, uid_validity)), ..s },
                            s.plan[s.next as int],
                            uid_validity,
                        );
                    },
                    None => {},
                }
            }
        },
        (Stage::Fetching, EventView::Fetched(mails)) => {
            match s.selected {
                Some((m, uid_validity)) => {
                    lemma_fetched_in_order(
                        Run { index: s.index, remote: s.remote, commands: seq![] },
                        m,
                        uid_validity,
                        mails,
                        mails.len() as int,
                    );
                },
                None => {},
            }
        },
        _ => {},
    }
}

/// An action on a message of another epoch than the one its mailbox is in is
/// never applied: it adds a warning, and nothing else changes.
pub proof fn lemma_mismatch_only_warns(
    r: Run,
    a: ActionView,
    mailbox: Seq<char>,
    id: MaildirID,
    uid_validity: u32,
    trash: Option<Seq<char>>,
)
    requires
        id.uid_validity != uid_validity,
    ensures
        run_single(r, a, mailbox, id, uid_validity, trash) == (Run {
            commands: r.commands.push(CommandView::Warn(Warning::Mismatch, mailbox, id)),
            ..r
        }),
        forall|remote_flags: Seq<Flag>, local_flags: Seq<char>|
            #[trigger] run_flag(r, mailbox, (id, remote_flags, local_flags), uid_validity) == (Run {
                commands: r.commands.push(CommandView::Warn(Warning::Mismatch, mailbox, id)),
                ..r
            }),
        forall|message_id: Seq<char>, remote_flags: Seq<Flag>|
            #[trigger] run_link(r, mailbox, (id, message_id, remote_flags), uid_validity) == (Run {
                commands: r.commands.push(CommandView::Warn(Warning::Mismatch, mailbox, id)),
                ..r
            }),
{
}

/// The argument of the `UID STORE` command for a change.
pub open spec fn store_text(change: FlagChange) -> Seq<char> {
    match change {
        FlagChange::Deleted => "+FLAGS.SILENT (\\Deleted)"@,
        FlagChange::SeenAdd => "+FLAGS.SILENT (\\Seen)"@,
        FlagChange::SeenRemove => "-FLAGS.SILENT (\\Seen)"@,
    }
}

/// The argument of the `UID STORE` command for a change.
pub fn store_query(change: FlagChange) -> (r: &'static str)
    ensures
        r@ == store_text(change),
{
    match change {
        FlagChange::Deleted => "+FLAGS.SILENT (\\Deleted)",
        FlagChange::SeenAdd => "+FLAGS.SILENT (\\Seen)",
        FlagChange::SeenRemove => "-FLAGS.SILENT (\\Seen)",
    }
}

/// The UIDs in decimal, with commas between them.
pub open spec fn uid_list(uids: Seq<u32>) -> Seq<char>
    decreases uids.len(),
{
    if uids.len() == 0 {
        seq![]
    } else if uids.len() == 1 {
        crate::text::decimal(uids[0] as nat)
    } else {
        uid_list(uids.drop_last()) + seq![','] + crate::text::decimal(uids.last() as nat)
    }
}

/// The UID set of a `UID FETCH` command for the UIDs.
pub fn uid_set(uids: &Vec<u32>) -> (r: String)
    ensures
        r@ == uid_list(uids@),
{
    let mut r = String::new();
    let n = uids.len();
    for i in 0..n
        invariant
            n == uids@.len(),
            r@ == uid_list(uids@.take(i as int)),
    {
        proof {
            assert(uids@.take(i + 1).drop_last() == uids@.take(i as int));
            if i == 0 {
                assert(uids@.take(1)[0] == uids@[0]);
            }
        }
        if i > 0 {
            crate::text::push_char(&mut r, ',');
        }
        crate::text::push_str(&mut r, crate::text::u32_to_string(uids[i]).as_str());
    }
    assert(uids@.take(n as int) == uids@);
    r
}

} // verus!
