//! The planner of the two-way synchronisation: what has to be done to bring
//! the server, the stored messages and the index in line, given what the
//! server lists and what the index holds.

use vstd::prelude::*;
use crate::flags::{copy_flags, has_flag_char, holds_flag, Flag, DELETE, SEEN, TRASHED};
use crate::id::{pack, MaildirID};
use crate::index::{row_views, rows_in, rows_with, rows_without, Index, IndexRow, RowView};
use crate::mail::{parsed_header, read_header};
use crate::mid::{is_fallback, is_fallback_mid, message_id_of, message_id_or_fallback};
use crate::text::{contains_char, str_eq, views};

verus! {

/// A message as the server lists it: its UID, its flags, and the bytes of its
/// `Message-ID` header line.
#[derive(Debug, Clone, PartialEq, Eq)]
pub struct RemoteMessage {
    pub uid: u32,
    pub flags: Vec<Flag>,
    pub header: Vec<u8>,
}

/// A message on the server: the identifier it is known under, where it is,
/// and its flags.
#[derive(Debug, Clone, PartialEq, Eq)]
pub struct RemoteMail {
    pub message_id: String,
    pub id: MaildirID,
    pub flags: Vec<Flag>,
}

/// A mailbox of the server. `mails` holds its messages, no two under the same
/// identifier; it is `None` where the mailbox is left out of this run.
#[derive(Debug, Clone, PartialEq, Eq)]
pub struct Folder {
    pub name: String,
    pub is_trash: bool,
    pub mails: Option<Vec<RemoteMail>>,
}

/// One step of the synchronisation.
#[derive(Debug, Clone, PartialEq, Eq)]
pub enum SyncAction {
    /// Move the message to the trash folder of the server, and away locally.
    TrashRemote(String, MaildirID),
    /// Move the message away locally; the server no longer has it.
    TrashLocal(String, MaildirID),
    /// Delete the message on the server and locally.
    DeleteRemote(String, MaildirID),
    /// Delete the message locally; the server no longer has it.
    DeleteLocal(String, MaildirID),
    /// Settle `\Seen` for messages of a mailbox: for each its identifier, the
    /// server's flags and the local flag string.
    UpdateFlags(String, Vec<(MaildirID, Vec<Flag>, String)>),
    /// Link messages into a mailbox from copies stored elsewhere: for each its
    /// new identifier, the identifier it is known under and the server's
    /// flags.
    Hardlink(String, Vec<(MaildirID, String, Vec<Flag>)>),
    /// Fetch messages of a mailbox from the server.
    Fetch(String, Vec<MaildirID>),
    /// Remove the messages that the server no longer has: for each mailbox
    /// their epoch, UID and packed identifier.
    RemoveStale(Vec<(String, Vec<(u32, u32, u64)>)>),
}

/// What is known of a message on the server, as plain values.
pub struct RemoteMailView {
    pub message_id: Seq<char>,
    pub id: MaildirID,
    pub flags: Seq<Flag>,
}

/// What is known of a mailbox of the server, as plain values.
pub struct FolderView {
    pub name: Seq<char>,
    pub is_trash: bool,
    pub mails: Option<Seq<RemoteMailView>>,
}

/// What an action says, as plain values.
pub enum ActionView {
    TrashRemote(Seq<char>, MaildirID),
    TrashLocal(Seq<char>, MaildirID),
    DeleteRemote(Seq<char>, MaildirID),
    DeleteLocal(Seq<char>, MaildirID),
    UpdateFlags(Seq<char>, Seq<(MaildirID, Seq<Flag>, Seq<char>)>),
    Hardlink(Seq<char>, Seq<(MaildirID, Seq<char>, Seq<Flag>)>),
    Fetch(Seq<char>, Seq<MaildirID>),
    RemoveStale(Seq<(Seq<char>, Seq<(u32, u32, u64)>)>),
}

impl View for RemoteMail {
    type V = RemoteMailView;

    open spec fn view(&self) -> RemoteMailView {
        RemoteMailView { message_id: self.message_id@, id: self.id, flags: self.flags@ }
    }
}

/// What is known of the messages, in their order.
pub open spec fn mail_views(mails: Seq<RemoteMail>) -> Seq<RemoteMailView> {
    mails.map_values(|m: RemoteMail| m@)
}

impl View for Folder {
    type V = FolderView;

    open spec fn view(&self) -> FolderView {
        FolderView {
            name: self.name@,
            is_trash: self.is_trash,
            mails: match self.mails {
                Some(m) => Some(mail_views(m@)),
                None => None,
            },
        }
    }
}

/// What is known of the mailboxes, in their order.
pub open spec fn folder_views(folders: Seq<Folder>) -> Seq<FolderView> {
    folders.map_values(|f: Folder| f@)
}

/// The messages listed for their flags, as plain values.
pub open spec fn flag_items(v: Seq<(MaildirID, Vec<Flag>, String)>) -> Seq<
    (MaildirID, Seq<Flag>, Seq<char>),
> {
    v.map_values(|t: (MaildirID, Vec<Flag>, String)| (t.0, t.1@, t.2@))
}

/// The messages listed for a link, as plain values.
pub open spec fn link_items(v: Seq<(MaildirID, String, Vec<Flag>)>) -> Seq<
    (MaildirID, Seq<char>, Seq<Flag>),
> {
    v.map_values(|t: (MaildirID, String, Vec<Flag>)| (t.0, t.1@, t.2@))
}

/// The messages listed for removal, as plain values.
pub open spec fn stale_items(v: Seq<(String, Vec<(u32, u32, u64)>)>) -> Seq<
    (Seq<char>, Seq<(u32, u32, u64)>),
> {
    v.map_values(|t: (String, Vec<(u32, u32, u64)>)| (t.0@, t.1@))
}

impl View for SyncAction {
    type V = ActionView;

    open spec fn view(&self) -> ActionView {
        match *self {
            SyncAction::TrashRemote(m, id) => ActionView::TrashRemote(m@, id),
            SyncAction::TrashLocal(m, id) => ActionView::TrashLocal(m@, id),
            SyncAction::DeleteRemote(m, id) => ActionView::DeleteRemote(m@, id),
            SyncAction::DeleteLocal(m, id) => ActionView::DeleteLocal(m@, id),
            SyncAction::UpdateFlags(m, v) => ActionView::UpdateFlags(m@, flag_items(v@)),
            SyncAction::Hardlink(m, v) => ActionView::Hardlink(m@, link_items(v@)),
            SyncAction::Fetch(m, v) => ActionView::Fetch(m@, v@),
            SyncAction::RemoveStale(v) => ActionView::RemoveStale(stale_items(v@)),
        }
    }
}

/// What the actions say, in their order.
pub open spec fn action_views(actions: Seq<SyncAction>) -> Seq<ActionView> {
    actions.map_values(|a: SyncAction| a@)
}

/// The mailbox that an action works on; none for the removal of stale
/// messages, which names its mailboxes one by one.
pub open spec fn action_mailbox(a: ActionView) -> Option<Seq<char>> {
    match a {
        ActionView::TrashRemote(m, _) => Some(m),
        ActionView::TrashLocal(m, _) => Some(m),
        ActionView::DeleteRemote(m, _) => Some(m),
        ActionView::DeleteLocal(m, _) => Some(m),
        ActionView::UpdateFlags(m, _) => Some(m),
        ActionView::Hardlink(m, _) => Some(m),
        ActionView::Fetch(m, _) => Some(m),
        ActionView::RemoveStale(_) => None,
    }
}

impl SyncAction {
    /// The mailbox that the action works on.
    pub fn mailbox(&self) -> (r: Option<&str>)
        ensures
            match r {
                Some(m) => action_mailbox(self@) == Some(m@),
                None => action_mailbox(self@) is None,
            },
    {
        match self {
            SyncAction::TrashRemote(mailbox, _) => Some(mailbox.as_str()),
            SyncAction::TrashLocal(mailbox, _) => Some(mailbox.as_str()),
            SyncAction::DeleteRemote(mailbox, _) => Some(mailbox.as_str()),
            SyncAction::DeleteLocal(mailbox, _) => Some(mailbox.as_str()),
            SyncAction::UpdateFlags(mailbox, _) => Some(mailbox.as_str()),
            SyncAction::Hardlink(mailbox, _) => Some(mailbox.as_str()),
            SyncAction::Fetch(mailbox, _) => Some(mailbox.as_str()),
            SyncAction::RemoveStale(_) => None,
        }
    }
}

/// Whether a mailbox takes part in a run that was asked for `mailboxes`: all
/// do where none is named.
pub open spec fn selected(mailboxes: Seq<String>, name: Seq<char>) -> bool {
    mailboxes.len() == 0 || exists|i: int| 0 <= i < mailboxes.len() && (#[trigger] mailboxes[i])@
        == name
}

/// Whether the mailbox `name` takes part in a run that was asked for
/// `mailboxes`.
pub fn is_selected(mailboxes: &Vec<String>, name: &str) -> (r: bool)
    ensures
        r == selected(mailboxes@, name@),
{
    let n = mailboxes.len();
    if n == 0 {
        return true;
    }
    for i in 0..n
        invariant
            n == mailboxes@.len(),
            n > 0,
            forall|j: int| 0 <= j < i ==> (#[trigger] mailboxes@[j])@ != name@,
    {
        if str_eq(mailboxes[i].as_str(), name) {
            return true;
        }
    }
    false
}

/// The place of the message known under `message_id` among `mails`: the index
/// of the first such message, or the number of messages where there is none.
pub open spec fn slot(mails: Seq<RemoteMailView>, message_id: Seq<char>) -> int
    decreases mails.len(),
{
    if mails.len() == 0 || mails[0].message_id == message_id {
        0
    } else {
        1 + slot(mails.skip(1), message_id)
    }
}

/// Whether the server has a message known under `message_id`.
pub open spec fn known_remotely(mails: Seq<RemoteMailView>, message_id: Seq<char>) -> bool {
    exists|i: int| 0 <= i < mails.len() && (#[trigger] mails[i]).message_id == message_id
}

/// The messages with `m` among them: it takes the place of the message known
/// under the same identifier, or comes last where there was none.
pub open spec fn upserted(mails: Seq<RemoteMailView>, m: RemoteMailView) -> Seq<RemoteMailView> {
    let i = slot(mails, m.message_id);
    if i < mails.len() {
        mails.update(i, m)
    } else {
        mails.push(m)
    }
}

/// The messages of a mailbox after one more was listed. A message that the
/// server has marked `\Deleted` is passed over. The message is known under the
/// value of its `Message-ID` header, or under a made-up identifier where that
/// value is empty.
pub open spec fn noted(
    mails: Seq<RemoteMailView>,
    mailbox: Seq<char>,
    id: MaildirID,
    flags: Seq<Flag>,
    header_value: Seq<char>,
) -> Seq<RemoteMailView> {
    if holds_flag(flags, 'T') {
        mails
    } else {
        upserted(
            mails,
            RemoteMailView { message_id: message_id_of(header_value, mailbox, id), id, flags },
        )
    }
}

/// The value of the header line that the server sent for a message; empty
/// where the line cannot be read.
pub open spec fn listed_value(raw: Seq<u8>) -> Seq<char> {
    match parsed_header(raw) {
        Some((_, value)) => value,
        None => seq![],
    }
}

/// The messages of a mailbox, from what the server lists.
pub open spec fn listed(mailbox: Seq<char>, uid_validity: u32, messages: Seq<RemoteMessage>)
    -> Seq<RemoteMailView>
    decreases messages.len(),
{
    if messages.len() == 0 {
        seq![]
    } else {
        let m = messages.last();
        noted(
            listed(mailbox, uid_validity, messages.drop_last()),
            mailbox,
            MaildirID { uid_validity, uid: m.uid },
            m.flags@,
            listed_value(m.header@),
        )
    }
}

/// `slot` is the one index before which no message is known under
/// `message_id` and at which the messages end or one is.
pub proof fn lemma_slot(mails: Seq<RemoteMailView>, message_id: Seq<char>, i: int)
    requires
        0 <= i <= mails.len(),
        forall|j: int| 0 <= j < i ==> (#[trigger] mails[j]).message_id != message_id,
        i < mails.len() ==> mails[i].message_id == message_id,
    ensures
        slot(mails, message_id) == i,
    decreases mails.len(),
{
    if mails.len() == 0 || mails[0].message_id == message_id {
    } else {
        let t = mails.skip(1);
        assert forall|j: int| 0 <= j < i - 1 implies (#[trigger] t[j]).message_id
            != message_id by {
            assert(t[j] == mails[j + 1]);
        }
        lemma_slot(t, message_id, i - 1);
    }
}

/// What `slot` finds: an index within bounds that holds a message known under
/// `message_id` exactly where the server has one.
pub proof fn lemma_slot_bounds(mails: Seq<RemoteMailView>, message_id: Seq<char>)
    ensures
        0 <= slot(mails, message_id) <= mails.len(),
        slot(mails, message_id) < mails.len() ==> mails[slot(mails, message_id)].message_id
            == message_id,
        slot(mails, message_id) < mails.len() <==> known_remotely(mails, message_id),
        forall|j: int|
            0 <= j < slot(mails, message_id) ==> (#[trigger] mails[j]).message_id != message_id,
    decreases mails.len(),
{
    if mails.len() == 0 || mails[0].message_id == message_id {
    } else {
        let t = mails.skip(1);
        lemma_slot_bounds(t, message_id);
        let p = slot(t, message_id);
        assert(p < t.len() ==> t[p] == mails[p + 1]);
        assert forall|j: int| 0 <= j < p + 1 implies (#[trigger] mails[j]).message_id
            != message_id by {
            if j > 0 {
                assert(t[j - 1] == mails[j]);
            }
        }
        if known_remotely(mails, message_id) {
            let k = choose|k: int|
                0 <= k < mails.len() && (#[trigger] mails[k]).message_id == message_id;
            assert(t[k - 1].message_id == message_id);
        }
    }
}

/// The place of the message known under `message_id` among `mails`.
pub fn find_remote(mails: &Vec<RemoteMail>, message_id: &str) -> (i: usize)
    ensures
        i == slot(mail_views(mails@), message_id@),
        i <= mails@.len(),
        (i < mails@.len()) == known_remotely(mail_views(mails@), message_id@),
{
    let n = mails.len();
    let mut i: usize = 0;
    while i < n && !str_eq(mails[i].message_id.as_str(), message_id)
        invariant
            n == mails@.len(),
            i <= n,
            forall|j: int|
                0 <= j < i ==> (#[trigger] mail_views(mails@)[j]).message_id != message_id@,
        decreases n - i,
    {
        i += 1;
    }
    proof {
        lemma_slot(mail_views(mails@), message_id@, i as int);
        lemma_slot_bounds(mail_views(mails@), message_id@);
    }
    i
}

/// Takes note of one more message that the server lists for `mailbox`.
pub fn note_remote(
    mails: &mut Vec<RemoteMail>,
    mailbox: &str,
    id: MaildirID,
    flags: &[Flag],
    header_value: String,
)
    ensures
        mail_views(final(mails)@) == noted(
            mail_views(old(mails)@),
            mailbox@,
            id,
            flags@,
            header_value@,
        ),
{
    if has_flag_char(flags, TRASHED) {
        return ;
    }
    let message_id = message_id_or_fallback(header_value, mailbox, id);
    let i = find_remote(mails, message_id.as_str());
    let mail = RemoteMail { message_id, id, flags: copy_flags(flags) };
    let ghost before = mail_views(mails@);
    if i < mails.len() {
        mails.set(i, mail);
        assert(mail_views(mails@) =~= before.update(i as int, mail@));
    } else {
        mails.push(mail);
        assert(mail_views(mails@) =~= before.push(mail@));
    }
}

/// The messages of a mailbox, from what the server lists: for each message
/// that is not marked `\Deleted` the identifier it is known under, its place
/// and its flags. Of two messages known under the same identifier the later
/// one stays.
pub fn index_remote(mailbox: &str, uid_validity: u32, messages: &Vec<RemoteMessage>) -> (mails:
    Vec<RemoteMail>)
    ensures
        mail_views(mails@) == listed(mailbox@, uid_validity, messages@),
{
    let mut mails: Vec<RemoteMail> = Vec::new();
    let n = messages.len();
    assert(mail_views(mails@) =~= Seq::<RemoteMailView>::empty());
    for i in 0..n
        invariant
            n == messages@.len(),
            mail_views(mails@) == listed(mailbox@, uid_validity, messages@.take(i as int)),
    {
        proof {
            assert(messages@.take(i + 1).drop_last() == messages@.take(i as int));
            assert(messages@.take(i + 1).last() == messages@[i as int]);
        }
        let m = &messages[i];
        let value = match read_header(m.header.as_slice()) {
            Some(h) => h.value,
            None => String::new(),
        };
        note_remote(
            &mut mails,
            mailbox,
            MaildirID::new(uid_validity, m.uid),
            m.flags.as_slice(),
            value,
        );
    }
    assert(messages@.take(n as int) == messages@);
    mails
}

/// Whether the server has a trash folder.
pub open spec fn trash_exists(folders: Seq<FolderView>) -> bool {
    exists|i: int| 0 <= i < folders.len() && (#[trigger] folders[i]).is_trash
}

/// What a row of the index asks for by its flags. `T` outside a trash folder
/// asks for the message to be trashed, if the server has a trash folder at
/// all; failing `T`, `E` asks for it to be deleted. Either is done on the
/// server too where the server still has the message.
pub open spec fn mark_action(
    row: RowView,
    is_trash: bool,
    trash: bool,
    mails: Seq<RemoteMailView>,
) -> Option<ActionView> {
    if row.flags.contains('T') && !is_trash {
        if trash {
            if known_remotely(mails, row.message_id) {
                Some(ActionView::TrashRemote(row.mailbox, row.id))
            } else {
                Some(ActionView::TrashLocal(row.mailbox, row.id))
            }
        } else {
            None
        }
    } else if row.flags.contains('E') {
        if known_remotely(mails, row.message_id) {
            Some(ActionView::DeleteRemote(row.mailbox, row.id))
        } else {
            Some(ActionView::DeleteLocal(row.mailbox, row.id))
        }
    } else {
        None
    }
}

/// The index and the plan while the rows of one mailbox are gone through, and
/// the identifiers of the messages that are to leave the mailbox on the
/// server.
pub struct Sweep {
    pub index: Seq<RowView>,
    pub actions: Seq<ActionView>,
    pub leaving: Seq<Seq<char>>,
}

/// Whether an action takes a message out of its mailbox on the server.
pub open spec fn leaves_server(a: ActionView) -> bool {
    a is TrashRemote || a is DeleteRemote
}

/// The index and the plan after `rows` were gone through: each row that asks
/// for an action adds that action to the plan and leaves the index.
pub open spec fn swept(
    s: Sweep,
    rows: Seq<RowView>,
    is_trash: bool,
    trash: bool,
    mails: Seq<RemoteMailView>,
) -> Sweep
    decreases rows.len(),
{
    if rows.len() == 0 {
        s
    } else {
        let p = swept(s, rows.drop_last(), is_trash, trash, mails);
        let row = rows.last();
        match mark_action(row, is_trash, trash, mails) {
            Some(a) => Sweep {
                index: rows_without(p.index, row.mailbox, row.id),
                actions: p.actions.push(a),
                leaving: if leaves_server(a) {
                    p.leaving.push(row.message_id)
                } else {
                    p.leaving
                },
            },
            None => p,
        }
    }
}

/// The first of `rows` that is the row of the message `id` of `mailbox`.
pub open spec fn row_at(rows: Seq<RowView>, mailbox: Seq<char>, id: MaildirID) -> Option<
    RowView,
>
    decreases rows.len(),
{
    if rows.len() == 0 {
        None
    } else if rows[0].mailbox == mailbox && rows[0].id == id {
        Some(rows[0])
    } else {
        row_at(rows.skip(1), mailbox, id)
    }
}

/// The index and the three lists of a mailbox while its messages on the server
/// are gone through.
pub struct Sorting {
    pub index: Seq<RowView>,
    pub to_flag: Seq<(MaildirID, Seq<Flag>, Seq<char>)>,
    pub to_hardlink: Seq<(MaildirID, Seq<char>, Seq<Flag>)>,
    pub to_fetch: Seq<MaildirID>,
}

/// Where one message of the server goes. A message that is to leave the
/// mailbox goes nowhere. A message that the index has at this very place is
/// listed for its flags where `\Seen` on the server and `S` in the index
/// differ. Failing that, a message that the index has anywhere is listed for
/// a link and gets its row, with the flags of the first row it is known
/// under. Failing that, it is listed to be fetched, unless the mailbox is a
/// trash folder.
pub open spec fn sort_one(
    s: Sorting,
    mailbox: Seq<char>,
    is_trash: bool,
    leaving: Seq<Seq<char>>,
    m: RemoteMailView,
) -> Sorting {
    if leaving.contains(m.message_id) {
        s
    } else {
        sort_kept(s, mailbox, is_trash, m)
    }
}

/// Where one message of the server goes that stays in its mailbox.
pub open spec fn sort_kept(s: Sorting, mailbox: Seq<char>, is_trash: bool, m: RemoteMailView)
    -> Sorting {
    let local = rows_with(s.index, m.message_id);
    match row_at(local, mailbox, m.id) {
        Some(row) => {
            if row.flags.contains('S') != holds_flag(m.flags, 'S') {
                Sorting { to_flag: s.to_flag.push((row.id, m.flags, row.flags)), ..s }
            } else {
                s
            }
        },
        None => {
            if local.len() > 0 {
                Sorting {
                    index: s.index.push(
                        RowView {
                            mailbox,
                            id: m.id,
                            message_id: m.message_id,
                            flags: local[0].flags,
                        },
                    ),
                    to_hardlink: s.to_hardlink.push((m.id, m.message_id, m.flags)),
                    ..s
                }
            } else if !is_trash {
                Sorting { to_fetch: s.to_fetch.push(m.id), ..s }
            } else {
                s
            }
        },
    }
}

/// The index and the three lists after `mails` were gone through.
pub open spec fn sorted_mails(
    s: Sorting,
    mailbox: Seq<char>,
    is_trash: bool,
    leaving: Seq<Seq<char>>,
    mails: Seq<RemoteMailView>,
) -> Sorting
    decreases mails.len(),
{
    if mails.len() == 0 {
        s
    } else {
        sort_one(
            sorted_mails(s, mailbox, is_trash, leaving, mails.drop_last()),
            mailbox,
            is_trash,
            leaving,
            mails.last(),
        )
    }
}

/// Whether a row is stale: the server has no message known under its
/// identifier, and the identifier was not made up.
pub open spec fn is_stale(row: RowView, mails: Seq<RemoteMailView>) -> bool {
    !known_remotely(mails, row.message_id) && !is_fallback(row.message_id)
}

/// The stale ones among `rows`: for each its epoch, UID and packed identifier.
pub open spec fn stale_rows(rows: Seq<RowView>, mails: Seq<RemoteMailView>) -> Seq<
    (u32, u32, u64),
>
    decreases rows.len(),
{
    if rows.len() == 0 {
        seq![]
    } else {
        let p = stale_rows(rows.drop_last(), mails);
        let row = rows.last();
        if is_stale(row, mails) {
            p.push((row.id.uid_validity, row.id.uid, pack(row.id.uid_validity, row.id.uid)))
        } else {
            p
        }
    }
}

/// The index as the plan leaves it, the plan, and the stale messages found so
/// far, while the mailboxes are gone through.
pub struct Progress {
    pub index: Seq<RowView>,
    pub actions: Seq<ActionView>,
    pub stale: Seq<(Seq<char>, Seq<(u32, u32, u64)>)>,
}

/// The plan with the lists of one mailbox added, each where it is not empty:
/// flags first, then links, then fetches.
pub open spec fn with_lists(actions: Seq<ActionView>, mailbox: Seq<char>, s: Sorting) -> Seq<
    ActionView,
> {
    let a1 = if s.to_flag.len() > 0 {
        actions.push(ActionView::UpdateFlags(mailbox, s.to_flag))
    } else {
        actions
    };
    let a2 = if s.to_hardlink.len() > 0 {
        a1.push(ActionView::Hardlink(mailbox, s.to_hardlink))
    } else {
        a1
    };
    if s.to_fetch.len() > 0 {
        a2.push(ActionView::Fetch(mailbox, s.to_fetch))
    } else {
        a2
    }
}

/// The progress after one more mailbox. A mailbox that is left out changes
/// nothing. Of the others, first the rows of the mailbox are gone through for
/// what their flags ask for, then the messages of the server that stay, then
/// the rows that are left for stale ones.
pub open spec fn plan_folder(p: Progress, f: FolderView, trash: bool) -> Progress {
    match f.mails {
        None => p,
        Some(mails) => {
            let s1 = swept(
                Sweep { index: p.index, actions: p.actions, leaving: seq![] },
                rows_in(p.index, f.name),
                f.is_trash,
                trash,
                mails,
            );
            let s2 = sorted_mails(
                Sorting { index: s1.index, to_flag: seq![], to_hardlink: seq![], to_fetch: seq![] },
                f.name,
                f.is_trash,
                s1.leaving,
                mails,
            );
            let stale = stale_rows(rows_in(s2.index, f.name), mails);
            Progress {
                index: s2.index,
                actions: with_lists(s1.actions, f.name, s2),
                stale: if stale.len() > 0 {
                    p.stale.push((f.name, stale))
                } else {
                    p.stale
                },
            }
        },
    }
}

/// The progress after the mailboxes `folders`, in their order.
pub open spec fn plan_folders(p: Progress, folders: Seq<FolderView>, trash: bool) -> Progress
    decreases folders.len(),
{
    if folders.len() == 0 {
        p
    } else {
        plan_folder(plan_folders(p, folders.drop_last(), trash), folders.last(), trash)
    }
}

/// The progress after all mailboxes of the server.
pub open spec fn plan_all(folders: Seq<FolderView>, index: Seq<RowView>) -> Progress {
    plan_folders(
        Progress { index, actions: seq![], stale: seq![] },
        folders,
        trash_exists(folders),
    )
}

/// The plan: the actions of the mailboxes in their order, and last the
/// removal of the stale messages, if there are any.
pub open spec fn planned(folders: Seq<FolderView>, index: Seq<RowView>) -> Seq<ActionView> {
    let p = plan_all(folders, index);
    if p.stale.len() > 0 {
        p.actions.push(ActionView::RemoveStale(p.stale))
    } else {
        p.actions
    }
}

/// The index as planning leaves it: without the rows that asked for an
/// action, with the rows of the messages that are to be linked.
pub open spec fn planned_index(folders: Seq<FolderView>, index: Seq<RowView>) -> Seq<RowView> {
    plan_all(folders, index).index
}

/// Whether the server has a trash folder.
pub fn has_trash(folders: &Vec<Folder>) -> (r: bool)
    ensures
        r == trash_exists(folder_views(folders@)),
{
    let n = folders.len();
    for i in 0..n
        invariant
            n == folders@.len(),
            forall|j: int| 0 <= j < i ==> !(#[trigger] folder_views(folders@)[j]).is_trash,
    {
        if folders[i].is_trash {
            assert(folder_views(folders@)[i as int].is_trash);
            return true;
        }
    }
    false
}

/// What a row of the index asks for by its flags.
pub fn action_for_row(row: &IndexRow, is_trash: bool, trash: bool, mails: &Vec<RemoteMail>) -> (r:
    Option<SyncAction>)
    ensures
        match r {
            Some(a) => mark_action(row@, is_trash, trash, mail_views(mails@)) == Some(a@),
            None => mark_action(row@, is_trash, trash, mail_views(mails@)) is None,
        },
{
    if contains_char(row.flags.as_str(), TRASHED) && !is_trash {
        if trash {
            if find_remote(mails, row.message_id.as_str()) < mails.len() {
                Some(SyncAction::TrashRemote(row.mailbox.clone(), row.id))
            } else {
                Some(SyncAction::TrashLocal(row.mailbox.clone(), row.id))
            }
        } else {
            None
        }
    } else if contains_char(row.flags.as_str(), DELETE) {
        if find_remote(mails, row.message_id.as_str()) < mails.len() {
            Some(SyncAction::DeleteRemote(row.mailbox.clone(), row.id))
        } else {
            Some(SyncAction::DeleteLocal(row.mailbox.clone(), row.id))
        }
    } else {
        None
    }
}

fn goes_from_server(a: &SyncAction) -> (r: bool)
    ensures
        r == leaves_server(a@),
{
    match a {
        SyncAction::TrashRemote(_, _) => true,
        SyncAction::DeleteRemote(_, _) => true,
        _ => false,
    }
}

fn sweep_rows(
    index: &mut Index,
    actions: &mut Vec<SyncAction>,
    mailbox: &str,
    is_trash: bool,
    trash: bool,
    mails: &Vec<RemoteMail>,
) -> (leaving: Vec<String>)
    ensures
        (Sweep {
            index: final(index)@,
            actions: action_views(final(actions)@),
            leaving: views(leaving@),
        }) == swept(
            Sweep { index: old(index)@, actions: action_views(old(actions)@), leaving: seq![] },
            rows_in(old(index)@, mailbox@),
            is_trash,
            trash,
            mail_views(mails@),
        ),
{
    let rows = index.in_mailbox(mailbox);
    let n = rows.len();
    let mut leaving: Vec<String> = Vec::new();
    let ghost start = Sweep { index: index@, actions: action_views(actions@), leaving: seq![] };
    let ghost all = row_views(rows@);
    let ghost m = mail_views(mails@);
    assert(views(leaving@) =~= start.leaving);
    for i in 0..n
        invariant
            n == rows@.len(),
            all == row_views(rows@),
            m == mail_views(mails@),
            (Sweep { index: index@, actions: action_views(actions@), leaving: views(leaving@) })
                == swept(start, all.take(i as int), is_trash, trash, m),
    {
        proof {
            assert(all.take(i + 1).drop_last() == all.take(i as int));
            assert(all.take(i + 1).last() == rows@[i as int]@);
        }
        let row = &rows[i];
        match action_for_row(row, is_trash, trash, mails) {
            Some(a) => {
                if goes_from_server(&a) {
                    let ghost before = views(leaving@);
                    leaving.push(row.message_id.clone());
                    assert(views(leaving@) == before.push(row.message_id@));
                }
                let ghost before = action_views(actions@);
                actions.push(a);
                assert(action_views(actions@) == before.push(a@));
                index.delete(row.mailbox.as_str(), row.id);
            },
            None => {},
        }
    }
    assert(all.take(n as int) == all);
    leaving
}

/// Whether `id` is among `ids`.
pub fn has_id(ids: &Vec<String>, id: &str) -> (r: bool)
    ensures
        r == views(ids@).contains(id@),
{
    let n = ids.len();
    let ghost v = views(ids@);
    for i in 0..n
        invariant
            n == ids@.len(),
            v == views(ids@),
            forall|j: int| 0 <= j < i ==> v[j] != id@,
    {
        assert(v[i as int] == ids@[i as int]@);
        if str_eq(ids[i].as_str(), id) {
            return true;
        }
    }
    false
}

/// The first of `rows` that is the row of the message `id` of `mailbox`.
pub fn find_row_at<'a>(rows: &'a Vec<IndexRow>, mailbox: &str, id: MaildirID) -> (r: Option<
    &'a IndexRow,
>)
    ensures
        match r {
            Some(row) => row_at(row_views(rows@), mailbox@, id) == Some(row@),
            None => row_at(row_views(rows@), mailbox@, id) is None,
        },
{
    let n = rows.len();
    let ghost all = row_views(rows@);
    assert(all.skip(0) == all);
    for i in 0..n
        invariant
            n == rows@.len(),
            all == row_views(rows@),
            row_at(all, mailbox@, id) == row_at(all.skip(i as int), mailbox@, id),
    {
        proof {
            let t = all.skip(i as int);
            assert(t[0] == rows@[i as int]@);
            assert(t.skip(1) == all.skip(i + 1));
        }
        if str_eq(rows[i].mailbox.as_str(), mailbox) && rows[i].id == id {
            return Some(&rows[i]);
        }
    }
    assert(all.skip(n as int).len() == 0);
    None
}

fn sort_mail(
    index: &mut Index,
    to_flag: &mut Vec<(MaildirID, Vec<Flag>, String)>,
    to_hardlink: &mut Vec<(MaildirID, String, Vec<Flag>)>,
    to_fetch: &mut Vec<MaildirID>,
    mailbox: &str,
    is_trash: bool,
    m: &RemoteMail,
)
    ensures
        (Sorting {
            index: final(index)@,
            to_flag: flag_items(final(to_flag)@),
            to_hardlink: link_items(final(to_hardlink)@),
            to_fetch: final(to_fetch)@,
        }) == sort_kept(
            Sorting {
                index: old(index)@,
                to_flag: flag_items(old(to_flag)@),
                to_hardlink: link_items(old(to_hardlink)@),
                to_fetch: old(to_fetch)@,
            },
            mailbox@,
            is_trash,
            m@,
        ),
{
    let local = index.by_message_id(m.message_id.as_str());
    match find_row_at(&local, mailbox, m.id) {
        Some(row) => {
            if contains_char(row.flags.as_str(), SEEN) != has_flag_char(m.flags.as_slice(), SEEN) {
                let ghost before = flag_items(to_flag@);
                let item = (row.id, copy_flags(m.flags.as_slice()), row.flags.clone());
                to_flag.push(item);
                assert(flag_items(to_flag@) == before.push((row.id, m.flags@, row.flags@)));
            }
        },
        None => {
            if local.len() > 0 {
                let ghost before = link_items(to_hardlink@);
                let item = (m.id, m.message_id.clone(), copy_flags(m.flags.as_slice()));
                to_hardlink.push(item);
                assert(link_items(to_hardlink@) == before.push((m.id, m.message_id@, m.flags@)));
                assert(row_views(local@)[0] == local@[0]@);
                index.save(
                    IndexRow {
                        mailbox: mailbox.to_owned(),
                        id: m.id,
                        message_id: m.message_id.clone(),
                        flags: local[0].flags.clone(),
                    },
                );
            } else if !is_trash {
                to_fetch.push(m.id);
            }
        },
    }
}

fn sort_mails(
    index: &mut Index,
    mailbox: &str,
    is_trash: bool,
    leaving: &Vec<String>,
    mails: &Vec<RemoteMail>,
) -> (r: (
    Vec<(MaildirID, Vec<Flag>, String)>,
    Vec<(MaildirID, String, Vec<Flag>)>,
    Vec<MaildirID>,
))
    ensures
        (Sorting {
            index: final(index)@,
            to_flag: flag_items(r.0@),
            to_hardlink: link_items(r.1@),
            to_fetch: r.2@,
        }) == sorted_mails(
            Sorting { index: old(index)@, to_flag: seq![], to_hardlink: seq![], to_fetch: seq![] },
            mailbox@,
            is_trash,
            views(leaving@),
            mail_views(mails@),
        ),
{
    let mut to_flag: Vec<(MaildirID, Vec<Flag>, String)> = Vec::new();
    let mut to_hardlink: Vec<(MaildirID, String, Vec<Flag>)> = Vec::new();
    let mut to_fetch: Vec<MaildirID> = Vec::new();
    let ghost start = Sorting {
        index: index@,
        to_flag: seq![],
        to_hardlink: seq![],
        to_fetch: seq![],
    };
    let ghost all = mail_views(mails@);
    let ghost gone = views(leaving@);
    let n = mails.len();
    assert(flag_items(to_flag@) =~= start.to_flag);
    assert(link_items(to_hardlink@) =~= start.to_hardlink);
    for i in 0..n
        invariant
            n == mails@.len(),
            all == mail_views(mails@),
            gone == views(leaving@),
            (Sorting {
                index: index@,
                to_flag: flag_items(to_flag@),
                to_hardlink: link_items(to_hardlink@),
                to_fetch: to_fetch@,
            }) == sorted_mails(start, mailbox@, is_trash, gone, all.take(i as int)),
    {
        proof {
            assert(all.take(i + 1).drop_last() == all.take(i as int));
            assert(all.take(i + 1).last() == mails@[i as int]@);
        }
        let m = &mails[i];
        if !has_id(leaving, m.message_id.as_str()) {
            sort_mail(index, &mut to_flag, &mut to_hardlink, &mut to_fetch, mailbox, is_trash, m);
        }
    }
    assert(all.take(n as int) == all);
    (to_flag, to_hardlink, to_fetch)
}

/// The stale ones among `rows`, given the messages that the server has.
pub fn find_stale(rows: &Vec<IndexRow>, mails: &Vec<RemoteMail>) -> (r: Vec<(u32, u32, u64)>)
    ensures
        r@ == stale_rows(row_views(rows@), mail_views(mails@)),
{
    let mut r: Vec<(u32, u32, u64)> = Vec::new();
    let n = rows.len();
    let ghost all = row_views(rows@);
    for i in 0..n
        invariant
            n == rows@.len(),
            all == row_views(rows@),
            r@ == stale_rows(all.take(i as int), mail_views(mails@)),
    {
        proof {
            assert(all.take(i + 1).drop_last() == all.take(i as int));
            assert(all.take(i + 1).last() == rows@[i as int]@);
        }
        let row = &rows[i];
        if find_remote(mails, row.message_id.as_str()) >= mails.len() && !is_fallback_mid(
            row.message_id.as_str(),
        ) {
            r.push((row.id.uid_validity, row.id.uid, row.id.to_u64()));
        }
    }
    assert(all.take(n as int) == all);
    r
}

fn plan_one(
    index: &mut Index,
    actions: &mut Vec<SyncAction>,
    stale: &mut Vec<(String, Vec<(u32, u32, u64)>)>,
    folder: &Folder,
    trash: bool,
)
    ensures
        ({
            let p = plan_folder(
                Progress {
                    index: old(index)@,
                    actions: action_views(old(actions)@),
                    stale: stale_items(old(stale)@),
                },
                folder@,
                trash,
            );
            &&& final(index)@ == p.index
            &&& action_views(final(actions)@) == p.actions
            &&& stale_items(final(stale)@) == p.stale
        }),
{
    match &folder.mails {
        None => {},
        Some(mails) => {
            let name = folder.name.as_str();
            let leaving = sweep_rows(index, actions, name, folder.is_trash, trash, mails);
            let (to_flag, to_hardlink, to_fetch) = sort_mails(
                index,
                name,
                folder.is_trash,
                &leaving,
                mails,
            );
            if to_flag.len() > 0 {
                let ghost before = action_views(actions@);
                let a = SyncAction::UpdateFlags(folder.name.clone(), to_flag);
                actions.push(a);
                assert(action_views(actions@) == before.push(a@));
            }
            if to_hardlink.len() > 0 {
                let ghost before = action_views(actions@);
                let a = SyncAction::Hardlink(folder.name.clone(), to_hardlink);
                actions.push(a);
                assert(action_views(actions@) == before.push(a@));
            }
            if to_fetch.len() > 0 {
                let ghost before = action_views(actions@);
                let a = SyncAction::Fetch(folder.name.clone(), to_fetch);
                actions.push(a);
                assert(action_views(actions@) == before.push(a@));
            }
            let rows = index.in_mailbox(name);
            let removed = find_stale(&rows, mails);
            if removed.len() > 0 {
                let ghost before = stale_items(stale@);
                stale.push((folder.name.clone(), removed));
                assert(stale_items(stale@) == before.push((folder.name@, removed@)));
            }
        },
    }
}

/// Plans the synchronisation: compares what the server lists for each
/// mailbox with what the index holds, and says what is to be done. The index
/// itself is left as it is.
pub fn compute_sync_actions(folders: &Vec<Folder>, index: &Index) -> (actions: Vec<SyncAction>)
    ensures
        action_views(actions@) == planned(folder_views(folders@), index@),
{
    let trash = has_trash(folders);
    let mut index = index.copy();
    let mut actions: Vec<SyncAction> = Vec::new();
    let mut stale: Vec<(String, Vec<(u32, u32, u64)>)> = Vec::new();
    let ghost start = Progress { index: index@, actions: seq![], stale: seq![] };
    let ghost all = folder_views(folders@);
    let n = folders.len();
    assert(action_views(actions@) =~= start.actions);
    assert(stale_items(stale@) =~= start.stale);
    for i in 0..n
        invariant
            n == folders@.len(),
            all == folder_views(folders@),
            index@ == plan_folders(start, all.take(i as int), trash).index,
            action_views(actions@) == plan_folders(start, all.take(i as int), trash).actions,
            stale_items(stale@) == plan_folders(start, all.take(i as int), trash).stale,
    {
        proof {
            assert(all.take(i + 1).drop_last() == all.take(i as int));
            assert(all.take(i + 1).last() == folders@[i as int]@);
        }
        plan_one(&mut index, &mut actions, &mut stale, &folders[i], trash);
    }
    assert(all.take(n as int) == all);
    if stale.len() > 0 {
        let ghost before = action_views(actions@);
        let a = SyncAction::RemoveStale(stale);
        actions.push(a);
        assert(action_views(actions@) == before.push(a@));
    }
    actions
}

/// Whether no two of `mails` are known under the same identifier.
pub open spec fn distinct_mails(mails: Seq<RemoteMailView>) -> bool {
    forall|i: int, j: int|
        0 <= i < j < mails.len() ==> (#[trigger] mails[i]).message_id != (
        #[trigger] mails[j]).message_id
}

/// Taking note of one more message keeps the messages apart: no two are known
/// under the same identifier.
pub proof fn lemma_upserted_distinct(mails: Seq<RemoteMailView>, m: RemoteMailView)
    requires
        distinct_mails(mails),
    ensures
        distinct_mails(upserted(mails, m)),
{
    lemma_slot_bounds(mails, m.message_id);
    let s = slot(mails, m.message_id);
    let r = upserted(mails, m);
    assert forall|i: int, j: int| 0 <= i < j < r.len() implies (#[trigger] r[i]).message_id != (
    #[trigger] r[j]).message_id by {
        if s < mails.len() {
            if i == s {
                assert(mails[s].message_id != mails[j].message_id);
            } else if j == s {
                assert(mails[i].message_id != mails[s].message_id);
            } else {
                assert(mails[i].message_id != mails[j].message_id);
            }
        } else {
            if j < mails.len() {
                assert(mails[i].message_id != mails[j].message_id);
            } else {
                assert(mails[i].message_id != m.message_id);
            }
        }
    }
}

/// What is listed for a mailbox holds no two messages under the same
/// identifier.
pub proof fn lemma_listed_distinct(
    mailbox: Seq<char>,
    uid_validity: u32,
    messages: Seq<RemoteMessage>,
)
    ensures
        distinct_mails(listed(mailbox, uid_validity, messages)),
    decreases messages.len(),
{
    if messages.len() > 0 {
        lemma_listed_distinct(mailbox, uid_validity, messages.drop_last());
        let before = listed(mailbox, uid_validity, messages.drop_last());
        let m = messages.last();
        let id = MaildirID { uid_validity, uid: m.uid };
        lemma_upserted_distinct(
            before,
            RemoteMailView {
                message_id: message_id_of(listed_value(m.header@), mailbox, id),
                id,
                flags: m.flags@,
            },
        );
    }
}

} // verus!
