//! The state that a plan leaves behind once it is carried out in full, and
//! why planning again then finds nothing left to do.

use vstd::prelude::*;
use crate::flags::{lemma_mirror_one_letters, mirror_one, mirrored};
use crate::index::{rows_in, RowView};
use crate::plan::{
    is_stale, known_remotely, mark_action, plan_all, plan_folder, plan_folders, planned,
    planned_index, sort_one, sorted_mails, stale_rows, swept, trash_exists, FolderView, Progress,
    RemoteMailView, Sorting, Sweep,
};
use crate::settle::{
    at_rest, fresh, has_row, lemma_filter_member, lemma_row_at, lemma_settled_plan,
    lemma_stale_listed, lemma_swept_members, only_flags, placed, quiet, settled, settled_folder,
    stale_item,
};

verus! {

/// Where planning stands before the mailbox at index `k`.
pub open spec fn progress_at(folders: Seq<FolderView>, index: Seq<RowView>, k: int) -> Progress {
    plan_folders(
        Progress { index, actions: seq![], stale: seq![] },
        folders.take(k),
        trash_exists(folders),
    )
}

/// The identifiers of the messages that are to leave the mailbox at index `k`
/// on the server.
pub open spec fn leaving_at(folders: Seq<FolderView>, index: Seq<RowView>, k: int) -> Seq<
    Seq<char>,
> {
    let p = progress_at(folders, index, k);
    let f = folders[k];
    match f.mails {
        Some(mails) => swept(
            Sweep { index: p.index, actions: p.actions, leaving: seq![] },
            rows_in(p.index, f.name),
            f.is_trash,
            trash_exists(folders),
            mails,
        ).leaving,
        None => seq![],
    }
}

/// The messages of `mails` that stay on the server.
pub open spec fn staying(mails: Seq<RemoteMailView>, leaving: Seq<Seq<char>>) -> Seq<
    RemoteMailView,
> {
    mails.filter(|m: RemoteMailView| !leaving.contains(m.message_id))
}

/// The mailbox at index `k` once the plan is carried out: the messages that
/// were to leave it are gone.
pub open spec fn applied_folder(folders: Seq<FolderView>, index: Seq<RowView>, k: int)
    -> FolderView {
    let f = folders[k];
    match f.mails {
        Some(mails) => FolderView {
            mails: Some(staying(mails, leaving_at(folders, index, k))),
            ..f
        },
        None => f,
    }
}

/// The mailboxes of the server once the plan is carried out.
pub open spec fn applied_folders(folders: Seq<FolderView>, index: Seq<RowView>) -> Seq<
    FolderView,
> {
    Seq::new(folders.len(), |k: int| applied_folder(folders, index, k))
}

/// The row that fetching brings for the message `m` of `mailbox`.
pub open spec fn row_for(mailbox: Seq<char>, m: RemoteMailView) -> RowView {
    RowView { mailbox, id: m.id, message_id: m.message_id, flags: mirrored(seq![], m.flags) }
}

/// The rows that fetching brings for the mailbox `f`, given the messages that
/// stay in it and the index that planning leaves: one for each message that
/// has no row at its place. Nothing is fetched into a trash folder.
pub open spec fn brought(f: FolderView, kept: Seq<RemoteMailView>, planned: Seq<RowView>)
    -> Seq<RowView> {
    if f.is_trash {
        seq![]
    } else {
        kept.filter(|m: RemoteMailView| !has_row(planned, f.name, m.id, m.message_id)).map_values(
            |m: RemoteMailView| row_for(f.name, m),
        )
    }
}

/// The rows that fetching brings for the first `n` mailboxes.
pub open spec fn all_brought(folders: Seq<FolderView>, index: Seq<RowView>, n: int) -> Seq<
    RowView,
>
    decreases n,
{
    if n <= 0 {
        seq![]
    } else {
        all_brought(folders, index, n - 1) + match folders[n - 1].mails {
            Some(mails) => brought(
                folders[n - 1],
                staying(mails, leaving_at(folders, index, n - 1)),
                planned_index(folders, index),
            ),
            None => seq![],
        }
    }
}

/// Whether the message `id` of `mailbox` is listed for removal.
pub open spec fn listed(
    stale: Seq<(Seq<char>, Seq<(u32, u32, u64)>)>,
    mailbox: Seq<char>,
    id: crate::id::MaildirID,
) -> bool {
    exists|i: int, j: int|
        0 <= i < stale.len() && 0 <= j < stale[i].1.len() && stale[i].0 == mailbox && (
        #[trigger] stale[i].1[j]).0 == id.uid_validity && stale[i].1[j].1 == id.uid
}

/// The index once the plan is carried out: what planning left of it, with the
/// rows that fetching brings, without the rows of the messages listed for
/// removal.
pub open spec fn applied_index(folders: Seq<FolderView>, index: Seq<RowView>) -> Seq<RowView> {
    let stale = plan_all(folders, index).stale;
    (planned_index(folders, index) + all_brought(folders, index, folders.len() as int)).filter(
        |r: RowView| !listed(stale, r.mailbox, r.id),
    )
}

/// Whether the mailboxes that take part have different names.
pub open spec fn distinct_names(folders: Seq<FolderView>) -> bool {
    forall|i: int, j: int|
        0 <= i < j < folders.len() && (#[trigger] folders[i]).mails is Some && (
        #[trigger] folders[j]).mails is Some ==> folders[i].name != folders[j].name
}

/// Whether an action is asked for does not depend on what the server lists.
pub proof fn lemma_mark_either(
    r: RowView,
    is_trash: bool,
    trash: bool,
    a: Seq<RemoteMailView>,
    b: Seq<RemoteMailView>,
)
    ensures
        mark_action(r, is_trash, trash, a) is None <==> mark_action(r, is_trash, trash, b) is None,
{
}

/// Mirroring the flags of the server into an empty flag string gives none of
/// the letters that ask for an action.
pub proof fn lemma_mirrored_asks_nothing(flags: Seq<crate::flags::Flag>)
    ensures
        !mirrored(seq![], flags).contains('T'),
        !mirrored(seq![], flags).contains('E'),
{
    let e = Seq::<char>::empty();
    let a = mirror_one(e, flags, 'S');
    let b = mirror_one(a, flags, 'R');
    lemma_mirror_one_letters(e, flags, 'S', 'T');
    lemma_mirror_one_letters(e, flags, 'S', 'E');
    lemma_mirror_one_letters(a, flags, 'R', 'T');
    lemma_mirror_one_letters(a, flags, 'R', 'E');
    lemma_mirror_one_letters(b, flags, 'F', 'T');
    lemma_mirror_one_letters(b, flags, 'F', 'E');
}

/// The rows of a mailbox are the rows of the index that belong to it.
pub proof fn lemma_rows_in(index: Seq<RowView>, mailbox: Seq<char>, x: RowView)
    ensures
        rows_in(index, mailbox).contains(x) <==> (index.contains(x) && x.mailbox == mailbox),
{
    lemma_filter_member(index, |r: RowView| r.mailbox == mailbox, x);
}

/// Planning the mailboxes `a` and then the mailboxes `b` is planning `a + b`.
pub proof fn lemma_plan_split(p: Progress, a: Seq<FolderView>, b: Seq<FolderView>, trash: bool)
    ensures
        plan_folders(p, a + b, trash) == plan_folders(plan_folders(p, a, trash), b, trash),
    decreases b.len(),
{
    if b.len() == 0 {
        assert(a + b =~= a);
    } else {
        lemma_plan_split(p, a, b.drop_last(), trash);
        assert((a + b).drop_last() =~= a + b.drop_last());
        assert((a + b).last() == b.last());
    }
}

/// Sorting the messages of a mailbox adds rows of that mailbox only.
pub proof fn lemma_sorted_adds_own(
    s: Sorting,
    mailbox: Seq<char>,
    is_trash: bool,
    leaving: Seq<Seq<char>>,
    mails: Seq<RemoteMailView>,
    x: RowView,
)
    requires
        sorted_mails(s, mailbox, is_trash, leaving, mails).index.contains(x),
    ensures
        s.index.contains(x) || x.mailbox == mailbox,
    decreases mails.len(),
{
    if mails.len() > 0 {
        let p = sorted_mails(s, mailbox, is_trash, leaving, mails.drop_last());
        let r = sorted_mails(s, mailbox, is_trash, leaving, mails);
        let k = choose|k: int| 0 <= k < r.index.len() && r.index[k] == x;
        if k < p.index.len() {
            assert(p.index[k] == x);
            lemma_sorted_adds_own(s, mailbox, is_trash, leaving, mails.drop_last(), x);
        } else {
            assert(r == sort_one(p, mailbox, is_trash, leaving, mails.last()));
        }
    }
}

/// Planning a mailbox leaves the rows of the other mailboxes as they are.
pub proof fn lemma_plan_folder_others(p: Progress, f: FolderView, trash: bool, x: RowView)
    requires
        f.mails is Some ==> f.name != x.mailbox,
    ensures
        plan_folder(p, f, trash).index.contains(x) <==> p.index.contains(x),
{
    match f.mails {
        None => {},
        Some(mails) => {
            let start = Sweep { index: p.index, actions: p.actions, leaving: seq![] };
            let rows = rows_in(p.index, f.name);
            let s1 = swept(start, rows, f.is_trash, trash, mails);
            lemma_swept_members(start, rows, f.is_trash, trash, mails, x);
            assert forall|j: int| 0 <= j < rows.len() implies (#[trigger] rows[j]).mailbox
                == f.name by {
                assert(rows.contains(rows[j]));
                lemma_rows_in(p.index, f.name, rows[j]);
            }
            let s0 = Sorting {
                index: s1.index,
                to_flag: seq![],
                to_hardlink: seq![],
                to_fetch: seq![],
            };
            if plan_folder(p, f, trash).index.contains(x) {
                lemma_sorted_adds_own(s0, f.name, f.is_trash, s1.leaving, mails, x);
            }
            if p.index.contains(x) {
                crate::settle::lemma_sorted_keeps(s0, f.name, f.is_trash, s1.leaving, mails, x);
            }
        },
    }
}

/// Planning mailboxes leaves the rows of the other mailboxes as they are.
pub proof fn lemma_plan_folders_others(
    p: Progress,
    folders: Seq<FolderView>,
    trash: bool,
    x: RowView,
)
    requires
        forall|i: int|
            0 <= i < folders.len() && (#[trigger] folders[i]).mails is Some ==> folders[i].name
                != x.mailbox,
    ensures
        plan_folders(p, folders, trash).index.contains(x) <==> p.index.contains(x),
    decreases folders.len(),
{
    if folders.len() > 0 {
        let t = folders.drop_last();
        assert forall|i: int| 0 <= i < t.len() && (#[trigger] t[i]).mails is Some implies t[i].name
            != x.mailbox by {
            assert(t[i] == folders[i]);
        }
        lemma_plan_folders_others(p, t, trash, x);
        assert(folders.last() == folders[folders.len() - 1]);
        lemma_plan_folder_others(plan_folders(p, t, trash), folders.last(), trash, x);
    }
}

/// What is listed for removal stays listed while a mailbox is planned.
pub proof fn lemma_plan_folder_lists(
    p: Progress,
    f: FolderView,
    trash: bool,
    mailbox: Seq<char>,
    id: crate::id::MaildirID,
)
    requires
        listed(p.stale, mailbox, id),
    ensures
        listed(plan_folder(p, f, trash).stale, mailbox, id),
{
    let r = plan_folder(p, f, trash);
    let (i, j) = choose|i: int, j: int|
        0 <= i < p.stale.len() && 0 <= j < p.stale[i].1.len() && p.stale[i].0 == mailbox && (
        #[trigger] p.stale[i].1[j]).0 == id.uid_validity && p.stale[i].1[j].1 == id.uid;
    assert(r.stale[i] == p.stale[i]);
    assert(r.stale[i].1[j] == p.stale[i].1[j]);
}

/// The stale rows that planning finds in a mailbox are listed for removal.
pub proof fn lemma_plan_folder_lists_stale(p: Progress, f: FolderView, trash: bool, x: RowView)
    requires
        f.mails is Some,
        plan_folder(p, f, trash).index.contains(x),
        x.mailbox == f.name,
        is_stale(x, f.mails->0),
    ensures
        listed(plan_folder(p, f, trash).stale, f.name, x.id),
{
    let r = plan_folder(p, f, trash);
    let mails = f.mails->0;
    let rows = rows_in(r.index, f.name);
    lemma_rows_in(r.index, f.name, x);
    let k = choose|k: int| 0 <= k < rows.len() && rows[k] == x;
    lemma_stale_listed(rows, mails);
    let stale = stale_rows(rows, mails);
    assert(stale.contains(stale_item(rows[k])));
    let j = choose|j: int| 0 <= j < stale.len() && stale[j] == stale_item(x);
    let i = p.stale.len() as int;
    assert(r.stale[i] == (f.name, stale));
    assert(r.stale[i].1[j].0 == x.id.uid_validity);
}

/// What is listed for removal stays listed while mailboxes are planned.
pub proof fn lemma_plan_folders_list(
    p: Progress,
    folders: Seq<FolderView>,
    trash: bool,
    mailbox: Seq<char>,
    id: crate::id::MaildirID,
)
    requires
        listed(p.stale, mailbox, id),
    ensures
        listed(plan_folders(p, folders, trash).stale, mailbox, id),
    decreases folders.len(),
{
    if folders.len() > 0 {
        lemma_plan_folders_list(p, folders.drop_last(), trash, mailbox, id);
        lemma_plan_folder_lists(
            plan_folders(p, folders.drop_last(), trash),
            folders.last(),
            trash,
            mailbox,
            id,
        );
    }
}

/// Whether the mailbox at index `k` takes part in the run.
pub open spec fn takes_part(folders: Seq<FolderView>, k: int) -> bool {
    0 <= k < folders.len() && folders[k].mails is Some
}

/// The messages that stay in the mailbox at index `k`.
pub open spec fn kept_at(folders: Seq<FolderView>, index: Seq<RowView>, k: int) -> Seq<
    RemoteMailView,
> {
    match folders[k].mails {
        Some(mails) => staying(mails, leaving_at(folders, index, k)),
        None => seq![],
    }
}

/// The rows that fetching brings for the mailbox at index `k`.
pub open spec fn brought_at(folders: Seq<FolderView>, index: Seq<RowView>, k: int) -> Seq<
    RowView,
> {
    match folders[k].mails {
        Some(mails) => brought(
            folders[k],
            kept_at(folders, index, k),
            planned_index(folders, index),
        ),
        None => seq![],
    }
}

/// What fetching brings for a mailbox is a row for a message that stays in
/// it and has no row at its place.
pub proof fn lemma_brought_row(f: FolderView, kept: Seq<RemoteMailView>, planned: Seq<RowView>, x: RowView)
    -> (m: RemoteMailView)
    requires
        brought(f, kept, planned).contains(x),
    ensures
        kept.contains(m),
        x == row_for(f.name, m),
        !has_row(planned, f.name, m.id, m.message_id),
        !f.is_trash,
{
    let p = |m: RemoteMailView| !has_row(planned, f.name, m.id, m.message_id);
    let some = kept.filter(p);
    let rows = brought(f, kept, planned);
    let i = choose|i: int| 0 <= i < rows.len() && rows[i] == x;
    assert(some.contains(some[i]));
    lemma_filter_member(kept, p, some[i]);
    some[i]
}

/// Fetching brings a row for every message that stays in a mailbox, other
/// than a trash folder, and has no row at its place.
pub proof fn lemma_row_brought(
    f: FolderView,
    kept: Seq<RemoteMailView>,
    planned: Seq<RowView>,
    m: RemoteMailView,
)
    requires
        kept.contains(m),
        !has_row(planned, f.name, m.id, m.message_id),
        !f.is_trash,
    ensures
        brought(f, kept, planned).contains(row_for(f.name, m)),
{
    let p = |m: RemoteMailView| !has_row(planned, f.name, m.id, m.message_id);
    let some = kept.filter(p);
    lemma_filter_member(kept, p, m);
    let i = choose|i: int| 0 <= i < some.len() && some[i] == m;
    assert(brought(f, kept, planned)[i] == row_for(f.name, m));
}

/// What fetching brings for one of the first `n` mailboxes is among what it
/// brings for all of them.
pub proof fn lemma_brought_in(
    folders: Seq<FolderView>,
    index: Seq<RowView>,
    n: int,
    k: int,
    x: RowView,
)
    requires
        0 <= k < n <= folders.len(),
        brought_at(folders, index, k).contains(x),
    ensures
        all_brought(folders, index, n).contains(x),
    decreases n,
{
    let before = all_brought(folders, index, n - 1);
    let all = all_brought(folders, index, n);
    if k < n - 1 {
        lemma_brought_in(folders, index, n - 1, k, x);
        let i = choose|i: int| 0 <= i < before.len() && before[i] == x;
        assert(all[i] == x);
    } else {
        let b = brought_at(folders, index, k);
        let i = choose|i: int| 0 <= i < b.len() && b[i] == x;
        assert(all == before + b);
        assert(all[before.len() + i] == x);
    }
}

/// What fetching brings for the first `n` mailboxes it brings for one of
/// them.
pub proof fn lemma_brought_from(folders: Seq<FolderView>, index: Seq<RowView>, n: int, x: RowView)
    -> (k: int)
    requires
        0 <= n <= folders.len(),
        all_brought(folders, index, n).contains(x),
    ensures
        0 <= k < n,
        brought_at(folders, index, k).contains(x),
    decreases n,
{
    let before = all_brought(folders, index, n - 1);
    let all = all_brought(folders, index, n);
    let b = brought_at(folders, index, n - 1);
    assert(n > 0);
    assert(all == before + b);
    let i = choose|i: int| 0 <= i < all.len() && all[i] == x;
    if i < before.len() {
        assert(before[i] == x);
        lemma_brought_from(folders, index, n - 1, x)
    } else {
        assert(b[i - before.len()] == x);
        n - 1
    }
}

/// Carrying the plan out changes no mailbox into a trash folder, nor back.
pub proof fn lemma_trash_same(folders: Seq<FolderView>, index: Seq<RowView>)
    ensures
        trash_exists(applied_folders(folders, index)) == trash_exists(folders),
{
    let a = applied_folders(folders, index);
    if trash_exists(folders) {
        let i = choose|i: int| 0 <= i < folders.len() && (#[trigger] folders[i]).is_trash;
        assert(a[i].is_trash);
    }
    if trash_exists(a) {
        let i = choose|i: int| 0 <= i < a.len() && (#[trigger] a[i]).is_trash;
        assert(folders[i].is_trash);
    }
}

/// The index that planning leaves is what planning the mailboxes after the
/// one at index `k` makes of what planning left after that one.
pub proof fn lemma_progress(folders: Seq<FolderView>, index: Seq<RowView>, k: int)
    requires
        0 <= k < folders.len(),
    ensures
        progress_at(folders, index, k + 1) == plan_folder(
            progress_at(folders, index, k),
            folders[k],
            trash_exists(folders),
        ),
        plan_all(folders, index) == plan_folders(
            progress_at(folders, index, k + 1),
            folders.skip(k + 1),
            trash_exists(folders),
        ),
{
    let start = Progress { index, actions: seq![], stale: seq![] };
    let a = folders.take(k + 1);
    let b = folders.skip(k + 1);
    assert(a.drop_last() == folders.take(k));
    assert(a.last() == folders[k]);
    assert(a + b =~= folders);
    lemma_plan_split(start, a, b, trash_exists(folders));
}

/// Whether the row `x` is known under the identifier of a message that is to
/// leave the mailbox at index `k`.
pub open spec fn known_as_leaving(
    folders: Seq<FolderView>,
    index: Seq<RowView>,
    k: int,
    x: RowView,
) -> bool {
    leaving_at(folders, index, k).contains(x.message_id)
}

/// What is left of the index when the rows of the mailbox at index `k` were
/// gone through.
pub open spec fn swept_at(folders: Seq<FolderView>, index: Seq<RowView>, k: int) -> Seq<RowView> {
    let p = progress_at(folders, index, k);
    let f = folders[k];
    match f.mails {
        Some(mails) => swept(
            Sweep { index: p.index, actions: p.actions, leaving: seq![] },
            rows_in(p.index, f.name),
            f.is_trash,
            trash_exists(folders),
            mails,
        ).index,
        None => p.index,
    }
}

/// Whether the row `x`, which links brought into the mailbox at index `k`,
/// asks for an action.
pub open spec fn link_asks(folders: Seq<FolderView>, index: Seq<RowView>, k: int, x: RowView)
    -> bool {
    mark_action(x, folders[k].is_trash, trash_exists(folders), folders[k].mails->0) is Some
}

/// Whether the rows that links bring ask for nothing: no row for a message
/// that is linked carries `T` or `E` over from the row it is linked from.
pub open spec fn links_ask_nothing(folders: Seq<FolderView>, index: Seq<RowView>) -> bool {
    forall|k: int, x: RowView|
        takes_part(folders, k) && planned_index(folders, index).contains(x) && x.mailbox
            == folders[k].name && !swept_at(folders, index, k).contains(x) ==> !#[trigger] link_asks(
            folders,
            index,
            k,
            x,
        )
}

/// Whether no row that planning leaves in a mailbox is known under the
/// identifier of a message that is to leave that mailbox.
pub open spec fn stayers_apart(folders: Seq<FolderView>, index: Seq<RowView>) -> bool {
    forall|k: int, x: RowView|
        takes_part(folders, k) && planned_index(folders, index).contains(x) && x.mailbox
            == folders[k].name ==> !#[trigger] known_as_leaving(folders, index, k, x)
}

/// Whether no message that stays on the server is listed for removal.
pub open spec fn removal_spares(folders: Seq<FolderView>, index: Seq<RowView>) -> bool {
    forall|k: int, i: int|
        takes_part(folders, k) && 0 <= i < kept_at(folders, index, k).len() ==> !listed(
            plan_all(folders, index).stale,
            folders[k].name,
            (#[trigger] kept_at(folders, index, k)[i]).id,
        )
}

/// Whether the messages that stay in the trash folders are at rest once the
/// plan is carried out.
pub open spec fn trash_at_rest(folders: Seq<FolderView>, index: Seq<RowView>) -> bool {
    forall|k: int|
        #![trigger takes_part(folders, k)]
        takes_part(folders, k) && folders[k].is_trash ==> placed(
            applied_index(folders, index),
            folders[k].name,
            true,
            kept_at(folders, index, k),
        )
}

/// What is asked of a state for a plan to settle it: the mailboxes have
/// different names, links bring no row that asks for an action, no row that
/// stays is known under the identifier of a message that leaves, no message
/// that stays is listed for removal, and the trash folders are at rest.
pub open spec fn settles(folders: Seq<FolderView>, index: Seq<RowView>) -> bool {
    &&& distinct_names(folders)
    &&& links_ask_nothing(folders, index)
    &&& stayers_apart(folders, index)
    &&& removal_spares(folders, index)
    &&& trash_at_rest(folders, index)
}

/// What the index holds once the plan is carried out.
pub proof fn lemma_applied_member(folders: Seq<FolderView>, index: Seq<RowView>, x: RowView)
    ensures
        applied_index(folders, index).contains(x) <==> ((planned_index(folders, index).contains(x)
            || all_brought(folders, index, folders.len() as int).contains(x)) && !listed(
            plan_all(folders, index).stale,
            x.mailbox,
            x.id,
        )),
{
    let stale = plan_all(folders, index).stale;
    let h = planned_index(folders, index);
    let b = all_brought(folders, index, folders.len() as int);
    lemma_filter_member(h + b, |r: RowView| !listed(stale, r.mailbox, r.id), x);
    if (h + b).contains(x) {
        let i = choose|i: int| 0 <= i < (h + b).len() && (h + b)[i] == x;
        if i < h.len() {
            assert(h[i] == x);
        } else {
            assert(b[i - h.len()] == x);
        }
    }
    if h.contains(x) {
        let i = choose|i: int| 0 <= i < h.len() && h[i] == x;
        assert((h + b)[i] == x);
    }
    if b.contains(x) {
        let i = choose|i: int| 0 <= i < b.len() && b[i] == x;
        assert((h + b)[h.len() + i] == x);
    }
}

/// The rows that planning leaves in a mailbox ask for nothing: the rows of
/// the index that asked were swept, and links bring none that asks.
proof fn lemma_rows_left_quiet(folders: Seq<FolderView>, index: Seq<RowView>, k: int)
    requires
        takes_part(folders, k),
        distinct_names(folders),
        links_ask_nothing(folders, index),
    ensures
        quiet(
            rows_in(planned_index(folders, index), folders[k].name),
            folders[k].is_trash,
            trash_exists(folders),
            folders[k].mails->0,
        ),
{
    let f = folders[k];
    let mails = f.mails->0;
    let trash = trash_exists(folders);
    let h = planned_index(folders, index);
    let rows = rows_in(h, f.name);
    let p = progress_at(folders, index, k);
    assert forall|i: int| 0 <= i < rows.len() implies mark_action(
        #[trigger] rows[i],
        f.is_trash,
        trash,
        mails,
    ) is None by {
        let x = rows[i];
        assert(rows.contains(x));
        lemma_rows_in(h, f.name, x);
        if swept_at(folders, index, k).contains(x) {
            crate::settle::lemma_sweep_clears(
                Sweep { index: p.index, actions: p.actions, leaving: seq![] },
                f.name,
                f.is_trash,
                trash,
                mails,
                x,
            );
        } else {
            assert(!link_asks(folders, index, k, x));
        }
    }
}

proof fn lemma_quiet_at(folders: Seq<FolderView>, index: Seq<RowView>, k: int)
    requires
        takes_part(folders, k),
        distinct_names(folders),
        links_ask_nothing(folders, index),
    ensures
        quiet(
            rows_in(applied_index(folders, index), folders[k].name),
            folders[k].is_trash,
            trash_exists(folders),
            kept_at(folders, index, k),
        ),
{
    let f = folders[k];
    let mails = f.mails->0;
    let kept = kept_at(folders, index, k);
    let trash = trash_exists(folders);
    let h = planned_index(folders, index);
    let rows = rows_in(applied_index(folders, index), f.name);
    assert forall|i: int| 0 <= i < rows.len() implies mark_action(
        #[trigger] rows[i],
        f.is_trash,
        trash,
        kept,
    ) is None by {
        let x = rows[i];
        assert(rows.contains(x));
        lemma_rows_in(applied_index(folders, index), f.name, x);
        lemma_applied_member(folders, index, x);
        if h.contains(x) {
            lemma_rows_left_quiet(folders, index, k);
            lemma_rows_in(h, f.name, x);
            let old = rows_in(h, f.name);
            let j = choose|j: int| 0 <= j < old.len() && old[j] == x;
            assert(mark_action(old[j], f.is_trash, trash, mails) is None);
            lemma_mark_either(x, f.is_trash, trash, mails, kept);
        } else {
            let g = lemma_brought_from(folders, index, folders.len() as int, x);
            let m = lemma_brought_row(
                folders[g],
                kept_at(folders, index, g),
                h,
                x,
            );
            lemma_mirrored_asks_nothing(m.flags);
        }
    }
}

proof fn lemma_placed_at(folders: Seq<FolderView>, index: Seq<RowView>, k: int)
    requires
        takes_part(folders, k),
        removal_spares(folders, index),
        trash_at_rest(folders, index),
    ensures
        placed(
            applied_index(folders, index),
            folders[k].name,
            folders[k].is_trash,
            kept_at(folders, index, k),
        ),
{
    let f = folders[k];
    let kept = kept_at(folders, index, k);
    let h = planned_index(folders, index);
    let a = applied_index(folders, index);
    let stale = plan_all(folders, index).stale;
    if !f.is_trash {
        assert forall|i: int| 0 <= i < kept.len() implies at_rest(
            a,
            f.name,
            f.is_trash,
            #[trigger] kept[i],
        ) by {
            let m = kept[i];
            assert(!listed(stale, f.name, m.id));
            lemma_row_at(a, f.name, m.id, m.message_id);
            if has_row(h, f.name, m.id, m.message_id) {
                let j = choose|j: int|
                    0 <= j < h.len() && (#[trigger] h[j]).mailbox == f.name && h[j].id == m.id
                        && h[j].message_id == m.message_id;
                assert(h.contains(h[j]));
                lemma_applied_member(folders, index, h[j]);
                let c = choose|c: int| 0 <= c < a.len() && a[c] == h[j];
                assert(a[c].mailbox == f.name);
            } else {
                assert(kept.contains(m));
                lemma_row_brought(f, kept, h, m);
                let x = row_for(f.name, m);
                lemma_brought_in(folders, index, folders.len() as int, k, x);
                lemma_applied_member(folders, index, x);
                let c = choose|c: int| 0 <= c < a.len() && a[c] == x;
                assert(a[c].mailbox == f.name);
            }
        }
    }
}

proof fn lemma_fresh_at(folders: Seq<FolderView>, index: Seq<RowView>, k: int)
    requires
        takes_part(folders, k),
        distinct_names(folders),
        stayers_apart(folders, index),
    ensures
        fresh(rows_in(applied_index(folders, index), folders[k].name), kept_at(folders, index, k)),
{
    let f = folders[k];
    let mails = f.mails->0;
    let kept = kept_at(folders, index, k);
    let leaving = leaving_at(folders, index, k);
    let trash = trash_exists(folders);
    let h = planned_index(folders, index);
    let a = applied_index(folders, index);
    let rows = rows_in(a, f.name);
    assert forall|i: int| 0 <= i < rows.len() implies !is_stale(#[trigger] rows[i], kept) by {
        let x = rows[i];
        assert(rows.contains(x));
        lemma_rows_in(a, f.name, x);
        lemma_applied_member(folders, index, x);
        if is_stale(x, kept) {
            if h.contains(x) {
                assert(!known_as_leaving(folders, index, k, x));
                if known_remotely(mails, x.message_id) {
                    let c = choose|c: int|
                        0 <= c < mails.len() && (#[trigger] mails[c]).message_id == x.message_id;
                    assert(mails.contains(mails[c]));
                    lemma_filter_member(
                        mails,
                        |m: RemoteMailView| !leaving.contains(m.message_id),
                        mails[c],
                    );
                    let d = choose|d: int| 0 <= d < kept.len() && kept[d] == mails[c];
                    assert(kept[d].message_id == x.message_id);
                } else {
                    lemma_progress(folders, index, k);
                    let after = progress_at(folders, index, k + 1);
                    let rest = folders.skip(k + 1);
                    assert forall|j: int|
                        0 <= j < rest.len() && (#[trigger] rest[j]).mails is Some implies rest[j].name
                        != x.mailbox by {
                        assert(rest[j] == folders[k + 1 + j]);
                    }
                    lemma_plan_folders_others(after, rest, trash, x);
                    lemma_plan_folder_lists_stale(progress_at(folders, index, k), f, trash, x);
                    lemma_plan_folders_list(after, rest, trash, f.name, x.id);
                }
            } else {
                let g = lemma_brought_from(folders, index, folders.len() as int, x);
                let m = lemma_brought_row(folders[g], kept_at(folders, index, g), h, x);
                if g < k {
                    assert(folders[g].name != folders[k].name);
                } else if k < g {
                    assert(folders[k].name != folders[g].name);
                }
                let d = choose|d: int| 0 <= d < kept.len() && kept[d] == m;
                assert(kept[d].message_id == x.message_id);
            }
        }
    }
}

/// Carrying a plan out settles the state. Take what planning leaves of the
/// index, add a row for every message that stays on the server and has none
/// at its place, as fetching brings them, and take out the rows of the
/// messages listed for removal; take the messages that are to leave off the
/// server. Then nothing is left to do, as far as the state lets a plan settle
/// it at all.
pub proof fn lemma_applied_settled(folders: Seq<FolderView>, index: Seq<RowView>)
    requires
        settles(folders, index),
    ensures
        settled(applied_folders(folders, index), applied_index(folders, index)),
{
    let done = applied_folders(folders, index);
    let a = applied_index(folders, index);
    lemma_trash_same(folders, index);
    assert forall|k: int| 0 <= k < done.len() implies settled_folder(
        a,
        #[trigger] done[k],
        trash_exists(done),
    ) by {
        if folders[k].mails is Some {
            assert(takes_part(folders, k));
            lemma_quiet_at(folders, index, k);
            lemma_placed_at(folders, index, k);
            lemma_fresh_at(folders, index, k);
            assert(done[k].mails == Some(kept_at(folders, index, k)));
        }
    }
}

/// Planning again after a plan was carried out in full finds nothing to
/// trash, delete, link, fetch or remove: the new plan holds at most the
/// settling of flags.
pub proof fn lemma_replan(folders: Seq<FolderView>, index: Seq<RowView>)
    requires
        settles(folders, index),
    ensures
        only_flags(planned(applied_folders(folders, index), applied_index(folders, index))),
        planned_index(applied_folders(folders, index), applied_index(folders, index))
            == applied_index(folders, index),
{
    lemma_applied_settled(folders, index);
    lemma_settled_plan(applied_folders(folders, index), applied_index(folders, index));
}

} // verus!
