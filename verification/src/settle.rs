//! What the planner makes of a state in which nothing is left to do.

use vstd::prelude::*;
use crate::id::pack;
use crate::index::{rows_in, rows_with, RowView};
use crate::plan::{
    is_stale, mark_action, plan_folder, sort_kept, plan_folders, planned, planned_index, row_at,
    sorted_mails, stale_rows, swept, trash_exists, with_lists, ActionView, FolderView,
    Progress, RemoteMailView, Sorting, Sweep,
};

verus! {

/// Whether none of `rows` asks for an action by its flags.
pub open spec fn quiet(rows: Seq<RowView>, is_trash: bool, trash: bool, mails: Seq<RemoteMailView>)
    -> bool {
    forall|k: int| 0 <= k < rows.len() ==> mark_action(#[trigger] rows[k], is_trash, trash, mails)
        is None
}

/// Whether nothing is left to do for the message `m` of `mailbox`: the index
/// has it at its place; or the mailbox is a trash folder, and the index does
/// not know the message at all.
pub open spec fn at_rest(index: Seq<RowView>, mailbox: Seq<char>, is_trash: bool, m: RemoteMailView)
    -> bool {
    ||| row_at(rows_with(index, m.message_id), mailbox, m.id) is Some
    ||| is_trash && rows_with(index, m.message_id).len() == 0
}

/// Whether nothing is left to do for any of `mails`.
pub open spec fn placed(
    index: Seq<RowView>,
    mailbox: Seq<char>,
    is_trash: bool,
    mails: Seq<RemoteMailView>,
) -> bool {
    forall|k: int| 0 <= k < mails.len() ==> at_rest(index, mailbox, is_trash, #[trigger] mails[k])
}

/// Whether none of `rows` is stale.
pub open spec fn fresh(rows: Seq<RowView>, mails: Seq<RemoteMailView>) -> bool {
    forall|k: int| 0 <= k < rows.len() ==> !is_stale(#[trigger] rows[k], mails)
}

/// Whether nothing is left to do for the mailbox `f`: no row of it asks for
/// an action, each message of the server is at rest, and no row of it is
/// stale. Nothing is asked of a mailbox that is left out.
pub open spec fn settled_folder(index: Seq<RowView>, f: FolderView, trash: bool) -> bool {
    match f.mails {
        None => true,
        Some(mails) => {
            &&& quiet(rows_in(index, f.name), f.is_trash, trash, mails)
            &&& placed(index, f.name, f.is_trash, mails)
            &&& fresh(rows_in(index, f.name), mails)
        },
    }
}

/// Whether nothing is left to do for any mailbox.
pub open spec fn settled(folders: Seq<FolderView>, index: Seq<RowView>) -> bool {
    forall|k: int|
        0 <= k < folders.len() ==> settled_folder(
            index,
            #[trigger] folders[k],
            trash_exists(folders),
        )
}

/// Whether a plan holds nothing but the settling of flags.
pub open spec fn only_flags(actions: Seq<ActionView>) -> bool {
    forall|k: int| 0 <= k < actions.len() ==> (#[trigger] actions[k]) is UpdateFlags
}

proof fn lemma_swept_quiet(
    s: Sweep,
    rows: Seq<RowView>,
    is_trash: bool,
    trash: bool,
    mails: Seq<RemoteMailView>,
)
    requires
        quiet(rows, is_trash, trash, mails),
    ensures
        swept(s, rows, is_trash, trash, mails) == s,
    decreases rows.len(),
{
    if rows.len() > 0 {
        let t = rows.drop_last();
        assert forall|k: int| 0 <= k < t.len() implies mark_action(
            #[trigger] t[k],
            is_trash,
            trash,
            mails,
        ) is None by {
            assert(t[k] == rows[k]);
        }
        lemma_swept_quiet(s, t, is_trash, trash, mails);
        assert(rows.last() == rows[rows.len() - 1]);
    }
}

proof fn lemma_sorted_placed(
    s: Sorting,
    mailbox: Seq<char>,
    is_trash: bool,
    mails: Seq<RemoteMailView>,
)
    requires
        placed(s.index, mailbox, is_trash, mails),
    ensures
        sorted_mails(s, mailbox, is_trash, seq![], mails).index == s.index,
        sorted_mails(s, mailbox, is_trash, seq![], mails).to_hardlink == s.to_hardlink,
        sorted_mails(s, mailbox, is_trash, seq![], mails).to_fetch == s.to_fetch,
    decreases mails.len(),
{
    if mails.len() > 0 {
        let t = mails.drop_last();
        assert forall|k: int| 0 <= k < t.len() implies at_rest(
            s.index,
            mailbox,
            is_trash,
            #[trigger] t[k],
        ) by {
            assert(t[k] == mails[k]);
        }
        lemma_sorted_placed(s, mailbox, is_trash, t);
        assert(mails.last() == mails[mails.len() - 1]);
        assert(at_rest(s.index, mailbox, is_trash, mails.last()));
    }
}

proof fn lemma_stale_fresh(rows: Seq<RowView>, mails: Seq<RemoteMailView>)
    requires
        fresh(rows, mails),
    ensures
        stale_rows(rows, mails).len() == 0,
    decreases rows.len(),
{
    if rows.len() > 0 {
        let t = rows.drop_last();
        assert forall|k: int| 0 <= k < t.len() implies !is_stale(#[trigger] t[k], mails) by {
            assert(t[k] == rows[k]);
        }
        lemma_stale_fresh(t, mails);
        assert(rows.last() == rows[rows.len() - 1]);
    }
}

proof fn lemma_settled_folder(p: Progress, f: FolderView, trash: bool)
    requires
        settled_folder(p.index, f, trash),
        only_flags(p.actions),
        p.stale.len() == 0,
    ensures
        plan_folder(p, f, trash).index == p.index,
        only_flags(plan_folder(p, f, trash).actions),
        plan_folder(p, f, trash).stale.len() == 0,
{
    match f.mails {
        None => {},
        Some(mails) => {
            let start = Sweep { index: p.index, actions: p.actions, leaving: seq![] };
            lemma_swept_quiet(start, rows_in(p.index, f.name), f.is_trash, trash, mails);
            let s0 = Sorting {
                index: p.index,
                to_flag: seq![],
                to_hardlink: seq![],
                to_fetch: seq![],
            };
            lemma_sorted_placed(s0, f.name, f.is_trash, mails);
            let s2 = sorted_mails(s0, f.name, f.is_trash, seq![], mails);
            lemma_stale_fresh(rows_in(p.index, f.name), mails);
            let a = with_lists(p.actions, f.name, s2);
            assert forall|k: int| 0 <= k < a.len() implies (#[trigger] a[k]) is UpdateFlags by {
                if k < p.actions.len() {
                    assert(a[k] == p.actions[k]);
                }
            }
        },
    }
}

proof fn lemma_settled_folders(
    p: Progress,
    folders: Seq<FolderView>,
    trash: bool,
)
    requires
        forall|k: int| 0 <= k < folders.len() ==> settled_folder(
            p.index,
            #[trigger] folders[k],
            trash,
        ),
        only_flags(p.actions),
        p.stale.len() == 0,
    ensures
        plan_folders(p, folders, trash).index == p.index,
        only_flags(plan_folders(p, folders, trash).actions),
        plan_folders(p, folders, trash).stale.len() == 0,
    decreases folders.len(),
{
    if folders.len() > 0 {
        let t = folders.drop_last();
        assert forall|k: int| 0 <= k < t.len() implies settled_folder(
            p.index,
            #[trigger] t[k],
            trash,
        ) by {
            assert(t[k] == folders[k]);
        }
        lemma_settled_folders(p, t, trash);
        assert(folders.last() == folders[folders.len() - 1]);
        lemma_settled_folder(plan_folders(p, t, trash), folders.last(), trash);
    }
}

/// Planning again changes nothing once the work is done. Where no row asks
/// for an action, every message of the server is at rest and no row is
/// stale, the plan trashes, deletes, links, fetches and removes nothing: it
/// holds at most the settling of flags, and leaves the index as it is.
pub proof fn lemma_settled_plan(folders: Seq<FolderView>, index: Seq<RowView>)
    requires
        settled(folders, index),
    ensures
        only_flags(planned(folders, index)),
        planned_index(folders, index) == index,
{
    let p = Progress { index, actions: seq![], stale: seq![] };
    lemma_settled_folders(p, folders, trash_exists(folders));
}

/// What a filter keeps: the elements that it was given and that pass.
pub proof fn lemma_filter_member<A>(s: Seq<A>, p: spec_fn(A) -> bool, x: A)
    ensures
        s.filter(p).contains(x) <==> (s.contains(x) && p(x)),
{
    if s.filter(p).contains(x) {
        s.lemma_filter_contains_rev(p, x);
        let i = choose|i: int| 0 <= i < s.filter(p).len() && s.filter(p)[i] == x;
        s.lemma_filter_pred(p, i);
    }
    if s.contains(x) && p(x) {
        let i = choose|i: int| 0 <= i < s.len() && s[i] == x;
        s.lemma_filter_contains(p, i);
    }
}

/// Whether the row `x` is the row of a message that one of `rows` asked an
/// action for.
pub open spec fn swept_away(
    x: RowView,
    rows: Seq<RowView>,
    is_trash: bool,
    trash: bool,
    mails: Seq<RemoteMailView>,
) -> bool {
    exists|j: int|
        0 <= j < rows.len() && mark_action(#[trigger] rows[j], is_trash, trash, mails) is Some
            && x.mailbox == rows[j].mailbox && x.id == rows[j].id
}

/// What a sweep leaves of the index: the rows of no message that an action
/// was asked for.
pub proof fn lemma_swept_members(
    s: Sweep,
    rows: Seq<RowView>,
    is_trash: bool,
    trash: bool,
    mails: Seq<RemoteMailView>,
    x: RowView,
)
    ensures
        swept(s, rows, is_trash, trash, mails).index.contains(x) <==> (s.index.contains(x)
            && !swept_away(x, rows, is_trash, trash, mails)),
    decreases rows.len(),
{
    if rows.len() > 0 {
        let t = rows.drop_last();
        let row = rows.last();
        lemma_swept_members(s, t, is_trash, trash, mails, x);
        let p = swept(s, t, is_trash, trash, mails);
        assert(row == rows[rows.len() - 1]);
        if swept_away(x, t, is_trash, trash, mails) {
            let j = choose|j: int|
                0 <= j < t.len() && mark_action(#[trigger] t[j], is_trash, trash, mails) is Some
                    && x.mailbox == t[j].mailbox && x.id == t[j].id;
            assert(rows[j] == t[j]);
        }
        if swept_away(x, rows, is_trash, trash, mails) {
            let j = choose|j: int|
                0 <= j < rows.len() && mark_action(#[trigger] rows[j], is_trash, trash, mails)
                    is Some && x.mailbox == rows[j].mailbox && x.id == rows[j].id;
            if j < t.len() {
                assert(t[j] == rows[j]);
            }
        }
        match mark_action(row, is_trash, trash, mails) {
            Some(a) => {
                lemma_filter_member(
                    p.index,
                    |r: RowView| !(r.mailbox == row.mailbox && r.id == row.id),
                    x,
                );
            },
            None => {},
        }
    }
}

/// A sweep clears its mailbox: of the rows of the mailbox that it leaves in
/// the index none asks for an action.
pub proof fn lemma_sweep_clears(
    s: Sweep,
    mailbox: Seq<char>,
    is_trash: bool,
    trash: bool,
    mails: Seq<RemoteMailView>,
    x: RowView,
)
    requires
        swept(s, rows_in(s.index, mailbox), is_trash, trash, mails).index.contains(x),
        x.mailbox == mailbox,
    ensures
        mark_action(x, is_trash, trash, mails) is None,
{
    let rows = rows_in(s.index, mailbox);
    lemma_swept_members(s, rows, is_trash, trash, mails, x);
    lemma_filter_member(s.index, |r: RowView| r.mailbox == mailbox, x);
    let j = choose|j: int| 0 <= j < rows.len() && rows[j] == x;
    if mark_action(x, is_trash, trash, mails) is Some {
        assert(mark_action(rows[j], is_trash, trash, mails) is Some);
        assert(swept_away(x, rows, is_trash, trash, mails));
    }
}

/// Whether the index has a row for the message `id` of `mailbox` under
/// `message_id`.
pub open spec fn has_row(
    index: Seq<RowView>,
    mailbox: Seq<char>,
    id: crate::id::MaildirID,
    message_id: Seq<char>,
) -> bool {
    exists|k: int|
        0 <= k < index.len() && (#[trigger] index[k]).mailbox == mailbox && index[k].id == id
            && index[k].message_id == message_id
}

proof fn lemma_row_at_found(rows: Seq<RowView>, mailbox: Seq<char>, id: crate::id::MaildirID)
    ensures
        row_at(rows, mailbox, id) is Some <==> exists|k: int|
            0 <= k < rows.len() && (#[trigger] rows[k]).mailbox == mailbox && rows[k].id == id,
        row_at(rows, mailbox, id) matches Some(r) ==> rows.contains(r) && r.mailbox == mailbox
            && r.id == id,
    decreases rows.len(),
{
    if rows.len() == 0 {
    } else if rows[0].mailbox == mailbox && rows[0].id == id {
    } else {
        let t = rows.skip(1);
        lemma_row_at_found(t, mailbox, id);
        if exists|k: int|
            0 <= k < rows.len() && (#[trigger] rows[k]).mailbox == mailbox && rows[k].id == id {
            let k = choose|k: int|
                0 <= k < rows.len() && (#[trigger] rows[k]).mailbox == mailbox && rows[k].id
                    == id;
            assert(t[k - 1] == rows[k]);
        }
        if exists|k: int|
            0 <= k < t.len() && (#[trigger] t[k]).mailbox == mailbox && t[k].id == id {
            let k = choose|k: int|
                0 <= k < t.len() && (#[trigger] t[k]).mailbox == mailbox && t[k].id == id;
            assert(rows[k + 1] == t[k]);
        }
        match row_at(t, mailbox, id) {
            Some(r) => {
                let k = choose|k: int| 0 <= k < t.len() && t[k] == r;
                assert(rows[k + 1] == r);
            },
            None => {},
        }
    }
}

/// A message is found at its place exactly where the index has a row for it.
pub proof fn lemma_row_at(
    index: Seq<RowView>,
    mailbox: Seq<char>,
    id: crate::id::MaildirID,
    message_id: Seq<char>,
)
    ensures
        row_at(rows_with(index, message_id), mailbox, id) is Some <==> has_row(
            index,
            mailbox,
            id,
            message_id,
        ),
{
    let rows = rows_with(index, message_id);
    let p = |r: RowView| r.message_id == message_id;
    lemma_row_at_found(rows, mailbox, id);
    if row_at(rows, mailbox, id) is Some {
        let k = choose|k: int|
            0 <= k < rows.len() && (#[trigger] rows[k]).mailbox == mailbox && rows[k].id == id;
        assert(rows.contains(rows[k]));
        lemma_filter_member(index, p, rows[k]);
        let j = choose|j: int| 0 <= j < index.len() && index[j] == rows[k];
        assert(index[j].mailbox == mailbox);
    }
    if has_row(index, mailbox, id, message_id) {
        let j = choose|j: int|
            0 <= j < index.len() && (#[trigger] index[j]).mailbox == mailbox && index[j].id == id
                && index[j].message_id == message_id;
        assert(index.contains(index[j]));
        lemma_filter_member(index, p, index[j]);
        let k = choose|k: int| 0 <= k < rows.len() && rows[k] == index[j];
        assert(rows[k].mailbox == mailbox);
    }
}

/// Sorting the messages of the server takes no row out of the index.
pub proof fn lemma_sorted_keeps(
    s: Sorting,
    mailbox: Seq<char>,
    is_trash: bool,
    leaving: Seq<Seq<char>>,
    mails: Seq<RemoteMailView>,
    x: RowView,
)
    requires
        s.index.contains(x),
    ensures
        sorted_mails(s, mailbox, is_trash, leaving, mails).index.contains(x),
        forall|id: crate::id::MaildirID|
            s.to_fetch.contains(id) ==> sorted_mails(
                s,
                mailbox,
                is_trash,
                leaving,
                mails,
            ).to_fetch.contains(id),
    decreases mails.len(),
{
    if mails.len() > 0 {
        lemma_sorted_keeps(s, mailbox, is_trash, leaving, mails.drop_last(), x);
        let p = sorted_mails(s, mailbox, is_trash, leaving, mails.drop_last());
        let r = sorted_mails(s, mailbox, is_trash, leaving, mails);
        let k = choose|k: int| 0 <= k < p.index.len() && p.index[k] == x;
        assert(r.index[k] == x);
        assert forall|id: crate::id::MaildirID| s.to_fetch.contains(id) implies r.to_fetch.contains(
            id,
        ) by {
            assert(p.to_fetch.contains(id));
            let j = choose|j: int| 0 <= j < p.to_fetch.len() && p.to_fetch[j] == id;
            assert(r.to_fetch[j] == id);
        }
    }
}

/// Sorting accounts for every message that stays. A message of a mailbox
/// that is no trash folder has its row at its place in the index that the
/// plan leaves, or is listed to be fetched.
pub proof fn lemma_sort_accounts(
    s: Sorting,
    mailbox: Seq<char>,
    leaving: Seq<Seq<char>>,
    mails: Seq<RemoteMailView>,
    k: int,
)
    requires
        0 <= k < mails.len(),
        !leaving.contains(mails[k].message_id),
    ensures
        has_row(
            sorted_mails(s, mailbox, false, leaving, mails).index,
            mailbox,
            mails[k].id,
            mails[k].message_id,
        ) || sorted_mails(s, mailbox, false, leaving, mails).to_fetch.contains(mails[k].id),
    decreases mails.len(),
{
    let t = mails.drop_last();
    let p = sorted_mails(s, mailbox, false, leaving, t);
    let r = sorted_mails(s, mailbox, false, leaving, mails);
    let m = mails[k];
    if k < t.len() {
        assert(t[k] == m);
        lemma_sort_accounts(s, mailbox, leaving, t, k);
        if has_row(p.index, mailbox, m.id, m.message_id) {
            let j = choose|j: int|
                0 <= j < p.index.len() && (#[trigger] p.index[j]).mailbox == mailbox
                    && p.index[j].id == m.id && p.index[j].message_id == m.message_id;
            assert(r.index[j] == p.index[j]);
        } else {
            let j = choose|j: int| 0 <= j < p.to_fetch.len() && p.to_fetch[j] == m.id;
            assert(r.to_fetch[j] == m.id);
        }
    } else {
        assert(mails.last() == m);
        assert(r == sort_kept(p, mailbox, false, m));
        lemma_row_at(p.index, mailbox, m.id, m.message_id);
        let local = rows_with(p.index, m.message_id);
        match row_at(local, mailbox, m.id) {
            Some(row) => {
                assert(r.index == p.index);
            },
            None => {
                if local.len() > 0 {
                    assert(r.index[p.index.len() as int].mailbox == mailbox);
                } else {
                    assert(r.to_fetch[p.to_fetch.len() as int] == m.id);
                }
            },
        }
    }
}

/// What is listed for the removal of a row: its epoch, its UID and its packed
/// identifier.
pub open spec fn stale_item(r: RowView) -> (u32, u32, u64) {
    (r.id.uid_validity, r.id.uid, pack(r.id.uid_validity, r.id.uid))
}

/// Whether `item` is listed for one of the stale rows among `rows`.
pub open spec fn of_stale_row(rows: Seq<RowView>, mails: Seq<RemoteMailView>, item: (u32, u32, u64))
    -> bool {
    exists|j: int| 0 <= j < rows.len() && is_stale(#[trigger] rows[j], mails) && stale_item(rows[j]) == item
}

/// Every stale row is listed for removal, and nothing else is.
pub proof fn lemma_stale_listed(rows: Seq<RowView>, mails: Seq<RemoteMailView>)
    ensures
        forall|j: int|
            0 <= j < rows.len() && is_stale(#[trigger] rows[j], mails) ==> stale_rows(
                rows,
                mails,
            ).contains(stale_item(rows[j])),
        forall|i: int|
            0 <= i < stale_rows(rows, mails).len() ==> of_stale_row(
                rows,
                mails,
                #[trigger] stale_rows(rows, mails)[i],
            ),
    decreases rows.len(),
{
    if rows.len() > 0 {
        let t = rows.drop_last();
        lemma_stale_listed(t, mails);
        let st = stale_rows(t, mails);
        let s = stale_rows(rows, mails);
        let row = rows.last();
        assert(row == rows[rows.len() - 1]);
        assert forall|j: int| 0 <= j < rows.len() && is_stale(#[trigger] rows[j], mails) implies s.contains(
            stale_item(rows[j]),
        ) by {
            let item = stale_item(rows[j]);
            if j < t.len() {
                assert(t[j] == rows[j]);
                assert(st.contains(item));
                let i = choose|i: int| 0 <= i < st.len() && st[i] == item;
                assert(s[i] == item);
            } else {
                assert(s[st.len() as int] == item);
            }
        }
        assert forall|i: int| 0 <= i < s.len() implies of_stale_row(rows, mails, #[trigger] s[i]) by {
            if i < st.len() {
                assert(s[i] == st[i]);
                assert(of_stale_row(t, mails, st[i]));
                let j = choose|j: int|
                    0 <= j < t.len() && is_stale(#[trigger] t[j], mails) && stale_item(t[j])
                        == st[i];
                assert(rows[j] == t[j]);
            } else {
                assert(is_stale(rows[rows.len() - 1], mails));
            }
        }
    }
}

} // verus!
