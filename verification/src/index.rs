//! The index of the stored messages: one row for each message of each
//! mailbox, with the identifier it is known under and its flags.

use vstd::prelude::*;
use crate::id::MaildirID;
use crate::text::str_eq;

verus! {

/// One row of the index.
#[derive(Debug, Clone, PartialEq, Eq)]
pub struct IndexRow {
    pub mailbox: String,
    pub id: MaildirID,
    pub message_id: String,
    pub flags: String,
}

/// What a row says, as plain values.
pub struct RowView {
    pub mailbox: Seq<char>,
    pub id: MaildirID,
    pub message_id: Seq<char>,
    pub flags: Seq<char>,
}

impl View for IndexRow {
    type V = RowView;

    open spec fn view(&self) -> RowView {
        RowView {
            mailbox: self.mailbox@,
            id: self.id,
            message_id: self.message_id@,
            flags: self.flags@,
        }
    }
}

/// The rows of the index, in the order in which they were saved.
#[derive(Debug, Clone, PartialEq, Eq)]
pub struct Index {
    pub rows: Vec<IndexRow>,
}

/// What the rows say, in their order.
pub open spec fn row_views(rows: Seq<IndexRow>) -> Seq<RowView> {
    rows.map_values(|r: IndexRow| r@)
}

impl View for Index {
    type V = Seq<RowView>;

    open spec fn view(&self) -> Seq<RowView> {
        row_views(self.rows@)
    }
}

/// The rows of `mailbox`, in their order.
pub open spec fn rows_in(rows: Seq<RowView>, mailbox: Seq<char>) -> Seq<RowView> {
    rows.filter(|r: RowView| r.mailbox == mailbox)
}

/// The rows known under `message_id`, in their order.
pub open spec fn rows_with(rows: Seq<RowView>, message_id: Seq<char>) -> Seq<RowView> {
    rows.filter(|r: RowView| r.message_id == message_id)
}

/// The rows but those of the message `id` of `mailbox`.
pub open spec fn rows_without(rows: Seq<RowView>, mailbox: Seq<char>, id: MaildirID) -> Seq<
    RowView,
> {
    rows.filter(|r: RowView| !(r.mailbox == mailbox && r.id == id))
}

/// The rows but those of `mailbox`.
pub open spec fn rows_outside(rows: Seq<RowView>, mailbox: Seq<char>) -> Seq<RowView> {
    rows.filter(|r: RowView| r.mailbox != mailbox)
}

/// The rows with the flags of every row of the message `id` replaced.
pub open spec fn rows_flagged(rows: Seq<RowView>, id: MaildirID, flags: Seq<char>) -> Seq<
    RowView,
> {
    rows.map_values(
        |r: RowView|
            if r.id == id {
                RowView { flags, ..r }
            } else {
                r
            },
    )
}

/// A row with the same content.
pub fn copy_row(row: &IndexRow) -> (r: IndexRow)
    ensures
        r@ == row@,
{
    IndexRow {
        mailbox: row.mailbox.clone(),
        id: row.id,
        message_id: row.message_id.clone(),
        flags: row.flags.clone(),
    }
}

impl Index {
    /// The index without rows.
    pub fn new() -> (index: Self)
        ensures
            index@ == Seq::<RowView>::empty(),
    {
        Index { rows: Vec::new() }
    }

    /// An index with the same rows.
    pub fn copy(&self) -> (index: Self)
        ensures
            index@ == self@,
    {
        let mut rows: Vec<IndexRow> = Vec::new();
        let n = self.rows.len();
        for i in 0..n
            invariant
                n == self.rows@.len(),
                row_views(rows@) == row_views(self.rows@).take(i as int),
        {
            let ghost before = row_views(rows@);
            rows.push(copy_row(&self.rows[i]));
            assert(row_views(rows@) == before.push(self.rows@[i as int]@));
        }
        assert(row_views(self.rows@).take(n as int) == row_views(self.rows@));
        Index { rows }
    }

    /// Saves a row after the others.
    pub fn save(&mut self, row: IndexRow)
        ensures
            final(self)@ == old(self)@.push(row@),
    {
        self.rows.push(row);
        assert(row_views(self.rows@) == row_views(old(self).rows@).push(row@));
    }

    /// Deletes the rows of the message `id` of `mailbox`.
    pub fn delete(&mut self, mailbox: &str, id: MaildirID)
        ensures
            final(self)@ == rows_without(old(self)@, mailbox@, id),
    {
        let mut rows: Vec<IndexRow> = Vec::new();
        let n = self.rows.len();
        let ghost all = row_views(self.rows@);
        for i in 0..n
            invariant
                n == self.rows@.len(),
                *self == *old(self),
                all == row_views(self.rows@),
                row_views(rows@) == rows_without(all.take(i as int), mailbox@, id),
        {
            proof {
                assert(all.take(i + 1).drop_last() == all.take(i as int));
                assert(all.take(i + 1).last() == self.rows@[i as int]@);
                reveal(Seq::filter);
            }
            let row = &self.rows[i];
            if !(str_eq(row.mailbox.as_str(), mailbox) && row.id == id) {
                let ghost before = row_views(rows@);
                rows.push(copy_row(row));
                assert(row_views(rows@) == before.push(row@));
            }
        }
        assert(all.take(n as int) == all);
        self.rows = rows;
    }

    /// Deletes the rows of `mailbox`.
    pub fn delete_mailbox(&mut self, mailbox: &str)
        ensures
            final(self)@ == rows_outside(old(self)@, mailbox@),
    {
        let mut rows: Vec<IndexRow> = Vec::new();
        let n = self.rows.len();
        let ghost all = row_views(self.rows@);
        for i in 0..n
            invariant
                n == self.rows@.len(),
                *self == *old(self),
                all == row_views(self.rows@),
                row_views(rows@) == rows_outside(all.take(i as int), mailbox@),
        {
            proof {
                assert(all.take(i + 1).drop_last() == all.take(i as int));
                assert(all.take(i + 1).last() == self.rows@[i as int]@);
                reveal(Seq::filter);
            }
            let row = &self.rows[i];
            if !str_eq(row.mailbox.as_str(), mailbox) {
                let ghost before = row_views(rows@);
                rows.push(copy_row(row));
                assert(row_views(rows@) == before.push(row@));
            }
        }
        assert(all.take(n as int) == all);
        self.rows = rows;
    }

    /// The rows of `mailbox`, in their order.
    pub fn in_mailbox(&self, mailbox: &str) -> (r: Vec<IndexRow>)
        ensures
            row_views(r@) == rows_in(self@, mailbox@),
    {
        let mut rows: Vec<IndexRow> = Vec::new();
        let n = self.rows.len();
        let ghost all = row_views(self.rows@);
        for i in 0..n
            invariant
                n == self.rows@.len(),
                all == row_views(self.rows@),
                row_views(rows@) == rows_in(all.take(i as int), mailbox@),
        {
            proof {
                assert(all.take(i + 1).drop_last() == all.take(i as int));
                assert(all.take(i + 1).last() == self.rows@[i as int]@);
                reveal(Seq::filter);
            }
            let row = &self.rows[i];
            if str_eq(row.mailbox.as_str(), mailbox) {
                let ghost before = row_views(rows@);
                rows.push(copy_row(row));
                assert(row_views(rows@) == before.push(row@));
            }
        }
        assert(all.take(n as int) == all);
        rows
    }

    /// The rows known under `message_id`, in their order.
    pub fn by_message_id(&self, message_id: &str) -> (r: Vec<IndexRow>)
        ensures
            row_views(r@) == rows_with(self@, message_id@),
    {
        let mut rows: Vec<IndexRow> = Vec::new();
        let n = self.rows.len();
        let ghost all = row_views(self.rows@);
        for i in 0..n
            invariant
                n == self.rows@.len(),
                all == row_views(self.rows@),
                row_views(rows@) == rows_with(all.take(i as int), message_id@),
        {
            proof {
                assert(all.take(i + 1).drop_last() == all.take(i as int));
                assert(all.take(i + 1).last() == self.rows@[i as int]@);
                reveal(Seq::filter);
            }
            let row = &self.rows[i];
            if str_eq(row.message_id.as_str(), message_id) {
                let ghost before = row_views(rows@);
                rows.push(copy_row(row));
                assert(row_views(rows@) == before.push(row@));
            }
        }
        assert(all.take(n as int) == all);
        rows
    }

    /// Replaces the flags of every row of the message `id`.
    pub fn update_flags(&mut self, id: MaildirID, flags: &str)
        ensures
            final(self)@ == rows_flagged(old(self)@, id, flags@),
    {
        let mut rows: Vec<IndexRow> = Vec::new();
        let n = self.rows.len();
        let ghost all = row_views(self.rows@);
        for i in 0..n
            invariant
                n == self.rows@.len(),
                *self == *old(self),
                all == row_views(self.rows@),
                row_views(rows@) == rows_flagged(all.take(i as int), id, flags@),
        {
            let row = &self.rows[i];
            let ghost before = row_views(rows@);
            if row.id == id {
                let copy = IndexRow {
                    mailbox: row.mailbox.clone(),
                    id: row.id,
                    message_id: row.message_id.clone(),
                    flags: flags.to_owned(),
                };
                rows.push(copy);
                assert(row_views(rows@) == before.push(RowView { flags: flags@, ..row@ }));
            } else {
                rows.push(copy_row(row));
                assert(row_views(rows@) == before.push(row@));
            }
            assert(row_views(rows@) =~= rows_flagged(all.take(i + 1), id, flags@));
        }
        assert(all.take(n as int) == all);
        self.rows = rows;
    }
}

} // verus!
