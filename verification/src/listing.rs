//! What the listings show of a message, and what the mailbox tools decide by
//! its flags.

use vstd::prelude::*;
use crate::flags::{
    flag_list, imap_flags_to_cmd, maildir_flags_to_imap, server_flags, DELETE, FLAGGED, REPLIED,
    SEEN, TRASHED,
};
use crate::index::{IndexRow, RowView};
use crate::mail::{header_of, EasyMail};
use crate::mid::message_id_of;
use crate::text::{chars_of, contains_char, push_char, push_chars, push_str, slice_chars};

verus! {

/// How a line of the browser is styled.
#[derive(Debug, Clone, Copy, PartialEq, Eq, Structural)]
pub enum RowStyle {
    /// The message waits to be destroyed.
    Deleted,
    /// The message waits to be moved to the trash.
    Trashed,
    /// The message was not read.
    Unread,
    Plain,
}

/// The style of a line: a message marked `E` shows as deleted; failing that,
/// one marked `T` as trashed; failing that, one without `S` as unread.
pub open spec fn style_of(flags: Seq<char>) -> RowStyle {
    if flags.contains('E') {
        RowStyle::Deleted
    } else if flags.contains('T') {
        RowStyle::Trashed
    } else if !flags.contains('S') {
        RowStyle::Unread
    } else {
        RowStyle::Plain
    }
}

/// The marks that a listing shows for a flag string: `+` for a flagged
/// message, `R` for one replied to, and last a blank for a message read or
/// `*` for one not read.
pub open spec fn marks_of(flags: Seq<char>) -> Seq<char> {
    let a: Seq<char> = if flags.contains('F') {
        seq!['+']
    } else {
        seq![]
    };
    let b = if flags.contains('R') {
        a.push('R')
    } else {
        a
    };
    if flags.contains('S') {
        b.push(' ')
    } else {
        b.push('*')
    }
}

/// The number of flag strings without `S`.
pub open spec fn unread_among(flags: Seq<Seq<char>>) -> nat
    decreases flags.len(),
{
    if flags.len() == 0 {
        0
    } else {
        unread_among(flags.drop_last()) + if flags.last().contains('S') {
            0nat
        } else {
            1nat
        }
    }
}

/// `s` cut or filled with blanks to `width` characters.
pub open spec fn fitted(s: Seq<char>, width: nat) -> Seq<char> {
    if s.len() >= width {
        s.take(width as int)
    } else {
        s + Seq::new((width - s.len()) as nat, |i: int| ' ')
    }
}

/// The room for the subject in a line of `width` characters that also holds
/// the sender and the date, each after one blank.
pub open spec fn subject_room(width: nat, from: Seq<char>, date: Seq<char>) -> nat {
    if width >= from.len() + date.len() + 2 {
        (width - from.len() - date.len() - 2) as nat
    } else {
        0
    }
}

/// A line of the browser: the subject fitted to its room, a blank, the
/// sender, a blank, the date.
pub open spec fn line_of(subject: Seq<char>, from: Seq<char>, date: Seq<char>, width: nat)
    -> Seq<char> {
    fitted(subject, subject_room(width, from, date)) + seq![' '] + from + seq![' '] + date
}

/// The style of the line of a message with these flags.
pub fn row_style(flags: &str) -> (r: RowStyle)
    ensures
        r == style_of(flags@),
{
    if contains_char(flags, DELETE) {
        RowStyle::Deleted
    } else if contains_char(flags, TRASHED) {
        RowStyle::Trashed
    } else if !contains_char(flags, SEEN) {
        RowStyle::Unread
    } else {
        RowStyle::Plain
    }
}

/// The marks that a listing shows for a flag string.
pub fn flags_display(flags: &str) -> (r: String)
    ensures
        r@ == marks_of(flags@),
{
    let mut r = String::new();
    if contains_char(flags, FLAGGED) {
        push_char(&mut r, '+');
    }
    if contains_char(flags, REPLIED) {
        push_char(&mut r, 'R');
    }
    if contains_char(flags, SEEN) {
        push_char(&mut r, ' ');
    } else {
        push_char(&mut r, '*');
    }
    r
}

/// Whether a message counts as unread.
pub fn is_unread(flags: &str) -> (r: bool)
    ensures
        r == !flags@.contains('S'),
{
    !contains_char(flags, SEEN)
}

/// The number of unread messages of a mailbox, given their flag strings.
pub fn count_unread(flags: &Vec<String>) -> (r: usize)
    ensures
        r == unread_among(crate::text::views(flags@)),
{
    let n = flags.len();
    let mut r: usize = 0;
    let ghost v = crate::text::views(flags@);
    for i in 0..n
        invariant
            n == flags@.len(),
            v == crate::text::views(flags@),
            r == unread_among(v.take(i as int)),
            r <= i,
    {
        proof {
            assert(v.take(i + 1).drop_last() == v.take(i as int));
            assert(v.take(i + 1).last() == flags@[i as int]@);
        }
        if is_unread(flags[i].as_str()) {
            r += 1;
        }
    }
    assert(v.take(n as int) == v);
    r
}

/// Whether a directory is a mailbox of the user: its name does not start with
/// a dot.
pub fn is_mailbox_name(name: &str) -> (r: bool)
    ensures
        r == !(name@.len() > 0 && name@[0] == '.'),
{
    let v = chars_of(name);
    !(v.len() > 0 && v[0] == '.')
}

/// Whether the filter passes a message over: one that waits to be trashed or
/// destroyed is not filtered.
pub fn skips_filter(flags: &str) -> (r: bool)
    ensures
        r == (flags@.contains('T') || flags@.contains('E')),
{
    contains_char(flags, TRASHED) || contains_char(flags, DELETE)
}

/// The `UID STORE` argument that sets the flags of a message on the server to
/// those that its flag string stands for.
pub fn filter_store_query(flags: &str) -> (r: String)
    ensures
        r@ == "FLAGS.SILENT "@ + flag_list(server_flags(flags@)),
{
    let mut r = String::new();
    push_str(&mut r, "FLAGS.SILENT ");
    let f = maildir_flags_to_imap(flags);
    push_str(&mut r, imap_flags_to_cmd(f.as_slice()).as_str());
    r
}

/// The index row of a stored message of `mailbox`.
pub fn row_of_mail(mailbox: &str, mail: &EasyMail) -> (r: IndexRow)
    requires
        !mail@.pseudo,
    ensures
        r@ == (RowView {
            mailbox: mailbox@,
            id: mail@.id,
            message_id: message_id_of(header_of(mail@.headers, "Message-ID"@), mailbox@, mail@.id),
            flags: mail@.flags,
        }),
{
    IndexRow {
        mailbox: mailbox.to_owned(),
        id: mail.id,
        message_id: mail.message_id(mailbox),
        flags: mail.get_flags(),
    }
}

/// A line of the browser, `width` characters wide where the subject can be
/// fitted to that.
pub fn listing_line(subject: &str, from: &str, date: &str, width: usize) -> (r: String)
    ensures
        r@ == line_of(subject@, from@, date@, width as nat),
{
    let s = chars_of(subject);
    let f = chars_of(from);
    let d = chars_of(date);
    let taken: usize = if f.len() <= width && d.len() <= width - f.len() && 2 <= width - f.len()
        - d.len() {
        width - f.len() - d.len() - 2
    } else {
        0
    };
    assert(taken == subject_room(width as nat, from@, date@));
    let mut r = String::new();
    if s.len() >= taken {
        let head = slice_chars(&s, 0, taken);
        push_chars(&mut r, &head);
        assert(r@ =~= fitted(subject@, taken as nat));
    } else {
        push_chars(&mut r, &s);
        let pad = taken - s.len();
        for i in 0..pad
            invariant
                pad == taken - s@.len(),
                s@ == subject@,
                r@ == s@ + Seq::new(i as nat, |k: int| ' '),
        {
            push_char(&mut r, ' ');
            assert(r@ =~= s@ + Seq::new((i + 1) as nat, |k: int| ' '));
        }
        assert(r@ =~= fitted(subject@, taken as nat));
    }
    push_char(&mut r, ' ');
    push_chars(&mut r, &f);
    push_char(&mut r, ' ');
    push_chars(&mut r, &d);
    r
}

} // verus!
