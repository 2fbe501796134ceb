//! Message identifiers: the `Message-ID` of a message, and the identifier made
//! up for a message that has none.

use vstd::prelude::*;
use crate::id::{gen_id, id_name, MaildirID};
use crate::text::{ends_with, has_suffix, push_char, push_str};

verus! {

/// The identifier made up for the message `id` of `mailbox`:
/// `<{mailbox}_{uid_validity}_{uid}@no-message-id>`.
pub open spec fn fallback_of(mailbox: Seq<char>, id: MaildirID) -> Seq<char> {
    seq!['<'] + mailbox + seq!['_'] + id_name(id.uid_validity, id.uid) + "@no-message-id>"@
}

/// Whether `message_id` has the form of a made-up identifier.
pub open spec fn is_fallback(message_id: Seq<char>) -> bool {
    has_suffix(message_id, "@no-message-id>"@)
}

/// The identifier under which a message is known: its `Message-ID`, or the
/// made-up one where the header is missing or empty.
pub open spec fn message_id_of(header: Seq<char>, mailbox: Seq<char>, id: MaildirID) -> Seq<
    char,
> {
    if header.len() == 0 {
        fallback_of(mailbox, id)
    } else {
        header
    }
}

/// The identifier made up for a message without `Message-ID`.
pub fn fallback_mid(mailbox: &str, id: MaildirID) -> (r: String)
    ensures
        r@ == fallback_of(mailbox@, id),
{
    let mut r = String::new();
    push_char(&mut r, '<');
    push_str(&mut r, mailbox);
    push_char(&mut r, '_');
    let name = gen_id(id.uid_validity, id.uid);
    push_str(&mut r, name.as_str());
    push_str(&mut r, "@no-message-id>");
    r
}

/// Whether `message_id` was made up for a message without `Message-ID`.
pub fn is_fallback_mid(message_id: &str) -> (r: bool)
    ensures
        r == is_fallback(message_id@),
{
    ends_with(message_id, "@no-message-id>")
}

/// The identifier under which a message is known, given the joined values of
/// its `Message-ID` headers.
pub fn message_id_or_fallback(header: String, mailbox: &str, id: MaildirID) -> (r: String)
    ensures
        r@ == message_id_of(header@, mailbox@, id),
{
    if header.as_str().unicode_len() == 0 {
        fallback_mid(mailbox, id)
    } else {
        header
    }
}

/// A made-up identifier is recognised as one.
pub proof fn lemma_fallback_is_fallback(mailbox: Seq<char>, id: MaildirID)
    ensures
        is_fallback(fallback_of(mailbox, id)),
{
    let head = seq!['<'] + mailbox + seq!['_'] + id_name(id.uid_validity, id.uid);
    let tail = "@no-message-id>"@;
    let s = fallback_of(mailbox, id);
    assert(s == head + tail);
    assert(s.skip(s.len() - tail.len()) =~= tail);
}

} // verus!
