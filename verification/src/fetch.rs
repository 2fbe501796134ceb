//! The incremental fetch of one mailbox: which messages to ask the server
//! for, given what it says of the mailbox and the watermark left by the last
//! run, and the watermark to leave behind.

use vstd::prelude::*;
use crate::id::MaildirID;
use crate::index::{IndexRow, RowView};
use crate::mail::{header_of, parsed_headers, read_headers, HeadersExtension};
use crate::mid::message_id_of;
use crate::text::{
    chars_of, decimal, find_char, parse_u32, parse_u32_chars, position, push_char, push_str,
    slice_chars, trim_chars, trimmed, u32_to_string, u64_to_string,
};

verus! {

/// How far a mailbox was fetched: the epoch, and the last UID known of it.
#[derive(Debug, Clone, Copy, PartialEq, Eq, Structural)]
pub struct Watermark {
    pub uid_validity: u32,
    pub last_uid: u32,
}

/// The UIDs to ask the server for.
#[derive(Debug, Clone, Copy, PartialEq, Eq, Structural)]
pub enum FetchRange {
    /// Every message: `1:*`.
    All,
    /// The messages from this UID on: `{n}:*`.
    From(u64),
    /// No message: there is nothing new.
    Nothing,
}

/// A field of the watermark file: the number it holds, white space around it
/// set aside, or zero where it holds none.
pub open spec fn field_value(field: Seq<char>) -> u32 {
    match parse_u32(trimmed(field)) {
        Some(v) => v,
        None => 0,
    }
}

/// The watermark that the content `"{uid_validity},{last_uid}"` of the file
/// denotes. A field that is missing or is no number counts as zero.
pub open spec fn watermark_of(content: Seq<char>) -> Watermark {
    let i = position(content, ',');
    Watermark {
        uid_validity: field_value(content.take(i)),
        last_uid: if i < content.len() {
            field_value(content.skip(i + 1))
        } else {
            0
        },
    }
}

/// The watermark to go by: that of the file, or zero for both where there is
/// no file.
pub open spec fn watermark_or_zero(content: Option<Seq<char>>) -> Watermark {
    match content {
        Some(c) => watermark_of(c),
        None => Watermark { uid_validity: 0, last_uid: 0 },
    }
}

/// The content of the watermark file: `"{uid_validity},{last_uid}"`.
pub open spec fn watermark_text(w: Watermark) -> Seq<char> {
    decimal(w.uid_validity as nat) + seq![','] + decimal(w.last_uid as nat)
}

/// The UIDs to ask for. A new epoch asks for everything; within the epoch the
/// messages after the last one known are asked for, unless the server's next
/// UID says that there are none.
pub open spec fn range_for(uid_validity: u32, uid_next: u32, w: Watermark) -> FetchRange {
    if uid_validity != w.uid_validity {
        FetchRange::All
    } else if uid_next != w.last_uid + 1 {
        FetchRange::From((w.last_uid + 1) as u64)
    } else {
        FetchRange::Nothing
    }
}

/// The UID set of a `UID FETCH` for the range; none for `Nothing`.
pub open spec fn range_text(range: FetchRange) -> Option<Seq<char>> {
    match range {
        FetchRange::All => Some(seq!['1', ':', '*']),
        FetchRange::From(n) => Some(decimal(n as nat) + seq![':', '*']),
        FetchRange::Nothing => None,
    }
}

/// The greatest of `start` and the UIDs.
pub open spec fn largest_uid(start: u32, uids: Seq<u32>) -> u32
    decreases uids.len(),
{
    if uids.len() == 0 {
        start
    } else {
        let rest = largest_uid(start, uids.drop_last());
        if uids.last() > rest {
            uids.last()
        } else {
            rest
        }
    }
}

/// The last UID known before a run: that of the watermark within its epoch,
/// zero in a new epoch.
pub open spec fn known_uid(uid_validity: u32, w: Watermark) -> u32 {
    if w.uid_validity == uid_validity {
        w.last_uid
    } else {
        0
    }
}

/// The watermark after a run that fetched the messages `uids`: the server's
/// epoch, and the greater of the UID before its next one and of the largest
/// UID seen.
pub open spec fn watermark_after(uid_validity: u32, uid_next: u32, w: Watermark, uids: Seq<u32>)
    -> Watermark {
    let largest = largest_uid(known_uid(uid_validity, w), uids);
    Watermark {
        uid_validity,
        last_uid: if uid_next - 1 > largest {
            (uid_next - 1) as u32
        } else {
            largest
        },
    }
}

/// The index row of a fetched message: it is known under its `Message-ID`, or
/// under a made-up identifier; its flag string is empty. Nothing where the
/// header section of the message cannot be read.
pub open spec fn fetched_row(mailbox: Seq<char>, id: MaildirID, body: Seq<u8>) -> Option<
    RowView,
> {
    match parsed_headers(body) {
        Some(headers) => Some(
            RowView {
                mailbox,
                id,
                message_id: message_id_of(header_of(headers, "Message-ID"@), mailbox, id),
                flags: seq![],
            },
        ),
        None => None,
    }
}

fn read_field(field: &Vec<char>) -> (r: u32)
    ensures
        r == field_value(field@),
{
    let t = trim_chars(field);
    match parse_u32_chars(&t) {
        Some(v) => v,
        None => 0,
    }
}

/// Reads the content of the watermark file.
pub fn parse_watermark(content: &str) -> (w: Watermark)
    ensures
        w == watermark_of(content@),
{
    let v = chars_of(content);
    let i = find_char(&v, ',');
    let head = slice_chars(&v, 0, i);
    assert(head@ == content@.take(i as int));
    let uid_validity = read_field(&head);
    let last_uid = if i < v.len() {
        let tail = slice_chars(&v, i + 1, v.len());
        assert(tail@ == content@.skip(i + 1));
        read_field(&tail)
    } else {
        0
    };
    Watermark { uid_validity, last_uid }
}

/// The watermark to go by, given the content of the file if there is one.
pub fn read_watermark(content: Option<&str>) -> (w: Watermark)
    ensures
        w == watermark_or_zero(
            match content {
                Some(c) => Some(c@),
                None => None,
            },
        ),
{
    match content {
        Some(c) => parse_watermark(c),
        None => Watermark { uid_validity: 0, last_uid: 0 },
    }
}

/// The content to write to the watermark file.
pub fn render_watermark(w: Watermark) -> (s: String)
    ensures
        s@ == watermark_text(w),
{
    let mut s = u32_to_string(w.uid_validity);
    push_char(&mut s, ',');
    push_str(&mut s, u32_to_string(w.last_uid).as_str());
    s
}

/// Chooses the UIDs to ask the server for.
pub fn choose_range(uid_validity: u32, uid_next: u32, w: Watermark) -> (r: FetchRange)
    ensures
        r == range_for(uid_validity, uid_next, w),
{
    if uid_validity != w.uid_validity {
        FetchRange::All
    } else if uid_next as u64 != w.last_uid as u64 + 1 {
        FetchRange::From(w.last_uid as u64 + 1)
    } else {
        FetchRange::Nothing
    }
}

/// The UID set of the `UID FETCH` command for a range.
pub fn range_to_string(range: FetchRange) -> (r: Option<String>)
    ensures
        match r {
            Some(s) => range_text(range) == Some(s@),
            None => range_text(range) is None,
        },
{
    match range {
        FetchRange::All => {
            let mut s = String::new();
            push_char(&mut s, '1');
            push_char(&mut s, ':');
            push_char(&mut s, '*');
            assert(s@ =~= seq!['1', ':', '*']);
            Some(s)
        },
        FetchRange::From(n) => {
            let mut s = u64_to_string(n);
            push_char(&mut s, ':');
            push_char(&mut s, '*');
            assert(s@ =~= decimal(n as nat) + seq![':', '*']);
            Some(s)
        },
        FetchRange::Nothing => None,
    }
}

/// The watermark to leave behind after a run that fetched `uids`.
pub fn finish_fetch(uid_validity: u32, uid_next: u32, w: Watermark, uids: &[u32]) -> (r:
    Watermark)
    ensures
        r == watermark_after(uid_validity, uid_next, w, uids@),
{
    let start = if w.uid_validity == uid_validity {
        w.last_uid
    } else {
        0
    };
    let mut largest = start;
    let n = uids.len();
    for i in 0..n
        invariant
            n == uids@.len(),
            largest == largest_uid(start, uids@.take(i as int)),
    {
        proof {
            assert(uids@.take(i + 1).drop_last() == uids@.take(i as int));
        }
        if uids[i] > largest {
            largest = uids[i];
        }
    }
    assert(uids@.take(n as int) == uids@);
    let last_uid = if uid_next > 0 && uid_next - 1 > largest {
        uid_next - 1
    } else {
        largest
    };
    Watermark { uid_validity, last_uid }
}

/// The index row to save for a fetched message that was not stored yet.
pub fn row_for_fetched(mailbox: &str, id: MaildirID, body: &[u8]) -> (r: Option<IndexRow>)
    ensures
        match r {
            Some(row) => fetched_row(mailbox@, id, body@) == Some(row@),
            None => fetched_row(mailbox@, id, body@) is None,
        },
{
    match read_headers(body) {
        Some(headers) => {
            let message_id = headers.message_id(mailbox, id);
            Some(
                IndexRow {
                    mailbox: mailbox.to_owned(),
                    id,
                    message_id,
                    flags: String::new(),
                },
            )
        },
        None => None,
    }
}

/// What the server answers to a `UID FETCH` of the range, of the messages
/// `uids` that the mailbox holds: those of the range. A range that starts
/// above every UID still names the last message, as `*` stands for it.
pub open spec fn server_answer(uids: Set<u32>, range: FetchRange) -> Set<u32> {
    match range {
        FetchRange::All => uids,
        FetchRange::From(n) => Set::new(
            |u: u32|
                uids.contains(u) && (u >= n || forall|x: u32| uids.contains(x) ==> x <= u),
        ),
        FetchRange::Nothing => Set::empty(),
    }
}

/// The watermark file after a run: a run with nothing to fetch leaves it as it
/// was.
pub open spec fn file_after(uid_validity: u32, uid_next: u32, w: Watermark, uids: Seq<u32>)
    -> Watermark {
    if range_for(uid_validity, uid_next, w) is Nothing {
        w
    } else {
        watermark_after(uid_validity, uid_next, w, uids)
    }
}

/// The largest UID is the start or one of the UIDs, and none is greater.
pub proof fn lemma_largest_uid(start: u32, uids: Seq<u32>)
    ensures
        largest_uid(start, uids) >= start,
        forall|i: int| 0 <= i < uids.len() ==> uids[i] <= largest_uid(start, uids),
        largest_uid(start, uids) == start || uids.contains(largest_uid(start, uids)),
    decreases uids.len(),
{
    if uids.len() > 0 {
        let rest = uids.drop_last();
        lemma_largest_uid(start, rest);
        let m = largest_uid(start, rest);
        assert forall|i: int| 0 <= i < uids.len() implies uids[i] <= largest_uid(start, uids) by {
            if i < rest.len() {
                assert(rest[i] == uids[i]);
            }
        }
        if largest_uid(start, uids) != start {
            if uids.last() > m {
                assert(uids[uids.len() - 1] == uids.last());
            } else {
                let k = choose|k: int| 0 <= k < rest.len() && rest[k] == m;
                assert(uids[k] == m);
            }
        }
    }
}

/// Fetching twice from a server that did not change is fetching once. The
/// mailbox holds the messages `uids`, all below the server's next UID. The
/// first run finds the watermark `w` and is answered with `first`, the second
/// finds what the first left and is answered with `second`. Then the second
/// run is handed no message that the first was not handed or that the
/// watermark did not already cover, and it leaves the watermark file as it
/// found it.
pub proof fn lemma_fetch_twice(
    uid_validity: u32,
    uid_next: u32,
    uids: Set<u32>,
    w: Watermark,
    first: Seq<u32>,
    second: Seq<u32>,
)
    requires
        forall|u: u32| uids.contains(u) ==> u < uid_next,
        first.to_set() == server_answer(uids, range_for(uid_validity, uid_next, w)),
        second.to_set() == server_answer(
            uids,
            range_for(uid_validity, uid_next, file_after(uid_validity, uid_next, w, first)),
        ),
    ensures
        !(range_for(uid_validity, uid_next, w) is Nothing) ==> second.to_set().subset_of(
            first.to_set(),
        ),
        range_for(uid_validity, uid_next, w) is Nothing ==> second.len() == 0,
        file_after(
            uid_validity,
            uid_next,
            file_after(uid_validity, uid_next, w, first),
            second,
        ) == file_after(uid_validity, uid_next, w, first),
{
    let r1 = range_for(uid_validity, uid_next, w);
    let w1 = file_after(uid_validity, uid_next, w, first);
    let r2 = range_for(uid_validity, uid_next, w1);
    if r1 is Nothing {
        assert(second.to_set() == Set::<u32>::empty());
        if second.len() > 0 {
            assert(second.to_set().contains(second[0]));
        }
    } else {
        let start1 = known_uid(uid_validity, w);
        lemma_largest_uid(start1, first);
        lemma_largest_uid(w1.last_uid, second);
        assert(w1.uid_validity == uid_validity);
        assert(w1.last_uid >= uid_next - 1);
        assert forall|u: u32| second.to_set().contains(u) implies first.to_set().contains(u) by {
            assert(uids.contains(u));
            assert(u < uid_next);
            assert(r2 is From);
            assert(forall|x: u32| uids.contains(x) ==> x <= u);
        }
        assert forall|i: int| 0 <= i < second.len() implies second[i] <= w1.last_uid by {
            assert(second.to_set().contains(second[i]));
        }
        if largest_uid(w1.last_uid, second) != w1.last_uid {
            let m = largest_uid(w1.last_uid, second);
            let k = choose|k: int| 0 <= k < second.len() && second[k] == m;
            assert(second[k] <= w1.last_uid);
        }
    }
}

/// Within an epoch the watermark never falls back, and no UID that was seen
/// lies above it. A new epoch starts it anew: it then depends on what the
/// server says and sends alone.
pub proof fn lemma_watermark_moves_on(
    uid_validity: u32,
    uid_next: u32,
    w: Watermark,
    other: Watermark,
    uids: Seq<u32>,
)
    ensures
        watermark_after(uid_validity, uid_next, w, uids).uid_validity == uid_validity,
        w.uid_validity == uid_validity ==> watermark_after(
            uid_validity,
            uid_next,
            w,
            uids,
        ).last_uid >= w.last_uid,
        forall|i: int|
            0 <= i < uids.len() ==> uids[i] <= watermark_after(
                uid_validity,
                uid_next,
                w,
                uids,
            ).last_uid,
        w.uid_validity != uid_validity && other.uid_validity != uid_validity ==> watermark_after(
            uid_validity,
            uid_next,
            w,
            uids,
        ) == watermark_after(uid_validity, uid_next, other, uids),
{
    lemma_largest_uid(known_uid(uid_validity, w), uids);
}

} // verus!
