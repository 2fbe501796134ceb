//! The record of one message: what a listing, the planner and the
//! conversation graph need to know of it.

use vstd::prelude::*;
use crate::flags::{flag_char, imap_flag_to_maildir, Flag, SEEN, UNREAD};
use crate::id::{parse_id, IdError, MaildirID};
use crate::mid::{message_id_of, message_id_or_fallback};
use crate::text::{
    chars_of, char_code, contains_char, join, joined, push_char, push_str, remove_char, views,
    without_char,
};

verus! {

/// One header line of a message: its name and its decoded value.
#[derive(Debug, Clone, PartialEq, Eq)]
pub struct Header {
    pub key: String,
    pub value: String,
}

/// The one sender of a message.
#[derive(Debug, Clone, PartialEq, Eq)]
pub struct Sender {
    pub display_name: Option<String>,
    pub addr: String,
}

/// A message as the store hands it over: the name it is stored under, its
/// flag string and its bytes.
#[derive(Debug, Clone, PartialEq, Eq)]
pub struct RawEntry {
    pub id: String,
    pub flags: String,
    pub data: Vec<u8>,
}

/// Why no record could be made of a stored message.
#[derive(Debug, Clone, Copy, PartialEq, Eq, Structural)]
pub enum MailError {
    /// The name it is stored under is no identifier.
    Id(IdError),
    /// Its header section could not be read.
    Headers,
}

/// The record of one message. A pseudo record stands for a message that others
/// refer to and that is not stored.
#[derive(Debug, Clone, PartialEq, Eq)]
pub struct EasyMail {
    /// The header lines; `None` in a pseudo record.
    pub headers: Option<Vec<Header>>,
    pub id: MaildirID,
    pub flags: String,
    pub from: Option<Sender>,
    pub from_raw: String,
    pub subject: String,
    /// Seconds since the epoch, in UTC.
    pub date: i64,
    /// The date to the minute, `YYYY-MM-DD HH:MM` in UTC.
    pub date_iso: String,
}

/// What a record says, as plain values.
pub struct MailView {
    pub pseudo: bool,
    pub headers: Seq<(Seq<char>, Seq<char>)>,
    pub id: MaildirID,
    pub flags: Seq<char>,
    pub from: Option<(Option<Seq<char>>, Seq<char>)>,
    pub from_raw: Seq<char>,
    pub subject: Seq<char>,
    pub date: int,
    pub date_iso: Seq<char>,
}

/// The header lines as pairs of name and value.
pub open spec fn header_pairs(headers: Seq<Header>) -> Seq<(Seq<char>, Seq<char>)> {
    headers.map_values(|h: Header| (h.key@, h.value@))
}

/// The text as plain characters, if there is one.
pub open spec fn optional_text(s: Option<String>) -> Option<Seq<char>> {
    match s {
        Some(s) => Some(s@),
        None => None,
    }
}

/// The sender as display name and address, if there is one.
pub open spec fn sender_pair(s: Option<Sender>) -> Option<(Option<Seq<char>>, Seq<char>)> {
    match s {
        Some(s) => Some((optional_text(s.display_name), s.addr@)),
        None => None,
    }
}

/// The header lines as pairs of name and value, if there are any.
pub open spec fn optional_pairs(h: Option<Vec<Header>>) -> Option<Seq<(Seq<char>, Seq<char>)>> {
    match h {
        Some(h) => Some(header_pairs(h@)),
        None => None,
    }
}

impl View for EasyMail {
    type V = MailView;

    open spec fn view(&self) -> MailView {
        MailView {
            pseudo: self.headers is None,
            headers: match self.headers {
                Some(h) => header_pairs(h@),
                None => seq![],
            },
            id: self.id,
            flags: self.flags@,
            from: sender_pair(self.from),
            from_raw: self.from_raw@,
            subject: self.subject@,
            date: self.date as int,
            date_iso: self.date_iso@,
        }
    }
}

/// The header section that the bytes of a message start with, as `mailparse`
/// reads it: the lines in order, each with its name and its decoded value.
pub uninterp spec fn parsed_headers(raw: Seq<u8>) -> Option<Seq<(Seq<char>, Seq<char>)>>;

/// The one sender that `mailparse` finds in the value of a `From` header: the
/// display name, if any, and the address.
pub uninterp spec fn parsed_sender(from: Seq<char>) -> Option<(Option<Seq<char>>, Seq<char>)>;

/// The moment that `mailparse` reads from the value of a `Date` header, in
/// seconds since the epoch.
pub uninterp spec fn parsed_date(date: Seq<char>) -> Option<int>;

/// The moment `ts` seconds after the epoch as `chrono` writes it in UTC with
/// the format `%Y-%m-%d %H:%M`; nothing where `chrono` has no such moment.
pub uninterp spec fn rendered_minute(ts: int) -> Option<Seq<char>>;

/// The first header line of `raw`, as `mailparse` reads it: its name and its
/// decoded value.
pub uninterp spec fn parsed_header(raw: Seq<u8>) -> Option<(Seq<char>, Seq<char>)>;

/// Reads the header line that `raw` starts with.
///
/// Calls `mailparse::parse_header` and takes from the header its name
/// (`get_key`) and its decoded value (`get_value`). The contract names the
/// outcome `parsed_header`; `None` stands for the parser's error.
#[verifier::external_body]
pub(crate) fn read_header(raw: &[u8]) -> (r: Option<Header>)
    ensures
        match r {
            Some(h) => parsed_header(raw@) == Some((h.key@, h.value@)),
            None => parsed_header(raw@) is None,
        },
{
    match mailparse::parse_header(raw) {
        Ok((h, _)) => Some(Header { key: h.get_key(), value: h.get_value() }),
        Err(_) => None,
    }
}

/// Reads the header section at the start of `raw`.
///
/// Calls `mailparse::parse_headers` and takes from each header its name
/// (`get_key`) and its decoded value (`get_value`). The contract names the
/// outcome `parsed_headers` and says nothing more of it: `None` stands for
/// the parser's error.
#[verifier::external_body]
pub(crate) fn read_headers(raw: &[u8]) -> (r: Option<Vec<Header>>)
    ensures
        optional_pairs(r) == parsed_headers(raw@),
{
    match mailparse::parse_headers(raw) {
        Ok((headers, _)) => Some(
            headers.iter().map(|h| Header { key: h.get_key(), value: h.get_value() }).collect(),
        ),
        Err(_) => None,
    }
}

/// Reads the one sender out of the value of a `From` header.
///
/// Calls `mailparse::addrparse` and then `extract_single_info` on its list,
/// which gives an address only where the list holds exactly one, outside any
/// group. The contract names the outcome `parsed_sender`; `None` stands for a
/// parse error as well as for any other number of addresses.
#[verifier::external_body]
pub(crate) fn read_sender(from: &str) -> (r: Option<Sender>)
    ensures
        sender_pair(r) == parsed_sender(from@),
{
    match mailparse::addrparse(from).map(|list| list.extract_single_info()) {
        Ok(Some(info)) => Some(Sender { display_name: info.display_name, addr: info.addr }),
        _ => None,
    }
}

/// Reads the moment out of the value of a `Date` header.
///
/// Calls `mailparse::dateparse`. The contract names the outcome
/// `parsed_date`; `None` stands for the parser's error.
#[verifier::external_body]
pub(crate) fn read_date(date: &str) -> (r: Option<i64>)
    ensures
        match r {
            Some(ts) => parsed_date(date@) == Some(ts as int),
            None => parsed_date(date@) is None,
        },
{
    mailparse::dateparse(date).ok()
}

/// Writes a moment to the minute, in UTC.
///
/// Calls `chrono::DateTime::from_timestamp` and formats its result with
/// `%Y-%m-%d %H:%M`. The contract names the outcome `rendered_minute`; `None`
/// stands for a moment outside the range of `chrono`.
#[verifier::external_body]
pub(crate) fn render_minute(ts: i64) -> (r: Option<String>)
    ensures
        optional_text(r) == rendered_minute(ts as int),
{
    chrono::DateTime::from_timestamp(ts, 0).map(|d| d.format("%Y-%m-%d %H:%M").to_string())
}

/// The code point of `c`, with the ASCII capitals mapped to their small
/// letters.
pub open spec fn fold_case(c: char) -> int {
    let x = c as int;
    if 65 <= x <= 90 {
        x + 32
    } else {
        x
    }
}

/// Whether two header names are the same: they are compared without regard to
/// the case of ASCII letters.
pub open spec fn same_key(a: Seq<char>, b: Seq<char>) -> bool {
    a.len() == b.len() && forall|i: int| 0 <= i < a.len() ==> fold_case(#[trigger] a[i])
        == fold_case(b[i])
}

/// The values of the headers named `key`, in the order of the lines.
pub open spec fn values_of(headers: Seq<(Seq<char>, Seq<char>)>, key: Seq<char>) -> Seq<
    Seq<char>,
>
    decreases headers.len(),
{
    if headers.len() == 0 {
        seq![]
    } else if same_key(headers.last().0, key) {
        values_of(headers.drop_last(), key).push(headers.last().1)
    } else {
        values_of(headers.drop_last(), key)
    }
}

/// The values of the headers named `key`, joined by single spaces.
pub open spec fn header_of(headers: Seq<(Seq<char>, Seq<char>)>, key: Seq<char>) -> Seq<char> {
    joined(values_of(headers, key), seq![' '])
}

fn fold(c: char) -> (x: u32)
    ensures
        x == fold_case(c),
{
    let x = char_code(c);
    if 65 <= x && x <= 90 {
        x + 32
    } else {
        x
    }
}

/// Whether two header names are the same.
pub fn key_matches(a: &str, b: &str) -> (r: bool)
    ensures
        r == same_key(a@, b@),
{
    let x = chars_of(a);
    let y = chars_of(b);
    if x.len() != y.len() {
        return false;
    }
    let n = x.len();
    for i in 0..n
        invariant
            n == x@.len(),
            n == y@.len(),
            x@ == a@,
            y@ == b@,
            forall|j: int| 0 <= j < i ==> fold_case(#[trigger] x@[j]) == fold_case(y@[j]),
    {
        if fold(x[i]) != fold(y[i]) {
            return false;
        }
    }
    true
}

/// The values of the headers named `key`, in the order of the lines.
pub fn get_all_values(headers: &Vec<Header>, key: &str) -> (r: Vec<String>)
    ensures
        views(r@) == values_of(header_pairs(headers@), key@),
{
    let mut r: Vec<String> = Vec::new();
    let n = headers.len();
    let ghost p = header_pairs(headers@);
    for i in 0..n
        invariant
            n == headers@.len(),
            p == header_pairs(headers@),
            views(r@) == values_of(p.take(i as int), key@),
    {
        proof {
            assert(p.take(i + 1).drop_last() == p.take(i as int));
            assert(p.take(i + 1).last() == (headers@[i as int].key@, headers@[i as int].value@));
        }
        if key_matches(headers[i].key.as_str(), key) {
            let ghost before = views(r@);
            r.push(headers[i].value.clone());
            assert(views(r@) == before.push(headers@[i as int].value@));
        }
    }
    assert(p.take(n as int) == p);
    r
}

/// What the headers of a message say to the library.
pub trait HeadersExtension {
    /// The header lines as pairs of name and value.
    spec fn pairs(&self) -> Seq<(Seq<char>, Seq<char>)>;

    /// The identifier under which the message is known: the joined values of
    /// its `Message-ID` headers, or the made-up one where there is none.
    fn message_id(&self, mailbox: &str, id: MaildirID) -> (r: String)
        ensures
            r@ == message_id_of(header_of(self.pairs(), "Message-ID"@), mailbox@, id),
    ;

    /// The values of the headers named `header`, joined by single spaces.
    fn get_header(&self, header: &str) -> (r: String)
        ensures
            r@ == header_of(self.pairs(), header@),
    ;
}

impl HeadersExtension for Vec<Header> {
    open spec fn pairs(&self) -> Seq<(Seq<char>, Seq<char>)> {
        header_pairs(self@)
    }

    fn message_id(&self, mailbox: &str, id: MaildirID) -> (r: String) {
        let mid = self.get_header("Message-ID");
        message_id_or_fallback(mid, mailbox, id)
    }

    fn get_header(&self, header: &str) -> (r: String) {
        let values = get_all_values(self, header);
        proof {
            reveal_strlit(" ");
            assert(" "@ =~= seq![' ']);
        }
        join(&values, " ")
    }
}

/// The date shown where a message has none that could be read.
pub open spec fn unknown_date() -> Seq<char> {
    "????-??-??"@
}

/// The sender as a listing shows it: the display name, followed by the address
/// in angle brackets where addresses are to be shown; the raw `From` value
/// where no single sender could be read.
pub open spec fn shown_sender(m: MailView, show_email_addresses: bool) -> Seq<char> {
    match m.from {
        Some((display_name, addr)) => {
            let name = match display_name {
                Some(n) => n,
                None => seq![],
            };
            if show_email_addresses {
                name + seq![' ', '<'] + addr + seq!['>']
            } else {
                name
            }
        },
        None => m.from_raw,
    }
}

/// The flag string after the message was marked as read or as unread: read
/// adds `S` and drops every `U`; unread drops every `S` and adds `U`.
pub open spec fn marked(flags: Seq<char>, read: bool) -> Seq<char> {
    if read {
        without_char(flags.push('S'), 'U')
    } else {
        without_char(flags, 'S').push('U')
    }
}

/// The record of a stored message, given what was read from it. Without a
/// moment the date is the epoch and is shown as unknown; a moment that cannot
/// be written is shown as unknown too.
pub open spec fn assembled(
    id: MaildirID,
    flags: Seq<char>,
    headers: Seq<(Seq<char>, Seq<char>)>,
    from: Option<(Option<Seq<char>>, Seq<char>)>,
    date: Option<int>,
    date_iso: Option<Seq<char>>,
) -> MailView {
    MailView {
        pseudo: false,
        headers,
        id,
        flags,
        from,
        from_raw: header_of(headers, "From"@),
        subject: header_of(headers, "Subject"@),
        date: match date {
            Some(ts) => ts,
            None => 0,
        },
        date_iso: match (date, date_iso) {
            (Some(_), Some(s)) => s,
            _ => unknown_date(),
        },
    }
}

/// The moment of a message: what its `Date` headers say, if there are any and
/// they can be read.
pub open spec fn moment_of(headers: Seq<(Seq<char>, Seq<char>)>) -> Option<int> {
    if values_of(headers, "Date"@).len() == 0 {
        None
    } else {
        parsed_date(header_of(headers, "Date"@))
    }
}

/// The record of the stored message `id` with the given flags and headers.
pub open spec fn record_of(id: MaildirID, flags: Seq<char>, headers: Seq<(Seq<char>, Seq<char>)>)
    -> MailView {
    let date = moment_of(headers);
    assembled(
        id,
        flags,
        headers,
        parsed_sender(header_of(headers, "From"@)),
        date,
        match date {
            Some(ts) => rendered_minute(ts),
            None => None,
        },
    )
}

/// The record of a stored message, or the reason why there is none.
#[verifier::opaque]
pub open spec fn entry_record(entry: RawEntry) -> Result<MailView, MailError> {
    match parse_id(entry.id@) {
        Err(e) => Err(MailError::Id(e)),
        Ok(id) => match parsed_headers(entry.data@) {
            None => Err(MailError::Headers),
            Some(headers) => Ok(record_of(id, entry.flags@, headers)),
        },
    }
}

impl EasyMail {
    /// The record that stands for a message known by its identifier only.
    pub fn new_pseudo(subject: String) -> (m: Self)
        ensures
            m@ == (MailView {
                pseudo: true,
                headers: seq![],
                id: MaildirID { uid_validity: 0, uid: 0 },
                flags: seq!['S'],
                from: None,
                from_raw: seq![],
                subject: subject@,
                date: 0,
                date_iso: unknown_date(),
            }),
    {
        let mut flags = String::new();
        push_char(&mut flags, SEEN);
        let mut date_iso = String::new();
        push_str(&mut date_iso, "????-??-??");
        Self {
            headers: None,
            id: MaildirID::new(0, 0),
            flags,
            from: None,
            from_raw: String::new(),
            subject,
            date: 0,
            date_iso,
        }
    }

    /// The record of a stored message, from what was read from it.
    pub fn assemble(
        id: MaildirID,
        flags: String,
        headers: Vec<Header>,
        from: Option<Sender>,
        date: Option<i64>,
        date_iso: Option<String>,
    ) -> (m: Self)
        ensures
            m@ == assembled(
                id,
                flags@,
                header_pairs(headers@),
                sender_pair(from),
                match date {
                    Some(ts) => Some(ts as int),
                    None => None,
                },
                optional_text(date_iso),
            ),
    {
        let from_raw = headers.get_header("From");
        let subject = headers.get_header("Subject");
        let (date, date_iso) = match (date, date_iso) {
            (Some(ts), Some(s)) => (ts, s),
            (Some(ts), None) => {
                let mut s = String::new();
                push_str(&mut s, "????-??-??");
                (ts, s)
            },
            (None, _) => {
                let mut s = String::new();
                push_str(&mut s, "????-??-??");
                (0, s)
            },
        };
        Self { headers: Some(headers), id, flags, from, from_raw, subject, date, date_iso }
    }

    /// Whether the record stands for a message that is not stored.
    pub fn is_pseudo(&self) -> (r: bool)
        ensures
            r == self@.pseudo,
    {
        self.headers.is_none()
    }

    /// The sender as a listing shows it.
    pub fn from(&self, show_email_addresses: bool) -> (r: String)
        ensures
            r@ == shown_sender(self@, show_email_addresses),
    {
        match &self.from {
            Some(from) => {
                let mut r = String::new();
                match &from.display_name {
                    Some(name) => {
                        push_str(&mut r, name.as_str());
                    },
                    None => {},
                }
                if show_email_addresses {
                    push_char(&mut r, ' ');
                    push_char(&mut r, '<');
                    push_str(&mut r, from.addr.as_str());
                    push_char(&mut r, '>');
                    assert(r@ =~= shown_sender(self@, show_email_addresses));
                }
                r
            },
            None => self.from_raw.clone(),
        }
    }

    /// Whether the flag string holds the letter of the server flag `flag`.
    pub fn has_flag(&self, flag: &Flag) -> (r: bool)
        requires
            flag_char(*flag) is Some,
        ensures
            r == self@.flags.contains(flag_char(*flag).unwrap()),
    {
        match imap_flag_to_maildir(flag) {
            Some(c) => contains_char(self.flags.as_str(), c),
            None => false,
        }
    }

    /// Whether the flag string holds the letter `flag`.
    pub fn has_flag2(&self, flag: char) -> (r: bool)
        ensures
            r == self@.flags.contains(flag),
    {
        contains_char(self.flags.as_str(), flag)
    }

    /// Appends the letter of the server flag `flag` to the flag string.
    pub fn add_flag(&mut self, flag: Flag)
        requires
            flag_char(flag) is Some,
        ensures
            final(self)@ == (MailView {
                flags: old(self)@.flags.push(flag_char(flag).unwrap()),
                ..old(self)@
            }),
    {
        match imap_flag_to_maildir(&flag) {
            Some(c) => self.add_flag2(c),
            None => {},
        }
    }

    /// Appends the letter `flag` to the flag string.
    pub fn add_flag2(&mut self, flag: char)
        ensures
            final(self)@ == (MailView { flags: old(self)@.flags.push(flag), ..old(self)@ }),
    {
        push_char(&mut self.flags, flag);
    }

    /// Takes the letter of the server flag `flag` out of the flag string.
    pub fn remove_flag(&mut self, flag: Flag)
        requires
            flag_char(flag) is Some,
        ensures
            final(self)@ == (MailView {
                flags: without_char(old(self)@.flags, flag_char(flag).unwrap()),
                ..old(self)@
            }),
    {
        match imap_flag_to_maildir(&flag) {
            Some(c) => self.remove_flag2(c),
            None => {},
        }
    }

    /// Takes every occurrence of the letter `flag` out of the flag string.
    pub fn remove_flag2(&mut self, flag: char)
        ensures
            final(self)@ == (MailView {
                flags: without_char(old(self)@.flags, flag),
                ..old(self)@
            }),
    {
        self.flags = remove_char(self.flags.as_str(), flag);
    }

    /// Marks the message as read, or as unread on the user's wish.
    pub fn mark_as_read(&mut self, read: bool)
        ensures
            final(self)@ == (MailView { flags: marked(old(self)@.flags, read), ..old(self)@ }),
    {
        if read {
            self.add_flag(Flag::Seen);
            self.remove_flag2(UNREAD);
        } else {
            self.remove_flag(Flag::Seen);
            self.add_flag2(UNREAD);
        }
    }

    /// The flag string.
    pub fn get_flags(&self) -> (r: String)
        ensures
            r@ == self@.flags,
    {
        self.flags.clone()
    }

    /// The values of the headers named `header`. A pseudo record has no
    /// headers to ask for.
    pub fn get_header_values(&self, header: &str) -> (r: Vec<String>)
        requires
            !self@.pseudo,
        ensures
            views(r@) == values_of(self@.headers, header@),
    {
        match &self.headers {
            Some(h) => get_all_values(h, header),
            None => Vec::new(),
        }
    }

    /// The values of the headers named `header`, joined by single spaces.
    pub fn get_header(&self, header: &str) -> (r: String)
        requires
            !self@.pseudo,
        ensures
            r@ == header_of(self@.headers, header@),
    {
        match &self.headers {
            Some(h) => h.get_header(header),
            None => String::new(),
        }
    }

    /// The identifier under which the message is known in `mailbox`.
    pub fn message_id(&self, mailbox: &str) -> (r: String)
        requires
            !self@.pseudo,
        ensures
            r@ == message_id_of(header_of(self@.headers, "Message-ID"@), mailbox@, self@.id),
    {
        match &self.headers {
            Some(h) => h.message_id(mailbox, self.id),
            None => String::new(),
        }
    }
}

/// Makes the record of one stored message.
pub fn parse_mail(entry: &RawEntry) -> (r: Result<EasyMail, MailError>)
    ensures
        match entry_record(*entry) {
            Ok(m) => r matches Ok(mail) && mail@ == m,
            Err(e) => r matches Err(x) && x == e,
        },
{
    reveal(entry_record);
    let id = match MaildirID::try_from(entry.id.as_str()) {
        Ok(id) => id,
        Err(e) => {
            return Err(MailError::Id(e));
        },
    };
    let headers = match read_headers(entry.data.as_slice()) {
        Some(h) => h,
        None => {
            return Err(MailError::Headers);
        },
    };
    let from_raw = headers.get_header("From");
    let from = read_sender(from_raw.as_str());
    let dates = get_all_values(&headers, "Date");
    let date = if dates.len() == 0 {
        None
    } else {
        read_date(headers.get_header("Date").as_str())
    };
    let date_iso = match date {
        Some(ts) => render_minute(ts),
        None => None,
    };
    Ok(EasyMail::assemble(id, entry.flags.clone(), headers, from, date, date_iso))
}

/// Makes the records of the stored messages, in their order. The first
/// message of which no record can be made ends the work with its error.
pub fn get_mails(entries: &Vec<RawEntry>) -> (r: Result<Vec<EasyMail>, MailError>)
    ensures
        match r {
            Ok(mails) => mails@.len() == entries@.len() && forall|i: int|
                0 <= i < mails@.len() ==> entry_record(entries@[i]) == Ok::<MailView, MailError>(
                    (#[trigger] mails@[i])@,
                ),
            Err(e) => exists|i: int|
                0 <= i < entries@.len() && entry_record(#[trigger] entries@[i]) == Err::<
                    MailView,
                    MailError,
                >(e) && forall|j: int| 0 <= j < i ==> entry_record(#[trigger] entries@[j]) is Ok,
        },
{
    let mut mails: Vec<EasyMail> = Vec::new();
    let n = entries.len();
    for i in 0..n
        invariant
            n == entries@.len(),
            mails@.len() == i,
            forall|j: int| 0 <= j < i ==> entry_record(#[trigger] entries@[j]) is Ok,
            forall|j: int|
                0 <= j < i ==> entry_record(entries@[j]) == Ok::<MailView, MailError>(
                    (#[trigger] mails@[j])@,
                ),
    {
        match parse_mail(&entries[i]) {
            Ok(mail) => {
                mails.push(mail);
            },
            Err(e) => {
                assert(entry_record(entries@[i as int]) == Err::<MailView, MailError>(e));
                return Err(e);
            },
        }
    }
    Ok(mails)
}

} // verus!
