//! The identifier of a stored message: the epoch of its mailbox and its UID
//! within that epoch, with its notations on disk and in the index.

use vstd::prelude::*;
use crate::text::{
    chars_of, decimal, find_char, lemma_decimal_value, lemma_parse_decimal_u32, lemma_position,
    parse_u32, parse_u32_chars, position, push_char, slice_chars,
    u32_to_string,
};

verus! {

/// A message of a mailbox: the mailbox's `UIDVALIDITY` when it was seen, and
/// its UID under that epoch.
#[derive(Debug, Clone, Copy, PartialEq, Eq, Structural, Hash, PartialOrd, Ord)]
pub struct MaildirID {
    pub uid_validity: u32,
    pub uid: u32,
}

/// Why a string is no identifier.
#[derive(Debug, Clone, Copy, PartialEq, Eq, Structural)]
pub enum IdError {
    /// There is no `_` to part the epoch from the UID.
    MissingSeparator,
    /// What stands before the first `_` is no `u32`.
    InvalidValidity,
    /// What stands after the first `_` is no `u32`.
    InvalidUid,
}

/// The name of a message on disk: epoch, `_`, UID, both in decimal.
pub open spec fn id_name(uid_validity: u32, uid: u32) -> Seq<char> {
    decimal(uid_validity as nat) + seq!['_'] + decimal(uid as nat)
}

/// The identifier packed into 64 bits: the epoch in the high half, the UID in
/// the low half.
pub open spec fn pack(uid_validity: u32, uid: u32) -> u64 {
    (uid_validity * 0x1_0000_0000 + uid) as u64
}

/// The identifier that the 64 bits of `x` hold.
pub open spec fn unpack(x: u64) -> MaildirID {
    MaildirID { uid_validity: (x / 0x1_0000_0000) as u32, uid: (x % 0x1_0000_0000) as u32 }
}

/// The signed integer with the bits of `x`.
pub open spec fn as_signed(x: u64) -> i64 {
    if x <= i64::MAX {
        x as i64
    } else {
        (x - 0x1_0000_0000_0000_0000) as i64
    }
}

/// The unsigned integer with the bits of `x`.
pub open spec fn as_unsigned(x: i64) -> u64 {
    if x >= 0 {
        x as u64
    } else {
        (x + 0x1_0000_0000_0000_0000) as u64
    }
}

/// What a string denotes as an identifier. The string is parted at its first
/// `_`; both parts must be unsigned decimal literals that fit a `u32`.
pub open spec fn parse_id(s: Seq<char>) -> Result<MaildirID, IdError> {
    let i = position(s, '_');
    if i >= s.len() {
        Err(IdError::MissingSeparator)
    } else {
        match parse_u32(s.take(i)) {
            None => Err(IdError::InvalidValidity),
            Some(uid_validity) => match parse_u32(s.skip(i + 1)) {
                None => Err(IdError::InvalidUid),
                Some(uid) => Ok(MaildirID { uid_validity, uid }),
            },
        }
    }
}

/// The signed integer that holds the bits of `x` in the index.
pub fn store_i64(x: u64) -> (r: i64)
    ensures
        r == as_signed(x),
{
    let r = x as i64;
    assert(r == as_signed(x)) by (bit_vector)
        requires
            r == x as i64,
    ;
    r
}

/// The unsigned integer whose bits the index holds as `x`.
pub fn load_i64(x: i64) -> (r: u64)
    ensures
        r == as_unsigned(x),
{
    let r = x as u64;
    assert(r == as_unsigned(x)) by (bit_vector)
        requires
            r == x as u64,
    ;
    r
}

/// The name under which the message is stored: `"{uid_validity}_{uid}"`.
pub fn gen_id(uid_validity: u32, uid: u32) -> (s: String)
    ensures
        s@ == id_name(uid_validity, uid),
{
    let mut s = u32_to_string(uid_validity);
    push_char(&mut s, '_');
    let t = chars_of(u32_to_string(uid).as_str());
    let n = t.len();
    for i in 0..n
        invariant
            n == t@.len(),
            t@ == decimal(uid as nat),
            s@ == decimal(uid_validity as nat) + seq!['_'] + t@.take(i as int),
    {
        push_char(&mut s, t[i]);
    }
    assert(t@.take(n as int) == t@);
    s
}

impl MaildirID {
    /// The identifier of the message `uid` of the epoch `uid_validity`.
    pub fn new(uid_validity: u32, uid: u32) -> (id: Self)
        ensures
            id.uid_validity == uid_validity,
            id.uid == uid,
    {
        Self { uid_validity, uid }
    }

    /// The identifier packed into 64 bits, the epoch in the high half.
    pub fn to_u64(&self) -> (x: u64)
        ensures
            x == pack(self.uid_validity, self.uid),
    {
        let v = self.uid_validity;
        let u = self.uid;
        let x = ((v as u64) << 32) | (u as u64);
        assert(x == v * 0x1_0000_0000 + u) by (bit_vector)
            requires
                x == ((v as u64) << 32) | (u as u64),
        ;
        x
    }

    /// The packed identifier as the index stores it: the same bits, signed.
    pub fn to_i64(&self) -> (x: i64)
        ensures
            x == as_signed(pack(self.uid_validity, self.uid)),
    {
        store_i64(self.to_u64())
    }

    /// The identifier that the 64 bits of `x` hold.
    pub fn from_u64(x: u64) -> (id: Self)
        ensures
            id == unpack(x),
    {
        let hi = (x >> 32) as u32;
        let lo = ((x << 32) >> 32) as u32;
        assert(hi == x / 0x1_0000_0000 && lo == x % 0x1_0000_0000) by (bit_vector)
            requires
                hi == (x >> 32) as u32,
                lo == ((x << 32) >> 32) as u32,
        ;
        Self::new(hi, lo)
    }

    /// The identifier that the index stores as `x`.
    pub fn from_i64(x: i64) -> (id: Self)
        ensures
            id == unpack(as_unsigned(x)),
    {
        Self::from_u64(load_i64(x))
    }

    /// The UID as an IMAP command takes it: in decimal.
    pub fn to_imap(&self) -> (s: String)
        ensures
            s@ == decimal(self.uid as nat),
    {
        u32_to_string(self.uid)
    }

    /// The name under which the message is stored: `"{uid_validity}_{uid}"`.
    pub fn to_string(&self) -> (s: String)
        ensures
            s@ == id_name(self.uid_validity, self.uid),
    {
        gen_id(self.uid_validity, self.uid)
    }

    /// Reads an identifier from its name.
    pub fn try_from(id: &str) -> (r: Result<Self, IdError>)
        ensures
            r == parse_id(id@),
    {
        let v = chars_of(id);
        let i = find_char(&v, '_');
        if i >= v.len() {
            return Err(IdError::MissingSeparator);
        }
        let head = slice_chars(&v, 0, i);
        let tail = slice_chars(&v, i + 1, v.len());
        assert(head@ == id@.take(i as int));
        assert(tail@ == id@.skip(i + 1));
        match parse_u32_chars(&head) {
            None => Err(IdError::InvalidValidity),
            Some(uid_validity) => match parse_u32_chars(&tail) {
                None => Err(IdError::InvalidUid),
                Some(uid) => Ok(Self::new(uid_validity, uid)),
            },
        }
    }
}

/// Packing loses nothing: unpacking a packed identifier gives it back.
pub proof fn lemma_unpack_pack(id: MaildirID)
    ensures
        unpack(pack(id.uid_validity, id.uid)) == id,
{
}

/// Every 64-bit value is the packing of the identifier it unpacks to.
pub proof fn lemma_pack_unpack(x: u64)
    ensures
        pack(unpack(x).uid_validity, unpack(x).uid) == x,
{
}

/// Reading the stored signed value gives the unsigned value back.
pub proof fn lemma_load_store(x: u64)
    ensures
        as_unsigned(as_signed(x)) == x,
{
}

/// Storing the value read from the index gives the stored value back.
pub proof fn lemma_store_load(x: i64)
    ensures
        as_signed(as_unsigned(x)) == x,
{
}

/// An identifier survives the way into the index and back.
pub proof fn lemma_index_round_trip(id: MaildirID)
    ensures
        unpack(as_unsigned(as_signed(pack(id.uid_validity, id.uid)))) == id,
{
}

/// Two identifiers with the same packed value are the same identifier.
pub proof fn lemma_pack_injective(a: MaildirID, b: MaildirID)
    requires
        pack(a.uid_validity, a.uid) == pack(b.uid_validity, b.uid),
    ensures
        a == b,
{
}

/// The name of an identifier reads back as that identifier.
pub proof fn lemma_parse_id_name(id: MaildirID)
    ensures
        parse_id(id_name(id.uid_validity, id.uid)) == Ok::<MaildirID, IdError>(id),
{
    let a = decimal(id.uid_validity as nat);
    let b = decimal(id.uid as nat);
    let s = id_name(id.uid_validity, id.uid);
    lemma_decimal_value(id.uid_validity as nat);
    lemma_decimal_value(id.uid as nat);
    lemma_parse_decimal_u32(id.uid_validity);
    lemma_parse_decimal_u32(id.uid);
    let i = a.len() as int;
    assert(s[i] == '_');
    assert forall|j: int| 0 <= j < i implies s[j] != '_' by {
        assert(s[j] == a[j]);
    }
    lemma_position(s, '_', i);
    assert(s.take(i) == a);
    assert(s.skip(i + 1) == b);
}

} // verus!
