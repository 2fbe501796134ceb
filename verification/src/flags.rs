//! Flag strings of the Maildir store, the flags of the IMAP server, and the
//! mapping between the two.

use vstd::prelude::*;
use vstd::string::StringExecFns;
use crate::text::{
    chars_of, contains_char, lemma_without_char, push_char, remove_char, string_of, without_char,
};

verus! {

/// The user wants the message to count as unread.
pub const UNREAD: char = 'U';

/// The message waits to be moved to the trash folder.
pub const TRASHED: char = 'T';

/// The message waits to be destroyed.
pub const DELETE: char = 'E';

/// The message was read.
pub const SEEN: char = 'S';

/// The message was replied to.
pub const REPLIED: char = 'R';

/// The message is flagged.
pub const FLAGGED: char = 'F';

/// A flag of a message on the IMAP server.
#[derive(Debug, Clone, PartialEq, Eq, Hash)]
pub enum Flag {
    Seen,
    Answered,
    Flagged,
    Deleted,
    Draft,
    Recent,
    MayCreate,
    Custom(String),
}

/// What is to be done about `\Seen` on the server for one message.
#[derive(Debug, Clone, Copy, PartialEq, Eq, Structural)]
pub enum SeenChange {
    /// `+FLAGS.SILENT (\Seen)`
    Add,
    /// `-FLAGS.SILENT (\Seen)`
    Remove,
    /// Nothing.
    Keep,
}

/// The Maildir letter that mirrors a server flag, for the four flags that
/// have one.
pub open spec fn flag_char(flag: Flag) -> Option<char> {
    match flag {
        Flag::Seen => Some('S'),
        Flag::Answered => Some('R'),
        Flag::Flagged => Some('F'),
        Flag::Deleted => Some('T'),
        _ => None,
    }
}

/// The server flag that a Maildir letter mirrors, for the four letters that
/// mirror one.
pub open spec fn char_flag(c: char) -> Option<Flag> {
    if c == 'R' {
        Some(Flag::Answered)
    } else if c == 'S' {
        Some(Flag::Seen)
    } else if c == 'F' {
        Some(Flag::Flagged)
    } else if c == 'T' {
        Some(Flag::Deleted)
    } else {
        None
    }
}

/// Whether one of `flags` is mirrored by the letter `c`.
pub open spec fn holds_flag(flags: Seq<Flag>, c: char) -> bool {
    exists|i: int| 0 <= i < flags.len() && flag_char(#[trigger] flags[i]) == Some(c)
}

/// The flag string `f` after one server flag was mirrored into it: its letter
/// is appended where the server has the flag, and taken out everywhere where
/// it has not.
pub open spec fn mirror_one(f: Seq<char>, flags: Seq<Flag>, c: char) -> Seq<char> {
    if holds_flag(flags, c) {
        f.push(c)
    } else {
        without_char(f, c)
    }
}

/// The flag string `f` after `\Seen`, `\Answered` and `\Flagged` of the server
/// were mirrored into it, in that order. Other letters stay as they are.
pub open spec fn mirrored(f: Seq<char>, flags: Seq<Flag>) -> Seq<char> {
    mirror_one(mirror_one(mirror_one(f, flags, 'S'), flags, 'R'), flags, 'F')
}

/// The server flags that the letters of `s` mirror, in the order of the
/// letters. Letters that mirror nothing are passed over.
pub open spec fn server_flags(s: Seq<char>) -> Seq<Flag>
    decreases s.len(),
{
    if s.len() == 0 {
        seq![]
    } else {
        match char_flag(s.last()) {
            Some(flag) => server_flags(s.drop_last()).push(flag),
            None => server_flags(s.drop_last()),
        }
    }
}

/// The change of `\Seen` that brings the server in line with the user: the
/// local `S` sets it where the server lacks it; failing that, the local `U`
/// clears it where the server has it.
pub open spec fn seen_change_of(local: Seq<char>, remote: Seq<Flag>) -> SeenChange {
    if local.contains('S') && !holds_flag(remote, 'S') {
        SeenChange::Add
    } else if local.contains('U') && holds_flag(remote, 'S') {
        SeenChange::Remove
    } else {
        SeenChange::Keep
    }
}

/// The index of the first `\Seen` among `flags`, or their number where there
/// is none.
pub open spec fn first_seen(flags: Seq<Flag>) -> int
    decreases flags.len(),
{
    if flags.len() == 0 || flags[0] is Seen {
        0
    } else {
        1 + first_seen(flags.skip(1))
    }
}

/// The server's flags after `change` was carried out: `\Seen` is added at the
/// end, or its first occurrence is taken out.
pub open spec fn with_seen_change(flags: Seq<Flag>, change: SeenChange) -> Seq<Flag> {
    match change {
        SeenChange::Add => flags.push(Flag::Seen),
        SeenChange::Remove => if first_seen(flags) < flags.len() {
            flags.remove(first_seen(flags))
        } else {
            flags
        },
        SeenChange::Keep => flags,
    }
}

/// The Maildir letter that mirrors a server flag, if it has one.
pub fn imap_flag_to_maildir(flag: &Flag) -> (r: Option<char>)
    ensures
        r == flag_char(*flag),
{
    match flag {
        Flag::Seen => Some('S'),
        Flag::Answered => Some('R'),
        Flag::Flagged => Some('F'),
        Flag::Deleted => Some('T'),
        _ => None,
    }
}

/// Whether one of `flags` is mirrored by the letter `c`.
pub fn has_flag_char(flags: &[Flag], c: char) -> (r: bool)
    ensures
        r == holds_flag(flags@, c),
{
    let n = flags.len();
    for i in 0..n
        invariant
            n == flags@.len(),
            forall|j: int| 0 <= j < i ==> flag_char(#[trigger] flags@[j]) != Some(c),
    {
        match imap_flag_to_maildir(&flags[i]) {
            Some(x) => {
                if x == c {
                    return true;
                }
            },
            None => {},
        }
    }
    false
}

fn mirror_flag(f: String, flags: &[Flag], c: char) -> (r: String)
    ensures
        r@ == mirror_one(f@, flags@, c),
{
    if has_flag_char(flags, c) {
        let mut f = f;
        push_char(&mut f, c);
        f
    } else {
        remove_char(f.as_str(), c)
    }
}

/// Mirrors `\Seen`, `\Answered` and `\Flagged` of the server into the flag
/// string `f`.
pub fn imap_flags_to_maildir(f: String, flags: &[Flag]) -> (r: String)
    ensures
        r@ == mirrored(f@, flags@),
{
    let f = mirror_flag(f, flags, 'S');
    let f = mirror_flag(f, flags, 'R');
    mirror_flag(f, flags, 'F')
}

/// The server flags that the letters of `flags` stand for.
pub fn maildir_flags_to_imap(flags: &str) -> (r: Vec<Flag>)
    ensures
        r@ == server_flags(flags@),
{
    let v = chars_of(flags);
    let mut x: Vec<Flag> = Vec::new();
    let n = v.len();
    for i in 0..n
        invariant
            n == v@.len(),
            v@ == flags@,
            x@ == server_flags(v@.take(i as int)),
    {
        proof {
            assert(v@.take(i + 1).drop_last() == v@.take(i as int));
        }
        let c = v[i];
        if c == REPLIED {
            x.push(Flag::Answered);
        } else if c == SEEN {
            x.push(Flag::Seen);
        } else if c == FLAGGED {
            x.push(Flag::Flagged);
        } else if c == TRASHED {
            x.push(Flag::Deleted);
        }
    }
    assert(v@.take(n as int) == v@);
    x
}

/// What is to be done about `\Seen` on the server, given the local flag string
/// and the server's flags.
pub fn seen_change(local: &str, remote: &[Flag]) -> (r: SeenChange)
    ensures
        r == seen_change_of(local@, remote@),
{
    let remote_s = has_flag_char(remote, SEEN);
    if contains_char(local, SEEN) && !remote_s {
        SeenChange::Add
    } else if contains_char(local, UNREAD) && remote_s {
        SeenChange::Remove
    } else {
        SeenChange::Keep
    }
}

/// Carries `change` out on the server's flags as they are held in memory.
pub fn apply_seen_change(remote: &mut Vec<Flag>, change: SeenChange)
    ensures
        final(remote)@ == with_seen_change(old(remote)@, change),
{
    match change {
        SeenChange::Add => {
            remote.push(Flag::Seen);
        },
        SeenChange::Remove => {
            let n = remote.len();
            let mut i: usize = 0;
            while i < n && !is_seen(&remote[i])
                invariant
                    n == remote@.len(),
                    i <= n,
                    remote@ == old(remote)@,
                    forall|j: int| 0 <= j < i ==> !(#[trigger] remote@[j] is Seen),
                decreases n - i,
            {
                i += 1;
            }
            proof {
                lemma_first_seen(remote@, i as int);
            }
            if i < n {
                remote.remove(i);
            }
        },
        SeenChange::Keep => {},
    }
}

fn is_seen(flag: &Flag) -> (r: bool)
    ensures
        r == (*flag is Seen),
{
    match flag {
        Flag::Seen => true,
        _ => false,
    }
}

proof fn lemma_first_seen(flags: Seq<Flag>, i: int)
    requires
        0 <= i <= flags.len(),
        forall|j: int| 0 <= j < i ==> !(#[trigger] flags[j] is Seen),
        i < flags.len() ==> flags[i] is Seen,
    ensures
        first_seen(flags) == i,
    decreases flags.len(),
{
    if flags.len() == 0 || flags[0] is Seen {
    } else {
        let t = flags.skip(1);
        assert forall|j: int| 0 <= j < i - 1 implies !(#[trigger] t[j] is Seen) by {
            assert(t[j] == flags[j + 1]);
        }
        lemma_first_seen(t, i - 1);
    }
}

/// The name of a flag in an IMAP command.
pub open spec fn flag_name(flag: Flag) -> Seq<char> {
    match flag {
        Flag::Seen => "\\Seen"@,
        Flag::Answered => "\\Answered"@,
        Flag::Flagged => "\\Flagged"@,
        Flag::Deleted => "\\Deleted"@,
        Flag::Draft => "\\Draft"@,
        Flag::Recent => "\\Recent"@,
        Flag::MayCreate => "\\*"@,
        Flag::Custom(s) => s@,
    }
}

/// The names of `flags`, with one space between neighbours.
pub open spec fn flag_names(flags: Seq<Flag>) -> Seq<char>
    decreases flags.len(),
{
    if flags.len() == 0 {
        seq![]
    } else if flags.len() == 1 {
        flag_name(flags[0])
    } else {
        flag_names(flags.drop_last()) + seq![' '] + flag_name(flags.last())
    }
}

/// The flag list of an IMAP command: the names between round brackets.
pub open spec fn flag_list(flags: Seq<Flag>) -> Seq<char> {
    seq!['('] + flag_names(flags) + seq![')']
}

fn push_flag_name(out: &mut String, flag: &Flag)
    ensures
        final(out)@ == old(out)@ + flag_name(*flag),
{
    match flag {
        Flag::Seen => out.append("\\Seen"),
        Flag::Answered => out.append("\\Answered"),
        Flag::Flagged => out.append("\\Flagged"),
        Flag::Deleted => out.append("\\Deleted"),
        Flag::Draft => out.append("\\Draft"),
        Flag::Recent => out.append("\\Recent"),
        Flag::MayCreate => out.append("\\*"),
        Flag::Custom(s) => out.append(s.as_str()),
    }
}

/// The flag list of an IMAP command for `flags`, such as `(\Seen \Flagged)`.
pub fn imap_flags_to_cmd(flags: &[Flag]) -> (r: String)
    ensures
        r@ == flag_list(flags@),
{
    let mut x = String::new();
    push_char(&mut x, '(');
    let n = flags.len();
    for i in 0..n
        invariant
            n == flags@.len(),
            x@ == seq!['('] + flag_names(flags@.take(i as int)),
    {
        proof {
            assert(flags@.take(i + 1).drop_last() == flags@.take(i as int));
            assert(flags@.take(i + 1).last() == flags@[i as int]);
        }
        if i > 0 {
            push_char(&mut x, ' ');
        }
        push_flag_name(&mut x, &flags[i]);
        proof {
            if i == 0 {
                assert(flags@.take(1)[0] == flags@[0]);
                assert(flag_names(flags@.take(0)) == Seq::<char>::empty());
            }
        }
    }
    assert(flags@.take(n as int) == flags@);
    push_char(&mut x, ')');
    x
}

/// Whether each letter of `s` is greater than the one before it.
pub open spec fn strictly_increasing(s: Seq<char>) -> bool {
    forall|i: int, j: int| 0 <= i < j < s.len() ==> (s[i] as int) < (s[j] as int)
}

/// Whether `a` and `b` hold the same letters, whatever their order and number.
pub open spec fn same_letters(a: Seq<char>, b: Seq<char>) -> bool {
    forall|c: char| a.contains(c) <==> b.contains(c)
}

/// Puts `c` into the increasing `out`, unless it is there.
fn insert_letter(out: &mut Vec<char>, c: char)
    requires
        strictly_increasing(old(out)@),
    ensures
        strictly_increasing(final(out)@),
        forall|x: char| final(out)@.contains(x) <==> (old(out)@.contains(x) || x == c),
{
    let n = out.len();
    let mut i: usize = 0;
    while i < n && out[i] < c
        invariant
            n == out@.len(),
            i <= n,
            out@ == old(out)@,
            forall|j: int| 0 <= j < i ==> (out@[j] as int) < (c as int),
        decreases n - i,
    {
        i += 1;
    }
    let ghost before = out@;
    if i < n && out[i] == c {
        assert forall|x: char| out@.contains(x) <==> (before.contains(x) || x == c) by {
            assert(out@[i as int] == c);
        }
    } else {
        out.insert(i, c);
        let ghost after = out@;
        assert(after == before.insert(i as int, c));
        assert forall|a: int, b: int| 0 <= a < b < after.len() implies (after[a] as int) < (
        after[b] as int) by {
            if b < i {
            } else if b == i {
            } else {
                assert(after[b] == before[b - 1]);
                if a < i {
                } else if a == i {
                } else {
                    assert(after[a] == before[a - 1]);
                }
            }
        }
        assert forall|x: char| after.contains(x) <==> (before.contains(x) || x == c) by {
            if after.contains(x) {
                let k = choose|k: int| 0 <= k < after.len() && after[k] == x;
                if k < i {
                    assert(before[k] == x);
                } else if k > i {
                    assert(before[k - 1] == x);
                }
            }
            if before.contains(x) {
                let k = choose|k: int| 0 <= k < before.len() && before[k] == x;
                if k < i {
                    assert(after[k] == x);
                } else {
                    assert(after[k + 1] == x);
                }
            }
            if x == c {
                assert(after[i as int] == c);
            }
        }
    }
}

/// The flag string in its one normal form: each letter once, in increasing
/// order.
pub fn normalize_flags(flags: &str) -> (r: String)
    ensures
        strictly_increasing(r@),
        same_letters(r@, flags@),
{
    let v = chars_of(flags);
    let mut out: Vec<char> = Vec::new();
    let n = v.len();
    for i in 0..n
        invariant
            n == v@.len(),
            strictly_increasing(out@),
            same_letters(out@, v@.take(i as int)),
    {
        let ghost seen = v@.take(i as int);
        let ghost prev = out@;
        insert_letter(&mut out, v[i]);
        proof {
            let next = v@.take(i + 1);
            assert(next == seen.push(v@[i as int]));
            assert forall|c: char| out@.contains(c) <==> next.contains(c) by {
                if next.contains(c) {
                    let k = choose|k: int| 0 <= k < next.len() && next[k] == c;
                    if k < i {
                        assert(seen[k] == c);
                    }
                }
                if seen.contains(c) {
                    let k = choose|k: int| 0 <= k < seen.len() && seen[k] == c;
                    assert(next[k] == c);
                }
                if c == v@[i as int] {
                    assert(next[i as int] == c);
                }
            }
        }
    }
    assert(v@.take(n as int) == v@);
    string_of(&out)
}

/// A set of letters has one normal form: two increasing strings with the same
/// letters are the same string.
pub proof fn lemma_normal_form_unique(a: Seq<char>, b: Seq<char>)
    requires
        strictly_increasing(a),
        strictly_increasing(b),
        same_letters(a, b),
    ensures
        a == b,
    decreases a.len(),
{
    if a.len() == 0 {
        if b.len() > 0 {
            assert(b.contains(b[0]));
        }
        assert(a =~= b);
    } else if b.len() == 0 {
        assert(a.contains(a[0]));
    } else {
        assert(a.contains(a[0]));
        assert(b.contains(b[0]));
        let k = choose|k: int| 0 <= k < b.len() && b[k] == a[0];
        let m = choose|m: int| 0 <= m < a.len() && a[m] == b[0];
        assert(a[0] == b[0]);
        let x = a.skip(1);
        let y = b.skip(1);
        assert forall|c: char| x.contains(c) <==> y.contains(c) by {
            if x.contains(c) {
                let i = choose|i: int| 0 <= i < x.len() && x[i] == c;
                assert(a[i + 1] == c);
                assert(a.contains(c));
                let j = choose|j: int| 0 <= j < b.len() && b[j] == c;
                assert(j != 0);
                assert(y[j - 1] == c);
            }
            if y.contains(c) {
                let i = choose|i: int| 0 <= i < y.len() && y[i] == c;
                assert(b[i + 1] == c);
                assert(b.contains(c));
                let j = choose|j: int| 0 <= j < a.len() && a[j] == c;
                assert(j != 0);
                assert(x[j - 1] == c);
            }
        }
        assert forall|i: int, j: int| 0 <= i < j < x.len() implies (x[i] as int) < (
        x[j] as int) by {
            assert(x[i] == a[i + 1] && x[j] == a[j + 1]);
        }
        assert forall|i: int, j: int| 0 <= i < j < y.len() implies (y[i] as int) < (
        y[j] as int) by {
            assert(y[i] == b[i + 1] && y[j] == b[j + 1]);
        }
        lemma_normal_form_unique(x, y);
        assert(a =~= seq![a[0]] + x);
        assert(b =~= seq![b[0]] + y);
    }
}

/// The local flag string after a synchronisation with the server: `U` is
/// dropped, `\Seen`, `\Answered` and `\Flagged` are mirrored.
pub open spec fn reconciled(local: Seq<char>, remote: Seq<Flag>) -> Seq<char> {
    mirrored(without_char(local, 'U'), remote)
}

/// The flag string that a message gets once the server's flags are known: the
/// normal form of the local flags without `U`, with the server's `\Seen`,
/// `\Answered` and `\Flagged` mirrored into them.
pub fn reconcile_flags(local: &str, remote: &[Flag]) -> (r: String)
    ensures
        strictly_increasing(r@),
        same_letters(r@, reconciled(local@, remote@)),
{
    let f = remove_char(local, UNREAD);
    let f = imap_flags_to_maildir(f, remote);
    normalize_flags(f.as_str())
}

/// After a flag of the server was mirrored, the flag string holds its letter
/// exactly where the server has the flag; the other letters are as before.
pub proof fn lemma_mirror_one_letters(f: Seq<char>, flags: Seq<Flag>, x: char, c: char)
    ensures
        mirror_one(f, flags, x).contains(c) <==> if c == x {
            holds_flag(flags, x)
        } else {
            f.contains(c)
        },
{
    let r = mirror_one(f, flags, x);
    if holds_flag(flags, x) {
        assert(r[f.len() as int] == x);
        if r.contains(c) && c != x {
            let k = choose|k: int| 0 <= k < r.len() && r[k] == c;
            assert(f[k] == c);
        }
        if f.contains(c) {
            let k = choose|k: int| 0 <= k < f.len() && f[k] == c;
            assert(r[k] == c);
        }
    } else {
        lemma_without_char(f, x, c);
    }
}

/// The letters of a flag string after a synchronisation: `S`, `R` and `F` are
/// there exactly where the server has `\Seen`, `\Answered` and `\Flagged`; `U`
/// is gone; every other letter is there exactly if it was there before.
pub proof fn lemma_reconciled_letters(local: Seq<char>, remote: Seq<Flag>, c: char)
    ensures
        reconciled(local, remote).contains(c) <==> if c == 'S' || c == 'R' || c == 'F' {
            holds_flag(remote, c)
        } else {
            c != 'U' && local.contains(c)
        },
{
    let a = without_char(local, 'U');
    let b = mirror_one(a, remote, 'S');
    let d = mirror_one(b, remote, 'R');
    lemma_without_char(local, 'U', c);
    lemma_mirror_one_letters(a, remote, 'S', c);
    lemma_mirror_one_letters(b, remote, 'R', c);
    lemma_mirror_one_letters(d, remote, 'F', c);
}

/// A flag with the same content.
pub fn copy_flag(flag: &Flag) -> (r: Flag)
    ensures
        r == *flag,
{
    match flag {
        Flag::Seen => Flag::Seen,
        Flag::Answered => Flag::Answered,
        Flag::Flagged => Flag::Flagged,
        Flag::Deleted => Flag::Deleted,
        Flag::Draft => Flag::Draft,
        Flag::Recent => Flag::Recent,
        Flag::MayCreate => Flag::MayCreate,
        Flag::Custom(s) => Flag::Custom(s.clone()),
    }
}

/// The same flags, in the same order.
pub fn copy_flags(flags: &[Flag]) -> (r: Vec<Flag>)
    ensures
        r@ == flags@,
{
    let mut r: Vec<Flag> = Vec::new();
    let n = flags.len();
    for i in 0..n
        invariant
            n == flags@.len(),
            r@ == flags@.take(i as int),
    {
        r.push(copy_flag(&flags[i]));
    }
    assert(flags@.take(n as int) == flags@);
    r
}

} // verus!
