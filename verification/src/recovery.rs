//! The names of what is saved on the side.
//!
//! A project that has a file is saved next to it, under the name of the file
//! with a suffix. One that has none yet is saved under an id of its own.

use crate::text;
use crate::text::{same_text, strip_suffix};
use vstd::prelude::*;
use vstd::string::StringExecFns;

verus! {

/// What files that were saved on the side end with.
pub const AUTOSAVE_SUFFIX: &'static str = ".autosave.daw";

/// What the files end with that say that a project is open.
pub const LOCK_SUFFIX: &'static str = ".lock";

// ---------------------------------------------------------------------------
// Paths
// ---------------------------------------------------------------------------
//
// The rules for paths are those of Windows, wherever the library runs: projects lie where
// it keeps them, and their paths are stored as it writes them. Both slashes separate the
// parts of a path, and a drive, a share or a device may come before them.

/// Whether a path is taken word for word, as one that begins with `\\?\`: only the
/// backslash is a separator in it.
pub open spec fn is_verbatim(path: Seq<char>) -> bool {
    path.len() >= 4 && path[0] == '\\' && path[1] == '\\' && path[2] == '?' && path[3] == '\\'
}

/// What comes between the parts of a path.
pub open spec fn is_between(c: char, verbatim: bool) -> bool {
    c == '\\' || (c == '/' && !verbatim)
}

/// Where the part ends that begins at place `from`.
pub open spec fn part_end(path: Seq<char>, from: int, verbatim: bool) -> int
    decreases path.len() - from,
{
    if from < 0 || from >= path.len() {
        path.len() as int
    } else if is_between(path[from], verbatim) {
        from
    } else {
        part_end(path, from + 1, verbatim)
    }
}

/// Whether there is a drive at place `at`: a letter and a colon.
pub open spec fn has_drive(path: Seq<char>, at: int) -> bool {
    at + 1 < path.len() && ('a' <= path[at] <= 'z' || 'A' <= path[at] <= 'Z') && path[at + 1] == ':'
}

/// How much of a path is the drive (`C:`), the share (`\\server\share`), the device
/// (`\\.\device`) or what stands for one of them in a path that is taken word for word
/// (`\\?\C:`, `\\?\UNC\server\share`, `\\?\name`).
pub open spec fn prefix_len(path: Seq<char>) -> int {
    if is_verbatim(path) {
        if path.len() >= 8 && path[4] == 'U' && path[5] == 'N' && path[6] == 'C' && path[7] == '\\' {
            let server = part_end(path, 8, true);
            let share = part_end(path, server + 1, true);
            if share > server + 1 {
                share
            } else {
                server
            }
        } else if has_drive(path, 4) && (path.len() == 6 || is_between(path[6], false)) {
            6
        } else {
            part_end(path, 4, true)
        }
    } else if path.len() >= 2 && is_between(path[0], false) && is_between(path[1], false) {
        if path.len() >= 4 && path[2] == '.' && is_between(path[3], false) {
            part_end(path, 4, false)
        } else {
            let server = part_end(path, 2, false);
            let share = part_end(path, server + 1, false);
            if server > 2 && share > server + 1 {
                share
            } else {
                0
            }
        }
    } else if has_drive(path, 0) {
        2
    } else {
        0
    }
}

/// What comes behind the drive, the share or the device of a path.
pub open spec fn parts_of(path: Seq<char>) -> Seq<char> {
    path.skip(prefix_len(path))
}

/// Parts up to the last one: without separators behind it, nor parts that stand
/// for the one before.
pub open spec fn trimmed(parts: Seq<char>, verbatim: bool) -> Seq<char>
    decreases parts.len(),
{
    if parts.len() > 0 && is_between(parts.last(), verbatim) {
        trimmed(parts.drop_last(), verbatim)
    } else if !verbatim && parts.len() > 1 && parts.last() == '.' && is_between(parts[parts.len() - 2], verbatim) {
        trimmed(parts.drop_last(), verbatim)
    } else {
        parts
    }
}

/// What comes behind the last separator.
pub open spec fn last_part(parts: Seq<char>, verbatim: bool) -> Seq<char>
    decreases parts.len(),
{
    if parts.len() == 0 || is_between(parts.last(), verbatim) {
        Seq::empty()
    } else {
        last_part(parts.drop_last(), verbatim).push(parts.last())
    }
}

/// The name of the file that a path leads to.
pub open spec fn file_name_of(path: Seq<char>) -> Seq<char> {
    last_part(trimmed(parts_of(path), is_verbatim(path)), is_verbatim(path))
}

/// Where the file is that a path leads to: what comes before its name.
pub open spec fn place_of(path: Seq<char>) -> Seq<char> {
    let parts = trimmed(parts_of(path), is_verbatim(path));
    path.take(prefix_len(path)) + parts.take(parts.len() - file_name_of(path).len())
}

proof fn lemma_part_end(path: Seq<char>, from: int, verbatim: bool)
    requires
        0 <= from,
    ensures
        part_end(path, from, verbatim) <= path.len(),
        from <= path.len() ==> from <= part_end(path, from, verbatim),
    decreases path.len() - from,
{
    if from < path.len() && !is_between(path[from], verbatim) {
        lemma_part_end(path, from + 1, verbatim);
    }
}

fn stands_between(c: char, verbatim: bool) -> (r: bool)
    ensures
        r == is_between(c, verbatim),
{
    c == '\\' || (c == '/' && !verbatim)
}

fn find_part_end(path: &Vec<char>, from: usize, verbatim: bool) -> (r: usize)
    ensures
        r == part_end(path@, from as int, verbatim),
        from <= path@.len() ==> from <= r,
        r <= path@.len(),
{
    let mut n: usize = from;
    while n < path.len() && !stands_between(path[n], verbatim)
        invariant
            from <= n,
            from <= path@.len() ==> n <= path@.len(),
            part_end(path@, from as int, verbatim) == part_end(path@, n as int, verbatim),
        decreases path@.len() - n,
    {
        n += 1;
    }
    if n < path.len() {
        n
    } else {
        path.len()
    }
}

fn drive_at(path: &Vec<char>, at: usize) -> (r: bool)
    requires
        at < 8,
    ensures
        r == has_drive(path@, at as int),
{
    at + 1 < path.len() && (('a' <= path[at] && path[at] <= 'z') || ('A' <= path[at] && path[at] <= 'Z')) && path[at + 1]
        == ':'
}

fn word_for_word(path: &Vec<char>) -> (r: bool)
    ensures
        r == is_verbatim(path@),
{
    path.len() >= 4 && path[0] == '\\' && path[1] == '\\' && path[2] == '?' && path[3] == '\\'
}

fn find_prefix(path: &Vec<char>) -> (r: usize)
    ensures
        r == prefix_len(path@),
        r <= path@.len(),
{
    let len: usize = path.len();
    if word_for_word(path) {
        if len >= 8 && path[4] == 'U' && path[5] == 'N' && path[6] == 'C' && path[7] == '\\' {
            let server = find_part_end(path, 8, true);
            if server < len {
                let share = find_part_end(path, server + 1, true);
                if share > server + 1 {
                    return share;
                }
            }
            server
        } else if drive_at(path, 4) && (len == 6 || stands_between(path[6], false)) {
            6
        } else {
            find_part_end(path, 4, true)
        }
    } else if len >= 2 && stands_between(path[0], false) && stands_between(path[1], false) {
        if len >= 4 && path[2] == '.' && stands_between(path[3], false) {
            find_part_end(path, 4, false)
        } else {
            let server = find_part_end(path, 2, false);
            if server > 2 && server < len {
                let share = find_part_end(path, server + 1, false);
                if share > server + 1 {
                    return share;
                }
            }
            0
        }
    } else if drive_at(path, 0) {
        2
    } else {
        0
    }
}

/// Where the drive, the share or the device ends in a path, where the name of its file
/// begins and where that ends.
fn find_name(path: &str) -> (r: (usize, usize, usize))
    ensures
        ({
            let parts = trimmed(parts_of(path@), is_verbatim(path@));
            let name = file_name_of(path@);
            &&& r.0 == prefix_len(path@)
            &&& r.0 <= r.1 <= r.2 <= path@.len()
            &&& parts == path@.subrange(r.0 as int, r.2 as int)
            &&& name == path@.subrange(r.1 as int, r.2 as int)
            &&& place_of(path@) == path@.take(r.1 as int)
        }),
{
    let all = text::chars_of(path);
    let verbatim: bool = word_for_word(&all);
    let start: usize = find_prefix(&all);
    let ghost rest = parts_of(path@);
    let mut end: usize = all.len();
    assert(path@.subrange(start as int, end as int) =~= rest);
    while end > start && (stands_between(all[end - 1], verbatim) || (!verbatim && end - start > 1 && all[end - 1] == '.'
        && stands_between(all[end - 2], verbatim)))
        invariant
            all@ == path@,
            start <= end <= path@.len(),
            trimmed(rest, verbatim) == trimmed(path@.subrange(start as int, end as int), verbatim),
        decreases end,
    {
        assert(path@.subrange(start as int, end as int).drop_last() =~= path@.subrange(start as int, end - 1));
        end -= 1;
    }
    let ghost parts = path@.subrange(start as int, end as int);
    let mut from: usize = end;
    proof {
        assert(trimmed(rest, verbatim) == parts);
        assert(path@.subrange(from as int, end as int) =~= Seq::<char>::empty());
        assert(last_part(parts, verbatim) + Seq::<char>::empty() =~= last_part(parts, verbatim));
    }
    while from > start && !stands_between(all[from - 1], verbatim)
        invariant
            all@ == path@,
            start <= from <= end <= path@.len(),
            last_part(parts, verbatim) == last_part(path@.subrange(start as int, from as int), verbatim) + path@.subrange(
                from as int,
                end as int,
            ),
        decreases from,
    {
        proof {
            let upto = path@.subrange(start as int, from as int);
            let less = path@.subrange(start as int, from - 1);
            assert(upto.drop_last() =~= less);
            assert(upto.last() == path@[from - 1]);
            assert(last_part(upto, verbatim) + path@.subrange(from as int, end as int) =~= last_part(less, verbatim)
                + path@.subrange(from - 1, end as int));
        }
        from -= 1;
    }
    proof {
        let upto = path@.subrange(start as int, from as int);
        assert(last_part(upto, verbatim) =~= Seq::<char>::empty());
        assert(Seq::<char>::empty() + path@.subrange(from as int, end as int) =~= path@.subrange(from as int, end as int));
        assert(path@.take(start as int) + parts.take(from - start) =~= path@.take(from as int));
    }
    (start, from, end)
}

/// The name of the file that a path leads to.
fn file_name<'a>(path: &'a str) -> (r: &'a str)
    ensures
        r@ == file_name_of(path@),
{
    let (_, from, end) = find_name(path);
    path.substring_char(from, end)
}

// ---------------------------------------------------------------------------
// Ids
// ---------------------------------------------------------------------------

/// The character of a hexadecimal digit.
pub open spec fn hex_char(d: nat) -> char {
    if d < 10 {
        text::digit_char(d)
    } else if d == 10 {
        'a'
    } else if d == 11 {
        'b'
    } else if d == 12 {
        'c'
    } else if d == 13 {
        'd'
    } else if d == 14 {
        'e'
    } else {
        'f'
    }
}

/// The last `n` hexadecimal digits of a number.
pub open spec fn hex(v: nat, n: nat) -> Seq<char>
    decreases n,
{
    if n == 0 {
        Seq::empty()
    } else {
        hex(v / 16, (n - 1) as nat).push(hex_char(v % 16))
    }
}

/// An id as it is written: its hexadecimal digits in small letters, in groups of
/// 8, 4, 4, 4 and 12 with hyphens between them.
pub open spec fn id_text(id: u128) -> Seq<char> {
    hex((id / 0x1_0000_0000_0000_0000_0000_0000) as nat, 8).push('-') + hex(
        (id / 0x1_0000_0000_0000_0000_0000) as nat,
        4,
    ).push('-') + hex((id / 0x1_0000_0000_0000_0000) as nat, 4).push('-') + hex(
        (id / 0x1_0000_0000_0000) as nat,
        4,
    ).push('-') + hex(id as nat, 12)
}

/// What `uuid::Uuid::try_parse` reads from a text.
pub uninterp spec fn parsed_id(s: Seq<char>) -> Option<u128>;

/// Calls `uuid::Uuid::new_v4`: a random id. Of it is claimed what holds of every
/// id of that kind: the bits that say that it is random, and which layout it
/// has. It does not return on a machine that gives no random numbers.
#[verifier::external_body]
fn random_id() -> (r: u128)
    ensures
        (r >> 76) & 0xf == 4,
        (r >> 62) & 0x3 == 2,
{
    uuid::Uuid::new_v4().as_u128()
}

/// Calls `uuid::fmt::Hyphenated::to_string`: the id as it is written, in small
/// letters and with hyphens.
#[verifier::external_body]
fn write_id(id: u128) -> (r: String)
    ensures
        r@ == id_text(id),
{
    uuid::Uuid::from_u128(id).hyphenated().to_string()
}

/// Calls `uuid::Uuid::try_parse`, which reads ids in several spellings. Claimed
/// of it is that what it reads depends on the text alone, and that an id as it
/// is written is read back.
#[verifier::external_body]
fn read_id(s: &str) -> (r: Option<u128>)
    ensures
        r == parsed_id(s@),
        forall|id: u128| s@ == #[trigger] id_text(id) ==> r == Some(id),
{
    match uuid::Uuid::try_parse(s) {
        Ok(id) => Some(id.as_u128()),
        Err(_) => None,
    }
}

/// The id of a project that has no file yet. What is saved on the side of it,
/// what it has imported and the lock on that all carry the id in their names.
#[derive(Clone, Copy, Debug, PartialEq, Eq, PartialOrd, Ord, Hash, Structural)]
pub struct DocId {
    pub id: u128,
}

impl DocId {
    /// A new id: a random one.
    pub fn new() -> (r: DocId)
        ensures
            (r.id >> 76) & 0xf == 4,
            (r.id >> 62) & 0x3 == 2,
    {
        DocId { id: random_id() }
    }

    /// The id as it is written.
    pub fn to_text(self) -> (r: String)
        ensures
            r@ == id_text(self.id),
    {
        write_id(self.id)
    }

    /// The id with the given name. Nothing but an id as it is written is one: the
    /// name becomes part of a path, where another spelling would lead elsewhere.
    pub fn parse(name: &str) -> (r: Option<DocId>)
        ensures
            match r {
                Some(d) => name@ == id_text(d.id),
                None => forall|id: u128| name@ != #[trigger] id_text(id),
            },
    {
        let read = read_id(name);
        Self::checked(name, read)
    }

    /// The id that was read from a name, if it is written as the name says.
    pub fn checked(name: &str, read: Option<u128>) -> (r: Option<DocId>)
        ensures
            r == match read {
                Some(id) => if id_text(id) == name@ {
                    Some(DocId { id })
                } else {
                    None
                },
                None => None,
            },
    {
        match read {
            Some(id) => {
                let written = write_id(id);
                if same_text(written.as_str(), name) {
                    Some(DocId { id })
                } else {
                    None
                }
            },
            None => None,
        }
    }

    /// The id in the name of the file that a path leads to, if it was saved on the
    /// side under one.
    pub fn of_recovery_file(path: &str) -> (r: Option<DocId>)
        ensures
            match r {
                Some(d) => file_name_of(path@) == id_text(d.id) + AUTOSAVE_SUFFIX@,
                None => forall|id: u128| file_name_of(path@) != #[trigger] id_text(id) + AUTOSAVE_SUFFIX@,
            },
    {
        let name = file_name(path);
        match strip_suffix(name, AUTOSAVE_SUFFIX) {
            Some(head) => {
                let r = Self::parse(head);
                proof {
                    if r is None {
                        assert forall|id: u128| name@ != #[trigger] id_text(id) + AUTOSAVE_SUFFIX@ by {
                            if name@ == id_text(id) + AUTOSAVE_SUFFIX@ {
                                text::lemma_same_tail(head@, id_text(id), AUTOSAVE_SUFFIX@);
                            }
                        }
                    }
                }
                r
            },
            None => {
                proof {
                    assert forall|id: u128| name@ != #[trigger] id_text(id) + AUTOSAVE_SUFFIX@ by {
                        text::lemma_ends_with(id_text(id), AUTOSAVE_SUFFIX@);
                    }
                }
                None
            },
        }
    }

    /// The id in the name of the lock that a path leads to.
    pub fn of_lock_file(path: &str) -> (r: Option<DocId>)
        ensures
            match r {
                Some(d) => file_name_of(path@) == id_text(d.id) + LOCK_SUFFIX@,
                None => forall|id: u128| file_name_of(path@) != #[trigger] id_text(id) + LOCK_SUFFIX@,
            },
    {
        let name = file_name(path);
        match strip_suffix(name, LOCK_SUFFIX) {
            Some(head) => {
                let r = Self::parse(head);
                proof {
                    if r is None {
                        assert forall|id: u128| name@ != #[trigger] id_text(id) + LOCK_SUFFIX@ by {
                            if name@ == id_text(id) + LOCK_SUFFIX@ {
                                text::lemma_same_tail(head@, id_text(id), LOCK_SUFFIX@);
                            }
                        }
                    }
                }
                r
            },
            None => {
                proof {
                    assert forall|id: u128| name@ != #[trigger] id_text(id) + LOCK_SUFFIX@ by {
                        text::lemma_ends_with(id_text(id), LOCK_SUFFIX@);
                    }
                }
                None
            },
        }
    }
}

/// The name of the file that the project with id `id` is saved in on the side.
pub fn recovery_name_for(id: DocId) -> (r: String)
    ensures
        r@ == id_text(id.id) + AUTOSAVE_SUFFIX@,
{
    let mut out = id.to_text();
    out.append(AUTOSAVE_SUFFIX);
    out
}

/// The name of the lock on what the project with id `id` has imported.
pub fn lock_name_for(id: DocId) -> (r: String)
    ensures
        r@ == id_text(id.id) + LOCK_SUFFIX@,
{
    let mut out = id.to_text();
    out.append(LOCK_SUFFIX);
    out
}

proof fn lemma_hex_char(a: nat, b: nat)
    requires
        a < 16,
        b < 16,
        hex_char(a) == hex_char(b),
    ensures
        a == b,
{
}

proof fn lemma_hex_len(v: nat, n: nat)
    ensures
        hex(v, n).len() == n,
    decreases n,
{
    if n > 0 {
        lemma_hex_len(v / 16, (n - 1) as nat);
    }
}

/// The number that the last `n` hexadecimal digits of a number stand for.
spec fn last_digits(v: nat, n: nat) -> nat
    decreases n,
{
    if n == 0 {
        0
    } else {
        last_digits(v / 16, (n - 1) as nat) * 16 + v % 16
    }
}

proof fn lemma_hex_digits(a: nat, b: nat, n: nat)
    requires
        hex(a, n) == hex(b, n),
    ensures
        last_digits(a, n) == last_digits(b, n),
    decreases n,
{
    if n > 0 {
        let m = (n - 1) as nat;
        assert(hex(a, n).drop_last() =~= hex(a / 16, m));
        assert(hex(b, n).drop_last() =~= hex(b / 16, m));
        assert(hex(a, n).last() == hex_char(a % 16));
        assert(hex(b, n).last() == hex_char(b % 16));
        lemma_hex_digits(a / 16, b / 16, m);
        lemma_hex_char(a % 16, b % 16);
    }
}

proof fn lemma_last_four(v: nat)
    ensures
        last_digits(v, 4) == v % 0x1_0000,
{
    reveal_with_fuel(last_digits, 5);
}

proof fn lemma_last_eight(v: nat)
    ensures
        last_digits(v, 8) == v % 0x1_0000_0000,
{
    reveal_with_fuel(last_digits, 9);
}

proof fn lemma_last_twelve(v: nat)
    ensures
        last_digits(v, 12) == v % 0x1_0000_0000_0000,
{
    reveal_with_fuel(last_digits, 13);
}

/// What stands behind a group of digits, and the group itself, make the number.
proof fn lemma_group(x: nat, low: nat)
    requires
        low > 0,
    ensures
        x / (low * 0x1_0000) == (x / low) / 0x1_0000,
        x / low == (x / low) / 0x1_0000 * 0x1_0000 + (x / low) % 0x1_0000,
{
    vstd::arithmetic::div_mod::lemma_div_denominator(x as int, low as int, 0x1_0000);
}

proof fn lemma_groups(a: nat, b: nat)
    requires
        a / 0x1_0000_0000_0000_0000_0000_0000 == b / 0x1_0000_0000_0000_0000_0000_0000,
        (a / 0x1_0000_0000_0000_0000_0000) % 0x1_0000 == (b / 0x1_0000_0000_0000_0000_0000) % 0x1_0000,
        (a / 0x1_0000_0000_0000_0000) % 0x1_0000 == (b / 0x1_0000_0000_0000_0000) % 0x1_0000,
        (a / 0x1_0000_0000_0000) % 0x1_0000 == (b / 0x1_0000_0000_0000) % 0x1_0000,
        a % 0x1_0000_0000_0000 == b % 0x1_0000_0000_0000,
    ensures
        a == b,
{
    lemma_group(a, 0x1_0000_0000_0000_0000_0000);
    lemma_group(b, 0x1_0000_0000_0000_0000_0000);
    assert(a / 0x1_0000_0000_0000_0000_0000 == b / 0x1_0000_0000_0000_0000_0000);
    lemma_group(a, 0x1_0000_0000_0000_0000);
    lemma_group(b, 0x1_0000_0000_0000_0000);
    assert(a / 0x1_0000_0000_0000_0000 == b / 0x1_0000_0000_0000_0000);
    lemma_group(a, 0x1_0000_0000_0000);
    lemma_group(b, 0x1_0000_0000_0000);
    assert(a / 0x1_0000_0000_0000 == b / 0x1_0000_0000_0000);
    assert(a == a / 0x1_0000_0000_0000 * 0x1_0000_0000_0000 + a % 0x1_0000_0000_0000);
    assert(b == b / 0x1_0000_0000_0000 * 0x1_0000_0000_0000 + b % 0x1_0000_0000_0000);
}

/// Five groups with hyphens between them can be told apart.
proof fn lemma_split(s: Seq<char>, a: Seq<char>, b: Seq<char>, c: Seq<char>, d: Seq<char>, e: Seq<char>)
    requires
        a.len() == 8,
        b.len() == 4,
        c.len() == 4,
        d.len() == 4,
        e.len() == 12,
        s == a.push('-') + b.push('-') + c.push('-') + d.push('-') + e,
    ensures
        a == s.subrange(0, 8),
        b == s.subrange(9, 13),
        c == s.subrange(14, 18),
        d == s.subrange(19, 23),
        e == s.subrange(24, 36),
{
    assert(a =~= s.subrange(0, 8));
    assert(b =~= s.subrange(9, 13));
    assert(c =~= s.subrange(14, 18));
    assert(d =~= s.subrange(19, 23));
    assert(e =~= s.subrange(24, 36));
}

proof fn lemma_id_groups(id: u128)
    ensures
        id_text(id).len() == 36,
        id_text(id).subrange(0, 8) == hex((id / 0x1_0000_0000_0000_0000_0000_0000) as nat, 8),
        id_text(id).subrange(9, 13) == hex((id / 0x1_0000_0000_0000_0000_0000) as nat, 4),
        id_text(id).subrange(14, 18) == hex((id / 0x1_0000_0000_0000_0000) as nat, 4),
        id_text(id).subrange(19, 23) == hex((id / 0x1_0000_0000_0000) as nat, 4),
        id_text(id).subrange(24, 36) == hex(id as nat, 12),
{
    let a = (id / 0x1_0000_0000_0000_0000_0000_0000) as nat;
    let b = (id / 0x1_0000_0000_0000_0000_0000) as nat;
    let c = (id / 0x1_0000_0000_0000_0000) as nat;
    let d = (id / 0x1_0000_0000_0000) as nat;
    lemma_hex_len(a, 8);
    lemma_hex_len(b, 4);
    lemma_hex_len(c, 4);
    lemma_hex_len(d, 4);
    lemma_hex_len(id as nat, 12);
    lemma_split(id_text(id), hex(a, 8), hex(b, 4), hex(c, 4), hex(d, 4), hex(id as nat, 12));
}

/// Different ids are written differently.
pub proof fn law_ids_are_written_apart(a: u128, b: u128)
    requires
        id_text(a) == id_text(b),
    ensures
        a == b,
{
    lemma_id_groups(a);
    lemma_id_groups(b);
    let a0 = (a / 0x1_0000_0000_0000_0000_0000_0000) as nat;
    let b0 = (b / 0x1_0000_0000_0000_0000_0000_0000) as nat;
    let a1 = (a / 0x1_0000_0000_0000_0000_0000) as nat;
    let b1 = (b / 0x1_0000_0000_0000_0000_0000) as nat;
    let a2 = (a / 0x1_0000_0000_0000_0000) as nat;
    let b2 = (b / 0x1_0000_0000_0000_0000) as nat;
    let a3 = (a / 0x1_0000_0000_0000) as nat;
    let b3 = (b / 0x1_0000_0000_0000) as nat;
    lemma_hex_digits(a0, b0, 8);
    lemma_hex_digits(a1, b1, 4);
    lemma_hex_digits(a2, b2, 4);
    lemma_hex_digits(a3, b3, 4);
    lemma_hex_digits(a as nat, b as nat, 12);
    lemma_last_eight(a0);
    lemma_last_eight(b0);
    lemma_last_four(a1);
    lemma_last_four(b1);
    lemma_last_four(a2);
    lemma_last_four(b2);
    lemma_last_four(a3);
    lemma_last_four(b3);
    lemma_last_twelve(a as nat);
    lemma_last_twelve(b as nat);
    assert(a0 < 0x1_0000_0000 && b0 < 0x1_0000_0000);
    lemma_groups(a as nat, b as nat);
}

// ---------------------------------------------------------------------------
// Files next to a project
// ---------------------------------------------------------------------------

/// The file that a project is saved in on the side, next to its own file.
pub fn sidecar_for(file: &str) -> (r: String)
    ensures
        r@ == file@ + AUTOSAVE_SUFFIX@,
{
    let mut out = file.to_owned();
    out.append(AUTOSAVE_SUFFIX);
    out
}

/// Whether the file that a path leads to was saved on the side.
pub fn is_autosave_file(path: &str) -> (r: bool)
    ensures
        r == text::ends_with(file_name_of(path@), AUTOSAVE_SUFFIX@),
{
    match strip_suffix(file_name(path), AUTOSAVE_SUFFIX) {
        Some(head) => {
            proof {
                text::lemma_ends_with(head@, AUTOSAVE_SUFFIX@);
            }
            true
        },
        None => false,
    }
}

/// The file next to which the file was saved that a path leads to: it has the name
/// without the suffix, in the same place. None if that is no project, as with files
/// that were saved under an id: there is no such file.
pub fn original_file_for_sidecar(autosave: &str) -> (r: Option<String>)
    ensures
        match r {
            Some(file) => exists|name: Seq<char>|
                text::ends_with(name, ".daw"@) && file_name_of(autosave@) == #[trigger] (name + AUTOSAVE_SUFFIX@)
                    && file@ == place_of(autosave@) + name,
            None => forall|name: Seq<char>|
                text::ends_with(name, ".daw"@) ==> file_name_of(autosave@) != #[trigger] (name + AUTOSAVE_SUFFIX@),
        },
{
    let (_, from, end) = find_name(autosave);
    let last = autosave.substring_char(from, end);
    match strip_suffix(last, AUTOSAVE_SUFFIX) {
        Some(name) => match strip_suffix(name, ".daw") {
            Some(stem) => {
                proof {
                    text::lemma_ends_with(stem@, ".daw"@);
                    assert(file_name_of(autosave@) == name@ + AUTOSAVE_SUFFIX@);
                    assert(autosave@.subrange(0, from as int) =~= place_of(autosave@));
                }
                let mut file = autosave.substring_char(0, from).to_owned();
                file.append(name);
                Some(file)
            },
            None => {
                proof {
                    assert forall|other: Seq<char>| text::ends_with(other, ".daw"@) implies last@ != #[trigger] (other
                        + AUTOSAVE_SUFFIX@) by {
                        if last@ == other + AUTOSAVE_SUFFIX@ {
                            text::lemma_same_tail(name@, other, AUTOSAVE_SUFFIX@);
                        }
                    }
                }
                None
            },
        },
        None => {
            proof {
                assert forall|other: Seq<char>| text::ends_with(other, ".daw"@) implies last@ != #[trigger] (other
                    + AUTOSAVE_SUFFIX@) by {
                    text::lemma_ends_with(other, AUTOSAVE_SUFFIX@);
                }
            }
            None
        },
    }
}

proof fn lemma_last_part_of_tail(head: Seq<char>, tail: Seq<char>, verbatim: bool)
    requires
        forall|i: int| 0 <= i < tail.len() ==> !is_between(#[trigger] tail[i], verbatim),
    ensures
        last_part(head + tail, verbatim) == last_part(head, verbatim) + tail,
    decreases tail.len(),
{
    if tail.len() == 0 {
        assert(head + tail =~= head);
        assert(last_part(head, verbatim) + tail =~= last_part(head, verbatim));
    } else {
        lemma_last_part_of_tail(head, tail.drop_last(), verbatim);
        assert((head + tail).drop_last() =~= head + tail.drop_last());
        assert((head + tail).last() == tail.last());
        assert(last_part(head + tail, verbatim) =~= last_part(head, verbatim) + tail);
    }
}

proof fn lemma_last_part_len(parts: Seq<char>, verbatim: bool)
    ensures
        last_part(parts, verbatim).len() <= parts.len(),
        last_part(parts, verbatim) == parts.skip(parts.len() - last_part(parts, verbatim).len()),
    decreases parts.len(),
{
    if parts.len() > 0 && !is_between(parts.last(), verbatim) {
        lemma_last_part_len(parts.drop_last(), verbatim);
        let front = parts.drop_last();
        let n = last_part(front, verbatim).len();
        assert(parts.skip(parts.len() - n - 1) =~= front.skip(front.len() - n).push(parts.last()));
    } else {
        assert(parts.skip(parts.len() as int) =~= Seq::<char>::empty());
    }
}

/// A part that goes on behind the end of a path ends at the new end.
proof fn lemma_part_end_grows(path: Seq<char>, more: Seq<char>, from: int, verbatim: bool)
    requires
        0 <= from,
        forall|i: int| 0 <= i < more.len() ==> !is_between(#[trigger] more[i], verbatim),
    ensures
        part_end(path, from, verbatim) < path.len() ==> part_end(path + more, from, verbatim) == part_end(
            path,
            from,
            verbatim,
        ),
        part_end(path, from, verbatim) >= path.len() ==> part_end(path + more, from, verbatim) == (path + more).len(),
    decreases (path + more).len() - from,
{
    if from < (path + more).len() {
        if from < path.len() {
            assert((path + more)[from] == path[from]);
        } else {
            assert((path + more)[from] == more[from - path.len()]);
        }
        lemma_part_end_grows(path, more, from + 1, verbatim);
    }
}

/// What a path begins with stays what it is when its last part goes on.
proof fn lemma_prefix_stays(path: Seq<char>, more: Seq<char>)
    requires
        path.len() >= 4,
        prefix_len(path) < path.len(),
        !is_between(path.last(), false),
        forall|i: int| 0 <= i < more.len() ==> !is_between(#[trigger] more[i], false),
    ensures
        prefix_len(path + more) == prefix_len(path),
        is_verbatim(path + more) == is_verbatim(path),
{
    let whole = path + more;
    let n = path.len() as int;
    assert(whole[0] == path[0] && whole[1] == path[1] && whole[2] == path[2] && whole[3] == path[3]);
    assert(n > 4 ==> whole[4] == path[4]);
    assert(n > 5 ==> whole[5] == path[5]);
    assert(n > 6 ==> whole[6] == path[6]);
    assert(n > 7 ==> whole[7] == path[7]);
    assert(path.last() == path[n - 1]);
    assert forall|i: int| 0 <= i < more.len() implies !is_between(#[trigger] more[i], true) by {
        assert(!is_between(more[i], false));
    }
    if is_verbatim(path) {
        lemma_part_end(path, 4, true);
        lemma_part_end_grows(path, more, 4, true);
        assert(n > 4);
        if n >= 8 && path[4] == 'U' && path[5] == 'N' && path[6] == 'C' && path[7] == '\\' {
            let server = part_end(path, 8, true);
            lemma_part_end(path, 8, true);
            lemma_part_end_grows(path, more, 8, true);
            assert(server < n);
            lemma_between_at(path, 8, true);
            lemma_part_end(path, server + 1, true);
            lemma_part_end_grows(path, more, server + 1, true);
        } else if n < 8 {
            lemma_between_at(path, 4, true);
        }
    } else if is_between(path[0], false) && is_between(path[1], false) {
        if path[2] == '.' && is_between(path[3], false) {
            lemma_part_end_grows(path, more, 4, false);
        } else {
            let server = part_end(path, 2, false);
            lemma_part_end(path, 2, false);
            lemma_part_end_grows(path, more, 2, false);
            if server < n {
                lemma_between_at(path, 2, false);
                lemma_part_end(path, server + 1, false);
                lemma_part_end_grows(path, more, server + 1, false);
            } else {
                lemma_part_end(whole, whole.len() as int + 1, false);
            }
        }
    }
}

/// What ends a part before the end of a path is a separator.
proof fn lemma_between_at(path: Seq<char>, from: int, verbatim: bool)
    requires
        0 <= from,
    ensures
        part_end(path, from, verbatim) < path.len() ==> is_between(path[part_end(path, from, verbatim)], verbatim),
    decreases path.len() - from,
{
    if from < path.len() && !is_between(path[from], verbatim) {
        lemma_between_at(path, from + 1, verbatim);
    }
}

/// The file next to a project leads back to the project, and to no other one: its
/// name is that of the project with the suffix, and [`original_file_for_sidecar`],
/// whatever name it found before the suffix, gives the path of the project.
pub proof fn law_sidecars_lead_back(file: Seq<char>, name: Seq<char>)
    requires
        text::ends_with(file, ".daw"@),
        text::ends_with(file_name_of(file), ".daw"@),
    ensures
        file_name_of(file + AUTOSAVE_SUFFIX@) == file_name_of(file) + AUTOSAVE_SUFFIX@,
        file_name_of(file + AUTOSAVE_SUFFIX@) == name + AUTOSAVE_SUFFIX@ ==> place_of(file + AUTOSAVE_SUFFIX@) + name
            == file,
{
    let more = AUTOSAVE_SUFFIX@;
    let sidecar = file + more;
    let v = is_verbatim(file);
    let n = prefix_len(file);
    reveal_strlit(".autosave.daw");
    reveal_strlit(".daw");
    assert(file.skip(file.len() - 4)[3] == 'w');
    lemma_part_end(file, 8, true);
    lemma_part_end(file, 4, true);
    lemma_part_end(file, 4, false);
    lemma_part_end(file, 2, false);
    lemma_part_end(file, part_end(file, 8, true) + 1, true);
    lemma_part_end(file, part_end(file, 2, false) + 1, false);
    assert(0 <= n <= file.len());
    let parts = parts_of(file);
    if parts.len() == 0 {
        assert(trimmed(parts, v) == parts);
        assert(file_name_of(file).len() == 0);
        assert(false);
    }
    assert(parts.last() == 'w');
    assert(trimmed(parts, v) == parts);
    lemma_prefix_stays(file, more);
    assert(parts_of(sidecar) =~= parts + more);
    let grown = parts + more;
    assert(grown.last() == 'w');
    assert(trimmed(grown, v) == grown);
    lemma_last_part_of_tail(parts, more, v);
    lemma_last_part_len(parts, v);
    assert(file_name_of(sidecar) == last_part(parts, v) + more);
    if file_name_of(sidecar) == name + more {
        text::lemma_same_tail(last_part(parts, v), name, more);
        let at = parts.len() - name.len();
        assert(grown.take(at) =~= parts.take(at));
        assert(sidecar.take(n) =~= file.take(n));
        assert(file.take(n) + parts.take(at) + name =~= file);
    }
}

/// The name of a file is what follows the last separator of its path, and its place is
/// what comes up to it.
pub proof fn law_names_follow_the_last_separator(dir: Seq<char>, sep: char, name: Seq<char>)
    requires
        sep == '\\' || sep == '/' && !is_verbatim(dir + seq![sep] + name),
        name.len() > 0,
        name != seq!['.'],
        forall|i: int| 0 <= i < name.len() ==> #[trigger] name[i] != '\\' && name[i] != '/',
        0 <= prefix_len(dir + seq![sep] + name) <= dir.len(),
    ensures
        file_name_of(dir + seq![sep] + name) == name,
        place_of(dir + seq![sep] + name) == dir + seq![sep],
{
    let path = dir + seq![sep] + name;
    let n = prefix_len(path);
    let verbatim = is_verbatim(path);
    let parts = parts_of(path);
    let head = dir.skip(n) + seq![sep];
    assert(parts =~= head + name);
    assert(parts.last() == name.last());
    assert(!is_between(name[name.len() - 1], verbatim));
    if parts.len() > 1 && parts.last() == '.' && is_between(parts[parts.len() - 2], verbatim) {
        if name.len() > 1 {
            assert(parts[parts.len() - 2] == name[name.len() - 2]);
        } else {
            assert(name =~= seq!['.']);
        }
    }
    assert(trimmed(parts, verbatim) == parts);
    lemma_last_part_of_tail(head, name, verbatim);
    assert(head.last() == sep);
    assert(last_part(head, verbatim) =~= Seq::<char>::empty());
    assert(last_part(parts, verbatim) =~= name);
    assert(parts.take(parts.len() - name.len()) =~= head);
    assert(path.take(n) + head =~= dir + seq![sep]);
}

/// Ids are written in groups of eight, four, four, four and twelve digits.
pub proof fn law_ids_are_written_in_groups(id: u128)
    ensures
        id_text(id).len() == 36,
        id_text(id)[8] == '-' && id_text(id)[13] == '-' && id_text(id)[18] == '-' && id_text(id)[23] == '-',
{
    lemma_hex_len((id / 0x1_0000_0000_0000_0000_0000_0000) as nat, 8);
    lemma_hex_len((id / 0x1_0000_0000_0000_0000_0000) as nat, 4);
    lemma_hex_len((id / 0x1_0000_0000_0000_0000) as nat, 4);
    lemma_hex_len((id / 0x1_0000_0000_0000) as nat, 4);
    lemma_hex_len(id as nat, 12);
}

} // verus!
