//! Plain value types and parsing rules of the article store.
//!
//! The store itself — connection handling, schema, queries — is an external
//! collaborator; this module holds what can be stated and checked of its
//! values: article identifiers, the simplified three-number layout version
//! and its textual form, the sanitizing of text headed for the store, and
//! the escaping of search terms for a `LIKE` pattern.

use vstd::prelude::*;

verus! {

/// Whether `b` is a decimal digit.
pub open spec fn is_digit(b: u8) -> bool {
    48 <= b <= 57
}

/// Whether `s` consists of decimal digits alone.
pub open spec fn all_digits(s: Seq<u8>) -> bool {
    forall|i: int| 0 <= i < s.len() ==> is_digit(#[trigger] s[i])
}

/// The number a digit string denotes.
pub open spec fn digits_value(s: Seq<u8>) -> nat
    decreases s.len(),
{
    if s.len() == 0 {
        0
    } else {
        (digits_value(s.drop_last()) * 10 + (s.last() - 48)) as nat
    }
}

/// What parsing an unsigned number accepts: one or more digits — no sign,
/// no other byte — denoting a value that fits.
pub open spec fn parse_u32_spec(s: Seq<u8>) -> Option<u32> {
    if s.len() > 0 && all_digits(s) && digits_value(s) <= u32::MAX {
        Some(digits_value(s) as u32)
    } else {
        None
    }
}

/// A longer digit string never denotes a smaller number.
proof fn lemma_digits_value_mono(s: Seq<u8>, i: int)
    requires
        0 <= i <= s.len(),
        all_digits(s),
    ensures
        digits_value(s) >= digits_value(s.take(i)),
    decreases s.len() - i,
{
    if i < s.len() {
        assert(s.take(i + 1).drop_last() =~= s.take(i));
        assert(s.take(i + 1).last() == s[i]);
        assert(is_digit(s[i]));
        assert(digits_value(s.take(i + 1)) >= digits_value(s.take(i)));
        lemma_digits_value_mono(s, i + 1);
        assert(s.take(s.len() as int) =~= s);
    } else {
        assert(s.take(s.len() as int) =~= s);
    }
}

/// Parses a decimal `u32`: digits alone are accepted, so a leading sign —
/// a `+1` that would let one version string carry another's shape — is
/// rejected, as are empty strings and values that do not fit.
pub fn parse_u32(s: &Vec<u8>) -> (r: Option<u32>)
    ensures
        r == parse_u32_spec(s@),
{
    if s.len() == 0 {
        return None;
    }
    let mut acc: u64 = 0;
    let mut i: usize = 0;
    while i < s.len()
        invariant
            i <= s@.len(),
            s@.len() > 0,
            acc == digits_value(s@.take(i as int)),
            acc <= u32::MAX,
            forall|j: int| 0 <= j < i ==> is_digit(#[trigger] s@[j]),
        decreases s@.len() - i,
    {
        let b: u8 = s[i];
        proof {
            assert(s@.take(i as int + 1).drop_last() =~= s@.take(i as int));
            assert(s@.take(i as int + 1).last() == s@[i as int]);
        }
        if b < 48 || b > 57 {
            proof {
                assert(!is_digit(s@[i as int]));
                assert(!all_digits(s@));
            }
            return None;
        }
        acc = acc * 10 + ((b - 48) as u64);
        i = i + 1;
        if acc > u32::MAX as u64 {
            proof {
                if all_digits(s@) {
                    lemma_digits_value_mono(s@, i as int);
                    assert(digits_value(s@) > u32::MAX);
                }
            }
            return None;
        }
    }
    proof {
        assert(s@.take(s@.len() as int) =~= s@);
        assert(all_digits(s@));
    }
    Some(acc as u32)
}

/// The decimal digits of `n`, most significant first, with no leading zero
/// except for zero itself.
pub open spec fn dec_repr(n: nat) -> Seq<u8>
    decreases n,
{
    if n < 10 {
        seq![(48 + n) as u8]
    } else {
        dec_repr(n / 10) + seq![(48 + n % 10) as u8]
    }
}

/// Writes `n` in decimal.
pub fn u32_to_dec(n: u32) -> (r: Vec<u8>)
    ensures
        r@ == dec_repr(n as nat),
    decreases n,
{
    if n < 10 {
        let mut out: Vec<u8> = Vec::new();
        out.push(48 + (n as u8));
        proof {
            assert(out@ =~= dec_repr(n as nat));
        }
        out
    } else {
        let mut out: Vec<u8> = u32_to_dec(n / 10);
        out.push(48 + ((n % 10) as u8));
        proof {
            assert(out@ =~= dec_repr((n / 10) as nat) + seq![(48 + (n as nat) % 10) as u8]);
        }
        out
    }
}

/// The position of the first occurrence of `b` in `s`, or the length of `s`
/// when `b` does not occur.
pub open spec fn find_byte_spec(s: Seq<u8>, b: u8) -> int
    decreases s.len(),
{
    if s.len() == 0 {
        0
    } else if s[0] == b {
        0
    } else {
        1 + find_byte_spec(s.drop_first(), b)
    }
}

/// Finds the first occurrence of `b` in `v` at or after `start`.
pub fn find_byte(v: &Vec<u8>, start: usize, b: u8) -> (r: usize)
    requires
        start <= v@.len(),
    ensures
        start <= r <= v@.len(),
        r - start == find_byte_spec(v@.skip(start as int), b),
{
    let ghost full = v@.skip(start as int);
    let mut i: usize = start;
    while i < v.len()
        invariant
            start <= i <= v@.len(),
            full == v@.skip(start as int),
            find_byte_spec(full, b) == (i - start) + find_byte_spec(v@.skip(i as int), b),
        decreases v@.len() - i,
    {
        proof {
            assert(v@.skip(i as int)[0] == v@[i as int]);
            assert(v@.skip(i as int).drop_first() =~= v@.skip(i as int + 1));
        }
        if v[i] == b {
            proof {
                assert(find_byte_spec(v@.skip(i as int), b) == 0);
            }
            return i;
        }
        i = i + 1;
    }
    proof {
        assert(v@.skip(i as int).len() == 0);
    }
    i
}

/// The unique identifier of a stored item.
#[derive(Debug, Copy, Clone, PartialEq, Eq, Structural)]
pub struct ItemId {
    pub value: u32,
}

impl From<u32> for ItemId {
    /// Wraps a raw number as an identifier.
    fn from(value: u32) -> (r: ItemId) {
        ItemId { value }
    }
}

impl vstd::std_specs::convert::FromSpecImpl<u32> for ItemId {
    open spec fn obeys_from_spec() -> bool {
        true
    }

    open spec fn from_spec(value: u32) -> ItemId {
        ItemId { value }
    }
}

impl ItemId {
    /// Parses an identifier from its decimal form.
    pub fn from_str(s: &Vec<u8>) -> (r: Option<ItemId>)
        ensures
            r == match parse_u32_spec(s@) {
                Some(v) => Some(ItemId { value: v }),
                None => None::<ItemId>,
            },
    {
        match parse_u32(s) {
            Some(value) => Some(ItemId { value }),
            None => None,
        }
    }

    /// Converts a store row number, rejecting what no identifier can hold.
    pub fn try_from_i64(value: i64) -> (r: Option<ItemId>)
        ensures
            r == if 0 <= value <= u32::MAX {
                Some(ItemId { value: value as u32 })
            } else {
                None::<ItemId>
            },
    {
        if value >= 0 && value <= u32::MAX as i64 {
            Some(ItemId { value: value as u32 })
        } else {
            None
        }
    }

    /// The identifier in decimal.
    pub fn to_dec(&self) -> (r: Vec<u8>)
        ensures
            r@ == dec_repr(self.value as nat),
    {
        u32_to_dec(self.value)
    }
}

/// A simplified three-number layout version: exactly `major.minor.patch`,
/// each a plain unsigned number.
#[derive(Debug, Copy, Clone, PartialEq, Eq, Structural)]
pub struct WikiSemVer {
    pub major: u32,
    pub minor: u32,
    pub patch: u32,
}

/// What parsing a layout version accepts: at least three dot-separated
/// fields, the first three plain unsigned numbers; anything beyond the third
/// dot is ignored.
pub open spec fn semver_parse_spec(s: Seq<u8>) -> Option<WikiSemVer> {
    let i1 = find_byte_spec(s, 46);
    if i1 == s.len() {
        None
    } else {
        let r1 = s.skip(i1 + 1);
        let i2 = find_byte_spec(r1, 46);
        if i2 == r1.len() {
            None
        } else {
            let r2 = r1.skip(i2 + 1);
            let c3 = r2.take(find_byte_spec(r2, 46));
            match (parse_u32_spec(s.take(i1)), parse_u32_spec(r1.take(i2)), parse_u32_spec(c3)) {
                (Some(major), Some(minor), Some(patch)) => Some(WikiSemVer { major, minor, patch }),
                _ => None,
            }
        }
    }
}

/// The textual form of a layout version: `major.minor.patch` in decimal.
pub open spec fn semver_format_spec(v: WikiSemVer) -> Seq<u8> {
    dec_repr(v.major as nat) + seq![46u8] + dec_repr(v.minor as nat) + seq![46u8] + dec_repr(
        v.patch as nat,
    )
}

impl WikiSemVer {
    /// Builds a version from its three numbers.
    pub fn new(major: u32, minor: u32, patch: u32) -> (r: WikiSemVer)
        ensures
            r == (WikiSemVer { major, minor, patch }),
    {
        WikiSemVer { major, minor, patch }
    }

    /// Parses a version from its textual form.
    pub fn parse(s: &Vec<u8>) -> (r: Option<WikiSemVer>)
        ensures
            r == semver_parse_spec(s@),
    {
        let ghost sq = s@;
        proof {
            assert(sq.skip(0) =~= sq);
        }
        let i1: usize = find_byte(s, 0, 46);
        if i1 == s.len() {
            return None;
        }
        let i2: usize = find_byte(s, i1 + 1, 46);
        let ghost r1 = sq.skip(i1 + 1);
        proof {
            assert(r1.len() == sq.len() - (i1 + 1));
        }
        if i2 == s.len() {
            return None;
        }
        let i3: usize = find_byte(s, i2 + 1, 46);
        let ghost r2 = r1.skip(i2 - i1);
        proof {
            assert(r2 =~= sq.skip(i2 + 1));
            assert(find_byte_spec(r1, 46) == i2 - (i1 + 1));
            assert(find_byte_spec(r2, 46) == i3 - (i2 + 1));
        }
        let c1: Vec<u8> = crate::events::bytes_range(s, 0, i1);
        let c2: Vec<u8> = crate::events::bytes_range(s, i1 + 1, i2);
        let c3: Vec<u8> = crate::events::bytes_range(s, i2 + 1, i3);
        proof {
            assert(c1@ =~= sq.take(i1 as int));
            assert(c2@ =~= r1.take(i2 - (i1 + 1)));
            assert(c3@ =~= r2.take(find_byte_spec(r2, 46)));
        }
        match (parse_u32(&c1), parse_u32(&c2), parse_u32(&c3)) {
            (Some(major), Some(minor), Some(patch)) => Some(WikiSemVer { major, minor, patch }),
            _ => None,
        }
    }

    /// Writes the version in its textual form.
    pub fn format(&self) -> (r: Vec<u8>)
        ensures
            r@ == semver_format_spec(*self),
    {
        let mut out: Vec<u8> = u32_to_dec(self.major);
        out.push(46);
        let mut minor: Vec<u8> = u32_to_dec(self.minor);
        out.append(&mut minor);
        out.push(46);
        let mut patch: Vec<u8> = u32_to_dec(self.patch);
        out.append(&mut patch);
        proof {
            assert(out@ =~= semver_format_spec(*self));
        }
        out
    }
}

/// How the store may be opened.
#[derive(Debug)]
pub enum OpenMode {
    CreateNew,
    OpenExisting,
    OpenOrCreate,
}

/// Why connecting to the store failed.
#[derive(Debug, PartialEq, Eq, Structural)]
pub enum DatabaseConnectError {
    AlreadyExists,
    CannotOpen,
    CouldNotCreate,
    Unknown,
}

/// Why an opened store cannot be used.
#[derive(Debug, PartialEq, Eq, Structural)]
pub enum DatabaseInitError {
    CouldNotReadLayout,
    UnsupportedLayout,
    MigrationNeeded,
}

/// The one table layout version this crate can work with.
pub open spec fn supported_layout() -> WikiSemVer {
    WikiSemVer { major: 0, minor: 1, patch: 0 }
}

/// Decides whether a store with the given layout version — `None` when no
/// layout row could be read — may be used: exactly the supported version
/// passes; an unreadable layout and any other version are each their own
/// error.
pub fn check_layout_version(layout: Option<WikiSemVer>) -> (r: Result<(), DatabaseInitError>)
    ensures
        match layout {
            None => r == Err::<(), DatabaseInitError>(DatabaseInitError::CouldNotReadLayout),
            Some(v) => if v == supported_layout() {
                r == Ok::<(), DatabaseInitError>(())
            } else {
                r == Err::<(), DatabaseInitError>(DatabaseInitError::UnsupportedLayout)
            },
        },
{
    match layout {
        Some(v) => {
            if v.major == 0 && v.minor == 1 && v.patch == 0 {
                Ok(())
            } else {
                Err(DatabaseInitError::UnsupportedLayout)
            }
        },
        None => Err(DatabaseInitError::CouldNotReadLayout),
    }
}

/// Whether a byte may enter the store: control bytes are stripped, except
/// tab and line feed.
pub open spec fn keep_byte(b: u8) -> bool {
    b >= 32 || b == 9 || b == 10
}

/// `s` with the bytes the store refuses removed.
pub open spec fn filtered(s: Seq<u8>) -> Seq<u8>
    decreases s.len(),
{
    if s.len() == 0 {
        Seq::empty()
    } else {
        filtered(s.drop_last()) + (if keep_byte(s.last()) {
            seq![s.last()]
        } else {
            Seq::empty()
        })
    }
}

/// Strips the control bytes the store refuses, keeping tab and line feed.
pub fn filter_chars(s: &Vec<u8>) -> (r: Vec<u8>)
    ensures
        r@ == filtered(s@),
{
    let mut out: Vec<u8> = Vec::new();
    let mut i: usize = 0;
    while i < s.len()
        invariant
            i <= s@.len(),
            out@ == filtered(s@.take(i as int)),
        decreases s@.len() - i,
    {
        let b: u8 = s[i];
        proof {
            assert(s@.take(i as int + 1).drop_last() =~= s@.take(i as int));
            assert(s@.take(i as int + 1).last() == s@[i as int]);
        }
        if b >= 32 || b == 9 || b == 10 {
            out.push(b);
            proof {
                assert(out@ =~= filtered(s@.take(i as int + 1)));
            }
        } else {
            proof {
                assert(out@ =~= filtered(s@.take(i as int + 1)));
            }
        }
        i = i + 1;
    }
    proof {
        assert(s@.take(s@.len() as int) =~= s@);
    }
    out
}

/// One byte of a search term as it stands in a `LIKE` pattern: the escape
/// byte `^` and the wildcards `%` and `_` are prefixed with `^`.
pub open spec fn escaped(s: Seq<u8>) -> Seq<u8>
    decreases s.len(),
{
    if s.len() == 0 {
        Seq::empty()
    } else {
        escaped(s.drop_last()) + (if s.last() == 94 || s.last() == 37 || s.last() == 95 {
            seq![94u8, s.last()]
        } else {
            seq![s.last()]
        })
    }
}

/// Turns a search term into a substring-matching `LIKE` pattern: wildcards
/// and the escape byte are escaped with `^`, and the whole is wrapped in
/// `%`.
pub fn escape_like_pattern(term: &Vec<u8>) -> (r: Vec<u8>)
    ensures
        r@ == seq![37u8] + escaped(term@) + seq![37u8],
{
    let mut out: Vec<u8> = Vec::new();
    out.push(37);
    let mut i: usize = 0;
    while i < term.len()
        invariant
            i <= term@.len(),
            out@ == seq![37u8] + escaped(term@.take(i as int)),
        decreases term@.len() - i,
    {
        let b: u8 = term[i];
        proof {
            assert(term@.take(i as int + 1).drop_last() =~= term@.take(i as int));
            assert(term@.take(i as int + 1).last() == term@[i as int]);
        }
        if b == 94 || b == 37 || b == 95 {
            out.push(94);
            out.push(b);
        } else {
            out.push(b);
        }
        proof {
            assert(out@ =~= seq![37u8] + escaped(term@.take(i as int + 1)));
        }
        i = i + 1;
    }
    out.push(37);
    proof {
        assert(term@.take(term@.len() as int) =~= term@);
    }
    out
}

} // verus!
