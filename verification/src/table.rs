//! Character-class tables for the URI component grammars of RFC 3986.
//!
//! A [`Table`] classifies the 128 ASCII byte values: it tells which bytes a
//! given URI component may contain unencoded, and whether the component may
//! contain percent-encoded octets (`%XX`) at all. Validation of a byte
//! sequence against a table is specified by [`scan`], which also pins down
//! the exact index of the first violation.

use vstd::prelude::*;

verus! {

/// One character-class table per URI component grammar.
///
/// Each variant stands for the allowed-byte set of one RFC 3986 production,
/// together with a flag saying whether `%XX` escapes are permitted there.
#[derive(Clone, Copy, PartialEq, Eq, Structural, Debug)]
pub enum Table {
    /// `scheme = ALPHA *( ALPHA / DIGIT / "+" / "-" / "." )`; no escapes.
    Scheme,
    /// `userinfo = *( unreserved / pct-encoded / sub-delims / ":" )`.
    Userinfo,
    /// `reg-name = *( unreserved / pct-encoded / sub-delims )`.
    RegName,
    /// `port = *DIGIT`; no escapes.
    Port,
    /// `path = *( pchar / "/" )`.
    Path,
    /// `segment = *pchar`.
    PathSegment,
    /// `query = *( pchar / "/" / "?" )`.
    Query,
    /// `fragment = *( pchar / "/" / "?" )`.
    Fragment,
}

pub open spec fn spec_is_alpha(b: u8) -> bool {
    (('a' as u8) <= b && b <= ('z' as u8)) || (('A' as u8) <= b && b <= ('Z' as u8))
}

pub open spec fn spec_is_digit(b: u8) -> bool {
    ('0' as u8) <= b && b <= ('9' as u8)
}

pub open spec fn spec_is_hexdig(b: u8) -> bool {
    spec_is_digit(b) || (('A' as u8) <= b && b <= ('F' as u8)) || (('a' as u8) <= b && b <= ('f' as u8))
}

pub open spec fn spec_is_unreserved(b: u8) -> bool {
    spec_is_alpha(b) || spec_is_digit(b) || b == ('-' as u8) || b == ('.' as u8) || b == ('_' as u8) || b == ('~' as u8)
}

pub open spec fn spec_is_sub_delim(b: u8) -> bool {
    b == ('!' as u8) || b == ('$' as u8) || b == ('&' as u8) || b == ('\'' as u8) || b == ('(' as u8) || b == (')' as u8) || b == ('*' as u8)
        || b == ('+' as u8) || b == (',' as u8) || b == (';' as u8) || b == ('=' as u8)
}

pub open spec fn spec_is_gen_delim(b: u8) -> bool {
    b == (':' as u8) || b == ('/' as u8) || b == ('?' as u8) || b == ('#' as u8) || b == ('[' as u8) || b == (']' as u8) || b == ('@' as u8)
}

/// The RFC 3986 reserved set: the only delimiters a slice may be split on.
pub open spec fn spec_is_reserved(b: u8) -> bool {
    spec_is_gen_delim(b) || spec_is_sub_delim(b)
}

pub open spec fn spec_is_pchar(b: u8) -> bool {
    spec_is_unreserved(b) || spec_is_sub_delim(b) || b == (':' as u8) || b == ('@' as u8)
}

pub fn is_reserved(b: u8) -> (r: bool)
    ensures
        r == spec_is_reserved(b),
{
    (b == (':' as u8) || b == ('/' as u8) || b == ('?' as u8) || b == ('#' as u8) || b == ('[' as u8) || b == (']' as u8) || b == ('@' as u8))
        || (b == ('!' as u8) || b == ('$' as u8) || b == ('&' as u8) || b == ('\'' as u8) || b == ('(' as u8) || b == (')' as u8)
            || b == ('*' as u8) || b == ('+' as u8) || b == (',' as u8) || b == (';' as u8) || b == ('=' as u8))
}

pub fn is_hexdig(b: u8) -> (r: bool)
    ensures
        r == spec_is_hexdig(b),
{
    (('0' as u8) <= b && b <= ('9' as u8)) || (('A' as u8) <= b && b <= ('F' as u8)) || (('a' as u8) <= b && b <= ('f' as u8))
}

impl Table {
    /// Which bytes this table allows unencoded.
    pub open spec fn spec_allows(self, b: u8) -> bool {
        match self {
            Table::Scheme => spec_is_alpha(b) || spec_is_digit(b) || b == ('+' as u8) || b == ('-' as u8)
                || b == ('.' as u8),
            Table::Userinfo => spec_is_unreserved(b) || spec_is_sub_delim(b) || b == (':' as u8),
            Table::RegName => spec_is_unreserved(b) || spec_is_sub_delim(b),
            Table::Port => spec_is_digit(b),
            Table::Path => spec_is_pchar(b) || b == ('/' as u8),
            Table::PathSegment => spec_is_pchar(b),
            Table::Query => spec_is_pchar(b) || b == ('/' as u8) || b == ('?' as u8),
            Table::Fragment => spec_is_pchar(b) || b == ('/' as u8) || b == ('?' as u8),
        }
    }

    /// Whether this table permits percent-encoded octets.
    pub open spec fn spec_allows_enc(self) -> bool {
        match self {
            Table::Scheme => false,
            Table::Port => false,
            _ => true,
        }
    }

    pub fn allows(self, b: u8) -> (r: bool)
        ensures
            r == self.spec_allows(b),
    {
        match self {
            Table::Scheme => (('a' as u8) <= b && b <= ('z' as u8)) || (('A' as u8) <= b && b <= ('Z' as u8))
                || (('0' as u8) <= b && b <= ('9' as u8)) || b == ('+' as u8) || b == ('-' as u8) || b == ('.' as u8),
            Table::Userinfo => Self::is_unreserved_or_sub_delim(b) || b == (':' as u8),
            Table::RegName => Self::is_unreserved_or_sub_delim(b),
            Table::Port => ('0' as u8) <= b && b <= ('9' as u8),
            Table::Path => Self::is_pchar(b) || b == ('/' as u8),
            Table::PathSegment => Self::is_pchar(b),
            Table::Query => Self::is_pchar(b) || b == ('/' as u8) || b == ('?' as u8),
            Table::Fragment => Self::is_pchar(b) || b == ('/' as u8) || b == ('?' as u8),
        }
    }

    fn is_unreserved_or_sub_delim(b: u8) -> (r: bool)
        ensures
            r == (spec_is_unreserved(b) || spec_is_sub_delim(b)),
    {
        (('a' as u8) <= b && b <= ('z' as u8)) || (('A' as u8) <= b && b <= ('Z' as u8)) || (('0' as u8) <= b && b <= ('9' as u8))
            || b == ('-' as u8) || b == ('.' as u8) || b == ('_' as u8) || b == ('~' as u8) || b == ('!' as u8) || b == ('$' as u8)
            || b == ('&' as u8) || b == ('\'' as u8) || b == ('(' as u8) || b == (')' as u8) || b == ('*' as u8) || b == ('+' as u8)
            || b == (',' as u8) || b == (';' as u8) || b == ('=' as u8)
    }

    fn is_pchar(b: u8) -> (r: bool)
        ensures
            r == spec_is_pchar(b),
    {
        Self::is_unreserved_or_sub_delim(b) || b == (':' as u8) || b == ('@' as u8)
    }

    pub fn allows_enc(self) -> (r: bool)
        ensures
            r == self.spec_allows_enc(),
    {
        !(matches!(self, Table::Scheme) || matches!(self, Table::Port))
    }
}

/// Adds `n` to the position carried by an error, if any.
pub open spec fn shift_err(o: Option<int>, n: int) -> Option<int> {
    match o {
        None => None,
        Some(i) => Some(i + n),
    }
}

/// Scans `s` under table `t` and returns the index of the first violation,
/// or `None` when every byte is either allowed unencoded or part of a
/// well-formed `%XX` triplet of a table that permits escapes.
///
/// A `%` that the table forbids, or one not followed by two hex digits, is
/// reported at the index of the `%` itself.
pub open spec fn scan(t: Table, s: Seq<u8>) -> Option<int>
    decreases s.len(),
{
    if s.len() == 0 {
        None
    } else if s[0] == ('%' as u8) {
        if t.spec_allows_enc() && s.len() >= 3 && spec_is_hexdig(s[1]) && spec_is_hexdig(s[2]) {
            shift_err(scan(t, s.skip(3)), 3)
        } else {
            Some(0)
        }
    } else if t.spec_allows(s[0]) {
        shift_err(scan(t, s.skip(1)), 1)
    } else {
        Some(0)
    }
}

/// A byte sequence is valid under a table when scanning it finds no violation.
pub open spec fn is_valid(t: Table, s: Seq<u8>) -> bool {
    scan(t, s) is None
}

/// Validates `s` against `t`, returning the exact index of the first
/// violation, or `None` when `s` is valid.
pub fn validate(t: Table, s: &[u8]) -> (r: Option<usize>)
    ensures
        match r {
            None => is_valid(t, s@),
            Some(i) => scan(t, s@) == Some(i as int),
        },
{
    let n: usize = s.len();
    let mut i: usize = 0;
    proof {
        assert(s@.skip(0) =~= s@);
    }
    while i < n
        invariant
            n == s@.len(),
            i <= n,
            scan(t, s@) == shift_err(scan(t, s@.skip(i as int)), i as int),
        decreases n - i,
    {
        let b = *vstd::slice::slice_index_get(s, i);
        assert(s@.skip(i as int)[0] == b);
        if b == ('%' as u8) {
            if !t.allows_enc() || n - i < 3 || !is_hexdig(*vstd::slice::slice_index_get(s, i + 1))
                || !is_hexdig(*vstd::slice::slice_index_get(s, i + 2)) {
                assert(scan(t, s@.skip(i as int)) == Some(0int)) by {
                    assert(i + 2 < n ==> s@.skip(i as int)[1] == s@[i + 1]);
                    assert(i + 2 < n ==> s@.skip(i as int)[2] == s@[i + 2]);
                }
                return Some(i);
            }
            assert(s@.skip(i as int)[1] == s@[i + 1] && s@.skip(i as int)[2] == s@[i + 2]);
            assert(s@.skip(i as int).skip(3) =~= s@.skip(i + 3));
            i = i + 3;
        } else {
            if !t.allows(b) {
                return Some(i);
            }
            assert(s@.skip(i as int).skip(1) =~= s@.skip(i + 1));
            i = i + 1;
        }
    }
    assert(s@.skip(n as int) =~= Seq::<u8>::empty());
    None
}

/// A reported violation always lies within the scanned sequence.
pub proof fn lemma_scan_err_range(t: Table, s: Seq<u8>)
    requires
        scan(t, s) is Some,
    ensures
        0 <= scan(t, s)->0 < s.len(),
    decreases s.len(),
{
    if s.len() == 0 {
    } else if s[0] == ('%' as u8) {
        if t.spec_allows_enc() && s.len() >= 3 && spec_is_hexdig(s[1]) && spec_is_hexdig(s[2]) {
            lemma_scan_err_range(t, s.skip(3));
        }
    } else if t.spec_allows(s[0]) {
        lemma_scan_err_range(t, s.skip(1));
    }
}

/// Two sequences valid under one table stay valid when concatenated:
/// validity never depends on what follows a complete token.
pub proof fn lemma_valid_concat(t: Table, a: Seq<u8>, b: Seq<u8>)
    requires
        is_valid(t, a),
        is_valid(t, b),
    ensures
        is_valid(t, a + b),
    decreases a.len(),
{
    if a.len() == 0 {
        assert(a + b =~= b);
    } else if a[0] == ('%' as u8) {
        lemma_valid_concat(t, a.skip(3), b);
        assert((a + b).skip(3) =~= a.skip(3) + b);
        assert((a + b)[0] == ('%' as u8) && (a + b)[1] == a[1] && (a + b)[2] == a[2]);
        assert(scan(t, a + b) == shift_err(scan(t, (a + b).skip(3)), 3));
    } else {
        lemma_valid_concat(t, a.skip(1), b);
        assert((a + b).skip(1) =~= a.skip(1) + b);
        assert((a + b)[0] == a[0]);
        assert(scan(t, a + b) == shift_err(scan(t, (a + b).skip(1)), 1));
    }
}

/// Every byte a table allows, and every byte of a well-formed escape, is
/// ASCII, so a valid sequence holds no byte at or above `0x80`.
pub proof fn lemma_valid_ascii(t: Table, s: Seq<u8>)
    requires
        is_valid(t, s),
    ensures
        forall|i: int| 0 <= i < s.len() ==> s[i] < 0x80,
    decreases s.len(),
{
    if s.len() == 0 {
    } else if s[0] == ('%' as u8) {
        lemma_valid_ascii(t, s.skip(3));
        assert forall|i: int| 0 <= i < s.len() implies s[i] < 0x80 by {
            if i >= 3 {
                assert(s[i] == s.skip(3)[i - 3]);
            }
        }
    } else {
        lemma_valid_ascii(t, s.skip(1));
        assert forall|i: int| 0 <= i < s.len() implies s[i] < 0x80 by {
            if i >= 1 {
                assert(s[i] == s.skip(1)[i - 1]);
            }
        }
    }
}

} // verus!
