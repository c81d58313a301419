//! The zero-copy grammar splitter for whole URI references.
//!
//! [`parse`] carves the raw input into scheme, authority (userinfo, host,
//! port), path, query and fragment, validating each component against its
//! own character table as it is carved out. On failure the reported
//! position is the exact byte offset of the first offending byte in the
//! original input. On success the components, rejoined with their
//! delimiters, reproduce the input byte for byte.

use vstd::prelude::*;
use vstd::slice::{slice_subrange, slice_to_vec};
use vstd::string::{StrSliceExecFns, StringSliceAdditionalSpecFns};
use crate::encoder;
use crate::estr::EStr;
use crate::split::{find_byte, find_in, lemma_find_byte, rfind_in};
use crate::table::{Table, is_valid, scan, validate, spec_is_alpha};

verus! {

/// Why an input was rejected.
#[derive(Clone, Copy, PartialEq, Eq, Structural, Debug)]
pub enum ParseErrorKind {
    /// A byte that its component's table does not allow unencoded.
    InvalidChar,
    /// A `%` not followed by two hex digits, or one standing in a
    /// component whose table forbids escapes.
    IncompleteEscape,
    /// A `:` was reached before any `/` with nothing before it to be a
    /// scheme.
    EmptyScheme,
}

/// A rejected parse: the byte offset of the first grammar violation in
/// the original input, and what was wrong there.
#[derive(Clone, Copy, PartialEq, Eq, Structural, Debug)]
pub struct ParseError {
    pub index: usize,
    pub kind: ParseErrorKind,
}

/// The authority component, split into its subcomponents.
pub struct Authority {
    pub userinfo: Option<EStr<encoder::Userinfo>>,
    pub host: EStr<encoder::RegName>,
    pub port: Option<EStr<encoder::Port>>,
}

impl Authority {
    /// The authority's text: userinfo, host and port with their
    /// delimiters.
    pub open spec fn spec_bytes(&self) -> Seq<u8> {
        (match self.userinfo {
            Some(u) => u@ + seq![('@' as u8)],
            None => Seq::<u8>::empty(),
        }) + self.host@ + (match self.port {
            Some(p) => seq![(':' as u8)] + p@,
            None => Seq::<u8>::empty(),
        })
    }
}

/// A parsed URI reference: the five top-level components, each still
/// percent-encoded and validated for its own grammar. Components that
/// are structurally absent are `None`, distinct from present but empty.
pub struct UriRef {
    pub scheme: Option<EStr<encoder::Scheme>>,
    pub authority: Option<Authority>,
    pub path: EStr<encoder::Path>,
    pub query: Option<EStr<encoder::Query>>,
    pub fragment: Option<EStr<encoder::Fragment>>,
}

/// Every `:` in `p` has a `/` somewhere before it.
pub open spec fn colon_after_slash(p: Seq<u8>) -> bool {
    forall|i: int|
        0 <= i < p.len() && #[trigger] p[i] == (':' as u8) ==> exists|j: int|
            0 <= j < i && p[j] == ('/' as u8)
}

impl UriRef {
    /// The whole reference: the components rejoined with the delimiters
    /// that separated them.
    pub open spec fn spec_bytes(&self) -> Seq<u8> {
        (match self.scheme {
            Some(sc) => sc@ + seq![(':' as u8)],
            None => Seq::<u8>::empty(),
        }) + (match self.authority {
            Some(a) => seq![('/' as u8), ('/' as u8)] + a.spec_bytes(),
            None => Seq::<u8>::empty(),
        }) + self.path@ + (match self.query {
            Some(q) => seq![('?' as u8)] + q@,
            None => Seq::<u8>::empty(),
        }) + (match self.fragment {
            Some(f) => seq![('#' as u8)] + f@,
            None => Seq::<u8>::empty(),
        })
    }

    /// The structural side conditions that make the decomposition the
    /// one the grammar mandates: a scheme is nonempty and starts with a
    /// letter; without scheme and authority no `:` may precede the first
    /// `/` of the path; without authority the path cannot begin with
    /// `//`; with authority the path is empty or begins with `/`.
    pub open spec fn components_wf(&self) -> bool {
        &&& match self.scheme {
            Some(sc) => sc@.len() > 0 && spec_is_alpha(sc@[0]),
            None => true,
        }
        &&& (self.scheme is None && self.authority is None ==> colon_after_slash(self.path@))
        &&& (self.authority is None ==> !(self.path@.len() >= 2 && self.path@[0] == ('/' as u8)
            && self.path@[1] == ('/' as u8)))
        &&& (self.authority is Some ==> self.path@.len() == 0 || self.path@[0] == ('/' as u8))
    }
}

/// The index of the first occurrence of `d` in `w[from..to)`, or `to`
/// when there is none.
pub open spec fn find_from(w: Seq<u8>, d: u8, from: int, to: int) -> int
    recommends
        0 <= from <= to <= w.len(),
{
    from + find_byte(w.subrange(from, to), d)
}

/// Characterizes [`find_from`] over the whole sequence.
pub proof fn lemma_find_from(w: Seq<u8>, d: u8, from: int, to: int)
    requires
        0 <= from <= to <= w.len(),
    ensures
        from <= find_from(w, d, from, to) <= to,
        find_from(w, d, from, to) < to ==> w[find_from(w, d, from, to)] == d,
        forall|j: int| from <= j < find_from(w, d, from, to) ==> w[j] != d,
        find_from(w, d, from, to) == to ==> forall|j: int| from <= j < to ==> w[j] != d,
{
    let s = w.subrange(from, to);
    lemma_find_byte(s, d);
    assert(forall|j: int| 0 <= j < s.len() ==> #[trigger] s[j] == w[j + from]);
    let f = find_from(w, d, from, to);
    assert forall|j: int| from <= j < f implies w[j] != d by {
        assert(s[j - from] == w[j]);
    }
    if f == to {
        assert forall|j: int| from <= j < to implies w[j] != d by {
            if s.contains(d) {
            }
            assert(s[j - from] == w[j]);
        }
    }
}

/// The index of the last occurrence of `d` in `w[from..to)`, or `from - 1`
/// when there is none.
pub open spec fn rfind_from(w: Seq<u8>, d: u8, from: int, to: int) -> int
    recommends
        0 <= from <= to <= w.len(),
    decreases to - from,
{
    if to <= from {
        from - 1
    } else if w[to - 1] == d {
        to - 1
    } else {
        rfind_from(w, d, from, to - 1)
    }
}

/// Characterizes [`rfind_from`]: it points at the last occurrence, and
/// falls below `from` exactly when the byte is absent.
pub proof fn lemma_rfind_from(w: Seq<u8>, d: u8, from: int, to: int)
    requires
        0 <= from <= to <= w.len(),
    ensures
        from - 1 <= rfind_from(w, d, from, to) < to || from == to,
        rfind_from(w, d, from, to) == from - 1 || from <= rfind_from(w, d, from, to) < to,
        rfind_from(w, d, from, to) >= from ==> w[rfind_from(w, d, from, to)] == d,
        forall|j: int| rfind_from(w, d, from, to) < j < to ==> w[j] != d,
    decreases to - from,
{
    if to <= from {
    } else if w[to - 1] == d {
    } else {
        lemma_rfind_from(w, d, from, to - 1);
    }
}

/// The error, if any, that validating `w[from..to)` against `t` reports:
/// the absolute index of the first violation, as an escape error when the
/// offending byte is `%` and a character error otherwise.
pub open spec fn region_err(t: Table, w: Seq<u8>, from: int, to: int) -> Option<
    (int, ParseErrorKind),
> {
    match scan(t, w.subrange(from, to)) {
        None => None,
        Some(i) => Some(
            (
                from + i,
                if w.subrange(from, to)[i] == ('%' as u8) {
                    ParseErrorKind::IncompleteEscape
                } else {
                    ParseErrorKind::InvalidChar
                },
            ),
        ),
    }
}

/// Where the fragment's `#` stands, or the input's length without one.
pub open spec fn frag_start(w: Seq<u8>) -> int {
    find_from(w, '#' as u8, 0, w.len() as int)
}

/// Where the query's `?` stands, or the fragment delimiter without one.
pub open spec fn query_start(w: Seq<u8>) -> int {
    find_from(w, '?' as u8, 0, frag_start(w))
}

/// Whether `w[0..end)` opens with a scheme: a `:` stands before any `/`.
pub open spec fn spec_has_scheme(w: Seq<u8>, end: int) -> bool {
    find_from(w, ':' as u8, 0, end) < find_from(w, '/' as u8, 0, end)
}

/// The error of the scheme ending at `c`: an empty name, a name not
/// opening with a letter (both reported at offset zero), or the first
/// byte outside the scheme table.
pub open spec fn spec_scheme_err(w: Seq<u8>, c: int) -> Option<(int, ParseErrorKind)> {
    if c == 0 {
        Some((0int, ParseErrorKind::EmptyScheme))
    } else if !spec_is_alpha(w[0]) {
        Some((0int, ParseErrorKind::InvalidChar))
    } else {
        region_err(Table::Scheme, w, 0, c)
    }
}

/// The first error inside the authority field `w[auth0..a1)`: userinfo
/// (before the first `@`), then port (after the last `:` past the
/// userinfo), then host, in the order the splitter checks them.
#[verifier::opaque]
pub open spec fn spec_auth_err(w: Seq<u8>, auth0: int, a1: int) -> Option<(int, ParseErrorKind)> {
    let at = find_from(w, '@' as u8, auth0, a1);
    let host0 = if at < a1 {
        at + 1
    } else {
        auth0
    };
    let pc = rfind_from(w, ':' as u8, host0, a1);
    let hend = if pc >= host0 {
        pc
    } else {
        a1
    };
    let ue = if at < a1 {
        region_err(Table::Userinfo, w, auth0, at)
    } else {
        None
    };
    let pe = if pc >= host0 {
        region_err(Table::Port, w, pc + 1, a1)
    } else {
        None
    };
    if ue is Some {
        ue
    } else if pe is Some {
        pe
    } else {
        region_err(Table::RegName, w, host0, hend)
    }
}

/// The first error in the hierarchical part `w[0..end)`: scheme, then
/// authority, then path, in the order the splitter carves them.
#[verifier::opaque]
pub open spec fn spec_hier_err(w: Seq<u8>, end: int) -> Option<(int, ParseErrorKind)> {
    let c = find_from(w, ':' as u8, 0, end);
    let has_scheme = spec_has_scheme(w, end);
    let se = if has_scheme {
        spec_scheme_err(w, c)
    } else {
        None
    };
    if se is Some {
        se
    } else {
        let a0 = if has_scheme {
            c + 1
        } else {
            0
        };
        let has_auth = end - a0 >= 2 && w[a0] == ('/' as u8) && w[a0 + 1] == ('/' as u8);
        let ps = if has_auth {
            find_from(w, '/' as u8, a0 + 2, end)
        } else {
            a0
        };
        let ae = if has_auth {
            spec_auth_err(w, a0 + 2, ps)
        } else {
            None
        };
        if ae is Some {
            ae
        } else {
            region_err(Table::Path, w, ps, end)
        }
    }
}

/// The exact outcome of parsing `w`, on the error side: `None` when every
/// component validates, else the absolute byte offset of the first
/// grammar violation, with its kind. The stages run in the splitter's
/// order: fragment, query, then the hierarchical part.
#[verifier::opaque]
pub open spec fn spec_parse_err(w: Seq<u8>) -> Option<(int, ParseErrorKind)> {
    let n = w.len() as int;
    let fs = frag_start(w);
    let qs = query_start(w);
    let fe = if fs < n {
        region_err(Table::Fragment, w, fs + 1, n)
    } else {
        None
    };
    let qe = if qs < fs {
        region_err(Table::Query, w, qs + 1, fs)
    } else {
        None
    };
    if fe is Some {
        fe
    } else if qe is Some {
        qe
    } else {
        spec_hier_err(w, qs)
    }
}

/// Validates `b[from..to)` against `t` and copies it out, or reports the
/// exact offset of the first violation within the original buffer.
fn validate_region(t: Table, b: &[u8], from: usize, to: usize) -> (r: Result<Vec<u8>, ParseError>)
    requires
        from <= to <= b@.len(),
    ensures
        match r {
            Ok(v) => is_valid(t, b@.subrange(from as int, to as int)) && v@ == b@.subrange(
                from as int,
                to as int,
            ) && region_err(t, b@, from as int, to as int) is None,
            Err(e) => region_err(t, b@, from as int, to as int) == Some(
                (e.index as int, e.kind),
            ) && from <= e.index < to,
        },
{
    let piece = slice_subrange(b, from, to);
    match validate(t, piece) {
        None => Ok(slice_to_vec(piece)),
        Some(i) => {
            proof {
                crate::table::lemma_scan_err_range(t, piece@);
            }
            let kind = if *vstd::slice::slice_index_get(piece, i) == ('%' as u8) {
                ParseErrorKind::IncompleteEscape
            } else {
                ParseErrorKind::InvalidChar
            };
            Err(ParseError { index: from + i, kind })
        },
    }
}

/// Parses the authority field `b[auth0..a1)` into userinfo, host and
/// port: the userinfo ends at the first `@`, the port begins after the
/// last `:` that follows it, and each part is validated against its own
/// table.
#[verifier::spinoff_prover]
#[verifier::rlimit(100)]
fn parse_authority(b: &[u8], auth0: usize, a1: usize) -> (r: Result<Authority, ParseError>)
    requires
        auth0 <= a1 <= b@.len(),
    ensures
        match r {
            Ok(a) => a.spec_bytes() == b@.subrange(auth0 as int, a1 as int) && spec_auth_err(
                b@,
                auth0 as int,
                a1 as int,
            ) is None,
            Err(e) => spec_auth_err(b@, auth0 as int, a1 as int) == Some(
                (e.index as int, e.kind),
            ) && e.index < a1,
        },
{
    let ghost w = b@;
    let at = find_in(b, '@' as u8, auth0, a1);
    let ghost s_at = find_from(w, '@' as u8, auth0 as int, a1 as int);
    proof {
        lemma_find_from(w, '@' as u8, auth0 as int, a1 as int);
        match at {
            Some(a) => {
                assert(s_at == a as int);
            },
            None => {
                assert(s_at == a1 as int);
            },
        }
    }
    let host0: usize = match at {
        Some(a) => a + 1,
        None => auth0,
    };
    let userinfo: Option<EStr<encoder::Userinfo>> = match at {
        Some(a) => {
            match validate_region(Table::Userinfo, b, auth0, a) {
                Ok(uv) => Some(EStr::from_bytes(uv)),
                Err(e) => {
                    proof {
                        assert(spec_auth_err(w, auth0 as int, a1 as int) == Some(
                            (e.index as int, e.kind),
                        )) by {
                            reveal(spec_auth_err);
                        }
                    }
                    return Err(e);
                },
            }
        },
        None => None,
    };
    let pcolon = rfind_in(b, ':' as u8, host0, a1);
    let ghost s_pc = rfind_from(w, ':' as u8, host0 as int, a1 as int);
    proof {
        lemma_rfind_from(w, ':' as u8, host0 as int, a1 as int);
        match pcolon {
            Some(c2) => {
                assert(s_pc == c2 as int);
            },
            None => {
                assert(s_pc == host0 - 1);
            },
        }
    }
    let hend: usize = match pcolon {
        Some(c2) => c2,
        None => a1,
    };
    let port: Option<EStr<encoder::Port>> = match pcolon {
        Some(c2) => {
            match validate_region(Table::Port, b, c2 + 1, a1) {
                Ok(pv) => Some(EStr::from_bytes(pv)),
                Err(e) => {
                    proof {
                        assert(spec_auth_err(w, auth0 as int, a1 as int) == Some(
                            (e.index as int, e.kind),
                        )) by {
                            reveal(spec_auth_err);
                        }
                    }
                    return Err(e);
                },
            }
        },
        None => None,
    };
    let host = match validate_region(Table::RegName, b, host0, hend) {
        Ok(hv) => EStr::from_bytes(hv),
        Err(e) => {
            proof {
                assert(spec_auth_err(w, auth0 as int, a1 as int) == Some(
                    (e.index as int, e.kind),
                )) by {
                    reveal(spec_auth_err);
                }
            }
            return Err(e);
        },
    };
    let auth = Authority { userinfo, host, port };
    proof {
        let up = match auth.userinfo {
            Some(ref u) => u@ + seq![('@' as u8)],
            None => Seq::<u8>::empty(),
        };
        let pp = match auth.port {
            Some(ref p) => seq![(':' as u8)] + p@,
            None => Seq::<u8>::empty(),
        };
        assert(up =~= w.subrange(auth0 as int, host0 as int));
        assert(auth.host@ + pp =~= w.subrange(host0 as int, a1 as int));
        assert(up + auth.host@ + pp =~= w.subrange(auth0 as int, a1 as int));
        assert(auth.spec_bytes() == up + auth.host@ + pp);
        assert(spec_auth_err(w, auth0 as int, a1 as int) is None) by {
            reveal(spec_auth_err);
        }
    }
    Ok(auth)
}

/// Parses the scheme opening `b[0..end)`, if the region has one: a `:`
/// standing before any `/` ends it. Returns the scheme (absent when the
/// region opens no scheme) and the offset where the rest begins.
#[verifier::spinoff_prover]
#[verifier::rlimit(100)]
fn parse_scheme(b: &[u8], end: usize) -> (r: Result<
    (Option<EStr<encoder::Scheme>>, usize),
    ParseError,
>)
    requires
        end <= b@.len(),
    ensures
        match r {
            Ok(p) => {
                let c = find_from(b@, ':' as u8, 0, end as int);
                &&& p.1 <= end
                &&& spec_has_scheme(b@, end as int) ==> (p.0 matches Some(sch) && sch@
                    == b@.subrange(0, c) && spec_scheme_err(b@, c) is None && p.1 == c + 1 && 0
                    < c < end)
                &&& !spec_has_scheme(b@, end as int) ==> p.0 is None && p.1 == 0
            },
            Err(e) => spec_has_scheme(b@, end as int) && spec_scheme_err(
                b@,
                find_from(b@, ':' as u8, 0, end as int),
            ) == Some((e.index as int, e.kind)) && e.index <= end,
        },
{
    let ghost w = b@;
    let colon = find_in(b, ':' as u8, 0, end);
    let slash = find_in(b, '/' as u8, 0, end);
    let ghost s_c = find_from(w, ':' as u8, 0, end as int);
    let ghost s_sl = find_from(w, '/' as u8, 0, end as int);
    proof {
        lemma_find_from(w, ':' as u8, 0, end as int);
        lemma_find_from(w, '/' as u8, 0, end as int);
        match colon {
            Some(c0) => {
                assert(s_c == c0 as int);
            },
            None => {
                assert(s_c == end as int);
            },
        }
        match slash {
            Some(s0) => {
                assert(s_sl == s0 as int);
            },
            None => {
                assert(s_sl == end as int);
            },
        }
    }
    let has_scheme = match (colon, slash) {
        (Some(c), Some(sl)) => c < sl,
        (Some(_), None) => true,
        _ => false,
    };
    proof {
        assert(has_scheme == spec_has_scheme(w, end as int));
    }
    if !has_scheme {
        return Ok((None, 0));
    }
    let c = match colon {
        Some(c) => c,
        None => 0,
    };
    if c == 0 {
        return Err(ParseError { index: 0, kind: ParseErrorKind::EmptyScheme });
    }
    let first = *vstd::slice::slice_index_get(b, 0);
    if !(('a' as u8) <= first && first <= ('z' as u8) || ('A' as u8) <= first && first
        <= ('Z' as u8)) {
        return Err(ParseError { index: 0, kind: ParseErrorKind::InvalidChar });
    }
    match validate_region(Table::Scheme, b, 0, c) {
        Ok(sv) => Ok((Some(EStr::from_bytes(sv)), c + 1)),
        Err(e) => Err(e),
    }
}

/// Parses the hierarchical part `b[0..end)`: optional scheme, optional
/// authority, and path. Query and fragment are left absent.
#[verifier::spinoff_prover]
#[verifier::rlimit(100)]
fn parse_hier(b: &[u8], end: usize) -> (r: Result<UriRef, ParseError>)
    requires
        end <= b@.len(),
    ensures
        match r {
            Ok(u) => u.query is None && u.fragment is None && u.spec_bytes() == b@.subrange(
                0,
                end as int,
            ) && u.components_wf() && spec_hier_err(b@, end as int) is None,
            Err(e) => spec_hier_err(b@, end as int) == Some((e.index as int, e.kind)) && e.index
                <= end,
        },
{
    let ghost w = b@;
    // Scheme: a ':' before any '/' ends it; the name must be nonempty,
    // start with a letter, and hold only scheme characters.
    let ghost s_c = find_from(w, ':' as u8, 0, end as int);
    let (scheme, as_start) = match parse_scheme(b, end) {
        Ok(p) => p,
        Err(e) => {
            proof {
                assert(spec_hier_err(w, end as int) == Some((e.index as int, e.kind))) by {
                    reveal(spec_hier_err);
                }
            }
            return Err(e);
        },
    };
    proof {
        assert(spec_has_scheme(w, end as int) ==> spec_scheme_err(w, s_c) is None);
        assert(scheme is Some <==> spec_has_scheme(w, end as int));
        assert(as_start as int == if spec_has_scheme(w, end as int) {
            s_c + 1
        } else {
            0int
        });
    }

    // Authority: introduced by "//", running to the next '/' or the end
    // of the hierarchical part.
    let mut authority: Option<Authority> = None;
    let mut path_start: usize = as_start;
    if end - as_start >= 2 && *vstd::slice::slice_index_get(b, as_start) == ('/' as u8)
        && *vstd::slice::slice_index_get(b, as_start + 1) == ('/' as u8) {
        let auth0 = as_start + 2;
        path_start = match find_in(b, '/' as u8, auth0, end) {
            Some(i) => i,
            None => end,
        };
        proof {
            lemma_find_from(w, '/' as u8, auth0 as int, end as int);
            assert(path_start as int == find_from(w, '/' as u8, auth0 as int, end as int));
        }
        match parse_authority(b, auth0, path_start) {
            Ok(a) => {
                authority = Some(a);
            },
            Err(e) => {
                proof {
                    assert(spec_hier_err(w, end as int) == Some((e.index as int, e.kind))) by {
                        reveal(spec_hier_err);
                    }
                }
                return Err(e);
            },
        }
    }

    // Path: the rest of the hierarchical part.
    let path = match validate_region(Table::Path, b, path_start, end) {
        Ok(pv) => EStr::from_bytes(pv),
        Err(e) => {
            proof {
                assert(spec_hier_err(w, end as int) == Some((e.index as int, e.kind))) by {
                    reveal(spec_hier_err);
                }
            }
            return Err(e);
        },
    };
    proof {
        assert(spec_hier_err(w, end as int) is None) by {
            reveal(spec_hier_err);
        }
    }

    let u = UriRef { scheme, authority, path, query: None, fragment: None };
    proof {
        let sp = match u.scheme {
            Some(ref sc) => sc@ + seq![(':' as u8)],
            None => Seq::<u8>::empty(),
        };
        let ap = match u.authority {
            Some(ref a) => seq![('/' as u8), ('/' as u8)] + a.spec_bytes(),
            None => Seq::<u8>::empty(),
        };
        if u.scheme is Some {
            lemma_find_from(w, ':' as u8, 0, end as int);
            lemma_find_from(w, '/' as u8, 0, end as int);
            assert(spec_has_scheme(w, end as int));
            assert(s_c < end as int && w[s_c] == (':' as u8));
        }
        assert(sp =~= w.subrange(0, as_start as int));
        assert(ap =~= w.subrange(as_start as int, path_start as int));
        assert(sp + ap =~= w.subrange(0, path_start as int));
        assert(sp + ap + u.path@ =~= w.subrange(0, end as int));
        assert(u.spec_bytes() == sp + ap + u.path@ + Seq::<u8>::empty() + Seq::<u8>::empty());
        assert(u.spec_bytes() =~= sp + ap + u.path@);
        if u.scheme is None && u.authority is None {
            assert(u.path@ == w.subrange(0, end as int));
            let s_sl = find_from(w, '/' as u8, 0, end as int);
            lemma_find_from(w, ':' as u8, 0, end as int);
            lemma_find_from(w, '/' as u8, 0, end as int);
            assert(!spec_has_scheme(w, end as int));
            assert(s_sl <= s_c);
            assert forall|i: int|
                0 <= i < u.path@.len() && #[trigger] u.path@[i] == (':' as u8) implies exists|j: int|
                0 <= j < i && u.path@[j] == ('/' as u8) by {
                assert(w[i] == (':' as u8));
                assert(i >= s_c);
                assert(s_sl < end as int && w[s_sl] == ('/' as u8));
                assert(s_sl < i);
                assert(u.path@[s_sl] == ('/' as u8));
            }
        }
    }
    Ok(u)
}

/// Parses a URI reference.
///
/// On success the five components rejoined with their delimiters equal
/// the input, each is valid for its own table, the structural side
/// conditions of [`UriRef::components_wf`] hold, and no stage of
/// [`spec_parse_err`] reports a violation. On failure the reported
/// offset and kind are exactly those of the first grammar violation,
/// as [`spec_parse_err`] gives them.
#[verifier::spinoff_prover]
#[verifier::rlimit(100)]
pub fn parse(s: &str) -> (r: Result<UriRef, ParseError>)
    ensures
        match r {
            Ok(u) => u.spec_bytes() == s.spec_bytes() && u.components_wf() && spec_parse_err(
                s.spec_bytes(),
            ) is None,
            Err(e) => spec_parse_err(s.spec_bytes()) == Some((e.index as int, e.kind))
                && e.index <= s.spec_bytes().len(),
        },
{
    let v = s.as_bytes_vec();
    let n = v.len();
    let b = v.as_slice();
    let ghost w = s.spec_bytes();
    assert(b@ == w);

    // Fragment: everything after the first '#'.
    let hash = find_in(b, '#' as u8, 0, n);
    let fs: usize = match hash {
        Some(i) => i,
        None => n,
    };
    proof {
        lemma_find_from(w, '#' as u8, 0, n as int);
        match hash {
            Some(i) => {
                assert(frag_start(w) == i as int);
            },
            None => {
                assert(frag_start(w) == n as int);
            },
        }
    }
    let fragment: Option<EStr<encoder::Fragment>> = match hash {
        Some(i) => {
            match validate_region(Table::Fragment, b, i + 1, n) {
                Ok(fv) => Some(EStr::from_bytes(fv)),
                Err(e) => {
                    proof {
                        assert(spec_parse_err(w) == Some((e.index as int, e.kind))) by {
                            reveal(spec_parse_err);
                        }
                    }
                    return Err(e);
                },
            }
        },
        None => None,
    };
    let ghost fe = if frag_start(w) < n as int {
        region_err(Table::Fragment, w, frag_start(w) + 1, n as int)
    } else {
        None::<(int, ParseErrorKind)>
    };
    proof {
        assert(fe is None);
    }

    // Query: everything between the first '?' and the fragment.
    let quest = find_in(b, '?' as u8, 0, fs);
    let qs: usize = match quest {
        Some(i) => i,
        None => fs,
    };
    proof {
        lemma_find_from(w, '?' as u8, 0, fs as int);
        match quest {
            Some(i) => {
                assert(query_start(w) == i as int);
            },
            None => {
                assert(query_start(w) == fs as int);
            },
        }
    }
    let query: Option<EStr<encoder::Query>> = match quest {
        Some(i) => {
            match validate_region(Table::Query, b, i + 1, fs) {
                Ok(qv) => Some(EStr::from_bytes(qv)),
                Err(e) => {
                    proof {
                        assert(spec_parse_err(w) == Some((e.index as int, e.kind))) by {
                            reveal(spec_parse_err);
                        }
                    }
                    return Err(e);
                },
            }
        },
        None => None,
    };
    let ghost qe = if query_start(w) < fs as int {
        region_err(Table::Query, w, query_start(w) + 1, fs as int)
    } else {
        None::<(int, ParseErrorKind)>
    };
    proof {
        assert(qe is None);
    }

    // Scheme, authority and path fill the region before the query.
    let mut u = match parse_hier(b, qs) {
        Ok(u) => u,
        Err(e) => {
            proof {
                assert(spec_parse_err(w) == Some((e.index as int, e.kind))) by {
                    reveal(spec_parse_err);
                }
            }
            return Err(e);
        },
    };
    let ghost hier = u.spec_bytes();
    u.query = query;
    u.fragment = fragment;
    proof {
        let qp = match u.query {
            Some(ref q) => seq![('?' as u8)] + q@,
            None => Seq::<u8>::empty(),
        };
        let fp = match u.fragment {
            Some(ref f) => seq![('#' as u8)] + f@,
            None => Seq::<u8>::empty(),
        };
        assert(qp =~= w.subrange(qs as int, fs as int));
        assert(fp =~= w.subrange(fs as int, n as int));
        assert(u.spec_bytes() =~= hier + qp + fp);
        assert(hier + qp + fp =~= w);
        assert(spec_parse_err(w) is None) by {
            reveal(spec_parse_err);
        }
    }
    Ok(u)
}

} // verus!
