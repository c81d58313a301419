//! Validated percent-encoded slices and their decoding.
//!
//! An [`EStr`] owns a byte buffer that is known valid under the character
//! table of its component tag `E`; the invariant is established on
//! construction and carried by a type invariant. [`Decode`] is the result
//! of percent-decoding such a slice: either the slice's own bytes (no
//! escape was present) or a freshly decoded buffer.

use vstd::prelude::*;
use vstd::utf8::{valid_utf8, decode_utf8, is_leading_byte_width_1};
use vstd::slice::slice_to_vec;
use vstd::string::{StrSliceExecFns, StringSliceAdditionalSpecFns};
use core::marker::PhantomData;
use crate::encoder::Encoder;
use crate::table::{Table, is_valid, validate, spec_is_reserved};
use crate::pct::{decode_seq, decode_bytes, lemma_valid_escapes_wf};
use crate::split::{Split, split_seq, find_byte, lemma_find_byte, lemma_valid_split_at};

verus! {

/// What `String::from_utf8_lossy` returns for a byte sequence: its UTF-8
/// decoding with every invalid sequence replaced. The result depends on
/// the bytes alone.
pub uninterp spec fn lossy_decoded(bytes: Seq<u8>) -> Seq<char>;

/// Relies on `String::from_utf8`: it succeeds exactly on valid UTF-8 and
/// returns the string whose bytes are the input; on failure,
/// `FromUtf8Error::into_bytes` hands the input back unchanged.
#[verifier::external_body]
fn string_from_utf8(v: Vec<u8>) -> (r: Result<String, Vec<u8>>)
    ensures
        match r {
            Ok(s) => valid_utf8(v@) && s@ == decode_utf8(v@),
            Err(w) => !valid_utf8(v@) && w@ == v@,
        },
{
    String::from_utf8(v).map_err(|e| e.into_bytes())
}

/// Relies on `String::from_utf8_lossy`: the result is a function of the
/// bytes alone, and valid UTF-8 comes back unchanged.
#[verifier::external_body]
fn string_from_utf8_lossy(v: Vec<u8>) -> (r: String)
    ensures
        r@ == lossy_decoded(v@),
        valid_utf8(v@) ==> r@ == decode_utf8(v@),
{
    String::from_utf8_lossy(&v).into_owned()
}

/// A sequence of ASCII bytes is valid UTF-8 and decodes to the characters
/// with the same codes.
pub proof fn lemma_ascii_utf8(v: Seq<u8>)
    requires
        forall|i: int| 0 <= i < v.len() ==> v[i] < 0x80,
    ensures
        valid_utf8(v),
        decode_utf8(v).len() == v.len(),
        forall|i: int| 0 <= i < v.len() ==> decode_utf8(v)[i] == v[i] as char,
    decreases v.len(),
{
    if v.len() > 0 {
        let b = v[0];
        assert((b & 0x7f) == b) by (bit_vector)
            requires
                b < 0x80,
        ;
        assert(is_leading_byte_width_1(b));
        assert(vstd::utf8::pop_first_scalar(v) =~= v.skip(1));
        lemma_ascii_utf8(v.skip(1));
        assert(decode_utf8(v) == seq![(b as u32) as char] + decode_utf8(v.skip(1)));
        assert forall|i: int| 0 <= i < v.len() implies decode_utf8(v)[i] == v[i] as char by {
            if i > 0 {
                assert(decode_utf8(v)[i] == decode_utf8(v.skip(1))[i - 1]);
                assert(v.skip(1)[i - 1] == v[i]);
            }
        }
    }
}

/// Percent-encoded string slices, validated for component `E`.
///
/// Every byte of the buffer is either allowed unencoded by `E`'s table or
/// part of a well-formed `%XX` triplet of a table that permits escapes.
pub struct EStr<E: Encoder> {
    inner: Vec<u8>,
    marker: PhantomData<E>,
}

impl<E: Encoder> View for EStr<E> {
    type V = Seq<u8>;

    closed spec fn view(&self) -> Seq<u8> {
        self.inner@
    }
}

impl<E: Encoder> EStr<E> {
    /// Every live slice is valid under its component's table.
    #[verifier::type_invariant]
    pub open spec fn wf(self) -> bool {
        is_valid(E::table(), self@)
    }

    /// Wraps a string slice already known valid for `E`.
    pub fn new(s: &str) -> (r: Self)
        requires
            is_valid(E::table(), s.spec_bytes()),
        ensures
            r@ == s.spec_bytes(),
    {
        EStr { inner: s.as_bytes_vec(), marker: PhantomData }
    }

    /// Wraps a byte buffer already known valid for `E`.
    pub fn from_bytes(v: Vec<u8>) -> (r: Self)
        requires
            is_valid(E::table(), v@),
        ensures
            r@ == v@,
    {
        EStr { inner: v, marker: PhantomData }
    }

    /// Validates a string slice for `E` and wraps it, or reports that it
    /// is not properly encoded.
    pub fn try_new(s: &str) -> (r: Option<Self>)
        ensures
            match r {
                Some(e) => is_valid(E::table(), s.spec_bytes()) && e@ == s.spec_bytes(),
                None => !is_valid(E::table(), s.spec_bytes()),
            },
    {
        let v = s.as_bytes_vec();
        match validate(E::table_exec(), v.as_slice()) {
            None => Some(EStr { inner: v, marker: PhantomData }),
            Some(_) => None,
        }
    }

    /// Yields the underlying text.
    pub fn as_str(&self) -> (r: String)
        ensures
            r@.len() == self@.len(),
            forall|i: int| 0 <= i < self@.len() ==> r@[i] == self@[i] as char,
    {
        proof {
            use_type_invariant(self);
            crate::table::lemma_valid_ascii(E::table(), self@);
            lemma_ascii_utf8(self@);
        }
        match string_from_utf8(slice_to_vec(self.inner.as_slice())) {
            Ok(s) => s,
            Err(_) => {
                proof {
                    assert(false);
                }
                String::new()
            },
        }
    }

    /// Runs the component's validation over the slice once more.
    ///
    /// This can never fail: every live slice is valid under its
    /// component's table, so the result is always `true`.
    pub fn revalidate(&self) -> (r: bool)
        ensures
            r,
            is_valid(E::table(), self@),
    {
        proof {
            use_type_invariant(self);
        }
        validate(E::table_exec(), self.inner.as_slice()).is_none()
    }

    /// Yields the underlying bytes.
    pub fn as_bytes(&self) -> (r: &[u8])
        ensures
            r@ == self@,
    {
        self.inner.as_slice()
    }

    /// The number of bytes in the slice.
    pub fn len(&self) -> (r: usize)
        ensures
            r == self@.len(),
    {
        self.inner.len()
    }

    /// Percent-decodes the slice. Only components whose table permits
    /// escapes offer this; the result borrows nothing beyond its own
    /// buffer, and a fresh buffer is made only when an escape is present.
    pub fn decode(&self) -> (r: Decode)
        requires
            E::table().spec_allows_enc(),
        ensures
            r.spec_bytes() == decode_seq(self@),
            r.spec_bytes().len() <= self@.len(),
            r is Borrowed <==> !self@.contains('%' as u8),
            r is Borrowed ==> r.spec_bytes() == self@,
    {
        proof {
            use_type_invariant(self);
            lemma_valid_escapes_wf(E::table(), self@);
            crate::pct::lemma_decode_len(self@);
        }
        match decode_bytes(self.inner.as_slice()) {
            Some(v) => Decode::Owned(v),
            None => Decode::Borrowed(slice_to_vec(self.inner.as_slice())),
        }
    }

    /// Splits the slice on every occurrence of `delim`, which must be an
    /// ASCII reserved character.
    pub fn split(&self, delim: char) -> (r: Split<E>)
        requires
            (delim as u32) < 0x80,
            spec_is_reserved((delim as u32) as u8),
        ensures
            r.items() == split_seq(self@, (delim as u32) as u8),
    {
        proof {
            use_type_invariant(self);
        }
        let d: u8 = (delim as u32) as u8;
        Split::of_parts(slice_to_vec(self.inner.as_slice()), d, E::table_exec())
    }

    /// Splits on the first occurrence of `delim`, which must be an ASCII
    /// reserved character, into the part before and the part after it.
    /// Returns `None` when the slice holds no `delim`.
    pub fn split_once(&self, delim: char) -> (r: Option<(Self, Self)>)
        requires
            (delim as u32) < 0x80,
            spec_is_reserved((delim as u32) as u8),
        ensures
            match r {
                Some((a, b)) => {
                    let i = find_byte(self@, (delim as u32) as u8);
                    &&& 0 <= i < self@.len()
                    &&& self@[i] == (delim as u32) as u8
                    &&& a@ == self@.take(i)
                    &&& b@ == self@.skip(i + 1)
                    &&& forall|j: int| 0 <= j < i ==> self@[j] != (delim as u32) as u8
                },
                None => !self@.contains((delim as u32) as u8),
            },
    {
        proof {
            use_type_invariant(self);
            lemma_find_byte(self@, (delim as u32) as u8);
        }
        let d: u8 = (delim as u32) as u8;
        let b = self.inner.as_slice();
        let n = b.len();
        match crate::split::find_in(b, d, 0, n) {
            Some(i) => {
                proof {
                    lemma_valid_split_at(E::table(), self@, i as int);
                    assert(find_byte(self@, d) == i as int);
                }
                let head = EStr { inner: slice_to_vec(vstd::slice::slice_subrange(b, 0, i)), marker: PhantomData };
                let tail = EStr {
                    inner: slice_to_vec(vstd::slice::slice_subrange(b, i + 1, n)),
                    marker: PhantomData,
                };
                proof {
                    assert(self@.subrange(0, i as int) =~= self@.take(i as int));
                    assert(self@.subrange(i + 1, n as int) =~= self@.skip(i + 1));
                }
                Some((head, tail))
            },
            None => None,
        }
    }
}

impl<E: Encoder> Clone for EStr<E> {
    fn clone(&self) -> (r: Self)
        ensures
            r@ == self@,
    {
        proof {
            use_type_invariant(self);
        }
        EStr { inner: slice_to_vec(self.inner.as_slice()), marker: PhantomData }
    }
}

impl<E: Encoder> Default for EStr<E> {
    /// The empty slice, valid for every component.
    fn default() -> (r: Self)
        ensures
            r@ == Seq::<u8>::empty(),
    {
        EStr { inner: Vec::new(), marker: PhantomData }
    }
}

impl<E: Encoder> PartialEq for EStr<E> {
    /// Raw byte comparison: no normalization of escapes is performed.
    fn eq(&self, other: &Self) -> (r: bool) {
        let a = self.inner.as_slice();
        let b = other.inner.as_slice();
        let n = a.len();
        if n != b.len() {
            assert(self@ != other@) by {
                assert(self@.len() != other@.len());
            }
            return false;
        }
        let mut i: usize = 0;
        while i < n
            invariant
                n == self@.len() && n == other@.len(),
                a@ == self@ && b@ == other@,
                i <= n,
                forall|j: int| 0 <= j < i ==> self@[j] == other@[j],
            decreases n - i,
        {
            if *vstd::slice::slice_index_get(a, i) != *vstd::slice::slice_index_get(b, i) {
                assert(self@[i as int] != other@[i as int]);
                return false;
            }
            i = i + 1;
        }
        proof {
            assert(self@ =~= other@);
        }
        true
    }
}

impl<E: Encoder> vstd::std_specs::cmp::PartialEqSpecImpl for EStr<E> {
    open spec fn obeys_eq_spec() -> bool {
        true
    }

    open spec fn eq_spec(&self, other: &Self) -> bool {
        self@ == other@
    }
}

impl<E: Encoder> Eq for EStr<E> {}

impl EStr<crate::encoder::Path> {
    /// Returns `true` when the path is absolute, that is, begins with `/`.
    pub fn is_absolute(&self) -> (r: bool)
        ensures
            r == (self@.len() > 0 && self@[0] == ('/' as u8)),
    {
        self.inner.len() > 0 && self.inner[0] == ('/' as u8)
    }

    /// Returns `true` when the path is rootless, that is, does not begin
    /// with `/`.
    pub fn is_rootless(&self) -> (r: bool)
        ensures
            r == !(self@.len() > 0 && self@[0] == ('/' as u8)),
    {
        !self.is_absolute()
    }

    /// Walks the path segments: an empty path has none, and the empty
    /// piece implied by a leading `/` is dropped.
    pub fn segments(&self) -> (r: Split<crate::encoder::PathSegment>)
        ensures
            r.items() == crate::split::segments_seq(self@),
    {
        proof {
            use_type_invariant(self);
        }
        let n = self.inner.len();
        if n == 0 {
            Split::done('/' as u8, Table::Path)
        } else if self.inner[0] == ('/' as u8) {
            proof {
                lemma_valid_split_at(Table::Path, self@, 0);
                assert(self@.subrange(1, n as int) =~= self@.skip(1));
            }
            let rest = slice_to_vec(vstd::slice::slice_subrange(self.inner.as_slice(), 1, n));
            Split::of_parts(rest, '/' as u8, Table::Path)
        } else {
            Split::of_parts(slice_to_vec(self.inner.as_slice()), '/' as u8, Table::Path)
        }
    }
}

/// A wrapper of percent-decoded bytes, made by [`EStr::decode`].
#[derive(Debug)]
pub enum Decode {
    /// No escape was present: these are the slice's own bytes.
    Borrowed(Vec<u8>),
    /// At least one escape was decoded into this fresh buffer.
    Owned(Vec<u8>),
}

impl Decode {
    /// The decoded bytes, whichever variant holds them.
    pub open spec fn spec_bytes(&self) -> Seq<u8> {
        match self {
            Decode::Borrowed(v) => v@,
            Decode::Owned(v) => v@,
        }
    }

    /// Returns a reference to the decoded bytes.
    pub fn as_bytes(&self) -> (r: &[u8])
        ensures
            r@ == self.spec_bytes(),
    {
        match self {
            Decode::Borrowed(v) => v.as_slice(),
            Decode::Owned(v) => v.as_slice(),
        }
    }

    /// Consumes this value and yields the decoded bytes.
    pub fn into_bytes(self) -> (r: Vec<u8>)
        ensures
            r@ == self.spec_bytes(),
    {
        match self {
            Decode::Borrowed(v) => v,
            Decode::Owned(v) => v,
        }
    }

    /// Converts the decoded bytes to a string; the error carries the raw
    /// bytes when they are not valid UTF-8.
    pub fn into_string(self) -> (r: Result<String, Vec<u8>>)
        ensures
            match r {
                Ok(s) => valid_utf8(self.spec_bytes()) && s@ == decode_utf8(self.spec_bytes()),
                Err(w) => !valid_utf8(self.spec_bytes()) && w@ == self.spec_bytes(),
            },
    {
        string_from_utf8(self.into_bytes())
    }

    /// Converts the decoded bytes to a string, substituting replacement
    /// characters for invalid sequences.
    pub fn into_string_lossy(self) -> (r: String)
        ensures
            r@ == lossy_decoded(self.spec_bytes()),
            valid_utf8(self.spec_bytes()) ==> r@ == decode_utf8(self.spec_bytes()),
    {
        string_from_utf8_lossy(self.into_bytes())
    }
}


} // verus!
