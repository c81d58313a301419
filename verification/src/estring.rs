//! An owned, growable buffer of validated percent-encoded text.
//!
//! An [`EString`] satisfies the same invariant as an
//! [`EStr`](crate::estr::EStr) of the same component: it grows by
//! appending already-validated fragments or by percent-encoding arbitrary
//! bytes on append, and both operations keep the buffer valid.

use vstd::prelude::*;
use vstd::slice::slice_to_vec;
use core::marker::PhantomData;
use crate::encoder::Encoder;
use crate::estr::EStr;
use crate::pct::{encode_seq, encode_into, lemma_encode_valid};
use crate::table::{is_valid, lemma_valid_concat};

verus! {

/// An owned percent-encoded string, validated for component `E`.
pub struct EString<E: Encoder> {
    buf: Vec<u8>,
    marker: PhantomData<E>,
}

impl<E: Encoder> View for EString<E> {
    type V = Seq<u8>;

    closed spec fn view(&self) -> Seq<u8> {
        self.buf@
    }
}

impl<E: Encoder> EString<E> {
    /// Every live buffer is valid under its component's table.
    #[verifier::type_invariant]
    pub open spec fn wf(self) -> bool {
        is_valid(E::table(), self@)
    }

    /// Makes an empty buffer.
    pub fn new() -> (r: Self)
        ensures
            r@ == Seq::<u8>::empty(),
    {
        EString { buf: Vec::new(), marker: PhantomData }
    }

    /// The number of bytes in the buffer.
    pub fn len(&self) -> (r: usize)
        ensures
            r == self@.len(),
    {
        self.buf.len()
    }

    /// Appends an already-validated fragment of the same component.
    pub fn push_estr(&mut self, s: &EStr<E>)
        ensures
            final(self)@ == old(self)@ + s@,
    {
        proof {
            use_type_invariant(&*self);
            use_type_invariant(s);
            lemma_valid_concat(E::table(), self@, s@);
        }
        let sb = s.as_bytes();
        let m = sb.len();
        let mut nb = slice_to_vec(self.buf.as_slice());
        let mut i: usize = 0;
        while i < m
            invariant
                m == sb@.len(),
                i <= m,
                nb@ == old(self)@ + sb@.take(i as int),
            decreases m - i,
        {
            nb.push(*vstd::slice::slice_index_get(sb, i));
            proof {
                assert(old(self)@ + sb@.take(i + 1) =~= (old(self)@ + sb@.take(i as int)).push(
                    sb@[i as int],
                ));
            }
            i = i + 1;
        }
        proof {
            assert(sb@.take(m as int) =~= sb@);
        }
        *self = EString { buf: nb, marker: PhantomData };
    }

    /// Percent-encodes arbitrary bytes for this component and appends the
    /// encoding. Only components whose table permits escapes offer this.
    pub fn encode_bytes(&mut self, bytes: &[u8])
        requires
            E::table().spec_allows_enc(),
        ensures
            final(self)@ == old(self)@ + encode_seq(E::table(), bytes@),
    {
        proof {
            use_type_invariant(&*self);
            lemma_encode_valid(E::table(), bytes@);
            lemma_valid_concat(E::table(), self@, encode_seq(E::table(), bytes@));
        }
        let mut nb = slice_to_vec(self.buf.as_slice());
        encode_into(E::table_exec(), bytes, &mut nb);
        *self = EString { buf: nb, marker: PhantomData };
    }

    /// Yields the buffer's contents as a validated slice.
    pub fn as_estr(&self) -> (r: EStr<E>)
        ensures
            r@ == self@,
    {
        proof {
            use_type_invariant(self);
        }
        EStr::from_bytes(slice_to_vec(self.buf.as_slice()))
    }
}

impl<E: Encoder> EStr<E> {
    /// Copies the slice into an owned buffer of the same component.
    pub fn to_estring(&self) -> (r: EString<E>)
        ensures
            r@ == self@,
    {
        proof {
            use_type_invariant(self);
        }
        EString { buf: slice_to_vec(self.as_bytes()), marker: PhantomData }
    }
}

} // verus!
