//! The percent-decoder and percent-encoder, with their functional models.
//!
//! [`decode_seq`] is the mathematical meaning of percent-decoding a
//! validated byte sequence; [`encode_seq`] is the meaning of
//! percent-encoding arbitrary bytes for a component table. The exec
//! decoder allocates only when at least one escape is present, and the
//! round-trip laws relating the two directions are proved here.

use vstd::prelude::*;
use crate::table::{
    Table, is_valid, scan, shift_err, spec_is_hexdig, is_hexdig,
};

verus! {

/// The value of one hex digit, upper or lower case.
pub open spec fn hex_val(b: u8) -> u8
    recommends
        spec_is_hexdig(b),
{
    if ('0' as u8) <= b && b <= ('9' as u8) {
        (b - ('0' as u8)) as u8
    } else if ('A' as u8) <= b && b <= ('F' as u8) {
        (b - ('A' as u8) + 10) as u8
    } else {
        (b - ('a' as u8) + 10) as u8
    }
}

/// The upper-case hex digit for a value below 16.
pub open spec fn hex_digit(v: u8) -> u8
    recommends
        v < 16,
{
    if v < 10 {
        (('0' as u8) + v) as u8
    } else {
        (('A' as u8) + (v - 10)) as u8
    }
}

pub fn hex_val_exec(b: u8) -> (v: u8)
    requires
        spec_is_hexdig(b),
    ensures
        v == hex_val(b),
        v < 16,
{
    if ('0' as u8) <= b && b <= ('9' as u8) {
        b - ('0' as u8)
    } else if ('A' as u8) <= b && b <= ('F' as u8) {
        b - ('A' as u8) + 10
    } else {
        b - ('a' as u8) + 10
    }
}

pub fn hex_digit_exec(v: u8) -> (b: u8)
    requires
        v < 16,
    ensures
        b == hex_digit(v),
{
    if v < 10 {
        ('0' as u8) + v
    } else {
        ('A' as u8) + (v - 10)
    }
}

/// Every `%` in `s` is followed, within bounds, by two hex digits.
///
/// This holds of every sequence that is valid under a table permitting
/// escapes, and is all the decoder needs in order not to run off the end.
pub open spec fn escapes_wf(s: Seq<u8>) -> bool {
    forall|i: int|
        0 <= i < s.len() && #[trigger] s[i] == ('%' as u8) ==> i + 2 < s.len() && spec_is_hexdig(
            s[i + 1],
        ) && spec_is_hexdig(s[i + 2])
}

/// The percent-decoding of `s`: each `%XX` triplet becomes one byte, every
/// other byte is copied unchanged.
pub open spec fn decode_seq(s: Seq<u8>) -> Seq<u8>
    decreases s.len(),
{
    if s.len() == 0 {
        Seq::empty()
    } else if s[0] == ('%' as u8) && s.len() >= 3 {
        seq![(hex_val(s[1]) * 16 + hex_val(s[2])) as u8] + decode_seq(s.skip(3))
    } else {
        seq![s[0]] + decode_seq(s.skip(1))
    }
}

/// The percent-encoding of one byte for table `t`: the byte itself when the
/// table allows it unencoded, else a `%XX` triplet with upper-case digits.
pub open spec fn encode_byte(t: Table, b: u8) -> Seq<u8> {
    if t.spec_allows(b) {
        seq![b]
    } else {
        seq![('%' as u8), hex_digit(b / 16), hex_digit(b % 16)]
    }
}

/// The percent-encoding of a whole byte sequence for table `t`.
pub open spec fn encode_seq(t: Table, bs: Seq<u8>) -> Seq<u8>
    decreases bs.len(),
{
    if bs.len() == 0 {
        Seq::empty()
    } else {
        encode_byte(t, bs[0]) + encode_seq(t, bs.skip(1))
    }
}

/// No component table allows `%` as a plain byte: escapes stay unambiguous.
pub proof fn lemma_no_table_allows_pct(t: Table)
    ensures
        !t.spec_allows(('%' as u8)),
{
}

/// A sequence valid under a table has well-formed escapes throughout.
pub proof fn lemma_valid_escapes_wf(t: Table, s: Seq<u8>)
    requires
        is_valid(t, s),
    ensures
        escapes_wf(s),
    decreases s.len(),
{
    if s.len() == 0 {
    } else if s[0] == ('%' as u8) {
        lemma_valid_escapes_wf(t, s.skip(3));
        assert forall|i: int|
            0 <= i < s.len() && #[trigger] s[i] == ('%' as u8) implies i + 2 < s.len() && spec_is_hexdig(
            s[i + 1],
        ) && spec_is_hexdig(s[i + 2]) by {
            if i >= 3 {
                assert(s.skip(3)[i - 3] == s[i]);
                assert(s.skip(3)[i - 2] == s[i + 1]);
                assert(s.skip(3)[i - 1] == s[i + 2]);
            }
        }
    } else {
        lemma_valid_escapes_wf(t, s.skip(1));
        assert forall|i: int|
            0 <= i < s.len() && #[trigger] s[i] == ('%' as u8) implies i + 2 < s.len() && spec_is_hexdig(
            s[i + 1],
        ) && spec_is_hexdig(s[i + 2]) by {
            if i >= 1 {
                assert(s.skip(1)[i - 1] == s[i]);
                assert(s.skip(1)[i] == s[i + 1]);
                assert(s.skip(1)[i + 1] == s[i + 2]);
            }
        }
    }
}

/// Decoding an escape-free sequence gives back exactly that sequence.
pub proof fn lemma_decode_no_escape(s: Seq<u8>)
    requires
        forall|i: int| 0 <= i < s.len() ==> #[trigger] s[i] != ('%' as u8),
    ensures
        decode_seq(s) == s,
    decreases s.len(),
{
    if s.len() == 0 {
        assert(decode_seq(s) =~= s);
    } else {
        lemma_decode_no_escape(s.skip(1));
        assert(decode_seq(s) =~= s);
    }
}

/// Decoding never lengthens: the output is at most as long as the input.
pub proof fn lemma_decode_len(s: Seq<u8>)
    ensures
        decode_seq(s).len() <= s.len(),
    decreases s.len(),
{
    if s.len() == 0 {
    } else if s[0] == ('%' as u8) && s.len() >= 3 {
        lemma_decode_len(s.skip(3));
    } else {
        lemma_decode_len(s.skip(1));
    }
}

/// A hex digit emitted by the encoder decodes back to its value.
pub proof fn lemma_hex_roundtrip(v: u8)
    requires
        v < 16,
    ensures
        spec_is_hexdig(hex_digit(v)),
        hex_val(hex_digit(v)) == v,
{
}

/// Percent-encoding for a table that permits escapes yields a sequence
/// valid under that table.
pub proof fn lemma_encode_valid(t: Table, bs: Seq<u8>)
    requires
        t.spec_allows_enc(),
    ensures
        is_valid(t, encode_seq(t, bs)),
    decreases bs.len(),
{
    if bs.len() == 0 {
    } else {
        let e = encode_seq(t, bs);
        lemma_encode_valid(t, bs.skip(1));
        if t.spec_allows(bs[0]) {
            assert(e[0] == bs[0]);
            assert(e.skip(1) =~= encode_seq(t, bs.skip(1)));
            assert(scan(t, e) == shift_err(scan(t, e.skip(1)), 1));
        } else {
            lemma_hex_roundtrip(bs[0] / 16);
            lemma_hex_roundtrip(bs[0] % 16);
            assert(e[0] == ('%' as u8) && e[1] == hex_digit(bs[0] / 16) && e[2] == hex_digit(bs[0] % 16));
            assert(e.skip(3) =~= encode_seq(t, bs.skip(1)));
            assert(scan(t, e) == shift_err(scan(t, e.skip(3)), 3));
        }
    }
}

/// Round trip: decoding the percent-encoding of any byte sequence gives
/// back that sequence, for every table that permits escapes.
pub proof fn lemma_encode_decode(t: Table, bs: Seq<u8>)
    requires
        t.spec_allows_enc(),
    ensures
        decode_seq(encode_seq(t, bs)) == bs,
    decreases bs.len(),
{
    if bs.len() == 0 {
        assert(decode_seq(encode_seq(t, bs)) =~= bs);
    } else {
        let e = encode_seq(t, bs);
        lemma_encode_decode(t, bs.skip(1));
        if t.spec_allows(bs[0]) {
            lemma_no_table_allows_pct(t);
            assert(e[0] == bs[0] && e[0] != ('%' as u8));
            assert(e.skip(1) =~= encode_seq(t, bs.skip(1)));
            assert(decode_seq(e) =~= bs);
        } else {
            lemma_hex_roundtrip(bs[0] / 16);
            lemma_hex_roundtrip(bs[0] % 16);
            assert(e[0] == ('%' as u8));
            assert(e.len() >= 3);
            assert(e[1] == hex_digit(bs[0] / 16) && e[2] == hex_digit(bs[0] % 16));
            assert(hex_val(e[1]) * 16 + hex_val(e[2]) == bs[0]);
            assert(e.skip(3) =~= encode_seq(t, bs.skip(1)));
            assert(decode_seq(e) =~= bs);
        }
    }
}

/// Percent-decodes `s`, whose escapes must be well formed. Returns `None`
/// when `s` holds no escape at all (the decoding is then `s` itself), and
/// the freshly decoded bytes otherwise.
pub fn decode_bytes(s: &[u8]) -> (r: Option<Vec<u8>>)
    requires
        escapes_wf(s@),
    ensures
        match r {
            Some(v) => v@ == decode_seq(s@) && exists|i: int| 0 <= i < s@.len() && s@[i] == ('%' as u8),
            None => decode_seq(s@) == s@ && forall|i: int|
                0 <= i < s@.len() ==> #[trigger] s@[i] != ('%' as u8),
        },
{
    let n: usize = s.len();
    let mut has_escape = false;
    let mut i: usize = 0;
    while i < n
        invariant
            n == s@.len(),
            i <= n,
            has_escape ==> exists|j: int| 0 <= j < i && s@[j] == ('%' as u8),
            !has_escape ==> forall|j: int| 0 <= j < i ==> #[trigger] s@[j] != ('%' as u8),
        decreases n - i,
    {
        if *vstd::slice::slice_index_get(s, i) == ('%' as u8) {
            has_escape = true;
        }
        i = i + 1;
    }
    if !has_escape {
        proof {
            lemma_decode_no_escape(s@);
        }
        return None;
    }
    let mut out: Vec<u8> = Vec::new();
    let mut j: usize = 0;
    proof {
        assert(s@.skip(0) =~= s@);
        assert(out@ + decode_seq(s@) =~= decode_seq(s@));
    }
    while j < n
        invariant
            n == s@.len(),
            j <= n,
            escapes_wf(s@),
            decode_seq(s@) == out@ + decode_seq(s@.skip(j as int)),
        decreases n - j,
    {
        let b = *vstd::slice::slice_index_get(s, j);
        assert(s@.skip(j as int)[0] == b);
        if b == ('%' as u8) {
            assert(j + 2 < n && spec_is_hexdig(s@[j + 1]) && spec_is_hexdig(s@[j + 2]));
            let hi = hex_val_exec(*vstd::slice::slice_index_get(s, j + 1));
            let lo = hex_val_exec(*vstd::slice::slice_index_get(s, j + 2));
            assert(s@.skip(j as int)[1] == s@[j + 1] && s@.skip(j as int)[2] == s@[j + 2]);
            out.push(hi * 16 + lo);
            proof {
                assert(s@.skip(j as int).skip(3) =~= s@.skip(j + 3));
                assert(decode_seq(s@.skip(j as int)) == seq![(hex_val(s@[j + 1]) * 16 + hex_val(
                    s@[j + 2],
                )) as u8] + decode_seq(s@.skip(j + 3)));
                assert(out@ + decode_seq(s@.skip(j + 3)) =~= decode_seq(s@));
            }
            j = j + 3;
        } else {
            out.push(b);
            proof {
                assert(s@.skip(j as int).skip(1) =~= s@.skip(j + 1));
                assert(decode_seq(s@.skip(j as int)) == seq![b] + decode_seq(s@.skip(j + 1)));
                assert(out@ + decode_seq(s@.skip(j + 1)) =~= decode_seq(s@));
            }
            j = j + 1;
        }
    }
    proof {
        assert(s@.skip(n as int) =~= Seq::<u8>::empty());
        assert(out@ =~= decode_seq(s@));
    }
    Some(out)
}

/// Percent-encodes `bs` for table `t`, appending to `out`.
pub fn encode_into(t: Table, bs: &[u8], out: &mut Vec<u8>)
    ensures
        final(out)@ == old(out)@ + encode_seq(t, bs@),
{
    let n: usize = bs.len();
    let mut i: usize = 0;
    proof {
        assert(bs@.skip(0) =~= bs@);
        assert(out@ + encode_seq(t, bs@) =~= old(out)@ + encode_seq(t, bs@));
    }
    while i < n
        invariant
            n == bs@.len(),
            i <= n,
            out@ + encode_seq(t, bs@.skip(i as int)) == old(out)@ + encode_seq(t, bs@),
        decreases n - i,
    {
        let b = *vstd::slice::slice_index_get(bs, i);
        assert(bs@.skip(i as int)[0] == b);
        proof {
            assert(bs@.skip(i as int).skip(1) =~= bs@.skip(i + 1));
        }
        if t.allows(b) {
            out.push(b);
            proof {
                assert(out@ + encode_seq(t, bs@.skip(i + 1)) =~= old(out)@ + encode_seq(t, bs@));
            }
        } else {
            out.push(('%' as u8));
            out.push(hex_digit_exec(b / 16));
            out.push(hex_digit_exec(b % 16));
            proof {
                assert(out@ + encode_seq(t, bs@.skip(i + 1)) =~= old(out)@ + encode_seq(t, bs@));
            }
        }
        i = i + 1;
    }
    proof {
        assert(bs@.skip(n as int) =~= Seq::<u8>::empty());
        assert(out@ =~= old(out)@ + encode_seq(t, bs@));
    }
}

} // verus!
