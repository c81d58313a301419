//! Splitting validated slices on reserved delimiters.
//!
//! [`split_seq`] is the model of cutting a byte sequence at every
//! occurrence of a delimiter; [`join_seq`] is its inverse, and
//! [`lemma_split_join`] proves that rejoining the pieces with the same
//! delimiter reproduces the original sequence. [`Split`] walks the pieces
//! of an [`EStr`](crate::estr::EStr) from either end.

use vstd::prelude::*;
use vstd::slice::{slice_subrange, slice_to_vec};
use core::marker::PhantomData;
use crate::encoder::Encoder;
use crate::estr::EStr;
use crate::table::{Table, is_valid, scan, shift_err, spec_is_reserved, spec_is_hexdig};

verus! {

/// The index of the first occurrence of `d` in `s`, or `s.len()` when
/// there is none.
pub open spec fn find_byte(s: Seq<u8>, d: u8) -> int
    decreases s.len(),
{
    if s.len() == 0 {
        0
    } else if s[0] == d {
        0
    } else {
        1 + find_byte(s.skip(1), d)
    }
}

/// Characterizes [`find_byte`]: it points at the first occurrence, and
/// equals the length exactly when the byte is absent.
pub proof fn lemma_find_byte(s: Seq<u8>, d: u8)
    ensures
        0 <= find_byte(s, d) <= s.len(),
        find_byte(s, d) < s.len() ==> s[find_byte(s, d)] == d,
        forall|j: int| 0 <= j < find_byte(s, d) ==> s[j] != d,
        find_byte(s, d) == s.len() ==> !s.contains(d),
    decreases s.len(),
{
    if s.len() == 0 {
    } else if s[0] == d {
    } else {
        lemma_find_byte(s.skip(1), d);
        let f = find_byte(s, d);
        assert forall|j: int| 0 <= j < f implies s[j] != d by {
            if j >= 1 {
                assert(s.skip(1)[j - 1] == s[j]);
            }
        }
        if f == s.len() {
            assert forall|j: int| 0 <= j < s.len() implies s[j] != d by {}
            assert(!s.contains(d));
        }
    }
}

/// The pieces of `s` cut at every occurrence of `d`. An empty sequence
/// yields one empty piece, as splitting text on a delimiter does.
pub open spec fn split_seq(s: Seq<u8>, d: u8) -> Seq<Seq<u8>>
    decreases s.len(),
{
    let i = find_byte(s, d);
    if 0 <= i < s.len() {
        seq![s.take(i)] + split_seq(s.skip(i + 1), d)
    } else {
        seq![s]
    }
}

/// The pieces joined back together with `d` between neighbours.
pub open spec fn join_seq(ps: Seq<Seq<u8>>, d: u8) -> Seq<u8>
    decreases ps.len(),
{
    if ps.len() == 0 {
        Seq::empty()
    } else if ps.len() == 1 {
        ps[0]
    } else {
        ps[0] + seq![d] + join_seq(ps.drop_first(), d)
    }
}

/// Splitting yields at least one piece.
pub proof fn lemma_split_nonempty(s: Seq<u8>, d: u8)
    ensures
        split_seq(s, d).len() >= 1,
{
}

/// Splitting on a delimiter and rejoining with that delimiter reproduces
/// the original sequence.
pub proof fn lemma_split_join(s: Seq<u8>, d: u8)
    ensures
        join_seq(split_seq(s, d), d) == s,
    decreases s.len(),
{
    lemma_find_byte(s, d);
    let i = find_byte(s, d);
    if 0 <= i < s.len() {
        lemma_split_join(s.skip(i + 1), d);
        lemma_split_nonempty(s.skip(i + 1), d);
        let ps = split_seq(s, d);
        assert(ps.len() >= 2);
        assert(ps.drop_first() =~= split_seq(s.skip(i + 1), d));
        assert(join_seq(ps, d) == s.take(i) + seq![d] + s.skip(i + 1));
        assert(s.take(i) + seq![d] + s.skip(i + 1) =~= s);
    }
}

/// Splitting from the back: when `j` is the last occurrence of `d`, the
/// pieces are those of the part before `j` followed by the part after it.
pub proof fn lemma_split_last(s: Seq<u8>, d: u8, j: int)
    requires
        0 <= j < s.len(),
        s[j] == d,
        forall|k: int| j < k < s.len() ==> s[k] != d,
    ensures
        split_seq(s, d) == split_seq(s.take(j), d) + seq![s.skip(j + 1)],
    decreases s.len(),
{
    lemma_find_byte(s, d);
    let i = find_byte(s, d);
    assert(i <= j);
    if i == j {
        assert(!s.skip(j + 1).contains(d)) by {
            assert(forall|k: int|
                0 <= k < s.skip(j + 1).len() ==> #[trigger] s.skip(j + 1)[k] == s[k + j + 1]);
        }
        lemma_find_byte(s.skip(j + 1), d);
        assert(find_byte(s.skip(j + 1), d) == s.skip(j + 1).len()) by {
            if find_byte(s.skip(j + 1), d) < s.skip(j + 1).len() {
                assert(s.skip(j + 1).contains(d)) by {
                    assert(s.skip(j + 1)[find_byte(s.skip(j + 1), d)] == d);
                }
            }
        }
        assert(split_seq(s.skip(j + 1), d) == seq![s.skip(j + 1)]);
        lemma_find_byte(s.take(j), d);
        assert(find_byte(s.take(j), d) == j) by {
            assert(forall|k: int| 0 <= k < j ==> s.take(j)[k] == s[k]);
            if find_byte(s.take(j), d) < j {
                assert(s.take(j)[find_byte(s.take(j), d)] == d);
            }
        }
        assert(split_seq(s.take(j), d) == seq![s.take(j)]);
        assert(split_seq(s, d) == seq![s.take(i)] + split_seq(s.skip(i + 1), d));
        assert(split_seq(s, d) =~= split_seq(s.take(j), d) + seq![s.skip(j + 1)]);
    } else {
        assert(s.skip(i + 1)[j - i - 1] == d);
        assert(forall|k: int|
            j - i - 1 < k < s.skip(i + 1).len() ==> #[trigger] s.skip(i + 1)[k] == s[k + i + 1]);
        lemma_split_last(s.skip(i + 1), d, j - i - 1);
        lemma_find_byte(s.take(j), d);
        assert(find_byte(s.take(j), d) == i) by {
            assert(forall|k: int| 0 <= k < j ==> s.take(j)[k] == s[k]);
            assert(s.take(j)[i] == d);
            let f = find_byte(s.take(j), d);
            assert(f <= i);
            if f < i {
                assert(s.take(j)[f] == d);
            }
        }
        assert(s.take(j).skip(i + 1) =~= s.skip(i + 1).take(j - i - 1));
        assert(s.skip(i + 1).skip(j - i) =~= s.skip(j + 1));
        assert(split_seq(s.take(j), d) == seq![s.take(j).take(i)] + split_seq(
            s.take(j).skip(i + 1),
            d,
        ));
        assert(s.take(j).take(i) =~= s.take(i));
        assert(split_seq(s, d) =~= split_seq(s.take(j), d) + seq![s.skip(j + 1)]);
    }
}

/// The segments of a path: an empty path has none; otherwise the path is
/// split on `/`, with the empty piece implied by a leading `/` dropped.
pub open spec fn segments_seq(path: Seq<u8>) -> Seq<Seq<u8>> {
    if path.len() == 0 {
        Seq::empty()
    } else if path[0] == ('/' as u8) {
        split_seq(path.skip(1), '/' as u8)
    } else {
        split_seq(path, '/' as u8)
    }
}

/// Cutting a valid sequence at a reserved byte leaves both sides valid:
/// a reserved byte is neither `%` nor a hex digit, so no escape triplet
/// straddles the cut.
pub proof fn lemma_valid_split_at(t: Table, s: Seq<u8>, i: int)
    requires
        is_valid(t, s),
        0 <= i < s.len(),
        spec_is_reserved(s[i]),
    ensures
        is_valid(t, s.take(i)),
        is_valid(t, s.skip(i + 1)),
    decreases s.len(),
{
    if s[0] == ('%' as u8) {
        assert(spec_is_hexdig(s[1]) && spec_is_hexdig(s[2]));
        assert(i >= 3);
        lemma_valid_split_at(t, s.skip(3), i - 3);
        assert(s.take(i).skip(3) =~= s.skip(3).take(i - 3));
        assert(s.take(i)[0] == ('%' as u8) && s.take(i)[1] == s[1] && s.take(i)[2] == s[2]);
        assert(scan(t, s.take(i)) == shift_err(scan(t, s.take(i).skip(3)), 3));
        assert(s.skip(3).skip(i - 3 + 1) =~= s.skip(i + 1));
    } else {
        if i == 0 {
            assert(s.take(0) =~= Seq::<u8>::empty());
        } else {
            lemma_valid_split_at(t, s.skip(1), i - 1);
            assert(s.take(i).skip(1) =~= s.skip(1).take(i - 1));
            assert(s.take(i)[0] == s[0]);
            assert(scan(t, s.take(i)) == shift_err(scan(t, s.take(i).skip(1)), 1));
            assert(s.skip(1).skip(i - 1 + 1) =~= s.skip(i + 1));
        }
    }
}

/// A valid sequence that holds a `%` was validated by a table that
/// permits escapes.
pub proof fn lemma_valid_pct_enc(t: Table, s: Seq<u8>)
    requires
        is_valid(t, s),
        s.contains('%' as u8),
    ensures
        t.spec_allows_enc(),
    decreases s.len(),
{
    let w = choose|w: int| 0 <= w < s.len() && s[w] == ('%' as u8);
    if s[0] == ('%' as u8) {
    } else {
        assert(w >= 1);
        assert(s.skip(1)[w - 1] == ('%' as u8));
        assert(s.skip(1).contains('%' as u8));
        lemma_valid_pct_enc(t, s.skip(1));
    }
}

/// Validity carries over from table `t1` to table `t2` when `t2` accepts
/// every literal byte that actually occurs and permits escapes if one
/// occurs.
pub proof fn lemma_valid_weaken(t1: Table, t2: Table, s: Seq<u8>)
    requires
        is_valid(t1, s),
        s.contains('%' as u8) ==> t2.spec_allows_enc(),
        forall|i: int|
            0 <= i < s.len() && t1.spec_allows(#[trigger] s[i]) ==> t2.spec_allows(s[i]),
    ensures
        is_valid(t2, s),
    decreases s.len(),
{
    if s.len() == 0 {
    } else if s[0] == ('%' as u8) {
        assert(s.contains('%' as u8));
        assert(forall|i: int| 0 <= i < s.skip(3).len() ==> #[trigger] s.skip(3)[i] == s[i + 3]);
        assert(s.skip(3).contains('%' as u8) ==> s.contains('%' as u8));
        lemma_valid_weaken(t1, t2, s.skip(3));
        assert(scan(t2, s) == shift_err(scan(t2, s.skip(3)), 3));
    } else {
        assert(forall|i: int| 0 <= i < s.skip(1).len() ==> #[trigger] s.skip(1)[i] == s[i + 1]);
        assert(s.skip(1).contains('%' as u8) ==> s.contains('%' as u8)) by {
            if s.skip(1).contains('%' as u8) {
                let w = choose|w: int| 0 <= w < s.skip(1).len() && s.skip(1)[w] == ('%' as u8);
                assert(s[w + 1] == ('%' as u8));
            }
        }
        lemma_valid_weaken(t1, t2, s.skip(1));
        assert(t2.spec_allows(s[0]));
        assert(scan(t2, s) == shift_err(scan(t2, s.skip(1)), 1));
    }
}

/// Finds the first occurrence of `d` in `s[from..to)`.
pub fn find_in(s: &[u8], d: u8, from: usize, to: usize) -> (r: Option<usize>)
    requires
        from <= to <= s@.len(),
    ensures
        match r {
            Some(i) => from <= i < to && s@[i as int] == d && forall|j: int|
                from <= j < i ==> s@[j] != d,
            None => forall|j: int| from <= j < to ==> s@[j] != d,
        },
{
    let mut i: usize = from;
    while i < to
        invariant
            from <= i <= to <= s@.len(),
            forall|j: int| from <= j < i ==> s@[j] != d,
        decreases to - i,
    {
        if *vstd::slice::slice_index_get(s, i) == d {
            return Some(i);
        }
        i = i + 1;
    }
    None
}

/// Finds the last occurrence of `d` in `s[from..to)`.
pub fn rfind_in(s: &[u8], d: u8, from: usize, to: usize) -> (r: Option<usize>)
    requires
        from <= to <= s@.len(),
    ensures
        match r {
            Some(i) => from <= i < to && s@[i as int] == d && forall|j: int|
                i < j < to ==> s@[j] != d,
            None => forall|j: int| from <= j < to ==> s@[j] != d,
        },
{
    let mut i: usize = to;
    while i > from
        invariant
            from <= i <= to <= s@.len(),
            forall|j: int| i <= j < to ==> s@[j] != d,
        decreases i,
    {
        i = i - 1;
        if *vstd::slice::slice_index_get(s, i) == d {
            return Some(i);
        }
    }
    None
}

/// Walks the pieces of a validated slice cut at a reserved delimiter,
/// from the front or from the back.
///
/// The pieces were validated under `table`; every piece, being free of
/// the delimiter, is valid for component `E`.
pub struct Split<E: Encoder> {
    remaining: Vec<u8>,
    delim: u8,
    table: Table,
    finished: bool,
    marker: PhantomData<E>,
}

impl<E: Encoder> Split<E> {
    #[verifier::type_invariant]
    closed spec fn inv(self) -> bool {
        &&& is_valid(self.table, self.remaining@)
        &&& spec_is_reserved(self.delim)
        &&& (self.table.spec_allows_enc() ==> E::table().spec_allows_enc())
        &&& forall|b: u8|
            b != self.delim && #[trigger] self.table.spec_allows(b) ==> E::table().spec_allows(b)
    }

    /// The pieces not yet handed out, in order.
    pub closed spec fn items(&self) -> Seq<Seq<u8>> {
        if self.finished {
            Seq::empty()
        } else {
            split_seq(self.remaining@, self.delim)
        }
    }

    /// Makes a splitter over `v`, valid under `t`, cutting at `d`.
    pub(crate) fn of_parts(v: Vec<u8>, d: u8, t: Table) -> (r: Self)
        requires
            is_valid(t, v@),
            spec_is_reserved(d),
            t.spec_allows_enc() ==> E::table().spec_allows_enc(),
            forall|b: u8| b != d && #[trigger] t.spec_allows(b) ==> E::table().spec_allows(b),
        ensures
            r.items() == split_seq(v@, d),
    {
        Split { remaining: v, delim: d, table: t, finished: false, marker: PhantomData }
    }

    /// Makes a splitter that is already exhausted.
    pub(crate) fn done(d: u8, t: Table) -> (r: Self)
        requires
            spec_is_reserved(d),
            t.spec_allows_enc() ==> E::table().spec_allows_enc(),
            forall|b: u8| b != d && #[trigger] t.spec_allows(b) ==> E::table().spec_allows(b),
        ensures
            r.items().len() == 0,
    {
        Split { remaining: Vec::new(), delim: d, table: t, finished: true, marker: PhantomData }
    }

    /// A piece cut out of the remainder is valid for component `E`.
    proof fn piece_valid(self, p: Seq<u8>)
        requires
            self.inv(),
            is_valid(self.table, p),
            !p.contains(self.delim),
        ensures
            is_valid(E::table(), p),
    {
        if p.contains('%' as u8) {
            lemma_valid_pct_enc(self.table, p);
        }
        assert forall|i: int|
            0 <= i < p.len() && self.table.spec_allows(#[trigger] p[i]) implies E::table().spec_allows(
            p[i],
        ) by {
            assert(p[i] != self.delim);
        }
        lemma_valid_weaken(self.table, E::table(), p);
    }

    /// Hands out the next piece from the front, or `None` when all pieces
    /// are gone.
    pub fn next(&mut self) -> (r: Option<EStr<E>>)
        ensures
            match r {
                Some(e) => old(self).items().len() > 0 && e@ == old(self).items()[0] && final(self).items() == old(self).items().drop_first(),
                None => old(self).items().len() == 0 && final(self).items().len() == 0,
            },
    {
        proof {
            use_type_invariant(&*self);
        }
        if self.finished {
            return None;
        }
        let n = self.remaining.len();
        let ghost rem = self.remaining@;
        let ghost d_spec = self.delim;
        proof {
            lemma_find_byte(rem, d_spec);
        }
        match find_in(self.remaining.as_slice(), self.delim, 0, n) {
            Some(i) => {
                proof {
                    assert(find_byte(rem, d_spec) == i as int);
                    lemma_valid_split_at(self.table, rem, i as int);
                    assert(rem.subrange(0, i as int) =~= rem.take(i as int));
                    assert(rem.subrange(i + 1, n as int) =~= rem.skip(i + 1));
                }
                let head = slice_to_vec(slice_subrange(self.remaining.as_slice(), 0, i));
                let tail = slice_to_vec(slice_subrange(self.remaining.as_slice(), i + 1, n));
                proof {
                    assert(!rem.take(i as int).contains(d_spec)) by {
                        assert(forall|j: int| 0 <= j < i ==> rem.take(i as int)[j] == rem[j]);
                    }
                    self.piece_valid(rem.take(i as int));
                }
                let piece = EStr::from_bytes(head);
                let next_state = Split {
                    remaining: tail,
                    delim: self.delim,
                    table: self.table,
                    finished: false,
                    marker: PhantomData,
                };
                *self = next_state;
                proof {
                    assert(split_seq(rem, d_spec) == seq![rem.take(i as int)] + split_seq(
                        rem.skip(i + 1),
                        d_spec,
                    ));
                    assert(self.items() =~= split_seq(rem, d_spec).drop_first());
                }
                Some(piece)
            },
            None => {
                proof {
                    assert(!rem.contains(d_spec)) by {
                        if rem.contains(d_spec) {
                            let w = choose|w: int| 0 <= w < rem.len() && rem[w] == d_spec;
                        }
                    }
                    assert(find_byte(rem, d_spec) == rem.len());
                    self.piece_valid(rem);
                }
                let whole = slice_to_vec(self.remaining.as_slice());
                let piece = EStr::from_bytes(whole);
                let next_state = Split {
                    remaining: Vec::new(),
                    delim: self.delim,
                    table: self.table,
                    finished: true,
                    marker: PhantomData,
                };
                *self = next_state;
                proof {
                    assert(split_seq(rem, d_spec) == seq![rem]);
                    assert(self.items() =~= split_seq(rem, d_spec).drop_first());
                }
                Some(piece)
            },
        }
    }

    /// Hands out the next piece from the back, or `None` when all pieces
    /// are gone.
    pub fn next_back(&mut self) -> (r: Option<EStr<E>>)
        ensures
            match r {
                Some(e) => old(self).items().len() > 0 && e@ == old(self).items().last() && final(self).items() == old(self).items().drop_last(),
                None => old(self).items().len() == 0 && final(self).items().len() == 0,
            },
    {
        proof {
            use_type_invariant(&*self);
        }
        if self.finished {
            return None;
        }
        let n = self.remaining.len();
        let ghost rem = self.remaining@;
        let ghost d_spec = self.delim;
        match rfind_in(self.remaining.as_slice(), self.delim, 0, n) {
            Some(j) => {
                proof {
                    lemma_valid_split_at(self.table, rem, j as int);
                    lemma_split_last(rem, d_spec, j as int);
                    assert(rem.subrange(0, j as int) =~= rem.take(j as int));
                    assert(rem.subrange(j + 1, n as int) =~= rem.skip(j + 1));
                }
                let head = slice_to_vec(slice_subrange(self.remaining.as_slice(), 0, j));
                let tail = slice_to_vec(slice_subrange(self.remaining.as_slice(), j + 1, n));
                proof {
                    assert(!rem.skip(j + 1).contains(d_spec)) by {
                        assert(forall|k: int|
                            0 <= k < rem.skip(j + 1).len() ==> #[trigger] rem.skip(j + 1)[k]
                                == rem[k + j + 1]);
                    }
                    self.piece_valid(rem.skip(j + 1));
                }
                let piece = EStr::from_bytes(tail);
                let next_state = Split {
                    remaining: head,
                    delim: self.delim,
                    table: self.table,
                    finished: false,
                    marker: PhantomData,
                };
                *self = next_state;
                proof {
                    lemma_split_nonempty(rem.take(j as int), d_spec);
                    assert(self.items() =~= split_seq(rem, d_spec).drop_last());
                    assert(split_seq(rem, d_spec).last() == rem.skip(j + 1));
                }
                Some(piece)
            },
            None => {
                proof {
                    assert(!rem.contains(d_spec)) by {
                        if rem.contains(d_spec) {
                            let w = choose|w: int| 0 <= w < rem.len() && rem[w] == d_spec;
                        }
                    }
                    lemma_find_byte(rem, d_spec);
                    assert(find_byte(rem, d_spec) == rem.len());
                    self.piece_valid(rem);
                }
                let whole = slice_to_vec(self.remaining.as_slice());
                let piece = EStr::from_bytes(whole);
                let next_state = Split {
                    remaining: Vec::new(),
                    delim: self.delim,
                    table: self.table,
                    finished: true,
                    marker: PhantomData,
                };
                *self = next_state;
                proof {
                    assert(split_seq(rem, d_spec) == seq![rem]);
                    assert(self.items() =~= split_seq(rem, d_spec).drop_last());
                }
                Some(piece)
            },
        }
    }

    /// Collects all remaining pieces into a vector, exhausting the walk.
    pub fn collect_pieces(&mut self) -> (r: Vec<EStr<E>>)
        ensures
            r@.len() == old(self).items().len(),
            forall|k: int| 0 <= k < r@.len() ==> r@[k]@ == old(self).items()[k],
            final(self).items().len() == 0,
    {
        let mut out: Vec<EStr<E>> = Vec::new();
        loop
            invariant
                out@.len() + self.items().len() == old(self).items().len(),
                forall|k: int| 0 <= k < out@.len() ==> out@[k]@ == old(self).items()[k],
                forall|k: int|
                    0 <= k < self.items().len() ==> #[trigger] self.items()[k] == old(
                        self,
                    ).items()[out@.len() + k],
            decreases self.items().len(),
        {
            let ghost before = self.items();
            match self.next() {
                Some(e) => {
                    out.push(e);
                },
                None => {
                    return out;
                },
            }
        }
    }
}

} // verus!
