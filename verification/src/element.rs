//! The element-codec capability that the sequence codecs consume.
//!
//! Every element type states its own wire format: a fixed width, an
//! encoding function, the set of byte patterns that are valid encodings,
//! and the decoding function that inverts the encoding. Types whose
//! in-memory layout matches their wire bytes exactly may additionally
//! declare themselves flat-encodable and offer bulk (contiguous-run)
//! encode and decode routes; those routes are pure optimizations and
//! never change the decoded value.

use vstd::prelude::*;

use crate::error::Error;

verus! {

/// A value that can stand as one element of a length-prefixed sequence.
///
/// The spec side gives the element's wire model: every value encodes to
/// exactly `wire_width()` bytes, `wire_ok` picks out the byte patterns
/// that are encodings, and `of_wire` maps each such pattern back to the
/// value it encodes. The proof obligations make encoding and decoding
/// mutual inverses, which is what the sequence round-trip rests on.
pub trait Element: Sized {
    /// Number of bytes every value of this type occupies on the wire.
    spec fn wire_width() -> nat;

    /// The wire bytes of this value.
    spec fn wire(self) -> Seq<u8>;

    /// Whether a `wire_width()`-byte pattern is a valid encoding.
    spec fn wire_ok(w: Seq<u8>) -> bool;

    /// The value encoded by a valid `wire_width()`-byte pattern.
    spec fn of_wire(w: Seq<u8>) -> Self;

    /// Whether every `wire_width()`-byte pattern is a valid encoding,
    /// making the in-memory run of values byte-identical to the wire.
    spec fn flat() -> bool;

    /// Every value's wire bytes have the declared width, are a valid
    /// encoding, and decode back to the value itself.
    proof fn lemma_wire_form(v: Self)
        ensures
            v.wire().len() == Self::wire_width(),
            Self::wire_ok(v.wire()),
            Self::of_wire(v.wire()) == v,
    ;

    /// Decoding a valid pattern yields a value that encodes back to it.
    proof fn lemma_of_wire_form(w: Seq<u8>)
        requires
            w.len() == Self::wire_width(),
            Self::wire_ok(w),
        ensures
            Self::of_wire(w).wire() == w,
    ;

    /// For a flat-encodable type, every pattern of the right width is
    /// a valid encoding.
    proof fn lemma_flat_ok(w: Seq<u8>)
        requires
            Self::flat(),
            w.len() == Self::wire_width(),
        ensures
            Self::wire_ok(w),
    ;

    /// The wire width, as a machine integer.
    fn wire_width_exec() -> (n: usize)
        ensures
            n == Self::wire_width(),
    ;

    /// Whether the type is flat-encodable, queried on the type once,
    /// never per value.
    fn flat_exec() -> (b: bool)
        ensures
            b == Self::flat(),
    ;

    /// Append this value's wire bytes to `out`.
    fn encode_elem(&self, out: &mut Vec<u8>)
        ensures
            final(out)@ == old(out)@ + self.wire(),
    ;

    /// Decode one value from `bytes` at offset `pos`. The caller has
    /// already checked that `wire_width()` bytes are available; what is
    /// left to go wrong is an invalid pattern.
    fn decode_elem(bytes: &[u8], pos: usize) -> (r: Result<Self, Error>)
        requires
            pos + Self::wire_width() <= bytes@.len(),
        ensures
            ({
                let w = bytes@.subrange(pos as int, pos + Self::wire_width());
                if Self::wire_ok(w) {
                    r == Ok::<Self, Error>(Self::of_wire(w))
                } else {
                    r == Err::<Self, Error>(Error::ElementError)
                }
            }),
    ;

    /// A fresh value equal to this one (the zero-width decode path
    /// materializes a sequence from one validated value).
    fn duplicate(&self) -> (r: Self)
        ensures
            r == *self,
    ;

    /// Bulk-encode capability: append the wire bytes of a whole run in
    /// one operation, or decline by returning `false` and leaving `out`
    /// untouched, in which case the caller encodes element by element.
    /// When the run is written, the bytes past the old length are the
    /// elements' encodings, back to back.
    fn write_run(data: &[Self], out: &mut Vec<u8>) -> (used: bool)
        ensures
            !used ==> final(out)@ == old(out)@,
            used ==> {
                &&& final(out)@.len() == old(out)@.len() + data@.len() * Self::wire_width()
                &&& final(out)@.subrange(0, old(out)@.len() as int) == old(out)@
                &&& forall|i: int|
                    0 <= i < data@.len() ==> #[trigger] data@[i].wire() == final(out)@.subrange(
                        old(out)@.len() + i * Self::wire_width(),
                        old(out)@.len() + (i + 1) * Self::wire_width(),
                    )
            },
    ;

    /// Bulk-decode capability: read `count` contiguous values in one
    /// operation, or decline by returning `None`. Only flat-encodable
    /// types may accept, so every chunk read this way is a valid
    /// encoding.
    fn read_run(bytes: &[u8], pos: usize, count: usize) -> (r: Option<Vec<Self>>)
        requires
            pos + count * Self::wire_width() <= bytes@.len(),
        ensures
            r matches Some(v) ==> {
                &&& Self::flat()
                &&& v@.len() == count
                &&& forall|i: int|
                    0 <= i < count ==> v@[i] == Self::of_wire(
                        #[trigger] bytes@.subrange(
                            pos + i * Self::wire_width(),
                            pos + (i + 1) * Self::wire_width(),
                        ),
                    )
            },
    ;
}

/// The wire bytes of a whole sequence of elements: each element's
/// encoding, concatenated in sequence order, with nothing in between.
pub open spec fn wire_of_seq<T: Element>(s: Seq<T>) -> Seq<u8>
    decreases s.len(),
{
    if s.len() == 0 {
        Seq::<u8>::empty()
    } else {
        s[0].wire() + wire_of_seq(s.drop_first())
    }
}

/// Appending one element to a sequence appends its wire bytes.
pub proof fn lemma_wire_of_seq_push<T: Element>(s: Seq<T>, v: T)
    ensures
        wire_of_seq(s.push(v)) == wire_of_seq(s) + v.wire(),
    decreases s.len(),
{
    let sp = s.push(v);
    if s.len() == 0 {
        assert(sp[0] == v);
        assert(sp.drop_first() =~= Seq::<T>::empty());
        assert(wire_of_seq(sp) == v.wire() + wire_of_seq(Seq::<T>::empty()));
        assert(wire_of_seq(Seq::<T>::empty()) == Seq::<u8>::empty());
        assert(wire_of_seq(s) == Seq::<u8>::empty());
        assert(wire_of_seq(sp) =~= wire_of_seq(s) + v.wire());
    } else {
        assert(sp[0] == s[0]);
        assert(sp.drop_first() =~= s.drop_first().push(v));
        lemma_wire_of_seq_push(s.drop_first(), v);
        assert(wire_of_seq(sp) == s[0].wire() + (wire_of_seq(s.drop_first()) + v.wire()));
        assert(wire_of_seq(s) == s[0].wire() + wire_of_seq(s.drop_first()));
        assert(wire_of_seq(sp) =~= wire_of_seq(s) + v.wire());
    }
}

/// A byte run that is the right length and holds every element's wire
/// bytes at its chunk position is the sequence's wire image.
pub proof fn lemma_chunks_to_wire<T: Element>(s: Seq<T>, b: Seq<u8>)
    requires
        b.len() == s.len() * T::wire_width(),
        forall|i: int|
            0 <= i < s.len() ==> #[trigger] s[i].wire() == b.subrange(
                i * T::wire_width(),
                (i + 1) * T::wire_width(),
            ),
    ensures
        b == wire_of_seq(s),
    decreases s.len(),
{
    let w = T::wire_width() as int;
    if s.len() == 0 {
        assert(b =~= Seq::<u8>::empty());
    } else {
        let n = s.len() as int;
        assert(n * w == w + (n - 1) * w) by (nonlinear_arith);
        let tail = b.subrange(w, b.len() as int);
        assert forall|i: int| 0 <= i < s.drop_first().len() implies #[trigger] s.drop_first()[i].wire()
            == tail.subrange(i * w, (i + 1) * w) by {
            assert((i + 1) * w == i * w + w) by (nonlinear_arith);
            assert((i + 2) * w == i * w + 2 * w) by (nonlinear_arith);
            assert((i + 2) * w <= n * w) by (nonlinear_arith)
                requires
                    i + 2 <= n,
                    w >= 0,
            ;
            assert(s.drop_first()[i] == s[i + 1]);
            assert(s[i + 1].wire() == b.subrange((i + 1) * w, (i + 2) * w));
            assert(tail.subrange(i * w, (i + 1) * w) =~= b.subrange((i + 1) * w, (i + 2) * w));
        }
        lemma_chunks_to_wire::<T>(s.drop_first(), tail);
        assert(s[0].wire() == b.subrange(0 * w, 1 * w));
        assert(b =~= b.subrange(0, w) + tail);
    }
}

/// Each element's wire bytes sit at their chunk position inside the
/// sequence's wire image.
pub proof fn lemma_wire_of_seq_chunk<T: Element>(s: Seq<T>, i: int)
    requires
        0 <= i < s.len(),
    ensures
        wire_of_seq(s).len() == s.len() * T::wire_width(),
        wire_of_seq(s).subrange(i * T::wire_width(), (i + 1) * T::wire_width()) == s[i].wire(),
    decreases s.len(),
{
    let w = T::wire_width() as int;
    let b = wire_of_seq(s);
    lemma_wire_of_seq_len::<T>(s);
    T::lemma_wire_form(s[0]);
    assert(0 * w == 0) by (nonlinear_arith);
    assert((0 + 1) * w == w) by (nonlinear_arith);
    assert(s.len() * w >= 1 * w) by (nonlinear_arith)
        requires
            s.len() >= 1,
            w >= 0,
    ;
    if i == 0 {
        assert(b.subrange(0 * w, (0 + 1) * w) =~= s[0].wire());
    } else {
        let tail = s.drop_first();
        lemma_wire_of_seq_chunk::<T>(tail, i - 1);
        assert((i - 1) * w == i * w - w) by (nonlinear_arith);
        assert(((i - 1) + 1) * w == i * w) by (nonlinear_arith);
        assert((i + 1) * w == i * w + w) by (nonlinear_arith);
        assert((i + 1) * w <= s.len() * w) by (nonlinear_arith)
            requires
                i + 1 <= s.len(),
                w >= 0,
        ;
        assert(tail.len() * w == s.len() * w - w) by (nonlinear_arith)
            requires
                tail.len() == s.len() - 1,
        ;
        assert(b.subrange(i * w, (i + 1) * w) =~= wire_of_seq(tail).subrange(
            (i - 1) * w,
            ((i - 1) + 1) * w,
        ));
    }
}

/// A sequence's wire bytes take exactly `wire_width()` bytes per element.
pub proof fn lemma_wire_of_seq_len<T: Element>(s: Seq<T>)
    ensures
        wire_of_seq(s).len() == s.len() * T::wire_width(),
    decreases s.len(),
{
    if s.len() == 0 {
    } else {
        T::lemma_wire_form(s[0]);
        lemma_wire_of_seq_len::<T>(s.drop_first());
        assert(s.len() * T::wire_width() == T::wire_width() + (s.len() - 1) * T::wire_width())
            by (nonlinear_arith);
    }
}

} // verus!
