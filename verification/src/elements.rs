//! Element codecs for the concrete types the library ships.
//!
//! `u8` and `u16` are flat-encodable: any byte pattern of the right
//! width is a valid little-endian encoding, so runs of them may move as
//! contiguous byte copies. `u8` additionally offers the bulk encode and
//! decode routes. `Flag` is a one-byte value with an invariant narrower
//! than its bit pattern (only 0 and 1 are valid), so it must go through
//! the per-element route. `Blank` occupies no bytes at all and exercises
//! the count-only path.

use vstd::prelude::*;

use crate::element::Element;
use crate::error::Error;

verus! {

impl Element for u8 {
    open spec fn wire_width() -> nat {
        1
    }

    open spec fn wire(self) -> Seq<u8> {
        seq![self]
    }

    open spec fn wire_ok(w: Seq<u8>) -> bool {
        true
    }

    open spec fn of_wire(w: Seq<u8>) -> u8 {
        w[0]
    }

    open spec fn flat() -> bool {
        true
    }

    proof fn lemma_wire_form(v: u8) {
        assert(seq![v][0] == v);
    }

    proof fn lemma_of_wire_form(w: Seq<u8>) {
        assert(seq![w[0]] =~= w);
    }

    proof fn lemma_flat_ok(w: Seq<u8>) {
    }

    fn wire_width_exec() -> usize {
        1
    }

    fn flat_exec() -> bool {
        true
    }

    fn encode_elem(&self, out: &mut Vec<u8>) {
        out.push(*self);
        proof {
            assert(old(out)@.push(*self) =~= old(out)@ + self.wire());
        }
    }

    fn decode_elem(bytes: &[u8], pos: usize) -> Result<u8, Error> {
        let b = bytes[pos];
        proof {
            assert(bytes@.subrange(pos as int, pos + Self::wire_width())[0] == b);
        }
        Ok(b)
    }

    fn duplicate(&self) -> u8 {
        *self
    }

    fn write_run(data: &[u8], out: &mut Vec<u8>) -> bool {
        let ghost pre = out@;
        out.extend_from_slice(data);
        proof {
            assert forall|i: int| 0 <= i < data@.len() implies #[trigger] data@[i].wire()
                == out@.subrange(
                pre.len() + i * Self::wire_width(),
                pre.len() + (i + 1) * Self::wire_width(),
            ) by {
                assert(cloned::<u8>(data@[i], out@[pre.len() + i]));
                assert(out@[pre.len() + i] == data@[i]);
                assert(out@.subrange(pre.len() + i, pre.len() + (i + 1)) =~= seq![data@[i]]);
                assert(i * Self::wire_width() == i) by (nonlinear_arith);
                assert((i + 1) * Self::wire_width() == i + 1) by (nonlinear_arith);
            }
            assert(out@.subrange(0, pre.len() as int) =~= pre);
        }
        true
    }

    fn read_run(bytes: &[u8], pos: usize, count: usize) -> Option<Vec<u8>> {
        let _available = bytes.len();
        proof {
            assert(count * Self::wire_width() == count) by (nonlinear_arith);
        }
        let mut v: Vec<u8> = Vec::new();
        v.extend_from_slice(&bytes[pos..pos + count]);
        proof {
            let src = bytes@.subrange(pos as int, pos + count);
            assert forall|i: int| 0 <= i < count implies v@[i] == u8::of_wire(
                #[trigger] bytes@.subrange(
                    pos + i * Self::wire_width(),
                    pos + (i + 1) * Self::wire_width(),
                ),
            ) by {
                assert(i * Self::wire_width() == i) by (nonlinear_arith);
                assert((i + 1) * Self::wire_width() == i + 1) by (nonlinear_arith);
                assert(cloned::<u8>(src[i], v@[i]));
                assert(v@[i] == src[i]);
                assert(bytes@.subrange(pos + i, pos + (i + 1)) =~= seq![bytes@[pos + i]]);
                assert(src[i] == bytes@[pos + i]);
            }
        }
        Some(v)
    }
}

impl Element for u16 {
    open spec fn wire_width() -> nat {
        2
    }

    open spec fn wire(self) -> Seq<u8> {
        seq![(self % 256) as u8, (self / 256) as u8]
    }

    open spec fn wire_ok(w: Seq<u8>) -> bool {
        true
    }

    open spec fn of_wire(w: Seq<u8>) -> u16 {
        (w[0] + 256 * w[1]) as u16
    }

    open spec fn flat() -> bool {
        true
    }

    proof fn lemma_wire_form(v: u16) {
        vstd::arithmetic::div_mod::lemma_fundamental_div_mod(v as int, 256);
        assert(seq![(v % 256) as u8, (v / 256) as u8].len() == 2);
    }

    proof fn lemma_of_wire_form(w: Seq<u8>) {
        let x = Self::of_wire(w);
        vstd::arithmetic::div_mod::lemma_fundamental_div_mod_converse(
            w[0] + 256 * w[1],
            256,
            w[1] as int,
            w[0] as int,
        );
        assert(x.wire() =~= w);
    }

    proof fn lemma_flat_ok(w: Seq<u8>) {
    }

    fn wire_width_exec() -> usize {
        2
    }

    fn flat_exec() -> bool {
        true
    }

    fn encode_elem(&self, out: &mut Vec<u8>) {
        let x = *self;
        out.push((x % 256) as u8);
        out.push((x / 256) as u8);
        proof {
            assert(old(out)@.push((x % 256) as u8).push((x / 256) as u8) =~= old(out)@
                + self.wire());
        }
    }

    fn decode_elem(bytes: &[u8], pos: usize) -> Result<u16, Error> {
        let lo = bytes[pos] as u16;
        let hi = bytes[pos + 1] as u16;
        let val = lo + 256 * hi;
        proof {
            let chunk = bytes@.subrange(pos as int, pos + Self::wire_width());
            assert(chunk[0] == bytes@[pos as int]);
            assert(chunk[1] == bytes@[pos as int + 1]);
        }
        Ok(val)
    }

    fn duplicate(&self) -> u16 {
        *self
    }

    fn write_run(data: &[u16], out: &mut Vec<u8>) -> bool {
        false
    }

    fn read_run(bytes: &[u8], pos: usize, count: usize) -> Option<Vec<u16>> {
        None
    }
}

/// A one-byte element whose invariant is narrower than its bit pattern:
/// only 0 (clear) and 1 (set) are encodings, so decoding must reject
/// every other byte and runs of flags can never move as raw copies.
#[derive(Clone, Copy, Debug, PartialEq, Eq, Structural)]
pub struct Flag(pub bool);

impl Element for Flag {
    open spec fn wire_width() -> nat {
        1
    }

    open spec fn wire(self) -> Seq<u8> {
        seq![
            if self.0 {
                1u8
            } else {
                0u8
            },
        ]
    }

    open spec fn wire_ok(w: Seq<u8>) -> bool {
        w[0] == 0 || w[0] == 1
    }

    open spec fn of_wire(w: Seq<u8>) -> Flag {
        Flag(w[0] == 1)
    }

    open spec fn flat() -> bool {
        false
    }

    proof fn lemma_wire_form(v: Flag) {
    }

    proof fn lemma_of_wire_form(w: Seq<u8>) {
        assert(Self::of_wire(w).wire() =~= w);
    }

    proof fn lemma_flat_ok(w: Seq<u8>) {
    }

    fn wire_width_exec() -> usize {
        1
    }

    fn flat_exec() -> bool {
        false
    }

    fn encode_elem(&self, out: &mut Vec<u8>) {
        let b: u8 = if self.0 {
            1
        } else {
            0
        };
        out.push(b);
        proof {
            assert(old(out)@.push(b) =~= old(out)@ + self.wire());
        }
    }

    fn decode_elem(bytes: &[u8], pos: usize) -> Result<Flag, Error> {
        let b = bytes[pos];
        proof {
            assert(bytes@.subrange(pos as int, pos + Self::wire_width())[0] == b);
        }
        if b == 0 {
            Ok(Flag(false))
        } else if b == 1 {
            Ok(Flag(true))
        } else {
            Err(Error::ElementError)
        }
    }

    fn duplicate(&self) -> Flag {
        *self
    }

    fn write_run(data: &[Flag], out: &mut Vec<u8>) -> bool {
        false
    }

    fn read_run(bytes: &[u8], pos: usize, count: usize) -> Option<Vec<Flag>> {
        None
    }
}

/// An element that occupies no bytes on the wire: a sequence of blanks
/// is pure count, and decoding must track that count without reading
/// any element bytes.
#[derive(Clone, Copy, Debug, PartialEq, Eq, Structural)]
pub struct Blank;

impl Element for Blank {
    open spec fn wire_width() -> nat {
        0
    }

    open spec fn wire(self) -> Seq<u8> {
        Seq::<u8>::empty()
    }

    open spec fn wire_ok(w: Seq<u8>) -> bool {
        true
    }

    open spec fn of_wire(w: Seq<u8>) -> Blank {
        Blank
    }

    open spec fn flat() -> bool {
        false
    }

    proof fn lemma_wire_form(v: Blank) {
    }

    proof fn lemma_of_wire_form(w: Seq<u8>) {
        assert(Self::of_wire(w).wire() =~= w);
    }

    proof fn lemma_flat_ok(w: Seq<u8>) {
    }

    fn wire_width_exec() -> usize {
        0
    }

    fn flat_exec() -> bool {
        false
    }

    fn encode_elem(&self, out: &mut Vec<u8>) {
        proof {
            assert(old(out)@ =~= old(out)@ + self.wire());
        }
    }

    fn decode_elem(bytes: &[u8], pos: usize) -> Result<Blank, Error> {
        Ok(Blank)
    }

    fn duplicate(&self) -> Blank {
        Blank
    }

    fn write_run(data: &[Blank], out: &mut Vec<u8>) -> bool {
        false
    }

    fn read_run(bytes: &[u8], pos: usize, count: usize) -> Option<Vec<Blank>> {
        None
    }
}

} // verus!
