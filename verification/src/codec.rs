//! The length-prefixed sequence codec, generic over the prefix width.
//!
//! A sequence of `n` elements is laid out as the little-endian bytes of
//! `n` in a fixed-width prefix, followed by every element's wire bytes
//! in order. The width is 1 (counts up to 255) or 2 (counts up to
//! 65 535). Encoding fails before producing any byte when the count does
//! not fit the prefix; decoding fails when the input ends early or an
//! element's bytes are invalid, and never returns a partial sequence.

use vstd::prelude::*;

use crate::element::Element;
use crate::element::lemma_chunks_to_wire;
use crate::element::lemma_wire_of_seq_chunk;
use crate::element::lemma_wire_of_seq_len;
use crate::element::lemma_wire_of_seq_push;
use crate::element::wire_of_seq;
use crate::error::Error;
use crate::hint::cautious_hint;
use vstd::arithmetic::div_mod::lemma_fundamental_div_mod;

verus! {

/// Largest element count a prefix of width `w` can represent.
pub open spec fn prefix_max(w: nat) -> nat {
    if w == 1 {
        255
    } else {
        65535
    }
}

/// The little-endian bytes of count `n` in a prefix of width `w`.
pub open spec fn prefix_bytes(n: nat, w: nat) -> Seq<u8>
    recommends
        w == 1 || w == 2,
        n <= prefix_max(w),
{
    if w == 1 {
        seq![n as u8]
    } else {
        seq![(n % 256) as u8, (n / 256) as u8]
    }
}

/// The count held in the first `w` bytes of `b`.
pub open spec fn prefix_value(b: Seq<u8>, w: nat) -> nat
    recommends
        w == 1 || w == 2,
        b.len() >= w,
{
    if w == 1 {
        b[0] as nat
    } else {
        (b[0] + 256 * b[1]) as nat
    }
}

/// The full wire image of a sequence under prefix width `w`.
pub open spec fn seq_wire<T: Element>(w: nat, s: Seq<T>) -> Seq<u8>
    recommends
        w == 1 || w == 2,
        s.len() <= prefix_max(w),
{
    prefix_bytes(s.len(), w) + wire_of_seq(s)
}

/// What `n` elements mean when read from the front of `b`: the first
/// invalid chunk fails the whole read, otherwise each chunk decodes in
/// order.
pub open spec fn parse_elements<T: Element>(b: Seq<u8>, n: nat) -> Result<Seq<T>, Error>
    recommends
        b.len() >= n * T::wire_width(),
    decreases n,
{
    if n == 0 {
        Ok(Seq::<T>::empty())
    } else {
        let chunk = b.subrange(0, T::wire_width() as int);
        if !T::wire_ok(chunk) {
            Err(Error::ElementError)
        } else {
            match parse_elements::<T>(b.skip(T::wire_width() as int), (n - 1) as nat) {
                Ok(rest) => Ok(seq![T::of_wire(chunk)] + rest),
                Err(e) => Err(e),
            }
        }
    }
}

/// What a whole prefixed sequence means when read from the front of
/// `b`: the count prefix, then exactly that many elements; the input
/// must hold all of their bytes before any element is interpreted.
pub open spec fn parse_seq<T: Element>(w: nat, b: Seq<u8>) -> Result<Seq<T>, Error>
    recommends
        w == 1 || w == 2,
{
    if b.len() < w {
        Err(Error::Truncated)
    } else {
        let n = prefix_value(b, w);
        if b.len() - w < n * T::wire_width() {
            Err(Error::Truncated)
        } else {
            parse_elements::<T>(b.skip(w as int), n)
        }
    }
}

/// When the first `n` chunks of `b` are all valid encodings, reading
/// `n` elements succeeds and yields each chunk's value in order.
pub proof fn lemma_parse_elements_ok<T: Element>(b: Seq<u8>, n: nat)
    requires
        b.len() >= n * T::wire_width(),
        forall|i: int|
            0 <= i < n ==> T::wire_ok(
                #[trigger] b.subrange(i * T::wire_width(), (i + 1) * T::wire_width()),
            ),
    ensures
        parse_elements::<T>(b, n) == Ok::<Seq<T>, Error>(
            Seq::new(n, |i: int| T::of_wire(b.subrange(i * T::wire_width(), (i + 1) * T::wire_width()))),
        ),
    decreases n,
{
    let w = T::wire_width() as int;
    let want = Seq::new(n, |i: int| T::of_wire(b.subrange(i * w, (i + 1) * w)));
    if n == 0 {
        assert(want =~= Seq::<T>::empty());
    } else {
        assert(n * w == w + (n - 1) * w) by (nonlinear_arith);
        assert(0 * w == 0) by (nonlinear_arith);
        assert((0 + 1) * w == w) by (nonlinear_arith);
        let chunk = b.subrange(0, w);
        assert(chunk == b.subrange(0 * w, (0 + 1) * w));
        assert(T::wire_ok(chunk));
        let tail = b.skip(w);
        assert(tail.len() >= (n - 1) * w);
        assert forall|i: int| 0 <= i < n - 1 implies T::wire_ok(
            #[trigger] tail.subrange(i * w, (i + 1) * w),
        ) by {
            let j = i + 1;
            assert(j * w == i * w + w) by (nonlinear_arith)
                requires
                    j == i + 1,
            ;
            assert((j + 1) * w == i * w + 2 * w) by (nonlinear_arith)
                requires
                    j == i + 1,
            ;
            assert((i + 1) * w == i * w + w) by (nonlinear_arith);
            assert((j + 1) * w <= n * w) by (nonlinear_arith)
                requires
                    j + 1 <= n,
                    w >= 0,
            ;
            assert(T::wire_ok(b.subrange(j * w, (j + 1) * w)));
            assert(tail.subrange(i * w, (i + 1) * w) =~= b.subrange(j * w, (j + 1) * w));
        }
        lemma_parse_elements_ok::<T>(tail, (n - 1) as nat);
        let rest = Seq::new((n - 1) as nat, |i: int| T::of_wire(tail.subrange(i * w, (i + 1) * w)));
        assert forall|k: int| 1 <= k < n implies rest[k - 1] == want[k] by {
            assert((k - 1) * w == k * w - w) by (nonlinear_arith);
            assert(((k - 1) + 1) * w == k * w) by (nonlinear_arith);
            assert((k + 1) * w == k * w + w) by (nonlinear_arith);
            assert((k + 1) * w <= n * w) by (nonlinear_arith)
                requires
                    k + 1 <= n,
                    w >= 0,
            ;
            assert(tail.subrange((k - 1) * w, ((k - 1) + 1) * w) =~= b.subrange(
                k * w,
                (k + 1) * w,
            ));
            assert(rest[k - 1] == T::of_wire(tail.subrange((k - 1) * w, ((k - 1) + 1) * w)));
            assert(want[k] == T::of_wire(b.subrange(k * w, (k + 1) * w)));
        }
        assert(want =~= seq![T::of_wire(chunk)] + rest);
    }
}

/// When some chunk among the first `n` of `b` is invalid, reading `n`
/// elements fails as an element error.
pub proof fn lemma_parse_elements_err<T: Element>(b: Seq<u8>, n: nat)
    requires
        b.len() >= n * T::wire_width(),
        exists|i: int|
            0 <= i < n && !T::wire_ok(
                #[trigger] b.subrange(i * T::wire_width(), (i + 1) * T::wire_width()),
            ),
    ensures
        parse_elements::<T>(b, n) == Err::<Seq<T>, Error>(Error::ElementError),
    decreases n,
{
    let w = T::wire_width() as int;
    let bad = choose|i: int|
        0 <= i < n && !T::wire_ok(#[trigger] b.subrange(i * w, (i + 1) * w));
    assert(n * w == w + (n - 1) * w) by (nonlinear_arith);
    assert(0 * w == 0) by (nonlinear_arith);
    assert((0 + 1) * w == w) by (nonlinear_arith);
    let chunk = b.subrange(0, w);
    if bad == 0 {
        assert(chunk == b.subrange(0 * w, (0 + 1) * w));
        assert(!T::wire_ok(chunk));
    } else {
        if !T::wire_ok(chunk) {
        } else {
            let tail = b.skip(w);
            assert((bad - 1) * w == bad * w - w) by (nonlinear_arith);
            assert(((bad - 1) + 1) * w == bad * w) by (nonlinear_arith);
            assert((bad + 1) * w == bad * w + w) by (nonlinear_arith);
            assert((bad + 1) * w <= n * w) by (nonlinear_arith)
                requires
                    bad + 1 <= n,
                    w >= 0,
            ;
            assert(tail.subrange((bad - 1) * w, ((bad - 1) + 1) * w) =~= b.subrange(
                bad * w,
                (bad + 1) * w,
            ));
            assert(!T::wire_ok(tail.subrange((bad - 1) * w, ((bad - 1) + 1) * w)));
            assert(tail.len() >= (n - 1) * w);
            lemma_parse_elements_err::<T>(tail, (n - 1) as nat);
        }
    }
}

/// A partial read continued: the elements already read, followed by
/// whatever the rest of the read yields; an error wins outright.
pub open spec fn parse_cont<T: Element>(done: Seq<T>, rem: Result<Seq<T>, Error>) -> Result<
    Seq<T>,
    Error,
> {
    match rem {
        Ok(rest) => Ok(done + rest),
        Err(e) => Err(e),
    }
}

/// Round trip: a sequence's wire image, with anything at all behind it,
/// reads back as exactly that sequence.
pub proof fn lemma_round_trip<T: Element>(w: nat, s: Seq<T>, extra: Seq<u8>)
    requires
        w == 1 || w == 2,
        s.len() <= prefix_max(w),
    ensures
        parse_seq::<T>(w, seq_wire(w, s) + extra) == Ok::<Seq<T>, Error>(s),
{
    let ww = T::wire_width() as int;
    let n = s.len() as int;
    let b = seq_wire(w, s) + extra;
    let pb = prefix_bytes(s.len(), w);
    lemma_wire_of_seq_len::<T>(s);
    if w == 1 {
        assert(pb =~= seq![s.len() as u8]);
        assert(b[0] == s.len() as u8);
        assert(prefix_value(b, w) == s.len());
    } else {
        assert(pb =~= seq![(s.len() % 256) as u8, (s.len() / 256) as u8]);
        assert(b[0] == (s.len() % 256) as u8);
        assert(b[1] == (s.len() / 256) as u8);
        lemma_fundamental_div_mod(s.len() as int, 256);
        assert(prefix_value(b, w) == s.len());
    }
    let body = b.skip(w as int);
    assert(body =~= wire_of_seq(s) + extra);
    assert forall|i: int| 0 <= i < n implies T::wire_ok(
        #[trigger] body.subrange(i * T::wire_width(), (i + 1) * T::wire_width()),
    ) && body.subrange(i * T::wire_width(), (i + 1) * T::wire_width()) == s[i].wire() by {
        lemma_wire_of_seq_chunk::<T>(s, i);
        T::lemma_wire_form(s[i]);
        assert((i + 1) * ww == i * ww + ww) by (nonlinear_arith);
        assert((i + 1) * ww <= n * ww) by (nonlinear_arith)
            requires
                i + 1 <= n,
                ww >= 0,
        ;
        assert(body.subrange(i * ww, (i + 1) * ww) =~= wire_of_seq(s).subrange(
            i * ww,
            (i + 1) * ww,
        ));
    }
    lemma_parse_elements_ok::<T>(body, s.len());
    let got = Seq::new(
        s.len(),
        |i: int| T::of_wire(body.subrange(i * T::wire_width(), (i + 1) * T::wire_width())),
    );
    assert forall|i: int| 0 <= i < n implies got[i] == s[i] by {
        T::lemma_wire_form(s[i]);
    }
    assert(got =~= s);
}

/// An input that ends before the prefix, or before the bytes the
/// claimed count calls for, reads as truncated.
pub proof fn lemma_parse_truncated<T: Element>(w: nat, b: Seq<u8>)
    requires
        w == 1 || w == 2,
        b.len() < w || (b.len() - w) < prefix_value(b, w) * T::wire_width(),
    ensures
        parse_seq::<T>(w, b) == Err::<Seq<T>, Error>(Error::Truncated),
{
}

/// The empty sequence's wire image is the zero-valued prefix and
/// nothing else, and those bytes alone read back as the empty sequence.
pub proof fn lemma_empty_wire<T: Element>(w: nat)
    requires
        w == 1 || w == 2,
    ensures
        seq_wire::<T>(w, Seq::<T>::empty()) == if w == 1 {
            seq![0u8]
        } else {
            seq![0u8, 0u8]
        },
        parse_seq::<T>(w, seq_wire::<T>(w, Seq::<T>::empty())) == Ok::<Seq<T>, Error>(
            Seq::<T>::empty(),
        ),
{
    if w == 1 {
        assert(seq_wire::<T>(w, Seq::<T>::empty()) =~= seq![0u8]);
    } else {
        assert(seq_wire::<T>(w, Seq::<T>::empty()) =~= seq![0u8, 0u8]);
    }
    lemma_round_trip::<T>(w, Seq::<T>::empty(), Seq::<u8>::empty());
    assert(seq_wire::<T>(w, Seq::<T>::empty()) + Seq::<u8>::empty() =~= seq_wire::<T>(
        w,
        Seq::<T>::empty(),
    ));
}

/// Encode a sequence under prefix width `w` (1 or 2): the count prefix
/// in little-endian, then every element's wire bytes in order, with the
/// bulk route taken when the element type offers it. A sequence longer
/// than the prefix can count fails, before any byte is produced.
pub fn encode_seq<T: Element>(w: usize, data: &Vec<T>) -> (r: Result<Vec<u8>, Error>)
    requires
        w == 1 || w == 2,
    ensures
        data@.len() <= prefix_max(w as nat) ==> (r matches Ok(b) && b@ == seq_wire(
            w as nat,
            data@,
        )),
        data@.len() > prefix_max(w as nat) ==> r == Err::<Vec<u8>, Error>(Error::CountOverflow),
{
    let n = data.len();
    let mut out: Vec<u8> = Vec::new();
    if w == 1 {
        if n > 255 {
            return Err(Error::CountOverflow);
        }
        out.push(n as u8);
    } else {
        if n > 65535 {
            return Err(Error::CountOverflow);
        }
        out.push((n % 256) as u8);
        out.push((n / 256) as u8);
    }
    proof {
        assert(out@ =~= prefix_bytes(n as nat, w as nat));
    }
    let ghost pre = out@;
    let used = T::write_run(data.as_slice(), &mut out);
    if used {
        proof {
            let ww = T::wire_width() as int;
            let tail = out@.subrange(pre.len() as int, out@.len() as int);
            assert forall|i: int| 0 <= i < data@.len() implies #[trigger] data@[i].wire()
                == tail.subrange(i * T::wire_width(), (i + 1) * T::wire_width()) by {
                assert(data@[i].wire() == out@.subrange(
                    pre.len() + i * T::wire_width(),
                    pre.len() + (i + 1) * T::wire_width(),
                ));
                assert((i + 1) * ww == i * ww + ww) by (nonlinear_arith);
                assert((i + 1) * ww <= data@.len() * ww) by (nonlinear_arith)
                    requires
                        i + 1 <= data@.len(),
                        ww >= 0,
                ;
                assert(tail.subrange(i * ww, (i + 1) * ww) =~= out@.subrange(
                    pre.len() + i * ww,
                    pre.len() + (i + 1) * ww,
                ));
            }
            lemma_chunks_to_wire::<T>(data@, tail);
            assert(out@ =~= pre + tail);
        }
        return Ok(out);
    }
    let mut i: usize = 0;
    while i < n
        invariant
            i <= n,
            n == data@.len(),
            out@ == prefix_bytes(n as nat, w as nat) + wire_of_seq(data@.take(i as int)),
        decreases n - i,
    {
        let ghost before = out@;
        data[i].encode_elem(&mut out);
        proof {
            lemma_wire_of_seq_push(data@.take(i as int), data@[i as int]);
            assert(data@.take(i as int).push(data@[i as int]) =~= data@.take(i as int + 1));
            assert(out@ =~= prefix_bytes(n as nat, w as nat) + wire_of_seq(
                data@.take(i as int + 1),
            ));
        }
        i += 1;
    }
    proof {
        assert(data@.take(n as int) =~= data@);
    }
    Ok(out)
}

/// Decode one prefixed sequence from the front of `bytes`: the count
/// prefix, then exactly that many elements. All of the claimed bytes
/// must be present before any element is interpreted; on success the
/// sequence and the number of bytes consumed come back, on failure no
/// partial sequence does. The bulk route is tried first, then the
/// zero-width route (one validating element decode, duplicated), then
/// the element loop with its budget-capped reservation.
pub fn decode_seq<T: Element>(w: usize, bytes: &[u8]) -> (r: Result<(Vec<T>, usize), Error>)
    requires
        w == 1 || w == 2,
    ensures
        ({
            let p = parse_seq::<T>(w as nat, bytes@);
            match r {
                Ok(pair) => {
                    &&& p == Ok::<Seq<T>, Error>(pair.0@)
                    &&& pair.1 == w + pair.0@.len() * T::wire_width()
                    &&& pair.1 <= bytes@.len()
                },
                Err(e) => p == Err::<Seq<T>, Error>(e),
            }
        }),
{
    let len = bytes.len();
    if len < w {
        return Err(Error::Truncated);
    }
    let n: usize = if w == 1 {
        bytes[0] as usize
    } else {
        (bytes[0] as usize) + 256 * (bytes[1] as usize)
    };
    proof {
        assert(n == prefix_value(bytes@, w as nat));
    }
    let width = T::wire_width_exec();
    let total = match n.checked_mul(width) {
        Some(t) => t,
        None => {
            return Err(Error::Truncated);
        }
    };
    if total > len - w {
        return Err(Error::Truncated);
    }
    let ghost body = bytes@.skip(w as int);
    let ghost ww = T::wire_width() as int;
    if n == 0 {
        proof {
            assert(0 * ww == 0) by (nonlinear_arith);
        }
        return Ok((Vec::new(), w));
    }
    match T::read_run(bytes, w, n) {
        Some(v) => {
            proof {
                assert forall|i: int| 0 <= i < n implies T::wire_ok(
                    #[trigger] body.subrange(i * T::wire_width(), (i + 1) * T::wire_width()),
                ) && v@[i] == T::of_wire(
                    body.subrange(i * T::wire_width(), (i + 1) * T::wire_width()),
                ) by {
                    assert((i + 1) * ww == i * ww + ww) by (nonlinear_arith);
                    assert((i + 1) * ww <= n * ww) by (nonlinear_arith)
                        requires
                            i + 1 <= n,
                            ww >= 0,
                    ;
                    assert(v@[i] == T::of_wire(
                        bytes@.subrange(
                            w + i * T::wire_width(),
                            w + (i + 1) * T::wire_width(),
                        ),
                    ));
                    assert(body.subrange(i * ww, (i + 1) * ww) =~= bytes@.subrange(
                        w + i * ww,
                        w + (i + 1) * ww,
                    ));
                    T::lemma_flat_ok(body.subrange(i * ww, (i + 1) * ww));
                }
                lemma_parse_elements_ok::<T>(body, n as nat);
                let want = Seq::new(
                    n as nat,
                    |i: int| T::of_wire(
                        body.subrange(i * T::wire_width(), (i + 1) * T::wire_width()),
                    ),
                );
                assert(v@ =~= want);
            }
            return Ok((v, w + total));
        },
        None => {},
    }
    if width == 0 {
        let first = match T::decode_elem(bytes, w) {
            Ok(v) => v,
            Err(e) => {
                proof {
                    assert(0 * ww == 0) by (nonlinear_arith);
                    assert((0 + 1) * ww == ww) by (nonlinear_arith);
                    assert(body.subrange(0 * ww, (0 + 1) * ww) =~= bytes@.subrange(
                        w as int,
                        w + T::wire_width(),
                    ));
                    assert(!T::wire_ok(body.subrange(0 * ww, (0 + 1) * ww)));
                    lemma_parse_elements_err::<T>(body, n as nat);
                }
                return Err(e);
            },
        };
        let mut out: Vec<T> = Vec::new();
        let mut i: usize = 0;
        while i < n
            invariant
                i <= n,
                out@.len() == i,
                forall|j: int| 0 <= j < i ==> out@[j] == first,
            decreases n - i,
        {
            out.push(first.duplicate());
            i += 1;
        }
        proof {
            assert forall|i: int| 0 <= i < n implies T::wire_ok(
                #[trigger] body.subrange(i * T::wire_width(), (i + 1) * T::wire_width()),
            ) && T::of_wire(body.subrange(i * T::wire_width(), (i + 1) * T::wire_width()))
                == first by {
                assert(i * ww == 0) by (nonlinear_arith)
                    requires
                        ww == 0,
                ;
                assert((i + 1) * ww == 0) by (nonlinear_arith)
                    requires
                        ww == 0,
                ;
                assert(body.subrange(i * ww, (i + 1) * ww) =~= bytes@.subrange(
                    w as int,
                    w + T::wire_width(),
                ));
            }
            lemma_parse_elements_ok::<T>(body, n as nat);
            let want = Seq::new(
                n as nat,
                |i: int| T::of_wire(
                    body.subrange(i * T::wire_width(), (i + 1) * T::wire_width()),
                ),
            );
            assert(out@ =~= want);
            assert(n * ww == 0) by (nonlinear_arith)
                requires
                    ww == 0,
            ;
        }
        return Ok((out, w));
    }
    let mut out: Vec<T> = Vec::with_capacity(cautious_hint(n, width));
    let mut i: usize = 0;
    proof {
        assert(body.skip(0) =~= body);
        assert(0 * ww == 0) by (nonlinear_arith);
        let r0 = parse_elements::<T>(body, n as nat);
        if r0 is Ok {
            assert(Seq::<T>::empty() + r0->Ok_0 =~= r0->Ok_0);
        }
    }
    while i < n
        invariant
            i <= n,
            out@.len() == i,
            w == 1 || w == 2,
            n == prefix_value(bytes@, w as nat),
            width == T::wire_width(),
            total == n * T::wire_width(),
            w + total <= bytes@.len(),
            len == bytes@.len(),
            body == bytes@.skip(w as int),
            ww == T::wire_width() as int,
            parse_elements::<T>(body, n as nat) == parse_cont::<T>(
                out@,
                parse_elements::<T>(body.skip((i as int) * ww), (n - i) as nat),
            ),
        decreases n - i,
    {
        proof {
            assert((i as int) * ww <= n * ww) by (nonlinear_arith)
                requires
                    i <= n,
                    ww >= 0,
            ;
            assert((i as int + 1) * ww == (i as int) * ww + ww) by (nonlinear_arith);
            assert((i as int + 1) * ww <= n * ww) by (nonlinear_arith)
                requires
                    i + 1 <= n,
                    ww >= 0,
            ;
        }
        let pos = w + i * width;
        let ghost rem = body.skip((i as int) * ww);
        proof {
            assert((n - i) as int * ww == n * ww - (i as int) * ww) by (nonlinear_arith);
            assert(rem.subrange(0, ww) =~= bytes@.subrange(pos as int, pos + T::wire_width()));
        }
        let v = match T::decode_elem(bytes, pos) {
            Ok(v) => v,
            Err(e) => {
                proof {
                    assert(parse_elements::<T>(rem, (n - i) as nat) == Err::<Seq<T>, Error>(
                        Error::ElementError,
                    ));
                }
                return Err(e);
            },
        };
        let ghost out_before = out@;
        out.push(v);
        proof {
            let rem2 = body.skip((i as int + 1) * ww);
            assert(rem.skip(ww) =~= rem2);
            let sub = parse_elements::<T>(rem2, (n - i - 1) as nat);
            assert(sub == parse_elements::<T>(rem.skip(ww), ((n - i) as nat - 1) as nat));
            if sub is Ok {
                assert(parse_elements::<T>(rem, (n - i) as nat) == Ok::<Seq<T>, Error>(
                    seq![v] + sub->Ok_0,
                ));
                assert(out_before.push(v) + sub->Ok_0 =~= out_before + (seq![v] + sub->Ok_0));
            } else {
                assert(parse_elements::<T>(rem, (n - i) as nat) == sub);
            }
        }
        i += 1;
    }
    proof {
        assert(parse_elements::<T>(body.skip((n as int) * ww), 0) == Ok::<Seq<T>, Error>(
            Seq::<T>::empty(),
        ));
        assert(out@ + Seq::<T>::empty() =~= out@);
    }
    Ok((out, w + total))
}

} // verus!
