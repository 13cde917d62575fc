//! Bounded speculative reservation for decode.
//!
//! The claimed element count in a prefix is attacker-controlled input,
//! read before any element byte has been validated. Reserving that many
//! elements blindly would let a tiny input force a huge allocation
//! attempt, so the initial reservation is capped by a fixed byte budget;
//! the container then grows as elements are actually read.

use vstd::prelude::*;

verus! {

/// Byte budget of the speculative reservation: a claimed count is never
/// trusted for more than this many bytes up front.
pub const PREALLOC_BYTE_BUDGET: usize = 4096;

/// The capacity to reserve for a claimed count `n` of elements of
/// `el_size` bytes each: the smaller of `n` and the counts the byte
/// budget pays for, but at least one element.
pub open spec fn cautious(n: nat, el_size: nat) -> nat {
    let cap = (PREALLOC_BYTE_BUDGET as nat) / (if el_size == 0 {
        1nat
    } else {
        el_size
    });
    let m = if n <= cap {
        n
    } else {
        cap
    };
    if m == 0 {
        1nat
    } else {
        m
    }
}

/// Reservation for `n` claimed elements of `el_size` bytes each. Apart
/// from the floor of a single element, the reservation never exceeds
/// the claimed count nor the byte budget.
pub fn cautious_hint(n: usize, el_size: usize) -> (h: usize)
    ensures
        h == cautious(n as nat, el_size as nat),
        h == 1 || h * el_size <= PREALLOC_BYTE_BUDGET,
        h == 1 || h <= n,
{
    let divisor: usize = if el_size == 0 {
        1
    } else {
        el_size
    };
    let cap: usize = PREALLOC_BYTE_BUDGET / divisor;
    let m: usize = if n <= cap {
        n
    } else {
        cap
    };
    proof {
        vstd::arithmetic::div_mod::lemma_fundamental_div_mod(
            PREALLOC_BYTE_BUDGET as int,
            divisor as int,
        );
        assert(m * el_size <= cap * el_size) by (nonlinear_arith)
            requires
                m <= cap,
                el_size >= 0,
        ;
        assert(cap * el_size <= cap * divisor) by (nonlinear_arith)
            requires
                cap >= 0,
                el_size <= divisor,
        ;
        assert(cap * divisor == divisor * cap) by (nonlinear_arith);
    }
    if m == 0 {
        1
    } else {
        m
    }
}

} // verus!
