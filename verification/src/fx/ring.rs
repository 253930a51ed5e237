//! Reading a ring buffer at a fractional distance behind its write position.

use crate::alu::{Alu, Op, Sem};
use crate::word;
use crate::word::Bits;
use vstd::prelude::*;

verus! {

/// The cell of a ring of `n` that a whole position falls on, however far
/// before or behind the ring it lies.
pub open spec fn wrapped(x: Bits, n: int) -> int {
    word::saturated(word::trunc_of(x), isize::MIN as int, isize::MAX as int) % n
}

/// The ring read `delay` cells behind cell `w`, between two neighbours.
pub open spec fn tapped<const N: usize>(m: Sem, ring: [Bits; N], w: int, delay: Bits) -> Bits {
    let at = m.sub(word::from_nat(w as nat), delay);
    let whole = word::floor_of(at);
    let i = wrapped(whole, N as int);
    m.lerp(ring[i], ring[after(i, N as int)], m.sub(at, whole))
}

/// The cell that follows cell `i`.
pub open spec fn after(i: int, n: int) -> int {
    if i + 1 < n {
        i + 1
    } else {
        0
    }
}

pub fn wrap(x: Bits, n: usize) -> (r: usize)
    requires
        n > 0,
    ensures
        r == wrapped(x, n as int),
        r < n,
{
    let i: isize = word::to_isize(x);
    if i >= 0 {
        (i as usize) % n
    } else {
        let back: usize = (-(i + 1)) as usize % n;
        proof {
            let j = -(i as int + 1);
            let d = n as int;
            vstd::arithmetic::div_mod::lemma_fundamental_div_mod(j, d);
            let q = j / d;
            assert(i as int == d * (-q - 1) + (d - 1 - back)) by (nonlinear_arith)
                requires
                    -(i as int + 1) == d * q + back,
            ;
            assert((-q - 1) * d == d * (-q - 1)) by (nonlinear_arith);
            vstd::arithmetic::div_mod::lemma_fundamental_div_mod_converse(
                i as int,
                d,
                -q - 1,
                d - 1 - back,
            );
        }
        n - 1 - back
    }
}

pub fn tap<F: Fn(Op, Bits, Bits) -> Bits, const N: usize>(
    alu: &Alu<F>,
    ring: &[Bits; N],
    w: usize,
    delay: Bits,
) -> (r: Bits)
    requires
        alu.ready(),
        w < N,
    ensures
        forall|m: Sem| #[trigger] alu.computes(m) ==> r == tapped(m, *ring, w as int, delay),
{
    let at = alu.sub(word::of_u64(w as u64), delay);
    let whole = word::floor(at);
    let part = alu.sub(at, whole);
    let i: usize = wrap(whole, N);
    let j: usize = if i + 1 < N {
        i + 1
    } else {
        0
    };
    alu.lerp(ring[i], ring[j], part)
}

} // verus!
