//! The wavetable: frames of one cycle each, how they are read between frames
//! and between samples, and the frames that the engine starts with.

use crate::alu::{Alu, Op, Sem};
use crate::consts::{
    F0, F0_3, F0_4, F0_45, F0_5, F0_55, F0_7, F0_8, F0_9, F1, F12, F13_3, F2, F2048, F2_76, F3, F5,
    F5_4, F8, F8_93, TAU,
};
use crate::word;
use crate::word::Bits;
use vstd::prelude::*;

verus! {

/// Samples in a frame.
pub const FRAME: usize = 2048;

/// Frames that the table has room for.
pub const MAX_FRAMES: usize = 64;

/// Frames that the engine starts with.
pub const FACTORY_FRAMES: usize = 6;

/// The sample of a frame that a position falls on, round the cycle.
pub open spec fn cell_of(x: Bits) -> int {
    word::saturated(word::trunc_of(x), 0, usize::MAX as int) % 2048
}

/// Frame `fi` read at position `x`, between two neighbouring samples.
pub open spec fn frame_value(m: Sem, t: [Bits; 131072], fi: int, x: Bits) -> Bits {
    let xi = cell_of(x);
    let x2 = (xi + 1) % 2048;
    m.lerp(t[fi * 2048 + xi], t[fi * 2048 + x2], m.sub(x, word::floor_of(x)))
}

/// The table read at phase `ph` of the cycle, the part `ff` of the way from
/// frame `fi` to the next.
pub open spec fn table_value(m: Sem, t: [Bits; 131072], fi: int, ff: Bits, ph: Bits) -> Bits {
    let x = m.mul(ph, F2048);
    m.lerp(frame_value(m, t, fi, x), frame_value(m, t, fi + 1, x), ff)
}

pub fn read_table<F: Fn(Op, Bits, Bits) -> Bits>(
    alu: &Alu<F>,
    t: &[Bits; 131072],
    fi: usize,
    ff: Bits,
    ph: Bits,
) -> (r: Bits)
    requires
        alu.ready(),
        fi + 1 < MAX_FRAMES,
    ensures
        forall|m: Sem| #[trigger] alu.computes(m) ==> r == table_value(m, *t, fi as int, ff, ph),
{
    let x = alu.mul(ph, F2048);
    let xi: usize = word::to_usize(x) % FRAME;
    let xf = alu.sub(x, word::floor(x));
    let x2: usize = (xi + 1) % FRAME;
    let a = alu.lerp(t[fi * FRAME + xi], t[fi * FRAME + x2], xf);
    let b = alu.lerp(t[(fi + 1) * FRAME + xi], t[(fi + 1) * FRAME + x2], xf);
    alu.lerp(a, b, ff)
}

// ---------------------------------------------------------------------------
// Factory frames
// ---------------------------------------------------------------------------

/// Sum of the first `k` sines at 1, 1 + `step`, 1 + 2 `step`, .. times the
/// cycle, each divided by its number.
pub open spec fn harmonics(m: Sem, turn: Bits, step: nat, k: nat) -> Bits
    decreases k,
{
    if k == 0 {
        F0
    } else {
        let n = word::from_nat((1 + (k - 1) * step) as nat);
        m.add(
            harmonics(m, turn, step, (k - 1) as nat),
            m.div(m.sin(m.mul(turn, n)), n),
        )
    }
}

/// Sum of the first `k` sines, each weighted by a sine of its own number: a
/// comb.
pub open spec fn comb(m: Sem, turn: Bits, k: nat) -> Bits
    decreases k,
{
    if k == 0 {
        F0
    } else {
        let n = word::from_nat(k);
        m.add(
            comb(m, turn, (k - 1) as nat),
            m.div(m.mul(m.sin(m.mul(turn, n)), m.sin(m.mul(n, F0_9))), n),
        )
    }
}

/// Ratios of the inharmonic frame.
pub const BELL: [Bits; 5] = [F1, F2_76, F5_4, F8_93, F13_3];

/// Sum of the first `k` inharmonic partials.
pub open spec fn bell(m: Sem, turn: Bits, k: nat) -> Bits
    decreases k,
{
    if k == 0 {
        F0
    } else {
        let i = (k - 1) as nat;
        m.add(
            bell(m, turn, i),
            m.div(m.sin(m.mul(turn, BELL[i as int])), m.add(word::from_nat(i), F1)),
        )
    }
}

/// Ratios and levels of the vowel frame's carriers.
pub const VOWEL_RATIO: [Bits; 4] = [F3, F5, F8, F12];

pub const VOWEL_LEVEL: [Bits; 4] = [F1, F0_7, F0_45, F0_3];

/// Sum of the first `k` carriers, all bent by one sine of the cycle.
pub open spec fn vowel(m: Sem, turn: Bits, k: nat) -> Bits
    decreases k,
{
    if k == 0 {
        F0
    } else {
        let i = k - 1;
        m.add(
            vowel(m, turn, i as nat),
            m.mul(
                VOWEL_LEVEL[i],
                m.sin(m.add(m.mul(turn, VOWEL_RATIO[i]), m.mul(m.sin(turn), F2))),
            ),
        )
    }
}

/// Sample `i` of factory frame `f`: sine, saw, square, comb, bell, vowel.
pub open spec fn factory_sample(m: Sem, f: int, i: int) -> Bits {
    let ph = m.div(word::from_nat(i as nat), F2048);
    let turn = m.mul(TAU, ph);
    if f == 0 {
        m.sin(turn)
    } else if f == 1 {
        m.mul(harmonics(m, turn, 1, 32), F0_55)
    } else if f == 2 {
        m.mul(harmonics(m, turn, 2, 16), F0_7)
    } else if f == 3 {
        m.mul(comb(m, turn, 24), F0_8)
    } else if f == 4 {
        m.mul(bell(m, turn, 5), F0_5)
    } else {
        m.mul(vowel(m, turn, 4), F0_4)
    }
}

fn sum_harmonics<F: Fn(Op, Bits, Bits) -> Bits>(
    alu: &Alu<F>,
    turn: Bits,
    step: u64,
    terms: u64,
) -> (r: Bits)
    requires
        alu.ready(),
        step <= 2,
        terms <= 32,
    ensures
        forall|m: Sem| #[trigger]
            alu.computes(m) ==> r == harmonics(m, turn, step as nat, terms as nat),
{
    let mut a: Bits = F0;
    let mut k: u64 = 0;
    let mut number: u64 = 1;
    while k < terms
        invariant
            alu.ready(),
            step <= 2,
            k <= terms <= 32,
            number == 1 + k * step,
            number <= 1 + 2 * k,
            forall|m: Sem| #[trigger]
                alu.computes(m) ==> a == harmonics(m, turn, step as nat, k as nat),
        decreases terms - k,
    {
        let n = word::of_u64(number);
        let bent = alu.mul(turn, n);
        let s = alu.sin(bent);
        let part = alu.div(s, n);
        a = alu.add(a, part);
        proof {
            assert((k + 1) * step == k * step + step) by (nonlinear_arith);
        }
        k = k + 1;
        number = number + step;
    }
    a
}

fn sum_comb<F: Fn(Op, Bits, Bits) -> Bits>(alu: &Alu<F>, turn: Bits) -> (r: Bits)
    requires
        alu.ready(),
    ensures
        forall|m: Sem| #[trigger] alu.computes(m) ==> r == comb(m, turn, 24),
{
    let mut a: Bits = F0;
    let mut k: u64 = 0;
    while k < 24
        invariant
            alu.ready(),
            k <= 24,
            forall|m: Sem| #[trigger] alu.computes(m) ==> a == comb(m, turn, k as nat),
        decreases 24 - k,
    {
        k = k + 1;
        let n = word::of_u64(k);
        let bent = alu.mul(turn, n);
        let s = alu.sin(bent);
        let own = alu.mul(n, F0_9);
        let w = alu.sin(own);
        let sw = alu.mul(s, w);
        let part = alu.div(sw, n);
        a = alu.add(a, part);
    }
    a
}

fn sum_bell<F: Fn(Op, Bits, Bits) -> Bits>(alu: &Alu<F>, turn: Bits) -> (r: Bits)
    requires
        alu.ready(),
    ensures
        forall|m: Sem| #[trigger] alu.computes(m) ==> r == bell(m, turn, 5),
{
    let mut a: Bits = F0;
    let mut k: usize = 0;
    while k < 5
        invariant
            alu.ready(),
            k <= 5,
            forall|m: Sem| #[trigger] alu.computes(m) ==> a == bell(m, turn, k as nat),
        decreases 5 - k,
    {
        let bent = alu.mul(turn, BELL[k]);
        let s = alu.sin(bent);
        let n = alu.add(word::of_u64(k as u64), F1);
        let part = alu.div(s, n);
        a = alu.add(a, part);
        k = k + 1;
    }
    a
}

fn sum_vowel<F: Fn(Op, Bits, Bits) -> Bits>(alu: &Alu<F>, turn: Bits) -> (r: Bits)
    requires
        alu.ready(),
    ensures
        forall|m: Sem| #[trigger] alu.computes(m) ==> r == vowel(m, turn, 4),
{
    let mut a: Bits = F0;
    let mut k: usize = 0;
    while k < 4
        invariant
            alu.ready(),
            k <= 4,
            forall|m: Sem| #[trigger] alu.computes(m) ==> a == vowel(m, turn, k as nat),
        decreases 4 - k,
    {
        let carrier = alu.mul(turn, VOWEL_RATIO[k]);
        let s = alu.sin(turn);
        let bend = alu.mul(s, F2);
        let bent = alu.add(carrier, bend);
        let w = alu.sin(bent);
        let part = alu.mul(VOWEL_LEVEL[k], w);
        a = alu.add(a, part);
        k = k + 1;
    }
    a
}

fn factory_wave<F: Fn(Op, Bits, Bits) -> Bits>(alu: &Alu<F>, f: usize, i: usize) -> (r: Bits)
    requires
        alu.ready(),
    ensures
        forall|m: Sem| #[trigger] alu.computes(m) ==> r == factory_sample(m, f as int, i as int),
{
    let ph = alu.div(word::of_u64(i as u64), F2048);
    let turn = alu.mul(TAU, ph);
    match f {
        0 => alu.sin(turn),
        1 => {
            let a = sum_harmonics(alu, turn, 1, 32);
            alu.mul(a, F0_55)
        },
        2 => {
            let a = sum_harmonics(alu, turn, 2, 16);
            alu.mul(a, F0_7)
        },
        3 => {
            let a = sum_comb(alu, turn);
            alu.mul(a, F0_8)
        },
        4 => {
            let a = sum_bell(alu, turn);
            alu.mul(a, F0_5)
        },
        _ => {
            let a = sum_vowel(alu, turn);
            alu.mul(a, F0_4)
        },
    }
}

/// The table holds the factory frames, and `rest` behind them.
pub open spec fn is_factory(m: Sem, t: [Bits; 131072], rest: [Bits; 131072]) -> bool {
    forall|c: int|
        0 <= c < 131072 ==> #[trigger] t[c] == if c < 6 * 2048 {
            factory_sample(m, c / 2048, c % 2048)
        } else {
            rest[c]
        }
}

/// Writes the factory frames.
pub fn fill_factory<F: Fn(Op, Bits, Bits) -> Bits>(alu: &Alu<F>, t: &mut [Bits; 131072])
    requires
        alu.ready(),
    ensures
        forall|c: int| 6 * 2048 <= c < 131072 ==> #[trigger] final(t)[c] == old(t)[c],
        forall|m: Sem| #[trigger] alu.computes(m) ==> is_factory(m, *final(t), *old(t)),
{
    let mut c: usize = 0;
    while c < FACTORY_FRAMES * FRAME
        invariant
            alu.ready(),
            c <= 6 * 2048,
            forall|m: Sem, j: int|
                #![trigger alu.computes(m), t[j]]
                alu.computes(m) && 0 <= j < c ==> t[j] == factory_sample(m, j / 2048, j % 2048),
            forall|j: int| c <= j < 131072 ==> t[j] == old(t)[j],
        decreases 6 * 2048 - c,
    {
        t[c] = factory_wave(alu, c / FRAME, c % FRAME);
        c = c + 1;
    }
}

} // verus!
