//! The factory frames as sums of sines.

use crate::alu::Sem;
use crate::consts::{
    F0, F0_4, F0_5, F0_55, F0_7, F0_8, F0_9, F1, F2, F2048, TAU,
};
use crate::laws;
use crate::laws::echo::held;
use crate::laws::numbers;
use crate::rounding::reals;
use crate::rounding::reals::{near, num, size};
use crate::table;
use crate::table::{BELL, VOWEL_LEVEL, VOWEL_RATIO};
use crate::word;
use crate::word::Bits;
use vstd::prelude::*;

verus! {

/// The sines at 1, 1 + `step`, 1 + 2 `step`, .. times the angle `turn`, each
/// over its number, added up.
pub open spec fn overtones(m: Sem, turn: Bits, step: nat, k: nat) -> real
    decreases k,
{
    if k == 0 {
        0real
    } else {
        let n = (1 + (k - 1) * step) as nat;
        overtones(m, turn, step, (k - 1) as nat) + num(m.sin(m.mul(turn, word::from_nat(n)))) / (
        n as real)
    }
}

/// The sines at 1, 2, 3, .. times the angle, each times the sine of 0.9 times its
/// number and over its number, added up.
pub open spec fn combed(m: Sem, turn: Bits, k: nat) -> real
    decreases k,
{
    if k == 0 {
        0real
    } else {
        let n = word::from_nat(k);
        combed(m, turn, (k - 1) as nat) + num(m.sin(m.mul(turn, n))) * num(m.sin(m.mul(n, F0_9))) / (
        k as real)
    }
}

/// The sines at 1, 2.76, 5.4, 8.93 and 13.3 times the angle, the first over 1, the
/// next over 2 and so on, added up.
pub open spec fn struck(m: Sem, turn: Bits, k: nat) -> real
    decreases k,
{
    if k == 0 {
        0real
    } else {
        struck(m, turn, (k - 1) as nat) + num(m.sin(m.mul(turn, BELL[k - 1]))) / (k as real)
    }
}

/// How loud a carrier of the vowel is.
pub open spec fn carrier(i: int) -> real {
    if i == 0 {
        1real
    } else if i == 1 {
        7real / 10real
    } else if i == 2 {
        9real / 20real
    } else {
        3real / 10real
    }
}

/// The sines at 3, 5, 8 and 12 times the angle, each bent by twice the sine of the
/// angle, at the levels of the carriers, added up.
pub open spec fn sung(m: Sem, turn: Bits, k: nat) -> real
    decreases k,
{
    if k == 0 {
        0real
    } else {
        let i = k - 1;
        let bent = m.add(m.mul(turn, VOWEL_RATIO[i]), m.mul(m.sin(turn), F2));
        sung(m, turn, i as nat) + carrier(i) * num(m.sin(bent))
    }
}

proof fn lemma_sine(m: Sem, x: Bits)
    requires
        m.rounds(),
        m.sines_bounded(),
        word::finite(x),
    ensures
        held(m.sin(x), 1real),
{
    assert(word::between(0xbf80_0000, m.sin(x), F1)) by {
        reveal(Sem::sines_bounded);
    }
    laws::sweeps::lemma_signed_unit(m.sin(x));
}

proof fn lemma_term(m: Sem, sum: Bits, a: real, e: real, term: Bits, b: real)
    requires
        m.rounds(),
        near(sum, a, e),
        0real <= e <= 1real,
        size(a) <= 32real,
        near(term, b, 8real / 8388608real),
        size(b) <= 2real,
    ensures
        near(m.add(sum, term), a + b, e + 90real / 8388608real),
{
    reals::lemma_near_add(m, sum, term, a, b, e, 8real / 8388608real, 36real);
}

proof fn lemma_over(m: Sem, x: Bits, n: nat)
    requires
        m.rounds(),
        held(x, 1real),
        1 <= n <= 100,
    ensures
        near(m.div(x, word::from_nat(n)), num(x) / (n as real), 2real / 8388608real),
        size(num(x) / (n as real)) <= 1real,
{
    reals::lemma_tiny();
    reals::lemma_integer(n as int);
    let v = n as real;
    let z = num(x) / v;
    assert(-1real <= z <= 1real) by (nonlinear_arith)
        requires
            z == num(x) / v,
            v >= 1real,
            -1real <= num(x) <= 1real,
    ;
    reals::lemma_div(m, x, word::from_nat(n));
}

proof fn lemma_overtones(m: Sem, turn: Bits, step: nat, k: nat)
    requires
        m.rounds(),
        m.sines_bounded(),
        held(turn, 7real),
        1 <= step <= 2,
        k <= 32,
    ensures
        near(
            table::harmonics(m, turn, step, k),
            overtones(m, turn, step, k),
            (k as real) * (90real / 8388608real),
        ),
        size(overtones(m, turn, step, k)) <= k as real,
    decreases k,
{
    reals::lemma_num(F0, F1);
    if k > 0 {
        let j = (k - 1) as nat;
        lemma_overtones(m, turn, step, j);
        assert(0 <= (k - 1) * step <= 62) by (nonlinear_arith)
            requires
                0 <= k - 1 <= 31,
                1 <= step <= 2,
        ;
        let n = (1 + (k - 1) * step) as nat;
        let c = word::from_nat(n);
        reals::lemma_integer(n as int);
        reals::lemma_near_mul(m, turn, c, num(turn), n as real, 0real, 0real, 7real, 63real);
        lemma_sine(m, m.mul(turn, c));
        lemma_over(m, m.sin(m.mul(turn, c)), n);
        lemma_term(
            m,
            table::harmonics(m, turn, step, j),
            overtones(m, turn, step, j),
            (j as real) * (90real / 8388608real),
            m.div(m.sin(m.mul(turn, c)), c),
            num(m.sin(m.mul(turn, c))) / (n as real),
        );
    }
}

proof fn lemma_combed(m: Sem, turn: Bits, k: nat)
    requires
        m.rounds(),
        m.sines_bounded(),
        held(turn, 7real),
        k <= 24,
    ensures
        near(table::comb(m, turn, k), combed(m, turn, k), (k as real) * (90real / 8388608real)),
        size(combed(m, turn, k)) <= k as real,
    decreases k,
{
    reals::lemma_num(F0, F1);
    numbers::law_numbers_part();
    if k > 0 {
        let j = (k - 1) as nat;
        lemma_combed(m, turn, j);
        let c = word::from_nat(k);
        reals::lemma_integer(k as int);
        let n = k as real;
        reals::lemma_near_mul(m, turn, c, num(turn), n, 0real, 0real, 7real, 63real);
        lemma_sine(m, m.mul(turn, c));
        reals::lemma_near_mul(m, c, F0_9, n, num(F0_9), 0real, 0real, 63real, 1real);
        lemma_sine(m, m.mul(c, F0_9));
        let p = m.sin(m.mul(turn, c));
        let q = m.sin(m.mul(c, F0_9));
        let a = num(p) * num(q);
        reals::lemma_near_mul(m, p, q, num(p), num(q), 0real, 0real, 1real, 1real);
        let x = m.mul(p, q);
        let v = num(x);
        assert(size(v) <= 3real / 2real);
        lemma_shared(m, x, a, k);
        lemma_term(
            m,
            table::comb(m, turn, j),
            combed(m, turn, j),
            (j as real) * (90real / 8388608real),
            m.div(x, c),
            a / n,
        );
    }
}

proof fn lemma_shared(m: Sem, x: Bits, a: real, n: nat)
    requires
        m.rounds(),
        near(x, a, 2real / 8388608real),
        size(a) <= 1real,
        1 <= n <= 100,
    ensures
        near(m.div(x, word::from_nat(n)), a / (n as real), 8real / 8388608real),
        size(a / (n as real)) <= 1real,
{
    reals::lemma_tiny();
    reals::lemma_integer(n as int);
    let v = n as real;
    let u = num(x);
    let z = u / v;
    let y = a / v;
    assert(-2real <= z <= 2real && -1real <= y <= 1real && -2real / 8388608real <= z - y <= 2real
        / 8388608real) by (nonlinear_arith)
        requires
            z == u / v,
            y == a / v,
            v >= 1real,
            -2real <= u <= 2real,
            -1real <= a <= 1real,
            -2real / 8388608real <= u - a <= 2real / 8388608real,
    ;
    reals::lemma_div(m, x, word::from_nat(n));
}

proof fn lemma_struck(m: Sem, turn: Bits, k: nat)
    requires
        m.rounds(),
        m.sines_bounded(),
        held(turn, 7real),
        k <= 5,
    ensures
        near(table::bell(m, turn, k), struck(m, turn, k), (k as real) * (90real / 8388608real)),
        size(struck(m, turn, k)) <= k as real,
    decreases k,
{
    reals::lemma_num(F0, F1);
    numbers::law_numbers_mixed();
    if k > 0 {
        let j = (k - 1) as nat;
        lemma_struck(m, turn, j);
        let r = BELL[k - 1];
        assert(held(r, 14real));
        reals::lemma_near_mul(m, turn, r, num(turn), num(r), 0real, 0real, 7real, 14real);
        lemma_sine(m, m.mul(turn, r));
        let p = m.sin(m.mul(turn, r));
        reals::lemma_integer(j as int);
        reals::lemma_integer(k as int);
        let c = m.add(word::from_nat(j), F1);
        lemma_next(m, j);
        let v = k as real;
        let z = num(p) / v;
        assert(-1real <= z <= 1real) by (nonlinear_arith)
            requires
                z == num(p) / v,
                v >= 1real,
                -1real <= num(p) <= 1real,
        ;
        reals::lemma_tiny();
        reals::lemma_div(m, p, c);
        lemma_term(
            m,
            table::bell(m, turn, j),
            struck(m, turn, j),
            (j as real) * (90real / 8388608real),
            m.div(p, c),
            z,
        );
    }
}

/// The next whole number.
proof fn lemma_next(m: Sem, j: nat)
    requires
        m.rounds(),
        j <= 100,
    ensures
        word::finite(m.add(word::from_nat(j), F1)),
        num(m.add(word::from_nat(j), F1)) == (j + 1) as real,
{
    crate::rounding::lemma_one();
    reals::lemma_num(F0, F1);
    reals::lemma_integer(j as int);
    reals::lemma_integer((j + 1) as int);
    let a = word::from_nat(j);
    let b = word::from_nat(j + 1);
    let one = word::one() as int;
    assert((j + 1) * one == j * one + one) by (nonlinear_arith);
    crate::rounding::lemma_sum(m, a, F1, b, b);
    reals::lemma_equal(m.add(a, F1), b);
}

proof fn lemma_sung(m: Sem, turn: Bits, k: nat)
    requires
        m.rounds(),
        m.sines_bounded(),
        held(turn, 7real),
        k <= 4,
    ensures
        near(table::vowel(m, turn, k), sung(m, turn, k), (k as real) * (90real / 8388608real)),
        size(sung(m, turn, k)) <= k as real,
    decreases k,
{
    reals::lemma_num(F0, F1);
    numbers::law_numbers_part();
    numbers::law_numbers_whole();
    if k > 0 {
        let j = (k - 1) as nat;
        lemma_sung(m, turn, j);
        let r = VOWEL_RATIO[k - 1];
        assert(held(r, 12real));
        reals::lemma_near_mul(m, turn, r, num(turn), num(r), 0real, 0real, 7real, 12real);
        lemma_sine(m, turn);
        let s = num(m.sin(turn));
        reals::lemma_near_mul(m, m.sin(turn), F2, s, 2real, 0real, 0real, 1real, 2real);
        reals::lemma_near_add(
            m,
            m.mul(turn, r),
            m.mul(m.sin(turn), F2),
            num(turn) * num(r),
            s * 2real,
            168real / 8388608real,
            4real / 8388608real,
            90real,
        );
        let bent = m.add(m.mul(turn, r), m.mul(m.sin(turn), F2));
        lemma_sine(m, bent);
        let c = carrier(k - 1);
        let p = num(m.sin(bent));
        assert(near(VOWEL_LEVEL[k - 1], c, 1real / 10000000real) && 0real < c <= 1real);
        reals::lemma_near_mul(
            m,
            VOWEL_LEVEL[k - 1],
            m.sin(bent),
            c,
            p,
            1real / 10000000real,
            0real,
            11real / 10real,
            1real,
        );
        assert(size(c * p) <= 1real) by {
            reals::lemma_bounded(c, p, 1real, 1real);
        }
        lemma_term(
            m,
            table::vowel(m, turn, j),
            sung(m, turn, j),
            (j as real) * (90real / 8388608real),
            m.mul(VOWEL_LEVEL[k - 1], m.sin(bent)),
            c * p,
        );
    }
}

/// The angle of sample `i` of a frame of 2048: one turn over the frame.
pub open spec fn angle_of(m: Sem, i: int) -> Bits {
    m.mul(TAU, m.div(word::from_nat(i as nat), F2048))
}

/// The factory frames: a sine, 32 overtones, 16 odd overtones, a comb of 24, a
/// bell of 5 and a vowel of 4, each over one turn and at its own level.
pub proof fn law_factory_frames(m: Sem, i: int)
    requires
        m.rounds(),
        m.sines_bounded(),
        0 <= i < 2048,
    ensures
        ({
            let turn = angle_of(m, i);
            let most = 1real / 2000real;
            &&& near(
                turn,
                (i as real) / 2048real * (6283185307real / 1000000000real),
                1real / 100000real,
            )
            &&& table::factory_sample(m, 0, i) == m.sin(turn)
            &&& near(
                table::factory_sample(m, 1, i),
                overtones(m, turn, 1, 32) * (11real / 20real),
                most,
            )
            &&& near(
                table::factory_sample(m, 2, i),
                overtones(m, turn, 2, 16) * (7real / 10real),
                most,
            )
            &&& near(table::factory_sample(m, 3, i), combed(m, turn, 24) * (8real / 10real), most)
            &&& near(table::factory_sample(m, 4, i), struck(m, turn, 5) * (1real / 2real), most)
            &&& near(table::factory_sample(m, 5, i), sung(m, turn, 4) * (4real / 10real), most)
        }),
{
    reals::lemma_tiny();
    reals::lemma_num(F0, F1);
    numbers::law_numbers_part();
    numbers::law_numbers_large();
    reals::lemma_integer(i);
    let place = word::from_nat(i as nat);
    let x = i as real;
    let d = num(F2048);
    assert(x / d == x / 2048real);
    reals::lemma_div(m, place, F2048);
    let ph = m.div(place, F2048);
    let turn = angle_of(m, i);
    laws::sweeps::law_angle_in_numbers(m, ph);
    assert(held(turn, 7real));
    lemma_overtones(m, turn, 1, 32);
    lemma_overtones(m, turn, 2, 16);
    lemma_combed(m, turn, 24);
    lemma_struck(m, turn, 5);
    lemma_sung(m, turn, 4);
    lemma_at_level(m, table::harmonics(m, turn, 1, 32), overtones(m, turn, 1, 32), F0_55, 11real / 20real);
    lemma_at_level(m, table::harmonics(m, turn, 2, 16), overtones(m, turn, 2, 16), F0_7, 7real / 10real);
    lemma_at_level(m, table::comb(m, turn, 24), combed(m, turn, 24), F0_8, 8real / 10real);
    lemma_at_level(m, table::bell(m, turn, 5), struck(m, turn, 5), F0_5, 1real / 2real);
    lemma_at_level(m, table::vowel(m, turn, 4), sung(m, turn, 4), F0_4, 4real / 10real);
}

proof fn lemma_at_level(m: Sem, x: Bits, a: real, level: Bits, c: real)
    requires
        m.rounds(),
        near(x, a, 3000real / 8388608real),
        size(a) <= 32real,
        near(level, c, 1real / 10000000real),
        0real <= c <= 9real / 10real,
    ensures
        near(m.mul(x, level), a * c, 1real / 2000real),
{
    reals::lemma_near_mul(
        m,
        x,
        level,
        a,
        c,
        3000real / 8388608real,
        1real / 10000000real,
        33real,
        1real,
    );
}

} // verus!
