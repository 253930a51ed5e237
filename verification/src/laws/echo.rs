//! What the delay gives back.

use crate::alu::Sem;
use crate::consts::{F0, F1};
use crate::fx::hybrid;
use crate::fx::hybrid::{Delay, HybridBlock};
use crate::fx::ring;
use crate::rounding;
use crate::rounding::reals;
use crate::rounding::reals::{num, size};
use crate::word;
use crate::word::Bits;
use vstd::arithmetic::div_mod::*;
use vstd::prelude::*;

verus! {

// ---------------------------------------------------------------------------
// Reading a ring
// ---------------------------------------------------------------------------

/// A value no larger than `most`.
pub open spec fn held(x: Bits, most: real) -> bool {
    word::finite(x) && size(num(x)) <= most
}

/// With nothing of the way to go, what is read is where one starts from.
pub proof fn lemma_no_way(m: Sem, a: Bits, b: Bits, k: Bits, most: real)
    requires
        m.rounds(),
        held(a, most),
        held(b, most),
        4real * most <= reals::vast(),
        word::finite(k),
        num(k) == 0real,
    ensures
        num(m.lerp(a, b, k)) == num(a),
        word::finite(m.lerp(a, b, k)),
{
    rounding::lemma_one();
    reals::lemma_sub(m, b, a);
    let d = m.sub(b, a);
    reals::lemma_num(F0, k);
    rounding::lemma_rank_is_value(F0, k);
    let v = word::value(d);
    let w = word::value(k);
    assert(v * w == 0 && 0 * word::one() == 0) by (nonlinear_arith)
        requires
            w == 0,
    ;
    rounding::lemma_product(m, d, k, F0, F0);
    rounding::lemma_sum(m, a, m.mul(d, k), a, a);
    reals::lemma_equal(m.lerp(a, b, k), a);
}

/// A whole number of cells behind the place `w`, a ring is read at that cell.
proof fn lemma_tapped<const N: usize>(
    m: Sem,
    r: [Bits; N],
    w: int,
    delay: Bits,
    d: int,
    most: real,
)
    requires
        m.rounds(),
        0 < N <= 131072,
        0 <= w < N,
        0 <= d <= 131072,
        word::finite(delay),
        num(delay) == d as real,
        4real * most <= reals::vast(),
        forall|c: int| 0 <= c < N ==> held(#[trigger] r[c], most),
    ensures
        0 <= (w - d) % (N as int) < N,
        num(ring::tapped(m, r, w, delay)) == num(r[(w - d) % (N as int)]),
        word::finite(ring::tapped(m, r, w, delay)),
{
    rounding::lemma_one();
    reals::lemma_num(F0, F1);
    let n = N as int;
    lemma_mod_bound(w - d, n);
    let one = word::one() as int;
    reals::lemma_integer(w);
    reals::lemma_integer(d);
    reals::lemma_integer(w - d);
    let place = word::from_nat(w as nat);
    let goal = rounding::whole(w - d);
    reals::lemma_equal(delay, rounding::whole(d));
    assert((w - d) * one == w * one - d * one) by (nonlinear_arith);
    rounding::lemma_difference(m, place, delay, goal, goal);
    let at = m.sub(place, delay);
    reals::lemma_equal(at, goal);
    reals::lemma_floor(at);
    let whole = word::floor_of(at);
    let k = word::floor_whole(at);
    assert(k == w - d);
    lemma_trunc_whole(whole, k);
    assert(ring::wrapped(whole, n) == k % n);
    reals::lemma_equal(at, whole);
    rounding::lemma_difference(m, at, whole, F0, F0);
    let part = m.sub(at, whole);
    reals::lemma_equal(part, F0);
    let i = k % n;
    let j = ring::after(i, n);
    assert(held(r[i], most) && held(r[j], most));
    lemma_no_way(m, r[i], r[j], part, most);
}

/// A whole value has no fraction to lose.
pub proof fn lemma_trunc_whole(x: Bits, k: int)
    requires
        word::finite(x),
        num(x) == k as real,
        -4000000 <= k <= 4000000,
    ensures
        word::trunc_of(x) == k,
{
    rounding::lemma_one();
    reals::lemma_integer(k);
    reals::lemma_equal(x, rounding::whole(k));
    let one = word::one() as int;
    let n = if k < 0 {
        -k
    } else {
        k
    };
    let u = word::units(x) as int;
    assert(u == n * one) by (nonlinear_arith)
        requires
            u == k * one || u == -(k * one),
            u >= 0,
            n == k || n == -k,
            n >= 0,
            one > 0,
    ;
    lemma_fundamental_div_mod_converse(u, one, n, 0);
    if word::negative(x) {
        assert(k <= 0) by (nonlinear_arith)
            requires
                k * one <= 0,
                one > 0,
        ;
    } else {
        assert(k >= 0) by (nonlinear_arith)
            requires
                k * one >= 0,
                one > 0,
        ;
    }
}

// ---------------------------------------------------------------------------
// The delay over many samples
// ---------------------------------------------------------------------------

/// The delay after `k` samples `x(0)`, `x(1)`, ...
pub open spec fn delay_after(
    m: Sem,
    b: HybridBlock,
    s: Delay,
    x: spec_fn(int) -> Bits,
    k: nat,
) -> Delay
    decreases k,
{
    if k == 0 {
        s
    } else {
        hybrid::delayed(m, b, delay_after(m, b, s, x, (k - 1) as nat), x(k - 1)).0
    }
}

/// The echo that comes with sample `k`.
pub open spec fn echo_at(
    m: Sem,
    b: HybridBlock,
    s: Delay,
    x: spec_fn(int) -> Bits,
    k: nat,
) -> Bits {
    hybrid::delayed(m, b, delay_after(m, b, s, x, k), x(k as int)).1
}

/// A delay without feedback, its time held at `d` whole samples, and all that
/// it holds and hears no larger than `most`.
pub open spec fn plain_delay(
    b: HybridBlock,
    s: Delay,
    x: spec_fn(int) -> Bits,
    d: int,
    most: real,
) -> bool {
    &&& s.wf()
    &&& 1 <= d <= 131072
    &&& word::finite(s.smp)
    &&& num(s.smp) == d as real
    &&& word::finite(b.delay_fb)
    &&& num(b.delay_fb) == 0real
    &&& word::between(F0, b.color_k, F1)
    &&& 1real <= most
    &&& 100real * most <= reals::vast()
    &&& forall|c: int| 0 <= c < 131072 ==> held(#[trigger] s.ring[c], most)
    &&& held(s.lp, most)
    &&& forall|j: int| held(#[trigger] x(j), most)
}

/// How large the filter of the repeats may become.
spec fn lp_most(most: real) -> real {
    most + 32real * most / 8388608real
}

/// The filter of the repeats stays in bounds however long it runs.
proof fn lemma_filter(m: Sem, lp: Bits, echo: Bits, k: Bits, most: real)
    requires
        m.rounds(),
        held(lp, lp_most(most)),
        held(echo, most),
        word::between(F0, k, F1),
        1real <= most,
        100real * most <= reals::vast(),
    ensures
        held(m.chase(lp, echo, k), lp_most(most)),
{
    reals::lemma_tiny();
    reals::lemma_num(F0, F1);
    reals::lemma_within(F0, k, F1);
    let top = lp_most(most);
    reals::lemma_lerp(m, lp, echo, k, top);
    let a = num(lp);
    let e = num(echo);
    let c = num(k);
    let r = m.chase(lp, echo, k);
    let exact = a + (e - a) * c;
    if a > most {
        assert(-most <= exact) by (nonlinear_arith)
            requires
                exact == a + (e - a) * c,
                a >= -most,
                e >= -most,
                0real <= c <= 1real,
        ;
        lemma_falls(m, lp, echo, k);
    } else if a < -most {
        assert(exact <= most) by (nonlinear_arith)
            requires
                exact == a + (e - a) * c,
                a <= most,
                e <= most,
                0real <= c <= 1real,
        ;
        lemma_falls(m, lp, echo, k);
    } else {
        assert(-most <= exact <= most) by (nonlinear_arith)
            requires
                exact == a + (e - a) * c,
                -most <= a <= most,
                -most <= e <= most,
                0real <= c <= 1real,
        ;
    }
}

/// A filter does not move away from what it is heading for.
proof fn lemma_falls(m: Sem, lp: Bits, echo: Bits, k: Bits)
    requires
        m.rounds(),
        word::finite(lp),
        word::finite(echo),
        word::finite(m.sub(echo, lp)),
        word::finite(m.mul(k, m.sub(echo, lp))),
        word::finite(m.chase(lp, echo, k)),
        word::between(F0, k, F1),
    ensures
        num(echo) <= num(lp) ==> num(m.chase(lp, echo, k)) <= num(lp),
        num(echo) >= num(lp) ==> num(m.chase(lp, echo, k)) >= num(lp),
{
    rounding::lemma_one();
    rounding::lemma_between(F0, k, F1);
    reals::lemma_multiples(echo, lp, 1, 1);
    reals::lemma_multiples(lp, echo, 1, 1);
    let d = m.sub(echo, lp);
    let p = m.mul(k, d);
    let r = m.add(lp, p);
    let one = word::one() as int;
    let v = word::value(d);
    let c = word::value(k);
    assert(rounding::nearest(d, word::value(echo) - word::value(lp), 1) && rounding::nearest(
        p,
        c * v,
        one,
    ) && rounding::nearest(r, word::value(lp) + word::value(p), 1)) by {
        reveal(Sem::rounds);
    }
    reals::lemma_multiples(r, lp, 1, 1);
    reals::lemma_multiples(lp, r, 1, 1);
    assert(0 * one == 0 && 0 * 1 == 0) by (nonlinear_arith);
    if num(echo) <= num(lp) {
        rounding::lemma_not_above(d, word::value(echo) - word::value(lp), 1, F0);
        assert(c * v <= 0) by (nonlinear_arith)
            requires
                c >= 0,
                v <= 0,
        ;
        rounding::lemma_not_above(p, c * v, one, F0);
        rounding::lemma_not_above(r, word::value(lp) + word::value(p), 1, lp);
    }
    if num(echo) >= num(lp) {
        rounding::lemma_not_below(d, word::value(echo) - word::value(lp), 1, F0);
        assert(c * v >= 0) by (nonlinear_arith)
            requires
                c >= 0,
                v >= 0,
        ;
        rounding::lemma_not_below(p, c * v, one, F0);
        rounding::lemma_not_below(r, word::value(lp) + word::value(p), 1, lp);
    }
}

/// What the ring holds after `k` samples.
proof fn lemma_ring(
    m: Sem,
    b: HybridBlock,
    s: Delay,
    x: spec_fn(int) -> Bits,
    d: int,
    most: real,
    k: nat,
)
    requires
        m.rounds(),
        plain_delay(b, s, x, d, most),
    ensures
        ({
            let t = delay_after(m, b, s, x, k);
            &&& t.w == (s.w + k) % 131072
            &&& t.smp == s.smp
            &&& held(t.lp, lp_most(most))
            &&& forall|c: int| 0 <= c < 131072 ==> held(#[trigger] t.ring[c], most)
            &&& forall|j: int|
                0 <= j < k && k - j <= 131072 ==> num(
                    t.ring[#[trigger] ((s.w + j) % 131072)],
                ) == num(x(j))
        }),
    decreases k,
{
    reals::lemma_tiny();
    if k == 0 {
        assert((s.w + 0) % 131072 == s.w as int);
    } else {
        let i = (k - 1) as nat;
        lemma_ring(m, b, s, x, d, most, i);
        let before = delay_after(m, b, s, x, i);
        let t = delay_after(m, b, s, x, k);
        assert(held(x(i as int), most));
        lemma_delay_step(m, b, before, x(i as int), d, most);
        assert(t.w == (s.w + k) % 131072);
        let w = before.w as int;
        assert forall|j: int| 0 <= j < k && k - j <= 131072 implies num(
            t.ring[#[trigger] ((s.w + j) % 131072)],
        ) == num(x(j)) by {
            let c = (s.w + j) % 131072;
            if j == i {
                assert(c == w);
            } else {
                assert(c != w) by {
                    if c == w {
                        assert((i - j) % 131072 == 0);
                    }
                }
                assert(num(before.ring[c]) == num(x(j)));
            }
        }
    }
}

/// One sample.
proof fn lemma_delay_step(m: Sem, b: HybridBlock, s: Delay, x: Bits, d: int, most: real)
    requires
        m.rounds(),
        s.w < 131072,
        1 <= d <= 131072,
        word::finite(s.smp),
        num(s.smp) == d as real,
        word::finite(b.delay_fb),
        num(b.delay_fb) == 0real,
        word::between(F0, b.color_k, F1),
        1real <= most,
        100real * most <= reals::vast(),
        forall|c: int| 0 <= c < 131072 ==> held(#[trigger] s.ring[c], most),
        held(s.lp, lp_most(most)),
        held(x, most),
    ensures
        ({
            let (t, echo) = hybrid::delayed(m, b, s, x);
            &&& t.w == (s.w + 1) % 131072
            &&& t.smp == s.smp
            &&& held(t.lp, lp_most(most))
            &&& num(echo) == num(s.ring[(s.w - d) % 131072])
            &&& num(t.ring[s.w as int]) == num(x)
            &&& forall|c: int| 0 <= c < 131072 && c != s.w ==> #[trigger] t.ring[c] == s.ring[c]
            &&& forall|c: int| 0 <= c < 131072 ==> held(#[trigger] t.ring[c], most)
        }),
{
    rounding::lemma_one();
    reals::lemma_num(F0, F1);
    let (t, echo) = hybrid::delayed(m, b, s, x);
    lemma_tapped(m, *s.ring, s.w as int, s.smp, d, most);
    let at = (s.w - d) % 131072;
    assert(held(s.ring[at], most));
    lemma_filter(m, s.lp, echo, b.color_k, most);
    let lp = t.lp;
    reals::lemma_num(F0, b.delay_fb);
    rounding::lemma_rank_is_value(F0, b.delay_fb);
    let v = word::value(lp);
    let w = word::value(b.delay_fb);
    assert(v * w == 0 && 0 * word::one() == 0) by (nonlinear_arith)
        requires
            w == 0,
    ;
    rounding::lemma_product(m, lp, b.delay_fb, F0, F0);
    let part = m.mul(lp, b.delay_fb);
    rounding::lemma_sum(m, x, part, x, x);
    reals::lemma_equal(m.add(x, part), x);
    assert(t.ring[s.w as int] == m.add(x, part));
}

/// The delay gives back what went in: without feedback, and with its time held
/// at `d` whole samples, the echo that comes with sample `k + d` is sample `k`,
/// for every `k` and through every turn of the ring.
pub proof fn law_delay_gives_back(
    m: Sem,
    b: HybridBlock,
    s: Delay,
    x: spec_fn(int) -> Bits,
    d: int,
    most: real,
    k: nat,
)
    requires
        m.rounds(),
        plain_delay(b, s, x, d, most),
    ensures
        num(echo_at(m, b, s, x, (k + d) as nat)) == num(x(k as int)),
{
    let n = (k + d) as nat;
    lemma_ring(m, b, s, x, d, most, n);
    let t = delay_after(m, b, s, x, n);
    assert(held(x(n as int), most));
    lemma_delay_step(m, b, t, x(n as int), d, most);
    let c = (s.w + k) % 131072;
    assert((t.w - d) % 131072 == c);
    assert(num(t.ring[c]) == num(x(k as int)));
}

} // verus!
