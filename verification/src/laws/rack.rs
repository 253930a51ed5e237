//! What holds of the effect rack, and of blocks that it leaves alone.

use crate::alu::Sem;
use crate::block;
use crate::cells;
use crate::consts::{
    F0, F0_001, F0_02, F0_4, F1, F16380, F1687, F1_1, F1_4, F2039, F23, F2503, F3023, F48000,
};
use crate::engine;
use crate::engine::{Mix, RiotCore};
use crate::fx;
use crate::fx::distortion;
use crate::fx::hybrid;
use crate::fx::hybrid::{Delay, Line, Reverb};
use crate::fx::ring;
use crate::fx::{Fx, Gates, RackBlock};
use crate::laws;
use crate::laws::voices;
use crate::params;
use crate::params::RANGES;
use crate::rounding;
use crate::word;
use crate::word::{Bits, WideBits};
use vstd::arithmetic::power2::*;
use vstd::prelude::*;

verus! {

/// 192000: the highest sample rate that the laws on line lengths speak of.
pub const RATE_MOST: Bits = 0x483b_8000;

// ---------------------------------------------------------------------------
// Bypass
// ---------------------------------------------------------------------------

/// `i` is the mix of a section.
pub open spec fn is_mix(i: int) -> bool {
    i == 62 || i == 41 || i == 44 || i == 47 || i == 50 || i == 54
}

/// With every mix at 0.001 or below the rack is not there: the block comes
/// out bit for bit as it went in, and the rack does not change.
pub proof fn law_rack_bypassed(m: Sem, q: [Bits; 63], sr: Bits, s: Fx, out: Seq<Bits>)
    requires
        forall|i: int|
            is_mix(i) ==> !word::below(
                F0_001,
                #[trigger] params::mapped(m, i, q[i]),
            ),
    ensures
        fx::racked(m, q, sr, s, out) == (s, out),
{
    assert(!word::below(F0_001, params::mapped(m, 62, q[62])));
    assert(!word::below(F0_001, params::mapped(m, 41, q[41])));
    assert(!word::below(F0_001, params::mapped(m, 44, q[44])));
    assert(!word::below(F0_001, params::mapped(m, 47, q[47])));
    assert(!word::below(F0_001, params::mapped(m, 50, q[50])));
    assert(!word::below(F0_001, params::mapped(m, 54, q[54])));
}

/// A block that the rack does not touch is the voices' sum, put through the
/// master stage, and nothing of the rack changes.
pub proof fn law_dry_block(
    m: Sem,
    c: spec_fn(WideBits, usize, Bits) -> WideBits,
    s: RiotCore,
    n: usize,
)
    requires
        ({
            let q = engine::controlled(m, s, n as nat).1;
            forall|i: int|
                is_mix(i) ==> !word::below(
                    F0_001,
                    #[trigger] params::mapped(m, i, q[i]),
                )
        }),
    ensures
        ({
            let (s1, q) = engine::controlled(m, s, n as nat);
            let b = block::block_of(m, q, s.sr, engine::sounding(s), s.n_frames as nat);
            let from = Mix {
                voices: s.voices,
                tails: s.tails,
                state: s1.rng,
                out: Seq::new(n as nat, |i: int| F0),
            };
            let (after, out) = engine::processed(m, c, s, n);
            &&& after.fx == s.fx
            &&& out == engine::mastered(m, b.master, engine::mix_run(m, b, *s.table, from, 10).out)
        }),
{
    let (s1, q) = engine::controlled(m, s, n as nat);
    let b = block::block_of(m, q, s.sr, engine::sounding(s), s.n_frames as nat);
    let from = Mix {
        voices: s.voices,
        tails: s.tails,
        state: s1.rng,
        out: Seq::new(n as nat, |i: int| F0),
    };
    law_rack_bypassed(m, q, s.sr, s.fx, engine::mix_run(m, b, *s.table, from, 10).out);
}

/// Where no voice sounds and the rack is bypassed, a block is the master
/// stage's reading of silence throughout, and no voice changes.
pub proof fn law_silent_block(
    m: Sem,
    c: spec_fn(WideBits, usize, Bits) -> WideBits,
    s: RiotCore,
    n: usize,
    k: int,
)
    requires
        forall|i: int| 0 <= i < 8 ==> !(#[trigger] s.voices[i]).on,
        forall|i: int| 0 <= i < 2 ==> !(#[trigger] s.tails[i]).on,
        ({
            let q = engine::controlled(m, s, n as nat).1;
            forall|i: int|
                is_mix(i) ==> !word::below(
                    F0_001,
                    #[trigger] params::mapped(m, i, q[i]),
                )
        }),
        0 <= k < n,
    ensures
        ({
            let q = engine::controlled(m, s, n as nat).1;
            let (after, out) = engine::processed(m, c, s, n);
            &&& out.len() == n
            &&& out[k] == m.tanh(m.mul(m.mul(F0, params::mapped(m, 37, q[37])), F1_4))
            &&& after.voices == s.voices
            &&& after.tails == s.tails
            &&& after.fx == s.fx
        }),
{
    let (s1, q) = engine::controlled(m, s, n as nat);
    let b = block::block_of(m, q, s.sr, engine::sounding(s), s.n_frames as nat);
    let from = Mix {
        voices: s.voices,
        tails: s.tails,
        state: s1.rng,
        out: Seq::new(n as nat, |i: int| F0),
    };
    law_dry_block(m, c, s, n);
    laws::law_silent_engine(m, b, *s.table, from, 10);
}

/// A section that is not heard keeps its state, whatever the others do.
pub proof fn law_section_bypassed(m: Sem, b: RackBlock, s: Fx, out: Seq<Bits>, k: nat)
    ensures
        ({
            let after = fx::rack_run(m, b, s, out, k).0;
            &&& after.rng == s.rng
            &&& after.drift == s.drift
            &&& !b.gates.dist ==> after.dist == s.dist
            &&& !b.gates.phaser ==> after.phaser == s.phaser
            &&& !b.gates.chorus ==> after.chorus == s.chorus
            &&& !b.gates.trem ==> after.trem_ph == s.trem_ph
            &&& !b.gates.hybrid() ==> after.delay == s.delay
            &&& !b.gates.reverb ==> after.reverb == s.reverb
        }),
    decreases k,
{
    if k > 0 {
        law_section_bypassed(m, b, s, out, (k - 1) as nat);
    }
}

/// The rack changes a block sample by sample: it neither lengthens nor
/// shortens it, and what it makes of a sample does not depend on the samples
/// after it.
pub proof fn law_rack_is_causal(m: Sem, b: RackBlock, s: Fx, x: Seq<Bits>, y: Seq<Bits>, k: nat)
    requires
        x.len() == y.len(),
        k <= x.len(),
        forall|i: int| 0 <= i < k ==> x[i] == y[i],
    ensures
        fx::rack_run(m, b, s, x, k).0 == fx::rack_run(m, b, s, y, k).0,
        fx::rack_run(m, b, s, x, k).1.len() == x.len(),
        fx::rack_run(m, b, s, y, k).1.len() == y.len(),
        forall|i: int|
            0 <= i < k ==> fx::rack_run(m, b, s, x, k).1[i] == fx::rack_run(m, b, s, y, k).1[i],
        forall|i: int| k <= i < x.len() ==> fx::rack_run(m, b, s, x, k).1[i] == x[i],
        forall|i: int| k <= i < y.len() ==> fx::rack_run(m, b, s, y, k).1[i] == y[i],
    decreases k,
{
    if k > 0 {
        let i = (k - 1) as nat;
        law_rack_is_causal(m, b, s, x, y, i);
        let (sx, ox) = fx::rack_run(m, b, s, x, i);
        let (sy, oy) = fx::rack_run(m, b, s, y, i);
        assert(ox[i as int] == x[i as int]);
        assert(oy[i as int] == y[i as int]);
        let step = fx::rack_step(m, b, sx, ox[i as int]);
        assert(fx::rack_run(m, b, s, x, k) == (step.0, ox.update(i as int, step.1)));
        assert(fx::rack_run(m, b, s, y, k) == (step.0, oy.update(i as int, step.1)));
    }
}

/// The rack neither lengthens nor shortens a block.
pub proof fn lemma_racked_len(m: Sem, q: [Bits; 63], sr: Bits, s: Fx, out: Seq<Bits>)
    ensures
        fx::racked(m, q, sr, s, out).1.len() == out.len(),
{
    if fx::gates_of(m, q).any() {
        let w = fx::wandered(m, s);
        let b = fx::rack_block(m, q, sr, w.drift);
        law_rack_is_causal(m, b, entered(m, q, sr, s), out, out, out.len());
    }
}

/// The rings wrap as a mask of their low bits would.
pub proof fn law_ring_is_mask(x: Bits)
    ensures
        ({
            let i = word::saturated(
                word::trunc_of(x),
                isize::MIN as int,
                isize::MAX as int,
            ) as isize;
            &&& ring::wrapped(x, 8192) == (i as usize & 8191)
            &&& ring::wrapped(x, 131072) == (i as usize & 131071)
        }),
{
    let i = word::saturated(word::trunc_of(x), isize::MIN as int, isize::MAX as int) as isize;
    assert((i as usize & 8191) == i % 8192) by (bit_vector);
    assert((i as usize & 131071) == i % 131072) by (bit_vector);
}


// ---------------------------------------------------------------------------
// Bypass, by the settings
// ---------------------------------------------------------------------------

/// A section whose mix is set to 0.001 or below is not heard.
pub proof fn law_low_mix_is_off(m: Sem, q: [Bits; 63], i: int)
    requires
        m.rounds(),
        is_mix(i),
        word::at_least(F0_001, q[i]),
    ensures
        !fx::audible(m, q, i),
{
    assert(RANGES[62] == (F0, F1, false));
    assert(RANGES[41] == (F0, F1, false));
    assert(RANGES[44] == (F0, F1, false));
    assert(RANGES[47] == (F0, F1, false));
    assert(RANGES[50] == (F0, F1, false));
    assert(RANGES[54] == (F0, F1, false));
    laws::settings::law_proportion(m, i, q[i]);
    rounding::lemma_rank_is_value(word::clamp_of(q[i], F0, F1), params::mapped(m, i, q[i]));
}

/// With every mix set to 0.001 or below the rack is not there: the block comes
/// out bit for bit as it went in, and nothing of the rack changes.
pub proof fn law_rack_bypassed_by_settings(
    m: Sem,
    q: [Bits; 63],
    sr: Bits,
    s: Fx,
    out: Seq<Bits>,
)
    requires
        m.rounds(),
        forall|i: int| is_mix(i) ==> word::at_least(F0_001, #[trigger] q[i]),
    ensures
        fx::racked(m, q, sr, s, out) == (s, out),
{
    assert forall|i: int| is_mix(i) implies !word::below(
        F0_001,
        #[trigger] params::mapped(m, i, q[i]),
    ) by {
        law_low_mix_is_off(m, q, i);
    }
    law_rack_bypassed(m, q, sr, s, out);
}

/// Where no voice sounds and every mix is set to 0.001 or below, a block is
/// zero throughout, and neither the voices nor the rack change.
pub proof fn law_silent_block_is_zero(
    m: Sem,
    c: spec_fn(WideBits, usize, Bits) -> WideBits,
    s: RiotCore,
    n: usize,
    k: int,
)
    requires
        m.rounds(),
        m.bends_from_zero(),
        forall|i: int| 0 <= i < 8 ==> !(#[trigger] s.voices[i]).on,
        forall|i: int| 0 <= i < 2 ==> !(#[trigger] s.tails[i]).on,
        forall|i: int|
            is_mix(i) ==> word::at_least(F0_001, #[trigger] voices::modulated(m, s, n)[i]),
        !word::is_nan(voices::modulated(m, s, n)[37]),
        0 <= k < n,
    ensures
        ({
            let (after, out) = engine::processed(m, c, s, n);
            &&& out.len() == n
            &&& word::magnitude(out[k]) == 0
            &&& after.voices == s.voices
            &&& after.tails == s.tails
            &&& after.fx == s.fx
        }),
{
    let q = voices::modulated(m, s, n);
    assert forall|i: int| is_mix(i) implies !word::below(
        F0_001,
        #[trigger] params::mapped(m, i, q[i]),
    ) by {
        law_low_mix_is_off(m, q, i);
    }
    law_silent_block(m, c, s, n, k);
    assert(RANGES[37] == (F0, F1, false));
    laws::settings::law_proportion(m, 37, q[37]);
    let master = params::mapped(m, 37, q[37]);
    rounding::lemma_one();
    rounding::lemma_part(m, F0, master);
    let x = m.mul(F0, master);
    assert(word::value(x) * word::value(F1_4) == 0) by (nonlinear_arith)
        requires
            word::value(x) == 0,
    ;
    rounding::lemma_product(m, x, F1_4, F0, F0);
    let y = m.mul(x, F1_4);
    rounding::lemma_rank_is_value(y, F0);
}

// ---------------------------------------------------------------------------
// Settings of sections that are not heard
// ---------------------------------------------------------------------------

/// Two blocks do the same to what is heard.
spec fn alike(a: RackBlock, b: RackBlock) -> bool {
    let g = a.gates;
    &&& b.gates == g
    &&& g.dist ==> a.dist == b.dist
    &&& a.analog.sr == b.analog.sr
    &&& a.analog.dt == b.analog.dt
    &&& g.analog() ==> a.analog.drift == b.analog.drift
    &&& g.phaser ==> {
        &&& a.analog.phaser_mix == b.analog.phaser_mix
        &&& a.analog.phaser_rate == b.analog.phaser_rate
        &&& a.analog.phaser_fb == b.analog.phaser_fb
    }
    &&& g.chorus ==> {
        &&& a.analog.chorus_mix == b.analog.chorus_mix
        &&& a.analog.chorus_rate == b.analog.chorus_rate
        &&& a.analog.chorus_base == b.analog.chorus_base
        &&& a.analog.chorus_depth == b.analog.chorus_depth
    }
    &&& g.trem ==> {
        &&& a.analog.trem_depth == b.analog.trem_depth
        &&& a.analog.trem_rate == b.analog.trem_rate
    }
    &&& g.hybrid() ==> {
        &&& a.hybrid.delay_mix == b.hybrid.delay_mix
        &&& a.hybrid.delay_fb == b.hybrid.delay_fb
        &&& a.hybrid.color_k == b.hybrid.color_k
        &&& a.hybrid.reverb_mix == b.hybrid.reverb_mix
    }
    &&& g.reverb ==> {
        &&& a.hybrid.reverb_gain == b.hybrid.reverb_gain
        &&& a.hybrid.bleed == b.hybrid.bleed
        &&& a.hybrid.span1 == b.hybrid.span1
        &&& a.hybrid.span2 == b.hybrid.span2
    }
}

/// Two racks are the same, but for what is not heard of delay and reverb.
spec fn like(g: Gates, s: Fx, t: Fx) -> bool {
    &&& s.rng == t.rng
    &&& s.drift == t.drift
    &&& s.dist == t.dist
    &&& s.phaser == t.phaser
    &&& s.chorus == t.chorus
    &&& s.trem_ph == t.trem_ph
    &&& g.hybrid() ==> s.delay == t.delay
    &&& g.reverb ==> s.reverb == t.reverb
}

proof fn lemma_alike_step(m: Sem, a: RackBlock, b: RackBlock, s: Fx, t: Fx, x: Bits)
    requires
        alike(a, b),
        like(a.gates, s, t),
    ensures
        fx::rack_step(m, a, s, x).1 == fx::rack_step(m, b, t, x).1,
        like(a.gates, fx::rack_step(m, a, s, x).0, fx::rack_step(m, b, t, x).0),
{
}

proof fn lemma_alike_run(
    m: Sem,
    a: RackBlock,
    b: RackBlock,
    s: Fx,
    t: Fx,
    out: Seq<Bits>,
    k: nat,
)
    requires
        alike(a, b),
        like(a.gates, s, t),
    ensures
        fx::rack_run(m, a, s, out, k).1 == fx::rack_run(m, b, t, out, k).1,
        like(a.gates, fx::rack_run(m, a, s, out, k).0, fx::rack_run(m, b, t, out, k).0),
    decreases k,
{
    if k > 0 {
        let i = k - 1;
        lemma_alike_run(m, a, b, s, t, out, i as nat);
        let (s1, o1) = fx::rack_run(m, a, s, out, i as nat);
        let t1 = fx::rack_run(m, b, t, out, i as nat).0;
        lemma_alike_step(m, a, b, s1, t1, o1[i]);
    }
}

/// Setting `i` belongs to a section that is not heard.
pub open spec fn idle(m: Sem, q: [Bits; 63], i: int) -> bool {
    let g = fx::gates_of(m, q);
    ||| 58 <= i <= 61 && !g.dist
    ||| (i == 42 || i == 43) && !g.phaser
    ||| (i == 45 || i == 46) && !g.chorus
    ||| i == 48 && !g.trem
    ||| i == 49 && !g.analog()
    ||| 51 <= i <= 53 && !g.hybrid()
    ||| 55 <= i <= 57 && !g.reverb
}

/// The settings of a section that is not heard reach neither the block nor the
/// rack: however they are set, the block comes out the same, and so does the
/// rack, but for the delay time and the line lengths, which glide to where
/// they are set even while nothing is heard of them.
pub proof fn law_idle_settings_inert(
    m: Sem,
    q: [Bits; 63],
    p: [Bits; 63],
    sr: Bits,
    s: Fx,
    out: Seq<Bits>,
)
    requires
        forall|i: int| 0 <= i < 63 && !idle(m, q, i) ==> #[trigger] p[i] == q[i],
    ensures
        ({
            let (a, x) = fx::racked(m, q, sr, s, out);
            let (b, y) = fx::racked(m, p, sr, s, out);
            &&& x == y
            &&& a == (Fx {
                delay: Delay { smp: a.delay.smp, ..b.delay },
                reverb: Reverb {
                    l0: Line { len: a.reverb.l0.len, ..b.reverb.l0 },
                    l1: Line { len: a.reverb.l1.len, ..b.reverb.l1 },
                    l2: Line { len: a.reverb.l2.len, ..b.reverb.l2 },
                    l3: Line { len: a.reverb.l3.len, ..b.reverb.l3 },
                    ..b.reverb
                },
                ..b
            })
            &&& p[51] == q[51] && p[55] == q[55] ==> a == b
        }),
{
    let g = fx::gates_of(m, q);
    assert(p[62] == q[62] && p[41] == q[41] && p[44] == q[44]);
    assert(p[47] == q[47] && p[50] == q[50] && p[54] == q[54]);
    assert(fx::gates_of(m, p) == g);
    assert(g.dist ==> p[58] == q[58] && p[59] == q[59] && p[60] == q[60] && p[61] == q[61]);
    assert(g.phaser ==> p[42] == q[42] && p[43] == q[43]);
    assert(g.chorus ==> p[45] == q[45] && p[46] == q[46]);
    assert(g.trem ==> p[48] == q[48]);
    assert(g.analog() ==> p[49] == q[49]);
    assert(g.hybrid() ==> p[51] == q[51] && p[52] == q[52] && p[53] == q[53]);
    assert(g.reverb ==> p[55] == q[55] && p[56] == q[56] && p[57] == q[57]);
    if g.any() {
        let w = fx::wandered(m, s);
        let a = fx::rack_block(m, q, sr, w.drift);
        let b = fx::rack_block(m, p, sr, w.drift);
        assert(alike(a, b));
        let s1 = Fx {
            delay: hybrid::delay_moved(m, a.hybrid, w.delay),
            reverb: hybrid::reverb_moved(m, a.hybrid, w.reverb),
            ..w
        };
        let t1 = Fx {
            delay: hybrid::delay_moved(m, b.hybrid, w.delay),
            reverb: hybrid::reverb_moved(m, b.hybrid, w.reverb),
            ..w
        };
        assert(like(g, s1, t1));
        lemma_alike_run(m, a, b, s1, t1, out, out.len());
        law_section_bypassed(m, a, s1, out, out.len());
        law_section_bypassed(m, b, t1, out, out.len());
    }
}

/// A section that is not heard keeps its state through a whole block, but for
/// the delay time and the line lengths.
pub proof fn law_idle_section_kept(m: Sem, q: [Bits; 63], sr: Bits, s: Fx, out: Seq<Bits>)
    ensures
        ({
            let g = fx::gates_of(m, q);
            let after = fx::racked(m, q, sr, s, out).0;
            &&& !g.dist ==> after.dist == s.dist
            &&& !g.phaser ==> after.phaser == s.phaser
            &&& !g.chorus ==> after.chorus == s.chorus
            &&& !g.trem ==> after.trem_ph == s.trem_ph
            &&& !g.hybrid() ==> after.delay == (Delay { smp: after.delay.smp, ..s.delay })
            &&& !g.reverb ==> after.reverb == (Reverb {
                l0: Line { len: after.reverb.l0.len, ..s.reverb.l0 },
                l1: Line { len: after.reverb.l1.len, ..s.reverb.l1 },
                l2: Line { len: after.reverb.l2.len, ..s.reverb.l2 },
                l3: Line { len: after.reverb.l3.len, ..s.reverb.l3 },
                ..s.reverb
            })
        }),
{
    if fx::gates_of(m, q).any() {
        let w = fx::wandered(m, s);
        let a = fx::rack_block(m, q, sr, w.drift);
        let s1 = Fx {
            delay: hybrid::delay_moved(m, a.hybrid, w.delay),
            reverb: hybrid::reverb_moved(m, a.hybrid, w.reverb),
            ..w
        };
        law_section_bypassed(m, a, s1, out, out.len());
    }
}

// ---------------------------------------------------------------------------
// The order of the sections
// ---------------------------------------------------------------------------

/// The block with only the distortion heard.
pub open spec fn only_dist(b: RackBlock) -> RackBlock {
    RackBlock {
        gates: Gates {
            phaser: false,
            chorus: false,
            trem: false,
            delay: false,
            reverb: false,
            ..b.gates
        },
        ..b
    }
}

/// The block with only the analog section heard.
pub open spec fn only_analog(b: RackBlock) -> RackBlock {
    RackBlock { gates: Gates { dist: false, delay: false, reverb: false, ..b.gates }, ..b }
}

/// The block with only the hybrid section heard.
pub open spec fn only_hybrid(b: RackBlock) -> RackBlock {
    RackBlock {
        gates: Gates { dist: false, phaser: false, chorus: false, trem: false, ..b.gates },
        ..b
    }
}

/// One more sample, where only that sample of the input is new.
proof fn lemma_next(m: Sem, b: RackBlock, s: Fx, x: Seq<Bits>, y: Seq<Bits>, i: nat)
    requires
        i < x.len(),
        y == x.update(i as int, y[i as int]),
    ensures
        ({
            let (sx, ox) = fx::rack_run(m, b, s, x, i);
            let (after, z) = fx::rack_step(m, b, sx, y[i as int]);
            fx::rack_run(m, b, s, y, i + 1) == (after, ox.update(i as int, z))
        }),
{
    law_rack_is_causal(m, b, s, x, y, i);
    let (sx, ox) = fx::rack_run(m, b, s, x, i);
    let (sy, oy) = fx::rack_run(m, b, s, y, i);
    let (after, z) = fx::rack_step(m, b, sx, y[i as int]);
    assert(oy[i as int] == y[i as int]);
    assert forall|j: int| 0 <= j < x.len() implies #[trigger] oy.update(i as int, z)[j]
        == ox.update(i as int, z)[j] by {
        if j > i {
            assert(ox[j] == x[j] && oy[j] == y[j]);
        }
    }
    assert(oy.update(i as int, z) =~= ox.update(i as int, z));
}

/// A block through the rack is the block through the distortion, what comes
/// out of it through the analog section, and what comes out of that through
/// the hybrid section.
pub proof fn law_sections_in_order(m: Sem, b: RackBlock, s: Fx, out: Seq<Bits>, k: nat)
    requires
        k <= out.len(),
    ensures
        ({
            let (sd, od) = fx::rack_run(m, only_dist(b), s, out, k);
            let (sa, oa) = fx::rack_run(m, only_analog(b), s, od, k);
            let (sh, oh) = fx::rack_run(m, only_hybrid(b), s, oa, k);
            fx::rack_run(m, b, s, out, k) == (
                Fx {
                    dist: sd.dist,
                    phaser: sa.phaser,
                    chorus: sa.chorus,
                    trem_ph: sa.trem_ph,
                    delay: sh.delay,
                    reverb: sh.reverb,
                    ..s
                },
                oh,
            )
        }),
    decreases k,
{
    if k > 0 {
        let i = k - 1;
        let bd = only_dist(b);
        let ba = only_analog(b);
        let bh = only_hybrid(b);
        law_sections_in_order(m, b, s, out, i as nat);
        let (sd, od) = fx::rack_run(m, bd, s, out, i as nat);
        let (sa, oa) = fx::rack_run(m, ba, s, od, i as nat);
        let (sh, oh) = fx::rack_run(m, bh, s, oa, i as nat);
        let (sr, or) = fx::rack_run(m, b, s, out, i as nat);
        law_rack_is_causal(m, bd, s, out, out, i as nat);
        law_rack_is_causal(m, ba, s, od, od, i as nat);
        law_rack_is_causal(m, b, s, out, out, i as nat);
        let (sd1, y) = fx::rack_step(m, bd, sd, out[i]);
        let od1 = od.update(i, y);
        assert(fx::rack_run(m, bd, s, out, k) == (sd1, od1));
        lemma_next(m, ba, s, od, od1, i as nat);
        let (sa1, z) = fx::rack_step(m, ba, sa, y);
        let oa1 = oa.update(i, z);
        assert(fx::rack_run(m, ba, s, od1, k) == (sa1, oa1));
        lemma_next(m, bh, s, oa, oa1, i as nat);
        let (sh1, u) = fx::rack_step(m, bh, sh, z);
        assert(fx::rack_run(m, bh, s, oa1, k) == (sh1, oh.update(i, u)));
        assert(or[i] == out[i]);
        law_section_bypassed(m, bd, s, out, i as nat);
        law_section_bypassed(m, ba, s, od, i as nat);
        law_section_bypassed(m, bh, s, oa, i as nat);
        assert(fx::rack_step(m, b, sr, out[i]) == (
            Fx {
                dist: sd1.dist,
                phaser: sa1.phaser,
                chorus: sa1.chorus,
                trem_ph: sa1.trem_ph,
                delay: sh1.delay,
                reverb: sh1.reverb,
                ..s
            },
            u,
        ));
    }
}

/// Where nothing is heard nothing happens.
proof fn lemma_unheard(m: Sem, b: RackBlock, s: Fx, out: Seq<Bits>, k: nat)
    requires
        !b.gates.any(),
        k <= out.len(),
    ensures
        fx::rack_run(m, b, s, out, k) == (s, out),
    decreases k,
{
    if k > 0 {
        lemma_unheard(m, b, s, out, (k - 1) as nat);
        assert(out.update(k - 1, out[k - 1]) =~= out);
    }
}

/// The rack as it enters the samples of a block.
spec fn entered(m: Sem, q: [Bits; 63], sr: Bits, s: Fx) -> Fx {
    let w = fx::wandered(m, s);
    let b = fx::rack_block(m, q, sr, w.drift);
    Fx {
        delay: hybrid::delay_moved(m, b.hybrid, w.delay),
        reverb: hybrid::reverb_moved(m, b.hybrid, w.reverb),
        ..w
    }
}

/// A block with some mixes taken down is the run of the other sections.
proof fn lemma_some_heard(
    m: Sem,
    q: [Bits; 63],
    p: [Bits; 63],
    b: RackBlock,
    sr: Bits,
    s: Fx,
    out: Seq<Bits>,
)
    requires
        alike(b, fx::rack_block(m, p, sr, fx::wandered(m, s).drift)),
        p[51] == q[51],
        p[55] == q[55],
    ensures
        fx::racked(m, p, sr, s, out).1 == fx::rack_run(
            m,
            b,
            entered(m, q, sr, s),
            out,
            out.len(),
        ).1,
{
    let s1 = entered(m, q, sr, s);
    let c = fx::rack_block(m, p, sr, fx::wandered(m, s).drift);
    if b.gates.any() {
        assert(entered(m, p, sr, s) == s1);
        lemma_alike_run(m, b, c, s1, s1, out, out.len());
    } else {
        lemma_unheard(m, b, s1, out, out.len());
    }
}

/// The settings with the mixes of the analog and the hybrid section at 0.
pub open spec fn dist_settings(q: [Bits; 63]) -> [Bits; 63] {
    cells::put(
        cells::put(cells::put(cells::put(cells::put(q, 41, F0), 44, F0), 47, F0), 50, F0),
        54,
        F0,
    )
}

/// The settings with the mixes of the distortion and the hybrid section at 0.
pub open spec fn analog_settings(q: [Bits; 63]) -> [Bits; 63] {
    cells::put(cells::put(cells::put(q, 62, F0), 50, F0), 54, F0)
}

/// The settings with the mixes of the distortion and the analog section at 0.
pub open spec fn hybrid_settings(q: [Bits; 63]) -> [Bits; 63] {
    cells::put(cells::put(cells::put(cells::put(q, 62, F0), 41, F0), 44, F0), 47, F0)
}

/// The chain is distortion, then analog, then hybrid: a block through the rack
/// comes out as if it went through three racks like it, one after the other,
/// of which each has only the mixes of one section up.
pub proof fn law_chain_order(m: Sem, q: [Bits; 63], sr: Bits, s: Fx, out: Seq<Bits>)
    requires
        m.rounds(),
    ensures
        ({
            let x = fx::racked(m, dist_settings(q), sr, s, out).1;
            let y = fx::racked(m, analog_settings(q), sr, s, x).1;
            let z = fx::racked(m, hybrid_settings(q), sr, s, y).1;
            fx::racked(m, q, sr, s, out).1 == z
        }),
{
    let qd = dist_settings(q);
    let qa = analog_settings(q);
    let qh = hybrid_settings(q);
    law_low_mix_is_off(m, qd, 41);
    law_low_mix_is_off(m, qd, 44);
    law_low_mix_is_off(m, qd, 47);
    law_low_mix_is_off(m, qd, 50);
    law_low_mix_is_off(m, qd, 54);
    law_low_mix_is_off(m, qa, 62);
    law_low_mix_is_off(m, qa, 50);
    law_low_mix_is_off(m, qa, 54);
    law_low_mix_is_off(m, qh, 62);
    law_low_mix_is_off(m, qh, 41);
    law_low_mix_is_off(m, qh, 44);
    law_low_mix_is_off(m, qh, 47);
    let drift = fx::wandered(m, s).drift;
    let b = fx::rack_block(m, q, sr, drift);
    let s1 = entered(m, q, sr, s);
    let n = out.len();
    assert(alike(only_dist(b), fx::rack_block(m, qd, sr, drift)));
    assert(alike(only_analog(b), fx::rack_block(m, qa, sr, drift)));
    assert(alike(only_hybrid(b), fx::rack_block(m, qh, sr, drift)));
    lemma_some_heard(m, q, q, b, sr, s, out);
    lemma_some_heard(m, q, qd, only_dist(b), sr, s, out);
    let x = fx::racked(m, qd, sr, s, out).1;
    law_rack_is_causal(m, only_dist(b), s1, out, out, n);
    lemma_some_heard(m, q, qa, only_analog(b), sr, s, x);
    let y = fx::racked(m, qa, sr, s, x).1;
    law_rack_is_causal(m, only_analog(b), s1, x, x, n);
    lemma_some_heard(m, q, qh, only_hybrid(b), sr, s, y);
    law_sections_in_order(m, b, s1, out, n);
}

// ---------------------------------------------------------------------------
// Bounds
// ---------------------------------------------------------------------------

/// Every line length lies in 0 ..= 16380, and the crusher's count is not
/// negative.
pub open spec fn bounded(s: Fx) -> bool {
    &&& word::between(F0, s.reverb.l0.len, F16380)
    &&& word::between(F0, s.reverb.l1.len, F16380)
    &&& word::between(F0, s.reverb.l2.len, F16380)
    &&& word::between(F0, s.reverb.l3.len, F16380)
    &&& s.dist.crush_cnt >= 0
}

/// Every place in a reverb line lies in 0 ..= 16380.
pub open spec fn placed(r: Reverb) -> bool {
    r.l0.i <= 16380 && r.l1.i <= 16380 && r.l2.i <= 16380 && r.l3.i <= 16380
}

/// A new rack is within its bounds.
pub proof fn law_new_rack_bounded()
    ensures
        bounded(Fx::at_rest()),
        placed(Fx::at_rest().reverb),
{
}

proof fn lemma_line_end()
    ensures
        word::value(F16380) == 16380 * word::one(),
        word::finite(F16380),
{
    lemma2_to64();
    lemma_pow2_adds(10, 139);
    let p = pow2(139) as int;
    assert(word::units(F16380) == 0xff_f000 * p);
    assert(word::one() == 1024 * p);
}

proof fn lemma_line_step(m: Sem, l: Line, x: Bits)
    requires
        word::between(F0, l.len, F16380),
    ensures
        hybrid::fed(hybrid::heard(m, l), x).i <= 16380,
        hybrid::fed(hybrid::heard(m, l), x).len == l.len,
{
    rounding::lemma_one();
    lemma_line_end();
    rounding::lemma_between(F0, l.len, F16380);
    let one = word::one() as int;
    let u = word::units(l.len) as int;
    assert(u / one <= 16380) by (nonlinear_arith)
        requires
            0 <= u <= 16380 * one,
            one > 0,
    ;
    assert(hybrid::cells_in_use(l.len) <= 16380);
}

proof fn lemma_glide(m: Sem, len: Bits, goal: Bits)
    requires
        m.rounds(),
        word::between(F0, len, F16380),
        word::between(F0, goal, F16380),
    ensures
        word::between(F0, m.lerp(len, goal, F0_02), F16380),
{
    rounding::lemma_one();
    lemma_line_end();
    rounding::lemma_between(F0, len, F16380);
    rounding::lemma_between(F0, goal, F16380);
    let low: Bits = word::neg_of(F16380);
    assert(word::value(low) == -word::value(F16380));
    rounding::lemma_difference(m, goal, len, low, F16380);
    rounding::lemma_lerp_between(m, len, goal, F0_02);
    rounding::lemma_between(F0, m.lerp(len, goal, F0_02), F16380);
}

proof fn lemma_goals(m: Sem, q: [Bits; 63], sr: Bits)
    requires
        m.rounds(),
        word::between(F0, sr, RATE_MOST),
        !word::is_nan(q[55]),
    ensures
        forall|k: int|
            0 <= k < 4 ==> word::between(
                F0,
                #[trigger] hybrid::block_of(m, q, sr).line_goals[k],
                F16380,
            ),
{
    rounding::lemma_one();
    lemma_sizes();
    let one = word::one() as int;
    assert(RANGES[55] == (F0, F1, false));
    laws::settings::law_proportion(m, 55, q[55]);
    let size = params::mapped(m, 55, q[55]);
    rounding::lemma_between(F0, size, F1);
    let more = m.mul(size, F1_1);
    let c = word::value(F1_1);
    let z = word::value(size);
    assert(0 <= z * c <= (2 * one) * one) by (nonlinear_arith)
        requires
            0 <= z <= one,
            0 <= c <= 2 * one,
    ;
    rounding::lemma_product(m, size, F1_1, F0, 0x4000_0000);
    let full = m.add(F0_4, more);
    rounding::lemma_sum(m, F0_4, more, F0, 0x4080_0000);
    let sr_k = m.div(sr, F48000);
    rounding::lemma_between(F0, sr, RATE_MOST);
    let d = word::value(sr);
    let e = word::value(F48000);
    assert(0 * e <= d * one <= (8 * one) * e) by (nonlinear_arith)
        requires
            0 <= d <= 262144 * one,
            e >= 32768 * one,
            one > 0,
    ;
    rounding::lemma_quotient(m, sr, F48000, F0, 0x4100_0000);
    let scale = m.mul(full, sr_k);
    let f = word::value(full);
    let k = word::value(sr_k);
    assert(0 <= f * k <= (32 * one) * one) by (nonlinear_arith)
        requires
            0 <= f <= 4 * one,
            0 <= k <= 8 * one,
    ;
    rounding::lemma_product(m, full, sr_k, F0, 0x4200_0000);
    lemma_goal(m, F1687, scale);
    lemma_goal(m, F2039, scale);
    lemma_goal(m, F2503, scale);
    lemma_goal(m, F3023, scale);
}

proof fn lemma_goal(m: Sem, prime: Bits, scale: Bits)
    requires
        m.rounds(),
        word::between(F0, prime, 0x4580_0000),
        word::finite(scale),
        0 <= word::value(scale) <= 32 * word::one(),
    ensures
        word::between(F0, hybrid::line_goal(m, prime, scale), F16380),
{
    rounding::lemma_one();
    lemma_sizes();
    let one = word::one() as int;
    rounding::lemma_between(F0, prime, 0x4580_0000);
    let p = word::value(prime);
    let s = word::value(scale);
    assert(0 <= p * s <= (131072 * one) * one) by (nonlinear_arith)
        requires
            0 <= p <= 4096 * one,
            0 <= s <= 32 * one,
    ;
    rounding::lemma_product(m, prime, scale, F0, 0x4800_0000);
}

/// Some sizes, counted in ones.
proof fn lemma_sizes()
    ensures
        word::value(0x4000_0000) == 2 * word::one(),
        word::value(0x4080_0000) == 4 * word::one(),
        word::value(0x4100_0000) == 8 * word::one(),
        word::value(0x4200_0000) == 32 * word::one(),
        word::value(0x4580_0000) == 4096 * word::one(),
        word::value(0x4800_0000) == 131072 * word::one(),
        0 <= word::value(F0_4) <= word::one(),
        0 <= word::value(F1_1) <= 2 * word::one(),
        word::value(RATE_MOST) <= 262144 * word::one(),
        word::value(F48000) >= 32768 * word::one(),
{
    lemma2_to64();
    rounding::lemma_one();
    rounding::lemma_power(0x4000_0000);
    rounding::lemma_power(0x4080_0000);
    rounding::lemma_power(0x4100_0000);
    rounding::lemma_power(0x4200_0000);
    rounding::lemma_power(0x4580_0000);
    rounding::lemma_power(0x4700_0000);
    rounding::lemma_power(0x4800_0000);
    rounding::lemma_power(0x4880_0000);
    lemma_pow2_adds(149, 1);
    lemma_pow2_adds(149, 2);
    lemma_pow2_adds(149, 3);
    lemma_pow2_adds(149, 5);
    lemma_pow2_adds(149, 12);
    lemma_pow2_adds(149, 15);
    lemma_pow2_adds(149, 17);
    lemma_pow2_adds(149, 18);
    rounding::lemma_rank_is_value(F0, F0_4);
    rounding::lemma_rank_is_value(F0_4, F1);
    rounding::lemma_rank_is_value(F0, F1_1);
    rounding::lemma_rank_is_value(F1_1, 0x4000_0000);
    rounding::lemma_rank_is_value(RATE_MOST, 0x4880_0000);
    rounding::lemma_rank_is_value(0x4700_0000, F48000);
}

proof fn lemma_hold(m: Sem, q: [Bits; 63], sr: Bits)
    requires
        m.rounds(),
        !word::is_nan(q[58]),
    ensures
        distortion::block_of(m, q, sr).crush_n >= 1,
{
    rounding::lemma_one();
    assert(RANGES[58] == (F0, F1, false));
    laws::settings::law_proportion(m, 58, q[58]);
    let drive = params::mapped(m, 58, q[58]);
    rounding::lemma_between(F0, drive, F1);
    rounding::lemma_part(m, F23, drive);
    rounding::lemma_rank_is_value(F0, F23);
    let x = m.mul(drive, F23);
    let one = word::one() as int;
    lemma2_to64();
    lemma_pow2_adds(19, 130);
    let p = pow2(130) as int;
    assert(one == 0x8_0000 * p);
    assert(word::units(F23) == 0xb8_0000 * p);
    let u = word::units(x) as int;
    assert(0 <= u / one <= 23) by (nonlinear_arith)
        requires
            0 <= u <= 23 * one,
            one > 0,
    ;
}

proof fn lemma_bounded_step(m: Sem, b: RackBlock, s: Fx, x: Bits)
    requires
        bounded(s),
        b.dist.crush_n >= 1,
    ensures
        bounded(fx::rack_step(m, b, s, x).0),
        b.gates.reverb ==> placed(fx::rack_step(m, b, s, x).0.reverb),
{
    assert forall|l: Line, y: Bits|
        word::between(F0, l.len, F16380) implies (#[trigger] hybrid::fed(hybrid::heard(m, l), y)).i
        <= 16380 && hybrid::fed(hybrid::heard(m, l), y).len == l.len by {
        lemma_line_step(m, l, y);
    }
}

proof fn lemma_bounded_run(m: Sem, b: RackBlock, s: Fx, out: Seq<Bits>, k: nat)
    requires
        bounded(s),
        b.dist.crush_n >= 1,
    ensures
        bounded(fx::rack_run(m, b, s, out, k).0),
        b.gates.reverb && k > 0 ==> placed(fx::rack_run(m, b, s, out, k).0.reverb),
    decreases k,
{
    if k > 0 {
        let i = k - 1;
        lemma_bounded_run(m, b, s, out, i as nat);
        let (s1, o1) = fx::rack_run(m, b, s, out, i as nat);
        lemma_bounded_step(m, b, s1, o1[i]);
    }
}

/// Up to 192000 samples a second every block keeps the rack within its bounds,
/// and leaves every place in a reverb line that it ran through within 16380.
pub proof fn law_rack_stays_bounded(m: Sem, q: [Bits; 63], sr: Bits, s: Fx, out: Seq<Bits>)
    requires
        m.rounds(),
        word::between(F0, sr, RATE_MOST),
        !word::is_nan(q[55]),
        !word::is_nan(q[58]),
        bounded(s),
    ensures
        bounded(fx::racked(m, q, sr, s, out).0),
        fx::audible(m, q, 54) && out.len() > 0 ==> placed(fx::racked(m, q, sr, s, out).0.reverb),
{
    if fx::gates_of(m, q).any() {
        let w = fx::wandered(m, s);
        let b = fx::rack_block(m, q, sr, w.drift);
        let s1 = entered(m, q, sr, s);
        lemma_goals(m, q, sr);
        lemma_hold(m, q, sr);
        let g = b.hybrid.line_goals;
        assert(word::between(F0, g[0], F16380) && word::between(F0, g[1], F16380));
        assert(word::between(F0, g[2], F16380) && word::between(F0, g[3], F16380));
        lemma_glide(m, s.reverb.l0.len, g[0]);
        lemma_glide(m, s.reverb.l1.len, g[1]);
        lemma_glide(m, s.reverb.l2.len, g[2]);
        lemma_glide(m, s.reverb.l3.len, g[3]);
        lemma_bounded_run(m, b, s1, out, out.len());
    }
}

} // verus!
