//! The hybrid section: a delay whose repeats are damped and bleed into a
//! reverb of two diffusers and four lines.

use crate::alu::{Alu, Op, Sem};
use crate::cells;
use crate::consts::{
    F0, F0_02, F0_03, F0_26, F0_35, F0_4, F0_5, F0_55, F0_72, F131068, F142, F16380, F1687, F1_1,
    F2039, F2503, F3023, F379, F400, F4800, F48000, F4_6,
};
use crate::fx::distortion;
use crate::fx::ring;
use crate::params;
use crate::params::map_p;
use crate::word;
use crate::word::Bits;
use vstd::prelude::*;

verus! {

/// Cells of the delay ring.
pub const DELAY_LEN: usize = 131072;

/// Cells of a reverb line.
pub const LINE_LEN: usize = 16384;

/// What is fixed for a block.
#[derive(Clone, Copy, Debug)]
pub struct HybridBlock {
    pub delay_mix: Bits,
    pub delay_fb: Bits,
    /// Coefficient of the filter that damps the repeats.
    pub color_k: Bits,
    /// Where the delay time and the four line lengths are heading.
    pub delay_goal: Bits,
    pub line_goals: [Bits; 4],
    pub reverb_mix: Bits,
    /// How much of what the lines give back they are fed again.
    pub reverb_gain: Bits,
    pub bleed: Bits,
    /// Cells in use of the two diffusers.
    pub span1: usize,
    pub span2: usize,
}

impl HybridBlock {
    pub open spec fn wf(self) -> bool {
        self.span1 <= 510 && self.span2 <= 1022
    }
}

/// `per_48k` cells at 48 kHz, scaled to the sample rate and kept within a
/// diffuser.
pub open spec fn span_of(m: Sem, per_48k: Bits, sr_k: Bits, most: int) -> usize {
    let s = word::saturated(word::trunc_of(m.mul(per_48k, sr_k)), 0, usize::MAX as int);
    (if s < most {
        s
    } else {
        most
    }) as usize
}

fn span<F: Fn(Op, Bits, Bits) -> Bits>(alu: &Alu<F>, per_48k: Bits, sr_k: Bits, most: usize) -> (r:
    usize)
    requires
        alu.ready(),
    ensures
        r <= most,
        forall|m: Sem| #[trigger] alu.computes(m) ==> r == span_of(m, per_48k, sr_k, most as int),
{
    let cells = alu.mul(per_48k, sr_k);
    let s: usize = word::to_usize(cells);
    if s < most {
        s
    } else {
        most
    }
}

/// Where the length of a line heads: `prime` cells at full scale and 48 kHz,
/// scaled, and kept within the line.
pub open spec fn line_goal(m: Sem, prime: Bits, scale: Bits) -> Bits {
    word::min_of(m.mul(prime, scale), F16380)
}

pub open spec fn block_of(m: Sem, q: [Bits; 63], sr: Bits) -> HybridBlock {
    let sr_k = m.div(sr, F48000);
    let scale = m.mul(m.add(F0_4, m.mul(params::mapped(m, 55, q[55]), F1_1)), sr_k);
    HybridBlock {
        delay_mix: params::mapped(m, 50, q[50]),
        delay_fb: params::mapped(m, 52, q[52]),
        color_k: distortion::pole_of(m, F400, F4_6, params::mapped(m, 53, q[53]), sr),
        delay_goal: word::min_of(m.mul(params::mapped(m, 51, q[51]), sr), F131068),
        line_goals: [
            line_goal(m, F1687, scale),
            line_goal(m, F2039, scale),
            line_goal(m, F2503, scale),
            line_goal(m, F3023, scale),
        ],
        reverb_mix: params::mapped(m, 54, q[54]),
        reverb_gain: m.add(F0_72, m.mul(params::mapped(m, 56, q[56]), F0_26)),
        bleed: params::mapped(m, 57, q[57]),
        span1: span_of(m, F142, sr_k, 510),
        span2: span_of(m, F379, sr_k, 1022),
    }
}

pub fn block<F: Fn(Op, Bits, Bits) -> Bits>(alu: &Alu<F>, q: &[Bits; 63], sr: Bits) -> (r:
    HybridBlock)
    requires
        alu.ready(),
    ensures
        r.wf(),
        forall|m: Sem| #[trigger] alu.computes(m) ==> r == block_of(m, *q, sr),
{
    let sr_k = alu.div(sr, F48000);
    let delay_mix = map_p(alu, 50, q[50]);
    let reverb_mix = map_p(alu, 54, q[54]);
    let delay_fb = map_p(alu, 52, q[52]);
    let color = map_p(alu, 53, q[53]);
    let size = map_p(alu, 55, q[55]);
    let hold = map_p(alu, 56, q[56]);
    let bleed = map_p(alu, 57, q[57]);
    let time = map_p(alu, 51, q[51]);
    let cells = alu.mul(time, sr);
    let delay_goal = word::min(cells, F131068);
    let color_k = distortion::pole(alu, F400, F4_6, color, sr);
    let more = alu.mul(hold, F0_26);
    let reverb_gain = alu.add(F0_72, more);
    let room = alu.mul(size, F1_1);
    let full = alu.add(F0_4, room);
    let scale = alu.mul(full, sr_k);
    let g0 = alu.mul(F1687, scale);
    let g1 = alu.mul(F2039, scale);
    let g2 = alu.mul(F2503, scale);
    let g3 = alu.mul(F3023, scale);
    let line_goals = [
        word::min(g0, F16380),
        word::min(g1, F16380),
        word::min(g2, F16380),
        word::min(g3, F16380),
    ];
    let span1: usize = span(alu, F142, sr_k, 510);
    let span2: usize = span(alu, F379, sr_k, 1022);
    let r = HybridBlock {
        delay_mix,
        delay_fb,
        color_k,
        delay_goal,
        line_goals,
        reverb_mix,
        reverb_gain,
        bleed,
        span1,
        span2,
    };
    proof {
        assert forall|m: Sem| #[trigger] alu.computes(m) implies r == block_of(m, *q, sr) by {
            assert(r.line_goals =~= block_of(m, *q, sr).line_goals);
        }
    }
    r
}

// ---------------------------------------------------------------------------
// Delay
// ---------------------------------------------------------------------------

pub struct Delay {
    pub ring: Box<[Bits; 131072]>,
    pub w: usize,
    pub lp: Bits,
    /// Delay time of the moment, in cells.
    pub smp: Bits,
}

/// The delay time gliding on, once per block.
pub open spec fn delay_moved(m: Sem, b: HybridBlock, s: Delay) -> Delay {
    Delay { smp: m.lerp(s.smp, b.delay_goal, F0_03), ..s }
}

/// One sample through the delay: what is read from the ring, damped, is fed
/// back together with the sample.
pub open spec fn delayed(m: Sem, b: HybridBlock, s: Delay, x: Bits) -> (Delay, Bits) {
    let echo = ring::tapped(m, *s.ring, s.w as int, s.smp);
    let lp = m.chase(s.lp, echo, b.color_k);
    (
        Delay {
            ring: Box::new(cells::put(*s.ring, s.w as int, m.add(x, m.mul(lp, b.delay_fb)))),
            w: ring::after(s.w as int, 131072) as usize,
            lp,
            ..s
        },
        echo,
    )
}

impl Delay {
    pub open spec fn wf(self) -> bool {
        self.w < 131072
    }

    pub open spec fn at_rest() -> Delay {
        Delay { ring: Box::new(cells::filled(F0)), w: 0, lp: F0, smp: F4800 }
    }

    pub fn new() -> (r: Delay)
        ensures
            r == Delay::at_rest(),
    {
        Delay { ring: Box::new([F0; 131072]), w: 0, lp: F0, smp: F4800 }
    }

    pub fn glide<F: Fn(Op, Bits, Bits) -> Bits>(&mut self, alu: &Alu<F>, b: &HybridBlock)
        requires
            alu.ready(),
            old(self).wf(),
        ensures
            final(self).wf(),
            forall|m: Sem| #[trigger]
                alu.computes(m) ==> *final(self) == delay_moved(m, *b, *old(self)),
    {
        self.smp = alu.lerp(self.smp, b.delay_goal, F0_03);
    }

    pub fn step<F: Fn(Op, Bits, Bits) -> Bits>(
        &mut self,
        alu: &Alu<F>,
        b: &HybridBlock,
        x: Bits,
    ) -> (r: Bits)
        requires
            alu.ready(),
            old(self).wf(),
        ensures
            final(self).wf(),
            forall|m: Sem| #[trigger]
                alu.computes(m) ==> (*final(self), r) == delayed(m, *b, *old(self), x),
    {
        let echo = ring::tap(alu, &self.ring, self.w, self.smp);
        self.lp = alu.chase(self.lp, echo, b.color_k);
        let back = alu.mul(self.lp, b.delay_fb);
        let fed = alu.add(x, back);
        self.ring[self.w] = fed;
        self.w = if self.w + 1 < DELAY_LEN {
            self.w + 1
        } else {
            0
        };
        echo
    }
}

// ---------------------------------------------------------------------------
// Reverb
// ---------------------------------------------------------------------------

/// An all-pass diffuser over a ring of up to `N` cells.
pub struct Diffuser<const N: usize> {
    pub ring: Box<[Bits; N]>,
    pub i: usize,
}

/// One sample through a diffuser of which `span` cells are in use.
pub open spec fn diffused<const N: usize>(m: Sem, s: Diffuser<N>, span: usize, d: Bits) -> (
    Diffuser<N>,
    Bits,
) {
    let r = s.ring[s.i as int];
    let t = m.add(d, m.mul(F0_5, r));
    (
        Diffuser {
            ring: Box::new(cells::put(*s.ring, s.i as int, t)),
            i: ring::after(s.i as int, span as int) as usize,
        },
        m.sub(r, m.mul(F0_5, t)),
    )
}

impl<const N: usize> Diffuser<N> {
    pub open spec fn wf(self) -> bool {
        self.i < N
    }

    pub open spec fn at_rest() -> Diffuser<N> {
        Diffuser { ring: Box::new(cells::filled(F0)), i: 0 }
    }

    pub fn step<F: Fn(Op, Bits, Bits) -> Bits>(&mut self, alu: &Alu<F>, span: usize, d: Bits) -> (r:
        Bits)
        requires
            alu.ready(),
            old(self).wf(),
            span <= N,
        ensures
            final(self).wf(),
            forall|m: Sem| #[trigger]
                alu.computes(m) ==> (*final(self), r) == diffused(m, *old(self), span, d),
    {
        let r = self.ring[self.i];
        let half = alu.mul(F0_5, r);
        let t = alu.add(d, half);
        self.ring[self.i] = t;
        let back = alu.mul(F0_5, t);
        self.i = if self.i + 1 < span {
            self.i + 1
        } else {
            0
        };
        alu.sub(r, back)
    }
}

/// A reverb line: a ring, the place in it, the damped value read last, and
/// the length of the moment.
pub struct Line {
    pub ring: Box<[Bits; 16384]>,
    pub i: usize,
    pub lp: Bits,
    pub len: Bits,
}

/// Cells in use of a line: at least 32, at most all.
pub open spec fn cells_in_use(len: Bits) -> int {
    word::saturated(
        word::saturated(word::trunc_of(len), 0, usize::MAX as int),
        32,
        16384,
    )
}

/// The line read at its place, which starts over at the end of what is in
/// use, and the reading damped.
pub open spec fn heard(m: Sem, s: Line) -> Line {
    let i = if s.i >= cells_in_use(s.len) {
        0
    } else {
        s.i
    };
    Line { i, lp: m.chase(s.lp, s.ring[i as int], F0_35), ..s }
}

/// The line fed at its place, which moves on.
pub open spec fn fed(s: Line, x: Bits) -> Line {
    Line { ring: Box::new(cells::put(*s.ring, s.i as int, x)), i: (s.i + 1) as usize, ..s }
}

impl Line {
    pub open spec fn wf(self) -> bool {
        self.i <= 16384
    }

    pub open spec fn at_rest(len: Bits) -> Line {
        Line { ring: Box::new(cells::filled(F0)), i: 0, lp: F0, len }
    }

    pub fn new(len: Bits) -> (r: Line)
        ensures
            r == Line::at_rest(len),
    {
        Line { ring: Box::new([F0; 16384]), i: 0, lp: F0, len }
    }

    fn hear<F: Fn(Op, Bits, Bits) -> Bits>(&mut self, alu: &Alu<F>)
        requires
            alu.ready(),
        ensures
            final(self).i < 16384,
            forall|m: Sem| #[trigger] alu.computes(m) ==> *final(self) == heard(m, *old(self)),
    {
        let n: usize = word::to_usize(self.len);
        let n: usize = if n < 32 {
            32
        } else if n > LINE_LEN {
            LINE_LEN
        } else {
            n
        };
        if self.i >= n {
            self.i = 0;
        }
        let x = self.ring[self.i];
        self.lp = alu.chase(self.lp, x, F0_35);
    }

    fn feed(&mut self, x: Bits)
        requires
            old(self).i < 16384,
        ensures
            final(self).wf(),
            *final(self) == fed(*old(self), x),
    {
        self.ring[self.i] = x;
        self.i = self.i + 1;
    }
}

pub struct Reverb {
    pub ap1: Diffuser<512>,
    pub ap2: Diffuser<1024>,
    pub l0: Line,
    pub l1: Line,
    pub l2: Line,
    pub l3: Line,
}

/// The line lengths gliding on, once per block.
pub open spec fn reverb_moved(m: Sem, b: HybridBlock, s: Reverb) -> Reverb {
    Reverb {
        l0: Line { len: m.lerp(s.l0.len, b.line_goals[0], F0_02), ..s.l0 },
        l1: Line { len: m.lerp(s.l1.len, b.line_goals[1], F0_02), ..s.l1 },
        l2: Line { len: m.lerp(s.l2.len, b.line_goals[2], F0_02), ..s.l2 },
        l3: Line { len: m.lerp(s.l3.len, b.line_goals[3], F0_02), ..s.l3 },
        ..s
    }
}

/// What line gets what: the sum of all four, and three sums in which two of
/// them count negative, halved.
pub open spec fn scattered(m: Sem, a: Bits, b: Bits, c: Bits, d: Bits) -> (Bits, Bits, Bits, Bits) {
    (
        m.mul(m.add(m.add(m.add(a, b), c), d), F0_5),
        m.mul(m.sub(m.add(m.sub(a, b), c), d), F0_5),
        m.mul(m.sub(m.sub(m.add(a, b), c), d), F0_5),
        m.mul(m.add(m.sub(m.sub(a, b), c), d), F0_5),
    )
}

/// One sample through the reverb, with the echo bled in.
pub open spec fn reverberated(m: Sem, b: HybridBlock, s: Reverb, x: Bits, echo: Bits) -> (
    Reverb,
    Bits,
) {
    let d = m.mul(m.add(x, m.mul(echo, b.bleed)), F0_55);
    let (ap1, d) = diffused(m, s.ap1, b.span1, d);
    let (ap2, d) = diffused(m, s.ap2, b.span2, d);
    let l0 = heard(m, s.l0);
    let l1 = heard(m, s.l1);
    let l2 = heard(m, s.l2);
    let l3 = heard(m, s.l3);
    let (m0, m1, m2, m3) = scattered(m, l0.lp, l1.lp, l2.lp, l3.lp);
    let g = b.reverb_gain;
    (
        Reverb {
            ap1,
            ap2,
            l0: fed(l0, m.add(d, m.mul(g, m0))),
            l1: fed(l1, m.add(d, m.mul(g, m1))),
            l2: fed(l2, m.add(d, m.mul(g, m2))),
            l3: fed(l3, m.add(d, m.mul(g, m3))),
        },
        m.mul(m.add(m.add(m.add(l0.lp, l1.lp), l2.lp), l3.lp), F0_35),
    )
}

fn scatter<F: Fn(Op, Bits, Bits) -> Bits>(alu: &Alu<F>, a: Bits, b: Bits, c: Bits, d: Bits) -> (r: (
    Bits,
    Bits,
    Bits,
    Bits,
))
    requires
        alu.ready(),
    ensures
        forall|m: Sem| #[trigger] alu.computes(m) ==> r == scattered(m, a, b, c, d),
{
    let sum = alu.add(a, b);
    let gap = alu.sub(a, b);
    let x = alu.add(sum, c);
    let x = alu.add(x, d);
    let m0 = alu.mul(x, F0_5);
    let x = alu.add(gap, c);
    let x = alu.sub(x, d);
    let m1 = alu.mul(x, F0_5);
    let x = alu.sub(sum, c);
    let x = alu.sub(x, d);
    let m2 = alu.mul(x, F0_5);
    let x = alu.sub(gap, c);
    let x = alu.add(x, d);
    let m3 = alu.mul(x, F0_5);
    (m0, m1, m2, m3)
}

impl Reverb {
    pub open spec fn wf(self) -> bool {
        &&& self.ap1.wf()
        &&& self.ap2.wf()
        &&& self.l0.wf()
        &&& self.l1.wf()
        &&& self.l2.wf()
        &&& self.l3.wf()
    }

    pub open spec fn at_rest() -> Reverb {
        Reverb {
            ap1: Diffuser::<512>::at_rest(),
            ap2: Diffuser::<1024>::at_rest(),
            l0: Line::at_rest(F1687),
            l1: Line::at_rest(F2039),
            l2: Line::at_rest(F2503),
            l3: Line::at_rest(F3023),
        }
    }

    pub fn new() -> (r: Reverb)
        ensures
            r == Reverb::at_rest(),
    {
        Reverb {
            ap1: Diffuser { ring: Box::new([F0; 512]), i: 0 },
            ap2: Diffuser { ring: Box::new([F0; 1024]), i: 0 },
            l0: Line::new(F1687),
            l1: Line::new(F2039),
            l2: Line::new(F2503),
            l3: Line::new(F3023),
        }
    }

    pub fn glide<F: Fn(Op, Bits, Bits) -> Bits>(&mut self, alu: &Alu<F>, b: &HybridBlock)
        requires
            alu.ready(),
            old(self).wf(),
        ensures
            final(self).wf(),
            forall|m: Sem| #[trigger]
                alu.computes(m) ==> *final(self) == reverb_moved(m, *b, *old(self)),
    {
        self.l0.len = alu.lerp(self.l0.len, b.line_goals[0], F0_02);
        self.l1.len = alu.lerp(self.l1.len, b.line_goals[1], F0_02);
        self.l2.len = alu.lerp(self.l2.len, b.line_goals[2], F0_02);
        self.l3.len = alu.lerp(self.l3.len, b.line_goals[3], F0_02);
    }

    pub fn step<F: Fn(Op, Bits, Bits) -> Bits>(
        &mut self,
        alu: &Alu<F>,
        b: &HybridBlock,
        x: Bits,
        echo: Bits,
    ) -> (r: Bits)
        requires
            alu.ready(),
            old(self).wf(),
            b.wf(),
        ensures
            final(self).wf(),
            forall|m: Sem| #[trigger]
                alu.computes(m) ==> (*final(self), r) == reverberated(m, *b, *old(self), x, echo),
    {
        let bled = alu.mul(echo, b.bleed);
        let sum = alu.add(x, bled);
        let d = alu.mul(sum, F0_55);
        let d = self.ap1.step(alu, b.span1, d);
        let d = self.ap2.step(alu, b.span2, d);
        self.l0.hear(alu);
        self.l1.hear(alu);
        self.l2.hear(alu);
        self.l3.hear(alu);
        let (m0, m1, m2, m3) = scatter(alu, self.l0.lp, self.l1.lp, self.l2.lp, self.l3.lp);
        let back = alu.mul(b.reverb_gain, m0);
        let y = alu.add(d, back);
        self.l0.feed(y);
        let back = alu.mul(b.reverb_gain, m1);
        let y = alu.add(d, back);
        self.l1.feed(y);
        let back = alu.mul(b.reverb_gain, m2);
        let y = alu.add(d, back);
        self.l2.feed(y);
        let back = alu.mul(b.reverb_gain, m3);
        let y = alu.add(d, back);
        self.l3.feed(y);
        let sum = alu.add(self.l0.lp, self.l1.lp);
        let sum = alu.add(sum, self.l2.lp);
        let sum = alu.add(sum, self.l3.lp);
        alu.mul(sum, F0_35)
    }
}

} // verus!
