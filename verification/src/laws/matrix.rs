//! What the modulation matrix adds to the settings, in numbers.

use crate::alu::Sem;
use crate::block;
use crate::block::Route;
use crate::engine::RiotCore;
use crate::laws;
use crate::rounding::reals;
use crate::rounding::reals::{dist, num, size};
use crate::word;
use crate::word::Bits;
use vstd::prelude::*;

verus! {

/// What a route adds: how far its sweep reaches, times its own depth.
pub open spec fn pull(r: Route, reach1: real, reach2: real) -> real {
    if r.src == 1 {
        reach2 * num(r.depth)
    } else {
        reach1 * num(r.depth)
    }
}

/// What the first `k` routes add to setting `i` together.
pub open spec fn pull_on(routes: [Route; 16], k: nat, reach1: real, reach2: real, i: int) -> real
    decreases k,
{
    if k == 0 {
        0real
    } else {
        pull_on(routes, (k - 1) as nat, reach1, reach2, i) + if routes[k - 1].param == i {
            pull(routes[k - 1], reach1, reach2)
        } else {
            0real
        }
    }
}

/// How much of it there is, whatever the signs.
pub open spec fn effort(routes: [Route; 16], k: nat, reach1: real, reach2: real, i: int) -> real
    decreases k,
{
    if k == 0 {
        0real
    } else {
        effort(routes, (k - 1) as nat, reach1, reach2, i) + if routes[k - 1].param == i {
            size(pull(routes[k - 1], reach1, reach2))
        } else {
            0real
        }
    }
}

proof fn lemma_effort(routes: [Route; 16], k: nat, reach1: real, reach2: real, i: int)
    ensures
        size(pull_on(routes, k, reach1, reach2, i)) <= effort(routes, k, reach1, reach2, i),
    decreases k,
{
    if k > 0 {
        lemma_effort(routes, (k - 1) as nat, reach1, reach2, i);
    }
}

/// The sum so far and one more part, before it is rounded.
proof fn lemma_partly(x: real, exact: real, p: real, part: real, off: real, all: real)
    requires
        dist(x, exact) <= off,
        off <= 15real * (4real * all / 8388608real + 4real * reals::tiny()),
        size(exact) <= all,
        dist(part, p) <= reals::slack(p),
        4real * (all + size(p)) <= reals::vast(),
    ensures
        size(x + part) <= reals::vast(),
        size(x + part) <= all + size(p) + (all + size(p)) / 100000real + 100real * reals::tiny(),
{
    reals::lemma_tiny();
    assert(size(x) <= all + off);
    assert(size(part) <= size(p) + reals::slack(p));
    assert(size(x + part) <= size(x) + size(part));
}

/// And after.
proof fn lemma_one_more(
    r: real,
    x: real,
    exact: real,
    p: real,
    part: real,
    off: real,
    all: real,
)
    requires
        dist(x, exact) <= off,
        dist(part, p) <= reals::slack(p),
        size(x + part) <= all + size(p) + (all + size(p)) / 100000real + 100real * reals::tiny(),
        dist(r, x + part) <= reals::slack(x + part),
        all >= 0real,
    ensures
        dist(r, exact + p) <= off + (4real * (all + size(p)) / 8388608real + 4real
            * reals::tiny()),
{
    reals::lemma_tiny();
    assert(dist(r, exact + p) <= dist(r, x + part) + dist(x, exact) + dist(part, p));
}

/// A route adds to its setting how far its sweep reaches times its own depth,
/// and the routes onto one setting add up: up to four parts in 2^23 a route
/// of all that comes together.
pub proof fn law_routes_add_up(
    m: Sem,
    q: [Bits; 63],
    routes: [Route; 16],
    k: nat,
    mod1: Bits,
    mod2: Bits,
    i: int,
)
    requires
        m.rounds(),
        k <= 16,
        0 <= i < 63,
        word::finite(q[i]),
        word::finite(mod1),
        word::finite(mod2),
        forall|r: int| 0 <= r < 16 ==> (#[trigger] routes[r]).wf(),
        forall|r: int| 0 <= r < k ==> word::finite((#[trigger] routes[r]).depth),
        4real * (size(num(q[i])) + effort(routes, k, num(mod1), num(mod2), i)) <= reals::vast(),
    ensures
        ({
            let x = block::routed(m, q, routes, k, mod1, mod2)[i];
            let all = size(num(q[i])) + effort(routes, k, num(mod1), num(mod2), i);
            &&& word::finite(x)
            &&& dist(num(x), num(q[i]) + pull_on(routes, k, num(mod1), num(mod2), i)) <= (
            k as real) * (4real * all / 8388608real + 4real * reals::tiny())
        }),
    decreases k,
{
    reals::lemma_tiny();
    let a = num(mod1);
    let b = num(mod2);
    let u = reals::tiny();
    if k == 0 {
        let all = size(num(q[i])) + effort(routes, k, a, b, i);
        assert((k as real) * (4real * all / 8388608real + 4real * u) == 0real) by (nonlinear_arith)
            requires
                k == 0,
        ;
    } else {
        let j = (k - 1) as nat;
        let r = routes[k - 1];
        assert(r.wf() && word::finite(r.depth));
        lemma_effort(routes, j, a, b, i);
        law_routes_add_up(m, q, routes, j, mod1, mod2, i);
        let before = block::routed(m, q, routes, j, mod1, mod2);
        let all0 = size(num(q[i])) + effort(routes, j, a, b, i);
        let all = size(num(q[i])) + effort(routes, k, a, b, i);
        let unit0 = 4real * all0 / 8388608real + 4real * u;
        let unit = 4real * all / 8388608real + 4real * u;
        let n = j as real;
        assert(n * unit0 <= n * unit && n * unit0 <= 15real * unit0 && (n + 1real) * unit == n
            * unit + unit && 0real <= n * unit) by (nonlinear_arith)
            requires
                0real <= n <= 15real,
                0real <= unit0 <= unit,
        ;
        assert(k as real == n + 1real);
        if r.param == i {
            let reach = if r.src == 1 {
                mod2
            } else {
                mod1
            };
            let p = pull(r, a, b);
            assert(p == num(reach) * num(r.depth));
            assert(all == all0 + size(p));
            reals::lemma_mul(m, reach, r.depth);
            let part = m.mul(reach, r.depth);
            let exact = num(q[i]) + pull_on(routes, j, a, b, i);
            assert(size(exact) <= all0);
            lemma_partly(num(before[i]), exact, p, num(part), n * unit0, all0);
            reals::lemma_add(m, before[i], part);
            lemma_one_more(
                num(m.add(before[i], part)),
                num(before[i]),
                exact,
                p,
                num(part),
                n * unit0,
                all0,
            );
            assert(num(q[i]) + pull_on(routes, k, a, b, i) == exact + p);
        } else {
            assert(all == all0);
            assert(block::routed(m, q, routes, k, mod1, mod2)[i] == before[i]);
        }
    }
}

/// Of two routes onto one setting that no other route points at, of which one
/// goes twice as deep, it moves the setting twice as far.
pub proof fn law_twice_as_deep(
    m: Sem,
    q: [Bits; 63],
    routes: [Route; 16],
    deeper: [Route; 16],
    mod1: Bits,
    mod2: Bits,
)
    requires
        m.rounds(),
        word::finite(mod1),
        word::finite(mod2),
        forall|r: int| 0 <= r < 16 ==> (#[trigger] routes[r]).wf(),
        forall|r: int| 0 <= r < 16 ==> (#[trigger] deeper[r]).wf(),
        deeper[0].param == routes[0].param,
        deeper[0].src == routes[0].src,
        word::finite(routes[0].depth),
        word::finite(deeper[0].depth),
        num(deeper[0].depth) == 2real * num(routes[0].depth),
        word::finite(q[routes[0].param as int]),
        4real * (size(num(q[routes[0].param as int])) + size(
            pull(deeper[0], num(mod1), num(mod2)),
        )) <= reals::vast(),
    ensures
        ({
            let i = routes[0].param as int;
            let x = num(q[i]);
            let y = num(block::routed(m, q, routes, 1, mod1, mod2)[i]);
            let z = num(block::routed(m, q, deeper, 1, mod1, mod2)[i]);
            dist(z - x, 2real * (y - x)) <= (size(x) + size(
                pull(deeper[0], num(mod1), num(mod2)),
            )) / 500000real + 16real * reals::tiny()
        }),
{
    reals::lemma_tiny();
    let i = routes[0].param as int;
    let a = num(mod1);
    let b = num(mod2);
    assert(routes[0].wf() && deeper[0].wf());
    let p = pull(routes[0], a, b);
    let d = pull(deeper[0], a, b);
    let f = num(routes[0].depth);
    let g = num(deeper[0].depth);
    assert(d == 2real * p) by (nonlinear_arith)
        requires
            p == a * f && d == a * g || p == b * f && d == b * g,
            g == 2real * f,
    ;
    assert(pull_on(routes, 0, a, b, i) == 0real && effort(routes, 0, a, b, i) == 0real);
    assert(pull_on(deeper, 0, a, b, i) == 0real && effort(deeper, 0, a, b, i) == 0real);
    assert(pull_on(routes, 1, a, b, i) == p && effort(routes, 1, a, b, i) == size(p));
    assert(pull_on(deeper, 1, a, b, i) == d && effort(deeper, 1, a, b, i) == size(d));
    law_routes_add_up(m, q, routes, 1, mod1, mod2, i);
    law_routes_add_up(m, q, deeper, 1, mod1, mod2, i);
}

/// The same of a block: every setting as modulated is the setting and what the
/// routes in use add to it.
pub proof fn law_block_is_modulated(m: Sem, s: RiotCore, n: usize, i: int)
    requires
        m.rounds(),
        s.wf(),
        0 <= i < 63,
        word::finite(s.params[i]),
        word::finite(laws::modulation::reaches(m, s, n).0),
        word::finite(laws::modulation::reaches(m, s, n).1),
        forall|r: int| 0 <= r < s.n_routes ==> word::finite((#[trigger] s.routes[r]).depth),
        4real * (size(num(s.params[i])) + effort(
            s.routes,
            s.n_routes as nat,
            num(laws::modulation::reaches(m, s, n).0),
            num(laws::modulation::reaches(m, s, n).1),
            i,
        )) <= reals::vast(),
    ensures
        ({
            let (mod1, mod2) = laws::modulation::reaches(m, s, n);
            let k = s.n_routes as nat;
            let all = size(num(s.params[i])) + effort(s.routes, k, num(mod1), num(mod2), i);
            dist(
                num(laws::voices::modulated(m, s, n)[i]),
                num(s.params[i]) + pull_on(s.routes, k, num(mod1), num(mod2), i),
            ) <= (k as real) * (4real * all / 8388608real + 4real * reals::tiny())
        }),
{
    let (mod1, mod2) = laws::modulation::reaches(m, s, n);
    law_routes_add_up(m, s.params, s.routes, s.n_routes as nat, mod1, mod2, i);
}

} // verus!
