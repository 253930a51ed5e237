//! Who plays a new note: a free voice, or one that is stolen, and where a
//! stolen voice fades out.

use crate::cells;
use crate::consts::F0_001;
use crate::voice::{Stage, Voice};
use crate::word;
use vstd::prelude::*;

verus! {

/// Voices that play notes.
pub const NVOICE: usize = 8;

/// Voices of the fade pool.
pub const NTAIL: usize = 2;

/// The first voice from `from` on that is silent.
pub open spec fn free_slot(v: Seq<Voice>, from: nat) -> Option<nat>
    decreases v.len() - from,
{
    if from >= v.len() {
        None
    } else if !v[from as int].on {
        Some(from)
    } else {
        free_slot(v, from + 1)
    }
}

/// Among the first `k` voices, the quietest that is being released.
pub open spec fn quietest_releasing(v: Seq<Voice>, k: nat) -> Option<nat>
    decreases k,
{
    if k == 0 {
        None
    } else {
        let i = (k - 1) as nat;
        let best = quietest_releasing(v, i);
        if v[i as int].stage is Release && (best is None || word::below(
            v[i as int].env,
            v[best->0 as int].env,
        )) {
            Some(i)
        } else {
            best
        }
    }
}

/// Among the first `k` voices, the one whose note started first.
pub open spec fn oldest(v: Seq<Voice>, k: nat) -> nat
    decreases k,
{
    if k <= 1 {
        0
    } else {
        let i = (k - 1) as nat;
        let best = oldest(v, i);
        if word::wide_below(v[i as int].age, v[best as int].age) {
            i
        } else {
            best
        }
    }
}

/// Among the first `k` voices, the quietest.
pub open spec fn quietest(v: Seq<Voice>, k: nat) -> nat
    decreases k,
{
    if k <= 1 {
        0
    } else {
        let i = (k - 1) as nat;
        let best = quietest(v, i);
        if word::below(v[i as int].env, v[best as int].env) {
            i
        } else {
            best
        }
    }
}

/// The voice that a new note takes: a silent one, else the quietest of those
/// that are being released, else the oldest.
pub open spec fn slot_for_note(v: Seq<Voice>) -> nat {
    match free_slot(v, 0) {
        Some(i) => i,
        None => match quietest_releasing(v, v.len()) {
            Some(i) => i,
            None => oldest(v, v.len()),
        },
    }
}

/// The place in the fade pool that a stolen voice takes: a silent one, else
/// the quietest.
pub open spec fn slot_for_tail(v: Seq<Voice>) -> nat {
    match free_slot(v, 0) {
        Some(i) => i,
        None => quietest(v, v.len()),
    }
}

/// A stolen voice as it goes on in the fade pool: everything it sounds with
/// stays, its gate closes, it is being killed, and its click is spent.
pub open spec fn tail_of(v: Voice) -> Voice {
    Voice { gate: false, stage: Stage::Kill, tr_samp: 0, ..v }
}

/// The fade pool after a note has taken its voice. It changes only where a
/// voice is stolen that can still be heard.
pub open spec fn tails_after(voices: Seq<Voice>, tails: [Voice; 2]) -> [Voice; 2] {
    let taken = voices[slot_for_note(voices) as int];
    if free_slot(voices, 0) is None && word::below(F0_001, taken.env) {
        cells::put(tails, slot_for_tail(tails@) as int, tail_of(taken))
    } else {
        tails
    }
}

/// How many of the first `k` voices sound.
pub open spec fn count_on(v: Seq<Voice>, k: nat) -> nat
    decreases k,
{
    if k == 0 {
        0
    } else {
        count_on(v, (k - 1) as nat) + if v[k - 1].on {
            1nat
        } else {
            0nat
        }
    }
}

pub proof fn lemma_free_slot(v: Seq<Voice>, from: nat)
    ensures
        match free_slot(v, from) {
            Some(i) => from <= i < v.len() && !v[i as int].on && forall|j: int|
                from <= j < i ==> (#[trigger] v[j]).on,
            None => forall|j: int| from <= j < v.len() ==> (#[trigger] v[j]).on,
        },
    decreases v.len() - from,
{
    if from < v.len() && v[from as int].on {
        lemma_free_slot(v, from + 1);
    }
}

proof fn lemma_picks(v: Seq<Voice>, k: nat)
    requires
        k <= v.len(),
        v.len() > 0,
    ensures
        oldest(v, k) < v.len(),
        quietest(v, k) < v.len(),
        k > 0 ==> oldest(v, k) < k && quietest(v, k) < k,
        match quietest_releasing(v, k) {
            Some(i) => i < k && v[i as int].stage is Release,
            None => forall|j: int| 0 <= j < k ==> (#[trigger] v[j]).stage !is Release,
        },
    decreases k,
{
    if k > 0 {
        lemma_picks(v, (k - 1) as nat);
    }
}

/// The voice that a note takes is one of the voices.
pub proof fn lemma_slots(v: Seq<Voice>)
    requires
        v.len() > 0,
    ensures
        slot_for_note(v) < v.len(),
        slot_for_tail(v) < v.len(),
{
    lemma_free_slot(v, 0);
    lemma_picks(v, v.len());
}

fn find_free<const N: usize>(v: &[Voice; N]) -> (r: Option<usize>)
    ensures
        match r {
            Some(i) => free_slot(v@, 0) == Some(i as nat) && i < N,
            None => free_slot(v@, 0) is None,
        },
{
    let mut k: usize = 0;
    while k < N
        invariant
            k <= N,
            free_slot(v@, 0) == free_slot(v@, k as nat),
        decreases N - k,
    {
        if !v[k].on {
            return Some(k);
        }
        k = k + 1;
    }
    None
}

fn find_quietest_releasing(v: &[Voice; 8]) -> (r: Option<usize>)
    ensures
        match r {
            Some(i) => quietest_releasing(v@, 8) == Some(i as nat) && i < 8,
            None => quietest_releasing(v@, 8) is None,
        },
{
    let mut best: Option<usize> = None;
    let mut k: usize = 0;
    while k < NVOICE
        invariant
            k <= 8,
            match best {
                Some(i) => quietest_releasing(v@, k as nat) == Some(i as nat) && i < k,
                None => quietest_releasing(v@, k as nat) is None,
            },
        decreases 8 - k,
    {
        if matches!(v[k].stage, Stage::Release) {
            match best {
                Some(i) => {
                    if word::lt(v[k].env, v[i].env) {
                        best = Some(k);
                    }
                },
                None => {
                    best = Some(k);
                },
            }
        }
        k = k + 1;
    }
    best
}

fn find_oldest(v: &[Voice; 8]) -> (r: usize)
    ensures
        r == oldest(v@, 8),
        r < 8,
{
    let mut best: usize = 0;
    let mut k: usize = 1;
    while k < NVOICE
        invariant
            1 <= k <= 8,
            best == oldest(v@, k as nat),
            best < k,
        decreases 8 - k,
    {
        if word::wide_lt(v[k].age, v[best].age) {
            best = k;
        }
        k = k + 1;
    }
    best
}

fn find_quietest(v: &[Voice; 2]) -> (r: usize)
    ensures
        r == quietest(v@, 2),
        r < 2,
{
    let mut best: usize = 0;
    let mut k: usize = 1;
    while k < NTAIL
        invariant
            1 <= k <= 2,
            best == quietest(v@, k as nat),
            best < k,
        decreases 2 - k,
    {
        if word::lt(v[k].env, v[best].env) {
            best = k;
        }
        k = k + 1;
    }
    best
}

/// Picks the voice for a new note; a voice that is stolen while it can still
/// be heard goes on in the fade pool.
pub fn claim(voices: &[Voice; 8], tails: &mut [Voice; 2]) -> (r: usize)
    ensures
        r == slot_for_note(voices@),
        r < 8,
        *final(tails) == tails_after(voices@, *old(tails)),
{
    match find_free(voices) {
        Some(i) => i,
        None => {
            let i: usize = match find_quietest_releasing(voices) {
                Some(i) => i,
                None => find_oldest(voices),
            };
            let snap = voices[i];
            if word::lt(F0_001, snap.env) {
                let t: usize = match find_free(tails) {
                    Some(t) => t,
                    None => find_quietest(tails),
                };
                tails[t] = Voice { gate: false, stage: Stage::Kill, tr_samp: 0, ..snap };
            }
            i
        },
    }
}

pub fn count<const N: usize>(v: &[Voice; N]) -> (r: usize)
    ensures
        r == count_on(v@, N as nat),
        r <= N,
{
    let mut n: usize = 0;
    let mut k: usize = 0;
    while k < N
        invariant
            k <= N,
            n <= k,
            n == count_on(v@, k as nat),
        decreases N - k,
    {
        if v[k].on {
            n = n + 1;
        }
        k = k + 1;
    }
    n
}

// ---------------------------------------------------------------------------
// Laws of the choice
// ---------------------------------------------------------------------------

/// A note never takes a sounding voice while one is silent, and takes the
/// first silent one.
pub proof fn law_free_voice_first(v: Seq<Voice>)
    requires
        exists|j: int| 0 <= j < v.len() && !(#[trigger] v[j]).on,
    ensures
        slot_for_note(v) < v.len(),
        !v[slot_for_note(v) as int].on,
        forall|j: int| 0 <= j < slot_for_note(v) ==> (#[trigger] v[j]).on,
{
    lemma_free_slot(v, 0);
}

/// Where every voice sounds and some are being released, the one taken is
/// being released, and no other such voice is quieter, nor as quiet and
/// before it. (Envelopes that are not numbers cannot be compared.)
pub proof fn law_quietest_release_next(v: Seq<Voice>, j: int)
    requires
        forall|i: int| 0 <= i < v.len() ==> (#[trigger] v[i]).on,
        forall|i: int| 0 <= i < v.len() ==> !word::is_nan((#[trigger] v[i]).env),
        0 <= j < v.len(),
        v[j].stage is Release,
    ensures
        slot_for_note(v) < v.len(),
        v[slot_for_note(v) as int].stage is Release,
        !word::below(v[j].env, v[slot_for_note(v) as int].env),
        j < slot_for_note(v) ==> word::below(v[slot_for_note(v) as int].env, v[j].env),
{
    lemma_free_slot(v, 0);
    lemma_picks(v, v.len());
    lemma_quietest_releasing(v, v.len(), j);
}

proof fn lemma_quietest_releasing(v: Seq<Voice>, k: nat, j: int)
    requires
        k <= v.len(),
        forall|i: int| 0 <= i < v.len() ==> !word::is_nan((#[trigger] v[i]).env),
        0 <= j < k,
        v[j].stage is Release,
    ensures
        quietest_releasing(v, k) is Some,
        !word::below(v[j].env, v[quietest_releasing(v, k)->0 as int].env),
        j < quietest_releasing(v, k)->0 ==> word::below(
            v[quietest_releasing(v, k)->0 as int].env,
            v[j].env,
        ),
    decreases k,
{
    let i = (k - 1) as nat;
    lemma_picks(v, i);
    assert(!word::is_nan(v[i as int].env));
    assert(!word::is_nan(v[j].env));
    if j < i {
        lemma_quietest_releasing(v, i, j);
        assert(!word::is_nan(v[quietest_releasing(v, i)->0 as int].env));
    } else if quietest_releasing(v, i) is Some {
        assert(!word::is_nan(v[quietest_releasing(v, i)->0 as int].env));
    }
}

/// Where every voice sounds and none is being released, the one taken is the
/// oldest: no voice started earlier, nor at the same time and comes before
/// it.
pub proof fn law_oldest_last(v: Seq<Voice>, j: int)
    requires
        forall|i: int| 0 <= i < v.len() ==> (#[trigger] v[i]).on && v[i].stage !is Release,
        forall|i: int| 0 <= i < v.len() ==> !word::wide_is_nan((#[trigger] v[i]).age),
        0 <= j < v.len(),
    ensures
        slot_for_note(v) < v.len(),
        !word::wide_below(v[j].age, v[slot_for_note(v) as int].age),
        j < slot_for_note(v) ==> word::wide_below(v[slot_for_note(v) as int].age, v[j].age),
{
    lemma_free_slot(v, 0);
    lemma_picks(v, v.len());
    lemma_oldest(v, v.len(), j);
}

proof fn lemma_oldest(v: Seq<Voice>, k: nat, j: int)
    requires
        k <= v.len(),
        forall|i: int| 0 <= i < v.len() ==> !word::wide_is_nan((#[trigger] v[i]).age),
        0 <= j < k,
    ensures
        !word::wide_below(v[j].age, v[oldest(v, k) as int].age),
        j < oldest(v, k) ==> word::wide_below(v[oldest(v, k) as int].age, v[j].age),
    decreases k,
{
    let i = (k - 1) as nat;
    lemma_picks(v, i);
    lemma_picks(v, k);
    assert(!word::wide_is_nan(v[i as int].age));
    assert(!word::wide_is_nan(v[j].age));
    if k > 1 {
        assert(!word::wide_is_nan(v[oldest(v, i) as int].age));
        if j < i {
            lemma_oldest(v, i, j);
        }
    }
}

/// A voice that is stolen while it can be heard goes on in the fade pool with
/// the same phases, envelope and level, so its sound does not jump; one that
/// can no longer be heard, or a silent voice that is taken, leaves the fade
/// pool as it was.
pub proof fn law_stolen_voice_fades(voices: Seq<Voice>, tails: [Voice; 2])
    requires
        voices.len() > 0,
    ensures
        ({
            let taken = voices[slot_for_note(voices) as int];
            let after = tails_after(voices, tails);
            if taken.on && word::below(F0_001, taken.env) {
                exists|t: int|
                    0 <= t < 2 && #[trigger] after[t] == tail_of(taken) && after[1 - t] == tails[1
                        - t]
            } else {
                after == tails
            }
        }),
{
    lemma_free_slot(voices, 0);
    lemma_slots(voices);
    lemma_slots(tails@);
    let taken = voices[slot_for_note(voices) as int];
    let t = slot_for_tail(tails@) as int;
    let after = tails_after(voices, tails);
    if taken.on && word::below(F0_001, taken.env) {
        assert(after[t] == tail_of(taken));
        assert(after[1 - t] == tails[1 - t]);
    }
}

/// Voice `t` is voice `v` on its way out: it sounds as it did, with its phases,
/// its envelope and its level, but for the click, and is being killed.
pub open spec fn goes_on(v: Voice, t: Voice) -> bool {
    &&& t.on == v.on && t.note == v.note && t.age == v.age
    &&& t.f0 == v.f0 && t.vel == v.vel && t.env == v.env && t.t == v.t
    &&& t.ph_s == v.ph_s && t.ph_a == v.ph_a && t.ph_t == v.ph_t && t.ph_t2 == v.ph_t2
    &&& t.g_fade == v.g_fade && t.g_cnt == v.g_cnt && t.pn == v.pn
    &&& t.stage is Kill && !t.gate && t.tr_samp == 0
}

/// Where a stolen voice goes on: in the first place of the fade pool that is
/// silent, and where both sound, in that of the voice that is no louder than the
/// other. The other place stays as it was.
pub proof fn law_stolen_voice_place(voices: Seq<Voice>, tails: [Voice; 2])
    requires
        voices.len() > 0,
        voices[slot_for_note(voices) as int].on,
        word::below(F0_001, voices[slot_for_note(voices) as int].env),
    ensures
        ({
            let taken = voices[slot_for_note(voices) as int];
            let after = tails_after(voices, tails);
            if !tails[0].on || (tails[1].on && !word::below(tails[1].env, tails[0].env)) {
                goes_on(taken, after[0]) && after[1] == tails[1]
            } else {
                goes_on(taken, after[1]) && after[0] == tails[0]
            }
        }),
{
    lemma_free_slot(voices, 0);
    lemma_slots(voices);
    lemma_slots(tails@);
    lemma_free_slot(tails@, 0);
    let t = slot_for_tail(tails@) as int;
    reveal_with_fuel(quietest, 3);
    assert(tails@[0] == tails[0] && tails@[1] == tails[1]);
    if free_slot(tails@, 0) is Some {
        assert(!tails@[t].on);
    }
    assert(t == 0 || t == 1);
}

} // verus!
