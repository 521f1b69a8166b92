//! Mixing the voices of a session into one bounded sample per frame.
use vstd::prelude::*;

use crate::noise::{is_draw, ControlledNoise, NoiseType, MAX_VOLUME};
use crate::random::uniform_in;
use crate::sample::{clamp_as_percentage, clamp_sample, clamp_unit, div_trunc, is_sample, percentage_volume, ONE};

verus! {

/// Brown noise plays this many times louder than its percentage says.
pub const BROWN_BOOST: i32 = 33;

/// The master volume is cut to a tenth of its percentage.
pub const MASTER_CUT: i32 = 10;

/// The largest magnitude of one voice's weighted sample.
pub open spec fn max_term() -> int {
    33000000000000
}

/// The sum of the first `n` samples, each weighted by its volume.
pub open spec fn weighted_sum(samples: Seq<int>, volumes: Seq<int>, n: int) -> int
    decreases n,
{
    if n <= 0 {
        0
    } else {
        weighted_sum(samples, volumes, n - 1) + samples[n - 1] * volumes[n - 1]
    }
}

/// One mixed frame: the weighted samples averaged over the voice count (at
/// least one), scaled by the master volume, and clamped.
pub open spec fn mix_value(samples: Seq<int>, volumes: Seq<int>, master: int) -> int {
    let n = samples.len() as int;
    let avg = div_trunc(weighted_sum(samples, volumes, n), if n == 0 { 1 } else { n });
    clamp_unit(div_trunc(avg * master, ONE as int * ONE as int))
}

/// A run of frames: `states[f]` mixes `samples[f]` with `draws[f]` and moves
/// to `states[f + 1]`.
pub open spec fn mixed_frames(states: Seq<MixSession>, draws: Seq<Seq<i32>>, samples: Seq<i32>) -> bool {
    &&& states.len() == samples.len() + 1
    &&& draws.len() == samples.len()
    &&& forall|f: int|
        #![trigger samples[f]]
        0 <= f < samples.len() ==> states[f].mixed_by(draws[f], &states[f + 1], samples[f] as int)
}

/// The voices of a stream and its master volume.
#[derive(Debug)]
pub struct MixSession {
    pub voices: Vec<ControlledNoise>,
    pub master_volume: i32,
}

proof fn lemma_term_bound(s: int, v: int)
    requires
        -ONE <= s <= ONE,
        0 <= v <= MAX_VOLUME,
    ensures
        -max_term() <= s * v <= max_term(),
{
    assert(-33000000000000 <= s * v <= 33000000000000) by (nonlinear_arith)
        requires
            -1000000 <= s <= 1000000,
            0 <= v <= 33000000,
    ;
}

proof fn lemma_avg_bound(sum: int, n: int)
    requires
        n >= 1,
        -n * max_term() <= sum <= n * max_term(),
    ensures
        -max_term() <= div_trunc(sum, n) <= max_term(),
{
    let k = max_term();
    if sum >= 0 {
        assert(sum / n <= k) by (nonlinear_arith)
            requires
                n >= 1,
                0 <= sum <= n * k,
        ;
        assert(sum / n >= 0) by (nonlinear_arith)
            requires
                n >= 1,
                0 <= sum,
        ;
    } else {
        assert(-n * k == -(n * k)) by (nonlinear_arith);
        assert((-sum) / n <= k) by (nonlinear_arith)
            requires
                n >= 1,
                0 <= -sum <= n * k,
        ;
        assert((-sum) / n >= 0) by (nonlinear_arith)
            requires
                n >= 1,
                0 <= -sum,
        ;
    }
}

impl MixSession {
    pub open spec fn wf(&self) -> bool {
        &&& forall|i: int| 0 <= i < self.voices@.len() ==> (#[trigger] self.voices@[i]).wf()
        &&& 0 <= self.master_volume <= ONE
    }

    /// The volume of each voice, in order.
    pub open spec fn volumes(&self) -> Seq<int> {
        Seq::new(self.voices@.len(), |i: int| self.voices@[i].volume as int)
    }

    /// The sample each voice gives on its draw.
    pub open spec fn outputs_of(&self, draws: Seq<i32>) -> Seq<int> {
        Seq::new(self.voices@.len(), |i: int| self.voices@[i].generator.output_of(draws[i]))
    }

    /// `next` is this session after each voice took its draw.
    pub open spec fn advanced(&self, draws: Seq<i32>, next: &Self) -> bool {
        &&& next.voices@.len() == self.voices@.len()
        &&& next.master_volume == self.master_volume
        &&& forall|i: int|
            0 <= i < self.voices@.len() ==> {
                &&& (#[trigger] next.voices@[i]).volume == self.voices@[i].volume
                &&& self.voices@[i].generator.advanced(draws[i], &next.voices@[i].generator)
            }
    }

    /// One frame: `draws` (one per voice, each in `[-ONE, ONE)`) take this
    /// session to `next`, and `r` is the mix of what the voices gave.
    pub open spec fn mixed_by(&self, draws: Seq<i32>, next: &Self, r: int) -> bool {
        &&& draws.len() == self.voices@.len()
        &&& forall|i: int| 0 <= i < draws.len() ==> -ONE <= #[trigger] draws[i] < ONE
        &&& self.advanced(draws, next)
        &&& r == mix_value(self.outputs_of(draws), self.volumes(), self.master_volume as int)
    }

    /// A session over `voices` at master volume `master_volume`.
    pub fn new(voices: Vec<ControlledNoise>, master_volume: i32) -> (r: Self)
        requires
            forall|i: int| 0 <= i < voices@.len() ==> (#[trigger] voices@[i]).wf(),
            0 <= master_volume <= ONE,
        ensures
            r.voices@ == voices@,
            r.master_volume == master_volume,
            r.wf(),
    {
        MixSession { voices, master_volume }
    }

    /// The session that volume percentages (in units of `ONE`) configure:
    /// brown, pink, white and blue voices in that order, brown boosted
    /// `BROWN_BOOST` times, the master volume cut to a `MASTER_CUT`th.
    pub fn from_percentages(white: i64, brown: i64, pink: i64, blue: i64, master: i64) -> (r:
        Self)
        ensures
            r.wf(),
            r.master_volume == percentage_volume(master as int) / (MASTER_CUT as int),
            r.voices@.len() == 4,
            r.voices@[0].generator.kind() == NoiseType::Brown,
            r.voices@[1].generator.kind() == NoiseType::Pink,
            r.voices@[2].generator.kind() == NoiseType::White,
            r.voices@[3].generator.kind() == NoiseType::Blue,
            r.voices@[0].volume == percentage_volume(brown as int) * (BROWN_BOOST as int),
            r.voices@[1].volume == percentage_volume(pink as int),
            r.voices@[2].volume == percentage_volume(white as int),
            r.voices@[3].volume == percentage_volume(blue as int),
            forall|i: int| 0 <= i < 4 ==> (#[trigger] r.voices@[i]).generator.is_fresh(),
    {
        let master_volume = clamp_as_percentage(master) / MASTER_CUT;
        let voices = vec![
            ControlledNoise::new(NoiseType::Brown, clamp_as_percentage(brown) * BROWN_BOOST),
            ControlledNoise::new(NoiseType::Pink, clamp_as_percentage(pink)),
            ControlledNoise::new(NoiseType::White, clamp_as_percentage(white)),
            ControlledNoise::new(NoiseType::Blue, clamp_as_percentage(blue)),
        ];
        MixSession { voices, master_volume }
    }

    /// Steps voice `i` on `draw` and returns its weighted sample.
    fn play_voice(&mut self, i: usize, draw: i32) -> (term: i128)
        requires
            old(self).wf(),
            i < old(self).voices@.len(),
            is_draw(draw),
        ensures
            final(self).wf(),
            final(self).voices@.len() == old(self).voices@.len(),
            final(self).master_volume == old(self).master_volume,
            final(self).voices@[i as int].volume == old(self).voices@[i as int].volume,
            old(self).voices@[i as int].generator.advanced(
                draw,
                &final(self).voices@[i as int].generator,
            ),
            forall|j: int|
                0 <= j < old(self).voices@.len() && j != i ==> final(self).voices@[j]
                    == old(self).voices@[j],
            term == old(self).voices@[i as int].generator.output_of(draw) * old(
                self,
            ).voices@[i as int].volume,
            -max_term() <= term <= max_term(),
    {
        assert(self.voices@[i as int].wf());
        let out = self.voices[i].generator.next_sample_from(draw);
        let vol = self.voices[i].volume;
        proof {
            lemma_term_bound(out as int, vol as int);
        }
        out as i128 * vol as i128
    }

    /// Averages a weighted sum over the voice count, applies the master
    /// volume and clamps.
    fn finish(sum: i128, n: usize, master: i32) -> (r: i32)
        requires
            -(n as int) * max_term() <= sum <= (n as int) * max_term(),
            0 <= master <= ONE,
        ensures
            r == clamp_unit(
                div_trunc(
                    div_trunc(sum as int, if n == 0 { 1 } else { n as int }) * master,
                    ONE as int * ONE as int,
                ),
            ),
            is_sample(r as int),
    {
        let count: i128 = if n == 0 { 1 } else { n as i128 };
        proof {
            lemma_avg_bound(sum as int, count as int);
        }
        let avg = sum / count;
        assert(-max_term() * ONE <= avg * master <= max_term() * ONE) by (nonlinear_arith)
            requires
                -max_term() <= avg <= max_term(),
                0 <= master <= ONE,
        ;
        let scaled = avg * (master as i128);
        clamp_sample(scaled / ((ONE as i128) * (ONE as i128)))
    }

    /// Mixes one frame with the given draw for each voice, in order.
    pub fn mix_from_draws(&mut self, draws: &Vec<i32>) -> (r: i32)
        requires
            old(self).wf(),
            draws@.len() == old(self).voices@.len(),
            forall|i: int| 0 <= i < draws@.len() ==> is_draw(#[trigger] draws@[i]),
        ensures
            final(self).wf(),
            old(self).advanced(draws@, final(self)),
            r == mix_value(
                old(self).outputs_of(draws@),
                old(self).volumes(),
                old(self).master_volume as int,
            ),
            is_sample(r as int),
    {
        let ghost start = *self;
        let ghost outs = start.outputs_of(draws@);
        let ghost vols = start.volumes();
        let n = self.voices.len();
        let mut sum: i128 = 0;
        let mut i: usize = 0;
        while i < n
            invariant
                self.wf(),
                start.wf(),
                n == start.voices@.len(),
                draws@.len() == n,
                forall|k: int| 0 <= k < draws@.len() ==> is_draw(#[trigger] draws@[k]),
                outs == start.outputs_of(draws@),
                vols == start.volumes(),
                i <= n,
                self.voices@.len() == n,
                self.master_volume == start.master_volume,
                forall|j: int|
                    0 <= j < i ==> {
                        &&& (#[trigger] self.voices@[j]).volume == start.voices@[j].volume
                        &&& start.voices@[j].generator.advanced(
                            draws@[j],
                            &self.voices@[j].generator,
                        )
                    },
                forall|j: int| i <= j < n ==> #[trigger] self.voices@[j] == start.voices@[j],
                sum == weighted_sum(outs, vols, i as int),
                -(i as int) * max_term() <= sum <= (i as int) * max_term(),
            decreases n - i,
        {
            let term = self.play_voice(i, draws[i]);
            sum = sum + term;
            i = i + 1;
        }
        Self::finish(sum, n, self.master_volume)
    }

    /// Mixes one frame, drawing a fresh uniform value in `[-ONE, ONE)` for each
    /// voice, in order.
    pub fn mix_one_frame(&mut self) -> (r: i32)
        requires
            old(self).wf(),
        ensures
            final(self).wf(),
            exists|draws: Seq<i32>| #[trigger] old(self).mixed_by(draws, final(self), r as int),
            is_sample(r as int),
    {
        let ghost start = *self;
        let ghost vols = start.volumes();
        let ghost mut draws: Seq<i32> = Seq::empty();
        let n = self.voices.len();
        let mut sum: i128 = 0;
        let mut i: usize = 0;
        while i < n
            invariant
                self.wf(),
                start.wf(),
                n == start.voices@.len(),
                draws.len() == i,
                forall|k: int| 0 <= k < i ==> -ONE <= #[trigger] draws[k] < ONE,
                vols == start.volumes(),
                i <= n,
                self.voices@.len() == n,
                self.master_volume == start.master_volume,
                forall|j: int|
                    0 <= j < i ==> {
                        &&& (#[trigger] self.voices@[j]).volume == start.voices@[j].volume
                        &&& start.voices@[j].generator.advanced(
                            draws[j],
                            &self.voices@[j].generator,
                        )
                    },
                forall|j: int| i <= j < n ==> #[trigger] self.voices@[j] == start.voices@[j],
                sum == weighted_sum(
                    Seq::new(i as nat, |j: int| start.voices@[j].generator.output_of(draws[j])),
                    vols,
                    i as int,
                ),
                -(i as int) * max_term() <= sum <= (i as int) * max_term(),
            decreases n - i,
        {
            let d = uniform_in(-ONE, ONE);
            let term = self.play_voice(i, d);
            proof {
                let old_draws = draws;
                draws = draws.push(d);
                let a = Seq::new(
                    i as nat,
                    |j: int| start.voices@[j].generator.output_of(old_draws[j]),
                );
                let b = Seq::new(
                    (i + 1) as nat,
                    |j: int| start.voices@[j].generator.output_of(draws[j]),
                );
                lemma_weighted_sum_prefix(a, b, vols, i as int);
            }
            sum = sum + term;
            i = i + 1;
        }
        proof {
            let a = Seq::new(n as nat, |j: int| start.voices@[j].generator.output_of(draws[j]));
            lemma_weighted_sum_prefix(a, start.outputs_of(draws), vols, n as int);
            assert(start.advanced(draws, self));
        }
        let r = Self::finish(sum, n, self.master_volume);
        assert(start.mixed_by(draws, self, r as int));
        r
    }
}

/// Weighted sums agree over a prefix on which the samples agree.
proof fn lemma_weighted_sum_prefix(a: Seq<int>, b: Seq<int>, volumes: Seq<int>, n: int)
    requires
        0 <= n <= a.len(),
        n <= b.len(),
        forall|j: int| 0 <= j < n ==> a[j] == b[j],
    ensures
        weighted_sum(a, volumes, n) == weighted_sum(b, volumes, n),
    decreases n,
{
    if n > 0 {
        lemma_weighted_sum_prefix(a, b, volumes, n - 1);
    }
}


/// With no voices the mix is silence, whatever the master volume.
pub proof fn lemma_no_voices_silent(master: int)
    ensures
        mix_value(Seq::empty(), Seq::empty(), master) == 0,
{
    assert(weighted_sum(Seq::empty(), Seq::empty(), 0) == 0);
    assert(0 * master == 0);
}

proof fn lemma_constant_weighted_sum(n: nat, k: int, s: int, v: int)
    requires
        0 <= k <= n,
    ensures
        weighted_sum(Seq::new(n, |i: int| s), Seq::new(n, |i: int| v), k) == k * (s * v),
    decreases k,
{
    if k > 0 {
        lemma_constant_weighted_sum(n, k - 1, s, v);
        assert(Seq::new(n, |i: int| s)[k - 1] == s);
        assert(Seq::new(n, |i: int| v)[k - 1] == v);
        assert((k - 1) * (s * v) + s * v == k * (s * v)) by (nonlinear_arith);
    } else {
        assert(0 * (s * v) == 0);
    }
}

/// Any number of identical voices (sample `s`, volume `v`) mix to what one
/// would: the voice count cancels out, leaving `s * v * master` clamped.
pub proof fn lemma_identical_voices_cancel(n: nat, s: int, v: int, master: int)
    requires
        n >= 1,
    ensures
        mix_value(Seq::new(n, |i: int| s), Seq::new(n, |i: int| v), master) == clamp_unit(
            div_trunc(s * v * master, ONE as int * ONE as int),
        ),
{
    let x = s * v;
    lemma_constant_weighted_sum(n, n as int, s, v);
    if x >= 0 {
        assert((n * x) / (n as int) == x) by (nonlinear_arith)
            requires
                n >= 1,
        ;
    } else {
        assert(-(n * x) == n * (-x)) by (nonlinear_arith);
        assert((n * (-x)) / (n as int) == -x) by (nonlinear_arith)
            requires
                n >= 1,
        ;
    }
    assert(div_trunc(n * x, n as int) == x);
    assert(x * master == s * v * master) by (nonlinear_arith)
        requires
            x == s * v,
    ;
}

/// A session without voices mixes silence in every frame of a run.
pub proof fn lemma_no_voices_silent_frames(
    states: Seq<MixSession>,
    draws: Seq<Seq<i32>>,
    samples: Seq<i32>,
)
    requires
        mixed_frames(states, draws, samples),
        states[0].voices@.len() == 0,
    ensures
        forall|f: int| 0 <= f < samples.len() ==> #[trigger] samples[f] == 0,
    decreases samples.len(),
{
    if samples.len() > 0 {
        let n = (samples.len() - 1) as int;
        let s2 = states.subrange(0, n + 1);
        let d2 = draws.subrange(0, n);
        let m2 = samples.subrange(0, n);
        assert forall|f: int| 0 <= f < m2.len() implies s2[f].mixed_by(
            d2[f],
            &s2[f + 1],
            #[trigger] m2[f] as int,
        ) by {
            assert(states[f].mixed_by(draws[f], &states[f + 1], samples[f] as int));
        }
        lemma_no_voices_silent_frames(s2, d2, m2);
        assert(states[n].mixed_by(draws[n], &states[n + 1], samples[n] as int));
        let st = states[n];
        assert(st.voices@.len() == 0) by {
            lemma_voice_count_kept(states, draws, samples, n);
        }
        assert(st.outputs_of(draws[n]) =~= Seq::<int>::empty());
        assert(st.volumes() =~= Seq::<int>::empty());
        lemma_no_voices_silent(st.master_volume as int);
        assert forall|f: int| 0 <= f < samples.len() implies #[trigger] samples[f] == 0 by {
            if f < n {
                assert(m2[f] == 0);
            }
        }
    }
}

/// Every state of a run has the voice count that it started with, and the
/// same volumes and master volume.
pub proof fn lemma_voice_count_kept(
    states: Seq<MixSession>,
    draws: Seq<Seq<i32>>,
    samples: Seq<i32>,
    f: int,
)
    requires
        mixed_frames(states, draws, samples),
        0 <= f < states.len(),
    ensures
        states[f].voices@.len() == states[0].voices@.len(),
        states[f].volumes() == states[0].volumes(),
        states[f].master_volume == states[0].master_volume,
    decreases f,
{
    if f > 0 {
        lemma_voice_count_kept(states, draws, samples, f - 1);
        assert(states[f - 1].mixed_by(draws[f - 1], &states[f], samples[f - 1] as int));
        assert(states[f].volumes() =~= states[f - 1].volumes());
    }
}

/// A frame in which every voice gives the same sample `s` at the same volume
/// `v` mixes to `s * v * master`, clamped, whatever the number of voices.
pub proof fn lemma_identical_voices_frame(
    session: MixSession,
    draws: Seq<i32>,
    next: MixSession,
    r: int,
    s: int,
    v: int,
)
    requires
        session.mixed_by(draws, &next, r),
        session.voices@.len() >= 1,
        forall|i: int| 0 <= i < session.voices@.len() ==> #[trigger] session.outputs_of(draws)[i] == s,
        forall|i: int| 0 <= i < session.voices@.len() ==> #[trigger] session.volumes()[i] == v,
    ensures
        r == clamp_unit(div_trunc(s * v * session.master_volume, ONE as int * ONE as int)),
{
    let n = session.voices@.len();
    assert(session.outputs_of(draws) =~= Seq::new(n, |i: int| s));
    assert(session.volumes() =~= Seq::new(n, |i: int| v));
    lemma_identical_voices_cancel(n, s, v, session.master_volume as int);
}

/// Sum of a sequence of integers.
pub open spec fn int_sum(s: Seq<int>) -> int
    decreases s.len(),
{
    if s.len() == 0 {
        0
    } else {
        int_sum(s.drop_last()) + s.last()
    }
}

proof fn lemma_weighted_sum_is_sum(samples: Seq<int>, volumes: Seq<int>, n: int)
    requires
        0 <= n,
    ensures
        weighted_sum(samples, volumes, n) == int_sum(
            Seq::new(n as nat, |i: int| samples[i] * volumes[i]),
        ),
    decreases n,
{
    if n > 0 {
        lemma_weighted_sum_is_sum(samples, volumes, n - 1);
        assert(Seq::new(n as nat, |i: int| samples[i] * volumes[i]).drop_last() =~= Seq::new(
            (n - 1) as nat,
            |i: int| samples[i] * volumes[i],
        ));
    }
}

proof fn lemma_int_sum_remove(s: Seq<int>, j: int)
    requires
        0 <= j < s.len(),
    ensures
        int_sum(s) == int_sum(s.remove(j)) + s[j],
    decreases s.len(),
{
    if j == s.len() - 1 {
        assert(s.remove(j) =~= s.drop_last());
    } else {
        lemma_int_sum_remove(s.drop_last(), j);
        assert(s.remove(j).drop_last() =~= s.drop_last().remove(j));
    }
}

/// `perm` sends the positions of a sequence of length `n` to distinct
/// positions of it: a permutation.
pub open spec fn is_permutation(perm: Seq<int>, n: int) -> bool {
    &&& perm.len() == n
    &&& forall|i: int| 0 <= i < n ==> 0 <= #[trigger] perm[i] < n
    &&& forall|i: int, k: int| 0 <= i < n && 0 <= k < n && i != k ==> #[trigger] perm[i] != #[trigger] perm[k]
}

proof fn lemma_int_sum_permuted(s: Seq<int>, t: Seq<int>, perm: Seq<int>)
    requires
        t.len() == s.len(),
        is_permutation(perm, s.len() as int),
        forall|i: int| 0 <= i < t.len() ==> #[trigger] t[i] == s[perm[i]],
    ensures
        int_sum(t) == int_sum(s),
    decreases s.len(),
{
    if s.len() > 0 {
        let n = s.len() - 1;
        let p = perm[n];
        let s2 = s.remove(p);
        let t2 = t.drop_last();
        let perm2 = Seq::new(
            n as nat,
            |i: int|
                if perm[i] < p {
                    perm[i]
                } else {
                    perm[i] - 1
                },
        );
        assert forall|i: int| 0 <= i < n implies 0 <= #[trigger] perm2[i] < n && t2[i] == s2[perm2[i]] by {
            assert(perm[i] != perm[n]);
        }
        assert forall|i: int, k: int| 0 <= i < n && 0 <= k < n && i != k implies #[trigger] perm2[i]
            != #[trigger] perm2[k] by {
            assert(perm[i] != perm[k]);
            assert(perm[i] != perm[n]);
            assert(perm[k] != perm[n]);
        }
        lemma_int_sum_permuted(s2, t2, perm2);
        lemma_int_sum_remove(s, p);
    }
}

/// The order in which voices are listed does not change a frame's mix: with
/// the voices' samples and volumes rearranged by any permutation, the mix is
/// the same.
pub proof fn lemma_mix_order_free(
    samples: Seq<int>,
    volumes: Seq<int>,
    perm: Seq<int>,
    master: int,
)
    requires
        volumes.len() == samples.len(),
        is_permutation(perm, samples.len() as int),
    ensures
        mix_value(
            Seq::new(samples.len(), |i: int| samples[perm[i]]),
            Seq::new(samples.len(), |i: int| volumes[perm[i]]),
            master,
        ) == mix_value(samples, volumes, master),
{
    let n = samples.len() as int;
    let a = Seq::new(samples.len(), |i: int| samples[perm[i]]);
    let b = Seq::new(samples.len(), |i: int| volumes[perm[i]]);
    lemma_weighted_sum_is_sum(samples, volumes, n);
    lemma_weighted_sum_is_sum(a, b, n);
    let s = Seq::new(n as nat, |i: int| samples[i] * volumes[i]);
    let t = Seq::new(n as nat, |i: int| a[i] * b[i]);
    lemma_int_sum_permuted(s, t, perm);
}

} // verus!
