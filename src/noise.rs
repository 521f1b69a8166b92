//! The noise generators: one state per color, one sample per call.
use vstd::prelude::*;

use crate::random::uniform_in;
use crate::sample::{clamp_sample, clamp_unit, div_trunc, is_sample, ONE};

verus! {

/// The colors of noise.
#[derive(Clone, Copy, Debug, PartialEq, Eq, Structural)]
pub enum NoiseType {
    White,
    Brown,
    Pink,
    Blue,
}

/// Brown noise moves by a twentieth of each draw.
pub const BROWN_STEP_DIVISOR: i32 = 20;

/// Pink noise averages this many white taps.
pub const PINK_TAPS: usize = 7;

/// The largest voice volume: full volume with the brown boost.
pub const MAX_VOLUME: i32 = 33000000;

/// A uniform draw as the generators accept it.
pub open spec fn is_draw(d: i32) -> bool {
    is_sample(d as int)
}

/// Sum of a sequence of samples.
pub open spec fn seq_sum(s: Seq<i32>) -> int
    decreases s.len(),
{
    if s.len() == 0 {
        0
    } else {
        seq_sum(s.drop_last()) + s.last()
    }
}

/// The brown integrator after one draw.
pub open spec fn brown_step(last: int, draw: int) -> int {
    clamp_unit(last + div_trunc(draw, BROWN_STEP_DIVISOR as int))
}

/// The output of pink noise over the given taps: their mean.
pub open spec fn pink_output(taps: Seq<i32>) -> int {
    div_trunc(seq_sum(taps), PINK_TAPS as int)
}

/// The output of blue noise: the clamped first difference.
pub open spec fn blue_output(last: int, draw: int) -> int {
    clamp_unit(draw - last)
}

/// White noise: each sample is the draw itself.
#[derive(Clone, Copy, Debug)]
pub struct WhiteNoise;

impl WhiteNoise {
    pub fn next_sample_from(&mut self, draw: i32) -> (r: i32)
        requires
            is_draw(draw),
        ensures
            r == draw,
    {
        draw
    }
}

/// Brown noise: a clamped random walk.
#[derive(Clone, Copy, Debug)]
pub struct BrownNoise {
    pub last: i32,
}

impl BrownNoise {
    pub open spec fn wf(&self) -> bool {
        is_sample(self.last as int)
    }

    pub fn new() -> (r: Self)
        ensures
            r.last == 0,
    {
        BrownNoise { last: 0 }
    }

    pub fn next_sample_from(&mut self, draw: i32) -> (r: i32)
        requires
            old(self).wf(),
            is_draw(draw),
        ensures
            final(self).last == brown_step(old(self).last as int, draw as int),
            r == final(self).last,
            final(self).wf(),
    {
        let step = draw / BROWN_STEP_DIVISOR;
        self.last = clamp_sample(self.last as i128 + step as i128);
        self.last
    }
}

/// Pink noise: the mean of a ring of white taps, one replaced per call.
#[derive(Debug)]
pub struct PinkNoise {
    pub taps: Vec<i32>,
    pub index: usize,
}

impl PinkNoise {
    pub open spec fn wf(&self) -> bool {
        &&& self.taps@.len() == PINK_TAPS
        &&& self.index < PINK_TAPS
        &&& forall|j: int| 0 <= j < PINK_TAPS ==> is_sample(#[trigger] self.taps@[j] as int)
    }

    pub fn new() -> (r: Self)
        ensures
            r.wf(),
            r.taps@ == Seq::new(PINK_TAPS as nat, |j: int| 0i32),
            r.index == 0,
    {
        let r = PinkNoise { taps: vec![0, 0, 0, 0, 0, 0, 0], index: 0 };
        assert(r.taps@ =~= Seq::new(PINK_TAPS as nat, |j: int| 0i32));
        r
    }

    pub fn next_sample_from(&mut self, draw: i32) -> (r: i32)
        requires
            old(self).wf(),
            is_draw(draw),
        ensures
            final(self).taps@ == old(self).taps@.update(old(self).index as int, draw),
            final(self).index == (old(self).index + 1) % (PINK_TAPS as int),
            r == pink_output(final(self).taps@),
            final(self).wf(),
    {
        let i = self.index;
        self.index = (self.index + 1) % PINK_TAPS;
        self.taps.set(i, draw);
        let mut sum: i64 = 0;
        let mut j: usize = 0;
        while j < PINK_TAPS
            invariant
                self.wf(),
                j <= PINK_TAPS,
                sum == seq_sum(self.taps@.subrange(0, j as int)),
                -(j as int) * ONE <= sum <= (j as int) * ONE,
            decreases PINK_TAPS - j,
        {
            assert(self.taps@.subrange(0, j + 1).drop_last() =~= self.taps@.subrange(0, j as int));
            sum = sum + self.taps[j] as i64;
            j = j + 1;
        }
        assert(self.taps@.subrange(0, PINK_TAPS as int) =~= self.taps@);
        (sum / (PINK_TAPS as i64)) as i32
    }
}

/// Blue noise: the clamped difference between a draw and the one before.
#[derive(Clone, Copy, Debug)]
pub struct BlueNoise {
    pub last: i32,
}

impl BlueNoise {
    pub open spec fn wf(&self) -> bool {
        is_sample(self.last as int)
    }

    pub fn new() -> (r: Self)
        ensures
            r.last == 0,
    {
        BlueNoise { last: 0 }
    }

    pub fn next_sample_from(&mut self, draw: i32) -> (r: i32)
        requires
            old(self).wf(),
            is_draw(draw),
        ensures
            r == blue_output(old(self).last as int, draw as int),
            final(self).last == draw,
            final(self).wf(),
    {
        let blue = clamp_sample(draw as i128 - self.last as i128);
        self.last = draw;
        blue
    }
}

/// A noise generator of any color, with its own state.
#[derive(Debug)]
pub enum NoiseGenerator {
    White(WhiteNoise),
    Brown(BrownNoise),
    Pink(PinkNoise),
    Blue(BlueNoise),
}

impl NoiseGenerator {
    pub open spec fn wf(&self) -> bool {
        match self {
            NoiseGenerator::White(_) => true,
            NoiseGenerator::Brown(b) => b.wf(),
            NoiseGenerator::Pink(p) => p.wf(),
            NoiseGenerator::Blue(b) => b.wf(),
        }
    }

    /// The color of this generator.
    pub open spec fn kind(&self) -> NoiseType {
        match self {
            NoiseGenerator::White(_) => NoiseType::White,
            NoiseGenerator::Brown(_) => NoiseType::Brown,
            NoiseGenerator::Pink(_) => NoiseType::Pink,
            NoiseGenerator::Blue(_) => NoiseType::Blue,
        }
    }

    /// The state a generator of this color starts in: every memory zero.
    pub open spec fn is_fresh(&self) -> bool {
        match self {
            NoiseGenerator::White(_) => true,
            NoiseGenerator::Brown(b) => b.last == 0,
            NoiseGenerator::Pink(p) => p.index == 0 && p.taps@ == Seq::new(
                PINK_TAPS as nat,
                |j: int| 0i32,
            ),
            NoiseGenerator::Blue(b) => b.last == 0,
        }
    }

    /// The sample produced from this state by `draw`.
    pub open spec fn output_of(&self, draw: i32) -> int {
        match self {
            NoiseGenerator::White(_) => draw as int,
            NoiseGenerator::Brown(b) => brown_step(b.last as int, draw as int),
            NoiseGenerator::Pink(p) => pink_output(p.taps@.update(p.index as int, draw)),
            NoiseGenerator::Blue(b) => blue_output(b.last as int, draw as int),
        }
    }

    /// `next` is the state that this one moves to on `draw`.
    pub open spec fn advanced(&self, draw: i32, next: &Self) -> bool {
        match self {
            NoiseGenerator::White(_) => next is White,
            NoiseGenerator::Brown(b) => next matches NoiseGenerator::Brown(n) && n.last
                == brown_step(b.last as int, draw as int),
            NoiseGenerator::Pink(p) => next matches NoiseGenerator::Pink(n) && n.taps@
                == p.taps@.update(p.index as int, draw) && n.index == (p.index + 1) % (
            PINK_TAPS as int),
            NoiseGenerator::Blue(_) => next matches NoiseGenerator::Blue(n) && n.last == draw,
        }
    }

    /// Produces the next sample from a given uniform draw.
    pub fn next_sample_from(&mut self, draw: i32) -> (r: i32)
        requires
            old(self).wf(),
            is_draw(draw),
        ensures
            old(self).advanced(draw, final(self)),
            r == old(self).output_of(draw),
            is_sample(r as int),
            final(self).wf(),
    {
        match self {
            NoiseGenerator::White(w) => w.next_sample_from(draw),
            NoiseGenerator::Brown(b) => b.next_sample_from(draw),
            NoiseGenerator::Pink(p) => {
                let r = p.next_sample_from(draw);
                proof {
                    let t = p.taps@;
                    assert(-7 * ONE <= seq_sum(t) <= 7 * ONE) by {
                        lemma_sum_bounded(t);
                    }
                }
                r
            },
            NoiseGenerator::Blue(b) => b.next_sample_from(draw),
        }
    }

    /// Produces the next sample from a fresh uniform draw in `[-ONE, ONE)`.
    pub fn next_sample(&mut self) -> (r: i32)
        requires
            old(self).wf(),
        ensures
            exists|d: i32|
                -ONE <= d < ONE && #[trigger] old(self).advanced(d, final(self)) && r
                    == old(self).output_of(d),
            is_sample(r as int),
            final(self).wf(),
    {
        let d = uniform_in(-ONE, ONE);
        self.next_sample_from(d)
    }
}

/// A sum of samples is at most their count in magnitude.
pub proof fn lemma_sum_bounded(s: Seq<i32>)
    requires
        forall|j: int| 0 <= j < s.len() ==> is_sample(#[trigger] s[j] as int),
    ensures
        -(s.len() as int) * ONE <= seq_sum(s) <= (s.len() as int) * ONE,
    decreases s.len(),
{
    if s.len() > 0 {
        lemma_sum_bounded(s.drop_last());
    }
}

/// A fresh generator of the given color.
pub fn noise_generator_from_type(t: NoiseType) -> (r: NoiseGenerator)
    ensures
        r.kind() == t,
        r.is_fresh(),
        r.wf(),
{
    match t {
        NoiseType::White => NoiseGenerator::White(WhiteNoise),
        NoiseType::Blue => NoiseGenerator::Blue(BlueNoise::new()),
        NoiseType::Brown => NoiseGenerator::Brown(BrownNoise::new()),
        NoiseType::Pink => NoiseGenerator::Pink(PinkNoise::new()),
    }
}

/// A generator together with the volume it plays at.
#[derive(Debug)]
pub struct ControlledNoise {
    pub generator: NoiseGenerator,
    pub volume: i32,
}

impl ControlledNoise {
    pub open spec fn wf(&self) -> bool {
        &&& self.generator.wf()
        &&& 0 <= self.volume <= MAX_VOLUME
    }

    /// A fresh generator of color `t` at volume `vol`.
    pub fn new(t: NoiseType, vol: i32) -> (r: Self)
        requires
            0 <= vol <= MAX_VOLUME,
        ensures
            r.generator.kind() == t,
            r.generator.is_fresh(),
            r.volume == vol,
            r.wf(),
    {
        ControlledNoise { generator: noise_generator_from_type(t), volume: vol }
    }
}


/// The brown integrator after a run of draws from a fresh state.
pub open spec fn brown_after(draws: Seq<i32>) -> int
    decreases draws.len(),
{
    if draws.len() == 0 {
        0
    } else {
        brown_step(brown_after(draws.drop_last()), draws.last() as int)
    }
}

/// The pink taps after a run of draws from a fresh state: call `k` (from
/// zero) writes tap `k % PINK_TAPS`.
pub open spec fn pink_taps_after(draws: Seq<i32>) -> Seq<i32>
    decreases draws.len(),
{
    if draws.len() == 0 {
        Seq::new(PINK_TAPS as nat, |j: int| 0i32)
    } else {
        pink_taps_after(draws.drop_last()).update(
            (draws.len() - 1) % (PINK_TAPS as int),
            draws.last(),
        )
    }
}

/// The last of the first `len` calls that wrote tap `j` (negative if none did).
pub open spec fn last_write(len: int, j: int) -> int {
    len - 1 - ((len - 1 - j) % (PINK_TAPS as int))
}

/// Every generator, on every draw in range, gives a normalized sample.
pub proof fn lemma_output_in_range(g: NoiseGenerator, draw: i32)
    requires
        g.wf(),
        is_draw(draw),
    ensures
        is_sample(g.output_of(draw)),
{
    if let NoiseGenerator::Pink(p) = g {
        let t = p.taps@.update(p.index as int, draw);
        assert forall|j: int| 0 <= j < t.len() implies is_sample(#[trigger] t[j] as int) by {
            if j != p.index {
                assert(is_sample(p.taps@[j] as int));
            }
        }
        lemma_sum_bounded(t);
    }
}

/// Fed draws of 1.0, brown noise rises by a twentieth of full scale per call
/// and holds at 1.0 from the twentieth call on; fed draws of -1.0 it falls
/// the same way to -1.0.
pub proof fn lemma_brown_saturates(n: nat)
    ensures
        brown_after(Seq::new(n, |i: int| ONE)) == if n >= 20 {
            ONE as int
        } else {
            n * (ONE / BROWN_STEP_DIVISOR) as int
        },
        brown_after(Seq::new(n, |i: int| (-ONE) as i32)) == if n >= 20 {
            -ONE as int
        } else {
            -n * (ONE / BROWN_STEP_DIVISOR) as int
        },
    decreases n,
{
    if n > 0 {
        lemma_brown_saturates((n - 1) as nat);
        assert(Seq::new(n, |i: int| ONE).drop_last() =~= Seq::new((n - 1) as nat, |i: int| ONE));
        assert(Seq::new(n, |i: int| (-ONE) as i32).drop_last() =~= Seq::new(
            (n - 1) as nat,
            |i: int| (-ONE) as i32,
        ));
    }
}

/// After any run of draws, pink tap `j` holds the most recent draw written
/// to it, or zero if none was.
pub proof fn lemma_pink_taps(draws: Seq<i32>)
    ensures
        pink_taps_after(draws).len() == PINK_TAPS,
        forall|j: int|
            0 <= j < PINK_TAPS ==> #[trigger] pink_taps_after(draws)[j] == if last_write(
                draws.len() as int,
                j,
            ) >= 0 {
                draws[last_write(draws.len() as int, j)]
            } else {
                0i32
            },
    decreases draws.len(),
{
    if draws.len() > 0 {
        let prev = draws.drop_last();
        lemma_pink_taps(prev);
        let len = draws.len() as int;
        let q = (len - 1) % 7;
        assert forall|j: int| 0 <= j < PINK_TAPS implies #[trigger] pink_taps_after(draws)[j]
            == if last_write(len, j) >= 0 {
            draws[last_write(len, j)]
        } else {
            0i32
        } by {
            if j == q {
                assert(last_write(len, j) == len - 1);
            } else {
                assert(last_write(len, j) == last_write(len - 1, j));
            }
        }
    }
}

/// Seven calls from a fresh state write each of the seven taps exactly once:
/// the taps are then the draws, in order.
pub proof fn lemma_pink_full_cycle(draws: Seq<i32>)
    requires
        draws.len() == PINK_TAPS,
    ensures
        pink_taps_after(draws) == draws,
{
    lemma_pink_taps(draws);
    assert(pink_taps_after(draws) =~= draws);
}

/// Replacing one element changes a sum by the difference.
pub proof fn lemma_sum_update(s: Seq<i32>, q: int, x: i32)
    requires
        0 <= q < s.len(),
    ensures
        seq_sum(s.update(q, x)) == seq_sum(s) - s[q] + x,
    decreases s.len(),
{
    if q == s.len() - 1 {
        assert(s.update(q, x).drop_last() =~= s.drop_last());
    } else {
        lemma_sum_update(s.drop_last(), q, x);
        assert(s.update(q, x).drop_last() =~= s.drop_last().update(q, x));
    }
}

/// A sum is its first element plus the sum of the rest.
pub proof fn lemma_sum_first(s: Seq<i32>)
    requires
        s.len() > 0,
    ensures
        seq_sum(s) == s[0] + seq_sum(s.subrange(1, s.len() as int)),
    decreases s.len(),
{
    if s.len() > 1 {
        lemma_sum_first(s.drop_last());
        let rest = s.subrange(1, s.len() as int);
        assert(rest.drop_last() =~= s.drop_last().subrange(1, s.len() - 1));
        assert(rest.last() == s.last());
        assert(seq_sum(rest) == seq_sum(rest.drop_last()) + rest.last());
    } else {
        assert(seq_sum(s.drop_last()) == 0);
        assert(seq_sum(s.subrange(1, 1)) == 0);
    }
}

/// A run of zero samples sums to zero.
proof fn lemma_sum_zeros(n: nat)
    ensures
        seq_sum(Seq::new(n, |j: int| 0i32)) == 0,
    decreases n,
{
    if n > 0 {
        lemma_sum_zeros((n - 1) as nat);
        assert(Seq::new(n, |j: int| 0i32).drop_last() =~= Seq::new((n - 1) as nat, |j: int| 0i32));
    }
}

/// The draws that pink noise averages after a run: the last `PINK_TAPS` of
/// them, or all of them while there are fewer.
pub open spec fn pink_recent(draws: Seq<i32>) -> Seq<i32> {
    if draws.len() >= PINK_TAPS {
        draws.subrange(draws.len() - PINK_TAPS, draws.len() as int)
    } else {
        draws
    }
}

/// After any run of calls from a fresh state, the pink taps sum to the most
/// recent draws (at most seven, taps never written counting as zero), so the
/// output of each call is their mean.
pub proof fn lemma_pink_recent_mean(draws: Seq<i32>)
    ensures
        seq_sum(pink_taps_after(draws)) == seq_sum(pink_recent(draws)),
        pink_output(pink_taps_after(draws)) == div_trunc(
            seq_sum(pink_recent(draws)),
            PINK_TAPS as int,
        ),
    decreases draws.len(),
{
    let len = draws.len() as int;
    if len == 0 {
        lemma_sum_zeros(PINK_TAPS as nat);
    } else {
        let prev = draws.drop_last();
        lemma_pink_recent_mean(prev);
        lemma_pink_taps(prev);
        let q = (len - 1) % 7;
        lemma_sum_update(pink_taps_after(prev), q, draws.last());
        if len >= 8 {
            assert(last_write(len - 1, q) == len - 8);
            let w = prev.subrange(len - 8, len - 1);
            lemma_sum_first(w);
            assert(w.subrange(1, 7) =~= draws.subrange(len - 7, len).drop_last());
        } else {
            assert(q == len - 1);
            assert(last_write(len - 1, q) < 0);
            if len == 7 {
                assert(draws.subrange(0, len) =~= draws);
            }
            assert(pink_recent(draws).drop_last() =~= pink_recent(prev));
        }
    }
}

/// A pink generator whose taps are those of a run `prev` from a fresh state
/// (a fresh one has run the empty sequence) moves, on `draw`, to the taps of
/// the run extended by `draw`, and outputs their mean.
pub proof fn lemma_pink_run_step(g: NoiseGenerator, prev: Seq<i32>, draw: i32, next: NoiseGenerator)
    requires
        g matches NoiseGenerator::Pink(p) && p.taps@ == pink_taps_after(prev) && p.index == prev.len() as int
            % (PINK_TAPS as int),
        g.advanced(draw, &next),
    ensures
        next matches NoiseGenerator::Pink(n) && n.taps@ == pink_taps_after(prev.push(draw))
            && n.index == prev.push(draw).len() as int % (PINK_TAPS as int),
        g.output_of(draw) == pink_output(pink_taps_after(prev.push(draw))),
{
    assert(prev.push(draw).drop_last() =~= prev);
}

/// A fresh pink generator holds the taps of the empty run.
pub proof fn lemma_pink_fresh(g: NoiseGenerator)
    requires
        g is Pink,
        g.is_fresh(),
    ensures
        g matches NoiseGenerator::Pink(p) && p.taps@ == pink_taps_after(Seq::empty()) && p.index
            == 0,
{
}

} // verus!
