//! Writing mixed frames into an output buffer in the device's representation.
use vstd::prelude::*;

use crate::mixer::{mixed_frames, MixSession};
use crate::sample::{clamp, div_trunc, is_sample, ONE};

verus! {

/// The signed 16-bit value of a normalized sample: scaled by 32768 and
/// truncated, with 1.0 landing on the largest value.
pub open spec fn i16_of(s: int) -> int {
    clamp(div_trunc(s * 32768, ONE as int), -32768, 32767)
}

/// The unsigned 16-bit value of a normalized sample: the signed value moved up
/// by the midpoint 32768.
pub open spec fn u16_of(s: int) -> int {
    i16_of(s) + 32768
}

/// Converts a normalized sample to signed 16-bit.
pub fn to_i16(s: i32) -> (r: i16)
    requires
        is_sample(s as int),
    ensures
        r as int == i16_of(s as int),
{
    let x = (s as i64 * 32768) / (ONE as i64);
    if x > 32767 {
        32767
    } else {
        x as i16
    }
}

/// Converts a normalized sample to unsigned 16-bit.
pub fn to_u16(s: i32) -> (r: u16)
    requires
        is_sample(s as int),
    ensures
        r as int == u16_of(s as int),
{
    (to_i16(s) as i32 + 32768) as u16
}

/// Writes one converted value into every channel slot of a frame.
pub fn write_frame<T: Copy>(value: T, frame: &mut [T])
    ensures
        final(frame)@.len() == old(frame)@.len(),
        forall|k: int| 0 <= k < final(frame)@.len() ==> #[trigger] final(frame)@[k] == value,
{
    let n = frame.len();
    let mut k: usize = 0;
    while k < n
        invariant
            k <= n,
            frame@.len() == n,
            forall|j: int| 0 <= j < k ==> #[trigger] frame@[j] == value,
        decreases n - k,
    {
        frame[k] = value;
        k = k + 1;
    }
}

proof fn lemma_frame_of(k: int, f: int, ch: int)
    requires
        ch > 0,
        f * ch <= k < f * ch + ch,
    ensures
        k / ch == f,
{
    assert(k / ch == f) by (nonlinear_arith)
        requires
            ch > 0,
            f * ch <= k < f * ch + ch,
    ;
}

proof fn lemma_frame_below(k: int, f: int, ch: int)
    requires
        ch > 0,
        0 <= k < f * ch,
    ensures
        0 <= k / ch < f,
{
    assert(0 <= k / ch < f) by (nonlinear_arith)
        requires
            ch > 0,
            0 <= k < f * ch,
    ;
}

proof fn lemma_frame_count(e: int, f: int, ch: int)
    requires
        ch > 0,
        f >= 0,
        f * ch < e <= f * ch + ch,
    ensures
        (e + ch - 1) / ch == f + 1,
{
    assert((e + ch - 1) / ch == f + 1) by (nonlinear_arith)
        requires
            ch > 0,
            f * ch < e <= f * ch + ch,
    ;
}

/// Fills an interleaved buffer of `channels` slots per frame, a last frame
/// possibly cut short by the buffer's end. Each frame is one mix of the
/// session (every voice stepped once, in order), converted once, and its value
/// written into all the frame's slots.
pub fn fill_frames<T: Copy, F: Fn(i32) -> T>(
    session: &mut MixSession,
    data: &mut [T],
    channels: usize,
    convert: F,
)
    requires
        old(session).wf(),
        channels > 0,
        forall|s: i32| is_sample(s as int) ==> convert.requires((s,)),
    ensures
        final(session).wf(),
        final(data)@.len() == old(data)@.len(),
        exists|states: Seq<MixSession>, draws: Seq<Seq<i32>>, samples: Seq<i32>, values: Seq<T>|
            #![trigger mixed_frames(states, draws, samples), values.len()]
            {
                &&& mixed_frames(states, draws, samples)
                &&& states[0] == *old(session)
                &&& states.last() == *final(session)
                &&& samples.len() == (old(data)@.len() + channels - 1) / (channels as int)
                &&& values.len() == samples.len()
                &&& forall|f: int|
                    0 <= f < samples.len() ==> is_sample(#[trigger] samples[f] as int)
                        && convert.ensures((samples[f],), values[f])
                &&& forall|k: int|
                    0 <= k < final(data)@.len() ==> #[trigger] final(data)@[k] == values[k
                        / (channels as int)]
            },
{
    let len = data.len();
    let ghost mut states: Seq<MixSession> = seq![*session];
    let ghost mut draws: Seq<Seq<i32>> = Seq::empty();
    let ghost mut samples: Seq<i32> = Seq::empty();
    let ghost mut values: Seq<T> = Seq::empty();
    let mut start: usize = 0;
    proof {
        assert((0 + channels - 1) / (channels as int) == 0) by (nonlinear_arith)
            requires
                channels > 0,
        ;
    }
    while start < len
        invariant
            session.wf(),
            data@.len() == len,
            channels > 0,
            forall|s: i32| is_sample(s as int) ==> convert.requires((s,)),
            mixed_frames(states, draws, samples),
            states[0] == *old(session),
            states.last() == *session,
            samples.len() == values.len(),
            start <= len,
            start == len || start == samples.len() * channels,
            samples.len() == (start + channels - 1) / (channels as int),
            samples.len() * channels >= start,
            forall|f: int|
                0 <= f < samples.len() ==> is_sample(#[trigger] samples[f] as int)
                    && convert.ensures((samples[f],), values[f]),
            forall|k: int|
                0 <= k < start ==> #[trigger] data@[k] == values[k / (channels as int)],
        decreases len - start,
    {
        let ghost before = *session;
        let s = session.mix_one_frame();
        let v = convert(s);
        let end = if len - start < channels {
            len
        } else {
            start + channels
        };
        let ghost f = samples.len() as int;
        proof {
            let d = choose|d: Seq<i32>| #[trigger] before.mixed_by(d, session, s as int);
            let old_states = states;
            let old_draws = draws;
            let old_samples = samples;
            let old_values = values;
            states = states.push(*session);
            draws = draws.push(d);
            samples = samples.push(s);
            values = values.push(v);
            assert forall|g: int| 0 <= g < samples.len() implies states[g].mixed_by(
                draws[g],
                &states[g + 1],
                #[trigger] samples[g] as int,
            ) by {
                if g < f {
                    assert(old_states[g].mixed_by(
                        old_draws[g],
                        &old_states[g + 1],
                        old_samples[g] as int,
                    ));
                }
            }
            assert forall|j: int| 0 <= j < start implies #[trigger] data@[j] == values[j
                / (channels as int)] by {
                lemma_frame_below(j, f, channels as int);
                assert(data@[j] == old_values[j / (channels as int)]);
            }
            lemma_frame_count(end as int, f, channels as int);
        }
        let mut k = start;
        while k < end
            invariant
                start <= k <= end,
                end <= len,
                start == f * channels,
                end <= start + channels,
                data@.len() == len,
                channels > 0,
                values.len() == f + 1,
                values[f] == v,
                forall|j: int| 0 <= j < k ==> #[trigger] data@[j] == values[j / (channels as int)],
            decreases end - k,
        {
            data[k] = v;
            proof {
                lemma_frame_of(k as int, f, channels as int);
            }
            k = k + 1;
        }
        assert(samples.len() * channels == f * channels + channels) by (nonlinear_arith)
            requires
                samples.len() == f + 1,
        ;
        start = end;
    }
}

/// Silence maps to each representation's zero or midpoint, and full scale to
/// its largest value (the normalized representation is the sample itself).
pub proof fn lemma_conversion_endpoints()
    ensures
        i16_of(0) == 0,
        u16_of(0) == 32768,
        i16_of(ONE as int) == 32767,
        u16_of(ONE as int) == 65535,
        i16_of(-ONE as int) == -32768,
        u16_of(-ONE as int) == 0,
{
}

} // verus!
