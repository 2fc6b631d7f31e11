//! The real-time playback path: routing ring-buffer samples to the output
//! channels in the audio callback, feeding the ring buffer from the loaded
//! file, and the format rules a file must meet before it is played.

use vstd::prelude::*;
use rtrb::{Consumer, Producer};
use vstd::arithmetic::div_mod::lemma_fundamental_div_mod_converse;

verus! {

#[verifier::external_type_specification]
#[verifier::external_body]
#[verifier::reject_recursive_types(T)]
pub struct ExConsumer<T>(Consumer<T>);

#[verifier::external_type_specification]
#[verifier::external_body]
#[verifier::reject_recursive_types(T)]
pub struct ExProducer<T>(Producer<T>);

/// The consuming end of the ring buffer, with the record of what each attempt
/// to take a sample gave, in order.
#[verifier::reject_recursive_types(T)]
pub struct SampleSource<T> {
    consumer: Consumer<T>,
    pops: Ghost<Seq<Option<T>>>,
}

impl<T> SampleSource<T> {
    /// What each attempt to take a sample gave, in order.
    pub closed spec fn pops(&self) -> Seq<Option<T>> {
        self.pops@
    }

    /// The consuming end of a ring buffer, with nothing taken yet.
    pub fn new(consumer: Consumer<T>) -> (s: Self)
        ensures
            s.pops() == Seq::<Option<T>>::empty(),
    {
        SampleSource { consumer, pops: Ghost(Seq::empty()) }
    }

    /// Takes the oldest sample out of the ring buffer, if there is one.
    /// Calls `rtrb::Consumer::pop`. The contract claims only that the outcome
    /// is added to the record; whether a sample is there, and which, depends
    /// on the producing thread and is left unsaid.
    #[verifier::external_body]
    fn take(&mut self) -> (r: Option<T>)
        ensures
            final(self).pops() == old(self).pops().push(r),
    {
        self.consumer.pop().ok()
    }
}

/// The producing end of the ring buffer, with the record of every sample
/// offered to it and whether it was accepted, in order.
#[verifier::reject_recursive_types(T)]
pub struct SampleSink<T> {
    producer: Producer<T>,
    offers: Ghost<Seq<(T, bool)>>,
}

impl<T> SampleSink<T> {
    /// Every sample offered, with whether it was accepted, in order.
    pub closed spec fn offers(&self) -> Seq<(T, bool)> {
        self.offers@
    }

    /// The producing end of a ring buffer, with nothing offered yet.
    pub fn new(producer: Producer<T>) -> (s: Self)
        ensures
            s.offers() == Seq::<(T, bool)>::empty(),
    {
        SampleSink { producer, offers: Ghost(Seq::empty()) }
    }

    /// Offers a sample to the ring buffer; `true` when it was accepted.
    /// Calls `rtrb::Producer::push`. The contract claims only that the offer
    /// and its outcome are added to the record; whether a slot is free depends
    /// on the consuming thread and is left unsaid.
    #[verifier::external_body]
    fn offer(&mut self, value: T) -> (accepted: bool)
        ensures
            final(self).offers() == old(self).offers().push((value, accepted)),
    {
        self.producer.push(value).is_ok()
    }
}

/// The attempts to take samples that routing the frames makes: for each
/// frame, its left sample, then its right one.
pub open spec fn interleaved<T>(lefts: Seq<Option<T>>, rights: Seq<Option<T>>) -> Seq<Option<T>>
    decreases lefts.len(),
{
    if lefts.len() == 0 {
        Seq::empty()
    } else {
        interleaved(lefts.drop_last(), rights.drop_last()) + seq![lefts.last(), rights.last()]
    }
}

/// A popped sample, or silence when the ring buffer had none.
pub open spec fn or_silence<T>(sample: Option<T>, silence: T) -> T {
    match sample {
        Some(v) => v,
        None => silence,
    }
}

/// The content of channel `k` of a frame: left on the first channel, right on
/// the second, silence on every other one.
pub open spec fn routed_sample<T>(k: int, left: Option<T>, right: Option<T>, silence: T) -> T {
    if k == 0 {
        or_silence(left, silence)
    } else if k == 1 {
        or_silence(right, silence)
    } else {
        silence
    }
}

/// An interleaved output buffer of `len` samples over `channels` channels,
/// frame `f` routed from `lefts[f]` and `rights[f]`.
pub open spec fn routed_output<T>(
    len: nat,
    channels: nat,
    lefts: Seq<Option<T>>,
    rights: Seq<Option<T>>,
    silence: T,
) -> Seq<T> {
    Seq::new(
        len,
        |j: int| routed_sample(j % (channels as int), lefts[j / (channels as int)], rights[j / (channels as int)], silence),
    )
}

/// The number of frames, the last one possibly partial, in `len` samples.
pub open spec fn frame_count(len: nat, channels: nat) -> nat {
    ((len + channels - 1) / (channels as int)) as nat
}

/// How many frames found no left sample.
pub open spec fn missing_count<T>(lefts: Seq<Option<T>>) -> nat
    decreases lefts.len(),
{
    if lefts.len() == 0 {
        0
    } else {
        missing_count(lefts.drop_last()) + if lefts.last() is None {
            1nat
        } else {
            0nat
        }
    }
}

/// Sample `j` of a buffer lies in frame `f` at channel `j - f * ch`.
proof fn lemma_frame_of(j: int, ch: int, f: int)
    requires
        ch >= 1,
        f * ch <= j < f * ch + ch,
    ensures
        j / ch == f,
        j % ch == j - f * ch,
{
    lemma_fundamental_div_mod_converse(j, ch, f, j - f * ch);
}

/// A sample before frame `frames` lies in an earlier frame.
proof fn lemma_frame_before(j: int, ch: int, frames: int)
    requires
        ch >= 1,
        0 <= j < frames * ch,
    ensures
        0 <= j / ch < frames,
{
    vstd::arithmetic::div_mod::lemma_fundamental_div_mod(j, ch);
    let q = j / ch;
    let r = j % ch;
    assert(0 <= q < frames) by (nonlinear_arith)
        requires
            j == ch * q + r,
            0 <= r < ch,
            0 <= j < frames * ch,
            ch >= 1,
    ;
}

/// Routes the frame `data[base..end]`, leaving the rest of the buffer alone.
fn route_frame_at<T: Copy>(
    data: &mut [T],
    base: usize,
    end: usize,
    left: Option<T>,
    right: Option<T>,
    silence: T,
)
    requires
        base < end <= old(data)@.len(),
    ensures
        final(data)@.len() == old(data)@.len(),
        forall|j: int|
            0 <= j < final(data)@.len() ==> #[trigger] final(data)@[j] == if base <= j < end {
                routed_sample(j - base, left, right, silence)
            } else {
                old(data)@[j]
            },
{
    let mut k: usize = base;
    while k < end
        invariant
            base <= k <= end <= data@.len(),
            data@.len() == old(data)@.len(),
            forall|j: int|
                0 <= j < data@.len() ==> #[trigger] data@[j] == if base <= j < k {
                    routed_sample(j - base, left, right, silence)
                } else {
                    old(data)@[j]
                },
        decreases end - k,
    {
        let v = if k == base {
            match left {
                Some(v) => v,
                None => silence,
            }
        } else if k == base + 1 {
            match right {
                Some(v) => v,
                None => silence,
            }
        } else {
            silence
        };
        data[k] = v;
        k = k + 1;
    }
}

/// Routes one output frame: the left sample on the first channel, the right
/// one on the second (where the frame has one), silence on the others. A
/// missing sample plays as silence; returns whether the left one was missing.
pub fn route_frame<T: Copy>(frame: &mut [T], left: Option<T>, right: Option<T>, silence: T) -> (underrun: bool)
    requires
        old(frame)@.len() >= 1,
    ensures
        final(frame)@.len() == old(frame)@.len(),
        forall|k: int|
            0 <= k < final(frame)@.len() ==> #[trigger] final(frame)@[k] == routed_sample(
                k,
                left,
                right,
                silence,
            ),
        underrun == left is None,
{
    let n = frame.len();
    route_frame_at(frame, 0, n, left, right, silence);
    left.is_none()
}

/// The audio callback's work on one buffer: frame by frame, pops a left and a
/// right sample from the ring buffer and routes them (stereo content on the
/// first two channels, the remaining channels silenced; a missing sample
/// plays as silence). Returns the number of frames whose left sample was
/// missing (underruns).
pub fn fill_output<T: Copy>(
    data: &mut [T],
    out_channels: usize,
    source: &mut SampleSource<T>,
    silence: T,
) -> (underruns: usize)
    requires
        out_channels >= 1,
        out_channels >= 2 ==> (old(data)@.len() as int) % (out_channels as int) != 1,
    ensures
        final(data)@.len() == old(data)@.len(),
        exists|lefts: Seq<Option<T>>, rights: Seq<Option<T>>|
            #![trigger routed_output(old(data)@.len(), out_channels as nat, lefts, rights, silence)]
            {
                &&& lefts.len() == frame_count(old(data)@.len(), out_channels as nat)
                &&& rights.len() == lefts.len()
                &&& final(data)@ == routed_output(
                    old(data)@.len(),
                    out_channels as nat,
                    lefts,
                    rights,
                    silence,
                )
                &&& underruns == missing_count(lefts)
                &&& final(source).pops() == old(source).pops() + interleaved(lefts, rights)
            },
{
    let n = data.len();
    let ch = out_channels;
    let mut base: usize = 0;
    let mut underruns: usize = 0;
    let ghost mut lefts: Seq<Option<T>> = Seq::empty();
    let ghost mut rights: Seq<Option<T>> = Seq::empty();
    while base < n
        invariant
            ch >= 1,
            n == data@.len(),
            base <= n,
            base <= lefts.len() * ch,
            base < n ==> base == lefts.len() * ch,
            lefts.len() > 0 ==> (lefts.len() - 1) * ch < base,
            rights.len() == lefts.len(),
            underruns == missing_count(lefts),
            underruns <= lefts.len(),
            source.pops() == old(source).pops() + interleaved(lefts, rights),
            lefts.len() <= base,
            forall|j: int|
                0 <= j < base ==> #[trigger] data@[j] == routed_sample(
                    j % (ch as int),
                    lefts[j / (ch as int)],
                    rights[j / (ch as int)],
                    silence,
                ),
        decreases n - base,
    {
        let end = if n - base <= ch {
            n
        } else {
            base + ch
        };
        let left = source.take();
        let right = source.take();
        let ghost old_data = data@;
        let ghost old_lefts = lefts;
        let ghost old_rights = rights;
        route_frame_at(data, base, end, left, right, silence);
        proof {
            lefts = lefts.push(left);
            rights = rights.push(right);
            assert(lefts.drop_last() =~= old_lefts);
            assert(rights.drop_last() =~= old_rights);
            assert(source.pops() =~= old(source).pops() + interleaved(lefts, rights));
            let f = old_lefts.len() as int;
            assert(base == f * ch);
            assert forall|j: int| 0 <= j < end implies #[trigger] data@[j] == routed_sample(
                j % (ch as int),
                lefts[j / (ch as int)],
                rights[j / (ch as int)],
                silence,
            ) by {
                if j < base {
                    lemma_frame_before(j, ch as int, f);
                    assert(old_data[j] == data@[j]);
                } else {
                    lemma_frame_of(j, ch as int, f);
                }
            }
            assert(lefts.len() * ch == f * ch + ch) by (nonlinear_arith)
                requires
                    lefts.len() == f + 1,
            ;
        }
        if left.is_none() {
            underruns = underruns + 1;
        }
        base = end;
    }
    proof {
        let frames = lefts.len() as int;
        let c = ch as int;
        let q = (n as int + c - 1);
        if frames == 0 {
            lemma_fundamental_div_mod_converse(q, c, 0, q);
        } else {
            assert(0 <= q - frames * c < c) by (nonlinear_arith)
                requires
                    (frames - 1) * c < n,
                    n <= frames * c,
                    q == n + c - 1,
                    c >= 1,
            ;
            lemma_fundamental_div_mod_converse(q, c, frames, q - frames * c);
        }
        assert(data@ =~= routed_output(n as nat, ch as nat, lefts, rights, silence));
    }
    underruns
}

/// The position after `index` in a sample list of `len` samples played in a
/// loop.
pub open spec fn next_position(index: int, len: int) -> int {
    if index + 1 >= len {
        0
    } else {
        index + 1
    }
}

/// The position reached from `index` after `steps` accepted samples.
pub open spec fn position_after(index: int, len: int, steps: nat) -> int
    decreases steps,
{
    if steps == 0 {
        index
    } else {
        next_position(position_after(index, len, (steps - 1) as nat), len)
    }
}

/// One step of the loop that feeds the ring buffer: offers `samples[index]`;
/// when it is accepted, moves to the next sample (back to the first after the
/// last), else stays on it, and the caller waits before trying again.
/// Returns the next position and whether the sample was accepted.
pub fn feed_step<T: Copy>(sink: &mut SampleSink<T>, samples: &[T], index: usize) -> (r: (
    usize,
    bool,
))
    requires
        index < samples@.len(),
    ensures
        final(sink).offers() == old(sink).offers().push((samples@[index as int], r.1)),
        r.0 < samples@.len(),
        r.1 ==> r.0 == next_position(index as int, samples@.len() as int),
        !r.1 ==> r.0 == index,
{
    if sink.offer(samples[index]) {
        let next = if index + 1 >= samples.len() {
            0
        } else {
            index + 1
        };
        (next, true)
    } else {
        (index, false)
    }
}

/// Looping over the samples: `steps` accepted samples from position `index`
/// lead to position `(index + steps) % len`.
pub proof fn lemma_feed_loops(index: int, len: int, steps: nat)
    requires
        0 <= index < len,
    ensures
        position_after(index, len, steps) == (index + steps) % len,
    decreases steps,
{
    if steps == 0 {
        vstd::arithmetic::div_mod::lemma_small_mod(index as nat, len as nat);
    } else {
        lemma_feed_loops(index, len, (steps - 1) as nat);
        let p = (index + steps - 1) % len;
        vstd::arithmetic::div_mod::lemma_mod_bound(index + steps - 1, len);
        vstd::arithmetic::div_mod::lemma_add_mod_noop(index + steps - 1, 1, len);
        if len > 1 {
            vstd::arithmetic::div_mod::lemma_small_mod(1, len as nat);
        } else {
            vstd::arithmetic::div_mod::lemma_mod_self_0(len);
        }
        if p + 1 < len {
            vstd::arithmetic::div_mod::lemma_small_mod((p + 1) as nat, len as nat);
        } else {
            vstd::arithmetic::div_mod::lemma_mod_self_0(len);
        }
    }
}

/// Whether a bounded run is over: a run of `secs` seconds ends once that
/// many seconds have elapsed; `secs == 0` runs until interrupted.
pub fn run_finished(secs: u64, elapsed_secs: u64) -> (done: bool)
    ensures
        done == (secs > 0 && elapsed_secs >= secs),
{
    secs > 0 && elapsed_secs >= secs
}

/// Why an audio file cannot be played as it is (no resampling, no channel
/// mapping).
#[derive(Debug, Clone, Copy, PartialEq, Eq, Structural)]
pub enum WavFormatError {
    /// The file's sample rate differs from the output's.
    RateMismatch { wav: u32, expected: u32 },
    /// The file is not stereo.
    NotStereo { channels: u16 },
}

/// The file's sample rate must equal the output's.
pub fn check_sample_rate(wav_rate: u32, expected: u32) -> (r: Result<(), WavFormatError>)
    ensures
        r == if wav_rate == expected {
            Ok::<(), WavFormatError>(())
        } else {
            Err(WavFormatError::RateMismatch { wav: wav_rate, expected })
        },
{
    if wav_rate != expected {
        Err(WavFormatError::RateMismatch { wav: wav_rate, expected })
    } else {
        Ok(())
    }
}

/// The file must be at the requested rate, then be stereo.
pub fn check_stereo_at_rate(wav_rate: u32, wav_channels: u16, rate: u32) -> (r: Result<
    (),
    WavFormatError,
>)
    ensures
        r == if wav_rate != rate {
            Err(WavFormatError::RateMismatch { wav: wav_rate, expected: rate })
        } else if wav_channels != 2 {
            Err(WavFormatError::NotStereo { channels: wav_channels })
        } else {
            Ok::<(), WavFormatError>(())
        },
{
    check_sample_rate(wav_rate, rate)?;
    if wav_channels != 2 {
        return Err(WavFormatError::NotStereo { channels: wav_channels });
    }
    Ok(())
}

/// The content of one channel of a frame: the left sample on channel 0, the
/// right one on channel 1 (silence when the sample is missing), silence on
/// every other channel.
pub proof fn lemma_routed_sample_channels<T>(k: int, left: Option<T>, right: Option<T>, silence: T)
    requires
        k >= 0,
    ensures
        k == 0 ==> routed_sample(k, left, right, silence) == match left {
            Some(v) => v,
            None => silence,
        },
        k == 1 ==> routed_sample(k, left, right, silence) == match right {
            Some(v) => v,
            None => silence,
        },
        k >= 2 ==> routed_sample(k, left, right, silence) == silence,
{
}

/// In a routed buffer of `channels` channels, sample `j` is channel
/// `j % channels` of frame `j / channels`: channel 0 carries that frame's
/// left sample, channel 1 its right one (silence when missing), and every
/// other channel is silence.
pub proof fn lemma_routed_output_channels<T>(
    len: nat,
    channels: nat,
    lefts: Seq<Option<T>>,
    rights: Seq<Option<T>>,
    silence: T,
    j: int,
)
    requires
        channels >= 1,
        0 <= j < len,
    ensures
        routed_output(len, channels, lefts, rights, silence).len() == len,
        j % (channels as int) == 0 ==> routed_output(len, channels, lefts, rights, silence)[j]
            == match lefts[j / (channels as int)] {
            Some(v) => v,
            None => silence,
        },
        j % (channels as int) == 1 ==> routed_output(len, channels, lefts, rights, silence)[j]
            == match rights[j / (channels as int)] {
            Some(v) => v,
            None => silence,
        },
        j % (channels as int) >= 2 ==> routed_output(len, channels, lefts, rights, silence)[j]
            == silence,
{
}

/// Routing takes, frame after frame, the left sample then the right one: the
/// attempts interleave the frames' left and right samples, left first.
pub proof fn lemma_interleaved_order<T>(lefts: Seq<Option<T>>, rights: Seq<Option<T>>)
    requires
        rights.len() == lefts.len(),
    ensures
        interleaved(lefts, rights).len() == 2 * lefts.len(),
        forall|f: int|
            0 <= f < lefts.len() ==> #[trigger] interleaved(lefts, rights)[2 * f] == lefts[f]
                && interleaved(lefts, rights)[2 * f + 1] == rights[f],
    decreases lefts.len(),
{
    if lefts.len() > 0 {
        let l = lefts.drop_last();
        let r = rights.drop_last();
        lemma_interleaved_order(l, r);
        let s = interleaved(lefts, rights);
        assert forall|f: int| 0 <= f < lefts.len() implies #[trigger] s[2 * f] == lefts[f] && s[2
            * f + 1] == rights[f] by {
            if f < l.len() {
                assert(interleaved(l, r)[2 * f] == l[f]);
            }
        }
    }
}

/// The underruns counted are the frames whose left sample was missing.
pub proof fn lemma_missing_count_counts_missing<T>(lefts: Seq<Option<T>>)
    ensures
        missing_count(lefts) == lefts.filter(|o: Option<T>| o is None).len(),
    decreases lefts.len(),
{
    reveal(Seq::filter);
    if lefts.len() > 0 {
        lemma_missing_count_counts_missing(lefts.drop_last());
    }
}

} // verus!
