//! Musical time: signatures, musical lengths and their conversion to ticks.

use vstd::prelude::*;

verus! {

/// Internal resolution: ticks per quarter note.
pub const INTERNAL_PPQN: u32 = 960;

/// Ticks in a whole note (four quarter notes).
pub open spec fn whole_note_ticks() -> int {
    4 * INTERNAL_PPQN as int
}

/// A time signature such as 4/4 or 7/8.
#[derive(Debug, Clone, Copy, PartialEq, Eq, Structural)]
pub struct TimeSignature {
    pub numerator: u8,
    pub denominator: u8,
}

/// An audio sample rate, in frames per second.
#[derive(Debug, Clone, Copy, PartialEq, Eq, Structural, PartialOrd, Ord)]
pub struct SampleRate(pub u32);

/// A position or a duration counted in audio frames.
#[derive(Debug, Clone, Copy, PartialEq, Eq, Structural, PartialOrd, Ord)]
pub struct Frames(pub u64);

/// A musical length, in bars or in beats of the song's signature.
#[derive(Debug, Clone, Copy, PartialEq, Eq, Structural)]
pub enum MusicalLength {
    Bars(u32),
    Beats(u32),
}

impl TimeSignature {
    /// Ticks per beat, a beat being one unit of the denominator.
    pub open spec fn spec_ticks_per_beat(self) -> int {
        whole_note_ticks() / (self.denominator as int)
    }

    /// Ticks per beat, a beat being one unit of the denominator.
    pub fn ticks_per_beat(&self) -> (tpb: u32)
        requires
            self.denominator != 0,
        ensures
            tpb == self.spec_ticks_per_beat(),
            tpb <= whole_note_ticks(),
    {
        INTERNAL_PPQN * 4 / (self.denominator as u32)
    }
}

impl MusicalLength {
    /// Number of beats, where a beat is one unit of the signature's denominator.
    pub open spec fn spec_in_beats(self, signature: TimeSignature) -> int {
        match self {
            MusicalLength::Bars(n) => n * signature.numerator,
            MusicalLength::Beats(n) => n as int,
        }
    }

    /// Number of ticks of the length under the given signature.
    pub open spec fn spec_in_ticks(self, signature: TimeSignature) -> int {
        self.spec_in_beats(signature) * signature.spec_ticks_per_beat()
    }

    /// Number of beats, where a beat is one unit of the signature's denominator.
    /// In 7/8, a beat is an eighth note.
    pub fn in_beats(&self, signature: TimeSignature) -> (beats: u64)
        ensures
            beats == self.spec_in_beats(signature),
            beats <= u32::MAX * u8::MAX,
    {
        match *self {
            MusicalLength::Bars(n) => {
                proof {
                    assert(n * signature.numerator <= u32::MAX * u8::MAX) by (nonlinear_arith)
                        requires n <= u32::MAX, signature.numerator <= u8::MAX;
                }
                (n as u64) * (signature.numerator as u64)
            },
            MusicalLength::Beats(n) => n as u64,
        }
    }

    /// Number of ticks of the length under the given signature.
    pub fn in_ticks(&self, signature: TimeSignature) -> (ticks: u64)
        requires
            signature.denominator != 0,
        ensures
            ticks == self.spec_in_ticks(signature),
    {
        let beats = self.in_beats(signature);
        let tpb = signature.ticks_per_beat();
        proof {
            assert(beats * tpb <= (u32::MAX * u8::MAX) * 3840) by (nonlinear_arith)
                requires beats <= u32::MAX * u8::MAX, tpb <= 3840;
        }
        beats * (tpb as u64)
    }
}

/// A beat is one unit of the denominator: for a denominator that divides a
/// whole note's ticks, `denominator` beats make exactly one whole note (so a
/// beat of 4/4 is a quarter note of `INTERNAL_PPQN` ticks, and a beat of 7/8 an
/// eighth note of half as many).
pub proof fn lemma_beats_fill_whole_note(signature: TimeSignature)
    requires
        signature.denominator != 0,
        whole_note_ticks() % (signature.denominator as int) == 0,
    ensures
        signature.spec_ticks_per_beat() * signature.denominator == whole_note_ticks(),
{
    vstd::arithmetic::div_mod::lemma_fundamental_div_mod(
        whole_note_ticks(),
        signature.denominator as int,
    );
    let d = signature.denominator as int;
    let q = whole_note_ticks() / d;
    assert(q * d == d * q) by (nonlinear_arith);
}

/// A bar holds `numerator` beats: `n` bars last as long as `n * numerator`
/// beats, and `n` bars are `n` times one bar.
pub proof fn lemma_bar_is_numerator_beats(n: u32, signature: TimeSignature)
    ensures
        MusicalLength::Bars(n).spec_in_ticks(signature) == (n as int) * MusicalLength::Beats(
            signature.numerator as u32,
        ).spec_in_ticks(signature),
        MusicalLength::Bars(n).spec_in_ticks(signature) == (n as int) * MusicalLength::Bars(
            1,
        ).spec_in_ticks(signature),
{
    let b = signature.numerator as int;
    let t = signature.spec_ticks_per_beat();
    assert((n * b) * t == n * (b * t)) by (nonlinear_arith);
    assert((1 * b) * t == b * t) by (nonlinear_arith);
}

/// Lengths in beats add up: `a + b` beats last as long as `a` beats then `b`
/// beats.
pub proof fn lemma_beats_add(a: u32, b: u32, signature: TimeSignature)
    requires
        a + b <= u32::MAX,
    ensures
        MusicalLength::Beats((a + b) as u32).spec_in_ticks(signature) == MusicalLength::Beats(
            a,
        ).spec_in_ticks(signature) + MusicalLength::Beats(b).spec_in_ticks(signature),
{
    let t = signature.spec_ticks_per_beat();
    assert((a + b) * t == a * t + b * t) by (nonlinear_arith);
}

/// A length in ticks: `n` beats last `n * (3840 / denominator)` ticks, and
/// `n` bars `n * numerator * (3840 / denominator)`, 3840 being four quarter
/// notes of 960 ticks.
pub proof fn lemma_length_in_ticks(n: u32, signature: TimeSignature)
    ensures
        MusicalLength::Beats(n).spec_in_ticks(signature) == (n as int) * (3840int / (
        signature.denominator as int)),
        MusicalLength::Bars(n).spec_in_ticks(signature) == (n as int) * (signature.numerator as int)
            * (3840int / (signature.denominator as int)),
        MusicalLength::Beats(n).spec_in_beats(signature) == n,
        MusicalLength::Bars(n).spec_in_beats(signature) == (n as int) * (
        signature.numerator as int),
{
}

} // verus!
