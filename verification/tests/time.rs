use ttyseq::time::{Frames, MusicalLength, SampleRate, TimeSignature, INTERNAL_PPQN};

fn sig(numerator: u8, denominator: u8) -> TimeSignature {
    TimeSignature { numerator, denominator }
}

#[test]
fn quarter_note_beat_in_four_four() {
    assert_eq!(sig(4, 4).ticks_per_beat(), INTERNAL_PPQN);
    assert_eq!(sig(4, 4).ticks_per_beat(), 960);
}

#[test]
fn eighth_note_beat_in_seven_eight() {
    assert_eq!(sig(7, 8).ticks_per_beat(), 480);
    assert_eq!(MusicalLength::Bars(1).in_beats(sig(7, 8)), 7);
    assert_eq!(MusicalLength::Bars(1).in_ticks(sig(7, 8)), 7 * 480);
}

#[test]
fn other_denominators() {
    assert_eq!(sig(3, 2).ticks_per_beat(), 1920);
    assert_eq!(sig(3, 1).ticks_per_beat(), 3840);
    assert_eq!(sig(5, 16).ticks_per_beat(), 240);
    // 3840 / 7 rounds down
    assert_eq!(sig(7, 7).ticks_per_beat(), 548);
    assert_eq!(sig(1, 255).ticks_per_beat(), 15);
}

#[test]
fn bars_count_numerator_beats() {
    assert_eq!(MusicalLength::Bars(8).in_beats(sig(4, 4)), 32);
    assert_eq!(MusicalLength::Bars(16).in_beats(sig(3, 4)), 48);
    assert_eq!(MusicalLength::Beats(5).in_beats(sig(3, 4)), 5);
    assert_eq!(
        MusicalLength::Bars(8).in_ticks(sig(4, 4)),
        MusicalLength::Beats(32).in_ticks(sig(4, 4))
    );
}

#[test]
fn ticks_of_lengths() {
    assert_eq!(MusicalLength::Bars(8).in_ticks(sig(4, 4)), 8 * 4 * 960);
    assert_eq!(MusicalLength::Beats(3).in_ticks(sig(6, 8)), 3 * 480);
    assert_eq!(MusicalLength::Bars(0).in_ticks(sig(4, 4)), 0);
}

#[test]
fn whole_note_law_on_values() {
    for d in [1u8, 2, 4, 8, 16, 32, 64, 128] {
        assert_eq!(sig(4, d).ticks_per_beat() as u64 * d as u64, 4 * INTERNAL_PPQN as u64);
    }
}

#[test]
fn beats_add_up() {
    let s = sig(5, 8);
    assert_eq!(
        MusicalLength::Beats(7).in_ticks(s),
        MusicalLength::Beats(3).in_ticks(s) + MusicalLength::Beats(4).in_ticks(s)
    );
}

#[test]
fn largest_lengths_do_not_overflow() {
    let s = sig(255, 1);
    assert_eq!(MusicalLength::Bars(u32::MAX).in_beats(s), u32::MAX as u64 * 255);
    assert_eq!(MusicalLength::Bars(u32::MAX).in_ticks(s), u32::MAX as u64 * 255 * 3840);
}

#[test]
fn rates_and_frames_order() {
    assert!(SampleRate(44_100) < SampleRate(48_000));
    assert!(Frames(24_000) > Frames(23_999));
    assert_eq!(Frames(5), Frames(5));
}
