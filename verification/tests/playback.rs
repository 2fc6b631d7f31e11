use rtrb::RingBuffer;
use ttyseq::playback::{
    check_sample_rate, check_stereo_at_rate, feed_step, fill_output, route_frame, run_finished,
    SampleSink, SampleSource, WavFormatError,
};

#[test]
fn frame_routing() {
    let mut frame = [9.0f32; 4];
    assert!(!route_frame(&mut frame, Some(0.5), Some(-0.5), 0.0));
    assert_eq!(frame, [0.5, -0.5, 0.0, 0.0]);
    let mut frame = [9.0f32; 2];
    assert!(route_frame(&mut frame, None, Some(0.25), 0.0));
    assert_eq!(frame, [0.0, 0.25]);
    let mut mono = [9i32; 1];
    assert!(!route_frame(&mut mono, Some(3), Some(4), 0));
    assert_eq!(mono, [3]);
}

#[test]
fn callback_routes_stereo_and_silences_the_rest() {
    let (mut p, c) = RingBuffer::<f32>::new(16);
    let mut c = SampleSource::new(c);
    for v in [1.0, 2.0, 3.0, 4.0, 5.0] {
        p.push(v).unwrap();
    }
    let mut data = [7.0f32; 12];
    let underruns = fill_output(&mut data, 4, &mut c, 0.0);
    assert_eq!(
        data,
        [1.0, 2.0, 0.0, 0.0, 3.0, 4.0, 0.0, 0.0, 5.0, 0.0, 0.0, 0.0]
    );
    assert_eq!(underruns, 0);
    let underruns = fill_output(&mut data, 4, &mut c, 0.0);
    assert_eq!(underruns, 3);
    assert!(data.iter().all(|&v| v == 0.0));
}

#[test]
fn callback_on_two_channels_and_partial_frame() {
    let (mut p, c) = RingBuffer::<i16>::new(16);
    let mut c = SampleSource::new(c);
    for v in 1..=6 {
        p.push(v).unwrap();
    }
    let mut data = [0i16; 6];
    assert_eq!(fill_output(&mut data, 2, &mut c, 0), 0);
    assert_eq!(data, [1, 2, 3, 4, 5, 6]);
    for v in 1..=6 {
        p.push(v * 10).unwrap();
    }
    let mut data = [0i16; 5];
    assert_eq!(fill_output(&mut data, 3, &mut c, -1), 0);
    assert_eq!(data, [10, 20, -1, 30, 40]);
    let mut data = [0i16; 3];
    assert_eq!(fill_output(&mut data, 1, &mut c, -1), 2);
    assert_eq!(data, [50, -1, -1]);
}

#[test]
fn feeding_loops_over_the_samples() {
    let (p, mut c) = RingBuffer::<u8>::new(2);
    let mut p = SampleSink::new(p);
    let samples = [1u8, 2, 3];
    assert_eq!(feed_step(&mut p, &samples, 0), (1, true));
    assert_eq!(feed_step(&mut p, &samples, 1), (2, true));
    assert_eq!(feed_step(&mut p, &samples, 2), (2, false));
    assert_eq!(c.pop(), Ok(1));
    assert_eq!(feed_step(&mut p, &samples, 2), (0, true));
    assert_eq!(c.pop(), Ok(2));
    assert_eq!(c.pop(), Ok(3));
    let (p, _c) = RingBuffer::<u8>::new(10);
    let mut p = SampleSink::new(p);
    let mut index = 0;
    for _ in 0..5 {
        let (next, pushed) = feed_step(&mut p, &samples, index);
        assert!(pushed);
        index = next;
    }
    assert_eq!(index, 5 % 3);
}

#[test]
fn bounded_runs() {
    assert!(!run_finished(0, 1_000_000));
    assert!(!run_finished(60, 59));
    assert!(run_finished(60, 60));
    assert!(run_finished(1, 2));
}

#[test]
fn wav_format_rules() {
    assert_eq!(check_sample_rate(48_000, 48_000), Ok(()));
    assert_eq!(
        check_sample_rate(44_100, 48_000),
        Err(WavFormatError::RateMismatch { wav: 44_100, expected: 48_000 })
    );
    assert_eq!(check_stereo_at_rate(48_000, 2, 48_000), Ok(()));
    assert_eq!(
        check_stereo_at_rate(48_000, 1, 48_000),
        Err(WavFormatError::NotStereo { channels: 1 })
    );
    assert_eq!(
        check_stereo_at_rate(44_100, 1, 48_000),
        Err(WavFormatError::RateMismatch { wav: 44_100, expected: 48_000 })
    );
}

#[test]
fn callback_takes_left_before_right() {
    let (mut p, c) = RingBuffer::<u32>::new(8);
    let mut c = SampleSource::new(c);
    for v in [10, 11, 20, 21] {
        p.push(v).unwrap();
    }
    let mut data = [0u32; 6];
    assert_eq!(fill_output(&mut data, 3, &mut c, 0), 0);
    assert_eq!(data, [10, 11, 0, 20, 21, 0]);
}
