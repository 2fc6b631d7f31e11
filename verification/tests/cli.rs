use ttyseq::cli::{device_matches, parse_opts, Opts};

fn args(a: &[&str]) -> Vec<String> {
    a.iter().map(|s| s.to_string()).collect()
}

fn defaults() -> Opts {
    Opts {
        list: false,
        device: "Babyface".to_string(),
        buffer: 512,
        rate: 48_000,
        channels: 2,
        secs: 60,
        wav: "test_48k_stereo.wav".to_string(),
    }
}

#[test]
fn no_arguments_give_the_defaults() {
    assert_eq!(parse_opts(&args(&[])), Ok(defaults()));
}

#[test]
fn every_option() {
    let o = parse_opts(&args(&[
        "--device", "plughw:CARD=Pro71993645", "--buffer", "128", "--rate", "96000",
        "--channels", "12", "--secs", "0", "--wav", "a.wav", "--list",
    ]))
    .unwrap();
    assert_eq!(
        o,
        Opts {
            list: true,
            device: "plughw:CARD=Pro71993645".to_string(),
            buffer: 128,
            rate: 96_000,
            channels: 12,
            secs: 0,
            wav: "a.wav".to_string(),
        }
    );
}

#[test]
fn last_occurrence_wins_and_values_are_taken_verbatim() {
    let o = parse_opts(&args(&["--buffer", "64", "--buffer", "+256", "--device", "--list"])).unwrap();
    assert_eq!(o.buffer, 256);
    assert_eq!(o.device, "--list");
    assert!(!o.list);
}

#[test]
fn missing_values() {
    assert_eq!(parse_opts(&args(&["--device"])), Err("--device needs a value".to_string()));
    assert_eq!(parse_opts(&args(&["--list", "--secs"])), Err("--secs needs a value".to_string()));
    assert_eq!(parse_opts(&args(&["--wav"])), Err("--wav needs a value".to_string()));
}

#[test]
fn bad_numbers() {
    assert_eq!(
        parse_opts(&args(&["--buffer", "12x"])),
        Err("--buffer: invalid digit found in string".to_string())
    );
    assert_eq!(
        parse_opts(&args(&["--rate", ""])),
        Err("--rate: cannot parse integer from empty string".to_string())
    );
    assert_eq!(
        parse_opts(&args(&["--channels", "70000"])),
        Err("--channels: number too large to fit in target type".to_string())
    );
    assert_eq!(
        parse_opts(&args(&["--secs", "-1"])),
        Err("--secs: invalid digit found in string".to_string())
    );
    let e = "12x".parse::<u32>().unwrap_err();
    assert_eq!(parse_opts(&args(&["--buffer", "12x"])), Err(format!("--buffer: {e}")));
}

#[test]
fn unknown_arguments() {
    assert_eq!(parse_opts(&args(&["--bogus"])), Err("unknown argument: --bogus".to_string()));
    assert_eq!(
        parse_opts(&args(&["--list", "LIST"])),
        Err("unknown argument: LIST".to_string())
    );
    assert_eq!(
        parse_opts(&args(&["--buffer", "1", "--buffer", "x", "--nope"])),
        Err("--buffer: invalid digit found in string".to_string())
    );
}

#[test]
fn device_selection_ignores_case() {
    let name = "Babyface Pro (71993645), USB Audio";
    let pcm = "plughw:CARD=Pro71993645,DEV=0";
    assert!(device_matches(name, pcm, "Babyface"));
    assert!(device_matches(name, pcm, "BABYFACE"));
    assert!(device_matches(name, pcm, "plughw:card=pro71993645"));
    assert!(device_matches(name, pcm, ""));
    assert!(!device_matches(name, pcm, "Scarlett"));
    assert!(device_matches("ÉCRAN", "", "écran"));
}

#[test]
fn order_of_distinct_options_does_not_matter() {
    let a = parse_opts(&args(&["--rate", "96000", "--list", "--wav", "b.wav", "--secs", "5"]));
    let b = parse_opts(&args(&["--secs", "5", "--wav", "b.wav", "--list", "--rate", "96000"]));
    assert_eq!(a, b);
    assert!(a.is_ok());
}
