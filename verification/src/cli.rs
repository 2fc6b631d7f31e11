//! The command line of the audio interface validation tool, and the rule that
//! picks its output device.
//!
//! Usage: `[--list] [--device <name-substring>] [--buffer <frames>]
//! [--rate <hz>] [--channels <n>] [--secs <n>] [--wav <path>]`.
//! Each option may be given more than once, the last one counts; a value is
//! the next argument whatever it looks like.

use vstd::prelude::*;
use crate::text::{
    chars_of, int_error_message, int_error_text, lemma_occurs_inside, lemma_occurs_splits,
    occurs_in, parse_unsigned, parse_unsigned_spec, same_text, text_contains, IntErrorKind,
};

verus! {

/// The options of a validation run.
#[derive(Debug, PartialEq, Eq)]
pub struct Opts {
    /// List the output devices instead of playing.
    pub list: bool,
    /// Substring of the output device's name or PCM id.
    pub device: String,
    /// Buffer size in frames.
    pub buffer: u32,
    /// Sample rate in Hz.
    pub rate: u32,
    /// Number of output channels.
    pub channels: u16,
    /// Run duration in seconds, 0 for no limit.
    pub secs: u64,
    /// Path of the stereo file to play.
    pub wav: String,
}

/// The mathematical value of the options.
pub struct OptsModel {
    pub list: bool,
    pub device: Seq<char>,
    pub buffer: u32,
    pub rate: u32,
    pub channels: u16,
    pub secs: u64,
    pub wav: Seq<char>,
}

impl View for Opts {
    type V = OptsModel;

    open spec fn view(&self) -> OptsModel {
        OptsModel {
            list: self.list,
            device: self.device@,
            buffer: self.buffer,
            rate: self.rate,
            channels: self.channels,
            secs: self.secs,
            wav: self.wav@,
        }
    }
}

/// The options when none is given.
pub open spec fn default_opts() -> OptsModel {
    OptsModel {
        list: false,
        device: "Babyface"@,
        buffer: 512,
        rate: 48000,
        channels: 2,
        secs: 60,
        wav: "test_48k_stereo.wav"@,
    }
}

/// The message for an option given without its value.
pub open spec fn missing_value_text(flag: Seq<char>) -> Seq<char> {
    flag + " needs a value"@
}

/// The message for an option whose value is not a number in range.
pub open spec fn bad_number_text(flag: Seq<char>, kind: IntErrorKind) -> Seq<char> {
    flag + ": "@ + int_error_text(kind)
}

/// The numeric value of an option, or the message that refuses it.
pub open spec fn number_value(flag: Seq<char>, value: Seq<char>, max: int) -> Result<int, Seq<char>> {
    match parse_unsigned_spec(value, max) {
        Ok(v) => Ok(v),
        Err(k) => Err(bad_number_text(flag, k)),
    }
}

/// The arguments as texts.
pub open spec fn args_view(args: Seq<String>) -> Seq<Seq<char>> {
    args.map_values(|a: String| a@)
}

/// The options that `args` give when applied, left to right, on top of `o`,
/// or the message of the first argument that is refused.
pub open spec fn parse_args(args: Seq<Seq<char>>, o: OptsModel) -> Result<OptsModel, Seq<char>>
    decreases args.len(),
{
    if args.len() == 0 {
        Ok(o)
    } else {
        let a = args[0];
        let rest = args.drop_first();
        if a == "--list"@ {
            parse_args(rest, OptsModel { list: true, ..o })
        } else if a == "--device"@ || a == "--buffer"@ || a == "--rate"@ || a == "--channels"@
            || a == "--secs"@ || a == "--wav"@ {
            if rest.len() == 0 {
                Err(missing_value_text(a))
            } else {
                let v = rest[0];
                let tail = rest.drop_first();
                if a == "--device"@ {
                    parse_args(tail, OptsModel { device: v, ..o })
                } else if a == "--wav"@ {
                    parse_args(tail, OptsModel { wav: v, ..o })
                } else if a == "--buffer"@ {
                    match number_value(a, v, u32::MAX as int) {
                        Ok(n) => parse_args(tail, OptsModel { buffer: n as u32, ..o }),
                        Err(m) => Err(m),
                    }
                } else if a == "--rate"@ {
                    match number_value(a, v, u32::MAX as int) {
                        Ok(n) => parse_args(tail, OptsModel { rate: n as u32, ..o }),
                        Err(m) => Err(m),
                    }
                } else if a == "--channels"@ {
                    match number_value(a, v, u16::MAX as int) {
                        Ok(n) => parse_args(tail, OptsModel { channels: n as u16, ..o }),
                        Err(m) => Err(m),
                    }
                } else {
                    match number_value(a, v, u64::MAX as int) {
                        Ok(n) => parse_args(tail, OptsModel { secs: n as u64, ..o }),
                        Err(m) => Err(m),
                    }
                }
            }
        } else {
            Err("unknown argument: "@ + a)
        }
    }
}

/// The options or the refusal as the parser reports them.
pub open spec fn parse_result_view(r: Result<Opts, String>) -> Result<OptsModel, Seq<char>> {
    match r {
        Ok(o) => Ok(o@),
        Err(m) => Err(m@),
    }
}

/// The message for an option given without its value.
fn missing_value(flag: &str) -> (m: String)
    ensures
        m@ == missing_value_text(flag@),
{
    String::from_str(flag).concat(" needs a value")
}

/// The value of a numeric option, at most `max`, or its refusal message.
fn number_arg(flag: &str, value: &String, max: u64) -> (r: Result<u64, String>)
    ensures
        match r {
            Ok(n) => number_value(flag@, value@, max as int) == Ok::<int, Seq<char>>(n as int),
            Err(m) => number_value(flag@, value@, max as int) == Err::<int, Seq<char>>(m@),
        },
{
    let cs = chars_of(value.as_str());
    match parse_unsigned(cs.as_slice(), max) {
        Ok(n) => Ok(n),
        Err(k) => {
            let text = int_error_message(k);
            Err(String::from_str(flag).concat(": ").concat(text.as_str()))
        },
    }
}

/// Parses the arguments of a validation run (the program name left out).
pub fn parse_opts(args: &Vec<String>) -> (r: Result<Opts, String>)
    ensures
        parse_result_view(r) == parse_args(args_view(args@), default_opts()),
{
    let mut opts = Opts {
        list: false,
        device: String::from_str("Babyface"),
        buffer: 512,
        rate: 48_000,
        channels: 2,
        secs: 60,
        wav: String::from_str("test_48k_stereo.wav"),
    };
    let ghost all = args_view(args@);
    let mut i: usize = 0;
    assert(all.skip(0) =~= all);
    while i < args.len()
        invariant
            i <= args@.len(),
            all == args_view(args@),
            parse_args(all.skip(i as int), opts@) == parse_args(all, default_opts()),
        decreases args@.len() - i,
    {
        let a = &args[i];
        let ghost s = all.skip(i as int);
        assert(s[0] == a@);
        assert(s.drop_first() =~= all.skip(i + 1));
        if same_text(a.as_str(), "--list") {
            opts.list = true;
            i = i + 1;
        } else if same_text(a.as_str(), "--device") || same_text(a.as_str(), "--buffer")
            || same_text(a.as_str(), "--rate") || same_text(a.as_str(), "--channels")
            || same_text(a.as_str(), "--secs") || same_text(a.as_str(), "--wav") {
            if i + 1 >= args.len() {
                return Err(missing_value(a.as_str()));
            }
            let v = &args[i + 1];
            assert(s.drop_first()[0] == v@);
            assert(s.drop_first().drop_first() =~= all.skip(i + 2));
            if same_text(a.as_str(), "--device") {
                opts.device = v.clone();
            } else if same_text(a.as_str(), "--wav") {
                opts.wav = v.clone();
            } else if same_text(a.as_str(), "--buffer") {
                match number_arg(a.as_str(), v, u32::MAX as u64) {
                    Ok(n) => {
                        opts.buffer = n as u32;
                    },
                    Err(m) => {
                        return Err(m);
                    },
                }
            } else if same_text(a.as_str(), "--rate") {
                match number_arg(a.as_str(), v, u32::MAX as u64) {
                    Ok(n) => {
                        opts.rate = n as u32;
                    },
                    Err(m) => {
                        return Err(m);
                    },
                }
            } else if same_text(a.as_str(), "--channels") {
                match number_arg(a.as_str(), v, u16::MAX as u64) {
                    Ok(n) => {
                        opts.channels = n as u16;
                    },
                    Err(m) => {
                        return Err(m);
                    },
                }
            } else {
                match number_arg(a.as_str(), v, u64::MAX) {
                    Ok(n) => {
                        opts.secs = n;
                    },
                    Err(m) => {
                        return Err(m);
                    },
                }
            }
            i = i + 2;
        } else {
            return Err(String::from_str("unknown argument: ").concat(a.as_str()));
        }
    }
    assert(all.skip(i as int) =~= Seq::<Seq<char>>::empty());
    Ok(opts)
}

/// Unicode lowercase of a text, as `str::to_lowercase` of std computes it.
pub uninterp spec fn unicode_lowercase(s: Seq<char>) -> Seq<char>;

/// Calls `str::to_lowercase` of std: the result is the Unicode lowercase
/// mapping of the text, a function of the text alone, named
/// `unicode_lowercase` and not spelled out.
#[verifier::external_body]
fn to_lowercase(s: &str) -> (r: String)
    ensures
        r@ == unicode_lowercase(s@),
{
    s.to_lowercase()
}

/// An output device is the wanted one when the wanted text, lowercased,
/// occurs in its lowercased name or in its lowercased PCM id.
pub open spec fn device_matches_spec(name: Seq<char>, pcm_id: Seq<char>, wanted: Seq<char>) -> bool {
    occurs_in(unicode_lowercase(name), unicode_lowercase(wanted)) || occurs_in(
        unicode_lowercase(pcm_id),
        unicode_lowercase(wanted),
    )
}

/// Whether an output device is the wanted one: the wanted text occurs,
/// without regard to case, in its name or in its PCM id.
pub fn device_matches(name: &str, pcm_id: &str, wanted: &str) -> (r: bool)
    ensures
        r == device_matches_spec(name@, pcm_id@, wanted@),
{
    let needle = to_lowercase(wanted);
    let n = to_lowercase(name);
    let p = to_lowercase(pcm_id);
    text_contains(n.as_str(), needle.as_str()) || text_contains(p.as_str(), needle.as_str())
}

/// One option as it stands on the command line: `--list`, or a flag with a
/// value that the flag accepts.
pub open spec fn is_option(g: Seq<Seq<char>>) -> bool {
    ||| g.len() == 1 && g[0] == "--list"@
    ||| g.len() == 2 && {
        ||| g[0] == "--device"@
        ||| g[0] == "--wav"@
        ||| (g[0] == "--buffer"@ || g[0] == "--rate"@) && parse_unsigned_spec(g[1], u32::MAX as int) is Ok
        ||| g[0] == "--channels"@ && parse_unsigned_spec(g[1], u16::MAX as int) is Ok
        ||| g[0] == "--secs"@ && parse_unsigned_spec(g[1], u64::MAX as int) is Ok
    }
}

/// The value of an accepted number.
pub open spec fn number_of(value: Seq<char>, max: int) -> int {
    match parse_unsigned_spec(value, max) {
        Ok(n) => n,
        Err(_) => 0,
    }
}

/// The options after one option is applied.
pub open spec fn apply_option(g: Seq<Seq<char>>, o: OptsModel) -> OptsModel {
    let f = g[0];
    if f == "--list"@ {
        OptsModel { list: true, ..o }
    } else if f == "--device"@ {
        OptsModel { device: g[1], ..o }
    } else if f == "--wav"@ {
        OptsModel { wav: g[1], ..o }
    } else if f == "--buffer"@ {
        OptsModel { buffer: number_of(g[1], u32::MAX as int) as u32, ..o }
    } else if f == "--rate"@ {
        OptsModel { rate: number_of(g[1], u32::MAX as int) as u32, ..o }
    } else if f == "--channels"@ {
        OptsModel { channels: number_of(g[1], u16::MAX as int) as u16, ..o }
    } else {
        OptsModel { secs: number_of(g[1], u64::MAX as int) as u64, ..o }
    }
}

/// The arguments that a list of options makes, one after the other.
pub open spec fn options_args(gs: Seq<Seq<Seq<char>>>) -> Seq<Seq<char>>
    decreases gs.len(),
{
    if gs.len() == 0 {
        Seq::empty()
    } else {
        gs[0] + options_args(gs.drop_first())
    }
}

/// No two options of the list have the same flag.
pub open spec fn distinct_flags(gs: Seq<Seq<Seq<char>>>) -> bool {
    forall|i: int, j: int| 0 <= i < j < gs.len() ==> #[trigger] gs[i][0] != #[trigger] gs[j][0]
}

/// Some option of the set has this flag.
pub open spec fn has_flag(s: Set<Seq<Seq<char>>>, flag: Seq<char>) -> bool {
    exists|g: Seq<Seq<char>>| #[trigger] s.contains(g) && g[0] == flag
}

/// The value given with this flag in the set.
pub open spec fn value_of(s: Set<Seq<Seq<char>>>, flag: Seq<char>) -> Seq<char> {
    (choose|g: Seq<Seq<char>>| #[trigger] s.contains(g) && g[0] == flag)[1]
}

/// The options that a set of options with distinct flags settles on top of
/// `o`: each flag present sets its field, the others keep theirs.
pub open spec fn settle(s: Set<Seq<Seq<char>>>, o: OptsModel) -> OptsModel {
    OptsModel {
        list: o.list || has_flag(s, "--list"@),
        device: if has_flag(s, "--device"@) {
            value_of(s, "--device"@)
        } else {
            o.device
        },
        buffer: if has_flag(s, "--buffer"@) {
            number_of(value_of(s, "--buffer"@), u32::MAX as int) as u32
        } else {
            o.buffer
        },
        rate: if has_flag(s, "--rate"@) {
            number_of(value_of(s, "--rate"@), u32::MAX as int) as u32
        } else {
            o.rate
        },
        channels: if has_flag(s, "--channels"@) {
            number_of(value_of(s, "--channels"@), u16::MAX as int) as u16
        } else {
            o.channels
        },
        secs: if has_flag(s, "--secs"@) {
            number_of(value_of(s, "--secs"@), u64::MAX as int) as u64
        } else {
            o.secs
        },
        wav: if has_flag(s, "--wav"@) {
            value_of(s, "--wav"@)
        } else {
            o.wav
        },
    }
}

/// The seven flags are distinct texts.
proof fn lemma_flags_distinct()
    ensures
        "--list"@ != "--device"@,
        "--list"@ != "--wav"@,
        "--list"@ != "--buffer"@,
        "--list"@ != "--rate"@,
        "--list"@ != "--channels"@,
        "--list"@ != "--secs"@,
        "--device"@ != "--wav"@,
        "--device"@ != "--buffer"@,
        "--device"@ != "--rate"@,
        "--device"@ != "--channels"@,
        "--device"@ != "--secs"@,
        "--wav"@ != "--buffer"@,
        "--wav"@ != "--rate"@,
        "--wav"@ != "--channels"@,
        "--wav"@ != "--secs"@,
        "--buffer"@ != "--rate"@,
        "--buffer"@ != "--channels"@,
        "--buffer"@ != "--secs"@,
        "--rate"@ != "--channels"@,
        "--rate"@ != "--secs"@,
        "--channels"@ != "--secs"@,
{
    reveal_strlit("--list");
    reveal_strlit("--device");
    reveal_strlit("--wav");
    reveal_strlit("--buffer");
    reveal_strlit("--rate");
    reveal_strlit("--channels");
    reveal_strlit("--secs");
    assert("--list"@[2] != "--device"@[2]);
    assert("--list"@[2] != "--rate"@[2]);
    assert("--list"@[2] != "--secs"@[2]);
    assert("--device"@[2] != "--buffer"@[2]);
    assert("--rate"@[2] != "--secs"@[2]);
    assert("--wav"@[2] != "--channels"@[2]);
}

/// Parsing one option, then the rest, is applying the option, then parsing
/// the rest.
proof fn lemma_option_step(g: Seq<Seq<char>>, rest: Seq<Seq<char>>, o: OptsModel)
    requires
        is_option(g),
    ensures
        parse_args(g + rest, o) == parse_args(rest, apply_option(g, o)),
{
    lemma_flags_distinct();
    let a = g + rest;
    assert(a[0] == g[0]);
    if g.len() == 1 {
        assert(a.drop_first() =~= rest);
    } else {
        assert(a.drop_first()[0] == g[1]);
        assert(a.drop_first().drop_first() =~= rest);
    }
}

/// Options with distinct flags settle the same way whatever their order.
proof fn lemma_settle_insert(t: Set<Seq<Seq<char>>>, g: Seq<Seq<char>>, o: OptsModel)
    requires
        is_option(g),
        forall|h: Seq<Seq<char>>| #[trigger] t.contains(h) ==> h[0] != g[0],
        forall|h1: Seq<Seq<char>>, h2: Seq<Seq<char>>|
            #[trigger] t.contains(h1) && #[trigger] t.contains(h2) && h1[0] == h2[0] ==> h1 == h2,
    ensures
        settle(t, apply_option(g, o)) == settle(t.insert(g), o),
{
    lemma_flags_distinct();
    let u = t.insert(g);
    assert(u.contains(g));
    assert forall|f: Seq<char>| has_flag(u, f) == (has_flag(t, f) || g[0] == f) by {
        if has_flag(u, f) {
            let h = choose|h: Seq<Seq<char>>| #[trigger] u.contains(h) && h[0] == f;
            if h != g {
                assert(t.contains(h));
            }
        }
        if has_flag(t, f) {
            let h = choose|h: Seq<Seq<char>>| #[trigger] t.contains(h) && h[0] == f;
            assert(u.contains(h));
        }
    }
    assert forall|f: Seq<char>| has_flag(u, f) implies value_of(u, f) == if g[0] == f {
        g[1]
    } else {
        value_of(t, f)
    } by {
        let h = choose|h: Seq<Seq<char>>| #[trigger] u.contains(h) && h[0] == f;
        if g[0] == f {
            if h != g {
                assert(t.contains(h));
            }
        } else {
            assert(t.contains(h));
            let k = choose|k: Seq<Seq<char>>| #[trigger] t.contains(k) && k[0] == f;
            assert(t.contains(k) && k[0] == f);
        }
    }
    let s1 = settle(t, apply_option(g, o));
    let s2 = settle(u, o);
    assert(has_flag(u, g[0]));
    assert(s1.list == s2.list);
    assert(s1.device == s2.device);
    assert(s1.wav == s2.wav);
    assert(s1.buffer == s2.buffer);
    assert(s1.rate == s2.rate);
    assert(s1.channels == s2.channels);
    assert(s1.secs == s2.secs);
}

/// A list of options with distinct flags parses to what its set of options
/// settles: the result does not depend on the order of the options.
pub proof fn lemma_options_settle(gs: Seq<Seq<Seq<char>>>, o: OptsModel)
    requires
        forall|i: int| 0 <= i < gs.len() ==> is_option(#[trigger] gs[i]),
        distinct_flags(gs),
    ensures
        parse_args(options_args(gs), o) == Ok::<OptsModel, Seq<char>>(settle(gs.to_set(), o)),
    decreases gs.len(),
{
    if gs.len() == 0 {
        assert(gs.to_set() =~= Set::<Seq<Seq<char>>>::empty());
        let s = settle(gs.to_set(), o);
        assert(!has_flag(gs.to_set(), "--list"@));
        assert(s == o);
    } else {
        let g = gs[0];
        let tail = gs.drop_first();
        assert(is_option(gs[0]));
        assert forall|i: int| 0 <= i < tail.len() implies is_option(#[trigger] tail[i]) by {
            assert(tail[i] == gs[i + 1]);
        }
        assert(distinct_flags(tail)) by {
            assert forall|i: int, j: int| 0 <= i < j < tail.len() implies #[trigger] tail[i][0]
                != #[trigger] tail[j][0] by {
                assert(tail[i] == gs[i + 1] && tail[j] == gs[j + 1]);
            }
        }
        lemma_option_step(g, options_args(tail), o);
        lemma_options_settle(tail, apply_option(g, o));
        let t = tail.to_set();
        assert forall|h: Seq<Seq<char>>| #[trigger] t.contains(h) implies h[0] != g[0] by {
            let j = choose|j: int| 0 <= j < tail.len() && tail[j] == h;
            assert(gs[j + 1] == h);
            assert(gs[0][0] != gs[j + 1][0]);
        }
        assert forall|h1: Seq<Seq<char>>, h2: Seq<Seq<char>>|
            #[trigger] t.contains(h1) && #[trigger] t.contains(h2) && h1[0] == h2[0] implies h1
            == h2 by {
            let i = choose|i: int| 0 <= i < tail.len() && tail[i] == h1;
            let j = choose|j: int| 0 <= j < tail.len() && tail[j] == h2;
            if i < j {
                assert(tail[i][0] != tail[j][0]);
            } else if j < i {
                assert(tail[j][0] != tail[i][0]);
            }
        }
        lemma_settle_insert(t, g, o);
        assert(t.insert(g) =~= gs.to_set()) by {
            assert forall|h: Seq<Seq<char>>| #[trigger] gs.to_set().contains(h) implies t.insert(
                g,
            ).contains(h) by {
                let i = choose|i: int| 0 <= i < gs.len() && gs[i] == h;
                if i > 0 {
                    assert(tail[i - 1] == h);
                }
            }
            assert forall|h: Seq<Seq<char>>| #[trigger] t.insert(g).contains(h) implies gs.to_set(
            ).contains(h) by {
                if h != g {
                    let j = choose|j: int| 0 <= j < tail.len() && tail[j] == h;
                    assert(gs[j + 1] == h);
                } else {
                    assert(gs[0] == h);
                }
            }
        }
    }
}

/// The order of distinct options does not matter: two lists holding the same
/// options, each flag at most once, parse to the same options.
pub proof fn lemma_option_order_irrelevant(
    gs1: Seq<Seq<Seq<char>>>,
    gs2: Seq<Seq<Seq<char>>>,
    o: OptsModel,
)
    requires
        forall|i: int| 0 <= i < gs1.len() ==> is_option(#[trigger] gs1[i]),
        forall|i: int| 0 <= i < gs2.len() ==> is_option(#[trigger] gs2[i]),
        distinct_flags(gs1),
        distinct_flags(gs2),
        gs1.to_set() == gs2.to_set(),
    ensures
        parse_args(options_args(gs1), o) == parse_args(options_args(gs2), o),
        parse_args(options_args(gs1), o) is Ok,
{
    lemma_options_settle(gs1, o);
    lemma_options_settle(gs2, o);
}

/// A device is the wanted one whenever its lowercased name, or its
/// lowercased PCM id, holds the lowercased wanted text anywhere: after any
/// prefix and before any suffix.
pub proof fn lemma_device_found_anywhere(
    name: Seq<char>,
    pcm_id: Seq<char>,
    wanted: Seq<char>,
    before: Seq<char>,
    after: Seq<char>,
)
    requires
        unicode_lowercase(name) == before + unicode_lowercase(wanted) + after
            || unicode_lowercase(pcm_id) == before + unicode_lowercase(wanted) + after,
    ensures
        device_matches_spec(name, pcm_id, wanted),
{
    lemma_occurs_inside(before, unicode_lowercase(wanted), after);
}

/// A device is the wanted one only when its lowercased name, or its
/// lowercased PCM id, holds the lowercased wanted text at some position.
pub proof fn lemma_device_found_somewhere(name: Seq<char>, pcm_id: Seq<char>, wanted: Seq<char>)
    requires
        device_matches_spec(name, pcm_id, wanted),
    ensures
        (exists|i: int|
            0 <= i <= unicode_lowercase(name).len() - unicode_lowercase(wanted).len()
                && #[trigger] unicode_lowercase(name).take(i) + unicode_lowercase(wanted)
                + unicode_lowercase(name).skip(i + unicode_lowercase(wanted).len())
                == unicode_lowercase(name)) || (exists|i: int|
            0 <= i <= unicode_lowercase(pcm_id).len() - unicode_lowercase(wanted).len()
                && #[trigger] unicode_lowercase(pcm_id).take(i) + unicode_lowercase(wanted)
                + unicode_lowercase(pcm_id).skip(i + unicode_lowercase(wanted).len())
                == unicode_lowercase(pcm_id)),
{
    if occurs_in(unicode_lowercase(name), unicode_lowercase(wanted)) {
        lemma_occurs_splits(unicode_lowercase(name), unicode_lowercase(wanted));
    } else {
        lemma_occurs_splits(unicode_lowercase(pcm_id), unicode_lowercase(wanted));
    }
}

/// Without arguments the run lists nothing and plays `test_48k_stereo.wav`
/// on a device matching `Babyface`, with 512 frame buffers, 48000 Hz,
/// 2 channels, for 60 seconds.
pub proof fn lemma_no_arguments_defaults()
    ensures
        parse_args(Seq::empty(), default_opts()) == Ok::<OptsModel, Seq<char>>(
            OptsModel {
                list: false,
                device: "Babyface"@,
                buffer: 512,
                rate: 48000,
                channels: 2,
                secs: 60,
                wav: "test_48k_stereo.wav"@,
            },
        ),
{
}

/// An argument that is none of the seven flags is refused with the message
/// `unknown argument: ` followed by it, whatever follows it.
pub proof fn lemma_unknown_argument(a: Seq<char>, rest: Seq<Seq<char>>, o: OptsModel)
    requires
        a != "--list"@,
        a != "--device"@,
        a != "--buffer"@,
        a != "--rate"@,
        a != "--channels"@,
        a != "--secs"@,
        a != "--wav"@,
    ensures
        parse_args(seq![a] + rest, o) == Err::<OptsModel, Seq<char>>("unknown argument: "@ + a),
{
    assert((seq![a] + rest)[0] == a);
}

/// A flag that takes a value, given last, is refused with the message: the
/// flag followed by ` needs a value`.
pub proof fn lemma_missing_value(flag: Seq<char>, o: OptsModel)
    requires
        flag == "--device"@ || flag == "--buffer"@ || flag == "--rate"@ || flag == "--channels"@
            || flag == "--secs"@ || flag == "--wav"@,
    ensures
        parse_args(seq![flag], o) == Err::<OptsModel, Seq<char>>(flag + " needs a value"@),
{
    lemma_flags_distinct();
    assert(seq![flag].drop_first().len() == 0);
}

} // verus!
