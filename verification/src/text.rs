//! Character-level text handling shared by the parsers: whitespace trimming,
//! unsigned decimal numbers and substring search.

use vstd::prelude::*;

verus! {

/// Why a decimal number was refused, in the order in which the digits are read.
#[derive(Debug, Clone, Copy, PartialEq, Eq, Structural)]
pub enum IntErrorKind {
    /// The text is empty.
    Empty,
    /// A character that is not a decimal digit (a lone sign counts as one).
    InvalidDigit,
    /// The value does not fit in the target type.
    PosOverflow,
}

/// A character with the Unicode `White_Space` property.
pub open spec fn is_whitespace_char(c: char) -> bool {
    let u = c as u32;
    ||| 0x09 <= u <= 0x0D
    ||| u == 0x20
    ||| u == 0x85
    ||| u == 0xA0
    ||| u == 0x1680
    ||| 0x2000 <= u <= 0x200A
    ||| u == 0x2028
    ||| u == 0x2029
    ||| u == 0x202F
    ||| u == 0x205F
    ||| u == 0x3000
}

/// The text without its leading whitespace.
pub open spec fn trim_start(s: Seq<char>) -> Seq<char>
    decreases s.len(),
{
    if s.len() > 0 && is_whitespace_char(s[0]) {
        trim_start(s.drop_first())
    } else {
        s
    }
}

/// The text without its trailing whitespace.
pub open spec fn trim_end(s: Seq<char>) -> Seq<char>
    decreases s.len(),
{
    if s.len() > 0 && is_whitespace_char(s.last()) {
        trim_end(s.drop_last())
    } else {
        s
    }
}

/// The text without its leading and trailing whitespace.
pub open spec fn trim(s: Seq<char>) -> Seq<char> {
    trim_end(trim_start(s))
}

/// A decimal digit `0`..=`9`.
pub open spec fn is_decimal_digit(c: char) -> bool {
    0x30 <= (c as u32) <= 0x39
}

/// The value of a decimal digit.
pub open spec fn digit_value(c: char) -> int {
    (c as u32) - 0x30
}

/// The value of a run of decimal digits read left to right, refused at the
/// first character that is not a digit or at the first digit that takes the
/// value above `max`.
pub open spec fn parse_digits(d: Seq<char>, max: int) -> Result<int, IntErrorKind>
    decreases d.len(),
{
    if d.len() == 0 {
        Ok(0)
    } else {
        match parse_digits(d.drop_last(), max) {
            Err(e) => Err(e),
            Ok(v) => if !is_decimal_digit(d.last()) {
                Err(IntErrorKind::InvalidDigit)
            } else if v * 10 + digit_value(d.last()) > max {
                Err(IntErrorKind::PosOverflow)
            } else {
                Ok(v * 10 + digit_value(d.last()))
            },
        }
    }
}

/// An unsigned decimal number: an optional `+` followed by digits, its value
/// at most `max`.
pub open spec fn parse_unsigned_spec(s: Seq<char>, max: int) -> Result<int, IntErrorKind> {
    if s.len() == 0 {
        Err(IntErrorKind::Empty)
    } else if s.len() == 1 && (s[0] == '+' || s[0] == '-') {
        Err(IntErrorKind::InvalidDigit)
    } else if s[0] == '+' {
        parse_digits(s.drop_first(), max)
    } else {
        parse_digits(s, max)
    }
}

/// A parse result with its value taken as a mathematical integer.
pub open spec fn as_int_result(r: Result<u64, IntErrorKind>) -> Result<int, IntErrorKind> {
    match r {
        Ok(v) => Ok(v as int),
        Err(e) => Err(e),
    }
}

/// The text of the message that describes a refused number.
pub open spec fn int_error_text(kind: IntErrorKind) -> Seq<char> {
    match kind {
        IntErrorKind::Empty => "cannot parse integer from empty string"@,
        IntErrorKind::InvalidDigit => "invalid digit found in string"@,
        IntErrorKind::PosOverflow => "number too large to fit in target type"@,
    }
}

/// `needle` occurs in `hay` as a contiguous run.
pub open spec fn occurs_in(hay: Seq<char>, needle: Seq<char>) -> bool {
    exists|i: int| 0 <= i <= hay.len() - needle.len() && #[trigger] hay.subrange(i, i + needle.len()) == needle
}

/// Once the digits read so far are refused, the whole run is refused alike.
proof fn lemma_parse_digits_error_prefix(d: Seq<char>, k: int, max: int)
    requires
        0 <= k <= d.len(),
        parse_digits(d.subrange(0, k), max) is Err,
    ensures
        parse_digits(d, max) == parse_digits(d.subrange(0, k), max),
    decreases d.len() - k,
{
    if k < d.len() {
        assert(d.subrange(0, k + 1).drop_last() =~= d.subrange(0, k));
        lemma_parse_digits_error_prefix(d, k + 1, max);
    } else {
        assert(d.subrange(0, k) =~= d);
    }
}

/// The characters of a string slice, in order.
pub fn chars_of(s: &str) -> (v: Vec<char>)
    ensures
        v@ == s@,
{
    let mut v: Vec<char> = Vec::new();
    for c in it: s.chars()
        invariant
            v@ == it.seq().take(it.index() as int),
            it.seq() == s@,
    {
        v.push(c);
    }
    v
}

/// Whether a character is Unicode whitespace.
pub fn is_whitespace(c: char) -> (b: bool)
    ensures
        b == is_whitespace_char(c),
{
    let u = c as u32;
    (0x09 <= u && u <= 0x0D) || u == 0x20 || u == 0x85 || u == 0xA0 || u == 0x1680 || (0x2000
        <= u && u <= 0x200A) || u == 0x2028 || u == 0x2029 || u == 0x202F || u == 0x205F || u
        == 0x3000
}

/// The bounds `lo..hi` of the text that remains once leading and trailing
/// whitespace are removed.
pub fn trim_bounds(s: &[char]) -> (r: (usize, usize))
    ensures
        r.0 <= r.1 <= s@.len(),
        s@.subrange(r.0 as int, r.1 as int) == trim(s@),
{
    let n = s.len();
    let mut lo: usize = 0;
    assert(s@.subrange(0, n as int) =~= s@);
    while lo < n && is_whitespace(s[lo])
        invariant
            lo <= n == s@.len(),
            trim_start(s@) == trim_start(s@.subrange(lo as int, n as int)),
        decreases n - lo,
    {
        assert(s@.subrange(lo as int, n as int).drop_first() =~= s@.subrange(
            lo as int + 1,
            n as int,
        ));
        lo = lo + 1;
    }
    let ghost t = s@.subrange(lo as int, n as int);
    assert(trim_start(t) == t);
    let mut hi: usize = n;
    while hi > lo && is_whitespace(s[hi - 1])
        invariant
            lo <= hi <= n == s@.len(),
            t == s@.subrange(lo as int, n as int),
            trim_end(t) == trim_end(s@.subrange(lo as int, hi as int)),
        decreases hi - lo,
    {
        assert(s@.subrange(lo as int, hi as int).drop_last() =~= s@.subrange(
            lo as int,
            hi as int - 1,
        ));
        hi = hi - 1;
    }
    (lo, hi)
}

/// Parses `s[lo..hi]` as an unsigned decimal number of at most `max`.
fn parse_unsigned_range(s: &[char], lo: usize, hi: usize, max: u64) -> (r: Result<
    u64,
    IntErrorKind,
>)
    requires
        lo <= hi <= s@.len(),
    ensures
        as_int_result(r) == parse_unsigned_spec(s@.subrange(lo as int, hi as int), max as int),
{
    let ghost t = s@.subrange(lo as int, hi as int);
    if lo == hi {
        return Err(IntErrorKind::Empty);
    }
    let c0 = s[lo];
    if hi - lo == 1 && (c0 == '+' || c0 == '-') {
        return Err(IntErrorKind::InvalidDigit);
    }
    let start = if c0 == '+' {
        lo + 1
    } else {
        lo
    };
    let ghost d = s@.subrange(start as int, hi as int);
    assert(c0 == '+' ==> t.drop_first() =~= d);
    assert(c0 != '+' ==> t =~= d);
    assert(parse_unsigned_spec(t, max as int) == parse_digits(d, max as int));
    let mut acc: u64 = 0;
    let mut i: usize = start;
    assert(d.subrange(0, 0) =~= Seq::<char>::empty());
    while i < hi
        invariant
            lo <= start <= i <= hi <= s@.len(),
            d == s@.subrange(start as int, hi as int),
            parse_unsigned_spec(s@.subrange(lo as int, hi as int), max as int) == parse_digits(
                d,
                max as int,
            ),
            parse_digits(d.subrange(0, i - start), max as int) == Ok::<int, IntErrorKind>(
                acc as int,
            ),
            acc <= max,
        decreases hi - i,
    {
        let c = s[i];
        let ghost p = d.subrange(0, i - start + 1);
        assert(p.drop_last() =~= d.subrange(0, i - start));
        assert(p.last() == c);
        let u = c as u32;
        if !(0x30 <= u && u <= 0x39) {
            proof {
                assert(!is_decimal_digit(p.last()));
                assert(parse_digits(p, max as int) == Err::<int, IntErrorKind>(
                    IntErrorKind::InvalidDigit,
                ));
                lemma_parse_digits_error_prefix(d, i - start + 1, max as int);
            }
            return Err(IntErrorKind::InvalidDigit);
        }
        let digit = (u - 0x30) as u64;
        let next = match acc.checked_mul(10) {
            None => None,
            Some(m) => m.checked_add(digit),
        };
        match next {
            Some(v) if v <= max => {
                acc = v;
            },
            _ => {
                proof {
                    assert(acc * 10 + digit > max) by (nonlinear_arith)
                        requires
                            next matches Some(v) ==> v > max,
                            next is None ==> acc * 10 + digit > u64::MAX,
                            next matches Some(v) ==> v == acc * 10 + digit,
                            max <= u64::MAX,
                    ;
                    assert(parse_digits(p, max as int) == Err::<int, IntErrorKind>(
                        IntErrorKind::PosOverflow,
                    ));
                    lemma_parse_digits_error_prefix(d, i - start + 1, max as int);
                }
                return Err(IntErrorKind::PosOverflow);
            },
        }
        i = i + 1;
    }
    assert(d.subrange(0, hi - start) =~= d);
    Ok(acc)
}

/// Parses a text as an unsigned decimal number of at most `max`: an optional
/// `+` followed by decimal digits, nothing else.
pub fn parse_unsigned(s: &[char], max: u64) -> (r: Result<u64, IntErrorKind>)
    ensures
        as_int_result(r) == parse_unsigned_spec(s@, max as int),
{
    assert(s@.subrange(0, s@.len() as int) =~= s@);
    parse_unsigned_range(s, 0, s.len(), max)
}

/// Parses a text as an unsigned decimal number of at most `max`, once leading
/// and trailing whitespace are removed.
pub fn parse_unsigned_trimmed(s: &[char], max: u64) -> (r: Result<u64, IntErrorKind>)
    ensures
        as_int_result(r) == parse_unsigned_spec(trim(s@), max as int),
{
    let (lo, hi) = trim_bounds(s);
    parse_unsigned_range(s, lo, hi, max)
}

/// The message that describes a refused number.
pub fn int_error_message(kind: IntErrorKind) -> (m: String)
    ensures
        m@ == int_error_text(kind),
{
    match kind {
        IntErrorKind::Empty => String::from_str("cannot parse integer from empty string"),
        IntErrorKind::InvalidDigit => String::from_str("invalid digit found in string"),
        IntErrorKind::PosOverflow => String::from_str("number too large to fit in target type"),
    }
}

/// Whether two texts hold the same characters.
pub fn same_text(a: &str, b: &str) -> (r: bool)
    ensures
        r == (a@ == b@),
{
    let x = chars_of(a);
    let y = chars_of(b);
    if x.len() != y.len() {
        return false;
    }
    let mut i: usize = 0;
    while i < x.len()
        invariant
            x@ == a@,
            y@ == b@,
            x.len() == y.len(),
            i <= x.len(),
            forall|j: int| 0 <= j < i ==> x@[j] == y@[j],
        decreases x.len() - i,
    {
        if x[i] != y[i] {
            return false;
        }
        i = i + 1;
    }
    assert(x@ =~= y@);
    true
}

/// Whether `needle` occurs in `hay` as a contiguous run of characters.
pub fn text_contains(hay: &str, needle: &str) -> (r: bool)
    ensures
        r == occurs_in(hay@, needle@),
{
    let h = chars_of(hay);
    let n = chars_of(needle);
    if n.len() > h.len() {
        return false;
    }
    let last = h.len() - n.len();
    let mut i: usize = 0;
    while i <= last
        invariant
            h@ == hay@,
            n@ == needle@,
            n.len() <= h.len(),
            last == h.len() - n.len(),
            i <= last + 1,
            forall|k: int| 0 <= k < i ==> #[trigger] h@.subrange(k, k + n@.len()) != n@,
        decreases last + 1 - i,
    {
        let mut j: usize = 0;
        let mut same = true;
        while j < n.len()
            invariant
                h@ == hay@,
                n@ == needle@,
                i <= last,
                last == h.len() - n.len(),
                j <= n.len(),
                same == forall|m: int| 0 <= m < j ==> h@[i + m] == n@[m],
            decreases n.len() - j,
        {
            if h[i + j] != n[j] {
                same = false;
            }
            j = j + 1;
        }
        if same {
            assert(h@.subrange(i as int, i + n@.len()) =~= n@);
            return true;
        }
        assert(h@.subrange(i as int, i + n@.len()) != n@) by {
            let m = choose|m: int| 0 <= m < n.len() && h@[i + m] != n@[m];
            assert(h@.subrange(i as int, i + n@.len())[m] == h@[i + m]);
        }
        i = i + 1;
    }
    assert forall|k: int| 0 <= k <= hay@.len() - needle@.len() implies #[trigger] hay@.subrange(
        k,
        k + needle@.len(),
    ) != needle@ by {}
    false
}

/// A text occurs in any text that holds it between some prefix and suffix.
pub proof fn lemma_occurs_inside(a: Seq<char>, needle: Seq<char>, b: Seq<char>)
    ensures
        occurs_in(a + needle + b, needle),
{
    let h = a + needle + b;
    assert(h.subrange(a.len() as int, (a.len() + needle.len()) as int) =~= needle);
}

/// A text that occurs in another one stands there between a prefix and a
/// suffix of it.
pub proof fn lemma_occurs_splits(hay: Seq<char>, needle: Seq<char>)
    requires
        occurs_in(hay, needle),
    ensures
        exists|i: int|
            0 <= i <= hay.len() - needle.len() && #[trigger] hay.take(i) + needle + hay.skip(
                i + needle.len(),
            ) == hay,
{
    let i = choose|i: int|
        0 <= i <= hay.len() - needle.len() && #[trigger] hay.subrange(i, i + needle.len())
            == needle;
    assert(hay.take(i) + needle + hay.skip(i + needle.len()) =~= hay);
}

/// Removing leading whitespace drops exactly the whitespace run at the
/// front: the result is the text from the first character that is not
/// whitespace.
pub proof fn lemma_trim_start_drops_leading(s: Seq<char>) -> (k: int)
    ensures
        0 <= k <= s.len(),
        trim_start(s) == s.skip(k),
        forall|i: int| 0 <= i < k ==> is_whitespace_char(#[trigger] s[i]),
        k < s.len() ==> !is_whitespace_char(s[k]),
    decreases s.len(),
{
    if s.len() > 0 && is_whitespace_char(s[0]) {
        let k1 = lemma_trim_start_drops_leading(s.drop_first());
        assert(s.drop_first().skip(k1) =~= s.skip(k1 + 1));
        assert forall|i: int| 0 <= i < k1 + 1 implies is_whitespace_char(#[trigger] s[i]) by {
            if i > 0 {
                assert(s[i] == s.drop_first()[i - 1]);
            }
        }
        k1 + 1
    } else {
        assert(s.skip(0) =~= s);
        0
    }
}

/// Removing trailing whitespace drops exactly the whitespace run at the end.
pub proof fn lemma_trim_end_drops_trailing(s: Seq<char>) -> (k: int)
    ensures
        0 <= k <= s.len(),
        trim_end(s) == s.take(k),
        forall|i: int| k <= i < s.len() ==> is_whitespace_char(#[trigger] s[i]),
        k > 0 ==> !is_whitespace_char(s[k - 1]),
    decreases s.len(),
{
    if s.len() > 0 && is_whitespace_char(s.last()) {
        let k1 = lemma_trim_end_drops_trailing(s.drop_last());
        assert(s.drop_last().take(k1) =~= s.take(k1));
        assert forall|i: int| k1 <= i < s.len() implies is_whitespace_char(#[trigger] s[i]) by {
            if i < s.len() - 1 {
                assert(s[i] == s.drop_last()[i]);
            }
        }
        k1
    } else {
        assert(s.take(s.len() as int) =~= s);
        s.len() as int
    }
}

/// Trimming keeps the part of the text between its leading and its trailing
/// whitespace: everything before `lo` and from `hi` on is whitespace, and the
/// part kept neither starts nor ends with whitespace.
pub proof fn lemma_trim_keeps_inner(s: Seq<char>) -> (r: (int, int))
    ensures
        0 <= r.0 <= r.1 <= s.len(),
        trim(s) == s.subrange(r.0, r.1),
        forall|i: int| 0 <= i < r.0 ==> is_whitespace_char(#[trigger] s[i]),
        forall|i: int| r.1 <= i < s.len() ==> is_whitespace_char(#[trigger] s[i]),
        r.0 < r.1 ==> !is_whitespace_char(s[r.0]) && !is_whitespace_char(s[r.1 - 1]),
{
    let lo = lemma_trim_start_drops_leading(s);
    let t = s.skip(lo);
    let k = lemma_trim_end_drops_trailing(t);
    assert(t.take(k) =~= s.subrange(lo, lo + k));
    assert forall|i: int| lo + k <= i < s.len() implies is_whitespace_char(#[trigger] s[i]) by {
        assert(s[i] == t[i - lo]);
    }
    if k > 0 {
        assert(s[lo] == t[0]);
        assert(s[lo + k - 1] == t[k - 1]);
        if lo == s.len() {
            assert(t.len() == 0);
        }
    }
    (lo, lo + k)
}

} // verus!
