//! Character-level helpers: building strings, decimal numbers and
//! whitespace as `str::trim` sees it.

use vstd::prelude::*;
use vstd::string::*;
use vstd::utf8::*;

verus! {

/// What `String::from_utf8_lossy` makes of `bytes`.
pub uninterp spec fn utf8_lossy(bytes: Seq<u8>) -> Seq<char>;

/// Calls `String::from_utf8_lossy` and takes ownership of the result.
/// Claimed: the result is `utf8_lossy` of the bytes, and where the bytes are
/// valid UTF-8 it is exactly the characters they encode (the documentation
/// says valid input is returned unchanged).
#[verifier::external_body]
pub(crate) fn string_from_utf8_lossy(bytes: &[u8]) -> (s: String)
    ensures
        s@ == utf8_lossy(bytes@),
        valid_utf8(bytes@) ==> s@ == decode_utf8(bytes@),
{
    String::from_utf8_lossy(bytes).into_owned()
}

/// Calls `String::push`. Claimed: the character is appended at the end.
#[verifier::external_body]
pub(crate) fn string_push(s: &mut String, c: char)
    ensures
        final(s)@ == old(s)@.push(c),
{
    s.push(c)
}

/// The characters of `s`, in order.
pub fn chars_of(s: &str) -> (v: Vec<char>)
    ensures
        v@ == s@,
{
    let n = s.unicode_len();
    let mut v: Vec<char> = Vec::new();
    let mut i: usize = 0;
    while i < n
        invariant
            n == s@.len(),
            i <= n,
            v@ == s@.subrange(0, i as int),
        decreases n - i,
    {
        v.push(s.get_char(i));
        i = i + 1;
        assert(v@ =~= s@.subrange(0, i as int));
    }
    assert(s@.subrange(0, n as int) =~= s@);
    v
}

/// A `String` holding `cs[from..to]`.
pub fn string_from_chars(cs: &Vec<char>, from: usize, to: usize) -> (s: String)
    requires
        from <= to <= cs@.len(),
    ensures
        s@ == cs@.subrange(from as int, to as int),
{
    let mut s = String::new();
    let mut i = from;
    while i < to
        invariant
            from <= i <= to <= cs@.len(),
            s@ == cs@.subrange(from as int, i as int),
        decreases to - i,
    {
        string_push(&mut s, cs[i]);
        i = i + 1;
        assert(s@ =~= cs@.subrange(from as int, i as int));
    }
    s
}

/// Appends `cs` to `s`.
pub fn push_chars(s: &mut String, cs: &Vec<char>)
    ensures
        final(s)@ == old(s)@ + cs@,
{
    let mut i: usize = 0;
    while i < cs.len()
        invariant
            i <= cs@.len(),
            s@ == old(s)@ + cs@.subrange(0, i as int),
        decreases cs@.len() - i,
    {
        string_push(s, cs[i]);
        i = i + 1;
        assert(s@ =~= old(s)@ + cs@.subrange(0, i as int));
    }
    assert(cs@.subrange(0, cs@.len() as int) =~= cs@);
}

/// Appends `cs[from..to]` to `s`.
pub fn push_char_range(s: &mut String, cs: &Vec<char>, from: usize, to: usize)
    requires
        from <= to <= cs@.len(),
    ensures
        final(s)@ == old(s)@ + cs@.subrange(from as int, to as int),
{
    let mut i = from;
    while i < to
        invariant
            from <= i <= to <= cs@.len(),
            s@ == old(s)@ + cs@.subrange(from as int, i as int),
        decreases to - i,
    {
        string_push(s, cs[i]);
        i = i + 1;
        assert(s@ =~= old(s)@ + cs@.subrange(from as int, i as int));
    }
}

/// `char::is_whitespace`: the Unicode `White_Space` characters.
pub open spec fn is_ws(c: char) -> bool {
    let u = c as u32;
    ||| (0x09 <= u && u <= 0x0D)
    ||| u == 0x20
    ||| u == 0x85
    ||| u == 0xA0
    ||| u == 0x1680
    ||| (0x2000 <= u && u <= 0x200A)
    ||| u == 0x2028
    ||| u == 0x2029
    ||| u == 0x202F
    ||| u == 0x205F
    ||| u == 0x3000
}

pub fn is_whitespace(c: char) -> (r: bool)
    ensures
        r == is_ws(c),
{
    let u = c as u32;
    (0x09 <= u && u <= 0x0D) || u == 0x20 || u == 0x85 || u == 0xA0 || u == 0x1680 || (0x2000
        <= u && u <= 0x200A) || u == 0x2028 || u == 0x2029 || u == 0x202F || u == 0x205F || u
        == 0x3000
}

/// `s` without its leading characters that satisfy `is_ws`.
pub open spec fn trim_start_ws(s: Seq<char>) -> Seq<char>
    decreases s.len(),
{
    if s.len() > 0 && is_ws(s[0]) {
        trim_start_ws(s.drop_first())
    } else {
        s
    }
}

/// `s` without its trailing characters that satisfy `is_ws`.
pub open spec fn trim_end_ws(s: Seq<char>) -> Seq<char>
    decreases s.len(),
{
    if s.len() > 0 && is_ws(s.last()) {
        trim_end_ws(s.drop_last())
    } else {
        s
    }
}

/// `str::trim`.
pub open spec fn trim_ws(s: Seq<char>) -> Seq<char> {
    trim_end_ws(trim_start_ws(s))
}

/// `s` without its leading copies of `c`.
pub open spec fn trim_start_char(s: Seq<char>, c: char) -> Seq<char>
    decreases s.len(),
{
    if s.len() > 0 && s[0] == c {
        trim_start_char(s.drop_first(), c)
    } else {
        s
    }
}

/// `s` without its trailing copies of `c`.
pub open spec fn trim_end_char(s: Seq<char>, c: char) -> Seq<char>
    decreases s.len(),
{
    if s.len() > 0 && s.last() == c {
        trim_end_char(s.drop_last(), c)
    } else {
        s
    }
}

/// `str::trim_matches(c)` for a single character.
pub open spec fn trim_char(s: Seq<char>, c: char) -> Seq<char> {
    trim_end_char(trim_start_char(s, c), c)
}

proof fn lemma_trim_start_ws_step(s: Seq<char>, a: int, b: int)
    requires
        0 <= a < b <= s.len(),
        is_ws(s[a]),
    ensures
        trim_start_ws(s.subrange(a, b)) == trim_start_ws(s.subrange(a + 1, b)),
{
    assert(s.subrange(a, b).drop_first() =~= s.subrange(a + 1, b));
}

proof fn lemma_trim_end_ws_step(s: Seq<char>, a: int, b: int)
    requires
        0 <= a < b <= s.len(),
        is_ws(s[b - 1]),
    ensures
        trim_end_ws(s.subrange(a, b)) == trim_end_ws(s.subrange(a, b - 1)),
{
    assert(s.subrange(a, b).drop_last() =~= s.subrange(a, b - 1));
}

/// The bounds of `trim_ws(cs[from..to])` within `cs`.
pub fn trim_range(cs: &Vec<char>, from: usize, to: usize) -> (r: (usize, usize))
    requires
        from <= to <= cs@.len(),
    ensures
        from <= r.0 <= r.1 <= to,
        cs@.subrange(r.0 as int, r.1 as int) == trim_ws(cs@.subrange(from as int, to as int)),
{
    let mut a = from;
    while a < to && is_whitespace(cs[a])
        invariant
            from <= a <= to <= cs@.len(),
            trim_start_ws(cs@.subrange(from as int, to as int)) == trim_start_ws(
                cs@.subrange(a as int, to as int),
            ),
        decreases to - a,
    {
        proof {
            lemma_trim_start_ws_step(cs@, a as int, to as int);
        }
        a = a + 1;
    }
    assert(trim_start_ws(cs@.subrange(a as int, to as int)) == cs@.subrange(a as int, to as int));
    let mut b = to;
    while b > a && is_whitespace(cs[b - 1])
        invariant
            from <= a <= b <= to <= cs@.len(),
            trim_ws(cs@.subrange(from as int, to as int)) == trim_end_ws(
                cs@.subrange(a as int, b as int),
            ),
        decreases b - a,
    {
        proof {
            lemma_trim_end_ws_step(cs@, a as int, b as int);
        }
        b = b - 1;
    }
    (a, b)
}

/// The bounds of `trim_char(cs[from..to], c)` within `cs`.
pub fn trim_char_range(cs: &Vec<char>, from: usize, to: usize, c: char) -> (r: (usize, usize))
    requires
        from <= to <= cs@.len(),
    ensures
        from <= r.0 <= r.1 <= to,
        cs@.subrange(r.0 as int, r.1 as int) == trim_char(cs@.subrange(from as int, to as int), c),
{
    let mut a = from;
    while a < to && cs[a] == c
        invariant
            from <= a <= to <= cs@.len(),
            trim_start_char(cs@.subrange(from as int, to as int), c) == trim_start_char(
                cs@.subrange(a as int, to as int),
                c,
            ),
        decreases to - a,
    {
        assert(cs@.subrange(a as int, to as int).drop_first() =~= cs@.subrange(
            a + 1,
            to as int,
        ));
        a = a + 1;
    }
    let mut b = to;
    while b > a && cs[b - 1] == c
        invariant
            from <= a <= b <= to <= cs@.len(),
            trim_char(cs@.subrange(from as int, to as int), c) == trim_end_char(
                cs@.subrange(a as int, b as int),
                c,
            ),
        decreases b - a,
    {
        assert(cs@.subrange(a as int, b as int).drop_last() =~= cs@.subrange(
            a as int,
            b - 1,
        ));
        b = b - 1;
    }
    (a, b)
}

/// The character of the decimal digit `d`.
pub open spec fn digit_char(d: nat) -> char {
    ((d + 48) as u32) as char
}

/// `n` written in decimal, as `u64::to_string` writes it.
pub open spec fn decimal(n: nat) -> Seq<char>
    decreases n,
{
    if n < 10 {
        seq![digit_char(n)]
    } else {
        decimal(n / 10).push(digit_char(n % 10))
    }
}

/// Appends the decimal digits of `n` to `s`.
pub fn push_decimal(s: &mut String, n: u64)
    ensures
        final(s)@ == old(s)@ + decimal(n as nat),
    decreases n,
{
    if n < 10 {
        let c = ((n as u8) + 48) as char;
        string_push(s, c);
        assert(seq![c] =~= decimal(n as nat));
    } else {
        push_decimal(s, n / 10);
        let d = ((n % 10) as u8 + 48) as char;
        string_push(s, d);
        assert(old(s)@ + decimal(n as nat) =~= old(s)@ + decimal((n / 10) as nat) + seq![d]);
    }
}

/// Whether `c` is an ASCII decimal digit.
pub open spec fn is_digit(c: char) -> bool {
    '0' <= c && c <= '9'
}

/// The value of the decimal digit `c`.
pub open spec fn digit_value(c: char) -> nat {
    (c as u32 - '0' as u32) as nat
}

/// Whether every character of `s` is a decimal digit.
pub open spec fn all_digits(s: Seq<char>) -> bool {
    forall|i: int| 0 <= i < s.len() ==> is_digit(#[trigger] s[i])
}

/// The number the decimal digits `s` denote.
pub open spec fn digits_value(s: Seq<char>) -> nat
    decreases s.len(),
{
    if s.len() == 0 {
        0
    } else {
        digits_value(s.drop_last()) * 10 + digit_value(s.last())
    }
}

/// The digits of an unsigned number as `str::parse` reads them: one leading
/// `+` is allowed, then at least one digit and nothing else.
pub open spec fn unsigned_digits(s: Seq<char>) -> Seq<char> {
    if s.len() > 0 && s[0] == '+' {
        s.drop_first()
    } else {
        s
    }
}

/// `str::parse` of an unsigned integer type whose largest value is `max`.
pub open spec fn parse_unsigned(s: Seq<char>, max: nat) -> Option<nat> {
    let d = unsigned_digits(s);
    if d.len() == 0 || !all_digits(d) || digits_value(d) > max {
        None
    } else {
        Some(digits_value(d))
    }
}

proof fn lemma_digits_value_mono(s: Seq<char>, i: int)
    requires
        0 <= i <= s.len(),
    ensures
        digits_value(s.subrange(0, i)) <= digits_value(s),
    decreases s.len() - i,
{
    if i < s.len() {
        lemma_digits_value_mono(s, i + 1);
        assert(s.subrange(0, i + 1).drop_last() =~= s.subrange(0, i));
    } else {
        assert(s.subrange(0, i) =~= s);
    }
}

/// `str::parse` of an unsigned integer no greater than `max`, over `cs[from..to]`.
pub fn parse_unsigned_range(cs: &Vec<char>, from: usize, to: usize, max: u64) -> (r: Option<u64>)
    requires
        from <= to <= cs@.len(),
    ensures
        r == (match parse_unsigned(cs@.subrange(from as int, to as int), max as nat) {
            Some(v) => Some(v as u64),
            None => None,
        }),
{
    let ghost s = cs@.subrange(from as int, to as int);
    let mut a = from;
    if a < to && cs[a] == '+' {
        a = a + 1;
    }
    let ghost d = cs@.subrange(a as int, to as int);
    assert(d =~= unsigned_digits(s));
    if a == to {
        return None;
    }
    let mut i = a;
    while i < to
        invariant
            from <= a <= i <= to <= cs@.len(),
            d == cs@.subrange(a as int, to as int),
            d == unsigned_digits(cs@.subrange(from as int, to as int)),
            forall|k: int| a <= k < i ==> is_digit(#[trigger] cs@[k]),
        decreases to - i,
    {
        if !('0' <= cs[i] && cs[i] <= '9') {
            assert(!is_digit(d[i - a]));
            assert(!all_digits(d));
            return None;
        }
        i = i + 1;
    }
    assert(all_digits(d));
    let mut v: u64 = 0;
    let mut j = a;
    while j < to
        invariant
            from <= a <= j <= to <= cs@.len(),
            d == cs@.subrange(a as int, to as int),
            d == unsigned_digits(cs@.subrange(from as int, to as int)),
            d.len() > 0,
            all_digits(d),
            v as nat == digits_value(d.subrange(0, j - a)),
            v <= max,
        decreases to - j,
    {
        assert(d[j - a] == cs@[j as int]);
        assert(is_digit(d[j - a]));
        let dv = (cs[j] as u32 - '0' as u32) as u64;
        assert(d.subrange(0, j - a + 1).drop_last() =~= d.subrange(0, j - a));
        assert(d.subrange(0, j - a + 1).last() == cs@[j as int]);
        if dv > max {
            proof {
                lemma_digits_value_mono(d, j - a + 1);
            }
            return None;
        }
        if v > (max - dv) / 10 {
            proof {
                lemma_digits_value_mono(d, j - a + 1);
                assert(v * 10 + dv > max) by (nonlinear_arith)
                    requires v > (max - dv) / 10, dv <= 9, dv <= max;
            }
            return None;
        }
        assert(v * 10 + dv <= max) by (nonlinear_arith)
            requires v <= (max - dv) / 10, dv <= max;
        v = v * 10 + dv;
        j = j + 1;
    }
    assert(d.subrange(0, d.len() as int) =~= d);
    Some(v)
}

} // verus!
