//! Runtime configuration: `cupidmq.conf` (`key=value` lines), command-line
//! overrides, and the addresses they resolve to.

use crate::text::{
    all_digits, chars_of, decimal, digit_value, digits_value, is_digit, is_whitespace,
    parse_unsigned, parse_unsigned_range, push_char_range, push_decimal, string_from_chars,
    string_push, trim_char, trim_char_range, trim_range, trim_ws,
};
use std::path::PathBuf;
use vstd::arithmetic::power2::pow2;
use vstd::prelude::*;

verus! {

pub const DEFAULT_CONTROL_PORT: u16 = 9750;

pub const DEFAULT_METRICS_PORT: u16 = 9752;

pub const DEFAULT_HISTORY_INTERVAL_MS: u64 = 2000;

pub const DEFAULT_HISTORY_CAP: usize = 1800;

/// The map that a list of `(key, value)` pairs builds when each is inserted
/// in order (a later value replaces an earlier one).
pub open spec fn pairs_map(es: Seq<(Seq<char>, Seq<char>)>) -> Map<Seq<char>, Seq<char>>
    decreases es.len(),
{
    if es.len() == 0 {
        Map::empty()
    } else {
        pairs_map(es.drop_last()).insert(es.last().0, es.last().1)
    }
}

/// Configuration values by key.
///
/// The assignments are kept in order in a `Vec` rather than a
/// `HashMap<String, String>`: the map is what they build (a later value for
/// a key replaces an earlier one), and with `String` keys vstd's `HashMap`
/// specification gives no usable contract for lookups.
#[derive(Debug, Clone)]
pub struct ConfMap {
    entries: Vec<(String, String)>,
}

spec fn entry_views(es: Seq<(String, String)>) -> Seq<(Seq<char>, Seq<char>)> {
    es.map_values(|e: (String, String)| (e.0@, e.1@))
}

proof fn lemma_pairs_map_suffix(es: Seq<(Seq<char>, Seq<char>)>, i: int, k: Seq<char>)
    requires
        0 <= i <= es.len(),
        forall|j: int| i <= j < es.len() ==> es[j].0 != k,
    ensures
        pairs_map(es).dom().contains(k) == pairs_map(es.take(i)).dom().contains(k),
        pairs_map(es).dom().contains(k) ==> pairs_map(es)[k] == pairs_map(es.take(i))[k],
    decreases es.len() - i,
{
    if i < es.len() {
        let d = es.drop_last();
        assert(es.take(i) =~= d.take(i));
        lemma_pairs_map_suffix(d, i, k);
    } else {
        assert(es.take(i) =~= es);
    }
}

proof fn lemma_pairs_map_dom(es: Seq<(Seq<char>, Seq<char>)>)
    ensures
        pairs_map(es).dom().finite(),
        forall|k: Seq<char>| pairs_map(es).dom().contains(k) <==> exists|j: int| 0 <= j < es.len() && (#[trigger] es[j]).0 == k,
    decreases es.len(),
{
    if es.len() > 0 {
        let d = es.drop_last();
        lemma_pairs_map_dom(d);
        assert forall|k: Seq<char>| pairs_map(es).dom().contains(k) <==> exists|j: int| 0 <= j < es.len() && (#[trigger] es[j]).0 == k by {
            if pairs_map(d).dom().contains(k) {
                let j = choose|j: int| 0 <= j < d.len() && (#[trigger] d[j]).0 == k;
                assert(es[j] == d[j]);
            }
            if exists|j: int| 0 <= j < es.len() && (#[trigger] es[j]).0 == k {
                let j = choose|j: int| 0 <= j < es.len() && (#[trigger] es[j]).0 == k;
                if j < es.len() - 1 {
                    assert(d[j] == es[j]);
                } else {
                    assert(es.last() == es[j]);
                }
            }
        }
    }
}

impl View for ConfMap {
    type V = Map<Seq<char>, Seq<char>>;

    closed spec fn view(&self) -> Map<Seq<char>, Seq<char>> {
        pairs_map(entry_views(self.entries@))
    }
}

impl ConfMap {
    /// The assignments recorded, in order; the map is what they build.
    pub closed spec fn assignments(&self) -> Seq<(Seq<char>, Seq<char>)> {
        entry_views(self.entries@)
    }

    pub fn new() -> (m: Self)
        ensures
            m@ == Map::<Seq<char>, Seq<char>>::empty(),
            m.assignments().len() == 0,
    {
        let m = ConfMap { entries: Vec::new() };
        assert(entry_views(m.entries@) =~= Seq::<(Seq<char>, Seq<char>)>::empty());
        m
    }

    /// Sets `key` to `value`, replacing what it held.
    pub fn insert(&mut self, key: String, value: String)
        ensures
            final(self)@ == old(self)@.insert(key@, value@),
            final(self).assignments() == old(self).assignments().push((key@, value@)),
    {
        let ghost before = entry_views(self.entries@);
        self.entries.push((key, value));
        assert(entry_views(self.entries@).drop_last() =~= before);
        assert(entry_views(self.entries@) =~= before.push((key@, value@)));
    }

    /// The value of `key`, if set.
    pub fn get(&self, key: &str) -> (r: Option<&String>)
        ensures
            match r {
                Some(v) => self@.dom().contains(key@) && self@[key@] == v@,
                None => !self@.dom().contains(key@),
            },
    {
        let ghost es = entry_views(self.entries@);
        let k = key.to_owned();
        let mut i = self.entries.len();
        while i > 0
            invariant
                es == entry_views(self.entries@),
                i <= self.entries@.len(),
                k@ == key@,
                forall|j: int| i <= j < es.len() ==> es[j].0 != key@,
            decreases i,
        {
            let e = &self.entries[i - 1];
            if e.0 == k {
                proof {
                    lemma_pairs_map_suffix(es, i as int, key@);
                    assert(es.take(i as int).drop_last() =~= es.take(i - 1));
                    assert(es.take(i as int).last() == es[i - 1]);
                }
                return Some(&e.1);
            }
            i = i - 1;
        }
        proof {
            lemma_pairs_map_suffix(es, 0, key@);
            assert(es.take(0) =~= Seq::<(Seq<char>, Seq<char>)>::empty());
        }
        None
    }

    /// How many keys are set.
    pub fn len(&self) -> (n: usize)
        ensures
            self@.dom().finite(),
            n == self@.dom().len(),
    {
        let ghost es = entry_views(self.entries@);
        let mut count: usize = 0;
        let mut i: usize = 0;
        proof {
            lemma_pairs_map_dom(es.take(0));
            assert(es.take(0) =~= Seq::<(Seq<char>, Seq<char>)>::empty());
            assert(pairs_map(es.take(0)).dom() =~= Set::<Seq<char>>::empty());
        }
        while i < self.entries.len()
            invariant
                es == entry_views(self.entries@),
                i <= self.entries@.len(),
                count <= i,
                pairs_map(es.take(i as int)).dom().finite(),
                count == pairs_map(es.take(i as int)).dom().len(),
            decreases self.entries@.len() - i,
        {
            let mut seen = false;
            let mut j: usize = 0;
            while j < i
                invariant
                    es == entry_views(self.entries@),
                    j <= i < self.entries@.len(),
                    seen == exists|t: int| 0 <= t < j && (#[trigger] es[t]).0 == es[i as int].0,
                decreases i - j,
            {
                if self.entries[j].0 == self.entries[i].0 {
                    assert(es[j as int].0 == es[i as int].0);
                    seen = true;
                }
                j = j + 1;
            }
            proof {
                let pre = es.take(i as int);
                let nxt = es.take(i + 1);
                assert(nxt.drop_last() =~= pre);
                assert(nxt.last() == es[i as int]);
                lemma_pairs_map_dom(pre);
                lemma_pairs_map_dom(nxt);
                assert(pairs_map(nxt).dom() =~= pairs_map(pre).dom().insert(es[i as int].0));
                if seen {
                    let t = choose|t: int| 0 <= t < i && (#[trigger] es[t]).0 == es[i as int].0;
                    assert(pre[t] == es[t]);
                    assert(pairs_map(pre).dom().contains(es[i as int].0));
                } else {
                    if pairs_map(pre).dom().contains(es[i as int].0) {
                        let t = choose|t: int| 0 <= t < pre.len() && (#[trigger] pre[t]).0 == es[i as int].0;
                        assert(es[t] == pre[t]);
                    }
                }
            }
            if !seen {
                count = count + 1;
            }
            i = i + 1;
        }
        assert(es.take(i as int) =~= es);
        count
    }

    /// How many assignments were recorded (a replaced key counts each time).
    pub fn entry_count(&self) -> (n: usize)
        ensures
            n == self.assignments().len(),
    {
        self.entries.len()
    }
}


// ------------------------------------------------------------ parsing text

/// Index of the first `c` in `s`, or `s.len()` when there is none.
pub open spec fn first_index(s: Seq<char>, c: char) -> nat
    decreases s.len(),
{
    if s.len() == 0 {
        0
    } else if s[0] == c {
        0
    } else {
        1 + first_index(s.drop_first(), c)
    }
}

/// `char::to_ascii_lowercase`.
pub open spec fn ascii_lower_char(c: char) -> char {
    if 'A' <= c && c <= 'Z' {
        ((c as u32) + 32) as char
    } else {
        c
    }
}

/// `str::to_ascii_lowercase`.
pub open spec fn ascii_lower(s: Seq<char>) -> Seq<char> {
    s.map_values(|c: char| ascii_lower_char(c))
}

/// What one configuration line sets: the text before `#`, trimmed, split at
/// its first `=`; the key trimmed and lowercased, the value trimmed and then
/// stripped of surrounding `"` and then of surrounding `'`. Nothing when the
/// line is blank, has no `=`, or the key or the value is empty.
pub open spec fn conf_line(line: Seq<char>) -> Option<(Seq<char>, Seq<char>)> {
    let pre = line.take(first_index(line, '#') as int);
    let t = trim_ws(pre);
    let eq = first_index(t, '=');
    if t.len() == 0 || eq == t.len() {
        None
    } else {
        let key = ascii_lower(trim_ws(t.take(eq as int)));
        let val = trim_char(trim_char(trim_ws(t.skip(eq as int + 1)), '"'), '\'');
        if key.len() > 0 && val.len() > 0 {
            Some((key, val))
        } else {
            None
        }
    }
}

pub open spec fn apply_line(m: Map<Seq<char>, Seq<char>>, line: Seq<char>) -> Map<Seq<char>, Seq<char>> {
    match conf_line(line) {
        Some((k, v)) => m.insert(k, v),
        None => m,
    }
}

/// The map built from the complete lines of `s`, and the unfinished last line.
pub open spec fn conf_scan(s: Seq<char>) -> (Map<Seq<char>, Seq<char>>, Seq<char>)
    decreases s.len(),
{
    if s.len() == 0 {
        (Map::empty(), Seq::empty())
    } else {
        let (m, cur) = conf_scan(s.drop_last());
        if s.last() == '\n' {
            (apply_line(m, cur), Seq::empty())
        } else {
            (m, cur.push(s.last()))
        }
    }
}

/// The configuration a text sets, line by line; a later line wins.
pub open spec fn conf_text_map(s: Seq<char>) -> Map<Seq<char>, Seq<char>> {
    apply_line(conf_scan(s).0, conf_scan(s).1)
}

/// The first index in `cs[from..to]` holding `c`, or `to`.
pub fn find_char(cs: &Vec<char>, from: usize, to: usize, c: char) -> (r: usize)
    requires
        from <= to <= cs@.len(),
    ensures
        from <= r <= to,
        r == from + first_index(cs@.subrange(from as int, to as int), c),
{
    let mut i = from;
    while i < to && cs[i] != c
        invariant
            from <= i <= to <= cs@.len(),
            first_index(cs@.subrange(from as int, to as int), c) == (i - from) + first_index(cs@.subrange(i as int, to as int), c),
        decreases to - i,
    {
        assert(cs@.subrange(i as int, to as int).drop_first() =~= cs@.subrange(i + 1, to as int));
        i = i + 1;
    }
    i
}

/// A `String` of `cs[from..to]` in ASCII lowercase.
pub fn lower_string_from_chars(cs: &Vec<char>, from: usize, to: usize) -> (s: String)
    requires
        from <= to <= cs@.len(),
    ensures
        s@ == ascii_lower(cs@.subrange(from as int, to as int)),
{
    let mut s = String::new();
    let mut i = from;
    while i < to
        invariant
            from <= i <= to <= cs@.len(),
            s@ == ascii_lower(cs@.subrange(from as int, i as int)),
        decreases to - i,
    {
        let c = cs[i];
        let l = if 'A' <= c && c <= 'Z' { ((c as u8) + 32) as char } else { c };
        string_push(&mut s, l);
        i = i + 1;
        assert(s@ =~= ascii_lower(cs@.subrange(from as int, i as int)));
    }
    s
}

fn apply_line_exec(m: &mut ConfMap, cs: &Vec<char>, from: usize, to: usize)
    requires
        from <= to <= cs@.len(),
    ensures
        final(m)@ == apply_line(old(m)@, cs@.subrange(from as int, to as int)),
{
    let ghost line = cs@.subrange(from as int, to as int);
    let h = find_char(cs, from, to, '#');
    assert(line.take(first_index(line, '#') as int) =~= cs@.subrange(from as int, h as int));
    let (a, b) = trim_range(cs, from, h);
    let ghost t = cs@.subrange(a as int, b as int);
    if a == b {
        return;
    }
    let e = find_char(cs, a, b, '=');
    if e == b {
        return;
    }
    assert(t.take((e - a) as int) =~= cs@.subrange(a as int, e as int));
    assert(t.skip((e - a) + 1) =~= cs@.subrange(e + 1, b as int));
    let (ka, kb) = trim_range(cs, a, e);
    let (va, vb) = trim_range(cs, e + 1, b);
    let (qa, qb) = trim_char_range(cs, va, vb, '"');
    let (ra, rb) = trim_char_range(cs, qa, qb, '\'');
    if kb > ka && rb > ra {
        let key = lower_string_from_chars(cs, ka, kb);
        let val = string_from_chars(cs, ra, rb);
        m.insert(key, val);
    }
}

/// `key=value` lines → values by key. Text after `#` is a comment; lines
/// without `=` or with an empty key or value are skipped; a later line
/// replaces an earlier value.
pub fn parse_conf_text(raw: &str) -> (m: ConfMap)
    ensures
        m@ == conf_text_map(raw@),
{
    let cs = chars_of(raw);
    let mut m = ConfMap::new();
    let mut start: usize = 0;
    let mut i: usize = 0;
    while i < cs.len()
        invariant
            cs@ == raw@,
            start <= i <= cs@.len(),
            conf_scan(cs@.take(i as int)) == (m@, cs@.subrange(start as int, i as int)),
        decreases cs@.len() - i,
    {
        assert(cs@.take(i + 1).drop_last() =~= cs@.take(i as int));
        assert(cs@.take(i + 1).last() == cs@[i as int]);
        if cs[i] == '\n' {
            apply_line_exec(&mut m, &cs, start, i);
            start = i + 1;
            assert(cs@.subrange(start as int, i + 1) =~= Seq::<char>::empty());
        } else {
            assert(cs@.subrange(start as int, i + 1) =~= cs@.subrange(start as int, i as int).push(cs@[i as int]));
        }
        i = i + 1;
    }
    assert(cs@.take(cs@.len() as int) =~= cs@);
    apply_line_exec(&mut m, &cs, start, cs.len());
    m
}


// --------------------------------------------------------------- sizes

pub const KB: u64 = 1024;

pub const MB: u64 = 1024 * 1024;

pub const GB: u64 = 1024 * 1024 * 1024;

/// `s` without any `c`.
pub open spec fn remove_char(s: Seq<char>, c: char) -> Seq<char>
    decreases s.len(),
{
    if s.len() == 0 {
        Seq::empty()
    } else if s.last() == c {
        remove_char(s.drop_last(), c)
    } else {
        remove_char(s.drop_last(), c).push(s.last())
    }
}

/// The text a size is read from: trimmed, ASCII-lowercased, without `_`.
pub open spec fn size_text(raw: Seq<char>) -> Seq<char> {
    remove_char(ascii_lower(trim_ws(raw)), '_')
}

/// The first of the suffixes `gb`, `g`, `mb`, `m`, `kb`, `k` that ends `s`:
/// its length and multiplier.
pub open spec fn size_suffix(s: Seq<char>) -> Option<(nat, nat)> {
    let n = s.len() as int;
    if n >= 2 && s[n - 2] == 'g' && s[n - 1] == 'b' {
        Some((2, GB as nat))
    } else if n >= 1 && s[n - 1] == 'g' {
        Some((1, GB as nat))
    } else if n >= 2 && s[n - 2] == 'm' && s[n - 1] == 'b' {
        Some((2, MB as nat))
    } else if n >= 1 && s[n - 1] == 'm' {
        Some((1, MB as nat))
    } else if n >= 2 && s[n - 2] == 'k' && s[n - 1] == 'b' {
        Some((2, KB as nat))
    } else if n >= 1 && s[n - 1] == 'k' {
        Some((1, KB as nat))
    } else {
        None
    }
}

/// `10` to the power `n`.
pub open spec fn pow10(n: nat) -> nat
    decreases n,
{
    if n == 0 {
        1
    } else {
        10 * pow10((n - 1) as nat)
    }
}

/// The whole bytes of a decimal number of `mul`-byte units, rounded down;
/// 0 when negative, `u64::MAX` when larger.
pub open spec fn scaled_size(neg: bool, ip: Seq<char>, fp: Seq<char>, mul: nat) -> u64 {
    if neg {
        0
    } else {
        let v = digits_value(ip) * mul + (mul * digits_value(fp)) / pow10(fp.len());
        if v > u64::MAX { u64::MAX } else { v as u64 }
    }
}

/// `t` without a leading `-` or `+`.
pub open spec fn unsigned_part(t: Seq<char>) -> Seq<char> {
    if t.len() > 0 && (t[0] == '-' || t[0] == '+') {
        t.drop_first()
    } else {
        t
    }
}

/// Whether `b` spells infinity (`inf` or `infinity`) as the `f64` parser
/// reads it, in lowercase.
pub open spec fn is_inf_text(b: Seq<char>) -> bool {
    ||| b.len() == 3 && b[0] == 'i' && b[1] == 'n' && b[2] == 'f'
    ||| b.len() == 8 && b[0] == 'i' && b[1] == 'n' && b[2] == 'f' && b[3] == 'i' && b[4] == 'n'
        && b[5] == 'i' && b[6] == 't' && b[7] == 'y'
}

/// Whether `b` spells NaN (`nan`) as the `f64` parser reads it, in lowercase.
pub open spec fn is_nan_text(b: Seq<char>) -> bool {
    b.len() == 3 && b[0] == 'n' && b[1] == 'a' && b[2] == 'n'
}

/// The finite number that `b` (lowercase, without sign) spells in the `f64`
/// grammar: digits with an optional `.` and fraction digits (at least one
/// digit in all), then optionally `e`, a sign and at least one exponent
/// digit. Gives the integer digits, the fraction digits and the exponent.
pub open spec fn finite_parts(b: Seq<char>) -> Option<(Seq<char>, Seq<char>, int)> {
    let e_at = first_index(b, 'e');
    let mant = b.take(e_at as int);
    let dot = first_index(mant, '.');
    let ip = mant.take(dot as int);
    let fp = if dot < mant.len() { mant.skip(dot as int + 1) } else { Seq::empty() };
    let x = if e_at < b.len() { b.skip(e_at as int + 1) } else { Seq::empty() };
    let xd = unsigned_part(x);
    let exp: int = if x.len() > 0 && x[0] == '-' { -digits_value(xd) } else { digits_value(xd) as int };
    if all_digits(ip) && all_digits(fp) && ip.len() + fp.len() > 0 && (e_at == b.len() || (xd.len() > 0 && all_digits(xd))) {
        Some((ip, fp, exp))
    } else {
        None
    }
}

/// `v` times ten to the `k` (a negative `k` divides, rounding down), capped
/// at `u64::MAX`.
pub open spec fn shifted(v: nat, k: int) -> u64 {
    let w = if k >= 0 { v * pow10(k as nat) } else { v / pow10((-k) as nat) };
    if w > u64::MAX { u64::MAX } else { w as u64 }
}

/// The numerator of `d` times ten to the `k`, as a fraction.
pub open spec fn num_of(d: nat, k: int) -> nat {
    if k >= 0 { d * pow10(k as nat) } else { d }
}

/// The denominator of `d` times ten to the `k`, as a fraction.
pub open spec fn den_of(k: int) -> nat {
    if k >= 0 { 1 } else { pow10((-k) as nat) }
}

/// `num / den` times two to the `u - 1`, rounded down.
pub open spec fn binade_floor(num: nat, den: nat, u: nat) -> nat {
    (num * pow2(u)) / (2 * den)
}

/// Whether `num / den` times two to the `u - 1` lies in `[2^52, 2^53)`: the
/// range where an `f64` holds it as a 53-bit integer, so that the `f64`
/// nearest to `num / den` is that integer, rounded, over two to the `u - 1`.
pub open spec fn in_binade(num: nat, den: nat, u: nat) -> bool {
    pow2(52) <= binade_floor(num, den, u) && binade_floor(num, den, u) < pow2(53)
}

/// `num / den` times two to the `u - 1`, rounded to the nearest integer,
/// ties to the even one (as `f64` rounds).
pub open spec fn round_even(num: nat, den: nat, u: nat) -> nat {
    let sn = num * pow2(u);
    let sd = 2 * den;
    let q = sn / sd;
    let r = sn % sd;
    if 2 * r > sd || (2 * r == sd && q % 2 == 1) { q + 1 } else { q }
}

/// The positive number `num / den` parsed as an `f64` (rounded to the
/// nearest value with a 53-bit mantissa, ties to even), multiplied by `mul`
/// (a power of two, so exactly) and cast to `u64` as `as` casts a float
/// (rounded down, `u64::MAX` at and past the top). Where `num / den * mul`
/// is at least `u64::MAX` the cast gives `u64::MAX`, and where it is below
/// a tenth the result is 0, whatever the rounding; between them the number
/// is scaled into the 53-bit range and rounded there.
pub open spec fn f64_size(num: nat, den: nat, mul: nat) -> u64 {
    if num * mul >= u64::MAX * den {
        u64::MAX
    } else if 10 * num * mul < den {
        0
    } else {
        let u = choose|u: nat| u <= 87 && in_binade(num, den, u);
        let w = (round_even(num, den, u) * mul * 2) / pow2(u);
        if w > u64::MAX { u64::MAX } else { w as u64 }
    }
}

/// The number `t` (lowercase) spells as Rust's `f64` parser reads it, times
/// `mul`, cast to `u64` as `as` casts a float: infinity gives `u64::MAX`,
/// NaN and negative numbers give 0, and a finite number is rounded to an
/// `f64` first (see `f64_size`). A number of more digits than any process
/// can hold (`usize::MAX - 100`) is taken exactly, rounded down.
pub open spec fn size_number(t: Seq<char>, mul: nat) -> Option<u64> {
    let neg = t.len() > 0 && t[0] == '-';
    let b = unsigned_part(t);
    if is_inf_text(b) {
        Some(if neg { 0 } else { u64::MAX })
    } else if is_nan_text(b) {
        Some(0)
    } else {
        match finite_parts(b) {
            Some((ip, fp, e)) => Some(if neg {
                0
            } else if (ip + fp).len() + 100 >= usize::MAX {
                shifted(digits_value(ip + fp) * mul, e - fp.len())
            } else {
                f64_size(num_of(digits_value(ip + fp), e - fp.len()), den_of(e - fp.len()), mul)
            }),
            None => None,
        }
    }
}

/// What `parse_size` reads: plain bytes, or a number of KiB, MiB or GiB in
/// the `f64` grammar when it ends with `k`/`kb`, `m`/`mb` or `g`/`gb`.
pub open spec fn parse_size_spec(raw: Seq<char>) -> Option<u64> {
    let s = size_text(raw);
    if s.len() == 0 {
        None
    } else {
        match size_suffix(s) {
            Some((sl, mul)) => size_number(trim_ws(s.take(s.len() - sl)), mul),
            None => match parse_unsigned(s, u64::MAX as nat) {
                Some(v) => Some(v as u64),
                None => None,
            },
        }
    }
}

proof fn lemma_floor_step(a: int, x: int, p: int)
    requires
        a >= 0,
        x >= 0,
        p > 0,
    ensures
        (a + x / p) / 10 == (a * p + x) / (10 * p),
{
    let q = x / p;
    let r = x % p;
    vstd::arithmetic::div_mod::lemma_fundamental_div_mod(x, p);
    vstd::arithmetic::div_mod::lemma_mod_pos_bound(x, p);
    assert(a * p + x == p * (a + q) + r) by (nonlinear_arith)
        requires
            x == p * q + r,
    ;
    vstd::arithmetic::div_mod::lemma_div_multiples_vanish_fancy(a + q, r, p);
    assert(a * p + x >= 0) by (nonlinear_arith)
        requires
            a >= 0,
            x >= 0,
            p > 0,
    ;
    vstd::arithmetic::div_mod::lemma_div_denominator(a * p + x, p, 10);
    assert(p * 10 == 10 * p);
}

proof fn lemma_digits_value_front(s: Seq<char>)
    requires
        s.len() > 0,
    ensures
        digits_value(s) == digit_value(s[0]) * pow10((s.len() - 1) as nat) + digits_value(s.drop_first()),
    decreases s.len(),
{
    if s.len() == 1 {
        assert(s.drop_last() =~= Seq::<char>::empty());
        assert(s.drop_first() =~= Seq::<char>::empty());
        assert(s.last() == s[0]);
        assert(pow10(0) == 1);
        assert(digits_value(s) == digits_value(s.drop_last()) * 10 + digit_value(s.last()));
        assert(digits_value(s.drop_last()) == 0);
        assert(digits_value(s.drop_first()) == 0);
        assert(digit_value(s[0]) * pow10(0) == digit_value(s[0])) by (nonlinear_arith)
            requires pow10(0) == 1;
    } else {
        let d = s.drop_last();
        lemma_digits_value_front(d);
        assert(d.drop_first() =~= s.drop_first().drop_last());
        assert(s.drop_first().last() == s.last());
        assert(d[0] == s[0]);
        assert(pow10((s.len() - 1) as nat) == 10 * pow10((d.len() - 1) as nat));
        assert(digits_value(s.drop_first()) == digits_value(d.drop_first()) * 10 + digit_value(s.last()));
        let a = digit_value(s[0]);
        let p = pow10((d.len() - 1) as nat);
        let b = digits_value(d.drop_first());
        assert(digits_value(s) == digits_value(d) * 10 + digit_value(s.last()));
        assert(digits_value(d) == a * p + b);
        assert((a * p + b) * 10 + digit_value(s.last()) == a * (10 * p) + (b * 10 + digit_value(s.last()))) by (nonlinear_arith);
        let q = pow10((s.len() - 1) as nat);
        assert(a * q == a * (10 * p)) by (nonlinear_arith)
            requires q == 10 * p;
    }
}

proof fn lemma_pow10_pos(n: nat)
    ensures
        pow10(n) >= 1,
    decreases n,
{
    if n > 0 {
        lemma_pow10_pos((n - 1) as nat);
    }
}

proof fn lemma_digits_value_bound(s: Seq<char>)
    requires
        all_digits(s),
    ensures
        digits_value(s) < pow10(s.len()),
    decreases s.len(),
{
    if s.len() > 0 {
        lemma_digits_value_bound(s.drop_last());
        assert(is_digit(s.last()));
    }
}

proof fn lemma_pow10_add(a: nat, b: nat)
    ensures
        pow10(a + b) == pow10(a) * pow10(b),
    decreases b,
{
    if b > 0 {
        lemma_pow10_add(a, (b - 1) as nat);
        assert((a + b - 1) as nat == a + (b - 1) as nat);
        assert(pow10(a + b) == 10 * pow10((a + b - 1) as nat));
        assert(pow10(b) == 10 * pow10((b - 1) as nat));
        assert(10 * (pow10(a) * pow10((b - 1) as nat)) == pow10(a) * (10 * pow10((b - 1) as nat))) by (nonlinear_arith);
        assert(pow10(a + b) == pow10(a) * pow10(b));
    } else {
        assert(pow10(0) == 1);
        assert(pow10(a) * 1 == pow10(a));
        assert(a + b == a);
    }
}

proof fn lemma_pow10_mono(a: nat, b: nat)
    requires
        a <= b,
    ensures
        pow10(a) <= pow10(b),
    decreases b,
{
    if a < b {
        lemma_pow10_mono(a, (b - 1) as nat);
        lemma_pow10_pos((b - 1) as nat);
    }
}

proof fn lemma_pow10_bounds()
    ensures
        pow10(10) > GB,
        pow10(20) > u64::MAX,
{
    reveal_with_fuel(pow10, 21);
}

proof fn lemma_digits_value_split(s: Seq<char>, p: int)
    requires
        0 <= p <= s.len(),
    ensures
        digits_value(s) == digits_value(s.take(p)) * pow10((s.len() - p) as nat) + digits_value(s.skip(p)),
    decreases s.len(),
{
    if p == s.len() {
        assert(s.take(p) =~= s);
        assert(s.skip(p) =~= Seq::<char>::empty());
        assert(pow10(0) == 1);
        assert(digits_value(s.skip(p)) == 0);
        assert(digits_value(s) * 1 == digits_value(s));
        assert((s.len() - p) as nat == 0);
    } else {
        let d = s.drop_last();
        lemma_digits_value_split(d, p);
        assert(d.take(p) =~= s.take(p));
        assert(s.skip(p).drop_last() =~= d.skip(p));
        assert(s.skip(p).last() == s.last());
        let a = digits_value(s.take(p));
        let q = pow10((d.len() - p) as nat);
        let b = digits_value(d.skip(p));
        assert(pow10((s.len() - p) as nat) == 10 * q);
        assert(digits_value(s) == digits_value(d) * 10 + digit_value(s.last()));
        assert(s.skip(p).len() > 0);
        assert(digits_value(s.skip(p)) == digits_value(s.skip(p).drop_last()) * 10 + digit_value(s.skip(p).last()));
        assert((a * q + b) * 10 + digit_value(s.last()) == a * (10 * q) + (b * 10 + digit_value(s.last()))) by (nonlinear_arith);
        assert(digits_value(d) == a * q + b);
        assert(digits_value(s.skip(p)) == b * 10 + digit_value(s.last()));
        assert(digits_value(s) == a * pow10((s.len() - p) as nat) + digits_value(s.skip(p)));
    }
}

proof fn lemma_digits_value_concat(a: Seq<char>, b: Seq<char>)
    ensures
        digits_value(a + b) == digits_value(a) * pow10(b.len()) + digits_value(b),
{
    lemma_digits_value_split(a + b, a.len() as int);
    assert((a + b).take(a.len() as int) =~= a);
    assert((a + b).skip(a.len() as int) =~= b);
}

/// The digits `cs[from..to]` as a number, capped at `cap`.
fn digits_capped(cs: &Vec<char>, from: usize, to: usize, cap: u128) -> (r: u128)
    requires
        from <= to <= cs@.len(),
        all_digits(cs@.subrange(from as int, to as int)),
        cap <= 0x10_0000_0000_0000_0000u128,
    ensures
        r == if digits_value(cs@.subrange(from as int, to as int)) > cap { cap as nat } else { digits_value(cs@.subrange(from as int, to as int)) },
{
    let ghost f = cs@.subrange(from as int, to as int);
    let mut acc: u128 = 0;
    let mut j = from;
    proof {
        assert(cs@.subrange(from as int, from as int) =~= Seq::<char>::empty());
    }
    while j < to
        invariant
            from <= j <= to <= cs@.len(),
            f == cs@.subrange(from as int, to as int),
            all_digits(f),
            cap <= 0x10_0000_0000_0000_0000u128,
            acc == if digits_value(cs@.subrange(from as int, j as int)) > cap { cap as nat } else { digits_value(cs@.subrange(from as int, j as int)) },
        decreases to - j,
    {
        let ghost pre = cs@.subrange(from as int, j as int);
        let ghost nxt = cs@.subrange(from as int, j + 1);
        assert(nxt.drop_last() =~= pre);
        assert(nxt.last() == cs@[j as int]);
        assert(f[j - from] == cs@[j as int]);
        let d = (cs[j] as u32 - '0' as u32) as u128;
        assert(digits_value(nxt) == digits_value(pre) * 10 + d);
        if acc < cap {
            let v = acc * 10 + d;
            acc = if v > cap { cap } else { v };
        } else {
            assert(digits_value(pre) * 10 + d >= digits_value(pre)) by (nonlinear_arith)
                requires d >= 0;
        }
        j = j + 1;
    }
    acc
}

/// The characters `cs[a..b]` followed by `cs[c..d]`.
fn concat_ranges(cs: &Vec<char>, a: usize, b: usize, c: usize, d: usize) -> (g: Vec<char>)
    requires
        a <= b <= cs@.len(),
        c <= d <= cs@.len(),
    ensures
        g@ == cs@.subrange(a as int, b as int) + cs@.subrange(c as int, d as int),
{
    let mut g: Vec<char> = Vec::new();
    let mut i = a;
    while i < b
        invariant
            a <= i <= b <= cs@.len(),
            g@ == cs@.subrange(a as int, i as int),
        decreases b - i,
    {
        g.push(cs[i]);
        i = i + 1;
        assert(g@ =~= cs@.subrange(a as int, i as int));
    }
    let mut k = c;
    assert(cs@.subrange(c as int, c as int) =~= Seq::<char>::empty());
    while k < d
        invariant
            a <= b <= cs@.len(),
            c <= k <= d <= cs@.len(),
            g@ == cs@.subrange(a as int, b as int) + cs@.subrange(c as int, k as int),
        decreases d - k,
    {
        g.push(cs[k]);
        k = k + 1;
        assert(g@ =~= cs@.subrange(a as int, b as int) + cs@.subrange(c as int, k as int));
    }
    g
}

/// Whether `cs[from..to]` holds only decimal digits.
pub fn all_digits_range(cs: &Vec<char>, from: usize, to: usize) -> (r: bool)
    requires
        from <= to <= cs@.len(),
    ensures
        r == all_digits(cs@.subrange(from as int, to as int)),
{
    let mut i = from;
    while i < to
        invariant
            from <= i <= to <= cs@.len(),
            forall|j: int| from <= j < i ==> is_digit(#[trigger] cs@[j]),
        decreases to - i,
    {
        if !('0' <= cs[i] && cs[i] <= '9') {
            assert(!is_digit(cs@.subrange(from as int, to as int)[i - from]));
            return false;
        }
        i = i + 1;
    }
    assert forall|j: int| 0 <= j < to - from implies is_digit(#[trigger] cs@.subrange(from as int, to as int)[j]) by {
        assert(cs@.subrange(from as int, to as int)[j] == cs@[from + j]);
    }
    true
}

/// `floor(mul * F / 10^|F|)` for the fraction digits `F = cs[from..to]`.
fn fraction_scaled(cs: &Vec<char>, from: usize, to: usize, mul: u64) -> (r: u64)
    requires
        from <= to <= cs@.len(),
        all_digits(cs@.subrange(from as int, to as int)),
        1 <= mul <= GB,
    ensures
        r == (mul * digits_value(cs@.subrange(from as int, to as int))) as int / pow10((to - from) as nat) as int,
        r < mul,
{
    let ghost f = cs@.subrange(from as int, to as int);
    let mut c: u64 = 0;
    let mut j = to;
    proof {
        assert(cs@.subrange(to as int, to as int) =~= Seq::<char>::empty());
        assert(digits_value(cs@.subrange(to as int, to as int)) == 0);
        assert(pow10(0) == 1);
        assert((mul * 0) as int / 1int == 0) by (nonlinear_arith);
    }
    while j > from
        invariant
            from <= j <= to <= cs@.len(),
            f == cs@.subrange(from as int, to as int),
            all_digits(f),
            1 <= mul <= GB,
            c == (mul * digits_value(cs@.subrange(j as int, to as int))) as int / pow10((to - j) as nat) as int,
            c < mul,
        decreases j,
    {
        let ghost rest = cs@.subrange(j as int, to as int);
        let ghost s = cs@.subrange(j - 1, to as int);
        assert(s.drop_first() =~= rest);
        assert(s[0] == cs@[j - 1]);
        assert(f[j - 1 - from] == cs@[j - 1]);
        assert(is_digit(cs@[j - 1]));
        let d = (cs[j - 1] as u32 - '0' as u32) as u64;
        proof {
            assert forall|i: int| 0 <= i < rest.len() implies is_digit(#[trigger] rest[i]) by {
                assert(rest[i] == f[j - from + i]);
            }
            lemma_digits_value_front(s);
            let p = pow10(rest.len());
            lemma_pow10_pos(rest.len());
            lemma_floor_step(d * mul, mul * digits_value(rest), p as int);
            assert((d * mul) * p + mul * digits_value(rest) == mul * (d * p + digits_value(rest))) by (nonlinear_arith);
            assert(pow10(s.len()) == 10 * p);
            assert forall|i: int| 0 <= i < s.len() implies is_digit(#[trigger] s[i]) by {
                assert(s[i] == f[j - 1 - from + i]);
            }
            lemma_digits_value_bound(s);
            assert(mul * digits_value(s) < mul * pow10(s.len())) by (nonlinear_arith)
                requires
                    mul >= 1,
                    digits_value(s) < pow10(s.len()),
            ;
            vstd::arithmetic::div_mod::lemma_div_is_ordered(mul * digits_value(s) as int, mul * pow10(s.len()) - 1, pow10(s.len()) as int);
            assert((mul * pow10(s.len()) - 1) / (pow10(s.len()) as int) < mul) by (nonlinear_arith)
                requires
                    pow10(s.len()) >= 1,
                    mul >= 1,
            ;
            assert(d * mul + c <= 10 * mul) by (nonlinear_arith)
                requires
                    d <= 9,
                    c < mul,
            ;
        }
        c = (d * mul + c) / 10;
        j = j - 1;
    }
    c
}


/// The characters of `cs[from..to]`, ASCII-lowercased, without `_`.
fn size_chars(cs: &Vec<char>, from: usize, to: usize) -> (t: Vec<char>)
    requires
        from <= to <= cs@.len(),
    ensures
        t@ == remove_char(ascii_lower(cs@.subrange(from as int, to as int)), '_'),
{
    let mut t: Vec<char> = Vec::new();
    let mut i = from;
    while i < to
        invariant
            from <= i <= to <= cs@.len(),
            t@ == remove_char(ascii_lower(cs@.subrange(from as int, i as int)), '_'),
        decreases to - i,
    {
        let c = cs[i];
        let l = if 'A' <= c && c <= 'Z' { ((c as u8) + 32) as char } else { c };
        proof {
            let lo = ascii_lower(cs@.subrange(from as int, i + 1));
            assert(lo.drop_last() =~= ascii_lower(cs@.subrange(from as int, i as int)));
            assert(lo.last() == l);
        }
        if l != '_' {
            t.push(l);
        }
        i = i + 1;
    }
    t
}

/// The suffix `size_suffix` finds at the end of `t`: its length and
/// multiplier, or `(0, 0)` when there is none.
fn suffix_of(t: &Vec<char>) -> (r: (usize, u64))
    requires
        t@.len() > 0,
    ensures
        match size_suffix(t@) {
            Some((sl, mul)) => r.0 == sl && r.1 == mul && 1 <= sl <= 2 && sl <= t@.len() && KB <= mul <= GB,
            None => r.0 == 0,
        },
{
    let n = t.len();
    if n >= 2 && t[n - 2] == 'g' && t[n - 1] == 'b' {
        (2, GB)
    } else if t[n - 1] == 'g' {
        (1, GB)
    } else if n >= 2 && t[n - 2] == 'm' && t[n - 1] == 'b' {
        (2, MB)
    } else if t[n - 1] == 'm' {
        (1, MB)
    } else if n >= 2 && t[n - 2] == 'k' && t[n - 1] == 'b' {
        (2, KB)
    } else if t[n - 1] == 'k' {
        (1, KB)
    } else {
        (0, 0)
    }
}

/// `ip.fp` units of `mul` bytes, rounded down and capped at `u64::MAX`,
/// for the digits `ip = t[a..dot]` and `fp = t[fs..d]`.
fn scaled_value(t: &Vec<char>, a: usize, dot: usize, fs: usize, d: usize, mul: u64) -> (r: u64)
    requires
        a <= dot <= fs <= d <= t@.len(),
        all_digits(t@.subrange(a as int, dot as int)),
        all_digits(t@.subrange(fs as int, d as int)),
        1 <= mul <= GB,
    ensures
        r == scaled_size(false, t@.subrange(a as int, dot as int), t@.subrange(fs as int, d as int), mul as nat),
{
    let ghost ipd = t@.subrange(a as int, dot as int);
    let ghost fpd = t@.subrange(fs as int, d as int);
    let ip: Option<u64> = if dot == a {
        proof {
            assert(ipd =~= Seq::<char>::empty());
        }
        Some(0)
    } else {
        parse_unsigned_range(t, a, dot, u64::MAX)
    };
    let frac = fraction_scaled(t, fs, d, mul);
    assert(fpd.len() == d - fs);
    match ip {
        None => {
            proof {
                assert(ipd =~= crate::text::unsigned_digits(ipd));
                assert(digits_value(ipd) * mul >= digits_value(ipd)) by (nonlinear_arith)
                    requires mul >= 1;
            }
            u64::MAX
        },
        Some(v) => {
            proof {
                if dot > a {
                    assert(ipd =~= crate::text::unsigned_digits(ipd));
                }
                assert(v as int == digits_value(ipd));
            }
            assert(v * mul <= u64::MAX * GB) by (nonlinear_arith)
                requires v <= u64::MAX, mul <= GB;
            let total: u128 = (v as u128) * (mul as u128) + (frac as u128);
            if total > u64::MAX as u128 {
                u64::MAX
            } else {
                total as u64
            }
        },
    }
}

/// Above this an exponent's size no longer matters: it is far beyond the
/// digits any text can hold.
const EXP_CAP: u128 = 0x4_0000_0000_0000_0000;

proof fn lemma_shifted_zero(k: int)
    ensures
        shifted(0, k) == 0,
{
    if k < 0 {
        lemma_pow10_pos((-k) as nat);
        vstd::arithmetic::div_mod::lemma_basic_div_specific_divisor(pow10((-k) as nat) as int);
    } else {
        assert(0 * pow10(k as nat) == 0);
    }
}

/// `digits(g) * mul` times ten to the `±ev - fl`, capped at `u64::MAX`, where
/// `emag` is the exponent's size `ev` capped at `EXP_CAP`.
fn shift_digits(g: &Vec<char>, fl: usize, eneg: bool, emag: u128, Ghost(ev): Ghost<nat>, mul: u64) -> (r: u64)
    requires
        all_digits(g@),
        fl <= g@.len(),
        1 <= mul <= GB,
        emag == (if ev > EXP_CAP { EXP_CAP as nat } else { ev }),
    ensures
        r == shifted(digits_value(g@) * (mul as nat), (if eneg { -ev } else { ev as int }) - fl),
{
    let ghost dd = digits_value(g@);
    let ghost v: nat = dd * (mul as nat);
    let ghost kt: int = (if eneg { -ev } else { ev as int }) - fl;
    let n = g.len();
    assert(g@.subrange(0, n as int) =~= g@);
    let dcap = digits_capped(g, 0, n, 0x1_0000_0000_0000_0000u128);
    if dcap == 0 {
        proof {
            assert(v == 0) by (nonlinear_arith)
                requires dd == 0, v == dd * mul;
            lemma_shifted_zero(kt);
        }
        return 0;
    }
    let k: i128 = (if eneg { 0 - (emag as i128) } else { emag as i128 }) - (fl as i128);
    if k >= 0 {
        proof {
            if eneg {
                assert(ev == 0);
            }
            assert(kt >= k);
            assert(v >= dd) by (nonlinear_arith)
                requires v == dd * mul, mul >= 1;
        }
        if k >= 20 || dcap > 0xFFFF_FFFF_FFFF_FFFFu128 {
            proof {
                lemma_pow10_pos(kt as nat);
                assert(v * pow10(kt as nat) >= v) by (nonlinear_arith)
                    requires pow10(kt as nat) >= 1, v >= 0;
                if k >= 20 {
                    lemma_pow10_mono(20, kt as nat);
                    lemma_pow10_bounds();
                    assert(v * pow10(kt as nat) >= pow10(kt as nat)) by (nonlinear_arith)
                        requires v >= 1;
                }
            }
            return 0xFFFF_FFFF_FFFF_FFFFu64;
        }
        proof {
            assert(kt == k);
        }
        assert(dcap * (mul as u128) <= 0xFFFF_FFFF_FFFF_FFFFu128 * 0x4000_0000u128) by (nonlinear_arith)
            requires dcap <= 0xFFFF_FFFF_FFFF_FFFFu128, mul <= 0x4000_0000u64;
        let mut acc: u128 = dcap * (mul as u128);
        let kk = k as u64;
        let mut i: u64 = 0;
        proof {
            assert(pow10(0) == 1);
            assert(v * 1 == v);
            assert(acc == v);
            assert(acc == v * pow10(0));
        }
        while i < kk
            invariant
                i <= kk,
                kk == kt,
                kt == (if eneg { -ev } else { ev as int }) - fl,
                dd == digits_value(g@),
                v == dd * (mul as nat),
                acc == v * pow10(i as nat),
            decreases kk - i,
        {
            if acc > 0xFFFF_FFFF_FFFF_FFFFu128 {
                proof {
                    lemma_pow10_add(i as nat, (kk - i) as nat);
                    lemma_pow10_pos((kk - i) as nat);
                    assert(v * pow10(kk as nat) == acc * pow10((kk - i) as nat)) by (nonlinear_arith)
                        requires
                            acc == v * pow10(i as nat),
                            pow10(kk as nat) == pow10(i as nat) * pow10((kk - i) as nat);
                    assert(acc * pow10((kk - i) as nat) >= acc) by (nonlinear_arith)
                        requires pow10((kk - i) as nat) >= 1, acc >= 0;
                }
                return 0xFFFF_FFFF_FFFF_FFFFu64;
            }
            proof {
                assert(pow10((i + 1) as nat) == 10 * pow10(i as nat));
                assert(acc * 10 == v * pow10((i + 1) as nat)) by (nonlinear_arith)
                    requires
                        acc == v * pow10(i as nat),
                        pow10((i + 1) as nat) == 10 * pow10(i as nat);
            }
            acc = acc * 10;
            i = i + 1;
        }
        if acc > 0xFFFF_FFFF_FFFF_FFFFu128 {
            0xFFFF_FFFF_FFFF_FFFFu64
        } else {
            acc as u64
        }
    } else {
        let m: u128 = (0 - k) as u128;
        proof {
            if !eneg {
                assert(ev == emag);
            }
            assert(-kt >= m);
            lemma_digits_value_bound(g@);
            lemma_pow10_bounds();
            lemma_pow10_add(n as nat, 10);
        }
        if m >= (n as u128) + 10 {
            proof {
                let mt = (-kt) as nat;
                lemma_pow10_mono((n + 10) as nat, mt);
                assert(v < pow10(n as nat) * pow10(10)) by (nonlinear_arith)
                    requires
                        v == dd * mul,
                        dd < pow10(n as nat),
                        mul <= GB,
                        GB < pow10(10);
                lemma_pow10_pos(mt);
                vstd::arithmetic::div_mod::lemma_basic_div_specific_divisor(pow10(mt) as int);
                assert(v as int / pow10(mt) as int == 0);
            }
            return 0;
        }
        proof {
            if eneg {
                assert(emag < EXP_CAP);
                assert(ev == emag);
            }
            assert(-kt == m);
        }
        let ghost mu: nat = m as nat;
        if m <= n as u128 {
            let p = n - (m as usize);
            proof {
                assert forall|i: int| 0 <= i < p implies is_digit(#[trigger] g@.subrange(0, p as int)[i]) by {
                    assert(g@.subrange(0, p as int)[i] == g@[i]);
                }
                assert forall|i: int| 0 <= i < n - p implies is_digit(#[trigger] g@.subrange(p as int, n as int)[i]) by {
                    assert(g@.subrange(p as int, n as int)[i] == g@[p + i]);
                }
                lemma_digits_value_split(g@, p as int);
                assert(g@.take(p as int) =~= g@.subrange(0, p as int));
                assert(g@.skip(p as int) =~= g@.subrange(p as int, n as int));
                let da = digits_value(g@.subrange(0, p as int));
                let db = digits_value(g@.subrange(p as int, n as int));
                let pp = pow10(mu as nat);
                lemma_pow10_pos(mu as nat);
                assert(dd == da * pp + db);
                assert(v == mul * db + (da * mul) * pp) by (nonlinear_arith)
                    requires v == dd * mul, dd == da * pp + db;
                vstd::arithmetic::div_mod::lemma_hoist_over_denominator((mul * db) as int, (da * mul) as int, pp);
            }
            scaled_value(g, 0, p, p, n, mul)
        } else {
            let z = (m - (n as u128)) as usize;
            let frac = fraction_scaled(g, 0, n, mul);
            let mut q = frac;
            let mut i: usize = 0;
            proof {
                assert(pow10(0) == 1);
                assert(frac as int / 1int == frac);
            }
            while i < z
                invariant
                    i <= z,
                    frac < mul,
                    q == frac as int / pow10(i as nat) as int,
                    q <= frac,
                decreases z - i,
            {
                proof {
                    lemma_pow10_pos(i as nat);
                    vstd::arithmetic::div_mod::lemma_div_denominator(frac as int, pow10(i as nat) as int, 10);
                    assert(pow10((i + 1) as nat) == pow10(i as nat) * 10);
                }
                q = q / 10;
                i = i + 1;
            }
            proof {
                lemma_pow10_pos(n as nat);
                lemma_pow10_pos(z as nat);
                vstd::arithmetic::div_mod::lemma_div_denominator((mul * dd) as int, pow10(n as nat) as int, pow10(z as nat) as int);
                lemma_pow10_add(n as nat, z as nat);
                assert(mul * dd == v) by (nonlinear_arith)
                    requires v == dd * mul;
            }
            q
        }
    }
}

proof fn lemma_div_ge(x: nat, c: nat, d: nat)
    requires
        d > 0,
    ensures
        (x / d >= c) == (x >= c * d),
{
    vstd::arithmetic::div_mod::lemma_fundamental_div_mod(x as int, d as int);
    vstd::arithmetic::div_mod::lemma_mod_pos_bound(x as int, d as int);
    let q = x / d;
    let r = x % d;
    if q >= c {
        assert(q * d >= c * d) by (nonlinear_arith)
            requires q >= c, d > 0;
        assert(x == d * q + r);
        assert(d * q == q * d) by (nonlinear_arith);
    } else {
        assert(q * d + d <= c * d) by (nonlinear_arith)
            requires q + 1 <= c, d > 0;
        assert(x == d * q + r);
        assert(d * q == q * d) by (nonlinear_arith);
    }
}

/// `shifted` is the fraction `num_of / den_of` times `mul`, rounded down and
/// capped.
proof fn lemma_shifted_frac(d: nat, mul: nat, k: int)
    ensures
        den_of(k) > 0,
        shifted(d * mul, k) == (if num_of(d, k) * mul / den_of(k) > u64::MAX { u64::MAX } else { (num_of(d, k) * mul / den_of(k)) as u64 }),
{
    if k >= 0 {
        lemma_pow10_pos(k as nat);
        assert((d * mul) * pow10(k as nat) == (d * pow10(k as nat)) * mul) by (nonlinear_arith);
        assert(num_of(d, k) * mul / 1 == num_of(d, k) * mul);
    } else {
        lemma_pow10_pos((-k) as nat);
    }
}

/// The floor `shift_digits` gives of `c` at exponent `k - 1`, when `c`
/// holds `d * 5 * 2^u`, is `binade_floor` of `d` at exponent `k`; and the
/// remainder of `c` over `10^(1 - k)` is five times the one of the binade
/// fraction (when `k <= 0`; it is 0 when `k >= 1`).
proof fn lemma_binade_digits(d: nat, k: int, u: nat, c: nat)
    requires
        c == d * 5 * pow2(u),
    ensures
        shifted(c, k - 1) == (if binade_floor(num_of(d, k), den_of(k), u) > u64::MAX { u64::MAX } else { binade_floor(num_of(d, k), den_of(k), u) as u64 }),
        k >= 1 ==> (num_of(d, k) * pow2(u)) % (2 * den_of(k)) == 0,
        k <= 0 ==> ({
            let sn = num_of(d, k) * pow2(u);
            let sd = 2 * den_of(k);
            &&& c / pow10((1 - k) as nat) == sn / sd
            &&& c % pow10((1 - k) as nat) == 5 * (sn % sd)
            &&& pow10((1 - k) as nat) == 5 * sd
        }),
{
    let num = num_of(d, k);
    let den = den_of(k);
    let sn = num * pow2(u);
    let sd = 2 * den;
    vstd::arithmetic::power2::lemma_pow2_pos(u);
    if k >= 1 {
        let p = pow10((k - 1) as nat);
        lemma_pow10_pos((k - 1) as nat);
        assert(pow10(k as nat) == 10 * p);
        assert(sn == 2 * (c * p)) by (nonlinear_arith)
            requires sn == (d * (10 * p)) * pow2(u), c == d * 5 * pow2(u);
        assert(sd == 2);
        vstd::arithmetic::div_mod::lemma_fundamental_div_mod_converse(sn as int, 2, (c * p) as int, 0);
        assert(shifted(c, k - 1) == (if c * p > u64::MAX { u64::MAX } else { (c * p) as u64 }));
    } else {
        let pk = pow10((-k) as nat);
        lemma_pow10_pos((-k) as nat);
        assert(pow10((1 - k) as nat) == 10 * pk);
        assert(den == pk);
        assert(pow10(0) == 1);
        assert(d * 1 == d);
        assert(num == d);
        assert(c == 5 * sn) by (nonlinear_arith)
            requires c == d * 5 * pow2(u), sn == d * pow2(u);
        vstd::arithmetic::div_mod::lemma_fundamental_div_mod(sn as int, sd as int);
        vstd::arithmetic::div_mod::lemma_mod_pos_bound(sn as int, sd as int);
        let q = sn / sd;
        let r = sn % sd;
        assert(c == q * (5 * sd) + 5 * r) by (nonlinear_arith)
            requires c == 5 * sn, sn == sd * q + r;
        assert(5 * r < 5 * sd);
        vstd::arithmetic::div_mod::lemma_fundamental_div_mod_converse(c as int, (5 * sd) as int, q as int, (5 * r) as int);
        assert(5 * sd == 10 * pk);
    }
}

/// Twice as much, rounded down, is at least twice and at most one more
/// than twice the rounded-down value.
proof fn lemma_double_floor(a: nat, b: nat)
    requires
        b > 0,
    ensures
        (2 * a) / b >= 2 * (a / b),
        (2 * a) / b <= 2 * (a / b) + 1,
{
    vstd::arithmetic::div_mod::lemma_fundamental_div_mod(a as int, b as int);
    vstd::arithmetic::div_mod::lemma_mod_pos_bound(a as int, b as int);
    let q = a / b;
    let r = a % b;
    if 2 * r < b {
        assert(2 * a == (2 * q) * b + 2 * r) by (nonlinear_arith)
            requires a == b * q + r;
        vstd::arithmetic::div_mod::lemma_fundamental_div_mod_converse((2 * a) as int, b as int, (2 * q) as int, (2 * r) as int);
    } else {
        assert(2 * a == (2 * q + 1) * b + (2 * r - b)) by (nonlinear_arith)
            requires a == b * q + r;
        vstd::arithmetic::div_mod::lemma_fundamental_div_mod_converse((2 * a) as int, b as int, (2 * q + 1) as int, (2 * r - b) as int);
    }
}

proof fn lemma_binade_step(num: nat, den: nat, u: nat)
    requires
        den > 0,
    ensures
        binade_floor(num, den, u + 1) >= 2 * binade_floor(num, den, u),
        binade_floor(num, den, u + 1) <= 2 * binade_floor(num, den, u) + 1,
{
    assert(pow2(u + 1) == 2 * pow2(u)) by {
        vstd::arithmetic::power2::lemma_pow2_unfold(u + 1);
    }
    assert(num * pow2(u + 1) == 2 * (num * pow2(u))) by (nonlinear_arith)
        requires pow2(u + 1) == 2 * pow2(u);
    lemma_double_floor(num * pow2(u), 2 * den);
}

/// Past a scale in the binade, the scaled number is at least `2^53`: at most
/// one scale is in the binade.
proof fn lemma_binade_grows(num: nat, den: nat, u: nat, v: nat)
    requires
        den > 0,
        u < v,
        binade_floor(num, den, u) >= pow2(52),
    ensures
        binade_floor(num, den, v) >= pow2(53),
    decreases v - u,
{
    lemma_binade_step(num, den, u);
    assert(pow2(53) == 2 * pow2(52)) by {
        vstd::arithmetic::power2::lemma_pow2_unfold(53);
    }
    if v > u + 1 {
        lemma_binade_grows(num, den, u + 1, v);
    }
}

/// The digit character for `v` (below ten).
fn digit_char(v: u32) -> (ch: char)
    requires
        v < 10,
    ensures
        is_digit(ch),
        digit_value(ch) == v,
{
    let ch = ((v as u8) + 48u8) as char;
    assert(ch as u32 == v + 48);
    ch
}

/// The digits of `c` times the number the digits `g` denote, one digit
/// longer than `g`.
fn digits_times(g: &Vec<char>, c: u32) -> (out: Vec<char>)
    requires
        all_digits(g@),
        g@.len() < usize::MAX,
        c <= 9,
    ensures
        all_digits(out@),
        out@.len() == g@.len() + 1,
        digits_value(out@) == c * digits_value(g@),
{
    let n = g.len();
    let mut out: Vec<char> = Vec::new();
    let mut z: usize = 0;
    while z < n + 1
        invariant
            z <= n + 1,
            n < usize::MAX,
            n == g@.len(),
            out@.len() == z,
            forall|i: int| 0 <= i < z ==> out@[i] == '0',
        decreases n + 1 - z,
    {
        out.push('0');
        z = z + 1;
    }
    let mut carry: u32 = 0;
    let mut i: usize = n;
    proof {
        assert(g@.subrange(n as int, n as int) =~= Seq::<char>::empty());
        assert(out@.subrange(n + 1, n + 1) =~= Seq::<char>::empty());
        assert(pow10(0) == 1);
        assert(digits_value(Seq::<char>::empty()) == 0);
        assert(c * 0 == 0);
    }
    while i > 0
        invariant
            i <= n,
            n == g@.len(),
            all_digits(g@),
            c <= 9,
            out@.len() == n + 1,
            all_digits(out@),
            carry <= 8,
            c * digits_value(g@.subrange(i as int, n as int)) == digits_value(out@.subrange(i + 1, n + 1)) + carry * pow10((n - i) as nat),
        decreases i,
    {
        let ghost gs = g@.subrange(i - 1, n as int);
        let ghost os_old = out@.subrange(i + 1, n + 1);
        assert(is_digit(g@[i - 1]));
        let d = (g[i - 1] as u32) - ('0' as u32);
        assert(d <= 9);
        assert(d * c <= 81) by (nonlinear_arith)
            requires d <= 9, c <= 9;
        let x = d * c + carry;
        assert(x <= 89 && x / 10 <= 8) by (nonlinear_arith)
            requires d <= 9, c <= 9, carry <= 8, x == d * c + carry;
        let ch = digit_char(x % 10);
        let ghost before = out@;
        out.set(i, ch);
        proof {
            assert(out@.subrange(i + 1, n + 1) =~= os_old);
            let os = out@.subrange(i as int, n + 1);
            assert(os.drop_first() =~= os_old);
            assert(os[0] == ch);
            lemma_digits_value_front(os);
            assert(gs.drop_first() =~= g@.subrange(i as int, n as int));
            assert(gs[0] == g@[i - 1]);
            lemma_digits_value_front(gs);
            let p = pow10((n - i) as nat);
            assert(pow10((n - i + 1) as nat) == 10 * p);
            let dvg = digits_value(g@.subrange(i as int, n as int));
            let dvo = digits_value(os_old);
            assert(c * (d * p + dvg) == (x % 10) * p + dvo + (x / 10) * (10 * p)) by (nonlinear_arith)
                requires
                    c * dvg == dvo + carry * p,
                    x == d * c + carry,
                    x == (x / 10) * 10 + x % 10;
            assert forall|j: int| 0 <= j < out@.len() implies is_digit(#[trigger] out@[j]) by {
                if j != i {
                    assert(out@[j] == before[j]);
                }
            }
        }
        carry = x / 10;
        i = i - 1;
    }
    let ghost os_old = out@.subrange(1, n + 1);
    let ghost before = out@;
    let top = digit_char(carry);
    out.set(0, top);
    proof {
        assert forall|j: int| 0 <= j < out@.len() implies is_digit(#[trigger] out@[j]) by {
            if j != 0 {
                assert(out@[j] == before[j]);
            }
        }
        assert(out@.subrange(1, n + 1) =~= os_old);
        assert(g@.subrange(0, n as int) =~= g@);
        assert(out@.drop_first() =~= os_old);
        lemma_digits_value_front(out@);
    }
    out
}

/// `g` with a `0` digit in front (`front`) or at the end.
fn with_zero(g: &Vec<char>, front: bool) -> (out: Vec<char>)
    requires
        all_digits(g@),
        g@.len() < usize::MAX,
    ensures
        all_digits(out@),
        out@.len() == g@.len() + 1,
        digits_value(out@) == if front { digits_value(g@) } else { 10 * digits_value(g@) },
{
    let mut out: Vec<char> = Vec::new();
    if front {
        out.push('0');
    }
    let mut i: usize = 0;
    while i < g.len()
        invariant
            i <= g@.len(),
            out@ == (if front { Seq::<char>::empty().push('0') } else { Seq::<char>::empty() }) + g@.subrange(0, i as int),
        decreases g@.len() - i,
    {
        out.push(g[i]);
        i = i + 1;
        assert(out@ =~= (if front { Seq::<char>::empty().push('0') } else { Seq::<char>::empty() }) + g@.subrange(0, i as int));
    }
    if !front {
        out.push('0');
    }
    proof {
        assert(g@.subrange(0, g@.len() as int) =~= g@);
        let z = Seq::<char>::empty().push('0');
        assert(z.drop_last() =~= Seq::<char>::empty());
        assert(z.last() == '0');
        assert(z.len() == 1);
        assert(digits_value(Seq::<char>::empty()) == 0);
        assert(digit_value('0') == 0);
        assert(digits_value(z) == digits_value(z.drop_last()) * 10 + digit_value(z.last()));
        assert(digits_value(z) == 0);
        if front {
            assert(out@ =~= z + g@);
            lemma_digits_value_concat(z, g@);
            assert(digits_value(z) * pow10(g@.len()) == 0) by (nonlinear_arith)
                requires digits_value(z) == 0;
            assert(digits_value(out@) == digits_value(g@));
        } else {
            assert(out@ =~= g@ + z);
            lemma_digits_value_concat(g@, z);
            assert(pow10(0) == 1);
            assert(pow10(1) == 10);
            assert(digits_value(out@) == 10 * digits_value(g@));
        }
        assert forall|j: int| 0 <= j < out@.len() implies is_digit(#[trigger] out@[j]) by {
            if front {
                if j > 0 {
                    assert(out@[j] == g@[j - 1]);
                }
            } else {
                if j < g@.len() {
                    assert(out@[j] == g@[j]);
                }
            }
        }
    }
    out
}

/// How the digits `cs[p..]` compare with half of ten to their count: by the
/// first of them, and whether any after it is not zero.
proof fn lemma_half_digits(cs: Seq<char>, p: int)
    requires
        all_digits(cs),
        0 <= p < cs.len(),
    ensures
        ({
            let f = cs.skip(p);
            let f0 = digit_value(cs[p]);
            let rest = digits_value(cs.skip(p + 1));
            &&& (2 * digits_value(f) > pow10(f.len())) == (f0 > 5 || (f0 == 5 && rest > 0))
            &&& (2 * digits_value(f) == pow10(f.len())) == (f0 == 5 && rest == 0)
        }),
{
    let f = cs.skip(p);
    assert(f.drop_first() =~= cs.skip(p + 1));
    assert(f[0] == cs[p]);
    lemma_digits_value_front(f);
    let pp = pow10((f.len() - 1) as nat);
    assert(pow10(f.len()) == 10 * pp);
    assert forall|i: int| 0 <= i < f.drop_first().len() implies is_digit(#[trigger] f.drop_first()[i]) by {
        assert(f.drop_first()[i] == cs[p + 1 + i]);
    }
    lemma_digits_value_bound(f.drop_first());
    assert(f.drop_first().len() == f.len() - 1);
    let f0 = digit_value(cs[p]);
    let r = digits_value(cs.skip(p + 1));
    assert(is_digit(cs[p]));
    assert(f0 <= 9);
    lemma_pow10_pos((f.len() - 1) as nat);
    assert((2 * (f0 * pp + r) > 10 * pp) == (f0 > 5 || (f0 == 5 && r > 0))) by (nonlinear_arith)
        requires f0 <= 9, r < pp, pp >= 1;
    assert((2 * (f0 * pp + r) == 10 * pp) == (f0 == 5 && r == 0)) by (nonlinear_arith)
        requires f0 <= 9, r < pp, pp >= 1;
}

/// The rounding once the scale `u` in the binade is found: `c` holds
/// `d * 5 * 2^u` and `q` the number scaled into the binade, rounded down.
#[verifier::rlimit(60)]
fn f64_round(c: &Vec<char>, q: u64, u: u32, fl: usize, eneg: bool, emag: u128, Ghost(ev): Ghost<nat>, mul: u64, Ghost(d): Ghost<nat>, Ghost(k): Ghost<int>, Ghost(num): Ghost<nat>, Ghost(den): Ghost<nat>) -> (r: u64)
    requires
        u <= 87,
        all_digits(c@),
        c@.len() < usize::MAX,
        c@.len() >= u + 1,
        KB <= mul <= GB,
        emag == (if ev > EXP_CAP { EXP_CAP as nat } else { ev }),
        k == (if eneg { -ev } else { ev as int }) - fl,
        num == num_of(d, k),
        den == den_of(k),
        den > 0,
        num * mul < u64::MAX * den,
        10 * num * mul >= den,
        digits_value(c@) == d * 5 * pow2(u as nat),
        d < pow10((c@.len() - 1 - u) as nat),
        fl <= c@.len(),
        forall|v: nat| v < u ==> #[trigger] binade_floor(num, den, v) < pow2(52),
        q as nat == binade_floor(num, den, u as nat),
        pow2(52) <= q < pow2(53),
    ensures
        r == f64_size(num, den, mul as nat),
{
    let ghost mn = mul as nat;
    let ghost sn = num * pow2(u as nat);
    let ghost sd = 2 * den;
    proof {
        // the scale is the one `f64_size` chooses
        assert(in_binade(num, den, u as nat));
        let uc = choose|v: nat| v <= 87 && in_binade(num, den, v);
        assert(uc <= 87 && in_binade(num, den, uc));
        if uc < u {
            assert(binade_floor(num, den, uc) < pow2(52));
        } else if uc > u {
            lemma_binade_grows(num, den, u as nat, uc);
        }
        assert(uc == u);
        vstd::arithmetic::power2::lemma2_to64();
        vstd::arithmetic::power2::lemma2_to64_rest();
        lemma_pow10_bounds();
        lemma_pow10_pos((c@.len() - 1 - u) as nat);
        // the exponent is not capped here
        if ev > EXP_CAP {
            if eneg {
                let m0 = (-k) as nat;
                assert(c@.len() < 0x1_0000_0000_0000_0000);
                assert(EXP_CAP == 0x4_0000_0000_0000_0000u128);
                assert(m0 == ev + fl);
                assert(ev > 0x4_0000_0000_0000_0000);
                assert(m0 >= 0x4_0000_0000_0000_0000);
                let lead = c@.len() - 1 - u;
                assert(lead + 11 < 0x4_0000_0000_0000_0000);
                assert(((c@.len() - 1 - u) + 11) as nat <= m0);
                lemma_pow10_mono(((c@.len() - 1 - u) + 11) as nat, m0);
                lemma_pow10_add((c@.len() - 1 - u) as nat, 10);
                assert(10 * num * mn < den) by (nonlinear_arith)
                    requires
                        num == d,
                        d < pow10((c@.len() - 1 - u) as nat),
                        mn <= GB,
                        GB < pow10(10),
                        pow10(((c@.len() - 1 - u) + 10) as nat) == pow10((c@.len() - 1 - u) as nat) * pow10(10),
                        10 * pow10(((c@.len() - 1 - u) + 10) as nat) == pow10(((c@.len() - 1 - u) + 11) as nat),
                        pow10(((c@.len() - 1 - u) + 11) as nat) <= den;
            } else {
                assert(d >= 1) by (nonlinear_arith)
                    requires 10 * num * mn >= den, den > 0, num == d * pow10(k as nat);
                lemma_pow10_mono(20, k as nat);
                assert(num * mn >= u64::MAX * den) by (nonlinear_arith)
                    requires num == d * pow10(k as nat), d >= 1, pow10(k as nat) >= pow10(20), pow10(20) > u64::MAX, mn >= 1, den == 1;
            }
        }
        assert(emag == ev);
    }
    let kx: i128 = (if eneg { 0 - (emag as i128) } else { emag as i128 }) - (fl as i128);
    assert(kx == k);
    let mut n: u64 = q;
    if kx >= 1 {
        proof {
            lemma_binade_digits(d, k, u as nat, digits_value(c@));
            vstd::arithmetic::div_mod::lemma_fundamental_div_mod(sn as int, sd as int);
            assert(round_even(num, den, u as nat) == q);
        }
    } else {
        proof {
            lemma_binade_digits(d, k, u as nat, digits_value(c@));
        }
        let m0 = (0 - kx) as u128;
        // m = 1 - k fraction digits; fewer than the digits of `c`
        proof {
            let lead = (c@.len() - 1 - u) as nat;
            assert(num == d) by {
                if k == 0 {
                    assert(pow10(0) == 1);
                    assert(d * 1 == d);
                }
            }
            assert((1 - k) as nat == (m0 + 1) as nat);
            if m0 + 1 >= c@.len() {
                lemma_pow10_mono(lead, (m0 + 1) as nat);
                lemma_digits_value_bound(c@);
                lemma_pow10_mono(c@.len(), (m0 + 1) as nat);
                vstd::arithmetic::div_mod::lemma_basic_div_specific_divisor(pow10((m0 + 1) as nat) as int);
                assert(digits_value(c@) / pow10((m0 + 1) as nat) == 0);
                assert(false);
            }
        }
        let m = (m0 + 1) as usize;
        let nc = c.len();
        let p = nc - m;
        proof {
            lemma_digits_value_split(c@, p as int);
            assert forall|i: int| 0 <= i < c@.skip(p as int).len() implies is_digit(#[trigger] c@.skip(p as int)[i]) by {
                assert(c@.skip(p as int)[i] == c@[p + i]);
            }
            lemma_digits_value_bound(c@.skip(p as int));
            assert(c@.skip(p as int).len() == m);
            vstd::arithmetic::div_mod::lemma_fundamental_div_mod_converse(
                digits_value(c@) as int, pow10(m as nat) as int,
                digits_value(c@.take(p as int)) as int, digits_value(c@.skip(p as int)) as int);
            lemma_half_digits(c@, p as int);
            vstd::arithmetic::div_mod::lemma_fundamental_div_mod(sn as int, sd as int);
            vstd::arithmetic::div_mod::lemma_mod_pos_bound(sn as int, sd as int);
        }
        assert(is_digit(c@[p as int]));
        let f0 = (c[p] as u32) - ('0' as u32);
        assert(c@.subrange(p + 1, nc as int) =~= c@.skip(p + 1));
        assert forall|i: int| 0 <= i < c@.subrange(p + 1, nc as int).len() implies is_digit(#[trigger] c@.subrange(p + 1, nc as int)[i]) by {
            assert(c@.subrange(p + 1, nc as int)[i] == c@[p + 1 + i]);
        }
        let rest = digits_capped(c, p + 1, nc, 1);
        let up = f0 > 5 || (f0 == 5 && (rest > 0 || q % 2 == 1));
        proof {
            let f = digits_value(c@.skip(p as int));
            let rr = sn % sd;
            assert(f == 5 * rr);
            assert(pow10(m as nat) == 5 * sd);
            assert((2 * f > pow10(m as nat)) == (2 * rr > sd)) by (nonlinear_arith)
                requires f == 5 * rr, pow10(m as nat) == 5 * sd;
            assert((2 * f == pow10(m as nat)) == (2 * rr == sd)) by (nonlinear_arith)
                requires f == 5 * rr, pow10(m as nat) == 5 * sd;
            assert(sn / sd == q);
            assert(round_even(num, den, u as nat) == if up { (q + 1) as nat } else { q as nat });
        }
        if up {
            n = q + 1;
        }
    }
    assert(n as nat == round_even(num, den, u as nat));
    assert((n as u128) * (mul as u128) * 2 <= 0x20_0000_0000_0000u128 * 0x4000_0000u128 * 2) by (nonlinear_arith)
        requires n <= 0x20_0000_0000_0000u64, mul <= 0x4000_0000u64;
    let x: u128 = (n as u128) * (mul as u128) * 2;
    let w = halve_times(x, u);
    if w > 0xFFFF_FFFF_FFFF_FFFFu128 {
        0xFFFF_FFFF_FFFF_FFFFu64
    } else {
        w as u64
    }
}

/// `x` halved `u` times, rounded down each time: `x / 2^u`.
fn halve_times(x: u128, u: u32) -> (r: u128)
    ensures
        r == x as nat / pow2(u as nat),
{
    let mut acc = x;
    let mut i: u32 = 0;
    proof {
        vstd::arithmetic::power2::lemma2_to64();
    }
    while i < u
        invariant
            i <= u,
            acc == x as nat / pow2(i as nat),
        decreases u - i,
    {
        proof {
            vstd::arithmetic::power2::lemma_pow2_pos(i as nat);
            vstd::arithmetic::div_mod::lemma_div_denominator(x as int, pow2(i as nat) as int, 2);
            vstd::arithmetic::power2::lemma_pow2_unfold((i + 1) as nat);
            assert(pow2(i as nat) * 2 == pow2((i + 1) as nat));
        }
        acc = acc / 2;
        i = i + 1;
    }
    acc
}

/// The digits `g`, of which the last `fl` follow the point, times ten to
/// the `±ev`, read as an `f64` and multiplied by `mul` (see `f64_size`);
/// `emag` is `ev` capped at `EXP_CAP`.
#[verifier::rlimit(60)]
fn f64_digits(g: &Vec<char>, fl: usize, eneg: bool, emag: u128, Ghost(ev): Ghost<nat>, mul: u64) -> (r: u64)
    requires
        all_digits(g@),
        fl <= g@.len(),
        g@.len() + 100 < usize::MAX,
        KB <= mul <= GB,
        emag == (if ev > EXP_CAP { EXP_CAP as nat } else { ev }),
    ensures
        r == f64_size(
            num_of(digits_value(g@), (if eneg { -ev } else { ev as int }) - fl),
            den_of((if eneg { -ev } else { ev as int }) - fl),
            mul as nat,
        ),
{
    let ghost d = digits_value(g@);
    let ghost k: int = (if eneg { -ev } else { ev as int }) - fl;
    let ghost num = num_of(d, k);
    let ghost den = den_of(k);
    let ghost mn = mul as nat;
    let w = shift_digits(g, fl, eneg, emag, Ghost(ev), mul);
    proof {
        lemma_shifted_frac(d, mn, k);
        lemma_div_ge(num * mn, u64::MAX as nat, den);
    }
    if w == 0xFFFF_FFFF_FFFF_FFFFu64 {
        return 0xFFFF_FFFF_FFFF_FFFFu64;
    }
    assert(num * mn < u64::MAX * den);
    let g10 = with_zero(g, false);
    let w10 = shift_digits(&g10, fl, eneg, emag, Ghost(ev), mul);
    proof {
        lemma_shifted_frac(10 * d, mn, k);
        if k >= 0 {
            assert(num_of(10 * d, k) == 10 * num) by (nonlinear_arith)
                requires num == d * pow10(k as nat), num_of(10 * d, k) == (10 * d) * pow10(k as nat);
        }
        assert(num_of(10 * d, k) * mn == 10 * num * mn) by (nonlinear_arith)
            requires num_of(10 * d, k) == 10 * num;
        lemma_div_ge(10 * num * mn, 1, den);
    }
    if w10 == 0 {
        return 0;
    }
    assert(10 * num * mn >= den);
    proof {
        vstd::arithmetic::power2::lemma2_to64();
        vstd::arithmetic::power2::lemma2_to64_rest();
        assert(num * 1024 < pow2(64) * den) by (nonlinear_arith)
            requires num * mn < u64::MAX * den, mn >= 1024, pow2(64) == u64::MAX + 1;
        assert(num * pow2(0) == num);
    }
    assert(binade_floor(num, den, 0) < pow2(53)) by {
        vstd::arithmetic::power2::lemma2_to64();
        vstd::arithmetic::power2::lemma2_to64_rest();
        assert(pow2(53) * (2 * den) * 1024 == pow2(64) * den) by (nonlinear_arith)
            requires pow2(53) * 2048 == pow2(64);
        assert(num < pow2(53) * (2 * den)) by (nonlinear_arith)
            requires num * 1024 < pow2(64) * den, pow2(53) * (2 * den) * 1024 == pow2(64) * den;
        lemma_div_ge(num * pow2(0), pow2(53), 2 * den);
    }
    let mut c = digits_times(g, 5);
    let mut u: u32 = 0;
    proof {
        vstd::arithmetic::power2::lemma2_to64();
        assert(digits_value(c@) == d * 5 * pow2(0));
    }
    loop
        invariant
            u <= 87,
            all_digits(g@),
            all_digits(c@),
            fl <= g@.len(),
            g@.len() + 100 < usize::MAX,
            c@.len() == g@.len() + 1 + u,
            KB <= mul <= GB,
            mn == mul as nat,
            emag == (if ev > EXP_CAP { EXP_CAP as nat } else { ev }),
            d == digits_value(g@),
            k == (if eneg { -ev } else { ev as int }) - fl,
            num == num_of(d, k),
            den == den_of(k),
            den > 0,
            num * mn < u64::MAX * den,
            10 * num * mn >= den,
            digits_value(c@) == d * 5 * pow2(u as nat),
            forall|v: nat| v < u ==> #[trigger] binade_floor(num, den, v) < pow2(52),
            binade_floor(num, den, u as nat) < pow2(53),
        decreases 87 - u,
    {
        let c0 = with_zero(&c, true);
        let q = shift_digits(&c0, fl + 1, eneg, emag, Ghost(ev), 1);
        proof {
            lemma_binade_digits(d, k, u as nat, digits_value(c@));
            assert(digits_value(c0@) * 1 == digits_value(c@));
            assert((if eneg { -ev } else { ev as int }) - (fl + 1) == k - 1);
            assert(q == shifted(digits_value(c@), k - 1));
            vstd::arithmetic::power2::lemma2_to64();
            vstd::arithmetic::power2::lemma2_to64_rest();
        }
        if q >= 0x10_0000_0000_0000u64 {
            assert(q as nat == binade_floor(num, den, u as nat));
            proof {
                assert(pow2(53) == 2 * pow2(52)) by {
                    vstd::arithmetic::power2::lemma_pow2_unfold(53);
                }
                vstd::arithmetic::power2::lemma2_to64();
                lemma_digits_value_bound(g@);
            }
            return f64_round(&c, q, u, fl, eneg, emag, Ghost(ev), mul, Ghost(d), Ghost(k), Ghost(num), Ghost(den));
        }
        if u == 87 {
            proof {
                vstd::arithmetic::power2::lemma2_to64();
                vstd::arithmetic::power2::lemma2_to64_rest();
                vstd::arithmetic::power2::lemma_pow2_adds(30, 57);
                assert(pow2(87) == pow2(30) * pow2(57));
                assert(num * pow2(87) >= pow2(52) * (2 * den)) by (nonlinear_arith)
                    requires
                        10 * num * mn >= den,
                        mn <= pow2(30),
                        pow2(87) == pow2(30) * pow2(57),
                        pow2(57) == 32 * pow2(52),
                        num >= 0;
                lemma_div_ge(num * pow2(87), pow2(52), 2 * den);
            }
            return 0;
        }
        proof {
            lemma_binade_step(num, den, u as nat);
            vstd::arithmetic::power2::lemma_pow2_unfold((u + 1) as nat);
            assert(d * 5 * pow2((u + 1) as nat) == 2 * (d * 5 * pow2(u as nat))) by (nonlinear_arith)
                requires pow2((u + 1) as nat) == 2 * pow2(u as nat);
            assert(pow2(53) == 2 * pow2(52)) by {
                vstd::arithmetic::power2::lemma_pow2_unfold(53);
            }
        }
        c = digits_times(&c, 2);
        u = u + 1;
    }
}

/// Which special value `t[from..to]` spells: 1 for infinity, 2 for NaN, 0
/// for neither.
fn special_float(t: &Vec<char>, from: usize, to: usize) -> (r: u8)
    requires
        from <= to <= t@.len(),
    ensures
        (r == 1) == is_inf_text(t@.subrange(from as int, to as int)),
        (r == 2) == is_nan_text(t@.subrange(from as int, to as int)),
        r <= 2,
{
    let ghost body = t@.subrange(from as int, to as int);
    let bl = to - from;
    let c1 = from;
    if bl == 3 {
        assert(body[0] == t@[c1 as int] && body[1] == t@[c1 + 1] && body[2] == t@[c1 + 2]);
    }
    if bl == 8 {
        assert(body[0] == t@[c1 as int] && body[1] == t@[c1 + 1] && body[2] == t@[c1 + 2]);
        assert(body[3] == t@[c1 + 3] && body[4] == t@[c1 + 4] && body[5] == t@[c1 + 5]);
        assert(body[6] == t@[c1 + 6] && body[7] == t@[c1 + 7]);
    }
    if (bl == 3 && t[c1] == 'i' && t[c1 + 1] == 'n' && t[c1 + 2] == 'f')
        || (bl == 8 && t[c1] == 'i' && t[c1 + 1] == 'n' && t[c1 + 2] == 'f' && t[c1 + 3] == 'i'
            && t[c1 + 4] == 'n' && t[c1 + 5] == 'i' && t[c1 + 6] == 't' && t[c1 + 7] == 'y') {
        return 1;
    }
    if bl == 3 && t[c1] == 'n' && t[c1 + 1] == 'a' && t[c1 + 2] == 'n' {
        return 2;
    }
    0
}

/// The finite number `t[c1..d]` spells in the `f64` grammar, times `mul`:
/// 0 when `neg`, else rounded down and capped at `u64::MAX`; `None` when it
/// spells none.
#[verifier::rlimit(30)]
fn finite_size(t: &Vec<char>, c1: usize, d: usize, neg: bool, mul: u64) -> (r: Option<u64>)
    requires
        c1 <= d <= t@.len(),
        KB <= mul <= GB,
    ensures
        r == (match finite_parts(t@.subrange(c1 as int, d as int)) {
            Some((ip, fp, e)) => Some(if neg {
                0
            } else if (ip + fp).len() + 100 >= usize::MAX {
                shifted(digits_value(ip + fp) * (mul as nat), e - fp.len())
            } else {
                f64_size(num_of(digits_value(ip + fp), e - fp.len()), den_of(e - fp.len()), mul as nat)
            }),
            None => None,
        }),
{
    let ghost body = t@.subrange(c1 as int, d as int);
    let e_at = find_char(t, c1, d, 'e');
    let ghost mant = body.take(e_at - c1);
    assert(mant =~= t@.subrange(c1 as int, e_at as int));
    let dot = find_char(t, c1, e_at, '.');
    let fs = if dot < e_at { dot + 1 } else { e_at };
    assert(mant.take(dot - c1) =~= t@.subrange(c1 as int, dot as int));
    assert(dot < e_at ==> mant.skip(dot - c1 + 1) =~= t@.subrange(fs as int, e_at as int));
    assert(dot == e_at ==> t@.subrange(fs as int, e_at as int) =~= Seq::<char>::empty());
    let xs = if e_at < d {
        if e_at + 1 < d && (t[e_at + 1] == '-' || t[e_at + 1] == '+') { e_at + 2 } else { e_at + 1 }
    } else {
        d
    };
    let eneg = e_at < d && e_at + 1 < d && t[e_at + 1] == '-';
    let ghost x: Seq<char> = if e_at < d { body.skip(e_at - c1 + 1) } else { Seq::empty() };
    assert(e_at < d ==> x =~= t@.subrange(e_at + 1, d as int));
    assert(unsigned_part(x) =~= t@.subrange(xs as int, d as int));
    assert(eneg == (x.len() > 0 && x[0] == '-'));
    if !all_digits_range(t, c1, dot) || !all_digits_range(t, fs, e_at) || (dot - c1) + (e_at - fs) == 0 {
        return None;
    }
    if e_at < d && (xs == d || !all_digits_range(t, xs, d)) {
        return None;
    }
    if neg {
        return Some(0);
    }
    assert(t@.subrange(d as int, d as int) =~= Seq::<char>::empty());
    assert(all_digits(t@.subrange(xs as int, d as int)));
    let emag = digits_capped(t, xs, d, EXP_CAP);
    let g = concat_ranges(t, c1, dot, fs, e_at);
    let ghost ip = t@.subrange(c1 as int, dot as int);
    let ghost fp = t@.subrange(fs as int, e_at as int);
    assert forall|i: int| 0 <= i < g@.len() implies is_digit(#[trigger] g@[i]) by {
        if i < ip.len() {
            assert(g@[i] == ip[i]);
        } else {
            assert(g@[i] == fp[i - ip.len()]);
        }
    }
    let ghost ev = digits_value(t@.subrange(xs as int, d as int));
    if g.len() >= usize::MAX - 100 {
        return Some(shift_digits(&g, e_at - fs, eneg, emag, Ghost(ev), mul));
    }
    Some(f64_digits(&g, e_at - fs, eneg, emag, Ghost(ev), mul))
}

/// A number of `mul`-byte units read from `t[0..end]` (trimmed) in the `f64`
/// grammar, as `size_number` reads it.
fn parse_scaled(t: &Vec<char>, end: usize, mul: u64) -> (r: Option<u64>)
    requires
        end <= t@.len(),
        KB <= mul <= GB,
    ensures
        r == size_number(trim_ws(t@.take(end as int)), mul as nat),
{
    assert(t@.take(end as int) =~= t@.subrange(0, end as int));
    let (c, d) = trim_range(t, 0, end);
    let ghost tt = t@.subrange(c as int, d as int);
    let neg = c < d && t[c] == '-';
    let c1 = if c < d && (t[c] == '-' || t[c] == '+') { c + 1 } else { c };
    assert(t@.subrange(c1 as int, d as int) =~= unsigned_part(tt));
    let sp = special_float(t, c1, d);
    if sp == 1 {
        return Some(if neg { 0 } else { 0xFFFF_FFFF_FFFF_FFFFu64 });
    }
    if sp == 2 {
        return Some(0);
    }
    finite_size(t, c1, d, neg, mul)
}

/// A size in bytes: plain digits, or a number followed by `k`/`kb`, `m`/`mb`
/// or `g`/`gb` (KiB, MiB, GiB; case and `_` are ignored). The number takes
/// the form `str::parse::<f64>` accepts (sign, fraction, exponent, `inf`,
/// `infinity`, `nan`), and the product is cast as `as u64` casts a float:
/// infinity and values past the top give `u64::MAX`, NaN and negative
/// numbers give 0. The number is first rounded as `f64` rounds it (to 53
/// significant bits, ties to even), so the result is what multiplying in
/// `f64` gives. `None` when the text is none of these.
pub fn parse_size(raw: &str) -> (r: Option<u64>)
    ensures
        r == parse_size_spec(raw@),
{
    let cs = chars_of(raw);
    let (a, b) = trim_range(&cs, 0, cs.len());
    assert(cs@.subrange(0, cs@.len() as int) =~= raw@);
    let t = size_chars(&cs, a, b);
    let n = t.len();
    if n == 0 {
        return None;
    }
    let (sl, mul) = suffix_of(&t);
    if sl == 0 {
        assert(t@.subrange(0, n as int) =~= t@);
        return parse_unsigned_range(&t, 0, n, u64::MAX);
    }
    parse_scaled(&t, n - sl, mul)
}


// ------------------------------------------------------------ file values

/// The `key=value` settings of a configuration file.
#[derive(Debug, Clone)]
pub struct FileConfig {
    pub values: ConfMap,
}

impl Default for FileConfig {
    fn default() -> (r: Self)
        ensures
            r.values@ == Map::<Seq<char>, Seq<char>>::empty(),
    {
        FileConfig { values: ConfMap::new() }
    }
}

/// The value set for `key`, if any.
pub open spec fn conf_get(m: Map<Seq<char>, Seq<char>>, key: Seq<char>) -> Option<Seq<char>> {
    if m.dom().contains(key) {
        Some(m[key])
    } else {
        None
    }
}

/// The value set for `key`, read as an unsigned number no greater than `max`.
pub open spec fn conf_unsigned(m: Map<Seq<char>, Seq<char>>, key: Seq<char>, max: nat) -> Option<nat> {
    match conf_get(m, key) {
        Some(v) => parse_unsigned(v, max),
        None => None,
    }
}

/// The value set for `key`, read as a size.
pub open spec fn conf_size(m: Map<Seq<char>, Seq<char>>, key: Seq<char>) -> Option<u64> {
    match conf_get(m, key) {
        Some(v) => parse_size_spec(v),
        None => None,
    }
}

/// `str::parse` of an unsigned number no greater than `max`.
pub fn parse_unsigned_str(s: &str, max: u64) -> (r: Option<u64>)
    ensures
        r == (match parse_unsigned(s@, max as nat) {
            Some(v) => Some(v as u64),
            None => None,
        }),
{
    let cs = chars_of(s);
    assert(cs@.subrange(0, cs@.len() as int) =~= s@);
    parse_unsigned_range(&cs, 0, cs.len(), max)
}

impl FileConfig {
    /// The value set for `key`.
    pub fn get_str(&self, key: &str) -> (r: Option<&str>)
        ensures
            match r {
                Some(v) => conf_get(self.values@, key@) == Some(v@),
                None => conf_get(self.values@, key@) is None,
            },
    {
        match self.values.get(key) {
            Some(v) => Some(v.as_str()),
            None => None,
        }
    }

    /// The value set for `key`, as a `usize`.
    pub fn get_usize(&self, key: &str) -> (r: Option<usize>)
        ensures
            match r {
                Some(v) => conf_unsigned(self.values@, key@, usize::MAX as nat) == Some(v as nat),
                None => conf_unsigned(self.values@, key@, usize::MAX as nat) is None,
            },
    {
        match self.get_str(key) {
            Some(v) => match parse_unsigned_str(v, usize::MAX as u64) {
                Some(n) => Some(n as usize),
                None => None,
            },
            None => None,
        }
    }

    /// The value set for `key`, as a size in bytes (see `parse_size`).
    pub fn get_u64(&self, key: &str) -> (r: Option<u64>)
        ensures
            r == conf_size(self.values@, key@),
    {
        match self.get_str(key) {
            Some(v) => parse_size(v),
            None => None,
        }
    }

    /// The value set for `key`, as a `u16`.
    pub fn get_u16(&self, key: &str) -> (r: Option<u16>)
        ensures
            match r {
                Some(v) => conf_unsigned(self.values@, key@, u16::MAX as nat) == Some(v as nat),
                None => conf_unsigned(self.values@, key@, u16::MAX as nat) is None,
            },
    {
        match self.get_str(key) {
            Some(v) => match parse_unsigned_str(v, u16::MAX as u64) {
                Some(n) => Some(n as u16),
                None => None,
            },
            None => None,
        }
    }
}

// ------------------------------------------------------------- addresses

/// `host:port`, with an IPv6 host (one that holds `:` and is not already
/// in brackets) put in brackets; the host is trimmed first.
pub open spec fn socket_addr(host: Seq<char>, port: u16) -> Seq<char> {
    let h = trim_ws(host);
    if h.len() > 0 && h[0] == '[' {
        h + seq![':'] + decimal(port as nat)
    } else if h.contains(':') {
        seq!['['] + h + seq![']', ':'] + decimal(port as nat)
    } else {
        h + seq![':'] + decimal(port as nat)
    }
}

/// Whether `cs[from..to]` holds `c`.
fn contains_char(cs: &Vec<char>, from: usize, to: usize, c: char) -> (r: bool)
    requires
        from <= to <= cs@.len(),
    ensures
        r == cs@.subrange(from as int, to as int).contains(c),
{
    let mut i = from;
    while i < to
        invariant
            from <= i <= to <= cs@.len(),
            forall|j: int| from <= j < i ==> cs@[j] != c,
        decreases to - i,
    {
        if cs[i] == c {
            assert(cs@.subrange(from as int, to as int)[i - from] == c);
            return true;
        }
        i = i + 1;
    }
    assert forall|j: int| 0 <= j < to - from implies cs@.subrange(from as int, to as int)[j] != c by {
        assert(cs@.subrange(from as int, to as int)[j] == cs@[from + j]);
    }
    false
}

/// `host:port`, bracketing an IPv6 host (`::1` → `[::1]:port`).
pub fn format_socket_addr(host: &str, port: u16) -> (r: String)
    ensures
        r@ == socket_addr(host@, port),
{
    let cs = chars_of(host);
    assert(cs@.subrange(0, cs@.len() as int) =~= host@);
    let (a, b) = trim_range(&cs, 0, cs.len());
    let ghost h = cs@.subrange(a as int, b as int);
    let mut out = String::new();
    let bracketed = a < b && cs[a] == '[';
    let colon = contains_char(&cs, a, b, ':');
    if !bracketed && colon {
        string_push(&mut out, '[');
    }
    push_char_range(&mut out, &cs, a, b);
    if !bracketed && colon {
        string_push(&mut out, ']');
    }
    string_push(&mut out, ':');
    let ghost before = out@;
    push_decimal(&mut out, port as u64);
    proof {
        if !bracketed && colon {
            assert(out@ =~= seq!['['] + h + seq![']', ':'] + decimal(port as nat));
        } else {
            assert(out@ =~= h + seq![':'] + decimal(port as nat));
        }
    }
    out
}


// --------------------------------------------------------------- resolving

#[verifier::external_type_specification]
#[verifier::external_body]
pub struct ExPathBuf(PathBuf);

/// The host bound when neither the command line nor the file names one.
pub const DEFAULT_HOST: &'static str = "0.0.0.0";

/// Values given on the command line; each one that is set wins over the file.
#[derive(Debug, Clone)]
pub struct CliOverrides {
    pub host: Option<String>,
    pub control_port: Option<u16>,
    pub metrics_port: Option<u16>,
    pub history_interval_ms: Option<u64>,
    pub history_cap: Option<usize>,
    pub dashboard_dir: Option<String>,
}

impl Default for CliOverrides {
    fn default() -> (r: Self)
        ensures
            r.host is None,
            r.control_port is None,
            r.metrics_port is None,
            r.history_interval_ms is None,
            r.history_cap is None,
            r.dashboard_dir is None,
    {
        CliOverrides {
            host: None,
            control_port: None,
            metrics_port: None,
            history_interval_ms: None,
            history_cap: None,
            dashboard_dir: None,
        }
    }
}

/// The configuration the server runs with.
#[derive(Debug, Clone)]
pub struct ResolvedConfig {
    pub config_path: Option<PathBuf>,
    pub host: String,
    pub control_port: u16,
    pub metrics_port: u16,
    pub control: String,
    pub metrics: String,
    pub history_interval_ms: u64,
    pub history_cap: usize,
    /// A directory of dashboard files to serve in place of the built-in ones.
    pub dashboard_dir: Option<String>,
}

/// What the file (if any) sets for `key`.
pub open spec fn file_get(file: Option<&FileConfig>, key: Seq<char>) -> Option<Seq<char>> {
    match file {
        Some(f) => conf_get(f.values@, key),
        None => None,
    }
}

/// The host: the command line's, else the file's `host`, else `0.0.0.0`.
pub open spec fn bind_host(cli: &CliOverrides, file: Option<&FileConfig>) -> Seq<char> {
    match cli.host {
        Some(h) => h@,
        None => match file_get(file, "host"@) {
            Some(v) => v,
            None => DEFAULT_HOST@,
        },
    }
}

/// A port: the command line's, else the file's value for `key` when it reads
/// as a `u16`, else `default`.
pub open spec fn bind_port(cli: Option<u16>, file: Option<&FileConfig>, key: Seq<char>, default: u16) -> u16 {
    match cli {
        Some(p) => p,
        None => match file {
            Some(f) => match conf_unsigned(f.values@, key, u16::MAX as nat) {
                Some(v) => v as u16,
                None => default,
            },
            None => default,
        },
    }
}

/// Host, control port and metrics port: each from the command line, else
/// the file, else its default.
pub fn resolve_bind(cli: &CliOverrides, file: Option<&FileConfig>) -> (r: (String, u16, u16))
    ensures
        r.0@ == bind_host(cli, file),
        r.1 == bind_port(cli.control_port, file, "control_port"@, DEFAULT_CONTROL_PORT),
        r.2 == bind_port(cli.metrics_port, file, "metrics_port"@, DEFAULT_METRICS_PORT),
{
    let host = match &cli.host {
        Some(h) => h.clone(),
        None => {
            let from_file = match file {
                Some(f) => f.get_str("host"),
                None => None,
            };
            match from_file {
                Some(v) => v.to_owned(),
                None => DEFAULT_HOST.to_owned(),
            }
        },
    };
    let control_port = match cli.control_port {
        Some(p) => p,
        None => {
            let from_file = match file {
                Some(f) => f.get_u16("control_port"),
                None => None,
            };
            match from_file {
                Some(p) => p,
                None => DEFAULT_CONTROL_PORT,
            }
        },
    };
    let metrics_port = match cli.metrics_port {
        Some(p) => p,
        None => {
            let from_file = match file {
                Some(f) => f.get_u16("metrics_port"),
                None => None,
            };
            match from_file {
                Some(p) => p,
                None => DEFAULT_METRICS_PORT,
            }
        },
    };
    (host, control_port, metrics_port)
}

/// The history interval: the command line's, else the file's size value,
/// else the default.
pub open spec fn pick_interval(cli: &CliOverrides, file: Option<&FileConfig>) -> u64 {
    match cli.history_interval_ms {
        Some(v) => v,
        None => match file {
            Some(f) => match conf_size(f.values@, "history_interval_ms"@) {
                Some(v) => v,
                None => DEFAULT_HISTORY_INTERVAL_MS,
            },
            None => DEFAULT_HISTORY_INTERVAL_MS,
        },
    }
}

/// The history length: the command line's, else the file's, else the default.
pub open spec fn pick_cap(cli: &CliOverrides, file: Option<&FileConfig>) -> usize {
    match cli.history_cap {
        Some(v) => v,
        None => match file {
            Some(f) => match conf_unsigned(f.values@, "history_cap"@, usize::MAX as nat) {
                Some(v) => v as usize,
                None => DEFAULT_HISTORY_CAP,
            },
            None => DEFAULT_HISTORY_CAP,
        },
    }
}

/// Command line over file over defaults, for every setting.
pub fn resolve(file: Option<&FileConfig>, config_path: Option<PathBuf>, cli: CliOverrides) -> (r: ResolvedConfig)
    ensures
        r.config_path == config_path,
        r.host@ == bind_host(&cli, file),
        r.control_port == bind_port(cli.control_port, file, "control_port"@, DEFAULT_CONTROL_PORT),
        r.metrics_port == bind_port(cli.metrics_port, file, "metrics_port"@, DEFAULT_METRICS_PORT),
        r.control@ == socket_addr(r.host@, r.control_port),
        r.metrics@ == socket_addr(r.host@, r.metrics_port),
        r.history_interval_ms == pick_interval(&cli, file),
        r.history_cap == pick_cap(&cli, file),
        match cli.dashboard_dir {
            Some(d) => r.dashboard_dir == Some(d),
            None => match file_get(file, "dashboard_dir"@) {
                Some(v) => r.dashboard_dir is Some && r.dashboard_dir.unwrap()@ == v,
                None => r.dashboard_dir is None,
            },
        },
{
    let dashboard_dir = match &cli.dashboard_dir {
        Some(d) => Some(d.clone()),
        None => {
            let from_file = match file {
                Some(f) => f.get_str("dashboard_dir"),
                None => None,
            };
            match from_file {
                Some(v) => Some(v.to_owned()),
                None => None,
            }
        },
    };
    let (host, control_port, metrics_port) = resolve_bind(&cli, file);
    let control = format_socket_addr(host.as_str(), control_port);
    let metrics = format_socket_addr(host.as_str(), metrics_port);
    let history_interval_ms = match cli.history_interval_ms {
        Some(v) => v,
        None => {
            let from_file = match file {
                Some(f) => f.get_u64("history_interval_ms"),
                None => None,
            };
            match from_file {
                Some(v) => v,
                None => DEFAULT_HISTORY_INTERVAL_MS,
            }
        },
    };
    let history_cap = match cli.history_cap {
        Some(v) => v,
        None => {
            let from_file = match file {
                Some(f) => f.get_usize("history_cap"),
                None => None,
            };
            match from_file {
                Some(v) => v,
                None => DEFAULT_HISTORY_CAP,
            }
        },
    };
    ResolvedConfig {
        config_path,
        host,
        control_port,
        metrics_port,
        control,
        metrics,
        history_interval_ms,
        history_cap,
        dashboard_dir,
    }
}

} // verus!
