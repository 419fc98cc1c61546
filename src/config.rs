use vstd::prelude::*;
use vstd::std_specs::iter::IteratorSpec;

verus! {

pub const SECS_PER_MINUTE: i64 = 60;
pub const SECS_PER_HOUR: i64 = 3600;
pub const SECS_PER_DAY: i64 = 86400;
pub const SECS_PER_WEEK: i64 = 604800;

/// A span of time written as a count of one unit, as in "24h" or "3d".
#[derive(Clone, Copy, Debug, Hash, PartialEq, Eq, Structural)]
pub enum SimpleDuration {
    Weeks(i64),
    Days(i64),
    Hours(i64),
    Minutes(i64),
    Seconds(i64),
}

/// The length of a duration in seconds, as a mathematical integer.
pub open spec fn seconds_of(d: SimpleDuration) -> int {
    match d {
        SimpleDuration::Weeks(w) => w * SECS_PER_WEEK,
        SimpleDuration::Days(d) => d * SECS_PER_DAY,
        SimpleDuration::Hours(h) => h * SECS_PER_HOUR,
        SimpleDuration::Minutes(m) => m * SECS_PER_MINUTE,
        SimpleDuration::Seconds(s) => s as int,
    }
}

pub open spec fn fits_i64(x: int) -> bool {
    i64::MIN <= x <= i64::MAX
}

impl SimpleDuration {
    /// The duration in seconds, or `None` where that does not fit in an `i64`.
    pub fn to_seconds(&self) -> (r: Option<i64>)
        ensures
            r is Some <==> fits_i64(seconds_of(*self)),
            r matches Some(v) ==> v == seconds_of(*self),
    {
        match *self {
            SimpleDuration::Weeks(w) => w.checked_mul(SECS_PER_WEEK),
            SimpleDuration::Days(d) => d.checked_mul(SECS_PER_DAY),
            SimpleDuration::Hours(h) => h.checked_mul(SECS_PER_HOUR),
            SimpleDuration::Minutes(m) => m.checked_mul(SECS_PER_MINUTE),
            SimpleDuration::Seconds(s) => Some(s),
        }
    }
}

/// One row of the retention policy as it is configured.
#[derive(Clone, Copy, Debug, Hash, PartialEq, Eq, Structural)]
pub struct ConfPeriod {
    /// The total duration of this period
    pub period_length: SimpleDuration,
    /// The size of chunks in this period. Each chunk should hold 1 file.
    pub chunk_size: SimpleDuration,
}

/// The run's configuration: where the backups lie, how to remove one, and the
/// retention policy.
#[derive(Clone, Debug)]
pub struct Config {
    /// The folder from which to reap
    pub path: String,
    /// Whether to treat the files as btrfs subvolumes
    pub btrfs: bool,
    pub periods: Vec<ConfPeriod>,
}

/// Why a configured tier cannot be used.
#[derive(Clone, Copy, Debug, PartialEq, Eq, Structural)]
pub enum PolicyError {
    /// The policy has no tier.
    EmptyPolicy,
    /// A duration, or the walk back from the reference instant, leaves the
    /// range of an `i64` number of seconds.
    DurationOverflow,
    /// A tier's chunk is zero or negative.
    ChunkNotPositive,
    /// A tier's chunk is longer than its period.
    ChunkExceedsPeriod,
}

/// A validated tier, both spans in seconds.
#[derive(Clone, Copy, Debug, PartialEq, Eq, Structural)]
pub struct Tier {
    pub period_length: i64,
    pub chunk_size: i64,
}

pub open spec fn tier_ok(t: Tier) -> bool {
    0 < t.chunk_size <= t.period_length
}

/// What a configured row becomes: a tier in seconds, or the reason it is refused.
pub open spec fn tier_of(p: ConfPeriod) -> Result<Tier, PolicyError> {
    let period = seconds_of(p.period_length);
    let chunk = seconds_of(p.chunk_size);
    if !fits_i64(period) || !fits_i64(chunk) {
        Err(PolicyError::DurationOverflow)
    } else if chunk <= 0 {
        Err(PolicyError::ChunkNotPositive)
    } else if period < chunk {
        Err(PolicyError::ChunkExceedsPeriod)
    } else {
        Ok(Tier { period_length: period as i64, chunk_size: chunk as i64 })
    }
}

impl ConfPeriod {
    /// Converts and validates this row.
    pub fn to_tier(&self) -> (r: Result<Tier, PolicyError>)
        ensures
            r == tier_of(*self),
    {
        let period = match self.period_length.to_seconds() {
            Some(v) => v,
            None => return Err(PolicyError::DurationOverflow),
        };
        let chunk = match self.chunk_size.to_seconds() {
            Some(v) => v,
            None => return Err(PolicyError::DurationOverflow),
        };
        if chunk <= 0 {
            Err(PolicyError::ChunkNotPositive)
        } else if period < chunk {
            Err(PolicyError::ChunkExceedsPeriod)
        } else {
            Ok(Tier { period_length: period, chunk_size: chunk })
        }
    }

    /// How many whole chunks fit in the period; 0 where the chunk is longer.
    pub fn chunk_count(&self) -> (r: i64)
        requires
            fits_i64(seconds_of(self.period_length)),
            fits_i64(seconds_of(self.chunk_size)),
            seconds_of(self.period_length) >= 0,
            seconds_of(self.chunk_size) > 0,
        ensures
            r == seconds_of(self.period_length) / seconds_of(self.chunk_size),
    {
        let period = match self.period_length.to_seconds() {
            Some(v) => v,
            None => 0,
        };
        let chunk = match self.chunk_size.to_seconds() {
            Some(v) => v,
            None => 1,
        };
        period / chunk
    }
}

/// The characters of `s`, in order.
pub fn chars_of(s: &str) -> (r: Vec<char>)
    ensures
        r@ == s@,
{
    broadcast use vstd::string::axiom_spec_iter, vstd::string::next_postcondition;

    let mut it = s.chars();
    let mut out: Vec<char> = Vec::new();
    loop
        invariant
            out@ + it.remaining() == s@,
            it.decrease() is Some,
        ensures
            out@ == s@,
        decreases it.decrease()->0,
    {
        match it.next() {
            Some(c) => {
                out.push(c);
            },
            None => {
                break;
            },
        }
    }
    out
}

/// Unicode's White_Space characters, which `char::is_whitespace` accepts.
pub open spec fn is_white(c: char) -> bool {
    ('\u{9}' <= c <= '\u{d}') || c == ' ' || c == '\u{85}' || c == '\u{a0}' || c == '\u{1680}'
        || ('\u{2000}' <= c <= '\u{200a}') || c == '\u{2028}' || c == '\u{2029}' || c == '\u{202f}'
        || c == '\u{205f}' || c == '\u{3000}'
}

fn is_white_char(c: char) -> (r: bool)
    ensures
        r == is_white(c),
{
    ('\u{9}' <= c && c <= '\u{d}') || c == ' ' || c == '\u{85}' || c == '\u{a0}' || c == '\u{1680}'
        || ('\u{2000}' <= c && c <= '\u{200a}') || c == '\u{2028}' || c == '\u{2029}' || c
        == '\u{202f}' || c == '\u{205f}' || c == '\u{3000}'
}

/// The index of the first character of `s` from `i` on that is not white space.
pub open spec fn first_non_white(s: Seq<char>, i: nat) -> nat
    decreases s.len() - i,
{
    if i < s.len() && is_white(s[i as int]) {
        first_non_white(s, i + 1)
    } else {
        i
    }
}

/// The end of `s[..j]` without its trailing white space.
pub open spec fn end_non_white(s: Seq<char>, j: int) -> int
    decreases j,
{
    if 0 < j <= s.len() && is_white(s[j - 1]) {
        end_non_white(s, j - 1)
    } else {
        j
    }
}

/// `s` without leading and trailing white space.
pub open spec fn trimmed(s: Seq<char>) -> Seq<char> {
    let a = first_non_white(s, 0) as int;
    let b = end_non_white(s, s.len() as int);
    if a < b {
        s.subrange(a, b)
    } else {
        Seq::empty()
    }
}

pub open spec fn is_digit(c: char) -> bool {
    '0' <= c <= '9'
}

/// The number that a run of decimal digits writes.
pub open spec fn digits_value(d: Seq<char>) -> int
    decreases d.len(),
{
    if d.len() == 0 {
        0
    } else {
        digits_value(d.drop_last()) * 10 + (d.last() as int - '0' as int)
    }
}

/// The unsigned number that `v` writes: an optional `+`, then one or more
/// decimal digits, of a value that fits in a `u64`.
pub open spec fn unsigned_value(v: Seq<char>) -> Option<int> {
    let d = unsigned_digits(v);
    if d.len() > 0 && all_digits(d) && digits_value(d) <= u64::MAX {
        Some(digits_value(d))
    } else {
        None
    }
}

/// `v` without a leading `+`.
pub open spec fn unsigned_digits(v: Seq<char>) -> Seq<char> {
    if v.len() > 0 && v[0] == '+' {
        v.drop_first()
    } else {
        v
    }
}

pub open spec fn all_digits(d: Seq<char>) -> bool {
    forall|i: int| 0 <= i < d.len() ==> is_digit(#[trigger] d[i])
}

/// Why a duration string is refused.
#[derive(Clone, Copy, Debug, PartialEq, Eq, Structural)]
pub enum DurationParseError {
    /// White space stands between the value and the unit, or inside either.
    ContainsWhitespace,
    /// Nothing but white space.
    Empty,
    /// The string ends in a digit: the unit is missing.
    MissingUnit,
    /// What comes before the unit is no unsigned decimal number.
    InvalidValue,
    /// The value does not fit in an `i64`.
    ValueTooLarge,
    /// The last character names no unit.
    UnknownUnit(char),
}

pub open spec fn to_ascii_lower(c: char) -> char {
    if 'A' <= c <= 'Z' {
        ((c as u32) + 32) as char
    } else {
        c
    }
}

/// The duration that a trimmed string writes: a count, then one unit letter
/// out of `s`, `m`, `h`, `d`, `w` in either case.
pub open spec fn duration_text(t: Seq<char>) -> Result<SimpleDuration, DurationParseError> {
    if exists|i: int| 0 <= i < t.len() && is_white(#[trigger] t[i]) {
        Err(DurationParseError::ContainsWhitespace)
    } else if t.len() == 0 {
        Err(DurationParseError::Empty)
    } else if is_digit(t.last()) {
        Err(DurationParseError::MissingUnit)
    } else {
        match unsigned_value(t.drop_last()) {
            None => Err(DurationParseError::InvalidValue),
            Some(v) => if v > i64::MAX {
                Err(DurationParseError::ValueTooLarge)
            } else {
                let u = to_ascii_lower(t.last());
                if u == 's' {
                    Ok(SimpleDuration::Seconds(v as i64))
                } else if u == 'm' {
                    Ok(SimpleDuration::Minutes(v as i64))
                } else if u == 'h' {
                    Ok(SimpleDuration::Hours(v as i64))
                } else if u == 'd' {
                    Ok(SimpleDuration::Days(v as i64))
                } else if u == 'w' {
                    Ok(SimpleDuration::Weeks(v as i64))
                } else {
                    Err(DurationParseError::UnknownUnit(t.last()))
                }
            },
        }
    }
}

proof fn lemma_digits_value_grows(d: Seq<char>, j: int)
    requires
        0 <= j <= d.len(),
        all_digits(d),
    ensures
        0 <= digits_value(d.subrange(0, j)) <= digits_value(d),
    decreases d.len(),
{
    if d.len() > 0 {
        let p = d.drop_last();
        assert forall|i: int| 0 <= i < p.len() implies is_digit(#[trigger] p[i]) by {
            assert(p[i] == d[i]);
        }
        lemma_digits_value_grows(p, p.len() as int);
        assert(p.subrange(0, p.len() as int) == p);
        assert(is_digit(d[d.len() - 1]));
        if j < d.len() {
            assert(d.subrange(0, j) == p.subrange(0, j));
            lemma_digits_value_grows(p, j);
        } else {
            assert(d.subrange(0, j) == d);
        }
    } else {
        assert(d.subrange(0, j) == d);
    }
}

/// Reads a duration such as "3d" or "24h": surrounding white space is ignored,
/// then a count, then one unit letter.
pub fn parse_simple_duration(s: &str) -> (r: Result<SimpleDuration, DurationParseError>)
    ensures
        r == duration_text(trimmed(s@)),
{
    let cs = chars_of(s);
    let ghost sq = cs@;
    assert(sq == s@);
    let n = cs.len();
    let mut a: usize = 0;
    while a < n && is_white_char(cs[a])
        invariant
            a <= n == sq.len(),
            cs@ == sq,
            sq == s@,
            first_non_white(sq, a as nat) == first_non_white(sq, 0),
        decreases n - a,
    {
        a += 1;
    }
    let mut b: usize = n;
    while b > 0 && is_white_char(cs[b - 1])
        invariant
            b <= n == sq.len(),
            cs@ == sq,
            sq == s@,
            end_non_white(sq, b as int) == end_non_white(sq, n as int),
        decreases b,
    {
        b -= 1;
    }
    let ghost t = trimmed(sq);
    if a >= b {
        proof {
            assert(t.len() == 0);
        }
        return Err(DurationParseError::Empty);
    }
    assert(t == sq.subrange(a as int, b as int));
    assert(trimmed(s@) == t);
    let mut i: usize = a;
    while i < b
        invariant
            a <= i <= b <= n == sq.len(),
            cs@ == sq,
            sq == s@,
            t == sq.subrange(a as int, b as int),
            t == trimmed(sq),
            forall|k: int| 0 <= k < i - a ==> !is_white(#[trigger] t[k]),
        decreases b - i,
    {
        if is_white_char(cs[i]) {
            assert(t[i - a] == cs@[i as int]);
            assert(is_white(t[i - a]));
            assert(exists|k: int| 0 <= k < t.len() && is_white(#[trigger] t[k]));
            return Err(DurationParseError::ContainsWhitespace);
        }
        i += 1;
    }
    let suffix = cs[b - 1];
    assert(suffix == t.last());
    if '0' <= suffix && suffix <= '9' {
        return Err(DurationParseError::MissingUnit);
    }
    let ghost v = t.drop_last();
    let mut start: usize = a;
    if start < b - 1 && cs[start] == '+' {
        start += 1;
    }
    let ghost d = unsigned_digits(v);
    assert(d == sq.subrange(start as int, b - 1));
    if start == b - 1 {
        return Err(DurationParseError::InvalidValue);
    }
    let mut value: u64 = 0;
    let mut j: usize = start;
    while j < b - 1
        invariant
            start <= j <= b - 1,
            b <= n == sq.len(),
            cs@ == sq,
            sq == s@,
            d == sq.subrange(start as int, b - 1),
            t == trimmed(sq),
            a < b,
            t.len() == b - a,
            v == t.drop_last(),
            d == unsigned_digits(v),
            !is_digit(t.last()),
            forall|k: int| 0 <= k < t.len() ==> !is_white(#[trigger] t[k]),
            forall|k: int| 0 <= k < j - start ==> is_digit(#[trigger] d[k]),
            value == digits_value(d.subrange(0, j - start)),
        decreases b - 1 - j,
    {
        let c = cs[j];
        assert(c == d[j - start]);
        if !('0' <= c && c <= '9') {
            assert(!all_digits(d)) by {
                assert(!is_digit(d[j - start]));
            }
            return Err(DurationParseError::InvalidValue);
        }
        let digit = (c as u32 - '0' as u32) as u64;
        assert(d.subrange(0, j + 1 - start).drop_last() == d.subrange(0, j - start));
        let next = match value.checked_mul(10) {
            Some(m) => m.checked_add(digit),
            None => None,
        };
        match next {
            Some(x) => {
                value = x;
            },
            None => {
                proof {
                    let sub = d.subrange(0, j + 1 - start);
                    assert(sub.last() == c);
                    assert(digits_value(sub) > u64::MAX);
                    if all_digits(d) {
                        lemma_digits_value_grows(d, j + 1 - start);
                    }
                }
                return Err(DurationParseError::InvalidValue);
            },
        }
        j += 1;
    }
    assert(d.subrange(0, d.len() as int) == d);
    if value > i64::MAX as u64 {
        return Err(DurationParseError::ValueTooLarge);
    }
    let value = value as i64;
    let lower = if 'A' <= suffix && suffix <= 'Z' {
        ((suffix as u32) + 32) as u8 as char
    } else {
        suffix
    };
    if lower == 's' {
        Ok(SimpleDuration::Seconds(value))
    } else if lower == 'm' {
        Ok(SimpleDuration::Minutes(value))
    } else if lower == 'h' {
        Ok(SimpleDuration::Hours(value))
    } else if lower == 'd' {
        Ok(SimpleDuration::Days(value))
    } else if lower == 'w' {
        Ok(SimpleDuration::Weeks(value))
    } else {
        Err(DurationParseError::UnknownUnit(suffix))
    }
}

} // verus!
