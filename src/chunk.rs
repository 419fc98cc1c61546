use vstd::prelude::*;
use vstd::arithmetic::div_mod::{
    lemma_div_basics,
    lemma_div_is_ordered_by_denominator,
    lemma_div_pos_is_pos,
    lemma_fundamental_div_mod,
    lemma_mod_pos_bound,
};
use crate::config::{ConfPeriod, SimpleDuration, SECS_PER_DAY, SECS_PER_HOUR, SECS_PER_MINUTE, SECS_PER_WEEK};

verus! {

/// The window `(start, end]` of width `chunk_size` that ends at `reference`:
/// an instant equal to `start` belongs to the next older window.
pub fn window(reference: i64, chunk_size: i64) -> (r: (i64, i64))
    requires
        chunk_size > 0,
        reference - chunk_size >= i64::MIN,
    ensures
        r.0 == reference - chunk_size,
        r.1 == reference,
{
    (reference - chunk_size, reference)
}

/// 1900-01-01T00:00:00Z, in seconds since the Unix epoch: the fixed origin of
/// epoch-anchored chunks.
pub const EPOCH: i64 = -2208988800;

/// The unit in which a chunk's width is counted.
#[derive(Clone, Copy, Debug, PartialEq, Eq, Hash, Structural)]
pub enum TimeUnit {
    Weeks,
    Days,
    Hours,
    Minutes,
    Seconds,
}

pub open spec fn unit_seconds(u: TimeUnit) -> int {
    match u {
        TimeUnit::Weeks => SECS_PER_WEEK as int,
        TimeUnit::Days => SECS_PER_DAY as int,
        TimeUnit::Hours => SECS_PER_HOUR as int,
        TimeUnit::Minutes => SECS_PER_MINUTE as int,
        TimeUnit::Seconds => 1,
    }
}

/// Division that rounds toward zero, as Rust's `/` on integers does.
pub open spec fn trunc_div(a: int, b: int) -> int {
    if a >= 0 {
        a / b
    } else {
        -((-a) / b)
    }
}

proof fn lemma_div_within(a: int, b: int)
    requires
        a >= 0,
        b > 0,
    ensures
        0 <= a / b <= a,
{
    lemma_div_pos_is_pos(a, b);
    lemma_div_is_ordered_by_denominator(a, 1, b);
    lemma_div_basics(a);
}

proof fn lemma_trunc_div_within(a: int, b: int)
    requires
        b > 0,
    ensures
        a >= 0 ==> 0 <= trunc_div(a, b) * b <= a,
        a < 0 ==> a <= trunc_div(a, b) * b <= 0,
{
    let n = if a >= 0 { a } else { -a };
    lemma_div_within(n, b);
    lemma_fundamental_div_mod(n, b);
    lemma_mod_pos_bound(n, b);
    assert(0 <= (n / b) * b <= n) by (nonlinear_arith)
        requires
            n == b * (n / b) + n % b,
            0 <= n % b,
            0 <= n / b,
            b > 0,
    {
    }
    let q = n / b;
    assert((-q) * b == -(q * b)) by (nonlinear_arith);
}

impl TimeUnit {
    pub fn seconds(&self) -> (r: i64)
        ensures
            r == unit_seconds(*self),
            r > 0,
    {
        match self {
            TimeUnit::Weeks => SECS_PER_WEEK,
            TimeUnit::Days => SECS_PER_DAY,
            TimeUnit::Hours => SECS_PER_HOUR,
            TimeUnit::Minutes => SECS_PER_MINUTE,
            TimeUnit::Seconds => 1,
        }
    }
}

/// An instant placed on a grid of chunks anchored at `EPOCH`: chunks are
/// `value` units wide, and the instant lies `since_epoch` whole units after
/// the origin.
#[derive(Clone, Copy, Debug, PartialEq, Eq, Hash, Structural)]
pub struct ChunkTime {
    /// The width of a chunk, in units
    pub value: i64,
    /// The unit of the chunk, e.g. seconds
    pub unit: TimeUnit,
    /// A number of whole units since the epoch; it lies within the chunk
    pub since_epoch: i64,
}

/// The width and unit of a configured chunk size.
pub open spec fn split_duration(d: SimpleDuration) -> (i64, TimeUnit) {
    match d {
        SimpleDuration::Weeks(w) => (w, TimeUnit::Weeks),
        SimpleDuration::Days(d) => (d, TimeUnit::Days),
        SimpleDuration::Hours(h) => (h, TimeUnit::Hours),
        SimpleDuration::Minutes(m) => (m, TimeUnit::Minutes),
        SimpleDuration::Seconds(s) => (s, TimeUnit::Seconds),
    }
}

/// The start of the chunk of `c`, in seconds since the Unix epoch.
pub open spec fn chunk_start(c: ChunkTime) -> int {
    EPOCH + trunc_div(c.since_epoch as int, c.value as int) * c.value * unit_seconds(c.unit)
}

impl ChunkTime {
    /// The number of the chunk counted from the epoch.
    pub fn index(&self) -> (r: i64)
        requires
            self.value > 0,
        ensures
            r == trunc_div(self.since_epoch as int, self.value as int),
    {
        if self.since_epoch >= 0 {
            self.since_epoch / self.value
        } else {
            let q = (-(self.since_epoch as i128)) / (self.value as i128);
            proof {
                lemma_div_within(-(self.since_epoch as int), self.value as int);
            }
            (-q) as i64
        }
    }

    /// The instant at which the chunk begins, in seconds since the Unix epoch.
    pub fn start(&self) -> (r: i64)
        requires
            self.value > 0,
            i64::MIN <= chunk_start(*self) <= i64::MAX,
        ensures
            r == chunk_start(*self),
    {
        let q = self.index();
        proof {
            lemma_trunc_div_within(self.since_epoch as int, self.value as int);
        }
        let units: i128 = (q as i128) * (self.value as i128);
        let secs: i128 = units * (self.unit.seconds() as i128);
        (EPOCH as i128 + secs) as i64
    }

    /// Places `time` (seconds since the Unix epoch) on the grid of the
    /// period's chunk size.
    pub fn of(period: &ConfPeriod, time: i64) -> (r: ChunkTime)
        requires
            time - EPOCH <= i64::MAX,
        ensures
            (r.value, r.unit) == split_duration(period.chunk_size),
            r.since_epoch == trunc_div(time - EPOCH, unit_seconds(r.unit)),
    {
        let (value, unit) = match period.chunk_size {
            SimpleDuration::Weeks(w) => (w, TimeUnit::Weeks),
            SimpleDuration::Days(d) => (d, TimeUnit::Days),
            SimpleDuration::Hours(h) => (h, TimeUnit::Hours),
            SimpleDuration::Minutes(m) => (m, TimeUnit::Minutes),
            SimpleDuration::Seconds(s) => (s, TimeUnit::Seconds),
        };
        let secs = time - EPOCH;
        let u = unit.seconds();
        let since_epoch = if secs >= 0 {
            secs / u
        } else {
            proof {
                lemma_div_within(-(secs as int), u as int);
            }
            -((-secs) / u)
        };
        ChunkTime { value, unit, since_epoch }
    }
}

} // verus!
