use vstd::prelude::*;
use vstd::arithmetic::div_mod::{
    lemma_div_is_ordered,
    lemma_fundamental_div_mod,
    lemma_fundamental_div_mod_converse,
    lemma_div_pos_is_pos,
    lemma_mod_bound,
};
use vstd::arithmetic::mul::lemma_mul_inequality;
use crate::chunk::window;
use crate::config::{ConfPeriod, PolicyError, Tier, tier_of, tier_ok};

verus! {

broadcast use vstd::seq_lib::lemma_seq_contains_after_push;

/// The tiers that the first `n` configured rows become, or the error of the
/// first row among them that is refused.
pub open spec fn tiers_upto(ps: Seq<ConfPeriod>, n: nat) -> Result<Seq<Tier>, PolicyError>
    decreases n,
{
    if n == 0 {
        Ok(Seq::<Tier>::empty())
    } else {
        match tiers_upto(ps, (n - 1) as nat) {
            Err(e) => Err(e),
            Ok(ts) => match tier_of(ps[n - 1]) {
                Err(e) => Err(e),
                Ok(t) => Ok(ts.push(t)),
            },
        }
    }
}

/// The validated policy of a configuration: it has at least one tier and every
/// row is a valid tier.
pub open spec fn policy_of(ps: Seq<ConfPeriod>) -> Result<Seq<Tier>, PolicyError> {
    if ps.len() == 0 {
        Err(PolicyError::EmptyPolicy)
    } else {
        tiers_upto(ps, ps.len())
    }
}

pub open spec fn tiers_ok(ts: Seq<Tier>) -> bool {
    forall|i: int| 0 <= i < ts.len() ==> tier_ok(#[trigger] ts[i])
}

/// The walk back from `cursor` over the tiers from `i` on stays within the range
/// of an `i64`, one chunk past each period's end included.
pub open spec fn walk_fits(ts: Seq<Tier>, i: nat, cursor: int) -> bool
    decreases ts.len() - i,
{
    if i < ts.len() {
        &&& cursor - ts[i as int].period_length - ts[i as int].chunk_size >= i64::MIN
        &&& walk_fits(ts, i + 1, cursor - ts[i as int].period_length)
    } else {
        true
    }
}

/// The (tier, chunk) that an instant `t <= cursor` falls into when tier `i` starts
/// at `cursor`: chunk `k` of a tier is the window
/// `(cursor - (k + 1) * chunk, cursor - k * chunk]`, and the tier visits the
/// chunks whose newer end lies after `cursor - period`. An instant that no
/// visited chunk holds passes on to the next tier, which starts where this
/// period ends.
pub open spec fn slot_from(ts: Seq<Tier>, i: nat, cursor: int, t: int) -> Option<(nat, int)>
    decreases ts.len() - i,
{
    if i < ts.len() {
        let c = ts[i as int].chunk_size as int;
        let k = (cursor - t) / c;
        if k * c < ts[i as int].period_length {
            Some((i, k))
        } else {
            slot_from(ts, i + 1, cursor - ts[i as int].period_length, t)
        }
    } else {
        None
    }
}

/// The (tier, chunk) of an instant under a run at `now`; `None` for an instant
/// after `now` or beyond the last tier.
pub open spec fn slot(ts: Seq<Tier>, now: int, t: int) -> Option<(nat, int)> {
    if t > now {
        None
    } else {
        slot_from(ts, 0, now, t)
    }
}

/// Whether `t`, one of `files`, survives the run: an instant after `now` always
/// does; any other survives when it is the newest of `files` in its chunk.
pub open spec fn is_kept(ts: Seq<Tier>, now: int, files: Set<i64>, t: i64) -> bool {
    &&& files.contains(t)
    &&& (t > now || {
        &&& slot(ts, now, t as int) is Some
        &&& forall|u: i64|
            #![trigger files.contains(u)]
            files.contains(u) && u > t ==> slot(ts, now, u as int) != slot(ts, now, t as int)
    })
}

/// Whether a slot comes before chunk `k` of tier `i` in the order of the walk.
pub open spec fn slot_before(sl: Option<(nat, int)>, i: nat, k: int) -> bool {
    sl matches Some((i2, k2)) && (i2 < i || (i2 == i && k2 < k))
}

pub open spec fn strictly_ascending(s: Seq<i64>) -> bool {
    forall|a: int, b: int| 0 <= a < b < s.len() ==> s[a] < s[b]
}

/// Validates the configured rows into tiers in seconds.
pub fn build_policy(periods: &[ConfPeriod]) -> (r: Result<Vec<Tier>, PolicyError>)
    ensures
        match policy_of(periods@) {
            Ok(ts) => r matches Ok(v) && v@ == ts,
            Err(e) => r == Err::<Vec<Tier>, PolicyError>(e),
        },
{
    if periods.len() == 0 {
        return Err(PolicyError::EmptyPolicy);
    }
    let mut tiers: Vec<Tier> = Vec::new();
    let mut n: usize = 0;
    while n < periods.len()
        invariant
            n <= periods@.len(),
            tiers_upto(periods@, n as nat) == Ok::<Seq<Tier>, PolicyError>(tiers@),
        decreases periods@.len() - n,
    {
        match periods[n].to_tier() {
            Ok(t) => {
                tiers.push(t);
            },
            Err(e) => {
                proof {
                    lemma_error_persists(periods@, (n + 1) as nat, periods@.len());
                }
                return Err(e);
            },
        }
        n += 1;
    }
    Ok(tiers)
}

proof fn lemma_error_persists(ps: Seq<ConfPeriod>, n: nat, m: nat)
    requires
        n <= m,
        tiers_upto(ps, n) is Err,
    ensures
        tiers_upto(ps, m) == tiers_upto(ps, n),
    decreases m - n,
{
    if n < m {
        lemma_error_persists(ps, n, (m - 1) as nat);
    }
}

proof fn lemma_policy_tiers_ok(ps: Seq<ConfPeriod>, n: nat)
    requires
        tiers_upto(ps, n) is Ok,
    ensures
        tiers_ok(tiers_upto(ps, n)->Ok_0),
        tiers_upto(ps, n)->Ok_0.len() == n,
    decreases n,
{
    if n > 0 {
        lemma_policy_tiers_ok(ps, (n - 1) as nat);
        let ts = tiers_upto(ps, (n - 1) as nat)->Ok_0;
        assert(forall|i: int| 0 <= i < ts.len() ==> ts.push(tier_of(ps[n - 1])->Ok_0)[i] == ts[i]);
    }
}

/// Whether the walk back from `now` over all tiers stays in range.
pub fn policy_fits(tiers: &Vec<Tier>, now: i64) -> (r: bool)
    requires
        tiers_ok(tiers@),
    ensures
        r == walk_fits(tiers@, 0, now as int),
{
    let mut cursor: i64 = now;
    let mut j: usize = 0;
    while j < tiers.len()
        invariant
            j <= tiers@.len(),
            tiers_ok(tiers@),
            walk_fits(tiers@, 0, now as int) == walk_fits(tiers@, j as nat, cursor as int),
        decreases tiers@.len() - j,
    {
        let t = tiers[j];
        if (cursor as i128) - (t.period_length as i128) - (t.chunk_size as i128) < i64::MIN as i128 {
            return false;
        }
        cursor = cursor - t.period_length;
        j += 1;
    }
    true
}

/// Decides which of `files` (instants in seconds, strictly ascending) survive a
/// run at `now` under `tiers`.
pub fn select_survivors(now: i64, tiers: &Vec<Tier>, files: &[i64]) -> (keep: Vec<i64>)
    requires
        tiers@.len() > 0,
        tiers_ok(tiers@),
        walk_fits(tiers@, 0, now as int),
        strictly_ascending(files@),
    ensures
        forall|t: i64| keep@.contains(t) <==> is_kept(tiers@, now as int, files@.to_set(), t),
        keep@.no_duplicates(),
{
    let ghost ts = tiers@;
    let ghost fs = files@;
    let mut keep: Vec<i64> = Vec::new();
    let mut rem: usize = files.len();
    let mut cursor: i64 = now;
    let mut i: usize = 0;
    while i < tiers.len() && rem > 0
        invariant
            ts == tiers@,
            fs == files@,
            tiers_ok(ts),
            strictly_ascending(fs),
            i <= ts.len(),
            rem <= fs.len(),
            cursor <= now,
            walk_fits(ts, i as nat, cursor as int),
            i > 0 ==> cursor < now,
            i == 0 ==> cursor == now,
            forall|a: int| 0 <= a < rem ==> (fs[a] <= cursor || i == 0),
            forall|a: int|
                0 <= a < rem && fs[a] <= now ==> slot(ts, now as int, fs[a] as int)
                    == slot_from(ts, i as nat, cursor as int, fs[a] as int),
            forall|a: int|
                #![trigger fs[a]]
                rem <= a < fs.len() ==> (fs[a] > now || slot_before(slot(ts, now as int, fs[a] as int), i as nat, 0)),
            forall|x: i64| keep@.contains(x) ==> is_kept(ts, now as int, fs.to_set(), x),
            forall|a: int|
                #![trigger fs[a]]
                rem <= a < fs.len() && is_kept(ts, now as int, fs.to_set(), fs[a]) ==> keep@.contains(fs[a]),
            forall|j: int, a: int| 0 <= j < keep@.len() && 0 <= a < rem ==> keep@[j] > fs[a],
            keep@.no_duplicates(),
        decreases ts.len() - i,
    {
        let tier = tiers[i];
        let c = tier.chunk_size;
        let period_end = cursor - tier.period_length;
        let ghost start: int = cursor as int;
        let ghost mut k: int = 0;
        assert(tier_ok(ts[i as int]));
        while cursor > period_end && rem > 0
            invariant
                ts == tiers@,
                fs == files@,
                tiers_ok(ts),
                strictly_ascending(fs),
                i < ts.len(),
                tier == ts[i as int],
                c == tier.chunk_size,
                tier_ok(tier),
                rem <= fs.len(),
                k >= 0,
                cursor == start - k * c,
                period_end == start - tier.period_length,
                start <= now,
                i > 0 ==> start < now,
                i == 0 ==> start == now,
                (k > 0 || i > 0) ==> cursor < now,
                start - tier.period_length - c >= i64::MIN,
                forall|a: int| 0 <= a < rem ==> (fs[a] <= cursor || (i == 0 && k == 0)),
                forall|a: int|
                    0 <= a < rem && fs[a] <= now ==> slot(ts, now as int, fs[a] as int)
                        == slot_from(ts, i as nat, start, fs[a] as int),
                forall|a: int|
                    #![trigger fs[a]]
                    rem <= a < fs.len() ==> (fs[a] > now || slot_before(slot(ts, now as int, fs[a] as int), i as nat, k)),
                forall|x: i64| keep@.contains(x) ==> is_kept(ts, now as int, fs.to_set(), x),
                forall|a: int|
                    #![trigger fs[a]]
                    rem <= a < fs.len() && is_kept(ts, now as int, fs.to_set(), fs[a]) ==> keep@.contains(
                        fs[a],
                    ),
                forall|j: int, a: int| 0 <= j < keep@.len() && 0 <= a < rem ==> keep@[j] > fs[a],
                keep@.no_duplicates(),
            decreases cursor - period_end + c,
        {
            let (chunk_end, chunk_start) = window(cursor, c);
            cursor = chunk_end;
            assert(chunk_end == start - (k + 1) * c) by (nonlinear_arith)
                requires chunk_end == start - k * c - c;
            assert(k * c < tier.period_length);
            let mut survivor: Option<i64> = None;
            let ghost rem0 = rem;
            while rem > 0
                invariant
                    ts == tiers@,
                    fs == files@,
                    tiers_ok(ts),
                    strictly_ascending(fs),
                    i < ts.len(),
                    tier == ts[i as int],
                    c == tier.chunk_size,
                    tier_ok(tier),
                    rem <= rem0 <= fs.len(),
                    k >= 0,
                    chunk_start == start - k * c,
                    chunk_end == start - (k + 1) * c,
                    k * c < tier.period_length,
                    start <= now,
                    i == 0 ==> start == now,
                    cursor == chunk_end,
                    period_end == start - tier.period_length,
                    (k > 0 || i > 0) ==> chunk_start < now,
                    forall|a: int| 0 <= a < rem ==> (fs[a] <= chunk_start || (i == 0 && k == 0)),
                    forall|a: int|
                        0 <= a < rem && fs[a] <= now ==> slot(ts, now as int, fs[a] as int)
                            == slot_from(ts, i as nat, start, fs[a] as int),
                    forall|a: int|
                        #![trigger fs[a]]
                        rem <= a < fs.len() ==> (fs[a] > now || slot_before(slot(ts, now as int, fs[a] as int), i as nat, k) || (
                            survivor is Some && slot(ts, now as int, fs[a] as int) == Some((i as nat, k))
                            && survivor->Some_0 >= fs[a])),
                    survivor matches Some(s) ==> {
                        &&& is_kept(ts, now as int, fs.to_set(), s)
                        &&& slot(ts, now as int, s as int) == Some((i as nat, k))
                        &&& s <= chunk_start
                        &&& !keep@.contains(s)
                        &&& forall|a: int| 0 <= a < rem ==> s > fs[a]
                    },
                    forall|x: i64| keep@.contains(x) ==> is_kept(ts, now as int, fs.to_set(), x),
                    forall|a: int|
                        #![trigger fs[a]]
                        rem <= a < fs.len() && is_kept(ts, now as int, fs.to_set(), fs[a]) ==> (keep@.contains(
                            fs[a],
                        ) || survivor == Some(fs[a])),
                    forall|j: int, a: int| 0 <= j < keep@.len() && 0 <= a < rem ==> keep@[j] > fs[a],
                    keep@.no_duplicates(),
                ensures
                    rem > 0 ==> fs[rem - 1] <= chunk_end,
                decreases rem,
            {
                let t = files[rem - 1];
                let ghost ti = (rem - 1) as int;
                if t > chunk_start {
                    // Newer than the window: only an instant after `now` gets here.
                    assert(t > now);
                    assert(is_kept(ts, now as int, fs.to_set(), t)) by {
                        assert(fs[ti] == t);
                    }
                    keep.push(t);
                    rem -= 1;
                } else if t > chunk_end {
                    assert(t <= now);
                    assert((k + 1) * c == k * c + c) by (nonlinear_arith);
                    proof {
                        lemma_fundamental_div_mod_converse(
                            start - t,
                            c as int,
                            k,
                            start - t - k * c,
                        );
                    }
                    assert(slot(ts, now as int, t as int) == Some((i as nat, k)));
                    if survivor.is_none() {
                        assert(is_kept(ts, now as int, fs.to_set(), t)) by {
                            assert(fs[ti] == t);
                            assert forall|u: i64| fs.contains(u) && u > t implies slot(
                                ts,
                                now as int,
                                u as int,
                            ) != slot(ts, now as int, t as int) by {
                                let a = choose|a: int| 0 <= a < fs.len() && fs[a] == u;
                                if a < ti {
                                    assert(fs[a] < fs[ti]);
                                }
                            }
                        }
                        survivor = Some(t);
                    } else {
                        assert(!is_kept(ts, now as int, fs.to_set(), t)) by {
                            let s = survivor->Some_0;
                            assert(fs.contains(s));
                            assert(s > t);
                        }
                    }
                    rem -= 1;
                } else {
                    break;
                }
            }
            match survivor {
                Some(s) => {
                    keep.push(s);
                },
                None => {},
            }
            proof {
                k = k + 1;
            }
        }
        proof {
            assert forall|a: int| 0 <= a < rem && fs[a] <= now implies slot_from(ts, i as nat, start, fs[a] as int)
                == slot_from(ts, (i + 1) as nat, period_end as int, fs[a] as int) by {
                let q = (start - fs[a]) / (c as int);
                lemma_fundamental_div_mod_converse(k * c, c as int, k, 0);
                lemma_div_is_ordered(k * c, start - fs[a], c as int);
                lemma_mul_inequality(k, q, c as int);
            }
        }
        cursor = period_end;
        i += 1;
    }
    proof {
        assert forall|t: i64| is_kept(ts, now as int, fs.to_set(), t) implies keep@.contains(t) by {
            let a = choose|a: int| 0 <= a < fs.len() && fs[a] == t;
            if a < rem {
                assert(i == ts.len());
                assert(fs[a] <= cursor);
            }
        }
    }
    keep
}

/// Decides which of `files` survive a run at `now` under the configured
/// `periods`: the instants after `now`, and the newest instant in each chunk
/// that some tier visits. Every other instant of `files` is to be deleted.
/// Fails when the configuration is refused, or the walk back from `now` over
/// the tiers leaves the range of an `i64`.
pub fn check_files_to_keep(now: i64, periods: &[ConfPeriod], files: &[i64]) -> (r: Result<
    Vec<i64>,
    PolicyError,
>)
    requires
        strictly_ascending(files@),
    ensures
        match policy_of(periods@) {
            Err(e) => r == Err::<Vec<i64>, PolicyError>(e),
            Ok(ts) => if walk_fits(ts, 0, now as int) {
                &&& r is Ok
                &&& forall|t: i64| r->Ok_0@.contains(t) <==> is_kept(ts, now as int, files@.to_set(), t)
                &&& r->Ok_0@.no_duplicates()
            } else {
                r == Err::<Vec<i64>, PolicyError>(PolicyError::DurationOverflow)
            },
        },
{
    let tiers = match build_policy(periods) {
        Ok(t) => t,
        Err(e) => { return Err(e); },
    };
    proof {
        lemma_policy_tiers_ok(periods@, periods@.len());
    }
    if !policy_fits(&tiers, now) {
        return Err(PolicyError::DurationOverflow);
    }
    Ok(select_survivors(now, &tiers, files))
}

/// Whether `v` holds `t`.
pub fn contains_instant(v: &Vec<i64>, t: i64) -> (r: bool)
    ensures
        r == v@.contains(t),
{
    let mut j: usize = 0;
    while j < v.len()
        invariant
            j <= v@.len(),
            !v@.subrange(0, j as int).contains(t),
        decreases v@.len() - j,
    {
        if v[j] == t {
            assert(v@[j as int] == t);
            return true;
        }
        assert(v@.subrange(0, j + 1) == v@.subrange(0, j as int).push(v@[j as int]));
        j += 1;
    }
    assert(v@.subrange(0, j as int) == v@);
    false
}

/// The instants of `files` that `keep` does not hold: those to delete.
pub fn files_to_delete(files: &[i64], keep: &Vec<i64>) -> (r: Vec<i64>)
    ensures
        forall|t: i64| r@.contains(t) <==> (files@.contains(t) && !keep@.contains(t)),
{
    let mut out: Vec<i64> = Vec::new();
    let mut n: usize = 0;
    while n < files.len()
        invariant
            n <= files@.len(),
            forall|t: i64|
                out@.contains(t) <==> (files@.subrange(0, n as int).contains(t) && !keep@.contains(
                    t,
                )),
        decreases files@.len() - n,
    {
        let t = files[n];
        let found = contains_instant(keep, t);
        if !found {
            out.push(t);
        }
        proof {
            assert(files@.subrange(0, n + 1) == files@.subrange(0, n as int).push(t));
        }
        n += 1;
    }
    assert(files@.subrange(0, n as int) == files@);
    out
}

/// A run's decision depends on the set of instants alone: two runs with the same
/// `now`, the same tiers and the same instants keep the same instants.
pub proof fn lemma_rerun_keeps_same(
    ts: Seq<Tier>,
    now: int,
    files1: Seq<i64>,
    files2: Seq<i64>,
    keep1: Seq<i64>,
    keep2: Seq<i64>,
)
    requires
        files1.to_set() == files2.to_set(),
        forall|t: i64| keep1.contains(t) <==> is_kept(ts, now, files1.to_set(), t),
        forall|t: i64| keep2.contains(t) <==> is_kept(ts, now, files2.to_set(), t),
    ensures
        keep1.to_set() == keep2.to_set(),
{
    assert(keep1.to_set() =~= keep2.to_set());
}

/// Every instant of a run's input is either kept or deleted, never both, and
/// nothing else is kept or deleted.
pub proof fn lemma_kept_or_deleted(
    ts: Seq<Tier>,
    now: int,
    files: Seq<i64>,
    keep: Seq<i64>,
    delete: Seq<i64>,
)
    requires
        forall|t: i64| keep.contains(t) <==> is_kept(ts, now, files.to_set(), t),
        forall|t: i64| delete.contains(t) <==> (files.contains(t) && !keep.contains(t)),
    ensures
        forall|t: i64| files.contains(t) <==> (keep.contains(t) || delete.contains(t)),
        forall|t: i64| !(keep.contains(t) && delete.contains(t)),
{
}

/// Within one chunk of one tier at most one instant survives.
pub proof fn lemma_one_per_chunk(ts: Seq<Tier>, now: int, files: Set<i64>, t1: i64, t2: i64)
    requires
        is_kept(ts, now, files, t1),
        is_kept(ts, now, files, t2),
        t1 <= now,
        t2 <= now,
        slot(ts, now, t1 as int) == slot(ts, now, t2 as int),
    ensures
        t1 == t2,
{
    if t1 < t2 {
        assert(files.contains(t2));
    } else if t2 < t1 {
        assert(files.contains(t1));
    }
}

/// Of two instants in the same chunk, the older one is not kept.
pub proof fn lemma_newest_wins(ts: Seq<Tier>, now: int, files: Set<i64>, older: i64, newer: i64)
    requires
        files.contains(older),
        files.contains(newer),
        older < newer <= now,
        slot(ts, now, older as int) is Some,
        slot(ts, now, older as int) == slot(ts, now, newer as int),
    ensures
        !is_kept(ts, now, files, older),
        is_kept(ts, now, files, newer) <==> forall|u: i64|
            #![trigger files.contains(u)]
            files.contains(u) && u > newer ==> slot(ts, now, u as int) != slot(ts, now, newer as int),
{
}

/// The tier that `slot_from` picks is never one before `i`.
proof fn lemma_slot_tier_from(ts: Seq<Tier>, i: nat, cursor: int, t: int)
    ensures
        slot_from(ts, i, cursor, t) matches Some((i2, _)) ==> i2 >= i,
    decreases ts.len() - i,
{
    if i < ts.len() {
        lemma_slot_tier_from(ts, i + 1, cursor - ts[i as int].period_length, t);
    }
}

/// An instant on the older edge of chunk `k` of a tier belongs to the chunk after
/// it, or past this tier when the tier visits no further chunk; never to chunk `k`.
pub proof fn lemma_boundary_goes_older(ts: Seq<Tier>, i: nat, cursor: int, k: int)
    requires
        tiers_ok(ts),
        i < ts.len(),
        k >= 0,
    ensures
        slot_from(ts, i, cursor, cursor - (k + 1) * ts[i as int].chunk_size) != Some((i, k)),
        (k + 1) * ts[i as int].chunk_size < ts[i as int].period_length ==> slot_from(
            ts,
            i,
            cursor,
            cursor - (k + 1) * ts[i as int].chunk_size,
        ) == Some((i, k + 1)),
{
    let c = ts[i as int].chunk_size as int;
    assert(tier_ok(ts[i as int]));
    lemma_fundamental_div_mod_converse((k + 1) * c, c, k + 1, 0);
    assert(cursor - (cursor - (k + 1) * c) == (k + 1) * c);
    lemma_slot_tier_from(ts, i + 1, cursor - ts[i as int].period_length, cursor - (k + 1) * c);
}

/// Where the walk over the tiers from `i` on, starting at `cursor`, ends: the
/// cursor less the sum of the periods.
pub open spec fn horizon(ts: Seq<Tier>, i: nat, cursor: int) -> int
    decreases ts.len() - i,
{
    if i < ts.len() {
        horizon(ts, i + 1, cursor - ts[i as int].period_length)
    } else {
        cursor
    }
}

pub open spec fn periods_whole_chunks(ts: Seq<Tier>) -> bool {
    forall|i: int| 0 <= i < ts.len() ==> #[trigger] ts[i].period_length % ts[i].chunk_size == 0
}

proof fn lemma_horizon_before(ts: Seq<Tier>, i: nat, cursor: int)
    requires
        tiers_ok(ts),
    ensures
        horizon(ts, i, cursor) <= cursor,
    decreases ts.len() - i,
{
    if i < ts.len() {
        assert(tier_ok(ts[i as int]));
        lemma_horizon_before(ts, i + 1, cursor - ts[i as int].period_length);
    }
}

proof fn lemma_beyond_horizon_unslotted(ts: Seq<Tier>, i: nat, cursor: int, t: int)
    requires
        tiers_ok(ts),
        periods_whole_chunks(ts),
        t <= horizon(ts, i, cursor),
    ensures
        slot_from(ts, i, cursor, t) is None,
    decreases ts.len() - i,
{
    if i < ts.len() {
        let c = ts[i as int].chunk_size as int;
        let p = ts[i as int].period_length as int;
        assert(tier_ok(ts[i as int]));
        assert(p % c == 0);
        lemma_horizon_before(ts, i + 1, cursor - p);
        lemma_fundamental_div_mod(p, c);
        lemma_div_is_ordered(p, cursor - t, c);
        lemma_mul_inequality(p / c, (cursor - t) / c, c);
        lemma_beyond_horizon_unslotted(ts, i + 1, cursor - p, t);
    }
}

/// When every period is a whole number of chunks, no instant at or before the
/// end of the walk over all tiers (`now` less the sum of the periods) is kept.
pub proof fn lemma_beyond_horizon_dropped(ts: Seq<Tier>, now: int, files: Set<i64>, t: i64)
    requires
        tiers_ok(ts),
        periods_whole_chunks(ts),
        t <= horizon(ts, 0, now),
    ensures
        !is_kept(ts, now, files, t),
{
    lemma_horizon_before(ts, 0, now);
    lemma_beyond_horizon_unslotted(ts, 0, now, t as int);
}

/// Where tier `i` starts in a run at `now`: `now` less the periods of the tiers
/// before it.
pub open spec fn tier_start(ts: Seq<Tier>, i: nat, now: int) -> int
    decreases i,
{
    if i == 0 {
        now
    } else {
        tier_start(ts, (i - 1) as nat, now) - ts[i - 1].period_length
    }
}

/// Whether `t` lies in chunk `k` of tier `i`, the window
/// `(start - (k + 1) * chunk, start - k * chunk]` where the tier starts at `start`.
pub open spec fn in_window(ts: Seq<Tier>, now: int, i: nat, k: int, t: int) -> bool {
    let s = tier_start(ts, i, now);
    let c = ts[i as int].chunk_size as int;
    s - (k + 1) * c < t <= s - k * c
}

proof fn lemma_tier_start_descends(ts: Seq<Tier>, j: nat, i: nat, now: int)
    requires
        tiers_ok(ts),
        j <= i <= ts.len(),
    ensures
        tier_start(ts, i, now) <= tier_start(ts, j, now),
    decreases i - j,
{
    if j < i {
        lemma_tier_start_descends(ts, j, (i - 1) as nat, now);
        assert(tier_ok(ts[i - 1]));
    }
}

/// The slot that `slot_from` picks, started at tier `j`'s start, names the
/// chunk whose window holds the instant.
proof fn lemma_slot_is_window(ts: Seq<Tier>, j: nat, now: int, t: int, i: nat, k: int)
    requires
        tiers_ok(ts),
        slot_from(ts, j, tier_start(ts, j, now), t) == Some((i, k)),
        t <= tier_start(ts, j, now),
    ensures
        i < ts.len(),
        0 <= k,
        in_window(ts, now, i, k, t),
        k * ts[i as int].chunk_size < ts[i as int].period_length,
    decreases ts.len() - j,
{
    if j < ts.len() {
        let s = tier_start(ts, j, now);
        let c = ts[j as int].chunk_size as int;
        if ((s - t) / c) * c < ts[j as int].period_length {
            assert(tier_ok(ts[j as int]));
            lemma_fundamental_div_mod(s - t, c);
            lemma_mod_bound(s - t, c);
            assert((k + 1) * c == k * c + c) by (nonlinear_arith);
            assert(k * c == c * k) by (nonlinear_arith);
            lemma_div_pos_is_pos(s - t, c);
        } else {
            assert(tier_start(ts, j + 1, now) == s - ts[j as int].period_length);
            assert(tier_ok(ts[j as int]));
            lemma_fundamental_div_mod(s - t, c);
            lemma_mod_bound(s - t, c);
            assert(((s - t) / c) * c == c * ((s - t) / c)) by (nonlinear_arith);
            lemma_slot_is_window(ts, j + 1, now, t, i, k);
        }
    }
}

/// An instant at or before tier `i`'s start passes over every earlier tier,
/// when every period is a whole number of chunks.
proof fn lemma_passes_earlier_tiers(ts: Seq<Tier>, j: nat, i: nat, now: int, t: int)
    requires
        tiers_ok(ts),
        periods_whole_chunks(ts),
        j <= i < ts.len(),
        t <= tier_start(ts, i, now),
    ensures
        slot_from(ts, j, tier_start(ts, j, now), t) == slot_from(ts, i, tier_start(ts, i, now), t),
    decreases i - j,
{
    if j < i {
        let s = tier_start(ts, j, now);
        let c = ts[j as int].chunk_size as int;
        let p = ts[j as int].period_length as int;
        assert(tier_ok(ts[j as int]));
        assert(p % c == 0);
        assert(tier_start(ts, j + 1, now) == s - p);
        lemma_tier_start_descends(ts, j + 1, i, now);
        lemma_fundamental_div_mod(p, c);
        lemma_div_is_ordered(p, s - t, c);
        lemma_mul_inequality(p / c, (s - t) / c, c);
        assert((p / c) * c == c * (p / c)) by (nonlinear_arith);
        lemma_passes_earlier_tiers(ts, j + 1, i, now, t);
    }
}

/// When every period is a whole number of chunks, an instant lies in the
/// window of a visited chunk exactly when that chunk is its slot.
pub proof fn lemma_window_is_slot(ts: Seq<Tier>, now: int, i: nat, k: int, t: int)
    requires
        tiers_ok(ts),
        periods_whole_chunks(ts),
        i < ts.len(),
        0 <= k,
        k * ts[i as int].chunk_size < ts[i as int].period_length,
    ensures
        in_window(ts, now, i, k, t) <==> slot(ts, now, t) == Some((i, k)),
{
    let s = tier_start(ts, i, now);
    let c = ts[i as int].chunk_size as int;
    lemma_tier_start_descends(ts, 0, i, now);
    assert(tier_ok(ts[i as int]));
    if in_window(ts, now, i, k, t) {
        assert(k * c >= 0) by (nonlinear_arith)
            requires k >= 0, c > 0;
        lemma_passes_earlier_tiers(ts, 0, i, now, t);
        assert((k + 1) * c == k * c + c) by (nonlinear_arith);
        lemma_fundamental_div_mod_converse(s - t, c, k, s - t - k * c);
    }
    if slot(ts, now, t) == Some((i, k)) {
        lemma_slot_is_window(ts, 0, now, t, i, k);
    }
}

/// At most one instant survives in the window of each chunk a tier visits.
pub proof fn lemma_one_per_window(
    ts: Seq<Tier>,
    now: int,
    files: Set<i64>,
    i: nat,
    k: int,
    t1: i64,
    t2: i64,
)
    requires
        tiers_ok(ts),
        periods_whole_chunks(ts),
        i < ts.len(),
        0 <= k,
        k * ts[i as int].chunk_size < ts[i as int].period_length,
        in_window(ts, now, i, k, t1 as int),
        in_window(ts, now, i, k, t2 as int),
        is_kept(ts, now, files, t1),
        is_kept(ts, now, files, t2),
    ensures
        t1 == t2,
{
    lemma_window_is_slot(ts, now, i, k, t1 as int);
    lemma_window_is_slot(ts, now, i, k, t2 as int);
    lemma_one_per_chunk(ts, now, files, t1, t2);
}

/// An instant in the window of a visited chunk survives exactly when no newer
/// instant of the input lies in the same window.
pub proof fn lemma_newest_in_window_kept(
    ts: Seq<Tier>,
    now: int,
    files: Set<i64>,
    i: nat,
    k: int,
    t: i64,
)
    requires
        tiers_ok(ts),
        periods_whole_chunks(ts),
        i < ts.len(),
        0 <= k,
        k * ts[i as int].chunk_size < ts[i as int].period_length,
        files.contains(t),
        in_window(ts, now, i, k, t as int),
    ensures
        is_kept(ts, now, files, t) <==> !exists|u: i64|
            #![trigger files.contains(u)]
            files.contains(u) && u > t && in_window(ts, now, i, k, u as int),
{
    lemma_window_is_slot(ts, now, i, k, t as int);
    assert forall|u: i64| #[trigger] files.contains(u) && u > t implies (slot(ts, now, u as int)
        == slot(ts, now, t as int) <==> in_window(ts, now, i, k, u as int)) by {
        lemma_window_is_slot(ts, now, i, k, u as int);
    }
}

/// Re-running on the survivors alone, with the same `now` and tiers, keeps
/// every one of them: once the rest is deleted, nothing further goes.
pub proof fn lemma_rerun_on_survivors(ts: Seq<Tier>, now: int, files: Set<i64>, t: i64)
    ensures
        is_kept(ts, now, Set::new(|u: i64| is_kept(ts, now, files, u)), t) <==> is_kept(
            ts,
            now,
            files,
            t,
        ),
{
    let kept = Set::new(|u: i64| is_kept(ts, now, files, u));
    if is_kept(ts, now, files, t) && t <= now {
        assert forall|u: i64| #[trigger] kept.contains(u) && u > t implies slot(ts, now, u as int)
            != slot(ts, now, t as int) by {
            assert(files.contains(u));
        }
    }
}

/// No instant survives that lies at or below every chunk window the tiers
/// visit: the horizon of the walk, whatever the periods and chunks.
pub proof fn lemma_below_every_window_dropped(ts: Seq<Tier>, now: int, files: Set<i64>, t: i64)
    requires
        tiers_ok(ts),
        forall|i: nat, k: int|
            i < ts.len() && 0 <= k && k * ts[i as int].chunk_size < ts[i as int].period_length
                ==> #[trigger] in_window(ts, now, i, k, t as int) == false,
        t <= now,
    ensures
        !is_kept(ts, now, files, t),
{
    if slot(ts, now, t as int) is Some {
        let (i, k) = slot(ts, now, t as int)->Some_0;
        lemma_slot_is_window(ts, 0, now, t as int, i, k);
    }
}

} // verus!
