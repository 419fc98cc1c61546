use vstd::prelude::*;
use crate::config::{ConfPeriod, PolicyError};
use crate::retention::{check_files_to_keep, contains_instant, is_kept, policy_of, strictly_ascending, walk_fits};

verus! {

/// The instant, in whole seconds since the Unix epoch, that a name written as
/// an RFC 3339 date and time stands for; `None` for a name that is not one.
pub uninterp spec fn rfc3339_seconds(s: Seq<char>) -> Option<i64>;

/// Relies on chrono's `DateTime::parse_from_rfc3339`, whose result depends on
/// the text alone, and on `DateTime::timestamp` for its whole seconds.
#[verifier::external_body]
fn parse_instant(name: &str) -> (r: Option<i64>)
    ensures
        r == rfc3339_seconds(name@),
{
    match chrono::DateTime::parse_from_rfc3339(name) {
        Ok(t) => Some(t.timestamp()),
        Err(_) => None,
    }
}

/// The set of instants that some name of `names` stands for.
pub open spec fn instants_of(names: Seq<String>) -> Set<i64> {
    Set::new(|t: i64| exists|i: int| 0 <= i < names.len() && rfc3339_seconds(names[i]@) == Some(t))
}

/// Adds `t` to an ascending list of distinct instants, where it is not there yet.
fn insert_sorted(v: &mut Vec<i64>, t: i64)
    requires
        strictly_ascending(old(v)@),
    ensures
        strictly_ascending(final(v)@),
        forall|x: i64| final(v)@.contains(x) <==> (old(v)@.contains(x) || x == t),
{
    let mut i: usize = 0;
    while i < v.len() && v[i] < t
        invariant
            i <= v@.len(),
            strictly_ascending(v@),
            forall|k: int| 0 <= k < i ==> v@[k] < t,
        decreases v@.len() - i,
    {
        i += 1;
    }
    if i < v.len() && v[i] == t {
        return;
    }
    let ghost before = v@;
    v.insert(i, t);
    proof {
        before.insert_ensures(i as int, t);
        assert forall|x: i64| v@.contains(x) implies (before.contains(x) || x == t) by {
            let k = choose|k: int| 0 <= k < v@.len() && v@[k] == x;
            if k < i {
                assert(before[k] == x);
            } else if k > i {
                assert(before[k - 1] == x);
            }
        }
        assert forall|x: i64| before.contains(x) implies v@.contains(x) by {
            let k = choose|k: int| 0 <= k < before.len() && before[k] == x;
            if k < i {
                assert(v@[k] == x);
            } else {
                assert(v@[k + 1] == x);
            }
        }
        assert(v@[i as int] == t);
    }
}

/// The distinct instants that `names` stand for, ascending; names that are no
/// RFC 3339 date and time are left out.
pub fn timestamps_of(names: &Vec<String>) -> (r: Vec<i64>)
    ensures
        strictly_ascending(r@),
        r@.to_set() == instants_of(names@),
{
    let mut out: Vec<i64> = Vec::new();
    let mut n: usize = 0;
    while n < names.len()
        invariant
            n <= names@.len(),
            strictly_ascending(out@),
            forall|t: i64|
                out@.contains(t) <==> exists|i: int|
                    0 <= i < n && rfc3339_seconds(names@[i]@) == Some(t),
        decreases names@.len() - n,
    {
        match parse_instant(names[n].as_str()) {
            Some(t) => {
                insert_sorted(&mut out, t);
            },
            None => {},
        }
        n += 1;
    }
    assert(out@.to_set() =~= instants_of(names@));
    out
}

/// Decides, for each of `names`, whether it is to be deleted in a run at `now`
/// under the configured `periods`: a name is deleted when it stands for an
/// instant and that instant is not kept among the instants of all the names.
/// A name that is no RFC 3339 date and time is never deleted.
pub fn names_to_delete(now: i64, periods: &[ConfPeriod], names: &Vec<String>) -> (r: Result<
    Vec<bool>,
    PolicyError,
>)
    ensures
        match policy_of(periods@) {
            Err(e) => r == Err::<Vec<bool>, PolicyError>(e),
            Ok(ts) => if walk_fits(ts, 0, now as int) {
                &&& r is Ok
                &&& r->Ok_0@.len() == names@.len()
                &&& forall|i: int|
                    0 <= i < names@.len() ==> #[trigger] r->Ok_0@[i] == (rfc3339_seconds(
                        names@[i]@,
                    ) is Some && !is_kept(
                        ts,
                        now as int,
                        instants_of(names@),
                        rfc3339_seconds(names@[i]@)->Some_0,
                    ))
            } else {
                r == Err::<Vec<bool>, PolicyError>(PolicyError::DurationOverflow)
            },
        },
{
    let files = timestamps_of(names);
    let keep = match check_files_to_keep(now, periods, files.as_slice()) {
        Ok(k) => k,
        Err(e) => { return Err(e); },
    };
    let mut out: Vec<bool> = Vec::new();
    let mut n: usize = 0;
    while n < names.len()
        invariant
            n <= names@.len(),
            out@.len() == n,
            forall|i: int|
                0 <= i < n ==> #[trigger] out@[i] == (rfc3339_seconds(names@[i]@) is Some
                    && !keep@.contains(rfc3339_seconds(names@[i]@)->Some_0)),
        decreases names@.len() - n,
    {
        let delete = match parse_instant(names[n].as_str()) {
            Some(t) => !contains_instant(&keep, t),
            None => false,
        };
        out.push(delete);
        n += 1;
    }
    Ok(out)
}

} // verus!
