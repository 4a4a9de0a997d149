use vstd::prelude::*;
use std::time::{Duration, SystemTime, UNIX_EPOCH};

verus! {

#[verifier::external_type_specification]
#[verifier::external_body]
pub struct ExSystemTime(SystemTime);

/// The current time of the system clock, by `SystemTime::now`. Nothing is
/// said of the value: it depends on the machine and the moment.
#[verifier::external_body]
fn system_now() -> SystemTime {
    SystemTime::now()
}

/// The time elapsed from the Unix epoch to `t`, by
/// `SystemTime::duration_since(UNIX_EPOCH)`; `None` where `t` lies before
/// the epoch. Nothing is said of the value: it depends on the clock.
#[verifier::external_body]
fn since_epoch(t: &SystemTime) -> Option<Duration> {
    t.duration_since(UNIX_EPOCH).ok()
}

/// The whole seconds of a duration, by `Duration::as_secs`.
#[verifier::external_body]
fn whole_seconds(d: &Duration) -> u64 {
    d.as_secs()
}

/// The whole seconds elapsed since the Unix epoch, or 0 for a time before
/// the epoch.
pub fn secs_or_zero(since: Option<u64>) -> (r: u64)
    ensures
        r == match since {
            Some(secs) => secs,
            None => 0,
        },
{
    match since {
        Some(secs) => secs,
        None => 0,
    }
}

/// Seconds since the Unix epoch by the system clock, or 0 when the clock
/// stands before the epoch. The clock reading itself is not known to the
/// proof: what is stated is `secs_or_zero`, which turns it into the answer.
pub fn now_secs() -> u64 {
    let now = system_now();
    let since = match since_epoch(&now) {
        Some(d) => Some(whole_seconds(&d)),
        None => None,
    };
    secs_or_zero(since)
}

/// Default number of nodes a nearest-node request asks for.
pub fn default_max_count() -> (r: u32)
    ensures
        r == 1,
{
    1
}

/// Seconds without a request, as the clock reads: zero when the last access
/// lies in the future.
pub open spec fn idle_for(now: u64, last_access: u64) -> nat {
    if now >= last_access {
        (now - last_access) as nat
    } else {
        0
    }
}

/// Seconds since the last access, never negative.
pub fn idle_seconds(now: u64, last_access: u64) -> (r: u64)
    ensures
        r == idle_for(now, last_access),
{
    now.saturating_sub(last_access)
}

/// Whether a loaded graph has been idle long enough to be dropped from
/// memory.
pub fn should_evict(loaded: bool, now: u64, last_access: u64, ttl_secs: u64) -> (r: bool)
    ensures
        r == (loaded && idle_for(now, last_access) >= ttl_secs),
{
    loaded && idle_seconds(now, last_access) >= ttl_secs
}

/// A graph that is due for eviction stays due as time goes on, until it is
/// accessed again.
pub proof fn lemma_eviction_stays_due(now: u64, later: u64, last_access: u64, ttl_secs: u64)
    requires
        now <= later,
        idle_for(now, last_access) >= ttl_secs,
    ensures
        idle_for(later, last_access) >= ttl_secs,
{
}

/// Keeps the first `max_count` candidates when `max_count` is set (not 0).
pub fn truncate_to_max_count(candidates: &mut Vec<u32>, max_count: u32)
    ensures
        (max_count > 0 && old(candidates)@.len() > max_count) ==> final(candidates)@ == old(candidates)@.subrange(0, max_count as int),
        !(max_count > 0 && old(candidates)@.len() > max_count) ==> final(candidates)@ == old(candidates)@,
{
    if max_count > 0 && candidates.len() > max_count as usize {
        candidates.truncate(max_count as usize);
    }
}

/// Why a route search failed.
#[derive(Clone, Copy, PartialEq, Eq, Structural, Debug)]
pub enum RouteFailure {
    InvalidReference(i64),
    StepLimitExceeded,
}

/// The error code of a route search's outcome: 0 for a route, 1 when no
/// route exists, 2 for an invalid node reference, 3 when the step limit was
/// reached.
pub open spec fn route_code(r: Result<Seq<i64>, RouteFailure>) -> u8 {
    match r {
        Ok(nodes) => if nodes.len() == 0 { 1 } else { 0 },
        Err(RouteFailure::InvalidReference(_)) => 2,
        Err(RouteFailure::StepLimitExceeded) => 3,
    }
}

/// The error code of a route search's outcome.
pub fn route_error_code(r: &Result<Vec<i64>, RouteFailure>) -> (c: u8)
    ensures
        c == route_code(match r {
            Ok(v) => Ok(v@),
            Err(e) => Err(*e),
        }),
{
    match r {
        Ok(nodes) => if nodes.len() == 0 {
            1
        } else {
            0
        },
        Err(RouteFailure::InvalidReference(_)) => 2,
        Err(RouteFailure::StepLimitExceeded) => 3,
    }
}

/// The outcome of a route search as its error code and its nodes: the nodes
/// come back only with code 0, that is only for a route that is not empty.
pub fn find_route_with_code(outcome: Result<Vec<i64>, RouteFailure>) -> (r: (u8, Vec<i64>))
    ensures
        r.0 == route_code(match outcome {
            Ok(v) => Ok(v@),
            Err(e) => Err(e),
        }),
        r.0 == 0 ==> (outcome matches Ok(v) && r.1@ == v@),
        r.0 != 0 ==> r.1@.len() == 0,
{
    let code = route_error_code(&outcome);
    match outcome {
        Ok(nodes) => if code == 0 {
            (0, nodes)
        } else {
            (code, Vec::new())
        },
        Err(_) => (code, Vec::new()),
    }
}

/// The outcomes of a route request that are not a route.
#[derive(Clone, Copy, PartialEq, Eq, Structural, Debug)]
pub enum RouteErr {
    NotLoaded,
    InvalidNode,
    StepLimit,
}

/// A failed route search as a request outcome.
pub fn route_err_of(f: RouteFailure) -> (e: RouteErr)
    ensures
        e == match f {
            RouteFailure::InvalidReference(_) => RouteErr::InvalidNode,
            RouteFailure::StepLimitExceeded => RouteErr::StepLimit,
        },
{
    match f {
        RouteFailure::InvalidReference(_) => RouteErr::InvalidNode,
        RouteFailure::StepLimitExceeded => RouteErr::StepLimit,
    }
}

/// The answer to a route request from the outcome of its route search: the
/// route's nodes (none where no route exists), or the error to answer with.
pub fn route_for_request(outcome: Result<Vec<i64>, RouteFailure>) -> (r: Result<Vec<i64>, RouteErr>)
    ensures
        match outcome {
            Ok(v) => r matches Ok(w) && w@ == v@,
            Err(RouteFailure::InvalidReference(_)) => r == Err::<Vec<i64>, RouteErr>(RouteErr::InvalidNode),
            Err(RouteFailure::StepLimitExceeded) => r == Err::<Vec<i64>, RouteErr>(RouteErr::StepLimit),
        },
{
    match outcome {
        Ok(nodes) => Ok(nodes),
        Err(f) => Err(route_err_of(f)),
    }
}

/// The HTTP status and message that answer a failed route request.
pub fn route_err_response(e: RouteErr) -> (r: (u16, &'static str))
    ensures
        e == RouteErr::NotLoaded ==> r.0 == 404 && r.1@ == "graph not loaded"@,
        e == RouteErr::InvalidNode ==> r.0 == 400 && r.1@ == "invalid node reference"@,
        e == RouteErr::StepLimit ==> r.0 == 408 && r.1@ == "step limit exceeded"@,
{
    match e {
        RouteErr::NotLoaded => (404, "graph not loaded"),
        RouteErr::InvalidNode => (400, "invalid node reference"),
        RouteErr::StepLimit => (408, "step limit exceeded"),
    }
}

} // verus!
