//! Authorization of requests and the count of requests in progress.

use vstd::prelude::*;

use std::sync::atomic::{AtomicUsize, Ordering};

use crate::error::{is_unauthorized, unauthorized, ErrorResponse};
use crate::state::AppState;
use crate::text::str_eq;

verus! {

/// A request is authorized when no token is configured, or when its
/// `Authorization` header holds exactly the configured token.
pub open spec fn authorized(header: Option<&str>, token: Option<String>) -> bool {
    match token {
        None => true,
        Some(t) => header is Some && header->0@ == t@,
    }
}

/// Checks the `Authorization` header value of a request (`None` when the
/// header is missing or not valid text) against the configured token.
pub fn require_auth(header: Option<&str>, state: &AppState) -> (r: Result<(), ErrorResponse>)
    ensures
        r is Ok <==> authorized(header, *state.auth_token),
        r matches Err(e) ==> is_unauthorized(e),
{
    let token: &Option<String> = &state.auth_token;
    match token {
        None => Ok(()),
        Some(expected) => match header {
            Some(h) => {
                if str_eq(h, expected.as_str()) {
                    Ok(())
                } else {
                    Err(unauthorized())
                }
            },
            None => Err(unauthorized()),
        },
    }
}

/// One more than `previous`, wrapping around at the largest value as an
/// atomic increment does.
pub open spec fn count_after_start(previous: usize) -> usize {
    if previous == usize::MAX {
        0
    } else {
        (previous + 1) as usize
    }
}

/// One less than `previous`, never below zero.
pub open spec fn count_after_finish(previous: usize) -> usize {
    if previous == 0 {
        0
    } else {
        (previous - 1) as usize
    }
}

/// A request that starts and then finishes leaves the count where it was
/// (below the largest value, where the increment wraps).
pub proof fn lemma_start_then_finish(n: usize)
    requires
        n < usize::MAX,
    ensures
        count_after_finish(count_after_start(n)) == n,
{
}

/// The count of requests in progress after one more starts, given the count before.
pub fn in_flight_after_start(previous: usize) -> (r: usize)
    ensures
        r == count_after_start(previous),
{
    if previous == usize::MAX {
        0
    } else {
        previous + 1
    }
}

/// The count of requests in progress reported after one finishes, given the count before.
pub fn in_flight_after_finish(previous: usize) -> (r: usize)
    ensures
        r == count_after_finish(previous),
{
    if previous == 0 {
        0
    } else {
        previous - 1
    }
}

/// Counts a request as started and returns the new count. The count is
/// shared between concurrent requests, so the previous value is whatever the
/// atomic held.
pub fn inc_in_flight(state: &AppState) -> (r: usize)
    ensures
        exists|previous: usize| r == #[trigger] count_after_start(previous),
{
    let previous = state.in_flight.fetch_add(1, Ordering::SeqCst);
    in_flight_after_start(previous)
}

/// The count after one request finishes, when it can be lowered: `None` at zero.
fn decrement_unless_zero(n: usize) -> (r: Option<usize>)
    ensures
        r == (if n == 0 {
            None
        } else {
            Some((n - 1) as usize)
        }),
{
    if n == 0 {
        None
    } else {
        Some(n - 1)
    }
}

/// Lowers the shared count with `AtomicUsize::fetch_update`, which applies
/// `decrement_unless_zero` atomically (leaving the count unchanged at zero),
/// and returns the count before. Trusted to make that call only: the count
/// is shared between concurrent requests, so nothing is promised of the value.
#[verifier::external_body]
fn saturating_decrement(counter: &AtomicUsize) -> usize {
    match counter.fetch_update(Ordering::SeqCst, Ordering::SeqCst, |n| decrement_unless_zero(n)) {
        Ok(previous) => previous,
        Err(previous) => previous,
    }
}

/// Counts a request as finished and returns the new count; the shared count
/// never drops below zero.
pub fn dec_in_flight(state: &AppState) -> (r: usize)
    ensures
        r < usize::MAX,
        exists|previous: usize| r == #[trigger] count_after_finish(previous),
{
    let previous = saturating_decrement(&state.in_flight);
    in_flight_after_finish(previous)
}

} // verus!
