//! The health endpoint's answer.

use vstd::prelude::*;

use std::sync::atomic::Ordering;

use crate::state::{AppState, HealthzResponse};

verus! {

/// The health answer: the application name, its version, status `ok`, and
/// the number of requests in progress (whatever the shared count holds).
pub fn health(state: &AppState, version: &'static str) -> (r: HealthzResponse)
    ensures
        r.app@ == "sobj-server"@,
        r.version == version,
        r.status@ == "ok"@,
{
    HealthzResponse {
        app: "sobj-server",
        version,
        status: "ok",
        in_flight: state.in_flight.load(Ordering::Relaxed),
    }
}

} // verus!
