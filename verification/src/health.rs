//! The health check.
use vstd::prelude::*;

verus! {

/// The answer of the health check.
pub struct HealthResponse {
    pub status: String,
}

/// `ok` while the storage directory exists, `degraded` otherwise.
pub open spec fn health_status(storage_exists: bool) -> Seq<char> {
    if storage_exists {
        "ok"@
    } else {
        "degraded"@
    }
}

/// The health is `ok` exactly while the storage directory exists, and
/// `degraded` otherwise.
pub proof fn law_health_status(storage_exists: bool)
    ensures
        health_status(true) == "ok"@,
        health_status(false) == "degraded"@,
        health_status(storage_exists) == "ok"@ <==> storage_exists,
{
    reveal_strlit("ok");
    reveal_strlit("degraded");
    assert("ok"@ != "degraded"@) by {
        assert("ok"@.len() != "degraded"@.len());
    }
}

/// The health of the server, given whether its storage directory exists.
pub fn health(storage_exists: bool) -> (r: HealthResponse)
    ensures
        r.status@ == health_status(storage_exists),
{
    let status = if storage_exists {
        String::from_str("ok")
    } else {
        String::from_str("degraded")
    };
    HealthResponse { status }
}

} // verus!
