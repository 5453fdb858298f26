//! The per-request decision a worker makes: which response to write back.
//!
//! The worker loop itself blocks on a queue and on sockets, so it lives
//! outside this crate; it feeds each outcome through `choose_response`,
//! which yields exactly one response for every outcome.

use vstd::prelude::*;

use crate::response::ClientError;
use crate::response::ReboundResponse;

verus! {

/// The one response to write for a request's outcome. `upstream_result` is
/// `None` when no rule matched (nothing was sent upstream); otherwise it is
/// what the upstream call yielded. Every outcome produces exactly one
/// response: the upstream's own on success, the error provider's otherwise.
pub fn choose_response(
    upstream_result: Option<Result<ReboundResponse, ClientError>>,
    error_response: ReboundResponse,
) -> (r: ReboundResponse)
    ensures
        (match upstream_result {
            Some(Ok(res)) => r == res,
            Some(Err(_)) => r == error_response,
            None => r == error_response,
        }),
{
    match upstream_result {
        Some(Ok(res)) => res,
        Some(Err(_)) => error_response,
        None => error_response,
    }
}

} // verus!
