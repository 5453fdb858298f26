//! The normalized response record, and the ways an upstream call can fail.

use vstd::prelude::*;

use crate::strmap::StrMap;

verus! {

/// Why an upstream call yielded no response.
#[derive(Clone, Copy, PartialEq, Eq, Structural, Debug)]
pub enum ClientError {
    /// The connection could not be established.
    Connect,
    /// The TLS handshake failed.
    Tls,
    /// The call did not finish in time.
    Timeout,
    /// The response body could not be read whole.
    BodyRead,
}

/// A normalized response: status code, headers, and the whole body.
pub struct ReboundResponse {
    pub status: u16,
    pub headers: StrMap,
    pub body: Vec<u8>,
}

impl ReboundResponse {
    /// The header map holds one entry per name.
    pub open spec fn wf(&self) -> bool {
        self.headers.wf()
    }

    /// A response carrying the given status and body, with no headers; the
    /// shape an error provider hands back.
    pub fn error_body(status: u16, body: Vec<u8>) -> (r: ReboundResponse)
        ensures
            r.status == status,
            r.body@ == body@,
            r.headers@ == Map::<Seq<char>, Seq<char>>::empty(),
            r.wf(),
    {
        ReboundResponse { status, headers: StrMap::new(), body }
    }
}

} // verus!
