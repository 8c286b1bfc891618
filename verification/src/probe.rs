//! The endpoint prober's decision rule.
//!
//! The network call itself and the JSON mechanics live outside the library;
//! what a probe concludes from what came back is decided here: a metadata
//! record exactly when the endpoint answered with success and a document of
//! the right schema, and otherwise the error that names what went wrong.
//! Transport-level failures never reach this rule — the caller records them
//! as `Unreachable` or `Timeout` before there is a status to look at.

use vstd::prelude::*;

use crate::model::MetadataRecord;
use crate::model::ProbeError;

verus! {

/// An HTTP status that counts as success.
pub open spec fn is_success_status(status: u16) -> bool {
    200 <= status < 300
}

/// Decides one probe's outcome from the response's status and the decoded
/// document, if the body decoded at all: the metadata on a successful,
/// well-formed answer; `HttpError` on any non-success status; `Malformed`
/// when a successful answer does not carry the expected schema.
pub fn classify_metadata_response(status: u16, decoded: Option<MetadataRecord>) -> (r: Result<
    MetadataRecord,
    ProbeError,
>)
    ensures
        is_success_status(status) && decoded is Some ==> r == Result::<
            MetadataRecord,
            ProbeError,
        >::Ok(decoded->0),
        is_success_status(status) && decoded is None ==> r == Result::<
            MetadataRecord,
            ProbeError,
        >::Err(ProbeError::Malformed),
        !is_success_status(status) ==> r == Result::<MetadataRecord, ProbeError>::Err(
            ProbeError::HttpError,
        ),
{
    if status < 200 || status >= 300 {
        Result::Err(ProbeError::HttpError)
    } else {
        match decoded {
            Option::Some(m) => Result::Ok(m),
            Option::None => Result::Err(ProbeError::Malformed),
        }
    }
}

} // verus!
