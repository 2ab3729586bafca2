//! Negotiation of the remote-read response type: response types are
//! taken from the request's list in order, and only the samples
//! encoding is served — a request that accepts only streamed chunks is
//! a hard error.

use vstd::prelude::*;

verus! {

/// Encodings a remote-read response can use.
#[derive(Clone, Copy, PartialEq, Eq, Structural, Debug)]
pub enum ResponseType {
    /// Plain samples.
    Samples,
    /// Streamed chunks; advertised by clients but not served here.
    StreamedXorChunks,
}

/// The wire code of a response type.
pub open spec fn spec_response_type_code(t: ResponseType) -> i32 {
    match t {
        ResponseType::Samples => 0,
        ResponseType::StreamedXorChunks => 1,
    }
}

pub fn response_type_code(t: ResponseType) -> (r: i32)
    ensures
        r == spec_response_type_code(t),
{
    match t {
        ResponseType::Samples => 0,
        ResponseType::StreamedXorChunks => 1,
    }
}

/// Whether the server implements a requested response type: only
/// samples are served.
pub open spec fn spec_is_supported(response_type: i32) -> bool {
    response_type == spec_response_type_code(ResponseType::Samples)
}

#[inline]
pub fn is_supported(response_type: i32) -> (r: bool)
    ensures
        r == spec_is_supported(response_type),
{
    response_type == 0
}

/// Error of a response-type negotiation.
#[derive(Clone, Copy, PartialEq, Eq, Structural, Debug)]
pub enum NegotiateError {
    /// The server implements none of the requested response types.
    NotSupported,
}

/// Negotiates the remote-read response type: a request that names no
/// types gets samples; otherwise the first supported entry wins, and a
/// list without one — a client that accepts only streamed chunks — is
/// refused.
pub fn negotiate_response_type(accepted_response_types: &Vec<i32>) -> (r: Result<
    ResponseType,
    NegotiateError,
>)
    ensures
        match r {
            Ok(t) => t == ResponseType::Samples && (accepted_response_types@.len() == 0 || exists|
                i: int,
            |
                0 <= i < accepted_response_types@.len() && spec_is_supported(
                    #[trigger] accepted_response_types@[i],
                )),
            Err(NegotiateError::NotSupported) => accepted_response_types@.len() > 0 && forall|
                i: int,
            |
                0 <= i < accepted_response_types@.len() ==> !spec_is_supported(
                    #[trigger] accepted_response_types@[i],
                ),
        },
{
    if accepted_response_types.len() == 0 {
        return Ok(ResponseType::Samples);
    }
    let mut i: usize = 0;
    while i < accepted_response_types.len()
        invariant
            i <= accepted_response_types@.len(),
            forall|j: int|
                0 <= j < i ==> !spec_is_supported(#[trigger] accepted_response_types@[j]),
        decreases accepted_response_types@.len() - i,
    {
        if is_supported(accepted_response_types[i]) {
            // The supported set holds samples alone.
            return Ok(ResponseType::Samples);
        }
        i = i + 1;
    }
    Err(NegotiateError::NotSupported)
}

} // verus!
