//! The control endpoint's decision logic: bearer-token authorization for
//! cache refresh requests.

use vstd::prelude::*;
use crate::path_matcher::str_eq;
use vstd::string::StringExecFns;

verus! {

/// The view of an optional string argument.
pub open spec fn view_opt_string(s: Option<&String>) -> Option<Seq<char>> {
    match s {
        Some(v) => Some(v@),
        None => None,
    }
}

/// A refresh request is authorized when no token is configured, or when
/// the `Authorization` header is exactly `Bearer ` followed by the
/// configured token.
pub open spec fn spec_authorized(required: Option<Seq<char>>, header: Option<Seq<char>>) -> bool {
    match required {
        None => true,
        Some(tok) => header == Some("Bearer "@ + tok),
    }
}

/// Decide whether a refresh request carries the required bearer token.
pub fn control_authorized(required: Option<&String>, auth_header: Option<&String>) -> (r: bool)
    ensures
        r == spec_authorized(view_opt_string(required), view_opt_string(auth_header)),
{
    match required {
        None => true,
        Some(tok) => {
            match auth_header {
                None => false,
                Some(h) => {
                    let mut expected = "Bearer ".to_owned();
                    expected.append(tok.as_str());
                    str_eq(h.as_str(), expected.as_str())
                },
            }
        },
    }
}

/// The status the control endpoint replies with: `401 Unauthorized` when
/// the bearer token is missing or wrong, else `200 OK` (and the refresh
/// is triggered).
pub fn control_response_status(required: Option<&String>, auth_header: Option<&String>) -> (r: u16)
    ensures
        r == 200 <==> spec_authorized(view_opt_string(required), view_opt_string(auth_header)),
        r == 200 || r == 401,
{
    if control_authorized(required, auth_header) {
        200
    } else {
        401
    }
}

} // verus!
