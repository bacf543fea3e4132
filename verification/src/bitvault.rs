//! The Bitvault paste service: where a translation is saved, how the
//! request is authorised, and which URLs the text proxy may fetch.
use vstd::prelude::*;
use crate::access::{api_error, err_view, ApiError};
use crate::text::{chars_of, push_str, starts_with, starts_with_chars, string_of};

verus! {

broadcast use vstd::string::group_string_axioms;

/// Query of the text proxy: the paste URL to fetch.
pub struct ProxyQuery {
    pub url: String,
}

/// The error answered when no Bitvault instance is configured.
pub open spec fn not_configured() -> (u16, Seq<char>) {
    (404u16, "Bitvault not configured"@)
}

/// The paste-creation endpoint of the configured instance, or the
/// "not configured" error (HTTP 404).
pub fn paste_endpoint(bitvault_url: Option<&str>) -> (r: Result<String, ApiError>)
    ensures
        match bitvault_url {
            Some(u) => r matches Ok(e) && e@ == u@ + "/api/v1/paste"@,
            None => r matches Err(e) && err_view(e) == not_configured(),
        },
{
    match bitvault_url {
        Some(u) => {
            let mut out: Vec<char> = Vec::new();
            push_str(&mut out, u);
            push_str(&mut out, "/api/v1/paste");
            Ok(string_of(out.as_slice()))
        },
        None => Err(api_error(404, "Bitvault not configured")),
    }
}

/// The `Authorization` header sent to Bitvault: `Bearer <key>` when an API
/// key is configured, none otherwise.
pub fn bitvault_authorization(api_key: Option<&str>) -> (r: Option<String>)
    ensures
        match api_key {
            Some(k) => r matches Some(h) && h@ == "Bearer "@ + k@,
            None => r is None,
        },
{
    match api_key {
        Some(k) => {
            let mut out: Vec<char> = Vec::new();
            push_str(&mut out, "Bearer ");
            push_str(&mut out, k);
            Some(string_of(out.as_slice()))
        },
        None => None,
    }
}

/// Checks a proxy request: Bitvault must be configured (else HTTP 404) and
/// the URL must start with the configured instance's URL (else HTTP 403).
pub fn check_proxy_url(bitvault_url: Option<&str>, q: &ProxyQuery) -> (r: Result<(), ApiError>)
    ensures
        match bitvault_url {
            None => r matches Err(e) && err_view(e) == not_configured(),
            Some(u) => if starts_with(q.url@, u@) {
                r is Ok
            } else {
                r matches Err(e) && err_view(e) == (
                    403u16,
                    "URL not allowed — must point to the configured Bitvault instance"@,
                )
            },
        },
{
    match bitvault_url {
        None => Err(api_error(404, "Bitvault not configured")),
        Some(u) => {
            let uv = chars_of(q.url.as_str());
            let bv = chars_of(u);
            if starts_with_chars(uv.as_slice(), bv.as_slice()) {
                Ok(())
            } else {
                Err(api_error(403, "URL not allowed — must point to the configured Bitvault instance"))
            }
        },
    }
}

} // verus!
