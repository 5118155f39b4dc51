//! Fixed responses for compatibility endpoints that clients insist on
//! calling: token and key retrieval, telemetry, and profile checks. None of
//! them touches the registry; each returns a constant body with the media
//! kind the clients expect.

use vstd::prelude::*;

verus! {

/// The media kind a compatibility response is served under.
#[derive(Clone, Copy, Debug, PartialEq, Eq, Structural)]
pub enum MediaKind {
    Plain,
    Html,
    Json,
}

/// Clients refuse to accept a token when the profile has not been verified,
/// so answer the profile check with an empty object.
pub fn get_profile() -> (r: (MediaKind, &'static str))
    ensures
        r.0 == MediaKind::Json,
        r.1@ == "{}"@,
{
    (MediaKind::Json, "{}")
}

/// Swallow a token post without complaint.
pub fn silence_jwt_post(_token: String, _body: String) -> (r: (MediaKind, &'static str))
    ensures
        r.0 == MediaKind::Plain,
        r.1@ == ""@,
{
    (MediaKind::Plain, "")
}

/// Swallow a bare token post without complaint.
pub fn silence_jst_empty_post(_body: Vec<u8>) -> (r: (MediaKind, &'static str))
    ensures
        r.0 == MediaKind::Plain,
        r.1@ == ""@,
{
    (MediaKind::Plain, "")
}

/// Swallow telemetry without complaint.
pub fn silence_telemetry() -> (r: (MediaKind, &'static str))
    ensures
        r.0 == MediaKind::Plain,
        r.1@ == ""@,
{
    (MediaKind::Plain, "")
}

/// Serve the published certificate key material.
pub fn ok_for_pkey_retrieval() -> (r: (MediaKind, &'static str))
    ensures
        r.0 == MediaKind::Plain,
        r.1@ == "SECRET-REDACTED"@,
{
    (MediaKind::Plain, "SECRET-REDACTED")
}

/// Serve the fixed token. Clients historically received this under an HTML
/// media kind by mistake and now rely on it, so the mistake is kept.
pub fn ok_for_token_retrieval(_body: String) -> (r: (MediaKind, &'static str))
    ensures
        r.0 == MediaKind::Html,
        r.1@ == "SECRET-REDACTED"@,
{
    (MediaKind::Html, "SECRET-REDACTED")
}

} // verus!
