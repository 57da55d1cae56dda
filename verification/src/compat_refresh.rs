//! Where the compatibility bundle (the signed manifest and its public key)
//! is downloaded from, and how a download's HTTP status is judged.
use vstd::prelude::*;

use crate::paths::trim_end_char_exec;
use crate::text::{owned, trim_end_char};

verus! {

/// The release that the bundle comes from when no base URL is given.
pub const DEFAULT_RELEASE_BASE_URL: &'static str =
    "https://github.com/personal/codex-hud/releases/latest/download";

/// The base URL in use: the given one or the default, without trailing `/`.
pub open spec fn release_base(given: Option<Seq<char>>) -> Seq<char> {
    trim_end_char(
        match given {
            Some(u) => u,
            None => DEFAULT_RELEASE_BASE_URL@,
        },
        '/',
    )
}

/// The URLs of the manifest (`compat.json`) and of the public key
/// (`public_key.hex`) under the release base URL.
pub fn compat_bundle_urls(release_base_url: Option<&str>) -> (r: (String, String))
    ensures
        r.0@ == release_base(
            match release_base_url {
                Some(u) => Some(u@),
                None => None,
            },
        ) + "/compat.json"@,
        r.1@ == release_base(
            match release_base_url {
                Some(u) => Some(u@),
                None => None,
            },
        ) + "/public_key.hex"@,
{
    let base = match release_base_url {
        Some(u) => trim_end_char_exec(u, '/'),
        None => trim_end_char_exec(DEFAULT_RELEASE_BASE_URL, '/'),
    };
    let mut manifest_url = base.clone();
    manifest_url.append("/compat.json");
    let mut pubkey_url = owned(base.as_str());
    pubkey_url.append("/public_key.hex");
    (manifest_url, pubkey_url)
}

/// Whether an HTTP status is a success (2xx).
pub open spec fn is_success_status(status_code: u16) -> bool {
    200 <= status_code < 300
}

/// The error for a download of `url` that answered with a status: `None`
/// for a success, else `download failed: <url> (<status>)`, where
/// `status_text` is the status as the HTTP client prints it.
pub fn download_failure(url: &str, status_code: u16, status_text: &str) -> (r: Option<String>)
    ensures
        is_success_status(status_code) ==> r is None,
        !is_success_status(status_code) ==> (r matches Some(e) && e@ == "download failed: "@
            + url@ + " ("@ + status_text@ + ")"@),
{
    if 200 <= status_code && status_code < 300 {
        return None;
    }
    let mut e = owned("download failed: ");
    e.append(url);
    e.append(" (");
    e.append(status_text);
    e.append(")");
    Some(e)
}

} // verus!
