//! Chat notification data and the small decisions behind it. The actual
//! formatting and sending live with the caller; this module holds the
//! message model, the credential check, and version abbreviation.

use vstd::prelude::*;
use crate::errors::Error;

verus! {

/// Contact points of a service, carried into notifications.
#[derive(Clone)]
pub struct Metadata {
    /// Repository URL of the service
    pub repo: String,
    /// Chat handles to notify
    pub contacts: Vec<String>,
}

/// A chat message to send: text, provenance, and presentation options.
pub struct Message {
    /// Text in the message
    pub text: String,
    /// Metadata from the manifest
    pub metadata: Option<Metadata>,
    /// Set when not wanting to notify people
    pub quiet: bool,
    /// Optional color for the attachment
    pub color: Option<String>,
    /// Optional code input
    pub code: Option<String>,
    /// Optional version to send when not having code diffs
    pub version: Option<String>,
}

/// Check that chat credentials are configured: first the channel, then the
/// hook URL, each reported when missing.
pub fn have_credentials(hook_url: &Option<String>, channel: &Option<String>) -> (r: Result<
    (),
    Error,
>)
    ensures
        r is Ok <==> (hook_url is Some && channel is Some),
        channel is None ==> r == Err::<(), Error>(Error::MissingSlackChannel),
        channel is Some && hook_url is None ==> r == Err::<(), Error>(Error::MissingSlackUrl),
{
    if channel.is_none() {
        return Err(Error::MissingSlackChannel);
    }
    if hook_url.is_none() {
        return Err(Error::MissingSlackUrl);
    }
    Ok(())
}

/// Whether a version string is a well-formed semantic version.
pub uninterp spec fn is_semver(s: Seq<char>) -> bool;

/// Relies on semver::Version::parse: whether the text parses as a semantic
/// version depends on its characters alone.
#[verifier::external_body]
fn semver_parses(s: &str) -> (r: bool)
    ensures
        r == is_semver(s@),
{
    semver::Version::parse(s).is_ok()
}

/// Abbreviate a version for display: a 40-character identifier that is not
/// a semantic version is taken for a revision hash and cut to its first 8
/// characters; anything else is returned unchanged.
pub fn short_ver(ver: String) -> (r: String)
    ensures
        r@ == (if !is_semver(ver@) && ver@.len() == 40 {
            ver@.subrange(0, 8)
        } else {
            ver@
        }),
{
    let n = ver.as_str().unicode_len();
    if !semver_parses(ver.as_str()) && n == 40 {
        ver.as_str().substring_char(0, 8).to_owned()
    } else {
        ver
    }
}

} // verus!
