//! The errors that updating a package can end in, and how each is reported.

use vstd::prelude::*;
use vstd::string::StringExecFns;

verus! {

/// What went wrong while updating a package. Where the cause was an error of
/// the operating system, of the network or of a child process, the variant
/// carries that error's own description.
#[derive(Debug)]
pub enum Error {
    /// An IO error while manipulating a nuspec file.
    NuspecIo(String),
    /// A nuspec file was missing the version tag.
    NuspecNoVersion,
    /// A nuspec file was missing the description tag.
    NuspecNoDesc,
    /// An http error while checking for a new version.
    UpdateHttp(String),
    /// An io error while checking for a new version.
    UpdateIo(String),
    /// No release information was found while checking for a new version.
    UpdateNoRelease,
    /// Failed to parse the version information while checking for a new version.
    UpdateParseVersion,
    /// An http error while fetching an asset.
    AssetHttp(&'static str, String),
    /// An io error while fetching an asset.
    AssetIo(&'static str, String),
    /// An expected asset was missing from the release.
    AssetMissing(&'static str),
    /// A duplicate asset was found with the release.
    AssetDuplicate(&'static str),
    /// An asset failed the pgp signature check.
    AssetSigFailed(&'static str),
    /// An asset did not have the expected checksum.
    AssetChecksumMismatch(&'static str),
    /// An asset was retrieved, but did not match the expected format.
    AssetBadFormat(&'static str, String),
    /// An io error while running a command.
    CommandIo(&'static str, String),
    /// A command failed with an unknown error.
    CommandStatus(&'static str, String),
    /// An error occurred while pushing the updated git package.
    PushFailed,
    /// An io error while updating the install script.
    ScriptIo(String),
    /// The install script was missing an expected variable.
    ScriptMissingVar(&'static str),
}

/// The report line of an error about an asset: the asset's name in backticks, then `tail`.
pub open spec fn asset_message(asset: Seq<char>, tail: Seq<char>) -> Seq<char> {
    "error fetching asset `"@ + asset + "`"@ + tail
}

/// The text with which an error is reported.
pub open spec fn spec_message(e: Error) -> Seq<char> {
    match e {
        Error::NuspecIo(m) => "error with nuspec file: "@ + m@,
        Error::NuspecNoVersion => "error with nuspec file: version tag missing"@,
        Error::NuspecNoDesc => "error with nuspec file: description tag missing"@,
        Error::UpdateHttp(m) => "error fetching version: "@ + m@,
        Error::UpdateIo(m) => "error fetching version: "@ + m@,
        Error::UpdateNoRelease => "error fetching version: no release found"@,
        Error::UpdateParseVersion => "error fetching version: can't parse version"@,
        Error::AssetHttp(a, m) => asset_message(a@, ": "@ + m@),
        Error::AssetIo(a, m) => asset_message(a@, ": "@ + m@),
        Error::AssetMissing(a) => asset_message(a@, ": not found"@),
        Error::AssetDuplicate(a) => asset_message(a@, ": multiple options found"@),
        Error::AssetSigFailed(a) => asset_message(a@, ": signature verification failed"@),
        Error::AssetChecksumMismatch(a) => asset_message(a@, ": checksum verification failed"@),
        Error::AssetBadFormat(a, m) => asset_message(a@, ": bad asset format: "@ + m@),
        Error::CommandIo(n, m) => "error running `"@ + n@ + "`: "@ + m@,
        Error::CommandStatus(n, m) => "error running `"@ + n@
            + "`: process exited unsuccessfully: "@ + m@,
        Error::PushFailed => "error pushing package to git"@,
        Error::ScriptIo(m) => "error updating script: "@ + m@,
        Error::ScriptMissingVar(v) => "error updating script: missing variable `"@ + v@ + "`"@,
    }
}

fn asset_text(asset: &str, tail: &str) -> (res: String)
    ensures
        res@ == asset_message(asset@, tail@),
{
    let mut s = String::from_str("error fetching asset `");
    s.append(asset);
    s.append("`");
    s.append(tail);
    assert(s@ =~= asset_message(asset@, tail@));
    s
}

fn asset_text_detail(asset: &str, tail: &str, detail: &str) -> (res: String)
    ensures
        res@ == asset_message(asset@, tail@ + detail@),
{
    let mut s = asset_text(asset, tail);
    s.append(detail);
    assert(s@ =~= asset_message(asset@, tail@ + detail@));
    s
}

fn prefixed(prefix: &str, detail: &str) -> (res: String)
    ensures
        res@ == prefix@ + detail@,
{
    let mut s = String::from_str(prefix);
    s.append(detail);
    s
}

impl Error {
    /// The text with which this error is reported.
    pub fn message(&self) -> (res: String)
        ensures
            res@ == spec_message(*self),
    {
        match self {
            Error::NuspecIo(m) => prefixed("error with nuspec file: ", m.as_str()),
            Error::NuspecNoVersion => String::from_str("error with nuspec file: version tag missing"),
            Error::NuspecNoDesc => String::from_str(
                "error with nuspec file: description tag missing",
            ),
            Error::UpdateHttp(m) => prefixed("error fetching version: ", m.as_str()),
            Error::UpdateIo(m) => prefixed("error fetching version: ", m.as_str()),
            Error::UpdateNoRelease => String::from_str("error fetching version: no release found"),
            Error::UpdateParseVersion => String::from_str(
                "error fetching version: can't parse version",
            ),
            Error::AssetHttp(a, m) => asset_text_detail(a, ": ", m.as_str()),
            Error::AssetIo(a, m) => asset_text_detail(a, ": ", m.as_str()),
            Error::AssetMissing(a) => asset_text(a, ": not found"),
            Error::AssetDuplicate(a) => asset_text(a, ": multiple options found"),
            Error::AssetSigFailed(a) => asset_text(a, ": signature verification failed"),
            Error::AssetChecksumMismatch(a) => asset_text(a, ": checksum verification failed"),
            Error::AssetBadFormat(a, m) => asset_text_detail(a, ": bad asset format: ", m.as_str()),
            Error::CommandIo(n, m) => {
                let mut s = String::from_str("error running `");
                s.append(n);
                s.append("`: ");
                s.append(m.as_str());
                s
            },
            Error::CommandStatus(n, m) => {
                let mut s = String::from_str("error running `");
                s.append(n);
                s.append("`: process exited unsuccessfully: ");
                s.append(m.as_str());
                s
            },
            Error::PushFailed => String::from_str("error pushing package to git"),
            Error::ScriptIo(m) => prefixed("error updating script: ", m.as_str()),
            Error::ScriptMissingVar(v) => {
                let mut s = String::from_str("error updating script: missing variable `");
                s.append(v);
                s.append("`");
                s
            },
        }
    }
}

} // verus!
