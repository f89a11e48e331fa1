use updater::error::Error;

#[test]
fn messages_without_detail() {
    assert_eq!(Error::NuspecNoVersion.message(), "error with nuspec file: version tag missing");
    assert_eq!(Error::NuspecNoDesc.message(), "error with nuspec file: description tag missing");
    assert_eq!(Error::UpdateNoRelease.message(), "error fetching version: no release found");
    assert_eq!(Error::UpdateParseVersion.message(), "error fetching version: can't parse version");
    assert_eq!(Error::PushFailed.message(), "error pushing package to git");
}

#[test]
fn messages_with_detail() {
    assert_eq!(Error::NuspecIo("denied".to_string()).message(), "error with nuspec file: denied");
    assert_eq!(Error::UpdateHttp("404".to_string()).message(), "error fetching version: 404");
    assert_eq!(Error::UpdateIo("eof".to_string()).message(), "error fetching version: eof");
    assert_eq!(Error::ScriptIo("locked".to_string()).message(), "error updating script: locked");
}

#[test]
fn asset_messages() {
    assert_eq!(Error::AssetHttp("x86", "timeout".to_string()).message(), "error fetching asset `x86`: timeout");
    assert_eq!(Error::AssetIo("x64", "reset".to_string()).message(), "error fetching asset `x64`: reset");
    assert_eq!(Error::AssetMissing("x64").message(), "error fetching asset `x64`: not found");
    assert_eq!(Error::AssetDuplicate("x86").message(), "error fetching asset `x86`: multiple options found");
    assert_eq!(Error::AssetSigFailed("x64").message(), "error fetching asset `x64`: signature verification failed");
    assert_eq!(Error::AssetChecksumMismatch("x64").message(), "error fetching asset `x64`: checksum verification failed");
    assert_eq!(
        Error::AssetBadFormat("checksums", "missing entries".to_string()).message(),
        "error fetching asset `checksums`: bad asset format: missing entries"
    );
}

#[test]
fn command_and_script_messages() {
    assert_eq!(Error::CommandIo("git push", "not found".to_string()).message(), "error running `git push`: not found");
    assert_eq!(
        Error::CommandStatus("choco push", "exit code: 1".to_string()).message(),
        "error running `choco push`: process exited unsuccessfully: exit code: 1"
    );
    assert_eq!(Error::ScriptMissingVar("url64").message(), "error updating script: missing variable `url64`");
}
