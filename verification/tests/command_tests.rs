use updater::command::{commit_args, nupkg_arg, nuspec_arg, reset_target};
use updater::version::Version;

#[test]
fn commit_argument() {
    let v = Version { major: 1, minor: 4, patch: 2, build: 0 };
    assert_eq!(
        commit_args("imhex", v),
        "commit --author=\"Github Actions <jarcho@users.noreply.github.com>\" --message=\"Updated `imhex` to `1.4.2`\" \"imhex/imhex.nuspec\" \"imhex/tools/chocolateyinstall.ps1\""
    );
}

#[test]
fn reset_targets() {
    assert_eq!(reset_target(0), "HEAD~0");
    assert_eq!(reset_target(3), "HEAD~3");
    assert_eq!(reset_target(120), "HEAD~120");
}

#[test]
fn choco_paths() {
    assert_eq!(nuspec_arg("madvr"), ".\\madvr\\madvr.nuspec");
    let v = Version { major: 0, minor: 92, patch: 17, build: 0 };
    assert_eq!(nupkg_arg("madvr", v), ".\\madvr\\madvr.0.92.17.nupkg");
}
