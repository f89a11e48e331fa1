//! The arguments of the `git` and `choco` commands run for a package.

use vstd::prelude::*;
use vstd::string::StringExecFns;
use crate::bytes::{ascii_chars, ascii_string, dec, lemma_dec_digits, push_decimal};
use crate::version::{spec_display, Version};

verus! {

/// The raw argument of the `git commit` of an updated package: the author,
/// the message, and the package's nuspec file and install script.
pub open spec fn spec_commit_args(package: Seq<char>, version: Version) -> Seq<char> {
    "commit --author=\"Github Actions <jarcho@users.noreply.github.com>\" --message=\"Updated `"@
        + package + "` to `"@ + ascii_chars(spec_display(version)) + "`\" \""@ + package + "/"@
        + package + ".nuspec\" \""@ + package + "/tools/chocolateyinstall.ps1\""@
}

/// The raw argument of the `git commit` of an updated package.
pub fn commit_args(package: &str, version: Version) -> (res: String)
    ensures
        res@ == spec_commit_args(package@, version),
{
    let v = version.to_string();
    let mut s = String::from_str(
        "commit --author=\"Github Actions <jarcho@users.noreply.github.com>\" --message=\"Updated `",
    );
    s.append(package);
    s.append("` to `");
    s.append(v.as_str());
    s.append("`\" \"");
    s.append(package);
    s.append("/");
    s.append(package);
    s.append(".nuspec\" \"");
    s.append(package);
    s.append("/tools/chocolateyinstall.ps1\"");
    assert(s@ =~= spec_commit_args(package@, version));
    s
}

/// The commit that `git reset` goes back to: `count` commits before `HEAD`.
pub fn reset_target(count: usize) -> (res: String)
    ensures
        res@ == "HEAD~"@ + ascii_chars(dec(count as nat)),
{
    let mut digits: Vec<u8> = Vec::new();
    push_decimal(&mut digits, count as u64);
    proof {
        lemma_dec_digits(count as nat);
        assert(digits@ =~= dec(count as nat));
        assert forall|i: int| 0 <= i < digits@.len() implies #[trigger] digits@[i] < 128 by {
            assert(crate::bytes::is_ascii_digit(dec(count as nat)[i]));
        }
    }
    let d = ascii_string(digits);
    let mut s = String::from_str("HEAD~");
    s.append(d.as_str());
    s
}

/// The nuspec file that `choco pack` packs: `.\<package>\<package>.nuspec`.
pub fn nuspec_arg(package: &str) -> (res: String)
    ensures
        res@ == ".\\"@ + package@ + "\\"@ + package@ + ".nuspec"@,
{
    let mut s = String::from_str(".\\");
    s.append(package);
    s.append("\\");
    s.append(package);
    s.append(".nuspec");
    s
}

/// The package file that `choco push` pushes: `.\<package>\<package>.<version>.nupkg`.
pub fn nupkg_arg(package: &str, version: Version) -> (res: String)
    ensures
        res@ == ".\\"@ + package@ + "\\"@ + package@ + "."@ + ascii_chars(spec_display(version))
            + ".nupkg"@,
{
    let v = version.to_string();
    let mut s = String::from_str(".\\");
    s.append(package);
    s.append("\\");
    s.append(package);
    s.append(".");
    s.append(v.as_str());
    s.append(".nupkg");
    s
}

} // verus!
