//! The packages this tool keeps up to date, and how a new upstream release
//! of each is recognised.

use vstd::prelude::*;
use vstd::string::{StringExecFns, StringSliceAdditionalSpecFns};
use crate::bytes::{
    all_ascii, ascii_chars, ascii_string, find_byte_from, first_index_of, lemma_first_index_of,
    occurs_at, spec_find, spec_lines, is_first_occurrence, lemma_spec_find, lemma_spec_find_none,
    bytes_eq,
};
use crate::download::{parse_signature, parsed_signature, signature_error_text, signature_parses, spec_parse_hex, Sha1};
use crate::error::Error;
use crate::github::{
    extract_assets, first_accepting, is_suffix, spec_accepts, spec_extract, AssetExtractor,
    NameMatcher, Release,
};
use crate::version::{parse_u16, spec_newer, spec_parse_u16, spec_parse_version, Version};

verus! {

/// Where and how to download one platform's build of a package.
pub struct PlatformUpdate {
    pub url: String,
    pub checksum: Option<Sha1>,
    pub sig: Option<pgp::StandaloneSignature>,
}

impl PlatformUpdate {
    /// A download with nothing to check it against.
    pub fn new(url: String) -> (res: PlatformUpdate)
        ensures
            res.url == url && res.checksum is None && res.sig is None,
    {
        PlatformUpdate { url, checksum: None, sig: None }
    }

    /// A download with a published checksum.
    pub fn with_checksum(url: String, checksum: Sha1) -> (res: PlatformUpdate)
        ensures
            res.url == url && res.checksum == Some(checksum) && res.sig is None,
    {
        PlatformUpdate { url, checksum: Some(checksum), sig: None }
    }

    /// A download with a detached pgp signature.
    pub fn with_sig(url: String, sig: pgp::StandaloneSignature) -> (res: PlatformUpdate)
        ensures
            res.url == url && res.checksum is None && res.sig == Some(sig),
    {
        PlatformUpdate { url, checksum: None, sig: Some(sig) }
    }

    /// The key and signature to check this download with: both when the
    /// package has a key, neither when it has none. A package with a key
    /// must sign all its downloads, and one without must sign none.
    pub fn signature_check<'a>(&'a self, key: Option<&'a pgp::SignedPublicKey>) -> (res: Option<
        (&'a pgp::SignedPublicKey, &'a pgp::StandaloneSignature),
    >)
        requires
            key is Some <==> self.sig is Some,
        ensures
            key is None ==> res is None,
            key matches Some(k) ==> (res matches Some((k2, s)) && k2 == k && self.sig == Some(*s)),
    {
        match (key, &self.sig) {
            (Some(k), Some(s)) => Some((k, s)),
            _ => None,
        }
    }
}

/// A new release of a package: its version and its downloads.
pub struct PackageUpdate {
    pub x32: Option<PlatformUpdate>,
    pub x64: Option<PlatformUpdate>,
    pub version: Version,
}

/// What processing a package came to.
#[derive(Debug)]
pub enum UpdateStatus {
    UpToDate(Version),
    Updated { prev: Version, new: Version },
}

/// The packages kept up to date.
#[derive(Clone, Copy, Debug, PartialEq, Eq, Structural)]
pub enum Package {
    Assfiltermod,
    Imhex,
    JujutsuPortable,
    Madvr,
    NextdnsCli,
    Protonmailbridge,
    Streamwhatyouhear,
    Xysubfilter,
}

/// The name of a package, which is also its directory.
pub open spec fn spec_name(p: Package) -> &'static str {
    match p {
        Package::Assfiltermod => "assfiltermod",
        Package::Imhex => "imhex",
        Package::JujutsuPortable => "jujutsu.portable",
        Package::Madvr => "madvr",
        Package::NextdnsCli => "nextdns-cli",
        Package::Protonmailbridge => "protonmailbridge",
        Package::Streamwhatyouhear => "streamwhatyouhear",
        Package::Xysubfilter => "xysubfilter",
    }
}

/// Where the newest release of a package is looked up.
pub open spec fn spec_version_url(p: Package) -> &'static str {
    match p {
        Package::Assfiltermod => "https://api.github.com/repos/Blitzker/assfiltermod/releases",
        Package::Imhex => "https://api.github.com/repos/WerWolv/ImHex/releases",
        Package::JujutsuPortable => "https://api.github.com/repos/jj-vcs/jj/releases",
        Package::Madvr => "https://www.videohelp.com/software/madVR",
        Package::NextdnsCli => "https://api.github.com/repos/nextdns/nextdns/releases",
        Package::Protonmailbridge => "https://api.github.com/repos/ProtonMail/proton-bridge/releases",
        Package::Streamwhatyouhear => "https://api.github.com/repos/StreamWhatYouHear/SWYH/releases",
        Package::Xysubfilter => "https://api.github.com/repos/Cyberbeing/xy-VSFilter/releases",
    }
}

/// The names of the assets a package needs from a GitHub release, in order.
#[verifier::opaque]
pub open spec fn spec_asset_names(p: Package) -> Seq<&'static str> {
    match p {
        Package::Assfiltermod => seq!["x86", "x64"],
        Package::Imhex => seq!["x64"],
        Package::JujutsuPortable => seq!["x64"],
        Package::Madvr => seq![],
        Package::NextdnsCli => seq!["x86", "x64", "checksums"],
        Package::Protonmailbridge => seq!["x64", "x64-sig"],
        Package::Streamwhatyouhear => seq!["x32"],
        Package::Xysubfilter => seq!["x86", "x64"],
    }
}

/// How each needed asset of a package is recognised by its file name.
#[verifier::opaque]
pub open spec fn spec_matchers(p: Package) -> Seq<NameMatcher> {
    match p {
        Package::Assfiltermod => seq![
            NameMatcher::EndsWith("_x32.zip"),
            NameMatcher::EndsWith("_x64.zip"),
        ],
        Package::Imhex => seq![NameMatcher::EndsWith("Windows-x86_64.msi")],
        Package::JujutsuPortable => seq![NameMatcher::EndsWith("-x86_64-pc-windows-msvc.zip ")],
        Package::Madvr => seq![],
        Package::NextdnsCli => seq![
            NameMatcher::EndsWith("_windows_386.zip"),
            NameMatcher::EndsWith("_windows_amd64.zip"),
            NameMatcher::Equals("checksums.txt"),
        ],
        Package::Protonmailbridge => seq![
            NameMatcher::Equals("Bridge-Installer.exe"),
            NameMatcher::Equals("Bridge-Installer.exe.sig"),
        ],
        Package::Streamwhatyouhear => seq![NameMatcher::StartsAndEndsWith("SWYH_", ".exe")],
        Package::Xysubfilter => seq![
            NameMatcher::EndsWith("_x86.zip"),
            NameMatcher::EndsWith("_x64.zip"),
        ],
    }
}

/// How many assets each package needs, with one matcher for each.
pub proof fn lemma_asset_counts(p: Package)
    ensures
        spec_asset_names(p).len() == spec_matchers(p).len(),
        spec_asset_names(p).len() == match p {
            Package::Assfiltermod | Package::Xysubfilter | Package::Protonmailbridge => 2nat,
            Package::NextdnsCli => 3nat,
            Package::Madvr => 0nat,
            _ => 1nat,
        },
{
    reveal(spec_asset_names);
    reveal(spec_matchers);
}

impl Package {
    /// Every package, in the order they are listed.
    pub fn all() -> (res: Vec<Package>)
        ensures
            res@ == seq![
                Package::Assfiltermod,
                Package::Imhex,
                Package::JujutsuPortable,
                Package::Madvr,
                Package::NextdnsCli,
                Package::Protonmailbridge,
                Package::Streamwhatyouhear,
                Package::Xysubfilter,
            ],
    {
        let mut v = Vec::new();
        v.push(Package::Assfiltermod);
        v.push(Package::Imhex);
        v.push(Package::JujutsuPortable);
        v.push(Package::Madvr);
        v.push(Package::NextdnsCli);
        v.push(Package::Protonmailbridge);
        v.push(Package::Streamwhatyouhear);
        v.push(Package::Xysubfilter);
        assert(v@ =~= seq![
            Package::Assfiltermod,
            Package::Imhex,
            Package::JujutsuPortable,
            Package::Madvr,
            Package::NextdnsCli,
            Package::Protonmailbridge,
            Package::Streamwhatyouhear,
            Package::Xysubfilter,
        ]);
        v
    }

    /// The name of the package.
    pub fn name(&self) -> (res: &'static str)
        ensures
            res == spec_name(*self),
    {
        match self {
            Package::Assfiltermod => "assfiltermod",
            Package::Imhex => "imhex",
            Package::JujutsuPortable => "jujutsu.portable",
            Package::Madvr => "madvr",
            Package::NextdnsCli => "nextdns-cli",
            Package::Protonmailbridge => "protonmailbridge",
            Package::Streamwhatyouhear => "streamwhatyouhear",
            Package::Xysubfilter => "xysubfilter",
        }
    }

    /// Where the newest release of the package is looked up.
    pub fn version_url(&self) -> (res: &'static str)
        ensures
            res == spec_version_url(*self),
    {
        match self {
            Package::Assfiltermod => "https://api.github.com/repos/Blitzker/assfiltermod/releases",
            Package::Imhex => "https://api.github.com/repos/WerWolv/ImHex/releases",
            Package::JujutsuPortable => "https://api.github.com/repos/jj-vcs/jj/releases",
            Package::Madvr => "https://www.videohelp.com/software/madVR",
            Package::NextdnsCli => "https://api.github.com/repos/nextdns/nextdns/releases",
            Package::Protonmailbridge => "https://api.github.com/repos/ProtonMail/proton-bridge/releases",
            Package::Streamwhatyouhear => "https://api.github.com/repos/StreamWhatYouHear/SWYH/releases",
            Package::Xysubfilter => "https://api.github.com/repos/Cyberbeing/xy-VSFilter/releases",
        }
    }

    /// The headers to send with the package's downloads.
    pub fn download_headers(&self) -> (res: Vec<(&'static str, &'static str)>)
        ensures
            *self == Package::Madvr ==> res@ == seq![
                ("Referrer", "https://www.videohelp.com/software/madVR"),
            ],
            *self != Package::Madvr ==> res@.len() == 0,
    {
        let mut v = Vec::new();
        if let Package::Madvr = self {
            v.push(("Referrer", "https://www.videohelp.com/software/madVR"));
            assert(v@ =~= seq![("Referrer", "https://www.videohelp.com/software/madVR")]);
        }
        v
    }

    /// Whether the package's downloads are signed with its pgp key.
    pub fn has_signing_key(&self) -> (res: bool)
        ensures
            res == (*self == Package::Protonmailbridge),
    {
        match self {
            Package::Protonmailbridge => true,
            _ => false,
        }
    }

    /// Whether the package's releases are looked up on GitHub.
    pub fn uses_github(&self) -> (res: bool)
        ensures
            res == (*self != Package::Madvr),
    {
        match self {
            Package::Madvr => false,
            _ => true,
        }
    }

    /// The names of the assets the package needs from a release.
    pub fn asset_names(&self) -> (res: Vec<&'static str>)
        ensures
            res@ == spec_asset_names(*self),
    {
        let mut v = Vec::new();
        match self {
            Package::Assfiltermod | Package::Xysubfilter => {
                v.push("x86");
                v.push("x64");
            },
            Package::Imhex | Package::JujutsuPortable => {
                v.push("x64");
            },
            Package::Madvr => {},
            Package::NextdnsCli => {
                v.push("x86");
                v.push("x64");
                v.push("checksums");
            },
            Package::Protonmailbridge => {
                v.push("x64");
                v.push("x64-sig");
            },
            Package::Streamwhatyouhear => {
                v.push("x32");
            },
        }
        reveal(spec_asset_names);
        assert(v@ =~= spec_asset_names(*self));
        v
    }

    /// How the package's needed assets are recognised.
    pub fn matchers(&self) -> (res: Vec<NameMatcher>)
        ensures
            res@ == spec_matchers(*self),
    {
        let mut v = Vec::new();
        match self {
            Package::Assfiltermod => {
                v.push(NameMatcher::EndsWith("_x32.zip"));
                v.push(NameMatcher::EndsWith("_x64.zip"));
            },
            Package::Imhex => {
                v.push(NameMatcher::EndsWith("Windows-x86_64.msi"));
            },
            Package::JujutsuPortable => {
                v.push(NameMatcher::EndsWith("-x86_64-pc-windows-msvc.zip "));
            },
            Package::Madvr => {},
            Package::NextdnsCli => {
                v.push(NameMatcher::EndsWith("_windows_386.zip"));
                v.push(NameMatcher::EndsWith("_windows_amd64.zip"));
                v.push(NameMatcher::Equals("checksums.txt"));
            },
            Package::Protonmailbridge => {
                v.push(NameMatcher::Equals("Bridge-Installer.exe"));
                v.push(NameMatcher::Equals("Bridge-Installer.exe.sig"));
            },
            Package::Streamwhatyouhear => {
                v.push(NameMatcher::StartsAndEndsWith("SWYH_", ".exe"));
            },
            Package::Xysubfilter => {
                v.push(NameMatcher::EndsWith("_x86.zip"));
                v.push(NameMatcher::EndsWith("_x64.zip"));
            },
        }
        reveal(spec_matchers);
        assert(v@ =~= spec_matchers(*self));
        v
    }
}

/// A release newer than the packaged version: its version, and the urls of
/// the assets the package needs, in the order of `spec_asset_names`.
pub struct FoundRelease {
    pub version: Version,
    pub urls: Vec<String>,
}

/// What checking a GitHub release gives: nothing when its version is not
/// newer than the packaged one; otherwise the new version and the urls of
/// the needed assets.
pub open spec fn spec_check_release(p: Package, prev: Version, tag: Seq<char>, assets: Seq<
    crate::github::Asset,
>) -> Result<Option<(Version, Seq<String>)>, Error> {
    match spec_parse_version(vstd::utf8::encode_utf8(tag)) {
        None => Err(Error::UpdateParseVersion),
        Some(v) => if spec_newer(v, prev) {
            match spec_extract(
                |n: Seq<u8>| first_accepting(spec_matchers(p), n, 0),
                spec_matchers(p).len(),
                spec_asset_names(p),
                assets,
            ) {
                Ok(urls) => Ok(Some((v, urls))),
                Err(e) => Err(e),
            }
        } else {
            Ok(None)
        },
    }
}

/// Checks a GitHub release of a package against the packaged version (see
/// `spec_check_release`).
pub fn check_release(p: Package, prev: Version, release: Release) -> (res: Result<
    Option<FoundRelease>,
    Error,
>)
    ensures
        match spec_check_release(p, prev, release.tag@, release.assets@) {
            Err(e) => res matches Err(e2) && e2 == e,
            Ok(None) => res matches Ok(None),
            Ok(Some((v, urls))) => res matches Ok(Some(f)) && f.version == v && f.urls@ == urls,
        },
        res matches Ok(Some(f)) ==> f.urls@.len() == spec_asset_names(p).len(),
{
    let version = match Version::parse(release.tag.as_str()) {
        Some(v) => v,
        None => {
            return Err(Error::UpdateParseVersion);
        },
    };
    if !version.newer_than(&prev) {
        return Ok(None);
    }
    let names = p.asset_names();
    let matchers = p.matchers();
    proof {
        lemma_asset_counts(p);
    }
    let ghost ms = matchers;
    assert((|n: Seq<u8>| ms.spec_classify(n)) =~= (|n: Seq<u8>|
        first_accepting(spec_matchers(p), n, 0)));
    proof {
        assert(crate::github::classify_in_range(
            |n: Seq<u8>| first_accepting(spec_matchers(p), n, 0),
            spec_matchers(p).len(),
        )) by {
            assert forall|n: Seq<u8>|
                #![trigger first_accepting(spec_matchers(p), n, 0)]
                (first_accepting(spec_matchers(p), n, 0) is Some) implies first_accepting(
                spec_matchers(p),
                n,
                0,
            )->Some_0 < spec_matchers(p).len() by {
                crate::github::lemma_first_accepting_bound(spec_matchers(p), n, 0);
            }
        }
        crate::github::lemma_extract_exact(
            |n: Seq<u8>| first_accepting(spec_matchers(p), n, 0),
            spec_matchers(p).len(),
            spec_asset_names(p),
            release.assets@,
        );
    }
    match extract_assets(release.assets, names.as_slice(), matchers) {
        Ok(urls) => Ok(Some(FoundRelease { version, urls })),
        Err(e) => Err(e),
    }
}

/// The downloads of a package whose release carries its builds directly:
/// the urls of the needed assets, by platform.
pub open spec fn spec_direct_urls(p: Package, urls: Seq<String>) -> (Option<String>, Option<String>) {
    match p {
        Package::Assfiltermod | Package::Xysubfilter => (Some(urls[0]), Some(urls[1])),
        Package::Imhex | Package::JujutsuPortable => (None, Some(urls[0])),
        Package::Streamwhatyouhear => (Some(urls[0]), None),
        _ => (None, None),
    }
}

pub open spec fn is_direct(p: Package) -> bool {
    p == Package::Assfiltermod || p == Package::Xysubfilter || p == Package::Imhex || p
        == Package::JujutsuPortable || p == Package::Streamwhatyouhear
}

pub open spec fn plain_download(u: Option<PlatformUpdate>, url: Option<String>) -> bool {
    match url {
        None => u is None,
        Some(x) => u matches Some(pu) && pu.url == x && pu.checksum is None && pu.sig is None,
    }
}

/// The asset name under which a package's 32-bit build is found.
pub open spec fn names_32bit_build(n: Seq<char>) -> bool {
    n == "x86"@ || n == "x32"@
}

/// Each platform gets the download of the asset named for it: the 32-bit
/// build is the asset named "x86" (or "x32"), the 64-bit build the one named
/// "x64"; a platform for which the package names no asset gets none.
pub proof fn lemma_direct_platforms(p: Package, urls: Seq<String>)
    requires
        is_direct(p),
        urls.len() == spec_asset_names(p).len(),
    ensures
        forall|i: int|
            0 <= i < urls.len() && names_32bit_build(#[trigger] spec_asset_names(p)[i]@)
                ==> spec_direct_urls(p, urls).0 == Some(urls[i]),
        forall|i: int|
            0 <= i < urls.len() && (#[trigger] spec_asset_names(p)[i])@ == "x64"@
                ==> spec_direct_urls(p, urls).1 == Some(urls[i]),
        (forall|i: int| 0 <= i < urls.len() ==> !names_32bit_build(#[trigger] spec_asset_names(p)[i]@))
            ==> spec_direct_urls(p, urls).0 is None,
        (forall|i: int| 0 <= i < urls.len() ==> (#[trigger] spec_asset_names(p)[i])@ != "x64"@)
            ==> spec_direct_urls(p, urls).1 is None,
{
    reveal(spec_asset_names);
    reveal_strlit("x86");
    reveal_strlit("x32");
    reveal_strlit("x64");
    assert("x86"@[2] != "x64"@[2]);
    assert("x32"@[1] != "x64"@[1]);
    let names = spec_asset_names(p);
    match p {
        Package::Assfiltermod | Package::Xysubfilter => {
            assert(names[0] == "x86");
            assert(names[1] == "x64");
        },
        Package::Imhex | Package::JujutsuPortable => {
            assert(names[0] == "x64");
        },
        _ => {
            assert(names[0] == "x32");
        },
    }
}

/// `t` stands somewhere in `n`.
pub open spec fn holds_text(n: Seq<u8>, t: Seq<u8>) -> bool {
    exists|k: int| occurs_at(n, t, k)
}

/// A file name that marks a 32-bit Windows build: it holds `386`, `x32`
/// or `x86.` (`x86` not followed by `_64`).
pub open spec fn marks_32bit(n: Seq<u8>) -> bool {
    ||| holds_text(n, "386".spec_bytes())
    ||| holds_text(n, "x32".spec_bytes())
    ||| holds_text(n, "x86.".spec_bytes())
}

/// A file name that marks a 64-bit Windows build: it holds `amd64`, `x64`
/// or `x86_64`.
pub open spec fn marks_64bit(n: Seq<u8>) -> bool {
    ||| holds_text(n, "amd64".spec_bytes())
    ||| holds_text(n, "x64".spec_bytes())
    ||| holds_text(n, "x86_64".spec_bytes())
}

proof fn lemma_text_in_suffix(n: Seq<u8>, t: Seq<u8>, u: Seq<u8>, k: int)
    requires
        is_suffix(n, t),
        occurs_at(t, u, k),
    ensures
        holds_text(n, u),
{
    let at = n.len() - t.len() + k;
    assert(n.subrange(at, at + u.len()) =~= t.subrange(k, k + u.len())) by {
        assert forall|j: int| 0 <= j < u.len() implies #[trigger] n.subrange(at, at + u.len())[j]
            == t.subrange(k, k + u.len())[j] by {
            assert(n.skip(n.len() - t.len())[k + j] == t[k + j]);
        }
    }
    assert(occurs_at(n, u, at));
}

/// What a package takes as the build of a platform is a build for that
/// platform: every file name that the package's matcher for its "x86" asset
/// accepts marks a 32-bit build, and every one that its matcher for an
/// "x64" asset accepts marks a 64-bit build (but for the Proton Mail Bridge
/// installer, whose name marks no platform). The "checksums" asset is the
/// file `checksums.txt`, and a signature asset ends in `.sig`.
pub proof fn lemma_platform_assets(p: Package, i: int, n: Seq<u8>)
    requires
        0 <= i < spec_matchers(p).len(),
        spec_accepts(spec_matchers(p)[i], n),
    ensures
        spec_asset_names(p)[i]@ == "x86"@ ==> marks_32bit(n),
        spec_asset_names(p)[i]@ == "x64"@ && p != Package::Protonmailbridge ==> marks_64bit(n),
        spec_asset_names(p)[i]@ == "checksums"@ ==> n == "checksums.txt".spec_bytes(),
        spec_asset_names(p)[i]@ == "x64-sig"@ ==> is_suffix(n, ".sig".spec_bytes()),
{
    broadcast use vstd::string::is_ascii_spec_bytes;

    reveal(spec_asset_names);
    reveal(spec_matchers);
    reveal_strlit("x86");
    reveal_strlit("x32");
    reveal_strlit("x64");
    reveal_strlit("x64-sig");
    reveal_strlit("checksums");
    assert("x86"@[2] != "x64"@[2]);
    assert("x32"@[1] != "x64"@[1]);
    assert("x32"@[1] != "x86"@[1]);
    assert("x64"@.len() != "x64-sig"@.len());
    assert("x86"@.len() != "x64-sig"@.len());
    assert("x64"@.len() != "checksums"@.len());
    assert("x86"@.len() != "checksums"@.len());
    assert("x32"@.len() != "checksums"@.len());
    assert("x32"@.len() != "x64-sig"@.len());
    reveal_strlit("386");
    reveal_strlit("x32");
    reveal_strlit("x86.");
    reveal_strlit("amd64");
    reveal_strlit("x86_64");
    reveal_strlit("_x32.zip");
    reveal_strlit("_x64.zip");
    reveal_strlit("_x86.zip");
    reveal_strlit("Windows-x86_64.msi");
    reveal_strlit("-x86_64-pc-windows-msvc.zip ");
    reveal_strlit("_windows_386.zip");
    reveal_strlit("_windows_amd64.zip");
    reveal_strlit("Bridge-Installer.exe.sig");
    reveal_strlit(".sig");
    assert(vstd::string::is_ascii("386"));
    assert(vstd::string::is_ascii("x32"));
    assert(vstd::string::is_ascii("x64"));
    assert(vstd::string::is_ascii("x86."));
    assert(vstd::string::is_ascii("amd64"));
    assert(vstd::string::is_ascii("x86_64"));
    assert(vstd::string::is_ascii("_x32.zip"));
    assert(vstd::string::is_ascii("_x64.zip"));
    assert(vstd::string::is_ascii("_x86.zip"));
    assert(vstd::string::is_ascii("Windows-x86_64.msi"));
    assert(vstd::string::is_ascii("-x86_64-pc-windows-msvc.zip "));
    assert(vstd::string::is_ascii("_windows_386.zip"));
    assert(vstd::string::is_ascii("_windows_amd64.zip"));
    assert(vstd::string::is_ascii("Bridge-Installer.exe.sig"));
    assert(vstd::string::is_ascii(".sig"));
    let names = spec_asset_names(p);
    match p {
        Package::Assfiltermod => {
            if i == 0 {
                let t = "_x32.zip".spec_bytes();
                assert(t.subrange(1, 4) =~= "x32".spec_bytes());
                lemma_text_in_suffix(n, t, "x32".spec_bytes(), 1);
            } else {
                let t = "_x64.zip".spec_bytes();
                assert(t.subrange(1, 4) =~= "x64".spec_bytes());
                lemma_text_in_suffix(n, t, "x64".spec_bytes(), 1);
            }
        },
        Package::Xysubfilter => {
            if i == 0 {
                let t = "_x86.zip".spec_bytes();
                assert(t.subrange(1, 5) =~= "x86.".spec_bytes());
                lemma_text_in_suffix(n, t, "x86.".spec_bytes(), 1);
            } else {
                let t = "_x64.zip".spec_bytes();
                assert(t.subrange(1, 4) =~= "x64".spec_bytes());
                lemma_text_in_suffix(n, t, "x64".spec_bytes(), 1);
            }
        },
        Package::Imhex => {
            let t = "Windows-x86_64.msi".spec_bytes();
            assert(t.subrange(8, 14) =~= "x86_64".spec_bytes());
            lemma_text_in_suffix(n, t, "x86_64".spec_bytes(), 8);
        },
        Package::JujutsuPortable => {
            let t = "-x86_64-pc-windows-msvc.zip ".spec_bytes();
            assert(t.subrange(1, 7) =~= "x86_64".spec_bytes());
            lemma_text_in_suffix(n, t, "x86_64".spec_bytes(), 1);
        },
        Package::NextdnsCli => {
            if i == 0 {
                let t = "_windows_386.zip".spec_bytes();
                assert(t.subrange(9, 12) =~= "386".spec_bytes());
                lemma_text_in_suffix(n, t, "386".spec_bytes(), 9);
            } else if i == 1 {
                let t = "_windows_amd64.zip".spec_bytes();
                assert(t.subrange(9, 14) =~= "amd64".spec_bytes());
                lemma_text_in_suffix(n, t, "amd64".spec_bytes(), 9);
            }
        },
        Package::Protonmailbridge => {
            if i == 1 {
                let t = "Bridge-Installer.exe.sig".spec_bytes();
                assert(t.skip(t.len() - 4) =~= ".sig".spec_bytes());
                assert(n.skip(n.len() - 4) =~= t.skip(t.len() - 4));
            }
        },
        _ => {},
    }
}

proof fn lemma_first_accepting_accepts(ms: Seq<NameMatcher>, name: Seq<u8>, from: int)
    ensures
        first_accepting(ms, name, from) matches Some(i) ==> i < ms.len() && spec_accepts(
            ms[i as int],
            name,
        ),
    decreases ms.len() - from,
{
    if 0 <= from < ms.len() && !spec_accepts(ms[from], name) {
        lemma_first_accepting_accepts(ms, name, from + 1);
    }
}

/// Checking a release gives, under each needed asset's name, the url of a
/// release asset that the package's matcher for that name accepts; under
/// "x86" that asset's file name marks a 32-bit build, and under "x64" a
/// 64-bit one (see `lemma_platform_assets`).
pub proof fn lemma_found_urls_match(
    p: Package,
    prev: Version,
    tag: Seq<char>,
    assets: Seq<crate::github::Asset>,
)
    ensures
        spec_check_release(p, prev, tag, assets) matches Ok(Some((v, urls))) ==> {
            &&& urls.len() == spec_asset_names(p).len()
            &&& forall|i: int|
                #![trigger urls[i]]
                0 <= i < urls.len() ==> exists|j: int|
                    #![trigger assets[j]]
                    {
                        let n = crate::github::name_bytes(assets[j]);
                        &&& 0 <= j < assets.len()
                        &&& urls[i] == assets[j].url
                        &&& spec_accepts(spec_matchers(p)[i], n)
                        &&& spec_asset_names(p)[i]@ == "x86"@ ==> marks_32bit(n)
                        &&& spec_asset_names(p)[i]@ == "x64"@ && p != Package::Protonmailbridge
                            ==> marks_64bit(n)
                    }
        },
{
    if spec_check_release(p, prev, tag, assets) is Ok && spec_check_release(
        p,
        prev,
        tag,
        assets,
    )->Ok_0 is Some {
        let urls = spec_check_release(p, prev, tag, assets)->Ok_0->Some_0.1;
        let ms = spec_matchers(p);
        let classify = |n: Seq<u8>| first_accepting(ms, n, 0);
        lemma_asset_counts(p);
        assert(crate::github::classify_in_range(classify, ms.len())) by {
            assert forall|n: Seq<u8>|
                #![trigger classify(n)]
                (classify(n) is Some) implies classify(n)->Some_0 < ms.len() by {
                crate::github::lemma_first_accepting_bound(ms, n, 0);
            }
        }
        crate::github::lemma_extract_exact(classify, ms.len(), spec_asset_names(p), assets);
        assert(spec_extract(classify, ms.len(), spec_asset_names(p), assets) == Ok::<
            Seq<String>,
            Error,
        >(urls));
        assert forall|i: int| #![trigger urls[i]] 0 <= i < urls.len() implies exists|j: int|
            #![trigger assets[j]]
            {
                let n = crate::github::name_bytes(assets[j]);
                &&& 0 <= j < assets.len()
                &&& urls[i] == assets[j].url
                &&& spec_accepts(spec_matchers(p)[i], n)
                &&& spec_asset_names(p)[i]@ == "x86"@ ==> marks_32bit(n)
                &&& spec_asset_names(p)[i]@ == "x64"@ && p != Package::Protonmailbridge
                    ==> marks_64bit(n)
            } by {
            let k: nat = i as nat;
            assert(crate::github::has_unique_match(classify, assets, k));
            let j = choose|j: int| crate::github::only_sorted_to(classify, assets, j, k);
            let n = crate::github::name_bytes(assets[j]);
            assert(classify(n) == Some(k));
            lemma_first_accepting_accepts(ms, n, 0);
            lemma_platform_assets(p, i, n);
            assert(urls[i] == assets[j].url);
        }
    }
}

/// The update of a package whose release carries its builds directly, with
/// nothing to check the downloads against.
pub fn direct_update(p: Package, found: FoundRelease) -> (res: PackageUpdate)
    requires
        is_direct(p),
        found.urls@.len() == spec_asset_names(p).len(),
    ensures
        res.version == found.version,
        plain_download(res.x32, spec_direct_urls(p, found.urls@).0),
        plain_download(res.x64, spec_direct_urls(p, found.urls@).1),
{
    let urls = &found.urls;
    proof {
        lemma_asset_counts(p);
    }
    match p {
        Package::Assfiltermod | Package::Xysubfilter => PackageUpdate {
            x32: Some(PlatformUpdate::new(urls[0].clone())),
            x64: Some(PlatformUpdate::new(urls[1].clone())),
            version: found.version,
        },
        Package::Imhex | Package::JujutsuPortable => PackageUpdate {
            x32: None,
            x64: Some(PlatformUpdate::new(urls[0].clone())),
            version: found.version,
        },
        _ => PackageUpdate {
            x32: Some(PlatformUpdate::new(urls[0].clone())),
            x64: None,
            version: found.version,
        },
    }
}

/// The text of a line cut by `spec_lines`, without its `\n` or `\r\n`
/// ending (what `str::lines` yields).
pub open spec fn line_text(l: Seq<u8>) -> Seq<u8> {
    if l.len() >= 2 && l[l.len() - 2] == 13u8 && l.last() == 10u8 {
        l.take(l.len() - 2)
    } else if l.len() >= 1 && l.last() == 10u8 {
        l.drop_last()
    } else {
        l
    }
}

/// The checksum at the start of a line of a checksums file: its first 64
/// bytes as hexadecimal digits.
pub open spec fn line_checksum(c: Seq<u8>) -> Option<Seq<u8>> {
    if c.len() >= 64 {
        spec_parse_hex(c.take(64))
    } else {
        None
    }
}

/// Going through the lines of a checksums file: a line about the 32-bit
/// build sets its checksum, one about the 64-bit build sets that one; a
/// later line overrides an earlier one.
pub open spec fn scan_checksums(ls: Seq<Seq<u8>>, acc: (Option<Seq<u8>>, Option<Seq<u8>>)) -> (
    Option<Seq<u8>>,
    Option<Seq<u8>>,
)
    decreases ls.len(),
{
    if ls.len() == 0 {
        acc
    } else {
        let c = line_text(ls[0]);
        let next = if is_suffix(c, "_windows_386.zip".spec_bytes()) {
            (line_checksum(c), acc.1)
        } else if is_suffix(c, "_windows_amd64.zip".spec_bytes()) {
            (acc.0, line_checksum(c))
        } else {
            acc
        };
        scan_checksums(ls.drop_first(), next)
    }
}

/// The checksums of the 32-bit and the 64-bit build that a checksums file
/// lists, when it lists both.
pub open spec fn spec_parse_checksums(data: Seq<u8>) -> Option<(Seq<u8>, Seq<u8>)> {
    match scan_checksums(spec_lines(data), (None, None)) {
        (Some(a), Some(b)) => Some((a, b)),
        _ => None,
    }
}

/// `l` is one whole line: it ends in `\n` and holds no other.
pub open spec fn whole_line(l: Seq<u8>) -> bool {
    &&& l.len() > 0
    &&& l.last() == 10u8
    &&& forall|k: int| 0 <= k < l.len() - 1 ==> l[k] != 10u8
}

/// A line about some file other than the two Windows builds.
pub open spec fn other_file_line(l: Seq<u8>) -> bool {
    &&& !is_suffix(line_text(l), "_windows_386.zip".spec_bytes())
    &&& !is_suffix(line_text(l), "_windows_amd64.zip".spec_bytes())
}

proof fn lemma_whole_line_lines(l: Seq<u8>)
    requires
        whole_line(l),
    ensures
        spec_lines(l) == seq![l],
{
    lemma_first_index_of(l, 10u8, l.len() - 1);
    assert(l.take(l.len() as int) =~= l);
    assert(l.skip(l.len() as int) =~= Seq::<u8>::empty());
    assert(spec_lines(l.skip(l.len() as int)) =~= Seq::<Seq<u8>>::empty());
    assert(spec_lines(l) =~= seq![l]);
}

proof fn lemma_scan_skips_other(
    ls1: Seq<Seq<u8>>,
    l: Seq<u8>,
    ls2: Seq<Seq<u8>>,
    acc: (Option<Seq<u8>>, Option<Seq<u8>>),
)
    requires
        other_file_line(l),
    ensures
        scan_checksums(ls1 + seq![l] + ls2, acc) == scan_checksums(ls1 + ls2, acc),
    decreases ls1.len(),
{
    if ls1.len() == 0 {
        assert(ls1 + seq![l] + ls2 =~= seq![l] + ls2);
        assert((seq![l] + ls2).drop_first() =~= ls2);
        assert(ls1 + ls2 =~= ls2);
    } else {
        let c = line_text(ls1[0]);
        let next = if is_suffix(c, "_windows_386.zip".spec_bytes()) {
            (line_checksum(c), acc.1)
        } else if is_suffix(c, "_windows_amd64.zip".spec_bytes()) {
            (acc.0, line_checksum(c))
        } else {
            acc
        };
        lemma_scan_skips_other(ls1.drop_first(), l, ls2, next);
        assert((ls1 + seq![l] + ls2).drop_first() =~= ls1.drop_first() + seq![l] + ls2);
        assert((ls1 + ls2).drop_first() =~= ls1.drop_first() + ls2);
        assert((ls1 + seq![l] + ls2)[0] == ls1[0]);
        assert((ls1 + ls2)[0] == ls1[0]);
    }
}

proof fn lemma_scan_push(ls: Seq<Seq<u8>>, l: Seq<u8>, acc: (Option<Seq<u8>>, Option<Seq<u8>>))
    ensures
        scan_checksums(ls.push(l), acc) == scan_checksums(seq![l], scan_checksums(ls, acc)),
    decreases ls.len(),
{
    if ls.len() == 0 {
        assert(ls.push(l) =~= seq![l]);
    } else {
        let c = line_text(ls[0]);
        let next = if is_suffix(c, "_windows_386.zip".spec_bytes()) {
            (line_checksum(c), acc.1)
        } else if is_suffix(c, "_windows_amd64.zip".spec_bytes()) {
            (acc.0, line_checksum(c))
        } else {
            acc
        };
        lemma_scan_push(ls.drop_first(), l, next);
        assert(ls.push(l).drop_first() =~= ls.drop_first().push(l));
        assert(ls.push(l)[0] == ls[0]);
    }
}

/// Lines about other files do not matter: putting such a line anywhere
/// between the lines of a checksums file leaves what is read from it as it
/// was.
pub proof fn lemma_checksums_ignore_other_lines(a: Seq<u8>, line: Seq<u8>, b: Seq<u8>)
    requires
        a.len() == 0 || a.last() == 10u8,
        whole_line(line),
        other_file_line(line),
    ensures
        spec_parse_checksums(a + line + b) == spec_parse_checksums(a + b),
{
    crate::bytes::lemma_lines_append(a, line + b);
    crate::bytes::lemma_lines_append(line, b);
    crate::bytes::lemma_lines_append(a, b);
    lemma_whole_line_lines(line);
    assert(a + line + b =~= a + (line + b));
    assert(spec_lines(a + line + b) =~= spec_lines(a) + seq![line] + spec_lines(b));
    lemma_scan_skips_other(spec_lines(a), line, spec_lines(b), (None, None));
}

/// A later line overrides an earlier one: after a file that lists both
/// checksums, a further line about the 32-bit build gives the checksum at its
/// start as the 32-bit one (and nothing if it has none), keeping the 64-bit
/// one; and likewise for a line about the 64-bit build.
pub proof fn lemma_checksums_later_line_wins(a: Seq<u8>, line: Seq<u8>)
    requires
        a.len() == 0 || a.last() == 10u8,
        whole_line(line),
    ensures
        spec_parse_checksums(a) is Some && is_suffix(
            line_text(line),
            "_windows_386.zip".spec_bytes(),
        ) ==> spec_parse_checksums(a + line) == match line_checksum(line_text(line)) {
            Some(c) => Some((c, spec_parse_checksums(a)->Some_0.1)),
            None => None::<(Seq<u8>, Seq<u8>)>,
        },
        spec_parse_checksums(a) is Some && is_suffix(
            line_text(line),
            "_windows_amd64.zip".spec_bytes(),
        ) && !is_suffix(line_text(line), "_windows_386.zip".spec_bytes())
            ==> spec_parse_checksums(a + line) == match line_checksum(line_text(line)) {
            Some(c) => Some((spec_parse_checksums(a)->Some_0.0, c)),
            None => None::<(Seq<u8>, Seq<u8>)>,
        },
{
    crate::bytes::lemma_lines_append(a, line);
    lemma_whole_line_lines(line);
    assert(spec_lines(a + line) =~= spec_lines(a).push(line));
    lemma_scan_push(spec_lines(a), line, (None, None));
    let acc = scan_checksums(spec_lines(a), (None, None));
    let c = line_text(line);
    assert(seq![line].drop_first() =~= Seq::<Seq<u8>>::empty());
    assert(seq![line][0] == line);
    let next = if is_suffix(c, "_windows_386.zip".spec_bytes()) {
        (line_checksum(c), acc.1)
    } else if is_suffix(c, "_windows_amd64.zip".spec_bytes()) {
        (acc.0, line_checksum(c))
    } else {
        acc
    };
    assert(scan_checksums(Seq::<Seq<u8>>::empty(), next) == next);
    assert(scan_checksums(seq![line], acc) == next);
}

/// How `std::str::from_utf8` describes why bytes are not UTF-8.
pub uninterp spec fn utf8_error_text(b: Seq<u8>) -> Seq<char>;

/// Checks that `bytes` are UTF-8 with `std::str::from_utf8`.
///
/// Trusted: as std documents, this succeeds exactly on valid UTF-8; the
/// error's description is named by `utf8_error_text`.
#[verifier::external_body]
fn check_utf8(bytes: &[u8]) -> (res: Result<(), String>)
    ensures
        res is Ok <==> vstd::utf8::valid_utf8(bytes@),
        res matches Err(m) ==> m@ == utf8_error_text(bytes@),
{
    match std::str::from_utf8(bytes) {
        Ok(_) => Ok(()),
        Err(e) => Err(e.to_string()),
    }
}

pub open spec fn opt_view(o: Option<Sha1>) -> Option<Seq<u8>> {
    match o {
        Some(h) => Some(h@),
        None => None,
    }
}

fn checksum_of(data: &[u8], start: usize, end: usize) -> (res: Option<Sha1>)
    requires
        start <= end <= data@.len(),
    ensures
        opt_view(res) == line_checksum(data@.subrange(start as int, end as int)),
{
    if end - start < 64 {
        return None;
    }
    let head = vstd::slice::slice_subrange(data, start, start + 64);
    assert(head@ =~= data@.subrange(start as int, end as int).take(64));
    Sha1::parse_hex(head)
}

fn range_ends_with(data: &[u8], start: usize, end: usize, t: &[u8]) -> (res: bool)
    requires
        start <= end <= data@.len(),
    ensures
        res == is_suffix(data@.subrange(start as int, end as int), t@),
{
    if t.len() > end - start {
        return false;
    }
    let tail = vstd::slice::slice_subrange(data, end - t.len(), end);
    assert(tail@ =~= data@.subrange(start as int, end as int).skip(end - start - t@.len()));
    bytes_eq(tail, t)
}

/// Reads the checksums of the 32-bit and the 64-bit build from a nextdns
/// checksums file (see `spec_parse_checksums`).
pub fn parse_checksums(data: &[u8]) -> (res: Result<(Sha1, Sha1), Error>)
    ensures
        !vstd::utf8::valid_utf8(data@) ==> (res matches Err(Error::AssetBadFormat(n, m)) && n
            == "checksums" && m@ == utf8_error_text(data@)),
        vstd::utf8::valid_utf8(data@) ==> match spec_parse_checksums(data@) {
            Some((a, b)) => res matches Ok((x, y)) && x@ == a && y@ == b,
            None => res matches Err(Error::AssetBadFormat(n, m)) && n == "checksums" && m@
                == "missing entries"@,
        },
{
    if let Err(m) = check_utf8(data) {
        return Err(Error::AssetBadFormat("checksums", m));
    }
    let mut c32: Option<Sha1> = None;
    let mut c64: Option<Sha1> = None;
    let mut pos: usize = 0;
    assert(data@.skip(0) =~= data@);
    while pos < data.len()
        invariant
            0 <= pos <= data@.len(),
            scan_checksums(spec_lines(data@), (None, None)) == scan_checksums(
                spec_lines(data@.skip(pos as int)),
                (opt_view(c32), opt_view(c64)),
            ),
        decreases data@.len() - pos,
    {
        let ghost rest = data@.skip(pos as int);
        let end = find_byte_from(data, pos, 10u8);
        let next: usize = if end < data.len() {
            end + 1
        } else {
            end
        };
        let ghost line = data@.subrange(pos as int, next as int);
        assert(rest.len() > 0);
        proof {
            let ls = spec_lines(rest);
            if end < data@.len() {
                assert(rest.take(end - pos + 1) =~= line);
                assert(rest.skip(end - pos + 1) =~= data@.skip(next as int));
                assert(ls == seq![line] + spec_lines(data@.skip(next as int)));
            } else {
                assert(rest =~= line);
                assert(data@.skip(next as int) =~= Seq::<u8>::empty());
                assert(spec_lines(data@.skip(next as int)) =~= Seq::<Seq<u8>>::empty());
                assert(ls == seq![line]);
            }
            assert(ls[0] == line);
            assert(ls.drop_first() =~= spec_lines(data@.skip(next as int)));
        }
        let text_end: usize = if next > pos && data[next - 1] == 10u8 {
            if next - pos >= 2 && data[next - 2] == 13u8 {
                next - 2
            } else {
                next - 1
            }
        } else {
            next
        };
        assert(data@.subrange(pos as int, text_end as int) =~= line_text(line));
        if range_ends_with(data, pos, text_end, "_windows_386.zip".as_bytes()) {
            c32 = checksum_of(data, pos, text_end);
        } else if range_ends_with(data, pos, text_end, "_windows_amd64.zip".as_bytes()) {
            c64 = checksum_of(data, pos, text_end);
        }
        pos = next;
    }
    assert(spec_lines(data@.skip(pos as int)) =~= Seq::<Seq<u8>>::empty());
    match (c32, c64) {
        (Some(a), Some(b)) => Ok((a, b)),
        _ => Err(Error::AssetBadFormat("checksums", String::from_str("missing entries"))),
    }
}

/// A download of `url`, checked against the checksum `sum`.
pub open spec fn checked_download(u: Option<PlatformUpdate>, url: String, sum: Seq<u8>) -> bool {
    match u {
        Some(x) => x.url == url && x.sig is None && (x.checksum matches Some(c) && c@ == sum),
        None => false,
    }
}

/// A download of `url`, checked against a pgp signature.
pub open spec fn signed_download(u: Option<PlatformUpdate>, url: String) -> bool {
    match u {
        Some(x) => x.url == url && x.checksum is None && x.sig is Some,
        None => false,
    }
}

/// The update of nextdns-cli: its builds, each with the checksum that the
/// release's checksums file lists for it.
pub fn nextdns_update(found: FoundRelease, checksums: &[u8]) -> (res: Result<PackageUpdate, Error>)
    requires
        found.urls@.len() == 3,
    ensures
        !vstd::utf8::valid_utf8(checksums@) ==> (res matches Err(Error::AssetBadFormat(n, m))
            && n == "checksums" && m@ == utf8_error_text(checksums@)),
        vstd::utf8::valid_utf8(checksums@) ==> match spec_parse_checksums(checksums@) {
            Some((a, b)) => res matches Ok(u) && u.version == found.version && checked_download(
                u.x32,
                found.urls@[0],
                a,
            ) && checked_download(u.x64, found.urls@[1], b),
            None => res matches Err(Error::AssetBadFormat(n, m)) && n == "checksums" && m@
                == "missing entries"@,
        },
{
    let (a, b) = match parse_checksums(checksums) {
        Ok(pair) => pair,
        Err(e) => return Err(e),
    };
    Ok(
        PackageUpdate {
            x32: Some(PlatformUpdate::with_checksum(found.urls[0].clone(), a)),
            x64: Some(PlatformUpdate::with_checksum(found.urls[1].clone(), b)),
            version: found.version,
        },
    )
}

/// The update of protonmailbridge: its 64-bit build, with the detached
/// signature parsed from the release's signature asset.
pub fn proton_update(found: FoundRelease, sig: &[u8]) -> (res: Result<PackageUpdate, Error>)
    requires
        found.urls@.len() == 2,
    ensures
        res is Ok <==> signature_parses(sig@),
        res matches Ok(u) ==> (u.version == found.version && u.x32 is None && signed_download(
            u.x64,
            found.urls@[0],
        ) && u.x64.unwrap().sig == Some(parsed_signature(sig@))),
        res matches Err(e) ==> e matches Error::AssetBadFormat(n, m) && n == "x64-sig" && m@
            == signature_error_text(sig@),
{
    match parse_signature(sig) {
        Ok(s) => Ok(
            PackageUpdate {
                x32: None,
                x64: Some(PlatformUpdate::with_sig(found.urls[0].clone(), s)),
                version: found.version,
            },
        ),
        Err(m) => Err(Error::AssetBadFormat("x64-sig", m)),
    }
}

/// The text just before the version number in madVR's download page.
pub open spec fn madvr_search() -> Seq<u8> {
    "href=\"https://www.videohelp.com/download/madVR".spec_bytes()
}

/// `.zip"`
pub open spec fn zip_quote() -> Seq<u8> {
    seq![46u8, 122, 105, 112, 34]
}

/// The release that madVR's download page announces: after the first link
/// to the download, one digit of major version, two of minor and two of
/// patch, then `.zip"`. Gives the version and where its digits start.
pub open spec fn spec_madvr_release(t: Seq<u8>) -> Option<(Version, int)> {
    match spec_find(t, madvr_search()) {
        None => None,
        Some(pos) => {
            let vs = pos + madvr_search().len();
            if vs + 10 <= t.len() && spec_parse_u16(t.subrange(vs, vs + 1)) is Some
                && spec_parse_u16(t.subrange(vs + 1, vs + 3)) is Some && spec_parse_u16(
                t.subrange(vs + 3, vs + 5),
            ) is Some && t.subrange(vs + 5, vs + 10) == zip_quote() {
                Some(
                    (
                        Version {
                            major: spec_parse_u16(t.subrange(vs, vs + 1)).unwrap(),
                            minor: spec_parse_u16(t.subrange(vs + 1, vs + 3)).unwrap(),
                            patch: spec_parse_u16(t.subrange(vs + 3, vs + 5)).unwrap(),
                            build: 0,
                        },
                        vs,
                    ),
                )
            } else {
                None
            }
        },
    }
}

fn zip_quote_at(t: &[u8], at: usize) -> (res: bool)
    requires
        at + 5 <= t@.len(),
    ensures
        res == (t@.subrange(at as int, at + 5) == zip_quote()),
{
    let r = t[at] == 46u8 && t[at + 1] == 122u8 && t[at + 2] == 105u8 && t[at + 3] == 112u8
        && t[at + 4] == 34u8;
    if r {
        assert(t@.subrange(at as int, at + 5) =~= zip_quote());
    } else {
        assert(t@.subrange(at as int, at + 5) != zip_quote()) by {
            let s = t@.subrange(at as int, at + 5);
            if s == zip_quote() {
                assert(s[0] == t@[at as int]);
                assert(s[1] == t@[at + 1]);
                assert(s[2] == t@[at + 2]);
                assert(s[3] == t@[at + 3]);
                assert(s[4] == t@[at + 4]);
            }
        }
    }
    r
}

/// Checks madVR's download page for a release newer than the packaged one.
/// The download url is the page's text from the start of the link (the
/// `href="` included) to the end of `.zip`.
pub fn madvr_update(prev: Version, text: &str) -> (res: Result<Option<PackageUpdate>, Error>)
    ensures
        match spec_madvr_release(text.spec_bytes()) {
            None => res matches Err(Error::UpdateNoRelease),
            Some((v, vs)) => if spec_newer(v, prev) {
                res matches Ok(Some(u)) && u.version == v && u.x32 is None && (u.x64 matches Some(x)
                    && x.checksum is None && x.sig is None && x.url@
                    == "href=\"https://www.videohelp.com/download/madVR"@ + ascii_chars(
                    text.spec_bytes().subrange(vs, vs + 9),
                ))
            } else {
                res matches Ok(None)
            },
        },
{
    let search = "href=\"https://www.videohelp.com/download/madVR";
    let t = text.as_bytes();
    let pos = match crate::bytes::find_bytes(t, search.as_bytes()) {
        Some(p) => p,
        None => {
            return Err(Error::UpdateNoRelease);
        },
    };
    let sb = search.as_bytes();
    proof {
        lemma_spec_find_none(t@, sb@);
        assert(is_first_occurrence(t@, sb@, pos as int));
        assert(t@.len() == t.len());
    }
    let vs = pos + sb.len();
    if t.len() < 10 || vs > t.len() - 10 {
        return Err(Error::UpdateNoRelease);
    }
    let major = match parse_u16(t, vs, vs + 1) {
        Some(x) => x,
        None => {
            return Err(Error::UpdateNoRelease);
        },
    };
    let minor = match parse_u16(t, vs + 1, vs + 3) {
        Some(x) => x,
        None => {
            return Err(Error::UpdateNoRelease);
        },
    };
    let patch = match parse_u16(t, vs + 3, vs + 5) {
        Some(x) => x,
        None => {
            return Err(Error::UpdateNoRelease);
        },
    };
    if !zip_quote_at(t, vs + 5) {
        return Err(Error::UpdateNoRelease);
    }
    let version = Version { major, minor, patch, build: 0 };
    if !version.newer_than(&prev) {
        return Ok(None);
    }
    let mut tail: Vec<u8> = Vec::new();
    crate::bytes::push_range(&mut tail, t, vs, vs + 9);
    proof {
        assert(tail@ =~= t@.subrange(vs as int, vs + 9));
        crate::version::lemma_parse_u16_chars(t@.subrange(vs as int, vs + 1));
        crate::version::lemma_parse_u16_chars(t@.subrange(vs + 1, vs + 3));
        crate::version::lemma_parse_u16_chars(t@.subrange(vs + 3, vs + 5));
        assert forall|i: int| 0 <= i < tail@.len() implies #[trigger] tail@[i] < 128 by {
            if i < 1 {
                assert(tail@[i] == t@.subrange(vs as int, vs + 1)[i]);
            } else if i < 3 {
                assert(tail@[i] == t@.subrange(vs + 1, vs + 3)[i - 1]);
            } else if i < 5 {
                assert(tail@[i] == t@.subrange(vs + 3, vs + 5)[i - 3]);
            } else {
                assert(tail@[i] == t@.subrange(vs + 5, vs + 10)[i - 5]);
            }
        }
    }
    let tail_text = ascii_string(tail);
    let mut url = String::from_str(search);
    url.append(tail_text.as_str());
    Ok(Some(PackageUpdate { x32: None, x64: Some(PlatformUpdate::new(url)), version }))
}

} // verus!
