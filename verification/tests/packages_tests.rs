use updater::error::Error;
use updater::github::{Asset, Release};
use updater::packages::{
    check_release, direct_update, madvr_update, nextdns_update, parse_checksums, proton_update,
    FoundRelease, Package, PlatformUpdate,
};
use updater::version::Version;

fn v(major: u16, minor: u16, patch: u16) -> Version {
    Version { major, minor, patch, build: 0 }
}

fn asset(name: &str, url: &str) -> Asset {
    Asset { name: name.to_string(), url: url.to_string() }
}

fn release(tag: &str, assets: Vec<Asset>) -> Release {
    Release { tag: tag.to_string(), assets }
}

const HEX32: &str = "0123456789abcdef0123456789abcdef0123456789abcdef0123456789abcdef";
const HEX64: &str = "fedcba9876543210fedcba9876543210fedcba9876543210fedcba9876543210";

#[test]
fn package_table() {
    let all = Package::all();
    assert_eq!(all.len(), 8);
    let names: Vec<&str> = all.iter().map(|p| p.name()).collect();
    assert_eq!(
        names,
        vec![
            "assfiltermod",
            "imhex",
            "jujutsu.portable",
            "madvr",
            "nextdns-cli",
            "protonmailbridge",
            "streamwhatyouhear",
            "xysubfilter"
        ]
    );
    assert_eq!(Package::Imhex.version_url(), "https://api.github.com/repos/WerWolv/ImHex/releases");
    assert_eq!(Package::Madvr.version_url(), "https://www.videohelp.com/software/madVR");
    assert_eq!(
        Package::Madvr.download_headers(),
        vec![("Referrer", "https://www.videohelp.com/software/madVR")]
    );
    assert!(Package::Imhex.download_headers().is_empty());
    assert!(Package::Protonmailbridge.has_signing_key());
    assert!(!Package::NextdnsCli.has_signing_key());
    assert!(!Package::Madvr.uses_github());
    assert!(Package::Xysubfilter.uses_github());
    assert_eq!(Package::NextdnsCli.asset_names(), vec!["x86", "x64", "checksums"]);
    assert_eq!(Package::Streamwhatyouhear.matchers().len(), 1);
}

#[test]
fn imhex_newer_release() {
    let r = release(
        "v1.31.0",
        vec![
            asset("imhex-1.31.0-Windows-x86_64.msi", "https://dl/msi"),
            asset("imhex-1.31.0-Linux.AppImage", "https://dl/appimage"),
        ],
    );
    let found = check_release(Package::Imhex, v(1, 30, 1), r).ok().unwrap().unwrap();
    assert_eq!(found.version, v(1, 31, 0));
    assert_eq!(found.urls, vec!["https://dl/msi".to_string()]);
    let u = direct_update(Package::Imhex, found);
    assert!(u.x32.is_none());
    assert_eq!(u.x64.unwrap().url, "https://dl/msi");
    assert_eq!(u.version, v(1, 31, 0));
}

#[test]
fn release_not_newer() {
    let r = release("1.30.1", vec![]);
    assert!(check_release(Package::Imhex, v(1, 30, 1), r).ok().unwrap().is_none());
}

#[test]
fn release_with_bad_tag() {
    let r = release("nightly", vec![]);
    assert!(matches!(check_release(Package::Imhex, v(1, 0, 0), r), Err(Error::UpdateParseVersion)));
}

#[test]
fn jujutsu_matcher_needs_trailing_space() {
    let r = release("v0.20.0", vec![asset("jj-v0.20.0-x86_64-pc-windows-msvc.zip", "u")]);
    let res = check_release(Package::JujutsuPortable, v(0, 19, 0), r);
    assert!(matches!(res, Err(Error::AssetMissing("x64"))));
}

#[test]
fn assfiltermod_two_platforms() {
    let r = release("v2.1", vec![asset("f_x64.zip", "u64"), asset("f_x32.zip", "u32")]);
    let found = check_release(Package::Assfiltermod, v(2, 0, 0), r).ok().unwrap().unwrap();
    let u = direct_update(Package::Assfiltermod, found);
    let x32 = u.x32.unwrap();
    assert_eq!(x32.url, "u32");
    assert!(x32.checksum.is_none() && x32.sig.is_none());
    assert_eq!(u.x64.unwrap().url, "u64");
}

#[test]
fn streamwhatyouhear_prefix_and_suffix() {
    let r = release("1.6", vec![asset("SWYH_1.6.exe", "u"), asset("SWYH_1.6.zip", "z")]);
    let found = check_release(Package::Streamwhatyouhear, v(1, 5, 0), r).ok().unwrap().unwrap();
    let u = direct_update(Package::Streamwhatyouhear, found);
    assert_eq!(u.x32.unwrap().url, "u");
    assert!(u.x64.is_none());
}

fn checksums_text() -> String {
    format!(
        "{HEX32}  nextdns_1.42.0_windows_386.zip\n{HEX64}  nextdns_1.42.0_windows_amd64.zip\r\n{HEX32}  nextdns_1.42.0_linux_amd64.tar.gz\n"
    )
}

#[test]
fn checksums_parse() {
    let (a, b) = parse_checksums(checksums_text().as_bytes()).ok().unwrap();
    assert_eq!(a.to_string(), HEX32);
    assert_eq!(b.to_string(), HEX64);
}

#[test]
fn checksums_later_line_overrides() {
    let text = format!("{HEX32}  a_windows_386.zip\nshort  a_windows_386.zip\n{HEX64}  a_windows_amd64.zip");
    let res = parse_checksums(text.as_bytes());
    assert!(matches!(&res, Err(Error::AssetBadFormat("checksums", m)) if m == "missing entries"));
}

#[test]
fn checksums_missing_entry() {
    let text = format!("{HEX32}  a_windows_386.zip\n");
    let res = parse_checksums(text.as_bytes());
    assert!(matches!(&res, Err(Error::AssetBadFormat("checksums", m)) if m == "missing entries"));
}

#[test]
fn checksums_not_utf8() {
    let res = parse_checksums(b"\xff\xfe");
    let expected = std::str::from_utf8(b"\xff\xfe").unwrap_err().to_string();
    assert!(matches!(&res, Err(Error::AssetBadFormat("checksums", m)) if *m == expected));
}

#[test]
fn nextdns_update_with_checksums() {
    let found = FoundRelease {
        version: v(1, 42, 0),
        urls: vec!["u32".to_string(), "u64".to_string(), "sums".to_string()],
    };
    let u = nextdns_update(found, checksums_text().as_bytes()).ok().unwrap();
    let x32 = u.x32.unwrap();
    assert_eq!(x32.url, "u32");
    assert_eq!(x32.checksum.unwrap().to_string(), HEX32);
    let x64 = u.x64.unwrap();
    assert_eq!(x64.url, "u64");
    assert_eq!(x64.checksum.unwrap().to_string(), HEX64);
}

#[test]
fn proton_update_with_bad_signature() {
    let found = FoundRelease {
        version: v(3, 0, 0),
        urls: vec!["exe".to_string(), "sig".to_string()],
    };
    let res = proton_update(found, b"not a signature");
    let expected = <pgp::StandaloneSignature as pgp::Deserializable>::from_bytes(&b"not a signature"[..])
        .err()
        .unwrap()
        .to_string();
    assert!(matches!(&res, Err(Error::AssetBadFormat("x64-sig", m)) if *m == expected));
}

#[test]
fn signature_check_without_key() {
    let p = PlatformUpdate::new("u".to_string());
    assert!(p.signature_check(None).is_none());
    let p = PlatformUpdate::with_checksum("u".to_string(), updater::download::Sha1::calculate(b"x"));
    assert!(p.signature_check(None).is_none());
}

const PAGE: &str = "<html><a class=\"btn\" href=\"https://www.videohelp.com/download/madVR09217.zip\">madVR 0.92.17</a></html>";

#[test]
fn madvr_release_found() {
    let u = madvr_update(v(0, 92, 16), PAGE).ok().unwrap().unwrap();
    assert_eq!(u.version, v(0, 92, 17));
    assert!(u.x32.is_none());
    assert_eq!(u.x64.unwrap().url, "href=\"https://www.videohelp.com/download/madVR09217.zip");
}

#[test]
fn madvr_not_newer() {
    assert!(madvr_update(v(0, 92, 17), PAGE).ok().unwrap().is_none());
}

#[test]
fn madvr_page_without_release() {
    assert!(matches!(madvr_update(v(0, 1, 0), "<html></html>"), Err(Error::UpdateNoRelease)));
    let bad_digits = PAGE.replace("09217", "0x217");
    assert!(matches!(madvr_update(v(0, 1, 0), &bad_digits), Err(Error::UpdateNoRelease)));
    let bad_ext = PAGE.replace("09217.zip", "09217.exe");
    assert!(matches!(madvr_update(v(0, 1, 0), &bad_ext), Err(Error::UpdateNoRelease)));
    let short = "href=\"https://www.videohelp.com/download/madVR09217.zi";
    assert!(matches!(madvr_update(v(0, 1, 0), short), Err(Error::UpdateNoRelease)));
}

#[test]
fn nextdns_update_reports_checksum_errors() {
    let found = || FoundRelease {
        version: v(1, 42, 0),
        urls: vec!["u32".to_string(), "u64".to_string(), "sums".to_string()],
    };
    let res = nextdns_update(found(), b"nothing here\n");
    assert!(matches!(&res, Err(Error::AssetBadFormat("checksums", m)) if m == "missing entries"));
    let res = nextdns_update(found(), b"\xff\xfe");
    let expected = std::str::from_utf8(b"\xff\xfe").unwrap_err().to_string();
    assert!(matches!(&res, Err(Error::AssetBadFormat("checksums", m)) if *m == expected));
}
