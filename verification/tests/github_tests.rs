use updater::error::Error;
use updater::github::{extract_assets, Asset, AssetExtractor, NameMatcher, ReleaseEntry};

fn asset(name: &str, url: &str) -> Asset {
    Asset { name: name.to_string(), url: url.to_string() }
}

#[test]
fn matchers_accept() {
    assert!(NameMatcher::EndsWith(".zip").accepts("a.zip"));
    assert!(!NameMatcher::EndsWith(".zip").accepts("a.zip.sig"));
    assert!(NameMatcher::Equals("a").accepts("a"));
    assert!(!NameMatcher::Equals("a").accepts("ab"));
    assert!(NameMatcher::StartsAndEndsWith("SWYH_", ".exe").accepts("SWYH_1.4.exe"));
    assert!(!NameMatcher::StartsAndEndsWith("SWYH_", ".exe").accepts("setup_SWYH_1.4.exe"));
    assert!(!NameMatcher::EndsWith("long_suffix").accepts("x"));
}

#[test]
fn classify_takes_first_matcher() {
    let ms = vec![NameMatcher::EndsWith(".zip"), NameMatcher::EndsWith("_x64.zip")];
    assert_eq!(ms.count(), 2);
    assert_eq!(ms.classify("tool_x64.zip"), Some(0));
    assert_eq!(ms.classify("tool.exe"), None);
}

#[test]
fn extract_in_requested_order() {
    let assets = vec![
        asset("tool_x64.zip", "u64"),
        asset("readme.txt", "u-readme"),
        asset("tool_x32.zip", "u32"),
    ];
    let ms = vec![NameMatcher::EndsWith("_x32.zip"), NameMatcher::EndsWith("_x64.zip")];
    let urls = extract_assets(assets, &["x86", "x64"], ms).ok().unwrap();
    assert_eq!(urls, vec!["u32".to_string(), "u64".to_string()]);
}

#[test]
fn extract_duplicate() {
    let assets = vec![asset("a_x64.zip", "1"), asset("b_x64.zip", "2")];
    let ms = vec![NameMatcher::EndsWith("_x32.zip"), NameMatcher::EndsWith("_x64.zip")];
    let res = extract_assets(assets, &["x86", "x64"], ms);
    assert!(matches!(res, Err(Error::AssetDuplicate("x64"))));
}

#[test]
fn extract_missing_reports_first_missing() {
    let assets = vec![asset("c.txt", "1")];
    let ms = vec![
        NameMatcher::EndsWith("_x32.zip"),
        NameMatcher::EndsWith("_x64.zip"),
        NameMatcher::Equals("c.txt"),
    ];
    let res = extract_assets(assets, &["x86", "x64", "checksums"], ms);
    assert!(matches!(res, Err(Error::AssetMissing("x86"))));
}

#[test]
fn extract_duplicate_wins_over_missing() {
    let assets = vec![asset("c.txt", "1"), asset("c.txt", "2")];
    let ms = vec![NameMatcher::EndsWith(".zip"), NameMatcher::Equals("c.txt")];
    let res = extract_assets(assets, &["zip", "checksums"], ms);
    assert!(matches!(res, Err(Error::AssetDuplicate("checksums"))));
}

#[test]
fn extract_nothing_needed() {
    let ms: Vec<NameMatcher> = Vec::new();
    let urls = extract_assets(vec![asset("a", "b")], &[], ms).ok().unwrap();
    assert!(urls.is_empty());
}

#[test]
fn prerelease_is_skipped() {
    let entry = ReleaseEntry { tag: "v2.0-rc1".to_string(), assets: vec![], prerelease: true };
    assert!(entry.into_stable().is_none());
    let entry = ReleaseEntry { tag: "v1.9".to_string(), assets: vec![asset("a", "b")], prerelease: false };
    let r = entry.into_stable().unwrap();
    assert_eq!(r.tag, "v1.9");
    assert_eq!(r.assets.len(), 1);
}

#[test]
fn extract_same_in_any_order() {
    let ms = || vec![NameMatcher::EndsWith("_x32.zip"), NameMatcher::EndsWith("_x64.zip")];
    let forward = vec![
        asset("tool_x32.zip", "u32"),
        asset("notes.md", "u-notes"),
        asset("tool_x64.zip", "u64"),
    ];
    let backward = vec![
        asset("tool_x64.zip", "u64"),
        asset("notes.md", "u-notes"),
        asset("tool_x32.zip", "u32"),
    ];
    let a = extract_assets(forward, &["x86", "x64"], ms()).ok().unwrap();
    let b = extract_assets(backward, &["x86", "x64"], ms()).ok().unwrap();
    assert_eq!(a, b);
    assert_eq!(a, vec!["u32".to_string(), "u64".to_string()]);
}
