use updater::download::Sha1;
use updater::error::Error;
use updater::script::Replacements;

const SCRIPT: &str = "$ErrorActionPreference = 'Stop'\n$url32      = 'old32'\n$url64      = 'old64'\n$checksum32 = 'aa'\n$checksum64 = 'bb'\nInstall-ChocolateyZipPackage @packageArgs\n";

fn sum(b: u8) -> Sha1 {
    Sha1::try_from_slice(&[b; 32]).unwrap()
}

#[test]
fn rewrite_all_four() {
    let mut r = Replacements::new();
    r.url32 = Some("https://a/x86.zip");
    r.url64 = Some("https://a/x64.zip");
    r.checksum32 = Some(sum(0x01));
    r.checksum64 = Some(sum(0xfe));
    let out = String::from_utf8(r.rewrite(SCRIPT.as_bytes()).ok().unwrap()).unwrap();
    let expected = format!(
        "$ErrorActionPreference = 'Stop'\n$url32      = 'https://a/x86.zip'\n$url64      = 'https://a/x64.zip'\n$checksum32 = '{}'\n$checksum64 = '{}'\nInstall-ChocolateyZipPackage @packageArgs\n",
        "01".repeat(32),
        "fe".repeat(32)
    );
    assert_eq!(out, expected);
}

#[test]
fn rewrite_only_some_keeps_other_lines() {
    let mut r = Replacements::default();
    r.url64 = Some("u");
    let out = String::from_utf8(r.rewrite(SCRIPT.as_bytes()).ok().unwrap()).unwrap();
    assert_eq!(out, SCRIPT.replace("'old64'", "'u'"));
}

#[test]
fn rewrite_missing_variable() {
    let mut r = Replacements::new();
    r.checksum32 = Some(sum(3));
    r.url64 = Some("u");
    let res = r.rewrite(b"$url64 = 'x'\n");
    assert!(matches!(res, Err(Error::ScriptMissingVar("checksum32"))));
}

#[test]
fn missing_variable_order() {
    let mut r = Replacements::new();
    r.url32 = Some("a");
    r.url64 = Some("b");
    assert!(matches!(r.rewrite(b"no assignments\n"), Err(Error::ScriptMissingVar("url32"))));
    let mut r = Replacements::new();
    r.checksum64 = Some(sum(1));
    r.checksum32 = Some(sum(1));
    assert!(matches!(r.ensure_empty(), Err(Error::ScriptMissingVar("checksum32"))));
    assert!(Replacements::new().ensure_empty().is_ok());
}

#[test]
fn nothing_to_set_leaves_script_unchanged() {
    let data = b"a = 1\r\n$url32 = 'x'\nlast line without newline";
    let out = Replacements::new().rewrite(data).ok().unwrap();
    assert_eq!(out, data.to_vec());
}

#[test]
fn trailing_whitespace_before_equals_is_trimmed() {
    let mut r = Replacements::new();
    r.url32 = Some("new");
    let out = r.rewrite("$url32\t  \u{2003} = 'old'\r\n".as_bytes()).ok().unwrap();
    assert_eq!(out, b"$url32      = 'new'\n".to_vec());
}

#[test]
fn only_first_assignment_is_replaced() {
    let mut r = Replacements::new();
    r.url32 = Some("new");
    let out = r.rewrite(b"$url32 = 'a'\n$url32 = 'b'\n").ok().unwrap();
    assert_eq!(out, b"$url32      = 'new'\n$url32 = 'b'\n".to_vec());
}

#[test]
fn lines_without_dollar_are_kept() {
    let mut r = Replacements::new();
    r.url32 = Some("new");
    let res = r.rewrite(b"url32 = 'a'\n  $url32 = 'b'\n");
    assert!(matches!(res, Err(Error::ScriptMissingVar("url32"))));
}

#[test]
fn write_replacement_marks_done() {
    let mut r = Replacements::new();
    r.checksum64 = Some(sum(0x10));
    let mut dst = Vec::new();
    assert!(!r.write_replacement(b"checksum32", &mut dst));
    assert!(dst.is_empty());
    assert!(r.write_replacement(b"checksum64", &mut dst));
    assert_eq!(dst, format!("$checksum64 = '{}'\n", "10".repeat(32)).into_bytes());
    assert!(!r.write_replacement(b"checksum64", &mut dst));
    assert!(r.ensure_empty().is_ok());
}

#[test]
fn zero_width_space_is_not_trimmed() {
    let mut r = Replacements::new();
    r.url32 = Some("new");
    let res = r.rewrite("$url32\u{200b} = 'old'\n".as_bytes());
    assert!(res.is_err());
}
