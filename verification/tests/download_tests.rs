use updater::download::{check_download, checksum_and_verify, Sha1};
use updater::error::Error;

const ABC_SHA: &str = "ba7816bf8f01cfea414140de5dae2223b00361a396177a9cb410ff61f20015ad";
const EMPTY_SHA: &str = "e3b0c44298fc1c149afbf4c8996fb92427ae41e4649b934ca495991b7852b855";

#[test]
fn calculate_known_digests() {
    assert_eq!(Sha1::calculate(b"abc").to_string(), ABC_SHA);
    assert_eq!(Sha1::calculate(b"").to_string(), EMPTY_SHA);
}

#[test]
fn calculate_is_not_the_input() {
    let data = [7u8; 32];
    let h = Sha1::calculate(&data);
    assert!(!h.same_as(&Sha1::try_from_slice(&data).unwrap()));
}

#[test]
fn try_from_slice_lengths() {
    assert!(Sha1::try_from_slice(&[0u8; 31]).is_none());
    assert!(Sha1::try_from_slice(&[0u8; 33]).is_none());
    assert!(Sha1::try_from_slice(&[]).is_none());
    let h = Sha1::try_from_slice(&[0xabu8; 32]).unwrap();
    assert_eq!(h.to_string(), "ab".repeat(32));
}

#[test]
fn from_hex_mixed_case() {
    let upper = ABC_SHA.to_uppercase();
    let h = Sha1::from_hex(&upper).unwrap();
    assert_eq!(h.to_string(), ABC_SHA);
    assert_eq!(h.to_hex_bytes(), ABC_SHA.as_bytes().to_vec());
}

#[test]
fn from_hex_rejects_bad_input() {
    assert!(Sha1::from_hex(&ABC_SHA[..63]).is_none());
    assert!(Sha1::from_hex(&format!("{ABC_SHA}0")).is_none());
    let mut bad = ABC_SHA.to_string();
    bad.replace_range(10..11, "g");
    assert!(Sha1::from_hex(&bad).is_none());
    assert!(Sha1::from_hex("").is_none());
    let non_ascii = format!("{}é", &ABC_SHA[..62]);
    assert_eq!(non_ascii.len(), 64);
    assert!(Sha1::from_hex(&non_ascii).is_none());
}

#[test]
fn hex_roundtrip() {
    let bytes: Vec<u8> = (0..32u8).map(|i| i.wrapping_mul(37)).collect();
    let h = Sha1::try_from_slice(&bytes).unwrap();
    let back = Sha1::from_hex(&h.to_string()).unwrap();
    assert!(back.same_as(&h));
}

#[test]
fn same_as_compares_all_bytes() {
    let mut a = [1u8; 32];
    let h1 = Sha1::try_from_slice(&a).unwrap();
    a[31] = 2;
    let h2 = Sha1::try_from_slice(&a).unwrap();
    assert!(h1.same_as(&h1));
    assert!(!h1.same_as(&h2));
}

#[test]
fn check_download_ok_without_expectation() {
    let h = check_download("x64", b"abc", None, None).ok().unwrap();
    assert_eq!(h.to_string(), ABC_SHA);
}

#[test]
fn check_download_ok_with_matching_expectation() {
    let expected = Sha1::from_hex(ABC_SHA).unwrap();
    let h = check_download("x64", b"abc", Some(&expected), Some(true)).ok().unwrap();
    assert!(h.same_as(&expected));
}

#[test]
fn check_download_checksum_mismatch() {
    let expected = Sha1::from_hex(EMPTY_SHA).unwrap();
    let res = check_download("x86", b"abc", Some(&expected), None);
    assert!(matches!(res, Err(Error::AssetChecksumMismatch("x86"))));
}

#[test]
fn check_download_signature_failed() {
    let expected = Sha1::from_hex(ABC_SHA).unwrap();
    let res = check_download("x64", b"abc", Some(&expected), Some(false));
    assert!(matches!(res, Err(Error::AssetSigFailed("x64"))));
}

#[test]
fn checksum_and_verify_without_signature() {
    let expected = Sha1::from_hex(EMPTY_SHA).unwrap();
    let res = checksum_and_verify("x86", b"", Some(&expected), None);
    assert_eq!(res.ok().unwrap().to_string(), EMPTY_SHA);
    let res = checksum_and_verify("x86", b"abc", Some(&expected), None);
    assert!(matches!(res, Err(Error::AssetChecksumMismatch("x86"))));
}
