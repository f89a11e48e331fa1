use updater::version::Version;

fn v(major: u16, minor: u16, patch: u16, build: u16) -> Version {
    Version { major, minor, patch, build }
}

#[test]
fn parse_two_parts() {
    assert_eq!(Version::parse("1.2"), Some(v(1, 2, 0, 0)));
}

#[test]
fn parse_four_parts_with_v_prefix() {
    assert_eq!(Version::parse("v10.20.30.40"), Some(v(10, 20, 30, 40)));
}

#[test]
fn parse_three_parts() {
    assert_eq!(Version::parse("0.15.3"), Some(v(0, 15, 3, 0)));
}

#[test]
fn parse_plus_sign_and_leading_zeros() {
    assert_eq!(Version::parse("+1.007"), Some(v(1, 7, 0, 0)));
}

#[test]
fn parse_rejects_single_part() {
    assert_eq!(Version::parse("1"), None);
    assert_eq!(Version::parse(""), None);
    assert_eq!(Version::parse("v"), None);
}

#[test]
fn parse_rejects_five_parts() {
    assert_eq!(Version::parse("1.2.3.4.5"), None);
}

#[test]
fn parse_rejects_empty_part_and_junk() {
    assert_eq!(Version::parse("1..2"), None);
    assert_eq!(Version::parse("1.2."), None);
    assert_eq!(Version::parse("1.2-beta"), None);
    assert_eq!(Version::parse("vv1.2"), None);
    assert_eq!(Version::parse("1.+"), None);
    assert_eq!(Version::parse("-1.2"), None);
}

#[test]
fn parse_limits_of_u16() {
    assert_eq!(Version::parse("65535.0"), Some(v(65535, 0, 0, 0)));
    assert_eq!(Version::parse("65536.0"), None);
    assert_eq!(Version::parse("1.99999999999"), None);
}

#[test]
fn parse_bytes_rejects_non_ascii() {
    assert_eq!(Version::parse_bytes(&[b'1', b'.', 0xc3, 0xa9]), None);
    assert_eq!(Version::parse_bytes(b"3.14"), Some(v(3, 14, 0, 0)));
}

#[test]
fn display_forms() {
    assert_eq!(v(1, 2, 0, 0).to_string(), "1.2");
    assert_eq!(v(1, 2, 3, 0).to_string(), "1.2.3");
    assert_eq!(v(0, 0, 0, 0).to_string(), "0.0");
    assert_eq!(v(65535, 10, 100, 0).to_string(), "65535.10.100");
}

#[test]
fn display_with_build_drops_dot_before_patch() {
    assert_eq!(v(1, 2, 3, 4).to_string(), "1.23.4");
    assert_eq!(v(1, 2, 0, 4).to_string(), "1.20.4");
    assert_eq!(v(1, 2, 3, 4).to_bytes(), b"1.23.4".to_vec());
}

#[test]
fn write_to_appends() {
    let mut out = b"x=".to_vec();
    v(4, 5, 6, 0).write_to(&mut out);
    assert_eq!(out, b"x=4.5.6".to_vec());
}

#[test]
fn roundtrip_without_build() {
    for ver in [v(0, 0, 0, 0), v(1, 2, 3, 0), v(65535, 65535, 65535, 0), v(7, 0, 1, 0)] {
        assert_eq!(Version::parse(&ver.to_string()), Some(ver));
    }
}

#[test]
fn roundtrip_fails_with_build() {
    let ver = v(1, 2, 3, 4);
    assert_eq!(Version::parse(&ver.to_string()), Some(v(1, 23, 4, 0)));
}

#[test]
fn newer_than_compares_parts_in_order() {
    assert!(v(2, 0, 0, 0).newer_than(&v(1, 9, 9, 9)));
    assert!(v(1, 3, 0, 0).newer_than(&v(1, 2, 9, 9)));
    assert!(v(1, 2, 4, 0).newer_than(&v(1, 2, 3, 9)));
    assert!(v(1, 2, 3, 5).newer_than(&v(1, 2, 3, 4)));
    assert!(!v(1, 2, 3, 4).newer_than(&v(1, 2, 3, 4)));
    assert!(!v(1, 2, 3, 4).newer_than(&v(1, 2, 3, 5)));
}

#[test]
fn newer_than_agrees_with_derived_order() {
    let all = [v(0, 1, 0, 0), v(1, 0, 0, 0), v(1, 0, 0, 1), v(1, 0, 1, 0), v(0, 9, 9, 9)];
    for a in all {
        for b in all {
            assert_eq!(a.newer_than(&b), a > b);
        }
    }
}

#[test]
fn parse_u16_piece() {
    let text = b"ab+42cd";
    assert_eq!(updater::version::parse_u16(text, 2, 5), Some(42));
    assert_eq!(updater::version::parse_u16(text, 2, 3), None);
    assert_eq!(updater::version::parse_u16(text, 0, 2), None);
}
