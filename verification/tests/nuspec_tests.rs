use updater::error::Error;
use updater::nuspec::File;
use updater::version::Version;

const SAMPLE: &str = "<?xml version=\"1.0\"?>\n<package>\n  <metadata>\n    <id>imhex</id>\n    <version>1.30.1</version>\n    <description>Hex editor</description>\n  </metadata>\n</package>\n";

fn open(text: &str) -> File {
    match File::parse(text.as_bytes().to_vec()) {
        Ok(f) => f,
        Err(e) => panic!("{}", e.message()),
    }
}

#[test]
fn parse_reads_version() {
    let f = open(SAMPLE);
    assert_eq!(f.version(), Version { major: 1, minor: 30, patch: 1, build: 0 });
}

#[test]
fn parse_missing_version() {
    let res = File::parse(b"<package><description>d</description></package>".to_vec());
    assert!(matches!(res, Err(Error::NuspecNoVersion)));
}

#[test]
fn parse_unclosed_version() {
    let res = File::parse(b"<version>1.2<description>d</description>".to_vec());
    assert!(matches!(res, Err(Error::NuspecNoVersion)));
}

#[test]
fn parse_bad_version_text() {
    let res = File::parse(b"<version>latest</version><description>d</description>".to_vec());
    assert!(matches!(res, Err(Error::NuspecNoVersion)));
    let res = File::parse(b"<version>1.\xff</version><description>d</description>".to_vec());
    assert!(matches!(res, Err(Error::NuspecNoVersion)));
}

#[test]
fn parse_missing_description() {
    let res = File::parse(b"<version>1.2</version><summary>s</summary>".to_vec());
    assert!(matches!(res, Err(Error::NuspecNoDesc)));
    let res = File::parse(b"<version>1.2</version><description>s".to_vec());
    assert!(matches!(res, Err(Error::NuspecNoDesc)));
}

#[test]
fn parse_uses_first_tags() {
    let f = open("<version>2.0</version><version>3.0</version><description></description>");
    assert_eq!(f.version(), Version { major: 2, minor: 0, patch: 0, build: 0 });
}

#[test]
fn update_version_only() {
    let f = open(SAMPLE);
    let new = Version { major: 1, minor: 31, patch: 0, build: 0 };
    let out = f.updated_contents(new, None);
    assert_eq!(String::from_utf8(out).unwrap(), SAMPLE.replace("1.30.1", "1.31"));
}

#[test]
fn update_version_and_description() {
    let f = open(SAMPLE);
    let new = Version { major: 2, minor: 0, patch: 5, build: 0 };
    let out = f.updated_contents(new, Some("A hex editor"));
    assert_eq!(
        String::from_utf8(out).unwrap(),
        SAMPLE.replace("1.30.1", "2.0.5").replace("Hex editor", "A hex editor")
    );
}

#[test]
fn update_description_before_version() {
    let text = "<description>old</description><version>1.0</version>";
    let f = open(text);
    let out = f.updated_contents(Version { major: 1, minor: 1, patch: 0, build: 0 }, Some("new"));
    assert_eq!(out, b"<description>new</description><version>1.1</version>".to_vec());
}

#[test]
fn reopen_after_update_gives_new_version() {
    let f = open(SAMPLE);
    let new = Version { major: 9, minor: 8, patch: 7, build: 0 };
    let again = open(&String::from_utf8(f.updated_contents(new, None)).unwrap());
    assert_eq!(again.version(), new);
}

#[test]
fn version_tag_inside_description_is_found_first() {
    let text = "<description>see <version> docs</description><version>v1.2</version>";
    let res = File::parse(text.as_bytes().to_vec());
    assert!(matches!(res, Err(Error::NuspecNoVersion)));
}

#[test]
fn reopen_after_update_when_version_comes_after_description() {
    let text = "<description>d</description>\n<version>v1.2</version>\n";
    let f = open(text);
    let new = Version { major: 10, minor: 0, patch: 1, build: 0 };
    let again = open(&String::from_utf8(f.updated_contents(new, None)).unwrap());
    assert_eq!(again.version(), new);
}
