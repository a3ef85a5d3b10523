use filkoll::arch::pacman_conf::{ConfigError, PacmanConfig};
use filkoll::arch::{DescError, Package};

#[test]
fn test_parse() {
    let input = "%NAME%
library-subpackage

%VERSION%
1.2.3-4

%BASE%
library-base

%DESC%
Some library

%URL%
https://example.com

%ARCH%
x86_64

%BUILDDATE%
1234567890

%INSTALLDATE%
9876543210

%PACKAGER%
Some dude <dude@example.com>

%SIZE%
123456

%REASON%
1

%LICENSE%
Apache

%VALIDATION%
pgp

%DEPENDS%
gcc-libs
glibc
somelib=1.2.3
some-other-lib.so=4.5.6
linux-api-headers>=4.10

%PROVIDES%
libfoo.so=1.2.3
";

    let desc = Package::from_desc(input.as_bytes()).unwrap();

    assert_eq!(
        desc,
        Package {
            name: "library-subpackage".into(),
            version: "1.2.3-4".into(),
        }
    );
}

#[test]
fn desc_trims_trailing_whitespace() {
    let desc = Package::from_desc(b"%VERSION%\n2.0-1  \t\n%NAME%\nfoo \r\n").unwrap();
    assert_eq!(desc.name, "foo");
    assert_eq!(desc.version, "2.0-1");
}

#[test]
fn desc_missing_fields() {
    assert_eq!(Package::from_desc(b"%VERSION%\n1.0\n"), Err(DescError::NoName));
    assert_eq!(Package::from_desc(b"%NAME%\nfoo\n"), Err(DescError::NoVersion));
    assert_eq!(Package::from_desc(b""), Err(DescError::NoName));
}

#[test]
fn desc_value_line_is_not_a_marker() {
    // The line after %NAME% is the name, even if it looks like a marker
    assert_eq!(
        Package::from_desc(b"%NAME%\n%VERSION%\n1.0\n"),
        Err(DescError::NoVersion)
    );
    // A marker at the end of the input gives an empty value
    let p = Package::from_desc(b"%NAME%\nfoo\n%VERSION%\n").unwrap();
    assert_eq!(p.version, "");
}

#[test]
fn desc_invalid_utf8() {
    assert_eq!(
        Package::from_desc(b"%NAME%\n\xff\n%VERSION%\n1\n"),
        Err(DescError::InvalidUtf8)
    );
    // Lines after both fields are not read
    let p = Package::from_desc(b"%NAME%\na\n%VERSION%\n1\n\xff\n").unwrap();
    assert_eq!(p.name, "a");
}

#[test]
fn test_pacman_config() {
    let file = "[options]
RootDir = /other
DBPath = /dbpath
# comment
# Cachedir not set
";

    let config = PacmanConfig::new(file).unwrap();
    assert_eq!(config.db_path, "/dbpath");
}

#[test]
fn pacman_config_default_db_path() {
    let config = PacmanConfig::new("[options]\nRootDir = /\n").unwrap();
    assert_eq!(config.db_path, "/var/lib/pacman/");
}

#[test]
fn pacman_config_without_options() {
    assert!(matches!(
        PacmanConfig::new("[core]\nInclude = /etc/pacman.d/mirrorlist\n"),
        Err(ConfigError::NoOptions)
    ));
}

#[test]
fn pacman_config_from_parsed_ini() {
    let ini = ini::Ini::load_from_str("[options]\nDBPath = /a\nDBPath = /b\n").unwrap();
    let config = PacmanConfig::from_ini(&ini).unwrap();
    assert_eq!(config.db_path, "/a");
}

#[test]
fn pacman_config_parse_error() {
    assert!(matches!(
        PacmanConfig::new("[options\nDBPath = /x\n"),
        Err(ConfigError::Parse(_))
    ));
}
