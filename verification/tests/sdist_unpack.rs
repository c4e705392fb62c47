use muntjac::sdist::classifier::ClassifyError;
use muntjac::sdist::error::SdistError;
use muntjac::sdist::prebake::single_wheel;
use muntjac::sdist::unpack::{escapes_archive, parse_i64, pax_mtime, sdist_root};

#[test]
fn member_paths_that_escape_are_refused() {
    assert!(escapes_archive("/etc/passwd"));
    assert!(escapes_archive("pkg-1.0/../../evil"));
    assert!(escapes_archive(".."));
    assert!(!escapes_archive("pkg-1.0/src/mod.py"));
    assert!(!escapes_archive("pkg-1.0/./setup.py"));
    assert!(!escapes_archive("pkg..1/a..b"));
}

#[test]
fn pax_mtime_takes_whole_seconds_of_last_entry() {
    let exts = vec![
        ("path".to_string(), "x".to_string()),
        ("mtime".to_string(), "1700000000.123456".to_string()),
    ];
    assert_eq!(pax_mtime(&exts), Some(1700000000));
    let exts = vec![("mtime".to_string(), "12".to_string()), ("mtime".to_string(), "-5.5".to_string())];
    assert_eq!(pax_mtime(&exts), Some(-5));
    assert_eq!(pax_mtime(&vec![("mtime".to_string(), "abc".to_string())]), None);
    assert_eq!(pax_mtime(&vec![]), None);
}

#[test]
fn parse_i64_accepts_signed_decimal() {
    let chars = |s: &str| s.chars().collect::<Vec<char>>();
    assert_eq!(parse_i64(&chars("42")), Some(42));
    assert_eq!(parse_i64(&chars("-42")), Some(-42));
    assert_eq!(parse_i64(&chars("+7")), Some(7));
    assert_eq!(parse_i64(&chars("")), None);
    assert_eq!(parse_i64(&chars("9223372036854775808")), None);
    assert_eq!(parse_i64(&chars("-9223372036854775808")), Some(i64::MIN));
}

#[test]
fn sdist_root_is_the_single_directory() {
    assert_eq!(sdist_root("/x", &vec!["/x/pkg-1.0".to_string()]), "/x/pkg-1.0");
    assert_eq!(sdist_root("/x", &vec![]), "/x");
    assert_eq!(sdist_root("/x", &vec!["/x/a".to_string(), "/x/b".to_string()]), "/x");
}

#[test]
fn build_must_leave_exactly_one_wheel() {
    let listing = vec!["pkg-1.0-py3-none-any.whl".to_string(), "build.log".to_string()];
    assert_eq!(single_wheel(&listing), Ok("pkg-1.0-py3-none-any.whl".to_string()));
    let listing = vec!["b-1-py3-none-any.whl".to_string(), "a-1-py3-none-any.whl".to_string()];
    assert_eq!(single_wheel(&listing), Err(vec!["a-1-py3-none-any.whl".to_string(), "b-1-py3-none-any.whl".to_string()]));
    assert_eq!(single_wheel(&vec!["notes.txt".to_string()]), Err(vec![]));
}

#[test]
fn sdist_error_messages() {
    let e = SdistError::PathTraversal { package: "p".into(), version: "1".into(), member: "../x".into() };
    assert_eq!(e.to_string(), "refused to extract `../x` from p 1: path escapes archive root");
    let e = SdistError::Extract { package: "p".into(), version: "1".into(), source: "bad gzip".into() };
    assert_eq!(e.to_string(), "failed to extract tarball for p 1: bad gzip");
}

#[test]
fn classify_error_renders() {
    let e = ClassifyError::Io { path: "/x/setup.py".into(), source: "denied".into() };
    assert!(e.to_string().contains("/x/setup.py"));
}
