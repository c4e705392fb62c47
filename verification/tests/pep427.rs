use muntjac::pep427::{escape_name, pure_python_filename};

#[test]
fn escapes_dashes_dots_lowercases() {
    assert_eq!(escape_name("Flit-Core"), "flit_core");
    assert_eq!(escape_name("foo.bar"), "foo_bar");
    assert_eq!(escape_name("foo---bar"), "foo_bar");
    assert_eq!(escape_name("urllib3"), "urllib3");
}

#[test]
fn pure_python_filename_format() {
    assert_eq!(
        pure_python_filename("Flit-Core", "3.9.0"),
        "flit_core-3.9.0-py3-none-any.whl"
    );
}

#[test]
fn escape_name_is_idempotent_on_examples() {
    for raw in ["Flit-Core", "a..b__c", "-Lead-", "Ünïcode-Name", ""] {
        let once = escape_name(raw);
        assert_eq!(escape_name(&once), once);
    }
}

#[test]
fn escape_name_collapses_non_ascii_runs() {
    assert_eq!(escape_name("Ünï"), "_n_");
    assert_eq!(escape_name("--"), "_");
}
