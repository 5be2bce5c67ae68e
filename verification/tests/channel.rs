use auto_import::channel::{
    ascii_alphanumeric, enter, overrides_format, unit_key, Entry, OnceGuard, FORMAT_ARGUMENT,
    OBSERVER_KEY, OBSERVER_VALUE,
};

#[test]
fn the_unit_key_writes_each_character_of_the_path() {
    assert_eq!(unit_key("src/lib.rs"), "autoimport_src_00002flib_00002ers");
    assert_eq!(unit_key("Ab09"), "autoimport_Ab09");
    assert_eq!(unit_key(""), "autoimport_");
    assert_eq!(unit_key("_"), "autoimport__00005f");
    assert_eq!(unit_key("é"), "autoimport__0000e9");
    assert_eq!(unit_key("日本"), "autoimport__0065e5_00672c");
    assert_eq!(unit_key("\u{10ffff}\u{0}"), "autoimport__10ffff_000000");
}

#[test]
fn the_unit_key_holds_letters_digits_and_underscores_only() {
    for file in ["src/lib.rs", "C:\\Users\\x\\a b.rs", "Zz09@[`{", "日本語/mod.rs", "a=b\n"] {
        let key = unit_key(file);
        assert!(key.starts_with("autoimport_"));
        assert!(key.chars().all(|c| c.is_ascii_alphanumeric() || c == '_'));
    }
}

#[test]
fn different_files_have_different_keys() {
    let files = [
        "src/a_b.rs",
        "src/ab.rs",
        "src/a/b.rs",
        "srca/b.rs",
        "src/a.b.rs",
        "src/a_00002fb.rs",
        "src/a_b.rs ",
        "SRC/A_B.RS",
        "",
        "_",
        "__",
    ];
    for (i, one) in files.iter().enumerate() {
        for (j, other) in files.iter().enumerate() {
            assert_eq!(unit_key(one) == unit_key(other), i == j);
        }
    }
}

#[test]
fn letters_and_digits_are_alphanumeric() {
    for c in ['a', 'z', 'A', 'Z', '0', '9', 'm'] {
        assert!(ascii_alphanumeric(c));
    }
    for c in ['`', '{', '@', '[', '/', ':', '_', 'é', ' '] {
        assert!(!ascii_alphanumeric(c));
    }
}

#[test]
fn format_arguments_are_recognised() {
    assert!(overrides_format("--error-format=human"));
    assert!(overrides_format("--error-format="));
    assert!(overrides_format(FORMAT_ARGUMENT));
    assert!(!overrides_format("--error-format"));
    assert!(!overrides_format("--json=diagnostic-short"));
    assert!(!overrides_format(" --error-format=json"));
    assert_eq!(FORMAT_ARGUMENT, "--error-format=json");
}

#[test]
fn the_marker_is_fixed() {
    assert_eq!(OBSERVER_KEY, "autoimport");
    assert_eq!(OBSERVER_VALUE, "YES_SO_DONT_EVEN_TRY_ANYTHING");
}

#[test]
fn what_travels_under_the_key_goes_first() {
    assert_eq!(
        enter(Some("use a::b;".to_string()), true),
        Entry::Cached("use a::b;".to_string())
    );
    assert_eq!(enter(Some(String::new()), false), Entry::Cached(String::new()));
    assert_eq!(enter(None, true), Entry::PassThrough);
    assert_eq!(enter(None, false), Entry::Resolve);
}

#[test]
fn a_unit_is_claimed_once() {
    let mut guard = OnceGuard::new();
    assert!(guard.claim("src/a_b.rs"));
    assert!(guard.claim("src/ab.rs"));
    assert!(!guard.claim("src/a_b.rs"));
    assert!(!guard.claim("src/ab.rs"));
    assert!(guard.claim(""));
    assert!(!guard.claim(""));
}
