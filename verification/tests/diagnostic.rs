use auto_import::diagnostic::{error, Child, DiagnosticRecord, Span};

fn span(file: &str, primary: bool, replacement: Option<&str>) -> Span {
    Span {
        file_name: Some(file.to_string()),
        is_primary: primary,
        suggested_replacement: replacement.map(|text| text.to_string()),
    }
}

fn note(message: &str, spans: Vec<Span>) -> Child {
    Child { message: message.to_string(), spans }
}

fn missing_macro(children: Vec<Child>) -> DiagnosticRecord {
    DiagnosticRecord {
        has_code: false,
        message: "cannot find macro `foo` in this scope".to_string(),
        spans: vec![span("src/lib.rs", true, None)],
        children,
    }
}

#[test]
fn a_missing_macro_yields_each_listed_item() {
    let record = missing_macro(vec![note(
        "consider importing one of these items:\ncrate_a::foo\ncrate_b::foo",
        vec![],
    )]);
    assert_eq!(error(&record), vec!["crate_a::foo", "crate_b::foo"]);
}

#[test]
fn a_missing_macro_yields_the_one_macro() {
    let record = missing_macro(vec![note("consider importing this macro:\ncrate_a::foo", vec![])]);
    assert_eq!(error(&record), vec!["crate_a::foo"]);
}

#[test]
fn a_missing_macro_without_a_note_yields_nothing() {
    assert_eq!(error(&missing_macro(vec![])), Vec::<String>::new());
    let record = missing_macro(vec![note("a macro with a similar name exists", vec![])]);
    assert_eq!(error(&record), Vec::<String>::new());
}

#[test]
fn only_the_first_note_of_a_missing_macro_is_read() {
    let record = missing_macro(vec![
        note("unrelated", vec![]),
        note("consider importing this macro:\ncrate_a::foo", vec![]),
    ]);
    assert_eq!(error(&record), Vec::<String>::new());
}

#[test]
fn a_classified_record_is_no_missing_macro() {
    let mut record = missing_macro(vec![note("consider importing this macro:\ncrate_a::foo", vec![])]);
    record.has_code = true;
    assert_eq!(error(&record), Vec::<String>::new());
    assert_eq!(record.macro_candidates(), Vec::<String>::new());
}

#[test]
fn suggested_replacements_yield_their_paths() {
    let record = DiagnosticRecord {
        has_code: true,
        message: "cannot find type `HashMap` in this scope".to_string(),
        spans: vec![span("src/lib.rs", true, None)],
        children: vec![
            note(
                "consider importing this struct",
                vec![span("src/lib.rs", true, Some("use std::collections::HashMap;\n\n"))],
            ),
            note(
                "other",
                vec![
                    span("src/lib.rs", true, Some("")),
                    span("src/lib.rs", true, None),
                    span("src/lib.rs", true, Some("HashMap::new()")),
                    span("src/lib.rs", true, Some("  use hashbrown::HashMap;")),
                ],
            ),
        ],
    };
    assert_eq!(error(&record), vec!["std::collections::HashMap", "hashbrown::HashMap"]);
    assert_eq!(record.macro_candidates(), Vec::<String>::new());
    assert_eq!(
        record.children[1].suggestions(),
        vec!["hashbrown::HashMap"]
    );
}

#[test]
fn both_strategies_add_up() {
    let record = missing_macro(vec![note(
        "consider importing this macro:\ncrate_a::foo",
        vec![span("src/lib.rs", true, Some("use crate_a::foo;\n"))],
    )]);
    assert_eq!(error(&record), vec!["crate_a::foo", "crate_a::foo"]);
    assert_eq!(record.macro_candidates(), vec!["crate_a::foo"]);
    assert_eq!(record.replacement_candidates(), vec!["crate_a::foo"]);
}

#[test]
fn reading_a_record_twice_gives_the_same() {
    let record = missing_macro(vec![note(
        "consider importing one of these items:\ncrate_a::foo\ncrate_b::foo",
        vec![span("src/lib.rs", true, Some("use crate_c::foo;"))],
    )]);
    let first = error(&record);
    let second = error(&record);
    assert_eq!(first, second);
    assert_eq!(first, vec!["crate_a::foo", "crate_b::foo", "crate_c::foo"]);
}

#[test]
fn a_record_about_another_file_adds_nothing() {
    let mut record = missing_macro(vec![note("consider importing this macro:\ncrate_a::foo", vec![])]);
    assert!(record.is_local_to("src/lib.rs"));
    assert_eq!(record.contribution("src/lib.rs"), vec!["crate_a::foo"]);
    assert!(!record.is_local_to("src/main.rs"));
    assert_eq!(record.contribution("src/main.rs"), Vec::<String>::new());
    record.spans[0].is_primary = false;
    assert!(record.is_local_to("src/main.rs"));
    assert_eq!(record.contribution("src/main.rs"), vec!["crate_a::foo"]);
}

#[test]
fn a_note_about_another_file_makes_the_record_foreign() {
    let record = missing_macro(vec![
        note("consider importing this macro:\ncrate_a::foo", vec![]),
        note("defined here", vec![span("src/other.rs", false, None)]),
    ]);
    assert!(!record.is_local_to("src/lib.rs"));
    assert_eq!(record.contribution("src/lib.rs"), Vec::<String>::new());
    assert!(record.children[1].is_foreign_to("src/lib.rs"));
    assert!(!record.children[1].is_foreign_to("src/other.rs"));
}

#[test]
fn a_span_without_a_file_is_nowhere_foreign() {
    let nameless = Span { file_name: None, is_primary: true, suggested_replacement: None };
    assert!(!nameless.is_foreign_to("src/lib.rs"));
    assert_eq!(nameless.suggestion(), None);
    let record = DiagnosticRecord {
        has_code: false,
        message: String::new(),
        spans: vec![nameless],
        children: vec![],
    };
    assert!(record.is_local_to("src/lib.rs"));
}
