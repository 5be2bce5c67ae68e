use auto_import::candidates::CandidateSet;
use auto_import::diagnostic::{Child, DiagnosticRecord, Span};
use auto_import::choice::Basis;
use auto_import::driver::{render, Driver, Resolution, Verdict, ATTEMPT_CAP};

fn missing_macro_line(file: &str, items: &[&str]) -> String {
    format!(
        "{{\"message\":\"cannot find macro `foo` in this scope\",\"code\":null,\"spans\":[{{\"file_name\":\"{}\",\"is_primary\":true}}],\"children\":[{{\"message\":\"consider importing one of these items:\\n{}\",\"spans\":[]}}]}}",
        file,
        items.join("\\n")
    )
}

fn suggesting(file: &str, path: &str) -> DiagnosticRecord {
    DiagnosticRecord {
        has_code: true,
        message: "cannot find type in this scope".to_string(),
        spans: vec![Span {
            file_name: Some(file.to_string()),
            is_primary: true,
            suggested_replacement: None,
        }],
        children: vec![Child {
            message: "consider importing this struct".to_string(),
            spans: vec![Span {
                file_name: Some(file.to_string()),
                is_primary: true,
                suggested_replacement: Some(format!("use {};\n", path)),
            }],
        }],
    }
}

#[test]
fn a_new_run_holds_nothing() {
    let driver = Driver::new("src/lib.rs".to_string());
    assert_eq!(driver.file(), "src/lib.rs");
    assert_eq!(driver.imports().len(), 0);
    assert_eq!(driver.excluded().len(), 0);
    assert_eq!(driver.attempts(), 0);
    assert_eq!(driver.rendered(), "");
    assert!(driver.choices().is_empty());
}

#[test]
fn an_ambiguous_macro_is_settled_and_the_next_success_ends_the_run() {
    let mut driver = Driver::new("src/lib.rs".to_string());
    let output = missing_macro_line("src/lib.rs", &["crate_a::foo", "crate_b::foo"]);
    assert_eq!(driver.absorb(false, &output), Verdict::Retry);
    assert_eq!(driver.imports().len(), 1);
    assert_eq!(driver.excluded().len(), 1);
    let winner = driver.imports().members()[0].clone();
    let loser = driver.excluded().members()[0].clone();
    assert!(
        (winner == "crate_a::foo" && loser == "crate_b::foo")
            || (winner == "crate_b::foo" && loser == "crate_a::foo")
    );
    assert_eq!(driver.rendered(), format!("use {};", winner));
    assert_eq!(
        driver.choices(),
        &vec![Resolution {
            ident: "foo".to_string(),
            candidates: vec!["crate_a::foo".to_string(), "crate_b::foo".to_string()],
            winner: winner.clone(),
            how: Basis::Chance,
        }]
    );
    assert_eq!(driver.absorb(true, ""), Verdict::Succeeded);
    assert!(driver.choices().is_empty());
    assert_eq!(driver.rendered(), format!("use {};", winner));
    assert_eq!(driver.attempts(), 2);
}

#[test]
fn a_single_proposal_is_accepted() {
    let mut driver = Driver::new("src/lib.rs".to_string());
    let records = vec![suggesting("src/lib.rs", "std::collections::HashMap")];
    assert_eq!(driver.absorb_records(false, &records), Verdict::Retry);
    assert_eq!(driver.imports().members(), &vec!["std::collections::HashMap".to_string()]);
    assert_eq!(driver.excluded().len(), 0);
    assert_eq!(driver.rendered(), "use std::collections::HashMap;");
}

#[test]
fn nothing_new_settles_the_run() {
    let mut driver = Driver::new("src/lib.rs".to_string());
    let records = vec![suggesting("src/lib.rs", "std::collections::HashMap")];
    assert_eq!(driver.absorb_records(false, &records), Verdict::Retry);
    assert_eq!(driver.absorb_records(false, &records), Verdict::Settled);
    assert_eq!(driver.imports().len(), 1);
    assert_eq!(driver.attempts(), 2);
    let mut idle = Driver::new("src/lib.rs".to_string());
    assert_eq!(idle.absorb(false, "error: could not compile"), Verdict::Settled);
    assert_eq!(idle.rendered(), "");
}

#[test]
fn records_about_other_files_are_left_aside() {
    let mut driver = Driver::new("src/lib.rs".to_string());
    let records = vec![
        suggesting("src/other.rs", "std::collections::HashMap"),
        suggesting("src/lib.rs", "std::collections::HashSet"),
    ];
    assert_eq!(driver.absorb_records(false, &records), Verdict::Retry);
    assert_eq!(driver.imports().members(), &vec!["std::collections::HashSet".to_string()]);
    let output = missing_macro_line("src/other.rs", &["crate_a::foo", "crate_b::foo"]);
    assert_eq!(driver.absorb(false, &output), Verdict::Settled);
    assert_eq!(driver.imports().len(), 1);
    assert_eq!(driver.excluded().len(), 0);
}

#[test]
fn each_identifier_gets_one_import() {
    let mut driver = Driver::new("src/lib.rs".to_string());
    let records = vec![
        suggesting("src/lib.rs", "core::cmp::Ordering"),
        suggesting("src/lib.rs", "std::collections::btree_map::Range"),
        suggesting("src/lib.rs", "std::cmp::Ordering"),
        suggesting("src/lib.rs", "std::ops::Range"),
        suggesting("src/lib.rs", "std::fmt::Write"),
        suggesting("src/lib.rs", "std::cmp::Ordering"),
    ];
    assert_eq!(driver.absorb_records(false, &records), Verdict::Retry);
    assert_eq!(
        driver.imports().members(),
        &vec![
            "std::cmp::Ordering".to_string(),
            "std::ops::Range".to_string(),
            "std::fmt::Write".to_string()
        ]
    );
    assert_eq!(
        driver.excluded().members(),
        &vec![
            "core::cmp::Ordering".to_string(),
            "std::collections::btree_map::Range".to_string()
        ]
    );
    assert_eq!(
        driver.rendered(),
        "use std::cmp::Ordering;use std::ops::Range;use std::fmt::Write;"
    );
}

#[test]
fn what_was_excluded_is_not_proposed_again() {
    let mut driver = Driver::new("src/lib.rs".to_string());
    let records = vec![
        suggesting("src/lib.rs", "core::cmp::Ordering"),
        suggesting("src/lib.rs", "std::cmp::Ordering"),
    ];
    assert_eq!(driver.absorb_records(false, &records), Verdict::Retry);
    let again = vec![suggesting("src/lib.rs", "core::cmp::Ordering")];
    assert_eq!(driver.absorb_records(false, &again), Verdict::Settled);
    assert_eq!(driver.imports().members(), &vec!["std::cmp::Ordering".to_string()]);
    assert_eq!(driver.excluded().members(), &vec!["core::cmp::Ordering".to_string()]);
    let proposed = driver.propose(&records);
    assert_eq!(proposed.len(), 0);
}

#[test]
fn propose_holds_each_new_candidate_once() {
    let driver = Driver::new("src/lib.rs".to_string());
    let records = vec![
        suggesting("src/lib.rs", "a::X"),
        suggesting("src/lib.rs", "b::Y"),
        suggesting("src/other.rs", "c::Z"),
        suggesting("src/lib.rs", "a::X"),
    ];
    let proposed = driver.propose(&records);
    assert_eq!(proposed.members(), &vec!["a::X".to_string(), "b::Y".to_string()]);
}

#[test]
fn the_sets_never_get_smaller() {
    let mut driver = Driver::new("src/lib.rs".to_string());
    let mut imports = 0;
    let mut excluded = 0;
    for round in 0..6 {
        let records = vec![
            suggesting("src/lib.rs", &format!("crate_a::Item{}", round / 2)),
            suggesting("src/lib.rs", &format!("crate_b::Item{}", round / 2)),
        ];
        let before: Vec<String> = driver.imports().members().clone();
        driver.absorb_records(false, &records);
        assert!(driver.imports().len() >= imports);
        assert!(driver.excluded().len() >= excluded);
        assert_eq!(&driver.imports().members()[..before.len()], &before[..]);
        imports = driver.imports().len();
        excluded = driver.excluded().len();
    }
    assert_eq!(imports, 3);
    assert_eq!(excluded, 3);
}

#[test]
fn the_run_ends_with_the_tenth_attempt() {
    let mut driver = Driver::new("src/lib.rs".to_string());
    for round in 1..=ATTEMPT_CAP {
        let records = vec![suggesting("src/lib.rs", &format!("crate_a::Item{}", round))];
        let verdict = driver.absorb_records(false, &records);
        if round < ATTEMPT_CAP {
            assert_eq!(verdict, Verdict::Retry);
        } else {
            assert_eq!(verdict, Verdict::Settled);
        }
        assert_eq!(driver.attempts(), round);
    }
    assert_eq!(driver.imports().len(), 10);
    let records = vec![suggesting("src/lib.rs", "crate_a::Late")];
    assert_eq!(driver.absorb_records(false, &records), Verdict::Settled);
    assert_eq!(driver.attempts(), ATTEMPT_CAP);
    assert_eq!(ATTEMPT_CAP, 10);
}

#[test]
fn a_success_changes_nothing_but_the_count() {
    let mut driver = Driver::new("src/lib.rs".to_string());
    let records = vec![suggesting("src/lib.rs", "crate_a::Item")];
    assert_eq!(driver.absorb_records(true, &records), Verdict::Succeeded);
    assert_eq!(driver.imports().len(), 0);
    assert_eq!(driver.excluded().len(), 0);
    assert_eq!(driver.attempts(), 1);
}

#[test]
fn render_writes_one_declaration_for_each_member() {
    let mut set = CandidateSet::new();
    assert_eq!(render(&set), "");
    set.insert("std::fmt::Write".to_string());
    assert_eq!(render(&set), "use std::fmt::Write;");
    set.insert("crate_a::foo".to_string());
    set.insert("std::fmt::Write".to_string());
    assert_eq!(render(&set), "use std::fmt::Write;use crate_a::foo;");
}

#[test]
fn each_choice_is_told_with_its_basis() {
    let mut driver = Driver::new("src/lib.rs".to_string());
    let records = vec![
        suggesting("src/lib.rs", "core::cmp::Ordering"),
        suggesting("src/lib.rs", "std::collections::btree_map::Range"),
        suggesting("src/lib.rs", "std::cmp::Ordering"),
        suggesting("src/lib.rs", "std::ops::Range"),
        suggesting("src/lib.rs", "std::fmt::Write"),
    ];
    driver.absorb_records(false, &records);
    let told: Vec<(&str, usize, &str, Basis)> = driver
        .choices()
        .iter()
        .map(|c| (c.ident.as_str(), c.candidates.len(), c.winner.as_str(), c.how))
        .collect();
    assert_eq!(
        told,
        vec![
            ("Ordering", 2, "std::cmp::Ordering", Basis::StdOverCore),
            ("Range", 2, "std::ops::Range", Basis::Preferred),
            ("Write", 1, "std::fmt::Write", Basis::Alone),
        ]
    );
    assert_eq!(
        driver.choices()[0].candidates,
        vec!["core::cmp::Ordering".to_string(), "std::cmp::Ordering".to_string()]
    );
    driver.absorb_records(false, &records);
    assert!(driver.choices().is_empty());
}
