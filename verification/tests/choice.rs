use auto_import::choice::{
    basis, collapse, disambiguate, disambiguate_with, preferred, std_and_core, Basis,
};

fn strings(items: &[&str]) -> Vec<String> {
    items.iter().map(|item| item.to_string()).collect()
}

#[test]
fn std_and_core_recognises_twins() {
    assert!(std_and_core("std::cmp::Ordering", "core::cmp::Ordering"));
    assert!(!std_and_core("core::cmp::Ordering", "std::cmp::Ordering"));
    assert!(!std_and_core("std::cmp::Ordering", "core::cmp::Ord"));
    assert!(!std_and_core("std::cmp::Ordering", "std::cmp::Ordering"));
    assert!(std_and_core("std::", "core::"));
    assert!(!std_and_core("std", "core"));
}

#[test]
fn std_wins_over_core() {
    let candidates = strings(&["std::cmp::Ordering", "core::cmp::Ordering"]);
    let (winner, losers) = disambiguate(candidates);
    assert_eq!(winner, "std::cmp::Ordering");
    assert_eq!(losers, strings(&["core::cmp::Ordering"]));
}

#[test]
fn std_wins_over_core_in_either_order() {
    let candidates = strings(&["core::cmp::Ordering", "std::cmp::Ordering"]);
    let (winner, losers) = disambiguate(candidates);
    assert_eq!(winner, "std::cmp::Ordering");
    assert_eq!(losers, strings(&["core::cmp::Ordering"]));
}

#[test]
fn std_wins_over_core_whatever_chance_gives() {
    for pick in [0, 1, 2, 7, usize::MAX] {
        let candidates = strings(&["core::cmp::Ordering", "std::cmp::Ordering"]);
        let (winner, losers) = disambiguate_with(candidates, pick);
        assert_eq!(winner, "std::cmp::Ordering");
        assert_eq!(losers, strings(&["core::cmp::Ordering"]));
    }
}

#[test]
fn the_preferred_range_wins() {
    let candidates = strings(&["std::collections::btree_map::Range", "std::ops::Range"]);
    let (winner, losers) = disambiguate(candidates);
    assert_eq!(winner, "std::ops::Range");
    assert_eq!(losers, strings(&["std::collections::btree_map::Range"]));
}

#[test]
fn the_preferred_range_wins_among_many() {
    let candidates = strings(&[
        "std::collections::btree_map::Range",
        "core::ops::Range",
        "std::collections::btree_set::Range",
        "std::ops::Range",
    ]);
    for pick in [0, 1, 2, 3] {
        let (winner, losers) = disambiguate_with(strings(&[
            "std::collections::btree_map::Range",
            "core::ops::Range",
            "std::collections::btree_set::Range",
            "std::ops::Range",
        ]), pick);
        assert_eq!(winner, "std::ops::Range");
        assert_eq!(
            losers,
            strings(&[
                "std::collections::btree_map::Range",
                "std::collections::btree_set::Range",
                "core::ops::Range",
            ])
        );
    }
    let (winner, _) = disambiguate(candidates);
    assert_eq!(winner, "std::ops::Range");
}

#[test]
fn a_single_candidate_wins_alone() {
    let (winner, losers) = disambiguate(strings(&["crate_a::foo"]));
    assert_eq!(winner, "crate_a::foo");
    assert!(losers.is_empty());
    for pick in [0, 1, 9] {
        let (winner, losers) = disambiguate_with(strings(&["core::mem::swap"]), pick);
        assert_eq!(winner, "core::mem::swap");
        assert!(losers.is_empty());
    }
}

#[test]
fn chance_decides_between_equals() {
    for _ in 0..50 {
        let (winner, losers) = disambiguate(strings(&["crate_a::foo", "crate_b::foo"]));
        if winner == "crate_a::foo" {
            assert_eq!(losers, strings(&["crate_b::foo"]));
        } else {
            assert_eq!(winner, "crate_b::foo");
            assert_eq!(losers, strings(&["crate_a::foo"]));
        }
    }
}

#[test]
fn chance_reaches_every_survivor() {
    let mut seen_a = false;
    let mut seen_b = false;
    for _ in 0..400 {
        let (winner, _) = disambiguate(strings(&["crate_a::foo", "crate_b::foo"]));
        seen_a = seen_a || winner == "crate_a::foo";
        seen_b = seen_b || winner == "crate_b::foo";
    }
    assert!(seen_a && seen_b);
}

#[test]
fn the_pick_selects_among_survivors() {
    let all = ["crate_a::foo", "core::x::foo", "crate_b::foo", "std::x::foo"];
    let (winner, losers) = disambiguate_with(strings(&all), 0);
    assert_eq!(winner, "crate_a::foo");
    assert_eq!(losers, strings(&["crate_b::foo", "std::x::foo", "core::x::foo"]));
    let (winner, losers) = disambiguate_with(strings(&all), 1);
    assert_eq!(winner, "crate_b::foo");
    assert_eq!(losers, strings(&["crate_a::foo", "std::x::foo", "core::x::foo"]));
    let (winner, losers) = disambiguate_with(strings(&all), 2);
    assert_eq!(winner, "std::x::foo");
    assert_eq!(losers, strings(&["crate_a::foo", "crate_b::foo", "core::x::foo"]));
    let (winner, _) = disambiguate_with(strings(&all), 3);
    assert_eq!(winner, "crate_a::foo");
    let (winner, _) = disambiguate_with(strings(&all), 302);
    assert_eq!(winner, "std::x::foo");
}

#[test]
fn collapse_sets_shadowed_core_paths_aside() {
    let (kept, dropped) = collapse(&strings(&[
        "core::fmt::Write",
        "std::io::Write",
        "std::fmt::Write",
        "core::io::Write",
        "core::other::Write",
    ]));
    assert_eq!(kept, strings(&["std::io::Write", "std::fmt::Write", "core::other::Write"]));
    assert_eq!(dropped, strings(&["core::fmt::Write", "core::io::Write"]));
}

#[test]
fn only_the_range_of_ops_is_preferred() {
    assert!(preferred("std::ops::Range"));
    assert!(!preferred("core::ops::Range"));
    assert!(!preferred("std::ops::RangeInclusive"));
    assert!(!preferred(""));
}

#[test]
fn the_basis_tells_how_a_choice_is_made() {
    assert_eq!(basis(&strings(&["crate_a::foo"])), Basis::Alone);
    assert_eq!(basis(&strings(&["core::mem::swap"])), Basis::Alone);
    assert_eq!(basis(&strings(&[])), Basis::Alone);
    assert_eq!(
        basis(&strings(&["core::cmp::Ordering", "std::cmp::Ordering"])),
        Basis::StdOverCore
    );
    assert_eq!(
        basis(&strings(&["std::collections::btree_map::Range", "std::ops::Range"])),
        Basis::Preferred
    );
    assert_eq!(
        basis(&strings(&["std::ops::Range", "core::ops::Range"])),
        Basis::StdOverCore
    );
    assert_eq!(
        basis(&strings(&["std::ops::Range", "core::ops::Range", "my::Range"])),
        Basis::Preferred
    );
    assert_eq!(basis(&strings(&["crate_a::foo", "crate_b::foo"])), Basis::Chance);
    assert_eq!(
        basis(&strings(&["crate_a::foo", "core::x::foo", "std::x::foo"])),
        Basis::Chance
    );
    assert_eq!(basis(&strings(&["crate_a::foo", "crate_a::foo"])), Basis::Chance);
}
