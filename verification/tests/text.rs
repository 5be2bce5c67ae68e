use auto_import::text::{
    all_lines, chars_of, extract, lines_of, same_text, split, strip_prefix, terminal, trim,
    white_space,
};

#[test]
fn extract_strips_both_ends() {
    assert_eq!(extract("use ", "use std::fmt::Write;", ";"), Some("std::fmt::Write"));
}

#[test]
fn extract_finds_the_macro_name() {
    assert_eq!(
        extract("cannot find macro `", "cannot find macro `vec2` in this scope", "` in this scope"),
        Some("vec2")
    );
}

#[test]
fn extract_with_an_empty_end_strips_the_start() {
    assert_eq!(
        extract("consider importing this macro:\n", "consider importing this macro:\nfoo::bar", ""),
        Some("foo::bar")
    );
}

#[test]
fn extract_gives_the_empty_text_between_adjacent_ends() {
    assert_eq!(extract("use ", "use ;", ";"), Some(""));
}

#[test]
fn extract_refuses_a_missing_start_or_end() {
    assert_eq!(extract("use ", "pub use a::b;", ";"), None);
    assert_eq!(extract("use ", "use a::b", ";"), None);
    assert_eq!(extract("use ", "", ";"), None);
}

#[test]
fn extract_refuses_overlapping_ends() {
    assert_eq!(
        extract("cannot find macro `", "cannot find macro ` in this scope", "` in this scope"),
        None
    );
}

#[test]
fn extract_counts_characters_not_bytes() {
    assert_eq!(extract("é", "éaé", "é"), Some("a"));
}

#[test]
fn chars_of_gives_every_character() {
    assert_eq!(chars_of("aé{"), vec!['a', 'é', '{']);
    assert_eq!(chars_of(""), Vec::<char>::new());
}

#[test]
fn split_divides_at_each_separator() {
    assert_eq!(split("a::b::c", "::"), vec!["a", "b", "c"]);
    assert_eq!(split("abc", "::"), vec!["abc"]);
    assert_eq!(split("", "::"), vec![""]);
    assert_eq!(split("a::", "::"), vec!["a", ""]);
    assert_eq!(split("::a", "::"), vec!["", "a"]);
}

#[test]
fn split_finds_separators_from_the_left() {
    assert_eq!(split("a:::b", "::"), vec!["a", ":b"]);
    assert_eq!(split("a::::b", "::"), vec!["a", "", "b"]);
}

#[test]
fn split_by_nothing_divides_nothing() {
    assert_eq!(split("abc", ""), vec!["abc"]);
}

#[test]
fn terminal_is_the_last_segment() {
    assert_eq!(terminal("std::collections::HashMap"), "HashMap");
    assert_eq!(terminal("HashMap"), "HashMap");
    assert_eq!(terminal("std::"), "");
    assert_eq!(terminal(""), "");
    assert_eq!(terminal("a:::b"), ":b");
}

#[test]
fn lines_of_leaves_empty_lines_out() {
    assert_eq!(lines_of("\ncrate_a::foo\ncrate_b::foo"), vec!["crate_a::foo", "crate_b::foo"]);
    assert_eq!(lines_of("a\n\n\nb\n"), vec!["a", "b"]);
    assert_eq!(lines_of(""), Vec::<&str>::new());
    assert_eq!(lines_of("\n\n"), Vec::<&str>::new());
    assert_eq!(lines_of("a\r\nb"), vec!["a\r", "b"]);
}

#[test]
fn all_lines_removes_line_ends() {
    assert_eq!(all_lines("a\nb\r\nc"), vec!["a", "b", "c"]);
    assert_eq!(all_lines("a\n"), vec!["a", ""]);
    assert_eq!(all_lines("a\r"), vec!["a\r"]);
    assert_eq!(all_lines("\r\n\n"), vec!["", "", ""]);
    assert_eq!(all_lines(""), vec![""]);
}

#[test]
fn trim_removes_white_space_at_both_ends() {
    assert_eq!(trim("  use a::b;\n\n"), "use a::b;");
    assert_eq!(trim("\t\u{a0}x y\u{3000}"), "x y");
    assert_eq!(trim("x"), "x");
    assert_eq!(trim("   "), "");
    assert_eq!(trim(""), "");
}

#[test]
fn trim_agrees_with_the_standard_library() {
    for text in ["", " ", " a", "a ", " a b ", "\n\na\r\n", "\u{2028}é\u{2029}", "a\u{200b}"] {
        assert_eq!(trim(text), text.trim());
    }
}

#[test]
fn strip_prefix_removes_a_prefix_that_is_there() {
    assert_eq!(strip_prefix("std::", "std::cmp::Ordering"), Some("cmp::Ordering"));
    assert_eq!(strip_prefix("std::", "core::cmp::Ordering"), None);
    assert_eq!(strip_prefix("std::", "std"), None);
    assert_eq!(strip_prefix("", "std"), Some("std"));
}

#[test]
fn same_text_compares_characters() {
    assert!(same_text("abc", "abc"));
    assert!(!same_text("abc", "abd"));
    assert!(!same_text("abc", "ab"));
    assert!(same_text("", ""));
}

#[test]
fn white_space_is_what_the_standard_library_takes_for_it() {
    for code in 0..=0x10FFFFu32 {
        if let Some(c) = char::from_u32(code) {
            assert_eq!(white_space(c), c.is_whitespace(), "U+{:04X}", code);
        }
    }
}

#[test]
fn white_space_holds_its_twenty_five_characters() {
    let count = (0..=0x10FFFFu32).filter_map(char::from_u32).filter(|c| white_space(*c)).count();
    assert_eq!(count, 25);
    for c in ['\t', '\n', '\u{b}', '\u{c}', '\r', ' ', '\u{85}', '\u{a0}', '\u{3000}'] {
        assert!(white_space(c));
    }
    for c in ['u', ';', 'a', '0', '\u{8}', '\u{e}', '\u{200b}', '\u{180e}', '\u{feff}'] {
        assert!(!white_space(c));
    }
}
