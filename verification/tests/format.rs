use twirer::title::format_title;
use twirer::word::{has_unescaped, Word, WordSet};

fn words(list: &[&str]) -> WordSet {
    let owned: Vec<String> = list.iter().map(|s| s.to_string()).collect();
    WordSet::from_words(&owned)
}

#[test]
fn unescaped_occurrence_is_found() {
    assert!(has_unescaped("a_b", "_"));
}

#[test]
fn escaped_occurrence_is_suppressed() {
    assert!(!has_unescaped("a\\_b", "_"));
}

#[test]
fn escape_suppresses_only_its_own_occurrence() {
    assert!(has_unescaped("a\\_b_c", "_"));
}

#[test]
fn leading_word_is_decapitalized() {
    assert_eq!(format_title(&words(&[]), "Fix bug in cargo"), "fix bug in cargo");
}

#[test]
fn acronym_is_not_decapitalized() {
    assert_eq!(format_title(&words(&[]), "CARGO: fix it"), "CARGO: fix it");
}

#[test]
fn label_colon_passes_decapitalization_on() {
    assert_eq!(format_title(&words(&[]), "Update: Fix the docs"), "update: fix the docs");
}

#[test]
fn snake_case_word_becomes_code() {
    assert_eq!(format_title(&words(&[]), "support foo_bar here"), "support `foo_bar` here");
}

#[test]
fn adjacent_code_words_share_one_span() {
    assert_eq!(
        format_title(&words(&[]), "use a::b c::d now"),
        "use `a::b c::d` now"
    );
}

#[test]
fn configured_code_word_is_wrapped() {
    assert_eq!(format_title(&words(&["rustc"]), "teach rustc this"), "teach `rustc` this");
}

#[test]
fn call_shape_is_code_but_parenthetical_is_not() {
    assert_eq!(format_title(&words(&[]), "inline foo(bar) (really)"), "inline `foo(bar)` (really)");
}

#[test]
fn attribute_is_code() {
    assert_eq!(format_title(&words(&[]), "expand #[derive] here"), "expand `#[derive]` here");
}

#[test]
fn existing_backticks_round_trip() {
    assert_eq!(format_title(&words(&[]), "keep `code` here"), "keep `code` here");
}

#[test]
fn colon_stays_outside_closing_backtick() {
    assert_eq!(format_title(&words(&[]), "foo_bar: fixed"), "`foo_bar`: fixed");
}

#[test]
fn formatting_is_idempotent_on_samples() {
    let ws = words(&["rustc"]);
    let samples = [
        "Fix bug in cargo",
        "CARGO: fix it",
        "Update: Make foo_bar faster",
        "use a::b c::d now",
        "teach rustc this",
        "inline foo(bar) (really)",
        "keep `code` here",
        "foo_bar: fixed",
        "Generics with Vec<T> work",
    ];
    for t in samples {
        let once = format_title(&ws, t);
        let twice = format_title(&ws, &once);
        assert_eq!(twice, once, "not idempotent on {t:?}");
    }
}

#[test]
fn output_backtick_count_is_even_on_samples() {
    let ws = words(&["rustc"]);
    let samples = [
        "Fix bug in cargo",
        "Update: Make foo_bar faster",
        "use a::b c::d now",
        "keep `code` here",
        "wrap `many code words` once",
        "foo_bar: fixed",
    ];
    for t in samples {
        let out = format_title(&ws, t);
        let ticks = out.chars().filter(|&c| c == '`').count();
        assert_eq!(ticks % 2, 0, "odd backticks in {out:?}");
    }
}

#[test]
fn classifier_reports_span_markers() {
    let ws = words(&[]);
    let (w, into_code, out_code) = Word::new("`foo`:", false, &ws);
    assert_eq!(w.text, "foo");
    assert!(w.is_code);
    assert!(w.colon);
    assert!(into_code);
    assert!(out_code);
}

#[test]
fn classifier_keeps_plain_word_plain() {
    let ws = words(&[]);
    let (w, into_code, out_code) = Word::new("plain", false, &ws);
    assert_eq!(w.text, "plain");
    assert!(!w.is_code);
    assert!(!w.colon);
    assert!(!into_code);
    assert!(!out_code);
}

#[test]
fn running_span_claims_following_words() {
    let ws = words(&[]);
    let (w, _, _) = Word::new("plain", true, &ws);
    assert!(w.is_code);
}

#[test]
fn decapitalization_follows_unicode_case() {
    let no_words = WordSet::new();
    assert_eq!(format_title(&no_words, "Überprüfe das"), "überprüfe das");
}
