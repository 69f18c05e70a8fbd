use twirer::lint::{check_link, check_markdown, check_title, lint};

#[test]
fn clean_title_passes() {
    assert_eq!(check_title("fix `foo_bar` resolution"), 0);
}

#[test]
fn unescaped_bracket_outside_code_is_an_error() {
    assert_eq!(check_title("bad [title"), 1);
}

#[test]
fn bracket_inside_code_span_is_fine() {
    assert_eq!(check_title("expand `#[derive]` here"), 0);
}

#[test]
fn escaped_underscore_is_fine() {
    assert_eq!(check_title("codegen\\_gcc update"), 0);
}

#[test]
fn unmatched_backtick_is_an_error() {
    assert_eq!(check_title("odd `span"), 1);
}

#[test]
fn trailing_backslash_is_an_error() {
    assert_eq!(check_title("wonky\\"), 1);
}

#[test]
fn organization_pull_link_passes() {
    assert_eq!(check_link("https://github.com/rust-lang/cargo/pull/123"), 0);
}

#[test]
fn link_outside_the_organization_passes() {
    assert_eq!(check_link("https://example.com/whatever"), 0);
}

#[test]
fn non_pull_path_is_an_error() {
    assert_eq!(check_link("https://github.com/rust-lang/cargo/issues/123"), 1);
}

#[test]
fn non_numeric_pull_number_is_an_error() {
    assert_eq!(check_link("https://github.com/rust-lang/cargo/pull/12a"), 1);
}

#[test]
fn bad_repo_character_is_an_error() {
    assert_eq!(check_link("https://github.com/rust-lang/car go/pull/1"), 1);
}

#[test]
fn missing_number_is_an_error() {
    assert_eq!(check_link("https://github.com/rust-lang/cargo/pull"), 1);
}

#[test]
fn zero_or_two_trailing_spaces_pass() {
    assert_eq!(check_markdown("line one\nline two  \nline three"), 0);
}

#[test]
fn one_trailing_space_is_flagged() {
    assert_eq!(check_markdown("line one \nline two"), 1);
}

#[test]
fn three_trailing_spaces_are_flagged() {
    assert_eq!(check_markdown("line one   \nline two"), 1);
}

fn updates_doc(entries: &str) -> String {
    format!(
        "Intro text\n\
         ## Updates from the Rust Project\n\
         \n\
         2 pull requests were [merged in the last week][merged]\n\
         \n\
         [merged]: https://github.com/search?q=is%3Apr+org%3Arust-lang+is%3Amerged+merged%3A2024-01-01..2024-01-08\n\
         \n\
         {entries}"
    )
}

#[test]
fn clean_document_lints_clean() {
    let doc = updates_doc(
        "* [cargo: fix resolver](https://github.com/rust-lang/cargo/pull/1)\n\
         * [miri: support `foo_bar`](https://github.com/rust-lang/miri/pull/2)",
    );
    assert_eq!(lint(&doc), 0);
}

#[test]
fn malformed_title_is_counted() {
    let doc = updates_doc(
        "* [bad [title](https://github.com/rust-lang/cargo/pull/1)\n\
         * [fine title](https://github.com/rust-lang/cargo/pull/2)",
    );
    assert_eq!(lint(&doc), 1);
}

#[test]
fn the_count_matches_the_violating_lines() {
    let doc = updates_doc(
        "* [bad [title](https://github.com/rust-lang/cargo/pull/1)\n\
         * [also _bad](https://github.com/rust-lang/cargo/pull/2)\n\
         * [fine](https://github.com/rust-lang/cargo/pull/3)",
    );
    assert_eq!(lint(&doc), 2);
}

#[test]
fn wrong_entry_shape_is_counted() {
    let doc = updates_doc("not an entry line at all");
    assert_eq!(lint(&doc), 1);
}

#[test]
fn missing_merged_phrase_is_counted() {
    let doc = "start\n\
               ## Updates from the Rust Project\n\
               \n\
               something else entirely\n\
               \n\
               [merged]: https://github.com/search?q=is%3Apr+org%3Arust-lang+is%3Amerged+merged%3A2024\n\
               \n\
               * [fine](https://github.com/rust-lang/cargo/pull/3)";
    assert_eq!(lint(doc), 1);
}

#[test]
fn untracked_chapters_are_not_checked() {
    let doc = "Title\n\
               ## Something Else\n\
               a line with one trailing space \n\
               and [brackets] everywhere";
    assert_eq!(lint(doc), 0);
}

#[test]
fn tracked_chapter_whitespace_is_checked() {
    let doc = "Title\n\
               ## Quote of the Week\n\
               a quoted line with one trailing space \n\
               more text";
    assert_eq!(lint(doc), 1);
}

#[test]
fn the_issue_number_is_read_from_the_draft() {
    let draft = "Title: This Week in Rust\nNumber: 614\nDate: 2026-10-12\n";
    assert_eq!(twirer::lint::get_number(draft).unwrap(), "614");
}

#[test]
fn a_draft_without_a_number_is_a_shape_error() {
    assert!(twirer::lint::get_number("no marker here").is_err());
}
