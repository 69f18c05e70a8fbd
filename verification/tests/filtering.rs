use twirer::entry::{alias_of, dedup_key, render_entry_line, repo_title};
use twirer::filter::filter_and_sort;
use twirer::word::WordSet;

fn strings(list: &[&str]) -> Vec<String> {
    list.iter().map(|s| s.to_string()).collect()
}

fn run(
    raw: &[&str],
    prev_lines: &[&str],
    ignore: &[&str],
    code_words: &[&str],
    order: &[&str],
) -> Vec<String> {
    let mut previous = WordSet::new();
    for line in prev_lines {
        previous.insert(dedup_key(line));
    }
    let code = WordSet::from_words(&strings(code_words));
    filter_and_sort(&strings(raw), &previous, &strings(ignore), &code, &strings(order))
}

#[test]
fn previously_announced_link_is_dropped() {
    let out = run(&["* [T](u1)"], &["x](u1)"], &[], &[], &[]);
    assert!(out.is_empty());
}

#[test]
fn different_link_is_retained() {
    let out = run(&["* [T](u2)"], &["x](u1)"], &[], &[], &[]);
    assert_eq!(out, vec!["* [T](u2)".to_string()]);
}

#[test]
fn ignore_word_drops_the_line() {
    let out = run(
        &["* [Update miri to 1.2.3](https://github.com/rust-lang/miri/pull/42)"],
        &[],
        &["update"],
        &[],
        &[],
    );
    assert!(out.is_empty());
}

#[test]
fn without_ignore_word_the_line_is_formatted() {
    let out = run(
        &["* [Update miri to 1.2.3](https://github.com/rust-lang/miri/pull/42)"],
        &[],
        &[],
        &[],
        &[],
    );
    assert_eq!(
        out,
        vec!["* [update miri to 1.2.3](https://github.com/rust-lang/miri/pull/42)".to_string()]
    );
}

#[test]
fn configured_repos_sort_before_unlisted_ones() {
    let out = run(
        &[
            "* [b change](https://github.com/rust-lang/miri/pull/3)",
            "* [a change](https://github.com/rust-lang/rustfmt/pull/2)",
            "* [c change](https://github.com/rust-lang/cargo/pull/1)",
        ],
        &[],
        &[],
        &[],
        &["cargo", "rustfmt"],
    );
    assert_eq!(
        out,
        vec![
            "* [c change](https://github.com/rust-lang/cargo/pull/1)".to_string(),
            "* [a change](https://github.com/rust-lang/rustfmt/pull/2)".to_string(),
            "* [b change](https://github.com/rust-lang/miri/pull/3)".to_string(),
        ]
    );
}

#[test]
fn unlisted_repos_tie_break_by_name_then_title() {
    let out = run(
        &[
            "* [z change](https://github.com/rust-lang/rustup/pull/5)",
            "* [b change](https://github.com/rust-lang/miri/pull/3)",
            "* [a change](https://github.com/rust-lang/miri/pull/4)",
        ],
        &[],
        &[],
        &[],
        &["cargo"],
    );
    assert_eq!(
        out,
        vec![
            "* [a change](https://github.com/rust-lang/miri/pull/4)".to_string(),
            "* [b change](https://github.com/rust-lang/miri/pull/3)".to_string(),
            "* [z change](https://github.com/rust-lang/rustup/pull/5)".to_string(),
        ]
    );
}

#[test]
fn equal_keys_keep_their_arrival_order() {
    let out = run(
        &[
            "* [same title](https://github.com/rust-lang/cargo/pull/7)",
            "* [same title](https://github.com/rust-lang/cargo/pull/5)",
        ],
        &[],
        &[],
        &[],
        &["cargo"],
    );
    assert_eq!(
        out,
        vec![
            "* [same title](https://github.com/rust-lang/cargo/pull/7)".to_string(),
            "* [same title](https://github.com/rust-lang/cargo/pull/5)".to_string(),
        ]
    );
}

#[test]
fn malformed_line_survives_as_title_only() {
    let out = run(&["no delimiter here"], &[], &[], &[], &[]);
    assert_eq!(out, vec!["* [no delimiter here](".to_string()]);
}

#[test]
fn dedup_key_is_the_link_part() {
    assert_eq!(dedup_key("* [T](u1)"), "u1)");
    assert_eq!(dedup_key("junk"), "junk");
}

#[test]
fn sort_key_ranks_known_repo() {
    let order = strings(&["cargo", "rustfmt"]);
    let (rank, repo, title) =
        repo_title("* [x](https://github.com/rust-lang/rustfmt/pull/1)", &order);
    assert_eq!(rank, 1);
    assert_eq!(repo, "rustfmt");
    assert_eq!(title, "* [x");
}

#[test]
fn sort_key_of_malformed_line_uses_the_whole_line() {
    let order = strings(&["cargo"]);
    let (rank, repo, title) = repo_title("nothing here", &order);
    assert_eq!(rank, usize::MAX);
    assert_eq!(repo, "");
    assert_eq!(title, "nothing here");
}

#[test]
fn known_repo_gets_its_alias_prefix() {
    let line = render_entry_line(
        "Fix resolver. ",
        "https://github.com/rust-lang/cargo/pull/9",
        "/rust-lang/cargo/pull/9",
    );
    assert_eq!(line, "* [cargo: Fix resolver](https://github.com/rust-lang/cargo/pull/9)");
}

#[test]
fn already_prefixed_title_is_left_alone() {
    let line = render_entry_line(
        "cargo: Fix resolver",
        "https://github.com/rust-lang/cargo/pull/9",
        "/rust-lang/cargo/pull/9",
    );
    assert_eq!(line, "* [cargo: Fix resolver](https://github.com/rust-lang/cargo/pull/9)");
}

#[test]
fn unknown_repo_gets_no_prefix() {
    let line = render_entry_line(
        "Fix things",
        "https://github.com/rust-lang/rust/pull/9",
        "/rust-lang/rust/pull/9",
    );
    assert_eq!(line, "* [Fix things](https://github.com/rust-lang/rust/pull/9)");
}

#[test]
fn alias_table_escapes_the_gcc_backend() {
    assert_eq!(alias_of("rustc_codegen_gcc"), Some("codegen\\_gcc"));
    assert_eq!(alias_of("rust-bindgen"), Some("bindgen"));
    assert_eq!(alias_of("unknown"), None);
}
