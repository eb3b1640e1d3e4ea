use wiki_cli::links::{emit_link_marker, style_links};
use wiki_cli::markup::{colorize_heading, flatten_tables};
use wiki_cli::paint::{bold, bold_blue, bold_cyan, dimmed, underline};

fn colors() {
    colored::control::set_override(true);
}

#[test]
fn styles_use_their_escape_codes() {
    colors();
    assert_eq!(bold("a"), "\x1b[1ma\x1b[0m");
    assert_eq!(dimmed("a"), "\x1b[2ma\x1b[0m");
    assert_eq!(underline("a"), "\x1b[4ma\x1b[0m");
    assert_eq!(bold_cyan("a"), "\x1b[1;36ma\x1b[0m");
    assert_eq!(bold_blue("a"), "\x1b[1;34ma\x1b[0m");
}

#[test]
fn nested_styles_resume_after_reset() {
    colors();
    let inner = underline("y");
    assert_eq!(underline(&format!("x {} z", inner)), "\x1b[4mx \x1b[4my\x1b[0m\x1b[4m z\x1b[0m");
}

#[test]
fn headings_are_coloured_by_level() {
    colors();
    assert_eq!(colorize_heading("### Sub"), "\x1b[1m### Sub\x1b[0m");
    assert_eq!(colorize_heading(" ## Sec"), "\x1b[1;36m ## Sec\x1b[0m");
    assert_eq!(colorize_heading("# Top"), "\x1b[1;34m# Top\x1b[0m");
    assert_eq!(colorize_heading("plain"), "plain");
}

#[test]
fn table_labels_are_dimmed() {
    colors();
    assert_eq!(flatten_tables("a │ b"), "\x1b[2ma\x1b[0m\n  b");
}

#[test]
fn link_display_underlined_and_title_dimmed() {
    colors();
    let mut text = String::new();
    emit_link_marker(&mut text, "./Rust_(language)", "Rust");
    let mut seen = Vec::new();
    assert_eq!(style_links(&text, &mut seen), "\x1b[4mRust\x1b[0m\x1b[2m [Rust (language)]\x1b[0m");
}

#[test]
fn nested_brackets_are_underlined_inside_out() {
    colors();
    let mut seen = Vec::new();
    assert_eq!(style_links("[x [y] z]", &mut seen), "\x1b[4mx \x1b[4my\x1b[0m\x1b[4m z\x1b[0m");
}
