use wiki_cli::api::{
    join_words, page_html_url, random_summary_url, search_query, search_url, summary_url,
    ContentUrls, LookupAction, LookupEvent, LookupState, SearchPage, SearchResponse, Summary,
    SummaryLookup, UrlSet,
};
use wiki_cli::article::{postprocess, render_html, render_tagged_lines, TaggedText};
use wiki_cli::format::{
    clean_excerpt, compose_page, decimal_digits, decode_html_entities, format_search_result,
    format_search_results, format_summary, format_summary_text,
};
use wiki_cli::links::{emit_link_marker, style_links, titles_match, wiki_title_from_url};
use wiki_cli::markup::{
    colorize_heading, flatten_tables, is_border_line, is_box_drawing, is_footnote_line,
    strip_ref_numbers, strip_superscript_refs,
};
use wiki_cli::pager::pager_command;
use wiki_cli::text::{chars_of, lines, split, string_of, trim};

fn no_colors() {
    colored::control::set_override(false);
}

fn run(text: &str, url: Option<&str>) -> TaggedText {
    TaggedText { text: text.to_string(), links: vec![None, url.map(|u| u.to_string())] }
}

fn marker(url: &str, display: &str) -> String {
    let mut s = String::new();
    emit_link_marker(&mut s, url, display);
    s
}

#[test]
fn superscript_groups_are_removed() {
    assert_eq!(strip_superscript_refs("Rust^{[1]} is fast"), "Rust is fast");
    assert_eq!(strip_superscript_refs("x^{a{b}c}y"), "xy");
    assert_eq!(strip_superscript_refs("a^{1}b^{2}c"), "abc");
}

#[test]
fn unclosed_superscript_is_kept() {
    assert_eq!(strip_superscript_refs("a^{b"), "a^{b");
    assert_eq!(strip_superscript_refs("a^{b^{c}"), "a^{b");
    assert_eq!(strip_superscript_refs("no groups ^ { here"), "no groups ^ { here");
}

#[test]
fn reference_numbers_are_removed() {
    assert_eq!(strip_ref_numbers("Rust[1] is fast[23]."), "Rust is fast.");
    assert_eq!(strip_ref_numbers("[7]"), "");
}

#[test]
fn other_brackets_are_kept() {
    assert_eq!(strip_ref_numbers("[a] [] [12 [1x]"), "[a] [] [12 [1x]");
    assert_eq!(strip_ref_numbers("[[1]]"), "[]");
    assert_eq!(strip_ref_numbers("end ["), "end [");
}

#[test]
fn footnote_lines_are_recognised() {
    assert!(is_footnote_line("[1]: Smith 2020"));
    assert!(is_footnote_line("   [12]: see"));
    assert!(!is_footnote_line("[a]: x"));
    assert!(!is_footnote_line("[]: x"));
    assert!(!is_footnote_line("[1] x"));
    assert!(!is_footnote_line("[1]:x"));
    assert!(!is_footnote_line("text [1]: x"));
}

#[test]
fn plain_lines_keep_their_text() {
    no_colors();
    assert_eq!(colorize_heading("just text"), "just text");
    assert_eq!(colorize_heading("#hashtag"), "#hashtag");
}

#[test]
fn headings_without_colours_are_unchanged() {
    no_colors();
    assert_eq!(colorize_heading("# Title"), "# Title");
    assert_eq!(colorize_heading("  ## Section"), "  ## Section");
}

#[test]
fn box_drawing_characters() {
    assert!(is_box_drawing('─'));
    assert!(is_box_drawing('╿'));
    assert!(!is_box_drawing('-'));
    assert!(is_border_line("  ┌──┬──┐ "));
    assert!(!is_border_line("   "));
    assert!(!is_border_line("│ a │"));
}

#[test]
fn tables_become_labels_and_values() {
    no_colors();
    let text = "Intro\n┌───┬───┐\nBorn │ 1990 │ Paris\n│ x\n└───┴───┘\nAfter  ";
    assert_eq!(flatten_tables(text), "Intro\nBorn\n  1990  Paris\n  x\n\nAfter");
}

#[test]
fn table_label_without_values() {
    no_colors();
    assert_eq!(flatten_tables("Only │  \nend"), "Only\n\nend");
    assert_eq!(flatten_tables("│  │  │"), "");
}

#[test]
fn lines_follow_str_lines() {
    let v = chars_of("a\r\nb\n\nc\r");
    let got: Vec<String> = lines(&v).iter().map(|l| string_of(l)).collect();
    let want: Vec<String> = "a\r\nb\n\nc\r".lines().map(|l| l.to_string()).collect();
    assert_eq!(got, want);
    assert!(lines(&chars_of("")).is_empty());
    assert_eq!(lines(&chars_of("x\n")).len(), 1);
}

#[test]
fn split_and_trim_follow_std() {
    let v = chars_of("a│b││");
    let got: Vec<String> = split(&v, '│').iter().map(|p| string_of(p)).collect();
    assert_eq!(got, vec!["a", "b", "", ""]);
    assert_eq!(string_of(&trim(&chars_of("\u{3000} x y \t"))), "x y");
}

#[test]
fn titles_from_urls() {
    assert_eq!(wiki_title_from_url("./Rust_(programming_language)"), Some("Rust (programming language)".to_string()));
    assert_eq!(wiki_title_from_url("https://en.wikipedia.org/wiki/Caf%C3%A9#History"), Some("Café".to_string()));
    assert_eq!(wiki_title_from_url("./100%_proof"), Some("100% proof".to_string()));
    assert_eq!(wiki_title_from_url("./%FF"), Some("%FF".to_string()));
}

#[test]
fn urls_without_article() {
    assert_eq!(wiki_title_from_url("./File:Ferris.png"), None);
    assert_eq!(wiki_title_from_url("./Template_talk:X"), None);
    assert_eq!(wiki_title_from_url("https://example.com/x"), None);
    assert_eq!(wiki_title_from_url("./#Notes"), None);
    assert_eq!(wiki_title_from_url("./"), None);
}

#[test]
fn titles_match_ignores_case_and_spaces() {
    assert!(titles_match("Rust (language)", "rust(Language)"));
    assert!(titles_match("Straße", "STRAßE"));
    assert!(!titles_match("Rust", "Rusty"));
}

#[test]
fn link_marker_layout() {
    assert_eq!(marker("./A", "b"), "[\u{1}./A\u{1}b]");
}

#[test]
fn links_get_title_note_once() {
    no_colors();
    let mut seen = Vec::new();
    let text = format!("{} and {}", marker("./Rust_(language)", "Rust"), marker("./Rust_(language)", "it"));
    assert_eq!(style_links(&text, &mut seen), "Rust [Rust (language)] and it");
    assert_eq!(seen, vec!["./Rust_(language)".to_string()]);
}

#[test]
fn links_matching_their_title_get_no_note() {
    no_colors();
    let mut seen = Vec::new();
    assert_eq!(style_links(&marker("./Rust", " rust "), &mut seen), " rust ");
    assert!(seen.is_empty());
}

#[test]
fn other_brackets_are_styled_without_brackets() {
    no_colors();
    let mut seen = Vec::new();
    assert_eq!(style_links("a [b [c] d] e", &mut seen), "a b c d e");
    assert_eq!(style_links("[\u{1}no second]", &mut seen), "\u{1}no second");
    assert_eq!(style_links("open [ end", &mut seen), "open [ end");
}

#[test]
fn excerpts_are_cleaned() {
    assert_eq!(clean_excerpt("<span class=\"searchmatch\">Rust</span> &amp; C&#39;s"), "Rust & C's");
    assert_eq!(decode_html_entities("&amp;lt;"), "<");
    assert_eq!(decode_html_entities("a&nbsp;b &quot;q&quot; &#039;&apos;"), "a b \"q\" ''");
}

#[test]
fn decimal_numbers() {
    assert_eq!(decimal_digits(0).iter().collect::<String>(), "0");
    assert_eq!(decimal_digits(1203).iter().collect::<String>(), "1203");
    assert_eq!(decimal_digits(u64::MAX).iter().collect::<String>(), u64::MAX.to_string());
}

#[test]
fn search_result_text() {
    no_colors();
    let long = "x\n".repeat(100);
    let out = format_search_result(2, "Rust", Some("A language"), Some(&long));
    let line: String = "x ".repeat(100).chars().take(120).collect();
    assert_eq!(out, format!("  3. Rust\n     A language\n     {}\n\n", line));
    assert_eq!(format_search_result(0, "T", None, None), "  1. T\n\n");
}

#[test]
fn search_results_text() {
    no_colors();
    assert_eq!(format_search_results("zz", &Vec::new()), "No results for \"zz\"\n");
    let pages = vec![SearchPage {
        id: 1,
        key: "Rust".to_string(),
        title: "Rust".to_string(),
        description: None,
        excerpt: Some("<span class=\"searchmatch\">Rust</span>".to_string()),
    }];
    assert_eq!(format_search_results("rust", &pages), "Results for \"rust\":\n\n  1. Rust\n     Rust\n\n");
}

#[test]
fn summary_text() {
    no_colors();
    let out = format_summary("Rust", Some("lang"), Some("one two three"), Some("https://x"), 200);
    assert_eq!(out, "Rust\nlang\n\none two three\n\nhttps://x\n");
    let narrow = format_summary("T", None, Some("one two three"), None, 7);
    assert_eq!(narrow, format!("T\n\n{}\n", textwrap::fill("one two three", 7)));
}

#[test]
fn page_text() {
    no_colors();
    assert_eq!(compose_page("Rust", Some("lang"), "body", Some("https://x")), "Rust\nlang\n\nbody\nhttps://x");
    assert_eq!(compose_page("Rust", None, "body", None), "Rust\n\nbody");
}

#[test]
fn tagged_lines_become_markers() {
    let lines = vec![
        vec![run("See ", None), run("Rust", Some("./Rust")), run(" lang", Some("./Rust")), run(".", None)],
        vec![run("a", Some("./A")), run("b", Some("./B"))],
    ];
    let want = format!("See {}.\n{}{}\n", marker("./Rust", "Rust lang"), marker("./A", "a"), marker("./B", "b"));
    assert_eq!(render_tagged_lines(&lines), want);
}

#[test]
fn html_is_rendered_with_link_titles() {
    no_colors();
    let out = render_html("Hello <a href=\"./Rust_(language)\">Rust</a>[1]", 80);
    assert_eq!(out, "Hello Rust [Rust (language)]");
}

#[test]
fn too_narrow_html_renders_empty() {
    no_colors();
    assert_eq!(render_html("<p>Hello</p>", 0), "");
}

#[test]
fn postprocess_pipeline() {
    no_colors();
    let text = "# Title\nText[1] here^{2}.\n[1]: a footnote\nk │ v\nend";
    assert_eq!(postprocess(text), "# Title\nText here.\n: a footnote\nk\n  v\n\nend");
}

#[test]
fn api_urls() {
    assert_eq!(search_url("en"), "https://en.wikipedia.org/w/rest.php/v1/search/page");
    assert_eq!(
        summary_url("de", "Rust (Sprache)"),
        "https://de.wikipedia.org/api/rest_v1/page/summary/Rust%20%28Sprache%29"
    );
    assert_eq!(page_html_url("fr", "Café"), "https://fr.wikipedia.org/api/rest_v1/page/html/Caf%C3%A9");
    assert_eq!(random_summary_url("ja"), "https://ja.wikipedia.org/api/rest_v1/page/random/summary");
    assert_eq!(
        search_query("rust lang", 10),
        vec![("q".to_string(), "rust lang".to_string()), ("limit".to_string(), "10".to_string())]
    );
}

#[test]
fn words_are_joined() {
    assert_eq!(join_words(&vec!["Rust".to_string(), "language".to_string()]), "Rust language");
    assert_eq!(join_words(&Vec::new()), "");
}

#[test]
fn summary_page_url() {
    let mut s = Summary { title: "T".to_string(), description: None, extract: None, content_urls: None };
    assert_eq!(s.page_url(), None);
    s.content_urls = Some(ContentUrls { desktop: Some(UrlSet { page: Some("https://x".to_string()) }) });
    assert_eq!(s.page_url(), Some("https://x".to_string()));
}

fn summary(title: &str) -> Summary {
    Summary { title: title.to_string(), description: None, extract: None, content_urls: None }
}

#[test]
fn lookup_direct_hit() {
    let (mut l, first) = SummaryLookup::new("Rust");
    assert!(matches!(first, LookupAction::FetchSummary(ref t) if t == "Rust"));
    match l.step(LookupEvent::Fetched(Some(summary("Rust")))) {
        LookupAction::Found(s) => assert_eq!(s.title, "Rust"),
        _ => panic!("expected the summary"),
    }
    assert!(matches!(l.state, LookupState::Done));
}

#[test]
fn lookup_through_search() {
    let (mut l, _) = SummaryLookup::new("rust lang");
    assert!(matches!(l.step(LookupEvent::Fetched(None)), LookupAction::Search(ref q, 1) if q == "rust lang"));
    let resp = SearchResponse {
        pages: vec![SearchPage { id: 1, key: "Rust".into(), title: "Rust".into(), description: None, excerpt: None }],
    };
    assert!(matches!(l.step(LookupEvent::Searched(resp)), LookupAction::FetchSummary(ref t) if t == "Rust"));
    assert!(matches!(l.step(LookupEvent::Fetched(None)), LookupAction::NotFound(ref t) if t == "rust lang"));
}

#[test]
fn lookup_search_without_results() {
    let (mut l, _) = SummaryLookup::new("qqq");
    l.step(LookupEvent::Fetched(None));
    let action = l.step(LookupEvent::Searched(SearchResponse { pages: Vec::new() }));
    assert!(matches!(action, LookupAction::NotFound(ref t) if t == "qqq"));
}

#[test]
fn pager_choice() {
    assert_eq!(pager_command(None), ("less".to_string(), vec!["-RFX".to_string()]));
    assert_eq!(pager_command(Some("more -s")), ("more".to_string(), vec!["-s".to_string()]));
    assert_eq!(pager_command(Some("  ")), ("less".to_string(), vec!["-RFX".to_string()]));
    assert_eq!(pager_command(Some("/usr/bin/less -N")), ("/usr/bin/less".to_string(), vec!["-N".to_string()]));
    assert_eq!(pager_command(Some(" bat\t--plain  -n ")), ("bat".to_string(), vec!["--plain".to_string(), "-n".to_string()]));
}

#[test]
fn plain_text_has_no_references() {
    assert_eq!(strip_ref_numbers("no markers here"), "no markers here");
    assert_eq!(strip_superscript_refs("x^2 and {y}"), "x^2 and {y}");
}

#[test]
fn plain_text_has_no_links() {
    let mut seen = vec!["./Old".to_string()];
    assert_eq!(style_links("nothing linked (here)", &mut seen), "nothing linked (here)");
    assert_eq!(seen, vec!["./Old".to_string()]);
}

#[test]
fn plain_excerpt_is_unchanged() {
    assert_eq!(clean_excerpt("Rust is a language > C"), "Rust is a language > C");
}

#[test]
fn lines_without_links_get_no_markers() {
    let lines = vec![vec![run("one ", None), run("two", None)], vec![], vec![run("three", None)]];
    assert_eq!(render_tagged_lines(&lines), "one two\n\nthree\n");
}

#[test]
fn reference_markers_go_before_the_footnote_check() {
    no_colors();
    assert!(is_footnote_line("[2]: kept marker"));
    assert_eq!(postprocess("a\n^{x}[2]: b"), "a\n: b");
}

#[test]
fn summary_text_from_wrapped_extract() {
    no_colors();
    assert_eq!(format_summary_text("T", Some("d"), Some("w1\nw2"), None), "T\nd\n\nw1\nw2\n");
    assert_eq!(format_summary_text("T", None, None, Some("u")), "T\n\n\nu\n");
}

#[test]
fn prose_passes_through_unchanged() {
    no_colors();
    let text = "Plain prose, with (parentheses) and 3 numbers.\n\nAnother paragraph";
    assert_eq!(postprocess(text), text);
    assert_eq!(postprocess(&format!("{text}\n")), text);
}

#[test]
fn prose_page_renders_as_its_text() {
    no_colors();
    assert_eq!(render_html("Just some words", 80), "Just some words");
}

#[test]
fn lookup_falls_back_to_first_search_result() {
    let (mut l, _) = SummaryLookup::new("rust lang");
    assert!(matches!(l.step(LookupEvent::Fetched(None)), LookupAction::Search(ref q, 1) if q == "rust lang"));
    assert!(matches!(l.state, LookupState::Searching));
    let resp = SearchResponse {
        pages: vec![
            SearchPage { id: 1, key: "Rust".into(), title: "Rust (programming language)".into(), description: None, excerpt: None },
            SearchPage { id: 2, key: "Rust_belt".into(), title: "Rust Belt".into(), description: None, excerpt: None },
        ],
    };
    assert!(matches!(l.step(LookupEvent::Searched(resp)), LookupAction::FetchSummary(ref t) if t == "Rust (programming language)"));
    assert!(matches!(l.state, LookupState::Retrying));
    match l.step(LookupEvent::Fetched(Some(summary("Rust (programming language)")))) {
        LookupAction::Found(s) => assert_eq!(s.title, "Rust (programming language)"),
        _ => panic!("expected the summary of the first result"),
    }
    assert!(matches!(l.state, LookupState::Done));
}

#[test]
fn lookup_unexpected_event_ends_it() {
    let (mut l, _) = SummaryLookup::new("Rust");
    let action = l.step(LookupEvent::Searched(SearchResponse { pages: Vec::new() }));
    assert!(matches!(action, LookupAction::NotFound(ref t) if t == "Rust"));
    assert!(matches!(l.state, LookupState::Done));
    let again = l.step(LookupEvent::Fetched(Some(summary("Rust"))));
    assert!(matches!(again, LookupAction::NotFound(ref t) if t == "Rust"));
}

#[test]
fn nested_superscript_group_goes_whole() {
    assert_eq!(strip_superscript_refs("lead ^{x{y{z}}w} tail^{1}"), "lead  tail");
    assert_eq!(strip_superscript_refs("a^{b{c}"), "a^{b{c}");
    assert_eq!(strip_superscript_refs("a^{}b"), "ab");
}

#[test]
fn reference_stripping_never_lengthens() {
    let line = "x[12]y[a]z[]w[3";
    let out = strip_ref_numbers(line);
    assert_eq!(out, "xy[a]z[]w[3");
    assert!(out.len() <= line.len());
    assert_eq!(strip_ref_numbers("plain [text] here"), "plain [text] here");
}

#[test]
fn styling_keeps_text_before_first_bracket() {
    no_colors();
    let mut seen = Vec::new();
    let b = format!("{} tail", marker("./Rust_(language)", "Rust"));
    let whole = style_links(&format!("head, {}", b), &mut seen);
    let mut seen2 = Vec::new();
    let alone = style_links(&b, &mut seen2);
    assert_eq!(whole, format!("head, {}", alone));
    assert_eq!(seen, seen2);
    let mut seen3 = Vec::new();
    assert_eq!(style_links("no brackets at all", &mut seen3), "no brackets at all");
    assert!(seen3.is_empty());
}

#[test]
fn unclosed_bracket_keeps_the_rest() {
    no_colors();
    let mut seen = Vec::new();
    assert_eq!(style_links("[a[b]c", &mut seen), "[a[b]c");
    let text = format!("see [{} more", marker("./Rust", "Rust"));
    assert_eq!(style_links(&text, &mut seen), text);
    assert!(seen.is_empty());
}

#[test]
fn leading_group_splits_off() {
    no_colors();
    let mut seen = Vec::new();
    assert_eq!(style_links("[a [b] c] rest [d]", &mut seen), "a b c rest d");
    let text = format!("{}, then {}", marker("./Go_(language)", "Go"), marker("./Go_(language)", "go again"));
    assert_eq!(style_links(&text, &mut seen), "Go [Go (language)], then go again");
    assert_eq!(seen, vec!["./Go_(language)".to_string()]);
}

#[test]
fn noted_urls_come_from_markers() {
    no_colors();
    let mut seen = vec!["./Old".to_string()];
    let text = format!("[./Plain] {} {}", marker("./Old", "x"), marker("./New_page", "y"));
    let out = style_links(&text, &mut seen);
    assert_eq!(out, "./Plain x y [New page]");
    assert_eq!(seen, vec!["./Old".to_string(), "./New_page".to_string()]);
}

#[test]
fn flattened_tables_hold_no_separator() {
    no_colors();
    let text = "intro  \n┌──┬──┐\nBorn │ 1990 │ \n  │ x │\n└──┴──┘\nafter\t\nend";
    let out = flatten_tables(text);
    assert_eq!(out, "intro\nBorn\n  1990\n  x\n\nafter\nend");
    assert!(!out.contains('\u{2502}'));
    for line in out.lines() {
        assert_eq!(line, line.trim_end());
    }
}
