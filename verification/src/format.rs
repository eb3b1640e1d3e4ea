//! The text the commands print: search results, summaries, and the page
//! heading, with search excerpts cleaned of their markup.
use vstd::prelude::*;

use crate::api::SearchPage;
use crate::markup::lemma_find_absent;
use crate::paint::{bold_blue, bold_cyan, dimmed, paints, Paint};
use crate::text::{
    chars_of, has_char, join_spec, occurs_at, push_all, replace_all, replace_spec, slice_of,
    string_of,
};

verus! {

// ---------------------------------------------------------------------------
// Excerpts
// ---------------------------------------------------------------------------
/// `s` with the HTML entities `&amp;`, `&lt;`, `&gt;`, `&quot;`, `&#039;`,
/// `&#39;`, `&apos;` and `&nbsp;` decoded, replaced in that order.
pub open spec fn entities_decoded(s: Seq<char>) -> Seq<char> {
    let s1 = replace_spec(s, "&amp;"@, "&"@);
    let s2 = replace_spec(s1, "&lt;"@, "<"@);
    let s3 = replace_spec(s2, "&gt;"@, ">"@);
    let s4 = replace_spec(s3, "&quot;"@, "\""@);
    let s5 = replace_spec(s4, "&#039;"@, "'"@);
    let s6 = replace_spec(s5, "&#39;"@, "'"@);
    let s7 = replace_spec(s6, "&apos;"@, "'"@);
    replace_spec(s7, "&nbsp;"@, " "@)
}

fn replace_str(v: &Vec<char>, pat: &str, rep: &str) -> (r: Vec<char>)
    requires
        pat@.len() > 0,
    ensures
        r@ == replace_spec(v@, pat@, rep@),
{
    replace_all(v, &chars_of(pat), &chars_of(rep))
}

/// Decodes the HTML entities that search excerpts use.
pub fn decode_html_entities(text: &str) -> (r: String)
    ensures
        r@ == entities_decoded(text@),
{
    proof {
        reveal_strlit("&amp;");
        reveal_strlit("&lt;");
        reveal_strlit("&gt;");
        reveal_strlit("&quot;");
        reveal_strlit("&#039;");
        reveal_strlit("&#39;");
        reveal_strlit("&apos;");
        reveal_strlit("&nbsp;");
    }
    let s = chars_of(text);
    let s = replace_str(&s, "&amp;", "&");
    let s = replace_str(&s, "&lt;", "<");
    let s = replace_str(&s, "&gt;", ">");
    let s = replace_str(&s, "&quot;", "\"");
    let s = replace_str(&s, "&#039;", "'");
    let s = replace_str(&s, "&#39;", "'");
    let s = replace_str(&s, "&apos;", "'");
    let s = replace_str(&s, "&nbsp;", " ");
    string_of(&s)
}

/// `s` without the search-match highlighting tags, entities decoded.
pub open spec fn excerpt_cleaned(s: Seq<char>) -> Seq<char> {
    let s1 = replace_spec(s, "<span class=\"searchmatch\">"@, ""@);
    let s2 = replace_spec(s1, "</span>"@, ""@);
    entities_decoded(s2)
}

/// Removes the search-match highlighting from a search excerpt and decodes
/// its HTML entities.
pub fn clean_excerpt(text: &str) -> (r: String)
    ensures
        r@ == excerpt_cleaned(text@),
{
    proof {
        reveal_strlit("<span class=\"searchmatch\">");
        reveal_strlit("</span>");
    }
    let s = chars_of(text);
    let s = replace_str(&s, "<span class=\"searchmatch\">", "");
    let s = replace_str(&s, "</span>", "");
    decode_html_entities(string_of(&s).as_str())
}

proof fn lemma_replace_absent(s: Seq<char>, pat: Seq<char>, rep: Seq<char>)
    requires
        pat.len() > 0,
        !has_char(s, pat[0]),
    ensures
        replace_spec(s, pat, rep) == s,
{
    assert forall|j: int| 0 <= j implies !occurs_at(s, pat, j) by {
        if occurs_at(s, pat, j) {
            assert(s.subrange(j, j + pat.len())[0] == s[j]);
        }
    }
    lemma_find_absent(s, pat, 0);
    assert(s.subrange(0, s.len() as int) == s);
}

/// An excerpt with no `&` and no `<` holds no entity and no highlighting:
/// `clean_excerpt` gives it back unchanged.
pub proof fn lemma_clean_excerpt_plain(s: Seq<char>)
    requires
        !has_char(s, '&'),
        !has_char(s, '<'),
    ensures
        excerpt_cleaned(s) == s,
{
    reveal_strlit("&amp;");
    reveal_strlit("&lt;");
    reveal_strlit("&gt;");
    reveal_strlit("&quot;");
    reveal_strlit("&#039;");
    reveal_strlit("&#39;");
    reveal_strlit("&apos;");
    reveal_strlit("&nbsp;");
    reveal_strlit("<span class=\"searchmatch\">");
    reveal_strlit("</span>");
    lemma_replace_absent(s, "<span class=\"searchmatch\">"@, ""@);
    lemma_replace_absent(s, "</span>"@, ""@);
    lemma_replace_absent(s, "&amp;"@, "&"@);
    lemma_replace_absent(s, "&lt;"@, "<"@);
    lemma_replace_absent(s, "&gt;"@, ">"@);
    lemma_replace_absent(s, "&quot;"@, "\""@);
    lemma_replace_absent(s, "&#039;"@, "'"@);
    lemma_replace_absent(s, "&#39;"@, "'"@);
    lemma_replace_absent(s, "&apos;"@, "'"@);
    lemma_replace_absent(s, "&nbsp;"@, " "@);
}

// ---------------------------------------------------------------------------
// Numbers
// ---------------------------------------------------------------------------
/// The decimal digits of `n`.
pub open spec fn decimal(n: nat) -> Seq<char>
    decreases n,
{
    if n < 10 {
        seq![digit_char(n)]
    } else {
        decimal(n / 10) + seq![digit_char(n % 10)]
    }
}

/// The character of a decimal digit.
pub open spec fn digit_char(d: nat) -> char {
    if d == 0 {
        '0'
    } else if d == 1 {
        '1'
    } else if d == 2 {
        '2'
    } else if d == 3 {
        '3'
    } else if d == 4 {
        '4'
    } else if d == 5 {
        '5'
    } else if d == 6 {
        '6'
    } else if d == 7 {
        '7'
    } else if d == 8 {
        '8'
    } else {
        '9'
    }
}

fn digit_of(d: u64) -> (c: char)
    requires
        d < 10,
    ensures
        c == digit_char(d as nat),
{
    if d == 0 {
        '0'
    } else if d == 1 {
        '1'
    } else if d == 2 {
        '2'
    } else if d == 3 {
        '3'
    } else if d == 4 {
        '4'
    } else if d == 5 {
        '5'
    } else if d == 6 {
        '6'
    } else if d == 7 {
        '7'
    } else if d == 8 {
        '8'
    } else {
        '9'
    }
}

/// The decimal digits of `n`.
pub fn decimal_digits(n: u64) -> (r: Vec<char>)
    ensures
        r@ == decimal(n as nat),
    decreases n,
{
    if n < 10 {
        vec![digit_of(n)]
    } else {
        let mut r = decimal_digits(n / 10);
        r.push(digit_of(n % 10));
        r
    }
}

// ---------------------------------------------------------------------------
// Search results
// ---------------------------------------------------------------------------
/// The excerpt line of a search result: cleaned, on one line, at most 120
/// characters.
pub open spec fn excerpt_line(excerpt: Seq<char>) -> Seq<char> {
    let one = replace_spec(excerpt_cleaned(excerpt), seq!['\n'], seq![' ']);
    if one.len() > 120 {
        one.take(120)
    } else {
        one
    }
}

/// Five spaces, the indent of a search result's second and third lines.
pub open spec fn indent5() -> Seq<char> {
    seq![' ', ' ', ' ', ' ', ' ']
}

/// A search result as printed, from its styled parts: the number and title,
/// then the description and the excerpt, each indented on a line of its own,
/// then a blank line.
pub open spec fn entry_text(
    number: nat,
    title: Seq<char>,
    description: Option<Seq<char>>,
    excerpt: Option<Seq<char>>,
) -> Seq<char> {
    seq![' ', ' '] + decimal(number) + seq!['.', ' '] + title + seq!['\n'] + match description {
        Some(d) => indent5() + d + seq!['\n'],
        None => Seq::<char>::empty(),
    } + match excerpt {
        Some(e) => indent5() + e + seq!['\n'],
        None => Seq::<char>::empty(),
    } + seq!['\n']
}

/// `o` is a styled form of an optional text: none for none.
pub open spec fn opt_paints(p: Paint, s: Option<Seq<char>>, o: Option<Seq<char>>) -> bool {
    match (s, o) {
        (Some(x), Some(y)) => paints(p, x, y),
        (None, None) => true,
        _ => false,
    }
}

/// `r` is what `format_search_result` may give: the title bold cyan, the
/// description and the excerpt line dimmed.
pub open spec fn search_entry(
    idx: nat,
    title: Seq<char>,
    description: Option<Seq<char>>,
    excerpt: Option<Seq<char>>,
    r: Seq<char>,
) -> bool {
    exists|t: Seq<char>, d: Option<Seq<char>>, e: Option<Seq<char>>|
        #![trigger entry_text(idx + 1, t, d, e)]
        paints(Paint::BoldCyan, title, t) && opt_paints(Paint::Dimmed, description, d)
            && opt_paints(
            Paint::Dimmed,
            match excerpt {
                Some(x) => Some(excerpt_line(x)),
                None => None,
            },
            e,
        ) && r == entry_text(idx + 1, t, d, e)
}

/// The view of an optional string.
pub open spec fn opt_view(s: Option<&str>) -> Option<Seq<char>> {
    match s {
        Some(x) => Some(x@),
        None => None,
    }
}

/// The text printed for the search result at position `idx` (counted from 0).
pub fn format_search_result(
    idx: usize,
    title: &str,
    description: Option<&str>,
    excerpt: Option<&str>,
) -> (r: String)
    requires
        idx < usize::MAX,
    ensures
        search_entry(idx as nat, title@, opt_view(description), opt_view(excerpt), r@),
{
    let mut out: Vec<char> = vec![' ', ' '];
    let num = decimal_digits((idx + 1) as u64);
    push_all(&mut out, &num);
    out.push('.');
    out.push(' ');
    let t = chars_of(bold_cyan(title).as_str());
    push_all(&mut out, &t);
    out.push('\n');
    let ghost mut dv: Option<Seq<char>> = None;
    let ghost mut ev: Option<Seq<char>> = None;
    let ghost head = out@;
    match description {
        Some(desc) => {
            let d = chars_of(dimmed(desc).as_str());
            push_all(&mut out, &vec![' ', ' ', ' ', ' ', ' ']);
            push_all(&mut out, &d);
            out.push('\n');
            proof {
                dv = Some(d@);
            }
        },
        None => {},
    }
    let ghost mid = out@;
    match excerpt {
        Some(exc) => {
            let clean = chars_of(clean_excerpt(exc).as_str());
            let nl = vec!['\n'];
            let sp = vec![' '];
            assert(nl@ == seq!['\n'] && sp@ == seq![' ']);
            let one = replace_all(&clean, &nl, &sp);
            let trimmed = if one.len() > 120 {
                let cut = slice_of(&one, 0, 120);
                assert(cut@ == one@.take(120));
                cut
            } else {
                one
            };
            assert(trimmed@ == excerpt_line(exc@));
            let e = chars_of(dimmed(string_of(&trimmed).as_str()).as_str());
            push_all(&mut out, &vec![' ', ' ', ' ', ' ', ' ']);
            push_all(&mut out, &e);
            out.push('\n');
            proof {
                ev = Some(e@);
            }
        },
        None => {},
    }
    out.push('\n');
    proof {
        let tail_d = match dv {
            Some(d) => indent5() + d + seq!['\n'],
            None => Seq::<char>::empty(),
        };
        let tail_e = match ev {
            Some(e) => indent5() + e + seq!['\n'],
            None => Seq::<char>::empty(),
        };
        assert(head == seq![' ', ' '] + decimal((idx + 1) as nat) + seq!['.', ' '] + t@ + seq!['\n']);
        assert(mid == head + tail_d);
        assert(out@ == entry_text((idx + 1) as nat, t@, dv, ev));
    }
    string_of(&out)
}

// ---------------------------------------------------------------------------
// Summaries and pages
// ---------------------------------------------------------------------------
/// What `textwrap::fill` gives for `text` at `width` columns.
pub uninterp spec fn filled(text: Seq<char>, width: usize) -> Seq<char>;

/// `textwrap::fill`: `text` wrapped into lines of at most `width` columns,
/// joined with newlines.
#[verifier::external_body]
fn fill(text: &str, width: usize) -> (r: String)
    ensures
        r@ == filled(text@, width),
{
    textwrap::fill(text, width)
}

/// The width that summaries are wrapped to: the terminal's, at most 100.
pub open spec fn summary_width(term_width: usize) -> usize {
    if term_width < 100 {
        term_width
    } else {
        100
    }
}

/// A summary as printed, from its styled parts: the title, the description,
/// a blank line, the wrapped extract, and the page URL after a blank line.
pub open spec fn summary_text(
    title: Seq<char>,
    description: Option<Seq<char>>,
    wrapped: Option<Seq<char>>,
    url: Option<Seq<char>>,
) -> Seq<char> {
    title + seq!['\n'] + match description {
        Some(d) => d + seq!['\n'],
        None => Seq::<char>::empty(),
    } + seq!['\n'] + match wrapped {
        Some(w) => w + seq!['\n'],
        None => Seq::<char>::empty(),
    } + match url {
        Some(u) => seq!['\n'] + u + seq!['\n'],
        None => Seq::<char>::empty(),
    }
}

/// `r` is what `format_summary` may give: the title bold blue, the
/// description and the URL dimmed, the extract wrapped to `summary_width`.
pub open spec fn summary_out(
    title: Seq<char>,
    description: Option<Seq<char>>,
    extract: Option<Seq<char>>,
    url: Option<Seq<char>>,
    term_width: usize,
    r: Seq<char>,
) -> bool {
    exists|t: Seq<char>, d: Option<Seq<char>>, u: Option<Seq<char>>|
        #![trigger summary_text(t, d, wrapped_extract(extract, term_width), u)]
        paints(Paint::BoldBlue, title, t) && opt_paints(Paint::Dimmed, description, d)
            && opt_paints(Paint::Dimmed, url, u) && r == summary_text(
            t,
            d,
            wrapped_extract(extract, term_width),
            u,
        )
}

/// The extract wrapped to the summary width.
pub open spec fn wrapped_extract(extract: Option<Seq<char>>, term_width: usize) -> Option<Seq<char>> {
    match extract {
        Some(x) => Some(filled(x, summary_width(term_width))),
        None => None,
    }
}

/// `r` is what `format_summary_text` may give for an extract already
/// wrapped: the title bold blue, the description and the URL dimmed.
pub open spec fn summary_text_out(
    title: Seq<char>,
    description: Option<Seq<char>>,
    wrapped: Option<Seq<char>>,
    url: Option<Seq<char>>,
    r: Seq<char>,
) -> bool {
    exists|t: Seq<char>, d: Option<Seq<char>>, u: Option<Seq<char>>|
        #![trigger summary_text(t, d, wrapped, u)]
        paints(Paint::BoldBlue, title, t) && opt_paints(Paint::Dimmed, description, d)
            && opt_paints(Paint::Dimmed, url, u) && r == summary_text(t, d, wrapped, u)
}

/// The text printed for an article summary whose extract is already wrapped.
pub fn format_summary_text(
    title: &str,
    description: Option<&str>,
    wrapped: Option<&str>,
    url: Option<&str>,
) -> (r: String)
    ensures
        summary_text_out(title@, opt_view(description), opt_view(wrapped), opt_view(url), r@),
{
    let t = chars_of(bold_blue(title).as_str());
    let mut out: Vec<char> = Vec::new();
    push_all(&mut out, &t);
    out.push('\n');
    let ghost mut dv: Option<Seq<char>> = None;
    let ghost mut uv: Option<Seq<char>> = None;
    match description {
        Some(desc) => {
            let d = chars_of(dimmed(desc).as_str());
            push_all(&mut out, &d);
            out.push('\n');
            proof {
                dv = Some(d@);
            }
        },
        None => {},
    }
    out.push('\n');
    let ghost after_blank = out@;
    match wrapped {
        Some(w) => {
            push_all(&mut out, &chars_of(w));
            out.push('\n');
        },
        None => {},
    }
    let ghost after_extract = out@;
    match url {
        Some(link) => {
            let u = chars_of(dimmed(link).as_str());
            out.push('\n');
            push_all(&mut out, &u);
            out.push('\n');
            proof {
                uv = Some(u@);
            }
        },
        None => {},
    }
    proof {
        let wv = opt_view(wrapped);
        let dpart = match dv {
            Some(d) => d + seq!['\n'],
            None => Seq::<char>::empty(),
        };
        let wpart = match wv {
            Some(w) => w + seq!['\n'],
            None => Seq::<char>::empty(),
        };
        assert(after_blank == t@ + seq!['\n'] + dpart + seq!['\n']);
        assert(after_extract == after_blank + wpart);
        assert(out@ == summary_text(t@, dv, wv, uv));
    }
    string_of(&out)
}

/// The text printed for an article summary, the extract wrapped to the
/// terminal width `term_width` (at most 100 columns).
pub fn format_summary(
    title: &str,
    description: Option<&str>,
    extract: Option<&str>,
    url: Option<&str>,
    term_width: usize,
) -> (r: String)
    ensures
        summary_out(title@, opt_view(description), opt_view(extract), opt_view(url), term_width, r@),
{
    let width = if term_width < 100 {
        term_width
    } else {
        100
    };
    let wrapped = match extract {
        Some(text) => Some(fill(text, width)),
        None => None,
    };
    let w = match &wrapped {
        Some(x) => Some(x.as_str()),
        None => None,
    };
    assert(opt_view(w) == wrapped_extract(opt_view(extract), term_width));
    format_summary_text(title, description, w, url)
}

/// The page text as printed: the title, the description, a blank line, the
/// rendered article, and the page URL on a line after it.
pub open spec fn page_text(
    title: Seq<char>,
    description: Option<Seq<char>>,
    rendered: Seq<char>,
    url: Option<Seq<char>>,
) -> Seq<char> {
    title + seq!['\n'] + match description {
        Some(d) => d + seq!['\n'],
        None => Seq::<char>::empty(),
    } + seq!['\n'] + rendered + match url {
        Some(u) => seq!['\n'] + u,
        None => Seq::<char>::empty(),
    }
}

/// `r` is what `compose_page` may give: the title bold blue, the description
/// and the URL dimmed, around the rendered article.
pub open spec fn page_out(
    title: Seq<char>,
    description: Option<Seq<char>>,
    rendered: Seq<char>,
    url: Option<Seq<char>>,
    r: Seq<char>,
) -> bool {
    exists|t: Seq<char>, d: Option<Seq<char>>, u: Option<Seq<char>>|
        #![trigger page_text(t, d, rendered, u)]
        paints(Paint::BoldBlue, title, t) && opt_paints(Paint::Dimmed, description, d)
            && opt_paints(Paint::Dimmed, url, u) && r == page_text(t, d, rendered, u)
}

/// The full text of an article page: its heading, the rendered article and
/// its URL.
pub fn compose_page(
    title: &str,
    description: Option<&str>,
    rendered: &str,
    url: Option<&str>,
) -> (r: String)
    ensures
        page_out(title@, opt_view(description), rendered@, opt_view(url), r@),
{
    let t = chars_of(bold_blue(title).as_str());
    let mut out: Vec<char> = Vec::new();
    push_all(&mut out, &t);
    out.push('\n');
    let ghost mut dv: Option<Seq<char>> = None;
    let ghost mut uv: Option<Seq<char>> = None;
    match description {
        Some(desc) => {
            let d = chars_of(dimmed(desc).as_str());
            push_all(&mut out, &d);
            out.push('\n');
            proof {
                dv = Some(d@);
            }
        },
        None => {},
    }
    out.push('\n');
    let ghost before = out@;
    push_all(&mut out, &chars_of(rendered));
    let ghost after = out@;
    match url {
        Some(link) => {
            let u = chars_of(dimmed(link).as_str());
            out.push('\n');
            push_all(&mut out, &u);
            proof {
                uv = Some(u@);
            }
        },
        None => {},
    }
    proof {
        let dpart = match dv {
            Some(d) => d + seq!['\n'],
            None => Seq::<char>::empty(),
        };
        assert(before == t@ + seq!['\n'] + dpart + seq!['\n']);
        assert(out@ == page_text(t@, dv, rendered@, uv));
    }
    string_of(&out)
}


// ---------------------------------------------------------------------------
// A list of search results
// ---------------------------------------------------------------------------
/// The view of an optional `String`.
pub open spec fn opt_string_view(s: Option<String>) -> Option<Seq<char>> {
    match s {
        Some(x) => Some(x@),
        None => None,
    }
}

/// The parts one after the other.
pub open spec fn concat_spec(parts: Seq<Seq<char>>) -> Seq<char> {
    join_spec(parts, seq![])
}

/// `entries` are printed forms of the search results `pages`, in order.
pub open spec fn entries_out(pages: Seq<SearchPage>, entries: Seq<Seq<char>>) -> bool {
    &&& entries.len() == pages.len()
    &&& forall|i: int|
        0 <= i < pages.len() ==> search_entry(
            i as nat,
            pages[i].title@,
            opt_string_view(pages[i].description),
            opt_string_view(pages[i].excerpt),
            #[trigger] entries[i],
        )
}

/// `r` is what `format_search_results` may give: a line saying there is
/// nothing, or a heading and each result.
pub open spec fn results_out(query: Seq<char>, pages: Seq<SearchPage>, r: Seq<char>) -> bool {
    if pages.len() == 0 {
        r == "No results for \""@ + query + "\"\n"@
    } else {
        exists|entries: Seq<Seq<char>>|
            entries_out(pages, entries) && r == "Results for \""@ + query + "\":\n\n"@
                + concat_spec(entries)
    }
}

/// The text printed for the results of searching for `query`.
pub fn format_search_results(query: &str, pages: &Vec<SearchPage>) -> (r: String)
    ensures
        results_out(query@, pages@, r@),
{
    if pages.len() == 0 {
        let mut v = chars_of("No results for \"");
        push_all(&mut v, &chars_of(query));
        push_all(&mut v, &chars_of("\"\n"));
        return string_of(&v);
    }
    let mut v = chars_of("Results for \"");
    push_all(&mut v, &chars_of(query));
    push_all(&mut v, &chars_of("\":\n\n"));
    let ghost head = v@;
    let ghost mut entries: Seq<Seq<char>> = seq![];
    let mut i: usize = 0;
    while i < pages.len()
        invariant
            i <= pages.len(),
            head == "Results for \""@ + query@ + "\":\n\n"@,
            entries_out(pages@.take(i as int), entries),
            v@ == head + concat_spec(entries),
        decreases pages.len() - i,
    {
        let page = &pages[i];
        let desc = match &page.description {
            Some(d) => Some(d.as_str()),
            None => None,
        };
        let exc = match &page.excerpt {
            Some(x) => Some(x.as_str()),
            None => None,
        };
        let e = format_search_result(i, page.title.as_str(), desc, exc);
        let ev = chars_of(e.as_str());
        push_all(&mut v, &ev);
        proof {
            crate::text::lemma_join_push(entries, seq![], ev@);
            assert(opt_view(desc) == opt_string_view(page.description));
            assert(opt_view(exc) == opt_string_view(page.excerpt));
            let ps = pages@.take(i + 1);
            assert(ps == pages@.take(i as int).push(*page));
            assert forall|j: int| 0 <= j < ps.len() implies search_entry(
                j as nat,
                ps[j].title@,
                opt_string_view(ps[j].description),
                opt_string_view(ps[j].excerpt),
                #[trigger] entries.push(ev@)[j],
            ) by {
                if j < i {
                    assert(ps[j] == pages@.take(i as int)[j]);
                    assert(entries.push(ev@)[j] == entries[j]);
                }
            }
            if entries.len() == 0 {
                assert(concat_spec(entries.push(ev@)) == ev@);
                assert(concat_spec(entries) == Seq::<char>::empty());
            }
            entries = entries.push(ev@);
        }
        i += 1;
    }
    assert(pages@.take(pages.len() as int) == pages@);
    string_of(&v)
}

/// A search result's excerpt line is the start of the cleaned excerpt, put
/// on one line: the whole of it when it has at most 120 characters, its first
/// 120 otherwise. The highlighting is removed before the cut, so no part of a
/// highlighting tag is ever shown because of it.
pub proof fn lemma_excerpt_line_is_cleaned_prefix(excerpt: Seq<char>)
    ensures
        ({
            let one = replace_spec(excerpt_cleaned(excerpt), seq!['\n'], seq![' ']);
            &&& excerpt_line(excerpt).len() == if one.len() > 120 {
                120
            } else {
                one.len()
            }
            &&& one.take(excerpt_line(excerpt).len() as int) == excerpt_line(excerpt)
        }),
{
    let one = replace_spec(excerpt_cleaned(excerpt), seq!['\n'], seq![' ']);
    if one.len() <= 120 {
        assert(one.take(one.len() as int) == one);
    }
}

} // verus!
