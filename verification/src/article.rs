//! An article's HTML to terminal text: html2text lays the page out in tagged
//! lines, links become markers, and the marked text is cleaned up and styled.
use html2text::render::RichAnnotation;
use vstd::prelude::*;

use crate::links::{
    emit_link_marker, lemma_styled_without_brackets, marker, string_views, style_links, styled,
};
use crate::markup::{
    colorize_heading, flatten_tables, flattened, heading_out, heading_paint, is_border, is_box,
    is_footnote, is_footnote_line, lemma_strip_refs_without_brackets,
    lemma_strip_sup_without_groups, row_out, rows_out, strip_ref_numbers, strip_refs_spec,
    strip_sup_spec, strip_superscript_refs, table_rows, table_rows_from,
};
use crate::text::{
    char_pos, chars_of, has_char, is_ws, join, join_spec, lemma_char_pos_bounds,
    lemma_join_prepend, lemma_trim_first, lines, lines_from, lines_spec, occurs_at, push_str,
    string_of, strip_cr, trim_end_spec, trim_spec, trim_start_spec, views,
};

verus! {

// ---------------------------------------------------------------------------
// Post-processing
// ---------------------------------------------------------------------------
/// The lines that are not footnote lines, in order.
pub open spec fn kept_lines(ls: Seq<Seq<char>>) -> Seq<Seq<char>>
    decreases ls.len(),
{
    if ls.len() == 0 {
        seq![]
    } else if is_footnote(ls.last()) {
        kept_lines(ls.drop_last())
    } else {
        kept_lines(ls.drop_last()).push(ls.last())
    }
}

/// `outs` is a written form of each line, headings styled.
pub open spec fn headings_out(ls: Seq<Seq<char>>, outs: Seq<Seq<char>>) -> bool {
    outs.len() == ls.len() && forall|i: int| 0 <= i < ls.len() ==> heading_out(ls[i], outs[i])
}

/// `r` is `text` without its footnote lines, headings styled.
pub open spec fn finished(text: Seq<char>, r: Seq<char>) -> bool {
    exists|outs: Seq<Seq<char>>|
        headings_out(kept_lines(lines_spec(text)), outs) && r == join_spec(outs, seq!['\n'])
}

/// `r` is what `postprocess` may make of `text`: superscript groups and
/// reference numbers removed, links styled, tables flattened, footnote lines
/// dropped and headings styled, in that order.
pub open spec fn postprocessed(text: Seq<char>, r: Seq<char>) -> bool {
    exists|styled_text: Seq<char>, flat: Seq<char>|
        #![trigger styled(strip_refs_spec(strip_sup_spec(text)), seq![], styled_text), flattened(styled_text, flat)]
        styled(strip_refs_spec(strip_sup_spec(text)), seq![], styled_text) && flattened(
            styled_text,
            flat,
        ) && finished(flat, r)
}

/// Cleans up and styles rendered article text.
pub fn postprocess(text: &str) -> (r: String)
    ensures
        postprocessed(text@, r@),
{
    let t1 = strip_superscript_refs(text);
    let t2 = strip_ref_numbers(t1.as_str());
    let mut seen: Vec<String> = Vec::new();
    assert(string_views(seen@) == Seq::<Seq<char>>::empty());
    let t3 = style_links(t2.as_str(), &mut seen);
    let t4 = flatten_tables(t3.as_str());
    let v = chars_of(t4.as_str());
    let ls = lines(&v);
    let ghost all = views(ls@);
    let mut outs: Vec<Vec<char>> = Vec::new();
    let mut k: usize = 0;
    while k < ls.len()
        invariant
            k <= ls.len(),
            all == views(ls@),
            headings_out(kept_lines(all.take(k as int)), views(outs@)),
        decreases ls.len() - k,
    {
        let line = string_of(&ls[k]);
        assert(all.take(k + 1).drop_last() == all.take(k as int));
        assert(all.take(k + 1).last() == line@);
        if !is_footnote_line(line.as_str()) {
            let h = colorize_heading(line.as_str());
            let hv = chars_of(h.as_str());
            let ghost before = views(outs@);
            outs.push(hv);
            proof {
                let kept = kept_lines(all.take(k as int));
                assert(views(outs@) == before.push(hv@));
                assert(kept_lines(all.take(k + 1)) == kept.push(line@));
                assert forall|i: int| 0 <= i < kept.len() + 1 implies heading_out(
                    kept.push(line@)[i],
                    before.push(hv@)[i],
                ) by {
                    if i < kept.len() {
                        assert(kept.push(line@)[i] == kept[i]);
                    }
                }
            }
        }
        k += 1;
    }
    assert(all.take(ls.len() as int) == all);
    let nl = vec!['\n'];
    let joined = join(&outs, &nl);
    assert(nl@ == seq!['\n']);
    assert(headings_out(kept_lines(lines_spec(t4@)), views(outs@)));
    assert(finished(t4@, joined@));
    assert(styled(strip_refs_spec(strip_sup_spec(text@)), seq![], t3@));
    string_of(&joined)
}

// ---------------------------------------------------------------------------
// Tagged lines
// ---------------------------------------------------------------------------
/// A run of text laid out by html2text, with the links annotating it: one
/// entry per annotation, the link's target for a link annotation, `None` for
/// any other.
pub struct TaggedText {
    pub text: String,
    pub links: Vec<Option<String>>,
}

/// The plain value of a run's annotations.
pub open spec fn tags_view(links: Seq<Option<String>>) -> Seq<Option<Seq<char>>> {
    Seq::new(
        links.len(),
        |i: int|
            match links[i] {
                Some(u) => Some(u@),
                None => None,
            },
    )
}

/// The plain value of a tagged run: its text and its annotations.
pub open spec fn tagged_view(t: TaggedText) -> (Seq<char>, Seq<Option<Seq<char>>>) {
    (t.text@, tags_view(t.links@))
}

/// The plain value of a line of tagged runs.
pub open spec fn line_view(v: Seq<TaggedText>) -> Seq<(Seq<char>, Seq<Option<Seq<char>>>)> {
    Seq::new(v.len(), |i: int| tagged_view(v[i]))
}

/// The plain value of the lines of tagged runs.
pub open spec fn lines_view(v: Seq<Vec<TaggedText>>) -> Seq<
    Seq<(Seq<char>, Seq<Option<Seq<char>>>)>,
> {
    Seq::new(v.len(), |i: int| line_view(v[i]@))
}

/// The tagged lines html2text's rich layout gives for `html` at `width`
/// columns, or `None` where it fails.
pub uninterp spec fn rich_lines_of(html: Seq<char>, width: usize) -> Option<
    Seq<Seq<(Seq<char>, Seq<Option<Seq<char>>>)>>,
>;

/// `html2text::config::rich().lines_from_read(..)` on the bytes of `html`:
/// the laid-out lines, each run with its text and, per annotation, the link
/// target of a link annotation; `None` where html2text returns an error.
#[verifier::external_body]
fn rich_lines(html: &str, width: usize) -> (r: Option<Vec<Vec<TaggedText>>>)
    ensures
        match r {
            Some(v) => rich_lines_of(html@, width) == Some(lines_view(v@)),
            None => rich_lines_of(html@, width) is None,
        },
{
    match html2text::config::rich().lines_from_read(html.as_bytes(), width) {
        Ok(lines) => Some(lines.iter().map(|line| line.tagged_strings().map(|ts| TaggedText {
            text: ts.s.clone(),
            links: ts.tag.iter().map(|a| match a {
                RichAnnotation::Link(u) => Some(u.clone()),
                _ => None,
            }).collect(),
        }).collect()).collect()),
        Err(_) => None,
    }
}

/// The first link among a run's annotations.
pub open spec fn first_link(tags: Seq<Option<Seq<char>>>) -> Option<Seq<char>>
    decreases tags.len(),
{
    if tags.len() == 0 {
        None
    } else if tags[0] is Some {
        tags[0]
    } else {
        first_link(tags.drop_first())
    }
}

/// After the runs `ps` of a line: the text written so far, the link being
/// collected, and the text collected for it. Neighbouring runs with the same
/// link are collected into one marker.
pub open spec fn line_state(ps: Seq<(Seq<char>, Seq<Option<Seq<char>>>)>) -> (
    Seq<char>,
    Option<Seq<char>>,
    Seq<char>,
)
    decreases ps.len(),
{
    if ps.len() == 0 {
        (seq![], None, seq![])
    } else {
        let (out, cur, buf) = line_state(ps.drop_last());
        let s = ps.last().0;
        match cur {
            None => match first_link(ps.last().1) {
                None => (out + s, None, buf),
                Some(u) => (out, Some(u), s),
            },
            Some(prev) => match first_link(ps.last().1) {
                Some(u) => if prev == u {
                    (out, cur, buf + s)
                } else {
                    (out + marker(prev, buf), Some(u), s)
                },
                None => (out + marker(prev, buf) + s, None, seq![]),
            },
        }
    }
}

/// The text of a line: its runs, links as markers, and a newline.
pub open spec fn line_text(ps: Seq<(Seq<char>, Seq<Option<Seq<char>>>)>) -> Seq<char> {
    let (out, cur, buf) = line_state(ps);
    let body = match cur {
        Some(u) => out + marker(u, buf),
        None => out,
    };
    body + seq!['\n']
}

/// The text of the lines, one after the other.
pub open spec fn tagged_text(ls: Seq<Seq<(Seq<char>, Seq<Option<Seq<char>>>)>>) -> Seq<char>
    decreases ls.len(),
{
    if ls.len() == 0 {
        seq![]
    } else {
        tagged_text(ls.drop_last()) + line_text(ls.last())
    }
}

/// The texts of the runs, one after the other.
pub open spec fn runs_text(ps: Seq<(Seq<char>, Seq<Option<Seq<char>>>)>) -> Seq<char>
    decreases ps.len(),
{
    if ps.len() == 0 {
        seq![]
    } else {
        runs_text(ps.drop_last()) + ps.last().0
    }
}

/// Each line's runs, then a newline.
pub open spec fn plain_lines_text(ls: Seq<Seq<(Seq<char>, Seq<Option<Seq<char>>>)>>) -> Seq<char>
    decreases ls.len(),
{
    if ls.len() == 0 {
        seq![]
    } else {
        plain_lines_text(ls.drop_last()) + runs_text(ls.last()) + seq!['\n']
    }
}

/// No run of the line is a link.
pub open spec fn line_without_links(ps: Seq<(Seq<char>, Seq<Option<Seq<char>>>)>) -> bool {
    forall|k: int| 0 <= k < ps.len() ==> first_link(#[trigger] ps[k].1) is None
}

proof fn lemma_line_without_links(ps: Seq<(Seq<char>, Seq<Option<Seq<char>>>)>)
    requires
        line_without_links(ps),
    ensures
        line_state(ps) == (runs_text(ps), None::<Seq<char>>, Seq::<char>::empty()),
    decreases ps.len(),
{
    if ps.len() > 0 {
        assert(line_without_links(ps.drop_last())) by {
            assert forall|k: int| 0 <= k < ps.drop_last().len() implies first_link(
                #[trigger] ps.drop_last()[k].1,
            ) is None by {
                assert(ps.drop_last()[k] == ps[k]);
            }
        }
        lemma_line_without_links(ps.drop_last());
        assert(first_link(ps[ps.len() - 1].1) is None);
    }
}

/// Lines without links are written as their text alone: no marker is added.
pub proof fn lemma_tagged_text_without_links(ls: Seq<Seq<(Seq<char>, Seq<Option<Seq<char>>>)>>)
    requires
        forall|i: int| 0 <= i < ls.len() ==> line_without_links(#[trigger] ls[i]),
    ensures
        tagged_text(ls) == plain_lines_text(ls),
    decreases ls.len(),
{
    if ls.len() > 0 {
        assert forall|i: int| 0 <= i < ls.drop_last().len() implies line_without_links(
            #[trigger] ls.drop_last()[i],
        ) by {
            assert(ls.drop_last()[i] == ls[i]);
        }
        lemma_tagged_text_without_links(ls.drop_last());
        assert(line_without_links(ls[ls.len() - 1]));
        lemma_line_without_links(ls.last());
    }
}

fn first_link_of(links: &Vec<Option<String>>) -> (r: Option<String>)
    ensures
        match r {
            Some(u) => first_link(tags_view(links@)) == Some(u@),
            None => first_link(tags_view(links@)) is None,
        },
{
    let ghost tags = tags_view(links@);
    assert(tags.skip(0) == tags);
    let mut i: usize = 0;
    while i < links.len()
        invariant
            i <= links.len(),
            tags == tags_view(links@),
            first_link(tags) == first_link(tags.skip(i as int)),
        decreases links.len() - i,
    {
        assert(tags.skip(i as int).drop_first() == tags.skip(i + 1));
        match &links[i] {
            Some(u) => {
                return Some(u.clone());
            },
            None => {},
        }
        i += 1;
    }
    None
}

/// Writes the lines as text, one per line, each link as a marker around the
/// text it covers.
pub fn render_tagged_lines(lines: &Vec<Vec<TaggedText>>) -> (r: String)
    ensures
        r@ == tagged_text(lines_view(lines@)),
{
    let ghost all = lines_view(lines@);
    let mut text = String::new();
    let mut n: usize = 0;
    while n < lines.len()
        invariant
            n <= lines.len(),
            all == lines_view(lines@),
            text@ == tagged_text(all.take(n as int)),
        decreases lines.len() - n,
    {
        let line = &lines[n];
        let ghost ps = line_view(line@);
        let ghost start = text@;
        let mut current: Option<String> = None;
        let mut link_buf = String::new();
        let mut k: usize = 0;
        while k < line.len()
            invariant
                k <= line.len(),
                ps == line_view(line@),
                text@ == start + line_state(ps.take(k as int)).0,
                current matches Some(c) ==> line_state(ps.take(k as int)).1 == Some(c@),
                current is None ==> line_state(ps.take(k as int)).1 is None,
                link_buf@ == line_state(ps.take(k as int)).2,
            decreases line.len() - k,
        {
            let ts = &line[k];
            assert(ps.take(k + 1).drop_last() == ps.take(k as int));
            assert(ps.take(k + 1).last() == tagged_view(*ts));
            let url = first_link_of(&ts.links);
            match current {
                None => match url {
                    None => {
                        push_str(&mut text, ts.text.as_str());
                    },
                    Some(u) => {
                        current = Some(u);
                        link_buf = String::new();
                        push_str(&mut link_buf, ts.text.as_str());
                    },
                },
                Some(prev) => {
                    let same = match &url {
                        Some(u) => prev == *u,
                        None => false,
                    };
                    if same {
                        push_str(&mut link_buf, ts.text.as_str());
                        current = Some(prev);
                    } else {
                        emit_link_marker(&mut text, prev.as_str(), link_buf.as_str());
                        link_buf = String::new();
                        match url {
                            Some(u) => {
                                current = Some(u);
                                push_str(&mut link_buf, ts.text.as_str());
                            },
                            None => {
                                current = None;
                                push_str(&mut text, ts.text.as_str());
                            },
                        }
                    }
                },
            }
            k += 1;
        }
        assert(ps.take(line.len() as int) == ps);
        match current {
            Some(u) => {
                emit_link_marker(&mut text, u.as_str(), link_buf.as_str());
            },
            None => {},
        }
        text.push('\n');
        assert(all.take(n + 1).drop_last() == all.take(n as int));
        assert(all.take(n + 1).last() == ps);
        n += 1;
    }
    assert(all.take(lines.len() as int) == all);
    text
}

/// Renders an article's HTML at `width` columns as styled terminal text; an
/// HTML that html2text cannot lay out renders as empty text.
pub fn render_html(html: &str, width: usize) -> (r: String)
    ensures
        postprocessed(
            tagged_text(
                match rich_lines_of(html@, width) {
                    Some(ls) => ls,
                    None => seq![],
                },
            ),
            r@,
        ),
{
    let lines = match rich_lines(html, width) {
        Some(v) => v,
        None => {
            let empty: Vec<Vec<TaggedText>> = Vec::new();
            assert(lines_view(empty@) == Seq::<Seq<(Seq<char>, Seq<Option<Seq<char>>>)>>::empty());
            empty
        },
    };
    let text = render_tagged_lines(&lines);
    postprocess(text.as_str())
}


// ---------------------------------------------------------------------------
// Plain prose
// ---------------------------------------------------------------------------
/// Prose: text with none of the markup that post-processing acts on. No
/// `[`, no `^{`, no `#`, no box-drawing character, no carriage return, no
/// whitespace at the end of a line, and no newline at the end.
pub open spec fn is_prose(s: Seq<char>) -> bool {
    &&& !has_char(s, '[')
    &&& !has_char(s, '#')
    &&& !has_char(s, '\r')
    &&& forall|j: int| !occurs_at(s, seq!['^', '{'], j)
    &&& forall|j: int| 0 <= j < s.len() ==> !is_box(#[trigger] s[j])
    &&& forall|j: int|
        0 <= j < s.len() && is_ws(#[trigger] s[j]) && s[j] != '\n' ==> j + 1 < s.len() && s[j + 1]
            != '\n'
    &&& !(s.len() > 0 && s.last() == '\n')
}

/// A line of prose.
pub open spec fn prose_line(l: Seq<char>) -> bool {
    &&& !has_char(l, '[')
    &&& !has_char(l, '#')
    &&& forall|j: int| 0 <= j < l.len() ==> !is_box(#[trigger] l[j])
    &&& trim_end_spec(l) == l
}

proof fn lemma_prose_lines(s: Seq<char>, i: int)
    requires
        is_prose(s),
        0 <= i <= s.len(),
    ensures
        forall|m: int| 0 <= m < lines_from(s, i).len() ==> prose_line(#[trigger] lines_from(s, i)[m]),
        join_spec(lines_from(s, i), seq!['\n']) == s.subrange(i, s.len() as int),
    decreases s.len() - i,
{
    if i == s.len() {
        assert(lines_from(s, i) == Seq::<Seq<char>>::empty());
        assert(s.subrange(i, s.len() as int) == Seq::<char>::empty());
    } else {
        let k = char_pos(s, '\n', i);
        lemma_char_pos_bounds(s, '\n', i);
        let seg = s.subrange(i, k);
        assert(!has_char(seg, '[')) by {
            if has_char(seg, '[') {
                let j = choose|j: int| 0 <= j < seg.len() && seg[j] == '[';
                assert(s[i + j] == '[');
            }
        }
        assert(!has_char(seg, '#')) by {
            if has_char(seg, '#') {
                let j = choose|j: int| 0 <= j < seg.len() && seg[j] == '#';
                assert(s[i + j] == '#');
            }
        }
        assert forall|j: int| 0 <= j < seg.len() implies !is_box(#[trigger] seg[j]) by {
            assert(seg[j] == s[i + j]);
        }
        assert(trim_end_spec(seg) == seg) by {
            if seg.len() > 0 && is_ws(seg.last()) {
                assert(seg.last() == s[k - 1]);
                assert(s[k - 1] != '\n');
            }
        }
        assert(prose_line(seg));
        if k < s.len() {
            assert(strip_cr(seg) == seg) by {
                if seg.len() > 0 && seg.last() == '\r' {
                    assert(s[k - 1] == '\r');
                }
            }
            assert(k + 1 < s.len());
            lemma_prose_lines(s, k + 1);
            let rest = lines_from(s, k + 1);
            assert(lines_from(s, i) == seq![seg] + rest);
            assert(rest.len() > 0);
            lemma_join_prepend(seg, rest, seq!['\n']);
            assert(seg + seq!['\n'] + s.subrange(k + 1, s.len() as int) == s.subrange(
                i,
                s.len() as int,
            ));
            assert forall|m: int| 0 <= m < lines_from(s, i).len() implies prose_line(
                #[trigger] lines_from(s, i)[m],
            ) by {
                if m > 0 {
                    assert(lines_from(s, i)[m] == rest[m - 1]);
                }
            }
        } else {
            assert(lines_from(s, i) == seq![seg]);
        }
    }
}

proof fn lemma_prose_not_border(l: Seq<char>)
    requires
        prose_line(l),
    ensures
        !is_border(l),
        !has_char(l, '\u{2502}'),
        !is_footnote(l),
        heading_paint(l) is None,
{
    lemma_trim_first(l);
    if is_border(l) {
        let t = trim_spec(l);
        let j = choose|j: int| 0 <= j < l.len() && l[j] == t[0];
        assert(is_box(t[0]) || is_ws(t[0]));
        assert(!is_box(l[j]));
    }
    if has_char(l, '\u{2502}') {
        let j = choose|j: int| 0 <= j < l.len() && l[j] == '\u{2502}';
        assert(!is_box(l[j]));
    }
    let t = trim_start_spec(l);
    if t.len() > 0 {
        let j = choose|j: int| 0 <= j < l.len() && l[j] == t[0];
        assert(l[j] != '[');
        assert(l[j] != '#');
        assert(t[0] != '#');
    }
    if occurs_at(t, seq!['#', '#', '#', ' '], 0) {
        assert(t.subrange(0, 4)[0] == t[0]);
    }
    if occurs_at(t, seq!['#', '#', ' '], 0) {
        assert(t.subrange(0, 3)[0] == t[0]);
    }
    if occurs_at(t, seq!['#', ' '], 0) {
        assert(t.subrange(0, 2)[0] == t[0]);
    }
}

proof fn lemma_prose_rows(ls: Seq<Seq<char>>, k: int)
    requires
        forall|m: int| 0 <= m < ls.len() ==> prose_line(#[trigger] ls[m]),
        0 <= k <= ls.len(),
    ensures
        table_rows_from(ls, k, false) == Seq::new(
            (ls.len() - k) as nat,
            |j: int| (false, ls[k + j]),
        ),
    decreases ls.len() - k,
{
    if k < ls.len() {
        lemma_prose_not_border(ls[k]);
        lemma_prose_rows(ls, k + 1);
        assert(table_rows_from(ls, k, false) =~= Seq::new(
            (ls.len() - k) as nat,
            |j: int| (false, ls[k + j]),
        ));
    } else {
        assert(table_rows_from(ls, k, false) =~= Seq::new(
            (ls.len() - k) as nat,
            |j: int| (false, ls[k + j]),
        ));
    }
}

proof fn lemma_prose_kept(ls: Seq<Seq<char>>)
    requires
        forall|m: int| 0 <= m < ls.len() ==> prose_line(#[trigger] ls[m]),
    ensures
        kept_lines(ls) == ls,
    decreases ls.len(),
{
    if ls.len() > 0 {
        assert forall|m: int| 0 <= m < ls.drop_last().len() implies prose_line(
            #[trigger] ls.drop_last()[m],
        ) by {
            assert(ls.drop_last()[m] == ls[m]);
        }
        lemma_prose_kept(ls.drop_last());
        assert(prose_line(ls[ls.len() - 1]));
        lemma_prose_not_border(ls.last());
        assert(ls.drop_last().push(ls.last()) == ls);
    }
}

/// The stages of `postprocess` on a text `q` with no brackets and no `^{`
/// whose lines are those of `p`, lines of prose that join into `p`.
proof fn lemma_postprocess_of_prose_lines(q: Seq<char>, p: Seq<char>, r: Seq<char>)
    requires
        !has_char(q, '['),
        forall|j: int| !occurs_at(q, seq!['^', '{'], j),
        lines_spec(q) == lines_spec(p),
        forall|m: int| 0 <= m < lines_spec(p).len() ==> prose_line(#[trigger] lines_spec(p)[m]),
        join_spec(lines_spec(p), seq!['\n']) == p,
    ensures
        postprocessed(q, p),
        postprocessed(q, r) ==> r == p,
{
    lemma_strip_sup_without_groups(q);
    lemma_strip_refs_without_brackets(q);
    lemma_styled_without_brackets(q, seq![], q);
    let ls = lines_spec(p);
    lemma_prose_rows(ls, 0);
    lemma_prose_kept(ls);
    let rows = table_rows(q);
    assert(rows == Seq::new(ls.len(), |j: int| (false, ls[j])));
    assert(rows_out(rows, ls));
    assert(flattened(q, p));
    assert forall|i: int| 0 <= i < ls.len() implies heading_out(ls[i], ls[i]) by {
        lemma_prose_not_border(ls[i]);
    }
    assert(headings_out(kept_lines(ls), ls));
    assert(finished(p, p));
    assert(styled(strip_refs_spec(strip_sup_spec(q)), seq![], q));
    if postprocessed(q, r) {
        let (t3, t4) = choose|t3: Seq<char>, t4: Seq<char>|
            #![trigger styled(strip_refs_spec(strip_sup_spec(q)), seq![], t3), flattened(t3, t4)]
            styled(strip_refs_spec(strip_sup_spec(q)), seq![], t3) && flattened(t3, t4)
                && finished(t4, r);
        lemma_styled_without_brackets(q, seq![], t3);
        assert(t3 == q);
        let outs = choose|outs: Seq<Seq<char>>|
            rows_out(table_rows(q), outs) && t4 == join_spec(outs, seq!['\n']);
        assert forall|i: int| 0 <= i < ls.len() implies outs[i] == ls[i] by {
            assert(row_out(rows[i], outs[i]));
        }
        assert(outs == ls);
        assert(t4 == p);
        let outs2 = choose|outs2: Seq<Seq<char>>|
            headings_out(kept_lines(lines_spec(t4)), outs2) && r == join_spec(outs2, seq!['\n']);
        assert forall|i: int| 0 <= i < ls.len() implies outs2[i] == ls[i] by {
            lemma_prose_not_border(ls[i]);
            assert(heading_out(ls[i], outs2[i]));
        }
        assert(outs2 == ls);
    }
}

/// Prose comes out of `postprocess` exactly as it went in: there is
/// nothing to strip, link, flatten, drop or style.
pub proof fn lemma_postprocess_prose(text: Seq<char>, r: Seq<char>)
    requires
        is_prose(text),
    ensures
        postprocessed(text, text),
        postprocessed(text, r) ==> r == text,
{
    lemma_prose_lines(text, 0);
    assert(text.subrange(0, text.len() as int) == text);
    lemma_postprocess_of_prose_lines(text, text, r);
}

proof fn lemma_lines_newline_end(p: Seq<char>, i: int)
    requires
        0 <= i < p.len(),
        !has_char(p, '\r'),
        p.last() != '\n',
    ensures
        lines_from(p + seq!['\n'], i) == lines_from(p, i),
    decreases p.len() - i,
{
    let q = p + seq!['\n'];
    lemma_char_pos_bounds(q, '\n', i);
    lemma_char_pos_bounds(p, '\n', i);
    let kq = char_pos(q, '\n', i);
    let kp = char_pos(p, '\n', i);
    if kp < p.len() {
        assert(q[kp] == '\n');
        assert(kq <= kp);
        assert(kq == kp) by {
            if kq < kp {
                assert(q[kq] == p[kq]);
            }
        }
        assert(q.subrange(i, kq) == p.subrange(i, kp));
        assert(kp + 1 < p.len());
        lemma_lines_newline_end(p, kp + 1);
    } else {
        assert(q[p.len() as int] == '\n');
        assert(kq == p.len()) by {
            if kq < p.len() {
                assert(q[kq] == p[kq]);
            }
            if kq > p.len() {
                assert(q[p.len() as int] != '\n');
            }
        }
        let seg = q.subrange(i, kq);
        assert(seg == p.subrange(i, p.len() as int));
        assert(strip_cr(seg) == seg) by {
            if seg.len() > 0 && seg.last() == '\r' {
                assert(p[p.len() - 1] == '\r');
            }
        }
        assert(lines_from(q, kq + 1) == Seq::<Seq<char>>::empty());
        assert(lines_from(q, i) == seq![seg]);
    }
}

/// Prose followed by a newline comes out of `postprocess` as the prose:
/// the final newline ends the last line and adds none.
pub proof fn lemma_postprocess_prose_line(p: Seq<char>, r: Seq<char>)
    requires
        is_prose(p),
        p.len() > 0,
    ensures
        postprocessed(p + seq!['\n'], p),
        postprocessed(p + seq!['\n'], r) ==> r == p,
{
    let q = p + seq!['\n'];
    assert(!has_char(q, '[')) by {
        if has_char(q, '[') {
            let j = choose|j: int| 0 <= j < q.len() && q[j] == '[';
            assert(q[j] == p[j]);
        }
    }
    assert forall|j: int| !occurs_at(q, seq!['^', '{'], j) by {
        if occurs_at(q, seq!['^', '{'], j) {
            assert(q.subrange(j, j + 2)[0] == q[j]);
            assert(q.subrange(j, j + 2)[1] == q[j + 1]);
            assert(j + 1 < p.len());
            assert(p.subrange(j, j + 2) == q.subrange(j, j + 2));
            assert(occurs_at(p, seq!['^', '{'], j));
        }
    }
    lemma_lines_newline_end(p, 0);
    lemma_prose_lines(p, 0);
    assert(p.subrange(0, p.len() as int) == p);
    lemma_postprocess_of_prose_lines(q, p, r);
}

/// A page whose laid-out lines hold no link and read as prose is shown as
/// exactly that text: rendering adds no marker, and post-processing changes
/// nothing but the final newline.
pub proof fn lemma_render_prose_page(
    ls: Seq<Seq<(Seq<char>, Seq<Option<Seq<char>>>)>>,
    r: Seq<char>,
)
    requires
        forall|i: int| 0 <= i < ls.len() ==> line_without_links(#[trigger] ls[i]),
        ls.len() > 0,
        plain_lines_text(ls).len() > 1,
        is_prose(plain_lines_text(ls).drop_last()),
    ensures
        postprocessed(tagged_text(ls), plain_lines_text(ls).drop_last()),
        postprocessed(tagged_text(ls), r) ==> r == plain_lines_text(ls).drop_last(),
{
    lemma_tagged_text_without_links(ls);
    let text = plain_lines_text(ls);
    let p = text.drop_last();
    assert(text == p + seq!['\n']);
    lemma_postprocess_prose_line(p, r);
}

} // verus!
