//! Link markers in rendered text: how they are written, how a link's URL names
//! an article, and how `style_links` turns markers into underlined text with
//! the linked article's title beside it.
use vstd::prelude::*;
use vstd::utf8::{decode_utf8, encode_utf8, valid_utf8};

use crate::markup::{
    balanced, depth_after, find_close, lemma_close_walk, lemma_matching_close_bounds,
    lemma_matching_close_shift, matching_close, never_overclosed,
};
use crate::paint::{dimmed, paints, underline, Paint};
use crate::text::{
    char_pos, chars_of, find_char, find_from, find_seq, has_char, is_whitespace, is_ws,
    lemma_char_pos_absent, lemma_char_pos_bounds, lemma_char_pos_shift, lemma_find_from_bounds,
    occurs_at, push_all, push_str, same_chars, slice_of, starts_with, starts_with_spec, string_of,
    trim, trim_spec,
};

verus! {

// ---------------------------------------------------------------------------
// Markers
// ---------------------------------------------------------------------------
/// The marker written for a link: `[`, `\x01`, the URL, `\x01`, the displayed
/// text, `]`.
pub open spec fn marker(url: Seq<char>, display: Seq<char>) -> Seq<char> {
    seq!['[', '\x01'] + url + seq!['\x01'] + display + seq![']']
}

/// Appends the marker of a link to `text`.
pub fn emit_link_marker(text: &mut String, url: &str, display: &str)
    ensures
        final(text)@ == old(text)@ + marker(url@, display@),
{
    text.push('[');
    text.push('\x01');
    push_str(text, url);
    text.push('\x01');
    push_str(text, display);
    text.push(']');
    assert(text@ == old(text)@ + marker(url@, display@));
}

// ---------------------------------------------------------------------------
// Percent-decoding (urlencoding)
// ---------------------------------------------------------------------------
/// The value of an ASCII hexadecimal digit.
pub open spec fn hex_value(b: u8) -> Option<u8> {
    if 48 <= b <= 57 {
        Some((b - 48) as u8)
    } else if 65 <= b <= 70 {
        Some((b - 55) as u8)
    } else if 97 <= b <= 102 {
        Some((b - 87) as u8)
    } else {
        None
    }
}

/// The bytes with every `%` followed by two hexadecimal digits replaced by the
/// byte they name; other bytes are kept.
pub open spec fn percent_decode_bytes(b: Seq<u8>) -> Seq<u8>
    decreases b.len(),
{
    if b.len() == 0 {
        b
    } else if b[0] == 37 && b.len() >= 3 && hex_value(b[1]) is Some && hex_value(b[2]) is Some {
        seq![(hex_value(b[1])->0 * 16 + hex_value(b[2])->0) as u8] + percent_decode_bytes(
            b.skip(3),
        )
    } else {
        seq![b[0]] + percent_decode_bytes(b.drop_first())
    }
}

/// The text that percent-decoding `s` gives, when the decoded bytes are UTF-8.
pub open spec fn url_decoded(s: Seq<char>) -> Option<Seq<char>> {
    let b = percent_decode_bytes(encode_utf8(s));
    if valid_utf8(b) {
        Some(decode_utf8(b))
    } else {
        None
    }
}

/// `urlencoding::decode`: percent-decodes the UTF-8 bytes of `s` (a `%` not
/// followed by two hexadecimal digits stays as it is) and returns the text
/// when the bytes are valid UTF-8, otherwise `None`.
#[verifier::external_body]
fn percent_decode(s: &str) -> (r: Option<String>)
    ensures
        match r {
            Some(d) => url_decoded(s@) == Some(d@),
            None => url_decoded(s@) is None,
        },
{
    match urlencoding::decode(s) {
        Ok(d) => Some(d.into_owned()),
        Err(_) => None,
    }
}

// ---------------------------------------------------------------------------
// Article titles
// ---------------------------------------------------------------------------
/// The part of a link's URL that names the article: after a leading `./`, or
/// after the first `/wiki/`.
pub open spec fn url_path(url: Seq<char>) -> Option<Seq<char>> {
    if starts_with_spec(url, seq!['.', '/']) {
        Some(url.skip(2))
    } else {
        match find_from(url, "/wiki/"@, 0) {
            Some(p) => Some(url.skip(p + 6)),
            None => None,
        }
    }
}

/// A title in one of the namespaces that name no article.
pub open spec fn in_namespace(t: Seq<char>) -> bool {
    ||| starts_with_spec(t, "File:"@)
    ||| starts_with_spec(t, "Category:"@)
    ||| starts_with_spec(t, "Special:"@)
    ||| starts_with_spec(t, "Wikipedia:"@)
    ||| starts_with_spec(t, "Help:"@)
    ||| starts_with_spec(t, "Template:"@)
    ||| starts_with_spec(t, "Template talk:"@)
    ||| starts_with_spec(t, "Talk:"@)
    ||| starts_with_spec(t, "Portal:"@)
}

/// `s` with every underscore turned into a space.
pub open spec fn underscores_to_spaces(s: Seq<char>) -> Seq<char> {
    Seq::new(s.len(), |i: int| if s[i] == '_' { ' ' } else { s[i] })
}

/// The article title a link's URL names: its path up to the first `#`,
/// percent-decoded where that works, with underscores as spaces; none for an
/// empty path or a namespace page.
pub open spec fn title_of_url(url: Seq<char>) -> Option<Seq<char>> {
    match url_path(url) {
        None => None,
        Some(p) => {
            let path = p.take(char_pos(p, '#', 0));
            if path.len() == 0 {
                None
            } else {
                let decoded = match url_decoded(path) {
                    Some(d) => d,
                    None => path,
                };
                let title = underscores_to_spaces(decoded);
                if in_namespace(title) {
                    None
                } else {
                    Some(title)
                }
            }
        },
    }
}

/// The part of a link's path up to its first `#`: what names the article.
pub open spec fn url_article_path(url: Seq<char>) -> Option<Seq<char>> {
    match url_path(url) {
        Some(p) => Some(p.take(char_pos(p, '#', 0))),
        None => None,
    }
}

/// The article path, percent-decoded where that works, underscores as spaces.
pub open spec fn path_title(path: Seq<char>) -> Seq<char> {
    underscores_to_spaces(
        match url_decoded(path) {
            Some(d) => d,
            None => path,
        },
    )
}

/// A URL names no article exactly when it has no `./` or `/wiki/` path, its
/// path before `#` is empty, or the title lies in a namespace; a title it
/// names is never empty and holds no underscore.
pub proof fn lemma_title_of_url(url: Seq<char>)
    ensures
        title_of_url(url) is None <==> match url_article_path(url) {
            None => true,
            Some(path) => path.len() == 0 || in_namespace(path_title(path)),
        },
        title_of_url(url) matches Some(t) ==> t.len() > 0 && !has_char(t, '_'),
{
    if let Some(path) = url_article_path(url) {
        if path.len() > 0 {
            let t = path_title(path);
            if let Some(d) = url_decoded(path) {
                vstd::utf8::encode_utf8_decode_utf8(path);
                let e = encode_utf8(path);
                if e.len() == 0 {
                    assert(e == Seq::<u8>::empty());
                    assert(decode_utf8(e) == Seq::<char>::empty());
                }
                let b = percent_decode_bytes(e);
                assert(b.len() > 0);
                assert(d.len() > 0);
            }
            assert(t.len() > 0);
            assert(!has_char(t, '_')) by {
                if has_char(t, '_') {
                    let j = choose|j: int| 0 <= j < t.len() && t[j] == '_';
                }
            }
        }
    }
}

/// The article title a link's URL names, if any.
pub fn wiki_title_from_url(url: &str) -> (r: Option<String>)
    ensures
        match r {
            Some(t) => title_of_url(url@) == Some(t@),
            None => title_of_url(url@) is None,
        },
{
    let u = chars_of(url);
    let path0: Vec<char>;
    if starts_with(&u, &vec!['.', '/']) {
        path0 = slice_of(&u, 2, u.len());
        assert(path0@ == u@.skip(2));
    } else {
        let wiki = chars_of("/wiki/");
        proof {
            lemma_find_from_bounds(u@, wiki@, 0);
        }
        match find_seq(&u, &wiki, 0) {
            Some(p) => {
                proof {
                    reveal_strlit("/wiki/");
                    assert(wiki@.len() == 6);
                }
                let n = u.len();
                path0 = slice_of(&u, p + 6, n);
                assert(path0@ == u@.skip(p + 6));
            },
            None => {
                return None;
            },
        }
    }
    let h = find_char(&path0, '#', 0);
    let path = slice_of(&path0, 0, h);
    assert(path@ == path0@.take(h as int));
    if path.len() == 0 {
        return None;
    }
    let path_str = string_of(&path);
    let decoded = match percent_decode(path_str.as_str()) {
        Some(d) => chars_of(d.as_str()),
        None => path,
    };
    let mut title: Vec<char> = Vec::new();
    let mut i: usize = 0;
    while i < decoded.len()
        invariant
            i <= decoded.len(),
            title@ == underscores_to_spaces(decoded@).take(i as int),
        decreases decoded.len() - i,
    {
        let c = decoded[i];
        title.push(if c == '_' {
            ' '
        } else {
            c
        });
        assert(underscores_to_spaces(decoded@).take(i + 1) == underscores_to_spaces(decoded@).take(
            i as int,
        ).push(if c == '_' {
            ' '
        } else {
            c
        }));
        i += 1;
    }
    assert(underscores_to_spaces(decoded@).take(decoded.len() as int) == underscores_to_spaces(
        decoded@,
    ));
    if starts_with(&title, &chars_of("File:")) || starts_with(&title, &chars_of("Category:"))
        || starts_with(&title, &chars_of("Special:")) || starts_with(
        &title,
        &chars_of("Wikipedia:"),
    ) || starts_with(&title, &chars_of("Help:")) || starts_with(&title, &chars_of("Template:"))
        || starts_with(&title, &chars_of("Template talk:")) || starts_with(
        &title,
        &chars_of("Talk:"),
    ) || starts_with(&title, &chars_of("Portal:")) {
        return None;
    }
    Some(string_of(&title))
}


// ---------------------------------------------------------------------------
// Comparing a title with the displayed text
// ---------------------------------------------------------------------------
/// What `char::to_lowercase` yields for `c` (Unicode's lowercase mapping).
pub uninterp spec fn lowercase_of(c: char) -> Seq<char>;

/// `char::to_lowercase`, collected: the characters of the lowercase mapping
/// of `c`.
#[verifier::external_body]
fn lowercase(c: char) -> (r: Vec<char>)
    ensures
        r@ == lowercase_of(c),
{
    c.to_lowercase().collect()
}

/// `s` without whitespace, lowercased.
pub open spec fn folded(s: Seq<char>) -> Seq<char>
    decreases s.len(),
{
    if s.len() == 0 {
        seq![]
    } else {
        folded(s.drop_last()) + if is_ws(s.last()) {
            Seq::<char>::empty()
        } else {
            lowercase_of(s.last())
        }
    }
}

fn fold(v: &Vec<char>) -> (r: Vec<char>)
    ensures
        r@ == folded(v@),
{
    let mut r: Vec<char> = Vec::new();
    let mut i: usize = 0;
    while i < v.len()
        invariant
            i <= v.len(),
            r@ == folded(v@.take(i as int)),
        decreases v.len() - i,
    {
        assert(v@.take(i + 1).drop_last() == v@.take(i as int));
        if !is_whitespace(v[i]) {
            let low = lowercase(v[i]);
            push_all(&mut r, &low);
        }
        assert(r@ == folded(v@.take(i + 1)));
        i += 1;
    }
    assert(v@.take(v.len() as int) == v@);
    r
}

/// Whether a link's title and its displayed text are the same apart from
/// whitespace and case.
pub fn titles_match(link_title: &str, display: &str) -> (r: bool)
    ensures
        r == (folded(link_title@) == folded(display@)),
{
    let a = fold(&chars_of(link_title));
    let b = fold(&chars_of(display));
    same_chars(&a, &b)
}

// ---------------------------------------------------------------------------
// Styling links
// ---------------------------------------------------------------------------
/// A piece of text as `style_links` reads it: a run without `[`, a bracketed
/// part from its `[` to the matching `]`, or a `[` that is never closed,
/// with the rest of the text.
pub enum Piece {
    Text(int, int),
    Bracket(int, int),
    Unclosed(int),
}

/// The piece of `t` that starts at index `i`.
pub open spec fn piece_at(t: Seq<char>, i: int) -> Piece {
    if t[i] == '[' {
        match matching_close(t, '[', ']', i + 1, 1) {
            Some(c) => Piece::Bracket(i, c),
            None => Piece::Unclosed(i),
        }
    } else {
        Piece::Text(i, char_pos(t, '[', i))
    }
}

/// Where the piece after `p` starts.
pub open spec fn piece_end(t: Seq<char>, p: Piece) -> int {
    match p {
        Piece::Text(_, b) => b,
        Piece::Bracket(_, c) => c + 1,
        Piece::Unclosed(_) => t.len() as int,
    }
}

/// The pieces of `t` from index `i` on.
pub open spec fn pieces_from(t: Seq<char>, i: int) -> Seq<Piece>
    decreases t.len() - i,
{
    if i < 0 || i >= t.len() {
        seq![]
    } else {
        let p = piece_at(t, i);
        let j = piece_end(t, p);
        if i < j <= t.len() {
            seq![p] + pieces_from(t, j)
        } else {
            seq![p]
        }
    }
}

/// The pieces of `t`.
pub open spec fn pieces(t: Seq<char>) -> Seq<Piece> {
    pieces_from(t, 0)
}

/// The URL and displayed text of a bracketed part that is a link marker:
/// `\x01`, the URL, `\x01`, the displayed text.
pub open spec fn marker_parts(inner: Seq<char>) -> Option<(Seq<char>, Seq<char>)> {
    if inner.len() > 0 && inner[0] == '\x01' {
        let rest = inner.drop_first();
        let sep = char_pos(rest, '\x01', 0);
        if sep < rest.len() {
            Some((rest.take(sep), rest.skip(sep + 1)))
        } else {
            None
        }
    } else {
        None
    }
}

/// The note ` [title]` written after a link: when its URL names an article
/// whose title differs from the displayed text (trimmed) and the URL has not
/// been noted before.
pub open spec fn title_note(url: Seq<char>, display: Seq<char>, seen: Seq<Seq<char>>) -> Option<
    Seq<char>,
> {
    match title_of_url(url) {
        Some(t) => if folded(t) != folded(trim_spec(display)) && !seen.contains(url) {
            Some(seq![' ', '['] + t + seq![']'])
        } else {
            None
        },
        None => None,
    }
}

/// `r` is what styling the pieces `ps` of `t` may give, starting with the
/// noted URLs `seen`.
pub open spec fn pieces_out(t: Seq<char>, ps: Seq<Piece>, seen: Seq<Seq<char>>, r: Seq<char>) -> bool
    decreases t.len(), ps.len(),
{
    if ps.len() == 0 {
        r == Seq::<char>::empty()
    } else {
        exists|pre: Seq<char>, o: Seq<char>|
            #![trigger pre + o]
            pieces_out(t, ps.drop_last(), seen, pre) && piece_out(
                t,
                ps.last(),
                seen_after(t, ps.drop_last(), seen),
                o,
            ) && r == pre + o
    }
}

/// The noted URLs after styling the pieces `ps` of `t`.
pub open spec fn seen_after(t: Seq<char>, ps: Seq<Piece>, seen: Seq<Seq<char>>) -> Seq<Seq<char>>
    decreases t.len(), ps.len(),
{
    if ps.len() == 0 {
        seen
    } else {
        piece_seen(t, ps.last(), seen_after(t, ps.drop_last(), seen))
    }
}

/// `r` is what styling the piece `p` of `t` may give: a run is kept, an
/// unclosed part is kept, a link marker becomes its styled displayed text
/// underlined (and then its title note, dimmed), a bracketed part starting
/// with `\x01` but with no second one is underlined as it is, and any other
/// bracketed part becomes its styled content underlined (brackets dropped).
pub open spec fn piece_out(t: Seq<char>, p: Piece, seen: Seq<Seq<char>>, r: Seq<char>) -> bool
    decreases t.len(), 0int,
{
    match p {
        Piece::Text(a, b) => 0 <= a <= b <= t.len() && r == t.subrange(a, b),
        Piece::Unclosed(o) => 0 <= o <= t.len() && r == t.subrange(o, t.len() as int),
        Piece::Bracket(o, c) => if 0 <= o < c < t.len() {
            let inner = t.subrange(o + 1, c);
            match marker_parts(inner) {
                Some((url, display)) => if display.len() < inner.len() {
                    let seen1 = seen_after(display, pieces(display), seen);
                    exists|d: Seq<char>, u: Seq<char>|
                        #![trigger paints(Paint::Underline, d, u)]
                        pieces_out(display, pieces(display), seen, d) && paints(
                            Paint::Underline,
                            d,
                            u,
                        ) && match title_note(url, display, seen1) {
                            Some(note) => exists|n: Seq<char>|
                                paints(Paint::Dimmed, note, n) && r == u + n,
                            None => r == u,
                        }
                } else {
                    false
                },
                None => if inner.len() > 0 && inner[0] == '\x01' {
                    paints(Paint::Underline, inner, r)
                } else {
                    exists|d: Seq<char>|
                        #![trigger paints(Paint::Underline, d, r)]
                        pieces_out(inner, pieces(inner), seen, d) && paints(Paint::Underline, d, r)
                },
            }
        } else {
            false
        },
    }
}

/// The noted URLs after styling the piece `p` of `t`.
pub open spec fn piece_seen(t: Seq<char>, p: Piece, seen: Seq<Seq<char>>) -> Seq<Seq<char>>
    decreases t.len(), 0int,
{
    match p {
        Piece::Bracket(o, c) => if 0 <= o < c < t.len() {
            let inner = t.subrange(o + 1, c);
            match marker_parts(inner) {
                Some((url, display)) => if display.len() < inner.len() {
                    let seen1 = seen_after(display, pieces(display), seen);
                    if title_note(url, display, seen1) is Some {
                        seen1.push(url)
                    } else {
                        seen1
                    }
                } else {
                    seen
                },
                None => if inner.len() > 0 && inner[0] == '\x01' {
                    seen
                } else {
                    seen_after(inner, pieces(inner), seen)
                },
            }
        } else {
            seen
        },
        _ => seen,
    }
}

/// `r` is what `style_links` may make of `t` with the noted URLs `seen`.
pub open spec fn styled(t: Seq<char>, seen: Seq<Seq<char>>, r: Seq<char>) -> bool {
    pieces_out(t, pieces(t), seen, r)
}

/// The noted URLs after `style_links` has run over `t`.
pub open spec fn styled_seen(t: Seq<char>, seen: Seq<Seq<char>>) -> Seq<Seq<char>> {
    seen_after(t, pieces(t), seen)
}

/// The views of a vector of strings.
pub open spec fn string_views(v: Seq<String>) -> Seq<Seq<char>> {
    Seq::new(v.len(), |i: int| v[i]@)
}

/// Adds `x` to `seen` unless it is there; tells whether it was added.
fn insert_new(seen: &mut Vec<String>, x: &Vec<char>) -> (added: bool)
    ensures
        added == !string_views(old(seen)@).contains(x@),
        string_views(final(seen)@) == if added {
            string_views(old(seen)@).push(x@)
        } else {
            string_views(old(seen)@)
        },
{
    let mut i: usize = 0;
    while i < seen.len()
        invariant
            i <= seen.len(),
            forall|k: int| 0 <= k < i ==> seen@[k]@ != x@,
        decreases seen.len() - i,
    {
        let cur = chars_of(seen[i].as_str());
        if same_chars(&cur, x) {
            assert(string_views(seen@)[i as int] == x@);
            return false;
        }
        i += 1;
    }
    assert(!string_views(seen@).contains(x@));
    let ghost before = string_views(seen@);
    seen.push(string_of(x));
    assert(string_views(seen@) == before.push(x@));
    true
}

proof fn lemma_pieces_from_unfold(t: Seq<char>, i: int)
    requires
        0 <= i < t.len(),
    ensures
        i < piece_end(t, piece_at(t, i)) <= t.len(),
        pieces_from(t, i) == seq![piece_at(t, i)] + pieces_from(t, piece_end(t, piece_at(t, i))),
{
    if t[i] == '[' {
        lemma_matching_close_bounds(t, '[', ']', i + 1, 1);
    } else {
        lemma_char_pos_bounds(t, '[', i);
    }
    let j = piece_end(t, piece_at(t, i));
    if j == t.len() {
        assert(pieces_from(t, j) == Seq::<Piece>::empty());
        assert(seq![piece_at(t, i)] + Seq::<Piece>::empty() == seq![piece_at(t, i)]);
    }
}

proof fn lemma_pieces_out_push(
    t: Seq<char>,
    ps: Seq<Piece>,
    seen: Seq<Seq<char>>,
    pre: Seq<char>,
    p: Piece,
    o: Seq<char>,
)
    requires
        pieces_out(t, ps, seen, pre),
        piece_out(t, p, seen_after(t, ps, seen), o),
    ensures
        pieces_out(t, ps.push(p), seen, pre + o),
        seen_after(t, ps.push(p), seen) == piece_seen(t, p, seen_after(t, ps, seen)),
{
    let ps2 = ps.push(p);
    assert(ps2.drop_last() == ps);
    assert(ps2.last() == p);
    assert(pieces_out(t, ps2.drop_last(), seen, pre) && piece_out(
        t,
        ps2.last(),
        seen_after(t, ps2.drop_last(), seen),
        o,
    ) && pre + o == pre + o);
}

/// Underlines the link markers and bracketed parts of `text`: a marker shows
/// its displayed text (styled in turn), followed by the title of the linked
/// article, dimmed, when that title differs from the displayed text and its
/// URL is not yet in `seen` (it is then added).
pub fn style_links(text: &str, seen: &mut Vec<String>) -> (r: String)
    ensures
        styled(text@, string_views(old(seen)@), r@),
        string_views(final(seen)@) == styled_seen(text@, string_views(old(seen)@)),
    decreases text@.len(),
{
    let s = chars_of(text);
    let ghost seen0 = string_views(seen@);
    let ghost mut done: Seq<Piece> = seq![];
    let mut out: Vec<char> = Vec::new();
    let mut i: usize = 0;
    assert(pieces_from(s@, 0) == done + pieces_from(s@, 0));
    while i < s.len()
        invariant
            i <= s.len(),
            s@ == text@,
            pieces(s@) == done + pieces_from(s@, i as int),
            pieces_out(s@, done, seen0, out@),
            string_views(seen@) == seen_after(s@, done, seen0),
        decreases s.len() - i,
    {
        proof {
            lemma_pieces_from_unfold(s@, i as int);
        }
        let ghost p = piece_at(s@, i as int);
        let ghost seen_i = string_views(seen@);
        let ghost out_i = out@;
        let next: usize;
        let mut piece: Vec<char> = Vec::new();
        if s[i] == '[' {
            proof {
                lemma_matching_close_bounds(s@, '[', ']', i + 1, 1);
            }
            match find_close(&s, '[', ']', i + 1) {
                Some(c) => {
                    let inner = slice_of(&s, i + 1, c);
                    if inner.len() > 0 && inner[0] == '\x01' {
                        let rest = slice_of(&inner, 1, inner.len());
                        assert(rest@ == inner@.drop_first());
                        let sep = find_char(&rest, '\x01', 0);
                        if sep < rest.len() {
                            let url = slice_of(&rest, 0, sep);
                            let display = slice_of(&rest, sep + 1, rest.len());
                            assert(url@ == rest@.take(sep as int));
                            assert(display@ == rest@.skip(sep + 1));
                            let display_str = string_of(&display);
                            let styled_display = style_links(display_str.as_str(), seen);
                            let ghost seen1 = string_views(seen@);
                            let u = underline(styled_display.as_str());
                            piece = chars_of(u.as_str());
                            let ghost d = styled_display@;
                            let ghost uv = piece@;
                            let ghost mut nv: Seq<char> = seq![];
                            let mut noted = false;
                            match wiki_title_from_url(string_of(&url).as_str()) {
                                Some(title) => {
                                    let trimmed = trim(&display);
                                    if !titles_match(title.as_str(), string_of(&trimmed).as_str()) {
                                        if insert_new(seen, &url) {
                                            let mut note = String::new();
                                            note.push(' ');
                                            note.push('[');
                                            push_str(&mut note, title.as_str());
                                            note.push(']');
                                            let n = dimmed(note.as_str());
                                            let nchars = chars_of(n.as_str());
                                            push_all(&mut piece, &nchars);
                                            noted = true;
                                            proof {
                                                assert(note@ == seq![' ', '['] + title@ + seq![']']);
                                                assert(title_note(url@, display@, seen1) == Some(
                                                    note@,
                                                ));
                                                nv = nchars@;
                                                assert(paints(Paint::Dimmed, note@, nv));
                                            }
                                        }
                                    }
                                },
                                None => {},
                            }
                            proof {
                                assert(inner@.drop_first() == rest@);
                                assert(marker_parts(inner@) == Some((url@, display@)));
                                assert(display@.len() < inner@.len());
                                assert(inner@ == s@.subrange(i + 1, c as int));
                                if noted {
                                    assert(piece@ == uv + nv);
                                } else {
                                    assert(title_note(url@, display@, seen1) is None);
                                    assert(piece@ == uv);
                                }
                                assert(pieces_out(display@, pieces(display@), seen_i, d));
                                assert(paints(Paint::Underline, d, uv));
                                assert(piece_out(s@, p, seen_i, piece@));
                            }
                        } else {
                            let inner_str = string_of(&inner);
                            let u = underline(inner_str.as_str());
                            piece = chars_of(u.as_str());
                            assert(marker_parts(inner@) is None);
                        }
                    } else {
                        let inner_str = string_of(&inner);
                        let styled_inner = style_links(inner_str.as_str(), seen);
                        let u = underline(styled_inner.as_str());
                        piece = chars_of(u.as_str());
                        assert(marker_parts(inner@) is None);
                        assert(piece_out(s@, p, seen_i, piece@));
                    }
                    next = c + 1;
                },
                None => {
                    piece = slice_of(&s, i, s.len());
                    next = s.len();
                },
            }
        } else {
            let k = find_char(&s, '[', i);
            piece = slice_of(&s, i, k);
            next = k;
        }
        proof {
            assert(piece_out(s@, p, seen_i, piece@));
            assert(string_views(seen@) == piece_seen(s@, p, seen_i));
            lemma_pieces_out_push(s@, done, seen0, out_i, p, piece@);
            assert(done.push(p) + pieces_from(s@, next as int) == done + pieces_from(s@, i as int));
            done = done.push(p);
        }
        push_all(&mut out, &piece);
        i = next;
    }
    assert(pieces_from(s@, i as int) == Seq::<Piece>::empty());
    assert(done + Seq::<Piece>::empty() == done);
    string_of(&out)
}


// ---------------------------------------------------------------------------
// Laws
// ---------------------------------------------------------------------------
/// Text with no `[` holds no link: `style_links` gives it back unchanged
/// and notes no URL.
pub proof fn lemma_styled_without_brackets(t: Seq<char>, seen: Seq<Seq<char>>, r: Seq<char>)
    requires
        !has_char(t, '['),
    ensures
        styled(t, seen, t),
        styled(t, seen, r) ==> r == t,
        styled_seen(t, seen) == seen,
{
    let e = Seq::<char>::empty();
    if t.len() == 0 {
        assert(pieces(t) == Seq::<Piece>::empty());
        assert(t == e);
    } else {
        lemma_char_pos_absent(t, '[', 0);
        lemma_pieces_from_unfold(t, 0);
        let p = Piece::Text(0, t.len() as int);
        assert(piece_at(t, 0) == p);
        assert(pieces_from(t, t.len() as int) == Seq::<Piece>::empty());
        assert(pieces(t) == seq![p]);
        let ps = seq![p];
        assert(ps.drop_last() == Seq::<Piece>::empty());
        assert(t.subrange(0, t.len() as int) == t);
        assert(pieces_out(t, ps.drop_last(), seen, e));
        assert(piece_out(t, p, seen_after(t, ps.drop_last(), seen), t));
        assert(e + t == t);
        assert(pieces_out(t, ps, seen, t));
        assert(ps.last() == p);
        assert(seen_after(t, ps.drop_last(), seen) == seen);
        assert(seen_after(t, ps, seen) == piece_seen(t, p, seen));
        if pieces_out(t, ps, seen, r) {
            let (pre, o) = choose|pre: Seq<char>, o: Seq<char>|
                #![trigger pre + o]
                pieces_out(t, ps.drop_last(), seen, pre) && piece_out(
                    t,
                    ps.last(),
                    seen_after(t, ps.drop_last(), seen),
                    o,
                ) && r == pre + o;
            assert(pre == e);
            assert(o == t);
            assert(r == t);
        }
    }
}

/// Text with no `[`, `]` or `\x01`.
pub open spec fn plain_text(s: Seq<char>) -> bool {
    !has_char(s, '[') && !has_char(s, ']') && !has_char(s, '\x01')
}

proof fn lemma_close_over_plain(s: Seq<char>, k: int, end: int)
    requires
        0 <= k <= end < s.len(),
        s[end] == ']',
        forall|j: int| k <= j < end ==> s[j] != '[' && s[j] != ']',
    ensures
        matching_close(s, '[', ']', k, 1) == Some(end),
    decreases end - k,
{
    if k < end {
        lemma_close_over_plain(s, k + 1, end);
    }
}

/// What styling the marker of a link may give: its displayed text
/// underlined, and its title note dimmed after it when there is one.
pub open spec fn link_shown(url: Seq<char>, display: Seq<char>, seen: Seq<Seq<char>>, r: Seq<char>) -> bool {
    exists|o: Seq<char>|
        #![trigger paints(Paint::Underline, display, o)]
        paints(Paint::Underline, display, o) && match title_note(url, display, seen) {
            Some(note) => exists|n: Seq<char>|
                #![trigger paints(Paint::Dimmed, note, n)]
                paints(Paint::Dimmed, note, n) && r == o + n,
            None => r == o,
        }
}

/// A marker that `emit_link_marker` writes is read back by `style_links` as
/// that link: its displayed text is shown underlined, followed by the title
/// note when there is one (and the URL is then noted), for a URL and a
/// displayed text without brackets (and a URL without `\x01`).
pub proof fn lemma_marker_round_trip(
    url: Seq<char>,
    display: Seq<char>,
    seen: Seq<Seq<char>>,
    r: Seq<char>,
)
    requires
        plain_text(url),
        !has_char(display, '['),
        !has_char(display, ']'),
    ensures
        styled(marker(url, display), seen, r) ==> link_shown(url, display, seen, r),
        styled_seen(marker(url, display), seen) == if title_note(url, display, seen) is Some {
            seen.push(url)
        } else {
            seen
        },
{
    let t = marker(url, display);
    let n = t.len() as int;
    let x = seq!['\x01'];
    assert(t == seq!['['] + (x + url + x + display) + seq![']']);
    assert forall|j: int| 1 <= j < n - 1 implies t[j] != '[' && t[j] != ']' by {
        if 2 <= j < 2 + url.len() {
            assert(t[j] == url[j - 2]);
        } else if 3 + url.len() <= j < n - 1 {
            assert(t[j] == display[j - 3 - url.len()]);
        }
    }
    lemma_close_over_plain(t, 1, n - 1);
    lemma_pieces_from_unfold(t, 0);
    let p = Piece::Bracket(0, n - 1);
    assert(piece_at(t, 0) == p);
    assert(pieces_from(t, n) == Seq::<Piece>::empty());
    assert(pieces(t) == seq![p]);
    let ps = seq![p];
    assert(ps.drop_last() == Seq::<Piece>::empty());
    let inner = t.subrange(1, n - 1);
    assert(inner == x + url + x + display);
    let rest = inner.drop_first();
    assert(rest == url + x + display);
    assert forall|j: int| 0 <= j < url.len() implies rest[j] != '\x01' by {
        assert(rest[j] == url[j]);
    }
    lemma_char_pos_absent(url, '\x01', 0);
    lemma_char_pos_prefix(rest, url.len() as int);
    assert(rest.take(url.len() as int) == url);
    assert(rest.skip(url.len() + 1int) == display);
    assert(marker_parts(inner) == Some((url, display)));
    lemma_styled_without_brackets(display, seen, display);
    assert(seen_after(display, pieces(display), seen) == seen);
    assert(ps.last() == p);
    assert(seen_after(t, ps.drop_last(), seen) == seen);
    assert(seen_after(t, ps, seen) == piece_seen(t, p, seen));
    if styled(t, seen, r) {
        let e = Seq::<char>::empty();
        let (pre, o) = choose|pre: Seq<char>, o: Seq<char>|
            #![trigger pre + o]
            pieces_out(t, ps.drop_last(), seen, pre) && piece_out(
                t,
                ps.last(),
                seen_after(t, ps.drop_last(), seen),
                o,
            ) && r == pre + o;
        assert(pre == e);
        assert(r == o);
        assert(piece_out(t, p, seen, o));
        let (dd, uu) = choose|d: Seq<char>, u: Seq<char>|
            #![trigger paints(Paint::Underline, d, u)]
            pieces_out(display, pieces(display), seen, d) && paints(Paint::Underline, d, u)
                && match title_note(url, display, seen) {
                Some(note) => exists|n: Seq<char>| paints(Paint::Dimmed, note, n) && o == u + n,
                None => o == u,
            };
        lemma_styled_without_brackets(display, seen, dd);
        assert(dd == display);
        assert(paints(Paint::Underline, display, uu));
    }
}

proof fn lemma_char_pos_prefix(s: Seq<char>, k: int)
    requires
        0 <= k < s.len(),
        s[k] == '\x01',
        forall|j: int| 0 <= j < k ==> s[j] != '\x01',
    ensures
        char_pos(s, '\x01', 0) == k,
{
    lemma_char_pos_bounds(s, '\x01', 0);
}

/// `b` begins with `a`.
pub open spec fn extends(a: Seq<Seq<char>>, b: Seq<Seq<char>>) -> bool {
    a.len() <= b.len() && b.take(a.len() as int) == a
}

proof fn lemma_seen_after_grows(t: Seq<char>, ps: Seq<Piece>, seen: Seq<Seq<char>>)
    ensures
        extends(seen, seen_after(t, ps, seen)),
        seen.no_duplicates() ==> seen_after(t, ps, seen).no_duplicates(),
    decreases t.len(), ps.len(),
{
    if ps.len() > 0 {
        lemma_seen_after_grows(t, ps.drop_last(), seen);
        let mid = seen_after(t, ps.drop_last(), seen);
        lemma_piece_seen_grows(t, ps.last(), mid);
        let fin = seen_after(t, ps, seen);
        assert(fin.take(seen.len() as int) == mid.take(seen.len() as int));
    } else {
        assert(seen.take(seen.len() as int) == seen);
    }
}

proof fn lemma_piece_seen_grows(t: Seq<char>, p: Piece, seen: Seq<Seq<char>>)
    ensures
        extends(seen, piece_seen(t, p, seen)),
        seen.no_duplicates() ==> piece_seen(t, p, seen).no_duplicates(),
    decreases t.len(), 0int,
{
    assert(seen.take(seen.len() as int) == seen);
    match p {
        Piece::Bracket(o, c) => if 0 <= o < c < t.len() {
            let inner = t.subrange(o + 1, c);
            match marker_parts(inner) {
                Some((url, display)) => if display.len() < inner.len() {
                    lemma_seen_after_grows(display, pieces(display), seen);
                    let s1 = seen_after(display, pieces(display), seen);
                    if title_note(url, display, s1) is Some {
                        assert(s1.push(url).take(seen.len() as int) == s1.take(seen.len() as int));
                        if s1.no_duplicates() {
                            assert forall|i: int, j: int|
                                0 <= i < s1.len() + 1 && 0 <= j < s1.len() + 1 && i != j implies s1.push(
                                url,
                            )[i] != s1.push(url)[j] by {
                                if i == s1.len() {
                                    assert(!s1.contains(url));
                                    assert(s1.push(url)[j] == s1[j]);
                                } else if j == s1.len() {
                                    assert(!s1.contains(url));
                                    assert(s1.push(url)[i] == s1[i]);
                                }
                            }
                        }
                    }
                },
                None => if !(inner.len() > 0 && inner[0] == '\x01') {
                    lemma_seen_after_grows(inner, pieces(inner), seen);
                },
            }
        },
        _ => {},
    }
}

/// `style_links` only adds URLs to the noted ones, and only URLs not noted
/// yet: each linked article's title is noted at most once.
pub proof fn lemma_styled_seen_grows(t: Seq<char>, seen: Seq<Seq<char>>)
    ensures
        extends(seen, styled_seen(t, seen)),
        seen.no_duplicates() ==> styled_seen(t, seen).no_duplicates(),
{
    lemma_seen_after_grows(t, pieces(t), seen);
}


// ---------------------------------------------------------------------------
// Pieces of a text and pieces of its suffixes
// ---------------------------------------------------------------------------
/// The piece `p` moved `j` places to the right.
pub open spec fn shift_piece(p: Piece, j: int) -> Piece {
    match p {
        Piece::Text(a, b) => Piece::Text(a + j, b + j),
        Piece::Bracket(o, c) => Piece::Bracket(o + j, c + j),
        Piece::Unclosed(o) => Piece::Unclosed(o + j),
    }
}

/// The pieces moved `j` places to the right.
pub open spec fn shift_pieces(ps: Seq<Piece>, j: int) -> Seq<Piece> {
    Seq::new(ps.len(), |i: int| shift_piece(ps[i], j))
}

/// The piece lies within a text of length `n`.
pub open spec fn piece_within(n: int, p: Piece) -> bool {
    match p {
        Piece::Text(a, b) => 0 <= a <= b <= n,
        Piece::Bracket(o, c) => 0 <= o < c < n,
        Piece::Unclosed(o) => 0 <= o <= n,
    }
}

proof fn lemma_pieces_within(t: Seq<char>, i: int)
    requires
        0 <= i,
    ensures
        forall|m: int|
            0 <= m < pieces_from(t, i).len() ==> piece_within(
                t.len() as int,
                #[trigger] pieces_from(t, i)[m],
            ),
    decreases t.len() - i,
{
    if i < t.len() {
        lemma_pieces_from_unfold(t, i);
        if t[i] == '[' {
            lemma_matching_close_bounds(t, '[', ']', i + 1, 1);
        } else {
            lemma_char_pos_bounds(t, '[', i);
        }
        let j = piece_end(t, piece_at(t, i));
        lemma_pieces_within(t, j);
        assert forall|m: int| 0 <= m < pieces_from(t, i).len() implies piece_within(
            t.len() as int,
            #[trigger] pieces_from(t, i)[m],
        ) by {
            if m > 0 {
                assert(pieces_from(t, i)[m] == pieces_from(t, j)[m - 1]);
            }
        }
    }
}

proof fn lemma_pieces_from_shift(t: Seq<char>, j: int, i: int)
    requires
        0 <= j <= i <= t.len(),
    ensures
        pieces_from(t, i) == shift_pieces(pieces_from(t.skip(j), i - j), j),
    decreases t.len() - i,
{
    let u = t.skip(j);
    if i < t.len() {
        assert(t[i] == u[i - j]);
        lemma_matching_close_shift(t, '[', ']', j, i + 1, 1);
        lemma_char_pos_shift(t, '[', j, i);
        assert(piece_at(t, i) == shift_piece(piece_at(u, i - j), j));
        let e = piece_end(t, piece_at(t, i));
        assert(e == piece_end(u, piece_at(u, i - j)) + j);
        lemma_pieces_from_unfold(t, i);
        lemma_pieces_from_unfold(u, i - j);
        lemma_pieces_from_shift(t, j, e);
        assert(pieces_from(t, i) =~= shift_pieces(pieces_from(u, i - j), j));
    } else {
        assert(pieces_from(t, i) =~= shift_pieces(pieces_from(u, i - j), j));
    }
}

proof fn lemma_piece_shift(t: Seq<char>, j: int, p: Piece, seen: Seq<Seq<char>>)
    requires
        0 <= j <= t.len(),
        piece_within(t.len() - j, p),
    ensures
        forall|r: Seq<char>|
            #[trigger] piece_out(t, shift_piece(p, j), seen, r) == piece_out(t.skip(j), p, seen, r),
        piece_seen(t, shift_piece(p, j), seen) == piece_seen(t.skip(j), p, seen),
{
    let u = t.skip(j);
    match p {
        Piece::Text(a, b) => {
            assert(t.subrange(a + j, b + j) == u.subrange(a, b));
        },
        Piece::Unclosed(o) => {
            assert(t.subrange(o + j, t.len() as int) == u.subrange(o, u.len() as int));
        },
        Piece::Bracket(o, c) => {
            assert(t.subrange(o + j + 1, c + j) == u.subrange(o + 1, c));
        },
    }
}

proof fn lemma_pieces_shift(t: Seq<char>, j: int, ps: Seq<Piece>, seen: Seq<Seq<char>>)
    requires
        0 <= j <= t.len(),
        forall|m: int| 0 <= m < ps.len() ==> piece_within(t.len() - j, #[trigger] ps[m]),
    ensures
        forall|r: Seq<char>|
            #[trigger] pieces_out(t, shift_pieces(ps, j), seen, r) == pieces_out(
                t.skip(j),
                ps,
                seen,
                r,
            ),
        seen_after(t, shift_pieces(ps, j), seen) == seen_after(t.skip(j), ps, seen),
    decreases ps.len(),
{
    let u = t.skip(j);
    let sp = shift_pieces(ps, j);
    if ps.len() > 0 {
        assert(sp.drop_last() == shift_pieces(ps.drop_last(), j));
        assert(sp.last() == shift_piece(ps.last(), j));
        lemma_pieces_shift(t, j, ps.drop_last(), seen);
        let mid = seen_after(u, ps.drop_last(), seen);
        lemma_piece_shift(t, j, ps.last(), mid);
        assert forall|r: Seq<char>| #[trigger]
            pieces_out(t, sp, seen, r) == pieces_out(u, ps, seen, r) by {
            if pieces_out(t, sp, seen, r) {
                let (pre, o) = choose|pre: Seq<char>, o: Seq<char>|
                    #![trigger pre + o]
                    pieces_out(t, sp.drop_last(), seen, pre) && piece_out(
                        t,
                        sp.last(),
                        seen_after(t, sp.drop_last(), seen),
                        o,
                    ) && r == pre + o;
                assert(pieces_out(u, ps.drop_last(), seen, pre));
                assert(piece_out(u, ps.last(), mid, o));
                assert(pre + o == r);
            }
            if pieces_out(u, ps, seen, r) {
                let (pre, o) = choose|pre: Seq<char>, o: Seq<char>|
                    #![trigger pre + o]
                    pieces_out(u, ps.drop_last(), seen, pre) && piece_out(
                        u,
                        ps.last(),
                        seen_after(u, ps.drop_last(), seen),
                        o,
                    ) && r == pre + o;
                assert(pieces_out(t, sp.drop_last(), seen, pre));
                assert(piece_out(t, sp.last(), seen_after(t, sp.drop_last(), seen), o));
                assert(pre + o == r);
            }
        }
    } else {
        assert(sp.len() == 0);
    }
}

/// Styling two runs of pieces one after the other: the first with the noted
/// URLs as they are, the second with those the first left.
pub open spec fn out_in_two(
    t: Seq<char>,
    ps1: Seq<Piece>,
    ps2: Seq<Piece>,
    seen: Seq<Seq<char>>,
    r: Seq<char>,
) -> bool {
    exists|r1: Seq<char>, r2: Seq<char>|
        #![trigger r1 + r2]
        pieces_out(t, ps1, seen, r1) && pieces_out(t, ps2, seen_after(t, ps1, seen), r2) && r == r1
            + r2
}

proof fn lemma_pieces_out_concat(
    t: Seq<char>,
    ps1: Seq<Piece>,
    ps2: Seq<Piece>,
    seen: Seq<Seq<char>>,
)
    ensures
        forall|r: Seq<char>| #[trigger] pieces_out(t, ps1 + ps2, seen, r) == out_in_two(t, ps1, ps2, seen, r),
        seen_after(t, ps1 + ps2, seen) == seen_after(t, ps2, seen_after(t, ps1, seen)),
    decreases ps2.len(),
{
    let s1 = seen_after(t, ps1, seen);
    let e = Seq::<char>::empty();
    if ps2.len() == 0 {
        assert(ps1 + ps2 == ps1);
        assert forall|r: Seq<char>| #[trigger] pieces_out(t, ps1 + ps2, seen, r) == out_in_two(
            t,
            ps1,
            ps2,
            seen,
            r,
        ) by {
            if pieces_out(t, ps1, seen, r) {
                assert(pieces_out(t, ps2, s1, e));
                assert(r == r + e);
            }
            if out_in_two(t, ps1, ps2, seen, r) {
                let (r1, r2) = choose|r1: Seq<char>, r2: Seq<char>|
                    #![trigger r1 + r2]
                    pieces_out(t, ps1, seen, r1) && pieces_out(t, ps2, s1, r2) && r == r1 + r2;
                assert(r2 == e);
                assert(r == r1);
            }
        }
    } else {
        let q = ps1 + ps2;
        let d2 = ps2.drop_last();
        assert(q.drop_last() == ps1 + d2);
        assert(q.last() == ps2.last());
        lemma_pieces_out_concat(t, ps1, d2, seen);
        let mid = seen_after(t, d2, s1);
        assert(seen_after(t, q, seen) == piece_seen(t, ps2.last(), mid));
        assert forall|r: Seq<char>| #[trigger] pieces_out(t, q, seen, r) == out_in_two(
            t,
            ps1,
            ps2,
            seen,
            r,
        ) by {
            if pieces_out(t, q, seen, r) {
                let (pre, o) = choose|pre: Seq<char>, o: Seq<char>|
                    #![trigger pre + o]
                    pieces_out(t, q.drop_last(), seen, pre) && piece_out(
                        t,
                        q.last(),
                        seen_after(t, q.drop_last(), seen),
                        o,
                    ) && r == pre + o;
                assert(out_in_two(t, ps1, d2, seen, pre));
                let (r1, r2) = choose|r1: Seq<char>, r2: Seq<char>|
                    #![trigger r1 + r2]
                    pieces_out(t, ps1, seen, r1) && pieces_out(t, d2, s1, r2) && pre == r1 + r2;
                assert(pieces_out(t, d2, s1, r2) && piece_out(t, ps2.last(), mid, o) && r2 + o
                    == r2 + o);
                assert(pieces_out(t, ps2, s1, r2 + o));
                assert(r == r1 + (r2 + o));
            }
            if out_in_two(t, ps1, ps2, seen, r) {
                let (r1, r2) = choose|r1: Seq<char>, r2: Seq<char>|
                    #![trigger r1 + r2]
                    pieces_out(t, ps1, seen, r1) && pieces_out(t, ps2, s1, r2) && r == r1 + r2;
                let (pre2, o) = choose|pre2: Seq<char>, o: Seq<char>|
                    #![trigger pre2 + o]
                    pieces_out(t, d2, s1, pre2) && piece_out(t, ps2.last(), mid, o) && r2 == pre2
                        + o;
                assert(pieces_out(t, ps1, seen, r1) && pieces_out(t, d2, s1, pre2) && r1 + pre2
                    == r1 + pre2);
                assert(out_in_two(t, ps1, d2, seen, r1 + pre2));
                assert(pieces_out(t, q.drop_last(), seen, r1 + pre2));
                assert(r == (r1 + pre2) + o);
            }
        }
    }
}


proof fn lemma_single_piece(t: Seq<char>, p: Piece, seen: Seq<Seq<char>>)
    ensures
        forall|r: Seq<char>| #[trigger] pieces_out(t, seq![p], seen, r) == piece_out(t, p, seen, r),
        seen_after(t, seq![p], seen) == piece_seen(t, p, seen),
{
    let ps = seq![p];
    let e = Seq::<char>::empty();
    assert(ps.drop_last() == Seq::<Piece>::empty());
    assert(ps.last() == p);
    assert(seen_after(t, ps.drop_last(), seen) == seen);
    assert(seen_after(t, ps, seen) == piece_seen(t, ps.last(), seen_after(t, ps.drop_last(), seen)));
    assert forall|r: Seq<char>| #[trigger] pieces_out(t, ps, seen, r) == piece_out(t, p, seen, r) by {
        if piece_out(t, p, seen, r) {
            assert(pieces_out(t, ps.drop_last(), seen, e));
            assert(e + r == r);
        }
        if pieces_out(t, ps, seen, r) {
            let (pre, o) = choose|pre: Seq<char>, o: Seq<char>|
                #![trigger pre + o]
                pieces_out(t, ps.drop_last(), seen, pre) && piece_out(
                    t,
                    ps.last(),
                    seen_after(t, ps.drop_last(), seen),
                    o,
                ) && r == pre + o;
            assert(pre == e);
            assert(r == o);
        }
    }
}

proof fn lemma_char_pos_same(t: Seq<char>, c: char, i: int, m: int)
    requires
        0 <= i <= m <= t.len(),
        forall|j: int| i <= j < m ==> t[j] != c,
    ensures
        char_pos(t, c, i) == char_pos(t, c, m),
    decreases m - i,
{
    if i < m {
        lemma_char_pos_same(t, c, i + 1, m);
    }
}

/// Styling `x` is its run before the first `[`, then the pieces from there.
proof fn lemma_styled_head(x: Seq<char>, seen: Seq<Seq<char>>)
    ensures
        forall|r: Seq<char>|
            #[trigger] styled(x, seen, r) == exists|r2: Seq<char>|
                #![trigger x.take(char_pos(x, '[', 0)) + r2]
                pieces_out(x, pieces_from(x, char_pos(x, '[', 0)), seen, r2) && r == x.take(
                    char_pos(x, '[', 0),
                ) + r2,
        styled_seen(x, seen) == seen_after(x, pieces_from(x, char_pos(x, '[', 0)), seen),
{
    let k = char_pos(x, '[', 0);
    lemma_char_pos_bounds(x, '[', 0);
    let rest = pieces_from(x, k);
    if k == 0 {
        assert(x.take(0) == Seq::<char>::empty());
        assert forall|r: Seq<char>|
            #[trigger] styled(x, seen, r) == exists|r2: Seq<char>|
                #![trigger x.take(k) + r2]
                pieces_out(x, rest, seen, r2) && r == x.take(k) + r2 by {
            if styled(x, seen, r) {
                assert(x.take(k) + r == r);
            }
        }
    } else {
        lemma_pieces_from_unfold(x, 0);
        let p = Piece::Text(0, k);
        assert(piece_at(x, 0) == p);
        assert(pieces(x) == seq![p] + rest);
        lemma_pieces_out_concat(x, seq![p], rest, seen);
        lemma_single_piece(x, p, seen);
        assert(piece_seen(x, p, seen) == seen);
        assert(x.subrange(0, k) == x.take(k));
        assert forall|r: Seq<char>|
            #[trigger] styled(x, seen, r) == exists|r2: Seq<char>|
                #![trigger x.take(k) + r2]
                pieces_out(x, rest, seen, r2) && r == x.take(k) + r2 by {
            if styled(x, seen, r) {
                assert(out_in_two(x, seq![p], rest, seen, r));
                let (r1, r2) = choose|r1: Seq<char>, r2: Seq<char>|
                    #![trigger r1 + r2]
                    pieces_out(x, seq![p], seen, r1) && pieces_out(
                        x,
                        rest,
                        seen_after(x, seq![p], seen),
                        r2,
                    ) && r == r1 + r2;
                assert(piece_out(x, p, seen, r1));
                assert(r1 == x.take(k));
            }
            if exists|r2: Seq<char>|
                #![trigger x.take(k) + r2]
                pieces_out(x, rest, seen, r2) && r == x.take(k) + r2 {
                let r2 = choose|r2: Seq<char>|
                    #![trigger x.take(k) + r2]
                    pieces_out(x, rest, seen, r2) && r == x.take(k) + r2;
                assert(piece_out(x, p, seen, x.take(k)));
                assert(pieces_out(x, seq![p], seen, x.take(k)));
                assert(out_in_two(x, seq![p], rest, seen, r));
            }
        }
    }
}

/// Text before the first `[` is copied as it is: styling `a + b`, where `a`
/// holds no `[`, gives `a` followed by what styling `b` gives, and notes the
/// same URLs.
pub proof fn lemma_styled_plain_prefix(a: Seq<char>, b: Seq<char>, seen: Seq<Seq<char>>)
    requires
        !has_char(a, '['),
    ensures
        forall|r: Seq<char>|
            #[trigger] styled(a + b, seen, r) == exists|r2: Seq<char>|
                #![trigger a + r2]
                styled(b, seen, r2) && r == a + r2,
        styled_seen(a + b, seen) == styled_seen(b, seen),
{
    let t = a + b;
    let n = a.len() as int;
    assert(t.skip(n) == b);
    let kb = char_pos(b, '[', 0);
    lemma_char_pos_bounds(b, '[', 0);
    lemma_char_pos_shift(t, '[', n, n);
    assert forall|j: int| 0 <= j < n implies t[j] != '[' by {
        assert(t[j] == a[j]);
    }
    lemma_char_pos_same(t, '[', 0, n);
    let k = char_pos(t, '[', 0);
    assert(k == n + kb);
    assert(t.take(k) == a + b.take(kb));
    lemma_pieces_from_shift(t, n, k);
    lemma_pieces_within(b, kb);
    lemma_pieces_shift(t, n, pieces_from(b, kb), seen);
    lemma_styled_head(t, seen);
    lemma_styled_head(b, seen);
    assert forall|r: Seq<char>|
        #[trigger] styled(t, seen, r) == exists|r2: Seq<char>|
            #![trigger a + r2]
            styled(b, seen, r2) && r == a + r2 by {
        if styled(t, seen, r) {
            let r2 = choose|r2: Seq<char>|
                #![trigger t.take(k) + r2]
                pieces_out(t, pieces_from(t, k), seen, r2) && r == t.take(k) + r2;
            assert(pieces_out(b, pieces_from(b, kb), seen, r2));
            assert(styled(b, seen, b.take(kb) + r2));
            assert(r == a + (b.take(kb) + r2));
        }
        if exists|r2: Seq<char>| #![trigger a + r2] styled(b, seen, r2) && r == a + r2 {
            let rb = choose|r2: Seq<char>| #![trigger a + r2] styled(b, seen, r2) && r == a + r2;
            let r2 = choose|r2: Seq<char>|
                #![trigger b.take(kb) + r2]
                pieces_out(b, pieces_from(b, kb), seen, r2) && rb == b.take(kb) + r2;
            assert(pieces_out(t, pieces_from(t, k), seen, r2));
            assert(r == t.take(k) + r2);
        }
    }
}


/// Styling a `[` that is never closed gives back that `[` and the rest of
/// the text as they are, and notes no URL.
proof fn lemma_styled_open_rest(s: Seq<char>, seen: Seq<Seq<char>>)
    requires
        never_overclosed(s, '[', ']'),
    ensures
        forall|r: Seq<char>| #[trigger] styled(seq!['['] + s, seen, r) == (r == seq!['['] + s),
        styled_seen(seq!['['] + s, seen) == seen,
{
    let x = seq!['['] + s;
    let n = x.len() as int;
    assert(x.subrange(1, 1 + s.len() as int) == s);
    lemma_close_walk(x, '[', ']', 1, s, s.len() as int);
    assert(matching_close(x, '[', ']', n, 1 + depth_after(s, '[', ']', s.len() as int)) is None);
    let p = Piece::Unclosed(0);
    assert(piece_at(x, 0) == p);
    assert(pieces_from(x, n) == Seq::<Piece>::empty());
    assert(pieces(x) == seq![p]);
    lemma_single_piece(x, p, seen);
    assert(x.subrange(0, n) == x);
}

/// A `[` that is never closed, after text without `[`: the whole text is
/// given back as it is, brackets inside the unclosed part included, and no
/// URL is noted.
pub proof fn lemma_styled_unclosed(a: Seq<char>, s: Seq<char>, seen: Seq<Seq<char>>)
    requires
        !has_char(a, '['),
        never_overclosed(s, '[', ']'),
    ensures
        forall|r: Seq<char>|
            #[trigger] styled(a + seq!['['] + s, seen, r) == (r == a + seq!['['] + s),
        styled_seen(a + seq!['['] + s, seen) == seen,
{
    let x = seq!['['] + s;
    assert(a + seq!['['] + s == a + x);
    lemma_styled_plain_prefix(a, x, seen);
    lemma_styled_open_rest(s, seen);
    assert forall|r: Seq<char>|
        #[trigger] styled(a + x, seen, r) == (r == a + x) by {
        if r == a + x {
            assert(styled(x, seen, x));
        }
    }
}

/// `r` is what styling the bracketed part `[`, `s`, `]` may give, starting
/// with the noted URLs `seen`.
pub open spec fn group_out(s: Seq<char>, seen: Seq<Seq<char>>, r: Seq<char>) -> bool {
    piece_out(seq!['['] + s + seq![']'], Piece::Bracket(0, s.len() + 1int), seen, r)
}

/// The noted URLs after styling the bracketed part `[`, `s`, `]`.
pub open spec fn group_seen(s: Seq<char>, seen: Seq<Seq<char>>) -> Seq<Seq<char>> {
    piece_seen(seq!['['] + s + seq![']'], Piece::Bracket(0, s.len() + 1int), seen)
}

proof fn lemma_group_piece(s: Seq<char>, t2: Seq<char>, seen: Seq<Seq<char>>)
    ensures
        forall|r: Seq<char>|
            #[trigger] piece_out(
                seq!['['] + s + seq![']'] + t2,
                Piece::Bracket(0, s.len() + 1int),
                seen,
                r,
            ) == group_out(s, seen, r),
        piece_seen(seq!['['] + s + seq![']'] + t2, Piece::Bracket(0, s.len() + 1int), seen)
            == group_seen(s, seen),
{
    let g = seq!['['] + s + seq![']'];
    let t = g + t2;
    let c: int = s.len() + 1int;
    assert(t.subrange(1, c) == s);
    assert(g.subrange(1, c) == s);
}

/// A bracketed part whose brackets balance, at the head of the text, is
/// styled as a whole; the rest of the text is styled after it, with the URLs
/// that the part noted.
pub proof fn lemma_styled_group(s: Seq<char>, t2: Seq<char>, seen: Seq<Seq<char>>)
    requires
        balanced(s, '[', ']'),
    ensures
        forall|r: Seq<char>|
            #[trigger] styled(seq!['['] + s + seq![']'] + t2, seen, r) == exists|
                r1: Seq<char>,
                r2: Seq<char>,
            |
                #![trigger r1 + r2]
                group_out(s, seen, r1) && styled(t2, group_seen(s, seen), r2) && r == r1 + r2,
        styled_seen(seq!['['] + s + seq![']'] + t2, seen) == styled_seen(t2, group_seen(s, seen)),
{
    let t = seq!['['] + s + seq![']'] + t2;
    let c: int = s.len() + 1int;
    let e: int = c + 1;
    assert(t.subrange(1, 1 + s.len() as int) == s);
    lemma_close_walk(t, '[', ']', 1, s, s.len() as int);
    assert(t[c] == ']');
    assert(matching_close(t, '[', ']', c, 1) == Some(c));
    let p = Piece::Bracket(0, c);
    assert(piece_at(t, 0) == p);
    lemma_pieces_from_unfold(t, 0);
    let rest = pieces_from(t, e);
    assert(pieces(t) == seq![p] + rest);
    assert(t.skip(e) == t2);
    lemma_pieces_from_shift(t, e, e);
    assert(rest == shift_pieces(pieces(t2), e));
    lemma_pieces_within(t2, 0);
    lemma_group_piece(s, t2, seen);
    let s1 = group_seen(s, seen);
    lemma_pieces_shift(t, e, pieces(t2), s1);
    lemma_single_piece(t, p, seen);
    lemma_pieces_out_concat(t, seq![p], rest, seen);
    assert(seen_after(t, seq![p], seen) == s1);
    assert forall|r: Seq<char>|
        #[trigger] styled(t, seen, r) == exists|r1: Seq<char>, r2: Seq<char>|
            #![trigger r1 + r2]
            group_out(s, seen, r1) && styled(t2, s1, r2) && r == r1 + r2 by {
        if styled(t, seen, r) {
            assert(out_in_two(t, seq![p], rest, seen, r));
            let (r1, r2) = choose|r1: Seq<char>, r2: Seq<char>|
                #![trigger r1 + r2]
                pieces_out(t, seq![p], seen, r1) && pieces_out(
                    t,
                    rest,
                    seen_after(t, seq![p], seen),
                    r2,
                ) && r == r1 + r2;
            assert(piece_out(t, p, seen, r1));
            assert(group_out(s, seen, r1));
            assert(styled(t2, s1, r2));
        }
        if exists|r1: Seq<char>, r2: Seq<char>|
            #![trigger r1 + r2]
            group_out(s, seen, r1) && styled(t2, s1, r2) && r == r1 + r2 {
            let (r1, r2) = choose|r1: Seq<char>, r2: Seq<char>|
                #![trigger r1 + r2]
                group_out(s, seen, r1) && styled(t2, s1, r2) && r == r1 + r2;
            assert(piece_out(t, p, seen, r1));
            assert(pieces_out(t, seq![p], seen, r1));
            assert(pieces_out(t, rest, s1, r2));
            assert(out_in_two(t, seq![p], rest, seen, r));
        }
    }
}

/// What styling a link marker may give: its displayed text, styled in
/// turn, underlined, then the title note, dimmed, when there is one.
pub open spec fn link_out(url: Seq<char>, display: Seq<char>, seen: Seq<Seq<char>>, r: Seq<char>) -> bool {
    exists|d: Seq<char>, u: Seq<char>|
        #![trigger paints(Paint::Underline, d, u)]
        styled(display, seen, d) && paints(Paint::Underline, d, u) && match title_note(
            url,
            display,
            styled_seen(display, seen),
        ) {
            Some(note) => exists|n: Seq<char>| paints(Paint::Dimmed, note, n) && r == u + n,
            None => r == u,
        }
}

/// The noted URLs after styling a link marker: those its displayed text
/// noted, and its URL when a title note was written for it.
pub open spec fn link_seen(url: Seq<char>, display: Seq<char>, seen: Seq<Seq<char>>) -> Seq<
    Seq<char>,
> {
    let seen1 = styled_seen(display, seen);
    if title_note(url, display, seen1) is Some {
        seen1.push(url)
    } else {
        seen1
    }
}

/// A bracketed part that does not start with `\x01` shows its content,
/// styled in turn, underlined, without the brackets.
pub proof fn lemma_group_plain(s: Seq<char>, seen: Seq<Seq<char>>)
    requires
        !(s.len() > 0 && s[0] == '\x01'),
    ensures
        forall|r: Seq<char>|
            #[trigger] group_out(s, seen, r) == exists|d: Seq<char>|
                #![trigger paints(Paint::Underline, d, r)]
                styled(s, seen, d) && paints(Paint::Underline, d, r),
        group_seen(s, seen) == styled_seen(s, seen),
{
    let g = seq!['['] + s + seq![']'];
    assert(g.subrange(1, s.len() + 1int) == s);
    assert(marker_parts(s) is None);
}

/// A bracketed part that starts with `\x01` but holds no second one is
/// underlined as it is, and notes no URL.
pub proof fn lemma_group_unpaired(s: Seq<char>, seen: Seq<Seq<char>>)
    requires
        s.len() > 0,
        s[0] == '\x01',
        !has_char(s.drop_first(), '\x01'),
    ensures
        forall|r: Seq<char>| #[trigger] group_out(s, seen, r) == paints(Paint::Underline, s, r),
        group_seen(s, seen) == seen,
{
    let g = seq!['['] + s + seq![']'];
    assert(g.subrange(1, s.len() + 1int) == s);
    lemma_char_pos_absent(s.drop_first(), '\x01', 0);
    assert(marker_parts(s) is None);
}

/// The bracketed part of a link marker, `\x01`, the URL, `\x01`, the
/// displayed text, is styled as that link.
pub proof fn lemma_group_link(url: Seq<char>, display: Seq<char>, seen: Seq<Seq<char>>)
    requires
        !has_char(url, '\x01'),
    ensures
        forall|r: Seq<char>|
            #[trigger] group_out(seq!['\x01'] + url + seq!['\x01'] + display, seen, r)
                == link_out(url, display, seen, r),
        group_seen(seq!['\x01'] + url + seq!['\x01'] + display, seen) == link_seen(
            url,
            display,
            seen,
        ),
{
    let x = seq!['\x01'];
    let s = x + url + x + display;
    let g = seq!['['] + s + seq![']'];
    assert(g.subrange(1, s.len() + 1int) == s);
    let rest = s.drop_first();
    assert(rest == url + x + display);
    assert forall|j: int| 0 <= j < url.len() implies rest[j] != '\x01' by {
        assert(rest[j] == url[j]);
    }
    lemma_char_pos_prefix(rest, url.len() as int);
    assert(rest.take(url.len() as int) == url);
    assert(rest.skip(url.len() + 1int) == display);
    assert(marker_parts(s) == Some((url, display)));
}

/// A link marker whose brackets balance, at the head of the text, is shown
/// as its link; the rest of the text is styled after it, with the URLs that
/// the link noted.
pub proof fn lemma_styled_link(
    url: Seq<char>,
    display: Seq<char>,
    t2: Seq<char>,
    seen: Seq<Seq<char>>,
)
    requires
        !has_char(url, '\x01'),
        balanced(seq!['\x01'] + url + seq!['\x01'] + display, '[', ']'),
    ensures
        forall|r: Seq<char>|
            #[trigger] styled(marker(url, display) + t2, seen, r) == exists|r1: Seq<char>, r2: Seq<char>|
                #![trigger r1 + r2]
                link_out(url, display, seen, r1) && styled(t2, link_seen(url, display, seen), r2)
                    && r == r1 + r2,
        styled_seen(marker(url, display) + t2, seen) == styled_seen(t2, link_seen(url, display, seen)),
{
    let s = seq!['\x01'] + url + seq!['\x01'] + display;
    assert(marker(url, display) + t2 == seq!['['] + s + seq![']'] + t2);
    lemma_styled_group(s, t2, seen);
    lemma_group_link(url, display, seen);
}

/// The head of a link marker: `[`, `\x01`, the URL, `\x01`.
pub open spec fn marker_head(url: Seq<char>) -> Seq<char> {
    seq!['[', '\x01'] + url + seq!['\x01']
}

/// The head of a link marker for `url` occurs in `t`.
pub open spec fn marked_in(t: Seq<char>, url: Seq<char>) -> bool {
    exists|k: int| #[trigger] occurs_at(t, marker_head(url), k)
}

/// A bracketed piece starts at a `[` of the text.
spec fn opens_at(t: Seq<char>, p: Piece) -> bool {
    match p {
        Piece::Bracket(o, _) => 0 <= o < t.len() && t[o] == '[',
        _ => true,
    }
}

proof fn lemma_pieces_open(t: Seq<char>, i: int)
    requires
        0 <= i,
    ensures
        forall|m: int|
            0 <= m < pieces_from(t, i).len() ==> opens_at(t, #[trigger] pieces_from(t, i)[m]),
    decreases t.len() - i,
{
    if i < t.len() {
        lemma_pieces_from_unfold(t, i);
        let j = piece_end(t, piece_at(t, i));
        lemma_pieces_open(t, j);
        assert forall|m: int| 0 <= m < pieces_from(t, i).len() implies opens_at(
            t,
            #[trigger] pieces_from(t, i)[m],
        ) by {
            if m > 0 {
                assert(pieces_from(t, i)[m] == pieces_from(t, j)[m - 1]);
            }
        }
    }
}

proof fn lemma_marked_in_part(t: Seq<char>, a: int, b: int, url: Seq<char>)
    requires
        0 <= a <= b <= t.len(),
        marked_in(t.subrange(a, b), url),
    ensures
        marked_in(t, url),
{
    let sub = t.subrange(a, b);
    let h = marker_head(url);
    let k = choose|k: int| #[trigger] occurs_at(sub, h, k);
    assert(t.subrange(a + k, a + k + h.len()) == sub.subrange(k, k + h.len()));
    assert(occurs_at(t, h, a + k));
}

proof fn lemma_seen_after_marked(t: Seq<char>, ps: Seq<Piece>, seen: Seq<Seq<char>>)
    requires
        forall|m: int| 0 <= m < ps.len() ==> opens_at(t, #[trigger] ps[m]),
    ensures
        forall|x: Seq<char>|
            #[trigger] seen_after(t, ps, seen).contains(x) && !seen.contains(x) ==> marked_in(t, x),
    decreases t.len(), ps.len(),
{
    if ps.len() > 0 {
        let d = ps.drop_last();
        assert forall|m: int| 0 <= m < d.len() implies opens_at(t, #[trigger] d[m]) by {
            assert(d[m] == ps[m]);
        }
        lemma_seen_after_marked(t, d, seen);
        let mid = seen_after(t, d, seen);
        lemma_piece_seen_marked(t, ps.last(), mid);
        assert forall|x: Seq<char>|
            #[trigger] seen_after(t, ps, seen).contains(x) && !seen.contains(x) implies marked_in(
            t,
            x,
        ) by {
            if mid.contains(x) {
                assert(seen_after(t, d, seen).contains(x));
            } else {
                assert(piece_seen(t, ps.last(), mid).contains(x));
            }
        }
    }
}

proof fn lemma_piece_seen_marked(t: Seq<char>, p: Piece, seen: Seq<Seq<char>>)
    requires
        opens_at(t, p),
    ensures
        forall|x: Seq<char>|
            #[trigger] piece_seen(t, p, seen).contains(x) && !seen.contains(x) ==> marked_in(t, x),
    decreases t.len(), 0int,
{
    match p {
        Piece::Bracket(o, c) => if 0 <= o < c < t.len() {
            let inner = t.subrange(o + 1, c);
            match marker_parts(inner) {
                Some((url, display)) => if display.len() < inner.len() {
                    let rest = inner.drop_first();
                    let sep = char_pos(rest, '\x01', 0);
                    lemma_char_pos_bounds(rest, '\x01', 0);
                    assert(url == rest.take(sep));
                    assert(display == rest.skip(sep + 1));
                    assert(display == t.subrange(o + sep + 3, c));
                    lemma_pieces_open(display, 0);
                    lemma_seen_after_marked(display, pieces(display), seen);
                    let s1 = seen_after(display, pieces(display), seen);
                    assert forall|x: Seq<char>|
                        #[trigger] s1.contains(x) && !seen.contains(x) implies marked_in(t, x) by {
                        lemma_marked_in_part(t, o + sep + 3, c, x);
                    }
                    if title_note(url, display, s1) is Some {
                        assert(piece_seen(t, p, seen) == s1.push(url));
                        let h = marker_head(url);
                        assert(t.subrange(o, o + h.len()) == h);
                        assert(occurs_at(t, h, o));
                        assert forall|x: Seq<char>|
                            #[trigger] s1.push(url).contains(x) && !seen.contains(x) implies marked_in(
                            t,
                            x,
                        ) by {
                            if x != url {
                                let i = choose|i: int| 0 <= i < s1.push(url).len() && s1.push(url)[i] == x;
                                assert(s1[i] == x);
                                assert(s1.contains(x));
                            } else {
                                assert(occurs_at(t, marker_head(x), o));
                            }
                        }
                    } else {
                        assert(piece_seen(t, p, seen) == s1);
                    }
                },
                None => if !(inner.len() > 0 && inner[0] == '\x01') {
                    lemma_pieces_open(inner, 0);
                    lemma_seen_after_marked(inner, pieces(inner), seen);
                    assert(piece_seen(t, p, seen) == seen_after(inner, pieces(inner), seen));
                    assert forall|x: Seq<char>|
                        #[trigger] seen_after(inner, pieces(inner), seen).contains(x) && !seen.contains(x)
                        implies marked_in(t, x) by {
                        lemma_marked_in_part(t, o + 1, c, x);
                    }
                },
            }
        },
        _ => {},
    }
}

/// Every URL that `style_links` adds to the noted ones is the URL of a link
/// marker in the text.
pub proof fn lemma_styled_seen_marked(t: Seq<char>, seen: Seq<Seq<char>>)
    ensures
        forall|x: Seq<char>|
            #[trigger] styled_seen(t, seen).contains(x) && !seen.contains(x) ==> marked_in(t, x),
{
    lemma_pieces_open(t, 0);
    lemma_seen_after_marked(t, pieces(t), seen);
}

/// The number of title notes that styling the pieces `ps` of `t` writes,
/// starting with the noted URLs `seen`.
pub open spec fn notes_after(t: Seq<char>, ps: Seq<Piece>, seen: Seq<Seq<char>>) -> nat
    decreases t.len(), ps.len(),
{
    if ps.len() == 0 {
        0
    } else {
        notes_after(t, ps.drop_last(), seen) + piece_notes(
            t,
            ps.last(),
            seen_after(t, ps.drop_last(), seen),
        )
    }
}

/// The number of title notes that styling the piece `p` of `t` writes: one
/// for a link marker whose `title_note` is there, besides those of the text
/// inside it.
pub open spec fn piece_notes(t: Seq<char>, p: Piece, seen: Seq<Seq<char>>) -> nat
    decreases t.len(), 0int,
{
    match p {
        Piece::Bracket(o, c) => if 0 <= o < c < t.len() {
            let inner = t.subrange(o + 1, c);
            match marker_parts(inner) {
                Some((url, display)) => if display.len() < inner.len() {
                    let seen1 = seen_after(display, pieces(display), seen);
                    notes_after(display, pieces(display), seen) + if title_note(
                        url,
                        display,
                        seen1,
                    ) is Some {
                        1nat
                    } else {
                        0nat
                    }
                } else {
                    0
                },
                None => if inner.len() > 0 && inner[0] == '\x01' {
                    0
                } else {
                    notes_after(inner, pieces(inner), seen)
                },
            }
        } else {
            0
        },
        _ => 0,
    }
}

proof fn lemma_seen_after_count(t: Seq<char>, ps: Seq<Piece>, seen: Seq<Seq<char>>)
    ensures
        seen_after(t, ps, seen).len() == seen.len() + notes_after(t, ps, seen),
    decreases t.len(), ps.len(),
{
    if ps.len() > 0 {
        lemma_seen_after_count(t, ps.drop_last(), seen);
        lemma_piece_seen_count(t, ps.last(), seen_after(t, ps.drop_last(), seen));
    }
}

proof fn lemma_piece_seen_count(t: Seq<char>, p: Piece, seen: Seq<Seq<char>>)
    ensures
        piece_seen(t, p, seen).len() == seen.len() + piece_notes(t, p, seen),
    decreases t.len(), 0int,
{
    match p {
        Piece::Bracket(o, c) => if 0 <= o < c < t.len() {
            let inner = t.subrange(o + 1, c);
            match marker_parts(inner) {
                Some((url, display)) => if display.len() < inner.len() {
                    lemma_seen_after_count(display, pieces(display), seen);
                },
                None => if !(inner.len() > 0 && inner[0] == '\x01') {
                    lemma_seen_after_count(inner, pieces(inner), seen);
                },
            }
        },
        _ => {},
    }
}

/// `style_links` notes one URL for each title note it writes, and no other.
pub proof fn lemma_styled_seen_count(t: Seq<char>, seen: Seq<Seq<char>>)
    ensures
        styled_seen(t, seen).len() == seen.len() + notes_after(t, pieces(t), seen),
{
    lemma_seen_after_count(t, pieces(t), seen);
}

/// A URL already noted gets no title note again, however many URLs are
/// noted after it.
pub proof fn lemma_noted_url_gets_no_note(
    url: Seq<char>,
    display: Seq<char>,
    seen: Seq<Seq<char>>,
    later: Seq<Seq<char>>,
)
    requires
        seen.contains(url),
        extends(seen, later),
    ensures
        title_note(url, display, later) is None,
{
    let i = choose|i: int| 0 <= i < seen.len() && seen[i] == url;
    assert(later.take(seen.len() as int)[i] == url);
    assert(later[i] == url);
}

/// Folding a text folds its parts one after the other.
pub proof fn lemma_folded_append(a: Seq<char>, b: Seq<char>)
    ensures
        folded(a + b) == folded(a) + folded(b),
    decreases b.len(),
{
    if b.len() == 0 {
        assert(a + b == a);
        assert(folded(a) + Seq::<char>::empty() == folded(a));
    } else {
        assert((a + b).drop_last() == a + b.drop_last());
        assert((a + b).last() == b.last());
        lemma_folded_append(a, b.drop_last());
    }
}

/// Folding drops whitespace and puts every other character through
/// Unicode's lowercase mapping (`char::to_lowercase`), ASCII or not.
pub proof fn lemma_folded_push(s: Seq<char>, c: char)
    ensures
        !is_ws(c) ==> folded(s.push(c)) == folded(s) + lowercase_of(c),
        is_ws(c) ==> folded(s.push(c)) == folded(s),
{
    assert(s.push(c).drop_last() == s);
    assert(s.push(c).last() == c);
    assert(folded(s) + Seq::<char>::empty() == folded(s));
}

/// Two texts of the same length whose characters, place by place, are equal
/// or are non-whitespace characters with the same lowercase mapping, fold
/// alike: titles that differ only in case (such as `État` and `état`) match.
pub proof fn lemma_folded_ignores_case(a: Seq<char>, b: Seq<char>)
    requires
        a.len() == b.len(),
        forall|i: int|
            0 <= i < a.len() ==> a[i] == b[i] || (!is_ws(a[i]) && !is_ws(b[i]) && lowercase_of(
                a[i],
            ) == lowercase_of(b[i])),
    ensures
        folded(a) == folded(b),
    decreases a.len(),
{
    if a.len() > 0 {
        let n = a.len() - 1;
        assert(a.drop_last().len() == b.drop_last().len());
        assert forall|i: int| 0 <= i < a.drop_last().len() implies a.drop_last()[i] == b.drop_last()[i]
            || (!is_ws(a.drop_last()[i]) && !is_ws(b.drop_last()[i]) && lowercase_of(
            a.drop_last()[i],
        ) == lowercase_of(b.drop_last()[i])) by {
            assert(a.drop_last()[i] == a[i]);
            assert(b.drop_last()[i] == b[i]);
        }
        lemma_folded_ignores_case(a.drop_last(), b.drop_last());
        assert(a.last() == a[n]);
        assert(b.last() == b[n]);
    }
}

/// A URL whose title lies in one of the namespaces `File:`, `Category:`,
/// `Special:`, `Wikipedia:`, `Help:`, `Template:`, `Template talk:`, `Talk:`
/// or `Portal:` names no article.
pub proof fn lemma_namespace_names_no_article(url: Seq<char>, path: Seq<char>)
    requires
        url_article_path(url) == Some(path),
        starts_with_spec(path_title(path), "File:"@) || starts_with_spec(
            path_title(path),
            "Category:"@,
        ) || starts_with_spec(path_title(path), "Special:"@) || starts_with_spec(
            path_title(path),
            "Wikipedia:"@,
        ) || starts_with_spec(path_title(path), "Help:"@) || starts_with_spec(
            path_title(path),
            "Template:"@,
        ) || starts_with_spec(path_title(path), "Template talk:"@) || starts_with_spec(
            path_title(path),
            "Talk:"@,
        ) || starts_with_spec(path_title(path), "Portal:"@),
    ensures
        title_of_url(url) is None,
{
    lemma_title_of_url(url);
}

} // verus!
