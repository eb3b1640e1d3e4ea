//! Clean-up of rendered article text: reference markers, footnote lines,
//! table borders and cells, and headings.
use vstd::prelude::*;

use crate::paint::{
    bold, bold_blue, bold_cyan, dimmed, escape_resets, painted, paints, reset_code, style_code,
    Paint,
};
use crate::text::{
    char_pos, chars_of, contains_char, find_char, find_from, find_seq, has_char, is_digit,
    is_whitespace, is_ws, join, join_spec, lemma_char_pos_absent, lemma_char_pos_bounds, lemma_char_pos_shift,
    lemma_concat_lacks, lemma_find_first, lemma_find_from_bounds, lemma_find_from_shift,
    lemma_join_lacks, lemma_lines_lack_newline, lemma_split_parts_lack, lemma_subrange_lacks,
    lemma_trim_lacks, lines, lines_spec, non_empty, occurs_at, push_all, push_range, slice_of,
    split, split_spec, starts_with, starts_with_spec, string_of, trim, trim_each, trim_end,
    trim_end_spec, trim_spec, trim_start, trim_start_spec, views,
};

verus! {

// ---------------------------------------------------------------------------
// Bracket matching
// ---------------------------------------------------------------------------
/// Scanning `s` from index `k` with `depth` brackets open, the index at which
/// the depth falls to zero (`open` raises it, `close` lowers it).
pub open spec fn matching_close(s: Seq<char>, open: char, close: char, k: int, depth: int) -> Option<
    int,
>
    decreases s.len() - k,
{
    if k < 0 || k >= s.len() {
        None
    } else {
        let d = if s[k] == open {
            depth + 1
        } else if s[k] == close {
            depth - 1
        } else {
            depth
        };
        if d == 0 {
            Some(k)
        } else {
            matching_close(s, open, close, k + 1, d)
        }
    }
}

pub proof fn lemma_matching_close_bounds(s: Seq<char>, open: char, close: char, k: int, depth: int)
    requires
        0 <= k,
        depth >= 1,
        open != close,
    ensures
        matching_close(s, open, close, k, depth) matches Some(e) ==> k <= e < s.len() && s[e]
            == close,
    decreases s.len() - k,
{
    if k < s.len() {
        let d = if s[k] == open {
            depth + 1
        } else if s[k] == close {
            depth - 1
        } else {
            depth
        };
        if d != 0 {
            lemma_matching_close_bounds(s, open, close, k + 1, d);
        }
    }
}

/// Where the bracket opened just before `from` closes in `v`.
pub fn find_close(v: &Vec<char>, open: char, close: char, from: usize) -> (r: Option<usize>)
    requires
        1 <= from <= v.len(),
    ensures
        r == match matching_close(v@, open, close, from as int, 1) {
            Some(e) => Some(e as usize),
            None => None::<usize>,
        },
{
    let mut depth: usize = 1;
    let mut k = from;
    while k < v.len()
        invariant
            1 <= from <= k <= v.len(),
            1 <= depth <= k - from + 1,
            matching_close(v@, open, close, from as int, 1) == matching_close(
                v@,
                open,
                close,
                k as int,
                depth as int,
            ),
        decreases v.len() - k,
    {
        if v[k] == open {
            depth += 1;
        } else if v[k] == close {
            depth -= 1;
        }
        if depth == 0 {
            return Some(k);
        }
        k += 1;
    }
    None
}

// ---------------------------------------------------------------------------
// Superscript references "^{...}"
// ---------------------------------------------------------------------------
/// `s` from index `i` on, with every `^{...}` group (braces nested) removed;
/// a `^{` that never closes is kept as it is.
pub open spec fn strip_sup_from(s: Seq<char>, i: int) -> Seq<char>
    decreases s.len() - i,
{
    if i < 0 || i > s.len() {
        seq![]
    } else {
        match find_from(s, seq!['^', '{'], i) {
            None => s.subrange(i, s.len() as int),
            Some(p) => if i <= p && p + 2 <= s.len() {
                match matching_close(s, '{', '}', p + 2, 1) {
                    Some(e) => if p + 2 <= e < s.len() {
                        s.subrange(i, p) + strip_sup_from(s, e + 1)
                    } else {
                        seq![]
                    },
                    None => s.subrange(i, p) + seq!['^', '{'] + strip_sup_from(s, p + 2),
                }
            } else {
                seq![]
            },
        }
    }
}

/// `s` with its superscript groups removed.
pub open spec fn strip_sup_spec(s: Seq<char>) -> Seq<char> {
    strip_sup_from(s, 0)
}

/// How many more `open` than `close` characters the first `n` of `s` hold.
pub open spec fn depth_after(s: Seq<char>, open: char, close: char, n: int) -> int
    decreases n,
{
    if n <= 0 || n > s.len() {
        0
    } else {
        depth_after(s, open, close, n - 1) + if s[n - 1] == open {
            1int
        } else if s[n - 1] == close {
            -1int
        } else {
            0int
        }
    }
}

/// No prefix of `s` closes more than it opens.
pub open spec fn never_overclosed(s: Seq<char>, open: char, close: char) -> bool {
    forall|n: int| 0 <= n <= s.len() ==> depth_after(s, open, close, n) >= 0
}

/// `s` closes exactly what it opens, never more at any point.
pub open spec fn balanced(s: Seq<char>, open: char, close: char) -> bool {
    never_overclosed(s, open, close) && depth_after(s, open, close, s.len() as int) == 0
}

pub proof fn lemma_close_walk(t: Seq<char>, open: char, close: char, k0: int, b: Seq<char>, m: int)
    requires
        open != close,
        0 <= k0,
        k0 + b.len() <= t.len(),
        t.subrange(k0, k0 + b.len()) == b,
        0 <= m <= b.len(),
        never_overclosed(b, open, close),
    ensures
        matching_close(t, open, close, k0, 1) == matching_close(
            t,
            open,
            close,
            k0 + m,
            1 + depth_after(b, open, close, m),
        ),
    decreases m,
{
    if m > 0 {
        lemma_close_walk(t, open, close, k0, b, m - 1);
        assert(t[k0 + m - 1] == b[m - 1]);
        assert(depth_after(b, open, close, m) >= 0);
    }
}

/// Matching in `t` from `k` is matching in `t.skip(j)` from `k - j`, shifted.
pub proof fn lemma_matching_close_shift(
    t: Seq<char>,
    open: char,
    close: char,
    j: int,
    k: int,
    depth: int,
)
    requires
        0 <= j <= k,
        j <= t.len(),
    ensures
        matching_close(t, open, close, k, depth) == match matching_close(
            t.skip(j),
            open,
            close,
            k - j,
            depth,
        ) {
            Some(e) => Some(e + j),
            None => None::<int>,
        },
    decreases t.len() - k,
{
    if k < t.len() {
        assert(t[k] == t.skip(j)[k - j]);
        let d = if t[k] == open {
            depth + 1
        } else if t[k] == close {
            depth - 1
        } else {
            depth
        };
        if d != 0 {
            lemma_matching_close_shift(t, open, close, j, k + 1, d);
        }
    }
}

proof fn lemma_strip_sup_shift(t: Seq<char>, j: int, i: int)
    requires
        0 <= j <= i <= t.len(),
    ensures
        strip_sup_from(t, i) == strip_sup_from(t.skip(j), i - j),
    decreases t.len() - i,
{
    let u = t.skip(j);
    let pat = seq!['^', '{'];
    lemma_find_from_shift(t, pat, j, i);
    lemma_find_from_bounds(u, pat, i - j);
    match find_from(u, pat, i - j) {
        None => {
            assert(t.subrange(i, t.len() as int) == u.subrange(i - j, u.len() as int));
        },
        Some(q) => {
            let p = q + j;
            assert(t.subrange(i, p) == u.subrange(i - j, q));
            lemma_matching_close_shift(t, '{', '}', j, p + 2, 1);
            lemma_matching_close_bounds(u, '{', '}', q + 2, 1);
            match matching_close(u, '{', '}', q + 2, 1) {
                Some(e) => {
                    lemma_strip_sup_shift(t, j, e + j + 1);
                },
                None => {
                    lemma_strip_sup_shift(t, j, p + 2);
                },
            }
        },
    }
}

proof fn lemma_first_opener(a: Seq<char>, rest: Seq<char>)
    requires
        forall|j: int| !occurs_at(a, seq!['^', '{'], j),
    ensures
        find_from(a + seq!['^', '{'] + rest, seq!['^', '{'], 0) == Some(a.len() as int),
{
    let t = a + seq!['^', '{'] + rest;
    let pat = seq!['^', '{'];
    let n = a.len() as int;
    assert(t.subrange(n, n + 2) == pat);
    assert forall|j: int| 0 <= j < n implies !occurs_at(t, pat, j) by {
        if occurs_at(t, pat, j) {
            if j + 2 <= n {
                assert(a.subrange(j, j + 2) == t.subrange(j, j + 2));
                assert(occurs_at(a, pat, j));
            } else {
                assert(t.subrange(j, j + 2)[1] == t[n]);
            }
        }
    }
    lemma_find_first(t, pat, 0, n);
}

/// A superscript group whose braces balance is removed whole, however its
/// braces nest, and the text after it is cleaned in turn.
pub proof fn lemma_strip_sup_group(a: Seq<char>, b: Seq<char>, c: Seq<char>)
    requires
        forall|j: int| !occurs_at(a, seq!['^', '{'], j),
        balanced(b, '{', '}'),
    ensures
        strip_sup_spec(a + seq!['^', '{'] + b + seq!['}'] + c) == a + strip_sup_spec(c),
{
    let t = a + seq!['^', '{'] + b + seq!['}'] + c;
    let n = a.len() as int;
    assert(t == a + seq!['^', '{'] + (b + seq!['}'] + c));
    lemma_first_opener(a, b + seq!['}'] + c);
    let k0 = n + 2;
    assert(t.subrange(k0, k0 + b.len()) == b);
    lemma_close_walk(t, '{', '}', k0, b, b.len() as int);
    let e = k0 + b.len();
    assert(t[e] == '}');
    assert(matching_close(t, '{', '}', e, 1) == Some(e));
    assert(t.subrange(0, n) == a);
    lemma_strip_sup_shift(t, e + 1, e + 1);
    assert(t.skip(e + 1) == c);
}

/// A `^{` that never closes is kept, and the text after it is cleaned in
/// turn.
pub proof fn lemma_strip_sup_unclosed(a: Seq<char>, c: Seq<char>)
    requires
        forall|j: int| !occurs_at(a, seq!['^', '{'], j),
        never_overclosed(c, '{', '}'),
    ensures
        strip_sup_spec(a + seq!['^', '{'] + c) == a + seq!['^', '{'] + strip_sup_spec(c),
{
    let t = a + seq!['^', '{'] + c;
    let n = a.len() as int;
    lemma_first_opener(a, c);
    let k0 = n + 2;
    assert(t.subrange(k0, k0 + c.len()) == c);
    lemma_close_walk(t, '{', '}', k0, c, c.len() as int);
    assert(matching_close(t, '{', '}', k0 + c.len(), 1 + depth_after(c, '{', '}', c.len() as int))
        is None);
    assert(t.subrange(0, n) == a);
    lemma_strip_sup_shift(t, n + 2, n + 2);
    assert(t.skip(n + 2) == c);
}

/// Removes superscript groups `^{...}` from the text.
pub fn strip_superscript_refs(text: &str) -> (r: String)
    ensures
        r@ == strip_sup_spec(text@),
{
    let s = chars_of(text);
    let pat = vec!['^', '{'];
    let mut out: Vec<char> = Vec::new();
    let mut i: usize = 0;
    loop
        invariant
            i <= s.len(),
            s@ == text@,
            pat@ == seq!['^', '{'],
            out@ + strip_sup_from(s@, i as int) == strip_sup_spec(s@),
        decreases s.len() - i,
    {
        proof {
            lemma_find_from_bounds(s@, pat@, i as int);
        }
        match find_seq(&s, &pat, i) {
            None => {
                push_range(&mut out, &s, i, s.len());
                return string_of(&out);
            },
            Some(p) => {
                let ghost before = out@;
                push_range(&mut out, &s, i, p);
                proof {
                    lemma_matching_close_bounds(s@, '{', '}', p + 2, 1);
                }
                match find_close(&s, '{', '}', p + 2) {
                    Some(e) => {
                        i = e + 1;
                    },
                    None => {
                        out.push('^');
                        out.push('{');
                        assert(out@ == before + s@.subrange(i as int, p as int) + seq!['^', '{']);
                        i = p + 2;
                    },
                }
            },
        }
    }
}

// ---------------------------------------------------------------------------
// Numeric references "[12]"
// ---------------------------------------------------------------------------
/// The end of the run of ASCII digits in `s` that starts at `k`.
pub open spec fn digits_end(s: Seq<char>, k: int) -> int
    decreases s.len() - k,
{
    if 0 <= k < s.len() && is_digit(s[k]) {
        digits_end(s, k + 1)
    } else {
        k
    }
}

/// `s` from index `i` on, with every `[` digits `]` marker removed.
pub open spec fn strip_refs_from(s: Seq<char>, i: int) -> Seq<char>
    decreases s.len() - i,
{
    if i < 0 || i >= s.len() {
        seq![]
    } else if s[i] == '[' {
        let k = digits_end(s, i + 1);
        if k > i + 1 && k < s.len() && s[k] == ']' {
            strip_refs_from(s, k + 1)
        } else if i < k <= s.len() {
            s.subrange(i, k) + strip_refs_from(s, k)
        } else {
            seq![]
        }
    } else {
        let k = char_pos(s, '[', i);
        if i < k <= s.len() {
            s.subrange(i, k) + strip_refs_from(s, k)
        } else {
            seq![]
        }
    }
}

/// `s` with its numeric reference markers removed.
pub open spec fn strip_refs_spec(s: Seq<char>) -> Seq<char> {
    strip_refs_from(s, 0)
}

proof fn lemma_digits_end(s: Seq<char>, k: int)
    requires
        0 <= k <= s.len(),
    ensures
        k <= digits_end(s, k) <= s.len(),
        forall|j: int| k <= j < digits_end(s, k) ==> is_digit(s[j]),
        digits_end(s, k) < s.len() ==> !is_digit(s[digits_end(s, k)]),
    decreases s.len() - k,
{
    if k < s.len() && is_digit(s[k]) {
        lemma_digits_end(s, k + 1);
    }
}

/// Removes reference markers made of digits in brackets, such as `[12]`.
pub fn strip_ref_numbers(line: &str) -> (r: String)
    ensures
        r@ == strip_refs_spec(line@),
{
    let s = chars_of(line);
    let mut out: Vec<char> = Vec::new();
    let mut i: usize = 0;
    while i < s.len()
        invariant
            i <= s.len(),
            s@ == line@,
            out@ + strip_refs_from(s@, i as int) == strip_refs_spec(s@),
        decreases s.len() - i,
    {
        let ghost before = out@;
        if s[i] == '[' {
            let start = i;
            i += 1;
            proof {
                lemma_digits_end(s@, i as int);
            }
            while i < s.len() && '0' <= s[i] && s[i] <= '9'
                invariant
                    start + 1 <= i <= s.len(),
                    digits_end(s@, start + 1) == digits_end(s@, i as int),
                decreases s.len() - i,
            {
                i += 1;
            }
            if i > start + 1 && i < s.len() && s[i] == ']' {
                i += 1;
            } else {
                push_range(&mut out, &s, start, i);
            }
        } else {
            let start = i;
            proof {
                lemma_char_pos_bounds(s@, '[', i as int);
            }
            i = find_char(&s, '[', i);
            push_range(&mut out, &s, start, i);
        }
    }
    string_of(&out)
}

/// Text with no `[` has no reference markers: `strip_ref_numbers` leaves it
/// as it is.
pub proof fn lemma_strip_refs_without_brackets(s: Seq<char>)
    requires
        !has_char(s, '['),
    ensures
        strip_refs_spec(s) == s,
{
    lemma_strip_refs_from_without_brackets(s, 0);
    assert(s.subrange(0, s.len() as int) == s);
}

proof fn lemma_strip_refs_from_without_brackets(s: Seq<char>, i: int)
    requires
        0 <= i <= s.len(),
        !has_char(s, '['),
    ensures
        strip_refs_from(s, i) == s.subrange(i, s.len() as int),
    decreases s.len() - i,
{
    if i < s.len() {
        assert(s[i] != '[');
        lemma_char_pos_absent(s, '[', i);
        lemma_strip_refs_from_without_brackets(s, s.len() as int);
        assert(s.subrange(i, s.len() as int) + Seq::<char>::empty() == s.subrange(
            i,
            s.len() as int,
        ));
    }
}

/// A reference marker starts at `i`: `[`, one or more ASCII digits, `]`.
pub open spec fn ref_marker_at(s: Seq<char>, i: int) -> bool {
    &&& 0 <= i < s.len()
    &&& s[i] == '['
    &&& digits_end(s, i + 1) > i + 1
    &&& digits_end(s, i + 1) < s.len()
    &&& s[digits_end(s, i + 1)] == ']'
}

proof fn lemma_strip_refs_from_facts(s: Seq<char>, i: int)
    requires
        0 <= i <= s.len(),
    ensures
        strip_refs_from(s, i).len() <= s.len() - i,
        (forall|j: int| i <= j ==> !ref_marker_at(s, j)) ==> strip_refs_from(s, i) == s.subrange(
            i,
            s.len() as int,
        ),
    decreases s.len() - i,
{
    if i < s.len() {
        if s[i] == '[' {
            lemma_digits_end(s, i + 1);
            let k = digits_end(s, i + 1);
            if k > i + 1 && k < s.len() && s[k] == ']' {
                assert(ref_marker_at(s, i));
                lemma_strip_refs_from_facts(s, k + 1);
            } else {
                lemma_strip_refs_from_facts(s, k);
                assert(s.subrange(i, k) + s.subrange(k, s.len() as int) == s.subrange(
                    i,
                    s.len() as int,
                ));
            }
        } else {
            lemma_char_pos_bounds(s, '[', i);
            let k = char_pos(s, '[', i);
            lemma_strip_refs_from_facts(s, k);
            assert(s.subrange(i, k) + s.subrange(k, s.len() as int) == s.subrange(
                i,
                s.len() as int,
            ));
        }
    } else {
        assert(s.subrange(i, s.len() as int) == Seq::<char>::empty());
    }
}

/// `strip_ref_numbers` never lengthens its input, and leaves a text in which
/// no reference marker occurs as it is.
pub proof fn lemma_strip_refs_bounds(s: Seq<char>)
    ensures
        strip_refs_spec(s).len() <= s.len(),
        (forall|j: int| !ref_marker_at(s, j)) ==> strip_refs_spec(s) == s,
{
    lemma_strip_refs_from_facts(s, 0);
    assert(s.subrange(0, s.len() as int) == s);
}

/// Text in which `^{` does not occur has no superscript groups:
/// `strip_superscript_refs` leaves it as it is.
pub proof fn lemma_strip_sup_without_groups(s: Seq<char>)
    requires
        forall|j: int| !occurs_at(s, seq!['^', '{'], j),
    ensures
        strip_sup_spec(s) == s,
{
    lemma_find_absent(s, seq!['^', '{'], 0);
    assert(s.subrange(0, s.len() as int) == s);
}

pub proof fn lemma_find_absent(s: Seq<char>, p: Seq<char>, i: int)
    requires
        0 <= i,
        forall|j: int| i <= j ==> !occurs_at(s, p, j),
    ensures
        find_from(s, p, i) is None,
    decreases s.len() + 1 - i,
{
    if i + p.len() <= s.len() {
        lemma_find_absent(s, p, i + 1);
    }
}

// ---------------------------------------------------------------------------
// Footnote lines and headings
// ---------------------------------------------------------------------------
/// A line such as `[3]: ...` (after leading whitespace): a footnote.
pub open spec fn is_footnote(line: Seq<char>) -> bool {
    let t = trim_start_spec(line);
    &&& t.len() > 0
    &&& t[0] == '['
    &&& {
        let rest = t.drop_first();
        let pos = char_pos(rest, ']', 0);
        &&& 0 < pos < rest.len()
        &&& forall|j: int| 0 <= j < pos ==> is_digit(rest[j])
        &&& starts_with_spec(rest.skip(pos + 1), seq![':', ' '])
    }
}

/// Whether the line is a footnote line such as `[3]: ...`.
#[verifier::loop_isolation(false)]
pub fn is_footnote_line(line: &str) -> (r: bool)
    ensures
        r == is_footnote(line@),
{
    let full = chars_of(line);
    let t = trim_start(&full);
    if t.len() == 0 || t[0] != '[' {
        return false;
    }
    let rest = slice_of(&t, 1, t.len());
    assert(rest@ == t@.drop_first());
    let pos = find_char(&rest, ']', 0);
    if pos == rest.len() || pos == 0 {
        return false;
    }
    let mut j: usize = 0;
    while j < pos
        invariant
            j <= pos < rest.len(),
            forall|m: int| 0 <= m < j ==> is_digit(rest@[m]),
        decreases pos - j,
    {
        if !('0' <= rest[j] && rest[j] <= '9') {
            assert(!is_digit(rest@[j as int]));
            return false;
        }
        j += 1;
    }
    let tail = slice_of(&rest, pos + 1, rest.len());
    assert(tail@ == rest@.skip(pos + 1));
    starts_with(&tail, &vec![':', ' '])
}

/// The style of a heading line: `### ` bold, `## ` bold cyan, `# ` bold blue
/// (after leading whitespace); other lines have none.
pub open spec fn heading_paint(line: Seq<char>) -> Option<Paint> {
    let t = trim_start_spec(line);
    if starts_with_spec(t, seq!['#', '#', '#', ' ']) {
        Some(Paint::Bold)
    } else if starts_with_spec(t, seq!['#', '#', ' ']) {
        Some(Paint::BoldCyan)
    } else if starts_with_spec(t, seq!['#', ' ']) {
        Some(Paint::BoldBlue)
    } else {
        None
    }
}

/// `r` is what `colorize_heading` may make of `line`.
pub open spec fn heading_out(line: Seq<char>, r: Seq<char>) -> bool {
    match heading_paint(line) {
        Some(p) => paints(p, line, r),
        None => r == line,
    }
}

/// Styles a heading line by its level; returns other lines unchanged.
pub fn colorize_heading(line: &str) -> (r: String)
    ensures
        heading_out(line@, r@),
{
    let full = chars_of(line);
    let t = trim_start(&full);
    if starts_with(&t, &vec!['#', '#', '#', ' ']) {
        bold(line)
    } else if starts_with(&t, &vec!['#', '#', ' ']) {
        bold_cyan(line)
    } else if starts_with(&t, &vec!['#', ' ']) {
        bold_blue(line)
    } else {
        line.to_string()
    }
}

// ---------------------------------------------------------------------------
// Tables
// ---------------------------------------------------------------------------
/// A box-drawing character (U+2500 to U+257F).
pub open spec fn is_box(c: char) -> bool {
    '\u{2500}' <= c && c <= '\u{257f}'
}

/// Whether `c` is a box-drawing character.
pub fn is_box_drawing(c: char) -> (r: bool)
    ensures
        r == is_box(c),
{
    '\u{2500}' <= c && c <= '\u{257f}'
}

/// A line that, trimmed, is non-empty and made of box-drawing characters and
/// whitespace only.
pub open spec fn is_border(line: Seq<char>) -> bool {
    let t = trim_spec(line);
    t.len() > 0 && forall|j: int| 0 <= j < t.len() ==> is_box(t[j]) || is_ws(t[j])
}

/// Whether the line is a table border.
#[verifier::loop_isolation(false)]
pub fn is_border_line(line: &str) -> (r: bool)
    ensures
        r == is_border(line@),
{
    let full = chars_of(line);
    let t = trim(&full);
    if t.len() == 0 {
        return false;
    }
    let mut j: usize = 0;
    while j < t.len()
        invariant
            j <= t.len(),
            forall|m: int| 0 <= m < j ==> is_box(t@[m]) || is_ws(t@[m]),
        decreases t.len() - j,
    {
        if !(is_box_drawing(t[j]) || is_whitespace(t[j])) {
            assert(!(is_box(t@[j as int]) || is_ws(t@[j as int])));
            return false;
        }
        j += 1;
    }
    true
}

/// The column separator of rendered tables, `│` (U+2502).
pub open spec fn cell_sep() -> char {
    '\u{2502}'
}

/// Two spaces, the gap between the values of a table row.
pub open spec fn gap() -> Seq<char> {
    seq![' ', ' ']
}

/// The output rows for one table line: the first cell as a dimmed label, the
/// other non-empty cells on an indented row of their own. A row is a pair of
/// "dimmed" and its text.
pub open spec fn table_line_rows(line: Seq<char>) -> Seq<(bool, Seq<char>)> {
    let parts = trim_each(split_spec(line, cell_sep()));
    let label = parts[0];
    let values = non_empty(parts.skip(1));
    let value_row = (false, gap() + join_spec(values, gap()));
    if label.len() > 0 && values.len() > 0 {
        seq![(true, label), value_row]
    } else if label.len() > 0 {
        seq![(true, label)]
    } else if values.len() > 0 {
        seq![value_row]
    } else {
        seq![]
    }
}

/// The output rows for `lines[k..]`; `prev` tells whether the line before was
/// a table line. Borders go, table lines become rows, and a blank row follows
/// each table.
pub open spec fn table_rows_from(lines: Seq<Seq<char>>, k: int, prev: bool) -> Seq<
    (bool, Seq<char>),
>
    decreases lines.len() - k,
{
    if k < 0 || k >= lines.len() {
        seq![]
    } else {
        let line = lines[k];
        if is_border(line) {
            table_rows_from(lines, k + 1, prev)
        } else if has_char(line, cell_sep()) {
            table_line_rows(line) + table_rows_from(lines, k + 1, true)
        } else {
            (if prev {
                seq![(false, Seq::<char>::empty())]
            } else {
                seq![]
            }) + seq![(false, trim_end_spec(line))] + table_rows_from(lines, k + 1, false)
        }
    }
}

/// The output rows of a text.
pub open spec fn table_rows(text: Seq<char>) -> Seq<(bool, Seq<char>)> {
    table_rows_from(lines_spec(text), 0, false)
}

/// `o` is what a row may be written as: dimmed rows are styled, others kept.
pub open spec fn row_out(row: (bool, Seq<char>), o: Seq<char>) -> bool {
    if row.0 {
        paints(Paint::Dimmed, row.1, o)
    } else {
        o == row.1
    }
}

/// `outs` is a written form of each row.
pub open spec fn rows_out(rows: Seq<(bool, Seq<char>)>, outs: Seq<Seq<char>>) -> bool {
    outs.len() == rows.len() && forall|i: int| 0 <= i < rows.len() ==> row_out(rows[i], outs[i])
}

/// `r` is what `flatten_tables` may make of `text`: its rows, each written
/// out, one per line.
pub open spec fn flattened(text: Seq<char>, r: Seq<char>) -> bool {
    exists|outs: Seq<Seq<char>>| rows_out(table_rows(text), outs) && r == join_spec(outs, seq!['\n'])
}

proof fn lemma_rows_out_push(
    rows: Seq<(bool, Seq<char>)>,
    outs: Seq<Seq<char>>,
    row: (bool, Seq<char>),
    o: Seq<char>,
)
    requires
        rows_out(rows, outs),
        row_out(row, o),
    ensures
        rows_out(rows.push(row), outs.push(o)),
{
    assert forall|i: int| 0 <= i < rows.len() + 1 implies row_out(rows.push(row)[i], outs.push(o)[i]) by {
        if i < rows.len() {
            assert(rows.push(row)[i] == rows[i]);
        }
    }
}

/// Writes the rows of one table line out.
fn push_table_line(out: &mut Vec<Vec<char>>, line: &Vec<char>, Ghost(rows): Ghost<
    Seq<(bool, Seq<char>)>,
>) -> (new_rows: Ghost<Seq<(bool, Seq<char>)>>)
    requires
        rows_out(rows, views(old(out)@)),
    ensures
        new_rows@ == rows + table_line_rows(line@),
        rows_out(new_rows@, views(final(out)@)),
{
    let raw = split(line, '\u{2502}');
    let mut parts: Vec<Vec<char>> = Vec::new();
    let mut j: usize = 0;
    while j < raw.len()
        invariant
            j <= raw.len(),
            views(parts@) == trim_each(views(raw@)).take(j as int),
        decreases raw.len() - j,
    {
        let t = trim(&raw[j]);
        parts.push(t);
        assert(trim_each(views(raw@)).take(j + 1) == trim_each(views(raw@)).take(j as int).push(
            t@,
        ));
        assert(views(parts@) == trim_each(views(raw@)).take(j + 1));
        j += 1;
    }
    assert(trim_each(views(raw@)).take(raw.len() as int) == trim_each(views(raw@)));
    let ghost all = views(parts@);
    assert(all == trim_each(split_spec(line@, cell_sep())));
    // split always yields at least one piece
    assert(split_spec(line@, cell_sep()).len() > 0);
    let label = &parts[0];
    let mut values: Vec<Vec<char>> = Vec::new();
    let mut m: usize = 1;
    while m < parts.len()
        invariant
            1 <= m <= parts.len(),
            views(parts@) == all,
            views(values@) == non_empty(all.skip(1).take(m - 1)),
        decreases parts.len() - m,
    {
        let ghost pre = all.skip(1).take(m - 1);
        assert(all.skip(1).take(m as int) == pre.push(all[m as int]));
        assert(all.skip(1).take(m as int).drop_last() == pre);
        if parts[m].len() > 0 {
            values.push(parts[m].clone());
            assert(views(values@) == non_empty(pre).push(all[m as int]));
        }
        m += 1;
    }
    assert(all.skip(1).take(parts.len() - 1) == all.skip(1));
    let ghost vals = non_empty(all.skip(1));
    let ghost lab = all[0];
    let mut value_row = vec![' ', ' '];
    let joined = join(&values, &vec![' ', ' ']);
    push_all(&mut value_row, &joined);
    let ghost value_spec = (false, gap() + join_spec(vals, gap()));
    assert(value_row@ == value_spec.1);
    let ghost mut acc = rows;
    if label.len() > 0 {
        let d = dimmed(&string_of(label).as_str());
        let dv = chars_of(d.as_str());
        proof {
            lemma_rows_out_push(acc, views(out@), (true, lab), dv@);
            assert(views(out@.push(dv)) == views(out@).push(dv@));
            acc = acc.push((true, lab));
        }
        out.push(dv);
    }
    if values.len() > 0 {
        proof {
            lemma_rows_out_push(acc, views(out@), value_spec, value_row@);
            assert(views(out@.push(value_row)) == views(out@).push(value_row@));
            acc = acc.push(value_spec);
        }
        out.push(value_row);
    }
    assert(acc == rows + table_line_rows(line@));
    Ghost(acc)
}

/// Turns table lines into label and value lines, drops table borders and
/// puts a blank line after each table.
pub fn flatten_tables(text: &str) -> (r: String)
    ensures
        flattened(text@, r@),
{
    let s = chars_of(text);
    let ls = lines(&s);
    let ghost all = views(ls@);
    let mut out: Vec<Vec<char>> = Vec::new();
    let ghost mut rows: Seq<(bool, Seq<char>)> = seq![];
    let mut prev = false;
    let mut k: usize = 0;
    while k < ls.len()
        invariant
            k <= ls.len(),
            all == views(ls@),
            all == lines_spec(s@),
            s@ == text@,
            rows + table_rows_from(all, k as int, prev) == table_rows(text@),
            rows_out(rows, views(out@)),
        decreases ls.len() - k,
    {
        let line = &ls[k];
        assert(line@ == all[k as int]);
        let line_str = string_of(line);
        if is_border_line(line_str.as_str()) {
        } else if contains_char(line, '\u{2502}') {
            let g = push_table_line(&mut out, line, Ghost(rows));
            proof {
                assert(rows + table_rows_from(all, k as int, prev) == g@ + table_rows_from(
                    all,
                    k + 1,
                    true,
                ));
                rows = g@;
            }
            prev = true;
        } else {
            if prev {
                let blank: Vec<char> = Vec::new();
                proof {
                    lemma_rows_out_push(rows, views(out@), (false, Seq::<char>::empty()), blank@);
                    assert(views(out@.push(blank)) == views(out@).push(blank@));
                    rows = rows.push((false, Seq::<char>::empty()));
                }
                out.push(blank);
            }
            let t = trim_end(line);
            proof {
                lemma_rows_out_push(rows, views(out@), (false, trim_end_spec(line@)), t@);
                assert(views(out@.push(t)) == views(out@).push(t@));
                rows = rows.push((false, trim_end_spec(line@)));
            }
            out.push(t);
            prev = false;
        }
        k += 1;
    }
    assert(table_rows_from(all, k as int, prev) == Seq::<(bool, Seq<char>)>::empty());
    assert(rows + Seq::<(bool, Seq<char>)>::empty() == rows);
    let nl = vec!['\n'];
    let joined = join(&out, &nl);
    assert(rows == table_rows(text@));
    assert(nl@ == seq!['\n']);
    assert(rows_out(table_rows(text@), views(out@)));
    assert(joined@ == join_spec(views(out@), seq!['\n']));
    string_of(&joined)
}

/// A written line of flattened text: it holds no `│` and no newline, and does
/// not end with whitespace.
pub open spec fn tidy_line(o: Seq<char>) -> bool {
    !has_char(o, cell_sep()) && !has_char(o, '\n') && !(o.len() > 0 && is_ws(o.last()))
}

proof fn lemma_escape_lacks(code: Seq<char>, s: Seq<char>, c: char)
    requires
        !has_char(code, c),
        !has_char(reset_code(), c),
        !has_char(s, c),
    ensures
        !has_char(escape_resets(code, s), c),
    decreases s.len(),
{
    if s.len() > 0 {
        if s.len() >= 4 && s.take(4) == reset_code() {
            lemma_subrange_lacks(s, 4, s.len() as int, c);
            assert(s.skip(4) == s.subrange(4, s.len() as int));
            lemma_escape_lacks(code, s.skip(4), c);
            lemma_concat_lacks(reset_code(), code, c);
            lemma_concat_lacks(reset_code() + code, escape_resets(code, s.skip(4)), c);
        } else {
            lemma_subrange_lacks(s, 1, s.len() as int, c);
            assert(s.drop_first() == s.subrange(1, s.len() as int));
            lemma_escape_lacks(code, s.drop_first(), c);
            lemma_subrange_lacks(s, 0, 1, c);
            assert(seq![s[0]] == s.subrange(0, 1));
            lemma_concat_lacks(seq![s[0]], escape_resets(code, s.drop_first()), c);
        }
    }
}

proof fn lemma_dimmed_tidy(s: Seq<char>, o: Seq<char>)
    requires
        tidy_line(s),
        paints(Paint::Dimmed, s, o),
    ensures
        tidy_line(o),
{
    if o != s {
        let code = style_code(Paint::Dimmed);
        let e = escape_resets(code, s);
        lemma_escape_lacks(code, s, cell_sep());
        lemma_escape_lacks(code, s, '\n');
        lemma_concat_lacks(code, e, cell_sep());
        lemma_concat_lacks(code + e, reset_code(), cell_sep());
        lemma_concat_lacks(code, e, '\n');
        lemma_concat_lacks(code + e, reset_code(), '\n');
        assert(o == painted(Paint::Dimmed, s));
        assert(o.last() == 'm');
    }
}

proof fn lemma_non_empty_tidy(ps: Seq<Seq<char>>)
    requires
        forall|m: int| 0 <= m < ps.len() ==> tidy_line(#[trigger] ps[m]),
    ensures
        forall|m: int|
            0 <= m < non_empty(ps).len() ==> tidy_line(#[trigger] non_empty(ps)[m])
                && non_empty(ps)[m].len() > 0,
    decreases ps.len(),
{
    if ps.len() > 0 {
        let d = ps.drop_last();
        assert forall|m: int| 0 <= m < d.len() implies tidy_line(#[trigger] d[m]) by {
            assert(d[m] == ps[m]);
        }
        lemma_non_empty_tidy(d);
        let l = ps.last();
        assert(tidy_line(ps[ps.len() - 1]));
        if l.len() > 0 {
            let n = non_empty(d).push(l);
            assert(non_empty(ps) == n);
            assert forall|m: int| 0 <= m < n.len() implies tidy_line(#[trigger] n[m]) && n[m].len()
                > 0 by {
                if m < non_empty(d).len() {
                    assert(n[m] == non_empty(d)[m]);
                }
            }
        } else {
            assert(non_empty(ps) == non_empty(d));
        }
    }
}

proof fn lemma_table_line_rows_tidy(line: Seq<char>)
    requires
        !has_char(line, '\n'),
    ensures
        forall|m: int|
            0 <= m < table_line_rows(line).len() ==> tidy_line(#[trigger] table_line_rows(line)[m].1),
{
    let raw = split_spec(line, cell_sep());
    lemma_split_parts_lack(line, cell_sep(), '\n', 0);
    let parts = trim_each(raw);
    assert forall|m: int| 0 <= m < parts.len() implies tidy_line(#[trigger] parts[m]) by {
        assert(!has_char(raw[m], cell_sep()));
        lemma_trim_lacks(raw[m], cell_sep());
        lemma_trim_lacks(raw[m], '\n');
    }
    assert(raw.len() > 0);
    let rest = parts.skip(1);
    assert forall|m: int| 0 <= m < rest.len() implies tidy_line(#[trigger] rest[m]) by {
        assert(rest[m] == parts[m + 1]);
    }
    lemma_non_empty_tidy(rest);
    let values = non_empty(rest);
    let j = join_spec(values, gap());
    if values.len() > 0 {
        lemma_join_lacks(values, gap(), cell_sep());
        lemma_join_lacks(values, gap(), '\n');
        assert(tidy_line(values.last()));
        lemma_concat_lacks(gap(), j, cell_sep());
        lemma_concat_lacks(gap(), j, '\n');
        assert((gap() + j).last() == j.last());
        assert(tidy_line(gap() + j));
    }
    assert(tidy_line(parts[0]));
}

proof fn lemma_rows_tidy(lines: Seq<Seq<char>>, k: int, prev: bool)
    requires
        forall|m: int| 0 <= m < lines.len() ==> !has_char(#[trigger] lines[m], '\n'),
    ensures
        forall|m: int|
            0 <= m < table_rows_from(lines, k, prev).len() ==> tidy_line(
                #[trigger] table_rows_from(lines, k, prev)[m].1,
            ),
    decreases lines.len() - k,
{
    if 0 <= k < lines.len() {
        let line = lines[k];
        if is_border(line) {
            lemma_rows_tidy(lines, k + 1, prev);
            assert(table_rows_from(lines, k, prev) == table_rows_from(lines, k + 1, prev));
        } else if has_char(line, cell_sep()) {
            lemma_rows_tidy(lines, k + 1, true);
            lemma_table_line_rows_tidy(line);
            let x = table_line_rows(line);
            let y = table_rows_from(lines, k + 1, true);
            assert(table_rows_from(lines, k, prev) == x + y);
            assert forall|m: int| 0 <= m < (x + y).len() implies tidy_line(#[trigger] (x + y)[m].1) by {
                if m < x.len() {
                    assert((x + y)[m] == x[m]);
                } else {
                    assert((x + y)[m] == y[m - x.len()]);
                }
            }
        } else {
            lemma_rows_tidy(lines, k + 1, false);
            lemma_trim_lacks(line, cell_sep());
            lemma_trim_lacks(line, '\n');
            let b: Seq<(bool, Seq<char>)> = if prev {
                seq![(false, Seq::<char>::empty())]
            } else {
                seq![]
            };
            let x = b + seq![(false, trim_end_spec(line))];
            let y = table_rows_from(lines, k + 1, false);
            assert(table_rows_from(lines, k, prev) == x + y);
            assert(tidy_line(Seq::<char>::empty()));
            assert forall|m: int| 0 <= m < (x + y).len() implies tidy_line(#[trigger] (x + y)[m].1) by {
                if m < x.len() {
                    assert((x + y)[m] == x[m]);
                    if m < b.len() {
                        assert(x[m] == b[m]);
                    }
                } else {
                    assert((x + y)[m] == y[m - x.len()]);
                }
            }
        }
    }
}

/// `flatten_tables` writes lines joined by newlines, none of which holds a
/// `│` or ends with whitespace: no column separator is left in its result.
pub proof fn lemma_flattened_tidy(text: Seq<char>, r: Seq<char>)
    requires
        flattened(text, r),
    ensures
        exists|outs: Seq<Seq<char>>|
            #![trigger join_spec(outs, seq!['\n'])]
            r == join_spec(outs, seq!['\n']) && forall|i: int|
                0 <= i < outs.len() ==> tidy_line(#[trigger] outs[i]),
        !has_char(r, cell_sep()),
{
    let outs = choose|outs: Seq<Seq<char>>|
        rows_out(table_rows(text), outs) && r == join_spec(outs, seq!['\n']);
    let rows = table_rows(text);
    lemma_lines_lack_newline(text, 0);
    lemma_rows_tidy(lines_spec(text), 0, false);
    assert forall|i: int| 0 <= i < outs.len() implies tidy_line(#[trigger] outs[i]) by {
        assert(row_out(rows[i], outs[i]));
        assert(tidy_line(rows[i].1));
        if rows[i].0 {
            lemma_dimmed_tidy(rows[i].1, outs[i]);
        }
    }
    lemma_join_lacks(outs, seq!['\n'], cell_sep());
}

/// The lines of `lines[k..]` that are neither borders nor table lines, each
/// without its trailing whitespace.
pub open spec fn kept_lines_from(lines: Seq<Seq<char>>, k: int) -> Seq<Seq<char>>
    decreases lines.len() - k,
{
    if k < 0 || k >= lines.len() {
        seq![]
    } else {
        let line = lines[k];
        if is_border(line) || has_char(line, cell_sep()) {
            kept_lines_from(lines, k + 1)
        } else {
            seq![trim_end_spec(line)] + kept_lines_from(lines, k + 1)
        }
    }
}

/// The lines of a text that are neither borders nor table lines, each without
/// its trailing whitespace.
pub open spec fn kept_lines(text: Seq<char>) -> Seq<Seq<char>> {
    kept_lines_from(lines_spec(text), 0)
}

/// `f` gives, for each item of `a`, a position of `b` that holds it, the
/// positions rising.
pub open spec fn places(f: Seq<int>, a: Seq<Seq<char>>, b: Seq<Seq<char>>) -> bool {
    &&& f.len() == a.len()
    &&& forall|i: int| 0 <= i < f.len() ==> 0 <= #[trigger] f[i] < b.len() && b[f[i]] == a[i]
    &&& forall|i: int, j: int| 0 <= i < j < f.len() ==> #[trigger] f[i] < #[trigger] f[j]
}

/// The items of `a` occur in `b` in the same order.
pub open spec fn in_order(a: Seq<Seq<char>>, b: Seq<Seq<char>>) -> bool {
    exists|f: Seq<int>| #[trigger] places(f, a, b)
}

/// `f` gives, for each kept line, a plain row that holds it, the positions
/// rising.
spec fn row_places(f: Seq<int>, kept: Seq<Seq<char>>, rows: Seq<(bool, Seq<char>)>) -> bool {
    &&& f.len() == kept.len()
    &&& forall|i: int|
        0 <= i < f.len() ==> 0 <= #[trigger] f[i] < rows.len() && rows[f[i]] == (false, kept[i])
    &&& forall|i: int, j: int| 0 <= i < j < f.len() ==> #[trigger] f[i] < #[trigger] f[j]
}

proof fn lemma_rows_keep(lines: Seq<Seq<char>>, k: int, prev: bool) -> (f: Seq<int>)
    ensures
        row_places(f, kept_lines_from(lines, k), table_rows_from(lines, k, prev)),
    decreases lines.len() - k,
{
    if k < 0 || k >= lines.len() {
        Seq::<int>::empty()
    } else {
        let line = lines[k];
        if is_border(line) {
            lemma_rows_keep(lines, k + 1, prev)
        } else if has_char(line, cell_sep()) {
            let g = lemma_rows_keep(lines, k + 1, true);
            let x = table_line_rows(line);
            let y = table_rows_from(lines, k + 1, true);
            assert(table_rows_from(lines, k, prev) == x + y);
            let n = x.len() as int;
            let f = Seq::new(g.len(), |i: int| g[i] + n);
            assert forall|i: int| 0 <= i < f.len() implies 0 <= #[trigger] f[i] < (x + y).len() && (x
                + y)[f[i]] == (false, kept_lines_from(lines, k)[i]) by {
                assert(0 <= g[i] < y.len());
                assert((x + y)[f[i]] == y[g[i]]);
            }
            assert forall|i: int, j: int| 0 <= i < j < f.len() implies #[trigger] f[i] < #[trigger] f[j] by {
                assert(g[i] < g[j]);
            }
            f
        } else {
            let g = lemma_rows_keep(lines, k + 1, false);
            let b: Seq<(bool, Seq<char>)> = if prev {
                seq![(false, Seq::<char>::empty())]
            } else {
                seq![]
            };
            let t = trim_end_spec(line);
            let x = b + seq![(false, t)];
            let y = table_rows_from(lines, k + 1, false);
            assert(table_rows_from(lines, k, prev) == x + y);
            let n = x.len() as int;
            let kept = kept_lines_from(lines, k);
            assert(kept == seq![t] + kept_lines_from(lines, k + 1));
            let f = seq![n - 1] + Seq::new(g.len(), |i: int| g[i] + n);
            assert((x + y)[n - 1] == (false, t));
            assert forall|i: int| 0 <= i < f.len() implies 0 <= #[trigger] f[i] < (x + y).len() && (x
                + y)[f[i]] == (false, kept[i]) by {
                if i > 0 {
                    assert(f[i] == g[i - 1] + n);
                    assert(0 <= g[i - 1] < y.len());
                    assert((x + y)[f[i]] == y[g[i - 1]]);
                    assert(kept[i] == kept_lines_from(lines, k + 1)[i - 1]);
                }
            }
            assert forall|i: int, j: int| 0 <= i < j < f.len() implies #[trigger] f[i] < #[trigger] f[j] by {
                assert(f[j] == g[j - 1] + n);
                assert(0 <= g[j - 1]);
                if i > 0 {
                    assert(f[i] == g[i - 1] + n);
                    assert(g[i - 1] < g[j - 1]);
                }
            }
            f
        }
    }
}

/// The lines of the text that are neither table lines nor borders come
/// through `flatten_tables` as lines of their own, without trailing
/// whitespace, in their order.
pub proof fn lemma_flattened_keeps(text: Seq<char>, r: Seq<char>)
    requires
        flattened(text, r),
    ensures
        exists|outs: Seq<Seq<char>>|
            #![trigger join_spec(outs, seq!['\n'])]
            r == join_spec(outs, seq!['\n']) && in_order(kept_lines(text), outs),
{
    let outs = choose|outs: Seq<Seq<char>>|
        rows_out(table_rows(text), outs) && r == join_spec(outs, seq!['\n']);
    let rows = table_rows(text);
    let f = lemma_rows_keep(lines_spec(text), 0, false);
    let kept = kept_lines(text);
    assert forall|i: int| 0 <= i < f.len() implies 0 <= #[trigger] f[i] < outs.len() && outs[f[i]]
        == kept[i] by {
        assert(row_out(rows[f[i]], outs[f[i]]));
    }
    assert(places(f, kept, outs));
}

proof fn lemma_digits_end_shift(t: Seq<char>, j: int, k: int)
    requires
        0 <= j <= k,
        j <= t.len(),
    ensures
        digits_end(t, k) == digits_end(t.skip(j), k - j) + j,
    decreases t.len() - k,
{
    if k < t.len() {
        assert(t[k] == t.skip(j)[k - j]);
        if is_digit(t[k]) {
            lemma_digits_end_shift(t, j, k + 1);
        }
    }
}

proof fn lemma_strip_refs_shift(t: Seq<char>, j: int, i: int)
    requires
        0 <= j <= i <= t.len(),
    ensures
        strip_refs_from(t, i) == strip_refs_from(t.skip(j), i - j),
    decreases t.len() - i,
{
    let u = t.skip(j);
    if i < t.len() {
        assert(t[i] == u[i - j]);
        if t[i] == '[' {
            lemma_digits_end_shift(t, j, i + 1);
            lemma_digits_end(t, i + 1);
            let k = digits_end(t, i + 1);
            if k > i + 1 && k < t.len() && t[k] == ']' {
                assert(u[k - j] == t[k]);
                lemma_strip_refs_shift(t, j, k + 1);
            } else {
                if k < t.len() {
                    assert(u[k - j] == t[k]);
                }
                assert(t.subrange(i, k) == u.subrange(i - j, k - j));
                lemma_strip_refs_shift(t, j, k);
            }
        } else {
            lemma_char_pos_shift(t, '[', j, i);
            lemma_char_pos_bounds(t, '[', i);
            let k = char_pos(t, '[', i);
            assert(t.subrange(i, k) == u.subrange(i - j, k - j));
            lemma_strip_refs_shift(t, j, k);
        }
    }
}

/// A reference marker, `[`, one or more ASCII digits, `]`, is removed whole
/// however many digits it has; the text before it, free of `[`, is kept, and
/// the text after it is cleaned in turn.
pub proof fn lemma_strip_refs_marker(a: Seq<char>, d: Seq<char>, b: Seq<char>)
    requires
        !has_char(a, '['),
        d.len() > 0,
        forall|j: int| 0 <= j < d.len() ==> is_digit(#[trigger] d[j]),
    ensures
        strip_refs_spec(a + seq!['['] + d + seq![']'] + b) == a + strip_refs_spec(b),
{
    let t = a + seq!['['] + d + seq![']'] + b;
    let n = a.len() as int;
    let k = n + 1 + d.len();
    assert(t[n] == '[');
    assert(t[k] == ']');
    assert forall|j: int| n + 1 <= j < k implies is_digit(#[trigger] t[j]) by {
        assert(t[j] == d[j - n - 1]);
    }
    lemma_digits_end(t, n + 1);
    let e = digits_end(t, n + 1);
    if e < k {
        assert(is_digit(t[e]));
    }
    if e > k {
        assert(is_digit(t[k]));
    }
    assert(e == k);
    assert(t.skip(k + 1) == b);
    lemma_strip_refs_shift(t, k + 1, k + 1);
    assert(strip_refs_from(t, n) == strip_refs_spec(b));
    if n > 0 {
        assert forall|j: int| 0 <= j < n implies t[j] != '[' by {
            assert(t[j] == a[j]);
        }
        lemma_char_pos_bounds(t, '[', 0);
        assert(char_pos(t, '[', 0) == n);
        assert(t.subrange(0, n) == a);
    } else {
        assert(a == Seq::<char>::empty());
    }
}

} // verus!
