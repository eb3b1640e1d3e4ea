//! Character-sequence primitives: whitespace, trimming, searching, splitting
//! into lines and joining. Every exec function here works on `Vec<char>` and is
//! specified over `Seq<char>`.
use vstd::prelude::*;

verus! {

/// `String::push`: appends `ch` at the end of the string.
pub assume_specification[ String::push ](s: &mut String, ch: char)
    ensures
        final(s)@ == old(s)@.push(ch),
;

// ---------------------------------------------------------------------------
// Specifications
// ---------------------------------------------------------------------------
/// The Unicode `White_Space` property.
pub open spec fn is_ws(c: char) -> bool {
    ||| ('\u{9}' <= c && c <= '\u{d}')
    ||| c == ' '
    ||| c == '\u{85}'
    ||| c == '\u{a0}'
    ||| c == '\u{1680}'
    ||| ('\u{2000}' <= c && c <= '\u{200a}')
    ||| c == '\u{2028}'
    ||| c == '\u{2029}'
    ||| c == '\u{202f}'
    ||| c == '\u{205f}'
    ||| c == '\u{3000}'
}

/// ASCII decimal digit.
pub open spec fn is_digit(c: char) -> bool {
    '0' <= c && c <= '9'
}

/// `s` without its leading whitespace.
pub open spec fn trim_start_spec(s: Seq<char>) -> Seq<char>
    decreases s.len(),
{
    if s.len() > 0 && is_ws(s[0]) {
        trim_start_spec(s.drop_first())
    } else {
        s
    }
}

/// `s` without its trailing whitespace.
pub open spec fn trim_end_spec(s: Seq<char>) -> Seq<char>
    decreases s.len(),
{
    if s.len() > 0 && is_ws(s.last()) {
        trim_end_spec(s.drop_last())
    } else {
        s
    }
}

/// `s` without leading and trailing whitespace.
pub open spec fn trim_spec(s: Seq<char>) -> Seq<char> {
    trim_end_spec(trim_start_spec(s))
}

/// Index of the first `c` in `s` at or after `i`, or `s.len()` when there is none.
pub open spec fn char_pos(s: Seq<char>, c: char, i: int) -> int
    decreases s.len() - i,
{
    if i >= s.len() {
        s.len() as int
    } else if s[i] == c {
        i
    } else {
        char_pos(s, c, i + 1)
    }
}

/// `s` holds the character `c`.
pub open spec fn has_char(s: Seq<char>, c: char) -> bool {
    exists|k: int| 0 <= k < s.len() && s[k] == c
}

/// `p` occurs in `s` at position `i`.
pub open spec fn occurs_at(s: Seq<char>, p: Seq<char>, i: int) -> bool {
    0 <= i && i + p.len() <= s.len() && s.subrange(i, i + p.len()) == p
}

/// `s` begins with `p`.
pub open spec fn starts_with_spec(s: Seq<char>, p: Seq<char>) -> bool {
    occurs_at(s, p, 0)
}

/// `s` ends with `p`.
pub open spec fn ends_with_spec(s: Seq<char>, p: Seq<char>) -> bool {
    occurs_at(s, p, s.len() - p.len())
}

/// Position of the first occurrence of `p` in `s` at or after `i`.
pub open spec fn find_from(s: Seq<char>, p: Seq<char>, i: int) -> Option<int>
    decreases s.len() + 1 - i,
{
    if i < 0 || i + p.len() > s.len() {
        None
    } else if occurs_at(s, p, i) {
        Some(i)
    } else {
        find_from(s, p, i + 1)
    }
}

/// A line without the carriage return that ended it.
pub open spec fn strip_cr(s: Seq<char>) -> Seq<char> {
    if s.len() > 0 && s.last() == '\r' {
        s.drop_last()
    } else {
        s
    }
}

/// The lines of `s` from index `i` on, as `str::lines` yields them: split at
/// `\n` (a `\r` just before it goes too), with no empty line after a final `\n`.
pub open spec fn lines_from(s: Seq<char>, i: int) -> Seq<Seq<char>>
    decreases s.len() - i,
{
    if i < 0 || i >= s.len() {
        seq![]
    } else {
        let k = char_pos(s, '\n', i);
        if i <= k < s.len() {
            seq![strip_cr(s.subrange(i, k))] + lines_from(s, k + 1)
        } else {
            seq![s.subrange(i, s.len() as int)]
        }
    }
}

/// The lines of `s`.
pub open spec fn lines_spec(s: Seq<char>) -> Seq<Seq<char>> {
    lines_from(s, 0)
}

/// The pieces of `s` between the occurrences of `c`, from index `i` on, as
/// `str::split` yields them.
pub open spec fn split_from(s: Seq<char>, c: char, i: int) -> Seq<Seq<char>>
    decreases s.len() - i,
{
    let k = char_pos(s, c, i);
    if 0 <= i <= k < s.len() {
        seq![s.subrange(i, k)] + split_from(s, c, k + 1)
    } else if 0 <= i <= s.len() {
        seq![s.subrange(i, s.len() as int)]
    } else {
        seq![]
    }
}

/// The pieces of `s` between the occurrences of `c`.
pub open spec fn split_spec(s: Seq<char>, c: char) -> Seq<Seq<char>> {
    split_from(s, c, 0)
}

/// The parts joined, with `sep` between neighbours.
pub open spec fn join_spec(parts: Seq<Seq<char>>, sep: Seq<char>) -> Seq<char>
    decreases parts.len(),
{
    if parts.len() == 0 {
        seq![]
    } else if parts.len() == 1 {
        parts[0]
    } else {
        join_spec(parts.drop_last(), sep) + sep + parts.last()
    }
}

/// The parts in order, without the empty ones.
pub open spec fn non_empty(parts: Seq<Seq<char>>) -> Seq<Seq<char>>
    decreases parts.len(),
{
    if parts.len() == 0 {
        seq![]
    } else if parts.last().len() == 0 {
        non_empty(parts.drop_last())
    } else {
        non_empty(parts.drop_last()).push(parts.last())
    }
}

/// Each part trimmed.
pub open spec fn trim_each(parts: Seq<Seq<char>>) -> Seq<Seq<char>> {
    Seq::new(parts.len(), |i: int| trim_spec(parts[i]))
}

/// `s` from index `i` on, with every non-overlapping occurrence of `pat`
/// (searched from the left) replaced by `rep`, as `str::replace` does.
pub open spec fn replace_from(s: Seq<char>, pat: Seq<char>, rep: Seq<char>, i: int) -> Seq<char>
    decreases s.len() - i,
{
    if i < 0 || i > s.len() || pat.len() == 0 {
        seq![]
    } else {
        match find_from(s, pat, i) {
            Some(k) => if i <= k && k + pat.len() <= s.len() {
                s.subrange(i, k) + rep + replace_from(s, pat, rep, k + pat.len())
            } else {
                seq![]
            },
            None => s.subrange(i, s.len() as int),
        }
    }
}

/// `s` with every occurrence of `pat` replaced by `rep`.
pub open spec fn replace_spec(s: Seq<char>, pat: Seq<char>, rep: Seq<char>) -> Seq<char> {
    replace_from(s, pat, rep, 0)
}

/// The view of every element of a vector of character vectors.
pub open spec fn views(v: Seq<Vec<char>>) -> Seq<Seq<char>> {
    Seq::new(v.len(), |i: int| v[i]@)
}

// ---------------------------------------------------------------------------
// Lemmas
// ---------------------------------------------------------------------------
pub proof fn lemma_char_pos_bounds(s: Seq<char>, c: char, i: int)
    requires
        0 <= i,
    ensures
        i <= s.len() ==> i <= char_pos(s, c, i) <= s.len(),
        i > s.len() ==> char_pos(s, c, i) == s.len(),
        char_pos(s, c, i) < s.len() ==> s[char_pos(s, c, i)] == c,
        forall|j: int| i <= j < char_pos(s, c, i) ==> s[j] != c,
    decreases s.len() - i,
{
    if i < s.len() && s[i] != c {
        lemma_char_pos_bounds(s, c, i + 1);
    }
}

pub proof fn lemma_char_pos_absent(s: Seq<char>, c: char, i: int)
    requires
        0 <= i <= s.len(),
        forall|j: int| i <= j < s.len() ==> s[j] != c,
    ensures
        char_pos(s, c, i) == s.len(),
    decreases s.len() - i,
{
    if i < s.len() {
        lemma_char_pos_absent(s, c, i + 1);
    }
}

pub proof fn lemma_find_from_bounds(s: Seq<char>, p: Seq<char>, i: int)
    requires
        0 <= i,
    ensures
        find_from(s, p, i) matches Some(k) ==> i <= k && occurs_at(s, p, k) && forall|j: int|
            i <= j < k ==> !occurs_at(s, p, j),
        find_from(s, p, i) is None ==> forall|j: int| i <= j ==> !occurs_at(s, p, j),
    decreases s.len() + 1 - i,
{
    if i < 0 || i + p.len() > s.len() {
    } else if occurs_at(s, p, i) {
    } else {
        lemma_find_from_bounds(s, p, i + 1);
    }
}

pub proof fn lemma_join_push(parts: Seq<Seq<char>>, sep: Seq<char>, x: Seq<char>)
    ensures
        join_spec(parts.push(x), sep) == if parts.len() == 0 {
            x
        } else {
            join_spec(parts, sep) + sep + x
        },
{
    assert(parts.push(x).drop_last() == parts);
}

pub proof fn lemma_trim_start_skip(s: Seq<char>, k: int)
    requires
        0 <= k <= s.len(),
        forall|j: int| 0 <= j < k ==> is_ws(s[j]),
        k == s.len() || !is_ws(s[k]),
    ensures
        trim_start_spec(s) == s.skip(k),
    decreases k,
{
    if k > 0 {
        assert(s.drop_first().skip(k - 1) == s.skip(k));
        lemma_trim_start_skip(s.drop_first(), k - 1);
    } else {
        assert(s.skip(0) == s);
    }
}

pub proof fn lemma_trim_end_take(s: Seq<char>, k: int)
    requires
        0 <= k <= s.len(),
        forall|j: int| k <= j < s.len() ==> is_ws(s[j]),
        k == 0 || !is_ws(s[k - 1]),
    ensures
        trim_end_spec(s) == s.take(k),
    decreases s.len() - k,
{
    if k < s.len() {
        assert(s.drop_last().take(k) == s.take(k));
        lemma_trim_end_take(s.drop_last(), k);
    } else {
        assert(s.take(k) == s);
    }
}

pub proof fn lemma_join_prepend(x: Seq<char>, rest: Seq<Seq<char>>, sep: Seq<char>)
    requires
        rest.len() > 0,
    ensures
        join_spec(seq![x] + rest, sep) == x + sep + join_spec(rest, sep),
    decreases rest.len(),
{
    let all = seq![x] + rest;
    assert(all.drop_last() == seq![x] + rest.drop_last());
    assert(all.last() == rest.last());
    assert(join_spec(all, sep) == join_spec(all.drop_last(), sep) + sep + all.last());
    if rest.len() == 1 {
        assert(seq![x] + rest.drop_last() == seq![x]);
        assert(join_spec(seq![x], sep) == x);
        assert(join_spec(rest, sep) == rest[0]);
    } else {
        assert(join_spec(rest, sep) == join_spec(rest.drop_last(), sep) + sep + rest.last());
        lemma_join_prepend(x, rest.drop_last(), sep);
        assert(x + sep + join_spec(rest.drop_last(), sep) + sep + rest.last() == x + sep + (
        join_spec(rest.drop_last(), sep) + sep + rest.last()));
    }
}

pub proof fn lemma_trim_start_suffix(s: Seq<char>)
    ensures
        trim_start_spec(s).len() <= s.len(),
        trim_start_spec(s) == s.skip(s.len() - trim_start_spec(s).len()),
        trim_start_spec(s).len() > 0 ==> !is_ws(trim_start_spec(s)[0]),
    decreases s.len(),
{
    if s.len() > 0 && is_ws(s[0]) {
        lemma_trim_start_suffix(s.drop_first());
        let t = trim_start_spec(s);
        assert(s.drop_first().skip(s.drop_first().len() - t.len()) == s.skip(s.len() - t.len()));
    } else {
        assert(s.skip(0) == s);
    }
}

pub proof fn lemma_trim_end_prefix(s: Seq<char>)
    ensures
        trim_end_spec(s).len() <= s.len(),
        trim_end_spec(s) == s.take(trim_end_spec(s).len() as int),
    decreases s.len(),
{
    if s.len() > 0 && is_ws(s.last()) {
        lemma_trim_end_prefix(s.drop_last());
        let t = trim_end_spec(s);
        assert(s.drop_last().take(t.len() as int) == s.take(t.len() as int));
    } else {
        assert(s.take(s.len() as int) == s);
    }
}

/// The first character of a line, trimmed, is a character of the line that
/// is not whitespace.
pub proof fn lemma_trim_first(s: Seq<char>)
    ensures
        trim_start_spec(s).len() > 0 ==> exists|j: int|
            0 <= j < s.len() && s[j] == trim_start_spec(s)[0],
        trim_spec(s).len() > 0 ==> !is_ws(trim_spec(s)[0]) && exists|j: int|
            0 <= j < s.len() && s[j] == trim_spec(s)[0],
{
    lemma_trim_start_suffix(s);
    let a = trim_start_spec(s);
    lemma_trim_end_prefix(a);
    let off = s.len() - a.len();
    if a.len() > 0 {
        assert(s[off] == a[0]);
    }
    if trim_spec(s).len() > 0 {
        assert(trim_spec(s)[0] == a[0]);
        assert(s[off] == a[0]);
    }
}

pub proof fn lemma_occurs_at_shift(t: Seq<char>, p: Seq<char>, j: int, i: int)
    requires
        0 <= j <= i,
        j <= t.len(),
    ensures
        occurs_at(t, p, i) == occurs_at(t.skip(j), p, i - j),
{
    if i + p.len() <= t.len() {
        assert(t.subrange(i, i + p.len()) == t.skip(j).subrange(i - j, i - j + p.len()));
    }
}

/// Searching `t` from `i` is searching `t.skip(j)` from `i - j`, shifted.
pub proof fn lemma_find_from_shift(t: Seq<char>, p: Seq<char>, j: int, i: int)
    requires
        0 <= j <= i,
        j <= t.len(),
    ensures
        find_from(t, p, i) == match find_from(t.skip(j), p, i - j) {
            Some(k) => Some(k + j),
            None => None::<int>,
        },
    decreases t.len() + 1 - i,
{
    lemma_occurs_at_shift(t, p, j, i);
    if i + p.len() <= t.len() && !occurs_at(t, p, i) {
        lemma_find_from_shift(t, p, j, i + 1);
    }
}

/// The first occurrence at or after `i` is what `find_from` finds.
pub proof fn lemma_find_first(s: Seq<char>, p: Seq<char>, i: int, k: int)
    requires
        0 <= i <= k,
        occurs_at(s, p, k),
        forall|j: int| i <= j < k ==> !occurs_at(s, p, j),
    ensures
        find_from(s, p, i) == Some(k),
    decreases k - i,
{
    if i < k {
        lemma_find_first(s, p, i + 1, k);
    }
}

/// Searching `t` for `c` from `i` is searching `t.skip(j)` from `i - j`, shifted.
pub proof fn lemma_char_pos_shift(t: Seq<char>, c: char, j: int, i: int)
    requires
        0 <= j <= i,
        j <= t.len(),
    ensures
        char_pos(t, c, i) == char_pos(t.skip(j), c, i - j) + j,
    decreases t.len() - i,
{
    if i < t.len() && t[i] != c {
        lemma_char_pos_shift(t, c, j, i + 1);
    }
}

// ---------------------------------------------------------------------------
// Exec functions
// ---------------------------------------------------------------------------
/// The characters of a string slice, in order.
pub fn chars_of(s: &str) -> (r: Vec<char>)
    ensures
        r@ == s@,
{
    let mut r: Vec<char> = Vec::new();
    for c in it: s.chars()
        invariant
            r@ == it.seq().take(it.index() as int),
            it.seq() == s@,
    {
        r.push(c);
    }
    r
}

/// A `String` holding the given characters.
pub fn string_of(cs: &Vec<char>) -> (r: String)
    ensures
        r@ == cs@,
{
    let mut r = String::new();
    let mut i: usize = 0;
    while i < cs.len()
        invariant
            i <= cs.len(),
            r@ == cs@.take(i as int),
        decreases cs.len() - i,
    {
        r.push(cs[i]);
        assert(cs@.take(i + 1) == cs@.take(i as int).push(cs@[i as int]));
        i += 1;
    }
    assert(cs@.take(cs.len() as int) == cs@);
    r
}

/// Appends every character of `t` to `s`.
pub fn push_str(s: &mut String, t: &str)
    ensures
        final(s)@ == old(s)@ + t@,
{
    let cs = chars_of(t);
    let mut i: usize = 0;
    while i < cs.len()
        invariant
            i <= cs.len(),
            cs@ == t@,
            s@ == old(s)@ + cs@.take(i as int),
        decreases cs.len() - i,
    {
        s.push(cs[i]);
        assert(cs@.take(i + 1) == cs@.take(i as int).push(cs@[i as int]));
        i += 1;
    }
    assert(cs@.take(cs.len() as int) == cs@);
}

/// Appends `src` to `dst`.
pub fn push_all(dst: &mut Vec<char>, src: &Vec<char>)
    ensures
        final(dst)@ == old(dst)@ + src@,
{
    let mut i: usize = 0;
    while i < src.len()
        invariant
            i <= src.len(),
            dst@ == old(dst)@ + src@.take(i as int),
        decreases src.len() - i,
    {
        dst.push(src[i]);
        assert(src@.take(i + 1) == src@.take(i as int).push(src@[i as int]));
        i += 1;
    }
    assert(src@.take(src.len() as int) == src@);
}

/// Appends `src[a..b]` to `dst`.
pub fn push_range(dst: &mut Vec<char>, src: &Vec<char>, a: usize, b: usize)
    requires
        a <= b <= src.len(),
    ensures
        final(dst)@ == old(dst)@ + src@.subrange(a as int, b as int),
{
    let mut i: usize = a;
    while i < b
        invariant
            a <= i <= b <= src.len(),
            dst@ == old(dst)@ + src@.subrange(a as int, i as int),
        decreases b - i,
    {
        dst.push(src[i]);
        assert(src@.subrange(a as int, i + 1) == src@.subrange(a as int, i as int).push(
            src@[i as int],
        ));
        i += 1;
    }
}

/// The characters `v[a..b]`.
pub fn slice_of(v: &Vec<char>, a: usize, b: usize) -> (r: Vec<char>)
    requires
        a <= b <= v.len(),
    ensures
        r@ == v@.subrange(a as int, b as int),
{
    let mut r: Vec<char> = Vec::new();
    push_range(&mut r, v, a, b);
    assert(Seq::<char>::empty() + v@.subrange(a as int, b as int) == v@.subrange(
        a as int,
        b as int,
    ));
    r
}

/// Whether `c` has the Unicode `White_Space` property.
pub fn is_whitespace(c: char) -> (r: bool)
    ensures
        r == is_ws(c),
{
    ('\u{9}' <= c && c <= '\u{d}') || c == ' ' || c == '\u{85}' || c == '\u{a0}' || c
        == '\u{1680}' || ('\u{2000}' <= c && c <= '\u{200a}') || c == '\u{2028}' || c
        == '\u{2029}' || c == '\u{202f}' || c == '\u{205f}' || c == '\u{3000}'
}

/// Index of the first `c` in `v` at or after `from`, or `v.len()`.
pub fn find_char(v: &Vec<char>, c: char, from: usize) -> (r: usize)
    requires
        from <= v.len(),
    ensures
        r as int == char_pos(v@, c, from as int),
        from <= r <= v.len(),
{
    let mut i = from;
    while i < v.len() && v[i] != c
        invariant
            from <= i <= v.len(),
            char_pos(v@, c, from as int) == char_pos(v@, c, i as int),
        decreases v.len() - i,
    {
        i += 1;
    }
    i
}

/// Whether `v` holds `c`.
pub fn contains_char(v: &Vec<char>, c: char) -> (r: bool)
    ensures
        r == has_char(v@, c),
{
    let k = find_char(v, c, 0);
    proof {
        lemma_char_pos_bounds(v@, c, 0);
    }
    k < v.len()
}

/// Whether `p` occurs in `v` at position `i`.
pub fn matches_at(v: &Vec<char>, p: &Vec<char>, i: usize) -> (r: bool)
    ensures
        r == occurs_at(v@, p@, i as int),
{
    if i > v.len() || p.len() > v.len() - i {
        return false;
    }
    let mut j: usize = 0;
    while j < p.len()
        invariant
            j <= p.len(),
            i + p.len() <= v.len(),
            forall|k: int| 0 <= k < j ==> v@[i + k] == p@[k],
        decreases p.len() - j,
    {
        if v[i + j] != p[j] {
            assert(v@.subrange(i as int, i + p.len())[j as int] != p@[j as int]);
            return false;
        }
        j += 1;
    }
    assert(v@.subrange(i as int, i + p.len()) == p@);
    true
}

/// Whether `v` begins with `p`.
pub fn starts_with(v: &Vec<char>, p: &Vec<char>) -> (r: bool)
    ensures
        r == starts_with_spec(v@, p@),
{
    matches_at(v, p, 0)
}

/// Whether `v` ends with `p`.
pub fn ends_with(v: &Vec<char>, p: &Vec<char>) -> (r: bool)
    ensures
        r == ends_with_spec(v@, p@),
{
    if p.len() > v.len() {
        return false;
    }
    matches_at(v, p, v.len() - p.len())
}

/// Position of the first occurrence of `p` in `v` at or after `from`.
pub fn find_seq(v: &Vec<char>, p: &Vec<char>, from: usize) -> (r: Option<usize>)
    ensures
        r == match find_from(v@, p@, from as int) {
            Some(k) => Some(k as usize),
            None => None::<usize>,
        },
        r matches Some(k) ==> from <= k && occurs_at(v@, p@, k as int),
{
    proof {
        lemma_find_from_bounds(v@, p@, from as int);
    }
    if from > v.len() {
        return None;
    }
    let mut i = from;
    while p.len() <= v.len() - i
        invariant
            from <= i <= v.len(),
            find_from(v@, p@, from as int) == find_from(v@, p@, i as int),
        decreases v.len() + 1 - i,
    {
        if matches_at(v, p, i) {
            return Some(i);
        }
        if i == v.len() {
            assert(v@.subrange(i as int, i as int) == p@);
            return None;
        }
        i += 1;
    }
    None
}

/// Whether `a` and `b` hold the same characters.
pub fn same_chars(a: &Vec<char>, b: &Vec<char>) -> (r: bool)
    ensures
        r == (a@ == b@),
{
    if a.len() != b.len() {
        return false;
    }
    let mut i: usize = 0;
    while i < a.len()
        invariant
            i <= a.len() == b.len(),
            forall|k: int| 0 <= k < i ==> a@[k] == b@[k],
        decreases a.len() - i,
    {
        if a[i] != b[i] {
            return false;
        }
        i += 1;
    }
    assert(a@ == b@);
    true
}

/// `v` without leading whitespace.
pub fn trim_start(v: &Vec<char>) -> (r: Vec<char>)
    ensures
        r@ == trim_start_spec(v@),
{
    let mut i: usize = 0;
    while i < v.len() && is_whitespace(v[i])
        invariant
            i <= v.len(),
            forall|j: int| 0 <= j < i ==> is_ws(v@[j]),
        decreases v.len() - i,
    {
        i += 1;
    }
    proof {
        lemma_trim_start_skip(v@, i as int);
    }
    slice_of(v, i, v.len())
}

/// `v` without trailing whitespace.
pub fn trim_end(v: &Vec<char>) -> (r: Vec<char>)
    ensures
        r@ == trim_end_spec(v@),
{
    let mut k: usize = v.len();
    while k > 0 && is_whitespace(v[k - 1])
        invariant
            k <= v.len(),
            forall|j: int| k <= j < v.len() ==> is_ws(v@[j]),
        decreases k,
    {
        k -= 1;
    }
    proof {
        lemma_trim_end_take(v@, k as int);
    }
    slice_of(v, 0, k)
}

/// `v` without leading and trailing whitespace.
pub fn trim(v: &Vec<char>) -> (r: Vec<char>)
    ensures
        r@ == trim_spec(v@),
{
    let t = trim_start(v);
    trim_end(&t)
}

/// The lines of `v`, as `str::lines` gives them.
pub fn lines(v: &Vec<char>) -> (r: Vec<Vec<char>>)
    ensures
        views(r@) == lines_spec(v@),
{
    let mut r: Vec<Vec<char>> = Vec::new();
    let mut i: usize = 0;
    while i < v.len()
        invariant
            i <= v.len(),
            views(r@) + lines_from(v@, i as int) == lines_spec(v@),
        decreases v.len() - i,
    {
        let k = find_char(v, '\n', i);
        let ghost before = views(r@);
        if k < v.len() {
            let mut line = slice_of(v, i, k);
            if line.len() > 0 && line[line.len() - 1] == '\r' {
                line.pop();
            }
            assert(line@ == strip_cr(v@.subrange(i as int, k as int)));
            r.push(line);
            assert(views(r@) == before.push(line@));
            assert(lines_from(v@, i as int) == seq![line@] + lines_from(v@, k + 1));
            assert(before + lines_from(v@, i as int) == views(r@) + lines_from(v@, k + 1));
            i = k + 1;
        } else {
            let line = slice_of(v, i, v.len());
            r.push(line);
            assert(views(r@) == before.push(line@));
            assert(lines_from(v@, i as int) == seq![line@]);
            assert(lines_from(v@, v.len() as int) == Seq::<Seq<char>>::empty());
            assert(before + lines_from(v@, i as int) == views(r@) + lines_from(
                v@,
                v.len() as int,
            ));
            i = v.len();
        }
    }
    assert(lines_from(v@, i as int) == Seq::<Seq<char>>::empty());
    assert(views(r@) + Seq::<Seq<char>>::empty() == views(r@));
    r
}

/// The pieces of `v` between the occurrences of `c`, as `str::split` gives them.
pub fn split(v: &Vec<char>, c: char) -> (r: Vec<Vec<char>>)
    ensures
        views(r@) == split_spec(v@, c),
{
    let mut r: Vec<Vec<char>> = Vec::new();
    let mut i: usize = 0;
    loop
        invariant
            i <= v.len(),
            views(r@) + split_from(v@, c, i as int) == split_spec(v@, c),
        decreases v.len() - i,
    {
        let k = find_char(v, c, i);
        let ghost before = views(r@);
        let piece = slice_of(v, i, k);
        r.push(piece);
        assert(views(r@) == before.push(piece@));
        if k < v.len() {
            assert(split_from(v@, c, i as int) == seq![piece@] + split_from(v@, c, k + 1));
            assert(before + split_from(v@, c, i as int) == views(r@) + split_from(
                v@,
                c,
                k + 1,
            ));
            i = k + 1;
        } else {
            assert(split_from(v@, c, i as int) == seq![piece@]);
            assert(before + seq![piece@] == views(r@));
            return r;
        }
    }
}

/// The parts joined with `sep` between neighbours.
pub fn join(parts: &Vec<Vec<char>>, sep: &Vec<char>) -> (r: Vec<char>)
    ensures
        r@ == join_spec(views(parts@), sep@),
{
    let mut r: Vec<char> = Vec::new();
    let mut i: usize = 0;
    while i < parts.len()
        invariant
            i <= parts.len(),
            r@ == join_spec(views(parts@).take(i as int), sep@),
        decreases parts.len() - i,
    {
        proof {
            lemma_join_push(views(parts@).take(i as int), sep@, parts@[i as int]@);
            assert(views(parts@).take(i + 1) == views(parts@).take(i as int).push(
                parts@[i as int]@,
            ));
        }
        if i > 0 {
            push_all(&mut r, sep);
        }
        push_all(&mut r, &parts[i]);
        if i == 0 {
            assert(r@ == parts@[0]@);
        }
        i += 1;
    }
    assert(views(parts@).take(parts.len() as int) == views(parts@));
    r
}

/// `v` with every occurrence of the non-empty `pat` replaced by `rep`.
pub fn replace_all(v: &Vec<char>, pat: &Vec<char>, rep: &Vec<char>) -> (r: Vec<char>)
    requires
        pat.len() > 0,
    ensures
        r@ == replace_spec(v@, pat@, rep@),
{
    let mut r: Vec<char> = Vec::new();
    let mut i: usize = 0;
    loop
        invariant
            i <= v.len(),
            pat.len() > 0,
            r@ + replace_from(v@, pat@, rep@, i as int) == replace_spec(v@, pat@, rep@),
        decreases v.len() - i,
    {
        proof {
            lemma_find_from_bounds(v@, pat@, i as int);
        }
        match find_seq(v, pat, i) {
            Some(k) => {
                let ghost before = r@;
                push_range(&mut r, v, i, k);
                push_all(&mut r, rep);
                assert(r@ == before + v@.subrange(i as int, k as int) + rep@);
                i = k + pat.len();
            },
            None => {
                push_range(&mut r, v, i, v.len());
                return r;
            },
        }
    }
}

/// A part of `s` holds no character that `s` does not hold.
pub proof fn lemma_subrange_lacks(s: Seq<char>, a: int, b: int, c: char)
    requires
        0 <= a <= b <= s.len(),
        !has_char(s, c),
    ensures
        !has_char(s.subrange(a, b), c),
{
    let t = s.subrange(a, b);
    assert forall|j: int| 0 <= j < t.len() implies t[j] != c by {
        assert(t[j] == s[a + j]);
    }
}

/// No line of `s` holds a `\n`.
pub proof fn lemma_lines_lack_newline(s: Seq<char>, i: int)
    requires
        0 <= i,
    ensures
        forall|m: int|
            0 <= m < lines_from(s, i).len() ==> !has_char(#[trigger] lines_from(s, i)[m], '\n'),
    decreases s.len() - i,
{
    if i < s.len() {
        let k = char_pos(s, '\n', i);
        lemma_char_pos_bounds(s, '\n', i);
        let part = s.subrange(i, k);
        assert forall|j: int| 0 <= j < part.len() implies part[j] != '\n' by {
            assert(part[j] == s[i + j]);
        }
        if k < s.len() {
            lemma_lines_lack_newline(s, k + 1);
            let line = strip_cr(part);
            assert forall|j: int| 0 <= j < line.len() implies line[j] != '\n' by {
                assert(line[j] == part[j]);
            }
            assert forall|m: int| 0 <= m < lines_from(s, i).len() implies !has_char(
                #[trigger] lines_from(s, i)[m],
                '\n',
            ) by {
                if m > 0 {
                    assert(lines_from(s, i)[m] == lines_from(s, k + 1)[m - 1]);
                }
            }
        }
    }
}

/// Each part that splitting at `c` gives lacks `c`, and lacks whatever `s`
/// lacks.
pub proof fn lemma_split_parts_lack(s: Seq<char>, c: char, d: char, i: int)
    requires
        0 <= i,
    ensures
        forall|m: int|
            0 <= m < split_from(s, c, i).len() ==> !has_char(#[trigger] split_from(s, c, i)[m], c)
                && (!has_char(s, d) ==> !has_char(split_from(s, c, i)[m], d)),
    decreases s.len() - i,
{
    let k = char_pos(s, c, i);
    lemma_char_pos_bounds(s, c, i);
    if i <= s.len() {
        let part = s.subrange(i, k);
        assert forall|j: int| 0 <= j < part.len() implies part[j] != c by {
            assert(part[j] == s[i + j]);
        }
        if !has_char(s, d) {
            lemma_subrange_lacks(s, i, k, d);
        }
        if k < s.len() {
            lemma_split_parts_lack(s, c, d, k + 1);
            assert forall|m: int| 0 <= m < split_from(s, c, i).len() implies !has_char(
                #[trigger] split_from(s, c, i)[m],
                c,
            ) && (!has_char(s, d) ==> !has_char(split_from(s, c, i)[m], d)) by {
                if m > 0 {
                    assert(split_from(s, c, i)[m] == split_from(s, c, k + 1)[m - 1]);
                }
            }
        }
    }
}

/// What trimming leaves is a part of the text that does not end with
/// whitespace.
pub proof fn lemma_trim_lacks(s: Seq<char>, c: char)
    ensures
        !has_char(s, c) ==> !has_char(trim_spec(s), c),
        !has_char(s, c) ==> !has_char(trim_end_spec(s), c),
        trim_spec(s).len() > 0 ==> !is_ws(trim_spec(s).last()),
        trim_end_spec(s).len() > 0 ==> !is_ws(trim_end_spec(s).last()),
{
    lemma_trim_start_suffix(s);
    let a = trim_start_spec(s);
    lemma_trim_end_prefix(a);
    lemma_trim_end_prefix(s);
    lemma_trim_end_last(a);
    lemma_trim_end_last(s);
    if !has_char(s, c) {
        lemma_subrange_lacks(s, s.len() - a.len(), s.len() as int, c);
        assert(a == s.subrange(s.len() - a.len(), s.len() as int));
        lemma_subrange_lacks(a, 0, trim_end_spec(a).len() as int, c);
        assert(trim_end_spec(a) == a.subrange(0, trim_end_spec(a).len() as int));
        lemma_subrange_lacks(s, 0, trim_end_spec(s).len() as int, c);
        assert(trim_end_spec(s) == s.subrange(0, trim_end_spec(s).len() as int));
    }
}

proof fn lemma_trim_end_last(s: Seq<char>)
    ensures
        trim_end_spec(s).len() > 0 ==> !is_ws(trim_end_spec(s).last()),
    decreases s.len(),
{
    if s.len() > 0 && is_ws(s.last()) {
        lemma_trim_end_last(s.drop_last());
    }
}

/// Joined parts hold a character only where a part or the separator does,
/// and end as the last part ends.
pub proof fn lemma_join_lacks(parts: Seq<Seq<char>>, sep: Seq<char>, c: char)
    ensures
        (forall|m: int| 0 <= m < parts.len() ==> !has_char(#[trigger] parts[m], c)) && !has_char(
            sep,
            c,
        ) ==> !has_char(join_spec(parts, sep), c),
        parts.len() > 0 && parts.last().len() > 0 ==> join_spec(parts, sep).len() > 0
            && join_spec(parts, sep).last() == parts.last().last(),
    decreases parts.len(),
{
    if parts.len() > 1 {
        let d = parts.drop_last();
        lemma_join_lacks(d, sep, c);
        if (forall|m: int| 0 <= m < parts.len() ==> !has_char(#[trigger] parts[m], c)) && !has_char(
            sep,
            c,
        ) {
            assert forall|m: int| 0 <= m < d.len() implies !has_char(#[trigger] d[m], c) by {
                assert(d[m] == parts[m]);
            }
            let j = join_spec(d, sep);
            let all = j + sep + parts.last();
            assert(!has_char(parts.last(), c));
            assert forall|k: int| 0 <= k < all.len() implies all[k] != c by {
                if k < j.len() {
                    assert(all[k] == j[k]);
                } else if k < j.len() + sep.len() {
                    assert(all[k] == sep[k - j.len()]);
                } else {
                    assert(all[k] == parts.last()[k - j.len() - sep.len()]);
                }
            }
        }
    } else if parts.len() == 1 {
        assert(parts.last() == parts[0]);
    }
}

/// Two texts that lack a character joined together lack it too.
pub proof fn lemma_concat_lacks(a: Seq<char>, b: Seq<char>, c: char)
    requires
        !has_char(a, c),
        !has_char(b, c),
    ensures
        !has_char(a + b, c),
{
    let t = a + b;
    assert forall|j: int| 0 <= j < t.len() implies t[j] != c by {
        if j < a.len() {
            assert(t[j] == a[j]);
        } else {
            assert(t[j] == b[j - a.len()]);
        }
    }
}

} // verus!
