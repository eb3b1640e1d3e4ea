//! Which pager shows long output, and with which arguments.
use vstd::prelude::*;

use crate::links::string_views;
use crate::text::{chars_of, ends_with, ends_with_spec, is_whitespace, is_ws, slice_of, string_of};

verus! {

/// The end of the word of `s` that starts at `i`: the first whitespace at or
/// after `i`, or the end of `s`.
pub open spec fn word_end(s: Seq<char>, i: int) -> int
    decreases s.len() - i,
{
    if 0 <= i < s.len() && !is_ws(s[i]) {
        word_end(s, i + 1)
    } else {
        i
    }
}

/// The words of `s` from index `i` on: its runs of non-whitespace, as
/// `str::split_whitespace` yields them.
pub open spec fn words_from(s: Seq<char>, i: int) -> Seq<Seq<char>>
    decreases s.len() - i,
{
    if i < 0 || i >= s.len() {
        seq![]
    } else if is_ws(s[i]) {
        words_from(s, i + 1)
    } else {
        let k = word_end(s, i);
        if i < k <= s.len() {
            seq![s.subrange(i, k)] + words_from(s, k)
        } else {
            seq![]
        }
    }
}

/// The words of `s`.
pub open spec fn words(s: Seq<char>) -> Seq<Seq<char>> {
    words_from(s, 0)
}

proof fn lemma_word_end(s: Seq<char>, i: int)
    requires
        0 <= i <= s.len(),
    ensures
        i <= word_end(s, i) <= s.len(),
        word_end(s, i) < s.len() ==> is_ws(s[word_end(s, i)]),
    decreases s.len() - i,
{
    if i < s.len() && !is_ws(s[i]) {
        lemma_word_end(s, i + 1);
    }
}

/// The words of `v`, as `str::split_whitespace` gives them.
pub fn split_whitespace(v: &Vec<char>) -> (r: Vec<Vec<char>>)
    ensures
        crate::text::views(r@) == words(v@),
{
    let mut r: Vec<Vec<char>> = Vec::new();
    let mut i: usize = 0;
    while i < v.len()
        invariant
            i <= v.len(),
            crate::text::views(r@) + words_from(v@, i as int) == words(v@),
        decreases v.len() - i,
    {
        if is_whitespace(v[i]) {
            i += 1;
        } else {
            let start = i;
            proof {
                lemma_word_end(v@, i as int);
            }
            while i < v.len() && !is_whitespace(v[i])
                invariant
                    start <= i <= v.len(),
                    word_end(v@, start as int) == word_end(v@, i as int),
                decreases v.len() - i,
            {
                i += 1;
            }
            let w = slice_of(v, start, i);
            let ghost before = crate::text::views(r@);
            r.push(w);
            assert(crate::text::views(r@) == before.push(w@));
            assert(words_from(v@, start as int) == seq![w@] + words_from(v@, i as int));
            assert(before + words_from(v@, start as int) == crate::text::views(r@) + words_from(
                v@,
                i as int,
            ));
        }
    }
    assert(words_from(v@, i as int) == Seq::<Seq<char>>::empty());
    assert(crate::text::views(r@) + Seq::<Seq<char>>::empty() == crate::text::views(r@));
    r
}

/// The pager and its arguments for the value of `PAGER` (`None` when it is
/// not set): its first word (`less` when there is none) and the other words;
/// a `less` with no arguments gets `-RFX`.
pub open spec fn pager_choice(pager_env: Option<Seq<char>>) -> (Seq<char>, Seq<Seq<char>>) {
    let value = match pager_env {
        Some(e) => e,
        None => "less"@,
    };
    let ws = words(value);
    let pager = if ws.len() > 0 {
        ws[0]
    } else {
        "less"@
    };
    let args = if ws.len() > 0 {
        ws.skip(1)
    } else {
        seq![]
    };
    if ends_with_spec(pager, "less"@) && args.len() == 0 {
        (pager, seq!["-RFX"@])
    } else {
        (pager, args)
    }
}

/// The pager command to run for the value of `PAGER`.
pub fn pager_command(pager_env: Option<&str>) -> (r: (String, Vec<String>))
    ensures
        (r.0@, string_views(r.1@)) == pager_choice(
            match pager_env {
                Some(e) => Some(e@),
                None => None,
            },
        ),
{
    let value = match pager_env {
        Some(e) => chars_of(e),
        None => chars_of("less"),
    };
    let ws = split_whitespace(&value);
    let ghost wv = crate::text::views(ws@);
    let pager = if ws.len() > 0 {
        string_of(&ws[0])
    } else {
        "less".to_string()
    };
    let mut args: Vec<String> = Vec::new();
    let mut i: usize = 1;
    while i < ws.len()
        invariant
            1 <= i <= ws.len() || ws.len() == 0,
            wv == crate::text::views(ws@),
            ws.len() > 0 ==> string_views(args@) == wv.skip(1).take(i - 1),
            ws.len() == 0 ==> args@.len() == 0,
        decreases ws.len() - i,
    {
        let ghost before = string_views(args@);
        args.push(string_of(&ws[i]));
        assert(string_views(args@) == before.push(wv[i as int]));
        assert(wv.skip(1).take(i as int) == wv.skip(1).take(i - 1).push(wv[i as int]));
        i += 1;
    }
    if ws.len() > 0 {
        assert(wv.skip(1).take(ws.len() - 1) == wv.skip(1));
    } else {
        assert(string_views(args@) == Seq::<Seq<char>>::empty());
    }
    if ends_with(&chars_of(pager.as_str()), &chars_of("less")) && args.len() == 0 {
        let mut only: Vec<String> = Vec::new();
        only.push("-RFX".to_string());
        assert(string_views(only@) == seq!["-RFX"@]);
        (pager, only)
    } else {
        (pager, args)
    }
}

/// Any pager whose name ends with `less`, given without arguments, runs with
/// `-RFX` (`less`, `/usr/bin/less`, ...); a pager given with arguments runs
/// with exactly those; with no word at all, `less -RFX` runs.
pub proof fn lemma_pager_arguments(e: Seq<char>)
    ensures
        words(e).len() == 1 && ends_with_spec(words(e)[0], "less"@) ==> pager_choice(Some(e)) == (
            words(e)[0],
            seq!["-RFX"@],
        ),
        words(e).len() > 1 ==> pager_choice(Some(e)) == (words(e)[0], words(e).skip(1)),
        words(e).len() == 0 ==> pager_choice(Some(e)) == ("less"@, seq!["-RFX"@]),
{
    let l = "less"@;
    assert(l.subrange(0, l.len() as int) == l);
    assert(l.len() - l.len() == 0);
}

} // verus!
