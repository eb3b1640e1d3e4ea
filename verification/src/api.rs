//! The Wikipedia REST API as the library sees it: the records it returns, the
//! URLs it is asked at, and the decisions of a summary lookup (direct, then
//! through a search for the title). The HTTP exchanges are made by the caller.
use vstd::prelude::*;
use vstd::utf8::encode_utf8;

use crate::format::{decimal, decimal_digits};
use crate::text::{chars_of, join_spec, push_all, string_of};

verus! {

// ---------------------------------------------------------------------------
// Records
// ---------------------------------------------------------------------------
/// The answer to a search.
pub struct SearchResponse {
    pub pages: Vec<SearchPage>,
}

/// One page found by a search.
pub struct SearchPage {
    pub id: u64,
    pub key: String,
    pub title: String,
    pub description: Option<String>,
    pub excerpt: Option<String>,
}

/// An article's summary.
pub struct Summary {
    pub title: String,
    pub description: Option<String>,
    pub extract: Option<String>,
    pub content_urls: Option<ContentUrls>,
}

/// The URLs of an article.
pub struct ContentUrls {
    pub desktop: Option<UrlSet>,
}

/// The URLs of an article for one kind of client.
pub struct UrlSet {
    pub page: Option<String>,
}

impl Summary {
    /// The desktop page URL, where the summary has one.
    pub open spec fn page_url_spec(&self) -> Option<Seq<char>> {
        match self.content_urls {
            Some(cu) => match cu.desktop {
                Some(d) => match d.page {
                    Some(p) => Some(p@),
                    None => None,
                },
                None => None,
            },
            None => None,
        }
    }

    /// The desktop page URL of the article, where the summary has one.
    pub fn page_url(&self) -> (r: Option<String>)
        ensures
            match r {
                Some(u) => self.page_url_spec() == Some(u@),
                None => self.page_url_spec() is None,
            },
    {
        match &self.content_urls {
            Some(cu) => match &cu.desktop {
                Some(d) => match &d.page {
                    Some(p) => Some(p.clone()),
                    None => None,
                },
                None => None,
            },
            None => None,
        }
    }
}

// ---------------------------------------------------------------------------
// URLs
// ---------------------------------------------------------------------------
/// A byte that percent-encoding keeps: an ASCII letter or digit, `-`, `.`,
/// `_` or `~`.
pub open spec fn is_unreserved(b: u8) -> bool {
    (48 <= b <= 57) || (65 <= b <= 90) || (97 <= b <= 122) || b == 45 || b == 46 || b == 95
        || b == 126
}

/// The upper-case hexadecimal digit of `v` (below 16).
pub open spec fn hex_char(v: u8) -> char {
    if v < 10 {
        (48 + v) as char
    } else {
        (55 + v) as char
    }
}

/// The bytes percent-encoded: kept bytes as characters, every other byte as
/// `%` and two upper-case hexadecimal digits.
pub open spec fn percent_encode_bytes(b: Seq<u8>) -> Seq<char>
    decreases b.len(),
{
    if b.len() == 0 {
        seq![]
    } else {
        let head = if is_unreserved(b[0]) {
            seq![b[0] as char]
        } else {
            seq!['%', hex_char(b[0] / 16), hex_char(b[0] % 16)]
        };
        head + percent_encode_bytes(b.drop_first())
    }
}

/// `s` percent-encoded as a URL path segment, byte by byte of its UTF-8 form.
pub open spec fn url_encoded(s: Seq<char>) -> Seq<char> {
    percent_encode_bytes(encode_utf8(s))
}

/// `urlencoding::encode`: percent-encodes every byte of the UTF-8 form of `s`
/// except ASCII letters, digits, `-`, `.`, `_` and `~`, with upper-case
/// hexadecimal digits.
#[verifier::external_body]
fn url_encode(s: &str) -> (r: String)
    ensures
        r@ == url_encoded(s@),
{
    urlencoding::encode(s).into_owned()
}

/// The address of the Wikipedia for language `lang`.
pub open spec fn base_spec(lang: Seq<char>) -> Seq<char> {
    "https://"@ + lang + ".wikipedia.org"@
}

fn concat3(a: &str, b: &str, c: &str) -> (r: String)
    ensures
        r@ == a@ + b@ + c@,
{
    let mut v = chars_of(a);
    push_all(&mut v, &chars_of(b));
    push_all(&mut v, &chars_of(c));
    string_of(&v)
}

fn concat2(a: &str, b: &str) -> (r: String)
    ensures
        r@ == a@ + b@,
{
    let mut v = chars_of(a);
    push_all(&mut v, &chars_of(b));
    string_of(&v)
}

/// The address of the Wikipedia for language `lang`.
pub fn base_url(lang: &str) -> (r: String)
    ensures
        r@ == base_spec(lang@),
{
    concat3("https://", lang, ".wikipedia.org")
}

/// The address of the page search.
pub fn search_url(lang: &str) -> (r: String)
    ensures
        r@ == base_spec(lang@) + "/w/rest.php/v1/search/page"@,
{
    let base = base_url(lang);
    concat2(base.as_str(), "/w/rest.php/v1/search/page")
}

/// The address of an article's summary.
pub fn summary_url(lang: &str, title: &str) -> (r: String)
    ensures
        r@ == base_spec(lang@) + "/api/rest_v1/page/summary/"@ + url_encoded(title@),
{
    let base = base_url(lang);
    let encoded = url_encode(title);
    concat3(base.as_str(), "/api/rest_v1/page/summary/", encoded.as_str())
}

/// The address of an article's HTML.
pub fn page_html_url(lang: &str, title: &str) -> (r: String)
    ensures
        r@ == base_spec(lang@) + "/api/rest_v1/page/html/"@ + url_encoded(title@),
{
    let base = base_url(lang);
    let encoded = url_encode(title);
    concat3(base.as_str(), "/api/rest_v1/page/html/", encoded.as_str())
}

/// The address of a random article's summary.
pub fn random_summary_url(lang: &str) -> (r: String)
    ensures
        r@ == base_spec(lang@) + "/api/rest_v1/page/random/summary"@,
{
    let base = base_url(lang);
    concat2(base.as_str(), "/api/rest_v1/page/random/summary")
}

/// The query parameters of a search: `q`, the query, and `limit`, the
/// largest number of results, in decimal.
pub fn search_query(query: &str, limit: u32) -> (r: Vec<(String, String)>)
    ensures
        r.len() == 2,
        r[0].0@ == "q"@,
        r[0].1@ == query@,
        r[1].0@ == "limit"@,
        r[1].1@ == decimal(limit as nat),
{
    let digits = decimal_digits(limit as u64);
    let mut r: Vec<(String, String)> = Vec::new();
    r.push(("q".to_string(), query.to_string()));
    r.push(("limit".to_string(), string_of(&digits)));
    r
}

/// The words of a command line joined with single spaces.
pub fn join_words(words: &Vec<String>) -> (r: String)
    ensures
        r@ == join_spec(Seq::new(words.len() as nat, |i: int| words@[i]@), seq![' ']),
{
    let ghost all = Seq::new(words.len() as nat, |i: int| words@[i]@);
    let mut v: Vec<char> = Vec::new();
    let mut i: usize = 0;
    while i < words.len()
        invariant
            i <= words.len(),
            all == Seq::new(words.len() as nat, |i: int| words@[i]@),
            v@ == join_spec(all.take(i as int), seq![' ']),
        decreases words.len() - i,
    {
        proof {
            crate::text::lemma_join_push(all.take(i as int), seq![' '], all[i as int]);
            assert(all.take(i + 1) == all.take(i as int).push(all[i as int]));
        }
        if i > 0 {
            v.push(' ');
        }
        push_all(&mut v, &chars_of(words[i].as_str()));
        i += 1;
    }
    assert(all.take(words.len() as int) == all);
    string_of(&v)
}

// ---------------------------------------------------------------------------
// Summary lookup
// ---------------------------------------------------------------------------
/// Where a summary lookup stands.
pub enum LookupState {
    /// The summary of the title as given has been asked for.
    Direct,
    /// The title is being searched for.
    Searching,
    /// The summary of the first search result has been asked for.
    Retrying,
    /// The lookup is over.
    Done,
}

/// What the caller reports back.
pub enum LookupEvent {
    /// The summary asked for, or `None` when the page does not exist.
    Fetched(Option<Summary>),
    /// The answer to the search asked for.
    Searched(SearchResponse),
}

/// What the caller is to do next.
pub enum LookupAction {
    /// Fetch the summary of this title.
    FetchSummary(String),
    /// Search for this query, with at most this many results.
    Search(String, u32),
    /// The lookup found this summary.
    Found(Summary),
    /// No page matches the title (the title as asked for).
    NotFound(String),
}

/// A lookup of an article's summary by title: the title as given first, then
/// the title of the first search result for it.
pub struct SummaryLookup {
    pub title: String,
    pub state: LookupState,
}

/// How many steps a state can still take.
pub open spec fn rank(s: LookupState) -> nat {
    match s {
        LookupState::Direct => 3,
        LookupState::Searching => 2,
        LookupState::Retrying => 1,
        LookupState::Done => 0,
    }
}

impl SummaryLookup {
    /// Whether the lookup waits for this kind of event.
    pub open spec fn expects(&self, e: LookupEvent) -> bool {
        match self.state {
            LookupState::Direct => e is Fetched,
            LookupState::Searching => e is Searched,
            LookupState::Retrying => e is Fetched,
            LookupState::Done => false,
        }
    }

    /// Starts a lookup of `title`: the first action is to fetch its summary.
    pub fn new(title: &str) -> (r: (SummaryLookup, LookupAction))
        ensures
            r.0.title@ == title@,
            r.0.state == LookupState::Direct,
            r.1 matches LookupAction::FetchSummary(t) && t@ == title@,
    {
        (
            SummaryLookup { title: title.to_string(), state: LookupState::Direct },
            LookupAction::FetchSummary(title.to_string()),
        )
    }

    /// Takes in what the last action gave and returns the next action. A
    /// summary found is the answer; a missing page leads to a search for the
    /// title (one result), and a search result to a second fetch under that
    /// result's title; otherwise the title is not found. An event the lookup
    /// does not wait for ends it with the title not found.
    pub fn step(&mut self, event: LookupEvent) -> (action: LookupAction)
        ensures
            final(self).title == old(self).title,
            old(self).state != LookupState::Done ==> rank(final(self).state) < rank(old(self).state),
            final(self).state == LookupState::Done <==> (action is Found || action is NotFound),
            action matches LookupAction::NotFound(t) ==> t@ == old(self).title@,
            !old(self).expects(event) ==> action is NotFound,
            match (old(self).state, event) {
                (LookupState::Direct, LookupEvent::Fetched(Some(s))) => action == LookupAction::Found(s),
                (LookupState::Direct, LookupEvent::Fetched(None)) => {
                    &&& action matches LookupAction::Search(q, n) && q@ == old(self).title@ && n == 1
                    &&& final(self).state == LookupState::Searching
                },
                (LookupState::Searching, LookupEvent::Searched(resp)) => if resp.pages.len() > 0 {
                    &&& action matches LookupAction::FetchSummary(t) && t@ == resp.pages[0].title@
                    &&& final(self).state == LookupState::Retrying
                } else {
                    action is NotFound
                },
                (LookupState::Retrying, LookupEvent::Fetched(Some(s))) => action == LookupAction::Found(s),
                (LookupState::Retrying, LookupEvent::Fetched(None)) => action is NotFound,
                _ => action is NotFound,
            },
    {
        match self.state {
            LookupState::Direct => match event {
                LookupEvent::Fetched(Some(s)) => {
                    self.state = LookupState::Done;
                    LookupAction::Found(s)
                },
                LookupEvent::Fetched(None) => {
                    self.state = LookupState::Searching;
                    LookupAction::Search(self.title.clone(), 1)
                },
                LookupEvent::Searched(_) => {
                    self.state = LookupState::Done;
                    LookupAction::NotFound(self.title.clone())
                },
            },
            LookupState::Searching => match event {
                LookupEvent::Searched(resp) => {
                    if resp.pages.len() > 0 {
                        self.state = LookupState::Retrying;
                        LookupAction::FetchSummary(resp.pages[0].title.clone())
                    } else {
                        self.state = LookupState::Done;
                        LookupAction::NotFound(self.title.clone())
                    }
                },
                LookupEvent::Fetched(_) => {
                    self.state = LookupState::Done;
                    LookupAction::NotFound(self.title.clone())
                },
            },
            LookupState::Retrying => {
                self.state = LookupState::Done;
                match event {
                    LookupEvent::Fetched(Some(s)) => LookupAction::Found(s),
                    _ => LookupAction::NotFound(self.title.clone()),
                }
            },
            LookupState::Done => LookupAction::NotFound(self.title.clone()),
        }
    }
}

} // verus!
