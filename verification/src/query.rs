//! Search queries: parsing with stop words and stemming, request parameters,
//! and the bookkeeping around fanning a query out to the index shards.
use vstd::prelude::*;
use vstd::hash_map::StringHashMap;
use crate::snippet::{lowercase_spec, to_lowercase, QueryActor};
use crate::text::{chars_of, has_prefix, join, join_strings, same_chars, slice_chars, split_whitespace, starts_with, string_from_chars, words};

verus! {

/// The languages that queries can be analysed in.
#[derive(Clone, Copy, PartialEq, Eq, Debug)]
pub enum Lang {
    En,
    Es,
    Fr,
    De,
    Pt,
    It,
    Nl,
}

/// The language of an ISO 639-1 code; English for any code not supported.
pub open spec fn lang_of(code: Seq<char>) -> Lang {
    if code == "es"@ {
        Lang::Es
    } else if code == "fr"@ {
        Lang::Fr
    } else if code == "de"@ {
        Lang::De
    } else if code == "pt"@ {
        Lang::Pt
    } else if code == "it"@ {
        Lang::It
    } else if code == "nl"@ {
        Lang::Nl
    } else {
        Lang::En
    }
}

/// The language a code names.
pub fn lang_from_code(code: &str) -> (r: Lang)
    ensures
        r == lang_of(code@),
{
    let c = chars_of(code);
    if same_chars(c.as_slice(), chars_of("es").as_slice()) {
        Lang::Es
    } else if same_chars(c.as_slice(), chars_of("fr").as_slice()) {
        Lang::Fr
    } else if same_chars(c.as_slice(), chars_of("de").as_slice()) {
        Lang::De
    } else if same_chars(c.as_slice(), chars_of("pt").as_slice()) {
        Lang::Pt
    } else if same_chars(c.as_slice(), chars_of("it").as_slice()) {
        Lang::It
    } else if same_chars(c.as_slice(), chars_of("nl").as_slice()) {
        Lang::Nl
    } else {
        Lang::En
    }
}

/// The stop words that the `stop-words` crate lists for `lang`.
pub uninterp spec fn stop_words_spec(lang: Lang) -> Seq<Seq<char>>;

/// Calls `stop_words::get` with the crate's `Language` for `lang` and copies
/// the words; the contract claims only that the list is a function of `lang`.
#[verifier::external_body]
fn stop_words_of(lang: Lang) -> (r: Vec<String>)
    ensures
        r.deep_view() == stop_words_spec(lang),
{
    let l = match lang {
        Lang::En => stop_words::Language::English,
        Lang::Es => stop_words::Language::Spanish,
        Lang::Fr => stop_words::Language::French,
        Lang::De => stop_words::Language::German,
        Lang::Pt => stop_words::Language::Portuguese,
        Lang::It => stop_words::Language::Italian,
        Lang::Nl => stop_words::Language::Dutch,
    };
    stop_words::get(l).iter().map(|w| w.to_string()).collect()
}

/// The stem that `rust_stemmers` computes for `word` with the algorithm of `lang`.
pub uninterp spec fn stem_spec(lang: Lang, word: Seq<char>) -> Seq<char>;

/// Calls `rust_stemmers::Stemmer::create` with the algorithm of `lang` and
/// `Stemmer::stem` on `word`; the contract claims only that the stem is a
/// function of `lang` and `word`.
#[verifier::external_body]
fn stem_word(lang: Lang, word: &str) -> (r: String)
    ensures
        r@ == stem_spec(lang, word@),
{
    let a = match lang {
        Lang::En => rust_stemmers::Algorithm::English,
        Lang::Es => rust_stemmers::Algorithm::Spanish,
        Lang::Fr => rust_stemmers::Algorithm::French,
        Lang::De => rust_stemmers::Algorithm::German,
        Lang::Pt => rust_stemmers::Algorithm::Portuguese,
        Lang::It => rust_stemmers::Algorithm::Italian,
        Lang::Nl => rust_stemmers::Algorithm::Dutch,
    };
    rust_stemmers::Stemmer::create(a).stem(word).to_string()
}

/// A search query taken apart.
pub struct ParsedQuery {
    /// The query's words other than `site:` filters.
    pub original_text: String,
    /// Those words lower-cased, without stop words, stemmed.
    pub processed_text: String,
    /// The domain of the last `site:` filter.
    pub site_filter: Option<String>,
    pub language: String,
}

/// Query analysis state after some words: kept words, processed words, site filter.
pub struct QueryScan {
    pub original: Seq<Seq<char>>,
    pub processed: Seq<Seq<char>>,
    pub site: Option<Seq<char>>,
}

pub open spec fn query_step(acc: QueryScan, tok: Seq<char>, lang: Lang) -> QueryScan {
    if starts_with(tok, "site:"@) {
        QueryScan { site: Some(tok.skip("site:"@.len() as int)), ..acc }
    } else {
        let low = lowercase_spec(tok);
        QueryScan {
            original: acc.original.push(tok),
            processed: if stop_words_spec(lang).contains(low) {
                acc.processed
            } else {
                acc.processed.push(stem_spec(lang, low))
            },
            ..acc
        }
    }
}

pub open spec fn query_scan(toks: Seq<Seq<char>>, lang: Lang) -> QueryScan
    decreases toks.len(),
{
    if toks.len() == 0 {
        QueryScan { original: Seq::empty(), processed: Seq::empty(), site: None }
    } else {
        query_step(query_scan(toks.drop_last(), lang), toks.last(), lang)
    }
}

fn is_stop_word(low: &String, stops: &Vec<String>) -> (r: bool)
    ensures
        r == stops.deep_view().contains(low@),
{
    let lc = chars_of(low.as_str());
    let mut i: usize = 0;
    while i < stops.len()
        invariant
            i <= stops@.len(),
            lc@ == low@,
            forall|k: int| 0 <= k < i ==> stops.deep_view()[k] != low@,
        decreases stops@.len() - i,
    {
        let w = chars_of(stops[i].as_str());
        assert(stops.deep_view()[i as int] == stops@[i as int]@);
        if same_chars(w.as_slice(), lc.as_slice()) {
            assert(stops.deep_view()[i as int] == low@);
            return true;
        }
        i = i + 1;
    }
    false
}

impl ParsedQuery {
    /// Splits the query into words; `site:<domain>` words set the site filter,
    /// the others are kept as typed and, lower-cased, dropped when they are
    /// stop words of the language (English for unsupported codes) or stemmed.
    pub fn parse(raw_query: &str, lang_code: &str) -> (r: Self)
        ensures
            ({
                let sc = query_scan(words(raw_query@), lang_of(lang_code@));
                &&& r.original_text@ == join(sc.original, " "@)
                &&& r.processed_text@ == join(sc.processed, " "@)
                &&& match r.site_filter {
                    Some(s) => sc.site == Some(s@),
                    None => sc.site is None,
                }
                &&& r.language@ == lang_code@
            }),
    {
        let lang = lang_from_code(lang_code);
        let stops = stop_words_of(lang);
        let toks = split_whitespace(raw_query);
        let ghost tv = toks.deep_view();
        let site_kw = chars_of("site:");
        let mut original: Vec<String> = Vec::new();
        let mut processed: Vec<String> = Vec::new();
        let mut site: Option<String> = None;
        let mut i: usize = 0;
        while i < toks.len()
            invariant
                i <= toks@.len(),
                tv == toks.deep_view(),
                tv == words(raw_query@),
                lang == lang_of(lang_code@),
                stops.deep_view() == stop_words_spec(lang),
                site_kw@ == "site:"@,
                ({
                    let sc = query_scan(tv.take(i as int), lang);
                    &&& original.deep_view() == sc.original
                    &&& processed.deep_view() == sc.processed
                    &&& match site {
                        Some(s) => sc.site == Some(s@),
                        None => sc.site is None,
                    }
                }),
            decreases toks@.len() - i,
        {
            assert(tv.take(i + 1).drop_last() =~= tv.take(i as int));
            assert(tv[i as int] == toks@[i as int]@);
            let tok = &toks[i];
            let tc = chars_of(tok.as_str());
            if has_prefix(tc.as_slice(), site_kw.as_slice()) {
                let rest = slice_chars(tc.as_slice(), site_kw.len(), tc.len());
                assert(rest@ =~= tok@.skip("site:"@.len() as int));
                site = Some(string_from_chars(rest.as_slice()));
            } else {
                let ghost ov = original.deep_view();
                let ghost pv = processed.deep_view();
                original.push(tok.clone());
                assert(original.deep_view() =~= ov.push(tok@));
                let low = to_lowercase(tok.as_str());
                if !is_stop_word(&low, &stops) {
                    let st = stem_word(lang, low.as_str());
                    processed.push(st);
                    assert(processed.deep_view() =~= pv.push(stem_spec(lang, low@)));
                }
            }
            i = i + 1;
        }
        assert(tv.take(toks@.len() as int) =~= tv);
        ParsedQuery {
            original_text: join_strings(&original, " "),
            processed_text: join_strings(&processed, " "),
            site_filter: site,
            language: String::from_str(lang_code),
        }
    }
}

/// Parameters of a search request.
pub struct SearchParams {
    pub q: String,
    pub limit: Option<usize>,
    pub offset: Option<usize>,
    pub lang: Option<String>,
}

/// Parameters of a crawl request.
pub struct CrawlParams {
    pub url: String,
}

/// Results per page when the request names no limit.
pub const DEFAULT_LIMIT: usize = 10;

impl SearchParams {
    /// The limit, the offset and the language code, with the defaults (ten
    /// results, from the first, in English) for those the request leaves out.
    pub fn resolved(&self) -> (r: (usize, usize, String))
        ensures
            r.0 == match self.limit { Some(l) => l, None => DEFAULT_LIMIT },
            r.1 == match self.offset { Some(o) => o, None => 0 },
            r.2@ == match self.lang { Some(l) => l@, None => "en"@ },
    {
        let limit = match self.limit {
            Some(l) => l,
            None => DEFAULT_LIMIT,
        };
        let offset = match self.offset {
            Some(o) => o,
            None => 0,
        };
        let lang = match &self.lang {
            Some(l) => l.clone(),
            None => String::from_str("en"),
        };
        (limit, offset, lang)
    }
}

/// Fewest candidates that each index shard is asked for.
pub const MAX_CANDIDATE_LIMIT: usize = 100;

/// Progress of a query fanned out to the index shards.
pub struct PendingCount {
    pub replies_received: usize,
    pub expected_replies: usize,
}

impl PendingCount {
    /// Counts one shard's reply; true once every shard has answered.
    pub fn record_reply(&mut self) -> (complete: bool)
        requires
            old(self).replies_received < usize::MAX,
        ensures
            final(self).replies_received == old(self).replies_received + 1,
            final(self).expected_replies == old(self).expected_replies,
            complete == (final(self).replies_received >= final(self).expected_replies),
    {
        self.replies_received = self.replies_received + 1;
        self.replies_received >= self.expected_replies
    }
}

impl QueryActor {
    /// Candidates asked of each shard for a page of `limit` results after
    /// `offset`: five times what the page reaches, and at least the minimum.
    pub fn candidate_limit(limit: usize, offset: usize) -> (r: usize)
        requires
            (limit + offset) * 5 <= usize::MAX,
        ensures
            r == if (limit + offset) * 5 >= MAX_CANDIDATE_LIMIT { (limit + offset) * 5 } else { MAX_CANDIDATE_LIMIT as int },
            r >= limit + offset,
    {
        let want = (limit + offset) * 5;
        if want >= MAX_CANDIDATE_LIMIT {
            want
        } else {
            MAX_CANDIDATE_LIMIT
        }
    }

    /// The positions of the page that skips `offset` of `total` results and
    /// keeps at most `limit`.
    pub fn page_bounds(total: usize, offset: usize, limit: usize) -> (r: (usize, usize))
        ensures
            (r.0 as int, r.1 as int) == page_of(total as int, offset as int, limit as int),
            r.0 <= r.1 <= total,
    {
        let start = if offset < total { offset } else { total };
        let end = if limit < total - start { start + limit } else { total };
        (start, end)
    }
}

/// The page `[start, end)` of `total` results that skips `offset` of them and
/// keeps at most `limit`.
pub open spec fn page_of(total: int, offset: int, limit: int) -> (int, int) {
    let start = if offset < total { offset } else { total };
    (start, if start + limit < total { start + limit } else { total })
}

/// Consecutive pages tile the results: the page after `offset + limit` starts
/// where the page at `offset` ends.
pub proof fn law_pages_tile(total: nat, offset: nat, limit: nat)
    ensures
        page_of(total as int, (offset + limit) as int, limit as int).0 == page_of(total as int, offset as int, limit as int).1,
{
}

/// `site:` words never reach the searched text: no kept word starts with
/// `site:`, and the processed words are at most as many as the kept ones.
pub proof fn law_site_words_leave_the_query(toks: Seq<Seq<char>>, lang: Lang)
    ensures
        forall|i: int| 0 <= i < query_scan(toks, lang).original.len() ==> !starts_with(
            #[trigger] query_scan(toks, lang).original[i],
            "site:"@,
        ),
        query_scan(toks, lang).processed.len() <= query_scan(toks, lang).original.len(),
    decreases toks.len(),
{
    if toks.len() > 0 {
        law_site_words_leave_the_query(toks.drop_last(), lang);
        let prev = query_scan(toks.drop_last(), lang);
        let cur = query_scan(toks, lang);
        if !starts_with(toks.last(), "site:"@) {
            assert forall|i: int| 0 <= i < cur.original.len() implies !starts_with(#[trigger] cur.original[i], "site:"@) by {
                if i < prev.original.len() {
                    assert(cur.original[i] == prev.original[i]);
                }
            }
        }
    }
}

/// The queries waiting for the index shards: for each request id, the replies
/// received and the replies expected.
pub struct QueryBook {
    pub pending: StringHashMap<(usize, usize)>,
}

/// Opening request `id` to `expected` shards: with no shard to ask the caller
/// answers at once and nothing is kept; otherwise the request waits for all.
pub open spec fn open_step(m: Map<Seq<char>, (usize, usize)>, id: Seq<char>, expected: usize) -> Map<Seq<char>, (usize, usize)> {
    if expected == 0 {
        m
    } else {
        m.insert(id, (0, expected))
    }
}

/// Counting one reply for `id`: whether it completes the request, and the
/// book afterwards (a completed request leaves; an unknown id changes nothing).
pub open spec fn record_step(m: Map<Seq<char>, (usize, usize)>, id: Seq<char>) -> (bool, Map<Seq<char>, (usize, usize)>) {
    if !m.contains_key(id) {
        (false, m)
    } else if m[id].0 + 1 >= m[id].1 {
        (true, m.remove(id))
    } else {
        (false, m.insert(id, ((m[id].0 + 1) as usize, m[id].1)))
    }
}

/// Every waiting request has had fewer replies than it expects.
pub open spec fn book_ok(m: Map<Seq<char>, (usize, usize)>) -> bool {
    forall|k: Seq<char>| #[trigger] m.contains_key(k) ==> m[k].0 < m[k].1
}

impl View for QueryBook {
    type V = Map<Seq<char>, (usize, usize)>;

    open spec fn view(&self) -> Map<Seq<char>, (usize, usize)> {
        self.pending@
    }
}

impl QueryBook {
    /// An empty book.
    pub fn new() -> (r: Self)
        ensures
            r.view() == Map::<Seq<char>, (usize, usize)>::empty(),
            book_ok(r.view()),
    {
        QueryBook { pending: StringHashMap::new() }
    }

    /// Opens request `id` to `expected` shards; true when there is no shard to
    /// ask, so the caller answers at once with no results.
    pub fn open(&mut self, id: String, expected: usize) -> (answer_now: bool)
        requires
            book_ok(old(self).view()),
        ensures
            answer_now == (expected == 0),
            final(self).view() == open_step(old(self).view(), id@, expected),
            book_ok(final(self).view()),
    {
        if expected == 0 {
            return true;
        }
        self.pending.insert(id, (0, expected));
        false
    }

    /// Counts one shard's reply to `id`; true when it was the last one
    /// expected, and the request then leaves the book.
    pub fn record(&mut self, id: &str) -> (complete: bool)
        requires
            book_ok(old(self).view()),
        ensures
            (complete, final(self).view()) == record_step(old(self).view(), id@),
            book_ok(final(self).view()),
    {
        let entry = match self.pending.get(id) {
            None => return false,
            Some(e) => *e,
        };
        let (received, expected) = entry;
        let received = received + 1;
        if received >= expected {
            self.pending.remove(id);
            true
        } else {
            self.pending.insert(String::from_str(id), (received, expected));
            false
        }
    }
}

/// How a new query starts.
#[derive(PartialEq, Eq, Debug, Clone, Copy)]
pub enum QueryStart {
    /// There is no index shard to ask: answer at once with no results.
    AnswerNow,
    /// Ask each shard for this many candidates, then wait for all of them.
    AskShards(usize),
}

/// Candidates asked of each shard for a page of `limit` results after `offset`.
pub open spec fn candidates_spec(limit: usize, offset: usize) -> int {
    if (limit + offset) * 5 >= MAX_CANDIDATE_LIMIT { (limit + offset) * 5 } else { MAX_CANDIDATE_LIMIT as int }
}

impl QueryBook {
    /// Starts query `id` for a page of `limit` results after `offset`, with
    /// `shards` index shards to ask: with none, answer at once and keep
    /// nothing; otherwise ask each for `candidates_spec` candidates and wait.
    pub fn start_query(&mut self, id: String, limit: usize, offset: usize, shards: usize) -> (r: QueryStart)
        requires
            book_ok(old(self).view()),
            (limit + offset) * 5 <= usize::MAX,
        ensures
            shards == 0 ==> r == QueryStart::AnswerNow,
            shards > 0 ==> r == QueryStart::AskShards(candidates_spec(limit, offset) as usize),
            final(self).view() == open_step(old(self).view(), id@, shards),
            book_ok(final(self).view()),
    {
        if self.open(id, shards) {
            QueryStart::AnswerNow
        } else {
            QueryStart::AskShards(QueryActor::candidate_limit(limit, offset))
        }
    }
}

/// `k` replies to `id` counted one after another.
pub open spec fn records(m: Map<Seq<char>, (usize, usize)>, id: Seq<char>, k: nat) -> Map<Seq<char>, (usize, usize)>
    decreases k,
{
    if k == 0 {
        m
    } else {
        record_step(records(m, id, (k - 1) as nat), id).1
    }
}

/// A query sent to `n > 0` shards is answered exactly once, after the `n`-th
/// reply: the first `n - 1` replies complete nothing and leave it waiting, the
/// `n`-th completes it and takes it out of the book, and other requests are
/// untouched throughout.
pub proof fn law_query_answered_after_every_shard(m: Map<Seq<char>, (usize, usize)>, id: Seq<char>, n: usize)
    requires
        n > 0,
    ensures
        forall|k: nat|
            k < n ==> (#[trigger] records(open_step(m, id, n), id, k)).contains_key(id) && records(open_step(m, id, n), id, k)[id]
                == (k as usize, n),
        forall|k: nat| k + 1 < n ==> !(#[trigger] record_step(records(open_step(m, id, n), id, k), id)).0,
        record_step(records(open_step(m, id, n), id, (n - 1) as nat), id).0,
        record_step(records(open_step(m, id, n), id, (n - 1) as nat), id).1 == m.remove(id),
        record_step(m.remove(id), id) == (false, m.remove(id)),
{
    let m0 = open_step(m, id, n);
    assert forall|k: nat| k < n implies (#[trigger] records(m0, id, k)).contains_key(id) && records(m0, id, k)[id] == (
    k as usize, n) && records(m0, id, k).remove(id) == m.remove(id) by {
        lemma_records(m, id, n, k);
    }
    assert forall|k: nat| k + 1 < n implies !(#[trigger] record_step(records(m0, id, k), id)).0 by {
        lemma_records(m, id, n, k);
    }
    lemma_records(m, id, n, (n - 1) as nat);
    let mk = records(m0, id, (n - 1) as nat);
    assert(mk.remove(id) == m.remove(id));
}

proof fn lemma_records(m: Map<Seq<char>, (usize, usize)>, id: Seq<char>, n: usize, k: nat)
    requires
        n > 0,
        k < n,
    ensures
        records(open_step(m, id, n), id, k).contains_key(id),
        records(open_step(m, id, n), id, k)[id] == (k as usize, n),
        records(open_step(m, id, n), id, k).remove(id) == m.remove(id),
    decreases k,
{
    let m0 = open_step(m, id, n);
    if k == 0 {
        assert(m0.remove(id) =~= m.remove(id));
    } else {
        lemma_records(m, id, n, (k - 1) as nat);
        let prev = records(m0, id, (k - 1) as nat);
        assert(prev[id].0 + 1 < prev[id].1);
        assert(records(m0, id, k) == prev.insert(id, (k as usize, n)));
        assert(prev.insert(id, (k as usize, n)).remove(id) =~= prev.remove(id));
    }
}

/// A query with no index shard to ask is answered at once and leaves the book
/// as it was.
pub proof fn law_query_without_shards_answered_at_once(m: Map<Seq<char>, (usize, usize)>, id: Seq<char>)
    ensures
        open_step(m, id, 0) == m,
{
}

/// The words of a query kept as typed: all but `site:` filters, in order.
pub open spec fn kept_words(toks: Seq<Seq<char>>) -> Seq<Seq<char>> {
    toks.filter(|t: Seq<char>| !starts_with(t, "site:"@))
}

/// The words searched for: each kept word whose lower case is not a stop word
/// of `lang`, lower-cased and stemmed, in order.
pub open spec fn searched_words(toks: Seq<Seq<char>>, lang: Lang) -> Seq<Seq<char>> {
    kept_words(toks).filter(|t: Seq<char>| !stop_words_spec(lang).contains(lowercase_spec(t))).map_values(
        |t: Seq<char>| stem_spec(lang, lowercase_spec(t)),
    )
}

/// Parsing keeps every word but the `site:` filters as typed, and searches for
/// the stem of the lower case of each kept word that is not a stop word.
pub proof fn law_query_words(toks: Seq<Seq<char>>, lang: Lang)
    ensures
        query_scan(toks, lang).original == kept_words(toks),
        query_scan(toks, lang).processed == searched_words(toks, lang),
    decreases toks.len(),
{
    reveal_with_fuel(Seq::filter, 1);
    if toks.len() == 0 {
        assert(kept_words(toks) =~= Seq::<Seq<char>>::empty());
        assert(searched_words(toks, lang) =~= Seq::<Seq<char>>::empty());
    } else {
        let prev = toks.drop_last();
        let x = toks.last();
        law_query_words(prev, lang);
        let f = |t: Seq<char>| !starts_with(t, "site:"@);
        let g = |t: Seq<char>| !stop_words_spec(lang).contains(lowercase_spec(t));
        let st = |t: Seq<char>| stem_spec(lang, lowercase_spec(t));
        assert(toks.filter(f) == if f(x) { prev.filter(f).push(x) } else { prev.filter(f) });
        if f(x) {
            let k = prev.filter(f);
            assert(k.push(x).drop_last() =~= k);
            assert(k.push(x).filter(g) == if g(x) { k.filter(g).push(x) } else { k.filter(g) });
            if g(x) {
                assert(k.filter(g).push(x).map_values(st) =~= k.filter(g).map_values(st).push(st(x)));
            }
        }
    }
}

} // verus!
