//! Highlighted excerpts of search results.
use vstd::prelude::*;
use crate::text::{chars_of, contains, has_infix, join, join_strings, split_whitespace, words};

verus! {

/// What std's `str::to_lowercase` returns for `s`.
pub uninterp spec fn lowercase_spec(s: Seq<char>) -> Seq<char>;

/// Calls std's `str::to_lowercase`; the contract claims only that the result
/// is a function of `s`.
#[verifier::external_body]
pub(crate) fn to_lowercase(s: &str) -> (r: String)
    ensures
        r@ == lowercase_spec(s@),
{
    s.to_lowercase()
}

/// Words in the window that a snippet shows.
pub const SNIPPET_WINDOW: usize = 40;

/// Characters of the excerpt shown when the query has no terms.
pub const EXCERPT_CHARS: usize = 200;

/// Some term occurs in the lower case of `w`.
pub open spec fn word_hit(w: Seq<char>, terms: Seq<Seq<char>>) -> bool {
    exists|k: int| 0 <= k < terms.len() && contains(lowercase_spec(w), #[trigger] terms[k])
}

pub open spec fn hit_flags(ws: Seq<Seq<char>>, terms: Seq<Seq<char>>) -> Seq<bool> {
    ws.map_values(|w: Seq<char>| word_hit(w, terms))
}

/// Number of `true` entries.
pub open spec fn count_true(f: Seq<bool>) -> nat
    decreases f.len(),
{
    if f.len() == 0 {
        0
    } else {
        count_true(f.drop_last()) + if f.last() { 1nat } else { 0nat }
    }
}

pub open spec fn window_end(i: int, n: int) -> int {
    if i + SNIPPET_WINDOW < n { i + SNIPPET_WINDOW } else { n }
}

/// Hits in the window that starts at word `i`.
pub open spec fn window_score(f: Seq<bool>, i: int) -> nat {
    count_true(f.subrange(i, window_end(i, f.len() as int)))
}

/// Start of the best window among those starting at `i..=limit`, given the
/// best score `bs` (at `bst`) among those before: a later window wins only
/// with a strictly higher score.
pub open spec fn best_scan(f: Seq<bool>, i: int, limit: int, bs: nat, bst: int) -> int
    decreases limit + 1 - i,
{
    if i > limit {
        bst
    } else if window_score(f, i) > bs {
        best_scan(f, i + 1, limit, window_score(f, i), i)
    } else {
        best_scan(f, i + 1, limit, bs, bst)
    }
}

/// Each word, wrapped in `<b>`..`</b>` when it is a hit.
pub open spec fn highlight(ws: Seq<Seq<char>>, f: Seq<bool>) -> Seq<Seq<char>> {
    Seq::new(ws.len(), |k: int| if f[k] { "<b>"@ + ws[k] + "</b>"@ } else { ws[k] })
}

/// The snippet of `text` for `query`: without query terms, the first
/// characters of the text and `...`; otherwise the window of words with the
/// most words containing a term (the first such window), hits in bold, and
/// `...` on each side where words were cut.
pub open spec fn snippet_spec(text: Seq<char>, query: Seq<char>) -> Seq<char> {
    let terms = words(lowercase_spec(query));
    if terms.len() == 0 {
        text.take(if text.len() < EXCERPT_CHARS { text.len() as int } else { EXCERPT_CHARS as int }) + "..."@
    } else {
        let ws = words(text);
        let n = ws.len() as int;
        let f = hit_flags(ws, terms);
        let limit = if n >= SNIPPET_WINDOW { n - SNIPPET_WINDOW } else { 0 };
        let b = best_scan(f, 0, limit, 0, 0);
        let e = window_end(b, n);
        let body = join(highlight(ws.subrange(b, e), f.subrange(b, e)), " "@);
        let body1 = if b > 0 { "..."@ + body + " "@ } else { body };
        if b + SNIPPET_WINDOW < n { body1 + "..."@ } else { body1 }
    }
}

fn is_hit(w: &String, terms: &Vec<String>) -> (r: bool)
    ensures
        r == word_hit(w@, terms.deep_view()),
{
    let lw = to_lowercase(w.as_str());
    let lc = chars_of(lw.as_str());
    let mut k: usize = 0;
    while k < terms.len()
        invariant
            k <= terms@.len(),
            lc@ == lowercase_spec(w@),
            forall|m: int| 0 <= m < k ==> !contains(lowercase_spec(w@), #[trigger] terms.deep_view()[m]),
        decreases terms@.len() - k,
    {
        let tc = chars_of(terms[k].as_str());
        assert(terms.deep_view()[k as int] == terms@[k as int]@);
        if has_infix(lc.as_slice(), tc.as_slice()) {
            return true;
        }
        k = k + 1;
    }
    false
}

fn count_window(f: &Vec<bool>, i: usize, e: usize) -> (r: usize)
    requires
        i <= e <= f@.len(),
    ensures
        r == count_true(f@.subrange(i as int, e as int)),
{
    let mut c: usize = 0;
    let mut k: usize = i;
    while k < e
        invariant
            i <= k <= e <= f@.len(),
            c == count_true(f@.subrange(i as int, k as int)),
            c <= k - i,
        decreases e - k,
    {
        assert(f@.subrange(i as int, k + 1).drop_last() =~= f@.subrange(i as int, k as int));
        if f[k] {
            c = c + 1;
        }
        k = k + 1;
    }
    c
}

/// The search result presenter.
pub struct QueryActor;

impl QueryActor {
    /// A short excerpt of `text` around the words that match `query`.
    pub fn generate_snippet(text: &str, query: &str) -> (r: String)
        ensures
            r@ == snippet_spec(text@, query@),
    {
        let lq = to_lowercase(query);
        let terms = split_whitespace(lq.as_str());
        if terms.len() == 0 {
            let cs = chars_of(text);
            let m = if cs.len() < EXCERPT_CHARS { cs.len() } else { EXCERPT_CHARS };
            let mut r = crate::text::string_from_chars(crate::text::slice_chars(cs.as_slice(), 0, m).as_slice());
            r.append("...");
            assert(cs@.subrange(0, m as int) =~= cs@.take(m as int));
            return r;
        }
        let ws = split_whitespace(text);
        let ghost wv = ws.deep_view();
        let ghost tv = terms.deep_view();
        let n = ws.len();
        let mut f: Vec<bool> = Vec::new();
        let mut k: usize = 0;
        while k < n
            invariant
                k <= n == ws@.len() == wv.len(),
                wv == ws.deep_view(),
                tv == terms.deep_view(),
                f@ == hit_flags(wv, tv).take(k as int),
            decreases n - k,
        {
            let h = is_hit(&ws[k], &terms);
            assert(wv[k as int] == ws@[k as int]@);
            f.push(h);
            assert(f@ =~= hit_flags(wv, tv).take(k + 1));
            k = k + 1;
        }
        let ghost fv = hit_flags(wv, tv);
        assert(f@ =~= fv);
        let limit = if n >= SNIPPET_WINDOW { n - SNIPPET_WINDOW } else { 0 };
        let mut best_score: usize = 0;
        let mut best_start: usize = 0;
        let mut i: usize = 0;
        loop
            invariant_except_break
                i <= limit,
                best_scan(fv, i as int, limit as int, best_score as nat, best_start as int) == best_scan(fv, 0, limit as int, 0, 0),
            invariant
                f@ == fv,
                fv.len() == n,
                limit == (if n >= SNIPPET_WINDOW { n - SNIPPET_WINDOW } else { 0 }),
                best_start <= limit,
            ensures
                best_start == best_scan(fv, 0, limit as int, 0, 0),
            decreases limit - i,
        {
            let e = if i + SNIPPET_WINDOW < n { i + SNIPPET_WINDOW } else { n };
            let score = count_window(&f, i, e);
            let ghost (obs, obst) = (best_score, best_start);
            assert(score == window_score(fv, i as int));
            if score > best_score {
                best_score = score;
                best_start = i;
            }
            assert(best_scan(fv, i as int, limit as int, obs as nat, obst as int)
                == best_scan(fv, i + 1, limit as int, best_score as nat, best_start as int));
            if i == limit {
                break;
            }
            i = i + 1;
        }
        let e = if best_start + SNIPPET_WINDOW < n { best_start + SNIPPET_WINDOW } else { n };
        let mut hl: Vec<String> = Vec::new();
        let mut j: usize = best_start;
        while j < e
            invariant
                best_start <= j <= e <= n,
                e == window_end(best_start as int, n as int),
                wv == ws.deep_view(),
                wv.len() == n,
                f@ == fv,
                fv.len() == n,
                hl.deep_view() == highlight(wv.subrange(best_start as int, e as int), fv.subrange(best_start as int, e as int)).take(j - best_start),
            decreases e - j,
        {
            let ghost prev = hl.deep_view();
            assert(wv[j as int] == ws@[j as int]@);
            if f[j] {
                let mut h = String::from_str("<b>");
                h.append(ws[j].as_str());
                h.append("</b>");
                hl.push(h);
                assert(hl.deep_view() =~= prev.push(h@));
            } else {
                let h = ws[j].clone();
                hl.push(h);
                assert(hl.deep_view() =~= prev.push(h@));
            }
            assert(hl.deep_view() =~= highlight(wv.subrange(best_start as int, e as int), fv.subrange(best_start as int, e as int)).take(j + 1 - best_start));
            j = j + 1;
        }
        assert(hl.deep_view() =~= highlight(wv.subrange(best_start as int, e as int), fv.subrange(best_start as int, e as int)));
        let body = join_strings(&hl, " ");
        let mut result = if best_start > 0 {
            let mut s = String::from_str("...");
            s.append(body.as_str());
            s.append(" ");
            s
        } else {
            body
        };
        if best_start + SNIPPET_WINDOW < n {
            result.append("...");
        }
        result
    }
}

} // verus!
