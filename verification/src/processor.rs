//! Text normalisation and sentence-aware chunking ahead of embedding.
use vstd::prelude::*;
use crate::text::{
    chars_of, is_word, is_ws, join, lemma_joined_words_normalised, lemma_trim_bare, lemma_trim_spaced, normalised, join_strings, lemma_join_concat, lemma_words_are_words, lemma_words_of_join, split_whitespace,
    string_from_chars, trim, trim_chars, words,
};

verus! {

/// Words per chunk that the processor asks for.
pub const CHUNK_MAX_WORDS: usize = 200;

/// Sentences that consecutive chunks share.
pub const CHUNK_OVERLAP_SENTENCES: usize = 2;

/// Sentence terminators.
pub open spec fn is_terminal(c: char) -> bool {
    c == '.' || c == '!' || c == '?'
}

pub open spec fn sent_step(acc: (Seq<Seq<char>>, Seq<char>), c: char) -> (Seq<Seq<char>>, Seq<char>) {
    let cur = acc.1.push(c);
    if is_terminal(c) {
        (acc.0.push(trim(cur)), Seq::empty())
    } else {
        (acc.0, cur)
    }
}

pub open spec fn sent_scan(s: Seq<char>) -> (Seq<Seq<char>>, Seq<char>)
    decreases s.len(),
{
    if s.len() == 0 {
        (Seq::empty(), Seq::empty())
    } else {
        sent_step(sent_scan(s.drop_last()), s.last())
    }
}

/// The sentences of `s`: each run ending in a terminator, trimmed, then the
/// trimmed rest if it is not blank.
pub open spec fn sentences(s: Seq<char>) -> Seq<Seq<char>> {
    let acc = sent_scan(s);
    if trim(acc.1).len() > 0 {
        acc.0.push(trim(acc.1))
    } else {
        acc.0
    }
}

/// Index one past the last sentence of the chunk that starts at `start`:
/// sentences are added while the word budget allows, and the first one always.
pub open spec fn greedy_end(wc: Seq<nat>, start: int, j: int, acc: nat, max: nat) -> int
    decreases wc.len() - j,
{
    if 0 <= j < wc.len() && (j == start || acc + wc[j] <= max) {
        greedy_end(wc, start, j + 1, acc + wc[j], max)
    } else {
        j
    }
}

/// Where the chunk after the one covering `[i, j)` starts.
pub open spec fn next_start(i: int, j: int, overlap: nat) -> int {
    let back = if j >= overlap { j - overlap } else { 0 };
    if i + 1 >= back {
        i + 1
    } else {
        back
    }
}

/// The chunks of the sentences `ss`, from sentence `i` on.
pub open spec fn chunks_from(ss: Seq<Seq<char>>, wc: Seq<nat>, i: int, max: nat, overlap: nat) -> Seq<Seq<char>>
    decreases ss.len() - i,
{
    if i < 0 || i >= ss.len() {
        Seq::empty()
    } else {
        let j = greedy_end(wc, i, i, 0, max);
        let chunk = join(ss.subrange(i, j), seq![' ']);
        if j >= ss.len() || j <= i {
            seq![chunk]
        } else {
            seq![chunk] + chunks_from(ss, wc, next_start(i, j, overlap), max, overlap)
        }
    }
}

/// Word count of each sentence.
pub open spec fn word_counts(ss: Seq<Seq<char>>) -> Seq<nat> {
    ss.map_values(|s: Seq<char>| words(s).len())
}

/// The chunks that `chunk_text` returns for `s`.
pub open spec fn chunks_of(s: Seq<char>, max: nat, overlap: nat) -> Seq<Seq<char>> {
    let ss = sentences(s);
    chunks_from(ss, word_counts(ss), 0, max, overlap)
}

/// The processor: cleans, splits and chunks documents before embedding them.
pub struct ProcessorActor;

impl ProcessorActor {
    /// Collapses every run of whitespace to a single space and drops leading
    /// and trailing whitespace.
    pub fn clean_text(raw_text: &str) -> (r: String)
        ensures
            r@ == join(words(raw_text@), seq![' ']),
    {
        let parts = split_whitespace(raw_text);
        let r = join_strings(&parts, " ");
        proof {
            reveal_strlit(" ");
            assert(" "@ =~= seq![' ']);
        }
        r
    }

    /// Splits text after each `.`, `!` or `?`; every piece is trimmed.
    pub fn separate_sentences(clean_text: &str) -> (r: Vec<String>)
        ensures
            r.deep_view() == sentences(clean_text@),
    {
        let cs = chars_of(clean_text);
        let mut done: Vec<String> = Vec::new();
        let mut cur: Vec<char> = Vec::new();
        let mut i: usize = 0;
        while i < cs.len()
            invariant
                i <= cs@.len(),
                cs@ == clean_text@,
                (done.deep_view(), cur@) == sent_scan(cs@.take(i as int)),
            decreases cs@.len() - i,
        {
            let c = cs[i];
            assert(cs@.take(i + 1).drop_last() =~= cs@.take(i as int));
            cur.push(c);
            if c == '.' || c == '!' || c == '?' {
                let ghost before = done.deep_view();
                let t = trim_chars(cur.as_slice());
                let piece = string_from_chars(t.as_slice());
                done.push(piece);
                cur = Vec::new();
                assert(done.deep_view() =~= before.push(piece@));
            }
            i = i + 1;
        }
        assert(cs@.take(cs@.len() as int) =~= cs@);
        let t = trim_chars(cur.as_slice());
        if t.len() > 0 {
            let ghost before = done.deep_view();
            let piece = string_from_chars(t.as_slice());
            done.push(piece);
            assert(done.deep_view() =~= before.push(piece@));
        }
        done
    }

    /// Groups consecutive sentences into chunks of at most `max_words` words
    /// (a single longer sentence forms a chunk of its own); each chunk after
    /// the first starts `overlap_sentences` sentences before the previous one
    /// ended, and always at least one sentence later than it started.
    pub fn chunk_text(clean_text: &str, max_words: usize, overlap_sentences: usize) -> (r: Vec<String>)
        ensures
            r.deep_view() == chunks_of(clean_text@, max_words as nat, overlap_sentences as nat),
    {
        let sentences = Self::separate_sentences(clean_text);
        let ghost ss = sentences.deep_view();
        let ghost gwc = word_counts(ss);
        let n = sentences.len();
        let mut wc: Vec<usize> = Vec::new();
        let mut k: usize = 0;
        while k < n
            invariant
                k <= n == sentences@.len() == ss.len(),
                ss == sentences.deep_view(),
                gwc == word_counts(ss),
                wc@.len() == k,
                forall|m: int| 0 <= m < k ==> wc@[m] as nat == gwc[m],
            decreases n - k,
        {
            let parts = split_whitespace(sentences[k].as_str());
            assert(ss[k as int] == sentences@[k as int]@);
            wc.push(parts.len());
            k = k + 1;
        }
        let mut chunks: Vec<String> = Vec::new();
        if n == 0 {
            assert(chunks.deep_view() =~= chunks_of(clean_text@, max_words as nat, overlap_sentences as nat));
            return chunks;
        }
        let mut i: usize = 0;
        loop
            invariant_except_break
                i < n,
                chunks.deep_view() + chunks_from(ss, gwc, i as int, max_words as nat, overlap_sentences as nat)
                    == chunks_of(clean_text@, max_words as nat, overlap_sentences as nat),
            invariant
                n == sentences@.len() == ss.len() == wc@.len(),
                ss == sentences.deep_view(),
                gwc == word_counts(ss),
                forall|m: int| 0 <= m < n ==> wc@[m] as nat == gwc[m],
            ensures
                chunks.deep_view() == chunks_of(clean_text@, max_words as nat, overlap_sentences as nat),
            decreases n - i,
        {
            let mut chunk_words: usize = 0;
            let mut chunk_sentences: Vec<String> = Vec::new();
            let mut j: usize = i;
            while j < n
                invariant_except_break
                    i <= j <= n,
                    j == i ==> chunk_words == 0,
                    greedy_end(gwc, i as int, j as int, chunk_words as nat, max_words as nat)
                        == greedy_end(gwc, i as int, i as int, 0, max_words as nat),
                invariant
                    i < n == sentences@.len() == ss.len() == wc@.len() == gwc.len(),
                    ss == sentences.deep_view(),
                    forall|m: int| 0 <= m < n ==> wc@[m] as nat == gwc[m],
                    chunk_sentences.deep_view() == ss.subrange(i as int, j as int),
                ensures
                    i < j <= n,
                    j == greedy_end(gwc, i as int, i as int, 0, max_words as nat),
                    chunk_sentences.deep_view() == ss.subrange(i as int, j as int),
                decreases n - j,
            {
                let sw = wc[j];
                if j > i && (chunk_words > max_words || sw > max_words - chunk_words) {
                    break;
                }
                let ghost before = chunk_sentences.deep_view();
                let piece = sentences[j].clone();
                assert(piece@ == sentences@[j as int]@);
                chunk_sentences.push(piece);
                assert(ss[j as int] == sentences@[j as int]@);
                assert(chunk_sentences.deep_view() =~= before.push(piece@));
                assert(chunk_sentences.deep_view() =~= ss.subrange(i as int, j + 1));
                chunk_words = chunk_words + sw;
                j = j + 1;
            }
            let chunk = join_strings(&chunk_sentences, " ");
            proof {
                reveal_strlit(" ");
                assert(" "@ =~= seq![' ']);
            }
            let ghost before = chunks.deep_view();
            chunks.push(chunk);
            assert(chunks.deep_view() =~= before.push(chunk@));
            if j == n {
                assert(chunks.deep_view() =~= chunks_of(clean_text@, max_words as nat, overlap_sentences as nat));
                break;
            }
            let back = if j >= overlap_sentences { j - overlap_sentences } else { 0 };
            let next = if i + 1 >= back { i + 1 } else { back };
            assert(chunks.deep_view() + chunks_from(ss, gwc, next as int, max_words as nat, overlap_sentences as nat)
                =~= before + chunks_from(ss, gwc, i as int, max_words as nat, overlap_sentences as nat));
            i = next;
        }
        chunks
    }
}

} // verus!

verus! {

/// Total word count of the sentences `i..j`.
pub open spec fn words_in(wc: Seq<nat>, i: int, j: int) -> nat
    decreases j - i,
{
    if j <= i {
        0
    } else {
        words_in(wc, i, j - 1) + wc[j - 1]
    }
}

/// The sentence ranges `[start, end)` of the chunks built from sentence `i` on.
pub open spec fn chunk_bounds(wc: Seq<nat>, i: int, max: nat, overlap: nat) -> Seq<(int, int)>
    decreases wc.len() - i,
{
    if i < 0 || i >= wc.len() {
        Seq::empty()
    } else {
        let j = greedy_end(wc, i, i, 0, max);
        if j >= wc.len() || j <= i {
            seq![(i, j)]
        } else {
            seq![(i, j)] + chunk_bounds(wc, next_start(i, j, overlap), max, overlap)
        }
    }
}

proof fn lemma_greedy_end(wc: Seq<nat>, start: int, j: int, acc: nat, max: nat)
    requires
        0 <= start <= j <= wc.len(),
        acc == words_in(wc, start, j),
        j <= start + 1 || acc <= max,
        j == start ==> start < wc.len(),
    ensures
        start < greedy_end(wc, start, j, acc, max) <= wc.len(),
        j <= greedy_end(wc, start, j, acc, max),
        greedy_end(wc, start, j, acc, max) == start + 1 || words_in(wc, start, greedy_end(wc, start, j, acc, max)) <= max,
        greedy_end(wc, start, j, acc, max) < wc.len() ==> words_in(wc, start, greedy_end(wc, start, j, acc, max) + 1) > max,
    decreases wc.len() - j,
{
    assert(words_in(wc, start, j + 1) == acc + wc[j]);
    if 0 <= j < wc.len() && (j == start || acc + wc[j] <= max) {
        lemma_greedy_end(wc, start, j + 1, acc + wc[j], max);
    }
}

proof fn lemma_chunk_bounds(ss: Seq<Seq<char>>, wc: Seq<nat>, i: int, max: nat, overlap: nat)
    requires
        wc.len() == ss.len(),
        0 <= i < ss.len(),
    ensures
        ({
            let b = chunk_bounds(wc, i, max, overlap);
            let c = chunks_from(ss, wc, i, max, overlap);
            &&& c.len() == b.len() > 0
            &&& b[0].0 == i
            &&& b.last().1 == ss.len()
            &&& forall|t: int| 0 <= t < b.len() ==> #[trigger] c[t] == join(ss.subrange(b[t].0, b[t].1), seq![' '])
            &&& forall|t: int| 0 <= t < b.len() ==> i <= (#[trigger] b[t]).0 < b[t].1 <= ss.len() && (b[t].1 == b[t].0 + 1
                || words_in(wc, b[t].0, b[t].1) <= max)
            &&& forall|t: int| 0 <= t < b.len() - 1 ==> #[trigger] b[t + 1].0 == next_start(b[t].0, b[t].1, overlap)
                && b[t].0 < b[t + 1].0 <= b[t].1
            &&& forall|t: int| 0 <= t < b.len() ==> (#[trigger] b[t]).1 < ss.len() ==> words_in(wc, b[t].0, b[t].1 + 1) > max
        }),
    decreases ss.len() - i,
{
    let j = greedy_end(wc, i, i, 0, max);
    lemma_greedy_end(wc, i, i, 0, max);
    let b = chunk_bounds(wc, i, max, overlap);
    let c = chunks_from(ss, wc, i, max, overlap);
    if j >= wc.len() || j <= i {
        assert(b == seq![(i, j)]);
        assert(c == seq![join(ss.subrange(i, j), seq![' '])]);
    } else {
        let n = next_start(i, j, overlap);
        lemma_chunk_bounds(ss, wc, n, max, overlap);
        let b2 = chunk_bounds(wc, n, max, overlap);
        let c2 = chunks_from(ss, wc, n, max, overlap);
        assert(b == seq![(i, j)] + b2);
        assert(c == seq![join(ss.subrange(i, j), seq![' '])] + c2);
        assert(b.last() == b2.last());
        assert forall|t: int| 0 <= t < b.len() implies #[trigger] c[t] == join(ss.subrange(b[t].0, b[t].1), seq![' ']) by {
            if t > 0 {
                assert(c[t] == c2[t - 1]);
                assert(b[t] == b2[t - 1]);
            }
        }
        assert forall|t: int| 0 <= t < b.len() implies i <= (#[trigger] b[t]).0 < b[t].1 <= ss.len() && (b[t].1
            == b[t].0 + 1 || words_in(wc, b[t].0, b[t].1) <= max) by {
            if t > 0 {
                assert(b[t] == b2[t - 1]);
            }
        }
        assert forall|t: int| 0 <= t < b.len() && (#[trigger] b[t]).1 < ss.len() implies words_in(wc, b[t].0, b[t].1 + 1) > max by {
            if t > 0 {
                assert(b[t] == b2[t - 1]);
            }
        }
        assert forall|t: int| 0 <= t < b.len() - 1 implies #[trigger] b[t + 1].0 == next_start(b[t].0, b[t].1, overlap)
            && b[t].0 < b[t + 1].0 <= b[t].1 by {
            assert(b[t + 1] == b2[t]);
            if t > 0 {
                assert(b[t] == b2[t - 1]);
                let k = t - 1;
                assert(b2[k + 1].0 == next_start(b2[k].0, b2[k].1, overlap) && b2[k].0 < b2[k + 1].0 <= b2[k].1);
            } else {
                assert(b2[0].0 == n);
            }
        }
    }
}

/// How `chunk_text` cuts a text: the chunks are the sentences of the text
/// joined over consecutive ranges; the first range starts at the first
/// sentence and the last ends at the last one; each range holds at most `max`
/// words unless it is a single sentence, and takes every sentence that fits
/// (one more would pass `max`); and each range after the first starts
/// `overlap` sentences before the previous one ended, but at least one
/// sentence after the previous one started, so no sentence is left out.
pub proof fn law_chunks_cover_text(s: Seq<char>, max: nat, overlap: nat)
    requires
        sentences(s).len() > 0,
    ensures
        ({
            let ss = sentences(s);
            let wc = word_counts(ss);
            let b = chunk_bounds(wc, 0, max, overlap);
            let c = chunks_of(s, max, overlap);
            &&& c.len() == b.len() > 0
            &&& b[0].0 == 0
            &&& b.last().1 == ss.len()
            &&& forall|t: int| 0 <= t < b.len() ==> #[trigger] c[t] == join(ss.subrange(b[t].0, b[t].1), seq![' '])
            &&& forall|t: int| 0 <= t < b.len() ==> (#[trigger] b[t]).0 < b[t].1 && (b[t].1 == b[t].0 + 1
                || words_in(wc, b[t].0, b[t].1) <= max)
            &&& forall|t: int| 0 <= t < b.len() - 1 ==> #[trigger] b[t + 1].0 == next_start(b[t].0, b[t].1, overlap)
                && b[t].0 < b[t + 1].0 <= b[t].1
            &&& forall|t: int| 0 <= t < b.len() - 1 ==> #[trigger] b[t + 1].0 == (if b[t].1 - overlap > b[t].0 + 1 {
                b[t].1 - overlap
            } else {
                b[t].0 + 1
            })
            &&& forall|t: int| 0 <= t < b.len() ==> (#[trigger] b[t]).1 < ss.len() ==> words_in(wc, b[t].0, b[t].1 + 1) > max
        }),
{
    let ss = sentences(s);
    lemma_chunk_bounds(ss, word_counts(ss), 0, max, overlap);
}

/// A text without sentences has no chunks.
pub proof fn law_no_sentences_no_chunks(s: Seq<char>, max: nat, overlap: nat)
    requires
        sentences(s).len() == 0,
    ensures
        chunks_of(s, max, overlap).len() == 0,
{
}

} // verus!

verus! {

/// Cleaning is idempotent: cleaning a cleaned text changes nothing.
pub proof fn law_clean_text_idempotent(s: Seq<char>)
    ensures
        join(words(join(words(s), seq![' '])), seq![' ']) == join(words(s), seq![' ']),
{
    lemma_words_are_words(s);
    lemma_words_of_join(words(s));
}

/// Cleaning leaves a normalised text (words joined by single spaces, no
/// whitespace at either end) as it is.
pub proof fn law_clean_text_keeps_normalised(ws: Seq<Seq<char>>)
    requires
        forall|i: int| 0 <= i < ws.len() ==> is_word(#[trigger] ws[i]),
    ensures
        join(words(join(ws, seq![' '])), seq![' ']) == join(ws, seq![' ']),
{
    lemma_words_of_join(ws);
}

proof fn lemma_chunks_partition(ss: Seq<Seq<char>>, wc: Seq<nat>, i: int, max: nat)
    requires
        wc.len() == ss.len(),
        0 <= i < ss.len(),
    ensures
        join(chunks_from(ss, wc, i, max, 0), seq![' ']) == join(ss.subrange(i, ss.len() as int), seq![' ']),
    decreases ss.len() - i,
{
    let j = greedy_end(wc, i, i, 0, max);
    lemma_greedy_end(wc, i, i, 0, max);
    let x = join(ss.subrange(i, j), seq![' ']);
    if j >= ss.len() {
        assert(chunks_from(ss, wc, i, max, 0) == seq![x]);
    } else {
        assert(next_start(i, j, 0) == j);
        let rest = chunks_from(ss, wc, j, max, 0);
        lemma_chunks_partition(ss, wc, j, max);
        assert(chunks_from(ss, wc, i, max, 0) == seq![x] + rest);
        assert(rest.len() > 0);
        lemma_join_concat(seq![x], rest, seq![' ']);
        assert(join(seq![x], seq![' ']) == x);
        lemma_join_concat(ss.subrange(i, j), ss.subrange(j, ss.len() as int), seq![' ']);
        assert(ss.subrange(i, j) + ss.subrange(j, ss.len() as int) =~= ss.subrange(i, ss.len() as int));
    }
}

/// Without overlap the chunks partition the sentences: joined by spaces they
/// give the sentences joined by spaces, none repeated and none lost.
pub proof fn law_chunks_partition_without_overlap(s: Seq<char>, max: nat)
    ensures
        join(chunks_of(s, max, 0), seq![' ']) == join(sentences(s), seq![' ']),
{
    let ss = sentences(s);
    if ss.len() > 0 {
        lemma_chunks_partition(ss, word_counts(ss), 0, max);
        assert(ss.subrange(0, ss.len() as int) =~= ss);
    }
}

/// Every sentence terminator of `s` but a last character is followed by a space.
pub open spec fn terminators_spaced(s: Seq<char>) -> bool {
    forall|k: int| 0 <= k < s.len() - 1 && is_terminal(#[trigger] s[k]) ==> s[k + 1] == ' '
}

#[verifier::spinoff_prover]
#[verifier::rlimit(50)]
proof fn lemma_sent_scan_rejoin(s: Seq<char>, n: int)
    requires
        normalised(s),
        terminators_spaced(s),
        0 <= n <= s.len(),
    ensures
        s.take(n) == join(sent_scan(s.take(n)).0, seq![' ']) + sent_scan(s.take(n)).1,
        sent_scan(s.take(n)).0.len() > 0 ==> join(sent_scan(s.take(n)).0, seq![' ']).len() > 0 && is_terminal(
            s[join(sent_scan(s.take(n)).0, seq![' ']).len() - 1],
        ),
    decreases n,
{
    if n == 0 {
        assert(s.take(0) =~= Seq::<char>::empty());
        assert(join(Seq::<Seq<char>>::empty(), seq![' ']) + Seq::<char>::empty() =~= Seq::<char>::empty());
    } else {
        lemma_sent_scan_rejoin(s, n - 1);
        assert(s.take(n).drop_last() =~= s.take(n - 1));
        let prev = sent_scan(s.take(n - 1));
        let c = s[n - 1];
        assert(s.take(n).last() == c);
        let jd = join(prev.0, seq![' ']);
        let cur = prev.1;
        let m = jd.len() as int;
        assert(s.take(n - 1) == jd + cur);
        assert(s.take(n) =~= jd + cur.push(c));
        let cp = cur.push(c);
        if is_terminal(c) {
            assert(!is_ws(c));
            if prev.0.len() == 0 {
                assert(jd =~= Seq::<char>::empty());
                assert(cp =~= s.take(n));
                assert(cp[0] == s[0]);
                lemma_trim_bare(cp);
                assert(join(seq![cp], seq![' ']) == cp);
                assert(prev.0.push(cp) =~= seq![cp]);
            } else {
                assert(is_terminal(s[m - 1]));
                assert((jd + cur)[m - 1] == jd[m - 1]);
                if cur.len() == 0 {
                    assert(m == n - 1);
                    assert(s[m] == ' ');
                    assert(false);
                }
                assert((jd + cur)[m] == cur[0]);
                assert(s[m] == ' ');
                assert(is_ws(s[m]));
                assert(!is_ws(s[m + 1]));
                let x = cp.drop_first();
                assert(x[0] == cp[1]);
                if cur.len() > 1 {
                    assert((jd + cur)[m + 1] == cur[1]);
                    assert(cp[1] == cur[1]);
                } else {
                    assert(cp[1] == c);
                    assert(m + 1 == n - 1);
                }
                assert(x.last() == c);
                assert(cp =~= seq![' '] + x);
                lemma_trim_spaced(x);
                assert(trim(cp) == x);
                let d2 = prev.0.push(x);
                assert(d2.drop_last() =~= prev.0);
                assert(join(d2, seq![' ']) == jd + seq![' '] + x);
                assert(jd + seq![' '] + x =~= jd + cp);
                assert(join(d2, seq![' ']) =~= s.take(n));
            }
            assert(sent_scan(s.take(n)).1 =~= Seq::<char>::empty());
            assert(join(sent_scan(s.take(n)).0, seq![' ']) + Seq::<char>::empty() =~= join(sent_scan(s.take(n)).0, seq![' ']));
            assert(join(sent_scan(s.take(n)).0, seq![' ']).len() == n);
            assert(s[n - 1] == c);
        } else {
            assert(sent_scan(s.take(n)) == (prev.0, cp));
            assert(jd + cp =~= (jd + cur).push(c));
            if prev.0.len() > 0 {
                assert(s[m - 1] == (jd + cur)[m - 1]);
            }
        }
    }
}

/// The sentences of a normalised text whose terminators (but a last one) are
/// each followed by a space, joined by single spaces, give the text back.
#[verifier::spinoff_prover]
#[verifier::rlimit(50)]
pub proof fn law_sentences_rejoin(s: Seq<char>)
    requires
        normalised(s),
        terminators_spaced(s),
    ensures
        join(sentences(s), seq![' ']) == s,
{
    let n = s.len() as int;
    lemma_sent_scan_rejoin(s, n);
    assert(s.take(n) =~= s);
    let acc = sent_scan(s);
    let jd = join(acc.0, seq![' ']);
    let cur = acc.1;
    let m = jd.len() as int;
    if cur.len() == 0 {
        assert(trim(cur).len() == 0);
        assert(jd + cur =~= jd);
    } else if acc.0.len() == 0 {
        assert(jd =~= Seq::<char>::empty());
        assert(cur =~= s);
        lemma_trim_bare(s);
        assert(join(seq![s], seq![' ']) == s);
        assert(acc.0.push(s) =~= seq![s]);
    } else {
        assert(is_terminal(s[m - 1]));
        assert((jd + cur)[m - 1] == jd[m - 1]);
        assert((jd + cur)[m] == cur[0]);
        assert(s[m] == ' ');
        assert(is_ws(s[m]));
        assert(cur.last() == s.last());
        assert(cur.len() > 1);
        assert((jd + cur)[m + 1] == cur[1]);
        let x = cur.drop_first();
        assert(x[0] == cur[1]);
        assert(x.last() == cur.last());
        assert(cur =~= seq![' '] + x);
        lemma_trim_spaced(x);
        let d2 = acc.0.push(x);
        assert(d2.drop_last() =~= acc.0);
        assert(join(d2, seq![' ']) == jd + seq![' '] + x);
        assert(jd + seq![' '] + x =~= jd + cur);
    }
}

/// A cleaned text whose terminators (but a last one) are each followed by a
/// space is its sentences joined by spaces, and, without overlap, its chunks
/// joined by spaces.
pub proof fn law_cleaned_text_rejoins(raw: Seq<char>, max: nat)
    requires
        terminators_spaced(join(words(raw), seq![' '])),
    ensures
        join(sentences(join(words(raw), seq![' '])), seq![' ']) == join(words(raw), seq![' ']),
        join(chunks_of(join(words(raw), seq![' ']), max, 0), seq![' ']) == join(words(raw), seq![' ']),
{
    let s = join(words(raw), seq![' ']);
    lemma_words_are_words(raw);
    if words(raw).len() > 0 {
        lemma_joined_words_normalised(words(raw));
    } else {
        assert(s =~= Seq::<char>::empty());
    }
    law_sentences_rejoin(s);
    law_chunks_partition_without_overlap(s, max);
}

} // verus!
