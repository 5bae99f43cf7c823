//! Character and string helpers shared by the crawler and the query side.
use vstd::prelude::*;

verus! {

/// The characters that carry the Unicode `White_Space` property.
pub open spec fn is_ws(c: char) -> bool {
    let u = c as u32;
    ||| u == 0x20
    ||| (0x09 <= u && u <= 0x0d)
    ||| u == 0x85
    ||| u == 0xa0
    ||| u == 0x1680
    ||| (0x2000 <= u && u <= 0x200a)
    ||| u == 0x2028
    ||| u == 0x2029
    ||| u == 0x202f
    ||| u == 0x205f
    ||| u == 0x3000
}

/// Executable counterpart of `is_ws`.
pub fn is_whitespace(c: char) -> (r: bool)
    ensures
        r == is_ws(c),
{
    let u = c as u32;
    u == 0x20 || (0x09 <= u && u <= 0x0d) || u == 0x85 || u == 0xa0 || u == 0x1680 || (0x2000
        <= u && u <= 0x200a) || u == 0x2028 || u == 0x2029 || u == 0x202f || u == 0x205f || u
        == 0x3000
}

/// Appends one character to a string (std's `String::push`).
#[verifier::external_body]
pub(crate) fn push_char(s: &mut String, c: char)
    ensures
        final(s)@ == old(s)@.push(c),
{
    s.push(c);
}

/// The characters of a string slice, in order.
pub fn chars_of(s: &str) -> (r: Vec<char>)
    ensures
        r@ == s@,
{
    broadcast use vstd::string::group_string_axioms;
    let mut v: Vec<char> = Vec::new();
    for c in it: s.chars()
        invariant
            v@ == it.seq().take(it.index() as int),
            it.seq() == s@,
    {
        v.push(c);
    }
    v
}

} // verus!

verus! {

/// Builds a string from a sequence of characters.
pub fn string_from_chars(cs: &[char]) -> (r: String)
    ensures
        r@ == cs@,
{
    let mut s = String::new();
    let mut i: usize = 0;
    while i < cs.len()
        invariant
            i <= cs@.len(),
            s@ == cs@.take(i as int),
        decreases cs@.len() - i,
    {
        push_char(&mut s, cs[i]);
        assert(cs@.take(i + 1) =~= cs@.take(i as int).push(cs@[i as int]));
        i = i + 1;
    }
    assert(cs@.take(cs@.len() as int) =~= cs@);
    s
}

/// Scanning state of whitespace splitting after a prefix: the finished words
/// and the word under construction.
pub open spec fn ws_step(acc: (Seq<Seq<char>>, Seq<char>), c: char) -> (Seq<Seq<char>>, Seq<char>) {
    if is_ws(c) {
        if acc.1.len() > 0 {
            (acc.0.push(acc.1), Seq::empty())
        } else {
            acc
        }
    } else {
        (acc.0, acc.1.push(c))
    }
}

pub open spec fn ws_scan(s: Seq<char>) -> (Seq<Seq<char>>, Seq<char>)
    decreases s.len(),
{
    if s.len() == 0 {
        (Seq::empty(), Seq::empty())
    } else {
        ws_step(ws_scan(s.drop_last()), s.last())
    }
}

/// The maximal runs of non-whitespace characters of `s`, in order.
pub open spec fn words(s: Seq<char>) -> Seq<Seq<char>> {
    let acc = ws_scan(s);
    if acc.1.len() > 0 {
        acc.0.push(acc.1)
    } else {
        acc.0
    }
}

/// `parts` joined with `sep` between consecutive parts.
pub open spec fn join(parts: Seq<Seq<char>>, sep: Seq<char>) -> Seq<char>
    decreases parts.len(),
{
    if parts.len() == 0 {
        Seq::empty()
    } else if parts.len() == 1 {
        parts[0]
    } else {
        join(parts.drop_last(), sep) + sep + parts.last()
    }
}

/// Splits on whitespace, dropping empty pieces (std's `split_whitespace`).
pub fn split_whitespace(s: &str) -> (r: Vec<String>)
    ensures
        r.deep_view() == words(s@),
{
    let cs = chars_of(s);
    let mut done: Vec<String> = Vec::new();
    let mut cur = String::new();
    let mut cur_len: usize = 0;
    let mut i: usize = 0;
    while i < cs.len()
        invariant
            i <= cs@.len(),
            cs@ == s@,
            cur_len == cur@.len(),
            cur_len <= i,
            (done.deep_view(), cur@) == ws_scan(cs@.take(i as int)),
        decreases cs@.len() - i,
    {
        let c = cs[i];
        assert(cs@.take(i + 1).drop_last() =~= cs@.take(i as int));
        let ghost before = done.deep_view();
        if is_whitespace(c) {
            if cur_len > 0 {
                done.push(cur);
                cur = String::new();
                cur_len = 0;
                assert(done.deep_view() =~= before.push(ws_scan(cs@.take(i as int)).1));
            }
        } else {
            push_char(&mut cur, c);
            cur_len = cur_len + 1;
        }
        i = i + 1;
    }
    assert(cs@.take(cs@.len() as int) =~= cs@);
    if cur_len > 0 {
        let ghost before = done.deep_view();
        done.push(cur);
        assert(done.deep_view() =~= before.push(ws_scan(s@).1));
    }
    done
}

/// Concatenates `parts` with `sep` between them.
pub fn join_strings(parts: &Vec<String>, sep: &str) -> (r: String)
    ensures
        r@ == join(parts.deep_view(), sep@),
{
    let mut res = String::new();
    let ghost dv = parts.deep_view();
    let mut i: usize = 0;
    while i < parts.len()
        invariant
            i <= parts@.len(),
            dv == parts.deep_view(),
            dv.len() == parts@.len(),
            res@ == join(dv.take(i as int), sep@),
        decreases parts@.len() - i,
    {
        assert(dv.take(i + 1).drop_last() =~= dv.take(i as int));
        assert(dv[i as int] == parts@[i as int]@);
        if i != 0 {
            res.append(sep);
        }
        res.append(parts[i].as_str());
        i = i + 1;
    }
    assert(dv.take(parts@.len() as int) =~= dv);
    res
}

} // verus!

verus! {

/// Index of the first character at or after `i` that is not whitespace.
pub open spec fn skip_ws_fwd(s: Seq<char>, i: int) -> int
    decreases s.len() - i,
{
    if 0 <= i < s.len() && is_ws(s[i]) {
        skip_ws_fwd(s, i + 1)
    } else {
        i
    }
}

/// One past the last character before `j`, and not before `lo`, that is not whitespace.
pub open spec fn skip_ws_back(s: Seq<char>, j: int, lo: int) -> int
    decreases j - lo,
{
    if lo < j <= s.len() && is_ws(s[j - 1]) {
        skip_ws_back(s, j - 1, lo)
    } else {
        j
    }
}

/// `s` without its leading and trailing whitespace (std's `trim`).
pub open spec fn trim(s: Seq<char>) -> Seq<char> {
    let a = skip_ws_fwd(s, 0);
    s.subrange(a, skip_ws_back(s, s.len() as int, a))
}

proof fn lemma_skip_fwd_bounds(s: Seq<char>, i: int)
    requires
        0 <= i <= s.len(),
    ensures
        i <= skip_ws_fwd(s, i) <= s.len(),
        forall|k: int| i <= k < skip_ws_fwd(s, i) ==> is_ws(#[trigger] s[k]),
        skip_ws_fwd(s, i) < s.len() ==> !is_ws(s[skip_ws_fwd(s, i)]),
    decreases s.len() - i,
{
    if i < s.len() && is_ws(s[i]) {
        lemma_skip_fwd_bounds(s, i + 1);
    }
}

proof fn lemma_skip_back_bounds(s: Seq<char>, j: int, lo: int)
    requires
        0 <= lo <= j <= s.len(),
    ensures
        lo <= skip_ws_back(s, j, lo) <= j,
        forall|k: int| skip_ws_back(s, j, lo) <= k < j ==> is_ws(#[trigger] s[k]),
        skip_ws_back(s, j, lo) > lo ==> !is_ws(s[skip_ws_back(s, j, lo) - 1]),
    decreases j - lo,
{
    if lo < j && is_ws(s[j - 1]) {
        lemma_skip_back_bounds(s, j - 1, lo);
    }
}

/// Bounds `(a, b)` such that `s[a..b]` is `s` trimmed of whitespace.
pub fn trim_bounds(s: &[char]) -> (r: (usize, usize))
    ensures
        r.0 == skip_ws_fwd(s@, 0),
        r.1 == skip_ws_back(s@, s@.len() as int, r.0 as int),
        r.0 <= r.1 <= s@.len(),
        s@.subrange(r.0 as int, r.1 as int) == trim(s@),
{
    let n = s.len();
    let mut a: usize = 0;
    while a < n && is_whitespace(s[a])
        invariant
            a <= n == s@.len(),
            skip_ws_fwd(s@, a as int) == skip_ws_fwd(s@, 0),
        decreases n - a,
    {
        a = a + 1;
    }
    let mut b: usize = n;
    while b > a && is_whitespace(s[b - 1])
        invariant
            a <= b <= n == s@.len(),
            skip_ws_back(s@, b as int, a as int) == skip_ws_back(s@, n as int, a as int),
        decreases b - a,
    {
        b = b - 1;
    }
    (a, b)
}

/// The characters of `s[a..b]`.
pub fn slice_chars(s: &[char], a: usize, b: usize) -> (r: Vec<char>)
    requires
        a <= b <= s@.len(),
    ensures
        r@ == s@.subrange(a as int, b as int),
{
    let mut v: Vec<char> = Vec::new();
    let mut i = a;
    while i < b
        invariant
            a <= i <= b <= s@.len(),
            v@ == s@.subrange(a as int, i as int),
        decreases b - i,
    {
        v.push(s[i]);
        assert(s@.subrange(a as int, i + 1) =~= s@.subrange(a as int, i as int).push(s@[i as int]));
        i = i + 1;
    }
    v
}

/// `s` trimmed of leading and trailing whitespace.
pub fn trim_chars(s: &[char]) -> (r: Vec<char>)
    ensures
        r@ == trim(s@),
{
    let (a, b) = trim_bounds(s);
    slice_chars(s, a, b)
}

/// Whether `s` begins with `p`.
pub open spec fn starts_with(s: Seq<char>, p: Seq<char>) -> bool {
    p.len() <= s.len() && s.take(p.len() as int) == p
}

/// Executable `starts_with` on character sequences.
pub fn has_prefix(s: &[char], p: &[char]) -> (r: bool)
    ensures
        r == starts_with(s@, p@),
{
    if p.len() > s.len() {
        return false;
    }
    let mut i: usize = 0;
    while i < p.len()
        invariant
            i <= p@.len() <= s@.len(),
            forall|k: int| 0 <= k < i ==> s@[k] == p@[k],
        decreases p@.len() - i,
    {
        if s[i] != p[i] {
            assert(s@.take(p@.len() as int)[i as int] != p@[i as int]);
            return false;
        }
        i = i + 1;
    }
    assert(s@.take(p@.len() as int) =~= p@);
    true
}

/// Whether `p` occurs in `s` starting at index `i`.
pub open spec fn occurs_at(s: Seq<char>, p: Seq<char>, i: int) -> bool {
    0 <= i && i + p.len() <= s.len() && s.subrange(i, i + p.len()) == p
}

/// Whether `p` occurs somewhere in `s` (std's `contains` for a string pattern).
pub open spec fn contains(s: Seq<char>, p: Seq<char>) -> bool {
    exists|i: int| occurs_at(s, p, i)
}

fn occurs_at_exec(s: &[char], p: &[char], i: usize) -> (r: bool)
    requires
        i + p@.len() <= s@.len(),
    ensures
        r == occurs_at(s@, p@, i as int),
{
    let mut k: usize = 0;
    while k < p.len()
        invariant
            k <= p@.len(),
            p@.len() == p.len(),
            s@.len() == s.len(),
            i + p@.len() <= s@.len(),
            forall|m: int| 0 <= m < k ==> s@[i + m] == p@[m],
        decreases p@.len() - k,
    {
        if s[i + k] != p[k] {
            assert(s@.subrange(i as int, i + p@.len())[k as int] != p@[k as int]);
            return false;
        }
        k = k + 1;
    }
    assert(s@.subrange(i as int, i + p@.len()) =~= p@);
    true
}

/// Executable `contains` on character sequences.
pub fn has_infix(s: &[char], p: &[char]) -> (r: bool)
    ensures
        r == contains(s@, p@),
{
    if p.len() > s.len() {
        return false;
    }
    let last = s.len() - p.len();
    let mut i: usize = 0;
    loop
        invariant_except_break
            i <= last,
            last + p@.len() == s@.len(),
            forall|k: int| 0 <= k < i ==> !occurs_at(s@, p@, k),
        ensures
            forall|k: int| 0 <= k <= last ==> !occurs_at(s@, p@, k),
        decreases last - i,
    {
        if occurs_at_exec(s, p, i) {
            return true;
        }
        if i == last {
            break;
        }
        i = i + 1;
    }
    assert forall|k: int| !occurs_at(s@, p@, k) by {
        if 0 <= k <= last {
        }
    }
    false
}

} // verus!

verus! {

/// ASCII upper-case letters mapped to lower case; every other character kept.
pub open spec fn ascii_lower_char(c: char) -> char {
    if 'A' <= c && c <= 'Z' {
        ((c as u32) + 32) as char
    } else {
        c
    }
}

/// `s` with ASCII letters folded to lower case.
pub open spec fn ascii_lower(s: Seq<char>) -> Seq<char> {
    s.map_values(|c: char| ascii_lower_char(c))
}

/// Folds the ASCII letters of `s` to lower case.
pub fn ascii_lowercase(s: &[char]) -> (r: Vec<char>)
    ensures
        r@ == ascii_lower(s@),
{
    let mut v: Vec<char> = Vec::new();
    let mut i: usize = 0;
    while i < s.len()
        invariant
            i <= s@.len(),
            v@ == ascii_lower(s@.take(i as int)),
        decreases s@.len() - i,
    {
        let c = s[i];
        let d = if 'A' <= c && c <= 'Z' {
            ((c as u8) + 32) as char
        } else {
            c
        };
        v.push(d);
        assert(ascii_lower(s@.take(i + 1)) =~= ascii_lower(s@.take(i as int)).push(ascii_lower_char(c)));
        i = i + 1;
    }
    assert(s@.take(s@.len() as int) =~= s@);
    v
}

/// Line scanning state: finished lines and the line under construction.
pub open spec fn line_step(acc: (Seq<Seq<char>>, Seq<char>), c: char) -> (Seq<Seq<char>>, Seq<char>) {
    if c == '\n' {
        (acc.0.push(strip_cr(acc.1)), Seq::empty())
    } else {
        (acc.0, acc.1.push(c))
    }
}

/// A line without the `\r` of a `\r\n` ending.
pub open spec fn strip_cr(line: Seq<char>) -> Seq<char> {
    if line.len() > 0 && line.last() == '\r' {
        line.drop_last()
    } else {
        line
    }
}

pub open spec fn line_scan(s: Seq<char>) -> (Seq<Seq<char>>, Seq<char>)
    decreases s.len(),
{
    if s.len() == 0 {
        (Seq::empty(), Seq::empty())
    } else {
        line_step(line_scan(s.drop_last()), s.last())
    }
}

/// The lines of `s` (std's `lines`): split at `\n`, a `\r` before the `\n`
/// dropped, and no empty line after a final line ending.
pub open spec fn lines(s: Seq<char>) -> Seq<Seq<char>> {
    let acc = line_scan(s);
    if acc.1.len() > 0 {
        acc.0.push(acc.1)
    } else {
        acc.0
    }
}

/// Splits `s` into its lines.
pub fn split_lines(s: &[char]) -> (r: Vec<Vec<char>>)
    ensures
        r.deep_view() == lines(s@),
{
    let mut done: Vec<Vec<char>> = Vec::new();
    let mut cur: Vec<char> = Vec::new();
    let mut i: usize = 0;
    while i < s.len()
        invariant
            i <= s@.len(),
            (done.deep_view(), cur@) == line_scan(s@.take(i as int)),
        decreases s@.len() - i,
    {
        let c = s[i];
        assert(s@.take(i + 1).drop_last() =~= s@.take(i as int));
        if c == '\n' {
            let ghost before = done.deep_view();
            let n = cur.len();
            if n > 0 && cur[n - 1] == '\r' {
                cur.pop();
            }
            assert(cur.deep_view() =~= cur@);
            done.push(cur);
            cur = Vec::new();
            assert(done.deep_view() =~= before.push(strip_cr(line_scan(s@.take(i as int)).1)));
        } else {
            cur.push(c);
        }
        i = i + 1;
    }
    assert(s@.take(s@.len() as int) =~= s@);
    if cur.len() > 0 {
        let ghost before = done.deep_view();
        assert(cur.deep_view() =~= cur@);
        done.push(cur);
        assert(done.deep_view() =~= before.push(line_scan(s@).1));
    }
    done
}

/// The part of `s` before the first `c` (all of `s` when `c` does not occur).
pub open spec fn before_char(s: Seq<char>, c: char) -> Seq<char>
    decreases s.len(),
{
    if s.len() == 0 {
        s
    } else if s[0] == c {
        Seq::empty()
    } else {
        seq![s[0]] + before_char(s.drop_first(), c)
    }
}

proof fn lemma_before_char_take(s: Seq<char>, c: char, i: int)
    requires
        0 <= i <= s.len(),
        forall|k: int| 0 <= k < i ==> s[k] != c,
    ensures
        i < s.len() && s[i] == c ==> before_char(s, c) == s.take(i),
        i == s.len() ==> before_char(s, c) == s,
    decreases i,
{
    if i > 0 {
        lemma_before_char_take(s.drop_first(), c, i - 1);
        assert(s.drop_first().take(i - 1) =~= s.take(i).drop_first());
        assert(seq![s[0]] + s.take(i).drop_first() =~= s.take(i));
        assert(seq![s[0]] + s.drop_first() =~= s);
    } else {
        if s.len() > 0 && s[0] == c {
            assert(s.take(0) =~= Seq::<char>::empty());
        }
        if s.len() == 0 {
        }
    }
}

/// The characters before the first `c`.
pub fn prefix_before(s: &[char], c: char) -> (r: Vec<char>)
    ensures
        r@ == before_char(s@, c),
{
    let mut i: usize = 0;
    while i < s.len() && s[i] != c
        invariant
            i <= s@.len(),
            forall|k: int| 0 <= k < i ==> s@[k] != c,
        decreases s@.len() - i,
    {
        i = i + 1;
    }
    proof {
        lemma_before_char_take(s@, c, i as int);
    }
    assert(s@.subrange(0, i as int) =~= s@.take(i as int));
    assert(s@.subrange(0, s@.len() as int) =~= s@);
    slice_chars(s, 0, i)
}

/// `s` with every leading repetition of `p` removed (std's `trim_start_matches`).
pub open spec fn strip_all(s: Seq<char>, p: Seq<char>) -> Seq<char>
    decreases s.len(),
{
    if p.len() > 0 && starts_with(s, p) {
        strip_all(s.skip(p.len() as int), p)
    } else {
        s
    }
}

/// Removes every leading repetition of `p` from `s`.
pub fn strip_prefix_all(s: &[char], p: &[char]) -> (r: Vec<char>)
    ensures
        r@ == strip_all(s@, p@),
{
    let mut cur: Vec<char> = slice_chars(s, 0, s.len());
    assert(s@.subrange(0, s@.len() as int) =~= s@);
    while p.len() > 0 && has_prefix(cur.as_slice(), p)
        invariant
            strip_all(cur@, p@) == strip_all(s@, p@),
        decreases cur@.len(),
    {
        let n = cur.len();
        let ghost prev = cur@;
        cur = slice_chars(cur.as_slice(), p.len(), n);
        assert(cur@ =~= prev.skip(p@.len() as int));
    }
    cur
}

} // verus!

verus! {

/// ASCII decimal digit.
pub open spec fn is_digit(c: char) -> bool {
    '0' <= c && c <= '9'
}

/// Decimal value of a run of digits.
pub open spec fn digits_value(s: Seq<char>) -> nat
    decreases s.len(),
{
    if s.len() == 0 {
        0
    } else {
        digits_value(s.drop_last()) * 10 + ((s.last() as u32) - ('0' as u32)) as nat
    }
}

/// `s` without one leading `+`.
pub open spec fn unsigned_digits(s: Seq<char>) -> Seq<char> {
    if s.len() > 0 && s[0] == '+' {
        s.drop_first()
    } else {
        s
    }
}

/// Every character is a decimal digit.
pub open spec fn all_digits(d: Seq<char>) -> bool {
    forall|i: int| 0 <= i < d.len() ==> is_digit(#[trigger] d[i])
}

/// What std's `u64::from_str` returns: an optional `+` followed by one or
/// more decimal digits whose value fits in a `u64`.
pub open spec fn parse_u64_spec(s: Seq<char>) -> Option<u64> {
    let d = unsigned_digits(s);
    if d.len() > 0 && all_digits(d) && digits_value(d) <= u64::MAX {
        Some(digits_value(d) as u64)
    } else {
        None
    }
}

proof fn lemma_digits_mono(s: Seq<char>, i: int)
    requires
        0 <= i <= s.len(),
        forall|k: int| 0 <= k < s.len() ==> is_digit(#[trigger] s[k]),
    ensures
        digits_value(s.take(i)) <= digits_value(s),
    decreases s.len() - i,
{
    if i < s.len() {
        lemma_digits_mono(s.drop_last(), i);
        assert(s.drop_last().take(i) =~= s.take(i));
    } else {
        assert(s.take(i) =~= s);
    }
}

/// Parses an unsigned decimal integer as std's `u64::from_str` does.
pub fn parse_u64(s: &[char]) -> (r: Option<u64>)
    ensures
        r == parse_u64_spec(s@),
{
    let start: usize = if s.len() > 0 && s[0] == '+' { 1 } else { 0 };
    let ghost d = unsigned_digits(s@);
    assert(d =~= s@.subrange(start as int, s@.len() as int));
    if start >= s.len() {
        return None;
    }
    let mut i: usize = start;
    while i < s.len()
        invariant
            start <= i <= s@.len(),
            d =~= s@.subrange(start as int, s@.len() as int),
            d == unsigned_digits(s@),
            forall|k: int| 0 <= k < i - start ==> is_digit(#[trigger] d[k]),
        decreases s@.len() - i,
    {
        if !('0' <= s[i] && s[i] <= '9') {
            assert(!is_digit(d[i - start]));
            assert(!(forall|k: int| 0 <= k < d.len() ==> is_digit(#[trigger] d[k])));
            return None;
        }
        i = i + 1;
    }
    let mut v: u64 = 0;
    let mut j: usize = start;
    while j < s.len()
        invariant
            start <= j <= s@.len(),
            d =~= s@.subrange(start as int, s@.len() as int),
            d == unsigned_digits(s@),
            forall|k: int| 0 <= k < d.len() ==> is_digit(#[trigger] d[k]),
            v as nat == digits_value(d.take(j - start)),
        decreases s@.len() - j,
    {
        let c = s[j];
        assert(d[j - start] == c);
        let dig: u64 = ((c as u32) - ('0' as u32)) as u64;
        assert(d.take(j - start + 1).drop_last() =~= d.take(j - start));
        if v > (u64::MAX - dig) / 10 {
            assert(v * 10 + dig > u64::MAX) by (nonlinear_arith)
                requires
                    v > (u64::MAX - dig) / 10,
                    dig <= 9,
            ;
            proof {
                lemma_digits_mono(d, j - start + 1);
                assert(d.take(j - start + 1).last() == c);
                assert(digits_value(d.take(j - start + 1)) == v * 10 + dig);
            }
            return None;
        }
        assert(v * 10 + dig <= u64::MAX) by (nonlinear_arith)
            requires
                v <= (u64::MAX - dig) / 10,
                dig <= 9,
        ;
        assert(d.take(j - start + 1).last() == c);
        assert(digits_value(d.take(j - start + 1)) == v * 10 + dig);
        v = v * 10 + dig;
        j = j + 1;
    }
    assert(d.take(d.len() as int) =~= d);
    Some(v)
}

} // verus!

verus! {

/// Whether two character sequences are equal.
pub fn same_chars(a: &[char], b: &[char]) -> (r: bool)
    ensures
        r == (a@ == b@),
{
    if a.len() != b.len() {
        return false;
    }
    let mut i: usize = 0;
    while i < a.len()
        invariant
            i <= a@.len() == b@.len(),
            forall|k: int| 0 <= k < i ==> a@[k] == b@[k],
        decreases a@.len() - i,
    {
        if a[i] != b[i] {
            return false;
        }
        i = i + 1;
    }
    assert(a@ =~= b@);
    true
}

} // verus!

verus! {

/// `s` with every occurrence of `pat` (non-empty), taken from the left
/// without overlap, replaced by `rep` (std's `str::replace`).
pub open spec fn replace_all(s: Seq<char>, pat: Seq<char>, rep: Seq<char>) -> Seq<char>
    decreases s.len(),
{
    if pat.len() == 0 || s.len() == 0 {
        s
    } else if starts_with(s, pat) {
        rep + replace_all(s.skip(pat.len() as int), pat, rep)
    } else {
        seq![s[0]] + replace_all(s.drop_first(), pat, rep)
    }
}

/// Replaces every occurrence of `pat` in `s` by `rep`.
pub fn replace_text(s: &[char], pat: &[char], rep: &[char]) -> (r: Vec<char>)
    requires
        pat@.len() > 0,
    ensures
        r@ == replace_all(s@, pat@, rep@),
{
    let mut out: Vec<char> = Vec::new();
    let mut i: usize = 0;
    let n = s.len();
    assert(s@.skip(0) =~= s@);
    while i < n
        invariant
            i <= n == s@.len(),
            pat@.len() > 0,
            out@ + replace_all(s@.skip(i as int), pat@, rep@) == replace_all(s@, pat@, rep@),
        decreases n - i,
    {
        let rest = slice_chars(s, i, n);
        assert(rest@ =~= s@.skip(i as int));
        if has_prefix(rest.as_slice(), pat) {
            let ghost before = out@;
            let mut k: usize = 0;
            while k < rep.len()
                invariant
                    k <= rep@.len(),
                    out@ == before + rep@.take(k as int),
                decreases rep@.len() - k,
            {
                out.push(rep[k]);
                assert(rep@.take(k + 1) =~= rep@.take(k as int).push(rep@[k as int]));
                k = k + 1;
            }
            assert(rep@.take(rep@.len() as int) =~= rep@);
            assert(s@.skip(i as int).skip(pat@.len() as int) =~= s@.skip(i + pat@.len()));
            assert(out@ + replace_all(s@.skip(i + pat@.len()), pat@, rep@) =~= before + (rep@ + replace_all(s@.skip(i as int).skip(pat@.len() as int), pat@, rep@)));
            i = i + pat.len();
        } else {
            let ghost before = out@;
            out.push(s[i]);
            assert(s@.skip(i as int).drop_first() =~= s@.skip(i + 1));
            assert(out@ + replace_all(s@.skip(i + 1), pat@, rep@) =~= before + (seq![s@[i as int]] + replace_all(s@.skip(i as int).drop_first(), pat@, rep@)));
            i = i + 1;
        }
    }
    assert(s@.skip(n as int) =~= Seq::<char>::empty());
    assert(out@ + Seq::<char>::empty() =~= out@);
    out
}

/// The part of `s` after its last `c` (all of `s` when `c` does not occur).
pub open spec fn after_last(s: Seq<char>, c: char) -> Seq<char>
    decreases s.len(),
{
    if s.len() == 0 {
        s
    } else if s.last() == c {
        Seq::empty()
    } else {
        after_last(s.drop_last(), c).push(s.last())
    }
}

/// The characters after the last `c`.
pub fn suffix_after_last(s: &[char], c: char) -> (r: Vec<char>)
    ensures
        r@ == after_last(s@, c),
{
    let n = s.len();
    let mut start: usize = n;
    assert(s@.take(n as int) =~= s@);
    assert(after_last(s@.take(n as int), c) + s@.subrange(n as int, n as int) =~= after_last(s@, c));
    while start > 0 && s[start - 1] != c
        invariant
            start <= n == s@.len(),
            after_last(s@, c) == after_last(s@.take(start as int), c) + s@.subrange(start as int, n as int),
        decreases start,
    {
        assert(s@.take(start as int).drop_last() =~= s@.take(start - 1));
        assert(s@.subrange(start - 1, n as int) =~= seq![s@[start - 1]] + s@.subrange(start as int, n as int));
        assert(after_last(s@.take(start as int), c) == after_last(s@.take(start - 1), c).push(s@[start - 1]));
        assert(after_last(s@.take(start - 1), c).push(s@[start - 1]) + s@.subrange(start as int, n as int)
            =~= after_last(s@.take(start - 1), c) + s@.subrange(start - 1, n as int));
        start = start - 1;
    }
    assert(after_last(s@.take(start as int), c) =~= Seq::<char>::empty()) by {
        if start > 0 {
            assert(s@.take(start as int).last() == c);
        }
    }
    let r = slice_chars(s, start, n);
    assert(r@ =~= after_last(s@, c));
    r
}

} // verus!

verus! {

/// `w` is a word: not empty, without whitespace.
pub open spec fn is_word(w: Seq<char>) -> bool {
    w.len() > 0 && forall|k: int| 0 <= k < w.len() ==> !is_ws(#[trigger] w[k])
}

proof fn lemma_scan_append_word(a: Seq<char>, w: Seq<char>)
    requires
        forall|k: int| 0 <= k < w.len() ==> !is_ws(#[trigger] w[k]),
    ensures
        ws_scan(a + w) == (ws_scan(a).0, ws_scan(a).1 + w),
    decreases w.len(),
{
    if w.len() == 0 {
        assert(a + w =~= a);
        assert(ws_scan(a).1 + w =~= ws_scan(a).1);
    } else {
        let w1 = w.drop_last();
        lemma_scan_append_word(a, w1);
        assert((a + w).drop_last() =~= a + w1);
        assert((a + w).last() == w.last());
        assert(!is_ws(w[w.len() - 1]));
        assert((ws_scan(a).1 + w1).push(w.last()) =~= ws_scan(a).1 + w);
    }
}

proof fn lemma_scan_words(s: Seq<char>)
    ensures
        forall|i: int| 0 <= i < ws_scan(s).0.len() ==> is_word(#[trigger] ws_scan(s).0[i]),
        forall|k: int| 0 <= k < ws_scan(s).1.len() ==> !is_ws(#[trigger] ws_scan(s).1[k]),
    decreases s.len(),
{
    if s.len() > 0 {
        lemma_scan_words(s.drop_last());
        let acc = ws_scan(s.drop_last());
        let c = s.last();
        if !is_ws(c) {
            assert forall|k: int| 0 <= k < acc.1.push(c).len() implies !is_ws(#[trigger] acc.1.push(c)[k]) by {
                if k < acc.1.len() {
                    assert(acc.1.push(c)[k] == acc.1[k]);
                }
            }
        } else if acc.1.len() > 0 {
            assert forall|i: int| 0 <= i < acc.0.push(acc.1).len() implies is_word(#[trigger] acc.0.push(acc.1)[i]) by {
                if i < acc.0.len() {
                    assert(acc.0.push(acc.1)[i] == acc.0[i]);
                }
            }
        }
    }
}

/// Every entry of `words(s)` is a word.
pub proof fn lemma_words_are_words(s: Seq<char>)
    ensures
        forall|i: int| 0 <= i < words(s).len() ==> is_word(#[trigger] words(s)[i]),
{
    lemma_scan_words(s);
    let acc = ws_scan(s);
    if acc.1.len() > 0 {
        assert forall|i: int| 0 <= i < words(s).len() implies is_word(#[trigger] words(s)[i]) by {
            if i < acc.0.len() {
                assert(words(s)[i] == acc.0[i]);
            }
        }
    }
}

proof fn lemma_scan_join(ws: Seq<Seq<char>>)
    requires
        ws.len() > 0,
        forall|i: int| 0 <= i < ws.len() ==> is_word(#[trigger] ws[i]),
    ensures
        ws_scan(join(ws, seq![' '])) == (ws.drop_last(), ws.last()),
    decreases ws.len(),
{
    if ws.len() == 1 {
        assert(is_word(ws[0]));
        lemma_scan_append_word(Seq::empty(), ws[0]);
        assert(Seq::<char>::empty() + ws[0] =~= ws[0]);
        assert(Seq::<char>::empty() + ws[0] =~= ws[0]);
        assert(ws.drop_last() =~= Seq::<Seq<char>>::empty());
    } else {
        let ws1 = ws.drop_last();
        assert forall|i: int| 0 <= i < ws1.len() implies is_word(#[trigger] ws1[i]) by {
            assert(ws1[i] == ws[i]);
        }
        lemma_scan_join(ws1);
        let j1 = join(ws1, seq![' ']);
        let spaced = j1 + seq![' '];
        assert(spaced.drop_last() =~= j1);
        assert(is_ws(' '));
        assert(is_word(ws1[ws1.len() - 1]));
        assert(ws_scan(spaced) == (ws1.drop_last().push(ws1.last()), Seq::<char>::empty()));
        assert(ws1.drop_last().push(ws1.last()) =~= ws1);
        assert(is_word(ws[ws.len() - 1]));
        lemma_scan_append_word(spaced, ws.last());
        assert(Seq::<char>::empty() + ws.last() =~= ws.last());
        assert(join(ws, seq![' ']) == spaced + ws.last());
    }
}

/// Splitting words that were joined by single spaces gives them back.
pub proof fn lemma_words_of_join(ws: Seq<Seq<char>>)
    requires
        forall|i: int| 0 <= i < ws.len() ==> is_word(#[trigger] ws[i]),
    ensures
        words(join(ws, seq![' '])) == ws,
{
    if ws.len() == 0 {
        assert(ws_scan(Seq::<char>::empty()) == (Seq::<Seq<char>>::empty(), Seq::<char>::empty()));
        assert(ws =~= Seq::<Seq<char>>::empty());
    } else {
        lemma_scan_join(ws);
        assert(is_word(ws[ws.len() - 1]));
        assert(ws.drop_last().push(ws.last()) =~= ws);
    }
}

} // verus!

verus! {

/// Joining two non-empty lists of parts is joining each and putting `sep` between.
pub proof fn lemma_join_concat(a: Seq<Seq<char>>, b: Seq<Seq<char>>, sep: Seq<char>)
    requires
        a.len() > 0,
        b.len() > 0,
    ensures
        join(a + b, sep) == join(a, sep) + sep + join(b, sep),
    decreases b.len(),
{
    if b.len() == 1 {
        assert((a + b).drop_last() =~= a);
        assert((a + b).last() == b[0]);
    } else {
        assert((a + b).drop_last() =~= a + b.drop_last());
        assert((a + b).last() == b.last());
        lemma_join_concat(a, b.drop_last(), sep);
        assert(join(a + b, sep) == join(a + b.drop_last(), sep) + sep + b.last());
        assert(join(b, sep) == join(b.drop_last(), sep) + sep + b.last());
        assert(join(a, sep) + sep + join(b.drop_last(), sep) + sep + b.last() =~= join(a, sep) + sep + (join(
            b.drop_last(),
            sep,
        ) + sep + b.last()));
    }
}

} // verus!

verus! {

/// `s` is normalised text: no whitespace at either end, and every whitespace
/// character is a single space between two other characters.
pub open spec fn normalised(s: Seq<char>) -> bool {
    &&& s.len() > 0 ==> !is_ws(s[0]) && !is_ws(s.last())
    &&& forall|k: int|
        0 <= k < s.len() && is_ws(#[trigger] s[k]) ==> s[k] == ' ' && 0 < k < s.len() - 1 && !is_ws(s[k + 1])
}

/// Trimming leaves a text that starts and ends with other than whitespace.
pub proof fn lemma_trim_bare(x: Seq<char>)
    requires
        x.len() > 0,
        !is_ws(x[0]),
        !is_ws(x.last()),
    ensures
        trim(x) == x,
{
    assert(skip_ws_fwd(x, 0) == 0);
    assert(skip_ws_back(x, x.len() as int, 0) == x.len());
    assert(x.subrange(0, x.len() as int) =~= x);
}

/// Trimming drops one leading space from such a text.
pub proof fn lemma_trim_spaced(x: Seq<char>)
    requires
        x.len() > 0,
        !is_ws(x[0]),
        !is_ws(x.last()),
    ensures
        trim(seq![' '] + x) == x,
{
    let y = seq![' '] + x;
    assert(is_ws(' '));
    assert(y[0] == ' ');
    assert(y[1] == x[0]);
    assert(skip_ws_fwd(y, 1) == 1);
    assert(skip_ws_fwd(y, 0) == 1);
    assert(y[y.len() - 1] == x.last());
    assert(skip_ws_back(y, y.len() as int, 1) == y.len());
    assert(y.subrange(1, y.len() as int) =~= x);
}

/// Words joined by single spaces are normalised text.
pub proof fn lemma_joined_words_normalised(ws: Seq<Seq<char>>)
    requires
        ws.len() > 0,
        forall|i: int| 0 <= i < ws.len() ==> is_word(#[trigger] ws[i]),
    ensures
        normalised(join(ws, seq![' '])),
        join(ws, seq![' ']).len() > 0,
    decreases ws.len(),
{
    if ws.len() == 1 {
        assert(is_word(ws[0]));
    } else {
        let w1 = ws.drop_last();
        assert forall|i: int| 0 <= i < w1.len() implies is_word(#[trigger] w1[i]) by {
            assert(w1[i] == ws[i]);
        }
        lemma_joined_words_normalised(w1);
        let p = join(w1, seq![' ']);
        let w = ws.last();
        assert(is_word(ws[ws.len() - 1]));
        let s = join(ws, seq![' ']);
        assert(s == p + seq![' '] + w);
        assert(s[0] == p[0]);
        assert(s.last() == w.last());
        assert(!is_ws(w[w.len() - 1]));
        assert forall|k: int| 0 <= k < s.len() && is_ws(#[trigger] s[k]) implies s[k] == ' ' && 0 < k < s.len() - 1 && !is_ws(
            s[k + 1],
        ) by {
            if k < p.len() {
                assert(s[k] == p[k]);
                if k + 1 < p.len() {
                    assert(s[k + 1] == p[k + 1]);
                }
            } else if k == p.len() {
                assert(s[k + 1] == w[0]);
            } else {
                assert(s[k] == w[k - p.len() - 1]);
            }
        }
    }
}

} // verus!
