//! Per-domain crawl rules and the `robots.txt` reader that produces them.
use vstd::prelude::*;
use crate::text::{
    ascii_lower, ascii_lowercase, before_char, chars_of, contains, has_infix, has_prefix, lines,
    parse_u64, parse_u64_spec, prefix_before, same_chars, slice_chars, split_lines, starts_with, string_from_chars,
    strip_all, strip_prefix_all, trim, trim_chars,
};

verus! {

/// Seconds between two requests to a domain when its rules name no other delay.
pub const DEFAULT_CRAWL_DELAY: u64 = 2;

/// What the crawler knows about one domain.
pub struct DomainMetadata {
    /// When the domain was last fetched, in milliseconds of the crawler's clock.
    pub last_hit: Option<u64>,
    /// Seconds to wait between two fetches.
    pub crawl_delay: u64,
    pub disallowed_paths: Vec<String>,
    pub allowed_paths: Vec<String>,
    pub rules_fetched: bool,
    pub consecutive_errors: u32,
    /// No fetch before this time, in milliseconds of the crawler's clock.
    pub backoff_until: Option<u64>,
}

/// The value a `DomainMetadata` stands for.
pub struct DomainRules {
    pub last_hit: Option<u64>,
    pub crawl_delay: u64,
    pub disallowed_paths: Seq<Seq<char>>,
    pub allowed_paths: Seq<Seq<char>>,
    pub rules_fetched: bool,
    pub consecutive_errors: u32,
    pub backoff_until: Option<u64>,
}

impl View for DomainMetadata {
    type V = DomainRules;

    open spec fn view(&self) -> DomainRules {
        DomainRules {
            last_hit: self.last_hit,
            crawl_delay: self.crawl_delay,
            disallowed_paths: self.disallowed_paths.deep_view(),
            allowed_paths: self.allowed_paths.deep_view(),
            rules_fetched: self.rules_fetched,
            consecutive_errors: self.consecutive_errors,
            backoff_until: self.backoff_until,
        }
    }
}

/// Rules of a domain whose `robots.txt` has not been asked for.
pub open spec fn unfetched_rules() -> DomainRules {
    DomainRules {
        last_hit: None,
        crawl_delay: DEFAULT_CRAWL_DELAY,
        disallowed_paths: Seq::empty(),
        allowed_paths: Seq::empty(),
        rules_fetched: false,
        consecutive_errors: 0,
        backoff_until: None,
    }
}

/// Some entry of `prefixes` is a prefix of `path`.
pub open spec fn matches_any(path: Seq<char>, prefixes: Seq<Seq<char>>) -> bool {
    exists|i: int| 0 <= i < prefixes.len() && starts_with(path, #[trigger] prefixes[i])
}

/// An allowed prefix wins over a disallowed one; a path that matches neither may be crawled.
pub open spec fn path_allowed(rules: DomainRules, path: Seq<char>) -> bool {
    matches_any(path, rules.allowed_paths) || !matches_any(path, rules.disallowed_paths)
}

/// Copies a list of strings.
pub fn copy_strings(v: &Vec<String>) -> (r: Vec<String>)
    ensures
        r.deep_view() == v.deep_view(),
{
    let mut out: Vec<String> = Vec::new();
    let mut i: usize = 0;
    while i < v.len()
        invariant
            i <= v@.len(),
            out.deep_view() == v.deep_view().take(i as int),
        decreases v@.len() - i,
    {
        let ghost before = out.deep_view();
        let s = v[i].clone();
        assert(s@ == v@[i as int]@);
        out.push(s);
        assert(out.deep_view() =~= before.push(s@));
        assert(v.deep_view().take(i + 1) =~= v.deep_view().take(i as int).push(v@[i as int]@));
        i = i + 1;
    }
    assert(v.deep_view().take(v@.len() as int) =~= v.deep_view());
    out
}

fn any_prefix_of(path: &[char], prefixes: &Vec<String>) -> (r: bool)
    ensures
        r == matches_any(path@, prefixes.deep_view()),
{
    let mut i: usize = 0;
    while i < prefixes.len()
        invariant
            i <= prefixes@.len(),
            forall|k: int| 0 <= k < i ==> !starts_with(path@, #[trigger] prefixes.deep_view()[k]),
        decreases prefixes@.len() - i,
    {
        let p = chars_of(prefixes[i].as_str());
        assert(prefixes.deep_view()[i as int] == prefixes@[i as int]@);
        if has_prefix(path, p.as_slice()) {
            return true;
        }
        i = i + 1;
    }
    false
}

impl DomainMetadata {
    /// Default rules: nothing fetched yet, the default delay, no paths.
    pub fn default_unfetched() -> (r: Self)
        ensures
            r@ == unfetched_rules(),
    {
        let r = DomainMetadata {
            last_hit: None,
            crawl_delay: DEFAULT_CRAWL_DELAY,
            disallowed_paths: Vec::new(),
            allowed_paths: Vec::new(),
            rules_fetched: false,
            consecutive_errors: 0,
            backoff_until: None,
        };
        assert(r@.disallowed_paths =~= Seq::<Seq<char>>::empty());
        assert(r@.allowed_paths =~= Seq::<Seq<char>>::empty());
        r
    }

    /// Whether `path` may be fetched under these rules.
    pub fn can_crawl(&self, path: &str) -> (r: bool)
        ensures
            r == path_allowed(self@, path@),
    {
        let p = chars_of(path);
        if any_prefix_of(p.as_slice(), &self.allowed_paths) {
            return true;
        }
        if any_prefix_of(p.as_slice(), &self.disallowed_paths) {
            return false;
        }
        true
    }

    /// An identical copy.
    pub fn duplicate(&self) -> (r: Self)
        ensures
            r@ == self@,
    {
        DomainMetadata {
            last_hit: self.last_hit,
            crawl_delay: self.crawl_delay,
            disallowed_paths: copy_strings(&self.disallowed_paths),
            allowed_paths: copy_strings(&self.allowed_paths),
            rules_fetched: self.rules_fetched,
            consecutive_errors: self.consecutive_errors,
            backoff_until: self.backoff_until,
        }
    }
}

} // verus!

verus! {

/// State of the `robots.txt` reader between two lines.
pub struct RobotsScan {
    pub delay: u64,
    pub disallowed: Seq<Seq<char>>,
    pub allowed: Seq<Seq<char>>,
    /// The current group of rules applies to this crawler.
    pub in_target: bool,
    /// A group naming this crawler has been seen; `*` groups no longer apply.
    pub found_specific: bool,
    /// The current group has rule lines, so the next `User-agent` starts a new group.
    pub parsing_rules: bool,
}

pub open spec fn robots_start() -> RobotsScan {
    RobotsScan {
        delay: DEFAULT_CRAWL_DELAY,
        disallowed: Seq::empty(),
        allowed: Seq::empty(),
        in_target: false,
        found_specific: false,
        parsing_rules: false,
    }
}

/// Effect of one `User-agent` line whose value is `agent` (already lower case and trimmed).
pub open spec fn robots_agent(st: RobotsScan, agent: Seq<char>) -> RobotsScan {
    let st1 = RobotsScan {
        in_target: if st.parsing_rules { false } else { st.in_target },
        parsing_rules: false,
        ..st
    };
    if contains(agent, "pythiasearchbot"@) {
        if !st1.found_specific {
            RobotsScan {
                in_target: true,
                disallowed: Seq::empty(),
                allowed: Seq::empty(),
                delay: DEFAULT_CRAWL_DELAY,
                found_specific: true,
                ..st1
            }
        } else {
            RobotsScan { in_target: true, ..st1 }
        }
    } else if agent == "*"@ && !st1.found_specific {
        RobotsScan { in_target: true, ..st1 }
    } else {
        st1
    }
}

/// Effect of one rule line (`Disallow`, `Allow` or `Crawl-delay`); `clean` is
/// the line without comment and surrounding whitespace, `lower` its ASCII lower case.
pub open spec fn robots_rule(st: RobotsScan, clean: Seq<char>, lower: Seq<char>) -> RobotsScan {
    let st1 = RobotsScan { parsing_rules: true, ..st };
    if !st1.in_target {
        st1
    } else if starts_with(lower, "disallow:"@) {
        let p = trim(clean.skip("disallow:"@.len() as int));
        if p.len() > 0 {
            RobotsScan { disallowed: st1.disallowed.push(p), ..st1 }
        } else {
            st1
        }
    } else if starts_with(lower, "allow:"@) {
        let p = trim(clean.skip("allow:"@.len() as int));
        if p.len() > 0 {
            RobotsScan { allowed: st1.allowed.push(p), ..st1 }
        } else {
            st1
        }
    } else {
        match parse_u64_spec(trim(clean.skip("crawl-delay:"@.len() as int))) {
            Some(d) => RobotsScan { delay: d, ..st1 },
            None => st1,
        }
    }
}

/// Effect of one line of `robots.txt`.
pub open spec fn robots_line(st: RobotsScan, line: Seq<char>) -> RobotsScan {
    let clean = trim(before_char(line, '#'));
    let lower = ascii_lower(clean);
    if clean.len() == 0 {
        st
    } else if starts_with(lower, "user-agent:"@) {
        robots_agent(st, trim(strip_all(lower, "user-agent:"@)))
    } else if starts_with(lower, "disallow:"@) || starts_with(lower, "allow:"@) || starts_with(
        lower,
        "crawl-delay:"@,
    ) {
        robots_rule(st, clean, lower)
    } else {
        st
    }
}

pub open spec fn robots_fold(ls: Seq<Seq<char>>) -> RobotsScan
    decreases ls.len(),
{
    if ls.len() == 0 {
        robots_start()
    } else {
        robots_line(robots_fold(ls.drop_last()), ls.last())
    }
}

/// The rules that `parse_robots_txt` derives from `text`.
pub open spec fn robots_rules(text: Seq<char>) -> DomainRules {
    let st = robots_fold(lines(text));
    DomainRules {
        last_hit: None,
        crawl_delay: st.delay,
        disallowed_paths: st.disallowed,
        allowed_paths: st.allowed,
        rules_fetched: true,
        consecutive_errors: 0,
        backoff_until: None,
    }
}

struct RobotsReader {
    delay: u64,
    disallowed: Vec<String>,
    allowed: Vec<String>,
    in_target: bool,
    found_specific: bool,
    parsing_rules: bool,
}

impl View for RobotsReader {
    type V = RobotsScan;

    closed spec fn view(&self) -> RobotsScan {
        RobotsScan {
            delay: self.delay,
            disallowed: self.disallowed.deep_view(),
            allowed: self.allowed.deep_view(),
            in_target: self.in_target,
            found_specific: self.found_specific,
            parsing_rules: self.parsing_rules,
        }
    }
}

/// The keywords that the reader looks for, as characters.
struct Keywords {
    user_agent: Vec<char>,
    disallow: Vec<char>,
    allow: Vec<char>,
    crawl_delay: Vec<char>,
    bot: Vec<char>,
    star: Vec<char>,
}

impl Keywords {
    spec fn wf(&self) -> bool {
        &&& self.user_agent@ == "user-agent:"@
        &&& self.disallow@ == "disallow:"@
        &&& self.allow@ == "allow:"@
        &&& self.crawl_delay@ == "crawl-delay:"@
        &&& self.bot@ == "pythiasearchbot"@
        &&& self.star@ == "*"@
    }

    fn new() -> (r: Self)
        ensures
            r.wf(),
    {
        Keywords {
            user_agent: chars_of("user-agent:"),
            disallow: chars_of("disallow:"),
            allow: chars_of("allow:"),
            crawl_delay: chars_of("crawl-delay:"),
            bot: chars_of("pythiasearchbot"),
            star: chars_of("*"),
        }
    }
}

fn push_string(v: &mut Vec<String>, cs: &[char])
    ensures
        final(v).deep_view() == old(v).deep_view().push(cs@),
{
    let s = string_from_chars(cs);
    let ghost before = v.deep_view();
    v.push(s);
    assert(v.deep_view() =~= before.push(cs@));
}

impl RobotsReader {
    fn agent_line(&mut self, kw: &Keywords, agent: &[char])
        requires
            kw.wf(),
        ensures
            final(self)@ == robots_agent(old(self)@, agent@),
    {
        if self.parsing_rules {
            self.in_target = false;
            self.parsing_rules = false;
        }
        if has_infix(agent, kw.bot.as_slice()) {
            self.in_target = true;
            if !self.found_specific {
                self.disallowed = Vec::new();
                self.allowed = Vec::new();
                self.delay = DEFAULT_CRAWL_DELAY;
                self.found_specific = true;
                assert(self.disallowed.deep_view() =~= Seq::<Seq<char>>::empty());
                assert(self.allowed.deep_view() =~= Seq::<Seq<char>>::empty());
            }
        } else if same_chars(agent, kw.star.as_slice()) && !self.found_specific {
            self.in_target = true;
        }
    }

    fn rule_line(&mut self, kw: &Keywords, clean: &[char], lower: &[char])
        requires
            kw.wf(),
            lower@ == ascii_lower(clean@),
            starts_with(lower@, "disallow:"@) || starts_with(lower@, "allow:"@) || starts_with(
                lower@,
                "crawl-delay:"@,
            ),
        ensures
            final(self)@ == robots_rule(old(self)@, clean@, lower@),
    {
        self.parsing_rules = true;
        if !self.in_target {
            return;
        }
        let n = clean.len();
        if has_prefix(lower, kw.disallow.as_slice()) {
            let rest = slice_chars(clean, kw.disallow.len(), n);
            assert(rest@ =~= clean@.skip("disallow:"@.len() as int));
            let p = trim_chars(rest.as_slice());
            if p.len() > 0 {
                push_string(&mut self.disallowed, p.as_slice());
            }
        } else if has_prefix(lower, kw.allow.as_slice()) {
            let rest = slice_chars(clean, kw.allow.len(), n);
            assert(rest@ =~= clean@.skip("allow:"@.len() as int));
            let p = trim_chars(rest.as_slice());
            if p.len() > 0 {
                push_string(&mut self.allowed, p.as_slice());
            }
        } else {
            let rest = slice_chars(clean, kw.crawl_delay.len(), n);
            assert(rest@ =~= clean@.skip("crawl-delay:"@.len() as int));
            let p = trim_chars(rest.as_slice());
            match parse_u64(p.as_slice()) {
                Some(d) => {
                    self.delay = d;
                },
                None => {},
            }
        }
    }

    fn line(&mut self, kw: &Keywords, line: &[char])
        requires
            kw.wf(),
        ensures
            final(self)@ == robots_line(old(self)@, line@),
    {
        let before = prefix_before(line, '#');
        let clean = trim_chars(before.as_slice());
        let lower = ascii_lowercase(clean.as_slice());
        if clean.len() == 0 {
            return;
        }
        if has_prefix(lower.as_slice(), kw.user_agent.as_slice()) {
            let stripped = strip_prefix_all(lower.as_slice(), kw.user_agent.as_slice());
            let agent = trim_chars(stripped.as_slice());
            self.agent_line(kw, agent.as_slice());
        } else if has_prefix(lower.as_slice(), kw.disallow.as_slice()) || has_prefix(
            lower.as_slice(),
            kw.allow.as_slice(),
        ) || has_prefix(lower.as_slice(), kw.crawl_delay.as_slice()) {
            self.rule_line(kw, clean.as_slice(), lower.as_slice());
        }
    }
}

/// Reads a `robots.txt` file into crawl rules for this crawler
/// (`PythiaSearchBot`). A group naming the crawler replaces whatever `*`
/// groups gave and shuts out later `*` groups; keywords are matched without
/// regard to ASCII case (they and the crawler's name are ASCII, so this
/// decides as full Unicode lower-casing would); `#` starts a comment.
pub fn parse_robots_txt(text: &str, domain: &str) -> (r: DomainMetadata)
    ensures
        r@ == robots_rules(text@),
{
    let kw = Keywords::new();
    let cs = chars_of(text);
    let ls = split_lines(cs.as_slice());
    let ghost lsv = ls.deep_view();
    let mut rd = RobotsReader {
        delay: DEFAULT_CRAWL_DELAY,
        disallowed: Vec::new(),
        allowed: Vec::new(),
        in_target: false,
        found_specific: false,
        parsing_rules: false,
    };
    assert(rd.disallowed.deep_view() =~= Seq::<Seq<char>>::empty());
    assert(rd.allowed.deep_view() =~= Seq::<Seq<char>>::empty());
    assert(rd@ == robots_start());
    let mut i: usize = 0;
    while i < ls.len()
        invariant
            kw.wf(),
            i <= ls@.len(),
            lsv == ls.deep_view(),
            lsv == lines(text@),
            rd@ == robots_fold(lsv.take(i as int)),
        decreases ls@.len() - i,
    {
        assert(lsv.take(i + 1).drop_last() =~= lsv.take(i as int));
        assert(lsv[i as int] =~= ls@[i as int]@);
        rd.line(&kw, ls[i].as_slice());
        i = i + 1;
    }
    assert(lsv.take(ls@.len() as int) =~= lsv);
    DomainMetadata {
        last_hit: None,
        crawl_delay: rd.delay,
        disallowed_paths: rd.disallowed,
        allowed_paths: rd.allowed,
        rules_fetched: true,
        consecutive_errors: 0,
        backoff_until: None,
    }
}

} // verus!

verus! {

/// Every path in `ps` is non-empty.
pub open spec fn all_non_empty(ps: Seq<Seq<char>>) -> bool {
    forall|i: int| 0 <= i < ps.len() ==> (#[trigger] ps[i]).len() > 0
}

proof fn lemma_fold_paths_non_empty(ls: Seq<Seq<char>>)
    ensures
        all_non_empty(robots_fold(ls).disallowed),
        all_non_empty(robots_fold(ls).allowed),
    decreases ls.len(),
{
    if ls.len() > 0 {
        lemma_fold_paths_non_empty(ls.drop_last());
        let st = robots_fold(ls.drop_last());
        let nx = robots_fold(ls);
        assert forall|i: int| 0 <= i < nx.disallowed.len() implies (#[trigger] nx.disallowed[i]).len() > 0 by {
            if i < st.disallowed.len() && nx.disallowed.len() >= st.disallowed.len() {
                if nx.disallowed[i] != st.disallowed[i] {
                    assert(nx.disallowed.len() == 0 || nx.disallowed.len() == st.disallowed.len() + 1);
                }
            }
        }
        assert forall|i: int| 0 <= i < nx.allowed.len() implies (#[trigger] nx.allowed[i]).len() > 0 by {
            if i < st.allowed.len() && nx.allowed.len() >= st.allowed.len() {
                if nx.allowed[i] != st.allowed[i] {
                    assert(nx.allowed.len() == 0 || nx.allowed.len() == st.allowed.len() + 1);
                }
            }
        }
    }
}

/// A `robots.txt` never yields an empty path rule: every `Disallow` and
/// `Allow` path kept is non-empty, so an empty `Disallow:` forbids nothing.
pub proof fn law_robots_paths_non_empty(text: Seq<char>)
    ensures
        all_non_empty(robots_rules(text).disallowed_paths),
        all_non_empty(robots_rules(text).allowed_paths),
{
    lemma_fold_paths_non_empty(lines(text));
}

/// Rules with no disallowed path allow every path.
pub proof fn law_no_disallow_allows_all(rules: DomainRules, path: Seq<char>)
    requires
        rules.disallowed_paths.len() == 0,
    ensures
        path_allowed(rules, path),
{
}

/// The line, without comment and surrounding whitespace, starts with `key`
/// in any letter case.
pub open spec fn is_key_line(line: Seq<char>, key: Seq<char>) -> bool {
    starts_with(ascii_lower(trim(before_char(line, '#'))), key)
}

/// What follows `key` on a line, without comment and surrounding whitespace.
pub open spec fn key_value(line: Seq<char>, key: Seq<char>) -> Seq<char> {
    trim(trim(before_char(line, '#')).skip(key.len() as int))
}

proof fn lemma_fold_without_agents(ls: Seq<Seq<char>>)
    requires
        forall|i: int| 0 <= i < ls.len() ==> !is_key_line(#[trigger] ls[i], "user-agent:"@),
    ensures
        robots_fold(ls).disallowed.len() == 0,
        robots_fold(ls).allowed.len() == 0,
        robots_fold(ls).delay == DEFAULT_CRAWL_DELAY,
        !robots_fold(ls).in_target,
        !robots_fold(ls).found_specific,
    decreases ls.len(),
{
    if ls.len() > 0 {
        let prev = ls.drop_last();
        assert forall|i: int| 0 <= i < prev.len() implies !is_key_line(#[trigger] prev[i], "user-agent:"@) by {
            assert(prev[i] == ls[i]);
        }
        lemma_fold_without_agents(prev);
        assert(!is_key_line(ls[ls.len() - 1], "user-agent:"@));
    }
}

/// Rules come from groups: a `robots.txt` without a `User-agent` line
/// disallows and allows no path and keeps the default crawl delay, whatever
/// rule lines it holds.
pub proof fn law_rules_need_a_user_agent(text: Seq<char>)
    requires
        forall|i: int| 0 <= i < lines(text).len() ==> !is_key_line(#[trigger] lines(text)[i], "user-agent:"@),
    ensures
        robots_rules(text).disallowed_paths.len() == 0,
        robots_rules(text).allowed_paths.len() == 0,
        robots_rules(text).crawl_delay == DEFAULT_CRAWL_DELAY,
{
    lemma_fold_without_agents(lines(text));
}

proof fn lemma_fold_paths_from_lines(ls: Seq<Seq<char>>, k: int)
    ensures
        0 <= k < robots_fold(ls).disallowed.len() ==> exists|i: int|
            0 <= i < ls.len() && is_key_line(ls[i], "disallow:"@) && robots_fold(ls).disallowed[k]
                =~= key_value(ls[i], "disallow:"@),
        0 <= k < robots_fold(ls).allowed.len() ==> exists|i: int|
            0 <= i < ls.len() && is_key_line(ls[i], "allow:"@) && robots_fold(ls).allowed[k]
                =~= key_value(ls[i], "allow:"@),
    decreases ls.len(),
{
    if ls.len() > 0 {
        let prev = ls.drop_last();
        let x = ls.last();
        let last = ls.len() - 1;
        lemma_fold_paths_from_lines(prev, k);
        let st = robots_fold(prev);
        let nx = robots_fold(ls);
        assert(nx == robots_line(st, x));
        assert(x == ls[last]);
        assert(nx.disallowed == st.disallowed || nx.disallowed.len() == 0 || (is_key_line(x, "disallow:"@)
            && nx.disallowed == st.disallowed.push(key_value(x, "disallow:"@))));
        assert(nx.allowed == st.allowed || nx.allowed.len() == 0 || (is_key_line(x, "allow:"@)
            && nx.allowed == st.allowed.push(key_value(x, "allow:"@))));
        if 0 <= k < nx.disallowed.len() {
            if k < st.disallowed.len() && nx.disallowed[k] == st.disallowed[k] {
                let i = choose|i: int|
                    0 <= i < prev.len() && is_key_line(prev[i], "disallow:"@) && st.disallowed[k]
                        =~= key_value(prev[i], "disallow:"@);
                assert(prev[i] == ls[i]);
            } else {
                assert(nx.disallowed[k] == key_value(ls[last], "disallow:"@));
                assert(is_key_line(ls[last], "disallow:"@));
            }
        }
        if 0 <= k < nx.allowed.len() {
            if k < st.allowed.len() && nx.allowed[k] == st.allowed[k] {
                let i = choose|i: int|
                    0 <= i < prev.len() && is_key_line(prev[i], "allow:"@) && st.allowed[k]
                        =~= key_value(prev[i], "allow:"@);
                assert(prev[i] == ls[i]);
            } else {
                assert(nx.allowed[k] == key_value(ls[last], "allow:"@));
                assert(is_key_line(ls[last], "allow:"@));
            }
        }
    }
}

/// Every path rule comes from a line of the file: the disallowed path at
/// `k` is what follows `Disallow:` on some line, and the allowed path at `k`
/// what follows `Allow:` on some line, trimmed.
pub proof fn law_robots_paths_come_from_lines(text: Seq<char>, k: int)
    ensures
        0 <= k < robots_rules(text).disallowed_paths.len() ==> exists|i: int|
            0 <= i < lines(text).len() && is_key_line(lines(text)[i], "disallow:"@)
                && robots_rules(text).disallowed_paths[k] =~= key_value(lines(text)[i], "disallow:"@),
        0 <= k < robots_rules(text).allowed_paths.len() ==> exists|i: int|
            0 <= i < lines(text).len() && is_key_line(lines(text)[i], "allow:"@)
                && robots_rules(text).allowed_paths[k] =~= key_value(lines(text)[i], "allow:"@),
{
    lemma_fold_paths_from_lines(lines(text), k);
}

} // verus!
