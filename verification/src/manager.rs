//! The crawl manager of one shard: deduplicates discovered URLs, keeps the
//! frontiers, applies each domain's rules and hands work to the workers.
use vstd::prelude::*;
use vstd::hash_map::StringHashMap;
use bloomfilter::Bloom;
use crate::robots::{
    parse_robots_txt, path_allowed, robots_rules, unfetched_rules, DomainMetadata,
    DomainRules,
};
use crate::text::{chars_of, contains, has_infix, has_prefix, starts_with};
use crate::urls::{parse_url, url_parse_spec};

verus! {

#[verifier::external_type_specification]
#[verifier::external_body]
#[verifier::reject_recursive_types(T)]
pub struct ExBloom<T: ?Sized>(Bloom<T>);

/// The strings that a bloom filter of strings reports as present: those whose
/// bits are all set. It holds every string the filter has been given, and
/// maybe others (false positives).
pub uninterp spec fn seen_reports(b: Bloom<String>) -> Set<Seq<char>>;

/// Calls `bloomfilter::Bloom::new(bitmap_size, items_count)`, which asserts
/// that both are positive and that the bitmap's bit count fits in a `u64`,
/// and returns an error when the operating system gives no random seed
/// (`None` here). A new filter has every bit clear, so it reports nothing.
#[verifier::external_body]
fn new_seen_filter(bitmap_size: usize, items_count: usize) -> (r: Option<Bloom<String>>)
    requires
        bitmap_size > 0,
        items_count > 0,
        bitmap_size * 8 <= u64::MAX,
    ensures
        r matches Some(b) ==> seen_reports(b) == Set::<Seq<char>>::empty(),
{
    match Bloom::new(bitmap_size, items_count) {
        Ok(b) => Some(b),
        Err(_) => None,
    }
}

/// Calls `bloomfilter::Bloom::check`: whether the filter reports `item`.
#[verifier::external_body]
fn seen_check(b: &Bloom<String>, item: &String) -> (r: bool)
    ensures
        r == seen_reports(*b).contains(item@),
{
    b.check(item)
}

/// Calls `bloomfilter::Bloom::set`, which sets the bits of `item`: the filter
/// then reports it, and still reports what it reported before (maybe more).
#[verifier::external_body]
fn seen_set(b: &mut Bloom<String>, item: &String)
    ensures
        seen_reports(*old(b)).insert(item@).subset_of(seen_reports(*final(b))),
{
    b.set(item)
}

/// Orders sent to a crawler worker.
pub enum WorkerMessage {
    Fetch(String),
    /// Fetch the `robots.txt` of a domain: the domain, then the URL.
    FetchRobotsTxt(String, String),
    NoWorkAvailable,
}

/// The value a `WorkerMessage` stands for.
pub enum JobView {
    Fetch(Seq<char>),
    FetchRobotsTxt(Seq<char>, Seq<char>),
    NoWorkAvailable,
}

impl View for WorkerMessage {
    type V = JobView;

    open spec fn view(&self) -> JobView {
        match self {
            WorkerMessage::Fetch(u) => JobView::Fetch(u@),
            WorkerMessage::FetchRobotsTxt(d, u) => JobView::FetchRobotsTxt(d@, u@),
            WorkerMessage::NoWorkAvailable => JobView::NoWorkAvailable,
        }
    }
}

/// Messages that a crawl manager handles.
pub enum ManagerMessage {
    AddUrls(Vec<String>),
    /// A worker, by its registered name, asks for work.
    RequestWork(String),
    /// A domain and the text of its `robots.txt`, if it could be fetched.
    UpdateDomainRules(String, Option<String>),
    /// A domain answered 429: the domain, then the URL to retry.
    DomainRateLimited(String, String),
    /// A URL was fetched: its domain, then the URL.
    CrawlSuccess(String, String),
}

/// The state of one manager shard.
pub struct ManagerState {
    /// URLs waiting for a plain HTTP worker.
    pub static_frontier: std::collections::VecDeque<String>,
    /// URLs waiting for a worker that renders JavaScript.
    pub dynamic_frontier: std::collections::VecDeque<String>,
    /// Every URL that has been taken in.
    pub seen_urls: Bloom<String>,
    pub domain_metadata: StringHashMap<DomainMetadata>,
}

/// Bitmap bytes that a false positive rate of one in a hundred asks for
/// ten thousand items (`Bloom::compute_bitmap_size`).
pub const IN_MEMORY_BITMAP_BYTES: usize = 11982;

/// Items that the in-memory filter is sized for.
pub const IN_MEMORY_ITEMS: usize = 10000;

/// This crawler's rule for spotting a URL that a single-page application
/// serves through client-side routing: it holds a `#!` or `#/` fragment. Such
/// pages go to the rendering workers.
pub open spec fn is_spa_url_spec(url: Seq<char>) -> bool {
    contains(url, "#!"@) || contains(url, "#/"@)
}

/// Whether `url` needs a worker that renders JavaScript.
pub fn is_spa_url(url: &str) -> (r: bool)
    ensures
        r == is_spa_url_spec(url@),
{
    let cs = chars_of(url);
    let a = chars_of("#!");
    let b = chars_of("#/");
    has_infix(cs.as_slice(), a.as_slice()) || has_infix(cs.as_slice(), b.as_slice())
}

/// The URLs of `urls` whose verdict is `false` (not seen before), in order.
pub open spec fn select_unseen(urls: Seq<Seq<char>>, verdicts: Seq<bool>) -> Seq<Seq<char>>
    decreases urls.len(),
{
    if urls.len() == 0 || verdicts.len() != urls.len() {
        Seq::empty()
    } else {
        let rest = select_unseen(urls.drop_last(), verdicts.drop_last());
        if verdicts.last() {
            rest
        } else {
            rest.push(urls.last())
        }
    }
}

/// The verdicts a bloom filter reporting `seen` may give, URL by URL, while the
/// new ones are added: a URL reported before the batch or added earlier in it
/// is always reported seen.
pub open spec fn possible_verdicts(seen: Set<Seq<char>>, urls: Seq<Seq<char>>, verdicts: Seq<bool>) -> bool {
    &&& verdicts.len() == urls.len()
    &&& forall|i: int|
        0 <= i < urls.len() && (seen.contains(urls[i]) || select_unseen(urls.take(i), verdicts.take(i)).contains(urls[i]))
            ==> #[trigger] verdicts[i]
}

/// `added` is what taking in `urls` may add, given the reported set `seen`.
pub open spec fn admitted(seen: Set<Seq<char>>, urls: Seq<Seq<char>>, added: Seq<Seq<char>>) -> bool {
    exists|v: Seq<bool>| possible_verdicts(seen, urls, v) && added == select_unseen(urls, v)
}

/// A run of a bloom filter over `urls`, starting from the reported set `r0`:
/// `rs[i]` is what the filter reports at URL `i`'s turn and `v[i]` whether it
/// reports that URL. A reported URL leaves the filter alone; an unreported one
/// is added, after which the filter reports it and all it reported before
/// (and maybe more).
pub open spec fn filter_run(r0: Set<Seq<char>>, urls: Seq<Seq<char>>, rs: Seq<Set<Seq<char>>>, v: Seq<bool>) -> bool {
    &&& rs.len() == urls.len() + 1
    &&& v.len() == urls.len()
    &&& rs[0] == r0
    &&& forall|i: int|
        0 <= i < urls.len() ==> (#[trigger] v[i] == rs[i].contains(urls[i])) && (v[i] ==> rs[i + 1] == rs[i]) && (!v[i]
            ==> rs[i].insert(urls[i]).subset_of(rs[i + 1]))
}

/// Taking in `urls` through a filter that reports `r0` adds `added` and leaves
/// it reporting `r1`: each URL is taken in, in order, exactly when the filter
/// as it stands at that URL's turn does not report it.
pub open spec fn taken_in(r0: Set<Seq<char>>, urls: Seq<Seq<char>>, added: Seq<Seq<char>>, r1: Set<Seq<char>>) -> bool {
    exists|rs: Seq<Set<Seq<char>>>, v: Seq<bool>|
        #[trigger] filter_run(r0, urls, rs, v) && rs.last() == r1 && added == select_unseen(urls, v)
}

/// The URLs of `urls` that need the rendering workers (or, with `spa` false, that do not).
pub open spec fn by_kind(urls: Seq<Seq<char>>, spa: bool) -> Seq<Seq<char>> {
    urls.filter(|u: Seq<char>| is_spa_url_spec(u) == spa)
}

impl ManagerState {
    pub open spec fn static_q(&self) -> Seq<Seq<char>> {
        self.static_frontier.deep_view()
    }

    pub open spec fn dynamic_q(&self) -> Seq<Seq<char>> {
        self.dynamic_frontier.deep_view()
    }

    /// The URLs that the filter reports as seen: every URL taken in, and
    /// maybe others (false positives).
    pub open spec fn seen(&self) -> Set<Seq<char>> {
        seen_reports(self.seen_urls)
    }

    pub open spec fn domains(&self) -> Map<Seq<char>, DomainRules> {
        self.domain_metadata@.map_values(|m: DomainMetadata| m@)
    }

    /// A manager with empty frontiers whose filter and stored URLs come from
    /// persistent storage: every stored URL counts as seen, and those still
    /// `pending` are queued again in the order given.
    pub fn new(seen_urls: Bloom<String>, stored: Vec<(String, String)>) -> (r: Self)
        ensures
            seen_reports(seen_urls).union(stored@.map_values(|e: (String, String)| e.0@).to_set()).subset_of(r.seen()),
            r.static_q() == by_kind(pending_urls(stored@), false),
            r.dynamic_q() == by_kind(pending_urls(stored@), true),
            r.domains() == Map::<Seq<char>, DomainRules>::empty(),
            queued_are_seen(r),
            seen_reports(seen_urls).subset_of(r.seen()),
            forall|i: int| 0 <= i < stored@.len() ==> r.seen().contains(#[trigger] stored@[i].0@),
            stored@.len() == 0 ==> r.seen() == seen_reports(seen_urls),
    {
        let mut st = ManagerState {
            static_frontier: std::collections::VecDeque::new(),
            dynamic_frontier: std::collections::VecDeque::new(),
            seen_urls,
            domain_metadata: StringHashMap::new(),
        };
        let ghost s0 = seen_reports(seen_urls);
        let ghost sv = stored@;
        let ghost keys = sv.map_values(|e: (String, String)| e.0@);
        let pending = chars_of("pending");
        assert(st.static_q() =~= Seq::<Seq<char>>::empty());
        assert(st.dynamic_q() =~= Seq::<Seq<char>>::empty());
        assert(st.domains() =~= Map::<Seq<char>, DomainRules>::empty());
        let mut i: usize = 0;
        while i < stored.len()
            invariant
                i <= sv.len(),
                sv == stored@,
                keys == sv.map_values(|e: (String, String)| e.0@),
                pending@ == "pending"@,
                s0.union(keys.take(i as int).to_set()).subset_of(st.seen()),
                st.static_q() == by_kind(pending_urls(sv.take(i as int)), false),
                st.dynamic_q() == by_kind(pending_urls(sv.take(i as int)), true),
                st.domains() == Map::<Seq<char>, DomainRules>::empty(),
                queued_are_seen(st),
                seen_reports(seen_urls).subset_of(st.seen()),
                forall|k: int| 0 <= k < i ==> st.seen().contains(#[trigger] sv[k].0@),
                i == 0 ==> st.seen() == seen_reports(seen_urls),
            decreases sv.len() - i,
        {
            let (url, status) = &stored[i];
            let ghost seen_before = st.seen();
            let ghost rep_before = st.seen();
            seen_set(&mut st.seen_urls, url);
            assert(rep_before.subset_of(st.seen()));
            assert(sv[i as int].0@ == url@);
            assert(seen_before.subset_of(st.seen()));
            assert(st.seen().contains(url@));
            assert(keys.take(i + 1) =~= keys.take(i as int).push(url@));
            proof {
                lemma_to_set_push(keys.take(i as int), url@);
            }
            assert(sv.take(i + 1).drop_last() =~= sv.take(i as int));
            let sc = chars_of(status.as_str());
            if crate::text::same_chars(sc.as_slice(), pending.as_slice()) {
                let spa = is_spa_url(url.as_str());
                let ghost ps = pending_urls(sv.take(i as int));
                assert(pending_urls(sv.take(i + 1)) == ps.push(url@));
                proof {
                    lemma_by_kind_push(ps, url@);
                }
                if spa {
                    st.dynamic_frontier.push_back(url.clone());
                    assert(st.dynamic_q() =~= by_kind(ps, true).push(url@));
                } else {
                    st.static_frontier.push_back(url.clone());
                    assert(st.static_q() =~= by_kind(ps, false).push(url@));
                }
            } else {
                assert(pending_urls(sv.take(i + 1)) == pending_urls(sv.take(i as int)));
            }
            i = i + 1;
        }
        assert(sv.take(sv.len() as int) =~= sv);
        assert(keys.take(sv.len() as int) =~= keys);
        st
    }

    /// A manager with nothing stored and a fresh filter for ten thousand URLs;
    /// `None` when the filter cannot be made (the system gives no random seed).
    pub fn in_memory() -> (r: Option<Self>)
        ensures
            r matches Some(m) ==> {
                &&& m.seen() == Set::<Seq<char>>::empty()
                &&& m.static_q() == Seq::<Seq<char>>::empty()
                &&& m.dynamic_q() == Seq::<Seq<char>>::empty()
                &&& m.domains() == Map::<Seq<char>, DomainRules>::empty()
                &&& queued_are_seen(m)
            },
    {
        let bloom = match new_seen_filter(IN_MEMORY_BITMAP_BYTES, IN_MEMORY_ITEMS) {
            Some(b) => b,
            None => return None,
        };
        let r = Self::new(bloom, Vec::new());
        assert(pending_urls(Seq::<(String, String)>::empty()) =~= Seq::<Seq<char>>::empty());
        assert(by_kind(Seq::<Seq<char>>::empty(), false) =~= Seq::<Seq<char>>::empty());
        assert(by_kind(Seq::<Seq<char>>::empty(), true) =~= Seq::<Seq<char>>::empty());
        Some(r)
    }
}

/// The URLs of stored `(url, status)` rows whose status is `pending`, in order.
pub open spec fn pending_urls(rows: Seq<(String, String)>) -> Seq<Seq<char>>
    decreases rows.len(),
{
    if rows.len() == 0 {
        Seq::empty()
    } else if rows.last().1@ == "pending"@ {
        pending_urls(rows.drop_last()).push(rows.last().0@)
    } else {
        pending_urls(rows.drop_last())
    }
}

proof fn lemma_to_set_push<A>(s: Seq<A>, x: A)
    ensures
        s.push(x).to_set() == s.to_set().insert(x),
{
    assert forall|y: A| s.push(x).to_set().contains(y) <==> s.to_set().insert(x).contains(y) by {
        if s.contains(y) {
            let k = choose|k: int| 0 <= k < s.len() && s[k] == y;
            assert(s.push(x)[k] == y);
        }
        if s.push(x).contains(y) {
            let k = choose|k: int| 0 <= k < s.len() + 1 && s.push(x)[k] == y;
            if k < s.len() {
                assert(s[k] == y);
            }
        }
        if y == x {
            assert(s.push(x)[s.len() as int] == x);
        }
    }
    assert(s.push(x).to_set() =~= s.to_set().insert(x));
}

proof fn lemma_by_kind_push(s: Seq<Seq<char>>, u: Seq<char>)
    ensures
        by_kind(s.push(u), is_spa_url_spec(u)) == by_kind(s, is_spa_url_spec(u)).push(u),
        by_kind(s.push(u), !is_spa_url_spec(u)) == by_kind(s, !is_spa_url_spec(u)),
{
    reveal_with_fuel(Seq::filter, 1);
    assert(s.push(u).drop_last() =~= s);
}

} // verus!

verus! {

/// The crawl manager of one shard.
pub struct ManagerActor;

proof fn lemma_select_push(urls: Seq<Seq<char>>, v: Seq<bool>, u: Seq<char>, b: bool)
    requires
        urls.len() == v.len(),
    ensures
        select_unseen(urls.push(u), v.push(b)) == if b { select_unseen(urls, v) } else { select_unseen(urls, v).push(u) },
{
    assert(urls.push(u).drop_last() =~= urls);
    assert(v.push(b).drop_last() =~= v);
}

proof fn lemma_select_subset(urls: Seq<Seq<char>>, v: Seq<bool>, x: Seq<char>)
    requires
        urls.len() == v.len(),
        select_unseen(urls, v).contains(x),
    ensures
        urls.contains(x),
    decreases urls.len(),
{
    if urls.len() > 0 {
        let rest = select_unseen(urls.drop_last(), v.drop_last());
        if rest.contains(x) {
            lemma_select_subset(urls.drop_last(), v.drop_last(), x);
            let k = choose|k: int| 0 <= k < urls.drop_last().len() && urls.drop_last()[k] == x;
            assert(urls[k] == x);
        } else {
            assert(urls[urls.len() - 1] == x);
        }
    }
}

impl ManagerActor {
    /// Takes in newly discovered URLs: each one the filter has not seen is
    /// recorded and queued (for the rendering workers when it needs them);
    /// returns the URLs that were new, for the caller to store.
    pub fn handle_add_urls(&self, state: &mut ManagerState, urls: Vec<String>) -> (new_urls: Vec<String>)
        ensures
            taken_in(old(state).seen(), urls.deep_view(), new_urls.deep_view(), final(state).seen()),
            admitted(old(state).seen(), urls.deep_view(), new_urls.deep_view()),
            old(state).seen().union(new_urls.deep_view().to_set()).subset_of(final(state).seen()),
            final(state).static_q() == old(state).static_q() + by_kind(new_urls.deep_view(), false),
            final(state).dynamic_q() == old(state).dynamic_q() + by_kind(new_urls.deep_view(), true),
            final(state).domains() == old(state).domains(),
    {
        let ghost uv = urls.deep_view();
        let ghost s0 = state.seen();
        let ghost sq0 = state.static_q();
        let ghost dq0 = state.dynamic_q();
        let ghost mut verdicts: Seq<bool> = Seq::empty();
        let ghost r0 = state.seen();
        let ghost mut rs: Seq<Set<Seq<char>>> = seq![r0];
        let mut new_urls: Vec<String> = Vec::new();
        assert(new_urls.deep_view() =~= select_unseen(uv.take(0), verdicts));
        assert(new_urls.deep_view().to_set() =~= Set::<Seq<char>>::empty());
        assert(by_kind(Seq::<Seq<char>>::empty(), false) =~= Seq::<Seq<char>>::empty());
        assert(by_kind(Seq::<Seq<char>>::empty(), true) =~= Seq::<Seq<char>>::empty());
        assert(sq0 + Seq::<Seq<char>>::empty() =~= sq0);
        assert(dq0 + Seq::<Seq<char>>::empty() =~= dq0);
        let mut i: usize = 0;
        while i < urls.len()
            invariant
                i <= uv.len(),
                uv == urls.deep_view(),
                verdicts.len() == i,
                new_urls.deep_view() == select_unseen(uv.take(i as int), verdicts),
                forall|k: int|
                    0 <= k < i && (s0.contains(uv[k]) || select_unseen(uv.take(k), verdicts.take(k)).contains(uv[k]))
                        ==> #[trigger] verdicts[k],
                s0.union(new_urls.deep_view().to_set()).subset_of(state.seen()),
                state.static_q() == sq0 + by_kind(new_urls.deep_view(), false),
                state.dynamic_q() == dq0 + by_kind(new_urls.deep_view(), true),
                state.domains() == old(state).domains(),
                r0 == old(state).seen(),
                filter_run(r0, uv.take(i as int), rs, verdicts),
                rs.last() == state.seen(),
            decreases uv.len() - i,
        {
            let url = &urls[i];
            assert(uv[i as int] == url@);
            assert(uv.take(i + 1) =~= uv.take(i as int).push(url@));
            let ghost nv = new_urls.deep_view();
            let ghost pre_seen = state.seen();
            let ghost pre_rep = state.seen();
            let seen = seen_check(&state.seen_urls, url);
            assert(pre_seen.contains(url@) ==> seen);
            proof {
                assert(verdicts.take(i as int) =~= verdicts);
                assert(select_unseen(uv.take(i as int), verdicts.take(i as int)) == nv);
                lemma_select_push(uv.take(i as int), verdicts, url@, seen);
            }
            if !seen {
                seen_set(&mut state.seen_urls, url);
                let spa = is_spa_url(url.as_str());
                proof {
                    lemma_by_kind_push(nv, url@);
                    lemma_to_set_push(nv, url@);
                }
                assert(state.dynamic_q() == dq0 + by_kind(nv, true));
                if spa {
                    let ghost dqprev = state.dynamic_q();
                    let u2 = url.clone();
                    state.dynamic_frontier.push_back(u2);
                    assert(state.dynamic_q() =~= dqprev.push(url@));
                    assert(state.dynamic_q() =~= dq0 + by_kind(nv, true).push(url@));
                    assert(dq0 + by_kind(nv, true).push(url@) =~= dq0 + by_kind(nv.push(url@), true));
                } else {
                    let ghost sqprev = state.static_q();
                    let u2 = url.clone();
                    state.static_frontier.push_back(u2);
                    assert(state.static_q() =~= sqprev.push(url@));
                    assert(state.static_q() =~= sq0 + by_kind(nv, false).push(url@));
                    assert(sq0 + by_kind(nv, false).push(url@) =~= sq0 + by_kind(nv.push(url@), false));
                }
                new_urls.push(url.clone());
                assert(new_urls.deep_view() =~= nv.push(url@));
                
            }
            proof {
                let ghost vold = verdicts;
                let ghost rsold = rs;
                rs = rs.push(state.seen());
                verdicts = verdicts.push(seen);
                let ut = uv.take(i + 1);
                assert forall|k: int| 0 <= k < ut.len() implies (#[trigger] verdicts[k] == rs[k].contains(ut[k])) && (
                verdicts[k] ==> rs[k + 1] == rs[k]) && (!verdicts[k] ==> rs[k].insert(ut[k]).subset_of(rs[k + 1])) by {
                    if k < i {
                        assert(ut[k] == uv.take(i as int)[k]);
                        assert(verdicts[k] == vold[k]);
                        assert(rs[k] == rsold[k]);
                        assert(rs[k + 1] == rsold[k + 1]);
                    } else {
                        assert(ut[k] == url@);
                        assert(rs[k] == pre_rep);
                    }
                }
                assert(filter_run(r0, ut, rs, verdicts));
                assert forall|k: int|
                    0 <= k < i + 1 && (s0.contains(uv[k]) || select_unseen(uv.take(k), verdicts.take(k)).contains(uv[k]))
                        implies #[trigger] verdicts[k] by {
                    if k < i {
                        assert(verdicts.take(k) =~= vold.take(k));
                        assert(verdicts[k] == vold[k]);
                    } else {
                        assert(verdicts.take(k) =~= vold);
                        if s0.contains(uv[k]) {
                            assert(pre_seen.contains(url@));
                        }
                        if select_unseen(uv.take(k), verdicts.take(k)).contains(uv[k]) {
                            assert(nv.to_set().contains(url@));
                            assert(pre_seen.contains(url@));
                        }
                    }
                }
            }
            i = i + 1;
        }
        assert(uv.take(uv.len() as int) =~= uv);
        assert(possible_verdicts(s0, uv, verdicts));
        assert(filter_run(r0, uv, rs, verdicts) && rs.last() == state.seen() && new_urls.deep_view() == select_unseen(uv, verdicts));
        new_urls
    }
}

} // verus!

verus! {

/// The rules of `domain`, or the default ones when nothing is known of it.
pub open spec fn rules_or_default(domains: Map<Seq<char>, DomainRules>, domain: Seq<char>) -> DomainRules {
    if domains.contains_key(domain) {
        domains[domain]
    } else {
        unfetched_rules()
    }
}

/// The address of the `robots.txt` of `domain` under `scheme`.
pub open spec fn robots_url_of(scheme: Seq<char>, domain: Seq<char>) -> Seq<char> {
    scheme + "://"@ + domain + "/robots.txt"@
}

/// Enough time has passed since the last request to the domain.
pub open spec fn fetch_ready(m: DomainRules, now: u64) -> bool {
    match m.last_hit {
        None => true,
        Some(l) => (if now >= l { now - l } else { 0int }) >= m.crawl_delay * 1000,
    }
}

/// What judging one URL yields: the job to hand out, whether the URL goes
/// back to the queue, and the domain rules afterwards.
pub struct Judgement {
    pub job: Option<JobView>,
    pub requeue: bool,
    pub domains: Map<Seq<char>, DomainRules>,
}

/// How the manager judges `url` at time `now` (milliseconds): a URL without a
/// host is dropped; a domain whose rules are unknown gets its `robots.txt`
/// fetched first (the URL waits); a disallowed path is dropped; a domain in
/// back-off or whose crawl delay has not passed makes the URL wait; otherwise
/// the URL is fetched and the domain's last hit becomes `now`.
pub open spec fn judge(domains: Map<Seq<char>, DomainRules>, url: Seq<char>, now: u64) -> Judgement {
    match url_parse_spec(url) {
        None => Judgement { job: None, requeue: false, domains },
        Some(u) => match u.host {
            None => Judgement { job: None, requeue: false, domains },
            Some(d) => {
                let m = rules_or_default(domains, d);
                if !m.rules_fetched {
                    Judgement {
                        job: Some(JobView::FetchRobotsTxt(d, robots_url_of(u.scheme, d))),
                        requeue: true,
                        domains: domains.insert(d, DomainRules { rules_fetched: true, ..m }),
                    }
                } else if !path_allowed(m, u.path) {
                    Judgement { job: None, requeue: false, domains: domains.insert(d, m) }
                } else if m.backoff_until is Some && now < m.backoff_until->0 {
                    Judgement { job: None, requeue: true, domains: domains.insert(d, m) }
                } else {
                    let m1 = DomainRules { backoff_until: None, ..m };
                    if fetch_ready(m1, now) {
                        Judgement {
                            job: Some(JobView::Fetch(url)),
                            requeue: false,
                            domains: domains.insert(d, DomainRules { last_hit: Some(now), ..m1 }),
                        }
                    } else {
                        Judgement { job: None, requeue: true, domains: domains.insert(d, m1) }
                    }
                }
            },
        },
    }
}

/// What scanning the queue `q` for work yields: the job, the URLs put aside
/// (in order), the URLs not looked at, and the domain rules afterwards.
pub struct Scan {
    pub job: Option<JobView>,
    pub skipped: Seq<Seq<char>>,
    pub rest: Seq<Seq<char>>,
    pub domains: Map<Seq<char>, DomainRules>,
}

/// URLs are judged from the front of `q` until one yields a job.
pub open spec fn scan_queue(domains: Map<Seq<char>, DomainRules>, q: Seq<Seq<char>>, now: u64) -> Scan
    decreases q.len(),
{
    if q.len() == 0 {
        Scan { job: None, skipped: Seq::empty(), rest: Seq::empty(), domains }
    } else {
        let jd = judge(domains, q[0], now);
        let put_aside: Seq<Seq<char>> = if jd.requeue { seq![q[0]] } else { Seq::empty() };
        if jd.job is Some {
            Scan { job: jd.job, skipped: put_aside, rest: q.drop_first(), domains: jd.domains }
        } else {
            let sc = scan_queue(jd.domains, q.drop_first(), now);
            Scan { skipped: put_aside + sc.skipped, ..sc }
        }
    }
}

/// Workers whose name starts with `dynamic-worker` render JavaScript.
pub open spec fn is_dynamic_worker(name: Seq<char>) -> bool {
    starts_with(name, "dynamic-worker"@)
}

/// Seconds of back-off after the `errors`-th consecutive 429 from a domain
/// with `delay` seconds of crawl delay: the delay (at least one second)
/// doubled per error, at most five minutes.
pub open spec fn backoff_secs(delay: u64, errors: u32) -> nat {
    let v = at_least_one(delay) * pow2(errors as nat);
    if v < 300 { v } else { 300 }
}

pub open spec fn at_least_one(d: u64) -> nat {
    if d >= 1 { d as nat } else { 1 }
}

pub open spec fn pow2(n: nat) -> nat
    decreases n,
{
    if n == 0 { 1 } else { 2 * pow2((n - 1) as nat) }
}

fn rules_lookup(domains: &StringHashMap<DomainMetadata>, domain: &str) -> (r: DomainMetadata)
    ensures
        r@ == rules_or_default(domains@.map_values(|m: DomainMetadata| m@), domain@),
{
    match domains.get(domain) {
        Some(m) => m.duplicate(),
        None => DomainMetadata::default_unfetched(),
    }
}

fn store_rules(domains: &mut StringHashMap<DomainMetadata>, domain: String, m: DomainMetadata)
    ensures
        final(domains)@.map_values(|x: DomainMetadata| x@) == old(domains)@.map_values(|x: DomainMetadata| x@).insert(domain@, m@),
{
    let ghost mv = m@;
    domains.insert(domain, m);
    assert(domains@.map_values(|x: DomainMetadata| x@) =~= old(domains)@.map_values(|x: DomainMetadata| x@).insert(domain@, mv));
}

fn judge_url(domains: &mut StringHashMap<DomainMetadata>, url_str: &str, now: u64) -> (r: (Option<WorkerMessage>, bool))
    ensures
        ({
            let jd = judge(old(domains)@.map_values(|x: DomainMetadata| x@), url_str@, now);
            &&& jd.job == (match r.0 { Some(w) => Some(w@), None => None })
            &&& jd.requeue == r.1
            &&& jd.domains == final(domains)@.map_values(|x: DomainMetadata| x@)
        }),
{
    let parsed = match parse_url(url_str) {
        Some(u) => u,
        None => return (None, false),
    };
    let domain = match parsed.host {
        Some(h) => h,
        None => return (None, false),
    };
    let mut m = rules_lookup(domains, domain.as_str());
    if !m.rules_fetched {
        m.rules_fetched = true;
        let mut robots_url = parsed.scheme.clone();
        robots_url.append("://");
        robots_url.append(domain.as_str());
        robots_url.append("/robots.txt");
        store_rules(domains, domain.clone(), m);
        return (Some(WorkerMessage::FetchRobotsTxt(domain, robots_url)), true);
    }
    if !m.can_crawl(parsed.path.as_str()) {
        store_rules(domains, domain, m);
        return (None, false);
    }
    match m.backoff_until {
        Some(t) => {
            if now < t {
                store_rules(domains, domain, m);
                return (None, true);
            }
            m.backoff_until = None;
        },
        None => {},
    }
    let ready = match m.last_hit {
        None => true,
        Some(l) => {
            let elapsed: u64 = if now >= l { now - l } else { 0 };
            elapsed / 1000 >= m.crawl_delay
        },
    };
    if ready {
        m.last_hit = Some(now);
        store_rules(domains, domain, m);
        return (Some(WorkerMessage::Fetch(String::from_str(url_str))), false);
    }
    store_rules(domains, domain, m);
    (None, true)
}

} // verus!

verus! {

pub open spec fn job_view(o: Option<WorkerMessage>) -> Option<JobView> {
    match o {
        Some(w) => Some(w@),
        None => None,
    }
}

/// The scan that continues after the URLs before `q` have been judged and
/// `skipped` put aside.
pub open spec fn resume(skipped: Seq<Seq<char>>, sc: Scan) -> Scan {
    Scan { skipped: skipped + sc.skipped, ..sc }
}

fn scan_frontier(q: &mut std::collections::VecDeque<String>, domains: &mut StringHashMap<DomainMetadata>, now: u64) -> (r: Option<WorkerMessage>)
    ensures
        ({
            let sc = scan_queue(old(domains)@.map_values(|x: DomainMetadata| x@), old(q).deep_view(), now);
            &&& job_view(r) == sc.job
            &&& final(q).deep_view() == sc.skipped + sc.rest
            &&& final(domains)@.map_values(|x: DomainMetadata| x@) == sc.domains
        }),
{
    let ghost target = scan_queue(domains@.map_values(|x: DomainMetadata| x@), q.deep_view(), now);
    let mut skipped: Vec<String> = Vec::new();
    let mut job: Option<WorkerMessage> = None;
    let n = q.len();
    let mut k: usize = 0;
    assert(skipped.deep_view() + Seq::<Seq<char>>::empty() =~= Seq::<Seq<char>>::empty());
    while k < n
        invariant_except_break
            k <= n,
            q@.len() == n - k,
            job is None,
            target == resume(skipped.deep_view(), scan_queue(domains@.map_values(|x: DomainMetadata| x@), q.deep_view(), now)),
        ensures
            job_view(job) == target.job,
            skipped.deep_view() + q.deep_view() == target.skipped + target.rest,
            domains@.map_values(|x: DomainMetadata| x@) == target.domains,
        decreases n - k,
    {
        let ghost dv = domains@.map_values(|x: DomainMetadata| x@);
        let ghost qv = q.deep_view();
        let url = match q.pop_front() {
            Some(u) => u,
            None => {
                break;
            },
        };
        assert(qv[0] == url@);
        assert(q.deep_view() =~= qv.drop_first());
        let (j, requeue) = judge_url(domains, url.as_str(), now);
        let ghost sv = skipped.deep_view();
        if requeue {
            skipped.push(url);
            assert(skipped.deep_view() =~= sv.push(qv[0]));
        }
        let ghost put_aside: Seq<Seq<char>> = if requeue { seq![qv[0]] } else { Seq::empty() };
        assert(skipped.deep_view() =~= sv + put_aside);
        match j {
            Some(w) => {
                job = Some(w);
                assert(sv + put_aside + q.deep_view() =~= skipped.deep_view() + q.deep_view());
                break;
            },
            None => {
                let ghost rest = scan_queue(domains@.map_values(|x: DomainMetadata| x@), q.deep_view(), now);
                assert(sv + (put_aside + rest.skipped) =~= skipped.deep_view() + rest.skipped);
            },
        }
        k = k + 1;
    }
    proof {
        if job is None && q@.len() == 0 {
            assert(q.deep_view() =~= Seq::<Seq<char>>::empty());
            assert(skipped.deep_view() + q.deep_view() =~= skipped.deep_view());
        }
    }
    let mut m = skipped.len();
    let ghost rest_v = q.deep_view();
    let ghost sk = skipped.deep_view();
    assert(sk.skip(m as int) + rest_v =~= rest_v);
    while m > 0
        invariant
            m <= sk.len(),
            sk == skipped.deep_view(),
            skipped@.len() == sk.len(),
            q.deep_view() == sk.skip(m as int) + rest_v,
        decreases m,
    {
        let ghost before = q.deep_view();
        let u = skipped[m - 1].clone();
        assert(u@ == sk[m - 1]);
        q.push_front(u);
        assert(q.deep_view() =~= seq![sk[m - 1]] + before);
        assert(sk.skip(m - 1) =~= seq![sk[m - 1]] + sk.skip(m as int));
        m = m - 1;
    }
    assert(sk.skip(0) =~= sk);
    job
}

impl ManagerActor {
    /// Judges one URL at time `now` (milliseconds); a URL that has to wait is
    /// appended to `skipped`.
    pub fn evaluate_url(&self, state: &mut ManagerState, url_str: &str, skipped: &mut Vec<String>, now: u64) -> (r: Option<WorkerMessage>)
        ensures
            ({
                let jd = judge(old(state).domains(), url_str@, now);
                &&& job_view(r) == jd.job
                &&& final(state).domains() == jd.domains
                &&& final(skipped).deep_view() == if jd.requeue { old(skipped).deep_view().push(url_str@) } else { old(skipped).deep_view() }
            }),
            final(state).static_q() == old(state).static_q(),
            final(state).dynamic_q() == old(state).dynamic_q(),
            final(state).seen() == old(state).seen(),
    {
        let (j, requeue) = judge_url(&mut state.domain_metadata, url_str, now);
        if requeue {
            let ghost before = skipped.deep_view();
            skipped.push(String::from_str(url_str));
            assert(skipped.deep_view() =~= before.push(url_str@));
        }
        j
    }

    /// A worker asks for work: its frontier (the rendering one for workers
    /// named `dynamic-worker...`) is scanned from the front for a URL to hand
    /// out; URLs that have to wait go back to the front in their order, dropped
    /// ones leave. Returns the message for the worker.
    pub fn handle_request_work(&self, state: &mut ManagerState, worker_name: &str, now: u64) -> (r: WorkerMessage)
        ensures
            ({
                let dynamic = is_dynamic_worker(worker_name@);
                let q0 = if dynamic { old(state).dynamic_q() } else { old(state).static_q() };
                let sc = scan_queue(old(state).domains(), q0, now);
                &&& r@ == match sc.job { Some(j) => j, None => JobView::NoWorkAvailable }
                &&& final(state).domains() == sc.domains
                &&& (if dynamic { final(state).dynamic_q() } else { final(state).static_q() }) == sc.skipped + sc.rest
                &&& (if dynamic { final(state).static_q() } else { final(state).dynamic_q() })
                    == (if dynamic { old(state).static_q() } else { old(state).dynamic_q() })
                &&& final(state).seen() == old(state).seen()
            }),
    {
        let name = chars_of(worker_name);
        let prefix = chars_of("dynamic-worker");
        let dynamic = has_prefix(name.as_slice(), prefix.as_slice());
        let job = if dynamic {
            scan_frontier(&mut state.dynamic_frontier, &mut state.domain_metadata, now)
        } else {
            scan_frontier(&mut state.static_frontier, &mut state.domain_metadata, now)
        };
        match job {
            Some(w) => w,
            None => WorkerMessage::NoWorkAvailable,
        }
    }
}

} // verus!

verus! {

/// Longest back-off, in seconds.
pub const MAX_BACKOFF_SECS: u64 = 300;

proof fn lemma_pow2_mono(a: nat, b: nat)
    requires
        a <= b,
    ensures
        pow2(a) <= pow2(b),
        pow2(a) >= 1,
    decreases b,
{
    if a < b {
        lemma_pow2_mono(a, (b - 1) as nat);
    } else if a > 0 {
        lemma_pow2_mono((a - 1) as nat, (a - 1) as nat);
    }
}

fn compute_backoff(delay: u64, errors: u32) -> (r: u64)
    ensures
        r == backoff_secs(delay, errors),
        r <= MAX_BACKOFF_SECS,
{
    let base: u64 = if delay >= 1 { delay } else { 1 };
    assert(base == at_least_one(delay));
    if base >= MAX_BACKOFF_SECS {
        proof {
            lemma_pow2_mono(0, errors as nat);
            assert(base * pow2(errors as nat) >= base) by (nonlinear_arith)
                requires
                    pow2(errors as nat) >= 1,
            ;
        }
        return MAX_BACKOFF_SECS;
    }
    let mut v: u64 = base;
    let mut k: u32 = 0;
    assert(pow2(0) == 1);
    assert(base * pow2(0) == base);
    while k < errors
        invariant
            k <= errors,
            1 <= base < MAX_BACKOFF_SECS,
            base == at_least_one(delay),
            v < MAX_BACKOFF_SECS,
            v == base * pow2(k as nat),
        decreases errors - k,
    {
        v = v * 2;
        k = k + 1;
        assert(pow2(k as nat) == 2 * pow2((k - 1) as nat));
        assert(v == base * pow2(k as nat)) by (nonlinear_arith)
            requires
                v == 2 * (base * pow2((k - 1) as nat)),
                pow2(k as nat) == 2 * pow2((k - 1) as nat),
        ;
        if v >= MAX_BACKOFF_SECS {
            proof {
                lemma_pow2_mono(k as nat, errors as nat);
                assert(base * pow2(errors as nat) >= base * pow2(k as nat)) by (nonlinear_arith)
                    requires
                        pow2(errors as nat) >= pow2(k as nat),
                        base >= 1,
                ;
                assert(v == base * pow2(k as nat));
                assert(base * pow2(errors as nat) >= 300);
            }
            return MAX_BACKOFF_SECS;
        }
    }
    v
}

/// The consecutive 429 count kept for `domain`.
pub open spec fn errors_of(domains: Map<Seq<char>, DomainRules>, domain: Seq<char>) -> u32 {
    rules_or_default(domains, domain).consecutive_errors
}

/// The rules of `domain` after a 429 at `now`.
pub open spec fn rate_limited_rules(domains: Map<Seq<char>, DomainRules>, domain: Seq<char>, now: u64) -> DomainRules {
    let m = rules_or_default(domains, domain);
    let e = (m.consecutive_errors + 1) as u32;
    DomainRules {
        consecutive_errors: e,
        backoff_until: Some((now + backoff_secs(m.crawl_delay, e) * 1000) as u64),
        ..m
    }
}

/// The rules after a successful fetch: the error count and back-off are cleared.
pub open spec fn cleared_rules(m: DomainRules) -> DomainRules {
    DomainRules { consecutive_errors: 0, backoff_until: None, ..m }
}

fn push_front_by_kind(state: &mut ManagerState, url: String)
    ensures
        is_spa_url_spec(url@) ==> final(state).dynamic_q() == seq![url@] + old(state).dynamic_q(),
        is_spa_url_spec(url@) ==> final(state).static_q() == old(state).static_q(),
        !is_spa_url_spec(url@) ==> final(state).static_q() == seq![url@] + old(state).static_q(),
        !is_spa_url_spec(url@) ==> final(state).dynamic_q() == old(state).dynamic_q(),
        final(state).domains() == old(state).domains(),
        final(state).seen() == old(state).seen(),
{
    let ghost uv = url@;
    if is_spa_url(url.as_str()) {
        state.dynamic_frontier.push_front(url);
        assert(state.dynamic_q() =~= seq![uv] + old(state).dynamic_q());
    } else {
        state.static_frontier.push_front(url);
        assert(state.static_q() =~= seq![uv] + old(state).static_q());
    }
}

impl ManagerActor {
    /// Stores the rules read for `domain`.
    pub fn handle_update_domain_rules(&self, state: &mut ManagerState, domain: String, metadata: DomainMetadata)
        ensures
            final(state).domains() == old(state).domains().insert(domain@, metadata@),
            final(state).static_q() == old(state).static_q(),
            final(state).dynamic_q() == old(state).dynamic_q(),
            final(state).seen() == old(state).seen(),
    {
        store_rules(&mut state.domain_metadata, domain, metadata);
    }

    /// A domain answered 429: its error count grows, it is backed off for
    /// `backoff_secs` from `now` (milliseconds), and the URL goes back to the
    /// front of its frontier.
    pub fn handle_rate_limited(&self, state: &mut ManagerState, domain: String, url: String, now: u64)
        requires
            errors_of(old(state).domains(), domain@) < u32::MAX,
            now <= u64::MAX - MAX_BACKOFF_SECS * 1000,
        ensures
            final(state).domains() == old(state).domains().insert(domain@, rate_limited_rules(old(state).domains(), domain@, now)),
            is_spa_url_spec(url@) ==> final(state).dynamic_q() == seq![url@] + old(state).dynamic_q(),
            is_spa_url_spec(url@) ==> final(state).static_q() == old(state).static_q(),
            !is_spa_url_spec(url@) ==> final(state).static_q() == seq![url@] + old(state).static_q(),
            !is_spa_url_spec(url@) ==> final(state).dynamic_q() == old(state).dynamic_q(),
            final(state).seen() == old(state).seen(),
    {
        let mut m = rules_lookup(&state.domain_metadata, domain.as_str());
        m.consecutive_errors = m.consecutive_errors + 1;
        let secs = compute_backoff(m.crawl_delay, m.consecutive_errors);
        m.backoff_until = Some(now + secs * 1000);
        store_rules(&mut state.domain_metadata, domain, m);
        push_front_by_kind(state, url);
    }

    /// A fetch succeeded: a known domain's error count and back-off are cleared.
    pub fn handle_crawl_success(&self, state: &mut ManagerState, domain: String, url: String)
        ensures
            final(state).domains() == if old(state).domains().contains_key(domain@) {
                old(state).domains().insert(domain@, cleared_rules(old(state).domains()[domain@]))
            } else {
                old(state).domains()
            },
            final(state).static_q() == old(state).static_q(),
            final(state).dynamic_q() == old(state).dynamic_q(),
            final(state).seen() == old(state).seen(),
    {
        if state.domain_metadata.contains_key(domain.as_str()) {
            let mut m = rules_lookup(&state.domain_metadata, domain.as_str());
            m.consecutive_errors = 0;
            m.backoff_until = None;
            store_rules(&mut state.domain_metadata, domain, m);
        }
    }
}

} // verus!

verus! {

/// What the caller of `ManagerActor::handle` has to carry out.
pub struct ManagerEffects {
    /// Send this message to the worker of this name.
    pub dispatch: Option<(String, WorkerMessage)>,
    /// Store these URLs as pending.
    pub store_pending: Vec<String>,
    /// Store this URL as done.
    pub mark_done: Option<String>,
}

/// Rules stored for a domain whose `robots.txt` came back as `text` (or could not be fetched).
pub open spec fn fetched_rules(text: Option<String>) -> DomainRules {
    match text {
        Some(t) => robots_rules(t@),
        None => DomainRules { rules_fetched: true, ..unfetched_rules() },
    }
}

/// The inputs on which handling `message` at `now` stays within the counters' range.
pub open spec fn message_ok(state: ManagerState, message: ManagerMessage, now: u64) -> bool {
    match message {
        ManagerMessage::DomainRateLimited(d, _) => errors_of(state.domains(), d@) < u32::MAX && now
            <= u64::MAX - MAX_BACKOFF_SECS * 1000,
        _ => true,
    }
}

/// State and effects after handling `message` at `now`.
pub open spec fn handled(old: ManagerState, new: ManagerState, message: ManagerMessage, now: u64, fx: ManagerEffects) -> bool {
    match message {
        ManagerMessage::AddUrls(urls) => {
            &&& taken_in(old.seen(), urls.deep_view(), fx.store_pending.deep_view(), new.seen())
            &&& admitted(old.seen(), urls.deep_view(), fx.store_pending.deep_view())
            &&& old.seen().union(fx.store_pending.deep_view().to_set()).subset_of(new.seen())
            &&& new.static_q() == old.static_q() + by_kind(fx.store_pending.deep_view(), false)
            &&& new.dynamic_q() == old.dynamic_q() + by_kind(fx.store_pending.deep_view(), true)
            &&& new.domains() == old.domains()
            &&& fx.dispatch is None
            &&& fx.mark_done is None
        },
        ManagerMessage::RequestWork(name) => {
            let dynamic = is_dynamic_worker(name@);
            let q0 = if dynamic { old.dynamic_q() } else { old.static_q() };
            let sc = scan_queue(old.domains(), q0, now);
            &&& match fx.dispatch {
                Some((n, w)) => n@ == name@ && w@ == match sc.job {
                    Some(j) => j,
                    None => JobView::NoWorkAvailable,
                },
                None => false,
            }
            &&& new.domains() == sc.domains
            &&& (if dynamic { new.dynamic_q() } else { new.static_q() }) == sc.skipped + sc.rest
            &&& (if dynamic { new.static_q() } else { new.dynamic_q() }) == (if dynamic { old.static_q() } else { old.dynamic_q() })
            &&& new.seen() == old.seen()
            &&& fx.store_pending@.len() == 0
            &&& fx.mark_done is None
        },
        ManagerMessage::UpdateDomainRules(d, text) => {
            &&& new.domains() == old.domains().insert(d@, fetched_rules(text))
            &&& new.static_q() == old.static_q()
            &&& new.dynamic_q() == old.dynamic_q()
            &&& new.seen() == old.seen()
            &&& fx.dispatch is None
            &&& fx.store_pending@.len() == 0
            &&& fx.mark_done is None
        },
        ManagerMessage::DomainRateLimited(d, u) => {
            &&& new.domains() == old.domains().insert(d@, rate_limited_rules(old.domains(), d@, now))
            &&& new.static_q() == if is_spa_url_spec(u@) { old.static_q() } else { seq![u@] + old.static_q() }
            &&& new.dynamic_q() == if is_spa_url_spec(u@) { seq![u@] + old.dynamic_q() } else { old.dynamic_q() }
            &&& new.seen() == old.seen()
            &&& fx.dispatch is None
            &&& fx.store_pending@.len() == 0
            &&& fx.mark_done is None
        },
        ManagerMessage::CrawlSuccess(d, u) => {
            &&& new.domains() == if old.domains().contains_key(d@) {
                old.domains().insert(d@, cleared_rules(old.domains()[d@]))
            } else {
                old.domains()
            }
            &&& new.static_q() == old.static_q()
            &&& new.dynamic_q() == old.dynamic_q()
            &&& new.seen() == old.seen()
            &&& fx.dispatch is None
            &&& fx.store_pending@.len() == 0
            &&& fx.mark_done is Some
            &&& fx.mark_done->0@ == u@
        },
    }
}

impl ManagerActor {
    /// Handles one message at time `now` (milliseconds) and says what the
    /// caller has to send and store.
    pub fn handle(&self, state: &mut ManagerState, message: ManagerMessage, now: u64) -> (fx: ManagerEffects)
        requires
            message_ok(*old(state), message, now),
        ensures
            handled(*old(state), *final(state), message, now, fx),
    {
        let ghost msg = message;
        match message {
            ManagerMessage::AddUrls(urls) => {
                let added = self.handle_add_urls(state, urls);
                ManagerEffects { dispatch: None, store_pending: added, mark_done: None }
            },
            ManagerMessage::UpdateDomainRules(domain, robots_txt) => {
                let metadata = match robots_txt {
                    Some(txt) => parse_robots_txt(txt.as_str(), domain.as_str()),
                    None => {
                        let mut m = DomainMetadata::default_unfetched();
                        m.rules_fetched = true;
                        m
                    },
                };
                self.handle_update_domain_rules(state, domain, metadata);
                ManagerEffects { dispatch: None, store_pending: Vec::new(), mark_done: None }
            },
            ManagerMessage::RequestWork(worker_name) => {
                let job = self.handle_request_work(state, worker_name.as_str(), now);
                ManagerEffects { dispatch: Some((worker_name, job)), store_pending: Vec::new(), mark_done: None }
            },
            ManagerMessage::DomainRateLimited(domain, url) => {
                self.handle_rate_limited(state, domain, url, now);
                ManagerEffects { dispatch: None, store_pending: Vec::new(), mark_done: None }
            },
            ManagerMessage::CrawlSuccess(domain, url) => {
                let done = url.clone();
                self.handle_crawl_success(state, domain, url);
                ManagerEffects { dispatch: None, store_pending: Vec::new(), mark_done: Some(done) }
            },
        }
    }
}

} // verus!

verus! {

/// The host of `url`, when it parses and names one.
pub open spec fn url_host(url: Seq<char>) -> Option<Seq<char>> {
    match url_parse_spec(url) {
        Some(u) => u.host,
        None => None,
    }
}

proof fn lemma_selected_prefix(seen: Set<Seq<char>>, urls: Seq<Seq<char>>, v: Seq<bool>, k: int)
    requires
        possible_verdicts(seen, urls, v),
        0 <= k <= urls.len(),
    ensures
        select_unseen(urls.take(k), v.take(k)).no_duplicates(),
        forall|i: int|
            0 <= i < select_unseen(urls.take(k), v.take(k)).len() ==> !seen.contains(
                #[trigger] select_unseen(urls.take(k), v.take(k))[i],
            ) && urls.contains(select_unseen(urls.take(k), v.take(k))[i]),
    decreases k,
{
    if k == 0 {
        assert(select_unseen(urls.take(0), v.take(0)) =~= Seq::<Seq<char>>::empty());
    } else {
        lemma_selected_prefix(seen, urls, v, k - 1);
        let prev = select_unseen(urls.take(k - 1), v.take(k - 1));
        assert(urls.take(k).drop_last() =~= urls.take(k - 1));
        assert(v.take(k).drop_last() =~= v.take(k - 1));
        assert(urls.take(k).last() == urls[k - 1]);
        assert(v.take(k).last() == v[k - 1]);
        let sel = select_unseen(urls.take(k), v.take(k));
        if v[k - 1] {
            assert(sel == prev);
        } else {
            let u = urls[k - 1];
            assert(sel == prev.push(u));
            assert(!seen.contains(u) && !prev.contains(u)) by {
                if seen.contains(u) || prev.contains(u) {
                    assert(select_unseen(urls.take(k - 1), v.take(k - 1)) == prev);
                    assert(v[k - 1]);
                }
            }
            assert forall|i: int| 0 <= i < sel.len() implies !seen.contains(#[trigger] sel[i]) && urls.contains(sel[i]) by {
                if i < prev.len() {
                    assert(sel[i] == prev[i]);
                } else {
                    assert(sel[i] == u);
                }
            }
            assert forall|i: int, j: int| 0 <= i < sel.len() && 0 <= j < sel.len() && i != j implies sel[i] != sel[j] by {
                if i < prev.len() && j < prev.len() {
                    assert(sel[i] == prev[i] && sel[j] == prev[j]);
                } else if i < prev.len() {
                    assert(sel[i] == prev[i]);
                    assert(prev.contains(prev[i]));
                } else {
                    assert(sel[j] == prev[j]);
                    assert(prev.contains(prev[j]));
                }
            }
        }
    }
}

/// A batch of discovered URLs adds only URLs that were not reported as seen, each
/// once, each taken from the batch.
pub proof fn law_admitted_urls_are_new(seen: Set<Seq<char>>, urls: Seq<Seq<char>>, added: Seq<Seq<char>>)
    requires
        admitted(seen, urls, added),
    ensures
        added.no_duplicates(),
        forall|i: int| 0 <= i < added.len() ==> !seen.contains(#[trigger] added[i]) && urls.contains(added[i]),
{
    let v = choose|v: Seq<bool>| possible_verdicts(seen, urls, v) && added == select_unseen(urls, v);
    lemma_selected_prefix(seen, urls, v, urls.len() as int);
    assert(urls.take(urls.len() as int) =~= urls);
    assert(v.take(v.len() as int) =~= v);
}

/// No message makes the filter stop reporting a URL as seen.
pub proof fn law_seen_only_grows(old: ManagerState, new: ManagerState, message: ManagerMessage, now: u64, fx: ManagerEffects)
    requires
        handled(old, new, message, now, fx),
    ensures
        old.seen().subset_of(new.seen()),
{
}

/// A URL that one batch has taken in is never taken in by a later batch, as
/// long as what was reported in between is still reported (see `law_seen_only_grows`).
pub proof fn law_no_url_admitted_twice(
    seen1: Set<Seq<char>>,
    urls1: Seq<Seq<char>>,
    added1: Seq<Seq<char>>,
    seen2: Set<Seq<char>>,
    urls2: Seq<Seq<char>>,
    added2: Seq<Seq<char>>,
)
    requires
        admitted(seen1, urls1, added1),
        seen1.union(added1.to_set()).subset_of(seen2),
        admitted(seen2, urls2, added2),
    ensures
        forall|i: int, j: int| 0 <= i < added1.len() && 0 <= j < added2.len() ==> #[trigger] added1[i] != #[trigger] added2[j],
{
    law_admitted_urls_are_new(seen2, urls2, added2);
    assert forall|i: int, j: int| 0 <= i < added1.len() && 0 <= j < added2.len() implies #[trigger] added1[i] != #[trigger] added2[j] by {
        assert(added1.to_set().contains(added1[i]));
        assert(seen2.contains(added1[i]));
        assert(!seen2.contains(added2[j]));
    }
}

/// Judging a URL changes the rules of its own domain only.
pub proof fn law_judge_touches_own_domain(domains: Map<Seq<char>, DomainRules>, url: Seq<char>, now: u64, other: Seq<char>)
    requires
        url_host(url) != Some(other),
    ensures
        judge(domains, url, now).domains.contains_key(other) == domains.contains_key(other),
        judge(domains, url, now).domains[other] == domains[other],
{
}

/// A URL is handed out for fetching only once its domain's `robots.txt` has
/// been asked for, and only if those rules allow its path.
pub proof fn law_fetch_only_allowed_paths(domains: Map<Seq<char>, DomainRules>, url: Seq<char>, now: u64)
    requires
        judge(domains, url, now).job matches Some(JobView::Fetch(_)),
    ensures
        judge(domains, url, now).job == Some(JobView::Fetch(url)),
        url_parse_spec(url) matches Some(u) && u.host matches Some(d) && rules_or_default(domains, d).rules_fetched
            && path_allowed(rules_or_default(domains, d), u.path),
{
}

/// A domain's `robots.txt` is asked for once: after the request, judging any
/// URL of that domain does not ask for it again.
pub proof fn law_robots_asked_once(domains: Map<Seq<char>, DomainRules>, u1: Seq<char>, t1: u64, u2: Seq<char>, t2: u64)
    requires
        judge(domains, u1, t1).job matches Some(JobView::FetchRobotsTxt(_, _)),
        url_host(u1) == url_host(u2),
    ensures
        !(judge(judge(domains, u1, t1).domains, u2, t2).job matches Some(JobView::FetchRobotsTxt(_, _))),
{
}

/// Two fetches handed out for one domain are at least its crawl delay apart:
/// after a fetch at `t1`, judging a URL of the same domain at `t2` hands out a
/// fetch only once `crawl_delay` seconds have passed.
pub proof fn law_crawl_delay_respected(domains: Map<Seq<char>, DomainRules>, u1: Seq<char>, t1: u64, u2: Seq<char>, t2: u64)
    requires
        judge(domains, u1, t1).job matches Some(JobView::Fetch(_)),
        url_host(u1) == url_host(u2),
        judge(judge(domains, u1, t1).domains, u2, t2).job matches Some(JobView::Fetch(_)),
    ensures
        url_host(u1) matches Some(d) && (rules_or_default(domains, d).crawl_delay > 0 ==> t2 >= t1
            + rules_or_default(domains, d).crawl_delay * 1000),
{
}

/// While a domain is backed off, no URL of it is handed out for fetching.
pub proof fn law_backoff_blocks_fetch(domains: Map<Seq<char>, DomainRules>, url: Seq<char>, now: u64)
    requires
        url_host(url) matches Some(d) && rules_or_default(domains, d).backoff_until matches Some(b) && now < b,
    ensures
        !(judge(domains, url, now).job matches Some(JobView::Fetch(_))),
{
}

/// The back-off after a 429 lasts at least a second, at most five minutes, and
/// never shrinks as the errors mount.
pub proof fn law_backoff_bounded_and_growing(delay: u64, e1: u32, e2: u32)
    requires
        e1 <= e2,
    ensures
        1 <= backoff_secs(delay, e1) <= backoff_secs(delay, e2) <= MAX_BACKOFF_SECS,
{
    lemma_pow2_mono(e1 as nat, e2 as nat);
    let b = at_least_one(delay);
    assert(b * pow2(e1 as nat) <= b * pow2(e2 as nat)) by (nonlinear_arith)
        requires
            pow2(e1 as nat) <= pow2(e2 as nat),
            b >= 1,
    ;
    assert(b * pow2(e1 as nat) >= 1) by (nonlinear_arith)
        requires
            pow2(e1 as nat) >= 1,
            b >= 1,
    ;
}

/// A successful fetch after a 429 undoes it: the domain's rules are those it
/// had before, with no error counted and no back-off, and the other domains
/// are as they were.
pub proof fn law_success_undoes_rate_limit(
    s0: ManagerState,
    s1: ManagerState,
    s2: ManagerState,
    domain: String,
    url: String,
    url2: String,
    t1: u64,
    t2: u64,
    fx1: ManagerEffects,
    fx2: ManagerEffects,
)
    requires
        handled(s0, s1, ManagerMessage::DomainRateLimited(domain, url), t1, fx1),
        handled(s1, s2, ManagerMessage::CrawlSuccess(domain, url2), t2, fx2),
    ensures
        s2.domains() == s0.domains().insert(domain@, cleared_rules(rules_or_default(s0.domains(), domain@))),
{
    assert(s2.domains() =~= s0.domains().insert(domain@, cleared_rules(rules_or_default(s0.domains(), domain@))));
}

proof fn lemma_scan_from_queue(domains: Map<Seq<char>, DomainRules>, q: Seq<Seq<char>>, now: u64)
    ensures
        ({
            let sc = scan_queue(domains, q, now);
            &&& forall|i: int| 0 <= i < (sc.skipped + sc.rest).len() ==> q.contains(#[trigger] (sc.skipped + sc.rest)[i])
            &&& (sc.skipped + sc.rest).len() <= q.len()
            &&& (sc.job matches Some(JobView::Fetch(u)) ==> q.contains(u) && (sc.skipped + sc.rest).len() < q.len())
        }),
    decreases q.len(),
{
    if q.len() > 0 {
        let jd = judge(domains, q[0], now);
        let put_aside: Seq<Seq<char>> = if jd.requeue { seq![q[0]] } else { Seq::empty() };
        let sc = scan_queue(domains, q, now);
        let tail = q.drop_first();
        if jd.job is Some {
            assert(sc.skipped + sc.rest == put_aside + tail);
            assert forall|i: int| 0 <= i < (sc.skipped + sc.rest).len() implies q.contains(#[trigger] (sc.skipped + sc.rest)[i]) by {
                if jd.requeue && i == 0 {
                    assert(q[0] == (sc.skipped + sc.rest)[i]);
                } else {
                    let k = if jd.requeue { i - 1 } else { i };
                    assert((sc.skipped + sc.rest)[i] == tail[k]);
                    assert(q[k + 1] == tail[k]);
                }
            }
            if let Some(JobView::Fetch(u)) = jd.job {
                assert(u == q[0]);
                assert(!jd.requeue);
            }
        } else {
            lemma_scan_from_queue(jd.domains, tail, now);
            let sc2 = scan_queue(jd.domains, tail, now);
            assert(sc.skipped + sc.rest =~= put_aside + (sc2.skipped + sc2.rest));
            assert forall|i: int| 0 <= i < (sc.skipped + sc.rest).len() implies q.contains(#[trigger] (sc.skipped + sc.rest)[i]) by {
                if jd.requeue && i == 0 {
                    assert(q[0] == (sc.skipped + sc.rest)[i]);
                } else {
                    let k = if jd.requeue { i - 1 } else { i };
                    assert((sc.skipped + sc.rest)[i] == (sc2.skipped + sc2.rest)[k]);
                    let m = choose|m: int| 0 <= m < tail.len() && tail[m] == (sc2.skipped + sc2.rest)[k];
                    assert(q[m + 1] == tail[m]);
                }
            }
            if let Some(JobView::Fetch(u)) = sc.job {
                let m = choose|m: int| 0 <= m < tail.len() && tail[m] == u;
                assert(q[m + 1] == tail[m]);
            }
        }
    }
}

/// Asking for work never adds to a frontier: what stays queued was queued
/// before, and a URL handed out for fetching comes from the frontier and
/// leaves it.
pub proof fn law_work_comes_from_frontier(domains: Map<Seq<char>, DomainRules>, q: Seq<Seq<char>>, now: u64)
    ensures
        ({
            let sc = scan_queue(domains, q, now);
            &&& forall|i: int| 0 <= i < (sc.skipped + sc.rest).len() ==> q.contains(#[trigger] (sc.skipped + sc.rest)[i])
            &&& (sc.skipped + sc.rest).len() <= q.len()
            &&& (sc.job matches Some(JobView::Fetch(u)) ==> q.contains(u) && (sc.skipped + sc.rest).len() < q.len())
        }),
{
    lemma_scan_from_queue(domains, q, now);
}

/// Once a domain's `robots.txt` has been reported (read or not), judging a URL
/// of that domain no longer asks for it.
pub proof fn law_reported_rules_end_robots_requests(
    s0: ManagerState,
    s1: ManagerState,
    domain: String,
    text: Option<String>,
    now: u64,
    fx: ManagerEffects,
    url: Seq<char>,
    t: u64,
)
    requires
        handled(s0, s1, ManagerMessage::UpdateDomainRules(domain, text), now, fx),
        url_host(url) == Some(domain@),
    ensures
        !(judge(s1.domains(), url, t).job matches Some(JobView::FetchRobotsTxt(_, _))),
{
    assert(s1.domains()[domain@].rules_fetched);
}

/// Every URL waiting in a frontier is reported as seen, so it is not taken in
/// again.
pub open spec fn queued_are_seen(s: ManagerState) -> bool {
    &&& forall|i: int| 0 <= i < s.static_q().len() ==> s.seen().contains(#[trigger] s.static_q()[i])
    &&& forall|i: int| 0 <= i < s.dynamic_q().len() ==> s.seen().contains(#[trigger] s.dynamic_q()[i])
}

proof fn lemma_appended_are_seen(q0: Seq<Seq<char>>, seen0: Set<Seq<char>>, added: Seq<Seq<char>>, spa: bool)
    requires
        forall|i: int| 0 <= i < q0.len() ==> seen0.contains(#[trigger] q0[i]),
    ensures
        forall|i: int| 0 <= i < (q0 + by_kind(added, spa)).len() ==> seen0.union(added.to_set()).contains(
            #[trigger] (q0 + by_kind(added, spa))[i],
        ),
{
    let q = q0 + by_kind(added, spa);
    let f = by_kind(added, spa);
    assert forall|i: int| 0 <= i < q.len() implies seen0.union(added.to_set()).contains(#[trigger] q[i]) by {
        if i < q0.len() {
            assert(q[i] == q0[i]);
        } else {
            let j = i - q0.len();
            assert(q[i] == f[j]);
            assert(f.contains(f[j]));
            added.lemma_filter_contains_rev(|u: Seq<char>| is_spa_url_spec(u) == spa, f[j]);
            assert(added.to_set().contains(f[j]));
        }
    }
}

/// Handling a message keeps every queued URL reported as seen, provided that a
/// URL reported as rate limited is reported as seen (as every URL the manager
/// hands out is).
pub proof fn law_queued_urls_stay_seen(s0: ManagerState, s1: ManagerState, message: ManagerMessage, now: u64, fx: ManagerEffects)
    requires
        queued_are_seen(s0),
        handled(s0, s1, message, now, fx),
        message matches ManagerMessage::DomainRateLimited(_, u) ==> s0.seen().contains(u@),
    ensures
        queued_are_seen(s1),
{
    match message {
        ManagerMessage::AddUrls(urls) => {
            lemma_appended_are_seen(s0.static_q(), s0.seen(), fx.store_pending.deep_view(), false);
            lemma_appended_are_seen(s0.dynamic_q(), s0.seen(), fx.store_pending.deep_view(), true);
        },
        ManagerMessage::RequestWork(name) => {
            let dynamic = is_dynamic_worker(name@);
            let q0 = if dynamic { s0.dynamic_q() } else { s0.static_q() };
            law_work_comes_from_frontier(s0.domains(), q0, now);
            let sc = scan_queue(s0.domains(), q0, now);
            let q1 = sc.skipped + sc.rest;
            assert forall|i: int| 0 <= i < q1.len() implies s1.seen().contains(#[trigger] q1[i]) by {
                assert(q0.contains(q1[i]));
                let k = choose|k: int| 0 <= k < q0.len() && q0[k] == q1[i];
                assert(s0.seen().contains(q0[k]));
            }
        },
        ManagerMessage::DomainRateLimited(d, u) => {
            assert forall|i: int| 0 <= i < s1.static_q().len() implies s1.seen().contains(#[trigger] s1.static_q()[i]) by {
                if !is_spa_url_spec(u@) && i > 0 {
                    assert(s1.static_q()[i] == s0.static_q()[i - 1]);
                }
            }
            assert forall|i: int| 0 <= i < s1.dynamic_q().len() implies s1.seen().contains(#[trigger] s1.dynamic_q()[i]) by {
                if is_spa_url_spec(u@) && i > 0 {
                    assert(s1.dynamic_q()[i] == s0.dynamic_q()[i - 1]);
                }
            }
        },
        _ => {},
    }
}

proof fn lemma_run_grows(r0: Set<Seq<char>>, urls: Seq<Seq<char>>, rs: Seq<Set<Seq<char>>>, v: Seq<bool>, j: int, k: int)
    requires
        filter_run(r0, urls, rs, v),
        0 <= j <= k <= urls.len(),
    ensures
        rs[j].subset_of(rs[k]),
    decreases k - j,
{
    if j < k {
        lemma_run_grows(r0, urls, rs, v, j, k - 1);
        let i = k - 1;
        assert(v[i] == rs[i].contains(urls[i]));
    }
}

/// After a batch is taken in, the filter reports every URL of the batch
/// (taken in or not) and everything it reported before.
pub proof fn law_offered_urls_reported(r0: Set<Seq<char>>, urls: Seq<Seq<char>>, added: Seq<Seq<char>>, r1: Set<Seq<char>>)
    requires
        taken_in(r0, urls, added, r1),
    ensures
        r0.subset_of(r1),
        forall|i: int| 0 <= i < urls.len() ==> r1.contains(#[trigger] urls[i]),
{
    let (rs, v) = choose|rs: Seq<Set<Seq<char>>>, v: Seq<bool>|
        #[trigger] filter_run(r0, urls, rs, v) && rs.last() == r1 && added == select_unseen(urls, v);
    lemma_run_grows(r0, urls, rs, v, 0, urls.len() as int);
    assert forall|i: int| 0 <= i < urls.len() implies r1.contains(#[trigger] urls[i]) by {
        assert(v[i] == rs[i].contains(urls[i]));
        lemma_run_grows(r0, urls, rs, v, i + 1, urls.len() as int);
    }
}

proof fn lemma_select_prefix(urls: Seq<Seq<char>>, v: Seq<bool>, k: int)
    requires
        urls.len() == v.len(),
        0 <= k <= urls.len(),
    ensures
        select_unseen(urls.take(k), v.take(k)).len() <= select_unseen(urls, v).len(),
        select_unseen(urls, v).take(select_unseen(urls.take(k), v.take(k)).len() as int) == select_unseen(urls.take(k), v.take(k)),
    decreases urls.len(),
{
    if k == urls.len() {
        assert(urls.take(k) =~= urls);
        assert(v.take(k) =~= v);
        assert(select_unseen(urls, v).take(select_unseen(urls, v).len() as int) =~= select_unseen(urls, v));
    } else {
        lemma_select_prefix(urls.drop_last(), v.drop_last(), k);
        assert(urls.drop_last().take(k) =~= urls.take(k));
        assert(v.drop_last().take(k) =~= v.take(k));
        let pre = select_unseen(urls.take(k), v.take(k));
        let rest = select_unseen(urls.drop_last(), v.drop_last());
        let all = select_unseen(urls, v);
        if !v.last() {
            assert(all == rest.push(urls.last()));
            assert(all.take(pre.len() as int) =~= rest.take(pre.len() as int));
        } else {
            assert(all == rest);
        }
    }
}

/// A filter that reports nothing takes in the first URL of a batch, and puts
/// it first among the URLs taken in.
pub proof fn law_fresh_filter_takes_first(urls: Seq<Seq<char>>, added: Seq<Seq<char>>, r1: Set<Seq<char>>)
    requires
        taken_in(Set::<Seq<char>>::empty(), urls, added, r1),
        urls.len() > 0,
    ensures
        added.len() > 0,
        added[0] == urls[0],
{
    let (rs, v) = choose|rs: Seq<Set<Seq<char>>>, v: Seq<bool>|
        #[trigger] filter_run(Set::<Seq<char>>::empty(), urls, rs, v) && rs.last() == r1 && added == select_unseen(urls, v);
    assert(v[0] == rs[0].contains(urls[0]));
    assert(!v[0]);
    lemma_select_prefix(urls, v, 1);
    assert(urls.take(1).drop_last() =~= Seq::<Seq<char>>::empty());
    assert(v.take(1).drop_last() =~= Seq::<bool>::empty());
    assert(urls.take(1).last() == urls[0]);
    assert(v.take(1).last() == v[0]);
    assert(select_unseen(Seq::<Seq<char>>::empty(), Seq::<bool>::empty()) == Seq::<Seq<char>>::empty());
    assert(select_unseen(urls.take(1), v.take(1)) == Seq::<Seq<char>>::empty().push(urls[0]));
    assert(select_unseen(urls.take(1), v.take(1)) =~= seq![urls[0]]);
    assert(added.take(1)[0] == urls[0]);
}

/// Every URL offered to the manager is reported as seen by its filter
/// afterwards, whether it was taken in or kept out as already seen.
pub proof fn law_offered_urls_reported_after(s0: ManagerState, s1: ManagerState, urls: Vec<String>, now: u64, fx: ManagerEffects)
    requires
        handled(s0, s1, ManagerMessage::AddUrls(urls), now, fx),
    ensures
        s0.seen().subset_of(s1.seen()),
        forall|i: int| 0 <= i < urls@.len() ==> s1.seen().contains(#[trigger] urls@[i]@),
{
    law_offered_urls_reported(s0.seen(), urls.deep_view(), fx.store_pending.deep_view(), s1.seen());
    assert forall|i: int| 0 <= i < urls@.len() implies s1.seen().contains(#[trigger] urls@[i]@) by {
        assert(urls.deep_view()[i] == urls@[i]@);
    }
}

/// A domain's rules keep the spacing of its fetches: the crawl delay is still
/// `c` seconds, and the last fetch is still at `l`, or at `now` when `now` is
/// at least `c` seconds after `l`.
pub open spec fn spacing_kept(r: DomainRules, c: u64, l: u64, now: u64) -> bool {
    &&& r.crawl_delay == c
    &&& (r.last_hit == Some(l) || (r.last_hit == Some(now) && (c > 0 ==> now >= l + c * 1000)))
}

proof fn lemma_judge_keeps_spacing(domains: Map<Seq<char>, DomainRules>, url: Seq<char>, now: u64, d: Seq<char>, c: u64, l: u64)
    requires
        domains.contains_key(d),
        spacing_kept(domains[d], c, l, now),
    ensures
        judge(domains, url, now).domains.contains_key(d),
        spacing_kept(judge(domains, url, now).domains[d], c, l, now),
{
    if url_host(url) != Some(d) {
        law_judge_touches_own_domain(domains, url, now, d);
    }
}

proof fn lemma_scan_keeps_spacing(domains: Map<Seq<char>, DomainRules>, q: Seq<Seq<char>>, now: u64, d: Seq<char>, c: u64, l: u64)
    requires
        domains.contains_key(d),
        spacing_kept(domains[d], c, l, now),
    ensures
        scan_queue(domains, q, now).domains.contains_key(d),
        spacing_kept(scan_queue(domains, q, now).domains[d], c, l, now),
    decreases q.len(),
{
    if q.len() > 0 {
        lemma_judge_keeps_spacing(domains, q[0], now, d, c, l);
        let jd = judge(domains, q[0], now);
        if jd.job is None {
            lemma_scan_keeps_spacing(jd.domains, q.drop_first(), now, d, c, l);
        }
    }
}

/// The crawl delay holds across every message but a new `robots.txt` for the
/// domain: once a domain has been fetched at `l`, handling any message at
/// `now` keeps its delay `c`, and moves its last fetch only to `now`, and only
/// when `now` is at least `c` seconds after `l`. Chained over a run of
/// messages, successive fetches of a domain are at least its delay apart.
pub proof fn law_crawl_delay_across_messages(
    s0: ManagerState,
    s1: ManagerState,
    message: ManagerMessage,
    now: u64,
    fx: ManagerEffects,
    d: Seq<char>,
)
    requires
        handled(s0, s1, message, now, fx),
        s0.domains().contains_key(d),
        s0.domains()[d].last_hit is Some,
        !(message matches ManagerMessage::UpdateDomainRules(d2, _) && d2@ == d),
    ensures
        s1.domains().contains_key(d),
        spacing_kept(s1.domains()[d], s0.domains()[d].crawl_delay, s0.domains()[d].last_hit->0, now),
{
    let c = s0.domains()[d].crawl_delay;
    let l = s0.domains()[d].last_hit->0;
    match message {
        ManagerMessage::RequestWork(name) => {
            let dynamic = is_dynamic_worker(name@);
            let q0 = if dynamic { s0.dynamic_q() } else { s0.static_q() };
            lemma_scan_keeps_spacing(s0.domains(), q0, now, d, c, l);
        },
        _ => {},
    }
}

proof fn lemma_scan_fetch(domains: Map<Seq<char>, DomainRules>, q: Seq<Seq<char>>, now: u64, h: Seq<char>)
    ensures
        ({
            let sc = scan_queue(domains, q, now);
            sc.job matches Some(JobView::Fetch(u)) && url_host(u) == Some(h) ==> {
                &&& sc.domains.contains_key(h)
                &&& sc.domains[h].last_hit == Some(now)
                &&& (domains.contains_key(h) && domains[h].last_hit is Some && domains[h].crawl_delay > 0 ==> now
                    >= domains[h].last_hit->0 + domains[h].crawl_delay * 1000)
                &&& (domains.contains_key(h) ==> sc.domains[h].crawl_delay == domains[h].crawl_delay)
            }
        }),
    decreases q.len(),
{
    if q.len() > 0 {
        let jd = judge(domains, q[0], now);
        if jd.job is None {
            lemma_scan_fetch(jd.domains, q.drop_first(), now, h);
            if url_host(q[0]) != Some(h) {
                law_judge_touches_own_domain(domains, q[0], now, h);
            }
        }
    }
}

/// Whether effects `fx` hand out a fetch of a URL of domain `d`.
pub open spec fn fetch_of(fx: ManagerEffects, d: Seq<char>) -> bool {
    fx.dispatch matches Some((_, w)) && (w@ matches JobView::Fetch(u) && url_host(u) == Some(d))
}

/// A run of the manager: state `ss[k + 1]` and effects `fxs[k]` come from
/// handling message `ms[k]` at time `ts[k]` in state `ss[k]`.
pub open spec fn manager_run(ss: Seq<ManagerState>, ms: Seq<ManagerMessage>, ts: Seq<u64>, fxs: Seq<ManagerEffects>) -> bool {
    &&& ss.len() == ms.len() + 1
    &&& ts.len() == ms.len()
    &&& fxs.len() == ms.len()
    &&& forall|k: int| 0 <= k < ms.len() ==> #[trigger] handled(ss[k], ss[k + 1], ms[k], ts[k], fxs[k])
}

proof fn lemma_run_spacing(
    ss: Seq<ManagerState>,
    ms: Seq<ManagerMessage>,
    ts: Seq<u64>,
    fxs: Seq<ManagerEffects>,
    d: Seq<char>,
    i: int,
    k: int,
)
    requires
        manager_run(ss, ms, ts, fxs),
        forall|m: int| 0 <= m < ms.len() ==> !(#[trigger] ms[m] matches ManagerMessage::UpdateDomainRules(d2, _) && d2@ == d),
        0 <= i < k <= ms.len(),
        fetch_of(fxs[i], d),
    ensures
        ss[k].domains().contains_key(d),
        ss[k].domains()[d].crawl_delay == ss[i + 1].domains()[d].crawl_delay,
        ss[k].domains()[d].last_hit is Some,
        ss[i + 1].domains()[d].crawl_delay > 0 ==> ss[k].domains()[d].last_hit->0 >= ts[i],
    decreases k - i,
{
    assert(handled(ss[i], ss[i + 1], ms[i], ts[i], fxs[i]));
    if k == i + 1 {
        match ms[i] {
            ManagerMessage::RequestWork(name) => {
                let dynamic = is_dynamic_worker(name@);
                let q0 = if dynamic { ss[i].dynamic_q() } else { ss[i].static_q() };
                lemma_scan_fetch(ss[i].domains(), q0, ts[i], d);
            },
            _ => {},
        }
    } else {
        lemma_run_spacing(ss, ms, ts, fxs, d, i, k - 1);
        let m = k - 1;
        assert(handled(ss[m], ss[m + 1], ms[m], ts[m], fxs[m]));
        assert(ss[m + 1] == ss[k]);
        assert(!(ms[m] matches ManagerMessage::UpdateDomainRules(d2, _) && d2@ == d));
        law_crawl_delay_across_messages(ss[m], ss[m + 1], ms[m], ts[m], fxs[m], d);
    }
}

/// Over any run of messages in which domain `d` gets no new `robots.txt`,
/// two fetches of URLs of `d` handed out at steps `i < j` are at least its
/// crawl delay apart.
pub proof fn law_crawl_delay_over_a_run(
    ss: Seq<ManagerState>,
    ms: Seq<ManagerMessage>,
    ts: Seq<u64>,
    fxs: Seq<ManagerEffects>,
    d: Seq<char>,
    i: int,
    j: int,
)
    requires
        manager_run(ss, ms, ts, fxs),
        forall|m: int| 0 <= m < ms.len() ==> !(#[trigger] ms[m] matches ManagerMessage::UpdateDomainRules(d2, _) && d2@ == d),
        0 <= i < j < ms.len(),
        fetch_of(fxs[i], d),
        fetch_of(fxs[j], d),
    ensures
        ss[i + 1].domains()[d].crawl_delay > 0 ==> ts[j] >= ts[i] + ss[i + 1].domains()[d].crawl_delay * 1000,
{
    lemma_run_spacing(ss, ms, ts, fxs, d, i, j);
    assert(handled(ss[j], ss[j + 1], ms[j], ts[j], fxs[j]));
    match ms[j] {
        ManagerMessage::RequestWork(name) => {
            let dynamic = is_dynamic_worker(name@);
            let q0 = if dynamic { ss[j].dynamic_q() } else { ss[j].static_q() };
            lemma_scan_fetch(ss[j].domains(), q0, ts[j], d);
        },
        _ => {},
    }
}

/// The domain rules after judging the first `i` URLs of `q` at `now`, one
/// after another.
pub open spec fn rules_before(domains: Map<Seq<char>, DomainRules>, q: Seq<Seq<char>>, now: u64, i: nat) -> Map<Seq<char>, DomainRules>
    decreases i,
{
    if i == 0 {
        domains
    } else {
        judge(rules_before(domains, q, now, (i - 1) as nat), q[i - 1], now).domains
    }
}

proof fn lemma_rules_before_shift(domains: Map<Seq<char>, DomainRules>, q: Seq<Seq<char>>, now: u64, i: nat)
    requires
        q.len() > 0,
        i < q.len(),
    ensures
        rules_before(domains, q, now, i + 1) == rules_before(judge(domains, q[0], now).domains, q.drop_first(), now, i),
    decreases i,
{
    let jd = judge(domains, q[0], now).domains;
    let tail = q.drop_first();
    assert(rules_before(domains, q, now, i + 1) == judge(rules_before(domains, q, now, i), q[i as int], now).domains);
    if i > 0 {
        lemma_rules_before_shift(domains, q, now, (i - 1) as nat);
        assert(q[i as int] == tail[i - 1]);
        assert(rules_before(jd, tail, now, i) == judge(rules_before(jd, tail, now, (i - 1) as nat), tail[i - 1], now).domains);
    } else {
        assert(rules_before(domains, q, now, 0) == domains);
        assert(rules_before(jd, tail, now, 0) == jd);
    }
}

/// The URLs among the first `n` of `q` that have to wait when judged one
/// after another at `now`, in order.
pub open spec fn waiting_urls(domains: Map<Seq<char>, DomainRules>, q: Seq<Seq<char>>, now: u64, n: nat) -> Seq<Seq<char>>
    decreases n,
{
    if n == 0 {
        Seq::empty()
    } else {
        let k = (n - 1) as nat;
        waiting_urls(domains, q, now, k) + if judge(rules_before(domains, q, now, k), q[k as int], now).requeue {
            seq![q[k as int]]
        } else {
            Seq::empty()
        }
    }
}

proof fn lemma_waiting_shift(domains: Map<Seq<char>, DomainRules>, q: Seq<Seq<char>>, now: u64, n: nat)
    requires
        q.len() > 0,
        n < q.len(),
    ensures
        waiting_urls(domains, q, now, n + 1) == (if judge(domains, q[0], now).requeue { seq![q[0]] } else {
            Seq::<Seq<char>>::empty()
        }) + waiting_urls(judge(domains, q[0], now).domains, q.drop_first(), now, n),
    decreases n,
{
    let jd = judge(domains, q[0], now);
    let tail = q.drop_first();
    let first: Seq<Seq<char>> = if jd.requeue { seq![q[0]] } else { Seq::empty() };
    if n == 0 {
        assert(rules_before(domains, q, now, 0) == domains);
        assert(waiting_urls(domains, q, now, 0) == Seq::<Seq<char>>::empty());
        assert(waiting_urls(jd.domains, tail, now, 0) == Seq::<Seq<char>>::empty());
        assert(waiting_urls(domains, q, now, 1) =~= first + waiting_urls(jd.domains, tail, now, 0));
    } else {
        lemma_waiting_shift(domains, q, now, (n - 1) as nat);
        lemma_rules_before_shift(domains, q, now, (n - 1) as nat);
        let k = (n - 1) as nat;
        assert(q[n as int] == tail[k as int]);
        assert(rules_before(domains, q, now, n) == rules_before(jd.domains, tail, now, k));
        let a: Seq<Seq<char>> = if judge(rules_before(jd.domains, tail, now, k), tail[k as int], now).requeue {
            seq![tail[k as int]]
        } else {
            Seq::empty()
        };
        assert(waiting_urls(domains, q, now, n + 1) == waiting_urls(domains, q, now, n) + a);
        assert(waiting_urls(jd.domains, tail, now, n) == waiting_urls(jd.domains, tail, now, k) + a);
        assert(first + waiting_urls(jd.domains, tail, now, k) + a =~= first + (waiting_urls(jd.domains, tail, now, k) + a));
    }
}

proof fn lemma_scan_first_ready(domains: Map<Seq<char>, DomainRules>, q: Seq<Seq<char>>, now: u64)
    ensures
        ({
            let sc = scan_queue(domains, q, now);
            &&& sc.job is None ==> forall|i: nat|
                i < q.len() ==> (#[trigger] judge(rules_before(domains, q, now, i), q[i as int], now)).job is None
            &&& sc.job is None ==> sc.skipped == waiting_urls(domains, q, now, q.len()) && sc.rest.len() == 0
                && sc.domains == rules_before(domains, q, now, q.len())
            &&& sc.job is Some ==> exists|k: nat|
                k < q.len() && (#[trigger] judge(rules_before(domains, q, now, k), q[k as int], now)).job == sc.job
                    && sc.domains == judge(rules_before(domains, q, now, k), q[k as int], now).domains
                    && sc.skipped == waiting_urls(domains, q, now, k + 1) && sc.rest == q.skip((k + 1) as int)
                    && forall|i: nat| i < k ==> (#[trigger] judge(rules_before(domains, q, now, i), q[i as int], now)).job is None
        }),
    decreases q.len(),
{
    if q.len() == 0 {
        assert(waiting_urls(domains, q, now, 0) == Seq::<Seq<char>>::empty());
    } else {
        let jd = judge(domains, q[0], now);
        let tail = q.drop_first();
        let sc = scan_queue(domains, q, now);
        let first: Seq<Seq<char>> = if jd.requeue { seq![q[0]] } else { Seq::empty() };
        assert(judge(rules_before(domains, q, now, 0), q[0], now) == jd);
        if jd.job is Some {
            let k: nat = 0;
            assert(judge(rules_before(domains, q, now, k), q[k as int], now) == jd);
            lemma_waiting_shift(domains, q, now, 0);
            assert(waiting_urls(jd.domains, tail, now, 0) == Seq::<Seq<char>>::empty());
            assert(first + Seq::<Seq<char>>::empty() =~= first);
            assert(q.skip(1) =~= tail);
        } else {
            lemma_scan_first_ready(jd.domains, tail, now);
            let sc2 = scan_queue(jd.domains, tail, now);
            assert(sc.skipped == first + sc2.skipped);
            assert forall|i: nat| i < q.len() && i > 0 implies judge(rules_before(domains, q, now, i), q[i as int], now)
                == judge(rules_before(jd.domains, tail, now, (i - 1) as nat), tail[i - 1], now) by {
                lemma_rules_before_shift(domains, q, now, (i - 1) as nat);
            }
            if sc.job is None {
                assert forall|i: nat| i < q.len() implies (#[trigger] judge(rules_before(domains, q, now, i), q[i as int], now)).job is None by {
                    if i > 0 {
                        let i1 = (i - 1) as nat;
                        assert(judge(rules_before(jd.domains, tail, now, i1), tail[i1 as int], now).job is None);
                    }
                }
                lemma_waiting_shift(domains, q, now, (q.len() - 1) as nat);
                lemma_rules_before_shift(domains, q, now, (q.len() - 1) as nat);
            } else {
                let k2 = choose|k: nat|
                    k < tail.len() && (#[trigger] judge(rules_before(jd.domains, tail, now, k), tail[k as int], now)).job == sc2.job
                        && sc2.domains == judge(rules_before(jd.domains, tail, now, k), tail[k as int], now).domains
                        && sc2.skipped == waiting_urls(jd.domains, tail, now, k + 1) && sc2.rest == tail.skip((k + 1) as int)
                        && forall|i: nat| i < k ==> (#[trigger] judge(rules_before(jd.domains, tail, now, i), tail[i as int], now)).job is None;
                let k: nat = k2 + 1;
                assert(judge(rules_before(domains, q, now, k), q[k as int], now) == judge(rules_before(jd.domains, tail, now, k2), tail[k2 as int], now));
                lemma_waiting_shift(domains, q, now, k);
                assert(q.skip((k + 1) as int) =~= tail.skip((k2 + 1) as int));
                assert forall|i: nat| i < k implies (#[trigger] judge(rules_before(domains, q, now, i), q[i as int], now)).job is None by {
                    if i > 0 {
                        let i1 = (i - 1) as nat;
                        assert(judge(rules_before(jd.domains, tail, now, i1), tail[i1 as int], now).job is None);
                    }
                }
            }
        }
    }
}

/// Asking for work judges the frontier from the front, each URL under the
/// rules the URLs before it left, and hands out the first job any URL yields:
/// when nothing is handed out, no URL of the frontier was ready (a URL behind
/// one that has to wait is still judged); when something is, it is the job of
/// the first URL that yields one, and every URL before it yielded none. The
/// frontier afterwards holds the URLs judged that have to wait, in order, then
/// the URLs after the one handed out, untouched.
pub proof fn law_work_is_the_first_ready_url(domains: Map<Seq<char>, DomainRules>, q: Seq<Seq<char>>, now: u64)
    ensures
        scan_queue(domains, q, now).job is None ==> forall|i: nat|
            i < q.len() ==> (#[trigger] judge(rules_before(domains, q, now, i), q[i as int], now)).job is None,
        scan_queue(domains, q, now).job is None ==> scan_queue(domains, q, now).skipped + scan_queue(domains, q, now).rest
            == waiting_urls(domains, q, now, q.len()),
        scan_queue(domains, q, now).job is Some ==> exists|k: nat|
            k < q.len() && (#[trigger] judge(rules_before(domains, q, now, k), q[k as int], now)).job == scan_queue(domains, q, now).job
                && scan_queue(domains, q, now).skipped + scan_queue(domains, q, now).rest == waiting_urls(domains, q, now, k + 1)
                + q.skip((k + 1) as int)
                && forall|i: nat| i < k ==> (#[trigger] judge(rules_before(domains, q, now, i), q[i as int], now)).job is None,
{
    lemma_scan_first_ready(domains, q, now);
    let sc = scan_queue(domains, q, now);
    if sc.job is None {
        assert(sc.skipped + sc.rest =~= sc.skipped);
    }
}

} // verus!
