//! Deterministic assignment of domains to shards.
use vstd::prelude::*;
use crate::text::{chars_of, parse_u64, parse_u64_spec};
use crate::urls::{host_of, host_or_unknown, parse_url, url_parse_spec};

verus! {

/// The value that a fresh std `DefaultHasher` finishes with after hashing the string `s`.
pub uninterp spec fn domain_hash_spec(s: Seq<char>) -> u64;

/// Hashes `s` with std's `BuildHasher::hash_one` on a
/// `BuildHasherDefault<DefaultHasher>`, which feeds `s` to a
/// `DefaultHasher::default()` and finishes it. Such hashers all start alike,
/// so the result is a function of `s`; the contract claims only that.
#[verifier::external_body]
fn hash_domain(s: &str) -> (h: u64)
    ensures
        h == domain_hash_spec(s@),
{
    std::hash::BuildHasher::hash_one(&std::hash::BuildHasherDefault::<std::collections::hash_map::DefaultHasher>::default(), s)
}

/// The shard that owns `domain` among `num_shards`.
pub open spec fn shard_of(domain: Seq<char>, num_shards: nat) -> int {
    (domain_hash_spec(domain) as usize) as int % (num_shards as int)
}

/// The shard of the domain of `url` (`unknown` standing for a URL without one).
pub open spec fn target_shard_of(url: Seq<char>, num_shards: nat) -> int {
    shard_of(host_or_unknown(url), num_shards)
}

/// Index of the shard responsible for `domain`.
pub fn get_shard_index(domain: &str, num_shards: usize) -> (r: usize)
    requires
        num_shards > 0,
    ensures
        r == shard_of(domain@, num_shards as nat),
        r < num_shards,
{
    let h = hash_domain(domain);
    (h as usize) % num_shards
}

/// Index of the shard responsible for the domain of `url_str`.
pub fn get_target_shard(url_str: &str, num_shards: usize) -> (r: usize)
    requires
        num_shards > 0,
    ensures
        r == target_shard_of(url_str@, num_shards as nat),
        r < num_shards,
{
    let domain = host_of(url_str);
    get_shard_index(domain.as_str(), num_shards)
}

/// Pages of one domain are always routed to one shard.
pub proof fn law_same_domain_same_shard(u1: Seq<char>, u2: Seq<char>, num_shards: nat)
    requires
        host_or_unknown(u1) == host_or_unknown(u2),
    ensures
        target_shard_of(u1, num_shards) == target_shard_of(u2, num_shards),
{
}

/// The links of `links` that parse, with the shard of each.
pub open spec fn link_shard(link: Seq<char>, num_shards: nat) -> Option<int> {
    match url_parse_spec(link) {
        Some(_) => Some(target_shard_of(link, num_shards)),
        None => None,
    }
}

/// The links bound for shard `k`, in the order given.
pub open spec fn batch_for(links: Seq<Seq<char>>, num_shards: nat, k: int) -> Seq<Seq<char>> {
    links.filter(|l: Seq<char>| link_shard(l, num_shards) == Some(k))
}

/// Splits `links` into one batch per shard: each link that parses goes to the
/// shard of its domain, in the order given; links that do not parse are dropped.
pub fn route_links(links: &Vec<String>, num_shards: usize) -> (r: Vec<Vec<String>>)
    requires
        num_shards > 0,
    ensures
        r@.len() == num_shards,
        forall|k: int| 0 <= k < num_shards ==> #[trigger] r@[k].deep_view() == batch_for(links.deep_view(), num_shards as nat, k),
{
    let ghost lv = links.deep_view();
    let mut batches: Vec<Vec<String>> = Vec::new();
    let mut k: usize = 0;
    while k < num_shards
        invariant
            k <= num_shards,
            batches@.len() == k,
            forall|m: int| 0 <= m < k ==> #[trigger] batches@[m].deep_view() == batch_for(lv.take(0), num_shards as nat, m),
        decreases num_shards - k,
    {
        let ghost prev = batches@;
        batches.push(Vec::new());
        assert(lv.take(0).filter(|l: Seq<char>| link_shard(l, num_shards as nat) == Some(k as int)) =~= Seq::<Seq<char>>::empty());
        assert(batches@[k as int].deep_view() =~= Seq::<Seq<char>>::empty());
        assert forall|m: int| 0 <= m < k + 1 implies #[trigger] batches@[m].deep_view() == batch_for(lv.take(0), num_shards as nat, m) by {
            if m < k {
                assert(batches@[m] == prev[m]);
            }
        }
        k = k + 1;
    }
    let mut i: usize = 0;
    while i < links.len()
        invariant
            i <= links@.len(),
            lv == links.deep_view(),
            num_shards > 0,
            batches@.len() == num_shards,
            forall|m: int| 0 <= m < num_shards ==> #[trigger] batches@[m].deep_view() == batch_for(lv.take(i as int), num_shards as nat, m),
        decreases links@.len() - i,
    {
        let ghost prev = batches@;
        assert(lv.take(i + 1).drop_last() =~= lv.take(i as int));
        assert(lv[i as int] == links@[i as int]@);
        let link = &links[i];
        match parse_url(link.as_str()) {
            Some(u) => {
                let s = get_target_shard(link.as_str(), num_shards);
                let mut b = batches.remove(s);
                let ghost bprev = b.deep_view();
                b.push(link.clone());
                assert(b.deep_view() =~= bprev.push(lv[i as int]));
                batches.insert(s, b);
                assert forall|m: int| 0 <= m < num_shards implies #[trigger] batches@[m].deep_view() == batch_for(lv.take(i + 1), num_shards as nat, m) by {
                    reveal_with_fuel(Seq::filter, 1);
                    if m != s {
                        assert(batches@[m] == prev[m]);
                    }
                }
            },
            None => {
                assert forall|m: int| 0 <= m < num_shards implies #[trigger] batches@[m].deep_view() == batch_for(lv.take(i + 1), num_shards as nat, m) by {
                    reveal_with_fuel(Seq::filter, 1);
                }
            },
        }
        i = i + 1;
    }
    assert(lv.take(links@.len() as int) =~= lv);
    batches
}

/// The shard number a process-group member encodes after the last `-` of its
/// name (0 when that part is not a number).
pub open spec fn name_index_spec(name: Seq<char>) -> usize {
    match parse_u64_spec(crate::text::after_last(name, '-')) {
        Some(v) => if v <= usize::MAX { v as usize } else { 0 },
        None => 0,
    }
}

/// Sort key of a member named `name` (such as `indexer-3`).
pub fn shard_index_from_name(name: &str) -> (r: usize)
    ensures
        r == name_index_spec(name@),
{
    let cs = chars_of(name);
    let tail = crate::text::suffix_after_last(cs.as_slice(), '-');
    match parse_u64(tail.as_slice()) {
        Some(v) => {
            if v <= usize::MAX as u64 {
                v as usize
            } else {
                0
            }
        },
        None => 0,
    }
}

} // verus!

verus! {

/// Routing loses and duplicates nothing: a link is in the batch of shard `k`
/// exactly when it is one of the links, it parses, and its domain belongs to
/// shard `k`.
pub proof fn law_links_routed_to_their_shard(links: Seq<Seq<char>>, num_shards: nat, link: Seq<char>, k: int)
    requires
        num_shards > 0,
        0 <= k < num_shards,
    ensures
        batch_for(links, num_shards, k).contains(link) <==> (links.contains(link) && url_parse_spec(link) is Some
            && target_shard_of(link, num_shards) == k),
{
    let pred = |l: Seq<char>| link_shard(l, num_shards) == Some(k);
    let b = links.filter(pred);
    assert(batch_for(links, num_shards, k) == b);
    if b.contains(link) {
        links.lemma_filter_contains_rev(pred, link);
        let i = choose|i: int| 0 <= i < b.len() && b[i] == link;
        links.lemma_filter_pred(pred, i);
    }
    if links.contains(link) && url_parse_spec(link) is Some && target_shard_of(link, num_shards) == k {
        let i = choose|i: int| 0 <= i < links.len() && links[i] == link;
        links.lemma_filter_contains(pred, i);
    }
}

} // verus!
