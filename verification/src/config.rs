//! Service settings: the values read from the environment, with their
//! defaults, and the seed list.
use vstd::prelude::*;
use crate::shard::{name_index_spec, shard_index_from_name};
use crate::text::{
    chars_of, lines, parse_u64, parse_u64_spec, same_chars, split_lines, starts_with, string_from_chars, trim,
    trim_chars,
};
use crate::urls::opt_view;

verus! {

/// A trimmed line that names a seed: not blank, not a `#` comment.
pub open spec fn is_seed_line(t: Seq<char>) -> bool {
    t.len() > 0 && !starts_with(t, "#"@)
}

/// The seeds of a seed file: its lines trimmed, without blank and comment lines.
pub open spec fn seeds_of(content: Seq<char>) -> Seq<Seq<char>> {
    lines(content).map_values(|l: Seq<char>| trim(l)).filter(|t: Seq<char>| is_seed_line(t))
}

/// The seed URLs listed in `content`, one per line.
pub fn parse_seeds(content: &str) -> (r: Vec<String>)
    ensures
        r.deep_view() == seeds_of(content@),
{
    let cs = chars_of(content);
    let ls = split_lines(cs.as_slice());
    let ghost lv = ls.deep_view();
    let ghost tv = lv.map_values(|l: Seq<char>| trim(l));
    let mut out: Vec<String> = Vec::new();
    let mut i: usize = 0;
    proof {
        reveal_strlit("#");
    }
    assert(out.deep_view() =~= tv.take(0).filter(|t: Seq<char>| is_seed_line(t)));
    while i < ls.len()
        invariant
            i <= ls@.len(),
            lv == ls.deep_view(),
            lv == lines(content@),
            tv == lv.map_values(|l: Seq<char>| trim(l)),
            out.deep_view() == tv.take(i as int).filter(|t: Seq<char>| is_seed_line(t)),
        decreases ls@.len() - i,
    {
        assert(lv[i as int] == ls@[i as int].deep_view());
        assert(ls@[i as int].deep_view() =~= ls@[i as int]@);
        assert(lv[i as int] == ls@[i as int]@);
        assert(tv[i as int] == trim(lv[i as int]));
        let t = trim_chars(ls[i].as_slice());
        assert(tv.take(i + 1) =~= tv.take(i as int).push(t@));
        reveal_with_fuel(Seq::filter, 1);
        assert(tv.take(i + 1).drop_last() =~= tv.take(i as int));
        let keep = t.len() > 0 && t[0] != '#';
        assert(keep == is_seed_line(t@)) by {
            reveal_strlit("#");
            assert("#"@ =~= seq!['#']);
            if t@.len() > 0 {
                assert(t@.take(1) =~= seq![t@[0]]);
                if t@[0] == '#' {
                    assert(t@.take(1) =~= "#"@);
                } else {
                    assert(t@.take(1)[0] != "#"@[0]);
                }
            }
        }
        if keep {
            let ghost before = out.deep_view();
            let s = string_from_chars(t.as_slice());
            out.push(s);
            assert(out.deep_view() =~= before.push(t@));
        }
        i = i + 1;
    }
    assert(tv.take(ls@.len() as int) =~= tv);
    out
}

} // verus!

verus! {

/// The environment variables that the services read, as found (`None` when unset).
pub struct EnvValues {
    /// `HOST`
    pub host: Option<String>,
    /// `PORT`
    pub port: Option<String>,
    /// `CLUSTER_HOST`: this crate's setting for the address the cluster node
    /// announces; it defaults to the HTTP host.
    pub cluster_host: Option<String>,
    /// `RUST_LOG`
    pub log_level: Option<String>,
    /// `STATIC_WORKERS_PER_SHARD`
    pub static_workers: Option<String>,
    /// `ENABLE_JS_RENDERING`
    pub enable_js_rendering: Option<String>,
    /// `DYNAMIC_WORKERS_PER_SHARD`
    pub dynamic_workers: Option<String>,
    /// `SEEDS_FILE`
    pub seeds_file: Option<String>,
    /// `QUERY_POOL_SIZE`
    pub query_pool_size: Option<String>,
    /// `BLOOM_FILTER_CAPACITY`
    pub bloom_filter_capacity: Option<String>,
    /// `NODE_NAME`
    pub node_name: Option<String>,
    /// `CLUSTER_PORT`
    pub cluster_port: Option<String>,
    /// `CLUSTER_COOKIE`
    pub cookie: Option<String>,
    /// `SEED_NODE`
    pub seed_node: Option<String>,
    /// `SHARD_ID`
    pub shard_id: Option<String>,
    /// `HOSTNAME`
    pub hostname: Option<String>,
}

/// The settings of a service (the bloom filter's false-positive rate, a
/// float, is kept by the caller).
pub struct Settings {
    pub host: String,
    pub port: u16,
    pub cluster_host: String,
    pub log_level: String,
    pub static_workers_per_crawler_shard: usize,
    pub enable_js_rendering: bool,
    pub dynamic_workers_per_shard: usize,
    pub seeds_file: String,
    pub query_pool_size: usize,
    pub bloom_filter_capacity: usize,
    pub node_name: String,
    pub cluster_port: u16,
    pub cookie: String,
    pub seed_node: Option<String>,
    pub shard_id: usize,
}

/// A setting that must be a number and is not.
#[derive(PartialEq, Eq, Debug, Clone, Copy)]
pub enum ConfigError {
    Port,
    StaticWorkers,
    QueryPoolSize,
    BloomFilterCapacity,
    BloomFilterFpRate,
    ClusterPort,
}

/// The value of a variable, or `default` when it is unset.
pub open spec fn value_or(v: Option<String>, default: Seq<char>) -> Seq<char> {
    match v {
        Some(s) => s@,
        None => default,
    }
}

/// What std's `usize::from_str` returns for `s`.
pub open spec fn usize_of(s: Seq<char>) -> Option<usize> {
    match parse_u64_spec(s) {
        Some(n) => if n <= usize::MAX { Some(n as usize) } else { None },
        None => None,
    }
}

/// What std's `u16::from_str` returns for `s`.
pub open spec fn u16_of(s: Seq<char>) -> Option<u16> {
    match parse_u64_spec(s) {
        Some(n) => if n <= u16::MAX { Some(n as u16) } else { None },
        None => None,
    }
}

/// The first setting, in the order they are read, that is not a number;
/// `fp_rate_parses` says whether the false-positive rate was one.
pub open spec fn first_error(env: EnvValues, fp_rate_parses: bool) -> Option<ConfigError> {
    if u16_of(value_or(env.port, "3000"@)) is None {
        Some(ConfigError::Port)
    } else if usize_of(value_or(env.static_workers, "3"@)) is None {
        Some(ConfigError::StaticWorkers)
    } else if usize_of(value_or(env.query_pool_size, "4"@)) is None {
        Some(ConfigError::QueryPoolSize)
    } else if usize_of(value_or(env.bloom_filter_capacity, "10000000"@)) is None {
        Some(ConfigError::BloomFilterCapacity)
    } else if !fp_rate_parses {
        Some(ConfigError::BloomFilterFpRate)
    } else if u16_of(value_or(env.cluster_port, "8000"@)) is None {
        Some(ConfigError::ClusterPort)
    } else {
        None
    }
}

/// The shard of this process: `SHARD_ID` when it is a number, else the number
/// after the last `-` of `HOSTNAME` (as a StatefulSet names its pods), else 0.
pub open spec fn shard_id_of(env: EnvValues) -> usize {
    let from_host = match env.hostname {
        Some(h) => name_index_spec(h@),
        None => 0,
    };
    match env.shard_id {
        Some(v) => match usize_of(v@) {
            Some(n) => n,
            None => from_host,
        },
        None => from_host,
    }
}

fn value_or_exec(v: &Option<String>, default: &str) -> (r: String)
    ensures
        r@ == value_or(*v, default@),
{
    match v {
        Some(s) => s.clone(),
        None => String::from_str(default),
    }
}

fn usize_exec(s: &String) -> (r: Option<usize>)
    ensures
        r == usize_of(s@),
{
    let cs = chars_of(s.as_str());
    match parse_u64(cs.as_slice()) {
        Some(n) => if n <= usize::MAX as u64 { Some(n as usize) } else { None },
        None => None,
    }
}

fn u16_exec(s: &String) -> (r: Option<u16>)
    ensures
        r == u16_of(s@),
{
    let cs = chars_of(s.as_str());
    match parse_u64(cs.as_slice()) {
        Some(n) => if n <= 65535 { Some(n as u16) } else { None },
        None => None,
    }
}

fn shard_id_exec(env: &EnvValues) -> (r: usize)
    ensures
        r == shard_id_of(*env),
{
    let from_host = match &env.hostname {
        Some(h) => shard_index_from_name(h.as_str()),
        None => 0,
    };
    match &env.shard_id {
        Some(v) => match usize_exec(v) {
            Some(n) => n,
            None => from_host,
        },
        None => from_host,
    }
}

impl Settings {
    /// The settings that `env` gives, with the defaults for what it leaves
    /// unset (host `0.0.0.0`, port 3000, three static and one dynamic worker
    /// per shard, no JavaScript rendering, `seeds.txt`, four query actors, ten
    /// million URLs in the filter, cluster port 8000); `fresh_node_name` is
    /// the node name when `NODE_NAME` is unset. A setting that must be a
    /// number and is not gives an error, the first in reading order;
    /// `fp_rate_parses` says whether the false-positive rate was a number.
    pub fn from_env(env: &EnvValues, fp_rate_parses: bool, fresh_node_name: String) -> (r: Result<Settings, ConfigError>)
        ensures
            match r {
                Err(e) => first_error(*env, fp_rate_parses) == Some(e),
                Ok(s) => {
                    &&& first_error(*env, fp_rate_parses) is None
                    &&& s.host@ == value_or(env.host, "0.0.0.0"@)
                    &&& Some(s.port) == u16_of(value_or(env.port, "3000"@))
                    &&& s.cluster_host@ == value_or(env.cluster_host, value_or(env.host, "0.0.0.0"@))
                    &&& s.log_level@ == value_or(env.log_level, "info"@)
                    &&& Some(s.static_workers_per_crawler_shard) == usize_of(value_or(env.static_workers, "3"@))
                    &&& s.enable_js_rendering == (value_or(env.enable_js_rendering, "false"@) == "true"@)
                    &&& s.dynamic_workers_per_shard == match usize_of(value_or(env.dynamic_workers, "1"@)) {
                        Some(n) => n,
                        None => 1,
                    }
                    &&& s.seeds_file@ == value_or(env.seeds_file, "seeds.txt"@)
                    &&& Some(s.query_pool_size) == usize_of(value_or(env.query_pool_size, "4"@))
                    &&& Some(s.bloom_filter_capacity) == usize_of(value_or(env.bloom_filter_capacity, "10000000"@))
                    &&& s.node_name@ == value_or(env.node_name, fresh_node_name@)
                    &&& Some(s.cluster_port) == u16_of(value_or(env.cluster_port, "8000"@))
                    &&& s.cookie@ == value_or(env.cookie, "pythia_secret_cookie"@)
                    &&& opt_view(s.seed_node) == opt_view(env.seed_node)
                    &&& s.shard_id == shard_id_of(*env)
                },
            },
    {
        let host = value_or_exec(&env.host, "0.0.0.0");
        let port = match u16_exec(&value_or_exec(&env.port, "3000")) {
            Some(p) => p,
            None => return Err(ConfigError::Port),
        };
        let static_workers = match usize_exec(&value_or_exec(&env.static_workers, "3")) {
            Some(n) => n,
            None => return Err(ConfigError::StaticWorkers),
        };
        let query_pool_size = match usize_exec(&value_or_exec(&env.query_pool_size, "4")) {
            Some(n) => n,
            None => return Err(ConfigError::QueryPoolSize),
        };
        let capacity = match usize_exec(&value_or_exec(&env.bloom_filter_capacity, "10000000")) {
            Some(n) => n,
            None => return Err(ConfigError::BloomFilterCapacity),
        };
        if !fp_rate_parses {
            return Err(ConfigError::BloomFilterFpRate);
        }
        let cluster_port = match u16_exec(&value_or_exec(&env.cluster_port, "8000")) {
            Some(p) => p,
            None => return Err(ConfigError::ClusterPort),
        };
        let js = value_or_exec(&env.enable_js_rendering, "false");
        let js_chars = chars_of(js.as_str());
        let dynamic_workers = match usize_exec(&value_or_exec(&env.dynamic_workers, "1")) {
            Some(n) => n,
            None => 1,
        };
        let seed_node = match &env.seed_node {
            Some(s) => Some(s.clone()),
            None => None,
        };
        let cluster_host = match &env.cluster_host {
            Some(h) => h.clone(),
            None => host.clone(),
        };
        Ok(Settings {
            host,
            port,
            cluster_host,
            log_level: value_or_exec(&env.log_level, "info"),
            static_workers_per_crawler_shard: static_workers,
            enable_js_rendering: same_chars(js_chars.as_slice(), chars_of("true").as_slice()),
            dynamic_workers_per_shard: dynamic_workers,
            seeds_file: value_or_exec(&env.seeds_file, "seeds.txt"),
            query_pool_size,
            bloom_filter_capacity: capacity,
            node_name: match &env.node_name {
                Some(n) => n.clone(),
                None => fresh_node_name,
            },
            cluster_port,
            cookie: value_or_exec(&env.cookie, "pythia_secret_cookie"),
            seed_node,
            shard_id: shard_id_exec(env),
        })
    }
}

} // verus!
