//! Layered configuration: raw optional values supplied by a file or the
//! command line, resolved once into the immutable policies the pipeline
//! uses. The core never re-reads configuration mid-cycle.

use vstd::prelude::*;

use crate::bytes::bytes_eq;
use crate::filter::FilterPolicy;
use crate::rank::{RankingPolicy, SortKey};
use crate::smaps::sat_u64;

verus! {

/// Raw configuration; every field is optional and falls back to a default
/// when resolved.
pub struct Config {
    /// Address the surrounding server listens on; unused by the core.
    pub listen_addr: Option<Vec<u8>>,
    /// Minimum unique-set size, in kilobytes, for a reading to be kept.
    pub min_uss_kb: Option<u64>,
    /// Sort key name: `rss`, `pss` or `uss`.
    pub top_sort: Option<Vec<u8>>,
    /// How many top processes to publish.
    pub top_n_processes: Option<usize>,
    /// Allow-list of name substrings.
    pub include_names: Option<Vec<Vec<u8>>>,
    /// Deny-list of name substrings.
    pub exclude_names: Option<Vec<Vec<u8>>>,
    /// Worker-pool size for the parallel per-process scan.
    pub parallelism: Option<usize>,
    /// Maximum number of candidates enumerated per cycle.
    pub max_processes: Option<usize>,
}

/// The default listen address, `0.0.0.0:9215`.
pub open spec fn default_listen_addr() -> Seq<u8> {
    seq![48u8, 46u8, 48u8, 46u8, 48u8, 46u8, 48u8, 58u8, 57u8, 50u8, 49u8, 53u8]
}

/// The name of the default sort key, `uss`.
pub open spec fn uss_name() -> Seq<u8> {
    seq![117u8, 115u8, 115u8]
}

/// The name of the resident-set sort key, `rss`.
pub open spec fn rss_name() -> Seq<u8> {
    seq![114u8, 115u8, 115u8]
}

/// The name of the proportional-set sort key, `pss`.
pub open spec fn pss_name() -> Seq<u8> {
    seq![112u8, 115u8, 115u8]
}

impl Default for Config {
    /// The built-in defaults: listen on `0.0.0.0:9215`, keep everything
    /// (zero threshold, no name lists), publish the top 20 by unique-set
    /// size, and leave parallelism and the candidate cap unset.
    fn default() -> (c: Config)
        ensures
            c.listen_addr matches Some(v) && v@ == default_listen_addr(),
            c.min_uss_kb == Some(0u64),
            c.top_sort matches Some(v) && v@ == uss_name(),
            c.top_n_processes == Some(20usize),
            c.include_names is None,
            c.exclude_names is None,
            c.parallelism is None,
            c.max_processes is None,
    {
        let mut la: Vec<u8> = Vec::new();
        la.push(48);
        la.push(46);
        la.push(48);
        la.push(46);
        la.push(48);
        la.push(46);
        la.push(48);
        la.push(58);
        la.push(57);
        la.push(50);
        la.push(49);
        la.push(53);
        proof {
            assert(la@ =~= default_listen_addr());
        }
        let mut ts: Vec<u8> = Vec::new();
        ts.push(117);
        ts.push(115);
        ts.push(115);
        proof {
            assert(ts@ =~= uss_name());
        }
        Config {
            listen_addr: Some(la),
            min_uss_kb: Some(0),
            top_sort: Some(ts),
            top_n_processes: Some(20),
            include_names: None,
            exclude_names: None,
            parallelism: None,
            max_processes: None,
        }
    }
}

/// The sort key a configured name denotes: `rss` and `pss` select those
/// keys; anything else — the default `uss` as well as any unrecognised
/// name — selects the unique-set size.
pub open spec fn sort_key_of(name: Seq<u8>) -> SortKey {
    if name == rss_name() {
        SortKey::Rss
    } else if name == pss_name() {
        SortKey::Pss
    } else {
        SortKey::Uss
    }
}

/// Is `name` one of the three recognised sort keys? An unrecognised name
/// still resolves (to `uss`), but the caller may warn about it.
pub fn is_valid_sort_key(name: &Vec<u8>) -> (r: bool)
    ensures
        r == (name@ == uss_name() || name@ == rss_name() || name@ == pss_name()),
{
    let mut uss: Vec<u8> = Vec::new();
    uss.push(117);
    uss.push(115);
    uss.push(115);
    let mut rss: Vec<u8> = Vec::new();
    rss.push(114);
    rss.push(115);
    rss.push(115);
    let mut pss: Vec<u8> = Vec::new();
    pss.push(112);
    pss.push(115);
    pss.push(115);
    proof {
        assert(uss@ =~= uss_name());
        assert(rss@ =~= rss_name());
        assert(pss@ =~= pss_name());
    }
    bytes_eq(name, &uss) || bytes_eq(name, &rss) || bytes_eq(name, &pss)
}

/// Resolves a sort-key name, falling back to the unique-set size.
pub fn parse_sort_key(name: &Vec<u8>) -> (k: SortKey)
    ensures
        k == sort_key_of(name@),
{
    let mut rss: Vec<u8> = Vec::new();
    rss.push(114);
    rss.push(115);
    rss.push(115);
    let mut pss: Vec<u8> = Vec::new();
    pss.push(112);
    pss.push(115);
    pss.push(115);
    proof {
        assert(rss@ =~= rss_name());
        assert(pss@ =~= pss_name());
    }
    if bytes_eq(name, &rss) {
        SortKey::Rss
    } else if bytes_eq(name, &pss) {
        SortKey::Pss
    } else {
        SortKey::Uss
    }
}

/// The pattern list a configuration field resolves to: absent means empty.
pub open spec fn patterns_or_empty(o: Option<Vec<Vec<u8>>>) -> Seq<Vec<u8>> {
    match o {
        Some(v) => v@,
        None => Seq::empty(),
    }
}

/// The threshold a configuration field resolves to, in kilobytes.
pub open spec fn min_kb_or_zero(o: Option<u64>) -> int {
    match o {
        Some(v) => v as int,
        None => 0,
    }
}

/// The sort key the configuration resolves to.
pub open spec fn configured_sort_key(o: Option<Vec<u8>>) -> SortKey {
    match o {
        Some(v) => sort_key_of(v@),
        None => SortKey::Uss,
    }
}

/// The top-N count the configuration resolves to.
pub open spec fn top_n_or_default(o: Option<usize>) -> usize {
    match o {
        Some(n) => n,
        None => 20,
    }
}

/// Resolves a configuration into the two immutable policies the pipeline
/// runs with: the kilobyte threshold becomes a byte threshold (saturating),
/// absent name lists become empty ones, the sort-key name is parsed with
/// its `uss` fallback, and the top-N count defaults to 20.
pub fn resolve_policies(cfg: Config) -> (r: (FilterPolicy, RankingPolicy))
    ensures
        r.0.min_unique_bytes == sat_u64(min_kb_or_zero(cfg.min_uss_kb) * 1024),
        r.0.include_patterns@ == patterns_or_empty(cfg.include_names),
        r.0.exclude_patterns@ == patterns_or_empty(cfg.exclude_names),
        r.1.sort_key == configured_sort_key(cfg.top_sort),
        r.1.top_n == top_n_or_default(cfg.top_n_processes),
{
    let Config {
        listen_addr: _,
        min_uss_kb,
        top_sort,
        top_n_processes,
        include_names,
        exclude_names,
        parallelism: _,
        max_processes: _,
    } = cfg;
    let kb: u64 = match min_uss_kb {
        Some(v) => v,
        None => 0,
    };
    let min_unique_bytes: u64 = if kb > u64::MAX / 1024 {
        u64::MAX
    } else {
        kb * 1024
    };
    let include_patterns: Vec<Vec<u8>> = match include_names {
        Some(v) => v,
        None => {
            let v: Vec<Vec<u8>> = Vec::new();
            proof {
                assert(v@ =~= Seq::<Vec<u8>>::empty());
            }
            v
        },
    };
    let exclude_patterns: Vec<Vec<u8>> = match exclude_names {
        Some(v) => v,
        None => {
            let v: Vec<Vec<u8>> = Vec::new();
            proof {
                assert(v@ =~= Seq::<Vec<u8>>::empty());
            }
            v
        },
    };
    let sort_key = match &top_sort {
        Some(v) => parse_sort_key(v),
        None => SortKey::Uss,
    };
    let top_n: usize = match top_n_processes {
        Some(n) => n,
        None => 20,
    };
    (FilterPolicy { include_patterns, exclude_patterns, min_unique_bytes }, RankingPolicy {
        sort_key,
        top_n,
    })
}

} // verus!
