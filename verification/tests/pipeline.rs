use smem_exporter::MemoryReading;
use smem_exporter::config::{is_valid_sort_key, parse_sort_key, resolve_policies, Config};
use smem_exporter::filter::{should_include_process, FilterPolicy};
use smem_exporter::rank::{rank, RankingPolicy, SortKey};
use smem_exporter::snapshot::{
    build_snapshot, complete_cycle, select_readings, Snapshot, SnapshotCache,
};

fn reading(pid: &str, name: &str, rss: u64, pss: u64, uss: u64) -> MemoryReading {
    MemoryReading {
        pid: pid.as_bytes().to_vec(),
        name: name.as_bytes().to_vec(),
        rss,
        pss,
        uss,
    }
}

fn patterns(ps: &[&str]) -> Vec<Vec<u8>> {
    ps.iter().map(|p| p.as_bytes().to_vec()).collect()
}

fn open_policy() -> FilterPolicy {
    FilterPolicy {
        include_patterns: Vec::new(),
        exclude_patterns: Vec::new(),
        min_unique_bytes: 0,
    }
}

fn uss_values(rs: &[MemoryReading]) -> Vec<u64> {
    rs.iter().map(|r| r.uss).collect()
}

fn pids(rs: &[MemoryReading]) -> Vec<Vec<u8>> {
    rs.iter().map(|r| r.pid.clone()).collect()
}

#[test]
fn scenario_top_three_by_uss() {
    let candidates = vec![
        reading("1", "a", 0, 0, 10),
        reading("2", "b", 0, 0, 50),
        reading("3", "c", 0, 0, 30),
        reading("4", "d", 0, 0, 20),
        reading("5", "e", 0, 0, 40),
    ];
    let rp = RankingPolicy { sort_key: SortKey::Uss, top_n: 3 };
    let result = select_readings(candidates, &open_policy(), &rp);
    assert_eq!(uss_values(&result), vec![50, 40, 30]);
}

#[test]
fn rank_length_is_min_of_size_and_top_n() {
    let rs = vec![reading("1", "a", 1, 1, 1), reading("2", "b", 2, 2, 2)];
    let out = rank(rs, SortKey::Uss, 5);
    assert_eq!(out.len(), 2);

    let rs = vec![
        reading("1", "a", 1, 1, 1),
        reading("2", "b", 2, 2, 2),
        reading("3", "c", 3, 3, 3),
    ];
    let out = rank(rs, SortKey::Uss, 2);
    assert_eq!(out.len(), 2);
    assert_eq!(uss_values(&out), vec![3, 2]);
}

#[test]
fn rank_is_stable_on_ties() {
    let rs = vec![
        reading("10", "a", 0, 0, 7),
        reading("11", "b", 0, 0, 9),
        reading("12", "c", 0, 0, 7),
        reading("13", "d", 0, 0, 7),
    ];
    let out = rank(rs, SortKey::Uss, 10);
    assert_eq!(pids(&out), patterns(&["11", "10", "12", "13"]));
}

#[test]
fn rank_by_each_key() {
    let rs = vec![reading("1", "a", 5, 9, 1), reading("2", "b", 9, 1, 5)];
    assert_eq!(pids(&rank(rs.clone(), SortKey::Rss, 9)), patterns(&["2", "1"]));
    assert_eq!(pids(&rank(rs.clone(), SortKey::Pss, 9)), patterns(&["1", "2"]));
    assert_eq!(pids(&rank(rs, SortKey::Uss, 9)), patterns(&["2", "1"]));
}

#[test]
fn exclude_wins_over_include() {
    let policy = FilterPolicy {
        include_patterns: patterns(&["serv"]),
        exclude_patterns: patterns(&["journal"]),
        min_unique_bytes: 0,
    };
    assert!(should_include_process(&b"webserver".to_vec(), &policy));
    assert!(!should_include_process(&b"journal-server".to_vec(), &policy));
    assert!(!should_include_process(&b"unrelated".to_vec(), &policy));
}

#[test]
fn empty_include_list_accepts_every_name() {
    let policy = FilterPolicy {
        include_patterns: Vec::new(),
        exclude_patterns: patterns(&["bad"]),
        min_unique_bytes: 0,
    };
    assert!(should_include_process(&b"anything".to_vec(), &policy));
    assert!(!should_include_process(&b"badger".to_vec(), &policy));
}

#[test]
fn published_readings_obey_the_filter() {
    let candidates = vec![
        reading("1", "keepme", 0, 0, 100),
        reading("2", "dropme", 0, 0, 900),
        reading("3", "keeper", 0, 0, 50),
    ];
    let fp = FilterPolicy {
        include_patterns: patterns(&["keep"]),
        exclude_patterns: patterns(&["drop"]),
        min_unique_bytes: 60,
    };
    let rp = RankingPolicy { sort_key: SortKey::Uss, top_n: 10 };
    let result = select_readings(candidates, &fp, &rp);
    assert_eq!(pids(&result), patterns(&["1"]));
}

#[test]
fn threshold_zero_accepts_all_and_bound_is_inclusive() {
    let rp = RankingPolicy { sort_key: SortKey::Uss, top_n: 10 };

    let mut fp = open_policy();
    let candidates = vec![reading("1", "a", 0, 0, 0), reading("2", "b", 0, 0, 1)];
    let result = select_readings(candidates, &fp, &rp);
    assert_eq!(result.len(), 2);

    fp.min_unique_bytes = 4096;
    let candidates = vec![
        reading("1", "exactly", 0, 0, 4096),
        reading("2", "below", 0, 0, 4095),
    ];
    let result = select_readings(candidates, &fp, &rp);
    assert_eq!(pids(&result), patterns(&["1"]));
}

#[test]
fn republish_same_scan_is_identical_but_bookkeeping() {
    let mk = || {
        vec![
            reading("1", "a", 3, 2, 1),
            reading("2", "b", 1, 2, 3),
            reading("3", "c", 2, 2, 2),
        ]
    };
    let fp = open_policy();
    let rp = RankingPolicy { sort_key: SortKey::Uss, top_n: 2 };
    let s1 = build_snapshot(mk(), &fp, &rp, 1000, 17);
    let s2 = build_snapshot(mk(), &fp, &rp, 2000, 23);
    assert_eq!(pids(&s1.readings), pids(&s2.readings));
    assert_eq!(uss_values(&s1.readings), uss_values(&s2.readings));
    assert_eq!(s1.success, s2.success);
    assert_ne!(s1.captured_at_micros, s2.captured_at_micros);
    assert_ne!(s1.scan_duration_micros, s2.scan_duration_micros);
}

#[test]
fn fresh_cache_serves_empty_unsuccessful_snapshot() {
    let cache = SnapshotCache::new();
    let cur = cache.current();
    assert_eq!(cur.readings.len(), 0);
    assert!(!cur.success);
}

#[test]
fn failed_cycle_keeps_prior_readings() {
    let mut cache = SnapshotCache::new();
    let fp = open_policy();
    let rp = RankingPolicy { sort_key: SortKey::Uss, top_n: 10 };
    let candidates = vec![reading("7", "srv", 1, 2, 3)];
    cache.publish(build_snapshot(candidates, &fp, &rp, 500, 10));
    assert!(cache.current().success);

    cache.record_failure(900, 42);
    let cur = cache.current();
    assert_eq!(pids(&cur.readings), patterns(&["7"]));
    assert!(!cur.success);
    assert_eq!(cur.captured_at_micros, 900);
    assert_eq!(cur.scan_duration_micros, 42);
}

#[test]
fn failed_enumeration_with_no_prior_snapshot_serves_empty_failure() {
    let mut cache = SnapshotCache::new();
    let fp = open_policy();
    let rp = RankingPolicy { sort_key: SortKey::Uss, top_n: 10 };
    let published = complete_cycle(&mut cache, None, &fp, &rp, 100, 3);
    assert!(!published);
    let cur = cache.current();
    assert_eq!(cur.readings.len(), 0);
    assert!(!cur.success);
    assert_eq!(cur.captured_at_micros, 100);
    assert_eq!(cur.scan_duration_micros, 3);
}

#[test]
fn failed_enumeration_keeps_prior_snapshot_published() {
    let mut cache = SnapshotCache::new();
    let fp = open_policy();
    let rp = RankingPolicy { sort_key: SortKey::Uss, top_n: 10 };
    let candidates = vec![reading("42", "daemon", 1, 2, 3)];
    assert!(complete_cycle(&mut cache, Some(candidates), &fp, &rp, 100, 3));
    assert!(cache.current().success);

    assert!(!complete_cycle(&mut cache, None, &fp, &rp, 200, 4));
    let cur = cache.current();
    assert_eq!(pids(&cur.readings), patterns(&["42"]));
    assert!(!cur.success);
    assert_eq!(cur.captured_at_micros, 200);

    assert!(!complete_cycle(&mut cache, Some(Vec::new()), &fp, &rp, 300, 5));
    let cur = cache.current();
    assert_eq!(pids(&cur.readings), patterns(&["42"]));
    assert!(!cur.success);
}

#[test]
fn publish_replaces_the_whole_snapshot() {
    let mut cache = SnapshotCache::new();
    let s = Snapshot {
        readings: vec![reading("1", "a", 1, 1, 1)],
        captured_at_micros: 5,
        scan_duration_micros: 6,
        success: true,
    };
    cache.publish(s);
    let cur = cache.current();
    assert_eq!(cur.readings.len(), 1);
    assert_eq!(cur.captured_at_micros, 5);
    assert_eq!(cur.scan_duration_micros, 6);
    assert!(cur.success);
}

#[test]
fn snapshot_lookup_by_pid() {
    let fp = open_policy();
    let rp = RankingPolicy { sort_key: SortKey::Uss, top_n: 10 };
    let candidates = vec![reading("8", "a", 1, 1, 1), reading("9", "b", 2, 2, 2)];
    let s = build_snapshot(candidates, &fp, &rp, 0, 0);
    let found = s.reading_for(&b"8".to_vec()).expect("pid 8 is published");
    assert_eq!(found.name, b"a".to_vec());
    assert!(s.reading_for(&b"12".to_vec()).is_none());
}

#[test]
fn default_config_values() {
    let c = Config::default();
    assert_eq!(c.listen_addr, Some(b"0.0.0.0:9215".to_vec()));
    assert_eq!(c.min_uss_kb, Some(0));
    assert_eq!(c.top_sort, Some(b"uss".to_vec()));
    assert_eq!(c.top_n_processes, Some(20));
    assert!(c.include_names.is_none());
    assert!(c.exclude_names.is_none());
    assert!(c.parallelism.is_none());
    assert!(c.max_processes.is_none());
}

#[test]
fn sort_key_parsing_and_fallback() {
    assert_eq!(parse_sort_key(&b"rss".to_vec()), SortKey::Rss);
    assert_eq!(parse_sort_key(&b"pss".to_vec()), SortKey::Pss);
    assert_eq!(parse_sort_key(&b"uss".to_vec()), SortKey::Uss);
    assert_eq!(parse_sort_key(&b"bogus".to_vec()), SortKey::Uss);
    assert!(is_valid_sort_key(&b"rss".to_vec()));
    assert!(is_valid_sort_key(&b"pss".to_vec()));
    assert!(is_valid_sort_key(&b"uss".to_vec()));
    assert!(!is_valid_sort_key(&b"bogus".to_vec()));
}

#[test]
fn resolve_policies_applies_defaults_and_units() {
    let mut cfg = Config::default();
    cfg.min_uss_kb = Some(5);
    cfg.top_sort = Some(b"rss".to_vec());
    cfg.top_n_processes = None;
    cfg.include_names = Some(patterns(&["web"]));
    let (fp, rp) = resolve_policies(cfg);
    assert_eq!(fp.min_unique_bytes, 5 * 1024);
    assert_eq!(fp.include_patterns, patterns(&["web"]));
    assert_eq!(fp.exclude_patterns.len(), 0);
    assert_eq!(rp.sort_key, SortKey::Rss);
    assert_eq!(rp.top_n, 20);
}

#[test]
fn resolve_policies_saturates_huge_thresholds() {
    let mut cfg = Config::default();
    cfg.min_uss_kb = Some(u64::MAX);
    let (fp, _) = resolve_policies(cfg);
    assert_eq!(fp.min_unique_bytes, u64::MAX);
}
