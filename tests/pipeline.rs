use container_stats::backend::{
    get_process_average_cpu, get_process_memory_bytes, select_memory_backend, ConfigError,
    CpuTicks, MemoryBackend, MemoryReading, ProcessError,
};
use container_stats::pattern::{filter, NamePattern};
use container_stats::pipeline::{
    group, grouping_key, sort_by_memory, total_memory, transform, ContainerGroup, Report,
    TransformOptions,
};
use container_stats::stats::{
    collect, container_stats, parse_pid, parse_pids, tally_processes, ContainerSample, ContainerStats, ProcessSample,
};

fn rec(name: &str, mem: u64) -> ContainerStats {
    ContainerStats {
        id: format!("id-{}", name),
        name: name.to_string(),
        memory_bytes: mem,
        cpu_milli_percent: mem * 10,
    }
}

fn three() -> Vec<ContainerStats> {
    vec![rec("app-1", 100), rec("app-2", 50), rec("db-1", 200)]
}

fn names(v: &[ContainerStats]) -> Vec<String> {
    v.iter().map(|s| s.name.clone()).collect()
}

fn fixes(v: &[ContainerGroup]) -> Vec<(String, u64, u64)> {
    v.iter().map(|g| (g.fix.clone(), g.memory_bytes, g.containers)).collect()
}

fn opts(total: bool, prefix: bool, suffix: bool, sort: bool) -> TransformOptions {
    TransformOptions {
        total,
        group_by_prefix: prefix,
        group_by_suffix: suffix,
        delimiter: '-',
        sort,
    }
}

fn ok_sample(mem: u64, cpu: u64) -> ProcessSample {
    ProcessSample { memory: Ok(mem), cpu: Ok(cpu) }
}

#[test]
fn group_by_prefix_first_seen_order() {
    let gs = group(&three(), '-', true);
    assert_eq!(
        fixes(&gs),
        vec![("app".to_string(), 150, 2), ("db".to_string(), 200, 1)]
    );
    assert_eq!(gs[0].cpu_milli_percent, 1500);
}

#[test]
fn group_by_prefix_then_sort() {
    let r = transform(three(), None, opts(false, true, false, true)).unwrap();
    match r {
        Report::Groups(gs) => assert_eq!(
            fixes(&gs),
            vec![("db".to_string(), 200, 1), ("app".to_string(), 150, 2)]
        ),
        _ => panic!("expected groups"),
    }
}

#[test]
fn regex_filter_then_total() {
    let p = NamePattern::new("^app").unwrap();
    let kept = filter(three(), &p).unwrap();
    assert_eq!(names(&kept), vec!["app-1".to_string(), "app-2".to_string()]);
    assert_eq!(total_memory(&kept), 150);
    let r = transform(three(), Some(&p), opts(true, false, false, false)).unwrap();
    assert!(matches!(r, Report::Total(150)));
}

#[test]
fn vsz_without_counters_is_configuration_error() {
    assert_eq!(select_memory_backend("vsz", false), Err(ConfigError::UnsupportedBackend));
    assert_eq!(select_memory_backend("rss", false), Err(ConfigError::UnsupportedBackend));
    assert_eq!(select_memory_backend("vsz", true), Ok(MemoryBackend::Vsz));
    assert_eq!(select_memory_backend("procmaps", false), Ok(MemoryBackend::ProcMaps));
    assert_eq!(select_memory_backend("rss", true), Ok(MemoryBackend::Rss));
    assert_eq!(select_memory_backend("pss", true), Err(ConfigError::UnknownBackend));
    assert_eq!(select_memory_backend("", true), Err(ConfigError::UnknownBackend));
}

#[test]
fn collect_keeps_length_and_order() {
    let cs = vec![
        ContainerSample {
            id: "c1".to_string(),
            names: vec!["/web".to_string(), "/frontend".to_string()],
            processes: vec![ok_sample(10, 1), ok_sample(20, 2)],
        },
        ContainerSample {
            id: "c2".to_string(),
            names: vec!["/db".to_string()],
            processes: vec![ok_sample(5, 7)],
        },
        ContainerSample { id: "c3".to_string(), names: vec![], processes: vec![] },
    ];
    let out = collect(&cs);
    assert_eq!(out.len(), 3);
    assert_eq!(out[0].id, "c1");
    assert_eq!(out[0].name, "/web, /frontend");
    assert_eq!(out[0].memory_bytes, 30);
    assert_eq!(out[0].cpu_milli_percent, 3);
    assert_eq!(out[1].id, "c2");
    assert_eq!(out[1].name, "/db");
    assert_eq!(out[1].memory_bytes, 5);
    assert_eq!(out[2].id, "c3");
    assert_eq!(out[2].name, "");
    assert_eq!(out[2].memory_bytes, 0);
}

#[test]
fn failed_process_is_left_out() {
    let ps = vec![
        ok_sample(100, 10),
        ProcessSample { memory: Err(ProcessError::Unavailable), cpu: Ok(4) },
        ProcessSample { memory: Ok(7), cpu: Err(ProcessError::EmptyCpuWindow) },
    ];
    let t = tally_processes(&ps);
    assert_eq!(t.memory_bytes, 107);
    assert_eq!(t.cpu_milli_percent, 14);
    assert_eq!(t.failures, 2);
    let c = ContainerSample { id: "x".to_string(), names: vec!["/x".to_string()], processes: ps };
    let s = container_stats(&c);
    assert_eq!(s.memory_bytes, 107);
    assert_eq!(s.cpu_milli_percent, 14);
}

#[test]
fn sums_saturate() {
    let ps = vec![ok_sample(u64::MAX, 1), ok_sample(5, u64::MAX)];
    let t = tally_processes(&ps);
    assert_eq!(t.memory_bytes, u64::MAX);
    assert_eq!(t.cpu_milli_percent, u64::MAX);
    assert_eq!(total_memory(&vec![rec("a", u64::MAX), rec("b", 1)]), u64::MAX);
}

#[test]
fn grouping_partitions_records() {
    let v = vec![rec("a-1", 1), rec("b-1", 2), rec("a-2", 4), rec("c", 8), rec("b-2", 16)];
    let gs = group(&v, '-', true);
    assert_eq!(
        fixes(&gs),
        vec![
            ("a".to_string(), 5, 2),
            ("b".to_string(), 18, 2),
            ("c".to_string(), 8, 1)
        ]
    );
    let members: u64 = gs.iter().map(|g| g.containers).sum();
    assert_eq!(members, 5);
}

#[test]
fn group_by_suffix() {
    let v = vec![rec("web-prod", 1), rec("db-prod", 2), rec("web-dev", 4)];
    let gs = group(&v, '-', false);
    assert_eq!(
        fixes(&gs),
        vec![("prod".to_string(), 3, 2), ("dev".to_string(), 4, 1)]
    );
}

#[test]
fn prefix_wins_over_suffix() {
    let r = transform(three(), None, opts(false, true, true, false)).unwrap();
    match r {
        Report::Groups(gs) => assert_eq!(gs[0].fix, "app"),
        _ => panic!("expected groups"),
    }
}

#[test]
fn pattern_matching_nothing_yields_empty() {
    let p = NamePattern::new("^zzz").unwrap();
    assert!(filter(three(), &p).unwrap().is_empty());
    let r = transform(three(), Some(&p), opts(false, true, false, true)).unwrap();
    match r {
        Report::Groups(gs) => assert!(gs.is_empty()),
        _ => panic!("expected groups"),
    }
    assert!(group(&vec![], '-', true).is_empty());
}

#[test]
fn filter_is_unanchored_and_case_sensitive() {
    let p = NamePattern::new("pp-").unwrap();
    assert_eq!(names(&filter(three(), &p).unwrap()), vec!["app-1".to_string(), "app-2".to_string()]);
    let q = NamePattern::new("APP").unwrap();
    assert!(filter(three(), &q).unwrap().is_empty());
    let i = NamePattern::new("(?i)APP").unwrap();
    assert_eq!(filter(three(), &i).unwrap().len(), 2);
}

#[test]
fn invalid_pattern_is_rejected() {
    assert!(matches!(NamePattern::new("("), Err(ConfigError::InvalidPattern)));
}

#[test]
fn sort_is_stable_and_descending() {
    let v = vec![rec("a", 5), rec("b", 9), rec("c", 5), rec("d", 1), rec("e", 9)];
    let s = sort_by_memory(v);
    assert_eq!(
        names(&s),
        vec!["b", "e", "a", "c", "d"].into_iter().map(String::from).collect::<Vec<_>>()
    );
    assert!(sort_by_memory(Vec::<ContainerStats>::new()).is_empty());
}

#[test]
fn records_sorted_without_grouping() {
    let r = transform(three(), None, opts(false, false, false, true)).unwrap();
    match r {
        Report::Records(v) => assert_eq!(
            names(&v),
            vec!["db-1".to_string(), "app-1".to_string(), "app-2".to_string()]
        ),
        _ => panic!("expected records"),
    }
    let r = transform(three(), None, opts(false, false, false, false)).unwrap();
    match r {
        Report::Records(v) => assert_eq!(names(&v), names(&three())),
        _ => panic!("expected records"),
    }
}

#[test]
fn total_bypasses_grouping_and_sorting() {
    let r = transform(three(), None, opts(true, true, true, true)).unwrap();
    assert!(matches!(r, Report::Total(350)));
}

#[test]
fn grouping_keys() {
    assert_eq!(grouping_key("app-1", '-', true), "app");
    assert_eq!(grouping_key("app-1", '-', false), "1");
    assert_eq!(grouping_key("a-b-c", '-', true), "a");
    assert_eq!(grouping_key("a-b-c", '-', false), "c");
    assert_eq!(grouping_key("plain", '-', true), "plain");
    assert_eq!(grouping_key("plain", '-', false), "plain");
    assert_eq!(grouping_key("-lead", '-', true), "");
    assert_eq!(grouping_key("trail-", '-', false), "");
    assert_eq!(grouping_key("/a_b", '_', true), "/a");
}

#[test]
fn memory_backends() {
    let regions = MemoryReading::Regions(vec![4096, 8192, 100]);
    assert_eq!(get_process_memory_bytes(MemoryBackend::ProcMaps, &regions), Ok(12388));
    let counters = MemoryReading::Counters { rss_bytes: 300, virtual_size: 9000 };
    assert_eq!(get_process_memory_bytes(MemoryBackend::Rss, &counters), Ok(300));
    assert_eq!(get_process_memory_bytes(MemoryBackend::Vsz, &counters), Ok(9000));
    assert_eq!(
        get_process_memory_bytes(MemoryBackend::ProcMaps, &counters),
        Err(ProcessError::ReadingMismatch)
    );
    assert_eq!(
        get_process_memory_bytes(MemoryBackend::Rss, &regions),
        Err(ProcessError::ReadingMismatch)
    );
    let empty = MemoryReading::Regions(vec![]);
    assert_eq!(get_process_memory_bytes(MemoryBackend::ProcMaps, &empty), Ok(0));
    let huge = MemoryReading::Regions(vec![u64::MAX, 1]);
    assert_eq!(get_process_memory_bytes(MemoryBackend::ProcMaps, &huge), Ok(u64::MAX));
}

#[test]
fn average_cpu() {
    let t = CpuTicks { user: 100, system: 50, children_user: 25, children_system: 25 };
    // 200 ticks at 100 per second over 4 seconds: 50 percent.
    assert_eq!(get_process_average_cpu(t, 100, 4), Ok(50_000));
    // 1 tick at 100 per second over 3 seconds: 0.333 percent, rounded down.
    let one = CpuTicks { user: 1, system: 0, children_user: 0, children_system: 0 };
    assert_eq!(get_process_average_cpu(one, 100, 3), Ok(333));
    assert_eq!(get_process_average_cpu(t, 100, 0), Err(ProcessError::EmptyCpuWindow));
    assert_eq!(get_process_average_cpu(t, 100, -2), Err(ProcessError::EmptyCpuWindow));
    assert_eq!(get_process_average_cpu(t, 0, 4), Err(ProcessError::NoTickRate));
    let huge = CpuTicks {
        user: u64::MAX,
        system: u64::MAX,
        children_user: 0,
        children_system: 0,
    };
    assert_eq!(get_process_average_cpu(huge, 1, 1), Ok(u64::MAX));
}

#[test]
fn pids_from_process_listing() {
    assert_eq!(parse_pid("1234"), Some(1234));
    assert_eq!(parse_pid("0"), Some(0));
    assert_eq!(parse_pid("9223372036854775807"), Some(i64::MAX));
    assert_eq!(parse_pid("9223372036854775808"), None);
    assert_eq!(parse_pid(""), None);
    assert_eq!(parse_pid("12a"), None);
    assert_eq!(parse_pid("-5"), None);
    let listed = vec!["10".to_string(), "42".to_string()];
    assert_eq!(parse_pids(&listed), Some(vec![10, 42]));
    let bad = vec!["10".to_string(), "x".to_string()];
    assert_eq!(parse_pids(&bad), None);
    assert_eq!(parse_pids(&vec![]), Some(vec![]));
}
