use asseteer::housekeeping::{
    drag_cache_is_stale, is_log_file, log_file_name, logs_to_remove, next_port_step, PortStep,
};

fn names(v: &[&str]) -> Vec<String> {
    v.iter().map(|s| s.to_string()).collect()
}

#[test]
fn few_logs_are_all_kept() {
    let dir = names(&[
        "clap-server-2024-01-01T10-00-00.log",
        "clap-server-2024-01-02T10-00-00.log",
        "notes.txt",
        "clap-server-2024-01-03T10-00-00.log",
        "clap-server-2024-01-04T10-00-00.log",
    ]);
    assert!(logs_to_remove(&dir).is_empty());
}

#[test]
fn oldest_logs_go_so_four_remain() {
    let dir = names(&[
        "clap-server-2024-01-05T10-00-00.log",
        "clap-server-2024-01-01T10-00-00.log",
        "readme.md",
        "clap-server-2024-01-03T10-00-00.log",
        "clap-server-2024-01-06T10-00-00.log",
        "clap-server-2024-01-02T10-00-00.log",
        "clap-server-2024-01-04T10-00-00.log",
        ".log",
        "archive.log.gz",
    ]);
    assert_eq!(
        logs_to_remove(&dir),
        names(&["clap-server-2024-01-01T10-00-00.log", "clap-server-2024-01-02T10-00-00.log"])
    );
}

#[test]
fn exactly_five_logs_lose_the_oldest() {
    let dir = names(&["e.log", "a.log", "d.log", "c.log", "b.log"]);
    assert_eq!(logs_to_remove(&dir), names(&["a.log"]));
}

#[test]
fn log_file_extension_is_exact() {
    assert!(is_log_file("clap-server-x.log"));
    assert!(is_log_file("a.b.log"));
    assert!(!is_log_file(".log"));
    assert!(!is_log_file("x.LOG"));
    assert!(!is_log_file("x.log.old"));
    assert!(!is_log_file("log"));
}

#[test]
fn server_log_names_are_log_files() {
    let name = log_file_name("2024-05-06T07-08-09");
    assert_eq!(name, "clap-server-2024-05-06T07-08-09.log");
    assert!(is_log_file(&name));
}

#[test]
fn port_search_takes_the_first_free_port() {
    assert!(matches!(next_port_step(&vec![]), PortStep::Probe(5555)));
    assert!(matches!(next_port_step(&vec![false]), PortStep::Use(5555)));
    assert!(matches!(next_port_step(&vec![true]), PortStep::Probe(5556)));
    assert!(matches!(next_port_step(&vec![true, false]), PortStep::Use(5556)));
    assert!(matches!(next_port_step(&vec![true, true]), PortStep::Probe(5557)));
    assert!(matches!(next_port_step(&vec![true, true, false]), PortStep::Use(5557)));
    assert!(matches!(next_port_step(&vec![true, true, true]), PortStep::Use(5555)));
}

#[test]
fn drag_cache_staleness() {
    let week = 7 * 24 * 60 * 60;
    assert!(drag_cache_is_stale(&vec![]));
    assert!(drag_cache_is_stale(&vec![(week + 1, 0), (week, 1)]));
    assert!(!drag_cache_is_stale(&vec![(week + 1, 0), (week, 0)]));
    assert!(!drag_cache_is_stale(&vec![(0, 0)]));
}
