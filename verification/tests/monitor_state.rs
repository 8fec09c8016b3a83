use iscsimon::app::{distinct_peers, App};
use iscsimon::iscsi::{AttrFile, Backing, Collector, Lun, LunDir, Session, TpgtDir};
use iscsimon::net::TcpConnection;
use iscsimon::rates::{RateCache, RateSample};
use iscsimon::table::{column_is_sortable, filter_sessions, session_precedes, sort_sessions};

fn lun(index: u32, device: &str) -> Lun {
    Lun { index, device: device.to_string(), read_mb: 0, write_mb: 0 }
}

fn session(target: &str, initiator: &str, device: &str, rate: f64, total_read: u64) -> Session {
    Session {
        target_iqn: target.to_string(),
        initiator_iqn: initiator.to_string(),
        luns: vec![lun(0, device)],
        read_rate_bits: rate.to_bits(),
        write_rate_bits: 0f64.to_bits(),
        total_read_mb: total_read,
        total_write_mb: 0,
    }
}

fn sample_sessions() -> Vec<Session> {
    vec![
        session("iqn.t:beta", "iqn.i:host1", "/dev/zvol/pool/B", 2048.0, 30),
        session("iqn.t:alpha", "iqn.i:host2", "/dev/sdb", 0.5, 10),
        session("iqn.t:gamma", "iqn.i:HOST1", "/dev/zvol/pool/a", 1e9, 20),
    ]
}

fn targets(sessions: &[Session]) -> Vec<String> {
    sessions.iter().map(|s| s.target_iqn.clone()).collect()
}

fn conn(peer: &str) -> TcpConnection {
    TcpConnection { peer_addr: peer.to_string(), peer_port: Some(51234), bytes_sent: 0, bytes_received: 0 }
}

#[test]
fn rate_cache_first_then_deltas() {
    let mut cache = RateCache::new();
    let t = "iqn.t:a".to_string();
    let i = "iqn.i:b".to_string();
    assert_eq!(cache.observe(&t, &i, 10, 20, 1_000), RateSample::First);
    assert_eq!(
        cache.observe(&t, &i, 15, 18, 3_000),
        RateSample::Since { read_mb: 5, write_mb: 0, elapsed_ns: 2_000 }
    );
    assert_eq!(
        cache.observe(&t, &i, 15, 18, 2_000),
        RateSample::Since { read_mb: 0, write_mb: 0, elapsed_ns: 0 }
    );
    let other = "iqn.i:c".to_string();
    assert_eq!(cache.observe(&t, &other, 1, 1, 4_000), RateSample::First);
}

fn tpgt(target: &str, name: &str, sessions: &[u8], luns: Vec<LunDir>) -> TpgtDir {
    TpgtDir {
        target_iqn: target.to_string(),
        tpgt_name: name.to_string(),
        dynamic_sessions: sessions.to_vec(),
        luns,
    }
}

fn lun_dir(name: &str, dev: &str, read: &str, write: &str) -> LunDir {
    LunDir {
        name: name.to_string(),
        backing: Backing::Store {
            udev_path: AttrFile::Text(dev.to_string()),
            fd_dev_name: AttrFile::Absent,
            dir_name: None,
        },
        read_mbytes: Some(read.to_string()),
        write_mbytes: Some(write.to_string()),
    }
}

#[test]
fn collector_builds_sorted_sessions_with_rates() {
    let mut collector = Collector::new();
    let snapshot = |r: &str| {
        vec![
            tpgt("iqn.t:zeta", "tpgt_1", b"iqn.i:a\n", vec![lun_dir("lun_1", "/dev/b", r, "1"), lun_dir("lun_0", "/dev/a", "1", "2")]),
            tpgt("lio_version", "tpgt_1", b"iqn.i:x\n", vec![]),
            tpgt("iqn.t:alpha", "tpgt_1", b"\n", vec![]),
            tpgt("iqn.t:alpha", "tpgt_2", b"iqn.i:b\niqn.i:c\n", vec![]),
            tpgt("iqn.t:alpha", "acls", b"iqn.i:d\n", vec![]),
        ]
    };
    let first = collector.collect(&snapshot("10"), 1_000);
    assert_eq!(first.len(), 2);
    assert_eq!(first[0].target_iqn, "iqn.t:alpha");
    assert_eq!(first[0].initiator_iqn, "iqn.i:b, iqn.i:c");
    assert_eq!(first[0].sample, RateSample::First);
    assert_eq!(first[1].target_iqn, "iqn.t:zeta");
    assert_eq!(first[1].initiator_iqn, "iqn.i:a");
    assert_eq!(first[1].luns[0].device, "/dev/a");
    assert_eq!(first[1].luns[1].device, "/dev/b");
    assert_eq!(first[1].total_read_mb, 11);
    assert_eq!(first[1].total_write_mb, 3);
    let second = collector.collect(&snapshot("14"), 5_000);
    assert_eq!(second[1].sample, RateSample::Since { read_mb: 4, write_mb: 0, elapsed_ns: 4_000 });
    assert_eq!(second[0].sample, RateSample::Since { read_mb: 0, write_mb: 0, elapsed_ns: 4_000 });
}

#[test]
fn sorting_each_column_is_stable() {
    let mut s = sample_sessions();
    sort_sessions(&mut s, 0, true);
    assert_eq!(targets(&s), vec!["iqn.t:alpha", "iqn.t:beta", "iqn.t:gamma"]);
    sort_sessions(&mut s, 0, false);
    assert_eq!(targets(&s), vec!["iqn.t:gamma", "iqn.t:beta", "iqn.t:alpha"]);
    let mut s = sample_sessions();
    sort_sessions(&mut s, 2, true);
    assert_eq!(targets(&s), vec!["iqn.t:alpha", "iqn.t:beta", "iqn.t:gamma"]);
    let mut s = sample_sessions();
    sort_sessions(&mut s, 3, false);
    assert_eq!(targets(&s), vec!["iqn.t:gamma", "iqn.t:beta", "iqn.t:alpha"]);
    let mut s = sample_sessions();
    sort_sessions(&mut s, 5, true);
    assert_eq!(targets(&s), vec!["iqn.t:alpha", "iqn.t:gamma", "iqn.t:beta"]);
    let mut s = sample_sessions();
    sort_sessions(&mut s, 6, false);
    assert_eq!(targets(&s), vec!["iqn.t:beta", "iqn.t:alpha", "iqn.t:gamma"]);
    let mut s = sample_sessions();
    sort_sessions(&mut s, 9, true);
    assert_eq!(targets(&s), vec!["iqn.t:beta", "iqn.t:alpha", "iqn.t:gamma"]);
}

#[test]
fn filter_is_case_insensitive_over_names_and_devices() {
    let all = sample_sessions();
    assert_eq!(targets(&filter_sessions(&all, &"HOST1".to_string())), vec!["iqn.t:beta", "iqn.t:gamma"]);
    assert_eq!(targets(&filter_sessions(&all, &"POOL/".to_string())), vec!["iqn.t:beta", "iqn.t:gamma"]);
    assert_eq!(targets(&filter_sessions(&all, &"pool/a".to_string())), vec!["iqn.t:gamma"]);
    assert_eq!(targets(&filter_sessions(&all, &"sdb".to_string())), vec!["iqn.t:alpha"]);
    assert_eq!(filter_sessions(&all, &"".to_string()).len(), 3);
    assert_eq!(filter_sessions(&all, &"nothing".to_string()).len(), 0);
}

#[test]
fn distinct_peers_sorted_once() {
    let conns = vec![conn("10.0.0.3"), conn("10.0.0.2"), conn("10.0.0.3"), conn("10.0.0.10")];
    assert_eq!(distinct_peers(&conns), vec!["10.0.0.10", "10.0.0.2", "10.0.0.3"]);
}

fn refreshed_app() -> App {
    let mut app = App::new();
    app.refresh(Ok(sample_sessions()), Some(vec![conn("10.0.0.2")]), vec![]);
    app
}

#[test]
fn new_app_is_empty() {
    let app = App::new();
    assert!(app.sessions.is_empty());
    assert_eq!(app.selected, None);
    assert!(app.sort_asc);
    assert_eq!(app.sort_col, 0);
    assert!(!app.show_help);
}

#[test]
fn refresh_filters_sorts_and_selects_first() {
    let app = refreshed_app();
    assert_eq!(targets(&app.sessions), vec!["iqn.t:alpha", "iqn.t:beta", "iqn.t:gamma"]);
    assert_eq!(app.selected, Some(0));
    assert_eq!(app.error, None);
    assert_eq!(app.source_ips, vec!["10.0.0.2"]);
}

#[test]
fn refresh_error_keeps_sessions() {
    let mut app = refreshed_app();
    app.refresh(Err("reading /x".to_string()), None, vec![]);
    assert_eq!(app.error, Some("reading /x".to_string()));
    assert_eq!(app.sessions.len(), 3);
    assert_eq!(app.source_ips, vec!["10.0.0.2"]);
}

#[test]
fn hostname_only_when_single() {
    let mut app = App::new();
    let ips = vec!["10.0.0.2".to_string(), "10.0.0.3".to_string()];
    assert_eq!(app.unresolved(&ips), ips);
    app.refresh(
        Ok(vec![]),
        Some(vec![conn("10.0.0.3"), conn("10.0.0.2")]),
        vec![("10.0.0.2".to_string(), "mill".to_string()), ("10.0.0.3".to_string(), "mill".to_string())],
    );
    assert_eq!(app.initiator_hostname, Some("mill".to_string()));
    assert_eq!(app.unresolved(&ips), Vec::<String>::new());
    app.refresh(
        Ok(vec![]),
        Some(vec![conn("10.0.0.4"), conn("10.0.0.2")]),
        vec![("10.0.0.4".to_string(), "other".to_string()), ("10.0.0.2".to_string(), "ignored".to_string())],
    );
    assert_eq!(app.initiator_hostname, None);
    app.refresh(Ok(vec![]), Some(vec![conn("10.0.0.9")]), vec![]);
    assert_eq!(app.initiator_hostname, None);
}

#[test]
fn selection_moves_within_bounds() {
    let mut app = refreshed_app();
    app.select_prev();
    assert_eq!(app.selected, Some(0));
    app.select_next();
    app.select_next();
    app.select_next();
    assert_eq!(app.selected, Some(2));
    app.select_first();
    assert_eq!(app.selected, Some(0));
    app.select_last();
    assert_eq!(app.selected, Some(2));
    let mut empty = App::new();
    empty.select_next();
    empty.select_last();
    assert_eq!(empty.selected, None);
}

#[test]
fn filter_edit_and_cancel_restores() {
    let mut app = refreshed_app();
    app.select_last();
    app.enter_filter_mode();
    assert!(app.filter_mode);
    app.filter_push_char('h');
    app.filter_push_char('o');
    app.filter_push_char('s');
    app.filter_push_char('t');
    app.filter_push_char('1');
    assert_eq!(targets(&app.sessions), vec!["iqn.t:beta", "iqn.t:gamma"]);
    assert_eq!(app.selected, Some(1));
    app.filter_push_char('z');
    assert!(app.sessions.is_empty());
    assert_eq!(app.selected, None);
    app.filter_backspace();
    assert_eq!(app.filter, "host1");
    assert_eq!(app.selected, Some(0));
    app.cancel_filter();
    assert!(!app.filter_mode);
    assert_eq!(app.filter, "");
    assert_eq!(app.sessions.len(), 3);
    app.enter_filter_mode();
    app.filter_push_char('a');
    app.confirm_filter();
    assert!(!app.filter_mode);
    assert_eq!(app.filter, "a");
}

#[test]
fn set_sort_toggles_direction() {
    let mut app = refreshed_app();
    app.set_sort(0);
    assert!(!app.sort_asc);
    assert_eq!(targets(&app.sessions), vec!["iqn.t:gamma", "iqn.t:beta", "iqn.t:alpha"]);
    app.set_sort(0);
    assert!(app.sort_asc);
    app.set_sort(5);
    assert_eq!(app.sort_col, 5);
    assert!(app.sort_asc);
    assert_eq!(targets(&app.sessions), vec!["iqn.t:alpha", "iqn.t:gamma", "iqn.t:beta"]);
}

#[test]
fn column_cursor_and_help() {
    let mut app = App::new();
    app.col_prev();
    assert_eq!(app.selected_col, 0);
    for _ in 0..10 {
        app.col_next();
    }
    assert_eq!(app.selected_col, 6);
    app.col_prev();
    assert_eq!(app.selected_col, 5);
    app.toggle_help();
    assert!(app.show_help);
    app.toggle_help();
    assert!(!app.show_help);
}

#[test]
fn sorting_twice_keeps_order() {
    for col in 0..8usize {
        for asc in [true, false] {
            let mut once = sample_sessions();
            sort_sessions(&mut once, col, asc);
            let first = targets(&once);
            sort_sessions(&mut once, col, asc);
            assert_eq!(targets(&once), first);
        }
    }
}

#[test]
fn source_list_independent_of_connection_order() {
    let a = vec![conn("10.0.0.3"), conn("10.0.0.2"), conn("fe80::1"), conn("10.0.0.2")];
    let b = vec![conn("fe80::1"), conn("10.0.0.2"), conn("10.0.0.3")];
    assert_eq!(distinct_peers(&a), distinct_peers(&b));
    assert_eq!(distinct_peers(&b), vec!["10.0.0.2", "10.0.0.3", "fe80::1"]);
}

#[test]
fn session_totals_are_lun_sums() {
    let mut collector = Collector::new();
    let groups = vec![tpgt(
        "iqn.t:x",
        "tpgt_1",
        b"iqn.i:a\n",
        vec![
            lun_dir("lun_3", "/dev/c", "7", "70"),
            lun_dir("lun_1", "/dev/a", "5", "50"),
            lun_dir("lun_2", "/dev/b", "nope", "20"),
        ],
    )];
    let obs = collector.collect(&groups, 0);
    assert_eq!(obs.len(), 1);
    let read: u64 = obs[0].luns.iter().map(|l| l.read_mb).sum();
    let write: u64 = obs[0].luns.iter().map(|l| l.write_mb).sum();
    assert_eq!(obs[0].total_read_mb, read);
    assert_eq!(obs[0].total_write_mb, write);
    assert_eq!(read, 12);
    assert_eq!(write, 140);
}

#[test]
fn rates_compare_as_float_values() {
    let neg = session("iqn.t:a", "iqn.i:a", "/dev/a", -1.0, 0);
    let pos = session("iqn.t:b", "iqn.i:b", "/dev/b", 1.0, 0);
    let inf = session("iqn.t:c", "iqn.i:c", "/dev/c", f64::INFINITY, 0);
    let nan = session("iqn.t:d", "iqn.i:d", "/dev/d", f64::NAN, 0);
    let pz = session("iqn.t:e", "iqn.i:e", "/dev/e", 0.0, 0);
    let nz = session("iqn.t:f", "iqn.i:f", "/dev/f", -0.0, 0);
    assert!(session_precedes(&neg, &pos, 3, true));
    assert!(!session_precedes(&pos, &neg, 3, true));
    assert!(session_precedes(&pos, &neg, 3, false));
    assert!(session_precedes(&pos, &inf, 3, true));
    assert!(!session_precedes(&pz, &nz, 3, true));
    assert!(!session_precedes(&nz, &pz, 3, true));
    assert!(!session_precedes(&nan, &pos, 3, true));
    assert!(!session_precedes(&pos, &nan, 3, true));
    assert!(session_precedes(&neg, &pz, 3, true));
    assert!(session_precedes(&nz, &pos, 3, true));
}

#[test]
fn rate_sort_orders_by_value_and_keeps_equal_zeros() {
    let mut v = vec![
        session("iqn.t:one", "iqn.i:a", "/dev/a", 1.0, 0),
        session("iqn.t:pz", "iqn.i:a", "/dev/a", 0.0, 0),
        session("iqn.t:neg", "iqn.i:a", "/dev/a", -1.0, 0),
        session("iqn.t:nz", "iqn.i:a", "/dev/a", -0.0, 0),
    ];
    assert!(column_is_sortable(&v, 3));
    sort_sessions(&mut v, 3, true);
    assert_eq!(targets(&v), vec!["iqn.t:neg", "iqn.t:pz", "iqn.t:nz", "iqn.t:one"]);
    sort_sessions(&mut v, 3, false);
    assert_eq!(targets(&v), vec!["iqn.t:one", "iqn.t:pz", "iqn.t:nz", "iqn.t:neg"]);
}

#[test]
fn nan_rates_make_only_their_column_unsortable() {
    let v = vec![
        session("iqn.t:x", "iqn.i:a", "/dev/a", f64::NAN, 0),
        session("iqn.t:y", "iqn.i:a", "/dev/a", 1.0, 0),
    ];
    assert!(!column_is_sortable(&v, 3));
    assert!(column_is_sortable(&v, 4));
    assert!(column_is_sortable(&v, 0));
}

#[test]
fn first_collection_of_a_new_collector_has_no_rates() {
    let mut collector = Collector::new();
    let groups = vec![
        tpgt("iqn.t:b", "tpgt_1", b"iqn.i:x\n", vec![lun_dir("lun_0", "/dev/a", "5", "6")]),
        tpgt("iqn.t:a", "tpgt_1", b"iqn.i:y\n", vec![lun_dir("lun_0", "/dev/b", "7", "8")]),
        tpgt("iqn.t:a", "tpgt_2", b"iqn.i:z\n", vec![]),
    ];
    let obs = collector.collect(&groups, 42);
    assert_eq!(obs.len(), 3);
    assert!(obs.iter().all(|o| o.sample == RateSample::First));
}

#[test]
fn cancel_after_other_operations_restores_the_filter() {
    let mut app = refreshed_app();
    app.enter_filter_mode();
    app.filter_push_char('a');
    app.filter_push_char('l');
    app.set_sort(5);
    app.select_next();
    app.refresh(Ok(sample_sessions()), None, vec![]);
    app.cancel_filter();
    assert_eq!(app.filter, "");
    assert!(!app.filter_mode);
    assert_eq!(app.sessions.len(), 3);
    let totals: Vec<u64> = app.sessions.iter().map(|s| s.total_read_mb).collect();
    assert_eq!(totals, vec![10, 20, 30]);
}

#[test]
fn typing_into_the_filter_only_narrows_the_table() {
    let mut app = refreshed_app();
    app.enter_filter_mode();
    let mut before: Vec<String> = targets(&app.sessions);
    for c in "host1".chars() {
        app.filter_push_char(c);
        let now = targets(&app.sessions);
        assert!(now.iter().all(|t| before.contains(t)));
        before = now;
    }
    assert_eq!(before.len(), 2);
}

#[test]
fn try_collect_refuses_totals_that_overflow() {
    let big = u64::MAX.to_string();
    let groups = vec![tpgt(
        "iqn.t:a",
        "tpgt_1",
        b"iqn.i:x\n",
        vec![lun_dir("lun_0", "/dev/a", &big, "0"), lun_dir("lun_1", "/dev/b", "1", "0")],
    )];
    let mut collector = Collector::new();
    assert!(collector.try_collect(&groups, 1).is_none());
    let mut app = App::new();
    assert!(app.try_collect_sessions(&groups, 1).is_none());
    let fine = vec![tpgt("iqn.t:a", "tpgt_1", b"iqn.i:x\n", vec![lun_dir("lun_0", "/dev/a", "3", "4")])];
    let obs = collector.try_collect(&fine, 1).expect("totals fit");
    assert_eq!(obs.len(), 1);
    assert_eq!(obs[0].total_read_mb, 3);
    let obs = app.try_collect_sessions(&fine, 1).expect("totals fit");
    assert_eq!(obs[0].sample, RateSample::First);
}
