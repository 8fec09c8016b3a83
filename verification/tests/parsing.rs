use iscsimon::iscsi::{
    collect_luns, counter, is_target_name, is_tpgt_name, lun_index, read_dynamic_sessions,
    resolve_lun_device, AttrFile, Backing, LunDir,
};
use iscsimon::net::{address_port, hostname_from_getent, parse_ss_output};

const SS_OUTPUT: &str = "State Recv-Q Send-Q Local Address:Port Peer Address:Port Process\n\
ESTAB 0      0      10.0.0.1:3260      10.0.0.2:51234\n\
\t cubic wscale:7,7 rto:204 rtt:0.5/0.25 mss:1448 bytes_sent:12345 bytes_received:67890 segs_out:10\n\
ESTAB 0      0      [::ffff:10.0.0.1]:3260   [2001:db8::1]:40000\n\
LISTEN 0     256    0.0.0.0:3260       0.0.0.0:*\n\
ESTAB 0 0 10.0.0.1:3260 10.0.0.9:1\r\n\
\x20bytes_sent:oops bytes_received:+7 bytes_received:8\r\n";

#[test]
fn ss_output_connections() {
    let conns = parse_ss_output(SS_OUTPUT.as_bytes());
    assert_eq!(conns.len(), 3);
    assert_eq!(conns[0].peer_addr, "10.0.0.2");
    assert_eq!(conns[0].peer_port, Some(51234));
    assert_eq!(conns[0].bytes_sent, 12345);
    assert_eq!(conns[0].bytes_received, 67890);
    assert_eq!(conns[1].peer_addr, "2001:db8::1");
    assert_eq!(conns[1].peer_port, Some(40000));
    assert_eq!(conns[1].bytes_sent, 0);
    assert_eq!(conns[1].bytes_received, 0);
    assert_eq!(conns[2].peer_addr, "10.0.0.9");
    assert_eq!(conns[2].peer_port, Some(1));
    assert_eq!(conns[2].bytes_sent, 0);
    assert_eq!(conns[2].bytes_received, 8);
}

#[test]
fn ss_output_empty_and_short_lines() {
    assert_eq!(parse_ss_output(b"").len(), 0);
    let conns = parse_ss_output(b"ESTAB 0 0\n");
    assert_eq!(conns.len(), 1);
    assert_eq!(conns[0].peer_addr, "");
    assert_eq!(conns[0].peer_port, None);
}

#[test]
fn address_port_forms() {
    assert_eq!(address_port("1.2.3.4:5678"), Some(5678));
    assert_eq!(address_port("[2001:db8::1]:12345"), Some(12345));
    assert_eq!(address_port("[2001:db8::1]"), None);
    assert_eq!(address_port("hostname"), None);
    assert_eq!(address_port("0.0.0.0:*"), None);
    assert_eq!(address_port("1.2.3.4:65536"), None);
    assert_eq!(address_port("1.2.3.4:65535"), Some(65535));
}

#[test]
fn getent_second_field_is_hostname() {
    assert_eq!(
        hostname_from_getent(b"10.0.0.2        mill.example.org mill\n"),
        Some("mill.example.org".to_string())
    );
    assert_eq!(hostname_from_getent(b"10.0.0.2\n"), None);
    assert_eq!(hostname_from_getent(b""), None);
}

#[test]
fn dynamic_sessions_skip_nul_and_blank_lines() {
    let raw = b"iqn.1993-08.org.debian:01:abc\0\0\n\n  iqn.2024-01.com.example:host2  \n\0";
    let names = read_dynamic_sessions(raw);
    assert_eq!(
        names,
        vec!["iqn.1993-08.org.debian:01:abc".to_string(), "iqn.2024-01.com.example:host2".to_string()]
    );
    assert!(read_dynamic_sessions(b"\0\0\n \n").is_empty());
}

#[test]
fn directory_name_rules() {
    assert!(is_target_name("iqn.2003-01.org.linux-iscsi.host:sn"));
    assert!(is_target_name("eui.02004567A425678D"));
    assert!(is_target_name("naa.6001405abcdef"));
    assert!(!is_target_name("lio_version"));
    assert!(!is_target_name("discovery_auth"));
    assert!(is_tpgt_name("tpgt_1"));
    assert!(!is_tpgt_name("tpg_1"));
    assert_eq!(lun_index("lun_0"), Some(0));
    assert_eq!(lun_index("lun_12"), Some(12));
    assert_eq!(lun_index("lun_+3"), Some(3));
    assert_eq!(lun_index("lun_x"), Some(0));
    assert_eq!(lun_index("lun_4294967296"), Some(0));
    assert_eq!(lun_index("alua"), None);
}

#[test]
fn counters_parse_trimmed_or_zero() {
    assert_eq!(counter(&Some("  42\n".to_string())), 42);
    assert_eq!(counter(&Some("18446744073709551615".to_string())), u64::MAX);
    assert_eq!(counter(&Some("18446744073709551616".to_string())), 0);
    assert_eq!(counter(&Some("-1".to_string())), 0);
    assert_eq!(counter(&Some("".to_string())), 0);
    assert_eq!(counter(&None), 0);
}

fn store(udev: AttrFile, fd: AttrFile, dir: Option<&str>) -> Backing {
    Backing::Store { udev_path: udev, fd_dev_name: fd, dir_name: dir.map(|d| d.to_string()) }
}

#[test]
fn device_resolution_order() {
    let text = |s: &str| AttrFile::Text(s.to_string());
    assert_eq!(resolve_lun_device(&Backing::Unknown), "unknown");
    assert_eq!(
        resolve_lun_device(&store(text(" /dev/zvol/a \n"), text("/x"), Some("d"))),
        "/dev/zvol/a"
    );
    assert_eq!(resolve_lun_device(&store(text("  \n"), text("/srv/img\n"), Some("d"))), "/srv/img");
    assert_eq!(resolve_lun_device(&store(AttrFile::Absent, AttrFile::Absent, Some("blk0"))), "blk0");
    assert_eq!(resolve_lun_device(&store(AttrFile::Absent, AttrFile::Absent, None)), "unknown");
    assert_eq!(
        resolve_lun_device(&store(AttrFile::Unreadable, text("/srv/img"), Some("d"))),
        "unknown"
    );
}

fn lun_dir(name: &str, dev: &str, read: Option<&str>, write: Option<&str>) -> LunDir {
    LunDir {
        name: name.to_string(),
        backing: store(AttrFile::Text(dev.to_string()), AttrFile::Absent, None),
        read_mbytes: read.map(|s| s.to_string()),
        write_mbytes: write.map(|s| s.to_string()),
    }
}

#[test]
fn luns_sorted_stably_with_totals() {
    let dirs = vec![
        lun_dir("lun_2", "/dev/c", Some("5"), Some("1")),
        lun_dir("alua", "/dev/ignored", Some("100"), Some("100")),
        lun_dir("lun_x", "/dev/first0", Some("1"), None),
        lun_dir("lun_0", "/dev/second0", Some("2"), Some("3")),
        lun_dir("lun_1", "/dev/b", None, Some("4")),
    ];
    let table = collect_luns(&dirs);
    let order: Vec<(u32, &str)> =
        table.luns.iter().map(|l| (l.index, l.device.as_str())).collect();
    assert_eq!(order, vec![(0, "/dev/first0"), (0, "/dev/second0"), (1, "/dev/b"), (2, "/dev/c")]);
    assert_eq!(table.total_read_mb, 8);
    assert_eq!(table.total_write_mb, 8);
}

#[test]
fn decimal_numerals_read_back() {
    for n in [0u64, 7, 10, 99, 1000, 4294967296, u64::MAX - 1, u64::MAX] {
        assert_eq!(counter(&Some(n.to_string())), n);
    }
}
