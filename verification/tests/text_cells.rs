use iscsimon::ui::{centered_rect, centering_percentages, screen_regions, Area};
use iscsimon::net::{address_port, strip_port};
use iscsimon::ui::{abbreviate_device, abbreviate_iqn, format_mb, header_title};

fn float_format_mb(mb: u64) -> String {
    if mb < 1024 {
        format!("{} MB", mb)
    } else if mb < 1024 * 1024 {
        format!("{:.1} GB", mb as f64 / 1024.0)
    } else {
        format!("{:.1} TB", mb as f64 / (1024.0 * 1024.0))
    }
}

#[test]
fn strip_port_ipv4() {
    assert_eq!(strip_port("1.2.3.4:5678"), "1.2.3.4");
}

#[test]
fn strip_port_ipv6_bracketed() {
    assert_eq!(strip_port("[2001:db8::1]:12345"), "2001:db8::1");
}

#[test]
fn strip_port_without_port() {
    assert_eq!(strip_port("hostname"), "hostname");
    assert_eq!(strip_port(""), "");
}

#[test]
fn strip_port_unclosed_bracket_falls_back_to_last_colon() {
    assert_eq!(strip_port("[2001:db8::1"), "[2001:db8:");
}

#[test]
fn abbreviate_iqn_takes_last_component() {
    assert_eq!(abbreviate_iqn("iqn.2024-12.com.growse.mill:foo"), "foo");
    assert_eq!(abbreviate_iqn("iqn.a:b:c"), "c");
    assert_eq!(abbreviate_iqn("naa.5001405abcdef"), "naa.5001405abcdef");
    assert_eq!(abbreviate_iqn("trailing:"), "");
}

#[test]
fn abbreviate_device_strips_dev_prefix() {
    assert_eq!(abbreviate_device("/dev/zvol/newtank/k8s/pvc-1"), "zvol/newtank/k8s/pvc-1");
    assert_eq!(abbreviate_device("/var/lib/disk.img"), "/var/lib/disk.img");
    assert_eq!(abbreviate_device("/dev"), "/dev");
}

#[test]
fn format_mb_units() {
    assert_eq!(format_mb(0), "0 MB");
    assert_eq!(format_mb(1023), "1023 MB");
    assert_eq!(format_mb(1024), "1.0 GB");
    assert_eq!(format_mb(1536), "1.5 GB");
    assert_eq!(format_mb(1024 * 1024), "1.0 TB");
}

#[test]
fn format_mb_ties_round_to_even() {
    // 1.25 GB and 1.75 GB lie exactly between two tenths.
    assert_eq!(format_mb(1280), "1.2 GB");
    assert_eq!(format_mb(1792), "1.8 GB");
    assert_eq!(format_mb(1024 * 1024 + 256 * 1024), "1.2 TB");
}

#[test]
fn format_mb_matches_float_formatting() {
    let mut values: Vec<u64> = Vec::new();
    for mb in 0..5000u64 {
        values.push(mb);
    }
    for k in 0..2000u64 {
        values.push(1024 * 1024 - 1000 + k);
        values.push(k * 524_287 + 3);
        values.push(k.wrapping_mul(0x9E37_79B9_7F4A_7C15));
    }
    for shift in 50..64u32 {
        let base = 1u64 << shift;
        for d in 0..40u64 {
            values.push(base + d);
            values.push(base - d);
            values.push(base.wrapping_add(base / 2).wrapping_add(d));
        }
    }
    values.push(u64::MAX);
    values.push(u64::MAX - 1);
    values.push(u64::MAX - 1024);
    for mb in values {
        assert_eq!(format_mb(mb), float_format_mb(mb), "mb = {}", mb);
    }
}

#[test]
fn header_title_counts_and_sources() {
    let none: Vec<String> = Vec::new();
    assert_eq!(
        header_title(0, &none, "2025-01-02 03:04:05"),
        " iscsimon — 0 sessions — no connections — 2025-01-02 03:04:05 "
    );
    let ips = vec!["10.0.0.2".to_string(), "10.0.0.3".to_string()];
    assert_eq!(
        header_title(1, &ips, "now"),
        " iscsimon — 1 session — 10.0.0.2, 10.0.0.3 — now "
    );
}

#[test]
fn centering_percentages_split_the_rest_evenly() {
    assert_eq!(centering_percentages(60), vec![20, 60, 20]);
    assert_eq!(centering_percentages(50), vec![25, 50, 25]);
    assert_eq!(centering_percentages(99), vec![0, 99, 0]);
    assert_eq!(centering_percentages(100), vec![0, 100, 0]);
}

#[test]
fn centered_rect_is_centred_in_the_area() {
    let area = Area { x: 0, y: 0, width: 100, height: 50 };
    let popup = centered_rect(50, 60, area);
    assert_eq!(popup, Area { x: 25, y: 10, width: 50, height: 30 });
}

#[test]
fn centered_rect_of_the_whole_is_the_whole() {
    let area = Area { x: 3, y: 4, width: 80, height: 24 };
    assert_eq!(centered_rect(100, 100, area), area);
}

#[test]
fn centered_rect_popups_of_the_screen() {
    let screen = Area { x: 0, y: 0, width: 100, height: 100 };
    assert_eq!(centered_rect(50, 60, screen), Area { x: 25, y: 20, width: 50, height: 60 });
    assert_eq!(centered_rect(60, 20, screen), Area { x: 20, y: 40, width: 60, height: 20 });
}

#[test]
fn centered_rect_rounds_each_cut_to_the_nearest_cell() {
    let area = Area { x: 2, y: 1, width: 101, height: 33 };
    assert_eq!(centered_rect(50, 60, area), Area { x: 27, y: 8, width: 51, height: 19 });
}

#[test]
fn centered_rect_odd_percentage_stays_inside() {
    let area = Area { x: 5, y: 5, width: 40, height: 17 };
    let r = centered_rect(33, 71, area);
    assert!(area.x <= r.x && r.x + r.width <= area.x + area.width);
    assert!(area.y <= r.y && r.y + r.height <= area.y + area.height);
}

#[test]
fn address_and_port_read_back() {
    assert_eq!(strip_port("10.1.2.3:3260"), "10.1.2.3");
    assert_eq!(address_port("10.1.2.3:3260"), Some(3260));
    assert_eq!(strip_port("[fe80::1]:860"), "fe80::1");
    assert_eq!(address_port("[fe80::1]:860"), Some(860));
    assert_eq!(strip_port(":0"), "");
    assert_eq!(address_port(":0"), Some(0));
}

#[test]
fn screen_regions_header_table_footer() {
    let screen = Area { x: 0, y: 0, width: 80, height: 24 };
    assert_eq!(
        screen_regions(screen),
        vec![
            Area { x: 0, y: 0, width: 80, height: 3 },
            Area { x: 0, y: 3, width: 80, height: 20 },
            Area { x: 0, y: 23, width: 80, height: 1 },
        ]
    );
    let small = Area { x: 2, y: 5, width: 10, height: 4 };
    assert_eq!(
        screen_regions(small),
        vec![
            Area { x: 2, y: 5, width: 10, height: 3 },
            Area { x: 2, y: 8, width: 10, height: 0 },
            Area { x: 2, y: 8, width: 10, height: 1 },
        ]
    );
    let tiny = Area { x: 0, y: 0, width: 10, height: 2 };
    let r = screen_regions(tiny);
    assert_eq!(r.len(), 3);
    assert!(r.iter().all(|p| p.y + p.height <= 2 && p.width == 10));
}

#[test]
fn centered_rect_odd_percentages_are_exact_too() {
    let screen = Area { x: 0, y: 0, width: 100, height: 100 };
    assert_eq!(centered_rect(33, 71, screen), Area { x: 33, y: 14, width: 33, height: 71 });
}
