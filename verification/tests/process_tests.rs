use portkill::process::human_bytes;

#[test]
fn bytes_scale_to_readable_units() {
    assert_eq!(human_bytes(0), "0 B");
    assert_eq!(human_bytes(512), "512 B");
    assert_eq!(human_bytes(1024), "1.0 K");
    assert_eq!(human_bytes(20 * 1024), "20 K");
    assert_eq!(human_bytes(5 * 1024 * 1024), "5.0 M");
    assert_eq!(human_bytes(1536 * 1024 * 1024), "1.5 G");
}

use portkill::process::{parse_status, status_overflows};

/// The formatting as `f64` arithmetic does it, to hold the integer version to.
fn float_human_bytes(bytes: u64) -> String {
    const UNITS: [&str; 5] = ["B", "K", "M", "G", "T"];
    let mut value = bytes as f64;
    let mut unit = 0;
    while value >= 1024.0 && unit < UNITS.len() - 1 {
        value /= 1024.0;
        unit += 1;
    }
    if unit == 0 {
        format!("{bytes} B")
    } else if value < 10.0 {
        format!("{value:.1} {}", UNITS[unit])
    } else {
        format!("{value:.0} {}", UNITS[unit])
    }
}

#[test]
fn byte_formatting_matches_floating_point_formatting() {
    let mut samples: Vec<u64> = vec![
        0,
        1,
        1023,
        1024,
        1025,
        1280,
        1331,
        1792,
        10 * 1024 - 52,
        10 * 1024 - 51,
        10 * 1024,
        1024 * 1024 - 1,
        1024 * 1024,
        (1u64 << 40) - 1,
        1u64 << 40,
        (1u64 << 53) - 1,
        1u64 << 53,
        (1u64 << 53) + 1,
        (1u64 << 53) + 3,
        (1u64 << 62) + (1u64 << 9),
        u64::MAX,
        u64::MAX - 1024,
    ];
    let mut x: u64 = 0x9E37_79B9_7F4A_7C15;
    for _ in 0..20_000 {
        x ^= x << 13;
        x ^= x >> 7;
        x ^= x << 17;
        samples.push(x >> (x % 64));
    }
    for unit in 1..5u32 {
        for tenths in 0..200u64 {
            // Ties in the last shown digit.
            let base = 1u64 << (10 * unit);
            samples.push(tenths * base / 10 + base / 20);
            samples.push(tenths * base / 10);
        }
    }
    for b in samples {
        assert_eq!(human_bytes(b), float_human_bytes(b), "for {b} bytes");
    }
}

const STATUS: &str = "Name:\tnode\nUmask:\t0022\nState:\tS (sleeping)\nUid:\t1000\t1000\t1000\t1000\nGid:\t1000\t1000\t1000\t1000\nVmRSS:\t   43008 kB\nThreads:\t11\n";

#[test]
fn status_text_gives_name_owner_and_memory() {
    let info = parse_status(STATUS).unwrap();
    assert_eq!(info.name, "node");
    assert_eq!(info.uid, 1000);
    assert_eq!(info.rss, 43008 * 1024);
}

#[test]
fn kernel_threads_have_no_resident_memory() {
    let info = parse_status("Name:\tkthreadd\nUid:\t0\t0\t0\t0\n").unwrap();
    assert_eq!(info.name, "kthreadd");
    assert_eq!(info.uid, 0);
    assert_eq!(info.rss, 0);
}

#[test]
fn status_without_name_or_uid_gives_nothing() {
    assert!(parse_status("Uid:\t0\t0\t0\t0\nVmRSS:\t4 kB\n").is_none());
    assert!(parse_status("Name:\tx\nVmRSS:\t4 kB\n").is_none());
    assert!(parse_status("Name:\tx\nUid:\tabc\n").is_none());
    assert!(parse_status("").is_none());
}

#[test]
fn status_lines_are_read_as_std_reads_them() {
    // CRLF line ends, surrounding white space, an explicit plus sign, and a
    // later line overriding an earlier one.
    let info = parse_status("Name:  web server \r\nUid:\t+42 1\r\nUid: 7\nVmRSS: x kB\n").unwrap();
    assert_eq!(info.name, "web server");
    assert_eq!(info.uid, 7);
    assert_eq!(info.rss, 0);
    // Lines without a colon are skipped.
    let info = parse_status("garbage\nName:a\nUid:3").unwrap();
    assert_eq!(info.name, "a");
    assert_eq!(info.uid, 3);
}

#[test]
fn reading_stops_once_everything_is_known() {
    // The second Name comes after name, uid and memory are all known.
    let info = parse_status("Name:first\nUid:1\nVmRSS:2 kB\nName:second\n").unwrap();
    assert_eq!(info.name, "first");
    assert_eq!(info.rss, 2048);
}

#[test]
fn oversized_memory_is_detected() {
    assert!(status_overflows("Name:x\nUid:1\nVmRSS:18446744073709551615 kB\n"));
    assert!(!status_overflows(STATUS));
    // A number too large for u64 at all does not parse, and counts as zero.
    assert!(!status_overflows("VmRSS:99999999999999999999999 kB\n"));
}

use portkill::process::{name_from_field, process_name};

#[test]
fn c_name_fields_stop_at_the_first_nul() {
    assert_eq!(name_from_field(&b"node\0\0\0\0".to_vec()), Some("node".to_owned()));
    assert_eq!(name_from_field(&b"redis-server".to_vec()), Some("redis-server".to_owned()));
    assert_eq!(name_from_field(&b"\0stale".to_vec()), None);
    assert_eq!(name_from_field(&b"a\xffb\0".to_vec()), Some("a\u{FFFD}b".to_owned()));
}

#[test]
fn the_command_name_stands_in_for_an_empty_name() {
    assert_eq!(process_name(&b"\0\0".to_vec(), &b"sshd\0".to_vec()), Some("sshd".to_owned()));
    assert_eq!(process_name(&b"launchd\0".to_vec(), &b"launch\0".to_vec()), Some("launchd".to_owned()));
    assert_eq!(process_name(&b"\0".to_vec(), &b"\0".to_vec()), None);
}
