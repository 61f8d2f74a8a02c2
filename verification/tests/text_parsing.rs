use tflite_server::error::{AppError, Status};
use tflite_server::proc_stats::{cpu_time_fields, parse_memory_status, MemoryStats};
use tflite_server::text::{
    chars_of, is_whitespace, lines, parse_u64, split_whitespace, starts_with, to_hex_lower,
    u64_to_string,
};

#[test]
fn error_constructors_carry_status_and_detail() {
    let e = AppError::bad_request(String::from("bad"));
    assert_eq!(e.status, Status::BadRequest);
    assert_eq!(e.detail, "bad");
    assert_eq!(e.status_code(), 400);
    let e = AppError::not_found(String::from("gone"));
    assert_eq!(e.status, Status::NotFound);
    assert_eq!(e.status_code(), 404);
    let e = AppError::internal(String::from("boom"));
    assert_eq!(e.status, Status::Internal);
    assert_eq!(e.status_code(), 500);
    assert_eq!(e.detail, "boom");
}

#[test]
fn whitespace_follows_unicode_white_space() {
    for c in [' ', '\t', '\n', '\r', '\u{b}', '\u{c}', '\u{85}', '\u{a0}', '\u{1680}', '\u{2000}',
        '\u{200a}', '\u{2028}', '\u{2029}', '\u{202f}', '\u{205f}', '\u{3000}'] {
        assert!(is_whitespace(c), "{:?}", c);
        assert_eq!(is_whitespace(c), c.is_whitespace());
    }
    for c in ['a', '0', '\u{200b}', '\u{180e}', '_', '\u{0}'] {
        assert!(!is_whitespace(c), "{:?}", c);
        assert_eq!(is_whitespace(c), c.is_whitespace());
    }
}

#[test]
fn split_whitespace_matches_std() {
    for s in ["", "   ", "a", "  a  b\tc\n", "VmRSS:\t  1234 kB", "x\u{3000}y", "a\u{a0}b"] {
        let ours = split_whitespace(s);
        let std: Vec<String> = s.split_whitespace().map(|w| w.to_string()).collect();
        assert_eq!(ours, std, "{:?}", s);
    }
}

#[test]
fn lines_matches_std() {
    for s in ["", "a", "a\n", "a\nb", "a\r\nb\r\n", "\n", "\n\n", "a\rb", "x\r", "a\n\nb"] {
        let ours = lines(s);
        let std: Vec<String> = s.lines().map(|w| w.to_string()).collect();
        assert_eq!(ours, std, "{:?}", s);
    }
}

#[test]
fn parse_u64_matches_std() {
    for s in ["0", "42", "+7", "+", "", "-1", "12a", " 1", "18446744073709551615",
        "18446744073709551616", "000123", "99999999999999999999999"] {
        assert_eq!(parse_u64(s), s.parse::<u64>().ok(), "{:?}", s);
    }
}

#[test]
fn decimal_formatting() {
    assert_eq!(u64_to_string(0), "0");
    assert_eq!(u64_to_string(7), "7");
    assert_eq!(u64_to_string(1024), "1024");
    assert_eq!(u64_to_string(u64::MAX), u64::MAX.to_string());
}

#[test]
fn decimal_parse_roundtrip_on_values() {
    for n in [0u64, 1, 9, 10, 99, 100, 12345, u64::MAX - 1, u64::MAX] {
        assert_eq!(parse_u64(&u64_to_string(n)), Some(n));
    }
}

#[test]
fn hex_encoding() {
    assert_eq!(to_hex_lower(&[]), "");
    assert_eq!(to_hex_lower(&[0x00, 0x0f, 0xab, 0xff]), "000fabff");
    assert_eq!(to_hex_lower(&[0xbe, 0xef]).len(), 4);
}

#[test]
fn prefix_test() {
    let s = chars_of("VmRSS:\t 12 kB");
    assert!(starts_with(&s, &chars_of("VmRSS:")));
    assert!(!starts_with(&s, &chars_of("VmSize:")));
    assert!(starts_with(&s, &chars_of("")));
    assert!(!starts_with(&chars_of("Vm"), &chars_of("VmRSS:")));
}

#[test]
fn memory_status_parsing() {
    let status = "Name:\tserver\nVmPeak:\t  2000 kB\nVmSize:\t  1500 kB\nVmRSS:\t   300 kB\nThreads:\t4\n";
    let m = parse_memory_status(status);
    assert_eq!(m, MemoryStats { rss_bytes: Some(300 * 1024), vms_bytes: Some(1500 * 1024) });
}

#[test]
fn memory_status_missing_or_malformed_lines() {
    let m = parse_memory_status("Name:\tx\nVmRSS:\tlots kB\nVmSize:\n");
    assert_eq!(m, MemoryStats { rss_bytes: None, vms_bytes: None });
    // a later valid line wins over an earlier one, an invalid one keeps the earlier value
    let m = parse_memory_status("VmRSS: 1 kB\r\nVmRSS: 2 kB\r\nVmRSS: x kB\r\n");
    assert_eq!(m.rss_bytes, Some(2048));
    // the multiplication wraps like the service's 64-bit arithmetic
    let m = parse_memory_status("VmSize: 18446744073709551615 kB");
    assert_eq!(m.vms_bytes, Some(18446744073709551615u64.wrapping_mul(1024)));
}

#[test]
fn cpu_fields_of_stat_line() {
    let stat = "1234 (server) S 1 1234 1234 0 -1 4194560 1000 0 0 0 250 75 0 0 20 0 4 0 100 1000000 300";
    let (u, s) = cpu_time_fields(stat).unwrap();
    assert_eq!(u, "250");
    assert_eq!(s, "75");
    assert_eq!(cpu_time_fields("1 2 3"), None);
    let fifteen = "0 1 2 3 4 5 6 7 8 9 10 11 12 13 14";
    assert_eq!(cpu_time_fields(fifteen), Some((String::from("13"), String::from("14"))));
    assert_eq!(cpu_time_fields("0 1 2 3 4 5 6 7 8 9 10 11 12 13"), None);
}
