use ninelimiter::text::{
    decimal, has_text, parse_number, same_text, split_pieces, string_or, strip_prefix, text_before, trim_end,
};

#[test]
fn numbers_are_written_and_read_back() {
    for n in [0, 7, 10, 99, 3600, 4_294_967_295, u64::MAX] {
        assert_eq!(decimal(n), n.to_string());
        assert_eq!(parse_number(&decimal(n), u64::MAX), Some(n));
    }
}

#[test]
fn numbers_are_read_as_the_standard_library_reads_them() {
    let samples =
        ["", "+", "-1", "+7", "007", "12", "256", "4294967296", "18446744073709551616", "1a", " 1", "٣"];
    for s in samples {
        assert_eq!(parse_number(s, u64::MAX), s.parse::<u64>().ok());
        assert_eq!(parse_number(s, 255), s.parse::<u8>().ok().map(|n| n as u64));
        assert_eq!(parse_number(s, 4_294_967_295), s.parse::<u32>().ok().map(|n| n as u64));
    }
}

#[test]
fn texts_are_cut_as_the_standard_library_cuts_them() {
    for s in ["", ":", "a:b", "a:b:c:d:e", "::", "no", "ü:ö"] {
        for n in 1..6 {
            let cut: Vec<&str> = s.splitn(n, ':').collect();
            assert_eq!(split_pieces(s, ':', n), cut);
        }
        assert_eq!(trim_end(s, ':'), s.trim_end_matches(':'));
        assert_eq!(strip_prefix(s, "a:"), s.strip_prefix("a:").map(|r| r.to_string()));
        assert_eq!(strip_prefix(s, ""), Some(s.to_string()));
    }
}

#[test]
fn texts_are_ordered_as_the_standard_library_orders_them() {
    let samples = ["", "07:00", "07:0", "22:00", "Z", "a", "ab", "é", "🦀"];
    for a in samples {
        for b in samples {
            assert_eq!(text_before(a, b), a < b);
            assert_eq!(same_text(a, b), a == b);
        }
    }
}

#[test]
fn lists_are_searched() {
    let list = vec!["a".to_string(), "b".to_string()];
    assert!(has_text(&list, "b"));
    assert!(!has_text(&list, "c"));
    assert_eq!(string_or(&None, "x"), "x");
    assert_eq!(string_or(&Some("y".to_string()), "x"), "y");
}
