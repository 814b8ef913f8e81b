use merlion_node_exporter_rs::collectors::netstat::parse_netstat;
use merlion_node_exporter_rs::number::{float_literal, parse_i64, parse_u32, parse_u64, push_decimal};
use merlion_node_exporter_rs::order::{sort, text_before, Ordered};
use merlion_node_exporter_rs::collectors::textfile::TextFile;
use merlion_node_exporter_rs::text::{
    ascii_alphanumeric, ascii_space, digit, lines_of, space, split_at_char, trimmed, words_of,
};

fn chars(s: &str) -> Vec<char> {
    s.chars().collect()
}

fn strings(pieces: Vec<&[char]>) -> Vec<String> {
    pieces.iter().map(|p| p.iter().collect()).collect()
}

#[test]
fn character_classes_are_those_of_the_language() {
    for n in 0..=0x10_FFFF_u32 {
        if let Some(c) = char::from_u32(n) {
            assert_eq!(space(c), c.is_whitespace(), "{n:x}");
            assert_eq!(ascii_space(c), c.is_ascii_whitespace(), "{n:x}");
            assert_eq!(digit(c), c.is_ascii_digit(), "{n:x}");
            assert_eq!(ascii_alphanumeric(c), c.is_ascii_alphanumeric(), "{n:x}");
        }
    }
}

#[test]
fn cutting_text_is_that_of_the_language() {
    for s in [
        "", "\n", "a", "a\n", "a\r\nb", "a\r", "\r\n\r\n", "a\n\nb\n", " a  b\tc ", "\u{a0}x\u{2003}",
        "a,b,,c", ",", "é ü\u{b}x",
    ] {
        let c = chars(s);
        assert_eq!(strings(lines_of(&c)), s.lines().map(String::from).collect::<Vec<_>>());
        assert_eq!(
            strings(words_of(&c)),
            s.split_ascii_whitespace().map(String::from).collect::<Vec<_>>()
        );
        assert_eq!(
            strings(split_at_char(&c, ',')),
            s.split(',').map(String::from).collect::<Vec<_>>()
        );
        assert_eq!(trimmed(&c).iter().collect::<String>(), s.trim());
    }
}

#[test]
fn numbers_are_those_of_the_language() {
    for s in [
        "", "0", "+0", "-0", "+", "-", "1", "-1", "+7", "00012", "18446744073709551615",
        "18446744073709551616", "9223372036854775807", "9223372036854775808",
        "-9223372036854775808", "-9223372036854775809", "4294967295", "4294967296", " 1", "1 ",
        "1_0", "0x1", "--1", "+-1", "١",
    ] {
        let c = chars(s);
        assert_eq!(parse_u64(&c), s.parse().ok(), "{s:?}");
        assert_eq!(parse_u32(&c), s.parse().ok(), "{s:?}");
        assert_eq!(parse_i64(&c), s.parse().ok(), "{s:?}");
    }
}

#[test]
fn float_literals_are_those_of_the_language() {
    for s in [
        "", "0", "1.", ".1", ".", "-.", "+.5", "1e5", "1E5", "1e", "e1", "1e+5", "1e-5", "1e+",
        "1e5.0", "1.5e3", "inf", "-inf", "+INF", "infinity", "InFiNiTy", "nan", "NaN", "-nan", "infi",
        "nano", "0x1", "1_0", " 1", "1 ", "1..2", "1.2.3", "--1", "+-1", "1f", "é", "1é", "٣",
        "123456789012345678901234567890", "1e999999", "00.00", "-0", "+0e0", "ee", "1ee2", "1e1e1",
        ".e1", "1.e1", "-.5e-7",
    ] {
        assert_eq!(
            float_literal(&chars(s)),
            s.parse::<f64>().is_ok(),
            "{s:?}"
        );
    }
}

#[test]
fn decimals_are_written_out() {
    for n in [0, 7, 10, 99, 100, u64::from(u32::MAX), u64::MAX] {
        let mut out = "n=".to_string();
        push_decimal(&mut out, n);
        assert_eq!(out, format!("n={n}"));
        assert_eq!(parse_u64(&chars(&out[2..])), Some(n));
    }
}

#[test]
fn texts_are_ordered_as_the_language_orders_them() {
    let texts = ["", "a", "ab", "b", "B", "é", "z", "\u{10000}", "\u{ffff}", "a\u{0}"];
    for a in texts {
        for b in texts {
            assert_eq!(text_before(a, b), a < b, "{a:?} {b:?}");
        }
    }
}

#[test]
fn sorting_is_stable() {
    let file = |name: &str, n: u64| TextFile {
        name: name.into(),
        bytes: name.into(),
        utf8: true,
        contents: None,
        mtime: Some((n, 0)),
    };
    let files = vec![file("b", 1), file("a", 2), file("b", 3), file("a", 4)];
    assert!(files[1].before(&files[0]));
    assert!(!files[0].before(&files[2]));
    let order: Vec<u64> = sort(files).iter().map(|f| f.mtime.unwrap().0).collect();
    assert_eq!(order, vec![2, 4, 1, 3]);
}

#[test]
fn quoted_text_in_messages_is_escaped() {
    let message = parse_netstat("\"A\tB\n").unwrap_err().message;
    assert_eq!(
        message,
        "header line \"\\\"A\\tB\" has no matching value line"
    );
}
