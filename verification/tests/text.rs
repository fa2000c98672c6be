use process_mcp::text::{
    chars_of, decimal_of, first_word_of, is_white_space, lines_of, parse_u32, parse_u64,
    split_chars, split_chars_once, string_of, strip_chars_prefix, trim_chars,
};

const SAMPLES: [&str; 16] = [
    "",
    "\n",
    "a",
    "a\n",
    "a\r\nb",
    "a\r",
    "\r\n\r\n",
    "a\n\nb\r\n",
    "\r\r\n",
    "  a b  ",
    "\u{a0}a\u{3000}",
    "::",
    "a:b:c",
    "\t\n ",
    "\u{1f980}:x y",
    ":",
];

fn strings(pieces: Vec<&[char]>) -> Vec<String> {
    pieces.into_iter().map(string_of).collect()
}

#[test]
fn white_space_is_that_of_unicode() {
    for n in 0..=0x10ffff {
        if let Some(c) = char::from_u32(n) {
            assert_eq!(is_white_space(c), c.is_whitespace(), "{n:x}");
        }
    }
}

#[test]
fn text_operations_agree_with_str() {
    for s in SAMPLES {
        let cs = chars_of(s);
        assert_eq!(string_of(&cs), s);
        assert_eq!(strings(lines_of(&cs)), s.lines().collect::<Vec<_>>(), "{s:?}");
        assert_eq!(
            strings(split_chars(&cs, ':')),
            s.split(':').collect::<Vec<_>>(),
            "{s:?}"
        );
        assert_eq!(
            split_chars_once(&cs, ':').map(|(a, b)| (string_of(a), string_of(b))),
            s.split_once(':')
                .map(|(a, b)| (String::from(a), String::from(b)))
        );
        assert_eq!(string_of(trim_chars(&cs)), s.trim());
        assert_eq!(
            first_word_of(&cs).map(string_of),
            s.split_whitespace().next().map(String::from)
        );
        assert_eq!(
            strip_chars_prefix(&cs, "a").map(string_of),
            s.strip_prefix("a").map(String::from)
        );
    }
}

#[test]
fn lines_of_texts_put_together() {
    for a in ["", "\n", "x\r\n", "x\n\ny\n"] {
        for b in SAMPLES {
            let whole = chars_of(&format!("{a}{b}"));
            let mut parts = strings(lines_of(&chars_of(a)));
            parts.extend(strings(lines_of(&chars_of(b))));
            assert_eq!(strings(lines_of(&whole)), parts);
        }
    }
}

#[test]
fn numbers_agree_with_str() {
    let samples = [
        "0",
        "00",
        "+5",
        "+",
        "-",
        "-0",
        "",
        "++1",
        "1_0",
        " 1",
        "1 ",
        "4294967295",
        "4294967296",
        "18446744073709551615",
        "18446744073709551616",
        "99999999999999999999999",
        "000000000000000000000000000001",
        "18446744073709551615x",
        "99999999999999999999999x",
        "\u{0661}",
        "1.0",
    ];
    for s in samples {
        let cs = chars_of(s);
        assert_eq!(parse_u64(&cs), s.parse::<u64>().ok(), "{s:?}");
        assert_eq!(parse_u32(&cs), s.parse::<u32>().ok(), "{s:?}");
    }
}

#[test]
fn numbers_are_written_as_str_does() {
    for n in [0, 1, 9, 10, 99, 100, 12345, u32::MAX] {
        assert_eq!(decimal_of(n), format!("{n}"));
        assert_eq!(parse_u32(&chars_of(&decimal_of(n))), Some(n));
    }
}
