use lanscan::text::{
    digit_value_of, is_white_space_char, parse_uint_chars, split_chars, split_once_chars,
    str_chars, trim_chars, ParseIntError,
};

fn chars(s: &str) -> Vec<char> {
    s.chars().collect()
}

fn text(v: &[char]) -> String {
    v.iter().collect()
}

#[test]
fn white_space_matches_char_is_whitespace() {
    for u in 0u32..=0x10FFFF {
        if let Some(c) = char::from_u32(u) {
            assert_eq!(is_white_space_char(c), c.is_whitespace(), "U+{:04X}", u);
        }
    }
}

#[test]
fn digit_value_matches_char_to_digit() {
    for u in 0u32..=0x10FFFF {
        if let Some(c) = char::from_u32(u) {
            for radix in [10u32, 16] {
                assert_eq!(digit_value_of(c, radix), c.to_digit(radix), "U+{:04X}", u);
            }
        }
    }
}

fn std_kind(e: &std::num::ParseIntError) -> ParseIntError {
    match e.kind() {
        std::num::IntErrorKind::Empty => ParseIntError::Empty,
        std::num::IntErrorKind::InvalidDigit => ParseIntError::InvalidDigit,
        std::num::IntErrorKind::PosOverflow => ParseIntError::PosOverflow,
        other => panic!("unexpected {:?}", other),
    }
}

#[test]
fn parse_uint_matches_from_str_radix() {
    let samples = [
        "", "+", "-", "0", "7", "+7", "-7", "007", "255", "256", "65535", "65536", "99999x",
        "9x", "x9", "1 2", " 1", "ff", "FF", "+ff", "100", "1_0", "٣", "12345678901234567890",
        "+-1", "++1", "0000000000000000000001",
    ];
    for s in samples {
        let v = chars(s);
        match (parse_uint_chars(&v, 10, 65535), u16::from_str_radix(s, 10)) {
            (Ok(a), Ok(b)) => assert_eq!(a, b as u32, "{:?}", s),
            (Err(a), Err(b)) => assert_eq!(a, std_kind(&b), "{:?}", s),
            (a, b) => panic!("{:?}: {:?} vs {:?}", s, a, b),
        }
        match (parse_uint_chars(&v, 16, 255), u8::from_str_radix(s, 16)) {
            (Ok(a), Ok(b)) => assert_eq!(a, b as u32, "{:?}", s),
            (Err(a), Err(b)) => assert_eq!(a, std_kind(&b), "{:?}", s),
            (a, b) => panic!("{:?}: {:?} vs {:?}", s, a, b),
        }
    }
}

#[test]
fn trim_split_match_str() {
    let samples = ["", " ", "a", " a b ", "\u{3000}22\t", ",,", "a,b,,c,", "x-y-z", "\u{85}é\u{a0}"];
    for s in samples {
        let v = chars(s);
        assert_eq!(text(&trim_chars(&v)), s.trim());
        let pieces: Vec<String> = split_chars(&v, ',').iter().map(|p| text(p)).collect();
        let expected: Vec<String> = s.split(',').map(|p| p.to_string()).collect();
        assert_eq!(pieces, expected);
        let once = split_once_chars(&v, '-').map(|(a, b)| (text(&a), text(&b)));
        let expected_once = s.split_once('-').map(|(a, b)| (a.to_string(), b.to_string()));
        assert_eq!(once, expected_once);
        assert_eq!(str_chars(s), v);
    }
}
