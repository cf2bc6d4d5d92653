use rust_casl2::constant::{
    constant_of_char_len, get_constant_value, is_char, is_constant, is_constant_of, is_decimal,
    is_hex, is_label, label_defect, quoted, read_decimal, read_hex, unquote, unquoted_len,
    word_of, Constant, LabelDefect,
};
use rust_casl2::error::ErrorKind;
use rust_casl2::number::{digit_value, parse_number};
use rust_casl2::token::SymbolTable;

fn chars(s: &str) -> Vec<char> {
    s.chars().collect()
}

fn requote(value: &[u16]) -> String {
    let mut s = String::from("'");
    for w in value {
        let c = char::from_u32(*w as u32).unwrap();
        if c == '\'' {
            s.push_str("''");
        } else {
            s.push(c);
        }
    }
    s.push('\'');
    s
}

#[test]
fn test_is_char() {
    assert_eq!(is_char("'hoge'"), true);
    assert_eq!(is_char("hoge'"), false);
    assert_eq!(is_char("'hoge"), false);
    assert_eq!(is_char("hoge"), false);
    assert_eq!(is_char("'hog'e'"), false);
    assert_eq!(is_char("'hog''e'"), true);
    assert_eq!(is_char("'hog'''e'"), false);
    assert_eq!(is_char("'ho'g'''e'"), false);
    assert_eq!(is_char("'hog''''e'"), true);
    assert_eq!(is_char("'h'''og''''e'"), false);
}

#[test]
fn char_constant_needs_two_quote_marks() {
    assert_eq!(is_char(""), false);
    assert_eq!(is_char("'"), false);
    assert_eq!(is_char("''"), true);
    assert_eq!(is_char("'''"), true);
    assert_eq!(is_char("''''"), true);
    assert_eq!(is_char("'a''"), true);
    assert_eq!(is_char("''a'"), false);
    assert_eq!(is_char("'''a'"), true);
}

#[test]
fn decimal_reads_like_the_standard_parser() {
    let samples = [
        "", "0", "7", "+", "+0", "+7", "-0", "-1", "65535", "65536", "0065535", "000000065536",
        "99999", "1a", " 1", "1 ", "+65535", "+65536", "++1", "1+", "1_0", "0x10", "٣", "１",
        "4294967296", "18446744073709551616", "a", "=5", "'1'",
    ];
    for s in samples {
        assert_eq!(is_decimal(s), s.parse::<u16>().is_ok(), "{:?}", s);
        assert_eq!(read_decimal(&chars(s)), s.parse::<u16>().ok(), "{:?}", s);
    }
    let mut n: u32 = 0;
    while n < 70000 {
        let s = n.to_string();
        assert_eq!(read_decimal(&chars(&s)), s.parse::<u16>().ok());
        n += 7;
    }
}

#[test]
fn hexadecimal_reads_like_the_standard_parser() {
    let samples = [
        "#0", "#FFFF", "#ffff", "#fFfF", "#10000", "#0000FFFF", "#", "#+1f", "#+", "#-1", "#G",
        "#12G", "A1", "ADD", "BEEF", "LOOP", "x10", "=5", "=FF", ";f00", "##1", "# 1",
    ];
    for s in samples {
        let expected = u16::from_str_radix(&s[1..], 16).ok();
        assert_eq!(is_hex(s), expected.is_some(), "{:?}", s);
        assert_eq!(read_hex(&chars(s)), expected, "{:?}", s);
    }
    assert_eq!(is_hex(""), false);
    assert_eq!(read_hex(&chars("é1f")), Some(0x1f));
    let mut n: u32 = 0;
    while n < 70000 {
        let s = format!("{:x}", n);
        assert_eq!(parse_number(&chars(&s), 16), u16::from_str_radix(&s, 16).ok());
        let s = format!("{:X}", n);
        assert_eq!(parse_number(&chars(&s), 16), u16::from_str_radix(&s, 16).ok());
        n += 11;
    }
}

#[test]
fn numbers_of_any_radix_read_like_the_standard_parser() {
    let samples = [
        "", "0", "1", "+1", "-1", "10", "zz", "ZZ", "1yz", "1z141", "1z142", "1111111111111111",
        "10000000000000000", "777", "8", "+", "a", "g", "G", "12 ", "+65535", "177777",
        "200000", "ffff", "FFFF", "10000",
    ];
    let mut radix: u32 = 2;
    while radix <= 36 {
        for s in samples {
            assert_eq!(
                parse_number(&chars(s), radix),
                u16::from_str_radix(s, radix).ok(),
                "{:?} in radix {}",
                s,
                radix
            );
        }
        radix += 1;
    }
}

#[test]
fn digits_have_the_values_of_the_standard_library() {
    let mut u: u32 = 0;
    while u < 0x3000 {
        if let Some(c) = char::from_u32(u) {
            assert_eq!(digit_value(c, 2), c.to_digit(2));
            assert_eq!(digit_value(c, 10), c.to_digit(10));
            assert_eq!(digit_value(c, 16), c.to_digit(16));
            assert_eq!(digit_value(c, 36), c.to_digit(36));
        }
        u += 1;
    }
}

#[test]
fn exact_values_of_numbers() {
    assert_eq!(read_decimal(&chars("0")), Some(0));
    assert_eq!(read_decimal(&chars("+12")), Some(12));
    assert_eq!(read_decimal(&chars("65535")), Some(65535));
    assert_eq!(read_decimal(&chars("65536")), None);
    assert_eq!(read_hex(&chars("#000A")), Some(10));
    assert_eq!(read_hex(&chars("#ffff")), Some(65535));
    assert_eq!(read_hex(&chars("#10000")), None);
}

#[test]
fn labels_and_their_defects() {
    assert_eq!(is_label("A"), true);
    assert_eq!(is_label("LOOP"), true);
    assert_eq!(is_label("A2345678"), true);
    assert_eq!(is_label("A23456789"), false);
    assert_eq!(is_label(""), false);
    assert_eq!(is_label("GR0"), false);
    assert_eq!(is_label("GR7"), false);
    assert_eq!(is_label("GR8"), true);
    assert_eq!(is_label("1A"), false);
    assert_eq!(is_label("aB"), false);
    assert_eq!(is_label("Ab"), false);
    assert_eq!(is_label("A-B"), false);
    assert_eq!(is_label("START"), true);
    assert_eq!(label_defect("LOOP"), None);
    assert_eq!(label_defect("GR3"), Some(LabelDefect::RegisterName));
    assert_eq!(label_defect(""), Some(LabelDefect::Length));
    assert_eq!(label_defect("ABCDEFGHI"), Some(LabelDefect::Length));
    assert_eq!(label_defect("9A"), Some(LabelDefect::FirstCharacter));
    assert_eq!(label_defect("Ab"), Some(LabelDefect::LaterCharacter));
}

#[test]
fn classes_of_constants() {
    assert!(is_constant_of("12") == Constant::Decimal);
    assert!(is_constant_of("#12") == Constant::Hex);
    assert!(is_constant_of("A1") == Constant::Hex);
    assert!(is_constant_of("'A1'") == Constant::Char);
    assert!(is_constant_of("LOOP") == Constant::Address);
    assert!(is_constant_of("GR1") == Constant::Other);
    assert!(is_constant_of("loop") == Constant::Other);
    assert!(is_constant_of("") == Constant::Other);
    assert_eq!(is_constant("12"), true);
    assert_eq!(is_constant("LOOP"), true);
    assert_eq!(is_constant("GR1"), false);
    assert_eq!(is_constant("@"), false);
}

#[test]
fn character_constants_take_one_word_for_each_character() {
    assert_eq!(constant_of_char_len("'hoge'"), 4);
    assert_eq!(constant_of_char_len("''"), 0);
    assert_eq!(constant_of_char_len("''''"), 1);
    assert_eq!(constant_of_char_len("'it''s'"), 4);
    assert_eq!(constant_of_char_len("'a''''b'"), 4);
    assert_eq!(constant_of_char_len("'a''"), 1);
    assert_eq!(constant_of_char_len("'''"), 0);
    assert_eq!(constant_of_char_len("'a'''"), 2);
    assert_eq!(constant_of_char_len("'a''''"), 2);
    assert_eq!(constant_of_char_len("'''''"), 1);
    assert_eq!(unquoted_len(&chars("'hog''e'")), 5);
    assert_eq!(unquote(&chars("'AB'")), vec![0x41, 0x42]);
    assert_eq!(unquote(&chars("'it''s'")), vec![0x69, 0x74, 0x27, 0x73]);
    assert_eq!(unquote(&chars("''''")), vec![0x27]);
    assert_eq!(unquote(&chars("''")), Vec::<u16>::new());
    assert_eq!(unquote(&chars("'a''")), vec![0x61]);
    assert_eq!(unquote(&chars("'''")), Vec::<u16>::new());
    assert_eq!(unquote(&chars("'a''''")), vec![0x61, 0x27]);
    assert_eq!(unquote(&chars("'''a'''")), vec![0x27, 0x61, 0x27]);
    assert_eq!(quoted(&chars("'AB'")), true);
}

#[test]
fn characters_keep_their_low_sixteen_bits() {
    assert_eq!(word_of('A'), 0x41);
    assert_eq!(word_of('\u{3042}'), 0x3042);
    assert_eq!(word_of('\u{ffff}'), 0xffff);
    assert_eq!(word_of('\u{1f600}'), 0xf600);
}

#[test]
fn character_constant_survives_the_round_trip() {
    let already_doubled = ["'hoge'", "''", "''''", "'it''s'", "'a''''b'", "'''a'", "'a'''"];
    for s in already_doubled {
        assert!(is_char(s));
        assert_eq!(requote(&unquote(&chars(s))), s, "{:?}", s);
    }
    let odd_at_the_end = ["'a''", "'''", "'a''''", "'''''"];
    for s in odd_at_the_end {
        assert!(is_char(s));
        let value = unquote(&chars(s));
        let again = requote(&value);
        assert_ne!(again, s);
        assert!(is_char(&again));
        assert_eq!(unquote(&chars(&again)), value);
    }
    let values = ["", "'", "''", "a'b", "'a", "a'", "plain"];
    for v in values {
        let words: Vec<u16> = v.chars().map(|c| c as u16).collect();
        let text = requote(&words);
        assert!(is_char(&text));
        assert_eq!(unquote(&chars(&text)), words);
    }
}

#[test]
fn constant_values_come_from_digits_or_from_the_table() {
    let mut labels = SymbolTable::new();
    labels.insert("LOOP".to_string(), 3);
    labels.insert("A1".to_string(), 9);
    assert_eq!(get_constant_value("10", &labels), Ok(10));
    assert_eq!(get_constant_value("#000A", &labels), Ok(10));
    assert_eq!(get_constant_value("LOOP", &labels), Ok(3));
    assert_eq!(get_constant_value("A1", &labels), Ok(1));
    assert_eq!(get_constant_value("NONE", &labels), Err(ErrorKind::UnresolvedSymbol));
    assert_eq!(get_constant_value("'a'", &labels), Err(ErrorKind::UnresolvedSymbol));
    assert_eq!(get_constant_value("", &labels), Err(ErrorKind::UnresolvedSymbol));
}
