use rust_casl2::text::{
    chars_of, is_whitespace, normalize_commas, same_text, split_lines, split_words,
};

fn cut(cs: &[char], ranges: &[(usize, usize)]) -> Vec<String> {
    ranges.iter().map(|r| cs[r.0..r.1].iter().collect::<String>()).collect()
}

const SAMPLES: [&str; 22] = [
    "",
    " ",
    "a",
    " a",
    "a ",
    "  a  b  ",
    "LOOP LD GR1 GR2",
    " JUMP LOOP ; back",
    "\tLD\tGR1\t=5",
    "a\u{3000}b\u{a0}c\u{2003}d",
    "a\nb",
    "a\nb\n",
    "\n",
    "\n\n",
    "a\r\nb\r\n",
    "a\rb",
    "a\r",
    "a\r\n",
    "\r\n\r\n",
    "a\n\nb",
    "x\r\r\ny",
    " START\n LD GR1,GR2\n END\n",
];

#[test]
fn characters_of_a_text() {
    for s in SAMPLES {
        assert_eq!(chars_of(s), s.chars().collect::<Vec<char>>());
    }
    assert_eq!(chars_of("aé√"), vec!['a', 'é', '√']);
}

#[test]
fn same_text_is_equality() {
    for a in SAMPLES {
        for b in SAMPLES {
            assert_eq!(same_text(a, b), a == b);
        }
    }
    assert_eq!(same_text("LD", "LD"), true);
    assert_eq!(same_text("LD", "LAD"), false);
    assert_eq!(same_text("é", "e"), false);
}

#[test]
fn white_space_is_that_of_the_standard_library() {
    let mut u: u32 = 0;
    while u <= 0x10ffff {
        if let Some(c) = char::from_u32(u) {
            assert_eq!(is_whitespace(c), c.is_whitespace(), "{:x}", u);
        }
        u += 1;
    }
}

#[test]
fn words_are_those_of_the_standard_library() {
    for s in SAMPLES {
        let cs: Vec<char> = s.chars().collect();
        let expected: Vec<String> = s.split_whitespace().map(|w| w.to_string()).collect();
        assert_eq!(cut(&cs, &split_words(&cs)), expected, "{:?}", s);
    }
}

#[test]
fn words_with_their_places() {
    let cs: Vec<char> = "  ab c ".chars().collect();
    assert_eq!(split_words(&cs), vec![(2, 4), (5, 6)]);
    let cs: Vec<char> = "ab".chars().collect();
    assert_eq!(split_words(&cs), vec![(0, 2)]);
    let cs: Vec<char> = "   ".chars().collect();
    assert_eq!(split_words(&cs), vec![]);
}

#[test]
fn lines_are_those_of_the_standard_library() {
    for s in SAMPLES {
        let cs: Vec<char> = s.chars().collect();
        let expected: Vec<String> = s.lines().map(|w| w.to_string()).collect();
        let found = split_lines(&cs);
        assert_eq!(cut(&cs, &found.0), expected, "{:?}", s);
        assert_eq!(found.1 + 1, s.split('\n').count(), "{:?}", s);
    }
}

#[test]
fn lines_with_their_places() {
    let cs: Vec<char> = "ab\r\n\ncd".chars().collect();
    let found = split_lines(&cs);
    assert_eq!(found.0, vec![(0, 2), (4, 4), (5, 7)]);
    assert_eq!(found.1, 2);
}

#[test]
fn commas_become_spaces() {
    assert_eq!(normalize_commas("LD GR1,GR2"), "LD GR1 GR2");
    assert_eq!(normalize_commas(",a,,b,"), " a  b ");
    assert_eq!(normalize_commas(""), "");
    assert_eq!(normalize_commas("no comma"), "no comma");
    for s in SAMPLES {
        assert_eq!(normalize_commas(s), s.replace(",", " "));
    }
    assert_eq!(normalize_commas("é,√,"), "é √ ");
}
