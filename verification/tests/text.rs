use obj_projector::text::{
    blank, digits_only, index_of_byte, numeral, read_corner, read_index, split_tokens,
};

#[test]
fn bytes_are_found_from_a_position_on() {
    let data = b"ab/cd/e";
    assert_eq!(index_of_byte(data, 0, b'/'), 2);
    assert_eq!(index_of_byte(data, 2, b'/'), 2);
    assert_eq!(index_of_byte(data, 3, b'/'), 5);
    assert_eq!(index_of_byte(data, 6, b'/'), 7);
    assert_eq!(index_of_byte(data, 7, b'/'), 7);
    assert_eq!(index_of_byte(b"", 0, b'/'), 0);
}

#[test]
fn blanks_are_the_space_and_the_controls_from_tab_to_return() {
    for b in 0u8..=255 {
        let expected = b == b' ' || (9..=13).contains(&b);
        assert_eq!(blank(b), expected);
    }
}

#[test]
fn tokens_are_runs_without_blanks() {
    let line = b"v 1.0  -2\t3e1 \r";
    let spans = split_tokens(line, 10);
    assert_eq!(spans, vec![(0, 1), (2, 5), (7, 9), (10, 13)]);
    let words: Vec<&[u8]> = spans.iter().map(|s| &line[s.0..s.1]).collect();
    assert_eq!(words, vec![&b"v"[..], &b"1.0"[..], &b"-2"[..], &b"3e1"[..]]);
}

#[test]
fn no_more_tokens_than_the_limit() {
    let line = b"  a bb ccc dddd";
    assert_eq!(split_tokens(line, 0), vec![]);
    assert_eq!(split_tokens(line, 1), vec![(2, 3)]);
    assert_eq!(split_tokens(line, 2), vec![(2, 3), (4, 6)]);
    assert_eq!(split_tokens(line, 4), vec![(2, 3), (4, 6), (7, 10), (11, 15)]);
    assert_eq!(split_tokens(line, usize::MAX), vec![(2, 3), (4, 6), (7, 10), (11, 15)]);
}

#[test]
fn lines_without_tokens() {
    assert_eq!(split_tokens(b"", 4), vec![]);
    assert_eq!(split_tokens(b"   ", 4), vec![]);
    assert_eq!(split_tokens(b"\t\r", 4), vec![]);
}

#[test]
fn digit_runs() {
    assert!(digits_only(b""));
    assert!(digits_only(b"0123456789"));
    assert!(!digits_only(b"12a"));
    assert!(!digits_only(b"/"));
    assert!(!digits_only(b":"));
    assert!(!digits_only(b"-1"));
}

#[test]
fn decimal_numerals() {
    for s in ["0", "1", "-1", "+1", "1.5", "-1.5", ".5", "+.5", "5.", "-5.", "007", "0.000001"] {
        assert!(numeral(s.as_bytes()), "{}", s);
    }
}

#[test]
fn numerals_with_exponents() {
    for s in ["1e5", "1E5", "1e+5", "1e-5", "1.5e10", ".5e1", "5.e1", "-1.25E-3", "1e0005"] {
        assert!(numeral(s.as_bytes()), "{}", s);
    }
}

#[test]
fn special_numerals() {
    for s in ["inf", "INF", "Inf", "+inf", "-inf", "infinity", "Infinity", "-INFINITY", "nan",
        "NaN", "+nan", "-NAN"]
    {
        assert!(numeral(s.as_bytes()), "{}", s);
    }
}

#[test]
fn what_is_no_numeral() {
    for s in [
        "", "+", "-", ".", "+.", "e5", ".e5", "1e", "1e+", "1e-", "1e5.5", "1.2.3", "1..2", "--1",
        "+-1", "1-", "abc", "x", "1x", "0x10", "1f", "1_000", "1,5", "in", "infi", "infinit",
        "infinityy", "na", "nane", "1e5e5", "1E5e5", "1 ", " 1", "1e 5", "e", "E", "١",
    ] {
        assert!(!numeral(s.as_bytes()), "{}", s);
    }
}

#[test]
fn numerals_are_what_the_float_parser_takes() {
    for s in [
        "0", "-1.5", "+.5", "5.", "1e5", "1.e5", "1E-3", "inf", "-Infinity", "NaN", "", "+", ".",
        "e5", "1e", "1e+", "1.2.3", "abc", "0x10", "1f", "infinit", "1e5e5", "+-1", "-.e1",
        "nan0", "1.5E+07", "1ee5",
    ] {
        assert_eq!(numeral(s.as_bytes()), s.parse::<f32>().is_ok(), "{}", s);
    }
}

#[test]
fn indices_count_from_one() {
    assert_eq!(read_index(b"1"), Some(0));
    assert_eq!(read_index(b"2"), Some(1));
    assert_eq!(read_index(b"10"), Some(9));
    assert_eq!(read_index(b"+12"), Some(11));
    assert_eq!(read_index(b"007"), Some(6));
    assert_eq!(read_index(b"1234567"), Some(1234566));
}

#[test]
fn what_is_no_index() {
    assert_eq!(read_index(b""), None);
    assert_eq!(read_index(b"+"), None);
    assert_eq!(read_index(b"0"), None);
    assert_eq!(read_index(b"000"), None);
    assert_eq!(read_index(b"+0"), None);
    assert_eq!(read_index(b"-1"), None);
    assert_eq!(read_index(b"1a"), None);
    assert_eq!(read_index(b"a1"), None);
    assert_eq!(read_index(b"1.0"), None);
    assert_eq!(read_index(b"++1"), None);
    assert_eq!(read_index(b"1 "), None);
}

#[test]
fn the_largest_index() {
    let largest = usize::MAX.to_string();
    assert_eq!(read_index(largest.as_bytes()), Some(usize::MAX - 1));
    let padded = format!("000{}", largest);
    assert_eq!(read_index(padded.as_bytes()), Some(usize::MAX - 1));
}

#[test]
fn indices_that_are_too_large() {
    let beyond = format!("{}", usize::MAX as u128 + 1);
    assert_eq!(read_index(beyond.as_bytes()), None);
    let tenfold = format!("{}0", usize::MAX);
    assert_eq!(read_index(tenfold.as_bytes()), None);
    assert_eq!(read_index(b"99999999999999999999999999999999999999999999"), None);
    // Too large before the byte that is no digit is reached.
    assert_eq!(read_index(b"99999999999999999999999999999999999999999999x"), None);
}

#[test]
fn indices_are_what_the_integer_parser_takes() {
    for s in ["1", "+5", "0", "", "-3", "12x", "18446744073709551615", "18446744073709551616"] {
        let expected = match s.parse::<usize>() {
            Ok(v) if v > 0 => Some(v - 1),
            _ => None,
        };
        assert_eq!(read_index(s.as_bytes()), expected, "{}", s);
    }
}

#[test]
fn corners_name_a_vertex_and_a_normal() {
    assert_eq!(read_corner(b"1/2/3"), Some((0, 2)));
    assert_eq!(read_corner(b"7/1/7"), Some((6, 6)));
    assert_eq!(read_corner(b"12/34/56"), Some((11, 55)));
}

#[test]
fn the_middle_field_of_a_corner_is_not_read() {
    assert_eq!(read_corner(b"1//3"), Some((0, 2)));
    assert_eq!(read_corner(b"1/x/3"), Some((0, 2)));
    assert_eq!(read_corner(b"1/0/3"), Some((0, 2)));
}

#[test]
fn fields_after_the_third_are_not_read() {
    assert_eq!(read_corner(b"1/2/3/4"), Some((0, 2)));
    assert_eq!(read_corner(b"1/2/3/"), Some((0, 2)));
    assert_eq!(read_corner(b"1/2/3/x/y"), Some((0, 2)));
}

#[test]
fn a_corner_without_a_third_field_is_none() {
    assert_eq!(read_corner(b"1"), None);
    assert_eq!(read_corner(b"1/2"), None);
    assert_eq!(read_corner(b"1/"), None);
    assert_eq!(read_corner(b""), None);
}

#[test]
fn a_corner_with_a_field_that_is_no_index_is_none() {
    assert_eq!(read_corner(b"1/2/"), None);
    assert_eq!(read_corner(b"/2/3"), None);
    assert_eq!(read_corner(b"//"), None);
    assert_eq!(read_corner(b"0/1/1"), None);
    assert_eq!(read_corner(b"1/1/0"), None);
    assert_eq!(read_corner(b"a/1/1"), None);
    assert_eq!(read_corner(b"1/1/b"), None);
    assert_eq!(read_corner(b"-1/1/1"), None);
    assert_eq!(read_corner(b"1/1/1.5"), None);
}

fn words(alphabet: &[u8], longest: usize) -> Vec<Vec<u8>> {
    let mut all: Vec<Vec<u8>> = vec![vec![]];
    let mut last: Vec<Vec<u8>> = vec![vec![]];
    for _ in 0..longest {
        let mut next = Vec::new();
        for w in &last {
            for b in alphabet {
                let mut longer = w.clone();
                longer.push(*b);
                next.push(longer);
            }
        }
        all.extend(next.iter().cloned());
        last = next;
    }
    all
}

#[test]
fn every_short_decimal_word_is_judged_as_the_float_parser_judges_it() {
    for w in words(b"+-.eE01", 6) {
        let text = std::str::from_utf8(&w).unwrap();
        assert_eq!(numeral(&w), text.parse::<f32>().is_ok(), "{}", text);
    }
}

#[test]
fn every_short_special_word_is_judged_as_the_float_parser_judges_it() {
    for w in words(b"+-iInNfFaA1", 5) {
        let text = std::str::from_utf8(&w).unwrap();
        assert_eq!(numeral(&w), text.parse::<f32>().is_ok(), "{}", text);
    }
    for w in ["infinity", "INFINITY", "-Infinity", "+iNfInItY", "infinit", "infinityy", "nfinity"] {
        assert_eq!(numeral(w.as_bytes()), w.parse::<f32>().is_ok(), "{}", w);
    }
}

#[test]
fn every_short_index_is_judged_as_the_integer_parser_judges_it() {
    for w in words(b"+-0129 /", 5) {
        let text = std::str::from_utf8(&w).unwrap();
        let expected = match text.parse::<usize>() {
            Ok(v) if v > 0 => Some(v - 1),
            _ => None,
        };
        assert_eq!(read_index(&w), expected, "{}", text);
    }
}
