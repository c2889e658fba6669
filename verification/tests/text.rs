use dockerwall::text::{
    contains, ends_with, lines, parse_uint, push_chars, push_padded, push_decimal, split, string_of,
    strip_prefix, to_lower, trim, trim_end, trim_trailing, words, ParseIntError,
};

fn letters(s: &str) -> Vec<char> {
    s.chars().collect()
}

fn texts(parts: Vec<&[char]>) -> Vec<String> {
    parts.iter().map(|part| part.iter().collect()).collect()
}

#[test]
fn strings_are_built_from_characters() {
    assert_eq!(string_of(&letters("a\u{e9}\u{1f600}")), "a\u{e9}\u{1f600}");
    let mut out = "x".to_string();
    push_chars(&mut out, &letters("yz"));
    assert_eq!(out, "xyz");
}

#[test]
fn text_is_cut_as_std_does() {
    for s in ["", " a b ", "a", "\u{a0}x\u{2003}", "\t\n", "a\u{b}b", "\u{1c}x", "x\u{200b}"] {
        assert_eq!(string_of(trim(&letters(s))), s.trim());
        assert_eq!(string_of(trim_end(&letters(s))), s.trim_end());
        let std_words: Vec<&str> = s.split_whitespace().collect();
        assert_eq!(texts(words(&letters(s), false)), std_words);
        let ascii_words: Vec<&str> = s.split_ascii_whitespace().collect();
        assert_eq!(texts(words(&letters(s), true)), ascii_words);
    }
    for s in ["", "\n", "a\nb", "a\r\nb\n", "a\r", "\r\n\r\n", "a\r\r\nb", "a\n\n"] {
        let std_lines: Vec<&str> = s.lines().collect();
        assert_eq!(texts(lines(&letters(s))), std_lines);
    }
    for s in ["", ",", "a,b", ",a,,b,"] {
        let std_pieces: Vec<&str> = s.split(',').collect();
        assert_eq!(texts(split(&letters(s), ',')), std_pieces);
    }
    for s in ["", ".", "a..", "..a", "a.b."] {
        assert_eq!(string_of(trim_trailing(&letters(s), '.')), s.trim_end_matches('.'));
    }
}

#[test]
fn text_is_searched_as_std_does() {
    for s in ["", "a", "ab", "aab", "abab", "\u{e9}ab"] {
        for p in ["", "a", "ab", "b", "abc"] {
            assert_eq!(contains(&letters(s), &letters(p)), s.contains(p));
            assert_eq!(ends_with(&letters(s), &letters(p)), s.ends_with(p));
            assert_eq!(
                strip_prefix(&letters(s), p).map(string_of),
                s.strip_prefix(p).map(str::to_string)
            );
        }
    }
}

#[test]
fn only_ascii_letters_change_case() {
    assert_eq!(string_of(&to_lower(&letters("AZaz09-\u{c9}[@"))), "azaz09-\u{c9}[@");
}

#[test]
fn numbers_are_read_as_std_does() {
    let read = |s: &str, max: u32| parse_uint(&letters(s), max);
    assert_eq!(read("0", u32::MAX), Ok(0));
    assert_eq!(read("+7", u32::MAX), Ok(7));
    assert_eq!(read("007", u32::MAX), Ok(7));
    assert_eq!(read("4294967295", u32::MAX), Ok(u32::MAX));
    assert_eq!(read("4294967296", u32::MAX), Err(ParseIntError::PosOverflow));
    assert_eq!(read("65535", 65535), Ok(65535));
    assert_eq!(read("65536", 65535), Err(ParseIntError::PosOverflow));
    assert_eq!(read("", 65535), Err(ParseIntError::Empty));
    for s in ["", "+", "-", "-1", "1x", "x", "99999999999999999999x", "1 ", "++1", "65536", "\u{664}"] {
        let ours = read(s, 65535).map_err(|e| e.message());
        let std_result = s.parse::<u16>().map(u32::from).map_err(|e| e.to_string());
        assert_eq!(ours, std_result, "{s:?}");
    }
}

#[test]
fn numbers_are_written_and_texts_filled() {
    let mut out = String::new();
    push_decimal(&mut out, 0);
    push_decimal(&mut out, 1203);
    push_decimal(&mut out, u64::MAX);
    assert_eq!(out, "0120318446744073709551615");
    let mut out = String::new();
    push_padded(&mut out, "a\u{e9}", 4);
    push_padded(&mut out, "long", 2);
    assert_eq!(out, "a\u{e9}  long");
}
