use riddle::lines::{split_lines, split_words};
use riddle::number::{parse_number, to_decimal, to_digit};
use riddle::sentence::char_width;
use riddle::text::{
    chars_of, find, push_text, strip_end, strip_start, string_of, trimmed, trimmed_end,
    trimmed_start, without_slashes,
};

const SAMPLES: [&str; 12] = [
    "",
    " ",
    "plain",
    "  two words  ",
    "line\nline\r\nline",
    "\n\n",
    "ends\r",
    "ends\n",
    "a\r\n\r\nb\r",
    "\u{3000}wide\u{a0}space\t",
    "Déjà vu — oui 你好",
    "http://host/v1///",
];

fn texts(list: Vec<Vec<char>>) -> Vec<String> {
    list.iter().map(|cs| string_of(cs)).collect()
}

#[test]
fn text_is_split_and_trimmed_as_usual() {
    for s in SAMPLES {
        let cs = chars_of(s);
        assert_eq!(string_of(&cs), s);
        assert_eq!(texts(split_lines(&cs)), s.lines().collect::<Vec<_>>());
        assert_eq!(texts(split_words(&cs)), s.split_whitespace().collect::<Vec<_>>());
        assert_eq!(string_of(trimmed(&cs)), s.trim());
        assert_eq!(string_of(trimmed_start(&cs)), s.trim_start());
        assert_eq!(string_of(trimmed_end(&cs)), s.trim_end());
        assert_eq!(string_of(without_slashes(&cs)), s.trim_end_matches('/'));
    }
}

#[test]
fn text_is_searched_as_usual() {
    for s in SAMPLES {
        let cs = chars_of(s);
        for needle in ["", "line", "vu", "\n", "/v1", "none"] {
            let want = s.find(needle).map(|b| s[..b].chars().count());
            assert_eq!(find(&cs, &chars_of(needle), 0), want);
            assert_eq!(strip_start(&cs, needle).map(string_of).as_deref(), s.strip_prefix(needle));
            assert_eq!(strip_end(&cs, needle).map(string_of).as_deref(), s.strip_suffix(needle));
        }
    }
    assert_eq!(find(&chars_of("abab"), &chars_of("ab"), 1), Some(2));
}

#[test]
fn text_is_joined() {
    let mut s = "Tom".to_string();
    push_text(&mut s, " — 你");
    assert_eq!(s, "Tom — 你");
}

#[test]
fn numbers_are_read_as_usual() {
    for s in ["", "0", "7", "+7", "-7", "++7", " 7", "007", "4294967295", "4294967296", "1e3", "٣"] {
        let got = parse_number(&chars_of(s), 10, u32::MAX as u64);
        assert_eq!(got, s.parse::<u32>().ok().map(|n| n as u64));
        let got = parse_number(&chars_of(s), 16, u32::MAX as u64);
        assert_eq!(got, u32::from_str_radix(s, 16).ok().map(|n| n as u64));
    }
    for c in ['0', '9', 'a', 'F', 'g', 'z', 'Z', '+', 'é'] {
        assert_eq!(to_digit(c, 16), c.to_digit(16));
        assert_eq!(to_digit(c, 36), c.to_digit(36));
    }
    for n in [0, 9, 10, 2000, u64::MAX] {
        assert_eq!(string_of(&to_decimal(n)), n.to_string());
    }
}

#[test]
fn characters_take_as_many_bytes_as_usual() {
    for c in ['a', '\u{7f}', '\u{80}', 'é', '\u{7ff}', '\u{800}', '…', '你', '\u{ffff}', '😀'] {
        assert_eq!(char_width(c), c.len_utf8());
    }
}
