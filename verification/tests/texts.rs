use codex_process_guardian::decimal::{append_decimal, parse_number, to_decimal};
use codex_process_guardian::text::{
    at_most, chars_of, clean_field, contains, is_white_space, join, lines, lower_chars, pad_left,
    pad_right, same, same_text, slice_copy, split, split_once, string_of, to_lower, trim,
};
use codex_process_guardian::wide::{
    decode_utf16_bytes, decode_words, read_native, to_wide, wide_z_to_string,
};

fn chars(s: &str) -> Vec<char> {
    s.chars().collect()
}

fn texts(list: Vec<Vec<char>>) -> Vec<String> {
    list.into_iter().map(|part| part.into_iter().collect()).collect()
}

const SAMPLES: [&str; 14] = [
    "",
    "a",
    "  padded \t",
    "\u{3000}全角\u{3000}",
    "a=b=c",
    "one\ntwo\r\nthree",
    "one\n",
    "\n",
    "\r\n",
    "x\r",
    "a\tb\r\nc",
    "MiXeD Ä 进程",
    "trailing\n\n",
    "🦀 crab",
];

#[test]
fn white_space_is_that_of_char() {
    for value in 0..=0x10ffff_u32 {
        if let Some(c) = char::from_u32(value) {
            assert_eq!(is_white_space(c), c.is_whitespace(), "{value:x}");
        }
    }
}

#[test]
fn texts_are_cut_as_str_cuts_them() {
    for sample in SAMPLES {
        let list = chars(sample);
        assert_eq!(chars_of(sample), list);
        assert_eq!(string_of(&list), sample);
        assert_eq!(trim(&list), chars(sample.trim()));
        let expected: Vec<&str> = sample.lines().collect();
        assert_eq!(texts(lines(&list)), expected);
        let expected: Vec<&str> = sample.split('\t').collect();
        assert_eq!(texts(split(&list, '\t')), expected);
        let expected = sample.split_once('=').map(|(a, b)| (chars(a), chars(b)));
        assert_eq!(split_once(&list, '='), expected);
        assert_eq!(to_lower(sample), sample.to_ascii_lowercase());
        assert_eq!(lower_chars(sample), chars(&sample.to_ascii_lowercase()));
        for other in SAMPLES {
            assert_eq!(contains(&list, other), sample.contains(other));
            assert_eq!(same(&list, other), sample == other);
            assert_eq!(same_text(sample, other), sample == other);
            assert_eq!(at_most(sample, other), sample <= other);
        }
    }
}

#[test]
fn parts_are_joined_and_padded() {
    let parts = vec!["a".to_string(), String::new(), "进程".to_string()];
    assert_eq!(join(&parts, ", "), "a, , 进程");
    assert_eq!(join(&Vec::new(), ", "), "");
    assert_eq!(join(&vec!["a".to_string()], ", "), "a");
    assert_eq!(pad_left("7", 3), "  7");
    assert_eq!(pad_right("进程", 4), "进程  ");
    assert_eq!(pad_right("longer", 3), "longer");
    assert_eq!(slice_copy(&chars("abcd"), 1, 3), chars("bc"));
}

#[test]
fn joined_fields_come_apart() {
    let parts = vec!["a".to_string(), String::new(), "b c".to_string()];
    let joined = join(&parts, "\t");
    assert_eq!(texts(split(&chars(&joined), '\t')), parts);
}

#[test]
fn cleaned_fields_hold_no_breaks() {
    assert_eq!(clean_field("a\tb\r\nc"), "a b  c");
    assert_eq!(clean_field(&clean_field("a\tb\r\nc")), "a b  c");
    assert_eq!(to_lower(&to_lower("ÄBC")), to_lower("ÄBC"));
}

#[test]
fn numbers_are_written_and_read() {
    for n in [0, 7, 10, 4_294_967_295, u64::MAX] {
        assert_eq!(to_decimal(n), n.to_string());
        assert_eq!(parse_number(&chars(&to_decimal(n)), u64::MAX), Some(n));
    }
    let mut text = "n=".to_string();
    append_decimal(&mut text, 105);
    assert_eq!(text, "n=105");
    for sample in ["", "+", "-1", "+5", "007", " 1", "1 ", "1_0", "18446744073709551616", "٣"] {
        assert_eq!(parse_number(&chars(sample), u64::MAX), sample.parse::<u64>().ok());
        let narrow = parse_number(&chars(sample), u32::MAX as u64);
        assert_eq!(narrow, sample.parse::<u32>().ok().map(u64::from));
    }
    assert_eq!(parse_number(&chars("4294967296"), u32::MAX as u64), None);
    assert_eq!(parse_number(&chars("4294967295"), u32::MAX as u64), Some(4_294_967_295));
    assert_ne!(to_decimal(12), to_decimal(21));
}

#[test]
fn wide_texts_end_in_zero_and_read_back() {
    for sample in SAMPLES {
        let wide = to_wide(sample);
        let mut expected: Vec<u16> = sample.encode_utf16().collect();
        expected.push(0);
        assert_eq!(wide, expected);
        assert_eq!(wide_z_to_string(&wide), sample);
    }
    assert_eq!(wide_z_to_string(&[0x61, 0, 0x62]), "a");
    assert_eq!(wide_z_to_string(&[0x61, 0x62]), "ab");
}

#[test]
fn broken_pairs_become_replacement_characters() {
    let lists: [&[u16]; 8] = [
        &[0xd83e, 0xdd80],
        &[0xd83e],
        &[0xdd80],
        &[0xd83e, 0xd83e, 0xdd80],
        &[0xdd80, 0xd83e, 0x61],
        &[0xd7ff, 0xe000, 0xffff],
        &[0xd800, 0xdc00],
        &[0xdbff, 0xdfff],
    ];
    for words in lists {
        assert_eq!(decode_words(words), String::from_utf16_lossy(words));
    }
}

#[test]
fn native_bytes_are_read_in_order() {
    let bytes = 0x1234_5678_u32.to_ne_bytes();
    assert_eq!(read_native(&bytes, 0, 4), 0x1234_5678);
    let bytes = 0x0102_0304_0506_0708_u64.to_ne_bytes();
    assert_eq!(read_native(&bytes, 0, 8), 0x0102_0304_0506_0708);
    let mut odd: Vec<u8> = Vec::new();
    odd.extend(0x61_u16.to_ne_bytes());
    odd.push(9);
    assert_eq!(decode_utf16_bytes(&odd), "a");
    assert_eq!(decode_utf16_bytes(&[]), "");
}
