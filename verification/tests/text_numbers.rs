use sab_workshop::bytes::{half_to_bits, put16, put32, u16at, u32at};
use sab_workshop::hierarchy::settle;
use sab_workshop::number::{parse_signed, parse_unsigned};
use sab_workshop::text;

#[test]
fn numbers_are_read_as_the_standard_library_reads_them() {
    for s in ["0", "17", "+17", "", "+", "-1", "1_0", "ff", "18446744073709551615", "18446744073709551616"] {
        assert_eq!(parse_unsigned(s, 10, u64::MAX), s.parse::<u64>().ok(), "{s:?}");
    }
    for s in ["ff", "FF", "+0a", "fffffffff", "g", ""] {
        assert_eq!(
            parse_unsigned(s, 16, u32::MAX as u64),
            u32::from_str_radix(s, 16).ok().map(|v| v as u64),
            "{s:?}"
        );
    }
    for s in ["-5", "5", "+5", "--5", "-", "5-", "2147483647", "2147483648", "-2147483648", "-2147483649"] {
        assert_eq!(
            parse_signed(s, i32::MAX as u64),
            s.parse::<i32>().ok().map(|v| v as i128),
            "{s:?}"
        );
    }
}

#[test]
fn a_decimal_reads_back() {
    for n in [0u64, 9, 10, 12345, u64::MAX] {
        assert_eq!(parse_unsigned(&text::dec_of(n as u128), 10, u64::MAX), Some(n));
    }
}

#[test]
fn white_space_is_trimmed_as_the_standard_library_trims_it() {
    for s in ["", "  ", "\t a b \u{a0}\n", "\u{3000}x\u{2009}", "plain", "\u{200b}zero width"] {
        assert_eq!(text::trimmed(s), s.trim(), "{s:?}");
        assert_eq!(text::trimmed_left(s), s.trim_start(), "{s:?}");
    }
}

#[test]
fn text_is_cut_at_characters() {
    assert_eq!(text::trunc("pilote", 3), "pil…");
    assert_eq!(text::trunc("été", 3), "été");
    assert_eq!(text::trunc("étés", 3), "été…");
    assert_eq!(text::trunc("", 0), "");
}

#[test]
fn words_are_shown_in_capitals() {
    assert_eq!(text::word_text(0xdead_00ef), "0xDEAD00EF");
    assert_eq!(text::hex_of(0xab, 8), "000000ab");
    assert_eq!(text::dec_of(0), "0");
}

#[test]
fn small_helpers_match_the_standard_library() {
    assert_eq!(text::lowered("CH_Ä_Sean"), "CH_Ä_Sean".to_ascii_lowercase());
    assert_eq!(text::uppered("ch_ä"), "ch_ä".to_ascii_uppercase());
    assert_eq!(text::pieces("a/b//c", '/'), vec!["a", "b", "", "c"]);
    assert_eq!(text::pieces("", '/'), vec![""]);
    assert_eq!(text::trimmed_end("a//", '/'), "a");
    assert_eq!(text::joined(&["a".to_string(), "b".to_string()], ", "), "a, b");
    assert!(text::comes_before("Z", "a"));
    assert!(text::comes_before("ab", "abc"));
    assert!(!text::comes_before("abc", "abc"));
}

#[test]
fn what_is_written_is_read() {
    let mut v = Vec::new();
    put16(&mut v, 0xbeef);
    put32(&mut v, 0x1234_5678);
    assert_eq!(v, vec![0xef, 0xbe, 0x78, 0x56, 0x34, 0x12]);
    assert_eq!(u16at(&v, 0), 0xbeef);
    assert_eq!(u32at(&v, 2), 0x1234_5678);
}

#[test]
fn halves_widen() {
    assert_eq!(half_to_bits(0x3c00), 1.0f32.to_bits());
    assert_eq!(half_to_bits(0xc000), (-2.0f32).to_bits());
    assert_eq!(half_to_bits(0x0000), 0.0f32.to_bits());
    assert_eq!(half_to_bits(0x8000), (-0.0f32).to_bits());
    assert_eq!(half_to_bits(0x0001), 5.9604645e-8f32.to_bits());
    assert_eq!(half_to_bits(0x7c00), f32::INFINITY.to_bits());
}

#[test]
fn bones_settle_behind_their_parents() {
    let (order, done) = settle(&[1, -1, 0], &[false, false, false]);
    assert_eq!(order, vec![1, 0, 2]);
    assert_eq!(done, vec![true, true, true]);
    let (_, done) = settle(&[1, 0, -1], &[false, false, false]);
    assert_eq!(done, vec![false, false, true]);
}
