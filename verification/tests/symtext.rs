use one_collect::intern::{InternError, InternedStrings};
use one_collect::symtext::{
    chars_of, find_char, is_whitespace, parse_hex_u64, parse_kallsyms_line, parse_perf_map_line, parse_r2r_line,
    parse_r2r_signature, split3_ranges, word_ranges,
};

#[test]
fn words_and_whitespace() {
    let cs = chars_of("  ab\tc \u{a0}d\n");
    assert_eq!(vec![(2, 4), (5, 6), (8, 9)], word_ranges(&cs));
    assert!(is_whitespace('\u{3000}'));
    assert!(!is_whitespace('x'));
    assert!(word_ranges(&chars_of("   ")).is_empty());
}

#[test]
fn hex_parsing_follows_from_str_radix() {
    let p = |s: &str| {
        let cs = chars_of(s);
        parse_hex_u64(&cs, 0, cs.len())
    };
    assert_eq!(Some(0xff), p("ff"));
    assert_eq!(Some(0xAB), p("+AB"));
    assert_eq!(None, p(""));
    assert_eq!(None, p("+"));
    assert_eq!(None, p("-1"));
    assert_eq!(None, p("0x10"));
    assert_eq!(Some(u64::MAX), p("ffffffffffffffff"));
    assert_eq!(None, p("10000000000000000"));
    for s in ["0", "7f", "+1", "DEADbeef", "g", "", "+", "123456789abcdef0"] {
        assert_eq!(u64::from_str_radix(s, 16).ok(), p(s), "{}", s);
    }
}

#[test]
fn splitting_and_finding() {
    let cs = chars_of("a b c d");
    assert_eq!(vec![(0, 1), (2, 3), (4, 7)], split3_ranges(&cs));
    assert_eq!(vec![(0, 0)], split3_ranges(&chars_of("")));
    assert_eq!(1, find_char(&cs, ' ', 0));
    assert_eq!(7, find_char(&cs, 'z', 0));
}

#[test]
fn kallsyms_lines() {
    let (addr, code, name) = parse_kallsyms_line("ffffffff81000000 T start_kernel\n");
    assert_eq!((0xffffffff81000000, true), (addr, code));
    assert_eq!("start_kernel", name);
    let (_, code, name) = parse_kallsyms_line("00000000000000ac t method2 [module]\n");
    assert!(code);
    assert_eq!("[module] method2", name);
    let (addr, code, name) = parse_kallsyms_line("\n");
    assert_eq!((0, false, String::new()), (addr, code, name));
    let (_, code, _) = parse_kallsyms_line("1 D data\n");
    assert!(!code);
}

#[test]
fn perf_map_and_r2r_lines() {
    assert_eq!(Some((0x10, 0x20, "name with spaces".to_string())), parse_perf_map_line("0x10 20 name with spaces\n"));
    assert_eq!(Some((0x10, 0x20, String::new())), parse_perf_map_line("10 20"));
    assert_eq!(None, parse_perf_map_line("10 20\n"));
    assert_eq!(None, parse_perf_map_line("zz 20 x\n"));
    assert_eq!((0x10, 0x30, "n".to_string()), parse_r2r_line("0X10 20 n\r\n"));
    assert_eq!((0x10, 0, String::new()), parse_r2r_line("10"));
    let sig = parse_r2r_signature("000102030405060708090a0b0c0d0e0f");
    assert_eq!([0u8, 1, 2, 3, 4, 5, 6, 7, 8, 9, 10, 11, 12, 13, 14, 15], sig);
    assert_eq!([0u8; 16], parse_r2r_signature("0001"));
}

#[test]
fn interned_strings_round_trip() {
    let mut strings = InternedStrings::new(4);
    let a = strings.to_id("alpha");
    let b = strings.to_id("beta");
    assert_ne!(a, b);
    assert_eq!(a, strings.to_id("alpha"));
    assert_eq!(Ok("alpha"), strings.from_id(a));
    assert_eq!(Ok("beta"), strings.from_id(b));
    assert_eq!(2, strings.len());
    assert_eq!(Err(InternError::UnknownId), strings.from_id(99));
}
