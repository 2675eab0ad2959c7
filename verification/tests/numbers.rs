use filmliste::text::{find_sep, parse_i32, parse_u32, parse_usize, split_first};

#[test]
fn unsigned_numbers_are_decimal() {
    assert_eq!(Some(0), parse_u32(b"0"));
    assert_eq!(Some(12), parse_u32(b"12"));
    assert_eq!(Some(31), parse_u32(b"031"));
    assert_eq!(Some(7), parse_u32(b"+7"));
    assert_eq!(Some(0), parse_u32(b"0000000000000000000000"));
    assert_eq!(Some(4294967295), parse_u32(b"4294967295"));
    assert_eq!(Some(4294967295), parse_u32(b"+004294967295"));
}

#[test]
fn unsigned_numbers_reject_everything_else() {
    assert_eq!(None, parse_u32(b""));
    assert_eq!(None, parse_u32(b"+"));
    assert_eq!(None, parse_u32(b"-"));
    assert_eq!(None, parse_u32(b"-0"));
    assert_eq!(None, parse_u32(b"-1"));
    assert_eq!(None, parse_u32(b"++1"));
    assert_eq!(None, parse_u32(b"1+"));
    assert_eq!(None, parse_u32(b" 1"));
    assert_eq!(None, parse_u32(b"1 "));
    assert_eq!(None, parse_u32(b"1.0"));
    assert_eq!(None, parse_u32(b"0x10"));
    assert_eq!(None, parse_u32(b"1_000"));
    assert_eq!(None, parse_u32(b"12a"));
    assert_eq!(None, parse_u32("١٢".as_bytes()));
    assert_eq!(None, parse_u32(b"4294967296"));
    assert_eq!(None, parse_u32(b"42949672950"));
    assert_eq!(None, parse_u32(b"99999999999999999999999999999999"));
}

#[test]
fn unsigned_numbers_agree_with_the_standard_parser() {
    for text in [
        "", "0", "1", "+1", "-1", "+", "-", "007", "4294967295", "4294967296", "18446744073709551615",
        "18446744073709551616", "1e3", "٣", " 5", "5 ", "+-5", "2147483648", "-2147483648",
        "-2147483649", "-0", "+0", "00", "-00012",
    ] {
        assert_eq!(text.parse::<u32>().ok(), parse_u32(text.as_bytes()), "{text:?}");
        assert_eq!(text.parse::<i32>().ok(), parse_i32(text.as_bytes()), "{text:?}");
        assert_eq!(text.parse::<usize>().ok(), parse_usize(text.as_bytes()), "{text:?}");
    }
}

#[test]
fn signed_numbers_take_a_minus() {
    assert_eq!(Some(-1), parse_i32(b"-1"));
    assert_eq!(Some(0), parse_i32(b"-0"));
    assert_eq!(Some(1999), parse_i32(b"1999"));
    assert_eq!(Some(2147483647), parse_i32(b"2147483647"));
    assert_eq!(Some(-2147483648), parse_i32(b"-2147483648"));
    assert_eq!(Some(-2147483647), parse_i32(b"-2147483647"));
    assert_eq!(None, parse_i32(b"2147483648"));
    assert_eq!(None, parse_i32(b"-2147483649"));
    assert_eq!(None, parse_i32(b"--1"));
    assert_eq!(None, parse_i32(b"-+1"));
    assert_eq!(None, parse_i32(b""));
}

#[test]
fn sizes_go_up_to_the_largest() {
    assert_eq!(Some(10), parse_usize(b"10"));
    assert_eq!(Some(usize::MAX), parse_usize(usize::MAX.to_string().as_bytes()));
    let beyond = format!("{}0", usize::MAX);
    assert_eq!(None, parse_usize(beyond.as_bytes()));
    assert_eq!(None, parse_usize(b"-1"));
}

#[test]
fn separator_is_found_first() {
    assert_eq!(0, find_sep(b"", b'.'));
    assert_eq!(3, find_sep(b"abc", b'.'));
    assert_eq!(0, find_sep(b".abc", b'.'));
    assert_eq!(1, find_sep(b"a.b.c", b'.'));
    assert_eq!(5, find_sep(b"a.b.c", b':'));
}

#[test]
fn text_is_split_at_the_first_separator() {
    assert_eq!((&b"a"[..], Some(&b"b.c"[..])), split_first(b"a.b.c", b'.'));
    assert_eq!((&b"abc"[..], None), split_first(b"abc", b'.'));
    assert_eq!((&b""[..], Some(&b""[..])), split_first(b".", b'.'));
    assert_eq!((&b"a"[..], Some(&b""[..])), split_first(b"a.", b'.'));
    assert_eq!((&b""[..], None), split_first(b"", b'.'));
}
