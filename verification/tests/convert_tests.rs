//! The typed conversions and the lazy iterators.

use prse::compile;
use prse::parse_bool;
use prse::parse_char;
use prse::parse_i16;
use prse::parse_i32;
use prse::parse_i64;
use prse::parse_i128;
use prse::parse_i8;
use prse::parse_isize;
use prse::parse_u16;
use prse::parse_u32;
use prse::parse_u64;
use prse::parse_str;
use prse::parse_string;
use prse::parse_u128;
use prse::parse_u8;
use prse::parse_usize;
use prse::Captured;
use prse::ExtParseStr;
use prse::Parse;
use prse::ParseChars;
use prse::ParseError;
use prse::ParseIter;

#[test]
fn unsigned_conversions() {
    assert_eq!(parse_u32("42"), Ok(42));
    assert_eq!(parse_u32("  42\t"), Ok(42));
    assert_eq!(parse_u32("+7"), Ok(7));
    assert_eq!(parse_u32("007"), Ok(7));
    assert_eq!(parse_u32(""), Err(ParseError::Int));
    assert_eq!(parse_u32("x"), Err(ParseError::Int));
    assert_eq!(parse_u32("4 2"), Err(ParseError::Int));
    assert_eq!(parse_u32("-1"), Err(ParseError::Int));
    assert_eq!(parse_u32("4294967295"), Ok(u32::MAX));
    assert_eq!(parse_u32("4294967296"), Err(ParseError::Int));
    assert_eq!(parse_u8("255"), Ok(255));
    assert_eq!(parse_u8("256"), Err(ParseError::Int));
    assert_eq!(parse_u16("65535"), Ok(u16::MAX));
    assert_eq!(parse_u16("65536"), Err(ParseError::Int));
    assert_eq!(parse_u64("18446744073709551615"), Ok(u64::MAX));
    assert_eq!(parse_u64("18446744073709551616"), Err(ParseError::Int));
    assert_eq!(parse_usize("123"), Ok(123));
    assert_eq!(parse_u128("340282366920938463463374607431768211455"), Ok(u128::MAX));
    assert_eq!(
        parse_u128("340282366920938463463374607431768211456"),
        Err(ParseError::Int)
    );
}

#[test]
fn signed_conversions() {
    assert_eq!(parse_i32("-5"), Ok(-5));
    assert_eq!(parse_i32(" +5 "), Ok(5));
    assert_eq!(parse_i32("-2147483648"), Ok(i32::MIN));
    assert_eq!(parse_i32("-2147483649"), Err(ParseError::Int));
    assert_eq!(parse_i32("2147483648"), Err(ParseError::Int));
    assert_eq!(parse_i64("-9223372036854775808"), Ok(i64::MIN));
    assert_eq!(parse_i64("-9223372036854775809"), Err(ParseError::Int));
    assert_eq!(parse_i64("9223372036854775807"), Ok(i64::MAX));
    assert_eq!(parse_i8("-128"), Ok(i8::MIN));
    assert_eq!(parse_i8("128"), Err(ParseError::Int));
    assert_eq!(parse_i16("-32768"), Ok(i16::MIN));
    assert_eq!(parse_isize("-9"), Ok(-9));
    assert_eq!(parse_i32("--5"), Err(ParseError::Int));
    assert_eq!(parse_i32("-"), Err(ParseError::Int));
    assert_eq!(
        parse_i128("-170141183460469231731687303715884105728"),
        Ok(i128::MIN)
    );
    assert_eq!(
        parse_i128("-170141183460469231731687303715884105729"),
        Err(ParseError::Int)
    );
    assert_eq!(
        parse_i128("170141183460469231731687303715884105727"),
        Ok(i128::MAX)
    );
}

#[test]
fn bool_and_char_conversions() {
    assert_eq!(parse_bool("true"), Ok(true));
    assert_eq!(parse_bool(" false "), Ok(false));
    assert_eq!(parse_bool("tru"), Err(ParseError::Bool));
    assert_eq!(parse_bool("True"), Err(ParseError::Bool));
    assert_eq!(parse_char("a"), Ok('a'));
    assert_eq!(parse_char("  a "), Ok('a'));
    assert_eq!(parse_char("ab"), Err(ParseError::Char));
    assert_eq!(parse_char(""), Err(ParseError::Char));
}

#[test]
fn string_conversions() {
    // the borrowed conversion hands the very slice back, untrimmed
    assert_eq!(parse_str(" hello "), Ok(" hello "));
    assert_eq!(parse_string("hi"), Ok(String::from("hi")));
    assert_eq!(parse_string(""), Ok(String::new()));
}

#[test]
fn parse_trait_conversions() {
    let n: u32 = "12".lending_parse().unwrap();
    assert_eq!(n, 12);
    let big: u128 = "340282366920938463463374607431768211455".lending_parse().unwrap();
    assert_eq!(big, u128::MAX);
    let bigneg: i128 = "-9".lending_parse().unwrap();
    assert_eq!(bigneg, -9);
    let s: &str = Parse::from_str("hello").unwrap();
    assert_eq!(s, "hello");
    let owned: String = "hi".lending_parse().unwrap();
    assert_eq!(owned, "hi");
    let b: bool = "true".lending_parse().unwrap();
    assert!(b);
    let c: Result<char, ParseError> = "xy".lending_parse();
    assert_eq!(c, Err(ParseError::Char));
    let i: i64 = " -3 ".lending_parse().unwrap();
    assert_eq!(i, -3);
}

#[test]
fn parse_error_new_wraps_message() {
    let e = ParseError::new("expected a colon.");
    assert_eq!(e, ParseError::Other(String::from("expected a colon.")));
    assert_ne!(e, ParseError::Other(String::from("something else")));
}

#[test]
fn check_impl_traits() {
    fn is_send<T: Send>() {}
    fn is_sync<T: Sync>() {}

    is_send::<ParseError>();
    is_sync::<ParseError>();
}

#[test]
fn iter_basic() {
    let mut it = ParseIter::new("2-3", "-", false);
    assert_eq!(it.next().map(parse_u32), Some(Ok(2)));
    assert_eq!(it.next().map(parse_u32), Some(Ok(3)));
    assert_eq!(it.next(), None);
    assert_eq!(it.next(), None);
}

#[test]
fn iter_empty_pieces() {
    // without skip-repeated mode, empty pieces between separators appear,
    // but a trailing empty piece never does
    let mut it = ParseIter::new("a,,b,", ",", false);
    assert_eq!(it.next(), Some("a"));
    assert_eq!(it.next(), Some(""));
    assert_eq!(it.next(), Some("b"));
    assert_eq!(it.next(), None);

    let mut it = ParseIter::new("a,,b,", ",", true);
    assert_eq!(it.next(), Some("a"));
    assert_eq!(it.next(), Some("b"));
    assert_eq!(it.next(), None);

    let mut it = ParseIter::new("", ",", false);
    assert_eq!(it.next(), None);
}

#[test]
fn iter_char_mode() {
    let mut it = ParseIter::new("ab€", "", false);
    assert_eq!(it.next(), Some("a"));
    assert_eq!(it.next(), Some("b"));
    assert_eq!(it.next(), Some("€"));
    assert_eq!(it.next(), None);
}

#[test]
fn iter_laziness() {
    // an error converting one element does not spoil those read before it
    let t = compile("{:,:0}").unwrap();
    let caps = t.match_str("1,x,3").unwrap();
    let mut it = match caps.get(0) {
        Captured::Lazy { region, sep, multi } => ParseIter::new(region, sep.as_str(), *multi),
        _ => panic!("expected a lazy capture"),
    };
    assert_eq!(it.next().map(parse_u32), Some(Ok(1)));
    assert_eq!(it.next().map(parse_u32), Some(Err(ParseError::Int)));
    assert_eq!(it.next().map(parse_u32), Some(Ok(3)));
    assert_eq!(it.next(), None);

    // a fresh iterator over the same region restarts from the beginning
    let mut again = match caps.get(0) {
        Captured::Lazy { region, sep, multi } => ParseIter::new(region, sep.as_str(), *multi),
        _ => panic!("expected a lazy capture"),
    };
    assert_eq!(again.next(), Some("1"));
}

#[test]
fn iter_size_hint() {
    let mut it = ParseIter::new("1-2---3", "-", true);
    let mut count: usize = 0;
    loop {
        let (lo, hi) = it.size_hint();
        let mut left: usize = 0;
        let mut probe = ParseIter::new("1-2---3", "-", true);
        for _ in 0..count {
            probe.next();
        }
        while probe.next().is_some() {
            left += 1;
        }
        assert!(lo <= left);
        assert!(left <= hi.unwrap());
        if it.next().is_none() {
            break;
        }
        count += 1;
    }
}

#[test]
fn chars_both_ends() {
    let mut it = ParseChars::new("ab€c");
    assert_eq!(it.next(), Some("a"));
    assert_eq!(it.next_back(), Some("c"));
    assert_eq!(it.next_back(), Some("€"));
    assert_eq!(it.next(), Some("b"));
    assert_eq!(it.next(), None);
    assert_eq!(it.next_back(), None);

    let it = ParseChars::new("523");
    assert_eq!(it.count(), 3);
    let it = ParseChars::new("523");
    assert_eq!(it.last(), Some("3"));
    let it = ParseChars::new("");
    assert_eq!(it.last(), None);

    let mut word = ParseChars::new("@€⛺🤓🤓⛺€@");
    assert_eq!(word.next().map(parse_char), Some(Ok('@')));
    assert_eq!(word.next().map(parse_char), Some(Ok('€')));
    assert_eq!(word.next().map(parse_char), Some(Ok('⛺')));
    assert_eq!(word.next().map(parse_char), Some(Ok('🤓')));
    assert_eq!(word.next_back().map(parse_char), Some(Ok('@')));
    assert_eq!(word.next_back().map(parse_char), Some(Ok('€')));
    assert_eq!(word.next_back().map(parse_char), Some(Ok('⛺')));
    assert_eq!(word.next_back().map(parse_char), Some(Ok('🤓')));
    assert_eq!(word.next(), None);
}

#[test]
fn parse_iter_chars() {
    let t = compile("Char: ({::6})").unwrap();
    let caps = t.match_str("Char: (123456)").unwrap();
    let arr: Vec<u8> = match caps.get(0) {
        Captured::Many { elems, .. } => elems.iter().map(|s| parse_u8(s).unwrap()).collect(),
        _ => panic!("expected a multi-value capture"),
    };
    assert_eq!(arr, vec![1, 2, 3, 4, 5, 6]);

    let t = compile("{::}").unwrap();
    let caps = t.match_str("523").unwrap();
    let vec: Vec<u8> = match caps.get(0) {
        Captured::Many { elems, .. } => elems.iter().map(|s| parse_u8(s).unwrap()).collect(),
        _ => panic!("expected a multi-value capture"),
    };
    assert_eq!(vec![5u8, 2, 3], vec);

    let t = compile("{::0}").unwrap();
    let caps = t.match_str("@€⛺🤓🤓⛺€@").unwrap();
    let mut iter = match caps.get(0) {
        Captured::Lazy { region, sep, multi } => ParseIter::new(region, sep.as_str(), *multi),
        _ => panic!("expected a lazy capture"),
    };
    assert_eq!(Some(Ok('@')), iter.next().map(parse_char));
    assert_eq!(Some(Ok('€')), iter.next().map(parse_char));
    assert_eq!(Some(Ok('⛺')), iter.next().map(parse_char));
    assert_eq!(Some(Ok('🤓')), iter.next().map(parse_char));
    assert_eq!(Some(Ok('🤓')), iter.next().map(parse_char));
    assert_eq!(Some(Ok('⛺')), iter.next().map(parse_char));
    assert_eq!(Some(Ok('€')), iter.next().map(parse_char));
    assert_eq!(Some(Ok('@')), iter.next().map(parse_char));
}
