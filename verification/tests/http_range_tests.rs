use http_ranges::http_range::{CompleteLength, HttpRange, ParseError};

#[test]
fn test1() {
    let http_range = HttpRange::from_header("bytes=0-499", 10000).unwrap();
    assert_eq!(
        http_range,
        HttpRange {
            ranges: vec![0..499],
            complete_length: None
        }
    );
}

#[test]
fn complete_length_unknown() {
    let http_range = HttpRange::from_header("bytes=0-499/*", 10000).unwrap();
    assert_eq!(
        http_range,
        HttpRange {
            ranges: vec![0..499],
            complete_length: Some(CompleteLength::Unknown)
        }
    );
}

#[test]
fn complete_length_test2() {
    let http_range = HttpRange::from_header("bytes=0-499/8000", 10000).unwrap();
    assert_eq!(
        http_range,
        HttpRange {
            ranges: vec![0..499],
            complete_length: Some(CompleteLength::Representation(8000))
        }
    );
}

#[test]
fn test2() {
    let http_range = HttpRange::from_header("bytes=500-999", 10000).unwrap();
    assert_eq!(
        http_range,
        HttpRange {
            ranges: vec![500..999],
            complete_length: None
        }
    );
}

#[test]
fn test3() {
    let http_range = HttpRange::from_header("bytes=-500", 10000).unwrap();
    assert_eq!(
        http_range,
        HttpRange {
            ranges: vec![9500..9999],
            complete_length: None
        }
    );
}

#[test]
fn test4() {
    let http_range = HttpRange::from_header("bytes=9500-", 10000).unwrap();
    assert_eq!(
        http_range,
        HttpRange {
            ranges: vec![9500..9999],
            complete_length: None
        }
    );
}

#[test]
fn test5() {
    let http_range = HttpRange::from_header("bytes=0-0,-1", 10000).unwrap();
    assert_eq!(
        http_range,
        HttpRange {
            ranges: vec![0..0, 9999..9999],
            complete_length: None
        }
    );
}

#[test]
fn test6() {
    let http_range = HttpRange::from_header("bytes= 0-999, 4500-5499, -1000", 10000).unwrap();
    assert_eq!(
        http_range,
        HttpRange {
            ranges: vec![0..999, 4500..5499, 9000..9999],
            complete_length: None
        }
    );
}

#[test]
fn combined_merge_test6() {
    let http_range = HttpRange::from_header("bytes=500-600,601-999", 10000).unwrap();
    assert_eq!(
        http_range,
        HttpRange {
            ranges: vec![500..999],
            complete_length: None
        }
    );
}

#[test]
fn combined_merge_test7() {
    let http_range = HttpRange::from_header("bytes=601-999,500-600", 10000).unwrap();
    assert_eq!(
        http_range,
        HttpRange {
            ranges: vec![500..999],
            complete_length: None
        }
    );
}

#[test]
fn combined_merge_test8() {
    let http_range = HttpRange::from_header("bytes=500-700,601-999", 10000).unwrap();
    assert_eq!(
        http_range,
        HttpRange {
            ranges: vec![500..999],
            complete_length: None
        }
    );
}

#[test]
fn combined_merge_test9() {
    let http_range = HttpRange::from_header("bytes=601-999,500-700", 10000).unwrap();
    assert_eq!(
        http_range,
        HttpRange {
            ranges: vec![500..999],
            complete_length: None
        }
    );
}

#[test]
fn combined_merge_test10() {
    let http_range = HttpRange::from_header("bytes=300-400,400-700,601-999", 10000).unwrap();
    assert_eq!(
        http_range,
        HttpRange {
            ranges: vec![300..999],
            complete_length: None
        }
    );
}

#[test]
fn representation_test1() {
    let http_range = HttpRange::from_header("bytes=0-499/1234", 10000).unwrap();
    assert_eq!(
        http_range,
        HttpRange {
            ranges: vec![0..499],
            complete_length: Some(CompleteLength::Representation(1234))
        }
    );
}

#[test]
fn representation_test2() {
    let http_range = HttpRange::from_header("bytes=500-999/1234", 10000).unwrap();
    assert_eq!(
        http_range,
        HttpRange {
            ranges: vec![500..999],
            complete_length: Some(CompleteLength::Representation(1234))
        }
    );
}

#[test]
fn representation_test3() {
    let http_range = HttpRange::from_header("bytes=500-1233/1234", 10000).unwrap();
    assert_eq!(
        http_range,
        HttpRange {
            ranges: vec![500..1233],
            complete_length: Some(CompleteLength::Representation(1234))
        }
    );
}

#[test]
fn representation_test4() {
    let http_range = HttpRange::from_header("bytes=734-1233/1234", 10000).unwrap();
    assert_eq!(
        http_range,
        HttpRange {
            ranges: vec![734..1233],
            complete_length: Some(CompleteLength::Representation(1234))
        }
    );
}

#[test]
fn to_header_test1() {
    let http_range = HttpRange::from_header("bytes=734-1233/1234", 1234).unwrap();
    assert_eq!(
        http_range,
        HttpRange {
            ranges: vec![734..1233],
            complete_length: Some(CompleteLength::Representation(1234))
        }
    );
    assert_eq!(http_range.to_header(), "bytes=734-1233/1234");
}

#[test]
fn to_header_test2() {
    let http_range = HttpRange::from_header("bytes=734-1233/*", 1234).unwrap();
    assert_eq!(
        http_range,
        HttpRange {
            ranges: vec![734..1233],
            complete_length: Some(CompleteLength::Unknown)
        }
    );
    assert_eq!(http_range.to_header(), "bytes=734-1233/*");
}

#[test]
fn to_header_test3() {
    let http_range = HttpRange::from_header("bytes=734-1233", 1234).unwrap();
    assert_eq!(
        http_range,
        HttpRange {
            ranges: vec![734..1233],
            complete_length: None
        }
    );
    assert_eq!(http_range.to_header(), "bytes=734-1233");
}

#[test]
fn empty_input_is_empty_error() {
    assert_eq!(HttpRange::from_header("", 10000), Err(ParseError::Empty));
}

#[test]
fn blank_input_is_malformed() {
    assert_eq!(HttpRange::from_header("   ", 10000), Err(ParseError::Malformed));
}

#[test]
fn wrong_unit_is_malformed() {
    assert_eq!(HttpRange::from_header("items=0-499", 10000), Err(ParseError::Malformed));
    assert_eq!(HttpRange::from_header("Bytes=0-499", 10000), Err(ParseError::Malformed));
}

#[test]
fn missing_or_repeated_equals_is_malformed() {
    assert_eq!(HttpRange::from_header("bytes 0-499", 10000), Err(ParseError::Malformed));
    assert_eq!(HttpRange::from_header("bytes=0-499=1", 10000), Err(ParseError::Malformed));
    assert_eq!(HttpRange::from_header("bytes==0-499", 10000), Err(ParseError::Malformed));
}

#[test]
fn repeated_slash_is_malformed() {
    assert_eq!(HttpRange::from_header("bytes=0-499/100/200", 10000), Err(ParseError::Malformed));
}

#[test]
fn bad_length_is_malformed() {
    assert_eq!(HttpRange::from_header("bytes=0-499/abc", 10000), Err(ParseError::Malformed));
    assert_eq!(HttpRange::from_header("bytes=0-499/", 10000), Err(ParseError::Malformed));
    assert_eq!(HttpRange::from_header("bytes=0-499/**", 10000), Err(ParseError::Malformed));
}

#[test]
fn bad_bounds_are_malformed() {
    assert_eq!(HttpRange::from_header("bytes=a-499", 10000), Err(ParseError::Malformed));
    assert_eq!(HttpRange::from_header("bytes=0-4x9", 10000), Err(ParseError::Malformed));
    assert_eq!(HttpRange::from_header("bytes=-", 10000), Err(ParseError::Malformed));
    assert_eq!(HttpRange::from_header("bytes=", 10000), Err(ParseError::Malformed));
    assert_eq!(HttpRange::from_header("bytes=0-1-2", 10000), Err(ParseError::Malformed));
    assert_eq!(HttpRange::from_header("bytes=500", 10000), Err(ParseError::Malformed));
    assert_eq!(HttpRange::from_header("bytes=0-1,", 10000), Err(ParseError::Malformed));
    assert_eq!(HttpRange::from_header("bytes=-1-2", 10000), Err(ParseError::Malformed));
    assert_eq!(HttpRange::from_header("bytes=+-2", 10000), Err(ParseError::Malformed));
    assert_eq!(HttpRange::from_header("bytes=++1-2", 10000), Err(ParseError::Malformed));
    assert_eq!(HttpRange::from_header("bytes=1+-2", 10000), Err(ParseError::Malformed));
    assert_eq!(HttpRange::from_header("bytes=0-\u{e9}", 10000), Err(ParseError::Malformed));
}

#[test]
fn number_beyond_64_bits_is_malformed() {
    assert_eq!(
        HttpRange::from_header("bytes=0-18446744073709551616", 10000),
        Err(ParseError::Malformed)
    );
    let top = HttpRange::from_header("bytes=0-18446744073709551615", 10000).unwrap();
    assert_eq!(top.ranges, vec![0..18446744073709551615]);
}

#[test]
fn suffix_longer_than_content_overflows() {
    assert_eq!(HttpRange::from_header("bytes=-501", 500), Err(ParseError::ArithmeticOverflow));
    let whole = HttpRange::from_header("bytes=-500", 500).unwrap();
    assert_eq!(whole.ranges, vec![0..499]);
}

#[test]
fn open_ranges_on_empty_content_overflow() {
    assert_eq!(HttpRange::from_header("bytes=0-", 0), Err(ParseError::ArithmeticOverflow));
    assert_eq!(HttpRange::from_header("bytes=-0", 0), Err(ParseError::ArithmeticOverflow));
    let closed = HttpRange::from_header("bytes=0-5", 0).unwrap();
    assert_eq!(closed.ranges, vec![0..5]);
}

#[test]
fn first_failing_specifier_decides_the_error() {
    assert_eq!(HttpRange::from_header("bytes=-500,abc", 100), Err(ParseError::ArithmeticOverflow));
    assert_eq!(HttpRange::from_header("bytes=abc,-500", 100), Err(ParseError::Malformed));
    assert_eq!(HttpRange::from_header("bytes=-500/abc", 100), Err(ParseError::ArithmeticOverflow));
}

#[test]
fn blanks_around_tokens_are_ignored() {
    let parsed = HttpRange::from_header(" bytes = 0 - 499 , 600 - 700 / 8000 ", 10000).unwrap();
    assert_eq!(
        parsed,
        HttpRange {
            ranges: vec![0..499, 600..700],
            complete_length: Some(CompleteLength::Representation(8000))
        }
    );
    let tabs = HttpRange::from_header("\tbytes=\t5-6\t/\t*\r\n", 10000).unwrap();
    assert_eq!(
        tabs,
        HttpRange {
            ranges: vec![5..6],
            complete_length: Some(CompleteLength::Unknown)
        }
    );
}

#[test]
fn merge_takes_the_greater_end() {
    let parsed = HttpRange::from_header("bytes=0-1000,200-300", 10000).unwrap();
    assert_eq!(parsed.ranges, vec![0..1000]);
    let chain = HttpRange::from_header("bytes=10-20,0-5,6-9,30-40,22-25", 10000).unwrap();
    assert_eq!(chain.ranges, vec![0..20, 22..25, 30..40]);
}

#[test]
fn merge_at_the_top_of_the_offsets() {
    let parsed =
        HttpRange::from_header("bytes=0-18446744073709551615,5-6", 10000).unwrap();
    assert_eq!(parsed.ranges, vec![0..18446744073709551615]);
}

#[test]
fn separate_ranges_stay_separate_and_ordered() {
    let parsed = HttpRange::from_header("bytes=602-999,500-600", 10000).unwrap();
    assert_eq!(parsed.ranges, vec![500..600, 602..999]);
}

#[test]
fn equal_starts_keep_their_order_before_joining() {
    let parsed = HttpRange::from_header("bytes=5-9,5-7", 10000).unwrap();
    assert_eq!(parsed.ranges, vec![5..9]);
}

#[test]
fn merging_again_changes_nothing() {
    let once = http_ranges::merge::merge(&vec![10..20, 0..5, 6..9, 30..40, 22..25]);
    let twice = http_ranges::merge::merge(&once);
    assert_eq!(once, vec![0..20, 22..25, 30..40]);
    assert_eq!(twice, once);
}

#[test]
fn sort_is_stable() {
    let sorted = http_ranges::merge::sort_ranges(&vec![5..1, 3..9, 5..0, 3..2]);
    assert_eq!(sorted, vec![3..9, 3..2, 5..1, 5..0]);
}

#[test]
fn round_trip_of_parsed_values() {
    let inputs = [
        "bytes=0-499",
        "bytes=0-0,9999-9999",
        "bytes=0-999,4500-5499,9000-9999/10000",
        "bytes=500-999/*",
        "bytes=0-18446744073709551615",
    ];
    for input in inputs {
        let parsed = HttpRange::from_header(input, 10000).unwrap();
        let text = parsed.to_header();
        assert_eq!(text, input);
        assert_eq!(HttpRange::from_header(&text, 10000), Ok(parsed));
    }
}

#[test]
fn round_trip_after_normalising() {
    let parsed = HttpRange::from_header("bytes= 601-999 , 500-600, -1 / 77", 10000).unwrap();
    let text = parsed.to_header();
    assert_eq!(text, "bytes=500-999,9999-9999/77");
    assert_eq!(HttpRange::from_header(&text, 3), Ok(parsed));
}

#[test]
fn no_ranges_render_as_empty_text() {
    let none = HttpRange { ranges: vec![], complete_length: Some(CompleteLength::Unknown) };
    assert_eq!(none.to_header(), "");
    assert!(!none.any_satisfiable(10));
    assert!(none.none_satisfiable(10));
}

#[test]
fn zero_renders_as_one_digit() {
    let zero = HttpRange { ranges: vec![0..0], complete_length: Some(CompleteLength::Representation(0)) };
    assert_eq!(zero.to_header(), "bytes=0-0/0");
    let leading = HttpRange::from_header("bytes=007-0010", 10000).unwrap();
    assert_eq!(leading.to_header(), "bytes=7-10");
}

#[test]
fn satisfiable_boundary() {
    assert!(HttpRange::range_satisfiable(&(1233..5000), 1234));
    assert!(!HttpRange::range_satisfiable(&(1234..5000), 1234));
    assert!(!HttpRange::range_satisfiable(&(1235..5000), 1234));
    assert!(!HttpRange::range_satisfiable(&(0..0), 0));
    let inside = HttpRange { ranges: vec![2000..3000, 1233..1233], complete_length: None };
    assert!(inside.any_satisfiable(1234));
    assert!(!inside.none_satisfiable(1234));
    let outside = HttpRange { ranges: vec![1234..1300, 2000..3000], complete_length: None };
    assert!(!outside.any_satisfiable(1234));
    assert!(outside.none_satisfiable(1234));
}

#[test]
fn text_helpers() {
    let text = http_ranges::text::chars_of(" a,b ,, ");
    let pieces = http_ranges::text::split(&text, ',');
    assert_eq!(pieces.len(), 4);
    assert_eq!(http_ranges::text::trim(&pieces[0]), vec!['a']);
    assert_eq!(http_ranges::text::trim(&pieces[1]), vec!['b']);
    assert_eq!(http_ranges::text::trim(&pieces[2]), Vec::<char>::new());
    assert_eq!(http_ranges::text::trim(&pieces[3]), Vec::<char>::new());
    assert_eq!(http_ranges::text::parse_decimal(&vec!['4', '2']), Some(42));
    assert_eq!(http_ranges::text::parse_decimal(&vec![]), None);
    assert_eq!(http_ranges::text::parse_decimal(&vec!['4', ' ']), None);
    let mut out = String::from("n=");
    http_ranges::text::push_decimal(&mut out, 9050);
    assert_eq!(out, "n=9050");
}

#[test]
fn order_of_ranges_does_not_change_the_merge() {
    let orders = [
        "bytes=0-5,10-20,6-9,30-40,22-25",
        "bytes=30-40,22-25,10-20,6-9,0-5",
        "bytes=6-9,0-5,22-25,30-40,10-20",
        "bytes=0-20,30-40,22-25",
    ];
    for order in orders {
        let parsed = HttpRange::from_header(order, 10000).unwrap();
        assert_eq!(parsed.ranges, vec![0..20, 22..25, 30..40]);
    }
}

#[test]
fn merge_keeps_the_covered_bytes() {
    let given = vec![3..4, 0..1, 9..12, 2..2, 11..15, 20..20];
    let merged = http_ranges::merge::merge(&given);
    assert_eq!(merged, vec![0..4, 9..15, 20..20]);
    for byte in 0u64..25 {
        let before = given.iter().any(|r| r.start <= byte && byte <= r.end);
        let after = merged.iter().any(|r| r.start <= byte && byte <= r.end);
        assert_eq!(before, after);
    }
}

#[test]
fn coalesce_joins_only_neighbours_that_touch() {
    let joined = http_ranges::merge::coalesce_ranges(&vec![0..4, 5..6, 8..9, 9..9]);
    assert_eq!(joined, vec![0..6, 8..9]);
    assert_eq!(http_ranges::merge::coalesce_ranges(&vec![]), Vec::<std::ops::Range<u64>>::new());
}

#[test]
fn single_specifier_and_length_readers() {
    let piece: Vec<char> = " 12 - 34 ".chars().collect();
    assert_eq!(http_ranges::http_range::parse_range(&piece, 100), Ok(12..34));
    let open: Vec<char> = "40-".chars().collect();
    assert_eq!(http_ranges::http_range::parse_range(&open, 100), Ok(40..99));
    let suffix: Vec<char> = "-100".chars().collect();
    assert_eq!(http_ranges::http_range::parse_range(&suffix, 100), Ok(0..99));
    let star: Vec<char> = "*".chars().collect();
    assert_eq!(
        http_ranges::http_range::parse_complete_length(&star),
        Ok(CompleteLength::Unknown)
    );
    let number: Vec<char> = "77".chars().collect();
    assert_eq!(
        http_ranges::http_range::parse_complete_length(&number),
        Ok(CompleteLength::Representation(77))
    );
    let other: Vec<char> = "7*".chars().collect();
    assert_eq!(
        http_ranges::http_range::parse_complete_length(&other),
        Err(ParseError::Malformed)
    );
}

#[test]
fn plus_may_lead_a_number() {
    let parsed = HttpRange::from_header("bytes=+1-+2/+3", 10000).unwrap();
    assert_eq!(
        parsed,
        HttpRange {
            ranges: vec![1..2],
            complete_length: Some(CompleteLength::Representation(3))
        }
    );
    assert_eq!(parsed.to_header(), "bytes=1-2/3");
    assert_eq!(http_ranges::text::parse_decimal(&vec!['+', '7']), Some(7));
    assert_eq!(http_ranges::text::parse_decimal(&vec!['+']), None);
}

#[test]
fn unicode_blanks_are_trimmed() {
    let parsed = HttpRange::from_header("\u{a0}bytes\u{2003}=\u{3000}0-1\u{85}", 10).unwrap();
    assert_eq!(parsed.ranges, vec![0..1]);
    let text = http_ranges::text::chars_of("\u{2028}x\u{200b}\u{1680}");
    assert_eq!(http_ranges::text::trim(&text), vec!['x', '\u{200b}']);
    assert!(http_ranges::text::is_space_char('\u{b}'));
    assert!(!http_ranges::text::is_space_char('\u{200b}'));
    assert!(!http_ranges::text::is_space_char('\u{1c}'));
}

#[test]
fn unit_constant_is_bytes() {
    assert_eq!(http_ranges::http_range::RANGE_UNIT, "bytes");
    let parsed = HttpRange::from_header("bytes=1-2", 10).unwrap();
    assert!(parsed.to_header().starts_with(http_ranges::http_range::RANGE_UNIT));
}
