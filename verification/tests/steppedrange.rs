use ltc_modulate::steppedrange::{get_base, parse_u32, SteppedRange, SteppedRangeError};

fn bad_number(digits: &str) -> SteppedRangeError {
    let report = match u32::from_str_radix(digits, 10) {
        Ok(_) => panic!("{} is a number", digits),
        Err(e) => e,
    };
    SteppedRangeError::NumberParseError(digits.to_string(), report)
}

fn digits_of_fault<T: std::fmt::Debug>(r: Result<T, SteppedRangeError>) -> String {
    match r {
        Err(SteppedRangeError::NumberParseError(digits, _)) => digits,
        other => panic!("expected a number fault, got {:?}", other),
    }
}

fn walk(range: &mut SteppedRange) -> Vec<u32> {
    let mut seen = Vec::new();
    while let Some(n) = range.next() {
        seen.push(n);
    }
    seen
}

#[test]
fn get_base_plain_decimal() {
    assert_eq!(get_base("8000"), ("8000", 10));
    assert_eq!(get_base("123"), ("123", 10));
    assert_eq!(get_base("x10"), ("x10", 10));
    assert_eq!(get_base("+7"), ("+7", 10));
}

#[test]
fn get_base_zero_alone_is_decimal() {
    assert_eq!(get_base("0"), ("0", 10));
}

#[test]
fn get_base_empty_is_decimal() {
    assert_eq!(get_base(""), ("", 10));
}

#[test]
fn get_base_hexadecimal() {
    assert_eq!(get_base("0x1F"), ("1F", 16));
    assert_eq!(get_base("0X1f"), ("1f", 16));
    assert_eq!(get_base("0x"), ("", 16));
}

#[test]
fn get_base_binary() {
    assert_eq!(get_base("0b101"), ("101", 2));
    assert_eq!(get_base("0B11"), ("11", 2));
}

#[test]
fn get_base_octal() {
    assert_eq!(get_base("017"), ("17", 8));
    assert_eq!(get_base("000777"), ("777", 8));
    assert_eq!(get_base("00"), ("", 8));
    assert_eq!(get_base("0o17"), ("o17", 8));
}

#[test]
fn get_base_strips_a_repeated_prefix() {
    assert_eq!(get_base("0x0x10"), ("10", 16));
    assert_eq!(get_base("0b0b0b1"), ("1", 2));
    assert_eq!(get_base("0x0X10"), ("0X10", 16));
}

#[test]
fn get_base_keeps_what_follows_other_characters() {
    assert_eq!(get_base("0xé0x"), ("é0x", 16));
    assert_eq!(get_base("é"), ("é", 10));
}

#[test]
fn parse_u32_reads_each_base() {
    assert_eq!(parse_u32("8000"), Ok(8000));
    assert_eq!(parse_u32("0x1F"), Ok(31));
    assert_eq!(parse_u32("0Xff"), Ok(255));
    assert_eq!(parse_u32("0b101"), Ok(5));
    assert_eq!(parse_u32("017"), Ok(15));
    assert_eq!(parse_u32("0"), Ok(0));
}

#[test]
fn parse_u32_accepts_a_plus_sign_and_leading_zeros() {
    assert_eq!(parse_u32("+5"), Ok(5));
    assert_eq!(parse_u32("0x+5"), Ok(5));
    assert_eq!(parse_u32("0x0007"), Ok(7));
}

#[test]
fn parse_u32_limits() {
    assert_eq!(parse_u32("4294967295"), Ok(u32::MAX));
    assert_eq!(parse_u32("0xffffffff"), Ok(u32::MAX));
    assert_eq!(digits_of_fault(parse_u32("4294967296")), "4294967296");
    assert_eq!(digits_of_fault(parse_u32("0x100000000")), "100000000");
}

#[test]
fn parse_u32_names_the_digits_it_could_not_read() {
    assert_eq!(parse_u32("abc"), Err(bad_number("abc")));
    assert_eq!(digits_of_fault(parse_u32("")), "");
    assert_eq!(digits_of_fault(parse_u32("00")), "");
    assert_eq!(digits_of_fault(parse_u32("0x")), "");
    assert_eq!(digits_of_fault(parse_u32("0xg1")), "g1");
    assert_eq!(digits_of_fault(parse_u32("-1")), "-1");
    assert_eq!(digits_of_fault(parse_u32(" 5")), " 5");
    assert_eq!(digits_of_fault(parse_u32("5 ")), "5 ");
    assert_eq!(digits_of_fault(parse_u32("1_000")), "1_000");
    assert_eq!(digits_of_fault(parse_u32("+")), "+");
    assert_eq!(digits_of_fault(parse_u32("0b102")), "102");
    assert_eq!(digits_of_fault(parse_u32("09")), "9");
}

#[test]
fn parse_single_number() {
    let r = SteppedRange::parse("8000").unwrap();
    assert_eq!(r, SteppedRange { start: 8000, end: 8000, step: 1, offset: 8000 });
}

#[test]
fn parse_two_parts() {
    let r = SteppedRange::parse("1..10").unwrap();
    assert_eq!(r, SteppedRange { start: 1, end: 10, step: 1, offset: 1 });
}

#[test]
fn parse_three_parts() {
    let r = SteppedRange::parse("1..2..9").unwrap();
    assert_eq!(r, SteppedRange { start: 1, end: 9, step: 2, offset: 1 });
    assert_eq!(r.values(), vec![1, 3, 5, 7, 9]);
}

#[test]
fn parse_mixed_bases() {
    let r = SteppedRange::parse("0x10..0b10..040").unwrap();
    assert_eq!((r.start, r.step, r.end), (16, 2, 32));
}

#[test]
fn parse_end_less_than_start() {
    assert_eq!(SteppedRange::parse("10..1"), Err(SteppedRangeError::EndLessThanStart(10, 1)));
    assert_eq!(SteppedRange::parse("5..1..0"), Err(SteppedRangeError::EndLessThanStart(5, 0)));
}

#[test]
fn parse_step_is_zero() {
    assert_eq!(SteppedRange::parse("1..0..5"), Err(SteppedRangeError::StepIsZero));
    assert_eq!(SteppedRange::parse("5..0..5"), Err(SteppedRangeError::StepIsZero));
}

#[test]
fn parse_end_is_held_against_start_before_the_step_is_looked_at() {
    assert_eq!(SteppedRange::parse("5..0..1"), Err(SteppedRangeError::EndLessThanStart(5, 1)));
}

#[test]
fn parse_too_many_parts() {
    assert_eq!(
        SteppedRange::parse("1..2..3..4"),
        Err(SteppedRangeError::UnparseableRange("1..2..3..4".to_string()))
    );
    assert_eq!(
        SteppedRange::parse("......"),
        Err(SteppedRangeError::UnparseableRange("......".to_string()))
    );
}

#[test]
fn parse_reports_the_first_number_that_fails() {
    assert_eq!(SteppedRange::parse("a..b"), Err(bad_number("a")));
    assert_eq!(SteppedRange::parse("1..b..c"), Err(bad_number("b")));
    assert_eq!(SteppedRange::parse("1..2..c"), Err(bad_number("c")));
    assert_eq!(digits_of_fault(SteppedRange::parse("x..0..0")), "x");
}

#[test]
fn parse_empty_input_is_a_number_fault() {
    assert_eq!(digits_of_fault(SteppedRange::parse("")), "");
    assert_eq!(digits_of_fault(SteppedRange::parse("1..")), "");
    assert_eq!(digits_of_fault(SteppedRange::parse("..1")), "");
}

#[test]
fn parse_takes_separators_leftmost_first() {
    assert_eq!(digits_of_fault(SteppedRange::parse("1...5")), ".5");
    assert_eq!(digits_of_fault(SteppedRange::parse("1....5")), "");
    assert_eq!(digits_of_fault(SteppedRange::parse("1.5")), "1.5");
}

#[test]
fn next_walks_to_the_end_and_starts_again() {
    let mut r = SteppedRange::parse("1..2..9").unwrap();
    assert_eq!(r.next(), Some(1));
    assert_eq!(r.next(), Some(3));
    assert_eq!(r.next(), Some(5));
    assert_eq!(r.next(), Some(7));
    assert_eq!(r.next(), Some(9));
    assert_eq!(r.next(), None);
    assert_eq!(r, SteppedRange::parse("1..2..9").unwrap());
    assert_eq!(r.next(), Some(1));
}

#[test]
fn walk_is_restartable() {
    let mut r = SteppedRange::parse("8000..500..10000").unwrap();
    let first = walk(&mut r);
    let second = walk(&mut r);
    assert_eq!(first, vec![8000, 8500, 9000, 9500, 10000]);
    assert_eq!(first, second);
}

#[test]
fn walk_stops_before_an_end_it_cannot_reach() {
    let mut r = SteppedRange::parse("1..3..9").unwrap();
    assert_eq!(walk(&mut r), vec![1, 4, 7]);
    assert_eq!(r.values(), vec![1, 4, 7]);
}

#[test]
fn walk_of_a_single_number() {
    let mut r = SteppedRange::parse("12500").unwrap();
    assert_eq!(walk(&mut r), vec![12500]);
    assert_eq!(walk(&mut r), vec![12500]);
}

#[test]
fn walk_with_a_step_wider_than_the_range() {
    let mut r = SteppedRange::parse("5..100..6").unwrap();
    assert_eq!(walk(&mut r), vec![5]);
}

#[test]
fn walk_ends_at_the_top_of_the_number_range() {
    let mut r = SteppedRange::parse("4294967290..3..4294967295").unwrap();
    assert_eq!(walk(&mut r), vec![4294967290, 4294967293]);
    assert_eq!(walk(&mut r), vec![4294967290, 4294967293]);
    let mut top = SteppedRange::parse("4294967294..4294967295").unwrap();
    assert_eq!(walk(&mut top), vec![4294967294, 4294967295]);
    let mut far = SteppedRange::parse("0..4294967295..4294967295").unwrap();
    assert_eq!(walk(&mut far), vec![0, 4294967295]);
}

#[test]
fn values_do_not_depend_on_where_the_walk_stands() {
    let mut r = SteppedRange::parse("1..2..9").unwrap();
    r.next();
    r.next();
    assert_eq!(r.values(), vec![1, 3, 5, 7, 9]);
    assert_eq!(r.next(), Some(5));
}

#[test]
fn describe_says_what_is_wrong() {
    assert_eq!(SteppedRangeError::NoInputProvided.describe(), "no input provided");
    assert_eq!(SteppedRangeError::StepIsZero.describe(), "step value is zero");
    assert_eq!(
        SteppedRangeError::UnparseableRange("1..2..3..4".to_string()).describe(),
        "unable to parse range 1..2..3..4"
    );
    assert_eq!(
        SteppedRangeError::EndLessThanStart(10, 1).describe(),
        "range end 1 is less than the start 10"
    );
    assert_eq!(
        SteppedRangeError::EndLessThanStart(4294967295, 0).describe(),
        "range end 0 is less than the start 4294967295"
    );
}

#[test]
fn describe_a_number_fault() {
    let fault = bad_number("12a");
    let report = match &fault {
        SteppedRangeError::NumberParseError(_, e) => format!("{:?}", e),
        _ => unreachable!(),
    };
    assert_eq!(fault.describe(), format!("unable to parse 12a: {}", report));
    assert_eq!(
        SteppedRange::parse("0x..5").unwrap_err().describe(),
        format!("unable to parse : {:?}", u32::from_str_radix("", 16).unwrap_err())
    );
}

fn digit_value(c: char) -> Option<u64> {
    match c {
        '0'..='9' => Some(c as u64 - '0' as u64),
        'a'..='z' => Some(c as u64 - 'a' as u64 + 10),
        'A'..='Z' => Some(c as u64 - 'A' as u64 + 10),
        _ => None,
    }
}

fn value_of(text: &str, radix: u64) -> Option<u32> {
    let digits = text.strip_prefix('+').unwrap_or(text);
    if digits.is_empty() {
        return None;
    }
    let mut value: u64 = 0;
    let mut fits = true;
    for c in digits.chars() {
        let d = digit_value(c)?;
        if d >= radix {
            return None;
        }
        if fits {
            value = value * radix + d;
            fits = value <= u32::MAX as u64;
        }
    }
    if fits {
        Some(value as u32)
    } else {
        None
    }
}

#[test]
fn parse_u32_reads_exactly_the_numerals_of_its_base() {
    let alphabet = [
        "0", "1", "7", "8", "9", "a", "F", "g", "z", "x", "X", "b", "B", "+", "-", "_", " ", ".",
        "\u{e9}", "\u{661}",
    ];
    let mut literals: Vec<String> = vec![String::new()];
    let mut last: Vec<String> = vec![String::new()];
    for _ in 0..4 {
        let mut next = Vec::new();
        for head in &last {
            for c in alphabet.iter() {
                next.push(format!("{}{}", head, c));
            }
        }
        literals.extend(next.iter().cloned());
        last = next;
    }
    assert_eq!(literals.len(), 1 + 20 + 400 + 8000 + 160000);
    for literal in &literals {
        let (digits, base) = get_base(literal);
        match (parse_u32(literal), value_of(digits, base as u64)) {
            (Ok(n), Some(v)) => assert_eq!(n, v, "{:?}", literal),
            (Err(SteppedRangeError::NumberParseError(text, _)), None) => {
                assert_eq!(text, digits, "{:?}", literal)
            }
            (got, expected) => panic!("{:?}: got {:?}, expected {:?}", literal, got, expected),
        }
    }
}

#[test]
fn parse_u32_reads_long_numerals() {
    for literal in [
        "4294967295",
        "4294967296",
        "42949672950",
        "00000000000000000000000000000000000000001",
        "+4294967295",
        "0xFFFFFFFF",
        "0x100000000",
        "0xfffffffff",
        "0b11111111111111111111111111111111",
        "0b100000000000000000000000000000000",
        "037777777777",
        "040000000000",
        "99999999999999999999999999999999999999999999",
        "99999999999999999999x",
    ] {
        let (digits, base) = get_base(literal);
        assert_eq!(parse_u32(literal).ok(), value_of(digits, base as u64), "{:?}", literal);
    }
}
