use o_rs_u::cli::choose_index;
use o_rs_u::number::{parse_decimal_range, parse_i32_range, parse_unsigned_range, DecimalNumber};
use o_rs_u::text::{chars_of, range_eq, split_range, trim_range};

fn chars(s: &str) -> Vec<char> {
    chars_of(s)
}

fn num(negative: bool, mantissa: u128, exponent: i64) -> DecimalNumber {
    let ds: Vec<u8> = if mantissa == 0 {
        vec![]
    } else {
        mantissa.to_string().bytes().map(|b| b - b'0').collect()
    };
    DecimalNumber::from_digits(negative, &ds, false, exponent)
}

/// The number with the digit string `digits` (no leading zeros).
fn digit_num(negative: bool, digits: &str, truncated: bool, exponent: i64) -> DecimalNumber {
    let ds: Vec<u8> = digits.bytes().map(|b| b - b'0').collect();
    DecimalNumber::from_digits(negative, &ds, truncated, exponent)
}

/// The text that a finite number stands for, rounding as the text it was read from.
fn rebuilt(d: &DecimalNumber) -> String {
    match d {
        DecimalNumber::Finite { negative, digits, digit_count, truncated, exponent } => {
            let mut t = String::new();
            if *negative {
                t.push('-');
            }
            if *digit_count == 0 {
                t.push('0');
            }
            for x in &digits[..*digit_count] {
                t.push((b'0' + x) as char);
            }
            let mut e = *exponent as i128;
            if *truncated {
                t.push('1');
                e -= 1;
            }
            format!("{}e{}", t, e)
        }
        _ => panic!("not finite"),
    }
}

fn dec(s: &str) -> Option<DecimalNumber> {
    let v = chars(s);
    parse_decimal_range(&v, 0, v.len())
}

fn i32_of(s: &str) -> Option<i32> {
    let v = chars(s);
    parse_i32_range(&v, 0, v.len())
}

fn unsigned_of(s: &str, max: u128) -> Option<u128> {
    let v = chars(s);
    parse_unsigned_range(&v, 0, v.len(), max)
}

fn pieces(s: &str, pat: &str) -> Vec<String> {
    let v = chars(s);
    let p = chars(pat);
    split_range(&v, 0, v.len(), &p)
        .iter()
        .map(|&(a, b)| v[a..b].iter().collect())
        .collect()
}

#[test]
fn chars_of_keeps_every_char() {
    assert_eq!(chars("aé\u{3000}z"), vec!['a', 'é', '\u{3000}', 'z']);
    assert_eq!(chars(""), Vec::<char>::new());
}

#[test]
fn trim_removes_unicode_white_space_at_both_ends() {
    let v = chars("\u{3000} \t abc d\r\n\u{A0}");
    let (a, b) = trim_range(&v, 0, v.len());
    let t: String = v[a..b].iter().collect();
    assert_eq!(t, "abc d");
    let w = chars(" \r\n ");
    let (a, b) = trim_range(&w, 0, w.len());
    assert_eq!(a, b);
}

#[test]
fn trim_matches_str_trim() {
    for s in ["  x  ", "\u{2028}y\u{205F}", "no", "", "\u{85}\u{1680}", " a b "] {
        let v = chars(s);
        let (a, b) = trim_range(&v, 0, v.len());
        let t: String = v[a..b].iter().collect();
        assert_eq!(t, s.trim());
    }
}

#[test]
fn split_matches_str_split() {
    for (s, p) in [
        ("a,b,,c", ","),
        (",", ","),
        ("", ","),
        ("x]\ry]\r", "]\r"),
        ("]]\r\r", "]\r"),
        ("B|1:2|3:4", "|"),
    ] {
        let expected: Vec<String> = s.split(p).map(|x| x.to_string()).collect();
        assert_eq!(pieces(s, p), expected);
    }
}

#[test]
fn split_then_join_gives_back_the_text() {
    let s = "256,192,1000,5,0,0:0:0:0:";
    assert_eq!(pieces(s, ",").join(","), s);
}

#[test]
fn range_eq_compares_text() {
    let v = chars("xHPDrainRatey");
    assert!(range_eq(&v, 1, 12, &chars("HPDrainRate")));
    assert!(!range_eq(&v, 1, 11, &chars("HPDrainRate")));
    assert!(!range_eq(&v, 0, 11, &chars("HPDrainRate")));
}

#[test]
fn i32_texts_read_like_str_parse() {
    for s in [
        "0", "123", "-7", "+5", "-2147483648", "2147483647", "2147483648", "-2147483649", "", "-",
        "+", "1a", " 1", "00012", "--1", "+-1",
    ] {
        assert_eq!(i32_of(s), s.parse::<i32>().ok(), "text {:?}", s);
    }
}

#[test]
fn unsigned_texts_read_like_str_parse() {
    for s in ["0", "255", "256", "-0", "+1", "", "12x", "4294967295", "4294967296"] {
        assert_eq!(unsigned_of(s, 255).map(|v| v as u8), s.parse::<u8>().ok(), "u8 {:?}", s);
        assert_eq!(
            unsigned_of(s, u32::MAX as u128).map(|v| v as u32),
            s.parse::<u32>().ok(),
            "u32 {:?}",
            s
        );
    }
}

#[test]
fn decimal_texts_keep_digits_and_exponent() {
    assert_eq!(dec("1.5"), Some(num(false, 15, -1)));
    assert_eq!(dec("-50"), Some(num(true, 50, 0)));
    assert_eq!(dec(".25"), Some(num(false, 25, -2)));
    assert_eq!(dec("5."), Some(num(false, 5, 0)));
    assert_eq!(dec("+1e3"), Some(num(false, 1, 3)));
    assert_eq!(
        dec("333.333E-2"),
        Some(num(false, 333333, -5))
    );
    assert_eq!(dec("-0"), Some(num(true, 0, 0)));
    assert_eq!(dec("inf"), Some(DecimalNumber::Infinite { negative: false }));
    assert_eq!(dec("-InFiNiTy"), Some(DecimalNumber::Infinite { negative: true }));
    assert_eq!(dec("NaN"), Some(DecimalNumber::NotANumber));
}

#[test]
fn decimal_texts_that_are_not_numbers() {
    for s in ["", ".", "e5", "1e", "1e+", "--1", "1.2.3", "0x10", " 1", "1 ", "infinit", "nan1", "+"] {
        assert_eq!(dec(s), None, "text {:?}", s);
        assert!(s.parse::<f32>().is_err(), "text {:?}", s);
    }
}

#[test]
fn decimal_texts_agree_with_float_parsing() {
    for s in ["1.5", "-50", ".25", "5.", "+1e3", "333.333E-2", "307.692307692308", "4.2", "-0.75"] {
        let r = rebuilt(&dec(s).unwrap());
        assert_eq!(r.parse::<f32>().unwrap(), s.parse::<f32>().unwrap());
    }
}

#[test]
fn integer_texts_read_as_decimals_of_the_same_value() {
    for s in ["42", "-42", "+7", "0"] {
        let v = i32_of(s).unwrap();
        assert_eq!(dec(s), Some(num(s.starts_with('-'), v.unsigned_abs() as u128, 0)));
    }
}

#[test]
fn long_digit_strings_keep_every_digit() {
    let long = "1".repeat(40);
    assert_eq!(dec(&long), Some(digit_num(false, &long, false, 0)));
    let nines = "9".repeat(36);
    assert_eq!(dec(&nines), Some(digit_num(false, &nines, false, 0)));
    let small = format!("0.{}{}", "0".repeat(50), "7".repeat(45));
    assert_eq!(dec(&small), Some(digit_num(false, &"7".repeat(45), false, -95)));
    let many = "3".repeat(768);
    assert_eq!(dec(&many), Some(digit_num(false, &many, false, 0)));
}

#[test]
fn digits_past_the_kept_ones_leave_a_mark() {
    let kept = format!("1{}", "0".repeat(767));
    let with_one = format!("1{}1", "0".repeat(800));
    assert_eq!(dec(&with_one), Some(digit_num(false, &kept, true, 34)));
    let only_zeros = format!("1{}", "0".repeat(900));
    assert_eq!(dec(&only_zeros), Some(digit_num(false, &kept, false, 133)));
    let fraction = format!("-0.00{}9{}", "5".repeat(767), "0".repeat(10));
    assert_eq!(
        dec(&fraction),
        Some(digit_num(true, &format!("{}9", "5".repeat(767)), false, -770))
    );
}

#[test]
fn numbers_just_past_a_rounding_midpoint_round_as_the_text() {
    let just_above = "1000.000030517578125000000000000000000001".to_string();
    let midpoint = "1000.000030517578125".to_string();
    let far_above = format!("1000.000030517578125{}1", "0".repeat(800));
    let far_midpoint = format!("1000.000030517578125{}", "0".repeat(800));
    for s in [&just_above, &midpoint, &far_above, &far_midpoint] {
        let r = rebuilt(&dec(s).unwrap());
        assert_eq!(r.parse::<f32>().unwrap().to_bits(), s.parse::<f32>().unwrap().to_bits(), "{}", s);
        assert_eq!(r.parse::<f64>().unwrap().to_bits(), s.parse::<f64>().unwrap().to_bits(), "{}", s);
    }
    assert_eq!(rebuilt(&dec(&just_above).unwrap()).parse::<f32>().unwrap(), 1000.00006103515625);
    assert_eq!(rebuilt(&dec(&far_above).unwrap()).parse::<f32>().unwrap(), 1000.00006103515625);
    assert_eq!(rebuilt(&dec(&midpoint).unwrap()).parse::<f32>().unwrap(), 1000.0);
    assert_eq!(rebuilt(&dec(&far_midpoint).unwrap()).parse::<f32>().unwrap(), 1000.0);
}

#[test]
fn huge_exponents_are_held_at_the_bound() {
    assert_eq!(dec("1e3000000000"), Some(num(false, 1, 3_000_000_000)));
    assert_eq!(
        dec("-2.5e-99999999999999999999999"),
        Some(num(true, 25, -1_000_000_000_000))
    );
    assert_eq!(
        dec("7e99999999999999"),
        Some(num(false, 7, 1_000_000_000_000))
    );
    assert_eq!(dec("0e999999999999999999"), Some(num(false, 0, 1_000_000_000_000)));
}

#[test]
fn every_float_text_reads_and_rounds_the_same() {
    let texts = [
        "1e3000000000".to_string(),
        "7e99999999999999".to_string(),
        "-1e-3000000000".to_string(),
        "0e999999999999999999".to_string(),
        "1".repeat(40),
        format!("3.{}", "1415926535".repeat(6)),
        format!("0.{}{}", "0".repeat(50), "7".repeat(45)),
        "123456789012345678901234567890123456789e-20".to_string(),
        format!("2.{}5{}3e-40", "4".repeat(900), "0".repeat(100)),
        format!("0.{}1", "0".repeat(2000)),
    ];
    for s in texts.iter() {
        let r = rebuilt(&dec(s).unwrap());
        assert_eq!(r.parse::<f32>().unwrap().to_bits(), s.parse::<f32>().unwrap().to_bits(), "{}", s);
        assert_eq!(r.parse::<f64>().unwrap().to_bits(), s.parse::<f64>().unwrap().to_bits(), "{}", s);
    }
}

#[test]
fn choosing_a_beatmap_by_typed_index() {
    assert_eq!(choose_index("2\n", 3), Some(2));
    assert_eq!(choose_index("  0 ", 1), Some(0));
    assert_eq!(choose_index("3", 3), None);
    assert_eq!(choose_index("x", 3), None);
    assert_eq!(choose_index("-1", 3), None);
    assert_eq!(choose_index("", 3), None);
}

#[test]
fn split_pieces_hold_no_separator() {
    for (s, p) in [("a]\r]b]\r\rc", "]\r"), ("1:2::3", ":"), ("]]]\r\r\r", "]\r")] {
        for piece in pieces(s, p) {
            assert!(!piece.contains(p), "piece {:?}", piece);
        }
    }
}

#[test]
fn trimming_twice_is_trimming_once() {
    let v = chars(" \u{2003}x y\t\n");
    let (a, b) = trim_range(&v, 0, v.len());
    let (c, d) = trim_range(&v, a, b);
    assert_eq!((a, b), (c, d));
}
