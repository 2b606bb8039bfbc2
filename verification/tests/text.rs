use skillopt::numbers::{parse_up_to, push_digits, push_fixed2, push_fixed3};
use skillopt::single::Single;
use skillopt::text::{chars_of, find_chars, find_chars_from, lines_of, replace_char_with, same_str, string_of, trim_chars, words_of};

/// A number as the library holds it.
fn m(x: f32) -> Single {
    Single { bits: x.to_bits() }
}

fn s(v: &Vec<char>) -> String {
    string_of(v)
}

fn all(v: &Vec<Vec<char>>) -> Vec<String> {
    v.iter().map(string_of).collect()
}

#[test]
fn round_trip_through_chars() {
    assert_eq!(string_of(&chars_of("h\u{e9}llo \u{1f600}")), "h\u{e9}llo \u{1f600}");
    assert_eq!(string_of(&chars_of("")), "");
}

#[test]
fn find_gives_the_first_occurrence() {
    let v = chars_of("abcabc");
    assert_eq!(find_chars(&v, &chars_of("bc")), Some(1));
    assert_eq!(find_chars_from(&v, &chars_of("bc"), 2), Some(4));
    assert_eq!(find_chars(&v, &chars_of("cab")), Some(2));
    assert_eq!(find_chars(&v, &chars_of("x")), None);
    assert_eq!(find_chars(&v, &chars_of("")), Some(0));
    assert_eq!(find_chars(&chars_of(""), &chars_of("")), Some(0));
}

#[test]
fn trim_takes_off_all_white_space() {
    for c in ['\t', '\n', '\u{b}', '\u{c}', '\r', ' ', '\u{85}', '\u{a0}', '\u{1680}', '\u{2000}', '\u{200a}', '\u{2028}', '\u{2029}', '\u{202f}', '\u{205f}', '\u{3000}'] {
        let text = format!("{}x y{}", c, c);
        assert_eq!(s(&trim_chars(&chars_of(&text))), text.trim());
        assert_eq!(s(&trim_chars(&chars_of(&text))), "x y");
    }
    assert_eq!(s(&trim_chars(&chars_of("\u{200b}x"))), "\u{200b}x");
    assert_eq!(s(&trim_chars(&chars_of("  \n "))), "");
}

#[test]
fn lines_are_those_of_std() {
    for text in ["", "a", "a\n", "a\nb", "a\r\nb\r\n", "\n", "\n\n", "a\rb\n", "a\r", "x\n\ny"] {
        let expected: Vec<String> = text.lines().map(|l| l.to_string()).collect();
        assert_eq!(all(&lines_of(&chars_of(text))), expected, "{:?}", text);
    }
}

#[test]
fn words_are_those_of_std() {
    for text in ["", " ", "a", " a  b\tc\n", "one\u{3000}two", "x\u{85}y"] {
        let expected: Vec<String> = text.split_whitespace().map(|l| l.to_string()).collect();
        assert_eq!(all(&words_of(&chars_of(text))), expected, "{:?}", text);
    }
}

#[test]
fn replacing_a_character() {
    assert_eq!(s(&replace_char_with(&chars_of("1/2/3"), '/', &chars_of("*1.0/"))), "1*1.0/2*1.0/3");
    assert_eq!(s(&replace_char_with(&chars_of("1,234"), ',', &Vec::new())), "1234");
}

#[test]
fn same_text_is_the_same() {
    assert!(same_str("abc", "abc"));
    assert!(!same_str("abc", "abd"));
    assert!(!same_str("abc", "ab"));
}

#[test]
fn digits_are_those_of_std() {
    for n in [0u128, 7, 10, 99, 100, 12345, u128::MAX] {
        let mut out = Vec::new();
        push_digits(&mut out, n);
        assert_eq!(s(&out), n.to_string());
    }
}

#[test]
fn fixed_point_numbers() {
    let two = |x: f32| { let mut out = Vec::new(); push_fixed2(&mut out, m(x)); s(&out) };
    let three = |x: f32| { let mut out = Vec::new(); push_fixed3(&mut out, m(x)); s(&out) };
    assert_eq!(two(0.0), "0.00");
    assert_eq!(two(1.0), "1.00");
    assert_eq!(two(0.333333), "0.33");
    assert_eq!(two(0.666667), "0.67");
    assert_eq!(two(-1.234), "-1.23");
    assert_eq!(three(0.15), "0.150");
    assert_eq!(three(-2.0006), "-2.001");
    assert_eq!(three(0.0), "0.000");
}

#[test]
fn halves_go_to_the_even_digit() {
    let two = |x: f32| { let mut out = Vec::new(); push_fixed2(&mut out, m(x)); s(&out) };
    let three = |x: f32| { let mut out = Vec::new(); push_fixed3(&mut out, m(x)); s(&out) };
    assert_eq!(two(0.625), "0.62");
    assert_eq!(two(0.875), "0.88");
    assert_eq!(two(-0.125), "-0.12");
    assert_eq!(three(0.0625), "0.062");
    assert_eq!(three(0.1875), "0.188");
    assert_eq!(three(-0.0625), "-0.062");
}

#[test]
fn fixed_point_numbers_are_those_of_single_precision() {
    let check = |f: f32| {
        let (mut a, mut b) = (Vec::new(), Vec::new());
        push_fixed2(&mut a, m(f));
        push_fixed3(&mut b, m(f));
        assert_eq!(s(&a), format!("{:.2}", f), "{}", f);
        assert_eq!(s(&b), format!("{:.3}", f), "{}", f);
    };
    for i in 0..4000i32 {
        for x in [i * 500, i * 503 + 7, -i * 2_500, i * 500_003, i * 12_500] {
            check((x as f64 / 1e6) as f32);
        }
    }
    let mut x = 1u32;
    for _ in 0..4000 {
        x = x.wrapping_mul(1_664_525).wrapping_add(1_013_904_223);
        check(f32::from_bits(x));
    }
    for f in [0.0, -0.0, f32::MAX, f32::MIN, f32::MIN_POSITIVE, f32::INFINITY, f32::NEG_INFINITY, f32::NAN, 8_388_607.5, 16_777_216.0] {
        check(f);
    }
}

#[test]
fn numbers_are_read_as_std_reads_them() {
    for text in ["0", "7", "+7", "007", "4294967295", "4294967296", "", "+", "-1", "1a", " 1", "1_0"] {
        let expected = text.parse::<u32>().ok().map(|n| n as u64);
        assert_eq!(parse_up_to(&chars_of(text), u32::MAX as u64), expected, "{:?}", text);
    }
}
