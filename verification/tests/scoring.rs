use skillopt::distance::edit_distance;
use skillopt::scoring::{anls, count_tokens, compare_form, exact_match, fingerprint, mean, normalize_answer, skill_hash};
use skillopt::text::chars_of;
use skillopt::single::Single;

/// A number as the library holds it.
fn m(x: f32) -> Single {
    Single { bits: x.to_bits() }
}

fn golds(texts: &[&str]) -> Vec<String> {
    texts.iter().map(|t| t.to_string()).collect()
}

#[test]
fn skill_hash_is_the_start_of_sha256() {
    assert_eq!(skill_hash("hello world"), "b94d27b9934d3e08");
    assert_eq!(skill_hash(""), "e3b0c44298fc1c14");
    assert_eq!(skill_hash("abc"), "ba7816bf8f01cfea");
}

#[test]
fn fingerprint_takes_eight_bytes() {
    assert_eq!(fingerprint(&vec![0x00, 0x0f, 0xf0, 0xff, 0x12, 0xab, 0x9a, 0x10, 0x77]), "000ff0ff12ab9a10");
}

#[test]
fn fingerprints_tell_bytes_apart() {
    let a = fingerprint(&vec![1, 2, 3, 4, 5, 6, 7, 8]);
    let b = fingerprint(&vec![1, 2, 3, 4, 5, 6, 7, 9]);
    assert_ne!(a, b);
}

#[test]
fn normalize_drops_articles_in_turn() {
    assert_eq!(normalize_answer("a an the end"), "end");
    assert_eq!(normalize_answer("the a end"), "a end");
    assert_eq!(normalize_answer("theatre"), "theatre");
    assert_eq!(normalize_answer("a"), "a");
    assert_eq!(normalize_answer(""), "");
}

#[test]
fn normalize_keeps_letters_of_any_script() {
    assert_eq!(normalize_answer("\u{c9}T\u{c9} d'or"), "\u{e9}t\u{e9} dor");
    assert_eq!(normalize_answer("x\u{a0}\u{2003}y\tz"), "x y z");
    assert_eq!(normalize_answer("3\u{bd} -- 4"), "3\u{bd} 4");
}

#[test]
fn compare_form_takes_what_is_in_lower_case() {
    assert_eq!(compare_form("the  blue, sky!"), "blue sky");
    assert_eq!(compare_form("The"), "The");
}

#[test]
fn exact_match_of_no_golds_is_zero() {
    assert_eq!(exact_match("anything", &[]), m(0.0));
    assert_eq!(exact_match("", &golds(&["..."])), m(1.0));
}

#[test]
fn more_golds_keep_what_is_right() {
    assert_eq!(exact_match("paris", &golds(&["Paris."])), m(1.0));
    assert_eq!(exact_match("paris", &golds(&["Paris.", "Rome"])), m(1.0));
    assert_eq!(exact_match("paris", &golds(&["Rome"])), m(0.0));
}

fn mean_of(xs: &[f32]) -> f32 {
    let xs: Vec<Single> = xs.iter().map(|x| m(*x)).collect();
    f32::from_bits(mean(&xs).bits)
}

#[test]
fn mean_is_that_of_single_precision() {
    assert_eq!(mean_of(&[]), 0.0);
    assert_eq!(mean_of(&[1.0, 0.0, 0.0]), 1.0 / 3.0);
    assert_eq!(mean_of(&[1.0, 1.0, 0.0]), 2.0 / 3.0);
    for n in 1..60usize {
        for k in 0..=n {
            let xs: Vec<f32> = (0..n).map(|i| if i < k { 1.0 } else { 0.0 }).collect();
            assert_eq!(mean_of(&xs), k as f32 / n as f32);
        }
    }
    let mut x = 1u32;
    for n in 1..400usize {
        let xs: Vec<f32> = (0..n)
            .map(|_| {
                x = x.wrapping_mul(1_664_525).wrapping_add(1_013_904_223);
                f32::from_bits(x)
            })
            .collect();
        let expected = xs.iter().sum::<f32>() / xs.len() as f32;
        let got = mean_of(&xs);
        assert!(got.to_bits() == expected.to_bits() || got.is_nan() && expected.is_nan(), "{:?}", xs);
    }
}

#[test]
fn mean_of_shares_is_a_share() {
    let xs = [0.12, 0.7, 0.35];
    let mean = mean_of(&xs);
    assert_eq!(mean, (0.12f32 + 0.7 + 0.35) / 3.0);
    assert!(mean >= 0.0 && mean <= 1.0);
}

#[test]
fn tokens_are_words() {
    assert_eq!(count_tokens(""), 0);
    assert_eq!(count_tokens(" one\ttwo\n three "), 3);
}

#[test]
fn edit_distance_of_known_words() {
    assert_eq!(edit_distance(&chars_of("kitten"), &chars_of("sitting")), 3);
    assert_eq!(edit_distance(&chars_of(""), &chars_of("abc")), 3);
    assert_eq!(edit_distance(&chars_of("abc"), &chars_of("")), 3);
    assert_eq!(edit_distance(&chars_of("flaw"), &chars_of("lawn")), 2);
    assert_eq!(edit_distance(&chars_of("same"), &chars_of("same")), 0);
}

#[test]
fn edit_distance_is_symmetric() {
    let (a, b) = (chars_of("saturday"), chars_of("sunday"));
    assert_eq!(edit_distance(&a, &b), edit_distance(&b, &a));
}

#[test]
fn anls_has_exact_values() {
    // One of nine characters is missing.
    assert_eq!(anls("CocaCola", &golds(&["Coca Cola"]), m(0.5)), m(8.0 / 9.0));
    // Half of the longer text, at the threshold and above it.
    assert_eq!(anls("ab", &golds(&["abcd"]), m(0.5)), m(0.5));
    assert_eq!(anls("ab", &golds(&["abcd"]), m(0.500001)), m(0.0));
    assert_eq!(anls("abx", &golds(&["abcd"]), m(0.0)), m(0.5));
}

#[test]
fn anls_ignores_case_and_spacing() {
    assert_eq!(anls("  Coca\n COLA ", &golds(&["coca cola"]), m(0.5)), m(1.0));
    assert_eq!(anls("coca cola", &golds(&["pepsi", "Coca Cola"]), m(1.0)), m(1.0));
}

#[test]
fn anls_takes_the_most_similar_gold() {
    assert_eq!(anls("abcde", &golds(&["abcxx", "abcdx", "zzzzz"]), m(0.5)), m(0.8));
}
