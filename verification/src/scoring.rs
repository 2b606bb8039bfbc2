//! Scoring answers, and telling skills apart.

use vstd::prelude::*;
use sha2::{Digest, Sha256};
use crate::distance;
use crate::single;
use crate::single::Single;
use crate::single_laws;
use crate::text;

verus! {

// ---------------------------------------------------------------------------------------------
// Fingerprints
// ---------------------------------------------------------------------------------------------

/// The SHA-256 digest of a sequence of bytes.
pub uninterp spec fn sha256_digest(bytes: Seq<u8>) -> Seq<u8>;

/// `sha2::Sha256`, fed with `bytes` by `Digest::update`: what `Digest::finalize` gives is a function
/// of the bytes, and is 32 bytes long.
#[verifier::external_body]
fn sha256(bytes: &[u8]) -> (r: Vec<u8>)
    ensures
        r@ == sha256_digest(bytes@),
        r@.len() == 32,
{
    let mut h = Sha256::new();
    h.update(bytes);
    h.finalize().to_vec()
}

/// The hexadecimal digit for a number below sixteen.
pub open spec fn hex_digit(n: int) -> char {
    if n < 10 {
        (48 + n) as u8 as char
    } else {
        (87 + n) as u8 as char
    }
}

/// Two hexadecimal digits for each byte.
pub open spec fn hex(bytes: Seq<u8>) -> Seq<char>
    decreases bytes.len(),
{
    if bytes.len() == 0 {
        Seq::empty()
    } else {
        hex(bytes.drop_last()) + seq![
            hex_digit(bytes.last() as int / 16),
            hex_digit(bytes.last() as int % 16),
        ]
    }
}

/// The hexadecimal digit for a number below sixteen.
fn hex_char(n: u8) -> (c: char)
    requires
        n < 16,
    ensures
        c == hex_digit(n as int),
{
    if n < 10 {
        (48 + n) as char
    } else {
        (87 + n) as char
    }
}

/// Two hexadecimal digits for each of the first eight bytes of a digest.
pub fn fingerprint(digest: &Vec<u8>) -> (r: String)
    requires
        digest@.len() >= 8,
    ensures
        r@ == hex(digest@.take(8)),
{
    let mut out: Vec<char> = Vec::new();
    for i in 0..8usize
        invariant
            digest@.len() >= 8,
            out@ == hex(digest@.take(i as int)),
    {
        let b: u8 = digest[i];
        let ghost before = out@;
        out.push(hex_char(b / 16));
        out.push(hex_char(b % 16));
        proof {
            assert(digest@.take(i + 1).drop_last() =~= digest@.take(i as int));
            assert(out@ =~= before + seq![hex_digit(b as int / 16), hex_digit(b as int % 16)]);
        }
    }
    text::string_of(&out)
}

/// The fingerprint of a skill: the first eight bytes of the SHA-256 digest of its UTF-8 form, in
/// hexadecimal.
pub fn skill_hash(skill: &str) -> (r: String)
    ensures
        r@ == hex(sha256_digest(vstd::utf8::encode_utf8(skill@)).take(8)),
        r@.len() == 16,
{
    let digest = sha256(skill.as_bytes());
    proof {
        lemma_hex(digest@.take(8));
    }
    fingerprint(&digest)
}

/// A byte takes two digits.
proof fn lemma_hex(bytes: Seq<u8>)
    ensures
        hex(bytes).len() == 2 * bytes.len(),
    decreases bytes.len(),
{
    if bytes.len() > 0 {
        lemma_hex(bytes.drop_last());
    }
}

/// Two different numbers have different digits.
proof fn lemma_hex_digit(a: int, b: int)
    requires
        0 <= a < 16,
        0 <= b < 16,
        hex_digit(a) == hex_digit(b),
    ensures
        a == b,
{
    assert(hex_digit(a) as u32 == hex_digit(b) as u32);
}

/// Fingerprints are equal only where the bytes that they are made of are: what tells two skills apart
/// is the first eight bytes of their digests.
pub proof fn law_fingerprint_loses_nothing(a: Seq<u8>, b: Seq<u8>)
    requires
        hex(a) == hex(b),
    ensures
        a == b,
    decreases a.len(),
{
    lemma_hex(a);
    lemma_hex(b);
    if a.len() > 0 {
        let (ha, hb) = (hex(a), hex(b));
        let n = ha.len() as int;
        assert(hex(a.drop_last()) =~= ha.take(n - 2)) by {
            lemma_hex(a.drop_last());
        }
        assert(hex(b.drop_last()) =~= hb.take(n - 2)) by {
            lemma_hex(b.drop_last());
        }
        law_fingerprint_loses_nothing(a.drop_last(), b.drop_last());
        lemma_hex(a.drop_last());
        lemma_hex(b.drop_last());
        assert(ha[n - 2] == hex_digit(a.last() as int / 16));
        assert(hb[n - 2] == hex_digit(b.last() as int / 16));
        assert(ha[n - 1] == hex_digit(a.last() as int % 16));
        assert(hb[n - 1] == hex_digit(b.last() as int % 16));
        lemma_hex_digit(a.last() as int / 16, b.last() as int / 16);
        lemma_hex_digit(a.last() as int % 16, b.last() as int % 16);
        assert(a =~= a.drop_last().push(a.last()));
        assert(b =~= b.drop_last().push(b.last()));
    } else {
        assert(a =~= b);
    }
}

// ---------------------------------------------------------------------------------------------
// Answers
// ---------------------------------------------------------------------------------------------

/// A character of ASCII.
pub open spec fn is_ascii_char(c: char) -> bool {
    c <= '\u{7f}'
}

/// A letter of ASCII in lower case; any other character as it is.
pub open spec fn ascii_lower(c: char) -> char {
    if 'A' <= c <= 'Z' {
        (c as u8 + 32) as u8 as char
    } else {
        c
    }
}

/// A text in lower case.
pub uninterp spec fn lowercase(s: Seq<char>) -> Seq<char>;

/// `str::to_lowercase`: the lower case of a text is a function of the text; in a text of ASCII the
/// letters go to lower case one by one, and the rest stays.
pub assume_specification[ str::to_lowercase ](s: &str) -> (r: String)
    ensures
        r@ == lowercase(s@),
        (forall|i: int| 0 <= i < s@.len() ==> is_ascii_char(#[trigger] s@[i])) ==> r@
            == s@.map_values(|c: char| ascii_lower(c)),
;

/// A letter or a digit.
pub uninterp spec fn is_alphanumeric(c: char) -> bool;

/// `char::is_alphanumeric`: whether a character is a letter or a digit is a function of the
/// character; in ASCII these are the letters `A` to `Z`, in either case, and the digits.
pub assume_specification[ char::is_alphanumeric ](c: char) -> (r: bool)
    ensures
        r == is_alphanumeric(c),
        is_ascii_char(c) ==> r == ('0' <= c <= '9' || 'A' <= c <= 'Z' || 'a' <= c <= 'z'),
;

/// The characters of an answer that count.
pub open spec fn counts() -> spec_fn(char) -> bool {
    |c: char| is_alphanumeric(c) || text::is_white(c)
}

/// `s` without `p` at its start, where it is there.
pub open spec fn without_prefix(s: Seq<char>, p: Seq<char>) -> Seq<char> {
    if text::starts_with(s, p) {
        s.skip(p.len() as int)
    } else {
        s
    }
}

/// An answer, given in lower case, as it is compared: only letters, digits and single spaces between
/// words, and without an article at its start.
pub open spec fn compared(lowered: Seq<char>) -> Seq<char> {
    let words = text::join(text::words(lowered.filter(counts())), " "@);
    without_prefix(without_prefix(without_prefix(words, "a "@), "an "@), "the "@)
}

/// An answer as it is compared.
pub open spec fn normalized(s: Seq<char>) -> Seq<char> {
    compared(lowercase(s))
}

/// `v` without `p` at its start.
fn strip_prefix(v: Vec<char>, p: &str) -> (r: Vec<char>)
    ensures
        r@ == without_prefix(v@, p@),
{
    let prefix = text::chars_of(p);
    if text::stands_at(&v, &prefix, 0) {
        let r = text::slice_of(&v, prefix.len(), v.len());
        proof {
            assert(r@ =~= v@.skip(p@.len() as int));
        }
        r
    } else {
        v
    }
}

/// An answer, given in lower case, as it is compared.
pub fn compare_form(lowered: &str) -> (r: String)
    ensures
        r@ == compared(lowered@),
{
    let v = text::chars_of(lowered);
    let n: usize = v.len();
    let mut kept: Vec<char> = Vec::new();
    for i in 0..n
        invariant
            n == v.len(),
            kept@ == v@.take(i as int).filter(counts()),
    {
        let c = v[i];
        proof {
            v@.take(i as int).lemma_filter_push(c, counts());
            assert(v@.take(i + 1) =~= v@.take(i as int).push(c));
        }
        if c.is_alphanumeric() || c.is_whitespace() {
            kept.push(c);
        }
    }
    proof {
        assert(v@.take(n as int) =~= v@);
    }
    let words = text::words_of(&kept);
    let joined = text::join_chars(&words, &text::chars_of(" "));
    let s = strip_prefix(joined, "a ");
    let s = strip_prefix(s, "an ");
    let s = strip_prefix(s, "the ");
    text::string_of(&s)
}

/// An answer as it is compared: in lower case, only letters, digits and single spaces between words,
/// and without an article at its start.
pub fn normalize_answer(s: &str) -> (r: String)
    ensures
        r@ == normalized(s@),
{
    let lowered = s.to_lowercase();
    compare_form(lowered.as_str())
}

/// One of the right answers is `pred`, as answers are compared.
pub open spec fn is_right(pred: Seq<char>, golds: Seq<Seq<char>>) -> bool {
    exists|i: int| 0 <= i < golds.len() && normalized(#[trigger] golds[i]) == normalized(pred)
}

/// 1 where one of the right answers is `pred`, as answers are compared, else 0.
pub fn exact_match(pred: &str, golds: &[String]) -> (r: Single)
    ensures
        r == (if is_right(pred@, text::texts(golds@)) {
            single::one()
        } else {
            single::zero()
        }),
{
    let p = normalize_answer(pred);
    let n: usize = golds.len();
    for i in 0..n
        invariant
            n == golds@.len(),
            p@ == normalized(pred@),
            forall|j: int|
                0 <= j < i ==> normalized(#[trigger] text::texts(golds@)[j]) != normalized(pred@),
    {
        let g = normalize_answer(golds[i].as_str());
        proof {
            assert(text::texts(golds@)[i as int] == golds@[i as int]@);
        }
        if p == g {
            return Single { bits: single::ONE };
        }
    }
    Single { bits: 0 }
}

/// An answer that is among the right ones is right, and so is every answer that is compared as one of
/// them.
pub proof fn law_right_answers_are_right(pred: Seq<char>, golds: Seq<Seq<char>>, i: int)
    requires
        0 <= i < golds.len(),
        pred == golds[i] || normalized(pred) == normalized(golds[i]),
    ensures
        is_right(pred, golds),
{
}

/// More right answers make no right answer wrong.
pub proof fn law_more_golds_keep_what_is_right(
    pred: Seq<char>,
    golds: Seq<Seq<char>>,
    more: Seq<Seq<char>>,
)
    requires
        is_right(pred, golds),
    ensures
        is_right(pred, golds + more),
{
    let i = choose|i: int|
        0 <= i < golds.len() && normalized(#[trigger] golds[i]) == normalized(pred);
    assert((golds + more)[i] == golds[i]);
}

// ---------------------------------------------------------------------------------------------
// Means
// ---------------------------------------------------------------------------------------------

/// The sum of scores, added one by one.
pub open spec fn total(xs: Seq<Single>) -> Single
    decreases xs.len(),
{
    if xs.len() == 0 {
        single::make(true, 0)
    } else {
        single::sum(total(xs.drop_last()), xs.last())
    }
}

/// The mean of scores: their sum through their number; of none it is 0.
pub open spec fn mean_of(xs: Seq<Single>) -> Single {
    if xs.len() == 0 {
        single::zero()
    } else {
        single::quotient(total(xs), single::counted(xs.len()))
    }
}

/// Scores between 0 and 1.
pub open spec fn are_shares(xs: Seq<Single>) -> bool {
    forall|i: int|
        0 <= i < xs.len() ==> single::at_most(single::zero(), #[trigger] xs[i]) && single::at_most(
            xs[i],
            single::one(),
        )
}

/// The sum of scores between 0 and 1 lies between 0 and their number.
proof fn lemma_total(xs: Seq<Single>)
    requires
        are_shares(xs),
        xs.len() <= 0xffff_ffff_ffff_ffff,
    ensures
        single::at_most(single::zero(), total(xs)),
        single::at_most(total(xs), single::counted(xs.len())),
        single::at_most(total(xs), single::counted(0x100_0000)),
    decreases xs.len(),
{
    single_laws::lemma_counted(xs.len());
    single_laws::lemma_counted(0x100_0000);
    if xs.len() == 0 {
        single::lemma_make(true, 0);
    } else {
        let t = xs.drop_last();
        assert forall|i: int| 0 <= i < t.len() implies single::at_most(
            single::zero(),
            #[trigger] t[i],
        ) && single::at_most(t[i], single::one()) by {
            assert(t[i] == xs[i]);
        }
        lemma_total(t);
        assert(xs[xs.len() - 1] == xs.last());
        single_laws::lemma_sum_of_shares(total(t), xs.last(), t.len());
        if xs.len() > 0x100_0000 {
            single_laws::lemma_counted_grows(0x100_0000, xs.len());
        }
    }
}

/// The mean of scores between 0 and 1 lies between 0 and 1.
pub proof fn law_mean_is_a_share(xs: Seq<Single>)
    requires
        are_shares(xs),
        xs.len() <= 0xffff_ffff_ffff_ffff,
    ensures
        single::at_most(single::zero(), mean_of(xs)),
        single::at_most(mean_of(xs), single::one()),
{
    if xs.len() > 0 {
        let (s, c) = (total(xs), single::counted(xs.len()));
        lemma_total(xs);
        single_laws::lemma_counted(xs.len());
        if s.negative() {
            // Only a zero with a minus sign is left.
            single_laws::lemma_quotient_of_zero(s, c);
        } else {
            single_laws::lemma_quotient_grows(s, c, c);
            single_laws::lemma_quotient_of_itself(c);
        }
    }
}

/// The number of scores that are 1.
pub open spec fn ones(xs: Seq<Single>) -> nat
    decreases xs.len(),
{
    if xs.len() == 0 {
        0
    } else {
        ones(xs.drop_last()) + (if xs.last() == single::one() {
            1nat
        } else {
            0
        })
    }
}

/// The sum of scores that are 0 or 1 is the number of those that are 1.
proof fn lemma_total_of_ones(xs: Seq<Single>)
    requires
        forall|i: int|
            0 <= i < xs.len() ==> #[trigger] xs[i] == single::zero() || xs[i] == single::one(),
        xs.len() <= 0x100_0000,
    ensures
        ones(xs) <= xs.len(),
        xs.len() > 0 ==> total(xs) == single::counted(ones(xs)),
    decreases xs.len(),
{
    if xs.len() > 0 {
        let t = xs.drop_last();
        assert forall|i: int| 0 <= i < t.len() implies #[trigger] t[i] == single::zero() || t[i]
            == single::one() by {
            assert(t[i] == xs[i]);
        }
        lemma_total_of_ones(t);
        let (k, x) = (ones(t), xs.last());
        assert(xs[xs.len() - 1] == x);
        single_laws::lemma_one();
        single_laws::lemma_counted_exact(k);
        single_laws::lemma_counted_exact(ones(xs));
        single::lemma_make(true, 0);
        assert((k + 1) * vstd::arithmetic::power2::pow2(149) == k * vstd::arithmetic::power2::pow2(149)
            + vstd::arithmetic::power2::pow2(149)) by (nonlinear_arith);
        single::lemma_magnitude_grows(0, 0);
        single_laws::lemma_sum_exact(total(t), x, single::counted(ones(xs)));
        single_laws::lemma_sum(total(t), x);
        single::lemma_made(total(xs));
        single::lemma_made(single::counted(ones(xs)));
    }
}

/// The mean of up to 2^24 scores that are all 0 or 1 is the share of those that are 1.
pub proof fn law_mean_counts_the_ones(xs: Seq<Single>)
    requires
        forall|i: int|
            0 <= i < xs.len() ==> #[trigger] xs[i] == single::zero() || xs[i] == single::one(),
        0 < xs.len() <= 0x100_0000,
    ensures
        mean_of(xs) == single::quotient(single::counted(ones(xs)), single::counted(xs.len())),
{
    lemma_total_of_ones(xs);
}

/// The mean of scores; of none it is 0.
pub fn mean(xs: &[Single]) -> (r: Single)
    ensures
        r == mean_of(xs@),
{
    let n: usize = xs.len();
    if n == 0 {
        return Single { bits: 0 };
    }
    let mut s = Single { bits: single::SIGN };
    for i in 0..n
        invariant
            n == xs@.len(),
            s == total(xs@.take(i as int)),
    {
        proof {
            assert(xs@.take(i + 1).drop_last() =~= xs@.take(i as int));
            assert(xs@.take(i + 1).last() == xs@[i as int]);
        }
        s = s.plus(xs[i]);
    }
    proof {
        assert(xs@.take(n as int) =~= xs@);
    }
    s.over(Single::count(n as u64))
}

// ---------------------------------------------------------------------------------------------
// Similarity
// ---------------------------------------------------------------------------------------------

/// The length of the longer text.
pub open spec fn longer(a: Seq<char>, b: Seq<char>) -> nat {
    if a.len() < b.len() {
        b.len()
    } else {
        a.len()
    }
}

/// How similar two texts are: the share of the longer one that need not be changed.
pub open spec fn similarity(a: Seq<char>, b: Seq<char>) -> Single {
    single::quotient(
        single::counted((longer(a, b) - distance::distance(a, b)) as nat),
        single::counted(longer(a, b)),
    )
}

/// The similarity, or 0 where it is below the threshold.
pub open spec fn thresholded(a: Seq<char>, b: Seq<char>, threshold: Single) -> Single {
    if single::at_most(threshold, similarity(a, b)) {
        similarity(a, b)
    } else {
        single::zero()
    }
}

/// A text, given in lower case, with single spaces between its words and none around them.
pub open spec fn spaced(lowered: Seq<char>) -> Seq<char> {
    text::join(text::words(lowered), " "@)
}

/// The highest thresholded similarity of a text to the first `n` of `golds`.
pub open spec fn best_similarity(p: Seq<char>, golds: Seq<Seq<char>>, n: int, threshold: Single) -> Single
    decreases n,
{
    if n <= 0 {
        single::zero()
    } else {
        let before = best_similarity(p, golds, n - 1, threshold);
        let this = thresholded(p, spaced(lowercase(golds[n - 1])), threshold);
        if single::less(before, this) {
            this
        } else {
            before
        }
    }
}

/// The similarity of an answer to the right answer that it is most similar to, as far as it reaches the
/// threshold; an empty answer has none.
pub open spec fn anls_of(pred: Seq<char>, golds: Seq<Seq<char>>, threshold: Single) -> Single {
    let p = spaced(lowercase(pred));
    if p.len() == 0 {
        single::zero()
    } else {
        best_similarity(p, golds, golds.len() as int, threshold)
    }
}

/// A text in lower case with single spaces between its words.
fn space(s: &str) -> (r: Vec<char>)
    ensures
        r@ == spaced(lowercase(s@)),
{
    let lowered = s.to_lowercase();
    let words = text::words_of(&text::chars_of(lowered.as_str()));
    text::join_chars(&words, &text::chars_of(" "))
}

/// The thresholded similarity of two texts, of which the first is not empty.
fn similar(a: &Vec<char>, b: &Vec<char>, threshold: Single) -> (r: Single)
    requires
        a@.len() > 0,
    ensures
        r == thresholded(a@, b@, threshold),
{
    let longest: usize = if a.len() < b.len() {
        b.len()
    } else {
        a.len()
    };
    let d: usize = distance::edit_distance(a, b);
    proof {
        distance::law_distance_is_bounded(a@, b@);
    }
    let share = Single::count((longest - d) as u64).over(Single::count(longest as u64));
    if threshold.is_at_most(share) {
        share
    } else {
        Single { bits: 0 }
    }
}

/// The average normalized Levenshtein similarity of one answer: how similar it is to the right answer
/// that it is most similar to, where that reaches the threshold, else 0.
pub fn anls(pred: &str, golds: &[String], threshold: Single) -> (r: Single)
    ensures
        r == anls_of(pred@, text::texts(golds@), threshold),
        single::at_most(single::zero(), r),
        single::at_most(r, single::one()),
{
    let p = space(pred);
    let mut best = Single { bits: 0 };
    if p.len() == 0 {
        return best;
    }
    let n: usize = golds.len();
    for i in 0..n
        invariant
            n == golds@.len(),
            p@.len() > 0,
            best == best_similarity(p@, text::texts(golds@), i as int, threshold),
            single::at_most(single::zero(), best),
            single::at_most(best, single::one()),
    {
        let g = space(golds[i].as_str());
        let s = similar(&p, &g, threshold);
        proof {
            assert(text::texts(golds@)[i as int] == golds@[i as int]@);
            assert(p@.len() == p.len() && g@.len() == g.len());
            lemma_thresholded(p@, g@, threshold);
        }
        if best.is_less(s) {
            best = s;
        }
    }
    best
}

/// A text of up to 2^24 characters is wholly similar to itself, and to no other such text.
pub proof fn law_only_equals_are_wholly_similar(a: Seq<char>, b: Seq<char>)
    requires
        a.len() > 0,
        longer(a, b) <= 0x100_0000,
    ensures
        similarity(a, b) == single::one() <==> a == b,
{
    distance::law_distance_is_bounded(a, b);
    distance::law_distance_is_zero_only_for_equals(a, b);
    single_laws::lemma_share((longer(a, b) - distance::distance(a, b)) as nat, longer(a, b));
}

/// Texts of a length that a machine can hold.
pub open spec fn can_be_held(s: Seq<char>) -> bool {
    s.len() <= 0xffff_ffff_ffff_ffff
}

/// The similarity of two texts, of which the first is not empty, lies between 0 and 1.
proof fn lemma_thresholded(a: Seq<char>, b: Seq<char>, threshold: Single)
    requires
        a.len() > 0,
        can_be_held(a),
        can_be_held(b),
    ensures
        single::at_most(single::zero(), thresholded(a, b, threshold)),
        single::at_most(thresholded(a, b, threshold), single::one()),
{
    distance::law_distance_is_bounded(a, b);
    single_laws::lemma_share((longer(a, b) - distance::distance(a, b)) as nat, longer(a, b));
}

/// The best similarity lies between 0 and 1, and is not below that to any of the right answers.
proof fn lemma_best_similarity(p: Seq<char>, golds: Seq<Seq<char>>, n: int, threshold: Single)
    requires
        p.len() > 0,
        can_be_held(p),
        0 <= n <= golds.len(),
        forall|i: int| 0 <= i < golds.len() ==> can_be_held(spaced(lowercase(#[trigger] golds[i]))),
    ensures
        single::at_most(single::zero(), best_similarity(p, golds, n, threshold)),
        single::at_most(best_similarity(p, golds, n, threshold), single::one()),
        forall|i: int|
            0 <= i < n ==> single::at_most(
                thresholded(p, spaced(lowercase(#[trigger] golds[i])), threshold),
                best_similarity(p, golds, n, threshold),
            ),
    decreases n,
{
    if n > 0 {
        lemma_best_similarity(p, golds, n - 1, threshold);
        assert(can_be_held(spaced(lowercase(golds[n - 1]))));
        lemma_thresholded(p, spaced(lowercase(golds[n - 1])), threshold);
    }
}

/// The similarity of an answer lies between 0 and 1.
pub proof fn law_similarity_is_a_share(pred: Seq<char>, golds: Seq<Seq<char>>, threshold: Single)
    requires
        can_be_held(spaced(lowercase(pred))),
        forall|i: int| 0 <= i < golds.len() ==> can_be_held(spaced(lowercase(#[trigger] golds[i]))),
    ensures
        single::at_most(single::zero(), anls_of(pred, golds, threshold)),
        single::at_most(anls_of(pred, golds, threshold), single::one()),
{
    let p = spaced(lowercase(pred));
    if p.len() > 0 {
        lemma_best_similarity(p, golds, golds.len() as int, threshold);
    }
}

/// An answer that is among the right ones, but for case and spacing, is wholly similar, whatever the
/// threshold up to 1.
pub proof fn law_right_answers_are_wholly_similar(
    pred: Seq<char>,
    golds: Seq<Seq<char>>,
    i: int,
    threshold: Single,
)
    requires
        0 <= i < golds.len(),
        spaced(lowercase(pred)) == spaced(lowercase(golds[i])),
        spaced(lowercase(pred)).len() > 0,
        single::at_most(threshold, single::one()),
        forall|j: int| 0 <= j < golds.len() ==> can_be_held(spaced(lowercase(#[trigger] golds[j]))),
    ensures
        anls_of(pred, golds, threshold) == single::one(),
{
    let p = spaced(lowercase(pred));
    assert(can_be_held(spaced(lowercase(golds[i]))));
    lemma_best_similarity(p, golds, golds.len() as int, threshold);
    distance::law_distance_is_zero_only_for_equals(p, p);
    single_laws::lemma_share(p.len(), p.len());
    let best = anls_of(pred, golds, threshold);
    assert(thresholded(p, spaced(lowercase(golds[i])), threshold) == single::one());
    single::lemma_made(best);
    assert(best.order() == single::one().order());
}

/// The number of words of a text, which stands for what it takes up of a model's input.
pub fn count_tokens(text: &str) -> (n: usize)
    ensures
        n == text::words(text@).len(),
{
    text::words_of(&text::chars_of(text)).len()
}

/// Each byte of a fingerprint is written in two digits, the higher half first.
pub proof fn law_fingerprints_are_hexadecimal(bytes: Seq<u8>, i: int)
    requires
        0 <= i < bytes.len(),
    ensures
        hex(bytes).len() == 2 * bytes.len(),
        hex(bytes)[2 * i] == "0123456789abcdef"@[bytes[i] as int / 16],
        hex(bytes)[2 * i + 1] == "0123456789abcdef"@[bytes[i] as int % 16],
    decreases bytes.len(),
{
    reveal_strlit("0123456789abcdef");
    lemma_hex(bytes);
    let t = bytes.drop_last();
    lemma_hex(t);
    if i < t.len() {
        law_fingerprints_are_hexadecimal(t, i);
        assert(t[i] == bytes[i]);
        assert(hex(bytes)[2 * i] == hex(t)[2 * i]);
        assert(hex(bytes)[2 * i + 1] == hex(t)[2 * i + 1]);
    } else {
        let (h, l) = (bytes[i] as int / 16, bytes[i] as int % 16);
        assert(bytes.last() == bytes[i]);
        lemma_hex_table(h);
        lemma_hex_table(l);
    }
}

/// The digits up to fifteen.
proof fn lemma_hex_table(n: int)
    requires
        0 <= n < 16,
    ensures
        hex_digit(n) == "0123456789abcdef"@[n],
{
    reveal_strlit("0123456789abcdef");
    assert(hex_digit(n) as u32 == (if n < 10 {
        48 + n
    } else {
        87 + n
    }));
    let c = "0123456789abcdef"@[n];
    assert(c as u32 == (if n < 10 {
        48 + n
    } else {
        87 + n
    }));
}

/// The list without `article` at its start, where another word stands behind it.
pub open spec fn without_article(words: Seq<Seq<char>>, article: Seq<char>) -> Seq<Seq<char>> {
    if words.len() >= 2 && words[0] == article {
        words.skip(1)
    } else {
        words
    }
}

/// A text all of whose characters count is kept whole.
proof fn lemma_all_kept(s: Seq<char>, p: spec_fn(char) -> bool)
    requires
        forall|i: int| 0 <= i < s.len() ==> p(#[trigger] s[i]),
    ensures
        s.filter(p) == s,
    decreases s.len(),
{
    reveal(Seq::filter);
    if s.len() > 0 {
        let t = s.drop_last();
        assert forall|i: int| 0 <= i < t.len() implies p(#[trigger] t[i]) by {
            assert(t[i] == s[i]);
        }
        lemma_all_kept(t, p);
        assert(p(s[s.len() - 1]));
        t.lemma_filter_push(s.last(), p);
        assert(t.push(s.last()) =~= s);
    } else {
        assert(s.filter(p) =~= s);
    }
}

/// Taking an article and a space off joined words is taking the article off their list.
proof fn lemma_article(words: Seq<Seq<char>>, article: Seq<char>)
    requires
        article.len() > 0,
        forall|k: int| 0 <= k < article.len() ==> #[trigger] article[k] != ' ',
        forall|i: int, k: int|
            0 <= i < words.len() && 0 <= k < words[i].len() ==> !text::is_white(#[trigger] words[i][k]),
    ensures
        without_prefix(text::join(words, " "@), article + " "@) == text::join(
            without_article(words, article),
            " "@,
        ),
{
    reveal_strlit(" ");
    let sep = " "@;
    let s = text::join(words, sep);
    let p = article + sep;
    let n = article.len() as int;
    assert(p.len() == n + 1 && p[n] == ' ');
    if words.len() > 0 {
        text::lemma_join_front(words, sep);
        let w = words[0];
        if words.len() == 1 {
            if text::starts_with(s, p) {
                assert(s.subrange(0, n + 1)[n] == s[n]);
                assert(!text::is_white(words[0][n]));
            }
        } else {
            let tail = text::join(words.skip(1), sep);
            assert(s == w + sep + tail);
            if w == article {
                assert(s.subrange(0, n + 1) =~= p);
                assert(s.skip(n + 1) =~= tail);
            } else if text::starts_with(s, p) {
                let here = s.subrange(0, n + 1);
                assert(here[n] == s[n]);
                if w.len() > n {
                    assert(s[n] == w[n]);
                    assert(!text::is_white(words[0][n]));
                } else if w.len() < n {
                    assert(here[w.len() as int] == s[w.len() as int]);
                    assert(s[w.len() as int] == ' ');
                    assert(article[w.len() as int] != ' ');
                } else {
                    assert forall|k: int| 0 <= k < n implies w[k] == article[k] by {
                        assert(here[k] == s[k]);
                        assert(p[k] == article[k]);
                    }
                    assert(w =~= article);
                }
            }
        }
    } else if text::starts_with(s, p) {
        assert(s.len() == 0);
    }
}

/// An answer is compared by its words: only letters and digits of it count, and white space between them.
/// Of the articles "a", "an" and "the", in this order, each is dropped where it comes first and another word
/// behind it; the rest is joined with single spaces.
pub proof fn law_answers_are_compared_by_their_words(lowered: Seq<char>)
    ensures
        ({
            let kept = lowered.filter(|c: char| is_alphanumeric(c) || text::is_white(c));
            let words = text::words(kept);
            compared(lowered) == text::join(
                without_article(
                    without_article(without_article(words, "a"@), "an"@),
                    "the"@,
                ),
                " "@,
            )
        }),
{
    reveal_strlit("a");
    reveal_strlit("an");
    reveal_strlit("the");
    reveal_strlit("a ");
    reveal_strlit("an ");
    reveal_strlit("the ");
    reveal_strlit(" ");
    assert("a "@ =~= "a"@ + " "@ && "an "@ =~= "an"@ + " "@ && "the "@ =~= "the"@ + " "@);
    let f = |c: char| is_alphanumeric(c) || text::is_white(c);
    assert(f =~= counts());
    let words = text::words(lowered.filter(counts()));
    text::lemma_words(lowered.filter(counts()));
    lemma_article(words, "a"@);
    let one = without_article(words, "a"@);
    lemma_fewer_words(words, "a"@);
    lemma_article(one, "an"@);
    let two = without_article(one, "an"@);
    lemma_fewer_words(one, "an"@);
    lemma_article(two, "the"@);
}

/// What is left of a list of words is words.
proof fn lemma_fewer_words(words: Seq<Seq<char>>, article: Seq<char>)
    requires
        forall|i: int, k: int|
            0 <= i < words.len() && 0 <= k < words[i].len() ==> !text::is_white(#[trigger] words[i][k]),
    ensures
        ({
            let fewer = without_article(words, article);
            forall|i: int, k: int|
                0 <= i < fewer.len() && 0 <= k < fewer[i].len() ==> !text::is_white(
                    #[trigger] fewer[i][k],
                )
        }),
{
    let fewer = without_article(words, article);
    assert forall|i: int, k: int| 0 <= i < fewer.len() && 0 <= k < fewer[i].len() implies !text::is_white(
        #[trigger] fewer[i][k],
    ) by {
        if fewer.len() < words.len() {
            assert(fewer[i] == words[i + 1]);
            assert(!text::is_white(words[i + 1][k]));
        } else {
            assert(!text::is_white(words[i][k]));
        }
    }
}

/// A character of an answer that is neither a letter nor a digit nor white space does not matter.
pub proof fn law_marks_in_answers_do_not_matter(a: Seq<char>, mark: char, b: Seq<char>)
    requires
        !is_alphanumeric(mark),
        !text::is_white(mark),
    ensures
        compared(a + seq![mark] + b) == compared(a + b),
{
    let p = counts();
    Seq::filter_distributes_over_add(a + seq![mark], b, p);
    Seq::filter_distributes_over_add(a, seq![mark], p);
    Seq::filter_distributes_over_add(a, b, p);
    let none = Seq::<char>::empty();
    reveal(Seq::filter);
    none.lemma_filter_push(mark, p);
    assert(none.push(mark) =~= seq![mark]);
    assert(seq![mark].filter(p) =~= none);
    assert(a.filter(p) + none =~= a.filter(p));
}

/// Words of letters and digits, of which the first is no article, are compared as they are.
pub proof fn law_plain_answers_stay(words: Seq<Seq<char>>)
    requires
        forall|i: int| 0 <= i < words.len() ==> (#[trigger] words[i]).len() > 0,
        forall|i: int, k: int|
            0 <= i < words.len() && 0 <= k < words[i].len() ==> is_alphanumeric(
                #[trigger] words[i][k],
            ) && !text::is_white(words[i][k]),
        words.len() > 0 ==> words[0] != "a"@ && words[0] != "an"@ && words[0] != "the"@,
    ensures
        compared(text::join(words, " "@)) == text::join(words, " "@),
{
    let s = text::join(words, " "@);
    lemma_joined_counts(words);
    lemma_all_kept(s, counts());
    assert forall|i: int, k: int| 0 <= i < words.len() && 0 <= k < words[i].len() implies !text::is_white(
        #[trigger] words[i][k],
    ) by {
        assert(is_alphanumeric(words[i][k]) && !text::is_white(words[i][k]));
    }
    text::law_joined_words_are_read_back(words);
    let f = |c: char| is_alphanumeric(c) || text::is_white(c);
    assert(f =~= counts());
    law_answers_are_compared_by_their_words(s);
}

/// All characters of joined words of letters and digits count.
proof fn lemma_joined_counts(words: Seq<Seq<char>>)
    requires
        forall|i: int, k: int|
            0 <= i < words.len() && 0 <= k < words[i].len() ==> is_alphanumeric(
                #[trigger] words[i][k],
            ) && !text::is_white(words[i][k]),
    ensures
        ({
            let s = text::join(words, " "@);
            forall|i: int| 0 <= i < s.len() ==> counts()(#[trigger] s[i])
        }),
    decreases words.len(),
{
    reveal_strlit(" ");
    let s = text::join(words, " "@);
    if words.len() > 1 {
        let t = words.drop_last();
        assert forall|i: int, k: int| 0 <= i < t.len() && 0 <= k < t[i].len() implies is_alphanumeric(
            #[trigger] t[i][k],
        ) && !text::is_white(t[i][k]) by {
            assert(t[i] == words[i]);
            assert(is_alphanumeric(words[i][k]));
        }
        lemma_joined_counts(t);
        let head = text::join(t, " "@);
        let last = words.len() - 1;
        assert forall|i: int| 0 <= i < s.len() implies counts()(#[trigger] s[i]) by {
            if i < head.len() {
                assert(s[i] == head[i]);
            } else if i == head.len() {
                assert(s[i] == ' ');
            } else {
                let k = i - head.len() - 1;
                assert(s[i] == words[last][k]);
                assert(is_alphanumeric(words[last][k]));
            }
        }
    } else if words.len() == 1 {
        assert forall|i: int| 0 <= i < s.len() implies counts()(#[trigger] s[i]) by {
            assert(s[i] == words[0][i]);
            assert(is_alphanumeric(words[0][i]));
        }
    }
}

/// An answer is right only where one of the right answers is compared as it is.
pub proof fn law_only_right_answers_are_right(pred: Seq<char>, golds: Seq<Seq<char>>)
    requires
        forall|i: int| 0 <= i < golds.len() ==> normalized(#[trigger] golds[i]) != normalized(pred),
    ensures
        !is_right(pred, golds),
{
}

/// The sum of scores takes in one score after the other, and the mean of one score is that score.
pub proof fn law_scores_add_up(xs: Seq<Single>, x: Single)
    ensures
        total(xs.push(x)) == single::sum(total(xs), x),
        xs.len() > 0 ==> mean_of(xs) == single::quotient(total(xs), single::counted(xs.len())),
        mean_of(Seq::empty()) == single::zero(),
        x.is_finite() ==> mean_of(seq![x]).value() == x.value(),
{
    assert(xs.push(x).drop_last() =~= xs);
    if x.is_finite() {
        let s = seq![x];
        assert(s.drop_last() =~= Seq::empty());
        single_laws::lemma_one();
        single::lemma_make(true, 0);
        single::lemma_magnitude_grows(0, 0);
        let minus = single::make(true, 0);
        assert(total(s.drop_last()) == minus);
        single_laws::lemma_sum_exact(minus, x, x);
        let y = total(s);
        let d = single::magnitude(single::ONE as nat);
        vstd::arithmetic::power2::lemma_pow2_pos(149);
        single::lemma_nearest_exact(y.place(), d);
        single::lemma_make(y.negative(), y.place());
    }
}

/// The similarity of an answer is 0, or that to one of the right answers.
pub proof fn law_similarity_is_to_a_right_answer(
    p: Seq<char>,
    golds: Seq<Seq<char>>,
    n: int,
    threshold: Single,
)
    requires
        0 <= n <= golds.len(),
    ensures
        best_similarity(p, golds, n, threshold) == single::zero() || exists|i: int|
            0 <= i < n && best_similarity(p, golds, n, threshold) == thresholded(
                p,
                spaced(lowercase(#[trigger] golds[i])),
                threshold,
            ),
    decreases n,
{
    if n > 0 {
        law_similarity_is_to_a_right_answer(p, golds, n - 1, threshold);
        let before = best_similarity(p, golds, n - 1, threshold);
        let this = thresholded(p, spaced(lowercase(golds[n - 1])), threshold);
        if !single::less(before, this) && before != single::zero() {
            let i = choose|i: int|
                0 <= i < n - 1 && before == thresholded(
                    p,
                    spaced(lowercase(#[trigger] golds[i])),
                    threshold,
                );
            assert(0 <= i < n);
        }
    }
}

/// Two texts are as similar as the share of the longer one that need not be changed: what has to be changed
/// is counted by the edit distance. Below the threshold, that counts for nothing.
pub proof fn law_similarity_is_the_unchanged_share(a: Seq<char>, b: Seq<char>, threshold: Single)
    ensures
        ({
            let n = if a.len() >= b.len() {
                a.len()
            } else {
                b.len()
            };
            let share = single::quotient(
                single::counted((n - distance::distance(a, b)) as nat),
                single::counted(n),
            );
            &&& similarity(a, b) == share
            &&& single::at_most(threshold, share) ==> thresholded(a, b, threshold) == share
            &&& single::less(share, threshold) ==> thresholded(a, b, threshold) == single::zero()
        }),
{
}

/// An answer is held against the right ones by its words: white space between and around them does not
/// matter, but their number and order do.
pub proof fn law_spacing_does_not_matter(lowered: Seq<char>)
    ensures
        text::words(spaced(lowered)) == text::words(lowered),
{
    text::lemma_words(lowered);
    text::law_joined_words_are_read_back(text::words(lowered));
}

/// No right answer is more similar to an answer than its similarity says, as far as it reaches the threshold.
pub proof fn law_similarity_is_the_highest(
    pred: Seq<char>,
    golds: Seq<Seq<char>>,
    threshold: Single,
    i: int,
)
    requires
        0 <= i < golds.len(),
        spaced(lowercase(pred)).len() > 0,
        can_be_held(spaced(lowercase(pred))),
        forall|k: int| 0 <= k < golds.len() ==> can_be_held(spaced(lowercase(#[trigger] golds[k]))),
    ensures
        ({
            let (a, b) = (spaced(lowercase(pred)), spaced(lowercase(golds[i])));
            let n = if a.len() >= b.len() {
                a.len()
            } else {
                b.len()
            };
            let share = single::quotient(
                single::counted((n - distance::distance(a, b)) as nat),
                single::counted(n),
            );
            single::at_most(threshold, share) ==> single::at_most(share, anls_of(pred, golds, threshold))
        }),
{
    let p = spaced(lowercase(pred));
    lemma_best_similarity(p, golds, golds.len() as int, threshold);
    law_similarity_is_the_unchanged_share(p, spaced(lowercase(golds[i])), threshold);
}

} // verus!
