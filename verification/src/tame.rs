//! Which expressions can be evaluated without stopping the program: what the evaluator does on them is
//! bounded, and no function is called on arguments that it does not take.
//!
//! An expression is looked at without its comments and with every string as a single quotation mark. A
//! word is a stretch of characters that are neither white space nor marks.

use vstd::prelude::*;
use crate::numbers;
use crate::text;

verus! {

// ---------------------------------------------------------------------------------------------
// Strings and comments
// ---------------------------------------------------------------------------------------------

/// What stands behind a string that has begun: behind the first quotation mark that no backslash
/// stands before.
pub open spec fn behind_string(s: Seq<char>) -> Seq<char>
    decreases s.len(),
{
    if s.len() == 0 {
        s
    } else if s[0] == '"' {
        s.skip(1)
    } else if s[0] == '\\' {
        if s.len() < 2 {
            Seq::empty()
        } else {
            behind_string(s.skip(2))
        }
    } else {
        behind_string(s.skip(1))
    }
}

/// What stands behind a comment to the end of the line that has begun.
pub open spec fn behind_line(s: Seq<char>) -> Seq<char>
    decreases s.len(),
{
    if s.len() == 0 {
        s
    } else if s[0] == '\n' {
        s.skip(1)
    } else {
        behind_line(s.skip(1))
    }
}

/// What stands behind a comment in a line that has begun.
pub open spec fn behind_comment(s: Seq<char>) -> Seq<char>
    decreases s.len(),
{
    if s.len() < 2 {
        Seq::empty()
    } else if s[0] == '*' && s[1] == '/' {
        s.skip(2)
    } else {
        behind_comment(s.skip(1))
    }
}

/// What is left behind something is no longer than what there was.
pub proof fn lemma_behind(s: Seq<char>)
    ensures
        behind_string(s).len() <= s.len(),
        behind_line(s).len() <= s.len(),
        behind_comment(s).len() <= s.len(),
    decreases s.len(),
{
    if s.len() > 0 {
        lemma_behind(s.skip(1));
    }
    if s.len() > 1 {
        lemma_behind(s.skip(2));
    }
}

/// An expression without its comments, and with every string as a single quotation mark.
pub open spec fn bare(s: Seq<char>) -> Seq<char>
    decreases s.len(),
{
    proof {
        if s.len() > 0 {
            lemma_behind(s.skip(1));
        }
        if s.len() > 1 {
            lemma_behind(s.skip(2));
        }
    }
    if s.len() == 0 {
        s
    } else if s[0] == '"' {
        seq!['"'] + bare(behind_string(s.skip(1)))
    } else if s.len() > 1 && s[0] == '/' && s[1] == '/' {
        bare(behind_line(s.skip(2)))
    } else if s.len() > 1 && s[0] == '/' && s[1] == '*' {
        bare(behind_comment(s.skip(2)))
    } else {
        seq![s[0]] + bare(s.skip(1))
    }
}

/// Where what stands behind a string begins.
fn skip_string(v: &Vec<char>, from: usize) -> (r: usize)
    requires
        from <= v.len(),
    ensures
        from <= r <= v.len(),
        v@.skip(r as int) == behind_string(v@.skip(from as int)),
{
    let n: usize = v.len();
    let mut i: usize = from;
    while i < n
        invariant
            n == v.len(),
            from <= i <= n,
            behind_string(v@.skip(from as int)) == behind_string(v@.skip(i as int)),
        decreases n - i,
    {
        let ghost s = v@.skip(i as int);
        proof {
            assert(s[0] == v@[i as int]);
            assert(s.skip(1) =~= v@.skip(i + 1));
        }
        if v[i] == '"' {
            return i + 1;
        }
        if v[i] == '\\' {
            if n - i < 2 {
                proof {
                    assert(v@.skip(n as int) =~= Seq::empty());
                }
                return n;
            }
            proof {
                assert(s.skip(2) =~= v@.skip(i + 2));
            }
            i = i + 2;
        } else {
            i = i + 1;
        }
    }
    i
}

/// Where what stands behind a comment to the end of the line begins.
fn skip_line(v: &Vec<char>, from: usize) -> (r: usize)
    requires
        from <= v.len(),
    ensures
        from <= r <= v.len(),
        v@.skip(r as int) == behind_line(v@.skip(from as int)),
{
    let n: usize = v.len();
    let mut i: usize = from;
    while i < n
        invariant
            n == v.len(),
            from <= i <= n,
            behind_line(v@.skip(from as int)) == behind_line(v@.skip(i as int)),
        decreases n - i,
    {
        proof {
            assert(v@.skip(i as int)[0] == v@[i as int]);
            assert(v@.skip(i as int).skip(1) =~= v@.skip(i + 1));
        }
        i = i + 1;
        if v[i - 1] == '\n' {
            return i;
        }
    }
    i
}

/// Where what stands behind a comment in a line begins.
fn skip_comment(v: &Vec<char>, from: usize) -> (r: usize)
    requires
        from <= v.len(),
    ensures
        from <= r <= v.len(),
        v@.skip(r as int) == behind_comment(v@.skip(from as int)),
{
    let n: usize = v.len();
    let mut i: usize = from;
    while n - i >= 2
        invariant
            n == v.len(),
            from <= i <= n,
            behind_comment(v@.skip(from as int)) == behind_comment(v@.skip(i as int)),
        decreases n - i,
    {
        let ghost s = v@.skip(i as int);
        proof {
            assert(s[0] == v@[i as int] && s[1] == v@[i + 1]);
            assert(s.skip(1) =~= v@.skip(i + 1));
            assert(s.skip(2) =~= v@.skip(i + 2));
        }
        if v[i] == '*' && v[i + 1] == '/' {
            return i + 2;
        }
        i = i + 1;
    }
    proof {
        assert(v@.skip(n as int) =~= Seq::empty());
    }
    n
}

/// An expression without its comments, and with every string as a single quotation mark.
fn bare_chars(v: &Vec<char>) -> (r: Vec<char>)
    ensures
        r@ == bare(v@),
{
    let n: usize = v.len();
    let mut r: Vec<char> = Vec::new();
    let mut i: usize = 0;
    proof {
        assert(v@.skip(0) =~= v@);
        assert(r@ + bare(v@) =~= bare(v@));
    }
    while i < n
        invariant
            n == v.len(),
            i <= n,
            r@ + bare(v@.skip(i as int)) == bare(v@),
        decreases n - i,
    {
        let ghost s = v@.skip(i as int);
        let ghost before = r@;
        proof {
            assert(s[0] == v@[i as int]);
            assert(s.skip(1) =~= v@.skip(i + 1));
            if n - i > 1 {
                assert(s[1] == v@[i + 1]);
                assert(s.skip(2) =~= v@.skip(i + 2));
            }
        }
        if v[i] == '"' {
            r.push('"');
            i = skip_string(v, i + 1);
            proof {
                assert(before + (seq!['"'] + bare(v@.skip(i as int))) =~= r@ + bare(
                    v@.skip(i as int),
                ));
            }
        } else if n - i > 1 && v[i] == '/' && v[i + 1] == '/' {
            i = skip_line(v, i + 2);
        } else if n - i > 1 && v[i] == '/' && v[i + 1] == '*' {
            i = skip_comment(v, i + 2);
        } else {
            r.push(v[i]);
            i = i + 1;
            proof {
                assert(before + (seq![s[0]] + bare(v@.skip(i as int))) =~= r@ + bare(
                    v@.skip(i as int),
                ));
            }
        }
    }
    proof {
        assert(v@.skip(n as int) =~= Seq::empty());
        assert(r@ + Seq::empty() =~= r@);
    }
    r
}

// ---------------------------------------------------------------------------------------------
// Marks and words
// ---------------------------------------------------------------------------------------------

/// A character that operators and brackets that open are written with.
pub open spec fn is_mark(c: char) -> bool {
    ||| c == '+' || c == '-' || c == '*' || c == '/' || c == '%' || c == '^'
    ||| c == '(' || c == ',' || c == ';'
    ||| c == '=' || c == '!' || c == '>' || c == '<' || c == '&' || c == '|'
}

/// A character of a word.
pub open spec fn in_word(c: char) -> bool {
    !is_mark(c) && c != ')' && c != '"' && !text::is_white(c)
}

/// The first position at or after `from` that does not belong to a word, or the length of `b`.
pub open spec fn word_end(b: Seq<char>, from: int) -> int
    decreases b.len() - from,
{
    if from < 0 || from >= b.len() {
        b.len() as int
    } else if !in_word(b[from]) {
        from
    } else {
        word_end(b, from + 1)
    }
}

/// The first position at or after `from` that is not white space, or the length of `b`.
pub open spec fn white_end(b: Seq<char>, from: int) -> int
    decreases b.len() - from,
{
    if from < 0 || from >= b.len() {
        b.len() as int
    } else if !text::is_white(b[from]) {
        from
    } else {
        white_end(b, from + 1)
    }
}

/// A value begins at `i`: a bracket, a string or a word.
pub open spec fn value_begins(b: Seq<char>, i: int) -> bool {
    0 <= i < b.len() && (b[i] == '(' || b[i] == '"' || in_word(b[i]))
}

/// A word begins at `i`.
pub open spec fn word_begins(b: Seq<char>, i: int) -> bool {
    0 <= i < b.len() && in_word(b[i]) && (i == 0 || !in_word(b[i - 1]))
}

/// The word that begins at `i` is called: a value stands behind it.
pub open spec fn applied_at(b: Seq<char>, i: int) -> bool {
    word_begins(b, i) && value_begins(b, white_end(b, word_end(b, i)))
}

/// The function `name` is called at `i`.
pub open spec fn called_at(b: Seq<char>, name: Seq<char>, i: int) -> bool {
    applied_at(b, i) && b.subrange(i, word_end(b, i)) == name
}

/// The function `name` is called.
pub open spec fn calls(b: Seq<char>, name: Seq<char>) -> bool {
    exists|i: int| called_at(b, name, i)
}

/// How many of the first `n` positions hold a mark or the beginning of a word that is called. An
/// expression is nested no deeper than it has such positions, but that the elements of tuples and the
/// parts of chains stand one deeper.
pub open spec fn nesting(b: Seq<char>, n: int) -> nat
    decreases n,
{
    if n <= 0 {
        0
    } else if is_mark(b[n - 1]) || applied_at(b, n - 1) {
        nesting(b, n - 1) + 1
    } else {
        nesting(b, n - 1)
    }
}

/// Whether a character is written in operators and brackets that open.
fn mark_char(c: char) -> (r: bool)
    ensures
        r == is_mark(c),
{
    c == '+' || c == '-' || c == '*' || c == '/' || c == '%' || c == '^' || c == '(' || c == ','
        || c == ';' || c == '=' || c == '!' || c == '>' || c == '<' || c == '&' || c == '|'
}

/// Whether a character belongs to a word.
fn word_char(c: char) -> (r: bool)
    ensures
        r == in_word(c),
{
    !mark_char(c) && c != ')' && c != '"' && !c.is_whitespace()
}

/// The end of a word.
fn end_of_word(b: &Vec<char>, from: usize) -> (r: usize)
    requires
        from <= b.len(),
    ensures
        from <= r <= b.len(),
        r == word_end(b@, from as int),
{
    let n: usize = b.len();
    let mut i: usize = from;
    while i < n && word_char(b[i])
        invariant
            n == b.len(),
            from <= i <= n,
            word_end(b@, from as int) == word_end(b@, i as int),
        decreases n - i,
    {
        i = i + 1;
    }
    i
}

/// The end of white space.
fn end_of_white(b: &Vec<char>, from: usize) -> (r: usize)
    requires
        from <= b.len(),
    ensures
        from <= r <= b.len(),
        r == white_end(b@, from as int),
{
    let n: usize = b.len();
    let mut i: usize = from;
    while i < n && b[i].is_whitespace()
        invariant
            n == b.len(),
            from <= i <= n,
            white_end(b@, from as int) == white_end(b@, i as int),
        decreases n - i,
    {
        i = i + 1;
    }
    i
}

/// Whether the word at `i` is called.
fn is_applied(b: &Vec<char>, i: usize) -> (r: bool)
    requires
        i < b.len(),
    ensures
        r == applied_at(b@, i as int),
{
    if !word_char(b[i]) || (i > 0 && word_char(b[i - 1])) {
        return false;
    }
    let k: usize = end_of_white(b, end_of_word(b, i));
    k < b.len() && (b[k] == '(' || b[k] == '"' || word_char(b[k]))
}

/// Whether the function `name` is called at `i`.
fn is_called_at(b: &Vec<char>, name: &Vec<char>, i: usize) -> (r: bool)
    requires
        i < b.len(),
    ensures
        r == called_at(b@, name@, i as int),
{
    if !is_applied(b, i) {
        return false;
    }
    let e: usize = end_of_word(b, i);
    text::same_chars(&text::slice_of(b, i, e), name)
}

/// Whether the function `name` is called.
fn is_called(b: &Vec<char>, name: &str) -> (r: bool)
    ensures
        r == calls(b@, name@),
{
    let p = text::chars_of(name);
    let n: usize = b.len();
    for i in 0..n
        invariant
            n == b.len(),
            p@ == name@,
            forall|k: int| 0 <= k < i ==> !called_at(b@, name@, k),
    {
        if is_called_at(b, &p, i) {
            return true;
        }
    }
    proof {
        assert forall|k: int| !called_at(b@, name@, k) by {
            if called_at(b@, name@, k) {
                assert(0 <= k < n);
            }
        }
    }
    false
}

/// Whether there are no more than `limit` marks and called words.
fn nests_within(b: &Vec<char>, limit: usize) -> (r: bool)
    ensures
        r == (nesting(b@, b@.len() as int) <= limit),
{
    let n: usize = b.len();
    let mut count: usize = 0;
    for i in 0..n
        invariant
            n == b.len(),
            count == nesting(b@, i as int),
            count <= i,
    {
        if mark_char(b[i]) || is_applied(b, i) {
            count = count + 1;
        }
    }
    count <= limit
}

// ---------------------------------------------------------------------------------------------
// Assignments
// ---------------------------------------------------------------------------------------------

/// An operator that an equals sign turns into an assignment ends in this character.
pub open spec fn takes_equals(c: char) -> bool {
    c == '+' || c == '-' || c == '*' || c == '/' || c == '%' || c == '^' || c == '&' || c == '|'
}

/// How many assignments there are: equals signs that belong to no comparison.
pub open spec fn assignments(b: Seq<char>) -> nat
    decreases b.len(),
{
    if b.len() == 0 {
        0
    } else if b.len() > 1 && b[1] == '=' && (b[0] == '=' || b[0] == '!' || b[0] == '<' || b[0]
        == '>') {
        assignments(b.skip(2))
    } else if b.len() > 1 && b[1] == '=' && takes_equals(b[0]) {
        assignments(b.skip(2)) + 1
    } else if b[0] == '=' {
        assignments(b.skip(1)) + 1
    } else {
        assignments(b.skip(1))
    }
}

/// How many assignments there are.
fn count_assignments(b: &Vec<char>) -> (r: usize)
    ensures
        r == assignments(b@),
{
    let n: usize = b.len();
    let mut count: usize = 0;
    let mut i: usize = 0;
    proof {
        assert(b@.skip(0) =~= b@);
    }
    while i < n
        invariant
            n == b.len(),
            i <= n,
            count <= i,
            count + assignments(b@.skip(i as int)) == assignments(b@),
        decreases n - i,
    {
        let ghost s = b@.skip(i as int);
        proof {
            assert(s[0] == b@[i as int]);
            assert(s.skip(1) =~= b@.skip(i + 1));
            if n - i > 1 {
                assert(s[1] == b@[i + 1]);
                assert(s.skip(2) =~= b@.skip(i + 2));
            }
        }
        let c = b[i];
        if n - i > 1 && b[i + 1] == '=' && (c == '=' || c == '!' || c == '<' || c == '>') {
            i = i + 2;
        } else if n - i > 1 && b[i + 1] == '=' && (c == '+' || c == '-' || c == '*' || c == '/' || c
            == '%' || c == '^' || c == '&' || c == '|') {
            count = count + 1;
            i = i + 2;
        } else if c == '=' {
            count = count + 1;
            i = i + 1;
        } else {
            i = i + 1;
        }
    }
    proof {
        assert(b@.skip(n as int) =~= Seq::empty());
    }
    count
}

// ---------------------------------------------------------------------------------------------
// Functions that are not defined everywhere
// ---------------------------------------------------------------------------------------------

/// The first comma at or after `from` that stands in no bracket that opens there, or the length of `b`
/// where the bracket closes before, `depth` being the number of brackets that are open, or where the
/// first argument is a chain.
pub open spec fn comma_after(b: Seq<char>, from: int, depth: nat) -> int
    decreases b.len() - from,
{
    if from < 0 || from >= b.len() {
        b.len() as int
    } else if b[from] == '(' {
        comma_after(b, from + 1, depth + 1)
    } else if depth > 0 {
        comma_after(
            b,
            from + 1,
            if b[from] == ')' {
                (depth - 1) as nat
            } else {
                depth
            },
        )
    } else if b[from] == ',' {
        from
    } else if b[from] == ')' || b[from] == ';' {
        b.len() as int
    } else {
        comma_after(b, from + 1, depth)
    }
}

/// The first position at or after `from` that is neither white space nor a bracket that opens, or the
/// length of `b`.
pub open spec fn opened_end(b: Seq<char>, from: int) -> int
    decreases b.len() - from,
{
    if from < 0 || from >= b.len() {
        b.len() as int
    } else if b[from] != '(' && !text::is_white(b[from]) {
        from
    } else {
        opened_end(b, from + 1)
    }
}

/// How many brackets open from `from` to `to`.
pub open spec fn opened(b: Seq<char>, from: int, to: int) -> nat
    decreases to - from,
{
    if from < 0 || from >= to || to > b.len() {
        0
    } else {
        opened(b, from + 1, to) + (if b[from] == '(' {
            1nat
        } else {
            0
        })
    }
}

/// At `p` there stand `n` closing brackets, with white space before them or not.
pub open spec fn closed_at(b: Seq<char>, p: int, n: nat) -> bool
    decreases n,
{
    n == 0 || {
        let k = white_end(b, p);
        k < b.len() && b[k] == ')' && closed_at(b, k + 1, (n - 1) as nat)
    }
}

/// The number below 64 that stands at `p`, in one digit or two, in brackets or not, with a closing
/// bracket behind it.
pub open spec fn places_at(b: Seq<char>, p: int) -> bool {
    let q = opened_end(b, p);
    let n = opened(b, p, q) + 1;
    ||| {
        &&& 0 <= q < b.len() && numbers::is_digit(b[q])
        &&& closed_at(b, q + 1, n)
    }
    ||| {
        &&& 0 <= q && q + 1 < b.len() && numbers::is_digit(b[q]) && numbers::is_digit(b[q + 1])
        &&& numbers::number_of(b.subrange(q, q + 2)) < 64
        &&& closed_at(b, q + 2, n)
    }
}

/// The word at `i` is called on two arguments in brackets, of which the second is a number of places
/// that an integer can be shifted by.
pub open spec fn shifts_by_places(b: Seq<char>, i: int) -> bool {
    let open = white_end(b, word_end(b, i));
    let comma = comma_after(b, open + 1, 0);
    &&& open < b.len() && b[open] == '('
    &&& comma < b.len()
    &&& places_at(b, comma + 1)
}

/// Wherever `name` is called, it shifts by a number of places that is written out.
pub open spec fn shifts_safely(b: Seq<char>, name: Seq<char>) -> bool {
    forall|i: int| #[trigger] called_at(b, name, i) ==> shifts_by_places(b, i)
}

/// How many of the first `n` characters are digits.
pub open spec fn digits_in(b: Seq<char>, n: int) -> nat
    decreases n,
{
    if n <= 0 {
        0
    } else if numbers::is_digit(b[n - 1]) {
        digits_in(b, n - 1) + 1
    } else {
        digits_in(b, n - 1)
    }
}

/// How many words begin at the first `n` positions.
pub open spec fn words_in(b: Seq<char>, n: int) -> nat
    decreases n,
{
    if n <= 0 {
        0
    } else if word_begins(b, n - 1) {
        words_in(b, n - 1) + 1
    } else {
        words_in(b, n - 1)
    }
}

/// How many digits an integer has at most that is made of `digits` digits and, after `assigned`
/// assignments, of what was assigned, `words` times.
pub open spec fn digits_made(digits: nat, words: nat, assigned: nat) -> nat
    decreases assigned,
{
    if assigned == 0 {
        digits
    } else {
        digits_made(digits, words, (assigned - 1) as nat) * (words + 1)
    }
}

/// No integer that the expression comes by is the least that there is, which has 19 digits: there are
/// too few digits to write it or to multiply it together, and no function makes one out of something
/// else.
pub open spec fn stays_small(b: Seq<char>) -> bool {
    let n = b.len() as int;
    &&& digits_made(digits_in(b, n), words_in(b, n), assignments(b)) <= 18
    &&& !text::contains_text(b, "0x"@)
    &&& !calls(b, "len"@)
    &&& !calls(b, "max"@)
    &&& !calls(b, "min"@)
    &&& !calls(b, "shl"@)
    &&& !calls(b, "shr"@)
    &&& !calls(b, "bitnot"@)
}

/// The word at `i` is called on a decimal integer in brackets, with a minus sign or not.
pub open spec fn takes_digits(b: Seq<char>, i: int) -> bool {
    let open = white_end(b, word_end(b, i));
    let p = white_end(b, open + 1);
    let q = if p < b.len() && b[p] == '-' {
        white_end(b, p + 1)
    } else {
        p
    };
    let e = word_end(b, q);
    &&& open < b.len() && b[open] == '('
    &&& q < e
    &&& forall|k: int| q <= k < e ==> numbers::is_digit(#[trigger] b[k])
    &&& closed_at(b, e, 1)
}

/// Wherever the absolute value is taken, it is that of a decimal integer that is written out.
pub open spec fn takes_only_digits(b: Seq<char>) -> bool {
    forall|i: int| #[trigger] called_at(b, "math::abs"@, i) ==> takes_digits(b, i)
}

/// Every character is one of ASCII, so that a string may be cut anywhere.
pub open spec fn is_ascii(s: Seq<char>) -> bool {
    forall|i: int| 0 <= i < s.len() ==> #[trigger] s[i] <= '\u{7f}'
}

/// The expression can make a value that is more than a number or a truth value: a string or a tuple.
pub open spec fn makes_compounds(b: Seq<char>) -> bool {
    ||| text::contains_text(b, "\""@)
    ||| text::contains_text(b, ","@)
    ||| calls(b, "str::from"@)
    ||| calls(b, "typeof"@)
}

/// The most marks and called words in an expression that is evaluated. The evaluator calls itself as deep
/// as an expression is nested; a stack of 2 MiB, which is what a thread gets, holds more than twice as
/// many calls.
pub const MAX_NESTING: usize = 500;

/// Evaluating `s` comes to an end without stopping the program or filling its memory.
///
/// - It is not nested too deep.
/// - Strings are cut only where every character is one byte long.
/// - The absolute value is taken only of integers that are written out, or where the least integer, which
///   has none, cannot come up.
/// - Integers are shifted only by numbers of places that are written out and that they have.
/// - No string or tuple is doubled over and over by assigning it.
pub open spec fn tame(s: Seq<char>) -> bool {
    let b = bare(s);
    &&& nesting(b, b.len() as int) <= MAX_NESTING
    &&& calls(b, "str::substring"@) ==> is_ascii(s)
    &&& takes_only_digits(b) || stays_small(b)
    &&& shifts_safely(b, "shl"@)
    &&& shifts_safely(b, "shr"@)
    &&& makes_compounds(b) && assignments(b) > 0 ==> s.len() <= 100 || (assignments(b) <= 2
        && s.len() <= 1000)
}

/// The first comma that stands in no bracket that opens at or after `from`.
fn find_comma(b: &Vec<char>, from: usize) -> (r: usize)
    requires
        from <= b.len(),
    ensures
        from <= r <= b.len(),
        r == comma_after(b@, from as int, 0),
{
    let n: usize = b.len();
    let mut i: usize = from;
    let mut depth: usize = 0;
    while i < n
        invariant
            n == b.len(),
            from <= i <= n,
            depth <= i,
            comma_after(b@, from as int, 0) == comma_after(b@, i as int, depth as nat),
        decreases n - i,
    {
        let c = b[i];
        if c == '(' {
            depth = depth + 1;
        } else if depth > 0 {
            if c == ')' {
                depth = depth - 1;
            }
        } else if c == ',' {
            return i;
        } else if c == ')' || c == ';' {
            return n;
        }
        i = i + 1;
    }
    n
}

/// The first position that is neither white space nor a bracket that opens, and how many of these stand
/// before it.
fn skip_opened(b: &Vec<char>, from: usize) -> (r: (usize, usize))
    requires
        from <= b.len(),
    ensures
        from <= r.0 <= b.len(),
        r.1 <= r.0,
        r.0 == opened_end(b@, from as int),
        r.1 == opened(b@, from as int, r.0 as int),
{
    let n: usize = b.len();
    let mut i: usize = from;
    let mut count: usize = 0;
    while i < n && (b[i] == '(' || b[i].is_whitespace())
        invariant
            n == b.len(),
            from <= i <= n,
            count <= i,
            opened_end(b@, from as int) == opened_end(b@, i as int),
            count == opened(b@, from as int, i as int),
        decreases n - i,
    {
        proof {
            lemma_opened_step(b@, from as int, i as int);
        }
        if b[i] == '(' {
            count = count + 1;
        }
        i = i + 1;
    }
    (i, count)
}

/// One more position holds one more bracket that opens, or none.
proof fn lemma_opened_step(b: Seq<char>, from: int, to: int)
    requires
        0 <= from <= to < b.len(),
    ensures
        opened(b, from, to + 1) == opened(b, from, to) + (if b[to] == '(' {
            1nat
        } else {
            0
        }),
    decreases to - from,
{
    if from < to {
        lemma_opened_step(b, from + 1, to);
    } else {
        assert(opened(b, from + 1, to + 1) == 0);
    }
}

/// Whether a character is a digit.
fn digit_here(c: char) -> (r: bool)
    ensures
        r == numbers::is_digit(c),
{
    '0' <= c && c <= '9'
}

/// Whether `count` closing brackets stand at `from`.
fn closes(b: &Vec<char>, from: usize, count: usize) -> (r: bool)
    requires
        from <= b.len(),
    ensures
        r == closed_at(b@, from as int, count as nat),
{
    let mut left: usize = count;
    let mut i: usize = from;
    while left > 0
        invariant
            i <= b.len(),
            closed_at(b@, from as int, count as nat) == closed_at(b@, i as int, left as nat),
        decreases left,
    {
        let k: usize = end_of_white(b, i);
        if k >= b.len() || b[k] != ')' {
            return false;
        }
        i = k + 1;
        left = left - 1;
    }
    true
}

/// Whether a number below 64 stands at `from`, with a closing bracket behind it.
fn has_places(b: &Vec<char>, from: usize) -> (r: bool)
    requires
        from <= b.len(),
    ensures
        r == places_at(b@, from as int),
{
    let n: usize = b.len();
    let (p, count) = skip_opened(b, from);
    if p >= n || !digit_here(b[p]) {
        return false;
    }
    if closes(b, p + 1, count + 1) {
        return true;
    }
    if n - p < 2 || !digit_here(b[p + 1]) {
        return false;
    }
    proof {
        let two = b@.subrange(p as int, p + 2);
        assert(two.drop_last().drop_last() =~= Seq::empty());
        assert(two.last() == b@[p + 1] && two.drop_last().last() == b@[p as int]);
        reveal_with_fuel(numbers::number_of, 3);
    }
    let value: u32 = (b[p] as u32 - 48) * 10 + (b[p + 1] as u32 - 48);
    value < 64 && closes(b, p + 2, count + 1)
}

/// Whether the word at `i` shifts by a number of places that is written out.
fn shifts_well(b: &Vec<char>, i: usize) -> (r: bool)
    requires
        i < b.len(),
    ensures
        r == shifts_by_places(b@, i as int),
{
    let n: usize = b.len();
    let open: usize = end_of_white(b, end_of_word(b, i));
    if open >= n || b[open] != '(' {
        return false;
    }
    let comma: usize = find_comma(b, open + 1);
    comma < n && has_places(b, comma + 1)
}

/// Whether there are only digits from `from` to `to`.
fn holds_digits(b: &Vec<char>, from: usize, to: usize) -> (r: bool)
    requires
        from <= to <= b.len(),
    ensures
        r == (forall|k: int| from <= k < to ==> numbers::is_digit(#[trigger] b@[k])),
{
    for k in from..to
        invariant
            to <= b.len(),
            forall|j: int| from <= j < k ==> numbers::is_digit(#[trigger] b@[j]),
    {
        if !digit_here(b[k]) {
            proof {
                assert(!numbers::is_digit(b@[k as int]));
            }
            return false;
        }
    }
    true
}

/// Whether the word at `i` is called on a decimal integer.
fn is_on_digits(b: &Vec<char>, i: usize) -> (r: bool)
    requires
        i < b.len(),
    ensures
        r == takes_digits(b@, i as int),
{
    let n: usize = b.len();
    let open: usize = end_of_white(b, end_of_word(b, i));
    if open >= n || b[open] != '(' {
        return false;
    }
    let p: usize = end_of_white(b, open + 1);
    let q: usize = if p < n && b[p] == '-' {
        end_of_white(b, p + 1)
    } else {
        p
    };
    let e: usize = end_of_word(b, q);
    q < e && holds_digits(b, q, e) && closes(b, e, 1)
}

/// Whether the absolute value is taken only of decimal integers.
fn is_only_on_digits(b: &Vec<char>) -> (r: bool)
    ensures
        r == takes_only_digits(b@),
{
    let p = text::chars_of("math::abs");
    let n: usize = b.len();
    for i in 0..n
        invariant
            n == b.len(),
            p@ == "math::abs"@,
            forall|k: int|
                0 <= k < i && #[trigger] called_at(b@, "math::abs"@, k) ==> takes_digits(b@, k),
    {
        if is_called_at(b, &p, i) && !is_on_digits(b, i) {
            proof {
                assert(called_at(b@, "math::abs"@, i as int));
            }
            return false;
        }
    }
    true
}

/// Whether `name` shifts by numbers of places that are written out, wherever it is called.
fn all_shifts_well(b: &Vec<char>, name: &str) -> (r: bool)
    ensures
        r == shifts_safely(b@, name@),
{
    let p = text::chars_of(name);
    let n: usize = b.len();
    for i in 0..n
        invariant
            n == b.len(),
            p@ == name@,
            forall|k: int| 0 <= k < i && #[trigger] called_at(b@, name@, k) ==> shifts_by_places(b@, k),
    {
        if is_called_at(b, &p, i) && !shifts_well(b, i) {
            proof {
                assert(called_at(b@, name@, i as int));
            }
            return false;
        }
    }
    true
}

/// `p` stands in `v`.
fn holds(v: &Vec<char>, p: &str) -> (r: bool)
    ensures
        r == text::contains_text(v@, p@),
{
    text::find_chars(v, &text::chars_of(p)).is_some()
}

/// Whether the least integer cannot come up.
fn is_small(b: &Vec<char>) -> (r: bool)
    ensures
        r == stays_small(b@),
{
    let n: usize = b.len();
    let mut digits: usize = 0;
    let mut words: usize = 0;
    for i in 0..n
        invariant
            n == b.len(),
            digits == digits_in(b@, i as int),
            words == words_in(b@, i as int),
            digits <= i,
            words <= i,
    {
        if digit_here(b[i]) {
            digits = digits + 1;
        }
        if word_char(b[i]) && (i == 0 || !word_char(b[i - 1])) {
            words = words + 1;
        }
    }
    few_digits(digits, words, count_assignments(b)) && !holds(b, "0x") && !is_called(b, "len")
        && !is_called(b, "max") && !is_called(b, "min") && !is_called(b, "shl") && !is_called(
        b,
        "shr",
    ) && !is_called(b, "bitnot")
}

/// More assignments make no fewer digits.
proof fn lemma_digits_made(digits: nat, words: nat, a: nat, b: nat)
    requires
        a <= b,
    ensures
        digits_made(digits, words, a) <= digits_made(digits, words, b),
    decreases b,
{
    if a < b {
        lemma_digits_made(digits, words, a, (b - 1) as nat);
        let d = digits_made(digits, words, (b - 1) as nat);
        assert(d <= d * (words + 1)) by (nonlinear_arith);
    }
}

/// Whether no integer of more than 18 digits can be made.
fn few_digits(digits: usize, words: usize, assigned: usize) -> (r: bool)
    ensures
        r == (digits_made(digits as nat, words as nat, assigned as nat) <= 18),
{
    let mut made: u128 = digits as u128;
    let mut i: usize = 0;
    while i < assigned && 0 < made && made <= 18
        invariant
            i <= assigned,
            made == digits_made(digits as nat, words as nat, i as nat),
        decreases assigned - i,
    {
        proof {
            assert(made * (words + 1) <= 18 * 0x1_0000_0000_0000_0000) by (nonlinear_arith)
                requires
                    0 <= made <= 18,
                    0 <= words + 1 <= 0x1_0000_0000_0000_0000,
            ;
        }
        made = made * (words as u128 + 1);
        i = i + 1;
    }
    proof {
        if made == 0 {
            lemma_nothing_made(digits as nat, words as nat, i as nat, assigned as nat);
        } else {
            lemma_digits_made(digits as nat, words as nat, i as nat, assigned as nat);
        }
    }
    made <= 18
}

/// Of no digits none are made.
proof fn lemma_nothing_made(digits: nat, words: nat, a: nat, b: nat)
    requires
        a <= b,
        digits_made(digits, words, a) == 0,
    ensures
        digits_made(digits, words, b) == 0,
    decreases b,
{
    if a < b {
        lemma_nothing_made(digits, words, a, (b - 1) as nat);
        assert(0 * (words + 1) == 0);
    }
}

/// Whether every character is one of ASCII.
fn all_ascii(v: &Vec<char>) -> (r: bool)
    ensures
        r == is_ascii(v@),
{
    let n: usize = v.len();
    for i in 0..n
        invariant
            n == v.len(),
            forall|k: int| 0 <= k < i ==> #[trigger] v@[k] <= '\u{7f}',
    {
        if v[i] > '\u{7f}' {
            return false;
        }
    }
    true
}

/// Whether `s` can be evaluated here.
pub fn is_tame(s: &str) -> (r: bool)
    ensures
        r == tame(s@),
{
    let v = text::chars_of(s);
    let b = bare_chars(&v);
    if !nests_within(&b, MAX_NESTING) {
        return false;
    }
    if is_called(&b, "str::substring") && !all_ascii(&v) {
        return false;
    }
    if !is_only_on_digits(&b) && !is_small(&b) {
        return false;
    }
    if !all_shifts_well(&b, "shl") || !all_shifts_well(&b, "shr") {
        return false;
    }
    let compounds = holds(&b, "\"") || holds(&b, ",") || is_called(&b, "str::from") || is_called(
        &b,
        "typeof",
    );
    let assigned: usize = count_assignments(&b);
    !compounds || assigned == 0 || v.len() <= 100 || (assigned <= 2 && v.len() <= 1000)
}

// ---------------------------------------------------------------------------------------------
// Laws
// ---------------------------------------------------------------------------------------------

/// A string that holds no quotation mark and no backslash counts as one quotation mark, whatever it holds;
/// a comment counts for nothing, up to its end; every other character stands for itself.
pub proof fn law_strings_and_comments_are_passed_over(inner: Seq<char>, rest: Seq<char>, c: char)
    requires
        forall|i: int| 0 <= i < inner.len() ==> #[trigger] inner[i] != '"' && inner[i] != '\\',
        forall|i: int| 0 <= i < inner.len() ==> #[trigger] inner[i] != '\n' && inner[i] != '*',
        c != '"' && c != '/',
    ensures
        bare(Seq::empty()) == Seq::<char>::empty(),
        bare(seq!['"'] + inner + seq!['"'] + rest) == seq!['"'] + bare(rest),
        bare(seq!['/', '/'] + inner + seq!['\n'] + rest) == bare(rest),
        bare(seq!['/', '*'] + inner + seq!['*', '/'] + rest) == bare(rest),
        bare(seq![c] + rest) == seq![c] + bare(rest),
{
    lemma_behind_inner(inner, rest);
    let s = seq!['"'] + inner + seq!['"'] + rest;
    assert(s.skip(1) =~= inner + (seq!['"'] + rest));
    let l = seq!['/', '/'] + inner + seq!['\n'] + rest;
    assert(l.skip(2) =~= inner + (seq!['\n'] + rest));
    assert(l[0] == '/' && l[1] == '/');
    let m = seq!['/', '*'] + inner + seq!['*', '/'] + rest;
    assert(m.skip(2) =~= inner + (seq!['*', '/'] + rest));
    assert(m[0] == '/' && m[1] == '*');
    let p = seq![c] + rest;
    assert(p.skip(1) =~= rest);
    assert(p[0] == c);
}

/// What stands behind a string or a comment that has begun with `inner`.
proof fn lemma_behind_inner(inner: Seq<char>, rest: Seq<char>)
    requires
        forall|i: int| 0 <= i < inner.len() ==> #[trigger] inner[i] != '"' && inner[i] != '\\',
        forall|i: int| 0 <= i < inner.len() ==> #[trigger] inner[i] != '\n' && inner[i] != '*',
    ensures
        behind_string(inner + (seq!['"'] + rest)) == rest,
        behind_line(inner + (seq!['\n'] + rest)) == rest,
        behind_comment(inner + (seq!['*', '/'] + rest)) == rest,
    decreases inner.len(),
{
    let (s, l, m) = (
        inner + (seq!['"'] + rest),
        inner + (seq!['\n'] + rest),
        inner + (seq!['*', '/'] + rest),
    );
    if inner.len() == 0 {
        assert(s.skip(1) =~= rest);
        assert(l.skip(1) =~= rest);
        assert(m.skip(2) =~= rest);
    } else {
        let less = inner.skip(1);
        assert(s[0] == inner[0] && l[0] == inner[0] && m[0] == inner[0]);
        lemma_behind_inner(less, rest);
        assert(s.skip(1) =~= less + (seq!['"'] + rest));
        assert(l.skip(1) =~= less + (seq!['\n'] + rest));
        assert(m.skip(1) =~= less + (seq!['*', '/'] + rest));
    }
}

/// An expression without strings and comments is looked at as it is.
proof fn lemma_bare_plain(s: Seq<char>)
    requires
        forall|i: int| 0 <= i < s.len() ==> #[trigger] s[i] != '"',
        forall|i: int|
            0 <= i < s.len() - 1 && #[trigger] s[i] == '/' ==> s[i + 1] != '/' && s[i + 1] != '*',
    ensures
        bare(s) == s,
    decreases s.len(),
{
    if s.len() > 0 {
        let r = s.skip(1);
        assert forall|i: int| 0 <= i < r.len() - 1 && #[trigger] r[i] == '/' implies r[i + 1] != '/'
            && r[i + 1] != '*' by {
            assert(r[i] == s[i + 1] && r[i + 1] == s[i + 2]);
        }
        lemma_bare_plain(r);
        assert(seq![s[0]] + r =~= s);
    }
}

/// There are no more nestings than positions.
proof fn lemma_nesting(b: Seq<char>, n: int)
    requires
        0 <= n,
    ensures
        nesting(b, n) <= n,
    decreases n,
{
    if n > 0 {
        lemma_nesting(b, n - 1);
    }
}

/// A function is not called where no character is the first of its name.
proof fn lemma_not_called(b: Seq<char>, name: Seq<char>)
    requires
        name.len() > 0,
        forall|i: int| 0 <= i < b.len() ==> #[trigger] b[i] != name[0],
    ensures
        !calls(b, name),
        forall|i: int| !called_at(b, name, i),
{
    assert forall|i: int| !called_at(b, name, i) by {
        if called_at(b, name, i) {
            lemma_word_end(b, i);
            let e = word_end(b, i);
            assert(b.subrange(i, e).len() == name.len());
            assert(b.subrange(i, e)[0] == b[i]);
        }
    }
}

/// A word ends no earlier than it begins.
proof fn lemma_word_end(b: Seq<char>, from: int)
    requires
        0 <= from <= b.len(),
    ensures
        from <= word_end(b, from) <= b.len(),
        from < b.len() && in_word(b[from]) ==> from < word_end(b, from),
    decreases b.len() - from,
{
    if from < b.len() && in_word(b[from]) {
        lemma_word_end(b, from + 1);
    }
}

/// Sums, products and the like of numbers that are written out, in brackets or not, can be evaluated where
/// they are no longer than 500 characters.
pub proof fn law_plain_calculations_are_tame(s: Seq<char>)
    requires
        s.len() <= 500,
        forall|i: int|
            0 <= i < s.len() ==> {
                ||| '0' <= #[trigger] s[i] <= '9'
                ||| s[i] == '.' || s[i] == ' ' || s[i] == '(' || s[i] == ')'
                ||| s[i] == '+' || s[i] == '-' || s[i] == '*' || s[i] == '/' || s[i] == '%' || s[i]
                    == '^'
            },
        forall|i: int|
            0 <= i < s.len() - 1 && #[trigger] s[i] == '/' ==> s[i + 1] != '/' && s[i + 1] != '*',
    ensures
        tame(s),
{
    lemma_bare_plain(s);
    lemma_nesting(s, s.len() as int);
    reveal_strlit("str::substring");
    reveal_strlit("str::from");
    reveal_strlit("typeof");
    reveal_strlit("math::abs");
    reveal_strlit("shl");
    reveal_strlit("shr");
    reveal_strlit("\"");
    reveal_strlit(",");
    lemma_not_called(s, "str::substring"@);
    lemma_not_called(s, "str::from"@);
    lemma_not_called(s, "typeof"@);
    lemma_not_called(s, "math::abs"@);
    lemma_not_called(s, "shl"@);
    lemma_not_called(s, "shr"@);
    lemma_not_held(s, '"');
    lemma_not_held(s, ',');
    assert("\""@ =~= seq!['"']);
    assert(","@ =~= seq![',']);
}

/// A character that is not there is not found.
proof fn lemma_not_held(s: Seq<char>, c: char)
    requires
        forall|i: int| 0 <= i < s.len() ==> #[trigger] s[i] != c,
    ensures
        !text::contains_text(s, seq![c]),
{
    text::lemma_find_from(s, seq![c], 0);
    if let Some(i) = text::find_in(s, seq![c]) {
        assert(text::occurs_at(s, seq![c], i));
        assert(s.subrange(i, i + 1)[0] == s[i]);
        assert(seq![c][0] == c);
    }
}

/// Every position that holds a bracket that opens counts.
proof fn lemma_brackets_nest(b: Seq<char>, n: int)
    requires
        0 <= n <= b.len(),
    ensures
        nesting(b, n) >= b.take(n).filter(|c: char| c == '(').len(),
    decreases n,
{
    let f = |c: char| c == '(';
    if n > 0 {
        lemma_brackets_nest(b, n - 1);
        assert(b.take(n) =~= b.take(n - 1).push(b[n - 1]));
        b.take(n - 1).lemma_filter_push(b[n - 1], f);
    } else {
        assert(b.take(0) =~= Seq::empty());
        reveal(Seq::filter);
    }
}

/// An expression with more than 500 brackets that open is not evaluated.
pub proof fn law_deep_expressions_are_not_tame(s: Seq<char>)
    requires
        s.filter(|c: char| c == '(').len() > 500,
        forall|i: int| 0 <= i < s.len() ==> #[trigger] s[i] != '"' && s[i] != '/',
    ensures
        !tame(s),
{
    lemma_bare_plain(s);
    lemma_brackets_nest(s, s.len() as int);
    assert(s.take(s.len() as int) =~= s);
}

/// The first comma is found behind what holds neither commas nor brackets.
proof fn lemma_comma_after(b: Seq<char>, from: int, to: int)
    requires
        0 <= from <= to < b.len(),
        b[to] == ',',
        forall|i: int| from <= i < to ==> #[trigger] b[i] != ',' && b[i] != ';' && b[i] != '('
            && b[i] != ')',
    ensures
        comma_after(b, from, 0) == to,
    decreases to - from,
{
    if from < to {
        assert(b[from] != ',' && b[from] != ';' && b[from] != '(' && b[from] != ')');
        lemma_comma_after(b, from + 1, to);
    }
}

/// A shift by something that is not written out as a number is not evaluated.
pub proof fn law_unknown_shifts_are_not_tame(left: bool, value: Seq<char>, places: Seq<char>)
    requires
        forall|i: int|
            0 <= i < value.len() ==> #[trigger] value[i] != ',' && value[i] != ';' && value[i] != '('
                && value[i] != ')' && value[i] != '"' && value[i] != '/',
        places.len() > 0,
        'a' <= places[0] <= 'z',
        forall|i: int| 0 <= i < places.len() ==> #[trigger] places[i] != '"' && places[i] != '/',
    ensures
        ({
            let name = if left {
                "shl"@
            } else {
                "shr"@
            };
            !tame(name + seq!['('] + value + seq![','] + places + seq![')'])
        }),
{
    let name = if left {
        "shl"@
    } else {
        "shr"@
    };
    let s = name + seq!['('] + value + seq![','] + places + seq![')'];
    reveal_strlit("shl");
    reveal_strlit("shr");
    assert(name.len() == 3 && name[0] == 's' && name[1] == 'h' && (name[2] == 'l' || name[2] == 'r'));
    assert forall|i: int| 0 <= i < s.len() implies #[trigger] s[i] != '"' && s[i] != '/' by {
        if i < 3 {
            assert(s[i] == name[i]);
        } else if 4 <= i < 4 + value.len() {
            assert(s[i] == value[i - 4]);
        } else if 5 + value.len() <= i < 5 + value.len() + places.len() {
            assert(s[i] == places[i - 5 - value.len()]);
        }
    }
    lemma_bare_plain(s);
    assert(s[0] == 's' && s[1] == 'h' && s[2] == name[2] && s[3] == '(');
    assert(word_end(s, 3) == 3);
    assert(word_end(s, 2) == 3);
    assert(word_end(s, 1) == 3);
    assert(word_end(s, 0) == 3);
    assert(white_end(s, 3) == 3);
    assert(s.subrange(0, 3) =~= name);
    assert(called_at(s, name, 0));
    let comma = 4 + value.len() as int;
    assert(s[comma] == ',');
    assert forall|i: int| 4 <= i < comma implies #[trigger] s[i] != ',' && s[i] != ';' && s[i] != '('
        && s[i] != ')' by {
        assert(s[i] == value[i - 4]);
    }
    lemma_comma_after(s, 4, comma);
    assert(s[comma + 1] == places[0]);
    assert(opened_end(s, comma + 1) == comma + 1);
    assert(!places_at(s, comma + 1));
    assert(!shifts_by_places(s, 0));
    assert(!shifts_safely(s, name));
}

} // verus!
