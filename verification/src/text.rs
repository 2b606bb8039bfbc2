//! Text as a sequence of characters: searching, trimming, splitting and building.
//!
//! Every function here works on `Vec<char>`, where a position is an index; `chars_of` and
//! `string_of` go to and from Rust strings.

use vstd::prelude::*;

verus! {

// ---------------------------------------------------------------------------------------------
// Standard library functions that are used as they are
// ---------------------------------------------------------------------------------------------

/// `String::push` appends one character.
pub assume_specification[ String::push ](s: &mut String, c: char)
    ensures
        final(s)@ == old(s)@.push(c),
;

/// The characters with the Unicode `White_Space` property.
pub open spec fn is_white(c: char) -> bool {
    ||| '\u{9}' <= c <= '\u{d}'
    ||| c == ' '
    ||| c == '\u{85}'
    ||| c == '\u{a0}'
    ||| c == '\u{1680}'
    ||| '\u{2000}' <= c <= '\u{200a}'
    ||| c == '\u{2028}'
    ||| c == '\u{2029}'
    ||| c == '\u{202f}'
    ||| c == '\u{205f}'
    ||| c == '\u{3000}'
}

/// `char::is_whitespace` tells the characters with the `White_Space` property from the others.
pub assume_specification[ char::is_whitespace ](c: char) -> (r: bool)
    ensures
        r == is_white(c),
;

// ---------------------------------------------------------------------------------------------
// To and from strings
// ---------------------------------------------------------------------------------------------

/// The characters of `s`, in order.
pub fn chars_of(s: &str) -> (v: Vec<char>)
    ensures
        v@ == s@,
{
    let mut v: Vec<char> = Vec::new();
    for c in it: s.chars()
        invariant
            it.seq() == s@,
            v@ == s@.take(it.index() as int),
    {
        v.push(c);
        proof {
            assert(s@.take(it.index() + 1) == s@.take(it.index() as int).push(s@[it.index() as int]));
        }
    }
    proof {
        assert(s@.take(s@.len() as int) == s@);
    }
    v
}

/// The string with the characters of `v`.
pub fn string_of(v: &Vec<char>) -> (s: String)
    ensures
        s@ == v@,
{
    let mut s = String::new();
    let n: usize = v.len();
    for i in 0..n
        invariant
            n == v.len(),
            s@ == v@.take(i as int),
    {
        s.push(v[i]);
        proof {
            assert(v@.take(i + 1) == v@.take(i as int).push(v@[i as int]));
        }
    }
    proof {
        assert(v@.take(n as int) == v@);
    }
    s
}

/// The characters `v[from..to]`.
pub fn slice_of(v: &Vec<char>, from: usize, to: usize) -> (r: Vec<char>)
    requires
        from <= to <= v.len(),
    ensures
        r@ == v@.subrange(from as int, to as int),
{
    let mut r: Vec<char> = Vec::new();
    for i in from..to
        invariant
            from <= i <= to <= v.len(),
            r@ == v@.subrange(from as int, i as int),
    {
        r.push(v[i]);
        proof {
            assert(v@.subrange(from as int, i + 1) == v@.subrange(from as int, i as int).push(
                v@[i as int],
            ));
        }
    }
    r
}

/// Appends the characters of `more` to `v`.
pub fn push_all(v: &mut Vec<char>, more: &Vec<char>)
    ensures
        final(v)@ == old(v)@ + more@,
{
    let n: usize = more.len();
    let ghost start = v@;
    for i in 0..n
        invariant
            n == more.len(),
            v@ == start + more@.take(i as int),
    {
        v.push(more[i]);
        proof {
            assert(more@.take(i + 1) == more@.take(i as int).push(more@[i as int]));
            assert(v@ =~= start + more@.take(i + 1));
        }
    }
    proof {
        assert(more@.take(n as int) == more@);
    }
}

/// Appends the characters of `s` to `v`.
pub fn push_str(v: &mut Vec<char>, s: &str)
    ensures
        final(v)@ == old(v)@ + s@,
{
    let more = chars_of(s);
    push_all(v, &more);
}

/// The texts of `parts`, one after the other.
pub open spec fn glued(parts: Seq<Seq<char>>) -> Seq<char>
    decreases parts.len(),
{
    if parts.len() == 0 {
        Seq::empty()
    } else {
        glued(parts.drop_last()) + parts.last()
    }
}

// ---------------------------------------------------------------------------------------------
// Searching
// ---------------------------------------------------------------------------------------------

/// `p` stands in `s` at position `i`.
pub open spec fn occurs_at(s: Seq<char>, p: Seq<char>, i: int) -> bool {
    &&& 0 <= i
    &&& i + p.len() <= s.len()
    &&& s.subrange(i, i + p.len()) == p
}

/// The first position at or after `from` at which `p` stands in `s`.
pub open spec fn find_from(s: Seq<char>, p: Seq<char>, from: int) -> Option<int>
    decreases s.len() + 1 - from,
{
    if from < 0 || from + p.len() > s.len() {
        None
    } else if occurs_at(s, p, from) {
        Some(from)
    } else {
        find_from(s, p, from + 1)
    }
}

/// The first position at which `p` stands in `s`.
pub open spec fn find_in(s: Seq<char>, p: Seq<char>) -> Option<int> {
    find_from(s, p, 0)
}

/// `p` stands somewhere in `s`.
pub open spec fn contains_text(s: Seq<char>, p: Seq<char>) -> bool {
    find_in(s, p) is Some
}

/// What `find_from` finds is the first occurrence, and it finds one wherever there is one.
pub proof fn lemma_find_from(s: Seq<char>, p: Seq<char>, from: int)
    requires
        0 <= from,
    ensures
        find_from(s, p, from) matches Some(i) ==> from <= i && occurs_at(s, p, i) && (forall|j: int|
            from <= j < i ==> !occurs_at(s, p, j)),
        find_from(s, p, from) is None ==> (forall|j: int| from <= j ==> !occurs_at(s, p, j)),
    decreases s.len() + 1 - from,
{
    if from + p.len() <= s.len() && !occurs_at(s, p, from) {
        lemma_find_from(s, p, from + 1);
    }
}

/// An occurrence before which there is none is what `find_from` finds.
pub proof fn lemma_find_from_is(s: Seq<char>, p: Seq<char>, from: int, i: int)
    requires
        0 <= from <= i,
        occurs_at(s, p, i),
        forall|j: int| from <= j < i ==> !occurs_at(s, p, j),
    ensures
        find_from(s, p, from) == Some(i),
    decreases i - from,
{
    if from < i {
        assert(!occurs_at(s, p, from));
        lemma_find_from_is(s, p, from + 1, i);
    }
}

/// Where there is no occurrence at or after `from`, `find_from` finds none.
pub proof fn lemma_find_from_none(s: Seq<char>, p: Seq<char>, from: int)
    requires
        0 <= from,
        forall|j: int| from <= j ==> !occurs_at(s, p, j),
    ensures
        find_from(s, p, from) is None,
    decreases s.len() + 1 - from,
{
    if from + p.len() <= s.len() {
        assert(!occurs_at(s, p, from));
        lemma_find_from_none(s, p, from + 1);
    }
}

/// Whether `p` stands in `s` at position `i`.
pub fn stands_at(s: &Vec<char>, p: &Vec<char>, i: usize) -> (r: bool)
    ensures
        r == occurs_at(s@, p@, i as int),
{
    if i > s.len() || p.len() > s.len() - i {
        return false;
    }
    let n: usize = p.len();
    for k in 0..n
        invariant
            n == p.len(),
            i + n <= s.len(),
            forall|j: int| 0 <= j < k ==> s@[i + j] == p@[j],
    {
        if s[i + k] != p[k] {
            proof {
                assert(s@.subrange(i as int, i + n)[k as int] != p@[k as int]);
            }
            return false;
        }
    }
    proof {
        assert(s@.subrange(i as int, i + n) =~= p@);
    }
    true
}

/// The first position at or after `from` at which `p` stands in `s`.
pub fn find_chars_from(s: &Vec<char>, p: &Vec<char>, from: usize) -> (r: Option<usize>)
    ensures
        r is Some == find_from(s@, p@, from as int) is Some,
        r matches Some(i) ==> find_from(s@, p@, from as int) == Some(i as int) && i + p@.len()
            <= s@.len(),
{
    if from > s.len() || p.len() > s.len() - from {
        return None;
    }
    let last: usize = s.len() - p.len();
    let mut i: usize = from;
    while i <= last
        invariant
            from <= i <= last + 1,
            last + p@.len() == s@.len(),
            last < s@.len() || p@.len() == 0,
            find_from(s@, p@, from as int) == find_from(s@, p@, i as int),
        decreases last + 1 - i,
    {
        if stands_at(s, p, i) {
            return Some(i);
        }
        if i == last {
            proof {
                assert(find_from(s@, p@, i + 1) is None);
            }
            return None;
        }
        i = i + 1;
    }
    None
}

/// The first position at which `p` stands in `s`.
pub fn find_chars(s: &Vec<char>, p: &Vec<char>) -> (r: Option<usize>)
    ensures
        r is Some == find_in(s@, p@) is Some,
        r matches Some(i) ==> find_in(s@, p@) == Some(i as int) && i + p@.len() <= s@.len(),
{
    find_chars_from(s, p, 0)
}

/// The first position at or after `from` that holds `c`, or the length of `s`.
pub open spec fn char_or_end(s: Seq<char>, c: char, from: int) -> int
    decreases s.len() - from,
{
    if from < 0 || from >= s.len() {
        s.len() as int
    } else if s[from] == c {
        from
    } else {
        char_or_end(s, c, from + 1)
    }
}

/// What lies before the position that `char_or_end` gives does not hold `c`; that position does,
/// unless it is the end.
pub proof fn lemma_char_or_end(s: Seq<char>, c: char, from: int)
    requires
        0 <= from <= s.len(),
    ensures
        from <= char_or_end(s, c, from) <= s.len(),
        forall|j: int| from <= j < char_or_end(s, c, from) ==> s[j] != c,
        char_or_end(s, c, from) < s.len() ==> s[char_or_end(s, c, from)] == c,
    decreases s.len() - from,
{
    if from < s.len() && s[from] != c {
        lemma_char_or_end(s, c, from + 1);
    }
}

/// The first position at or after `from` that holds `c`, or the length of `s`.
pub fn find_char_or_end(s: &Vec<char>, c: char, from: usize) -> (r: usize)
    requires
        from <= s.len(),
    ensures
        r == char_or_end(s@, c, from as int),
        from <= r <= s.len(),
{
    let n: usize = s.len();
    let mut i: usize = from;
    while i < n
        invariant
            from <= i <= n,
            n == s.len(),
            char_or_end(s@, c, from as int) == char_or_end(s@, c, i as int),
        decreases n - i,
    {
        if s[i] == c {
            return i;
        }
        i = i + 1;
    }
    n
}

/// Whether two texts are the same.
pub fn same_chars(a: &Vec<char>, b: &Vec<char>) -> (r: bool)
    ensures
        r == (a@ == b@),
{
    if a.len() != b.len() {
        return false;
    }
    let r = stands_at(a, b, 0);
    proof {
        assert(a@.subrange(0, a@.len() as int) =~= a@);
    }
    r
}

/// Whether two strings are the same.
pub fn same_str(a: &str, b: &str) -> (r: bool)
    ensures
        r == (a@ == b@),
{
    same_chars(&chars_of(a), &chars_of(b))
}

// ---------------------------------------------------------------------------------------------
// Trimming
// ---------------------------------------------------------------------------------------------

/// `s` without its leading white space.
pub open spec fn trim_start(s: Seq<char>) -> Seq<char>
    decreases s.len(),
{
    if s.len() > 0 && is_white(s[0]) {
        trim_start(s.skip(1))
    } else {
        s
    }
}

/// `s` without its trailing white space.
pub open spec fn trim_end(s: Seq<char>) -> Seq<char>
    decreases s.len(),
{
    if s.len() > 0 && is_white(s.last()) {
        trim_end(s.drop_last())
    } else {
        s
    }
}

/// `s` without white space at either end.
pub open spec fn trim(s: Seq<char>) -> Seq<char> {
    trim_end(trim_start(s))
}

/// The length of the leading white space of `v`.
fn leading_white(v: &Vec<char>) -> (n: usize)
    ensures
        n <= v.len(),
        trim_start(v@) == v@.skip(n as int),
{
    let len: usize = v.len();
    let mut i: usize = 0;
    proof {
        assert(v@.skip(0) =~= v@);
    }
    while i < len && v[i].is_whitespace()
        invariant
            i <= len,
            len == v.len(),
            trim_start(v@) == trim_start(v@.skip(i as int)),
        decreases len - i,
    {
        proof {
            assert(v@.skip(i as int)[0] == v@[i as int]);
            assert(v@.skip(i as int).skip(1) =~= v@.skip(i + 1));
        }
        i = i + 1;
    }
    proof {
        if i < len {
            assert(v@.skip(i as int)[0] == v@[i as int]);
        }
    }
    i
}

/// `v` without white space at either end.
pub fn trim_chars(v: &Vec<char>) -> (r: Vec<char>)
    ensures
        r@ == trim(v@),
{
    let from: usize = leading_white(v);
    let mut to: usize = v.len();
    let ghost rest = v@.skip(from as int);
    proof {
        assert(v@.subrange(from as int, to as int) =~= rest);
    }
    while from < to && v[to - 1].is_whitespace()
        invariant
            from <= to <= v.len(),
            rest == trim_start(v@),
            trim_end(rest) == trim_end(v@.subrange(from as int, to as int)),
        decreases to - from,
    {
        proof {
            let cur = v@.subrange(from as int, to as int);
            assert(cur.last() == v@[to - 1]);
            assert(cur.drop_last() =~= v@.subrange(from as int, to - 1));
        }
        to = to - 1;
    }
    proof {
        let cur = v@.subrange(from as int, to as int);
        if from < to {
            assert(cur.last() == v@[to - 1]);
        }
        assert(trim_end(cur) == cur);
    }
    slice_of(v, from, to)
}

/// What `trim_start` leaves is the rest of the text from its first character that is not white.
pub proof fn lemma_trim_start(s: Seq<char>)
    ensures
        trim_start(s).len() > 0 ==> !is_white(trim_start(s)[0]),
        exists|a: int| 0 <= a <= s.len() && trim_start(s) == #[trigger] s.skip(a),
    decreases s.len(),
{
    if s.len() > 0 && is_white(s[0]) {
        lemma_trim_start(s.skip(1));
        let a = choose|a: int|
            0 <= a <= s.skip(1).len() && trim_start(s.skip(1)) == #[trigger] s.skip(1).skip(a);
        assert(s.skip(1).skip(a) =~= s.skip(a + 1));
    } else {
        assert(s.skip(0) =~= s);
    }
}

/// White space at the end does not matter to what `trim` leaves.
proof fn lemma_trim_push(s: Seq<char>, w: char)
    requires
        is_white(w),
    ensures
        trim(s.push(w)) == trim(s),
    decreases s.len(),
{
    if s.len() == 0 {
        assert(s.push(w).skip(1) =~= s);
    } else if is_white(s[0]) {
        assert(s.push(w).skip(1) =~= s.skip(1).push(w));
        lemma_trim_push(s.skip(1), w);
    } else {
        assert(s.push(w).drop_last() =~= s);
    }
}

/// Trimming the end first makes no difference to `trim`.
pub proof fn lemma_trim_of_trim_end(s: Seq<char>)
    ensures
        trim(trim_end(s)) == trim(s),
    decreases s.len(),
{
    if s.len() > 0 && is_white(s.last()) {
        lemma_trim_of_trim_end(s.drop_last());
        lemma_trim_push(s.drop_last(), s.last());
        assert(s.drop_last().push(s.last()) =~= s);
    }
}

/// What stands before a character that is not white is not touched by trimming the end.
pub proof fn lemma_trim_end_behind(a: Seq<char>, b: Seq<char>)
    requires
        a.len() > 0,
        !is_white(a.last()),
    ensures
        trim_end(a + b) == a + trim_end(b),
    decreases b.len(),
{
    if b.len() == 0 {
        assert(a + b =~= a);
        assert(a + trim_end(b) =~= a);
    } else if is_white(b.last()) {
        assert((a + b).drop_last() =~= a + b.drop_last());
        lemma_trim_end_behind(a, b.drop_last());
    }
}

// ---------------------------------------------------------------------------------------------
// Lines and words
// ---------------------------------------------------------------------------------------------

/// A line that ended in a line feed, without the carriage return that may stand before it.
pub open spec fn without_cr(s: Seq<char>) -> Seq<char> {
    if s.len() > 0 && s.last() == '\r' {
        s.drop_last()
    } else {
        s
    }
}

/// The lines of `s`: each ends in a line feed, or in a carriage return and a line feed, neither of
/// which belongs to it; the last one may have no such end.
pub open spec fn lines(s: Seq<char>) -> Seq<Seq<char>>
    decreases s.len(),
{
    if s.len() == 0 {
        Seq::empty()
    } else {
        let e = char_or_end(s, '\n', 0);
        if 0 <= e < s.len() {
            seq![without_cr(s.take(e))] + lines(s.skip(e + 1))
        } else {
            seq![s]
        }
    }
}

/// What stands behind the last line feed is the last line.
pub proof fn lemma_last_line(before: Seq<char>, line: Seq<char>)
    requires
        line.len() > 0,
        forall|i: int| 0 <= i < line.len() ==> line[i] != '\n',
    ensures
        lines(line) == seq![line],
        lines(before + seq!['\n'] + line).len() > 0,
        lines(before + seq!['\n'] + line).last() == line,
    decreases before.len(),
{
    let s = before + seq!['\n'] + line;
    let e = char_or_end(s, '\n', 0);
    lemma_char_or_end(s, '\n', 0);
    assert(s[before.len() as int] == '\n');
    assert(e <= before.len());
    lemma_char_or_end(line, '\n', 0);
    assert(lines(line) == seq![line]);
    let tail = lines(s.skip(e + 1));
    assert(lines(s) == seq![without_cr(s.take(e))] + tail);
    if e == before.len() {
        assert(s.skip(e + 1) =~= line);
    } else {
        let rest = before.skip(e + 1);
        assert(s.skip(e + 1) =~= rest + seq!['\n'] + line);
        lemma_last_line(rest, line);
    }
    assert(tail.len() > 0 && tail.last() == line);
    assert(lines(s).last() == tail.last());
}

/// The views of a vector of texts.
pub open spec fn views(v: Seq<Vec<char>>) -> Seq<Seq<char>> {
    v.map_values(|t: Vec<char>| t@)
}

/// The lines of `v`.
pub fn lines_of(v: &Vec<char>) -> (r: Vec<Vec<char>>)
    ensures
        views(r@) == lines(v@),
{
    let n: usize = v.len();
    let mut r: Vec<Vec<char>> = Vec::new();
    let mut i: usize = 0;
    proof {
        assert(v@.skip(0) =~= v@);
        assert(views(r@) + lines(v@.skip(0)) =~= lines(v@));
    }
    while i < n
        invariant
            i <= n,
            n == v.len(),
            views(r@) + lines(v@.skip(i as int)) == lines(v@),
        decreases n - i,
    {
        let e: usize = find_char_or_end(v, '\n', i);
        let ghost rest = v@.skip(i as int);
        let ghost before = views(r@);
        proof {
            lemma_char_or_end_skip(v@, '\n', i as int);
        }
        if e < n {
            let mut to: usize = e;
            if i < e && v[e - 1] == '\r' {
                to = e - 1;
            }
            let line = slice_of(v, i, to);
            proof {
                assert(rest.take(e - i) =~= v@.subrange(i as int, e as int));
                assert(line@ =~= without_cr(rest.take(e - i)));
                assert(rest.skip(e - i + 1) =~= v@.skip(e + 1));
            }
            r.push(line);
            i = e + 1;
            proof {
                assert(views(r@) =~= before.push(line@));
                assert(views(r@) + lines(v@.skip(i as int)) =~= before + (seq![line@] + lines(
                    v@.skip(i as int),
                )));
            }
        } else {
            let line = slice_of(v, i, n);
            proof {
                assert(line@ =~= rest);
            }
            r.push(line);
            i = n;
            proof {
                assert(views(r@) =~= before.push(line@));
                assert(views(r@) + lines(v@.skip(n as int)) =~= before + seq![line@]);
            }
        }
    }
    proof {
        assert(views(r@) + lines(v@.skip(n as int)) =~= views(r@));
    }
    r
}

/// Searching for a character after a position is searching for it in the rest.
proof fn lemma_char_or_end_skip(s: Seq<char>, c: char, from: int)
    requires
        0 <= from <= s.len(),
    ensures
        char_or_end(s, c, from) == from + char_or_end(s.skip(from), c, 0),
{
    lemma_char_or_end(s, c, from);
    lemma_char_or_end(s.skip(from), c, 0);
    let a = char_or_end(s, c, from);
    let b = char_or_end(s.skip(from), c, 0);
    if a < from + b {
        assert(s.skip(from)[a - from] == s[a]);
    } else if from + b < a {
        assert(s.skip(from)[b] == s[from + b]);
    }
}

/// The first position at or after `from` that holds white space, or the length of `s`.
pub open spec fn white_or_end(s: Seq<char>, from: int) -> int
    decreases s.len() - from,
{
    if from < 0 || from >= s.len() {
        s.len() as int
    } else if is_white(s[from]) {
        from
    } else {
        white_or_end(s, from + 1)
    }
}

/// What lies before the position that `white_or_end` gives is not white; that position is, unless
/// it is the end.
pub proof fn lemma_white_or_end(s: Seq<char>, from: int)
    requires
        0 <= from <= s.len(),
    ensures
        from <= white_or_end(s, from) <= s.len(),
        forall|j: int| from <= j < white_or_end(s, from) ==> !is_white(s[j]),
        white_or_end(s, from) < s.len() ==> is_white(s[white_or_end(s, from)]),
    decreases s.len() - from,
{
    if from < s.len() && !is_white(s[from]) {
        lemma_white_or_end(s, from + 1);
    }
}

/// The words of `s`: what stands between stretches of white space.
pub open spec fn words(s: Seq<char>) -> Seq<Seq<char>>
    decreases s.len(),
{
    let t = trim_start(s);
    let e = white_or_end(t, 0);
    if t.len() == 0 {
        Seq::empty()
    } else {
        proof {
            lemma_trim_start(s);
            lemma_white_or_end(t, 0);
        }
        seq![t.take(e)] + words(t.skip(e))
    }
}

/// The words of `v`.
pub fn words_of(v: &Vec<char>) -> (r: Vec<Vec<char>>)
    ensures
        views(r@) == words(v@),
{
    let n: usize = v.len();
    let mut r: Vec<Vec<char>> = Vec::new();
    let mut i: usize = 0;
    proof {
        assert(v@.skip(0) =~= v@);
        assert(views(r@) + words(v@.skip(0)) =~= words(v@));
    }
    while i < n
        invariant
            i <= n,
            n == v.len(),
            views(r@) + words(v@.skip(i as int)) == words(v@),
        decreases n - i,
    {
        let ghost rest = v@.skip(i as int);
        if v[i].is_whitespace() {
            proof {
                assert(rest[0] == v@[i as int]);
                assert(rest.skip(1) =~= v@.skip(i + 1));
                lemma_trim_start(rest);
                lemma_trim_start(rest.skip(1));
                assert(trim_start(rest) == trim_start(rest.skip(1)));
            }
            i = i + 1;
        } else {
            let ghost before = views(r@);
            let ghost start = i as int;
            let mut e: usize = i;
            while e < n && !v[e].is_whitespace()
                invariant
                    i <= e <= n,
                    n == v.len(),
                    start == i,
                    rest == v@.skip(start),
                    white_or_end(rest, 0) == white_or_end(rest, e - start),
                decreases n - e,
            {
                proof {
                    assert(rest[e - start] == v@[e as int]);
                }
                e = e + 1;
            }
            proof {
                if e < n {
                    assert(rest[e - start] == v@[e as int]);
                }
                assert(rest[0] == v@[i as int]);
                assert(white_or_end(rest, 0) == e - start);
                assert(!is_white(v@[i as int]));
                assert(e > i);
                assert(trim_start(rest) == rest);
                assert(rest.take(e - start) =~= v@.subrange(i as int, e as int));
                assert(rest.skip(e - start) =~= v@.skip(e as int));
            }
            let word = slice_of(v, i, e);
            r.push(word);
            i = e;
            proof {
                assert(views(r@) =~= before.push(word@));
                assert(views(r@) + words(v@.skip(i as int)) =~= before + (seq![word@] + words(
                    v@.skip(i as int),
                )));
            }
        }
    }
    proof {
        assert(views(r@) + words(v@.skip(n as int)) =~= views(r@));
    }
    r
}

/// The texts of `parts` with `sep` between them.
pub open spec fn join(parts: Seq<Seq<char>>, sep: Seq<char>) -> Seq<char>
    decreases parts.len(),
{
    if parts.len() == 0 {
        Seq::empty()
    } else if parts.len() == 1 {
        parts[0]
    } else {
        join(parts.drop_last(), sep) + sep + parts.last()
    }
}

/// The texts of `parts` with `sep` between them.
pub fn join_chars(parts: &Vec<Vec<char>>, sep: &Vec<char>) -> (r: Vec<char>)
    ensures
        r@ == join(views(parts@), sep@),
{
    let n: usize = parts.len();
    let mut r: Vec<char> = Vec::new();
    proof {
        assert(views(parts@).take(0) =~= Seq::empty());
    }
    for i in 0..n
        invariant
            n == parts.len(),
            r@ == join(views(parts@).take(i as int), sep@),
    {
        let ghost old_r = r@;
        if i > 0 {
            push_all(&mut r, sep);
        }
        push_all(&mut r, &parts[i]);
        proof {
            let upto = views(parts@).take(i + 1);
            assert(upto.drop_last() =~= views(parts@).take(i as int));
            assert(upto.last() == parts@[i as int]@);
            if i == 0 {
                assert(old_r + upto[0] =~= upto[0]);
            }
        }
    }
    proof {
        assert(views(parts@).take(n as int) =~= views(parts@));
    }
    r
}

/// Whether `s` begins with `p`.
pub open spec fn starts_with(s: Seq<char>, p: Seq<char>) -> bool {
    occurs_at(s, p, 0)
}

/// `s` with every `c` replaced by the text `by`.
pub open spec fn replace_char(s: Seq<char>, c: char, by: Seq<char>) -> Seq<char>
    decreases s.len(),
{
    if s.len() == 0 {
        Seq::empty()
    } else if s.last() == c {
        replace_char(s.drop_last(), c, by) + by
    } else {
        replace_char(s.drop_last(), c, by).push(s.last())
    }
}

/// `v` with every `c` replaced by the text `by`.
pub fn replace_char_with(v: &Vec<char>, c: char, by: &Vec<char>) -> (r: Vec<char>)
    ensures
        r@ == replace_char(v@, c, by@),
{
    let n: usize = v.len();
    let mut r: Vec<char> = Vec::new();
    for i in 0..n
        invariant
            n == v.len(),
            r@ == replace_char(v@.take(i as int), c, by@),
    {
        proof {
            assert(v@.take(i + 1).drop_last() =~= v@.take(i as int));
            assert(v@.take(i + 1).last() == v@[i as int]);
        }
        if v[i] == c {
            push_all(&mut r, by);
        } else {
            r.push(v[i]);
        }
    }
    proof {
        assert(v@.take(n as int) =~= v@);
    }
    r
}

/// The texts of a sequence of strings.
pub open spec fn texts(v: Seq<String>) -> Seq<Seq<char>> {
    v.map_values(|s: String| s@)
}

/// The view of a text, where there is one.
pub open spec fn opt_view(s: Option<String>) -> Option<Seq<char>> {
    match s {
        Some(t) => Some(t@),
        None => None,
    }
}

/// A copy of a list of strings.
pub fn copy_strings(v: &Vec<String>) -> (r: Vec<String>)
    ensures
        r@ == v@,
{
    let n: usize = v.len();
    let mut r: Vec<String> = Vec::new();
    for i in 0..n
        invariant
            n == v.len(),
            r@ == v@.take(i as int),
    {
        r.push(v[i].clone());
        proof {
            assert(v@.take(i + 1) =~= v@.take(i as int).push(v@[i as int]));
        }
    }
    proof {
        assert(v@.take(n as int) =~= v@);
    }
    r
}

// ---------------------------------------------------------------------------------------------
// Laws
// ---------------------------------------------------------------------------------------------

/// What is searched for is found where it first stands: the characters there are its own, and no
/// earlier stretch of the same length is. Where nothing is found, no stretch is.
pub proof fn law_search_finds_the_first(s: Seq<char>, p: Seq<char>)
    ensures
        match find_in(s, p) {
            Some(i) => {
                &&& 0 <= i && i + p.len() <= s.len()
                &&& forall|k: int| 0 <= k < p.len() ==> s[i + k] == #[trigger] p[k]
                &&& forall|j: int| 0 <= j < i ==> #[trigger] s.subrange(j, j + p.len()) != p
            },
            None => forall|j: int|
                0 <= j && j + p.len() <= s.len() ==> #[trigger] s.subrange(j, j + p.len()) != p,
        },
{
    lemma_find_from(s, p, 0);
    match find_in(s, p) {
        Some(i) => {
            assert forall|k: int| 0 <= k < p.len() implies s[i + k] == #[trigger] p[k] by {
                assert(s.subrange(i, i + p.len())[k] == s[i + k]);
            }
            assert forall|j: int| 0 <= j < i implies #[trigger] s.subrange(j, j + p.len()) != p by {
                assert(!occurs_at(s, p, j));
            }
        },
        None => {
            assert forall|j: int| 0 <= j && j + p.len() <= s.len() implies #[trigger] s.subrange(
                j,
                j + p.len(),
            ) != p by {
                assert(!occurs_at(s, p, j));
            }
        },
    }
}

/// A text that stands between two others is contained in the whole.
pub proof fn law_parts_are_contained(a: Seq<char>, p: Seq<char>, b: Seq<char>)
    ensures
        contains_text(a + p + b, p),
{
    let s = a + p + b;
    assert(s.subrange(a.len() as int, (a.len() + p.len()) as int) =~= p);
    assert(occurs_at(s, p, a.len() as int));
    lemma_find_from(s, p, 0);
}

/// White space before a text does not matter to `trim_start`.
pub proof fn lemma_trim_start_behind(a: Seq<char>, s: Seq<char>)
    requires
        forall|i: int| 0 <= i < a.len() ==> is_white(#[trigger] a[i]),
    ensures
        trim_start(a + s) == trim_start(s),
    decreases a.len(),
{
    if a.len() == 0 {
        assert(a + s =~= s);
    } else {
        assert(is_white(a[0]));
        assert((a + s).skip(1) =~= a.skip(1) + s);
        assert forall|i: int| 0 <= i < a.skip(1).len() implies is_white(#[trigger] a.skip(1)[i]) by {
            assert(a.skip(1)[i] == a[i + 1]);
        }
        lemma_trim_start_behind(a.skip(1), s);
    }
}

/// White space behind a text does not matter to `trim_end`.
proof fn lemma_trim_end_before(s: Seq<char>, b: Seq<char>)
    requires
        forall|i: int| 0 <= i < b.len() ==> is_white(#[trigger] b[i]),
    ensures
        trim_end(s + b) == trim_end(s),
    decreases b.len(),
{
    if b.len() == 0 {
        assert(s + b =~= s);
    } else {
        assert(is_white(b[b.len() - 1]));
        assert((s + b).drop_last() =~= s + b.drop_last());
        assert forall|i: int| 0 <= i < b.drop_last().len() implies is_white(
            #[trigger] b.drop_last()[i],
        ) by {
            assert(b.drop_last()[i] == b[i]);
        }
        lemma_trim_end_before(s, b.drop_last());
    }
}

/// Trimming takes off all white space at either end and nothing else.
pub proof fn law_trimming_takes_off_white_space(a: Seq<char>, s: Seq<char>, b: Seq<char>)
    requires
        forall|i: int| 0 <= i < a.len() ==> is_white(#[trigger] a[i]),
        forall|i: int| 0 <= i < b.len() ==> is_white(#[trigger] b[i]),
        s.len() > 0 ==> !is_white(s[0]) && !is_white(s.last()),
    ensures
        trim(a + s + b) == s,
{
    assert(a + s + b =~= a + (s + b));
    lemma_trim_start_behind(a, s + b);
    if s.len() == 0 {
        assert(s + b =~= b);
        assert(b + Seq::<char>::empty() =~= b);
        lemma_trim_start_behind(b, Seq::empty());
        assert(trim_start(b) == Seq::<char>::empty());
        assert(s =~= Seq::empty());
    } else {
        assert((s + b)[0] == s[0]);
        lemma_trim_end_before(s, b);
    }
}

/// The lines of a text are what stands between its line feeds: a line without its end, and then the
/// lines of the rest.
pub proof fn law_lines_end_in_line_feeds(line: Seq<char>, rest: Seq<char>)
    requires
        forall|i: int| 0 <= i < line.len() ==> line[i] != '\n',
    ensures
        lines(Seq::empty()) == Seq::<Seq<char>>::empty(),
        line.len() > 0 ==> lines(line) == seq![line],
        line.len() > 0 && line.last() == '\r' ==> lines(line + seq!['\n'] + rest) == seq![
            line.drop_last(),
        ] + lines(rest),
        line.len() == 0 || line.last() != '\r' ==> lines(line + seq!['\n'] + rest) == seq![line]
            + lines(rest),
{
    let s = line + seq!['\n'] + rest;
    lemma_char_or_end(s, '\n', 0);
    lemma_char_or_end(line, '\n', 0);
    let e = char_or_end(s, '\n', 0);
    assert(s[line.len() as int] == '\n');
    if e < line.len() {
        assert(s[e] == line[e]);
    }
    assert(e == line.len());
    assert(s.take(e) =~= line);
    assert(s.skip(e + 1) =~= rest);
}

/// White space before a text makes no words.
proof fn lemma_words_behind(a: Seq<char>, s: Seq<char>)
    requires
        forall|i: int| 0 <= i < a.len() ==> is_white(#[trigger] a[i]),
    ensures
        words(a + s) == words(s),
{
    lemma_trim_start_behind(a, s);
}

/// The words of a text are what stands between its white space: a word, and then the words of the rest.
pub proof fn law_words_end_in_white_space(a: Seq<char>, word: Seq<char>, rest: Seq<char>)
    requires
        forall|i: int| 0 <= i < a.len() ==> is_white(#[trigger] a[i]),
        word.len() > 0,
        forall|i: int| 0 <= i < word.len() ==> !is_white(#[trigger] word[i]),
        rest.len() > 0 ==> is_white(rest[0]),
    ensures
        words(a) == Seq::<Seq<char>>::empty(),
        words(a + word + rest) == seq![word] + words(rest),
{
    lemma_words_behind(a, Seq::empty());
    assert(a + Seq::<char>::empty() =~= a);
    assert(words(Seq::<char>::empty()) == Seq::<Seq<char>>::empty());
    assert(a + word + rest =~= a + (word + rest));
    lemma_words_behind(a, word + rest);
    let t = word + rest;
    assert(!is_white(word[0]));
    assert(t[0] == word[0]);
    assert(trim_start(t) == t);
    lemma_white_or_end(t, 0);
    let e = white_or_end(t, 0);
    if e < word.len() {
        assert(t[e] == word[e]);
        assert(!is_white(word[e]));
    } else if word.len() < e {
        assert(t[word.len() as int] == rest[0]);
    }
    assert(e == word.len());
    assert(t.take(e) =~= word);
    assert(t.skip(e) =~= rest);
}

/// Words that are joined with single spaces are read back as they were.
pub proof fn law_joined_words_are_read_back(parts: Seq<Seq<char>>)
    requires
        forall|i: int| 0 <= i < parts.len() ==> (#[trigger] parts[i]).len() > 0,
        forall|i: int, k: int|
            0 <= i < parts.len() && 0 <= k < parts[i].len() ==> !is_white(#[trigger] parts[i][k]),
    ensures
        words(join(parts, " "@)) == parts,
    decreases parts.len(),
{
    reveal_strlit(" ");
    let sep = " "@;
    if parts.len() == 0 {
        lemma_words_behind(Seq::empty(), Seq::empty());
        assert(parts =~= Seq::empty());
    } else {
        lemma_join_front(parts, sep);
        let none = Seq::<char>::empty();
        let first = parts[0];
        let others = parts.skip(1);
        assert forall|i: int| 0 <= i < others.len() implies (#[trigger] others[i]).len() > 0 by {
            assert(others[i] == parts[i + 1]);
        }
        assert forall|i: int, k: int| 0 <= i < others.len() && 0 <= k < others[i].len() implies !is_white(
            #[trigger] others[i][k],
        ) by {
            assert(others[i] == parts[i + 1]);
        }
        law_joined_words_are_read_back(others);
        assert forall|i: int| 0 <= i < first.len() implies !is_white(#[trigger] first[i]) by {
            assert(!is_white(parts[0][i]));
        }
        if parts.len() == 1 {
            law_words_end_in_white_space(none, first, none);
            assert(none + first + none =~= first);
            assert(seq![first] + others =~= parts);
            assert(others =~= Seq::empty());
            lemma_words_behind(none, none);
        } else {
            let tail = sep + join(others, sep);
            assert(tail[0] == ' ');
            law_words_end_in_white_space(none, first, tail);
            assert(none + first + tail =~= first + sep + join(others, sep));
            lemma_words_behind(sep, join(others, sep));
            assert(seq![first] + others =~= parts);
        }
    }
}

/// Joined parts begin with the first.
pub proof fn lemma_join_front(parts: Seq<Seq<char>>, sep: Seq<char>)
    requires
        parts.len() > 0,
    ensures
        parts.len() == 1 ==> join(parts, sep) == parts[0],
        parts.len() > 1 ==> join(parts, sep) == parts[0] + sep + join(parts.skip(1), sep),
    decreases parts.len(),
{
    if parts.len() == 2 {
        assert(parts.drop_last() =~= seq![parts[0]]);
        assert(parts.skip(1) =~= seq![parts[1]]);
        assert(join(seq![parts[0]], sep) == parts[0]);
        assert(join(seq![parts[1]], sep) == parts[1]);
    } else if parts.len() > 2 {
        let t = parts.drop_last();
        lemma_join_front(t, sep);
        assert(t.skip(1) =~= parts.skip(1).drop_last());
        assert(parts.skip(1).last() == parts.last());
        assert(parts[0] + sep + join(t.skip(1), sep) + sep + parts.last() =~= parts[0] + sep + (join(
            t.skip(1),
            sep,
        ) + sep + parts.last()));
    }
}

/// Replacing a character goes part by part: every one of its kind gives way to the new text, and no
/// other changes.
pub proof fn law_replacing_goes_by_parts(a: Seq<char>, b: Seq<char>, c: char, by: Seq<char>)
    ensures
        replace_char(a + b, c, by) == replace_char(a, c, by) + replace_char(b, c, by),
        replace_char(seq![c], c, by) == by,
        (forall|i: int| 0 <= i < a.len() ==> a[i] != c) ==> replace_char(a, c, by) == a,
    decreases b.len() + a.len(),
{
    assert(seq![c].drop_last() =~= Seq::empty());
    assert(replace_char(Seq::<char>::empty(), c, by) == Seq::<char>::empty());
    assert(Seq::<char>::empty() + by =~= by);
    if b.len() == 0 {
        assert(a + b =~= a);
        assert(replace_char(a, c, by) + Seq::<char>::empty() =~= replace_char(a, c, by));
    } else {
        law_replacing_goes_by_parts(a, b.drop_last(), c, by);
        assert((a + b).drop_last() =~= a + b.drop_last());
        assert((a + b).last() == b.last());
        let (x, y) = (replace_char(a, c, by), replace_char(b.drop_last(), c, by));
        if b.last() == c {
            assert((x + y) + by =~= x + (y + by));
        } else {
            assert((x + y).push(b.last()) =~= x + y.push(b.last()));
        }
    }
    if a.len() > 0 && (forall|i: int| 0 <= i < a.len() ==> a[i] != c) {
        law_replacing_goes_by_parts(a.drop_last(), Seq::empty(), c, by);
        assert forall|i: int| 0 <= i < a.drop_last().len() implies a.drop_last()[i] != c by {
            assert(a.drop_last()[i] == a[i]);
        }
        assert(a.drop_last().push(a.last()) =~= a);
    } else if a.len() == 0 {
        assert(a =~= Seq::empty());
    }
}

/// Gluing two lists of parts is gluing each, one behind the other.
pub proof fn law_gluing_goes_by_parts(a: Seq<Seq<char>>, b: Seq<Seq<char>>)
    ensures
        glued(a + b) == glued(a) + glued(b),
        forall|p: Seq<char>| glued(seq![p]) == p,
    decreases b.len(),
{
    assert forall|p: Seq<char>| glued(seq![p]) == p by {
        assert(seq![p].drop_last() =~= Seq::empty());
        assert(glued(Seq::<Seq<char>>::empty()) == Seq::<char>::empty());
        assert(Seq::<char>::empty() + p =~= p);
    }
    if b.len() == 0 {
        assert(a + b =~= a);
        assert(glued(a) + Seq::<char>::empty() =~= glued(a));
    } else {
        law_gluing_goes_by_parts(a, b.drop_last());
        assert((a + b).drop_last() =~= a + b.drop_last());
        assert((a + b).last() == b.last());
        assert(glued(a) + (glued(b.drop_last()) + b.last()) =~= glued(a) + glued(b.drop_last())
            + b.last());
    }
}

/// Trimming the end leaves a beginning.
pub proof fn lemma_trim_end_is_prefix(s: Seq<char>)
    ensures
        trim_end(s).is_prefix_of(s),
    decreases s.len(),
{
    if s.len() > 0 && is_white(s.last()) {
        lemma_trim_end_is_prefix(s.drop_last());
        assert(trim_end(s) =~= s.take(trim_end(s).len() as int));
    } else {
        assert(s =~= s.take(s.len() as int));
    }
}

/// Trimming keeps every character that is not white.
pub proof fn lemma_trim_keeps(s: Seq<char>, i: int)
    requires
        0 <= i < s.len(),
        !is_white(s[i]),
    ensures
        trim(s).len() > 0,
{
    lemma_trim_start_keeps(s, i);
    let t = trim_start(s);
    let k = choose|k: int| 0 <= k < t.len() && !is_white(#[trigger] t[k]);
    lemma_trim_end_keeps(t, k);
}

/// Trimming the start keeps a character that is not white.
proof fn lemma_trim_start_keeps(s: Seq<char>, i: int)
    requires
        0 <= i < s.len(),
        !is_white(s[i]),
    ensures
        exists|k: int| 0 <= k < trim_start(s).len() && !is_white(#[trigger] trim_start(s)[k]),
    decreases s.len(),
{
    if is_white(s[0]) {
        assert(s.skip(1)[i - 1] == s[i]);
        lemma_trim_start_keeps(s.skip(1), i - 1);
        let k = choose|k: int|
            0 <= k < trim_start(s.skip(1)).len() && !is_white(#[trigger] trim_start(s.skip(1))[k]);
        assert(trim_start(s) == trim_start(s.skip(1)));
        assert(!is_white(trim_start(s)[k]));
    } else {
        assert(!is_white(trim_start(s)[0]));
    }
}

/// Trimming the end keeps what stands up to a character that is not white.
proof fn lemma_trim_end_keeps(s: Seq<char>, i: int)
    requires
        0 <= i < s.len(),
        !is_white(s[i]),
    ensures
        trim_end(s).len() > i,
    decreases s.len(),
{
    if is_white(s.last()) {
        assert(s.drop_last()[i] == s[i]);
        lemma_trim_end_keeps(s.drop_last(), i);
    }
}

/// Words are not empty and hold no white space.
pub proof fn lemma_words(s: Seq<char>)
    ensures
        forall|i: int| 0 <= i < words(s).len() ==> (#[trigger] words(s)[i]).len() > 0,
        forall|i: int, k: int|
            0 <= i < words(s).len() && 0 <= k < words(s)[i].len() ==> !is_white(
                #[trigger] words(s)[i][k],
            ),
        forall|i: int, k: int|
            0 <= i < words(s).len() && 0 <= k < words(s)[i].len() ==> s.contains(
                #[trigger] words(s)[i][k],
            ),
    decreases s.len(),
{
    let t = trim_start(s);
    lemma_trim_start(s);
    if t.len() > 0 {
        let e = white_or_end(t, 0);
        lemma_white_or_end(t, 0);
        let rest = words(t.skip(e));
        lemma_words(t.skip(e));
        let all = words(s);
        assert(all == seq![t.take(e)] + rest);
        let from = choose|from: int| 0 <= from <= s.len() && t == #[trigger] s.skip(from);
        assert forall|i: int| 0 <= i < all.len() implies (#[trigger] all[i]).len() > 0 by {
            if i > 0 {
                assert(all[i] == rest[i - 1]);
            }
        }
        assert forall|i: int, k: int| 0 <= i < all.len() && 0 <= k < all[i].len() implies !is_white(
            #[trigger] all[i][k],
        ) && s.contains(all[i][k]) by {
            if i > 0 {
                assert(all[i] == rest[i - 1]);
                assert(t.skip(e).contains(rest[i - 1][k]));
                let j = choose|j: int| 0 <= j < t.skip(e).len() && t.skip(e)[j] == rest[i - 1][k];
                assert(s[from + e + j] == all[i][k]);
            } else {
                assert(all[0][k] == t[k]);
                assert(s[from + k] == t[k]);
            }
        }
    }
}

} // verus!
