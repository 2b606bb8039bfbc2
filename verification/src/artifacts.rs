//! Where a run keeps what it makes, below its output directory.

use vstd::prelude::*;
use crate::numbers;
use crate::text;

verus! {

/// `n` in at least `width` digits, with zeros before it.
pub open spec fn padded(n: nat, width: nat) -> Seq<char> {
    let d = numbers::digits(n);
    if d.len() < width {
        Seq::new((width - d.len()) as nat, |i: int| '0') + d
    } else {
        d
    }
}

/// Appends `n` in at least `width` digits.
fn push_padded(out: &mut Vec<char>, n: u32, width: usize)
    ensures
        final(out)@ == old(out)@ + padded(n as nat, width as nat),
{
    let mut d: Vec<char> = Vec::new();
    numbers::push_digits(&mut d, n as u128);
    proof {
        assert(d@ =~= numbers::digits(n as nat));
    }
    let have: usize = d.len();
    let missing: usize = if have < width {
        width - have
    } else {
        0
    };
    let ghost before = out@;
    for i in 0..missing
        invariant
            out@ == before + Seq::new(i as nat, |k: int| '0'),
    {
        out.push('0');
        proof {
            assert(out@ =~= before + Seq::new((i + 1) as nat, |k: int| '0'));
        }
    }
    text::push_all(out, &d);
    proof {
        assert(out@ =~= before + padded(n as nat, width as nat));
    }
}

/// The file of the skill after a step.
pub fn skill_file(step: u32) -> (r: String)
    ensures
        r@ == "skills/skill_v"@ + padded(step as nat, 4) + ".md"@,
{
    let mut out = text::chars_of("skills/skill_v");
    push_padded(&mut out, step, 4);
    text::push_str(&mut out, ".md");
    text::string_of(&out)
}

/// The directory of what a step leaves behind.
pub fn step_dir(step: u32) -> (r: String)
    ensures
        r@ == "steps/step_"@ + padded(step as nat, 4),
{
    let mut out = text::chars_of("steps/step_");
    push_padded(&mut out, step, 4);
    text::string_of(&out)
}

/// The directory of the memo that is written after an epoch.
pub fn memo_dir(epoch: u32) -> (r: String)
    ensures
        r@ == "meta_skill/epoch_"@ + padded(epoch as nat, 2),
{
    let mut out = text::chars_of("meta_skill/epoch_");
    push_padded(&mut out, epoch, 2);
    text::string_of(&out)
}

/// The file of the best skill so far.
pub const BEST_SKILL: &'static str = "best_skill.md";

/// A number is read back from its digits.
proof fn lemma_digits(n: nat)
    ensures
        numbers::number_of(numbers::digits(n)) == n,
    decreases n,
{
    if n < 10 {
        let d = numbers::digits(n);
        assert(d.drop_last() =~= Seq::empty());
        assert(numbers::number_of(d.drop_last()) == 0);
    } else {
        lemma_digits(n / 10);
        let d = numbers::digits(n);
        assert(d.drop_last() =~= numbers::digits(n / 10));
    }
}

/// Zeros before a number do not change it.
proof fn lemma_zeros(k: nat, d: Seq<char>)
    ensures
        numbers::number_of(Seq::new(k, |i: int| '0') + d) == numbers::number_of(d),
    decreases k + d.len(),
{
    let z = Seq::new(k, |i: int| '0');
    let s = z + d;
    if d.len() > 0 {
        assert(s.drop_last() =~= z + d.drop_last());
        lemma_zeros(k, d.drop_last());
    } else if k > 0 {
        let fewer = Seq::new((k - 1) as nat, |i: int| '0');
        assert(s.drop_last() =~= fewer + d);
        lemma_zeros((k - 1) as nat, d);
    } else {
        assert(s =~= d);
    }
}

/// What is kept of different steps, or of different epochs, goes by different names: the number is read
/// back from how it is written.
pub proof fn law_names_tell_apart(a: nat, b: nat, width: nat)
    ensures
        numbers::number_of(padded(a, width)) == a,
        padded(a, width) == padded(b, width) ==> a == b,
{
    lemma_digits(a);
    lemma_digits(b);
    let (da, db) = (numbers::digits(a), numbers::digits(b));
    if da.len() < width {
        lemma_zeros((width - da.len()) as nat, da);
    }
    if db.len() < width {
        lemma_zeros((width - db.len()) as nat, db);
    }
}

/// A number is written in as many digits as it has, or with zeros before it where these are fewer than the
/// width.
pub proof fn law_names_are_padded_with_zeros(n: nat, width: nat, i: int)
    ensures
        padded(n, width).len() >= width,
        numbers::digits(n).len() >= width ==> padded(n, width) == numbers::digits(n),
        0 <= i < width - numbers::digits(n).len() ==> padded(n, width)[i] == '0',
        numbers::digits(n).len() < width ==> padded(n, width).len() == width
            && numbers::digits(n).is_suffix_of(padded(n, width)),
{
    let d = numbers::digits(n);
    if d.len() < width {
        let p = padded(n, width);
        assert(p.skip(p.len() - d.len()) =~= d);
    }
}

} // verus!
