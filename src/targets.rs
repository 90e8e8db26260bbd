//! How many question/answer pairs a piece of text deserves.
use vstd::prelude::*;

verus! {

/// Ceiling of `a / b` for `b > 0`.
pub open spec fn ceil_div(a: int, b: int) -> int {
    (a + b - 1) / b
}

pub open spec fn at_least_two(x: int) -> int {
    if x < 2 { 2 } else { x }
}

/// One pair per ten words, rounded up, and never fewer than two.
pub open spec fn base_goal(words: int) -> int {
    at_least_two(ceil_div(words, 10))
}

/// A quarter of the base goal, rounded up, and never fewer than two.
pub open spec fn extra_goal(base: int) -> int {
    at_least_two(ceil_div(base, 4))
}

/// Four fifths of the base goal, rounded up, and never fewer than two.
pub open spec fn min_goal(base: int) -> int {
    at_least_two(ceil_div(4 * base, 5))
}

/// The yield targets for a piece of text.
#[derive(Clone, Copy, Debug, PartialEq, Eq, Structural)]
pub struct YieldTargets {
    /// The number of pairs the text deserves.
    pub base_goal: usize,
    /// The number of pairs to ask for: the base goal and a margin.
    pub generation_target: usize,
    /// The smallest yield that counts as enough.
    pub min_acceptable: usize,
}

impl YieldTargets {
    /// The targets are those of a text of `words` words.
    pub open spec fn spec_for(self, words: int) -> bool {
        &&& self.base_goal == base_goal(words)
        &&& self.generation_target == base_goal(words) + extra_goal(base_goal(words))
        &&& self.min_acceptable == min_goal(base_goal(words))
    }
}

/// The yield targets for a text of `word_count` words.
pub fn calculate_question_targets(word_count: usize) -> (t: YieldTargets)
    ensures
        t.spec_for(word_count as int),
        t.min_acceptable <= t.base_goal <= t.generation_target,
        t.base_goal >= 2,
        t.min_acceptable >= 2,
{
    let tenths: usize = word_count / 10 + if word_count % 10 == 0 { 0 } else { 1 };
    let base: usize = if tenths < 2 { 2 } else { tenths };
    let quarter: usize = base / 4 + if base % 4 == 0 { 0 } else { 1 };
    let extra: usize = if quarter < 2 { 2 } else { quarter };
    let fifths: usize = (4 * base) / 5 + if (4 * base) % 5 == 0 { 0 } else { 1 };
    let min: usize = if fifths < 2 { 2 } else { fifths };
    YieldTargets { base_goal: base, generation_target: base + extra, min_acceptable: min }
}

/// Proportional share of a parent target for a sub-chunk:
/// `ceil(parent_target * sub_words / parent_words)`, or the whole parent
/// target when the parent holds no words.
pub open spec fn share_of(parent_target: int, sub_words: int, parent_words: int) -> int {
    if parent_words == 0 {
        parent_target
    } else {
        ceil_div(parent_target * sub_words, parent_words)
    }
}

/// The target of a sub-chunk of `sub_words` words within a parent of
/// `parent_words` words whose target is `parent_target`.
pub fn proportional_target(parent_target: usize, sub_words: usize, parent_words: usize) -> (r: usize)
    requires
        sub_words <= parent_words,
    ensures
        r == share_of(parent_target as int, sub_words as int, parent_words as int),
        r <= parent_target,
{
    if parent_words == 0 {
        return parent_target;
    }
    let a: u128 = parent_target as u128;
    let b: u128 = sub_words as u128;
    assert(a * b <= 0xffff_ffff_ffff_ffffu128 * 0xffff_ffff_ffff_ffffu128) by (nonlinear_arith)
        requires a <= 0xffff_ffff_ffff_ffffu128, b <= 0xffff_ffff_ffff_ffffu128;
    let prod: u128 = a * b;
    let pw: u128 = parent_words as u128;
    assert(prod / pw <= prod) by (nonlinear_arith) requires pw > 0;
    let q: u128 = if prod % pw == 0 { prod / pw } else { prod / pw + 1 };
    proof {
        assert(prod <= (parent_target as u128) * pw) by (nonlinear_arith)
            requires prod == (parent_target as u128) * (sub_words as u128), sub_words <= pw;
        assert(q <= parent_target) by (nonlinear_arith)
            requires prod <= (parent_target as int) * pw, pw > 0,
                q == (if prod % pw == 0 { (prod / pw) as int } else { (prod / pw + 1) as int }) as int;
        assert(q == ceil_div(prod as int, pw as int)) by (nonlinear_arith)
            requires pw > 0, q == (if prod % pw == 0 { (prod / pw) as int } else { (prod / pw + 1) as int }) as int;
    }
    q as usize
}

} // verus!
