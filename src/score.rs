//! Exact rational arithmetic for the rename thresholds and similarity scores.
//! A threshold is an integer count of millionths.
use vstd::prelude::*;
use crate::text::{line_diff, count_tag, LineTag};

verus! {

/// Millionths in one: a threshold of `SCALE` is a similarity of 1.
pub const SCALE: u64 = 1_000_000;

/// A threshold brought into `0..=SCALE`.
pub open spec fn clamp_spec(t: int) -> nat {
    if t < 0 {
        0
    } else if t > SCALE {
        SCALE as nat
    } else {
        t as nat
    }
}

pub fn clamp_threshold(t: i64) -> (r: u64)
    ensures
        r == clamp_spec(t as int),
{
    if t < 0 {
        0
    } else if t > SCALE as i64 {
        SCALE
    } else {
        t as u64
    }
}

/// The length ratio `from / max(1, to)` lies within `[T, 1/T]`.
pub open spec fn lengths_compatible(from_len: nat, to_len: nat, t: nat) -> bool {
    let m = if to_len == 0 { 1 } else { to_len };
    &&& from_len * SCALE >= t * m
    &&& from_len * t <= SCALE * m
}

pub fn lengths_ok(from_len: usize, to_len: usize, t: u64) -> (r: bool)
    requires
        t <= SCALE,
    ensures
        r == lengths_compatible(from_len as nat, to_len as nat, t as nat),
{
    let m: u128 = if to_len == 0 { 1 } else { to_len as u128 };
    let f = from_len as u128;
    let tt = t as u128;
    let sc = SCALE as u128;
    proof {
        assert(f * sc <= 0xffff_ffff_ffff_ffffu128 * 1_000_000) by (nonlinear_arith)
            requires f <= 0xffff_ffff_ffff_ffffu128, sc == 1_000_000;
        assert(tt * m <= 1_000_000 * 0xffff_ffff_ffff_ffffu128) by (nonlinear_arith)
            requires m <= 0xffff_ffff_ffff_ffffu128, tt <= 1_000_000;
        assert(f * tt <= 0xffff_ffff_ffff_ffffu128 * 1_000_000) by (nonlinear_arith)
            requires f <= 0xffff_ffff_ffff_ffffu128, tt <= 1_000_000;
        assert(sc * m <= 1_000_000 * 0xffff_ffff_ffff_ffffu128) by (nonlinear_arith)
            requires m <= 0xffff_ffff_ffff_ffffu128, sc == 1_000_000;
    }
    f * sc >= tt * m && f * tt <= sc * m
}

/// The distinct-line overlap `common / union` of two texts reaches `0.7 * T`;
/// two texts without lines overlap fully.
pub open spec fn overlap_sufficient(common: nat, na: nat, nd: nat, t: nat) -> bool {
    if na == 0 && nd == 0 {
        true
    } else {
        let union = na + nd - common;
        if union <= 0 {
            t == 0
        } else {
            10 * SCALE * common >= 7 * t * union
        }
    }
}

pub fn overlap_ok(common: usize, na: usize, nd: usize, t: u64) -> (r: bool)
    requires
        t <= SCALE,
        common <= na,
    ensures
        r == overlap_sufficient(common as nat, na as nat, nd as nat, t as nat),
{
    if na == 0 && nd == 0 {
        return true;
    }
    let union: u128 = na as u128 + nd as u128 - common as u128;
    if union == 0 {
        return t == 0;
    }
    let c = common as u128;
    let tt = t as u128;
    proof {
        assert(10 * 1_000_000 * c <= 10 * 1_000_000 * 0xffff_ffff_ffff_ffffu128) by (nonlinear_arith)
            requires c <= 0xffff_ffff_ffff_ffffu128;
        assert(7 * tt * union <= 7 * 1_000_000 * 0x1_ffff_ffff_ffff_fffeu128) by (nonlinear_arith)
            requires union <= 0x1_ffff_ffff_ffff_fffeu128, tt <= 1_000_000;
    }
    10 * (SCALE as u128) * c >= 7 * tt * union
}

/// Similarity as `equal / total` lines: 1 for equal texts, 0 where one is
/// empty, else from the line diff.
pub open spec fn similarity_parts(from: Seq<char>, to: Seq<char>) -> (nat, nat) {
    if from == to {
        (1, 1)
    } else if from.len() == 0 || to.len() == 0 {
        (0, 1)
    } else {
        let tags = line_diff(from, to);
        (count_tag(tags, LineTag::Equal), if tags.len() == 0 { 1 } else { tags.len() })
    }
}

pub open spec fn boost_factor(boosted: bool) -> nat {
    if boosted { 6 } else { 5 }
}

/// The score `factor * equal / (5 * total)` reaches threshold `t / SCALE`.
pub open spec fn score_reaches(boosted: bool, equal: nat, total: nat, t: nat) -> bool {
    boost_factor(boosted) * equal * SCALE >= 5 * t * total
}

/// The first score is strictly above the second.
pub open spec fn score_above(b1: bool, e1: nat, t1: nat, b2: bool, e2: nat, t2: nat) -> bool {
    boost_factor(b1) * e1 * t2 > boost_factor(b2) * e2 * t1
}

/// A similarity `equal / total`, raised by a fifth when `boosted`.
#[derive(Clone, Copy, Debug)]
pub struct Score {
    pub equal: usize,
    pub total: usize,
    pub boosted: bool,
}

impl Score {
    pub open spec fn factor(&self) -> nat {
        boost_factor(self.boosted)
    }

    pub open spec fn reaches(&self, t: nat) -> bool {
        score_reaches(self.boosted, self.equal as nat, self.total as nat, t)
    }

    pub open spec fn above(&self, o: Score) -> bool {
        score_above(self.boosted, self.equal as nat, self.total as nat, o.boosted, o.equal as nat, o.total as nat)
    }

    pub fn meets(&self, t: u64) -> (r: bool)
        requires
            t <= SCALE,
        ensures
            r == self.reaches(t as nat),
    {
        let f: u128 = if self.boosted { 6 } else { 5 };
        let e = self.equal as u128;
        let tot = self.total as u128;
        let tt = t as u128;
        proof {
            assert(f * e * 1_000_000 <= 6 * 0xffff_ffff_ffff_ffffu128 * 1_000_000) by (nonlinear_arith)
                requires f <= 6, e <= 0xffff_ffff_ffff_ffffu128;
            assert(5 * tt * tot <= 5 * 1_000_000 * 0xffff_ffff_ffff_ffffu128) by (nonlinear_arith)
                requires tt <= 1_000_000, tot <= 0xffff_ffff_ffff_ffffu128;
        }
        f * e * (SCALE as u128) >= 5 * tt * tot
    }

    pub fn beats(&self, o: &Score) -> (r: bool)
        ensures
            r == self.above(*o),
    {
        let a = self.equal as u128;
        let b = o.total as u128;
        let c = o.equal as u128;
        let d = self.total as u128;
        proof {
            assert(a * b <= 0xffff_ffff_ffff_ffffu128 * 0xffff_ffff_ffff_ffffu128) by (nonlinear_arith)
                requires a <= 0xffff_ffff_ffff_ffffu128, b <= 0xffff_ffff_ffff_ffffu128;
            assert(c * d <= 0xffff_ffff_ffff_ffffu128 * 0xffff_ffff_ffff_ffffu128) by (nonlinear_arith)
                requires c <= 0xffff_ffff_ffff_ffffu128, d <= 0xffff_ffff_ffff_ffffu128;
        }
        let x: u128 = a * b;
        let y: u128 = c * d;
        proof {
            let f1 = self.factor() as int;
            let f2 = o.factor() as int;
            assert(f1 * self.equal * o.total == f1 * x) by (nonlinear_arith)
                requires x == self.equal * o.total;
            assert(f2 * o.equal * self.total == f2 * y) by (nonlinear_arith)
                requires y == o.equal * self.total;
            assert(self.above(*o) == (f1 * x > f2 * y));
        }
        if self.boosted == o.boosted {
            proof {
                let f = self.factor() as int;
                assert(f > 0);
                assert((f * x > f * y) == (x > y)) by (nonlinear_arith)
                    requires f > 0;
            }
            x > y
        } else if self.boosted {
            assert(self.above(*o) == (6 * x > 5 * y));
            if x >= y {
                x > 0
            } else {
                let dd = y - x;
                if dd <= x / 5 {
                    x > 5 * dd
                } else {
                    proof {
                        assert(5 * dd >= x) by (nonlinear_arith)
                            requires dd > x / 5;
                    }
                    false
                }
            }
        } else {
            assert(self.above(*o) == (5 * x > 6 * y));
            if y >= x {
                false
            } else {
                let dd = x - y;
                if dd <= y / 5 {
                    5 * dd > y
                } else {
                    proof {
                        assert(5 * dd > y) by (nonlinear_arith)
                            requires dd > y / 5;
                    }
                    true
                }
            }
        }
    }
}

/// The similarity of two texts, boosted when their file names agree.
pub fn similarity(from: &String, to: &String, boosted: bool) -> (r: Score)
    ensures
        r.equal == similarity_parts(from@, to@).0,
        r.total == similarity_parts(from@, to@).1,
        r.boosted == boosted,
        r.total >= 1,
{
    if *from == *to {
        return Score { equal: 1, total: 1, boosted };
    }
    if from.as_str().is_empty() || to.as_str().is_empty() {
        return Score { equal: 0, total: 1, boosted };
    }
    let tags = crate::text::diff_line_tags(from.as_str(), to.as_str());
    score_of_tags(&tags, boosted)
}

/// The score of a line diff: its equal lines over all its lines, at least one.
pub fn score_of_tags(tags: &Vec<LineTag>, boosted: bool) -> (r: Score)
    ensures
        r.equal == count_tag(tags@, LineTag::Equal),
        r.total == if tags@.len() == 0 { 1 } else { tags@.len() },
        r.boosted == boosted,
{
    let (e, _d, _a) = crate::text::tally(tags);
    let total = if tags.len() == 0 { 1 } else { tags.len() };
    Score { equal: e, total, boosted }
}

} // verus!
