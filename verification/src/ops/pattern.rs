//! The pattern syntax tree and its size model.  A pattern denotes a finite
//! sequence of strings; every node carries its cardinality, computed with
//! checked arithmetic at construction time, `None` when the true count does
//! not fit the integer width.

pub mod iter;
pub mod parser;

use crate::ops::bruterange::BruteRange;
use crate::ops::mbruterange::MBruteRange;
use vstd::arithmetic::mul::{lemma_mul_inequality, lemma_mul_strictly_positive};
use vstd::arithmetic::power::{lemma_pow_increases, lemma_pow_positive, pow};
use vstd::prelude::*;

verus! {

/// A pattern node: one character from a range or multi-range, a
/// concatenation of sub-patterns, or a bounded repetition.
#[derive(Debug)]
pub enum Pattern {
    Range { range: BruteRange, size: u128 },
    MRange { range: MBruteRange, size: u128 },
    Group { patterns: Vec<Pattern>, size: Option<u128> },
    Length {
        pattern: Box<Pattern>,
        min: u32,
        max: u32,
        size: Option<u128>,
        indexes: Option<Vec<u128>>,
    },
}

/// The exact number of strings a pattern denotes.
pub open spec fn pat_size(p: Pattern) -> int
    decreases p, 0int,
{
    match p {
        Pattern::Range { range, .. } => range.spec_len(),
        Pattern::MRange { range, .. } => range.spec_len(),
        Pattern::Group { patterns, .. } => group_size(patterns@),
        Pattern::Length { pattern, min, max, .. } => rep_size(
            pat_size(*pattern),
            min as int,
            max as int,
        ),
    }
}

/// The number of strings of a concatenation: the product of the children's
/// counts, one for an empty list.
pub open spec fn group_size(ps: Seq<Pattern>) -> int
    decreases ps, 0int,
{
    if ps.len() == 0 {
        1
    } else {
        group_size(ps.drop_last()) * pat_size(ps.last())
    }
}

/// The number of strings of a repetition: the sum, over each width `n` in
/// `[min, max]`, of the inner count to the `n`-th power.
pub open spec fn rep_size(sz: int, min: int, max: int) -> int
    decreases max - min + 1,
{
    if min > max {
        0
    } else {
        pow(sz, min as nat) + rep_size(sz, min + 1, max)
    }
}

/// The width whose bucket holds ordinal `k` of a repetition.
pub open spec fn rep_width_at(sz: int, min: int, max: int, k: int) -> int
    decreases max - min,
{
    if min >= max {
        min
    } else if k < pow(sz, min as nat) {
        min
    } else {
        rep_width_at(sz, min + 1, max, k - pow(sz, min as nat))
    }
}

/// The string at ordinal `k` of a pattern, for `0 <= k < pat_size`.
pub open spec fn pat_at(p: Pattern, k: int) -> Seq<char>
    decreases p, 0int, 0int,
{
    match p {
        Pattern::Range { range, .. } => seq![range.char_seq()[k]],
        Pattern::MRange { range, .. } => range.char_seq().subrange(k, k + 1),
        Pattern::Group { patterns, .. } => group_at(patterns@, k),
        Pattern::Length { pattern, min, max, .. } => {
            let sz = pat_size(*pattern);
            let n = rep_width_at(sz, min as int, max as int, k);
            let j = k - rep_size(sz, min as int, n - 1);
            rep_at(*pattern, n, j)
        },
    }
}

/// The string at ordinal `k` of a concatenation: the rightmost child is
/// the least significant digit of the mixed-radix ordinal.
pub open spec fn group_at(ps: Seq<Pattern>, k: int) -> Seq<char>
    decreases ps, 0int, 0int,
{
    if ps.len() == 0 {
        Seq::empty()
    } else {
        group_at(ps.drop_last(), k / pat_size(ps.last())) + pat_at(ps.last(), k % pat_size(
            ps.last(),
        ))
    }
}

/// The string at ordinal `j` among the `n`-fold self-concatenations of a
/// pattern.
pub open spec fn rep_at(p: Pattern, n: int, j: int) -> Seq<char>
    decreases p, n, 1int,
{
    if n <= 0 {
        Seq::empty()
    } else {
        rep_at(p, n - 1, j / pat_size(p)) + pat_at(p, j % pat_size(p))
    }
}

/// Structural validity: stored sizes and offset tables agree with the size
/// model, `None` exactly on overflow of the integer width.
pub open spec fn pat_wf(p: Pattern) -> bool
    decreases p, 0int,
{
    match p {
        Pattern::Range { range, size } => range.wf() && size as int == range.spec_len(),
        Pattern::MRange { range, size } => range.wf() && size as int == range.spec_len(),
        Pattern::Group { patterns, size } => {
            &&& patterns@.len() >= 1
            &&& forall|i: int| 0 <= i < patterns@.len() ==> pat_wf(#[trigger] patterns@[i])
            &&& match size {
                Some(s) => s as int == group_size(patterns@),
                None => group_size(patterns@) > u128::MAX as int,
            }
        },
        Pattern::Length { pattern, min, max, size, indexes } => {
            let sz = pat_size(*pattern);
            &&& pat_wf(*pattern)
            &&& min <= max
            &&& match size {
                Some(s) => s as int == rep_size(sz, min as int, max as int),
                None => rep_size(sz, min as int, max as int) > u128::MAX as int,
            }
            &&& match indexes {
                Some(v) => {
                    &&& size is Some
                    &&& v@.len() == max as int - min as int + 1
                    &&& forall|i: int|
                        0 <= i < v@.len() ==> #[trigger] v@[i] as int == rep_size(
                            sz,
                            min as int,
                            min as int + i - 1,
                        )
                },
                None => size is None,
            }
        },
    }
}

/// Every well-formed pattern denotes at least one string.
pub proof fn lemma_pat_size_pos(p: Pattern)
    requires
        pat_wf(p),
    ensures
        pat_size(p) >= 1,
    decreases p, 1int,
{
    match p {
        Pattern::Range { range, .. } => {},
        Pattern::MRange { range, .. } => {
            range.lemma_len_pos();
        },
        Pattern::Group { patterns, .. } => {
            lemma_group_size_pos(patterns@);
        },
        Pattern::Length { pattern, min, max, .. } => {
            lemma_pat_size_pos(*pattern);
            lemma_rep_size_pos(pat_size(*pattern), min as int, max as int);
        },
    }
}

/// The product of the counts of well-formed patterns is positive.
pub proof fn lemma_group_size_pos(ps: Seq<Pattern>)
    requires
        forall|i: int| 0 <= i < ps.len() ==> pat_wf(#[trigger] ps[i]),
    ensures
        group_size(ps) >= 1,
    decreases ps, 2int,
{
    if ps.len() > 0 {
        assert(forall|i: int|
            0 <= i < ps.drop_last().len() ==> pat_wf(#[trigger] ps.drop_last()[i]));
        lemma_group_size_pos(ps.drop_last());
        lemma_pat_size_pos(ps.last());
        lemma_mul_strictly_positive(group_size(ps.drop_last()), pat_size(ps.last()));
    }
}

/// A repetition of a non-empty pattern denotes at least one string.
pub proof fn lemma_rep_size_pos(sz: int, min: int, max: int)
    requires
        sz >= 1,
        min <= max,
    ensures
        rep_size(sz, min, max) >= 1,
    decreases max - min,
{
    lemma_pow_positive(sz, min as nat);
    if min < max {
        lemma_rep_size_pos(sz, min + 1, max);
    } else {
        lemma_rep_size_nonneg(sz, min + 1, max);
    }
}

/// Extending a concatenation by one child multiplies the count.
pub proof fn lemma_group_size_peel(ps: Seq<Pattern>, i: int)
    requires
        0 <= i < ps.len(),
    ensures
        group_size(ps.subrange(0, i + 1)) == group_size(ps.subrange(0, i)) * pat_size(ps[i]),
{
    let pre2 = ps.subrange(0, i + 1);
    assert(pre2.drop_last() =~= ps.subrange(0, i));
    assert(pre2.last() == ps[i]);
}

/// Extending a repetition by one more width adds that width's count.
pub proof fn lemma_rep_size_append(sz: int, min: int, n: int)
    requires
        min <= n,
    ensures
        rep_size(sz, min, n) == rep_size(sz, min, n - 1) + pow(sz, n as nat),
    decreases n - min,
{
    if min == n {
        assert(rep_size(sz, min + 1, n) == 0);
        assert(rep_size(sz, min, n - 1) == 0);
    } else {
        lemma_rep_size_append(sz, min + 1, n);
    }
}

/// A repetition's count dominates each of its width buckets.
pub proof fn lemma_rep_size_ge_pow(sz: int, min: int, max: int, k: int)
    requires
        sz >= 1,
        min <= k <= max,
    ensures
        rep_size(sz, min, max) >= pow(sz, k as nat),
    decreases k - min,
{
    lemma_rep_size_nonneg(sz, min + 1, max);
    lemma_pow_positive(sz, min as nat);
    if min < k {
        lemma_rep_size_ge_pow(sz, min + 1, max, k);
    }
}

impl Pattern {
    /// Builds a single-range node.
    pub fn new_range(range: BruteRange) -> (r: Pattern)
        requires
            range.wf(),
        ensures
            pat_wf(r),
            r == (Pattern::Range { range, size: range.spec_len() as u128 }),
    {
        let size = range.len() as u128;
        Pattern::Range { range, size }
    }

    /// Builds a multi-range node.
    pub fn new_multi_range(range: MBruteRange) -> (r: Pattern)
        requires
            range.wf(),
        ensures
            pat_wf(r),
            r == (Pattern::MRange { range, size: range.spec_len() as u128 }),
    {
        proof {
            range.lemma_len_pos();
        }
        let size = range.len() as u128;
        Pattern::MRange { range, size }
    }

    /// Builds a concatenation node; the size is the product of the
    /// children's sizes, `None` on overflow.
    #[verifier::rlimit(80)]
    pub fn new_group(patterns: Vec<Pattern>) -> (r: Pattern)
        requires
            patterns@.len() >= 1,
            forall|i: int| 0 <= i < patterns@.len() ==> pat_wf(#[trigger] patterns@[i]),
        ensures
            pat_wf(r),
            r matches Pattern::Group { patterns: q, size: _ } && q == patterns,
    {
        let ghost ps = patterns@;
        let mut size: Option<u128> = Some(1);
        let mut i: usize = 0;
        proof {
            assert(ps.subrange(0, 0) =~= Seq::<Pattern>::empty());
        }
        while i < patterns.len()
            invariant
                i <= ps.len(),
                patterns@ == ps,
                forall|j: int| 0 <= j < ps.len() ==> pat_wf(#[trigger] ps[j]),
                match size {
                    Some(s) => s as int == group_size(ps.subrange(0, i as int)),
                    None => group_size(ps.subrange(0, i as int)) > u128::MAX as int,
                },
            decreases ps.len() - i,
        {
            let child = patterns[i].len();
            proof {
                lemma_group_size_peel(ps, i as int);
                lemma_group_size_pos_prefix(ps, i as int);
                lemma_pat_size_pos(ps[i as int]);
            }
            size = match (size, child) {
                (Some(s), Some(c)) => {
                    let m = u128::checked_mul(s, c);
                    proof {
                        assert(group_size(ps.subrange(0, i as int + 1)) == group_size(
                            ps.subrange(0, i as int),
                        ) * pat_size(ps[i as int]));
                        assert((s as int) * (c as int) == group_size(ps.subrange(0, i as int))
                            * pat_size(ps[i as int]));
                    }
                    m
                },
                (Some(s), None) => {
                    proof {
                        lemma_mul_inequality(1, s as int, pat_size(ps[i as int]));
                        vstd::arithmetic::mul::lemma_mul_is_commutative(
                            s as int,
                            pat_size(ps[i as int]),
                        );
                    }
                    None
                },
                (None, _) => {
                    proof {
                        lemma_mul_inequality(1, pat_size(ps[i as int]), group_size(ps.subrange(0, i as int)));
                    }
                    None
                },
            };
            i += 1;
        }
        proof {
            assert(ps.subrange(0, ps.len() as int) =~= ps);
        }
        Pattern::Group { patterns, size }
    }

    /// Builds a repetition node; the size is the sum over each width of
    /// the inner size to that power, `None` on overflow, and the offset
    /// table marks each width's first ordinal.
    pub fn new_length(pattern: Pattern, min: u32, max: u32) -> (r: Pattern)
        requires
            pat_wf(pattern),
            min <= max,
        ensures
            pat_wf(r),
            r matches Pattern::Length { pattern: q, min: mn, max: mx, size: _, indexes: _ }
                && *q == pattern && mn == min && mx == max,
    {
        let ghost sz = pat_size(pattern);
        proof {
            lemma_pat_size_pos(pattern);
        }
        let inner = pattern.len();
        match inner {
            None => {
                if max == 0 {
                    // only the empty string: one string of width zero
                    let indexes = vec![0u128];
                    let r = Pattern::Length {
                        pattern: Box::new(pattern),
                        min,
                        max,
                        size: Some(1),
                        indexes: Some(indexes),
                    };
                    proof {
                        lemma_rep_size_append(sz, 0, 0);
                        assert(rep_size(sz, 0, -1) == 0);
                        assert(pow(sz, 0nat) == 1) by {
                            vstd::arithmetic::power::lemma_pow0(sz);
                        }
                        assert(indexes@ =~= seq![0u128]);
                        assert(rep_size(sz, min as int, max as int) == 1);
                        assert(pat_wf(r));
                    }
                    r
                } else {
                    let r = Pattern::Length {
                        pattern: Box::new(pattern),
                        min,
                        max,
                        size: None,
                        indexes: None,
                    };
                    proof {
                        lemma_rep_size_ge_pow(sz, min as int, max as int, max as int);
                        lemma_pow_increases(sz as nat, 1nat, max as nat);
                        vstd::arithmetic::power::lemma_pow1(sz);
                        assert(pow(sz, max as nat) >= sz);
                        assert(rep_size(sz, min as int, max as int) > u128::MAX as int);
                        assert(pat_wf(r));
                    }
                    r
                }
            },
            Some(isz) => {
                // the inner size to the `min`-th power, checked
                let mut pw: u128 = 1;
                let mut overflow: bool = false;
                let mut e: u32 = 0;
                proof {
                    vstd::arithmetic::power::lemma_pow0(sz);
                }
                while e < min
                    invariant
                        e <= min,
                        min <= max,
                        isz as int == sz,
                        sz >= 1,
                        !overflow ==> pw as int == pow(sz, e as nat),
                        overflow ==> rep_size(sz, min as int, max as int) > u128::MAX as int,
                    decreases min - e,
                {
                    if !overflow {
                        proof {
                            lemma_pow_unfold_right(sz, e as nat);
                            lemma_pow_positive(sz, e as nat);
                        }
                        match u128::checked_mul(pw, isz) {
                            Some(w2) => {
                                pw = w2;
                            },
                            None => {
                                proof {
                                    lemma_pow_increases(sz as nat, (e + 1) as nat, min as nat);
                                    lemma_rep_size_ge_pow(sz, min as int, max as int, min as int);
                                }
                                overflow = true;
                            },
                        }
                    }
                    e += 1;
                }
                // sum the width buckets from `min` to `max`, recording each
                // bucket's first ordinal
                let mut indexes: Vec<u128> = Vec::new();
                let mut sum: u128 = 0;
                let mut n: u64 = min as u64;
                proof {
                    assert(rep_size(sz, min as int, min as int - 1) == 0);
                }
                while n <= max as u64 && !overflow
                    invariant
                        min as u64 <= n <= max as u64 + 1,
                        min <= max,
                        isz as int == sz,
                        sz >= 1,
                        overflow ==> rep_size(sz, min as int, max as int) > u128::MAX as int,
                        !overflow ==> {
                            &&& sum as int == rep_size(sz, min as int, n as int - 1)
                            &&& indexes@.len() == n - min as u64
                            &&& forall|j: int|
                                0 <= j < indexes@.len() ==> #[trigger] indexes@[j] as int
                                    == rep_size(sz, min as int, min as int + j - 1)
                            &&& (n <= max as u64 ==> pw as int == pow(sz, n as nat))
                        },
                    decreases max as u64 - n + 1,
                {
                    indexes.push(sum);
                    proof {
                        lemma_rep_size_append(sz, min as int, n as int);
                    }
                    match u128::checked_add(sum, pw) {
                        Some(s2) => {
                            sum = s2;
                            if n < max as u64 {
                                proof {
                                    lemma_pow_unfold_right(sz, n as nat);
                                    lemma_pow_positive(sz, n as nat);
                                }
                                match u128::checked_mul(pw, isz) {
                                    Some(w2) => {
                                        pw = w2;
                                    },
                                    None => {
                                        proof {
                                            lemma_rep_size_ge_pow(
                                                sz,
                                                min as int,
                                                max as int,
                                                n as int + 1,
                                            );
                                        }
                                        overflow = true;
                                    },
                                }
                            }
                        },
                        None => {
                            proof {
                                lemma_rep_size_mono_tail(sz, min as int, n as int + 1, max as int);
                            }
                            overflow = true;
                        },
                    }
                    n += 1;
                }
                if overflow {
                    let r = Pattern::Length {
                        pattern: Box::new(pattern),
                        min,
                        max,
                        size: None,
                        indexes: None,
                    };
                    proof {
                        assert(pat_wf(r));
                    }
                    r
                } else {
                    let r = Pattern::Length {
                        pattern: Box::new(pattern),
                        min,
                        max,
                        size: Some(sum),
                        indexes: Some(indexes),
                    };
                    proof {
                        assert(sum as int == rep_size(sz, min as int, max as int));
                        assert(indexes@.len() == max as int - min as int + 1);
                        assert(pat_wf(r));
                    }
                    r
                }
            },
        }
    }

    /// The pattern's cardinality; `None` when it does not fit the integer
    /// width.
    pub fn len(&self) -> (r: Option<u128>)
        requires
            pat_wf(*self),
        ensures
            match r {
                Some(s) => s as int == pat_size(*self),
                None => pat_size(*self) > u128::MAX as int,
            },
    {
        match self {
            Pattern::Range { size, .. } => Some(*size),
            Pattern::MRange { size, .. } => Some(*size),
            Pattern::Group { size, .. } => *size,
            Pattern::Length { size, .. } => *size,
        }
    }
}

/// The greatest index whose offset is at most `key`, by binary search.
fn find_bucket_u128(indexes: &Vec<u128>, key: u128) -> (r: usize)
    requires
        indexes@.len() >= 1,
        indexes@[0] == 0,
        forall|i: int, j: int|
            0 <= i < j < indexes@.len() ==> #[trigger] indexes@[i] <= #[trigger] indexes@[j],
    ensures
        r < indexes@.len(),
        indexes@[r as int] <= key,
        r + 1 < indexes@.len() ==> key < indexes@[r as int + 1],
{
    let mut lo: usize = 0;
    let mut hi: usize = indexes.len();
    while hi - lo > 1
        invariant
            0 <= lo < hi <= indexes@.len(),
            indexes@[lo as int] <= key,
            hi < indexes@.len() ==> key < indexes@[hi as int],
        decreases hi - lo,
    {
        let mid = lo + (hi - lo) / 2;
        if indexes[mid] <= key {
            lo = mid;
        } else {
            hi = mid;
        }
    }
    lo
}

/// Peeling the first width off a repetition.
proof fn lemma_rep_size_shift(sz: int, min: int, m: int)
    requires
        min <= m,
    ensures
        rep_size(sz, min, m) == pow(sz, min as nat) + rep_size(sz, min + 1, m),
{
}

/// The bucket found by offset search is the width of the ordinal.
pub proof fn lemma_rep_width_found(sz: int, min: int, max: int, k: int, n: int)
    requires
        sz >= 1,
        min <= n <= max,
        rep_size(sz, min, n - 1) <= k < rep_size(sz, min, n),
    ensures
        rep_width_at(sz, min, max, k) == n,
        k - rep_size(sz, min, n - 1) < pow(sz, n as nat),
    decreases n - min,
{
    lemma_rep_size_append(sz, min, n);
    if n == min {
        assert(rep_size(sz, min, min - 1) == 0);
        assert(rep_size(sz, min, min) == pow(sz, min as nat) + rep_size(sz, min + 1, min));
        assert(rep_size(sz, min + 1, min) == 0);
    } else {
        lemma_rep_size_ge_pow(sz, min, n - 1, min);
        assert(rep_size(sz, min, n - 1) >= pow(sz, min as nat));
        assert(rep_size(sz, min, n - 1) == pow(sz, min as nat) + rep_size(sz, min + 1, n - 1));
        assert(rep_size(sz, min, n) == pow(sz, min as nat) + rep_size(sz, min + 1, n)) by {
            lemma_rep_size_shift(sz, min, n);
        }
        lemma_rep_width_found(sz, min + 1, max, k - pow(sz, min as nat), n);
        lemma_pow_positive(sz, min as nat);
        assert(k >= pow(sz, min as nat));
    }
}

impl Pattern {
    /// Appends the string at ordinal `k` to the buffer.
    fn nth_into(&self, k: u128, buf: &mut String)
        requires
            pat_wf(*self),
            pat_size(*self) <= u128::MAX as int,
            k < pat_size(*self),
        ensures
            final(buf)@ == old(buf)@ + pat_at(*self, k as int),
        decreases *self, 0int, 0int,
    {
        match self {
            Pattern::Range { range, .. } => {
                proof {
                    assert(pat_size(*self) == range.spec_len());
                    assert(k < 0x110000);
                    assert((k as u32) as int == k as int);
                }
                let c = match range.nth(k as u32) {
                    Some(c) => c,
                    None => {
                        proof {
                            assert(false);
                        }
                        ' '
                    },
                };
                crate::trusted::string_push(buf, c);
                proof {
                    assert(pat_at(*self, k as int) == seq![range.char_seq()[k as int]]);
                    assert(final(buf)@ =~= old(buf)@ + pat_at(*self, k as int));
                }
            },
            Pattern::MRange { range, .. } => {
                proof {
                    range.lemma_len_pos();
                    assert(pat_size(*self) == range.spec_len());
                    crate::ops::mbruterange::lemma_total_len_le_space(range.rseq());
                    assert(k < 0x110000);
                    assert((k as u32) as int == k as int);
                }
                let c = match range.nth(k as u32) {
                    Some(c) => c,
                    None => {
                        proof {
                            assert(false);
                        }
                        ' '
                    },
                };
                crate::trusted::string_push(buf, c);
                proof {
                    assert((k as u32) as int == k as int);
                    assert(range.char_seq().subrange(k as int, k as int + 1) =~= seq![
                        range.char_seq()[k as int],
                    ]);
                    assert(pat_at(*self, k as int) == range.char_seq().subrange(
                        k as int,
                        k as int + 1,
                    ));
                    assert(final(buf)@ =~= old(buf)@ + pat_at(*self, k as int));
                }
            },
            Pattern::Group { patterns, .. } => {
                proof {
                    assert(patterns@.subrange(0, patterns@.len() as int) =~= patterns@);
                }
                let j = patterns.len();
                group_nth(patterns, j, k, buf);
            },
            Pattern::Length { pattern, min, max, size, indexes } => {
                let ghost sz = pat_size(**pattern);
                proof {
                    lemma_pat_size_pos(**pattern);
                }
                let idx = match indexes {
                    Some(v) => v,
                    None => {
                        proof {
                            assert(false);
                        }
                        return ;
                    },
                };
                proof {
                    assert forall|a: int, b: int|
                        0 <= a < b < idx@.len() implies #[trigger] idx@[a] <= #[trigger] idx@[b] by {
                        lemma_rep_size_mono_tail(sz, *min as int, *min as int + a, *min as int + b
                            - 1);
                    }
                    assert(idx@[0] as int == rep_size(sz, *min as int, *min as int - 1));
                    assert(rep_size(sz, *min as int, *min as int - 1) == 0);
                }
                let b = find_bucket_u128(idx, k);
                let w = *min + (b as u32);
                let base = idx[b];
                let ghost n = w as int;
                proof {
                    // the ordinal falls inside bucket `w`
                    assert(rep_size(sz, *min as int, n - 1) <= k as int);
                    if b + 1 < idx.len() {
                        assert(idx@[b as int + 1] as int == rep_size(sz, *min as int, n));
                    } else {
                        assert(n == *max as int);
                        lemma_rep_size_append(sz, *min as int, n);
                    }
                    lemma_rep_width_found(sz, *min as int, *max as int, k as int, n);
                    lemma_rep_size_ge_pow(sz, *min as int, *max as int, n);
                }
                let j = k - base;
                rep_nth(pattern, w, j, buf);
            },
        }
    }
}

/// Appends the string at ordinal `k` of the first `j` children of a
/// concatenation, rightmost child least significant.
fn group_nth(patterns: &Vec<Pattern>, j: usize, k: u128, buf: &mut String)
    requires
        forall|i: int| 0 <= i < patterns@.len() ==> pat_wf(#[trigger] patterns@[i]),
        j <= patterns@.len(),
        group_size(patterns@.subrange(0, j as int)) <= u128::MAX as int,
        k < group_size(patterns@.subrange(0, j as int)),
    ensures
        final(buf)@ == old(buf)@ + group_at(patterns@.subrange(0, j as int), k as int),
    decreases *patterns, j, 0int,
{
    let ghost ps = patterns@;
    if j == 0 {
        proof {
            assert(ps.subrange(0, 0) =~= Seq::<Pattern>::empty());
            assert(group_at(ps.subrange(0, 0), k as int) == Seq::<char>::empty());
            assert(final(buf)@ =~= old(buf)@ + group_at(ps.subrange(0, 0), k as int));
        }
        return ;
    }
    let last = &patterns[j - 1];
    proof {
        lemma_group_size_peel(ps, j as int - 1);
        lemma_group_size_pos_prefix(ps, j as int - 1);
        lemma_pat_size_pos(ps[j as int - 1]);
        lemma_mul_inequality(1, group_size(ps.subrange(0, j as int - 1)), pat_size(*last));
        vstd::arithmetic::mul::lemma_mul_is_commutative(
            group_size(ps.subrange(0, j as int - 1)),
            pat_size(*last),
        );
        lemma_mul_inequality(1, pat_size(*last), group_size(ps.subrange(0, j as int - 1)));
    }
    let szl = match last.len() {
        Some(s) => s,
        None => {
            proof {
                assert(false);
            }
            return ;
        },
    };
    let digit = k % szl;
    let rest = k / szl;
    proof {
        vstd::arithmetic::div_mod::lemma_mod_division_less_than_divisor(k as int, szl as int);
        vstd::arithmetic::div_mod::lemma_multiply_divide_lt(
            k as int,
            szl as int,
            group_size(ps.subrange(0, j as int - 1)),
        );
        assert((k as int) < (szl as int) * group_size(ps.subrange(0, j as int - 1))) by {
            vstd::arithmetic::mul::lemma_mul_is_commutative(
                szl as int,
                group_size(ps.subrange(0, j as int - 1)),
            );
        }
        assert(rest as int == k as int / szl as int);
        assert(digit as int == k as int % szl as int);
    }
    group_nth(patterns, j - 1, rest, buf);
    last.nth_into(digit, buf);
    proof {
        let pre2 = ps.subrange(0, j as int);
        assert(pre2.drop_last() =~= ps.subrange(0, j as int - 1));
        assert(pre2.last() == ps[j as int - 1]);
        assert(group_at(pre2, k as int) == group_at(ps.subrange(0, j as int - 1), rest as int)
            + pat_at(ps[j as int - 1], digit as int));
        assert(final(buf)@ =~= old(buf)@ + group_at(pre2, k as int));
    }
}

/// Appends the string at ordinal `j` of the `w`-fold self-concatenation of
/// a pattern.
fn rep_nth(pattern: &Pattern, w: u32, j: u128, buf: &mut String)
    requires
        pat_wf(*pattern),
        pow(pat_size(*pattern), w as nat) <= u128::MAX as int,
        j < pow(pat_size(*pattern), w as nat),
    ensures
        final(buf)@ == old(buf)@ + rep_at(*pattern, w as int, j as int),
    decreases *pattern, w, 1int,
{
    let ghost sz = pat_size(*pattern);
    proof {
        lemma_pat_size_pos(*pattern);
    }
    if w == 0 {
        proof {
            assert(rep_at(*pattern, 0, j as int) == Seq::<char>::empty());
            assert(final(buf)@ =~= old(buf)@ + rep_at(*pattern, 0, j as int));
        }
        return ;
    }
    proof {
        lemma_pow_unfold_right(sz, (w - 1) as nat);
        lemma_pow_positive(sz, (w - 1) as nat);
        lemma_mul_inequality(1, pow(sz, (w - 1) as nat), sz);
        vstd::arithmetic::mul::lemma_mul_is_commutative(pow(sz, (w - 1) as nat), sz);
        lemma_mul_inequality(1, sz, pow(sz, (w - 1) as nat));
    }
    let szl = match pattern.len() {
        Some(s) => s,
        None => {
            proof {
                assert(false);
            }
            return ;
        },
    };
    let digit = j % szl;
    let rest = j / szl;
    proof {
        vstd::arithmetic::div_mod::lemma_mod_division_less_than_divisor(j as int, szl as int);
        vstd::arithmetic::div_mod::lemma_multiply_divide_lt(
            j as int,
            szl as int,
            pow(sz, (w - 1) as nat),
        );
        assert((j as int) < (szl as int) * pow(sz, (w - 1) as nat)) by {
            vstd::arithmetic::mul::lemma_mul_is_commutative(szl as int, pow(sz, (w - 1) as nat));
        }
    }
    rep_nth(pattern, w - 1, rest, buf);
    pattern.nth_into(digit, buf);
    proof {
        assert(rep_at(*pattern, w as int, j as int) == rep_at(*pattern, w as int - 1, rest as int)
            + pat_at(*pattern, digit as int));
        assert(final(buf)@ =~= old(buf)@ + rep_at(*pattern, w as int, j as int));
    }
}

impl Pattern {
    /// Compiles a pattern string into a pattern whose shape is the
    /// grammar's parse of the text, or `None` exactly when the text is not
    /// a sentence of the grammar.
    pub fn from_pattern(pattern: &str) -> (r: Option<Pattern>)
        ensures
            r is Some <==> parser::spec_accepts(pattern@),
            r matches Some(p) ==> pat_wf(p) && parser::spec_parse(pattern@) == Some(
                parser::pat_ast(p),
            ),
    {
        parser::parse_pattern(pattern)
    }

    /// The string at ordinal `index`, or `None` when the ordinal is out of
    /// bounds or the pattern's cardinality does not fit the integer width.
    pub fn nth(&self, index: u128) -> (r: Option<String>)
        requires
            pat_wf(*self),
        ensures
            pat_size(*self) <= u128::MAX as int && index < pat_size(*self) ==> (r matches Some(s)
                && s@ == pat_at(*self, index as int)),
            index >= pat_size(*self) ==> r is None,
            pat_size(*self) > u128::MAX as int ==> r is None,
    {
        match self.len() {
            None => None,
            Some(total) => {
                if index >= total {
                    None
                } else {
                    let mut buf = String::new();
                    self.nth_into(index, &mut buf);
                    proof {
                        assert(buf@ =~= pat_at(*self, index as int));
                    }
                    Some(buf)
                }
            },
        }
    }
}

/// The product of the first `i` counts divides the product of all of them;
/// in particular a prefix product never shrinks.
proof fn lemma_group_size_pos_prefix(ps: Seq<Pattern>, i: int)
    requires
        0 <= i <= ps.len(),
        forall|j: int| 0 <= j < ps.len() ==> pat_wf(#[trigger] ps[j]),
    ensures
        group_size(ps.subrange(0, i)) >= 1,
{
    let pre = ps.subrange(0, i);
    assert(forall|j: int| 0 <= j < pre.len() ==> pat_wf(#[trigger] pre[j]));
    lemma_group_size_pos(pre);
}

/// A repetition over a wider span of widths counts at least as many
/// strings.
pub proof fn lemma_rep_size_mono_tail(sz: int, min: int, n: int, max: int)
    requires
        sz >= 1,
        min <= n <= max + 1,
    ensures
        rep_size(sz, min, max) >= rep_size(sz, min, n - 1),
    decreases max - n + 1,
{
    if n <= max {
        lemma_rep_size_append(sz, min, n);
        lemma_pow_positive(sz, n as nat);
        lemma_rep_size_mono_tail(sz, min, n + 1, max);
    }
}

/// One more factor in a power.
proof fn lemma_pow_unfold_right(b: int, e: nat)
    ensures
        pow(b, e + 1) == pow(b, e) * b,
{
    vstd::arithmetic::power::lemma_pow_adds(b, e, 1nat);
    vstd::arithmetic::power::lemma_pow1(b);
}

/// A repetition pinned to one width holds exactly the inner count raised
/// to that width.
pub proof fn lemma_repeat_exact_count(sz: int, n: int)
    ensures
        rep_size(sz, n, n) == pow(sz, n as nat),
{
    assert(rep_size(sz, n + 1, n) == 0);
}

/// A repetition whose lower bound is zero yields the empty string first.
pub proof fn lemma_repeat_zero_min_first(p: Pattern)
    requires
        pat_wf(p),
        p matches Pattern::Length { min: m, .. } && m == 0,
    ensures
        pat_at(p, 0) == Seq::<char>::empty(),
{
    match p {
        Pattern::Length { pattern, min, max, .. } => {
            let sz = pat_size(*pattern);
            vstd::arithmetic::power::lemma_pow0(sz);
            assert(rep_width_at(sz, 0, max as int, 0) == 0);
            assert(rep_size(sz, 0, -1) == 0);
            assert(rep_at(*pattern, 0, 0) == Seq::<char>::empty());
        },
        _ => {},
    }
}

pub proof fn lemma_rep_size_nonneg(sz: int, min: int, max: int)
    requires
        sz >= 1,
    ensures
        rep_size(sz, min, max) >= 0,
    decreases max - min + 1,
{
    if min <= max {
        lemma_pow_positive(sz, min as nat);
        lemma_rep_size_nonneg(sz, min + 1, max);
    }
}

} // verus!
