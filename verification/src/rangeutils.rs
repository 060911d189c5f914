//! Helpers over `RangeInclusive<char>` lists: sizing, sorting and merging,
//! and flattening to the covered characters.  A range counts as the closed
//! interval between its bounds; one with reversed bounds counts as empty
//! and is dropped.

use crate::ops::bruterange::BruteRange;
use crate::ops::mbruterange::{
    covers, lemma_mchar_seq_contains, lemma_mchar_seq_len, lemma_mchar_seq_sorted, mchar_seq,
    merge_ranges, normalized, rcovers,
};
use core::ops::RangeInclusive;
use vstd::prelude::*;

verus! {

/// The interval of a `RangeInclusive<char>`, as a range of code points.
pub open spec fn br_of(r: RangeInclusive<char>) -> BruteRange {
    BruteRange { start: r@.start, end: r@.end }
}

/// The range lists of this module, seen as code point intervals.
pub open spec fn brs_of(rs: Seq<RangeInclusive<char>>) -> Seq<BruteRange> {
    rs.map_values(|r: RangeInclusive<char>| br_of(r))
}

/// Whether some non-empty range of the list covers the code point `v`.
pub open spec fn icovers(rs: Seq<RangeInclusive<char>>, v: int) -> bool {
    exists|i: int|
        0 <= i < rs.len() && (#[trigger] rs[i])@.start as int <= v <= rs[i]@.end as int
}

/// The number of scalar values in the range: its length minus the
/// surrogate gap, or zero when the bounds are reversed.
pub open spec fn spec_range_size(r: RangeInclusive<char>) -> int {
    if r@.start as int > r@.end as int {
        0
    } else {
        br_of(r).spec_len()
    }
}

/// Re-establishes the scalar-value bounds of a character that came out of
/// a generic accessor.
fn char_exact(c: char) -> (r: char)
    ensures
        r == c,
{
    c
}

/// The number of scalar values in an inclusive char range.
pub fn range_size(range: &RangeInclusive<char>) -> (r: Option<u128>)
    ensures
        r == Some(spec_range_size(*range) as u128),
{
    let s0: char = char_exact(*range.start());
    let e0: char = char_exact(*range.end());
    let start = s0 as u32;
    let end = e0 as u32;
    if start > end {
        return Some(0);
    }
    let mut count = end - start;
    if start < 0xD800 && 0xE000 <= end {
        count -= 0x800;
    }
    Some((count + 1) as u128)
}

/// Keeps the non-empty ranges, as code point intervals.
fn filter_nonempty(ranges: &Vec<RangeInclusive<char>>) -> (r: Vec<BruteRange>)
    ensures
        crate::ops::mbruterange::all_wf(r@),
        forall|v: int| covers(r@, v) == icovers(ranges@, v),
{
    let mut out: Vec<BruteRange> = Vec::new();
    let mut i: usize = 0;
    while i < ranges.len()
        invariant
            i <= ranges@.len(),
            crate::ops::mbruterange::all_wf(out@),
            forall|v: int| covers(out@, v) == icovers(ranges@.subrange(0, i as int), v),
        decreases ranges@.len() - i,
    {
        let rng = &ranges[i];
        let start = char_exact(*rng.start());
        let end = char_exact(*rng.end());
        let ghost old_out = out@;
        if (start as u32) <= (end as u32) {
            out.push(BruteRange { start, end });
        }
        proof {
            let pre = ranges@.subrange(0, i as int);
            let pre2 = ranges@.subrange(0, i as int + 1);
            assert(pre2 =~= pre.push(ranges@[i as int]));
            assert forall|v: int| covers(out@, v) == icovers(pre2, v) by {
                crate::ops::mbruterange::lemma_covers_push(old_out, br_of(ranges@[i as int]), v);
                assert forall|w: int| icovers(pre2, w) == (icovers(pre, w) || ((
                ranges@[i as int])@.start as int <= w <= (ranges@[i as int])@.end as int)) by {
                    if icovers(pre, w) {
                        let j = choose|j: int|
                            0 <= j < pre.len() && (#[trigger] pre[j])@.start as int <= w
                                <= pre[j]@.end as int;
                        assert(pre2[j] == pre[j]);
                    }
                    if icovers(pre2, w) {
                        let j = choose|j: int|
                            0 <= j < pre2.len() && (#[trigger] pre2[j])@.start as int <= w
                                <= pre2[j]@.end as int;
                        if j < pre.len() {
                            assert(pre[j] == pre2[j]);
                        } else {
                            assert(pre2[j] == ranges@[i as int]);
                        }
                    }
                    if (ranges@[i as int])@.start as int <= w <= (ranges@[i as int])@.end as int {
                        assert((pre2[pre.len() as int])@.start as int <= w
                            <= (pre2[pre.len() as int])@.end as int);
                    }
                }
            }
        }
        i += 1;
    }
    proof {
        assert(ranges@.subrange(0, ranges@.len() as int) =~= ranges@);
    }
    out
}

/// Sorts and merges a list of char ranges: empty ranges are dropped, the
/// rest are ordered by start and fused where they overlap or touch.
pub fn merge_and_order_ranges(ranges: Vec<RangeInclusive<char>>) -> (r: Vec<RangeInclusive<char>>)
    ensures
        normalized(brs_of(r@)),
        forall|v: int| covers(brs_of(r@), v) == icovers(ranges@, v),
        forall|i: int| 0 <= i < r@.len() ==> !(#[trigger] r@[i])@.exhausted,
{
    let filtered = filter_nonempty(&ranges);
    let merged = merge_ranges(filtered);
    let mut out: Vec<RangeInclusive<char>> = Vec::new();
    let mut i: usize = 0;
    while i < merged.len()
        invariant
            i <= merged@.len(),
            out@.len() == i,
            forall|j: int| 0 <= j < i ==> br_of(#[trigger] out@[j]) == merged@[j],
            forall|j: int| 0 <= j < i ==> !(#[trigger] out@[j])@.exhausted,
        decreases merged@.len() - i,
    {
        let rng = merged[i];
        out.push(RangeInclusive::new(rng.start, rng.end));
        i += 1;
    }
    proof {
        assert(brs_of(out@) =~= merged@);
    }
    out
}

/// The singleton ranges of a string's characters, merged and ordered.
pub fn gen_ranges(pattern: &str) -> (r: Vec<RangeInclusive<char>>)
    ensures
        normalized(brs_of(r@)),
        forall|v: int| covers(brs_of(r@), v) == (exists|j: int|
            0 <= j < pattern@.len() && (#[trigger] pattern@[j]) as int == v),
{
    let chars = crate::trusted::str_chars(pattern);
    let mut singles: Vec<RangeInclusive<char>> = Vec::new();
    let mut i: usize = 0;
    while i < chars.len()
        invariant
            i <= chars@.len(),
            chars@ == pattern@,
            singles@.len() == i,
            forall|j: int|
                0 <= j < i ==> (#[trigger] singles@[j])@.start == chars@[j] && singles@[j]@.end
                    == chars@[j],
        decreases chars@.len() - i,
    {
        let c = chars[i];
        singles.push(RangeInclusive::new(c, c));
        i += 1;
    }
    let r = merge_and_order_ranges(singles);
    proof {
        assert forall|v: int| covers(brs_of(r@), v) == (exists|j: int|
            0 <= j < pattern@.len() && (#[trigger] pattern@[j]) as int == v) by {
            assert(covers(brs_of(r@), v) == icovers(singles@, v));
            if icovers(singles@, v) {
                let j = choose|j: int|
                    0 <= j < singles@.len() && (#[trigger] singles@[j])@.start as int <= v
                        <= singles@[j]@.end as int;
                assert(pattern@[j] as int == v);
            }
            if exists|j: int| 0 <= j < pattern@.len() && (#[trigger] pattern@[j]) as int == v {
                let j = choose|j: int|
                    0 <= j < pattern@.len() && (#[trigger] pattern@[j]) as int == v;
                assert((singles@[j])@.start as int <= v <= singles@[j]@.end as int);
            }
        }
    }
    r
}

/// Merges the ranges and lists every covered character, in ascending
/// order, each exactly once.
pub fn ranges_flatten(ranges: Vec<RangeInclusive<char>>) -> (r: Vec<char>)
    ensures
        forall|a: int, b: int|
            0 <= a < b < r@.len() ==> ((#[trigger] r@[a]) as int) < ((#[trigger] r@[b]) as int),
        forall|j: int| 0 <= j < r@.len() ==> icovers(ranges@, (#[trigger] r@[j]) as int),
        forall|c: char| icovers(ranges@, c as int) ==> r@.contains(c),
{
    let filtered = filter_nonempty(&ranges);
    let merged = merge_ranges(filtered);
    let mut out: Vec<char> = Vec::new();
    let mut i: usize = 0;
    proof {
        assert(merged@.subrange(0, 0) =~= Seq::<BruteRange>::empty());
    }
    while i < merged.len()
        invariant
            i <= merged@.len(),
            normalized(merged@),
            out@ == mchar_seq(merged@.subrange(0, i as int)),
        decreases merged@.len() - i,
    {
        let rng = merged[i];
        let mut it = rng.iter();
        while it.has_next()
            invariant
                it.wf(),
                it.range() == merged@[i as int],
                i < merged@.len(),
                normalized(merged@),
                out@ == mchar_seq(merged@.subrange(0, i as int)) + it.range().char_seq().subrange(
                    0,
                    it.pos(),
                ),
            decreases it.range().spec_len() - it.pos(),
        {
            let c = it.get_next();
            out.push(c);
            proof {
                assert(out@ =~= mchar_seq(merged@.subrange(0, i as int))
                    + it.range().char_seq().subrange(0, it.pos()));
            }
        }
        proof {
            assert(it.range().char_seq().subrange(0, it.pos()) =~= it.range().char_seq());
            assert(merged@.subrange(0, i as int + 1) =~= merged@.subrange(0, i as int).push(
                merged@[i as int],
            ));
            crate::ops::mbruterange::lemma_total_len_push(
                merged@.subrange(0, i as int),
                merged@[i as int],
            );
        }
        i += 1;
    }
    proof {
        assert(merged@.subrange(0, merged@.len() as int) =~= merged@);
        lemma_mchar_seq_sorted(merged@);
        lemma_mchar_seq_len(merged@);
        assert forall|j: int| 0 <= j < out@.len() implies icovers(
            ranges@,
            (#[trigger] out@[j]) as int,
        ) by {
            lemma_mchar_seq_contains(merged@, out@[j]);
            assert(out@.contains(out@[j]));
        }
        assert forall|c: char| icovers(ranges@, c as int) implies out@.contains(c) by {
            lemma_mchar_seq_contains(merged@, c);
        }
    }
    out
}

} // verus!
