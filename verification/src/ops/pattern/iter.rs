//! The sequential enumerator: an iterator tree mirroring the pattern tree,
//! counting through the string space like an odometer.  The rightmost
//! position advances fastest and carries leftward; a repetition widens its
//! active window when a width is exhausted.  The cursor's position always
//! equals the ordinal of the next string, so sequential production and
//! random access agree everywhere.

use crate::ops::bruterange::BruteRangeIter;
use crate::ops::mbruterange::MBruteRangeIter;
use crate::ops::pattern::{
    group_at, group_size, pat_at, pat_size, pat_wf, rep_at, rep_size, rep_width_at, Pattern,
};
use crate::ops::mbruterange::{mchar_seq, total_len};
use vstd::arithmetic::mul::{lemma_mul_inequality, lemma_mul_strictly_positive};
use vstd::arithmetic::power::{lemma_pow_positive, pow};
use vstd::prelude::*;

verus! {

/// A cursor over a pattern's string space, one node per pattern node.
pub enum PatternIter {
    Range(BruteRangeIter),
    MRange(MBruteRangeIter),
    Group(Vec<PatternIter>),
    Length { iters: Vec<PatternIter>, active: u64, min: u64 },
}

/// The two cursors walk the same pattern: all static structure equal.
pub open spec fn same_shape(a: PatternIter, b: PatternIter) -> bool
    decreases a, 0int,
{
    match (a, b) {
        (PatternIter::Range(x), PatternIter::Range(y)) => x.range() == y.range(),
        (PatternIter::MRange(x), PatternIter::MRange(y)) => x.iters@.len() == y.iters@.len()
            && x.ranges() == y.ranges(),
        (PatternIter::Group(xs), PatternIter::Group(ys)) => xs@.len() == ys@.len() && forall|i: int|
            0 <= i < xs@.len() ==> same_shape(#[trigger] xs@[i], ys@[i]),
        (
            PatternIter::Length { iters: xs, min: mna, .. },
            PatternIter::Length { iters: ys, min: mnb, .. },
        ) => mna == mnb && xs@.len() == ys@.len() && forall|i: int|
            0 <= i < xs@.len() ==> same_shape(#[trigger] xs@[i], ys@[i]),
        _ => false,
    }
}

/// Every cursor in the tree rests at its first position.
pub open spec fn at_start(it: PatternIter) -> bool
    decreases it, 0int,
{
    match it {
        PatternIter::Range(b) => b.index == b.start,
        PatternIter::MRange(m) => m.index == 0 && forall|i: int|
            0 <= i < m.iters@.len() ==> (#[trigger] m.iters@[i]).index == m.iters@[i].start,
        PatternIter::Group(its) => forall|i: int|
            0 <= i < its@.len() ==> at_start(#[trigger] its@[i]),
        PatternIter::Length { iters, active, min } => active == min && forall|i: int|
            0 <= i < iters@.len() ==> at_start(#[trigger] iters@[i]),
    }
}

/// The number of strings the cursor walks.
pub open spec fn isize(it: PatternIter) -> int
    decreases it, 0int,
{
    match it {
        PatternIter::Range(b) => b.range().spec_len(),
        PatternIter::MRange(m) => total_len(m.ranges()),
        PatternIter::Group(its) => gsize(its@),
        PatternIter::Length { iters, min, .. } => rep_size(
            slot_size(iters@),
            min as int,
            iters@.len() as int,
        ),
    }
}

/// The product of the sizes of the last `w` cursors of a list.
pub open spec fn gsize_w(its: Seq<PatternIter>, w: int) -> int
    decreases its, 0int,
{
    if w <= 0 || its.len() == 0 {
        1
    } else {
        gsize_w(its.drop_last(), w - 1) * isize(its.last())
    }
}

/// The product of the sizes of a whole cursor list.
pub open spec fn gsize(its: Seq<PatternIter>) -> int
    decreases its, 1int,
{
    gsize_w(its, its.len() as int)
}

/// The size of one repetition slot; one when there are no slots.
pub open spec fn slot_size(its: Seq<PatternIter>) -> int
    decreases its, 1int,
{
    if its.len() == 0 {
        1
    } else {
        isize(its[0])
    }
}

/// How many strings the cursor has already produced.
pub open spec fn ipos(it: PatternIter) -> int
    decreases it, 2int,
{
    match it {
        PatternIter::Range(b) => b.pos(),
        PatternIter::MRange(m) => m.pos(),
        PatternIter::Group(its) => gpos(its@),
        PatternIter::Length { iters, active, min } => {
            let len = iters@.len() as int;
            let sz = slot_size(iters@);
            if active > len {
                rep_size(sz, min as int, len)
            } else {
                rep_size(sz, min as int, active as int - 1) + gpos_w(iters@, active as int)
            }
        },
    }
}

/// The mixed-radix reading of the last `w` cursors of a list: the
/// rightmost cursor is the least significant digit.
pub open spec fn gpos_w(its: Seq<PatternIter>, w: int) -> int
    decreases its, 0int,
{
    if w <= 0 || its.len() == 0 {
        0
    } else {
        gpos_w(its.drop_last(), w - 1) * isize(its.last()) + ipos(its.last())
    }
}

/// The mixed-radix reading of a whole cursor list.
pub open spec fn gpos(its: Seq<PatternIter>) -> int
    decreases its, 1int,
{
    gpos_w(its, its.len() as int)
}

/// The string at ordinal `k` of the cursor's space.
pub open spec fn iat(it: PatternIter, k: int) -> Seq<char>
    decreases it, 0int, 0int,
{
    match it {
        PatternIter::Range(b) => seq![b.range().char_seq()[k]],
        PatternIter::MRange(m) => mchar_seq(m.ranges()).subrange(k, k + 1),
        PatternIter::Group(its) => giat(its@, k),
        PatternIter::Length { iters, min, .. } => {
            let len = iters@.len() as int;
            let sz = slot_size(iters@);
            let n = rep_width_at(sz, min as int, len, k);
            let j = k - rep_size(sz, min as int, n - 1);
            if len == 0 {
                Seq::empty()
            } else {
                riat(iters@[0], n, j)
            }
        },
    }
}

/// The string at ordinal `k` of a cursor list's space.
pub open spec fn giat(its: Seq<PatternIter>, k: int) -> Seq<char>
    decreases its, 0int, 0int,
{
    if its.len() == 0 {
        Seq::empty()
    } else {
        giat(its.drop_last(), k / isize(its.last())) + iat(its.last(), k % isize(its.last()))
    }
}

/// The string at ordinal `j` of `n` copies of one cursor's space.
pub open spec fn riat(it: PatternIter, n: int, j: int) -> Seq<char>
    decreases it, n, 1int,
{
    if n <= 0 {
        Seq::empty()
    } else {
        riat(it, n - 1, j / isize(it)) + iat(it, j % isize(it))
    }
}

/// The string the cursor currently rests on, from the current digits.
pub open spec fn ipeek(it: PatternIter) -> Seq<char>
    decreases it, 2int,
{
    match it {
        PatternIter::Range(b) => seq![b.range().char_seq()[b.pos()]],
        PatternIter::MRange(m) => mchar_seq(m.ranges()).subrange(m.pos(), m.pos() + 1),
        PatternIter::Group(its) => gpeek(its@),
        PatternIter::Length { iters, active, .. } => gpeek_w(iters@, active as int),
    }
}

/// The concatenation of the current strings of the last `w` cursors.
pub open spec fn gpeek_w(its: Seq<PatternIter>, w: int) -> Seq<char>
    decreases its, 0int,
{
    if w <= 0 || its.len() == 0 {
        Seq::empty()
    } else {
        gpeek_w(its.drop_last(), w - 1) + ipeek(its.last())
    }
}

/// The concatenation of the current strings of a whole cursor list.
pub open spec fn gpeek(its: Seq<PatternIter>) -> Seq<char>
    decreases its, 1int,
{
    gpeek_w(its, its.len() as int)
}

/// The cursor tree is consistent: every node's digits are in range, a
/// repetition's inactive slots rest at their start, and its slots all walk
/// the same space.  A group that has produced everything parks with its
/// leftmost child exhausted and the rest at their start; a repetition
/// parks with every slot at its start and the window one past its widest.
pub open spec fn iwf(it: PatternIter) -> bool
    decreases it, 0int,
{
    match it {
        PatternIter::Range(b) => b.wf(),
        PatternIter::MRange(m) => m.wf(),
        PatternIter::Group(its) => {
            &&& its@.len() >= 1
            &&& forall|i: int| 0 <= i < its@.len() ==> iwf(#[trigger] its@[i])
            &&& ((forall|i: int|
                0 <= i < its@.len() ==> ipos(#[trigger] its@[i]) < isize(its@[i])) || (ipos(
                its@[0],
            ) == isize(its@[0]) && forall|i: int|
                1 <= i < its@.len() ==> at_start(#[trigger] its@[i])))
        },
        PatternIter::Length { iters, active, min } => {
            let len = iters@.len() as int;
            &&& iters@.len() <= u32::MAX as int
            &&& min <= iters@.len()
            &&& min <= active <= len + 1
            &&& forall|i: int| 0 <= i < len ==> iwf(#[trigger] iters@[i])
            &&& forall|i: int| 0 <= i < len ==> same_shape(#[trigger] iters@[i], iters@[0])
            &&& forall|i: int| 0 <= i < len - active ==> at_start(#[trigger] iters@[i])
            &&& (active <= len ==> forall|i: int|
                len - active <= i < len ==> ipos(#[trigger] iters@[i]) < isize(iters@[i]))
            &&& (active == len + 1 ==> forall|i: int|
                0 <= i < len ==> at_start(#[trigger] iters@[i]))
        },
    }
}

/// Cursors of the same shape walk the same space.
proof fn lemma_shape_size(a: PatternIter, b: PatternIter)
    requires
        same_shape(a, b),
    ensures
        isize(a) == isize(b),
    decreases a, 0int, 0int,
{
    match (a, b) {
        (PatternIter::Range(x), PatternIter::Range(y)) => {},
        (PatternIter::MRange(x), PatternIter::MRange(y)) => {},
        (PatternIter::Group(xs), PatternIter::Group(ys)) => {
            lemma_shape_gsize(xs@, ys@, xs@.len() as int);
            assert(gsize(xs@) == gsize(ys@));
        },
        (
            PatternIter::Length { iters: xs, min: mna, .. },
            PatternIter::Length { iters: ys, min: mnb, .. },
        ) => {
            if xs@.len() > 0 {
                lemma_shape_size(xs@[0], ys@[0]);
            }
        },
        _ => {},
    }
}

proof fn lemma_shape_gsize(xs: Seq<PatternIter>, ys: Seq<PatternIter>, w: int)
    requires
        xs.len() == ys.len(),
        forall|i: int| 0 <= i < xs.len() ==> same_shape(#[trigger] xs[i], ys[i]),
    ensures
        gsize_w(xs, w) == gsize_w(ys, w),
    decreases xs, 1int, 0int,
{
    if w > 0 && xs.len() > 0 {
        assert(forall|i: int|
            0 <= i < xs.drop_last().len() ==> same_shape(
                #[trigger] xs.drop_last()[i],
                ys.drop_last()[i],
            ));
        lemma_shape_gsize(xs.drop_last(), ys.drop_last(), w - 1);
        lemma_shape_size(xs.last(), ys.last());
    }
}

/// Shape is reflexive and transitive.
proof fn lemma_shape_refl(a: PatternIter)
    ensures
        same_shape(a, a),
    decreases a,
{
    match a {
        PatternIter::Range(x) => {},
        PatternIter::MRange(x) => {},
        PatternIter::Group(xs) => {
            assert forall|i: int| 0 <= i < xs@.len() implies same_shape(
                #[trigger] xs@[i],
                xs@[i],
            ) by {
                lemma_shape_refl(xs@[i]);
            }
        },
        PatternIter::Length { iters: xs, .. } => {
            assert forall|i: int| 0 <= i < xs@.len() implies same_shape(
                #[trigger] xs@[i],
                xs@[i],
            ) by {
                lemma_shape_refl(xs@[i]);
            }
        },
    }
}

proof fn lemma_shape_sym(a: PatternIter, b: PatternIter)
    requires
        same_shape(a, b),
    ensures
        same_shape(b, a),
    decreases a,
{
    match (a, b) {
        (PatternIter::Group(xs), PatternIter::Group(ys)) => {
            assert forall|i: int| 0 <= i < ys@.len() implies same_shape(
                #[trigger] ys@[i],
                xs@[i],
            ) by {
                lemma_shape_sym(xs@[i], ys@[i]);
            }
        },
        (
            PatternIter::Length { iters: xs, .. },
            PatternIter::Length { iters: ys, .. },
        ) => {
            assert forall|i: int| 0 <= i < ys@.len() implies same_shape(
                #[trigger] ys@[i],
                xs@[i],
            ) by {
                lemma_shape_sym(xs@[i], ys@[i]);
            }
        },
        _ => {},
    }
}

proof fn lemma_shape_trans(a: PatternIter, b: PatternIter, c: PatternIter)
    requires
        same_shape(a, b),
        same_shape(b, c),
    ensures
        same_shape(a, c),
    decreases a,
{
    match (a, b, c) {
        (PatternIter::Group(xs), PatternIter::Group(ys), PatternIter::Group(zs)) => {
            assert forall|i: int| 0 <= i < xs@.len() implies same_shape(
                #[trigger] xs@[i],
                zs@[i],
            ) by {
                lemma_shape_trans(xs@[i], ys@[i], zs@[i]);
            }
        },
        (
            PatternIter::Length { iters: xs, .. },
            PatternIter::Length { iters: ys, .. },
            PatternIter::Length { iters: zs, .. },
        ) => {
            assert forall|i: int| 0 <= i < xs@.len() implies same_shape(
                #[trigger] xs@[i],
                zs@[i],
            ) by {
                lemma_shape_trans(xs@[i], ys@[i], zs@[i]);
            }
        },
        _ => {},
    }
}

/// Cursors of the same shape index the same strings.
proof fn lemma_shape_iat(a: PatternIter, b: PatternIter, k: int)
    requires
        same_shape(a, b),
    ensures
        iat(a, k) == iat(b, k),
    decreases a, 1int, 0int,
{
    match (a, b) {
        (PatternIter::Group(xs), PatternIter::Group(ys)) => {
            lemma_shape_giat(xs@, ys@, k);
        },
        (
            PatternIter::Length { iters: xs, min: mna, .. },
            PatternIter::Length { iters: ys, min: mnb, .. },
        ) => {
            if xs@.len() > 0 {
                lemma_shape_size(xs@[0], ys@[0]);
                let sz = slot_size(xs@);
                let n = rep_width_at(sz, mna as int, xs@.len() as int, k);
                let j = k - rep_size(sz, mna as int, n - 1);
                lemma_shape_riat(xs@[0], ys@[0], n, j);
            }
        },
        _ => {},
    }
}

proof fn lemma_shape_giat(xs: Seq<PatternIter>, ys: Seq<PatternIter>, k: int)
    requires
        xs.len() == ys.len(),
        forall|i: int| 0 <= i < xs.len() ==> same_shape(#[trigger] xs[i], ys[i]),
    ensures
        giat(xs, k) == giat(ys, k),
    decreases xs, 2int, 0int,
{
    if xs.len() > 0 {
        lemma_shape_size(xs.last(), ys.last());
        assert(forall|i: int|
            0 <= i < xs.drop_last().len() ==> same_shape(
                #[trigger] xs.drop_last()[i],
                ys.drop_last()[i],
            ));
        lemma_shape_giat(xs.drop_last(), ys.drop_last(), k / isize(xs.last()));
        lemma_shape_iat(xs.last(), ys.last(), k % isize(xs.last()));
    }
}

proof fn lemma_shape_riat(a: PatternIter, b: PatternIter, n: int, j: int)
    requires
        same_shape(a, b),
    ensures
        riat(a, n, j) == riat(b, n, j),
    decreases a, 2int, n,
{
    if n > 0 {
        lemma_shape_size(a, b);
        lemma_shape_riat(a, b, n - 1, j / isize(a));
        lemma_shape_iat(a, b, j % isize(a));
    }
}

/// Every consistent cursor walks at least one string.
proof fn lemma_isize_pos(it: PatternIter)
    requires
        iwf(it),
    ensures
        isize(it) >= 1,
    decreases it, 1int,
{
    match it {
        PatternIter::Range(b) => {},
        PatternIter::MRange(m) => {
            crate::ops::mbruterange::lemma_total_len_pos(m.ranges());
        },
        PatternIter::Group(its) => {
            lemma_gsize_pos(its@, its@.len() as int);
            assert(isize(it) == gsize_w(its@, its@.len() as int));
        },
        PatternIter::Length { iters, min, .. } => {
            if iters@.len() > 0 {
                lemma_isize_pos(iters@[0]);
            }
            crate::ops::pattern::lemma_rep_size_pos(
                slot_size(iters@),
                min as int,
                iters@.len() as int,
            );
        },
    }
}

proof fn lemma_gsize_pos(its: Seq<PatternIter>, w: int)
    requires
        forall|i: int| 0 <= i < its.len() ==> iwf(#[trigger] its[i]),
    ensures
        gsize_w(its, w) >= 1,
    decreases its, 2int,
{
    if w > 0 && its.len() > 0 {
        assert(forall|i: int|
            0 <= i < its.drop_last().len() ==> iwf(#[trigger] its.drop_last()[i]));
        lemma_gsize_pos(its.drop_last(), w - 1);
        lemma_isize_pos(its.last());
        lemma_mul_strictly_positive(gsize_w(its.drop_last(), w - 1), isize(its.last()));
    }
}

/// At its start a cursor has produced nothing.
proof fn lemma_at_start_pos(it: PatternIter)
    requires
        iwf(it),
        at_start(it),
    ensures
        ipos(it) == 0,
    decreases it, 1int,
{
    match it {
        PatternIter::Range(b) => {},
        PatternIter::MRange(m) => {
            assert(m.ranges().subrange(0, 0) =~= Seq::<crate::ops::bruterange::BruteRange>::empty());
        },
        PatternIter::Group(its) => {
            lemma_gpos_w_start(its@, its@.len() as int);
        },
        PatternIter::Length { iters, active, min } => {
            lemma_gpos_w_start(iters@, active as int);
            assert(rep_size(slot_size(iters@), min as int, min as int - 1) == 0);
        },
    }
}

proof fn lemma_gpos_w_start(its: Seq<PatternIter>, w: int)
    requires
        forall|i: int| 0 <= i < its.len() ==> iwf(#[trigger] its[i]),
        forall|i: int| 0 <= i < its.len() ==> at_start(#[trigger] its[i]),
    ensures
        gpos_w(its, w) == 0,
    decreases its, 2int,
{
    if w > 0 && its.len() > 0 {
        assert(forall|i: int|
            0 <= i < its.drop_last().len() ==> iwf(#[trigger] its.drop_last()[i]) && at_start(
                its.drop_last()[i],
            ));
        lemma_gpos_w_start(its.drop_last(), w - 1);
        lemma_at_start_pos(its.last());
    }
}

/// A cursor's position never leaves `[0, size]`, and sits strictly below
/// the size exactly while something remains.
proof fn lemma_pos_bounds(it: PatternIter)
    requires
        iwf(it),
    ensures
        0 <= ipos(it) <= isize(it),
    decreases it, 1int,
{
    match it {
        PatternIter::Range(b) => {
            b.lemma_pos_in_bounds();
            assert(0 <= ipos(it) <= isize(it));
        },
        PatternIter::MRange(m) => {
            m.lemma_pos_in_bounds();
            assert(0 <= ipos(it) <= isize(it));
        },
        PatternIter::Group(its) => {
            assert(ipos(it) == gpos_w(its@, its@.len() as int));
            assert(isize(it) == gsize_w(its@, its@.len() as int));
            if forall|i: int| 0 <= i < its@.len() ==> ipos(#[trigger] its@[i]) < isize(its@[i]) {
                lemma_gpos_w_lt(its@, its@.len() as int);
                assert(0 <= gpos_w(its@, its@.len() as int) < gsize_w(its@, its@.len() as int));
                assert(0 <= ipos(it) <= isize(it));
            } else {
                assert(ipos(its@[0]) == isize(its@[0]));
                lemma_gpos_done(its@);
                lemma_gsize_pos(its@, its@.len() as int);
                assert(gpos(its@) == gsize(its@));
                assert(0 <= ipos(it) <= isize(it));
            }
        },
        PatternIter::Length { iters, active, min } => {
            let len = iters@.len() as int;
            let sz = slot_size(iters@);
            if iters@.len() > 0 {
                lemma_isize_pos(iters@[0]);
            }
            assert(sz >= 1);
            crate::ops::pattern::lemma_rep_size_nonneg(sz, min as int, active as int - 1);
            crate::ops::pattern::lemma_rep_size_nonneg(sz, min as int, len);
            if active <= len {
                lemma_gpos_w_lt(iters@, active as int);
                lemma_gsize_w_pow(iters@, active as int);
                assert(gpos_w(iters@, active as int) < pow(sz, active as nat));
                crate::ops::pattern::lemma_rep_size_append(sz, min as int, active as int);
                crate::ops::pattern::lemma_rep_size_mono_tail(sz, min as int, active as int + 1, len);
                assert(ipos(it) < rep_size(sz, min as int, active as int));
                assert(rep_size(sz, min as int, active as int) <= rep_size(sz, min as int, len));
            }
            assert(0 <= ipos(it) <= isize(it));
        },
    }
}

/// While the last `w` cursors all have something left, their mixed-radix
/// reading sits strictly below their product.
proof fn lemma_gpos_w_lt(its: Seq<PatternIter>, w: int)
    requires
        0 <= w <= its.len(),
        forall|i: int| 0 <= i < its.len() ==> iwf(#[trigger] its[i]),
        forall|i: int|
            its.len() - w <= i < its.len() ==> ipos(#[trigger] its[i]) < isize(its[i]),
    ensures
        0 <= gpos_w(its, w) < gsize_w(its, w),
    decreases its, 2int,
{
    if w <= 0 || its.len() == 0 {
    } else {
        assert forall|i: int| 0 <= i < its.drop_last().len() implies iwf(
            #[trigger] its.drop_last()[i],
        ) by {
            assert(its.drop_last()[i] == its[i]);
        }
        assert forall|i: int|
            its.drop_last().len() - (w - 1) <= i < its.drop_last().len() implies ipos(
            #[trigger] its.drop_last()[i],
        ) < isize(its.drop_last()[i]) by {
            assert(its.drop_last()[i] == its[i]);
        }
        lemma_gpos_w_lt(its.drop_last(), w - 1);
        lemma_pos_bounds(its.last());
        lemma_isize_pos(its.last());
        let g = gpos_w(its.drop_last(), w - 1);
        let gg = gsize_w(its.drop_last(), w - 1);
        let s = isize(its.last());
        let p = ipos(its.last());
        lemma_mul_inequality(g, gg - 1, s);
        assert(g * s <= (gg - 1) * s);
        assert((gg - 1) * s == gg * s - s) by {
            vstd::arithmetic::mul::lemma_mul_is_distributive_sub_other_way(s, gg, 1);
        }
        lemma_mul_strictly_positive(gg, s);
    }
}

/// A finished group reads as its full size: the leftmost cursor is
/// exhausted and the rest rest at their start.
proof fn lemma_gpos_done(its: Seq<PatternIter>)
    requires
        its.len() >= 1,
        forall|i: int| 0 <= i < its.len() ==> iwf(#[trigger] its[i]),
        ipos(its[0]) == isize(its[0]),
        forall|i: int| 1 <= i < its.len() ==> at_start(#[trigger] its[i]),
    ensures
        gpos(its) == gsize(its),
    decreases its,
{
    if its.len() == 1 {
        assert(gpos_w(its, 1) == gpos_w(its.drop_last(), 0) * isize(its.last()) + ipos(its.last()));
        assert(gpos_w(its.drop_last(), 0) == 0);
        assert(gsize_w(its, 1) == gsize_w(its.drop_last(), 0) * isize(its.last()));
        assert(gsize_w(its.drop_last(), 0) == 1);
    } else {
        let dl = its.drop_last();
        assert(dl[0] == its[0]);
        assert(forall|i: int| 0 <= i < dl.len() ==> iwf(#[trigger] dl[i]));
        assert(forall|i: int| 1 <= i < dl.len() ==> at_start(#[trigger] dl[i]));
        lemma_gpos_done(dl);
        lemma_at_start_pos(its.last());
        assert(gpos_w(its, its.len() as int) == gpos_w(dl, dl.len() as int) * isize(its.last())
            + 0);
        assert(gsize_w(its, its.len() as int) == gsize_w(dl, dl.len() as int) * isize(its.last()));
    }
}

/// Slots of one shape multiply out to a power.
proof fn lemma_gsize_w_pow(its: Seq<PatternIter>, w: int)
    requires
        0 <= w <= its.len(),
        forall|i: int| 0 <= i < its.len() ==> same_shape(#[trigger] its[i], its[0]),
    ensures
        gsize_w(its, w) == pow(slot_size(its), w as nat),
    decreases w,
{
    if w == 0 {
        assert(pow(slot_size(its), 0nat) == 1) by {
            vstd::arithmetic::power::lemma_pow0(slot_size(its));
        }
    } else {
        let dl = its.drop_last();
        assert(forall|i: int| 0 <= i < dl.len() ==> same_shape(#[trigger] dl[i], dl[0]));
        lemma_gsize_w_pow_inner(its, w);
    }
}

proof fn lemma_gsize_w_pow_inner(its: Seq<PatternIter>, w: int)
    requires
        1 <= w <= its.len(),
        forall|i: int| 0 <= i < its.len() ==> same_shape(#[trigger] its[i], its[0]),
    ensures
        gsize_w(its, w) == pow(slot_size(its), w as nat),
    decreases w,
{
    let sz = slot_size(its);
    let dl = its.drop_last();
    lemma_shape_size(its.last(), its[0]);
    if w == 1 {
        assert(gsize_w(its, 1) == gsize_w(dl, 0) * isize(its.last()));
        assert(gsize_w(dl, 0) == 1);
        assert(pow(sz, 1nat) == sz) by {
            vstd::arithmetic::power::lemma_pow1(sz);
        }
    } else {
        assert(dl[0] == its[0]);
        assert(forall|i: int| 0 <= i < dl.len() ==> same_shape(#[trigger] dl[i], dl[0]));
        lemma_gsize_w_pow_inner(dl, w - 1);
        assert(slot_size(dl) == sz);
        assert(pow(sz, w as nat) == pow(sz, (w - 1) as nat) * sz) by {
            vstd::arithmetic::power::lemma_pow_adds(sz, (w - 1) as nat, 1nat);
            vstd::arithmetic::power::lemma_pow1(sz);
        }
    }
}

/// The odometer reading names the string under the cursor: the current
/// digits decode to exactly the string at the current ordinal.
proof fn lemma_peek_at(it: PatternIter)
    requires
        iwf(it),
        ipos(it) < isize(it),
    ensures
        ipeek(it) == iat(it, ipos(it)),
    decreases it, 3int,
{
    match it {
        PatternIter::Range(b) => {},
        PatternIter::MRange(m) => {},
        PatternIter::Group(its) => {
            lemma_pos_bounds(it);
            if forall|i: int| 0 <= i < its@.len() ==> ipos(#[trigger] its@[i]) < isize(its@[i]) {
                lemma_gpeek_giat(its@, its@.len() as int);
                assert(its@.subrange(0, its@.len() as int) =~= its@);
                assert(ipeek(it) == gpeek_w(its@, its@.len() as int));
                assert(ipeek(it) == iat(it, ipos(it)));
            } else {
                lemma_gpos_done(its@);
                assert(false);
            }
        },
        PatternIter::Length { iters, active, min } => {
            let len = iters@.len() as int;
            let sz = slot_size(iters@);
            if active > len {
                assert(ipos(it) == isize(it));
                assert(false);
            }
            if len == 0 {
                assert(active == 0);
                assert(ipeek(it) == Seq::<char>::empty());
                assert(rep_size(sz, min as int, min as int - 1) == 0);
                assert(ipos(it) == 0);
            } else {
                lemma_isize_pos(iters@[0]);
                lemma_gpos_w_lt(iters@, active as int);
                lemma_gsize_w_pow(iters@, active as int);
                let wp = gpos_w(iters@, active as int);
                crate::ops::pattern::lemma_rep_size_append(sz, min as int, active as int);
                crate::ops::pattern::lemma_rep_size_nonneg(sz, min as int, active as int - 1);
                crate::ops::pattern::lemma_rep_width_found(sz, min as int, len, ipos(it) as int, active as int);
                lemma_window_peek(iters@, active as int);
                assert(rep_width_at(sz, min as int, len, ipos(it)) == active as int);
                assert(ipeek(it) == riat(iters@[0], active as int, gpos_w(iters@, active as int)));
                assert(ipeek(it) == iat(it, ipos(it)));
            }
        },
    }
}

/// Decodes a whole group's odometer reading digit by digit.
proof fn lemma_gpeek_giat(its: Seq<PatternIter>, w: int)
    requires
        0 <= w <= its.len(),
        forall|i: int| 0 <= i < its.len() ==> iwf(#[trigger] its[i]),
        forall|i: int| its.len() - w <= i < its.len() ==> ipos(#[trigger] its[i]) < isize(its[i]),
    ensures
        gpeek_w(its, w) == giat(its.subrange(its.len() - w, its.len() as int), gpos_w(its, w)),
    decreases its, 4int,
{
    if w == 0 {
        assert(its.subrange(its.len() as int, its.len() as int) =~= Seq::<PatternIter>::empty());
    } else {
        let dl = its.drop_last();
        let last = its.last();
        assert forall|i: int| 0 <= i < dl.len() implies iwf(#[trigger] dl[i]) by {
            assert(dl[i] == its[i]);
        }
        assert forall|i: int| dl.len() - (w - 1) <= i < dl.len() implies ipos(#[trigger] dl[i])
            < isize(dl[i]) by {
            assert(dl[i] == its[i]);
        }
        lemma_gpeek_giat(dl, w - 1);
        lemma_gpos_w_lt(dl, w - 1);
        lemma_pos_bounds(last);
        lemma_isize_pos(last);
        lemma_peek_at(last);
        let g = gpos_w(dl, w - 1);
        let s = isize(last);
        let p = ipos(last);
        let k = g * s + p;
        vstd::arithmetic::div_mod::lemma_fundamental_div_mod_converse_div(k, s, g, p);
        vstd::arithmetic::div_mod::lemma_fundamental_div_mod_converse_mod(k, s, g, p);
        let win = its.subrange(its.len() - w, its.len() as int);
        assert(win.drop_last() =~= dl.subrange(dl.len() - (w - 1), dl.len() as int));
        assert(win.last() == last);
        assert(giat(win, k) == giat(win.drop_last(), k / isize(win.last())) + iat(
            win.last(),
            k % isize(win.last()),
        ));
    }
}

/// Decodes a repetition window's odometer reading: all slots share one
/// shape, so the window reads as that many copies of the first slot.
proof fn lemma_window_peek(its: Seq<PatternIter>, w: int)
    requires
        0 <= w <= its.len(),
        its.len() >= 1,
        forall|i: int| 0 <= i < its.len() ==> iwf(#[trigger] its[i]),
        forall|i: int| 0 <= i < its.len() ==> same_shape(#[trigger] its[i], its[0]),
        forall|i: int| its.len() - w <= i < its.len() ==> ipos(#[trigger] its[i]) < isize(its[i]),
    ensures
        gpeek_w(its, w) == riat(its[0], w, gpos_w(its, w)),
    decreases its, 4int,
{
    if w == 0 {
    } else {
        let dl = its.drop_last();
        let last = its.last();
        assert forall|i: int| 0 <= i < dl.len() implies iwf(#[trigger] dl[i]) && same_shape(
            dl[i],
            its[0],
        ) by {
            assert(dl[i] == its[i]);
        }
        assert forall|i: int| dl.len() - (w - 1) <= i < dl.len() implies ipos(#[trigger] dl[i])
            < isize(dl[i]) by {
            assert(dl[i] == its[i]);
        }
        lemma_gpos_w_lt(dl, w - 1);
        lemma_pos_bounds(last);
        lemma_isize_pos(last);
        lemma_peek_at(last);
        lemma_shape_size(last, its[0]);
        let g = gpos_w(dl, w - 1);
        let s = isize(last);
        let p = ipos(last);
        let k = g * s + p;
        vstd::arithmetic::div_mod::lemma_fundamental_div_mod_converse_div(k, s, g, p);
        vstd::arithmetic::div_mod::lemma_fundamental_div_mod_converse_mod(k, s, g, p);
        if w == 1 {
            assert(gpeek_w(dl, 0) == Seq::<char>::empty());
            assert(gpos_w(dl, 0) == 0);
            assert(riat(its[0], 0, 0) == Seq::<char>::empty());
            lemma_shape_iat(last, its[0], p);
            assert(riat(its[0], 1, k) == riat(its[0], 0, k / s) + iat(its[0], k % s));
        } else {
            assert(dl.len() >= 1);
            assert(dl[0] == its[0]);
            lemma_window_peek(dl, w - 1);
            lemma_shape_iat(last, its[0], p);
            assert(riat(its[0], w, k) == riat(its[0], w - 1, k / s) + iat(its[0], k % s));
        }
    }
}

impl PatternIter {
    /// Whether another string remains.
    pub fn has_next(&self) -> (r: bool)
        requires
            iwf(*self),
        ensures
            r == (ipos(*self) < isize(*self)),
        decreases *self, 0int,
    {
        proof {
            lemma_pos_bounds(*self);
        }
        match self {
            PatternIter::Range(b) => b.has_next(),
            PatternIter::MRange(m) => m.has_next(),
            PatternIter::Group(its) => {
                let r = its[0].has_next();
                proof {
                    if forall|i: int|
                        0 <= i < its@.len() ==> ipos(#[trigger] its@[i]) < isize(its@[i]) {
                        lemma_gpos_w_lt(its@, its@.len() as int);
                    } else {
                        lemma_gpos_done(its@);
                        lemma_pos_bounds(its@[0]);
                    }
                }
                r
            },
            PatternIter::Length { iters, active, min } => {
                let r = *active <= iters.len() as u64;
                proof {
                    let len = iters@.len() as int;
                    let sz = slot_size(iters@);
                    if iters@.len() > 0 {
                        lemma_isize_pos(iters@[0]);
                    }
                    if *active as int <= len {
                        lemma_gpos_w_lt(iters@, *active as int);
                        lemma_gsize_w_pow(iters@, *active as int);
                        crate::ops::pattern::lemma_rep_size_append(sz, *min as int, *active as int);
                        crate::ops::pattern::lemma_rep_size_mono_tail(sz, *min as int, *active as int + 1, len);
                    }
                }
                r
            },
        }
    }
}

impl PatternIter {
    /// Appends the current string to the buffer, without advancing.
    #[verifier::rlimit(100)]
    pub fn peek_into(&self, buf: &mut String)
        requires
            iwf(*self),
            ipos(*self) < isize(*self),
        ensures
            final(buf)@ == old(buf)@ + ipeek(*self),
        decreases *self, 0int,
    {
        match self {
            PatternIter::Range(b) => {
                proof {
                    b.lemma_pos_in_bounds();
                }
                let c = b.peek();
                crate::trusted::string_push(buf, c);
                proof {
                    assert(final(buf)@ =~= old(buf)@ + ipeek(*self));
                }
            },
            PatternIter::MRange(m) => {
                proof {
                    m.lemma_pos_in_bounds();
                    crate::ops::mbruterange::lemma_mchar_seq_len(m.ranges());
                }
                let c = m.peek();
                crate::trusted::string_push(buf, c);
                proof {
                    assert(mchar_seq(m.ranges()).subrange(m.pos(), m.pos() + 1) =~= seq![
                        mchar_seq(m.ranges())[m.pos()],
                    ]);
                    assert(final(buf)@ =~= old(buf)@ + ipeek(*self));
                }
            },
            PatternIter::Group(its) => {
                proof {
                    lemma_pos_bounds(*self);
                    if !(forall|i: int|
                        0 <= i < its@.len() ==> ipos(#[trigger] its@[i]) < isize(its@[i])) {
                        lemma_gpos_done(its@);
                        assert(false);
                    }
                }
                peek_list(its, its.len(), buf);
                proof {
                    assert(ipeek(*self) == gpeek_w(its@, its@.len() as int));
                }
            },
            PatternIter::Length { iters, active, min } => {
                proof {
                    if *active as int > iters@.len() as int {
                        assert(ipos(*self) == isize(*self));
                        assert(false);
                    }
                }
                let n = iters.len();
                proof {
                    assert(*active <= n as u64);
                }
                peek_list(iters, *active as usize, buf);
            },
        }
    }
}

/// Appends the current strings of the last `w` cursors of a list, left to
/// right.
fn peek_list(its: &Vec<PatternIter>, w: usize, buf: &mut String)
    requires
        w <= its@.len(),
        forall|i: int| 0 <= i < its@.len() ==> iwf(#[trigger] its@[i]),
        forall|i: int| its@.len() - w <= i < its@.len() ==> ipos(#[trigger] its@[i]) < isize(its@[i]),
    ensures
        final(buf)@ == old(buf)@ + gpeek_w(its@, w as int),
    decreases *its, 1int,
{
    let len = its.len();
    let start = len - w;
    let mut i = start;
    proof {
        assert(gpeek_w(its@.subrange(0, start as int), 0) == Seq::<char>::empty());
        assert(buf@ =~= old(buf)@ + Seq::<char>::empty());
    }
    while i < len
        invariant
            start <= i <= len,
            len == its@.len(),
            start == len - w,
            forall|j: int| 0 <= j < its@.len() ==> iwf(#[trigger] its@[j]),
            forall|j: int|
                its@.len() - w <= j < its@.len() ==> ipos(#[trigger] its@[j]) < isize(its@[j]),
            buf@ == old(buf)@ + gpeek_w(its@.subrange(0, i as int), i - start),
        decreases len - i,
    {
        proof {
            assert(its@.subrange(0, i as int) =~= its@.subrange(0, i as int + 1).drop_last());
            assert(its@.subrange(0, i as int + 1).last() == its@[i as int]);
        }
        its[i].peek_into(buf);
        i += 1;
    }
    proof {
        assert(its@.subrange(0, len as int) =~= its@);
    }
}

impl PatternIter {
    /// Steps the cursor one string forward.
    #[verifier::rlimit(100)]
    pub fn move_next(&mut self)
        requires
            iwf(*old(self)),
            ipos(*old(self)) < isize(*old(self)),
        ensures
            iwf(*final(self)),
            same_shape(*final(self), *old(self)),
            ipos(*final(self)) == ipos(*old(self)) + 1,
        decreases *old(self), 1int,
    {
        proof {
            lemma_pos_bounds(*old(self));
        }
        match self {
            PatternIter::Range(b) => {
                proof {
                    b.lemma_pos_in_bounds();
                }
                b.move_next();
            },
            PatternIter::MRange(m) => {
                m.move_next();
            },
            PatternIter::Group(its) => {
                proof {
                    if !(forall|i: int|
                        0 <= i < its@.len() ==> ipos(#[trigger] its@[i]) < isize(its@[i])) {
                        lemma_gpos_done(its@);
                        assert(false);
                    }
                }
                let ghost old_its = its@;
                let carry = group_advance(its);
                proof {
                    assert(ipos(*final(self)) == gpos_w(its@, its@.len() as int));
                    assert(iwf(*final(self)));
                }
            },
            PatternIter::Length { iters, active, min } => {
                let ghost olds = *old(self);
                let ghost old_iters = iters@;
                let ghost len = iters@.len() as int;
                let ghost sz = slot_size(iters@);
                proof {
                    if iters@.len() > 0 {
                        lemma_isize_pos(iters@[0]);
                    }
                    if *active as int > len {
                        assert(ipos(olds) == isize(olds));
                        assert(false);
                    }
                }
                if *active == 0 {
                    *active = 1;
                    proof {
                        let news = *final(self);
                        assert(rep_size(sz, *min as int, -1) == 0);
                        lemma_gpos_w_start(iters@, 0);
                        crate::ops::pattern::lemma_rep_size_append(sz, *min as int, 0);
                        if len >= 1 {
                            lemma_gpos_w_start(iters@, 1);
                            assert(ipos(news) == rep_size(sz, 0, 0) + gpos_w(iters@, 1));
                        } else {
                            assert(ipos(news) == rep_size(sz, 0, 0));
                        }
                        assert(pow(sz, 0nat) == 1) by {
                            vstd::arithmetic::power::lemma_pow0(sz);
                        }
                        lemma_shape_refl(*old(self));
                        assert(same_shape(*final(self), *old(self)));
                        lemma_isize_pos_all(iters@);
                        assert forall|i: int| 0 <= i < iters@.len() implies ipos(
                            #[trigger] iters@[i],
                        ) == 0 by {
                            lemma_at_start_pos(iters@[i]);
                        }
                        assert(iwf(*final(self)));
                    }
                } else {
                    let n = iters.len();
                    proof {
                        assert(*active <= n as u64);
                    }
                    let w = *active as usize;
                    proof {
                        crate::ops::pattern::lemma_rep_size_append(sz, *min as int, w as int);
                        crate::ops::pattern::lemma_rep_size_nonneg(sz, *min as int, w as int - 1);
                        lemma_gsize_w_pow(iters@, w as int);
                    }
                    let carry = window_advance(iters, w);
                    if carry {
                        *active = (w as u64) + 1;
                    }
                    proof {
                        let news = *final(self);
                        assert(slot_size(iters@) == sz) by {
                            if old_iters.len() > 0 {
                                lemma_shape_size(iters@[0], old_iters[0]);
                            }
                        }
                        lemma_isize_pos_all(iters@);
                        assert forall|i: int| 0 <= i < iters@.len() implies same_shape(
                            #[trigger] iters@[i],
                            iters@[0],
                        ) by {
                            lemma_shape_sym(iters@[0], old_iters[0]);
                            lemma_shape_trans(iters@[i], old_iters[i], old_iters[0]);
                            lemma_shape_trans(iters@[i], old_iters[0], iters@[0]);
                        }
                        if carry {
                            lemma_gsize_w_pow(old_iters, w as int);
                            // the old window read its last ordinal; the new
                            // window opens one slot wider, all at the start
                            assert forall|i: int|
                                0 <= i < len && len - (w as int + 1) <= i implies at_start(
                                #[trigger] iters@[i],
                            ) by {
                                if i < len - w as int {
                                    assert(iters@[i] == old_iters[i]);
                                }
                            }
                            assert forall|i: int|
                                0 <= i < len && len - (w as int + 1) <= i implies ipos(
                                #[trigger] iters@[i],
                            ) == 0 by {
                                lemma_at_start_pos(iters@[i]);
                            }
                            if (w as int + 1) <= len {
                                lemma_gpos_w_all_start(iters@, w as int + 1);
                                assert(ipos(news) == rep_size(sz, *min as int, w as int)
                                    + gpos_w(iters@, w as int + 1));
                            } else {
                                assert(w as int == len);
                                assert(ipos(news) == rep_size(sz, *min as int, len));
                            }
                            assert(ipos(news) == ipos(olds) + 1);
                            assert(iwf(news));
                        } else {
                            assert(ipos(news) == ipos(olds) + 1);
                            assert forall|i: int|
                                0 <= i < len - w as int implies at_start(#[trigger] iters@[i]) by {
                                assert(iters@[i] == old_iters[i]);
                            }
                            assert(iwf(news));
                        }
                        assert(same_shape(news, olds));
                    }
                }
            },
        }
    }
}

impl PatternIter {
    /// Returns the cursor, and recursively every cursor under it, to the
    /// first string.
    pub fn reset(&mut self)
        requires
            iwf(*old(self)),
        ensures
            iwf(*final(self)),
            same_shape(*final(self), *old(self)),
            at_start(*final(self)),
            ipos(*final(self)) == 0,
        decreases *old(self), 1int,
    {
        match self {
            PatternIter::Range(b) => {
                b.reset();
            },
            PatternIter::MRange(m) => {
                m.reset();
            },
            PatternIter::Group(its) => {
                let ghost olds = *old(self);
                reset_all(its);
                proof {
                    lemma_isize_pos_all(its@);
                    assert forall|i: int| 0 <= i < its@.len() implies ipos(#[trigger] its@[i])
                        < isize(its@[i]) by {
                        lemma_at_start_pos(its@[i]);
                        lemma_isize_pos(its@[i]);
                    }
                    assert(iwf(*final(self)));
                    lemma_at_start_pos(*final(self));
                }
            },
            PatternIter::Length { iters, active, min } => {
                let ghost olds = *old(self);
                let ghost old_iters = iters@;
                reset_all(iters);
                *active = *min;
                proof {
                    lemma_isize_pos_all(iters@);
                    assert forall|i: int| 0 <= i < iters@.len() implies ipos(#[trigger] iters@[i])
                        == 0 && isize(iters@[i]) >= 1 by {
                        lemma_at_start_pos(iters@[i]);
                        lemma_isize_pos(iters@[i]);
                    }
                    assert forall|i: int| 0 <= i < iters@.len() implies same_shape(
                        #[trigger] iters@[i],
                        iters@[0],
                    ) by {
                        lemma_shape_sym(iters@[0], old_iters[0]);
                        lemma_shape_trans(iters@[i], old_iters[i], old_iters[0]);
                        lemma_shape_trans(iters@[i], old_iters[0], iters@[0]);
                    }
                    assert(iwf(*final(self)));
                    lemma_at_start_pos(*final(self));
                }
            },
        }
    }

    /// The current string, without advancing.
    pub fn peek(&self) -> (r: String)
        requires
            iwf(*self),
            ipos(*self) < isize(*self),
        ensures
            r@ == iat(*self, ipos(*self)),
    {
        let mut buf = String::new();
        self.peek_into(&mut buf);
        proof {
            lemma_peek_at(*self);
            assert(buf@ =~= iat(*self, ipos(*self)));
        }
        buf
    }

    /// The current string, advancing past it.
    pub fn get_next(&mut self) -> (r: String)
        requires
            iwf(*old(self)),
            ipos(*old(self)) < isize(*old(self)),
        ensures
            iwf(*final(self)),
            same_shape(*final(self), *old(self)),
            ipos(*final(self)) == ipos(*old(self)) + 1,
            r@ == iat(*old(self), ipos(*old(self))),
    {
        let r = self.peek();
        self.move_next();
        r
    }
}

/// Returns every cursor of a list to its first string.
fn reset_all(its: &mut Vec<PatternIter>)
    requires
        forall|i: int| 0 <= i < old(its)@.len() ==> iwf(#[trigger] old(its)@[i]),
    ensures
        final(its)@.len() == old(its)@.len(),
        forall|i: int| 0 <= i < final(its)@.len() ==> iwf(#[trigger] final(its)@[i]),
        forall|i: int| 0 <= i < final(its)@.len() ==> at_start(#[trigger] final(its)@[i]),
        forall|i: int|
            0 <= i < final(its)@.len() ==> same_shape(#[trigger] final(its)@[i], old(its)@[i]),
    decreases old(its)@, 0int,
{
    let ghost olds = old(its)@;
    let last = its.pop();
    match last {
        None => {
            proof {
                assert(final(its)@ =~= olds);
            }
        },
        Some(mut l) => {
            proof {
                assert(l == olds.last());
                assert(its@ =~= olds.drop_last());
            }
            reset_all(its);
            let ghost mid = its@;
            l.reset();
            its.push(l);
            proof {
                assert(final(its)@ =~= mid.push(l));
                assert forall|i: int| 0 <= i < final(its)@.len() implies iwf(
                    #[trigger] final(its)@[i],
                ) && at_start(final(its)@[i]) && same_shape(final(its)@[i], olds[i]) by {
                    if i < final(its)@.len() - 1 {
                        assert(final(its)@[i] == mid[i]);
                        assert(olds.drop_last()[i] == olds[i]);
                    } else {
                        assert(final(its)@[i] == l);
                        lemma_shape_refl(olds.last());
                        lemma_shape_trans(l, olds.last(), olds.last());
                    }
                }
            }
        },
    }
}

/// Slots that all rest at their start read zero in any window.
proof fn lemma_gpos_w_all_start(its: Seq<PatternIter>, w: int)
    requires
        0 <= w <= its.len(),
        forall|i: int| 0 <= i < its.len() ==> iwf(#[trigger] its[i]),
        forall|i: int| its.len() - w <= i < its.len() ==> at_start(#[trigger] its[i]),
    ensures
        gpos_w(its, w) == 0,
    decreases its, 2int,
{
    if w > 0 && its.len() > 0 {
        assert forall|i: int| 0 <= i < its.drop_last().len() implies iwf(
            #[trigger] its.drop_last()[i],
        ) by {
            assert(its.drop_last()[i] == its[i]);
        }
        assert forall|i: int|
            its.drop_last().len() - (w - 1) <= i < its.drop_last().len() implies at_start(
            #[trigger] its.drop_last()[i],
        ) by {
            assert(its.drop_last()[i] == its[i]);
        }
        lemma_gpos_w_all_start(its.drop_last(), w - 1);
        lemma_at_start_pos(its.last());
    }
}

proof fn lemma_isize_pos_all(its: Seq<PatternIter>)
    requires
        forall|i: int| 0 <= i < its.len() ==> iwf(#[trigger] its[i]),
    ensures
        forall|i: int| 0 <= i < its.len() ==> isize(#[trigger] its[i]) >= 1,
{
    assert forall|i: int| 0 <= i < its.len() implies isize(#[trigger] its[i]) >= 1 by {
        lemma_isize_pos(its[i]);
    }
}

/// Advances the rightmost cursor of a group, carrying leftward: a cursor
/// that runs out is sent back to its start and the one to its left
/// advances, except that the leftmost stays parked on exhaustion.
#[verifier::rlimit(100)]
fn group_advance(its: &mut Vec<PatternIter>) -> (carry: bool)
    requires
        old(its)@.len() >= 1,
        forall|i: int| 0 <= i < old(its)@.len() ==> iwf(#[trigger] old(its)@[i]),
        forall|i: int|
            0 <= i < old(its)@.len() ==> ipos(#[trigger] old(its)@[i]) < isize(old(its)@[i]),
    ensures
        final(its)@.len() == old(its)@.len(),
        forall|i: int|
            0 <= i < final(its)@.len() ==> same_shape(#[trigger] final(its)@[i], old(its)@[i]),
        forall|i: int| 0 <= i < final(its)@.len() ==> iwf(#[trigger] final(its)@[i]),
        gpos(final(its)@) == gpos(old(its)@) + 1,
        !carry ==> forall|i: int|
            0 <= i < final(its)@.len() ==> ipos(#[trigger] final(its)@[i]) < isize(final(its)@[i]),
        carry ==> ipos(final(its)@[0]) == isize(final(its)@[0]) && forall|i: int|
            1 <= i < final(its)@.len() ==> at_start(#[trigger] final(its)@[i]),
    decreases old(its)@, 0int,
{
    let ghost olds = old(its)@;
    let mut last = match its.pop() {
        Some(l) => l,
        None => {
            proof {
                assert(false);
            }
            return false;
        },
    };
    proof {
        assert(last == olds.last());
        assert(its@ =~= olds.drop_last());
        lemma_pos_bounds(last);
        lemma_isize_pos(last);
    }
    last.move_next();
    proof {
        lemma_pos_bounds(last);
    }
    let still = last.has_next();
    if still {
        its.push(last);
        proof {
            assert(final(its)@ =~= olds.drop_last().push(last));
            assert(final(its)@.drop_last() =~= olds.drop_last());
            lemma_shape_size(last, olds.last());
            assert forall|i: int| 0 <= i < final(its)@.len() implies same_shape(
                #[trigger] final(its)@[i],
                olds[i],
            ) by {
                if i < olds.len() - 1 {
                    lemma_shape_refl(olds[i]);
                }
            }
            assert(gpos_w(final(its)@, final(its)@.len() as int) == gpos_w(
                olds,
                olds.len() as int,
            ) + 1);
        }
        false
    } else {
        proof {
            assert(ipos(last) == isize(last));
        }
        if its.len() == 0 {
            its.push(last);
            proof {
                assert(final(its)@ =~= seq![last]);
                assert(olds.len() == 1);
                lemma_shape_size(last, olds.last());
                assert(same_shape(final(its)@[0], olds[0]));
                assert(final(its)@.drop_last() =~= Seq::<PatternIter>::empty());
                assert(olds.drop_last() =~= Seq::<PatternIter>::empty());
                assert(gpos_w(final(its)@.drop_last(), 0) == 0);
                assert(gpos_w(olds.drop_last(), 0) == 0);
                assert(gpos_w(final(its)@, 1) == 0 * isize(last) + ipos(last));
                assert(gpos_w(olds, 1) == 0 * isize(olds.last()) + ipos(olds.last()));
                assert(0 * isize(last) == 0) by {
                    vstd::arithmetic::mul::lemma_mul_basics_1(isize(last));
                }
                assert(0 * isize(olds.last()) == 0) by {
                    vstd::arithmetic::mul::lemma_mul_basics_1(isize(olds.last()));
                }
            }
            true
        } else {
            let ghost l1 = last;
            last.reset();
            let ghost mid = its@;
            let c2 = group_advance(its);
            let ghost mid2 = its@;
            its.push(last);
            proof {
                let news = final(its)@;
                assert(news =~= mid2.push(last));
                assert(news.drop_last() =~= mid2);
                lemma_at_start_pos(last);
                lemma_shape_trans(last, l1, olds.last());
                lemma_shape_size(last, olds.last());
                lemma_shape_trans_all(news, olds);
                // the carried digit wraps to zero while the prefix advances
                let g = gpos_w(mid, mid.len() as int);
                let s = isize(last);
                assert(gpos_w(news, news.len() as int) == gpos_w(news.drop_last(), news.len() - 1)
                    * s + 0);
                assert(gpos_w(olds, olds.len() as int) == gpos_w(olds.drop_last(), olds.len() - 1)
                    * s + ipos(olds.last()));
                assert(isize(l1) == s && isize(olds.last()) == s) by {
                    lemma_shape_size(l1, olds.last());
                    lemma_shape_sym(last, l1);
                    lemma_shape_size(l1, last);
                }
                assert(ipos(olds.last()) == s - 1);
                assert((g + 1) * s == g * s + s) by {
                    vstd::arithmetic::mul::lemma_mul_is_distributive_add_other_way(s, g, 1);
                }
            }
            c2
        }
    }
}

/// Shape agreement for a reassembled list whose prefix kept its shapes and
/// whose last element was advanced and reset.
proof fn lemma_shape_trans_all(news: Seq<PatternIter>, olds: Seq<PatternIter>)
    requires
        news.len() == olds.len(),
        news.len() >= 1,
        forall|i: int|
            0 <= i < news.len() - 1 ==> same_shape(#[trigger] news[i], olds.drop_last()[i]),
        same_shape(news.last(), olds.last()),
    ensures
        forall|i: int| 0 <= i < news.len() ==> same_shape(#[trigger] news[i], olds[i]),
{
    assert forall|i: int| 0 <= i < news.len() implies same_shape(#[trigger] news[i], olds[i]) by {
        if i < news.len() - 1 {
            assert(olds.drop_last()[i] == olds[i]);
        }
    }
}

/// Advances the rightmost cursor of a repetition window, carrying
/// leftward; on carrying out of the window every slot, the leftmost
/// included, returns to its start.
#[verifier::rlimit(100)]
fn window_advance(its: &mut Vec<PatternIter>, w: usize) -> (carry: bool)
    requires
        1 <= w <= old(its)@.len(),
        forall|i: int| 0 <= i < old(its)@.len() ==> iwf(#[trigger] old(its)@[i]),
        forall|i: int|
            old(its)@.len() - w <= i < old(its)@.len() ==> ipos(#[trigger] old(its)@[i]) < isize(
                old(its)@[i],
            ),
    ensures
        final(its)@.len() == old(its)@.len(),
        forall|i: int|
            0 <= i < final(its)@.len() ==> same_shape(#[trigger] final(its)@[i], old(its)@[i]),
        forall|i: int| 0 <= i < final(its)@.len() ==> iwf(#[trigger] final(its)@[i]),
        forall|i: int| 0 <= i < final(its)@.len() - w ==> final(its)@[i] == old(its)@[i],
        !carry ==> {
            &&& forall|i: int|
                final(its)@.len() - w <= i < final(its)@.len() ==> ipos(#[trigger] final(its)@[i])
                    < isize(final(its)@[i])
            &&& gpos_w(final(its)@, w as int) == gpos_w(old(its)@, w as int) + 1
        },
        carry ==> {
            &&& forall|i: int|
                final(its)@.len() - w <= i < final(its)@.len() ==> at_start(#[trigger] final(its)@[i])
            &&& gpos_w(old(its)@, w as int) == gsize_w(old(its)@, w as int) - 1
            &&& gpos_w(final(its)@, w as int) == 0
        },
    decreases old(its)@, 0int,
{
    let ghost olds = old(its)@;
    let mut last = match its.pop() {
        Some(l) => l,
        None => {
            proof {
                assert(false);
            }
            return false;
        },
    };
    proof {
        assert(last == olds.last());
        assert(its@ =~= olds.drop_last());
        lemma_pos_bounds(last);
        lemma_isize_pos(last);
    }
    last.move_next();
    proof {
        lemma_pos_bounds(last);
        lemma_isize_pos(last);
    }
    let still = last.has_next();
    if still {
        its.push(last);
        proof {
            assert(final(its)@ =~= olds.drop_last().push(last));
            assert(final(its)@.drop_last() =~= olds.drop_last());
            lemma_shape_size(last, olds.last());
            assert forall|i: int| 0 <= i < final(its)@.len() implies same_shape(
                #[trigger] final(its)@[i],
                olds[i],
            ) by {
                if i < olds.len() - 1 {
                    lemma_shape_refl(olds[i]);
                }
            }
            assert(gpos_w(final(its)@, w as int) == gpos_w(olds.drop_last(), w as int - 1) * isize(
                last,
            ) + ipos(last));
        }
        false
    } else {
        proof {
            assert(ipos(last) == isize(last));
        }
        let ghost l1 = last;
        last.reset();
        proof {
            lemma_at_start_pos(last);
            lemma_shape_trans(last, l1, olds.last());
            lemma_shape_size(last, olds.last());
            assert(isize(l1) == isize(last)) by {
                lemma_shape_sym(last, l1);
                lemma_shape_size(l1, last);
            }
        }
        if w == 1 {
            its.push(last);
            proof {
                assert(final(its)@ =~= olds.drop_last().push(last));
                assert(final(its)@.drop_last() =~= olds.drop_last());
                assert forall|i: int| 0 <= i < final(its)@.len() implies same_shape(
                    #[trigger] final(its)@[i],
                    olds[i],
                ) by {
                    if i < olds.len() - 1 {
                        lemma_shape_refl(olds[i]);
                    }
                }
                assert(gpos_w(olds, 1) == gpos_w(olds.drop_last(), 0) * isize(olds.last()) + ipos(
                    olds.last(),
                ));
                assert(gsize_w(olds, 1) == gsize_w(olds.drop_last(), 0) * isize(olds.last()));
                assert(gpos_w(olds.drop_last(), 0) == 0);
                assert(gsize_w(olds.drop_last(), 0) == 1);
                assert(0 * isize(olds.last()) == 0) by {
                    vstd::arithmetic::mul::lemma_mul_basics_1(isize(olds.last()));
                }
                assert(gpos_w(final(its)@, 1) == gpos_w(final(its)@.drop_last(), 0) * isize(last)
                    + ipos(last));
                assert(gpos_w(final(its)@.drop_last(), 0) == 0);
                assert(0 * isize(last) == 0) by {
                    vstd::arithmetic::mul::lemma_mul_basics_1(isize(last));
                }
            }
            true
        } else {
            let ghost mid_in = its@;
            let c2 = window_advance(its, w - 1);
            let ghost mid_out = its@;
            its.push(last);
            proof {
                let news = final(its)@;
                assert(news =~= mid_out.push(last));
                assert(news.drop_last() =~= mid_out);
                lemma_shape_trans_all(news, olds);
                let s = isize(last);
                let g = gpos_w(mid_in, w as int - 1);
                assert(mid_in =~= olds.drop_last());
                assert(isize(olds.last()) == s);
                assert(ipos(olds.last()) == s - 1) by {
                    assert(ipos(l1) == ipos(olds.last()) + 1);
                    assert(ipos(l1) == isize(l1));
                }
                assert(gpos_w(olds, w as int) == g * s + (s - 1));
                assert(gpos_w(news, w as int) == gpos_w(mid_out, w as int - 1) * s + 0);
                assert(gsize_w(olds, w as int) == gsize_w(olds.drop_last(), w as int - 1) * s);
                if c2 {
                    assert(gpos_w(mid_out, w as int - 1) == 0);
                    assert((gsize_w(mid_in, w as int - 1) - 1) * s + (s - 1) == gsize_w(
                        mid_in,
                        w as int - 1,
                    ) * s - 1) by {
                        vstd::arithmetic::mul::lemma_mul_is_distributive_sub_other_way(
                            s,
                            gsize_w(mid_in, w as int - 1),
                            1,
                        );
                    }
                } else {
                    assert((g + 1) * s == g * s + s) by {
                        vstd::arithmetic::mul::lemma_mul_is_distributive_add_other_way(s, g, 1);
                    }
                }
            }
            c2
        }
    }
}

/// The cursor walks exactly this pattern: each cursor node ranges over
/// the corresponding pattern node.
pub open spec fn mirrors(it: PatternIter, p: Pattern) -> bool
    decreases p, 0int,
{
    match (it, p) {
        (PatternIter::Range(b), Pattern::Range { range, .. }) => b.range() == range && b.wf(),
        (PatternIter::MRange(m), Pattern::MRange { range, .. }) => m.ranges() == range.rseq()
            && m.wf(),
        (PatternIter::Group(its), Pattern::Group { patterns, .. }) => its@.len()
            == patterns@.len() && forall|i: int|
            0 <= i < its@.len() ==> mirrors(#[trigger] its@[i], patterns@[i]),
        (
            PatternIter::Length { iters, active: _, min },
            Pattern::Length { pattern, min: pmin, max, .. },
        ) => min == pmin as u64 && iters@.len() == max as int && forall|i: int|
            0 <= i < iters@.len() ==> mirrors(#[trigger] iters@[i], *pattern),
        _ => false,
    }
}

/// A mirroring cursor walks a space of exactly the pattern's cardinality.
pub proof fn lemma_mirrors_size(it: PatternIter, p: Pattern)
    requires
        pat_wf(p),
        mirrors(it, p),
    ensures
        isize(it) == pat_size(p),
    decreases p, 1int,
{
    match (it, p) {
        (PatternIter::Range(b), Pattern::Range { range, .. }) => {},
        (PatternIter::MRange(m), Pattern::MRange { range, .. }) => {},
        (PatternIter::Group(its), Pattern::Group { patterns, .. }) => {
            lemma_mirrors_gsize(its@, patterns@);
            assert(isize(it) == gsize_w(its@, its@.len() as int));
        },
        (
            PatternIter::Length { iters, active: _, min },
            Pattern::Length { pattern, min: pmin, max, .. },
        ) => {
            if iters@.len() > 0 {
                lemma_mirrors_size(iters@[0], *pattern);
            } else {
                lemma_rep_one_width(slot_size(iters@), pat_size(*pattern), pmin as int);
            }
        },
        _ => {},
    }
}

/// A repetition of width zero holds one string whatever the inner size.
proof fn lemma_rep_one_width(a: int, b: int, min: int)
    requires
        min == 0,
    ensures
        rep_size(a, min, 0) == rep_size(b, min, 0),
{
    assert(rep_size(a, 0, 0) == pow(a, 0nat) + rep_size(a, 1, 0));
    assert(rep_size(b, 0, 0) == pow(b, 0nat) + rep_size(b, 1, 0));
    vstd::arithmetic::power::lemma_pow0(a);
    vstd::arithmetic::power::lemma_pow0(b);
}

proof fn lemma_mirrors_gsize(its: Seq<PatternIter>, ps: Seq<Pattern>)
    requires
        its.len() == ps.len(),
        forall|i: int| 0 <= i < ps.len() ==> pat_wf(#[trigger] ps[i]),
        forall|i: int| 0 <= i < its.len() ==> mirrors(#[trigger] its[i], ps[i]),
    ensures
        gsize_w(its, its.len() as int) == group_size(ps),
    decreases ps, 2int,
{
    if its.len() > 0 {
        assert forall|i: int| 0 <= i < its.drop_last().len() implies mirrors(
            #[trigger] its.drop_last()[i],
            ps.drop_last()[i],
        ) by {
            assert(its.drop_last()[i] == its[i]);
            assert(ps.drop_last()[i] == ps[i]);
        }
        assert(forall|i: int| 0 <= i < ps.drop_last().len() ==> pat_wf(#[trigger] ps.drop_last()[i]));
        lemma_mirrors_gsize(its.drop_last(), ps.drop_last());
        lemma_mirrors_size(its.last(), ps.last());
    }
}

/// A mirroring cursor's strings are the pattern's strings, ordinal by
/// ordinal.
pub proof fn lemma_mirrors_at(it: PatternIter, p: Pattern, k: int)
    requires
        pat_wf(p),
        mirrors(it, p),
    ensures
        iat(it, k) == pat_at(p, k),
    decreases p, 3int,
{
    match (it, p) {
        (PatternIter::Range(b), Pattern::Range { range, .. }) => {},
        (PatternIter::MRange(m), Pattern::MRange { range, .. }) => {},
        (PatternIter::Group(its), Pattern::Group { patterns, .. }) => {
            lemma_mirrors_giat(its@, patterns@, k);
        },
        (
            PatternIter::Length { iters, active: _, min },
            Pattern::Length { pattern, min: pmin, max, .. },
        ) => {
            if iters@.len() > 0 {
                lemma_mirrors_size(iters@[0], *pattern);
                let sz = pat_size(*pattern);
                let n = rep_width_at(sz, pmin as int, max as int, k);
                let j = k - rep_size(sz, pmin as int, n - 1);
                lemma_mirrors_riat(iters@[0], *pattern, n, j);
            } else {
                assert(max == 0 && pmin == 0);
                assert(rep_width_at(slot_size(iters@), 0, 0, k) == 0);
                assert(rep_width_at(pat_size(*pattern), 0, 0, k) == 0);
                assert(rep_at(*pattern, 0, k - rep_size(pat_size(*pattern), 0, -1))
                    == Seq::<char>::empty());
            }
        },
        _ => {},
    }
}

proof fn lemma_mirrors_giat(its: Seq<PatternIter>, ps: Seq<Pattern>, k: int)
    requires
        its.len() == ps.len(),
        forall|i: int| 0 <= i < ps.len() ==> pat_wf(#[trigger] ps[i]),
        forall|i: int| 0 <= i < its.len() ==> mirrors(#[trigger] its[i], ps[i]),
    ensures
        giat(its, k) == group_at(ps, k),
    decreases ps, 4int,
{
    if its.len() > 0 {
        assert forall|i: int| 0 <= i < its.drop_last().len() implies mirrors(
            #[trigger] its.drop_last()[i],
            ps.drop_last()[i],
        ) by {
            assert(its.drop_last()[i] == its[i]);
            assert(ps.drop_last()[i] == ps[i]);
        }
        assert(forall|i: int| 0 <= i < ps.drop_last().len() ==> pat_wf(#[trigger] ps.drop_last()[i]));
        lemma_mirrors_size(its.last(), ps.last());
        lemma_mirrors_giat(its.drop_last(), ps.drop_last(), k / pat_size(ps.last()));
        lemma_mirrors_at(its.last(), ps.last(), k % pat_size(ps.last()));
    }
}

proof fn lemma_mirrors_riat(it: PatternIter, p: Pattern, n: int, j: int)
    requires
        pat_wf(p),
        mirrors(it, p),
    ensures
        riat(it, n, j) == rep_at(p, n, j),
    decreases p, 4int, n,
{
    if n > 0 {
        lemma_mirrors_size(it, p);
        lemma_mirrors_riat(it, p, n - 1, j / pat_size(p));
        lemma_mirrors_at(it, p, j % pat_size(p));
    }
}

/// Two cursors over the same pattern have the same shape.
pub proof fn lemma_mirrors_shape(a: PatternIter, b: PatternIter, p: Pattern)
    requires
        mirrors(a, p),
        mirrors(b, p),
    ensures
        same_shape(a, b),
    decreases p,
{
    match (a, b, p) {
        (PatternIter::MRange(x), PatternIter::MRange(y), _) => {
            assert(x.ranges().len() == x.iters@.len());
            assert(y.ranges().len() == y.iters@.len());
        },
        (PatternIter::Group(xs), PatternIter::Group(ys), Pattern::Group { patterns, .. }) => {
            assert forall|i: int| 0 <= i < xs@.len() implies same_shape(
                #[trigger] xs@[i],
                ys@[i],
            ) by {
                lemma_mirrors_shape(xs@[i], ys@[i], patterns@[i]);
            }
        },
        (
            PatternIter::Length { iters: xs, .. },
            PatternIter::Length { iters: ys, .. },
            Pattern::Length { pattern, .. },
        ) => {
            assert forall|i: int| 0 <= i < xs@.len() implies same_shape(
                #[trigger] xs@[i],
                ys@[i],
            ) by {
                lemma_mirrors_shape(xs@[i], ys@[i], *pattern);
            }
        },
        _ => {},
    }
}

impl Pattern {
    /// A fresh sequential cursor over this pattern's strings, resting on
    /// the first one.
    pub fn iter(&self) -> (it: PatternIter)
        requires
            pat_wf(*self),
        ensures
            iwf(it),
            at_start(it),
            ipos(it) == 0,
            mirrors(it, *self),
        decreases *self,
    {
        let it = match self {
            Pattern::Range { range, .. } => PatternIter::Range(range.iter()),
            Pattern::MRange { range, .. } => PatternIter::MRange(range.iter()),
            Pattern::Group { patterns, .. } => {
                let mut its: Vec<PatternIter> = Vec::new();
                let mut i: usize = 0;
                while i < patterns.len()
                    invariant
                        i <= patterns@.len(),
                        pat_wf(*self),
                        self matches Pattern::Group { patterns: q, .. } && q@ == patterns@,
                        its@.len() == i,
                        forall|j: int| 0 <= j < i ==> iwf(#[trigger] its@[j]),
                        forall|j: int| 0 <= j < i ==> at_start(#[trigger] its@[j]),
                        forall|j: int| 0 <= j < i ==> mirrors(#[trigger] its@[j], patterns@[j]),
                    decreases patterns@.len() - i,
                {
                    its.push(patterns[i].iter());
                    i += 1;
                }
                PatternIter::Group(its)
            },
            Pattern::Length { pattern, min, max, .. } => {
                let mut its: Vec<PatternIter> = Vec::new();
                let mut i: u32 = 0;
                while i < *max
                    invariant
                        i <= *max,
                        self matches Pattern::Length { pattern: bx, min: _, max: _, size: _, indexes: _ } && bx == pattern,
                        pat_wf(**pattern),
                        its@.len() == i,
                        forall|j: int| 0 <= j < i ==> iwf(#[trigger] its@[j]),
                        forall|j: int| 0 <= j < i ==> at_start(#[trigger] its@[j]),
                        forall|j: int| 0 <= j < i ==> mirrors(#[trigger] its@[j], **pattern),
                    decreases *max - i,
                {
                    proof {
                        assert(decreases_to!(*self => **pattern));
                    }
                    its.push(pattern.iter());
                    i += 1;
                }
                PatternIter::Length { iters: its, active: *min as u64, min: *min as u64 }
            },
        };
        proof {
            assert(at_start(it));
            lemma_iter_fresh(it, *self);
            lemma_at_start_pos(it);
        }
        it
    }
}

/// A freshly built mirroring cursor at its start is consistent.
proof fn lemma_iter_fresh(it: PatternIter, p: Pattern)
    requires
        pat_wf(p),
        mirrors(it, p),
        at_start(it),
    ensures
        iwf(it),
    decreases p,
{
    match (it, p) {
        (PatternIter::Range(b), Pattern::Range { range, .. }) => {},
        (PatternIter::MRange(m), Pattern::MRange { range, .. }) => {},
        (PatternIter::Group(its), Pattern::Group { patterns, .. }) => {
            assert forall|i: int| 0 <= i < its@.len() implies iwf(#[trigger] its@[i]) by {
                lemma_iter_fresh(its@[i], patterns@[i]);
            }
            assert forall|i: int| 0 <= i < its@.len() implies ipos(#[trigger] its@[i]) < isize(
                its@[i],
            ) by {
                lemma_at_start_pos(its@[i]);
                lemma_isize_pos(its@[i]);
            }
        },
        (
            PatternIter::Length { iters, active, min },
            Pattern::Length { pattern, min: pmin, max, .. },
        ) => {
            assert forall|i: int| 0 <= i < iters@.len() implies iwf(#[trigger] iters@[i]) by {
                lemma_iter_fresh(iters@[i], *pattern);
            }
            assert forall|i: int| 0 <= i < iters@.len() implies ipos(#[trigger] iters@[i]) < isize(
                iters@[i],
            ) by {
                lemma_at_start_pos(iters@[i]);
                lemma_isize_pos(iters@[i]);
            }
            assert forall|i: int| 0 <= i < iters@.len() implies same_shape(
                #[trigger] iters@[i],
                iters@[0],
            ) by {
                lemma_mirrors_shape(iters@[i], iters@[0], *pattern);
            }
        },
        _ => {},
    }
}

/// Stepping a cursor never changes which pattern it walks: a consistent
/// cursor of the same shape as one that mirrors a pattern mirrors it too.
pub proof fn lemma_mirrors_preserved(a: PatternIter, b: PatternIter, p: Pattern)
    requires
        iwf(a),
        same_shape(a, b),
        mirrors(b, p),
    ensures
        mirrors(a, p),
    decreases p,
{
    match (a, b, p) {
        (PatternIter::Group(xs), PatternIter::Group(ys), Pattern::Group { patterns, .. }) => {
            assert forall|i: int| 0 <= i < xs@.len() implies mirrors(
                #[trigger] xs@[i],
                patterns@[i],
            ) by {
                lemma_mirrors_preserved(xs@[i], ys@[i], patterns@[i]);
            }
        },
        (
            PatternIter::Length { iters: xs, .. },
            PatternIter::Length { iters: ys, .. },
            Pattern::Length { pattern, .. },
        ) => {
            assert forall|i: int| 0 <= i < xs@.len() implies mirrors(
                #[trigger] xs@[i],
                *pattern,
            ) by {
                lemma_mirrors_preserved(xs@[i], ys@[i], *pattern);
            }
        },
        _ => {},
    }
}

/// Sequential enumeration and random access agree everywhere: a cursor
/// that mirrors a pattern walks a space of exactly the pattern's
/// cardinality, and at every step the string it rests on is the string at
/// its ordinal.  Exhausting the cursor therefore produces each of the
/// pattern's strings exactly once, in ordinal order.
pub proof fn lemma_sequential_matches_random_access(it: PatternIter, p: Pattern)
    requires
        pat_wf(p),
        mirrors(it, p),
        iwf(it),
    ensures
        isize(it) == pat_size(p),
        ipos(it) < pat_size(p) ==> ipeek(it) == pat_at(p, ipos(it)),
{
    lemma_mirrors_size(it, p);
    if ipos(it) < pat_size(p) {
        lemma_peek_at(it);
        lemma_mirrors_at(it, p, ipos(it));
    }
}

/// A reset cursor replays the original sequence exactly: two consistent
/// cursors of one shape walk the same space, string for string, so after
/// `reset` (which keeps the shape and returns the position to zero) a full
/// iteration yields what the first one yielded.
pub proof fn lemma_reset_replays(a: PatternIter, b: PatternIter, k: int)
    requires
        iwf(a),
        iwf(b),
        same_shape(a, b),
    ensures
        isize(a) == isize(b),
        iat(a, k) == iat(b, k),
{
    lemma_shape_size(a, b);
    lemma_shape_iat(a, b, k);
}

} // verus!
