//! A normalized collection of character ranges: sorted by start, pairwise
//! non-overlapping and non-adjacent, with a prefix-sum index for random
//! access by ordinal.

use crate::ops::bruterange::{BruteRange, BruteRangeIter};
use crate::trusted::ne_seq;
use nonempty::NonEmpty;
use vstd::prelude::*;
use vstd::seq_lib::*;

verus! {

/// Whether a single range covers the code point `v`.
pub open spec fn rcovers(r: BruteRange, v: int) -> bool {
    r.start as int <= v <= r.end as int
}

/// Whether some range of the list covers the code point `v`.
pub open spec fn covers(rs: Seq<BruteRange>, v: int) -> bool {
    exists|i: int| 0 <= i < rs.len() && rcovers(#[trigger] rs[i], v)
}

/// Every range of the list is well formed.
pub open spec fn all_wf(rs: Seq<BruteRange>) -> bool {
    forall|i: int| 0 <= i < rs.len() ==> (#[trigger] rs[i]).wf()
}

/// The ranges are ordered by start.
pub open spec fn sorted_starts(rs: Seq<BruteRange>) -> bool {
    forall|i: int, j: int|
        0 <= i < j < rs.len() ==> (#[trigger] rs[i]).start as int <= (#[trigger] rs[j]).start as int
}

/// The ranges are well formed, sorted, and pairwise separated by at least
/// one uncovered code point.
pub open spec fn normalized(rs: Seq<BruteRange>) -> bool {
    &&& all_wf(rs)
    &&& forall|i: int|
        0 <= i < rs.len() - 1 ==> (#[trigger] rs[i]).end as int + 1 < rs[i + 1].start as int
}

/// The scalar values of all ranges of the list, in list order.
pub open spec fn mchar_seq(rs: Seq<BruteRange>) -> Seq<char>
    decreases rs.len(),
{
    if rs.len() == 0 {
        Seq::empty()
    } else {
        rs[0].char_seq() + mchar_seq(rs.drop_first())
    }
}

/// The number of scalar values of all ranges of the list.
pub open spec fn total_len(rs: Seq<BruteRange>) -> int
    decreases rs.len(),
{
    if rs.len() == 0 {
        0
    } else {
        rs[0].spec_len() + total_len(rs.drop_first())
    }
}

/// The number of scalar values of the first `i` ranges.
pub open spec fn prefix_len(rs: Seq<BruteRange>, i: int) -> int {
    total_len(rs.subrange(0, i))
}

proof fn lemma_all_wf_tail(rs: Seq<BruteRange>)
    requires
        all_wf(rs),
        rs.len() > 0,
    ensures
        all_wf(rs.drop_first()),
{
    assert forall|i: int| 0 <= i < rs.drop_first().len() implies (
    #[trigger] rs.drop_first()[i]).wf() by {
        assert(rs.drop_first()[i] == rs[i + 1]);
    }
}

pub proof fn lemma_total_len_push(rs: Seq<BruteRange>, x: BruteRange)
    ensures
        total_len(rs.push(x)) == total_len(rs) + x.spec_len(),
        mchar_seq(rs.push(x)) == mchar_seq(rs) + x.char_seq(),
    decreases rs.len(),
{
    if rs.len() == 0 {
        assert(rs.push(x)[0] == x);
        assert(rs.push(x).drop_first() =~= Seq::<BruteRange>::empty());
        assert(total_len(Seq::<BruteRange>::empty()) == 0);
        assert(mchar_seq(Seq::<BruteRange>::empty()) == Seq::<char>::empty());
        assert(mchar_seq(rs.push(x)) == x.char_seq() + Seq::<char>::empty());
        assert(mchar_seq(rs.push(x)) =~= mchar_seq(rs) + x.char_seq());
    } else {
        assert(rs.push(x)[0] == rs[0]);
        assert(rs.push(x).drop_first() =~= rs.drop_first().push(x));
        lemma_total_len_push(rs.drop_first(), x);
        assert(mchar_seq(rs.push(x)) == rs[0].char_seq() + (mchar_seq(rs.drop_first())
            + x.char_seq()));
        assert(mchar_seq(rs.push(x)) =~= mchar_seq(rs) + x.char_seq());
    }
}

proof fn lemma_prefix_len_step(rs: Seq<BruteRange>, i: int)
    requires
        0 <= i < rs.len(),
    ensures
        prefix_len(rs, i + 1) == prefix_len(rs, i) + rs[i].spec_len(),
{
    assert(rs.subrange(0, i + 1) =~= rs.subrange(0, i).push(rs[i]));
    lemma_total_len_push(rs.subrange(0, i), rs[i]);
}

proof fn lemma_prefix_len_full(rs: Seq<BruteRange>)
    ensures
        prefix_len(rs, rs.len() as int) == total_len(rs),
{
    assert(rs.subrange(0, rs.len() as int) =~= rs);
}

/// In a normalized list the ordinals of the first `i` ranges stay below
/// the code point just past range `i - 1`.
proof fn lemma_prefix_len_bound(rs: Seq<BruteRange>, i: int)
    requires
        normalized(rs),
        0 <= i <= rs.len(),
    ensures
        i == 0 ==> prefix_len(rs, i) == 0,
        i > 0 ==> 0 < prefix_len(rs, i) <= rs[i - 1].end as int + 1,
    decreases i,
{
    if i == 0 {
        assert(rs.subrange(0, 0) =~= Seq::<BruteRange>::empty());
    } else {
        lemma_prefix_len_bound(rs, i - 1);
        lemma_prefix_len_step(rs, i - 1);
    }
}

/// Indexing into the concatenated scalar values: ordinal
/// `prefix_len(rs, i) + j` falls in range `i`.
proof fn lemma_mchar_seq_index(rs: Seq<BruteRange>, i: int, j: int)
    requires
        all_wf(rs),
        0 <= i < rs.len(),
        0 <= j < rs[i].spec_len(),
    ensures
        mchar_seq(rs).len() == total_len(rs),
        0 <= prefix_len(rs, i) + j < total_len(rs),
        mchar_seq(rs)[prefix_len(rs, i) + j] == rs[i].char_seq()[j],
    decreases rs.len(),
{
    lemma_mchar_seq_len(rs);
    lemma_all_wf_tail(rs);
    if i == 0 {
        assert(rs.subrange(0, 0) =~= Seq::<BruteRange>::empty());
        lemma_total_len_nonneg(rs.drop_first());
        lemma_mchar_seq_len(rs.drop_first());
    } else {
        let tl = rs.drop_first();
        lemma_mchar_seq_index(tl, i - 1, j);
        assert(tl.subrange(0, i - 1) =~= rs.subrange(1, i));
        assert(rs.subrange(0, i) =~= seq![rs[0]] + rs.subrange(1, i));
        lemma_total_len_head(rs, i);
        assert(rs[0].spec_len() >= 1);
        assert(mchar_seq(rs)[prefix_len(rs, i) + j] == mchar_seq(tl)[prefix_len(tl, i - 1) + j]);
    }
}

proof fn lemma_total_len_head(rs: Seq<BruteRange>, i: int)
    requires
        1 <= i <= rs.len(),
    ensures
        prefix_len(rs, i) == rs[0].spec_len() + prefix_len(rs.drop_first(), i - 1),
    decreases i,
{
    if i == 1 {
        assert(rs.subrange(0, 1) =~= seq![rs[0]]);
        assert(seq![rs[0]].drop_first() =~= Seq::<BruteRange>::empty());
        assert(rs.drop_first().subrange(0, 0) =~= Seq::<BruteRange>::empty());
    } else {
        lemma_total_len_head(rs, i - 1);
        lemma_prefix_len_step(rs, i - 1);
        lemma_prefix_len_step(rs.drop_first(), i - 2);
    }
}

proof fn lemma_total_len_nonneg(rs: Seq<BruteRange>)
    requires
        all_wf(rs),
    ensures
        total_len(rs) >= 0,
    decreases rs.len(),
{
    if rs.len() > 0 {
        lemma_all_wf_tail(rs);
        lemma_total_len_nonneg(rs.drop_first());
    }
}

pub proof fn lemma_mchar_seq_len(rs: Seq<BruteRange>)
    requires
        all_wf(rs),
    ensures
        mchar_seq(rs).len() == total_len(rs),
    decreases rs.len(),
{
    if rs.len() > 0 {
        lemma_all_wf_tail(rs);
        lemma_mchar_seq_len(rs.drop_first());
        assert(rs[0].spec_len() >= 1);
    }
}

/// Appending a range to a list extends the covered set by exactly that
/// range's interval.
pub proof fn lemma_covers_push(rs: Seq<BruteRange>, x: BruteRange, v: int)
    ensures
        covers(rs.push(x), v) == (covers(rs, v) || rcovers(x, v)),
{
    let rs2 = rs.push(x);
    if covers(rs, v) {
        let i = choose|i: int| 0 <= i < rs.len() && rcovers(rs[i], v);
        assert(rcovers(rs2[i], v));
    }
    if rcovers(x, v) {
        assert(rcovers(rs2[rs.len() as int], v));
    }
    if covers(rs2, v) {
        let i = choose|i: int| 0 <= i < rs2.len() && rcovers(rs2[i], v);
        if i < rs.len() {
            assert(rcovers(rs[i], v));
        }
    }
}

/// Inserting a range into a list extends the covered set by exactly that
/// range's interval.
proof fn lemma_covers_insert(rs: Seq<BruteRange>, pos: int, x: BruteRange, v: int)
    requires
        0 <= pos <= rs.len(),
    ensures
        covers(rs.insert(pos, x), v) == (covers(rs, v) || rcovers(x, v)),
{
    let rs2 = rs.insert(pos, x);
    rs.insert_ensures(pos, x);
    if covers(rs, v) {
        let i = choose|i: int| 0 <= i < rs.len() && rcovers(rs[i], v);
        if i < pos {
            assert(rcovers(rs2[i], v));
        } else {
            assert(rcovers(rs2[i + 1], v));
        }
    }
    if rcovers(x, v) {
        assert(rcovers(rs2[pos], v));
    }
    if covers(rs2, v) {
        let i = choose|i: int| 0 <= i < rs2.len() && rcovers(rs2[i], v);
        if i < pos {
            assert(rcovers(rs[i], v));
        } else if i > pos {
            assert(rcovers(rs[i - 1], v));
        }
    }
}

/// Sorts the ranges by start, preserving the covered set.
fn sort_by_start(v: Vec<BruteRange>) -> (r: Vec<BruteRange>)
    requires
        all_wf(v@),
    ensures
        all_wf(r@),
        sorted_starts(r@),
        r@.len() == v@.len(),
        forall|p: int| covers(r@, p) == covers(v@, p),
{
    let mut out: Vec<BruteRange> = Vec::new();
    let mut i: usize = 0;
    while i < v.len()
        invariant
            i <= v.len(),
            all_wf(v@),
            all_wf(out@),
            sorted_starts(out@),
            out@.len() == i,
            forall|p: int| covers(out@, p) == covers(v@.subrange(0, i as int), p),
        decreases v.len() - i,
    {
        let x = v[i];
        let mut pos: usize = out.len();
        while pos > 0 && (out[pos - 1].start as u32) > (x.start as u32)
            invariant
                pos <= out.len(),
                all_wf(out@),
                sorted_starts(out@),
                forall|j: int|
                    pos <= j < out@.len() ==> (#[trigger] out@[j]).start as int > x.start as int,
            decreases pos,
        {
            pos -= 1;
        }
        let ghost old_out = out@;
        out.insert(pos, x);
        proof {
            old_out.insert_ensures(pos as int, x);
            assert forall|p: int| covers(out@, p) == covers(
                v@.subrange(0, i as int + 1),
                p,
            ) by {
                lemma_covers_insert(old_out, pos as int, x, p);
                assert(v@.subrange(0, i as int + 1) =~= v@.subrange(0, i as int).push(v@[i as int]));
                lemma_covers_push(v@.subrange(0, i as int), v@[i as int], p);
            }
            assert forall|a: int, b: int| 0 <= a < b < out@.len() implies (
            #[trigger] out@[a]).start as int <= (#[trigger] out@[b]).start as int by {
                if b < pos {
                } else if a < pos && b == pos {
                } else if a == pos {
                    assert(out@[b] == old_out[b - 1]);
                } else if a < pos {
                    assert(out@[b] == old_out[b - 1]);
                } else {
                    assert(out@[a] == old_out[a - 1]);
                    assert(out@[b] == old_out[b - 1]);
                }
            }
        }
        i += 1;
    }
    proof {
        assert(v@.subrange(0, v@.len() as int) =~= v@);
    }
    out
}

/// Merges a sorted range list left to right: a range is folded into the
/// current run when it overlaps it or touches it, else the run is flushed.
fn merge_sorted(sorted: Vec<BruteRange>) -> (r: Vec<BruteRange>)
    requires
        all_wf(sorted@),
        sorted_starts(sorted@),
        sorted@.len() >= 1,
    ensures
        normalized(r@),
        r@.len() >= 1,
        forall|p: int| covers(r@, p) == covers(sorted@, p),
{
    let mut out: Vec<BruteRange> = Vec::new();
    let mut cur: BruteRange = sorted[0];
    let mut i: usize = 1;
    proof {
        assert(sorted@.subrange(0, 1) =~= Seq::<BruteRange>::empty().push(sorted@[0]));
        assert(out@.push(cur) == Seq::<BruteRange>::empty().push(sorted@[0]));
    }
    while i < sorted.len()
        invariant
            1 <= i <= sorted@.len(),
            all_wf(sorted@),
            sorted_starts(sorted@),
            cur.wf(),
            normalized(out@),
            forall|j: int|
                0 <= j < out@.len() ==> (#[trigger] out@[j]).end as int + 1 < cur.start as int,
            forall|j: int|
                i <= j < sorted@.len() ==> cur.start as int <= (#[trigger] sorted@[j]).start as int,
            forall|p: int|
                covers(out@.push(cur), p) == covers(sorted@.subrange(0, i as int), p),
        decreases sorted@.len() - i,
    {
        let nxt = sorted[i];
        let ghost old_out = out@;
        let ghost old_cur = cur;
        if (nxt.start as u32) <= (cur.end as u32) + 1 {
            if (nxt.end as u32) > (cur.end as u32) {
                cur = BruteRange { start: cur.start, end: nxt.end };
            }
            proof {
                assert forall|p: int| covers(out@.push(cur), p) == covers(
                    sorted@.subrange(0, i as int + 1),
                    p,
                ) by {
                    lemma_covers_push(out@, cur, p);
                    lemma_covers_push(old_out, old_cur, p);
                    assert(sorted@.subrange(0, i as int + 1) =~= sorted@.subrange(
                        0,
                        i as int,
                    ).push(sorted@[i as int]));
                    lemma_covers_push(sorted@.subrange(0, i as int), sorted@[i as int], p);
                    assert(rcovers(cur, p) == (rcovers(old_cur, p) || rcovers(nxt, p)));
                }
            }
        } else {
            out.push(cur);
            cur = nxt;
            proof {
                assert forall|p: int| covers(out@.push(cur), p) == covers(
                    sorted@.subrange(0, i as int + 1),
                    p,
                ) by {
                    lemma_covers_push(out@, cur, p);
                    lemma_covers_push(old_out, old_cur, p);
                    lemma_covers_push(old_out.push(old_cur), cur, p);
                    assert(out@ =~= old_out.push(old_cur));
                    assert(sorted@.subrange(0, i as int + 1) =~= sorted@.subrange(
                        0,
                        i as int,
                    ).push(sorted@[i as int]));
                    lemma_covers_push(sorted@.subrange(0, i as int), sorted@[i as int], p);
                }
            }
        }
        i += 1;
    }
    let ghost old_out = out@;
    out.push(cur);
    proof {
        assert(sorted@.subrange(0, sorted@.len() as int) =~= sorted@);
        assert(normalized(out@));
    }
    out
}

/// A non-empty normalized list covers at least one character.
pub proof fn lemma_total_len_pos(rs: Seq<BruteRange>)
    requires
        normalized(rs),
        rs.len() >= 1,
    ensures
        total_len(rs) >= 1,
{
    lemma_all_wf_tail(rs);
    lemma_total_len_nonneg(rs.drop_first());
    assert(rs[0].spec_len() >= 1);
}

/// A normalized list covers at most the whole Unicode scalar space.
pub proof fn lemma_total_len_le_space(rs: Seq<BruteRange>)
    requires
        normalized(rs),
    ensures
        total_len(rs) <= 0x110000,
{
    lemma_prefix_len_full(rs);
    lemma_prefix_len_bound(rs, rs.len() as int);
}

/// Every value of a normalized list's character sequence lies between the
/// first range's start and the last range's end.
pub proof fn lemma_mchar_seq_bounds(rs: Seq<BruteRange>)
    requires
        normalized(rs),
        rs.len() > 0,
    ensures
        forall|j: int|
            0 <= j < mchar_seq(rs).len() ==> rs[0].start as int <= (#[trigger] mchar_seq(
                rs,
            )[j]) as int <= rs[rs.len() - 1].end as int,
    decreases rs.len(),
{
    let hd = rs[0];
    let tl = rs.drop_first();
    lemma_normalized_tail(rs);
    if tl.len() > 0 {
        lemma_mchar_seq_bounds(tl);
    }
    assert forall|j: int| 0 <= j < mchar_seq(rs).len() implies hd.start as int <= (
    #[trigger] mchar_seq(rs)[j]) as int <= rs[rs.len() - 1].end as int by {
        if j < hd.char_seq().len() {
            hd.lemma_cp_at_valid(j);
            assert(mchar_seq(rs)[j] == hd.char_seq()[j]);
            if rs.len() > 1 {
                lemma_normalized_order_pair(rs, 0, rs.len() - 1);
                assert(rs[rs.len() - 1].wf());
            }
        } else {
            let j2 = j - hd.char_seq().len();
            assert(mchar_seq(rs)[j] == mchar_seq(tl)[j2]);
            assert(tl[0] == rs[1]);
            assert(tl[tl.len() - 1] == rs[rs.len() - 1]);
            assert(hd.end as int + 1 < rs[1].start as int);
        }
    }
}

/// The character sequence of a normalized list is strictly ascending.
pub proof fn lemma_mchar_seq_sorted(rs: Seq<BruteRange>)
    requires
        normalized(rs),
    ensures
        forall|a: int, b: int|
            0 <= a < b < mchar_seq(rs).len() ==> ((#[trigger] mchar_seq(rs)[a]) as int) < ((
            #[trigger] mchar_seq(rs)[b]) as int),
    decreases rs.len(),
{
    if rs.len() > 0 {
        let hd = rs[0];
        let tl = rs.drop_first();
        lemma_normalized_tail(rs);
        lemma_mchar_seq_sorted(tl);
        if tl.len() > 0 {
            lemma_mchar_seq_bounds(tl);
        }
        assert forall|a: int, b: int| 0 <= a < b < mchar_seq(rs).len() implies ((
        #[trigger] mchar_seq(rs)[a]) as int) < ((#[trigger] mchar_seq(rs)[b]) as int) by {
            let hl = hd.char_seq().len() as int;
            if b < hl {
                hd.lemma_cp_at_increases(a, b);
                hd.lemma_cp_at_valid(a);
                hd.lemma_cp_at_valid(b);
            } else if a < hl {
                hd.lemma_cp_at_valid(a);
                assert(mchar_seq(rs)[a] == hd.char_seq()[a]);
                assert(mchar_seq(rs)[b] == mchar_seq(tl)[b - hl]);
                assert(tl[0] == rs[1]);
                assert(hd.end as int + 1 < rs[1].start as int);
            } else {
                assert(mchar_seq(rs)[a] == mchar_seq(tl)[a - hl]);
                assert(mchar_seq(rs)[b] == mchar_seq(tl)[b - hl]);
            }
        }
    }
}

/// The character sequence of a normalized list holds exactly the covered
/// characters.
pub proof fn lemma_mchar_seq_contains(rs: Seq<BruteRange>, c: char)
    requires
        normalized(rs),
    ensures
        mchar_seq(rs).contains(c) <==> covers(rs, c as int),
    decreases rs.len(),
{
    if rs.len() == 0 {
    } else {
        let hd = rs[0];
        let tl = rs.drop_first();
        lemma_normalized_tail(rs);
        lemma_mchar_seq_contains(tl, c);
        hd.lemma_char_seq_contains(c);
        let hl = hd.char_seq().len() as int;
        assert(mchar_seq(rs) == hd.char_seq() + mchar_seq(tl));
        if mchar_seq(rs).contains(c) {
            let j = choose|j: int| 0 <= j < mchar_seq(rs).len() && mchar_seq(rs)[j] == c;
            if j < hl {
                assert(hd.char_seq()[j] == c);
                assert(rcovers(rs[0], c as int));
            } else {
                assert(mchar_seq(tl)[j - hl] == c);
                assert(mchar_seq(tl).contains(c));
                let i = choose|i: int| 0 <= i < tl.len() && rcovers(tl[i], c as int);
                assert(rcovers(rs[i + 1], c as int));
            }
        }
        if covers(rs, c as int) {
            let i = choose|i: int| 0 <= i < rs.len() && rcovers(rs[i], c as int);
            if i == 0 {
                let j = choose|j: int| 0 <= j < hd.char_seq().len() && hd.char_seq()[j] == c;
                assert(mchar_seq(rs)[j] == c);
            } else {
                assert(rcovers(tl[i - 1], c as int));
                assert(covers(tl, c as int));
                let j = choose|j: int| 0 <= j < mchar_seq(tl).len() && mchar_seq(tl)[j] == c;
                assert(mchar_seq(rs)[j + hl] == c);
            }
        }
    }
}

proof fn lemma_normalized_order_pair(rs: Seq<BruteRange>, i: int, j: int)
    requires
        normalized(rs),
        0 <= i < j < rs.len(),
    ensures
        rs[i].end as int + 1 < rs[j].start as int,
    decreases j - i,
{
    if j == i + 1 {
    } else {
        lemma_normalized_order_pair(rs, i + 1, j);
        assert(rs[i + 1].wf());
    }
}

proof fn lemma_normalized_tail(rs: Seq<BruteRange>)
    requires
        normalized(rs),
        rs.len() > 0,
    ensures
        normalized(rs.drop_first()),
{
    lemma_all_wf_tail(rs);
    assert forall|i: int| 0 <= i < rs.drop_first().len() - 1 implies (
    #[trigger] rs.drop_first()[i]).end as int + 1 < rs.drop_first()[i + 1].start as int by {
        assert(rs.drop_first()[i] == rs[i + 1]);
        assert(rs.drop_first()[i + 1] == rs[i + 2]);
    }
}

/// Two normalized lists covering the same code points are the same list:
/// normalization is a canonical form, so in particular merging is
/// idempotent.
#[verifier::rlimit(60)]
pub proof fn lemma_normalized_covers_unique(a: Seq<BruteRange>, b: Seq<BruteRange>)
    requires
        normalized(a),
        normalized(b),
        forall|v: int| covers(a, v) == covers(b, v),
    ensures
        a == b,
    decreases a.len(),
{
    if a.len() == 0 {
        if b.len() > 0 {
            assert(rcovers(b[0], b[0].start as int));
            assert(covers(b, b[0].start as int));
            assert(false);
        }
        assert(a =~= b);
    } else if b.len() == 0 {
        assert(rcovers(a[0], a[0].start as int));
        assert(covers(a, a[0].start as int));
        assert(false);
    } else {
        // the first ranges start together
        assert(covers(a, a[0].start as int)) by {
            assert(rcovers(a[0], a[0].start as int));
        }
        assert(covers(b, b[0].start as int)) by {
            assert(rcovers(b[0], b[0].start as int));
        }
        assert(b[0].start as int <= a[0].start as int) by {
            let j = choose|j: int| 0 <= j < b.len() && rcovers(b[j], a[0].start as int);
            if j > 0 {
                lemma_normalized_order_pair(b, 0, j);
            }
        }
        assert(a[0].start as int <= b[0].start as int) by {
            let i = choose|i: int| 0 <= i < a.len() && rcovers(a[i], b[0].start as int);
            if i > 0 {
                lemma_normalized_order_pair(a, 0, i);
            }
        }
        // and end together
        assert(a[0].end as int <= b[0].end as int) by {
            if (b[0].end as int) < (a[0].end as int) {
                let v = b[0].end as int + 1;
                assert(rcovers(a[0], v));
                assert(covers(a, v));
                let j = choose|j: int| 0 <= j < b.len() && rcovers(b[j], v);
                if j > 0 {
                    lemma_normalized_order_pair(b, 0, j);
                }
                assert(false);
            }
        }
        assert(b[0].end as int <= a[0].end as int) by {
            if (a[0].end as int) < (b[0].end as int) {
                let v = a[0].end as int + 1;
                assert(rcovers(b[0], v));
                assert(covers(b, v));
                let i = choose|i: int| 0 <= i < a.len() && rcovers(a[i], v);
                if i > 0 {
                    lemma_normalized_order_pair(a, 0, i);
                }
                assert(false);
            }
        }
        assert(a[0] == b[0]);
        // the tails cover the code points above the first range
        lemma_normalized_tail(a);
        lemma_normalized_tail(b);
        assert forall|v: int| covers(a.drop_first(), v) == covers(b.drop_first(), v) by {
            lemma_covers_above_first(a, v);
            lemma_covers_above_first(b, v);
        }
        lemma_normalized_covers_unique(a.drop_first(), b.drop_first());
        assert(a.drop_first() == b.drop_first());
        assert(a.drop_first().len() == b.drop_first().len());
        assert(a.len() == b.len());
        assert forall|i: int| 0 <= i < a.len() implies a[i] == b[i] by {
            if i > 0 {
                assert(a.drop_first()[i - 1] == a[i]);
                assert(b.drop_first()[i - 1] == b[i]);
            }
        }
        assert(a =~= b);
    }
}

/// The normalized form of a range list: the one normalized list covering
/// the same code points.
pub open spec fn spec_merge(rs: Seq<BruteRange>) -> Seq<BruteRange> {
    choose|m: Seq<BruteRange>|
        normalized(m) && forall|v: int| #[trigger] covers(m, v) == covers(rs, v)
}

/// Any normalized list covering the same code points as `rs` is its
/// normalized form.
pub proof fn lemma_spec_merge_is(a: Seq<BruteRange>, rs: Seq<BruteRange>)
    requires
        normalized(a),
        forall|v: int| #[trigger] covers(a, v) == covers(rs, v),
    ensures
        spec_merge(rs) == a,
{
    assert(normalized(a) && forall|v: int| #[trigger] covers(a, v) == covers(rs, v));
    let m = choose|m: Seq<BruteRange>|
        normalized(m) && forall|v: int| #[trigger] covers(m, v) == covers(rs, v);
    lemma_normalized_covers_unique(a, m);
}

proof fn lemma_covers_above_first(a: Seq<BruteRange>, v: int)
    requires
        normalized(a),
        a.len() > 0,
    ensures
        covers(a.drop_first(), v) == (covers(a, v) && v > a[0].end as int),
{
    let tl = a.drop_first();
    if covers(tl, v) {
        let i = choose|i: int| 0 <= i < tl.len() && rcovers(tl[i], v);
        assert(tl[i] == a[i + 1]);
        lemma_normalized_order_pair(a, 0, i + 1);
        assert(covers(a, v));
    }
    if covers(a, v) && v > a[0].end as int {
        let i = choose|i: int| 0 <= i < a.len() && rcovers(a[i], v);
        assert(i > 0);
        assert(rcovers(tl[i - 1], v));
    }
}

/// Sorts and merges an arbitrary well-formed range list into normalized
/// form, preserving the covered set.
pub fn merge_ranges(v: Vec<BruteRange>) -> (r: Vec<BruteRange>)
    requires
        all_wf(v@),
    ensures
        normalized(r@),
        v@.len() >= 1 ==> r@.len() >= 1,
        forall|p: int| covers(r@, p) == covers(v@, p),
{
    let sorted = sort_by_start(v);
    if sorted.len() == 0 {
        return sorted;
    }
    merge_sorted(sorted)
}

/// Collects a non-empty list's ranges into a vector, head first.
fn ne_to_vec(ne: &NonEmpty<BruteRange>) -> (r: Vec<BruteRange>)
    ensures
        r@ == ne_seq(*ne),
{
    let mut r: Vec<BruteRange> = Vec::new();
    r.push(ne.head);
    let mut i: usize = 0;
    while i < ne.tail.len()
        invariant
            i <= ne.tail@.len(),
            r@ == seq![ne.head] + ne.tail@.subrange(0, i as int),
        decreases ne.tail@.len() - i,
    {
        r.push(ne.tail[i]);
        proof {
            assert(seq![ne.head] + ne.tail@.subrange(0, i + 1) =~= (seq![ne.head]
                + ne.tail@.subrange(0, i as int)).push(ne.tail@[i as int]));
        }
        i += 1;
    }
    proof {
        assert(ne.tail@.subrange(0, ne.tail@.len() as int) =~= ne.tail@);
    }
    r
}

proof fn lemma_prefix_len_mono(rs: Seq<BruteRange>, i: int, j: int)
    requires
        all_wf(rs),
        0 <= i <= j <= rs.len(),
    ensures
        prefix_len(rs, i) <= prefix_len(rs, j),
        i < j ==> prefix_len(rs, i) < prefix_len(rs, j),
    decreases j - i,
{
    if i < j {
        lemma_prefix_len_mono(rs, i, j - 1);
        lemma_prefix_len_step(rs, j - 1);
        assert(rs[j - 1].spec_len() >= 1);
    }
}

/// The greatest index whose offset is at most `key`, by binary search.
fn find_bucket_u32(indexes: &Vec<u32>, key: u32) -> (r: usize)
    requires
        indexes@.len() >= 1,
        indexes@[0] == 0,
        forall|i: int, j: int|
            0 <= i < j < indexes@.len() ==> #[trigger] indexes@[i] <= #[trigger] indexes@[j],
    ensures
        r < indexes@.len(),
        indexes@[r as int] <= key,
        r + 1 < indexes@.len() ==> key < indexes@[r as int + 1],
{
    let mut lo: usize = 0;
    let mut hi: usize = indexes.len();
    while hi - lo > 1
        invariant
            0 <= lo < hi <= indexes@.len(),
            indexes@[lo as int] <= key,
            hi < indexes@.len() ==> key < indexes@[hi as int],
        decreases hi - lo,
    {
        let mid = lo + (hi - lo) / 2;
        if indexes[mid] <= key {
            lo = mid;
        } else {
            hi = mid;
        }
    }
    lo
}

/// Builds a non-empty list from a non-empty vector of ranges.
pub(crate) fn ne_from_vec(v: Vec<BruteRange>) -> (r: NonEmpty<BruteRange>)
    requires
        v@.len() >= 1,
    ensures
        ne_seq(r) == v@,
{
    let head = v[0];
    let mut tail: Vec<BruteRange> = Vec::new();
    let mut i: usize = 1;
    while i < v.len()
        invariant
            1 <= i <= v@.len(),
            tail@ == v@.subrange(1, i as int),
        decreases v@.len() - i,
    {
        tail.push(v[i]);
        proof {
            assert(v@.subrange(1, i + 1) =~= v@.subrange(1, i as int).push(v@[i as int]));
        }
        i += 1;
    }
    proof {
        assert(seq![v@[0]] + v@.subrange(1, v@.len() as int) =~= v@);
    }
    NonEmpty { head, tail }
}

/// A normalized multi-range: merged character ranges plus the prefix-sum
/// offset of each range's first ordinal.
#[derive(Clone, Debug)]
pub struct MBruteRange {
    pub ranges: NonEmpty<BruteRange>,
    pub indexes: Vec<u32>,
}

impl MBruteRange {
    /// The ranges, in order.
    pub open spec fn rseq(self) -> Seq<BruteRange> {
        ne_seq(self.ranges)
    }

    /// Ranges normalized, offsets the prefix sums of their lengths.
    pub open spec fn wf(self) -> bool {
        &&& normalized(self.rseq())
        &&& self.indexes@.len() == self.rseq().len()
        &&& forall|i: int|
            0 <= i < self.indexes@.len() ==> #[trigger] self.indexes@[i] as int == prefix_len(
                self.rseq(),
                i,
            )
    }

    /// The number of scalar values covered.
    pub open spec fn spec_len(self) -> int {
        total_len(self.rseq())
    }

    /// All covered scalar values, ascending.
    pub open spec fn char_seq(self) -> Seq<char> {
        mchar_seq(self.rseq())
    }

    /// A multi-range always covers at least one character.
    pub proof fn lemma_len_pos(self)
        requires
            self.wf(),
        ensures
            self.spec_len() >= 1,
            self.char_seq().len() == self.spec_len(),
    {
        let rs = self.rseq();
        lemma_all_wf_tail(rs);
        lemma_total_len_nonneg(rs.drop_first());
        lemma_mchar_seq_len(rs);
        assert(rs[0].spec_len() >= 1);
    }

    /// Builds the offset table of a normalized range list.
    fn build_indexes(ranges: &NonEmpty<BruteRange>) -> (r: Vec<u32>)
        requires
            normalized(ne_seq(*ranges)),
        ensures
            r@.len() == ne_seq(*ranges).len(),
            forall|i: int|
                0 <= i < r@.len() ==> #[trigger] r@[i] as int == prefix_len(ne_seq(*ranges), i),
    {
        let ghost rs = ne_seq(*ranges);
        let v = ne_to_vec(ranges);
        let mut r: Vec<u32> = Vec::new();
        let mut sum: u32 = 0;
        let mut i: usize = 0;
        proof {
            lemma_prefix_len_bound(rs, 0);
        }
        while i < v.len()
            invariant
                i <= v@.len(),
                v@ == rs,
                normalized(rs),
                r@.len() == i,
                sum as int == prefix_len(rs, i as int),
                forall|j: int| 0 <= j < i ==> #[trigger] r@[j] as int == prefix_len(rs, j),
            decreases v@.len() - i,
        {
            r.push(sum);
            let l = v[i].len();
            proof {
                lemma_prefix_len_step(rs, i as int);
                lemma_prefix_len_bound(rs, i as int + 1);
            }
            sum = sum + (l as u32);
            i += 1;
        }
        r
    }

    /// Builds a multi-range from a single range.
    pub fn from_range(range: BruteRange) -> (r: MBruteRange)
        requires
            range.wf(),
        ensures
            r.wf(),
            r.rseq() == seq![range],
    {
        let ranges = NonEmpty { head: range, tail: Vec::new() };
        proof {
            assert(ne_seq(ranges) =~= seq![range]);
        }
        let indexes = Self::build_indexes(&ranges);
        MBruteRange { ranges, indexes }
    }

    /// Sorts and merges a list of ranges into normalized form; the covered
    /// set is preserved exactly.
    pub fn merge_and_order_ranges(ranges: NonEmpty<BruteRange>) -> (r: NonEmpty<BruteRange>)
        requires
            all_wf(ne_seq(ranges)),
        ensures
            normalized(ne_seq(r)),
            forall|v: int| covers(ne_seq(r), v) == covers(ne_seq(ranges), v),
            ne_seq(r) == spec_merge(ne_seq(ranges)),
    {
        let v = ne_to_vec(&ranges);
        let merged = merge_ranges(v);
        let r = ne_from_vec(merged);
        proof {
            lemma_spec_merge_is(ne_seq(r), ne_seq(ranges));
        }
        r
    }

    /// Builds a multi-range from an arbitrary well-formed range list,
    /// merging overlapping and adjacent ranges.
    pub fn from_ranges(ranges: NonEmpty<BruteRange>) -> (r: MBruteRange)
        requires
            all_wf(ne_seq(ranges)),
        ensures
            r.wf(),
            forall|v: int| covers(r.rseq(), v) == covers(ne_seq(ranges), v),
            r.rseq() == spec_merge(ne_seq(ranges)),
    {
        let merged = Self::merge_and_order_ranges(ranges);
        let indexes = Self::build_indexes(&merged);
        MBruteRange { ranges: merged, indexes }
    }

    /// The number of scalar values covered.
    pub fn len(&self) -> (r: usize)
        requires
            self.wf(),
        ensures
            r == self.spec_len(),
            r >= 1,
    {
        let ghost rs = self.rseq();
        let n = self.indexes.len();
        let last = if n == 1 {
            self.ranges.head
        } else {
            self.ranges.tail[n - 2]
        };
        proof {
            assert(last == rs[n - 1]);
            lemma_prefix_len_step(rs, n as int - 1);
            lemma_prefix_len_full(rs);
            lemma_prefix_len_bound(rs, n as int);
            lemma_prefix_len_mono(rs, 0, n as int - 1);
            lemma_prefix_len_bound(rs, n as int - 1);
        }
        self.indexes[n - 1] as usize + last.len()
    }

    /// The `index`-th covered scalar value, or `None` past the end.
    pub fn nth(&self, index: u32) -> (r: Option<char>)
        requires
            self.wf(),
        ensures
            index < self.spec_len() ==> r == Some(self.char_seq()[index as int]),
            index >= self.spec_len() ==> r is None,
    {
        let ghost rs = self.rseq();
        proof {
            assert(rs.subrange(0, 0) =~= Seq::<BruteRange>::empty());
            assert forall|i: int, j: int|
                0 <= i < j < self.indexes@.len() implies #[trigger] self.indexes@[i]
                <= #[trigger] self.indexes@[j] by {
                lemma_prefix_len_mono(rs, i, j);
            }
        }
        let b = find_bucket_u32(&self.indexes, index);
        let range = if b == 0 {
            self.ranges.head
        } else {
            self.ranges.tail[b - 1]
        };
        proof {
            assert(range == rs[b as int]);
        }
        let sub = index - self.indexes[b];
        let r = range.nth(sub);
        proof {
            let bi = b as int;
            lemma_prefix_len_step(rs, bi);
            lemma_prefix_len_full(rs);
            if bi + 1 < rs.len() {
                lemma_prefix_len_mono(rs, bi + 1, rs.len() as int);
            }
            // within this bucket, or past the whole multi-range
            if sub < range.spec_len() {
                lemma_mchar_seq_index(rs, bi, sub as int);
            } else {
                assert(index >= self.spec_len());
            }
        }
        r
    }

    /// A fresh cursor over the covered scalar values.
    pub fn iter(&self) -> (it: MBruteRangeIter)
        requires
            self.wf(),
        ensures
            it.wf(),
            it.ranges() == self.rseq(),
            it.pos() == 0,
            it.index == 0,
            forall|i: int|
                0 <= i < it.iters@.len() ==> (#[trigger] it.iters@[i]).index == it.iters@[i].start,
    {
        let ghost rs = self.rseq();
        let v = ne_to_vec(&self.ranges);
        let mut iters: Vec<BruteRangeIter> = Vec::new();
        let mut i: usize = 0;
        while i < v.len()
            invariant
                i <= v@.len(),
                v@ == rs,
                all_wf(rs),
                iters@.len() == i,
                forall|j: int| 0 <= j < i ==> (#[trigger] iters@[j]).wf(),
                forall|j: int| 0 <= j < i ==> (#[trigger] iters@[j]).range() == rs[j],
                forall|j: int| 0 <= j < i ==> (#[trigger] iters@[j]).pos() == 0,
                forall|j: int| 0 <= j < i ==> (#[trigger] iters@[j]).index == iters@[j].start,
            decreases v@.len() - i,
        {
            iters.push(v[i].iter());
            i += 1;
        }
        let it = MBruteRangeIter { index: 0, iters };
        proof {
            assert(it.ranges() =~= rs);
            assert(rs.subrange(0, 0) =~= Seq::<BruteRange>::empty());
        }
        it
    }
}

/// The named character classes of the pattern grammar, merged into
/// normalized multi-ranges.
impl MBruteRange {
    pub fn numbers() -> (r: MBruteRange)
        ensures
            r.wf(),
            r.rseq() == spec_merge(seq![BruteRange::spec_numbers()]),
            forall|v: int| covers(r.rseq(), v) == covers(seq![BruteRange::spec_numbers()], v),
    {
        Self::from_ranges(ne_from_vec(BruteRange::ranges_numbers()))
    }

    pub fn punct() -> (r: MBruteRange)
        ensures
            r.wf(),
            r.rseq() == spec_merge(BruteRange::spec_ranges_punct()),
            forall|v: int| covers(r.rseq(), v) == covers(BruteRange::spec_ranges_punct(), v),
    {
        Self::from_ranges(ne_from_vec(BruteRange::ranges_punct()))
    }

    pub fn letters_upper() -> (r: MBruteRange)
        ensures
            r.wf(),
            r.rseq() == spec_merge(seq![BruteRange::spec_letters_uppercase()]),
            forall|v: int|
                covers(r.rseq(), v) == covers(seq![BruteRange::spec_letters_uppercase()], v),
    {
        Self::from_ranges(ne_from_vec(BruteRange::ranges_letters_uppercase()))
    }

    pub fn letters_lower() -> (r: MBruteRange)
        ensures
            r.wf(),
            r.rseq() == spec_merge(seq![BruteRange::spec_letters_lowercase()]),
            forall|v: int|
                covers(r.rseq(), v) == covers(seq![BruteRange::spec_letters_lowercase()], v),
    {
        Self::from_ranges(ne_from_vec(BruteRange::ranges_letters_lowercase()))
    }

    pub fn letters() -> (r: MBruteRange)
        ensures
            r.wf(),
            r.rseq() == spec_merge(BruteRange::spec_ranges_letters()),
            forall|v: int| covers(r.rseq(), v) == covers(BruteRange::spec_ranges_letters(), v),
    {
        Self::from_ranges(ne_from_vec(BruteRange::ranges_letters()))
    }

    pub fn brute() -> (r: MBruteRange)
        ensures
            r.wf(),
            r.rseq() == spec_merge(BruteRange::spec_ranges_brute()),
            forall|v: int| covers(r.rseq(), v) == covers(BruteRange::spec_ranges_brute(), v),
    {
        Self::from_ranges(ne_from_vec(BruteRange::ranges_brute()))
    }

    pub fn hex_lower() -> (r: MBruteRange)
        ensures
            r.wf(),
            r.rseq() == spec_merge(BruteRange::spec_ranges_hex_lowercase()),
            forall|v: int|
                covers(r.rseq(), v) == covers(BruteRange::spec_ranges_hex_lowercase(), v),
    {
        Self::from_ranges(ne_from_vec(BruteRange::ranges_hex_lowercase()))
    }

    pub fn hex_upper() -> (r: MBruteRange)
        ensures
            r.wf(),
            r.rseq() == spec_merge(BruteRange::spec_ranges_hex_uppercase()),
            forall|v: int|
                covers(r.rseq(), v) == covers(BruteRange::spec_ranges_hex_uppercase(), v),
    {
        Self::from_ranges(ne_from_vec(BruteRange::ranges_hex_uppercase()))
    }

    pub fn hex() -> (r: MBruteRange)
        ensures
            r.wf(),
            r.rseq() == spec_merge(BruteRange::spec_ranges_hex()),
            forall|v: int| covers(r.rseq(), v) == covers(BruteRange::spec_ranges_hex(), v),
    {
        Self::from_ranges(ne_from_vec(BruteRange::ranges_hex()))
    }

    pub fn alphanum_lower() -> (r: MBruteRange)
        ensures
            r.wf(),
            r.rseq() == spec_merge(BruteRange::spec_ranges_alphanum_lowercase()),
            forall|v: int|
                covers(r.rseq(), v) == covers(BruteRange::spec_ranges_alphanum_lowercase(), v),
    {
        Self::from_ranges(ne_from_vec(BruteRange::ranges_alphanum_lowercase()))
    }

    pub fn alphanum_upper() -> (r: MBruteRange)
        ensures
            r.wf(),
            r.rseq() == spec_merge(BruteRange::spec_ranges_alphanum_uppercase()),
            forall|v: int|
                covers(r.rseq(), v) == covers(BruteRange::spec_ranges_alphanum_uppercase(), v),
    {
        Self::from_ranges(ne_from_vec(BruteRange::ranges_alphanum_uppercase()))
    }

    pub fn alphanum() -> (r: MBruteRange)
        ensures
            r.wf(),
            r.rseq() == spec_merge(BruteRange::spec_ranges_alphanum()),
            forall|v: int| covers(r.rseq(), v) == covers(BruteRange::spec_ranges_alphanum(), v),
    {
        Self::from_ranges(ne_from_vec(BruteRange::ranges_alphanum()))
    }

    pub fn ascii() -> (r: MBruteRange)
        ensures
            r.wf(),
            r.rseq() == spec_merge(seq![BruteRange::spec_ascii()]),
            forall|v: int| covers(r.rseq(), v) == covers(seq![BruteRange::spec_ascii()], v),
    {
        Self::from_ranges(ne_from_vec(BruteRange::ranges_ascii()))
    }

    pub fn unicode() -> (r: MBruteRange)
        ensures
            r.wf(),
            r.rseq() == spec_merge(seq![BruteRange::spec_unicode()]),
            forall|v: int| covers(r.rseq(), v) == covers(seq![BruteRange::spec_unicode()], v),
    {
        Self::from_ranges(ne_from_vec(BruteRange::ranges_unicode()))
    }
}

/// Random access and iteration agree: a cursor over a multi-range's
/// ranges walks exactly the characters that `nth` indexes, so the value
/// produced at position `i` is the value `nth(i)` returns.
pub proof fn lemma_nth_matches_iteration(mr: MBruteRange, it: MBruteRangeIter)
    requires
        mr.wf(),
        it.ranges() == mr.rseq(),
    ensures
        it.char_seq() == mr.char_seq(),
        it.total() == mr.spec_len(),
{
}

/// Merging is idempotent: a multi-range built from another multi-range's
/// own ranges holds exactly the same ranges, since `from_ranges` keeps the
/// covered set and normalization is a canonical form.
pub proof fn lemma_from_ranges_idempotent(mr: MBruteRange, again: MBruteRange)
    requires
        mr.wf(),
        again.wf(),
        forall|v: int| covers(again.rseq(), v) == covers(mr.rseq(), v),
    ensures
        again.rseq() == mr.rseq(),
{
    lemma_normalized_covers_unique(again.rseq(), mr.rseq());
}

/// A cursor over a multi-range: one sub-cursor per range, and the index of
/// the range currently being walked.
#[derive(Clone, Debug)]
pub struct MBruteRangeIter {
    pub index: usize,
    pub iters: Vec<BruteRangeIter>,
}

impl MBruteRangeIter {
    /// The ranges being iterated.
    pub open spec fn ranges(self) -> Seq<BruteRange> {
        Seq::new(self.iters@.len() as nat, |i: int| self.iters@[i].range())
    }

    /// Sub-cursors before `index` are exhausted, the ones after it have not
    /// started, and the current one rests on a value.
    pub open spec fn wf(self) -> bool {
        &&& normalized(self.ranges())
        &&& self.iters@.len() >= 1
        &&& self.index <= self.iters@.len()
        &&& forall|j: int| 0 <= j < self.iters@.len() ==> (#[trigger] self.iters@[j]).wf()
        &&& forall|j: int|
            0 <= j < self.index ==> (#[trigger] self.iters@[j]).pos() == self.iters@[j].range().spec_len()
        &&& forall|j: int|
            self.index < j < self.iters@.len() ==> (#[trigger] self.iters@[j]).pos() == 0
        &&& (self.index < self.iters@.len() ==> self.iters@[self.index as int].pos()
            < self.iters@[self.index as int].range().spec_len())
    }

    /// How many values have been produced so far.
    pub open spec fn pos(self) -> int {
        prefix_len(self.ranges(), self.index as int) + if (self.index as int)
            < self.ranges().len() {
            self.iters@[self.index as int].pos()
        } else {
            0
        }
    }

    /// The total number of values.
    pub open spec fn total(self) -> int {
        total_len(self.ranges())
    }

    /// All values, in production order.
    pub open spec fn char_seq(self) -> Seq<char> {
        mchar_seq(self.ranges())
    }

    pub proof fn lemma_pos_in_bounds(self)
        requires
            self.wf(),
        ensures
            0 <= self.pos() <= self.total(),
            self.pos() < self.total() <==> self.index < self.iters@.len(),
    {
        let rs = self.ranges();
        let i = self.index as int;
        lemma_prefix_len_full(rs);
        assert(rs.subrange(0, 0) =~= Seq::<BruteRange>::empty());
        lemma_prefix_len_mono(rs, 0, i);
        if i < rs.len() {
            lemma_prefix_len_step(rs, i);
            lemma_prefix_len_mono(rs, i + 1, rs.len() as int);
        }
    }

    /// Whether another value remains.
    pub fn has_next(&self) -> (r: bool)
        requires
            self.wf(),
        ensures
            r == (self.pos() < self.total()),
    {
        proof {
            self.lemma_pos_in_bounds();
        }
        self.index < self.iters.len()
    }

    /// The next value, without advancing.
    pub fn peek(&self) -> (c: char)
        requires
            self.wf(),
            self.pos() < self.total(),
        ensures
            c == self.char_seq()[self.pos()],
    {
        proof {
            self.lemma_pos_in_bounds();
            lemma_mchar_seq_index(
                self.ranges(),
                self.index as int,
                self.iters@[self.index as int].pos(),
            );
        }
        self.iters[self.index].peek()
    }

    /// Steps past the current value.
    #[verifier::rlimit(80)]
    pub fn move_next(&mut self)
        requires
            old(self).wf(),
            old(self).pos() < old(self).total(),
        ensures
            final(self).wf(),
            final(self).ranges() == old(self).ranges(),
            final(self).pos() == old(self).pos() + 1,
    {
        proof {
            self.lemma_pos_in_bounds();
        }
        let ghost prev = *self;
        let i = self.index;
        let mut it = self.iters[i];
        it.move_next();
        let still = it.has_next();
        self.iters.set(i, it);
        if !still {
            let n = self.iters.len();
            proof {
                assert(self.index < n);
            }
            self.index += 1;
        }
        proof {
            assert(final(self).ranges() =~= prev.ranges());
            let rs = prev.ranges();
            let ii = i as int;
            it.lemma_pos_in_bounds();
            if !still {
                assert(it.pos() == it.range().spec_len());
                lemma_prefix_len_step(rs, ii);
                if ii + 1 < rs.len() {
                    assert(rs[ii + 1].wf());
                    assert(final(self).iters@[ii + 1].pos() == 0);
                }
                assert(final(self).pos() == old(self).pos() + 1);
            } else {
                assert(final(self).pos() == old(self).pos() + 1);
            }
            assert(final(self).wf());
        }
    }

    /// The next value, advancing past it.
    pub fn get_next(&mut self) -> (c: char)
        requires
            old(self).wf(),
            old(self).pos() < old(self).total(),
        ensures
            final(self).wf(),
            final(self).ranges() == old(self).ranges(),
            final(self).pos() == old(self).pos() + 1,
            c == old(self).char_seq()[old(self).pos()],
    {
        let c = self.peek();
        self.move_next();
        c
    }

    /// Returns the cursor to the first value.
    pub fn reset(&mut self)
        requires
            old(self).wf(),
        ensures
            final(self).wf(),
            final(self).ranges() == old(self).ranges(),
            final(self).pos() == 0,
            final(self).index == 0,
            forall|i: int|
                0 <= i < final(self).iters@.len() ==> (#[trigger] final(self).iters@[i]).index
                    == final(self).iters@[i].start,
    {
        let ghost rs = old(self).ranges();
        let mut i: usize = 0;
        while i < self.iters.len()
            invariant
                i <= self.iters@.len(),
                self.iters@.len() == rs.len(),
                self.ranges() == rs,
                normalized(rs),
                forall|j: int| 0 <= j < self.iters@.len() ==> (#[trigger] self.iters@[j]).wf(),
                forall|j: int| 0 <= j < i ==> (#[trigger] self.iters@[j]).pos() == 0,
                forall|j: int|
                    0 <= j < i ==> (#[trigger] self.iters@[j]).index == self.iters@[j].start,
            decreases self.iters@.len() - i,
        {
            let mut it = self.iters[i];
            it.reset();
            self.iters.set(i, it);
            proof {
                assert(self.ranges() =~= rs);
            }
            i += 1;
        }
        self.index = 0;
        proof {
            assert(final(self).ranges() =~= rs);
            assert(rs.subrange(0, 0) =~= Seq::<BruteRange>::empty());
        }
    }
}

} // verus!
