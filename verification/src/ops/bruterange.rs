//! A single inclusive range of Unicode scalar values, aware of the
//! surrogate gap `[0xD800, 0xE000)`: code points in the gap are never
//! counted nor produced.

use crate::trusted::scalar_ok;
use vstd::prelude::*;

verus! {

/// An inclusive character range, normalized so that `start <= end`.
#[derive(PartialEq, Eq, Copy, Clone, Debug, Hash)]
pub struct BruteRange {
    pub start: char,
    pub end: char,
}

impl BruteRange {
    /// A range is well formed when its bounds are ordered.
    pub open spec fn wf(self) -> bool {
        self.start as int <= self.end as int
    }

    /// Whether the range straddles the surrogate gap.
    pub open spec fn straddles_gap(self) -> bool {
        (self.start as int) < 0xD800 && 0xE000 <= self.end as int
    }

    /// The number of scalar values in the range.
    pub open spec fn spec_len(self) -> int {
        if self.straddles_gap() {
            self.end as int - self.start as int + 1 - 0x800
        } else {
            self.end as int - self.start as int + 1
        }
    }

    /// The code point of the `k`-th scalar value of the range.
    pub open spec fn cp_at(self, k: int) -> int {
        if self.start as int + k < 0xD800 || self.start as int >= 0xE000 {
            self.start as int + k
        } else {
            self.start as int + k + 0x800
        }
    }

    /// The scalar values of the range, in ascending order.
    pub open spec fn char_seq(self) -> Seq<char> {
        Seq::new(self.spec_len() as nat, |k: int| self.cp_at(k) as char)
    }

    pub proof fn lemma_cp_at_valid(self, k: int)
        requires
            self.wf(),
            0 <= k < self.spec_len(),
        ensures
            scalar_ok(self.cp_at(k)),
            self.start as int <= self.cp_at(k) <= self.end as int,
            self.char_seq()[k] as int == self.cp_at(k),
    {
    }

    /// Each scalar value of the range sits one code point apart from the
    /// next, except across the surrogate gap.
    pub proof fn lemma_cp_at_increases(self, j: int, k: int)
        requires
            self.wf(),
            0 <= j < k < self.spec_len(),
        ensures
            self.cp_at(j) < self.cp_at(k),
    {
    }

    /// The range's length counts exactly the characters its iteration
    /// yields, and every one is a Unicode scalar value: the surrogate gap
    /// is never produced nor counted.
    pub proof fn lemma_len_counts_iteration(self)
        requires
            self.wf(),
        ensures
            self.char_seq().len() == self.spec_len(),
            forall|k: int|
                0 <= k < self.char_seq().len() ==> scalar_ok(
                    (#[trigger] self.char_seq()[k]) as int,
                ),
    {
        assert forall|k: int| 0 <= k < self.char_seq().len() implies scalar_ok(
            (#[trigger] self.char_seq()[k]) as int,
        ) by {
            self.lemma_cp_at_valid(k);
        }
    }

    /// The range's character sequence holds exactly the characters between
    /// its bounds.
    pub proof fn lemma_char_seq_contains(self, c: char)
        requires
            self.wf(),
        ensures
            self.char_seq().contains(c) <==> (self.start as int <= c as int <= self.end as int),
    {
        if self.start as int <= c as int <= self.end as int {
            let v = c as int;
            let k = if v >= 0xE000 && (self.start as int) < 0xD800 {
                v - self.start as int - 0x800
            } else {
                v - self.start as int
            };
            assert(0 <= k < self.spec_len());
            assert(self.cp_at(k) == v);
            assert(self.char_seq()[k] == c);
        }
        if self.char_seq().contains(c) {
            let k = choose|k: int| 0 <= k < self.char_seq().len() && self.char_seq()[k] == c;
            self.lemma_cp_at_valid(k);
        }
    }
}

impl BruteRange {
    /// Builds the range from two bounds in either order.
    pub fn new(start: char, end: char) -> (r: BruteRange)
        ensures
            r.wf(),
            start as int <= end as int ==> r == (BruteRange { start, end }),
            start as int > end as int ==> r == (BruteRange { start: end, end: start }),
    {
        if (start as u32) > (end as u32) {
            BruteRange { start: end, end: start }
        } else {
            BruteRange { start, end }
        }
    }

    /// Builds the range covering exactly one character.
    pub fn from_char(c: char) -> (r: BruteRange)
        ensures
            r == (BruteRange { start: c, end: c }),
            r.wf(),
    {
        BruteRange { start: c, end: c }
    }

    /// Builds the range from an inclusive char range, in either order.
    pub fn from_range(range: core::ops::RangeInclusive<char>) -> (r: BruteRange)
        ensures
            r.wf(),
            range@.start as int <= range@.end as int ==> r == (BruteRange {
                start: range@.start,
                end: range@.end,
            }),
            range@.start as int > range@.end as int ==> r == (BruteRange {
                start: range@.end,
                end: range@.start,
            }),
    {
        BruteRange::new(*range.start(), *range.end())
    }

    /// Builds the range from code points; `None` when either bound is not a
    /// Unicode scalar value.
    pub fn from_range_u32(range: core::ops::RangeInclusive<u32>) -> (r: Option<BruteRange>)
        ensures
            match r {
                Some(br) => {
                    &&& scalar_ok(range@.start as int)
                    &&& scalar_ok(range@.end as int)
                    &&& br.wf()
                    &&& br.start as int == if range@.start <= range@.end {
                        range@.start as int
                    } else {
                        range@.end as int
                    }
                    &&& br.end as int == if range@.start <= range@.end {
                        range@.end as int
                    } else {
                        range@.start as int
                    }
                },
                None => !scalar_ok(range@.start as int) || !scalar_ok(range@.end as int),
            },
    {
        let start = match char::from_u32(*range.start()) {
            Some(c) => c,
            None => {
                return None;
            },
        };
        let end = match char::from_u32(*range.end()) {
            Some(c) => c,
            None => {
                return None;
            },
        };
        Some(BruteRange::new(start, end))
    }

    /// The number of scalar values in the range.
    pub fn len(&self) -> (r: usize)
        requires
            self.wf(),
        ensures
            r == self.spec_len(),
            r >= 1,
    {
        let start = self.start as u32;
        let end = self.end as u32;
        let mut count = end - start;
        if start < 0xD800 && 0xE000 <= end {
            count -= 0x800;
        }
        count += 1;
        count as usize
    }

    /// The `k`-th scalar value of the range, or `None` when `k` is out of
    /// bounds.
    pub fn nth(&self, index: u32) -> (r: Option<char>)
        requires
            self.wf(),
        ensures
            index < self.spec_len() ==> r == Some(self.char_seq()[index as int]),
            index >= self.spec_len() ==> r is None,
    {
        let mut ix = match u32::checked_add(self.start as u32, index) {
            Some(v) => v,
            None => {
                return None;
            },
        };
        if (self.start as u32) <= 0xD7FF && ix > 0xD7FF {
            ix = match u32::checked_add(ix, 0x800) {
                Some(v) => v,
                None => {
                    return None;
                },
            };
        }
        if ix > (self.end as u32) {
            return None;
        }
        proof {
            self.lemma_cp_at_valid(index as int);
        }
        char::from_u32(ix)
    }

    /// A fresh cursor over the range's scalar values.
    pub fn iter(&self) -> (it: BruteRangeIter)
        requires
            self.wf(),
        ensures
            it.wf(),
            it.range() == *self,
            it.pos() == 0,
            it.index == it.start,
    {
        BruteRangeIter { start: self.start as u32, end: self.end as u32, index: self.start as u32 }
    }
}

/// The named character classes of the pattern grammar, as single ranges or
/// as lists of ranges.
impl BruteRange {
    pub open spec fn spec_numbers() -> BruteRange {
        BruteRange { start: '0', end: '9' }
    }

    pub open spec fn spec_letters_uppercase() -> BruteRange {
        BruteRange { start: 'A', end: 'Z' }
    }

    pub open spec fn spec_letters_lowercase() -> BruteRange {
        BruteRange { start: 'a', end: 'z' }
    }

    pub open spec fn spec_ascii() -> BruteRange {
        BruteRange { start: '\u{0}', end: '\u{FF}' }
    }

    pub open spec fn spec_unicode() -> BruteRange {
        BruteRange { start: '\u{0}', end: '\u{10FFFF}' }
    }

    pub fn range_numbers() -> (r: BruteRange)
        ensures
            r == BruteRange::spec_numbers(),
    {
        BruteRange { start: '0', end: '9' }
    }

    pub fn range_letters_uppercase() -> (r: BruteRange)
        ensures
            r == BruteRange::spec_letters_uppercase(),
    {
        BruteRange { start: 'A', end: 'Z' }
    }

    pub fn range_letters_lowercase() -> (r: BruteRange)
        ensures
            r == BruteRange::spec_letters_lowercase(),
    {
        BruteRange { start: 'a', end: 'z' }
    }

    pub fn range_ascii() -> (r: BruteRange)
        ensures
            r == BruteRange::spec_ascii(),
    {
        BruteRange { start: '\u{0}', end: '\u{FF}' }
    }

    pub fn range_unicode() -> (r: BruteRange)
        ensures
            r == BruteRange::spec_unicode(),
    {
        BruteRange { start: '\u{0}', end: '\u{10FFFF}' }
    }

    pub fn range_hex_letters_uppercase() -> (r: BruteRange)
        ensures
            r == (BruteRange { start: 'A', end: 'F' }),
    {
        BruteRange { start: 'A', end: 'F' }
    }

    pub fn range_hex_letters_lowercase() -> (r: BruteRange)
        ensures
            r == (BruteRange { start: 'a', end: 'f' }),
    {
        BruteRange { start: 'a', end: 'f' }
    }

    /// The four runs of printable ASCII punctuation.
    pub open spec fn spec_ranges_punct() -> Seq<BruteRange> {
        seq![
            BruteRange { start: '!', end: '/' },
            BruteRange { start: ':', end: '@' },
            BruteRange { start: '[', end: '`' },
            BruteRange { start: '{', end: '~' },
        ]
    }

    /// All printable ASCII: punctuation, digits and letters.
    pub open spec fn spec_ranges_brute() -> Seq<BruteRange> {
        seq![
            BruteRange { start: '!', end: '/' },
            BruteRange::spec_numbers(),
            BruteRange { start: ':', end: '@' },
            BruteRange::spec_letters_uppercase(),
            BruteRange { start: '[', end: '`' },
            BruteRange::spec_letters_lowercase(),
            BruteRange { start: '{', end: '~' },
        ]
    }

    pub open spec fn spec_ranges_letters() -> Seq<BruteRange> {
        seq![BruteRange::spec_letters_uppercase(), BruteRange::spec_letters_lowercase()]
    }

    pub open spec fn spec_ranges_hex_lowercase() -> Seq<BruteRange> {
        seq![BruteRange::spec_numbers(), BruteRange { start: 'a', end: 'f' }]
    }

    pub open spec fn spec_ranges_hex_uppercase() -> Seq<BruteRange> {
        seq![BruteRange::spec_numbers(), BruteRange { start: 'A', end: 'F' }]
    }

    pub open spec fn spec_ranges_hex() -> Seq<BruteRange> {
        seq![
            BruteRange::spec_numbers(),
            BruteRange { start: 'A', end: 'F' },
            BruteRange { start: 'a', end: 'f' },
        ]
    }

    pub open spec fn spec_ranges_alphanum_lowercase() -> Seq<BruteRange> {
        seq![BruteRange::spec_numbers(), BruteRange::spec_letters_lowercase()]
    }

    pub open spec fn spec_ranges_alphanum_uppercase() -> Seq<BruteRange> {
        seq![BruteRange::spec_numbers(), BruteRange::spec_letters_uppercase()]
    }

    pub open spec fn spec_ranges_alphanum() -> Seq<BruteRange> {
        seq![
            BruteRange::spec_numbers(),
            BruteRange::spec_letters_uppercase(),
            BruteRange::spec_letters_lowercase(),
        ]
    }

    pub fn ranges_numbers() -> (r: Vec<BruteRange>)
        ensures
            r@ == seq![BruteRange::spec_numbers()],
    {
        let r = vec![BruteRange::range_numbers()];
        proof {
            assert(r@ =~= seq![BruteRange::spec_numbers()]);
        }
        r
    }

    pub fn ranges_ascii() -> (r: Vec<BruteRange>)
        ensures
            r@ == seq![BruteRange::spec_ascii()],
    {
        let r = vec![BruteRange::range_ascii()];
        proof {
            assert(r@ =~= seq![BruteRange::spec_ascii()]);
        }
        r
    }

    pub fn ranges_unicode() -> (r: Vec<BruteRange>)
        ensures
            r@ == seq![BruteRange::spec_unicode()],
    {
        let r = vec![BruteRange::range_unicode()];
        proof {
            assert(r@ =~= seq![BruteRange::spec_unicode()]);
        }
        r
    }

    pub fn ranges_punct() -> (r: Vec<BruteRange>)
        ensures
            r@ == BruteRange::spec_ranges_punct(),
    {
        let r = vec![
            BruteRange { start: '!', end: '/' },
            BruteRange { start: ':', end: '@' },
            BruteRange { start: '[', end: '`' },
            BruteRange { start: '{', end: '~' },
        ];
        proof {
            assert(r@ =~= BruteRange::spec_ranges_punct());
        }
        r
    }

    pub fn ranges_brute() -> (r: Vec<BruteRange>)
        ensures
            r@ == BruteRange::spec_ranges_brute(),
    {
        let r = vec![
            BruteRange { start: '!', end: '/' },
            BruteRange::range_numbers(),
            BruteRange { start: ':', end: '@' },
            BruteRange::range_letters_uppercase(),
            BruteRange { start: '[', end: '`' },
            BruteRange::range_letters_lowercase(),
            BruteRange { start: '{', end: '~' },
        ];
        proof {
            assert(r@ =~= BruteRange::spec_ranges_brute());
        }
        r
    }

    pub fn ranges_letters_uppercase() -> (r: Vec<BruteRange>)
        ensures
            r@ == seq![BruteRange::spec_letters_uppercase()],
    {
        let r = vec![BruteRange::range_letters_uppercase()];
        proof {
            assert(r@ =~= seq![BruteRange::spec_letters_uppercase()]);
        }
        r
    }

    pub fn ranges_letters_lowercase() -> (r: Vec<BruteRange>)
        ensures
            r@ == seq![BruteRange::spec_letters_lowercase()],
    {
        let r = vec![BruteRange::range_letters_lowercase()];
        proof {
            assert(r@ =~= seq![BruteRange::spec_letters_lowercase()]);
        }
        r
    }

    pub fn ranges_letters() -> (r: Vec<BruteRange>)
        ensures
            r@ == BruteRange::spec_ranges_letters(),
    {
        let r = vec![BruteRange::range_letters_uppercase(), BruteRange::range_letters_lowercase()];
        proof {
            assert(r@ =~= BruteRange::spec_ranges_letters());
        }
        r
    }

    pub fn ranges_hex_lowercase() -> (r: Vec<BruteRange>)
        ensures
            r@ == BruteRange::spec_ranges_hex_lowercase(),
    {
        let r = vec![BruteRange::range_numbers(), BruteRange::range_hex_letters_lowercase()];
        proof {
            assert(r@ =~= BruteRange::spec_ranges_hex_lowercase());
        }
        r
    }

    pub fn ranges_hex_uppercase() -> (r: Vec<BruteRange>)
        ensures
            r@ == BruteRange::spec_ranges_hex_uppercase(),
    {
        let r = vec![BruteRange::range_numbers(), BruteRange::range_hex_letters_uppercase()];
        proof {
            assert(r@ =~= BruteRange::spec_ranges_hex_uppercase());
        }
        r
    }

    pub fn ranges_hex() -> (r: Vec<BruteRange>)
        ensures
            r@ == BruteRange::spec_ranges_hex(),
    {
        let r = vec![
            BruteRange::range_numbers(),
            BruteRange::range_hex_letters_uppercase(),
            BruteRange::range_hex_letters_lowercase(),
        ];
        proof {
            assert(r@ =~= BruteRange::spec_ranges_hex());
        }
        r
    }

    pub fn ranges_alphanum_lowercase() -> (r: Vec<BruteRange>)
        ensures
            r@ == BruteRange::spec_ranges_alphanum_lowercase(),
    {
        let r = vec![BruteRange::range_numbers(), BruteRange::range_letters_lowercase()];
        proof {
            assert(r@ =~= BruteRange::spec_ranges_alphanum_lowercase());
        }
        r
    }

    pub fn ranges_alphanum_uppercase() -> (r: Vec<BruteRange>)
        ensures
            r@ == BruteRange::spec_ranges_alphanum_uppercase(),
    {
        let r = vec![BruteRange::range_numbers(), BruteRange::range_letters_uppercase()];
        proof {
            assert(r@ =~= BruteRange::spec_ranges_alphanum_uppercase());
        }
        r
    }

    pub fn ranges_alphanum() -> (r: Vec<BruteRange>)
        ensures
            r@ == BruteRange::spec_ranges_alphanum(),
    {
        let r = vec![
            BruteRange::range_numbers(),
            BruteRange::range_letters_uppercase(),
            BruteRange::range_letters_lowercase(),
        ];
        proof {
            assert(r@ =~= BruteRange::spec_ranges_alphanum());
        }
        r
    }
}

/// A cursor over the scalar values of a [`BruteRange`], surrogate-gap
/// aware: `index` is the code point of the next value to produce.
#[derive(Clone, Copy, Debug)]
pub struct BruteRangeIter {
    pub start: u32,
    pub end: u32,
    pub index: u32,
}

impl BruteRangeIter {
    /// The range being iterated.
    pub open spec fn range(self) -> BruteRange {
        BruteRange { start: self.start as char, end: self.end as char }
    }

    /// The cursor's code point once every value has been produced.
    pub open spec fn done_ix(self) -> int {
        if self.end == 0xD7FF {
            0xE000
        } else {
            self.end as int + 1
        }
    }

    /// The cursor either rests on a scalar value of the range or just past
    /// its end.
    pub open spec fn wf(self) -> bool {
        &&& scalar_ok(self.start as int)
        &&& scalar_ok(self.end as int)
        &&& self.start <= self.end
        &&& ((scalar_ok(self.index as int) && self.start <= self.index <= self.end) || self.index
            == self.done_ix())
    }

    /// How many values have been produced so far.
    pub open spec fn pos(self) -> int {
        if (self.start as int) < 0xD800 && self.index >= 0xE000 {
            self.index - self.start - 0x800
        } else {
            self.index - self.start
        }
    }

    pub proof fn lemma_pos_in_bounds(self)
        requires
            self.wf(),
        ensures
            0 <= self.pos() <= self.range().spec_len(),
            self.pos() < self.range().spec_len() <==> self.index <= self.end,
            self.index <= self.end ==> self.index as int == self.range().cp_at(self.pos()),
    {
    }

    /// Whether another value remains.
    pub fn has_next(&self) -> (r: bool)
        requires
            self.wf(),
        ensures
            r == (self.pos() < self.range().spec_len()),
    {
        proof {
            self.lemma_pos_in_bounds();
        }
        self.index <= self.end
    }

    /// The next value, without advancing.
    pub fn peek(&self) -> (c: char)
        requires
            self.wf(),
            self.pos() < self.range().spec_len(),
        ensures
            c == self.range().char_seq()[self.pos()],
    {
        proof {
            self.lemma_pos_in_bounds();
            self.range().lemma_cp_at_valid(self.pos());
        }
        match char::from_u32(self.index) {
            Some(c) => c,
            None => {
                proof {
                    assert(false);
                }
                ' '
            },
        }
    }

    /// Steps past the current value, skipping the surrogate gap.
    pub fn move_next(&mut self)
        requires
            old(self).wf(),
            old(self).pos() < old(self).range().spec_len(),
        ensures
            final(self).wf(),
            final(self).range() == old(self).range(),
            final(self).pos() == old(self).pos() + 1,
    {
        proof {
            self.lemma_pos_in_bounds();
        }
        self.index += 1;
        if self.index == 0xD800 {
            self.index += 0xE000 - 0xD800;
        }
    }

    /// The next value, advancing past it.
    pub fn get_next(&mut self) -> (c: char)
        requires
            old(self).wf(),
            old(self).pos() < old(self).range().spec_len(),
        ensures
            final(self).wf(),
            final(self).range() == old(self).range(),
            final(self).pos() == old(self).pos() + 1,
            c == old(self).range().char_seq()[old(self).pos()],
    {
        let c = self.peek();
        self.move_next();
        c
    }

    /// Returns the cursor to the first value.
    pub fn reset(&mut self)
        requires
            old(self).wf(),
        ensures
            final(self).wf(),
            final(self).range() == old(self).range(),
            final(self).pos() == 0,
            final(self).index == final(self).start,
            final(self).start == old(self).start,
            final(self).end == old(self).end,
    {
        self.index = self.start;
    }
}

} // verus!
