//! The pattern grammar: a tokenizer for literals, ranges, classes,
//! escapes and quantifiers, and a recursive-descent parser that builds the
//! syntax tree.  Any malformed input fails the whole parse: no partial
//! pattern is ever returned.

use crate::ops::bruterange::BruteRange;
use crate::ops::mbruterange::{all_wf, ne_from_vec, spec_merge, MBruteRange};
use crate::ops::pattern::{pat_wf, Pattern};
use vstd::prelude::*;

verus! {

/// One lexical element of the pattern grammar.
#[derive(PartialEq, Eq, Clone, Copy, Debug)]
pub enum Token {
    LParen,
    RParen,
    LBracket,
    RBracket,
    Quant { lo: u32, hi: u32 },
    Range { lo: char, hi: char },
    Class { tag: char },
    Chr { c: char },
}

/// Every quantifier token carries ordered bounds.
pub open spec fn wf_tokens(ts: Seq<Token>) -> bool {
    forall|j: int|
        0 <= j < ts.len() ==> ((#[trigger] ts[j]) matches Token::Quant { lo, hi } ==> lo <= hi)
}

/// The grammar's metacharacters, which require escaping.
pub open spec fn spec_is_meta(c: char) -> bool {
    c == '\\' || c == '[' || c == ']' || c == '{' || c == '}' || c == '(' || c == ')' || c == '-'
}

/// The value of a hexadecimal digit, `None` for any other character.
pub open spec fn spec_hex_val(c: char) -> Option<u32> {
    if '0' as int <= c as int <= '9' as int {
        Some((c as int - '0' as int) as u32)
    } else if 'a' as int <= c as int <= 'f' as int {
        Some((c as int - 'a' as int + 10) as u32)
    } else if 'A' as int <= c as int <= 'F' as int {
        Some((c as int - 'A' as int + 10) as u32)
    } else {
        None
    }
}

pub open spec fn spec_is_digit(c: char) -> bool {
    '0' as int <= c as int <= '9' as int
}

/// A digit run read as a number: the value and the index past the run;
/// `None` when there is no digit or the value exceeds the integer width.
pub open spec fn spec_scan_digits(s: Seq<char>, i: int, acc: u32, any: bool) -> Option<(u32, int)>
    decreases s.len() - i,
{
    if i < 0 || i >= s.len() || !spec_is_digit(s[i]) {
        if any {
            Some((acc, i))
        } else {
            None
        }
    } else {
        let d = (s[i] as int - '0' as int) as u32;
        if acc > (u32::MAX - d) / 10 {
            None
        } else {
            spec_scan_digits(s, i + 1, (acc * 10 + d) as u32, true)
        }
    }
}

/// A quantifier suffix `{n}`, `{n,m}` or `{,m}` starting at the opening
/// brace: the bounds and the index past the closing brace.
pub open spec fn spec_scan_quant(s: Seq<char>, i: int) -> Option<(u32, u32, int)> {
    let j = i + 1;
    if j < s.len() && s[j] == ',' {
        match spec_scan_digits(s, j + 1, 0, false) {
            Some((m, nx)) => {
                if nx < s.len() && s[nx] == '}' {
                    Some((0u32, m, nx + 1))
                } else {
                    None
                }
            },
            None => None,
        }
    } else {
        match spec_scan_digits(s, j, 0, false) {
            Some((lo, nx)) => {
                if nx < s.len() && s[nx] == '}' {
                    Some((lo, lo, nx + 1))
                } else if nx < s.len() && s[nx] == ',' {
                    match spec_scan_digits(s, nx + 1, 0, false) {
                        Some((m, nx2)) => {
                            if m >= lo && nx2 < s.len() && s[nx2] == '}' {
                                Some((lo, m, nx2 + 1))
                            } else {
                                None
                            }
                        },
                        None => None,
                    }
                } else {
                    None
                }
            },
            None => None,
        }
    }
}

/// An escape sequence starting at the backslash: the token it denotes and
/// the index past it.
pub open spec fn spec_scan_escape(s: Seq<char>, i: int) -> Option<(Token, int)> {
    if s.len() - i < 2 {
        None
    } else {
        let e = s[i + 1];
        if spec_is_class_tag(e) {
            Some((Token::Class { tag: e }, i + 2))
        } else if spec_is_meta(e) {
            Some((Token::Chr { c: e }, i + 2))
        } else if e == 'x' {
            if s.len() - i < 4 {
                None
            } else {
                match (spec_hex_val(s[i + 2]), spec_hex_val(s[i + 3])) {
                    (Some(h1), Some(h2)) => Some(
                        (Token::Chr { c: (h1 * 16 + h2) as char }, i + 4),
                    ),
                    _ => None,
                }
            }
        } else if e == 'u' {
            if s.len() - i < 6 {
                None
            } else {
                match (
                    spec_hex_val(s[i + 2]),
                    spec_hex_val(s[i + 3]),
                    spec_hex_val(s[i + 4]),
                    spec_hex_val(s[i + 5]),
                ) {
                    (Some(h1), Some(h2), Some(h3), Some(h4)) => {
                        let v = ((h1 * 16 + h2) * 16 + h3) * 16 + h4;
                        if crate::trusted::scalar_ok(v as int) {
                            Some((Token::Chr { c: v as char }, i + 6))
                        } else {
                            None
                        }
                    },
                    _ => None,
                }
            }
        } else {
            None
        }
    }
}

/// The token starting at position `i`, with the index past it; `None` on
/// a lexical error.  A plain character followed by a dash and another
/// plain character reads as a range, dash and closing brace alone are
/// errors, and everything else is one delimiter, quantifier, escape or
/// literal.
pub open spec fn spec_next_token(s: Seq<char>, i: int) -> Option<(Token, int)> {
    let c = s[i];
    if c == '(' {
        Some((Token::LParen, i + 1))
    } else if c == ')' {
        Some((Token::RParen, i + 1))
    } else if c == '[' {
        Some((Token::LBracket, i + 1))
    } else if c == ']' {
        Some((Token::RBracket, i + 1))
    } else if c == '{' {
        match spec_scan_quant(s, i) {
            Some((lo, hi, nx)) => Some((Token::Quant { lo, hi }, nx)),
            None => None,
        }
    } else if c == '}' || c == '-' {
        None
    } else if c == '\\' {
        spec_scan_escape(s, i)
    } else if s.len() - i > 2 && s[i + 1] == '-' && !spec_is_meta(s[i + 2]) {
        Some((Token::Range { lo: c, hi: s[i + 2] }, i + 3))
    } else {
        Some((Token::Chr { c }, i + 1))
    }
}

/// The next scan position, clamped to always move forward.
pub open spec fn step_ix(i: int, nx: int) -> int {
    if nx <= i {
        i + 1
    } else {
        nx
    }
}

/// The token list of the text from position `i` on; `None` on any lexical
/// error.
pub open spec fn spec_tokens_from(s: Seq<char>, i: int) -> Option<Seq<Token>>
    decreases s.len() - i,
{
    if i < 0 || i >= s.len() {
        Some(Seq::empty())
    } else {
        match spec_next_token(s, i) {
            None => None,
            Some((t, nx)) => {
                match spec_tokens_from(s, step_ix(i, nx)) {
                    None => None,
                    Some(rest) => Some(seq![t] + rest),
                }
            },
        }
    }
}

/// The shape of a parsed pattern: normalized character ranges, merged
/// multi-ranges, concatenations and repetitions.  A repetition's single
/// inner shape is held as a one-element sequence.
pub enum Ast {
    Range { lo: char, hi: char },
    MRange { ranges: Seq<BruteRange> },
    Group { items: Seq<Ast> },
    Rep { inner: Seq<Ast>, lo: u32, hi: u32 },
}

/// The shape a pattern presents: its tree with the size tables erased.
pub open spec fn pat_ast(p: Pattern) -> Ast
    decreases p, 0int,
{
    match p {
        Pattern::Range { range, .. } => Ast::Range { lo: range.start, hi: range.end },
        Pattern::MRange { range, .. } => Ast::MRange { ranges: range.rseq() },
        Pattern::Group { patterns, .. } => Ast::Group { items: asts_of(patterns@) },
        Pattern::Length { pattern, min, max, .. } => Ast::Rep {
            inner: seq![pat_ast(*pattern)],
            lo: min,
            hi: max,
        },
    }
}

/// The shapes of a pattern list, in order.
pub open spec fn asts_of(ps: Seq<Pattern>) -> Seq<Ast>
    decreases ps, 1int,
{
    if ps.len() == 0 {
        Seq::empty()
    } else {
        asts_of(ps.drop_last()).push(pat_ast(ps.last()))
    }
}

/// A range atom's shape, bounds normalized.
pub open spec fn range_ast(lo: char, hi: char) -> Ast {
    if lo as int <= hi as int {
        Ast::Range { lo, hi }
    } else {
        Ast::Range { lo: hi, hi: lo }
    }
}

/// A parenthesized group of one atom is that atom; a longer one is a
/// concatenation.
pub open spec fn unwrap_group(items: Seq<Ast>) -> Ast {
    if items.len() == 1 {
        items[0]
    } else {
        Ast::Group { items }
    }
}

/// A bracket of one element is a plain range; a longer one is the merged
/// multi-range of its elements.
pub open spec fn bracket_ast(rs: Seq<BruteRange>) -> Ast {
    if rs.len() == 1 {
        Ast::Range { lo: rs[0].start, hi: rs[0].end }
    } else {
        Ast::MRange { ranges: spec_merge(rs) }
    }
}

/// The raw range list of a class escape, as written in the grammar.
pub open spec fn class_raw(tag: char) -> Seq<BruteRange> {
    if tag == 'w' {
        seq![BruteRange::spec_letters_lowercase()]
    } else if tag == 'W' {
        seq![BruteRange::spec_letters_uppercase()]
    } else if tag == 'd' {
        seq![BruteRange::spec_numbers()]
    } else if tag == 'U' {
        seq![BruteRange::spec_unicode()]
    } else if tag == 'a' {
        seq![BruteRange::spec_ascii()]
    } else if tag == 'l' {
        BruteRange::spec_ranges_letters()
    } else if tag == 'h' {
        BruteRange::spec_ranges_hex_lowercase()
    } else if tag == 'H' {
        BruteRange::spec_ranges_hex_uppercase()
    } else if tag == 'X' {
        BruteRange::spec_ranges_hex()
    } else if tag == 'p' {
        BruteRange::spec_ranges_punct()
    } else if tag == 'n' {
        BruteRange::spec_ranges_alphanum_lowercase()
    } else if tag == 'N' {
        BruteRange::spec_ranges_alphanum_uppercase()
    } else if tag == 'm' {
        BruteRange::spec_ranges_alphanum()
    } else if tag == 'b' {
        BruteRange::spec_ranges_brute()
    } else {
        Seq::empty()
    }
}

/// A class atom's shape: the single range it names, or the merged
/// multi-range of its range list.
pub open spec fn class_ast(tag: char) -> Ast {
    if tag == 'w' {
        Ast::Range { lo: 'a', hi: 'z' }
    } else if tag == 'W' {
        Ast::Range { lo: 'A', hi: 'Z' }
    } else if tag == 'd' {
        Ast::Range { lo: '0', hi: '9' }
    } else if tag == 'U' {
        Ast::Range { lo: '\u{0}', hi: '\u{10FFFF}' }
    } else if tag == 'a' {
        Ast::Range { lo: '\u{0}', hi: '\u{FF}' }
    } else {
        Ast::MRange { ranges: spec_merge(class_raw(tag)) }
    }
}

/// The ranges of a bracket body starting at `i`, with the index past the
/// closing bracket: a flat run of characters, ranges and class escapes.
pub open spec fn spec_bracket_parse(ts: Seq<Token>, i: int, acc: Seq<BruteRange>) -> Option<
    (Seq<BruteRange>, int),
>
    decreases ts.len() - i,
{
    if i < 0 || i >= ts.len() {
        None
    } else {
        match ts[i] {
            Token::RBracket => Some((acc, i + 1)),
            Token::Chr { c } => spec_bracket_parse(ts, i + 1, acc.push(BruteRange { start: c, end: c })),
            Token::Range { lo, hi } => {
                if lo as int <= hi as int {
                    spec_bracket_parse(ts, i + 1, acc.push(BruteRange { start: lo, end: hi }))
                } else {
                    spec_bracket_parse(ts, i + 1, acc.push(BruteRange { start: hi, end: lo }))
                }
            },
            Token::Class { tag } => {
                if spec_is_class_tag(tag) {
                    spec_bracket_parse(ts, i + 1, acc + class_raw(tag))
                } else {
                    None
                }
            },
            _ => None,
        }
    }
}

/// The atom shapes of a sequence starting at `i`, with the index past its
/// end: a closing parenthesis inside a group, the end of input at top
/// level.  A repetition suffix consumes the previous atom and may not
/// follow another suffix directly.
pub open spec fn spec_group_parse(
    ts: Seq<Token>,
    i: int,
    in_paren: bool,
    acc: Seq<Ast>,
    last_quant: bool,
) -> Option<(Seq<Ast>, int)>
    decreases ts.len() - i,
{
    if i < 0 || i > ts.len() {
        None
    } else if i == ts.len() {
        if in_paren {
            None
        } else {
            Some((acc, i))
        }
    } else {
        match ts[i] {
            Token::RParen => {
                if in_paren {
                    Some((acc, i + 1))
                } else {
                    None
                }
            },
            Token::LParen => {
                match spec_group_parse(ts, i + 1, true, Seq::empty(), false) {
                    None => None,
                    Some((items, nx)) => {
                        if items.len() >= 1 && step_ix(i, nx) <= ts.len() {
                            spec_group_parse(
                                ts,
                                step_ix(i, nx),
                                in_paren,
                                acc.push(unwrap_group(items)),
                                false,
                            )
                        } else {
                            None
                        }
                    },
                }
            },
            Token::LBracket => {
                match spec_bracket_parse(ts, i + 1, Seq::empty()) {
                    None => None,
                    Some((rs, nx)) => {
                        if rs.len() >= 1 && step_ix(i, nx) <= ts.len() {
                            spec_group_parse(
                                ts,
                                step_ix(i, nx),
                                in_paren,
                                acc.push(bracket_ast(rs)),
                                false,
                            )
                        } else {
                            None
                        }
                    },
                }
            },
            Token::RBracket => None,
            Token::Quant { lo, hi } => {
                if last_quant || acc.len() < 1 {
                    None
                } else {
                    spec_group_parse(
                        ts,
                        i + 1,
                        in_paren,
                        acc.drop_last().push(Ast::Rep { inner: seq![acc.last()], lo, hi }),
                        true,
                    )
                }
            },
            Token::Range { lo, hi } => spec_group_parse(
                ts,
                i + 1,
                in_paren,
                acc.push(range_ast(lo, hi)),
                false,
            ),
            Token::Chr { c } => spec_group_parse(
                ts,
                i + 1,
                in_paren,
                acc.push(Ast::Range { lo: c, hi: c }),
                false,
            ),
            Token::Class { tag } => {
                if spec_is_class_tag(tag) {
                    spec_group_parse(ts, i + 1, in_paren, acc.push(class_ast(tag)), false)
                } else {
                    None
                }
            },
        }
    }
}

/// The shape the text denotes, or `None` when it is not a sentence of the
/// grammar.
pub open spec fn spec_parse(s: Seq<char>) -> Option<Ast> {
    match spec_tokens_from(s, 0) {
        None => None,
        Some(ts) => {
            match spec_group_parse(ts, 0, false, Seq::empty(), false) {
                None => None,
                Some((items, _)) => {
                    if items.len() >= 1 {
                        Some(unwrap_group(items))
                    } else {
                        None
                    }
                },
            }
        },
    }
}

/// Whether the text is a sentence of the pattern grammar.
pub open spec fn spec_accepts(s: Seq<char>) -> bool {
    spec_parse(s) is Some
}

/// Reads one character of the text, re-establishing its scalar-value
/// bounds.
fn char_at(chars: &Vec<char>, j: usize) -> (c: char)
    requires
        j < chars@.len(),
    ensures
        c == chars@[j as int],
{
    chars[j]
}

fn is_meta(c: char) -> (r: bool)
    ensures
        r == spec_is_meta(c),
{
    c == '\\' || c == '[' || c == ']' || c == '{' || c == '}' || c == '(' || c == ')' || c == '-'
}

/// The letters naming a character class.
pub open spec fn spec_is_class_tag(c: char) -> bool {
    c == 'w' || c == 'W' || c == 'd' || c == 'U' || c == 'a' || c == 'l' || c == 'h' || c == 'H'
        || c == 'X' || c == 'p' || c == 'n' || c == 'N' || c == 'm' || c == 'b'
}

fn is_class_tag(c: char) -> (r: bool)
    ensures
        r == spec_is_class_tag(c),
{
    c == 'w' || c == 'W' || c == 'd' || c == 'U' || c == 'a' || c == 'l' || c == 'h' || c == 'H'
        || c == 'X' || c == 'p' || c == 'n' || c == 'N' || c == 'm' || c == 'b'
}

/// The value of a hexadecimal digit, `None` for any other character.
fn hex_val(c: char) -> (r: Option<u32>)
    ensures
        r == spec_hex_val(c),
        r matches Some(v) ==> v < 16,
{
    let u = c as u32;
    if u >= ('0' as u32) && u <= ('9' as u32) {
        Some(u - ('0' as u32))
    } else if u >= ('a' as u32) && u <= ('f' as u32) {
        Some(u - ('a' as u32) + 10)
    } else if u >= ('A' as u32) && u <= ('F' as u32) {
        Some(u - ('A' as u32) + 10)
    } else {
        None
    }
}

/// Scans a digit run starting at `i` into a number; `None` when there is
/// no digit or the value exceeds the integer width.
fn scan_number(chars: &Vec<char>, i: usize) -> (r: Option<(u32, usize)>)
    requires
        i <= chars@.len(),
    ensures
        r matches Some((v, nx)) ==> i < nx <= chars@.len() && spec_scan_digits(
            chars@,
            i as int,
            0,
            false,
        ) == Some((v, nx as int)),
        r is None ==> spec_scan_digits(chars@, i as int, 0, false) is None,
{
    let mut j = i;
    let mut acc: u32 = 0;
    let mut any = false;
    loop
        invariant
            i <= j <= chars@.len(),
            any == (j > i),
            spec_scan_digits(chars@, i as int, 0, false) == spec_scan_digits(
                chars@,
                j as int,
                acc,
                any,
            ),
        decreases chars@.len() - j,
    {
        if j >= chars.len() {
            return if any {
                Some((acc, j))
            } else {
                None
            };
        }
        let c = char_at(chars, j);
        if (c as u32) < ('0' as u32) || (c as u32) > ('9' as u32) {
            proof {
                assert(!spec_is_digit(chars@[j as int]));
            }
            return if any {
                Some((acc, j))
            } else {
                None
            };
        }
        let d = (c as u32) - ('0' as u32);
        if acc > (u32::MAX - d) / 10 {
            proof {
                assert(spec_scan_digits(chars@, j as int, acc, any) is None);
            }
            return None;
        }
        acc = acc * 10 + d;
        any = true;
        j += 1;
    }
}

/// Reads a quantifier suffix `{n}`, `{n,m}` or `{,m}` starting at the
/// opening brace; `None` on any malformed or reversed form.
fn scan_quant(chars: &Vec<char>, i: usize) -> (r: Option<(u32, u32, usize)>)
    requires
        i < chars@.len(),
    ensures
        r matches Some((lo, hi, nx)) ==> lo <= hi && i < nx <= chars@.len() && spec_scan_quant(
            chars@,
            i as int,
        ) == Some((lo, hi, nx as int)),
        r is None ==> spec_scan_quant(chars@, i as int) is None,
{
    let n = chars.len();
    let mut j = i + 1;
    if j < n && chars[j] == ',' {
        // {,m}
        match scan_number(chars, j + 1) {
            Some((m, nx)) => {
                if nx < n && chars[nx] == '}' {
                    Some((0, m, nx + 1))
                } else {
                    None
                }
            },
            None => None,
        }
    } else {
        match scan_number(chars, j) {
            Some((lo, nx)) => {
                if nx < n && chars[nx] == '}' {
                    Some((lo, lo, nx + 1))
                } else if nx < n && chars[nx] == ',' {
                    match scan_number(chars, nx + 1) {
                        Some((m, nx2)) => {
                            if m >= lo && nx2 < n && chars[nx2] == '}' {
                                Some((lo, m, nx2 + 1))
                            } else {
                                None
                            }
                        },
                        None => None,
                    }
                } else {
                    None
                }
            },
            None => None,
        }
    }
}

/// Reads an escape sequence starting at the backslash: a class letter, a
/// literal metacharacter, `\xHH` or `\uHHHH`.
fn scan_escape(chars: &Vec<char>, i: usize) -> (r: Option<(Token, usize)>)
    requires
        i < chars@.len(),
    ensures
        r matches Some((t, nx)) ==> i < nx <= chars@.len() && !(t matches Token::Quant { .. })
            && spec_scan_escape(chars@, i as int) == Some((t, nx as int)),
        r is None ==> spec_scan_escape(chars@, i as int) is None,
{
    let n = chars.len();
    if n - i < 2 {
        return None;
    }
    let e = chars[i + 1];
    if is_class_tag(e) {
        Some((Token::Class { tag: e }, i + 2))
    } else if is_meta(e) {
        Some((Token::Chr { c: e }, i + 2))
    } else if e == 'x' {
        if n - i < 4 {
            return None;
        }
        let h1 = match hex_val(chars[i + 2]) {
            Some(v) => v,
            None => {
                return None;
            },
        };
        let h2 = match hex_val(chars[i + 3]) {
            Some(v) => v,
            None => {
                return None;
            },
        };
        let v = h1 * 16 + h2;
        let c = match char::from_u32(v) {
            Some(c) => c,
            None => {
                proof {
                    assert(false);
                }
                return None;
            },
        };
        Some((Token::Chr { c }, i + 4))
    } else if e == 'u' {
        if n - i < 6 {
            return None;
        }
        let h1 = match hex_val(chars[i + 2]) {
            Some(v) => v,
            None => {
                return None;
            },
        };
        let h2 = match hex_val(chars[i + 3]) {
            Some(v) => v,
            None => {
                return None;
            },
        };
        let h3 = match hex_val(chars[i + 4]) {
            Some(v) => v,
            None => {
                return None;
            },
        };
        let h4 = match hex_val(chars[i + 5]) {
            Some(v) => v,
            None => {
                return None;
            },
        };
        let v = ((h1 * 16 + h2) * 16 + h3) * 16 + h4;
        match char::from_u32(v) {
            Some(c) => Some((Token::Chr { c }, i + 6)),
            None => None,
        }
    } else {
        None
    }
}

proof fn lemma_wf_tokens_push(ts: Seq<Token>, t: Token)
    requires
        wf_tokens(ts),
        t matches Token::Quant { lo, hi } ==> lo <= hi,
    ensures
        wf_tokens(ts.push(t)),
{
    assert forall|j: int| 0 <= j < ts.push(t).len() implies ((#[trigger] ts.push(t)[j])
        matches Token::Quant { lo, hi } ==> lo <= hi) by {
        if j < ts.len() {
            assert(ts.push(t)[j] == ts[j]);
        } else {
            assert(ts.push(t)[j] == t);
        }
    }
}

/// Concatenating a token run with a tokenization tail.
pub open spec fn opt_concat(pre: Seq<Token>, rest: Option<Seq<Token>>) -> Option<Seq<Token>> {
    match rest {
        None => None,
        Some(r) => Some(pre + r),
    }
}

/// Splits the pattern text into tokens; `None` on any lexical error.
fn tokenize(chars: &Vec<char>) -> (r: Option<Vec<Token>>)
    ensures
        r matches Some(ts) ==> wf_tokens(ts@) && spec_tokens_from(chars@, 0) == Some(ts@),
        r is None ==> spec_tokens_from(chars@, 0) is None,
{
    let mut out: Vec<Token> = Vec::new();
    let mut i: usize = 0;
    proof {
        assert(out@ + spec_tokens_from(chars@, 0)->Some_0 =~= spec_tokens_from(chars@, 0)->Some_0);
    }
    while i < chars.len()
        invariant
            i <= chars@.len(),
            wf_tokens(out@),
            spec_tokens_from(chars@, 0) == opt_concat(out@, spec_tokens_from(chars@, i as int)),
        decreases chars@.len() - i,
    {
        let ghost spec_here = spec_tokens_from(chars@, i as int);
        let c = char_at(chars, i);
        let ghost old_out = out@;
        let ghost old_i = i as int;
        if c == '(' {
            out.push(Token::LParen);
            proof {
                lemma_wf_tokens_push(old_out, Token::LParen);
            }
            i += 1;
        } else if c == ')' {
            out.push(Token::RParen);
            proof {
                lemma_wf_tokens_push(old_out, Token::RParen);
            }
            i += 1;
        } else if c == '[' {
            out.push(Token::LBracket);
            proof {
                lemma_wf_tokens_push(old_out, Token::LBracket);
            }
            i += 1;
        } else if c == ']' {
            out.push(Token::RBracket);
            proof {
                lemma_wf_tokens_push(old_out, Token::RBracket);
            }
            i += 1;
        } else if c == '{' {
            match scan_quant(chars, i) {
                Some((lo, hi, nx)) => {
                    out.push(Token::Quant { lo, hi });
                    proof {
                        lemma_wf_tokens_push(old_out, Token::Quant { lo, hi });
                    }
                    i = nx;
                },
                None => {
                    return None;
                },
            }
        } else if c == '}' || c == '-' {
            return None;
        } else if c == '\\' {
            match scan_escape(chars, i) {
                Some((t, nx)) => {
                    out.push(t);
                    proof {
                        lemma_wf_tokens_push(old_out, t);
                    }
                    i = nx;
                },
                None => {
                    return None;
                },
            }
        } else {
            if chars.len() - i > 2 && chars[i + 1] == '-' && !is_meta(chars[i + 2]) {
                out.push(Token::Range { lo: c, hi: chars[i + 2] });
                proof {
                    lemma_wf_tokens_push(old_out, Token::Range { lo: c, hi: chars@[i as int + 2] });
                }
                i += 3;
            } else {
                proof {
                    if chars@.len() - old_i > 2 && chars@[old_i + 1] == '-' {
                        assert(spec_is_meta(chars@[old_i + 2]));
                    }
                }
                out.push(Token::Chr { c });
                proof {
                    lemma_wf_tokens_push(old_out, Token::Chr { c });
                }
                i += 1;
            }
        }
        proof {
            let tkn = out@.last();
            assert(spec_next_token(chars@, old_i) == Some((tkn, i as int)));
            assert(step_ix(old_i, i as int) == i as int);
            assert(spec_here == opt_concat(seq![tkn], spec_tokens_from(chars@, i as int)));
            assert forall|rest: Seq<Token>|
                spec_tokens_from(chars@, i as int) == Some(rest) implies old_out + (seq![tkn]
                + rest) =~= out@ + rest by {}
            assert(spec_tokens_from(chars@, 0) == opt_concat(
                out@,
                spec_tokens_from(chars@, i as int),
            ));
        }
    }
    proof {
        assert(spec_tokens_from(chars@, chars@.len() as int) == Some(Seq::<Token>::empty()));
        assert(out@ + Seq::<Token>::empty() =~= out@);
    }
    Some(out)
}

/// The pattern of a one-character class escape.
fn class_pattern(tag: char) -> (r: Option<Pattern>)
    ensures
        r matches Some(p) ==> pat_wf(p) && pat_ast(p) == class_ast(tag),
        r is Some <==> spec_is_class_tag(tag),
{
    if tag == 'w' {
        Some(Pattern::new_range(BruteRange::range_letters_lowercase()))
    } else if tag == 'W' {
        Some(Pattern::new_range(BruteRange::range_letters_uppercase()))
    } else if tag == 'd' {
        Some(Pattern::new_range(BruteRange::range_numbers()))
    } else if tag == 'U' {
        Some(Pattern::new_range(BruteRange::range_unicode()))
    } else if tag == 'a' {
        Some(Pattern::new_range(BruteRange::range_ascii()))
    } else if tag == 'l' {
        Some(Pattern::new_multi_range(MBruteRange::letters()))
    } else if tag == 'h' {
        Some(Pattern::new_multi_range(MBruteRange::hex_lower()))
    } else if tag == 'H' {
        Some(Pattern::new_multi_range(MBruteRange::hex_upper()))
    } else if tag == 'X' {
        Some(Pattern::new_multi_range(MBruteRange::hex()))
    } else if tag == 'p' {
        Some(Pattern::new_multi_range(MBruteRange::punct()))
    } else if tag == 'n' {
        Some(Pattern::new_multi_range(MBruteRange::alphanum_lower()))
    } else if tag == 'N' {
        Some(Pattern::new_multi_range(MBruteRange::alphanum_upper()))
    } else if tag == 'm' {
        Some(Pattern::new_multi_range(MBruteRange::alphanum()))
    } else if tag == 'b' {
        Some(Pattern::new_multi_range(MBruteRange::brute()))
    } else {
        None
    }
}

/// The range list of a class escape, for use inside brackets.
fn class_ranges(tag: char) -> (r: Option<Vec<BruteRange>>)
    ensures
        r matches Some(v) ==> all_wf(v@) && v@.len() >= 1 && v@ == class_raw(tag),
        r is Some <==> spec_is_class_tag(tag),
{
    if tag == 'w' {
        Some(BruteRange::ranges_letters_lowercase())
    } else if tag == 'W' {
        Some(BruteRange::ranges_letters_uppercase())
    } else if tag == 'd' {
        Some(BruteRange::ranges_numbers())
    } else if tag == 'U' {
        Some(BruteRange::ranges_unicode())
    } else if tag == 'a' {
        Some(BruteRange::ranges_ascii())
    } else if tag == 'l' {
        Some(BruteRange::ranges_letters())
    } else if tag == 'h' {
        Some(BruteRange::ranges_hex_lowercase())
    } else if tag == 'H' {
        Some(BruteRange::ranges_hex_uppercase())
    } else if tag == 'X' {
        Some(BruteRange::ranges_hex())
    } else if tag == 'p' {
        Some(BruteRange::ranges_punct())
    } else if tag == 'n' {
        Some(BruteRange::ranges_alphanum_lowercase())
    } else if tag == 'N' {
        Some(BruteRange::ranges_alphanum_uppercase())
    } else if tag == 'm' {
        Some(BruteRange::ranges_alphanum())
    } else if tag == 'b' {
        Some(BruteRange::ranges_brute())
    } else {
        None
    }
}

/// Parses a bracketed multi-range body after the opening bracket: a flat
/// list of characters, ranges and class escapes; no nesting, no
/// repetitions, and at least one element.
fn parse_bracket(toks: &Vec<Token>, start: usize) -> (r: Option<(Pattern, usize)>)
    requires
        start <= toks@.len(),
    ensures
        r matches Some((p, nx)) ==> pat_wf(p) && start <= nx <= toks@.len() && (spec_bracket_parse(
            toks@,
            start as int,
            Seq::empty(),
        ) matches Some((rs, nx2)) && rs.len() >= 1 && nx2 == nx as int && pat_ast(p)
            == bracket_ast(rs)),
        r is None ==> !(spec_bracket_parse(toks@, start as int, Seq::empty()) matches Some(
            (rs, _),
        ) && rs.len() >= 1),
{
    let mut ranges: Vec<BruteRange> = Vec::new();
    let mut i = start;
    loop
        invariant_except_break
            spec_bracket_parse(toks@, start as int, Seq::empty()) == spec_bracket_parse(
                toks@,
                i as int,
                ranges@,
            ),
        invariant
            start <= i <= toks@.len(),
            all_wf(ranges@),
        ensures
            start < i <= toks@.len(),
            all_wf(ranges@),
            spec_bracket_parse(toks@, start as int, Seq::empty()) == Some((ranges@, i as int)),
        decreases toks@.len() - i,
    {
        if i == toks.len() {
            // unterminated bracket
            return None;
        }
        match toks[i] {
            Token::RBracket => {
                proof {
                    assert(spec_bracket_parse(toks@, i as int, ranges@) == Some(
                        (ranges@, i as int + 1),
                    ));
                }
                i += 1;
                break ;
            },
            Token::Chr { c } => {
                ranges.push(BruteRange::from_char(c));
                i += 1;
            },
            Token::Range { lo, hi } => {
                ranges.push(BruteRange::new(lo, hi));
                i += 1;
            },
            Token::Class { tag } => {
                let mut cls = match class_ranges(tag) {
                    Some(v) => v,
                    None => {
                        return None;
                    },
                };
                let ghost before = ranges@;
                let mut j: usize = 0;
                while j < cls.len()
                    invariant
                        all_wf(ranges@),
                        all_wf(cls@),
                        j <= cls@.len(),
                        cls@ == class_raw(tag),
                        ranges@ == before + cls@.subrange(0, j as int),
                    decreases cls@.len() - j,
                {
                    ranges.push(cls[j]);
                    proof {
                        assert(ranges@ =~= before + cls@.subrange(0, j as int + 1));
                    }
                    j += 1;
                }
                proof {
                    assert(cls@.subrange(0, cls@.len() as int) =~= cls@);
                    assert(ranges@ == before + class_raw(tag));
                }
                i += 1;
            },
            _ => {
                return None;
            },
        }
    }
    if ranges.len() == 0 {
        None
    } else if ranges.len() == 1 {
        Some((Pattern::new_range(ranges[0]), i))
    } else {
        Some((Pattern::new_multi_range(MBruteRange::from_ranges(ne_from_vec(ranges))), i))
    }
}

/// Parses a sequence of atoms with optional repetition suffixes until the
/// closing parenthesis (inside a group) or the end of input (at top
/// level).  Returns the pattern and the index past what was consumed.
fn parse_group(toks: &Vec<Token>, start: usize, in_paren: bool) -> (r: Option<(Pattern, usize)>)
    requires
        start <= toks@.len(),
        wf_tokens(toks@),
    ensures
        r matches Some((p, nx)) ==> pat_wf(p) && start <= nx <= toks@.len() && (spec_group_parse(
            toks@,
            start as int,
            in_paren,
            Seq::empty(),
            false,
        ) matches Some((items, nx2)) && items.len() >= 1 && nx2 == nx as int && pat_ast(p)
            == unwrap_group(items)),
        r is None ==> !(spec_group_parse(toks@, start as int, in_paren, Seq::empty(), false)
            matches Some((items, _)) && items.len() >= 1),
    decreases toks@.len() - start,
{
    let mut patterns: Vec<Pattern> = Vec::new();
    let mut i = start;
    let mut last_quant = false;
    loop
        invariant_except_break
            spec_group_parse(toks@, start as int, in_paren, Seq::empty(), false)
                == spec_group_parse(toks@, i as int, in_paren, asts_of(patterns@), last_quant),
        invariant
            start <= i <= toks@.len(),
            wf_tokens(toks@),
            forall|j: int| 0 <= j < patterns@.len() ==> pat_wf(#[trigger] patterns@[j]),
        ensures
            start <= i <= toks@.len(),
            forall|j: int| 0 <= j < patterns@.len() ==> pat_wf(#[trigger] patterns@[j]),
            spec_group_parse(toks@, start as int, in_paren, Seq::empty(), false) == Some(
                (asts_of(patterns@), i as int),
            ),
        decreases toks@.len() - i,
    {
        if i == toks.len() {
            if in_paren {
                // unterminated group
                return None;
            }
            break ;
        }
        match toks[i] {
            Token::RParen => {
                if in_paren {
                    proof {
                        assert(spec_group_parse(
                            toks@,
                            i as int,
                            in_paren,
                            asts_of(patterns@),
                            last_quant,
                        ) == Some((asts_of(patterns@), i as int + 1)));
                    }
                    i += 1;
                    break ;
                } else {
                    return None;
                }
            },
            Token::LParen => {
                match parse_group(toks, i + 1, true) {
                    Some((p, nx)) => {
                        proof {
                            assert(nx > i);
                        }
                        let ghost before = patterns@;
                        patterns.push(p);
                        proof {
                            lemma_asts_of_push(before, p);
                        }
                        i = nx;
                        last_quant = false;
                    },
                    None => {
                        return None;
                    },
                }
            },
            Token::LBracket => {
                match parse_bracket(toks, i + 1) {
                    Some((p, nx)) => {
                        let ghost before = patterns@;
                        patterns.push(p);
                        proof {
                            lemma_asts_of_push(before, p);
                        }
                        i = nx;
                        last_quant = false;
                    },
                    None => {
                        return None;
                    },
                }
            },
            Token::RBracket => {
                return None;
            },
            Token::Quant { lo, hi } => {
                if last_quant {
                    // a repetition suffix may not follow another directly
                    return None;
                }
                match patterns.pop() {
                    Some(p) => {
                        proof {
                            assert(wf_tokens(toks@));
                            assert(toks@[i as int] matches Token::Quant { lo: l2, hi: h2 } ==> l2
                                <= h2);
                        }
                        let ghost before = patterns@;
                        let ghost whole = before.push(p);
                        let rep = Pattern::new_length(p, lo, hi);
                        patterns.push(rep);
                        proof {
                            lemma_asts_of_push(before, p);
                            lemma_asts_of_push(before, rep);
                            assert(asts_of(whole).drop_last() =~= asts_of(before));
                            assert(asts_of(whole).last() == pat_ast(p));
                            assert(pat_ast(rep) == Ast::Rep {
                                inner: seq![pat_ast(p)],
                                lo,
                                hi,
                            });
                        }
                        i += 1;
                        last_quant = true;
                    },
                    None => {
                        return None;
                    },
                }
            },
            Token::Range { lo, hi } => {
                let ghost before = patterns@;
                let atom = Pattern::new_range(BruteRange::new(lo, hi));
                patterns.push(atom);
                proof {
                    lemma_asts_of_push(before, atom);
                    assert(pat_ast(atom) == range_ast(lo, hi));
                }
                i += 1;
                last_quant = false;
            },
            Token::Chr { c } => {
                let ghost before = patterns@;
                let atom = Pattern::new_range(BruteRange::from_char(c));
                patterns.push(atom);
                proof {
                    lemma_asts_of_push(before, atom);
                }
                i += 1;
                last_quant = false;
            },
            Token::Class { tag } => {
                match class_pattern(tag) {
                    Some(p) => {
                        let ghost before = patterns@;
                        patterns.push(p);
                        proof {
                            lemma_asts_of_push(before, p);
                        }
                        i += 1;
                        last_quant = false;
                    },
                    None => {
                        return None;
                    },
                }
            },
        }
    }
    proof {
        lemma_asts_of_len(patterns@);
    }
    if patterns.len() == 0 {
        None
    } else if patterns.len() == 1 {
        proof {
            assert(asts_of(patterns@.drop_last()) == Seq::<Ast>::empty()) by {
                assert(patterns@.drop_last().len() == 0);
            }
            assert(asts_of(patterns@) == Seq::<Ast>::empty().push(pat_ast(patterns@.last())));
            assert(asts_of(patterns@)[0] == pat_ast(patterns@.last()));
            assert(unwrap_group(asts_of(patterns@)) == pat_ast(patterns@.last()));
        }
        match patterns.pop() {
            Some(p) => Some((p, i)),
            None => None,
        }
    } else {
        let ghost items = asts_of(patterns@);
        let r = Pattern::new_group(patterns);
        proof {
            assert(pat_ast(r) == Ast::Group { items });
            assert(unwrap_group(items) == Ast::Group { items });
        }
        Some((r, i))
    }
}

/// Appending a pattern appends its shape.
proof fn lemma_asts_of_push(ps: Seq<Pattern>, p: Pattern)
    ensures
        asts_of(ps.push(p)) == asts_of(ps).push(pat_ast(p)),
{
    assert(ps.push(p).drop_last() =~= ps);
    assert(ps.push(p).last() == p);
}

/// A pattern list and its shape list have one length.
proof fn lemma_asts_of_len(ps: Seq<Pattern>)
    ensures
        asts_of(ps).len() == ps.len(),
    decreases ps,
{
    if ps.len() > 0 {
        lemma_asts_of_len(ps.drop_last());
    }
}

/// Compiles a pattern string into a pattern, or `None` exactly when the
/// text is not a sentence of the grammar.
pub fn parse_pattern(pattern: &str) -> (r: Option<Pattern>)
    ensures
        r is Some <==> spec_accepts(pattern@),
        r matches Some(p) ==> pat_wf(p) && spec_parse(pattern@) == Some(pat_ast(p)),
{
    let chars = crate::trusted::str_chars(pattern);
    let toks = match tokenize(&chars) {
        Some(ts) => ts,
        None => {
            return None;
        },
    };
    match parse_group(&toks, 0, false) {
        Some((p, _)) => Some(p),
        None => None,
    }
}

/// The grammar accepts a plain range expression and rejects a dangling
/// range operator, checked on concrete texts.
pub proof fn grammar_examples()
    ensures
        spec_accepts(seq!['a', '-', 'c']),
        !spec_accepts(seq!['-', 'C']),
        !spec_accepts(Seq::<char>::empty()),
{
    reveal_with_fuel(spec_tokens_from, 3);
    reveal_with_fuel(spec_group_parse, 3);
    let s1 = seq!['a', '-', 'c'];
    assert(spec_next_token(s1, 0) == Some((Token::Range { lo: 'a', hi: 'c' }, 3int)));
    assert(spec_tokens_from(s1, 3) == Some(Seq::<Token>::empty()));
    assert(spec_tokens_from(s1, 0) == Some(seq![Token::Range { lo: 'a', hi: 'c' }]
        + Seq::<Token>::empty()));
    let ts1 = seq![Token::Range { lo: 'a', hi: 'c' }] + Seq::<Token>::empty();
    assert(ts1 =~= seq![Token::Range { lo: 'a', hi: 'c' }]);
    assert(ts1[0] == (Token::Range { lo: 'a', hi: 'c' }));
    assert(spec_group_parse(ts1, 1, false, seq![range_ast('a', 'c')], false) == Some(
        (seq![range_ast('a', 'c')], 1int),
    ));
    assert(Seq::<Ast>::empty().push(range_ast('a', 'c')) =~= seq![range_ast('a', 'c')]);
    assert(spec_group_parse(ts1, 0, false, Seq::empty(), false) == Some(
        (seq![range_ast('a', 'c')], 1int),
    ));
    let s2 = seq!['-', 'C'];
    assert(spec_next_token(s2, 0) is None);
    assert(spec_tokens_from(s2, 0) is None);
    assert(spec_tokens_from(Seq::<char>::empty(), 0) == Some(Seq::<Token>::empty()));
    assert(spec_group_parse(Seq::<Token>::empty(), 0, false, Seq::empty(), false) == Some(
        (Seq::<Ast>::empty(), 0int),
    ));
}

} // verus!
