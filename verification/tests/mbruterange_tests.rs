#![allow(non_snake_case)]

use ctf_brute::ops::{BruteRange, MBruteRange};
use nonempty::NonEmpty;

fn ne(ranges: Vec<BruteRange>) -> NonEmpty<BruteRange> {
    NonEmpty::from_vec(ranges).unwrap()
}

fn br(r: std::ops::RangeInclusive<char>) -> BruteRange {
    BruteRange::from_range(r)
}

fn collect_multi(m: &MBruteRange) -> Vec<char> {
    let mut it = m.iter();
    let mut out = Vec::new();
    while it.has_next() {
        out.push(it.get_next());
    }
    out
}

#[test]
fn test_merge_ranges_single() {
    let result = MBruteRange::merge_and_order_ranges(ne(vec![br('a'..='z')]));
    assert_eq!(result, ne(vec![br('a'..='z')]));
}

#[test]
fn test_merge_ranges_multi() {
    let result = MBruteRange::merge_and_order_ranges(ne(vec![
        br('0'..='9'),
        br('A'..='Z'),
        br('a'..='z'),
    ]));
    assert_eq!(result, ne(vec![br('0'..='9'), br('A'..='Z'), br('a'..='z')]));
}

#[test]
fn test_merge_ranges_multi_sort() {
    let result = MBruteRange::merge_and_order_ranges(ne(vec![
        br('a'..='z'),
        br('A'..='Z'),
        br('0'..='9'),
    ]));
    assert_eq!(result, ne(vec![br('0'..='9'), br('A'..='Z'), br('a'..='z')]));
}

#[test]
fn test_merge_ranges_single_reversed1() {
    let result = MBruteRange::merge_and_order_ranges(ne(vec![br('z'..='a')]));
    assert_eq!(result, ne(vec![br('a'..='z')]));
}

#[test]
fn test_merge_ranges_multi_reversed2() {
    let result = MBruteRange::merge_and_order_ranges(ne(vec![
        br('z'..='a'),
        br('Z'..='A'),
        br('9'..='0'),
    ]));
    assert_eq!(result, ne(vec![br('0'..='9'), br('A'..='Z'), br('a'..='z')]));
}

#[test]
fn test_merge_ranges_one_reversed2() {
    let result = MBruteRange::merge_and_order_ranges(ne(vec![
        br('9'..='0'),
        br('A'..='Z'),
        br('a'..='z'),
    ]));
    assert_eq!(result, ne(vec![br('0'..='9'), br('A'..='Z'), br('a'..='z')]));
}

#[test]
fn test_merge_ranges_one_reversed3() {
    let result = MBruteRange::merge_and_order_ranges(ne(vec![
        br('0'..='9'),
        br('Z'..='A'),
        br('a'..='z'),
    ]));
    assert_eq!(result, ne(vec![br('0'..='9'), br('A'..='Z'), br('a'..='z')]));
}

#[test]
fn test_merge_ranges_one_reversed4() {
    let result = MBruteRange::merge_and_order_ranges(ne(vec![
        br('0'..='9'),
        br('A'..='Z'),
        br('z'..='a'),
    ]));
    assert_eq!(result, ne(vec![br('0'..='9'), br('A'..='Z'), br('a'..='z')]));
}

#[test]
fn test_merge_ranges_single_overlap() {
    let result = MBruteRange::merge_and_order_ranges(ne(vec![br('A'..='a'), br('Z'..='z')]));
    assert_eq!(result, ne(vec![br('A'..='z')]));
}

#[test]
fn test_merge_ranges_under_overlap() {
    let result = MBruteRange::merge_and_order_ranges(ne(vec![
        br('A'..='a'),
        br('Z'..='z'),
        br('B'..='b'),
    ]));
    assert_eq!(result, ne(vec![br('A'..='z')]));
}

#[test]
fn test_merge_ranges_multi_overlap() {
    let result = MBruteRange::merge_and_order_ranges(ne(vec![
        br('A'..='D'),
        br('B'..='E'),
        br('a'..='d'),
        br('b'..='e'),
    ]));
    assert_eq!(result, ne(vec![br('A'..='E'), br('a'..='e')]));
}

#[test]
fn test_merge_ranges_overlap_start() {
    let result = MBruteRange::merge_and_order_ranges(ne(vec![br('A'..='C'), br('A'..='E')]));
    assert_eq!(result, ne(vec![br('A'..='E')]));
}

#[test]
fn test_merge_ranges_overlap_end() {
    let result = MBruteRange::merge_and_order_ranges(ne(vec![br('A'..='C'), br('C'..='E')]));
    assert_eq!(result, ne(vec![br('A'..='E')]));
}

#[test]
fn test_merge_ranges_overlap_end2() {
    let result = MBruteRange::merge_and_order_ranges(ne(vec![
        br('A'..='C'),
        br('C'..='E'),
        br('E'..='G'),
    ]));
    assert_eq!(result, ne(vec![br('A'..='G')]));
}

#[test]
fn test_merge_ranges_allongside() {
    let result = MBruteRange::merge_and_order_ranges(ne(vec![br('A'..='C'), br('D'..='E')]));
    assert_eq!(result, ne(vec![br('A'..='E')]));
}

#[test]
fn test_merge_ranges_multi_allongside() {
    let result = MBruteRange::merge_and_order_ranges(ne(vec![
        br('A'..='C'),
        br('D'..='E'),
        br('F'..='H'),
    ]));
    assert_eq!(result, ne(vec![br('A'..='H')]));
}

#[test]
fn test_merge_ranges_not_allongside() {
    let result = MBruteRange::merge_and_order_ranges(ne(vec![br('A'..='B'), br('D'..='E')]));
    assert_eq!(result, ne(vec![br('A'..='B'), br('D'..='E')]));
}

#[test]
fn test_merge_ranges_char() {
    let result = MBruteRange::merge_and_order_ranges(ne(vec![br('1'..='1')]));
    assert_eq!(result, ne(vec![br('1'..='1')]));
}

#[test]
fn test_merge_ranges_chars() {
    let result = MBruteRange::merge_and_order_ranges(ne(vec![br('A'..='A'), br('a'..='a')]));
    assert_eq!(result, ne(vec![br('A'..='A'), br('a'..='a')]));
}

#[test]
fn test_merge_ranges_chars_allongside() {
    let result = MBruteRange::merge_and_order_ranges(ne(vec![br('A'..='A'), br('B'..='B')]));
    assert_eq!(result, ne(vec![br('A'..='B')]));
}

#[test]
fn test_merge_ranges_chars_overlap() {
    let result = MBruteRange::merge_and_order_ranges(ne(vec![br('A'..='A'), br('A'..='A')]));
    assert_eq!(result, ne(vec![br('A'..='A')]));
}

#[test]
fn test_merge_ranges_range_char_overlap() {
    let result = MBruteRange::merge_and_order_ranges(ne(vec![br('A'..='D'), br('D'..='D')]));
    assert_eq!(result, ne(vec![br('A'..='D')]));
}

#[test]
fn test_merge_ranges_range_char_allongside() {
    let result = MBruteRange::merge_and_order_ranges(ne(vec![br('A'..='D'), br('E'..='E')]));
    assert_eq!(result, ne(vec![br('A'..='E')]));
}

#[test]
fn test_merge_ranges_char_range_overlap() {
    let result = MBruteRange::merge_and_order_ranges(ne(vec![br('A'..='A'), br('A'..='D')]));
    assert_eq!(result, ne(vec![br('A'..='D')]));
}

#[test]
fn test_merge_ranges_char_range_allongside() {
    let result = MBruteRange::merge_and_order_ranges(ne(vec![br('A'..='A'), br('B'..='E')]));
    assert_eq!(result, ne(vec![br('A'..='E')]));
}

#[test]
fn test_merge_idempotent_scenario() {
    let merged = MBruteRange::merge_and_order_ranges(ne(vec![
        br('b'..='e'),
        br('f'..='g'),
        br('A'..='C'),
        br('B'..='D'),
    ]));
    let again = MBruteRange::merge_and_order_ranges(merged.clone());
    assert_eq!(again, merged);
    assert_eq!(merged, ne(vec![br('A'..='D'), br('b'..='g')]));
}

#[test]
fn test_multi_single() {
    let range = MBruteRange::from_ranges(ne(vec![br('a'..='c')]));
    let result = collect_multi(&range);
    assert_eq!(result, vec!['a', 'b', 'c']);
    for i in 0..result.len() {
        assert_eq!(range.nth(i as u32), Some(result[i]));
    }
    assert_eq!(range.nth(result.len() as u32), None);
}

#[test]
fn test_multi_multi() {
    let range = MBruteRange::from_ranges(ne(vec![br('0'..='3'), br('A'..='C'), br('b'..='d')]));
    let result = collect_multi(&range);
    assert_eq!(result, vec!['0', '1', '2', '3', 'A', 'B', 'C', 'b', 'c', 'd']);
    for i in 0..result.len() {
        assert_eq!(range.nth(i as u32), Some(result[i]));
    }
    assert_eq!(range.nth(result.len() as u32), None);
}

#[test]
fn test_multi_multi_sort() {
    let range = MBruteRange::from_ranges(ne(vec![br('b'..='d'), br('A'..='C'), br('0'..='3')]));
    let result = collect_multi(&range);
    assert_eq!(result, vec!['0', '1', '2', '3', 'A', 'B', 'C', 'b', 'c', 'd']);
    for i in 0..result.len() {
        assert_eq!(range.nth(i as u32), Some(result[i]));
    }
    assert_eq!(range.nth(result.len() as u32), None);
}

#[test]
fn test_multi_single_overlap() {
    let range = MBruteRange::from_ranges(ne(vec![br('a'..='d'), br('b'..='f')]));
    let result = collect_multi(&range);
    assert_eq!(result, vec!['a', 'b', 'c', 'd', 'e', 'f']);
    for i in 0..result.len() {
        assert_eq!(range.nth(i as u32), Some(result[i]));
    }
    assert_eq!(range.nth(result.len() as u32), None);
}

#[test]
fn test_multi_not_alongside() {
    let range = MBruteRange::from_ranges(ne(vec![br('A'..='B'), br('D'..='E')]));
    let result = collect_multi(&range);
    assert_eq!(result, vec!['A', 'B', 'D', 'E']);
    for i in 0..result.len() {
        assert_eq!(range.nth(i as u32), Some(result[i]));
    }
    assert_eq!(range.nth(result.len() as u32), None);
}

#[test]
fn test_multi_reset_replays() {
    let range = MBruteRange::from_ranges(ne(vec![br('x'..='z'), br('0'..='1')]));
    let mut it = range.iter();
    let mut first = Vec::new();
    while it.has_next() {
        first.push(it.get_next());
    }
    it.reset();
    let mut second = Vec::new();
    while it.has_next() {
        second.push(it.get_next());
    }
    assert_eq!(first, second);
    assert_eq!(first, vec!['0', '1', 'x', 'y', 'z']);
}

#[test]
fn test_multi_char_range_alongside_largest_case() {
    let chars: Vec<char> = ('\0'..='\u{10ffff}').step_by(2).collect();
    let ranges: Vec<BruteRange> = chars
        .clone()
        .into_iter()
        .map(BruteRange::from_char)
        .collect();
    let range = MBruteRange::from_ranges(NonEmpty::from_vec(ranges).unwrap());
    let result = collect_multi(&range);
    assert_eq!(result, chars);
    for i in (0..result.len()).step_by(1001) {
        assert_eq!(range.nth(i as u32), Some(result[i]));
    }
    assert_eq!(range.nth(result.len() as u32), None);
}

#[test]
fn test_iter_numbers() {
    let result = collect_multi(&MBruteRange::numbers());
    assert_eq!(result, vec!['0', '1', '2', '3', '4', '5', '6', '7', '8', '9']);
}

#[test]
fn test_iter_letters_lower() {
    let result = collect_multi(&MBruteRange::letters_lower());
    assert_eq!(
        result,
        vec![
            'a', 'b', 'c', 'd', 'e', 'f', 'g', 'h', 'i', 'j', 'k', 'l', 'm', 'n', 'o', 'p', 'q',
            'r', 's', 't', 'u', 'v', 'w', 'x', 'y', 'z'
        ]
    );
}

#[test]
fn test_iter_letters_upper() {
    let result = collect_multi(&MBruteRange::letters_upper());
    assert_eq!(
        result,
        vec![
            'A', 'B', 'C', 'D', 'E', 'F', 'G', 'H', 'I', 'J', 'K', 'L', 'M', 'N', 'O', 'P', 'Q',
            'R', 'S', 'T', 'U', 'V', 'W', 'X', 'Y', 'Z'
        ]
    );
}

#[test]
fn test_iter_punct() {
    let result = collect_multi(&MBruteRange::punct());
    assert_eq!(
        result,
        vec![
            '!', '"', '#', '$', '%', '&', '\'', '(', ')', '*', '+', ',', '-', '.', '/', ':', ';',
            '<', '=', '>', '?', '@', '[', '\\', ']', '^', '_', '`', '{', '|', '}', '~'
        ]
    );
}

#[test]
fn test_iter_letters() {
    let result = collect_multi(&MBruteRange::letters());
    assert_eq!(
        result,
        vec![
            'A', 'B', 'C', 'D', 'E', 'F', 'G', 'H', 'I', 'J', 'K', 'L', 'M', 'N', 'O', 'P', 'Q',
            'R', 'S', 'T', 'U', 'V', 'W', 'X', 'Y', 'Z', 'a', 'b', 'c', 'd', 'e', 'f', 'g', 'h',
            'i', 'j', 'k', 'l', 'm', 'n', 'o', 'p', 'q', 'r', 's', 't', 'u', 'v', 'w', 'x', 'y',
            'z'
        ]
    );
}

#[test]
fn test_iter_brute() {
    let result = collect_multi(&MBruteRange::brute());
    assert_eq!(
        result,
        vec![
            '!', '"', '#', '$', '%', '&', '\'', '(', ')', '*', '+', ',', '-', '.', '/', '0', '1',
            '2', '3', '4', '5', '6', '7', '8', '9', ':', ';', '<', '=', '>', '?', '@', 'A', 'B',
            'C', 'D', 'E', 'F', 'G', 'H', 'I', 'J', 'K', 'L', 'M', 'N', 'O', 'P', 'Q', 'R', 'S',
            'T', 'U', 'V', 'W', 'X', 'Y', 'Z', '[', '\\', ']', '^', '_', '`', 'a', 'b', 'c', 'd',
            'e', 'f', 'g', 'h', 'i', 'j', 'k', 'l', 'm', 'n', 'o', 'p', 'q', 'r', 's', 't', 'u',
            'v', 'w', 'x', 'y', 'z', '{', '|', '}', '~'
        ]
    );
}

#[test]
fn test_iter_hex_lower() {
    let result = collect_multi(&MBruteRange::hex_lower());
    assert_eq!(
        result,
        vec!['0', '1', '2', '3', '4', '5', '6', '7', '8', '9', 'a', 'b', 'c', 'd', 'e', 'f']
    );
}

#[test]
fn test_iter_hex_upper() {
    let result = collect_multi(&MBruteRange::hex_upper());
    assert_eq!(
        result,
        vec!['0', '1', '2', '3', '4', '5', '6', '7', '8', '9', 'A', 'B', 'C', 'D', 'E', 'F']
    );
}

#[test]
fn test_iter_hex() {
    let result = collect_multi(&MBruteRange::hex());
    assert_eq!(
        result,
        vec![
            '0', '1', '2', '3', '4', '5', '6', '7', '8', '9', 'A', 'B', 'C', 'D', 'E', 'F', 'a',
            'b', 'c', 'd', 'e', 'f'
        ]
    );
}

#[test]
fn test_iter_alphanum_lower() {
    let result = collect_multi(&MBruteRange::alphanum_lower());
    assert_eq!(
        result,
        vec![
            '0', '1', '2', '3', '4', '5', '6', '7', '8', '9', 'a', 'b', 'c', 'd', 'e', 'f', 'g',
            'h', 'i', 'j', 'k', 'l', 'm', 'n', 'o', 'p', 'q', 'r', 's', 't', 'u', 'v', 'w', 'x',
            'y', 'z'
        ]
    );
}

#[test]
fn test_iter_alphanum_upper() {
    let result = collect_multi(&MBruteRange::alphanum_upper());
    assert_eq!(
        result,
        vec![
            '0', '1', '2', '3', '4', '5', '6', '7', '8', '9', 'A', 'B', 'C', 'D', 'E', 'F', 'G',
            'H', 'I', 'J', 'K', 'L', 'M', 'N', 'O', 'P', 'Q', 'R', 'S', 'T', 'U', 'V', 'W', 'X',
            'Y', 'Z'
        ]
    );
}

#[test]
fn test_iter_alphanum() {
    let result = collect_multi(&MBruteRange::alphanum());
    assert_eq!(
        result,
        vec![
            '0', '1', '2', '3', '4', '5', '6', '7', '8', '9', 'A', 'B', 'C', 'D', 'E', 'F', 'G',
            'H', 'I', 'J', 'K', 'L', 'M', 'N', 'O', 'P', 'Q', 'R', 'S', 'T', 'U', 'V', 'W', 'X',
            'Y', 'Z', 'a', 'b', 'c', 'd', 'e', 'f', 'g', 'h', 'i', 'j', 'k', 'l', 'm', 'n', 'o',
            'p', 'q', 'r', 's', 't', 'u', 'v', 'w', 'x', 'y', 'z'
        ]
    );
}

#[test]
fn constant_test_iter_RANGE_ASCII() {
    let result = collect_multi(&MBruteRange::ascii());
    let expected: Vec<char> = (0..=0xff)
        .into_iter()
        .map(|x| char::from_u32(x))
        .filter(|x| x.is_some())
        .map(|x| x.unwrap())
        .collect();
    assert_eq!(result.len(), expected.len());
    assert_eq!(result, expected);
}

#[test]
fn constant_test_iter_RANGE_UNICODE() {
    let result = collect_multi(&MBruteRange::unicode());
    let expected: Vec<char> = (0..=0x10ffff)
        .into_iter()
        .map(|x| char::from_u32(x))
        .filter(|x| x.is_some())
        .map(|x| x.unwrap())
        .collect();
    assert_eq!(result.len(), expected.len());
    assert_eq!(result, expected);
}

#[test]
fn test_multi_len_matches_iteration() {
    let range = MBruteRange::from_ranges(ne(vec![br('\u{d000}'..='\u{e800}'), br('a'..='c')]));
    assert_eq!(range.len(), collect_multi(&range).len());
}

#[test]
fn test_multi_single_reversed1() {
    let range = MBruteRange::from_ranges(ne(vec![br('d'..='a')]));
    let result = collect_multi(&range);
    assert_eq!(result, vec!['a', 'b', 'c', 'd']);
    for i in 0..result.len() {
        assert_eq!(range.nth(i as u32), Some(result[i]));
    }
    assert_eq!(range.nth(result.len() as u32), None);
}

#[test]
fn test_multi_multi_reversed2() {
    let range = MBruteRange::from_ranges(ne(vec![br('d'..='a'), br('D'..='A'), br('3'..='0')]));
    let result = collect_multi(&range);
    assert_eq!(
        result,
        vec!['0', '1', '2', '3', 'A', 'B', 'C', 'D', 'a', 'b', 'c', 'd']
    );
    for i in 0..result.len() {
        assert_eq!(range.nth(i as u32), Some(result[i]));
    }
    assert_eq!(range.nth(result.len() as u32), None);
}

#[test]
fn test_multi_one_reversed2() {
    let range = MBruteRange::from_ranges(ne(vec![br('3'..='0'), br('A'..='D'), br('a'..='d')]));
    let result = collect_multi(&range);
    assert_eq!(
        result,
        vec!['0', '1', '2', '3', 'A', 'B', 'C', 'D', 'a', 'b', 'c', 'd']
    );
    for i in 0..result.len() {
        assert_eq!(range.nth(i as u32), Some(result[i]));
    }
    assert_eq!(range.nth(result.len() as u32), None);
}

#[test]
fn test_multi_one_reversed3() {
    let range = MBruteRange::from_ranges(ne(vec![br('0'..='3'), br('D'..='A'), br('a'..='d')]));
    let result = collect_multi(&range);
    assert_eq!(
        result,
        vec!['0', '1', '2', '3', 'A', 'B', 'C', 'D', 'a', 'b', 'c', 'd']
    );
    for i in 0..result.len() {
        assert_eq!(range.nth(i as u32), Some(result[i]));
    }
    assert_eq!(range.nth(result.len() as u32), None);
}

#[test]
fn test_multi_one_reversed4() {
    let range = MBruteRange::from_ranges(ne(vec![br('0'..='3'), br('A'..='D'), br('d'..='a')]));
    let result = collect_multi(&range);
    assert_eq!(
        result,
        vec!['0', '1', '2', '3', 'A', 'B', 'C', 'D', 'a', 'b', 'c', 'd']
    );
    for i in 0..result.len() {
        assert_eq!(range.nth(i as u32), Some(result[i]));
    }
    assert_eq!(range.nth(result.len() as u32), None);
}

#[test]
fn test_multi_under_overlap() {
    let range = MBruteRange::from_ranges(ne(vec![br('a'..='d'), br('c'..='f'), br('b'..='d')]));
    let result = collect_multi(&range);
    assert_eq!(result, vec!['a', 'b', 'c', 'd', 'e', 'f']);
    for i in 0..result.len() {
        assert_eq!(range.nth(i as u32), Some(result[i]));
    }
    assert_eq!(range.nth(result.len() as u32), None);
}

#[test]
fn test_multi_multi_overlap() {
    let range = MBruteRange::from_ranges(ne(vec![
        br('A'..='D'),
        br('B'..='E'),
        br('a'..='d'),
        br('b'..='e'),
    ]));
    let result = collect_multi(&range);
    assert_eq!(result, vec!['A', 'B', 'C', 'D', 'E', 'a', 'b', 'c', 'd', 'e']);
    for i in 0..result.len() {
        assert_eq!(range.nth(i as u32), Some(result[i]));
    }
    assert_eq!(range.nth(result.len() as u32), None);
}

#[test]
fn test_multi_overlap_start() {
    let range = MBruteRange::from_ranges(ne(vec![br('A'..='C'), br('A'..='E')]));
    let result = collect_multi(&range);
    assert_eq!(result, vec!['A', 'B', 'C', 'D', 'E']);
    for i in 0..result.len() {
        assert_eq!(range.nth(i as u32), Some(result[i]));
    }
    assert_eq!(range.nth(result.len() as u32), None);
}

#[test]
fn test_multi_overlap_end() {
    let range = MBruteRange::from_ranges(ne(vec![br('A'..='C'), br('C'..='E')]));
    let result = collect_multi(&range);
    assert_eq!(result, vec!['A', 'B', 'C', 'D', 'E']);
    for i in 0..result.len() {
        assert_eq!(range.nth(i as u32), Some(result[i]));
    }
    assert_eq!(range.nth(result.len() as u32), None);
}

#[test]
fn test_multi_overlap_end2() {
    let range = MBruteRange::from_ranges(ne(vec![br('A'..='C'), br('C'..='E'), br('E'..='G')]));
    let result = collect_multi(&range);
    assert_eq!(result, vec!['A', 'B', 'C', 'D', 'E', 'F', 'G']);
    for i in 0..result.len() {
        assert_eq!(range.nth(i as u32), Some(result[i]));
    }
    assert_eq!(range.nth(result.len() as u32), None);
}

#[test]
fn test_multi_alongside() {
    let range = MBruteRange::from_ranges(ne(vec![br('A'..='C'), br('D'..='E')]));
    let result = collect_multi(&range);
    assert_eq!(result, vec!['A', 'B', 'C', 'D', 'E']);
    for i in 0..result.len() {
        assert_eq!(range.nth(i as u32), Some(result[i]));
    }
    assert_eq!(range.nth(result.len() as u32), None);
}

#[test]
fn test_multi_multi_alongside() {
    let range = MBruteRange::from_ranges(ne(vec![br('A'..='C'), br('D'..='E'), br('F'..='H')]));
    let result = collect_multi(&range);
    assert_eq!(result, vec!['A', 'B', 'C', 'D', 'E', 'F', 'G', 'H']);
    for i in 0..result.len() {
        assert_eq!(range.nth(i as u32), Some(result[i]));
    }
    assert_eq!(range.nth(result.len() as u32), None);
}

#[test]
fn test_multi_char() {
    let range = MBruteRange::from_ranges(ne(vec![br('1'..='1')]));
    let result = collect_multi(&range);
    assert_eq!(result, vec!['1']);
    for i in 0..result.len() {
        assert_eq!(range.nth(i as u32), Some(result[i]));
    }
    assert_eq!(range.nth(result.len() as u32), None);
}

#[test]
fn test_multi_chars() {
    let range = MBruteRange::from_ranges(ne(vec![br('A'..='A'), br('a'..='a')]));
    let result = collect_multi(&range);
    assert_eq!(result, vec!['A', 'a']);
    for i in 0..result.len() {
        assert_eq!(range.nth(i as u32), Some(result[i]));
    }
    assert_eq!(range.nth(result.len() as u32), None);
}

#[test]
fn test_multi_chars_alongside() {
    let range = MBruteRange::from_ranges(ne(vec![br('A'..='A'), br('B'..='B')]));
    let result = collect_multi(&range);
    assert_eq!(result, vec!['A', 'B']);
    for i in 0..result.len() {
        assert_eq!(range.nth(i as u32), Some(result[i]));
    }
    assert_eq!(range.nth(result.len() as u32), None);
}

#[test]
fn test_multi_chars_overlap() {
    let range = MBruteRange::from_ranges(ne(vec![br('A'..='A'), br('A'..='A')]));
    let result = collect_multi(&range);
    assert_eq!(result, vec!['A']);
    for i in 0..result.len() {
        assert_eq!(range.nth(i as u32), Some(result[i]));
    }
    assert_eq!(range.nth(result.len() as u32), None);
}

#[test]
fn test_multi_range_char_overlap() {
    let range = MBruteRange::from_ranges(ne(vec![br('A'..='D'), br('D'..='D')]));
    let result = collect_multi(&range);
    assert_eq!(result, vec!['A', 'B', 'C', 'D']);
    for i in 0..result.len() {
        assert_eq!(range.nth(i as u32), Some(result[i]));
    }
    assert_eq!(range.nth(result.len() as u32), None);
}

#[test]
fn test_multi_range_char_alongside() {
    let range = MBruteRange::from_ranges(ne(vec![br('A'..='D'), br('E'..='E')]));
    let result = collect_multi(&range);
    assert_eq!(result, vec!['A', 'B', 'C', 'D', 'E']);
    for i in 0..result.len() {
        assert_eq!(range.nth(i as u32), Some(result[i]));
    }
    assert_eq!(range.nth(result.len() as u32), None);
}

#[test]
fn test_multi_char_range_overlap() {
    let range = MBruteRange::from_ranges(ne(vec![br('A'..='A'), br('A'..='D')]));
    let result = collect_multi(&range);
    assert_eq!(result, vec!['A', 'B', 'C', 'D']);
    for i in 0..result.len() {
        assert_eq!(range.nth(i as u32), Some(result[i]));
    }
    assert_eq!(range.nth(result.len() as u32), None);
}

#[test]
fn test_multi_char_range_alongside() {
    let range = MBruteRange::from_ranges(ne(vec![br('A'..='A'), br('B'..='E')]));
    let result = collect_multi(&range);
    assert_eq!(result, vec!['A', 'B', 'C', 'D', 'E']);
    for i in 0..result.len() {
        assert_eq!(range.nth(i as u32), Some(result[i]));
    }
    assert_eq!(range.nth(result.len() as u32), None);
}
