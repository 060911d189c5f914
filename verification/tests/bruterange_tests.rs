#![allow(non_snake_case)]

use ctf_brute::ops::{BruteRange, BruteRangeIter};

fn collect_range(r: BruteRange) -> Vec<char> {
    let mut it = r.iter();
    let mut out = Vec::new();
    while it.has_next() {
        out.push(it.get_next());
    }
    out
}

fn collect_ranges(rs: Vec<BruteRange>) -> Vec<char> {
    let mut out = Vec::new();
    for r in rs {
        out.extend(collect_range(r));
    }
    out
}

#[test]
fn test_iter_RANGE_NUMBERSS() {
    let result: Vec<char> = collect_range(BruteRange::range_numbers());
    assert_eq!(
        result,
        vec!['0', '1', '2', '3', '4', '5', '6', '7', '8', '9']
    );
}

#[test]
fn test_iter_RANGE_LETTERS_LOWERCASE() {
    let result: Vec<char> = collect_range(BruteRange::range_letters_lowercase());
    assert_eq!(
        result,
        vec![
            'a', 'b', 'c', 'd', 'e', 'f', 'g', 'h', 'i', 'j', 'k', 'l', 'm', 'n', 'o', 'p', 'q',
            'r', 's', 't', 'u', 'v', 'w', 'x', 'y', 'z'
        ]
    );
}

#[test]
fn test_iter_RANGE_LETTERS_UPPERCASE() {
    let result: Vec<char> = collect_range(BruteRange::range_letters_uppercase());
    assert_eq!(
        result,
        vec![
            'A', 'B', 'C', 'D', 'E', 'F', 'G', 'H', 'I', 'J', 'K', 'L', 'M', 'N', 'O', 'P', 'Q',
            'R', 'S', 'T', 'U', 'V', 'W', 'X', 'Y', 'Z'
        ]
    );
}

#[test]
fn test_iter_RANGE_HEX_LETTERS_LOWERCASE() {
    let result: Vec<char> = collect_range(BruteRange::range_hex_letters_lowercase());
    assert_eq!(result, vec!['a', 'b', 'c', 'd', 'e', 'f']);
}

#[test]
fn test_iter_RANGE_HEX_LETTERS_UPPERCASE() {
    let result: Vec<char> = collect_range(BruteRange::range_hex_letters_uppercase());
    assert_eq!(result, vec!['A', 'B', 'C', 'D', 'E', 'F']);
}

#[test]
fn test_iter_RANGES_PUNCT() {
    let result: Vec<char> = collect_ranges(BruteRange::ranges_punct());
    assert_eq!(
        result,
        vec![
            '!', '"', '#', '$', '%', '&', '\'', '(', ')', '*', '+', ',', '-', '.', '/', ':', ';',
            '<', '=', '>', '?', '@', '[', '\\', ']', '^', '_', '`', '{', '|', '}', '~'
        ]
    );
}

#[test]
fn test_iter_RANGES_NUMBERS() {
    let result: Vec<char> = collect_ranges(BruteRange::ranges_numbers());
    assert_eq!(
        result,
        vec!['0', '1', '2', '3', '4', '5', '6', '7', '8', '9']
    );
}

#[test]
fn test_iter_RANGES_LETTERS_LOWERCASE() {
    let result: Vec<char> = collect_ranges(BruteRange::ranges_letters_lowercase());
    assert_eq!(
        result,
        vec![
            'a', 'b', 'c', 'd', 'e', 'f', 'g', 'h', 'i', 'j', 'k', 'l', 'm', 'n', 'o', 'p', 'q',
            'r', 's', 't', 'u', 'v', 'w', 'x', 'y', 'z'
        ]
    );
}

#[test]
fn test_iter_RANGES_LETTERS_UPPERCASE() {
    let result: Vec<char> = collect_ranges(BruteRange::ranges_letters_uppercase());
    assert_eq!(
        result,
        vec![
            'A', 'B', 'C', 'D', 'E', 'F', 'G', 'H', 'I', 'J', 'K', 'L', 'M', 'N', 'O', 'P', 'Q',
            'R', 'S', 'T', 'U', 'V', 'W', 'X', 'Y', 'Z'
        ]
    );
}

#[test]
fn test_iter_RANGES_LETTERS() {
    let result: Vec<char> = collect_ranges(BruteRange::ranges_letters());
    assert_eq!(
        result,
        vec![
            'A', 'B', 'C', 'D', 'E', 'F', 'G', 'H', 'I', 'J', 'K', 'L', 'M', 'N', 'O', 'P', 'Q',
            'R', 'S', 'T', 'U', 'V', 'W', 'X', 'Y', 'Z', 'a', 'b', 'c', 'd', 'e', 'f', 'g', 'h',
            'i', 'j', 'k', 'l', 'm', 'n', 'o', 'p', 'q', 'r', 's', 't', 'u', 'v', 'w', 'x', 'y',
            'z'
        ]
    );
}

#[test]
fn test_iter_RANGES_BRUTE() {
    let result: Vec<char> = collect_ranges(BruteRange::ranges_brute());
    assert_eq!(
        result,
        vec![
            '!', '"', '#', '$', '%', '&', '\'', '(', ')', '*', '+', ',', '-', '.', '/', '0', '1',
            '2', '3', '4', '5', '6', '7', '8', '9', ':', ';', '<', '=', '>', '?', '@', 'A', 'B',
            'C', 'D', 'E', 'F', 'G', 'H', 'I', 'J', 'K', 'L', 'M', 'N', 'O', 'P', 'Q', 'R', 'S',
            'T', 'U', 'V', 'W', 'X', 'Y', 'Z', '[', '\\', ']', '^', '_', '`', 'a', 'b', 'c', 'd',
            'e', 'f', 'g', 'h', 'i', 'j', 'k', 'l', 'm', 'n', 'o', 'p', 'q', 'r', 's', 't', 'u',
            'v', 'w', 'x', 'y', 'z', '{', '|', '}', '~'
        ]
    );
}

#[test]
fn test_iter_RANGES_HEX_LOWERCASE() {
    let result: Vec<char> = collect_ranges(BruteRange::ranges_hex_lowercase());
    assert_eq!(
        result,
        vec!['0', '1', '2', '3', '4', '5', '6', '7', '8', '9', 'a', 'b', 'c', 'd', 'e', 'f']
    );
}

#[test]
fn test_iter_RANGES_HEX_UPPERCASE() {
    let result: Vec<char> = collect_ranges(BruteRange::ranges_hex_uppercase());
    assert_eq!(
        result,
        vec!['0', '1', '2', '3', '4', '5', '6', '7', '8', '9', 'A', 'B', 'C', 'D', 'E', 'F']
    );
}

#[test]
fn test_iter_RANGES_HEX() {
    let result: Vec<char> = collect_ranges(BruteRange::ranges_hex());
    assert_eq!(
        result,
        vec![
            '0', '1', '2', '3', '4', '5', '6', '7', '8', '9', 'A', 'B', 'C', 'D', 'E', 'F', 'a',
            'b', 'c', 'd', 'e', 'f'
        ]
    );
}

#[test]
fn test_iter_RANGES_ALPHANUM_LOWERCASE() {
    let result: Vec<char> = collect_ranges(BruteRange::ranges_alphanum_lowercase());
    assert_eq!(
        result,
        vec![
            '0', '1', '2', '3', '4', '5', '6', '7', '8', '9', 'a', 'b', 'c', 'd', 'e', 'f', 'g',
            'h', 'i', 'j', 'k', 'l', 'm', 'n', 'o', 'p', 'q', 'r', 's', 't', 'u', 'v', 'w', 'x',
            'y', 'z'
        ]
    );
}

#[test]
fn test_iter_RANGES_ALPHANUM_UPPERCASE() {
    let result: Vec<char> = collect_ranges(BruteRange::ranges_alphanum_uppercase());
    assert_eq!(
        result,
        vec![
            '0', '1', '2', '3', '4', '5', '6', '7', '8', '9', 'A', 'B', 'C', 'D', 'E', 'F', 'G',
            'H', 'I', 'J', 'K', 'L', 'M', 'N', 'O', 'P', 'Q', 'R', 'S', 'T', 'U', 'V', 'W', 'X',
            'Y', 'Z'
        ]
    );
}

#[test]
fn test_iter_RANGES_ALPHANUM() {
    let result: Vec<char> = collect_ranges(BruteRange::ranges_alphanum());
    assert_eq!(
        result,
        vec![
            '0', '1', '2', '3', '4', '5', '6', '7', '8', '9', 'A', 'B', 'C', 'D', 'E', 'F', 'G',
            'H', 'I', 'J', 'K', 'L', 'M', 'N', 'O', 'P', 'Q', 'R', 'S', 'T', 'U', 'V', 'W', 'X',
            'Y', 'Z', 'a', 'b', 'c', 'd', 'e', 'f', 'g', 'h', 'i', 'j', 'k', 'l', 'm', 'n', 'o',
            'p', 'q', 'r', 's', 't', 'u', 'v', 'w', 'x', 'y', 'z'
        ]
    );
}

#[test]
fn test_iter_RANGE_ASCII() {
    let result: Vec<char> = collect_range(BruteRange::range_ascii());
    let expected: Vec<char> = (0..=0xff)
        .into_iter()
        .map(|x| char::from_u32(x))
        .filter(|x| x.is_some())
        .map(|x| x.unwrap())
        .collect();
    assert_eq!(result.len(), expected.len());
    assert_eq!(result, expected);
}

#[test]
fn test_iter_RANGES_ASCII() {
    let result: Vec<char> = collect_ranges(BruteRange::ranges_ascii());
    let expected: Vec<char> = (0..=0xff)
        .into_iter()
        .map(|x| char::from_u32(x))
        .filter(|x| x.is_some())
        .map(|x| x.unwrap())
        .collect();
    assert_eq!(result.len(), expected.len());
    assert_eq!(result, expected);
}

#[test]
fn test_iter_RANGE_UNICODE() {
    let result: Vec<char> = collect_range(BruteRange::range_unicode());
    let expected: Vec<char> = (0..=0x10ffff)
        .into_iter()
        .map(|x| char::from_u32(x))
        .filter(|x| x.is_some())
        .map(|x| x.unwrap())
        .collect();
    assert_eq!(result.len(), expected.len());
    assert_eq!(result, expected);
}

#[test]
fn test_iter_RANGES_UNICODE() {
    let result: Vec<char> = collect_ranges(BruteRange::ranges_unicode());
    let expected: Vec<char> = (0..=0x10ffff)
        .into_iter()
        .map(|x| char::from_u32(x))
        .filter(|x| x.is_some())
        .map(|x| x.unwrap())
        .collect();
    assert_eq!(result.len(), expected.len());
    assert_eq!(result, expected);
}

#[test]
fn test_bruterange_iter_single() {
    let range = BruteRange::from_range('0'..='0');
    let result: Vec<char> = collect_range(range);
    assert_eq!(result, vec!['0']);
}

#[test]
fn test_bruterange_iter_multi() {
    let range = BruteRange::from_range('c'..='g');
    let result: Vec<char> = collect_range(range);
    assert_eq!(range.len() as usize, result.len());
    assert_eq!(result, vec!['c', 'd', 'e', 'f', 'g']);
}

#[test]
fn test_bruterange_iter_multi_reversed() {
    let range = BruteRange::from_range('G'..='C');
    let result: Vec<char> = collect_range(range);
    assert_eq!(range.len() as usize, result.len());
    assert_eq!(result, vec!['C', 'D', 'E', 'F', 'G']);
}

#[test]
fn test_bruterange_iter_multi_invalid_chars_in_bound() {
    let range = BruteRange::from_range('\u{d7fe}'..='\u{e001}');
    let result: Vec<char> = collect_range(range);
    assert_eq!(range.len() as usize, result.len());
    assert_eq!(result, vec!['\u{d7fe}', '\u{d7ff}', '\u{e000}', '\u{e001}']);
}

#[test]
fn test_bruterange_iter_bound_end() {
    let range = BruteRange::from_range('\u{10fffe}'..='\u{10ffff}');
    let result: Vec<char> = collect_range(range);
    assert_eq!(range.len() as usize, result.len());
    assert_eq!(result, vec!['\u{10fffe}', '\u{10ffff}']);
}

#[test]
fn test_bruterange_iter_bound_all() {
    let range = BruteRange::from_range('\u{0}'..='\u{10ffff}');
    let result: Vec<char> = collect_range(range);
    assert_eq!(range.len() as usize, result.len());
    let valid_chars: Vec<char> = (0..=0x10ffff)
        .into_iter()
        .map(|x| char::from_u32(x))
        .filter(|x| x.is_some())
        .map(|x| x.unwrap())
        .collect();
    assert_eq!(result, valid_chars);
}

#[test]
fn test_nth_single() {
    let range = BruteRange::from_range('0'..='0');
    assert_eq!(range.nth(0), Some('0'));
    assert_eq!(range.nth(1), None);
}

#[test]
fn test_nth_multi() {
    let range = BruteRange::from_range('a'..='d');
    assert_eq!(range.nth(0), Some('a'));
    assert_eq!(range.nth(1), Some('b'));
    assert_eq!(range.nth(2), Some('c'));
    assert_eq!(range.nth(3), Some('d'));
    assert_eq!(range.nth(4), None);
}

#[test]
fn test_nth_multi_reversed() {
    let range = BruteRange::from_range('d'..='a');
    assert_eq!(range.nth(0), Some('a'));
    assert_eq!(range.nth(1), Some('b'));
    assert_eq!(range.nth(2), Some('c'));
    assert_eq!(range.nth(3), Some('d'));
    assert_eq!(range.nth(4), None);
}

#[test]
fn test_nth_invalid_chars_in_bound() {
    let range = BruteRange::from_range('\u{d7fe}'..='\u{e001}');
    assert_eq!(range.nth(0), Some('\u{d7fe}'));
    assert_eq!(range.nth(1), Some('\u{d7ff}'));
    assert_eq!(range.nth(2), Some('\u{e000}'));
    assert_eq!(range.nth(3), Some('\u{e001}'));
    assert_eq!(range.nth(4), None);
}

#[test]
fn test_nth_after_invalid_chars() {
    let range = BruteRange::from_range('\u{e000}'..='\u{e003}');
    assert_eq!(range.nth(0), Some('\u{e000}'));
    assert_eq!(range.nth(1), Some('\u{e001}'));
    assert_eq!(range.nth(2), Some('\u{e002}'));
    assert_eq!(range.nth(3), Some('\u{e003}'));
    assert_eq!(range.nth(4), None);
}

#[test]
fn test_nth_after_invalid_chars2() {
    let range = BruteRange::from_range('\u{e001}'..='\u{e003}');
    assert_eq!(range.nth(0), Some('\u{e001}'));
    assert_eq!(range.nth(1), Some('\u{e002}'));
    assert_eq!(range.nth(2), Some('\u{e003}'));
    assert_eq!(range.nth(3), None);
}

#[test]
fn test_nth_all() {
    let range = BruteRange::from_range('\u{0}'..='\u{10ffff}');
    let result: Vec<char> = collect_range(range);
    for i in 0..result.len() {
        assert_eq!(range.nth(i as u32), Some(result[i]));
    }
    assert_eq!(range.nth(result.len() as u32), None);
}

#[test]
fn test_from_range_u32_valid_and_invalid() {
    let r = BruteRange::from_range_u32(0x41..=0x43).unwrap();
    assert_eq!(collect_range(r), vec!['A', 'B', 'C']);
    assert!(BruteRange::from_range_u32(0xD800..=0xD900).is_none());
    assert!(BruteRange::from_range_u32(0x41..=0x110000).is_none());
}

#[test]
fn test_reset_replays_range_iter() {
    let range = BruteRange::new('a', 'c');
    let mut it: BruteRangeIter = range.iter();
    let mut first = Vec::new();
    while it.has_next() {
        first.push(it.get_next());
    }
    it.reset();
    let mut second = Vec::new();
    while it.has_next() {
        second.push(it.get_next());
    }
    assert_eq!(first, second);
    assert_eq!(first, vec!['a', 'b', 'c']);
}

#[test]
fn test_len_counts_iteration_gap() {
    let range = BruteRange::new('\u{d000}', '\u{e800}');
    let chars = collect_range(range);
    assert_eq!(chars.len(), range.len());
    assert!(chars.iter().all(|c| !(0xD800..0xE000).contains(&(*c as u32))));
}
