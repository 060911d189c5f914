use ctf_brute::rangeutils::{gen_ranges, merge_and_order_ranges, range_size, ranges_flatten};
use std::ops::RangeInclusive;

#[test]
fn test_merge_ranges_emtpy() {
    let result: Vec<RangeInclusive<char>> = merge_and_order_ranges(vec![]);
    assert_eq!(result, vec![]);
}

#[test]
fn rangeutils_test_merge_ranges_single() {
    let result = merge_and_order_ranges(vec!['a'..='z']);
    assert_eq!(result, vec!['a'..='z']);
}

#[test]
fn rangeutils_test_merge_ranges_multi() {
    let result = merge_and_order_ranges(vec!['0'..='9', 'A'..='Z', 'a'..='z']);
    assert_eq!(result, vec!['0'..='9', 'A'..='Z', 'a'..='z']);
}

#[test]
fn rangeutils_test_merge_ranges_multi_sort() {
    let result = merge_and_order_ranges(vec!['a'..='z', 'A'..='Z', '0'..='9']);
    assert_eq!(result, vec!['0'..='9', 'A'..='Z', 'a'..='z']);
}

#[test]
fn test_merge_ranges_single_invalid() {
    let result = merge_and_order_ranges(vec!['z'..='a']);
    assert_eq!(result, vec![]);
}

#[test]
fn test_merge_ranges_multi_invalid() {
    let result = merge_and_order_ranges(vec!['z'..='a', 'Z'..='A', '9'..='0']);
    assert_eq!(result, vec![]);
}

#[test]
fn test_merge_ranges_one_invalid1() {
    let result = merge_and_order_ranges(vec!['9'..='0', 'A'..='Z', 'a'..='z']);
    assert_eq!(result, vec!['A'..='Z', 'a'..='z']);
}

#[test]
fn test_merge_ranges_one_invalid2() {
    let result = merge_and_order_ranges(vec!['0'..='9', 'Z'..='A', 'a'..='z']);
    assert_eq!(result, vec!['0'..='9', 'a'..='z']);
}

#[test]
fn test_merge_ranges_one_invalid3() {
    let result = merge_and_order_ranges(vec!['0'..='9', 'A'..='Z', 'z'..='a']);
    assert_eq!(result, vec!['0'..='9', 'A'..='Z']);
}

#[test]
fn rangeutils_test_merge_ranges_single_overlap() {
    let result = merge_and_order_ranges(vec!['A'..='a', 'Z'..='z']);
    assert_eq!(result, vec!['A'..='z']);
}

#[test]
fn rangeutils_test_merge_ranges_under_overlap() {
    let result = merge_and_order_ranges(vec!['A'..='a', 'Z'..='z', 'B'..='b']);
    assert_eq!(result, vec!['A'..='z']);
}

#[test]
fn rangeutils_test_merge_ranges_multi_overlap() {
    let result = merge_and_order_ranges(vec!['A'..='D', 'B'..='E', 'a'..='d', 'b'..='e']);
    assert_eq!(result, vec!['A'..='E', 'a'..='e']);
}

#[test]
fn rangeutils_test_merge_ranges_overlap_start() {
    let result = merge_and_order_ranges(vec!['A'..='C', 'A'..='E']);
    assert_eq!(result, vec!['A'..='E']);
}

#[test]
fn rangeutils_test_merge_ranges_overlap_end() {
    let result = merge_and_order_ranges(vec!['A'..='C', 'C'..='E']);
    assert_eq!(result, vec!['A'..='E']);
}

#[test]
fn rangeutils_test_merge_ranges_overlap_end2() {
    let result = merge_and_order_ranges(vec!['A'..='C', 'C'..='E', 'E'..='G']);
    assert_eq!(result, vec!['A'..='G']);
}

#[test]
fn rangeutils_test_merge_ranges_allongside() {
    let result = merge_and_order_ranges(vec!['A'..='C', 'D'..='E']);
    assert_eq!(result, vec!['A'..='E']);
}

#[test]
fn rangeutils_test_merge_ranges_multi_allongside() {
    let result = merge_and_order_ranges(vec!['A'..='C', 'D'..='E', 'F'..='H']);
    assert_eq!(result, vec!['A'..='H']);
}

#[test]
fn rangeutils_test_merge_ranges_not_allongside() {
    let result = merge_and_order_ranges(vec!['A'..='B', 'D'..='E']);
    assert_eq!(result, vec!['A'..='B', 'D'..='E']);
}

#[test]
fn rangeutils_test_merge_ranges_char() {
    let result = merge_and_order_ranges(vec!['1'..='1']);
    assert_eq!(result, vec!['1'..='1']);
}

#[test]
fn rangeutils_test_merge_ranges_chars() {
    let result = merge_and_order_ranges(vec!['A'..='A', 'a'..='a']);
    assert_eq!(result, vec!['A'..='A', 'a'..='a']);
}

#[test]
fn rangeutils_test_merge_ranges_chars_allongside() {
    let result = merge_and_order_ranges(vec!['A'..='A', 'B'..='B']);
    assert_eq!(result, vec!['A'..='B']);
}

#[test]
fn rangeutils_test_merge_ranges_chars_overlap() {
    let result = merge_and_order_ranges(vec!['A'..='A', 'A'..='A']);
    assert_eq!(result, vec!['A'..='A']);
}

#[test]
fn rangeutils_test_merge_ranges_range_char_overlap() {
    let result = merge_and_order_ranges(vec!['A'..='D', 'D'..='D']);
    assert_eq!(result, vec!['A'..='D']);
}

#[test]
fn rangeutils_test_merge_ranges_range_char_allongside() {
    let result = merge_and_order_ranges(vec!['A'..='D', 'E'..='E']);
    assert_eq!(result, vec!['A'..='E']);
}

#[test]
fn rangeutils_test_merge_ranges_char_range_overlap() {
    let result = merge_and_order_ranges(vec!['A'..='A', 'A'..='D']);
    assert_eq!(result, vec!['A'..='D']);
}

#[test]
fn rangeutils_test_merge_ranges_char_range_allongside() {
    let result = merge_and_order_ranges(vec!['A'..='A', 'B'..='E']);
    assert_eq!(result, vec!['A'..='E']);
}

#[test]
fn test_flatten_RANGE_LOWERCASE_LETTERS() {
    let result: Vec<char> = ranges_flatten(vec!['a'..='z']);
    assert_eq!(
        result,
        vec![
            'a', 'b', 'c', 'd', 'e', 'f', 'g', 'h', 'i', 'j', 'k', 'l', 'm', 'n', 'o', 'p', 'q',
            'r', 's', 't', 'u', 'v', 'w', 'x', 'y', 'z'
        ]
    );
}

#[test]
fn test_flatten_RANGE_UPPERCASE_LETTERS() {
    let result: Vec<char> = ranges_flatten(vec!['A'..='Z']);
    assert_eq!(
        result,
        vec![
            'A', 'B', 'C', 'D', 'E', 'F', 'G', 'H', 'I', 'J', 'K', 'L', 'M', 'N', 'O', 'P', 'Q',
            'R', 'S', 'T', 'U', 'V', 'W', 'X', 'Y', 'Z'
        ]
    );
}

#[test]
fn test_flatten_RANGE_LETTERS() {
    let result: Vec<char> = ranges_flatten(vec!['A'..='Z', 'a'..='z']);
    assert_eq!(
        result,
        vec![
            'A', 'B', 'C', 'D', 'E', 'F', 'G', 'H', 'I', 'J', 'K', 'L', 'M', 'N', 'O', 'P', 'Q',
            'R', 'S', 'T', 'U', 'V', 'W', 'X', 'Y', 'Z', 'a', 'b', 'c', 'd', 'e', 'f', 'g', 'h',
            'i', 'j', 'k', 'l', 'm', 'n', 'o', 'p', 'q', 'r', 's', 't', 'u', 'v', 'w', 'x', 'y',
            'z'
        ]
    );
}

#[test]
fn test_flatten_RANGE_NUMBERS() {
    let result: Vec<char> = ranges_flatten(vec!['0'..='9']);
    assert_eq!(
        result,
        vec!['0', '1', '2', '3', '4', '5', '6', '7', '8', '9']
    );
}

#[test]
fn test_flatten_RANGE_HEX_LOWERCASE() {
    let result: Vec<char> = ranges_flatten(vec!['0'..='9', 'a'..='f']);
    assert_eq!(
        result,
        vec!['0', '1', '2', '3', '4', '5', '6', '7', '8', '9', 'a', 'b', 'c', 'd', 'e', 'f']
    );
}

#[test]
fn test_flatten_RANGE_HEX_UPPERCASE() {
    let result: Vec<char> = ranges_flatten(vec!['0'..='9', 'A'..='F']);
    assert_eq!(
        result,
        vec!['0', '1', '2', '3', '4', '5', '6', '7', '8', '9', 'A', 'B', 'C', 'D', 'E', 'F']
    );
}

#[test]
fn test_flatten_RANGE_HEX() {
    let result: Vec<char> = ranges_flatten(vec!['0'..='9', 'A'..='F', 'a'..='f']);
    assert_eq!(
        result,
        vec![
            '0', '1', '2', '3', '4', '5', '6', '7', '8', '9', 'A', 'B', 'C', 'D', 'E', 'F', 'a',
            'b', 'c', 'd', 'e', 'f'
        ]
    );
}

#[test]
fn test_flatten_RANGE_ALPHANUM_LOWERCASE() {
    let result: Vec<char> = ranges_flatten(vec!['0'..='9', 'a'..='z']);
    assert_eq!(
        result,
        vec![
            '0', '1', '2', '3', '4', '5', '6', '7', '8', '9', 'a', 'b', 'c', 'd', 'e', 'f', 'g',
            'h', 'i', 'j', 'k', 'l', 'm', 'n', 'o', 'p', 'q', 'r', 's', 't', 'u', 'v', 'w', 'x',
            'y', 'z'
        ]
    );
}

#[test]
fn test_flatten_RANGE_ALPHANUM_UPPERCASE() {
    let result: Vec<char> = ranges_flatten(vec!['0'..='9', 'A'..='Z']);
    assert_eq!(
        result,
        vec![
            '0', '1', '2', '3', '4', '5', '6', '7', '8', '9', 'A', 'B', 'C', 'D', 'E', 'F', 'G',
            'H', 'I', 'J', 'K', 'L', 'M', 'N', 'O', 'P', 'Q', 'R', 'S', 'T', 'U', 'V', 'W', 'X',
            'Y', 'Z'
        ]
    );
}

#[test]
fn test_flatten_RANGE_ALPHANUM() {
    let result: Vec<char> = ranges_flatten(vec!['0'..='9', 'A'..='Z', 'a'..='z']);
    assert_eq!(
        result,
        vec![
            '0', '1', '2', '3', '4', '5', '6', '7', '8', '9', 'A', 'B', 'C', 'D', 'E', 'F', 'G',
            'H', 'I', 'J', 'K', 'L', 'M', 'N', 'O', 'P', 'Q', 'R', 'S', 'T', 'U', 'V', 'W', 'X',
            'Y', 'Z', 'a', 'b', 'c', 'd', 'e', 'f', 'g', 'h', 'i', 'j', 'k', 'l', 'm', 'n', 'o',
            'p', 'q', 'r', 's', 't', 'u', 'v', 'w', 'x', 'y', 'z'
        ]
    );
}

#[test]
fn test_flatten_range_punct() {
    let result: Vec<char> = ranges_flatten(vec!['!'..='/', ':'..='@', '['..='`', '{'..='~']);
    assert_eq!(
        result,
        vec![
            '!', '"', '#', '$', '%', '&', '\'', '(', ')', '*', '+', ',', '-', '.', '/', ':', ';',
            '<', '=', '>', '?', '@', '[', '\\', ']', '^', '_', '`', '{', '|', '}', '~'
        ]
    );
}

#[test]
fn test_range_macro() {
    let result = gen_ranges("abcABCdef321980");
    assert_eq!(result, vec!['0'..='3', '8'..='9', 'A'..='C', 'a'..='f'])
}

#[test]
fn test_range_size_values() {
    assert_eq!(range_size(&('a'..='z')), Some(26));
    assert_eq!(range_size(&('z'..='a')), Some(0));
    assert_eq!(range_size(&('\u{0}'..='\u{10ffff}')), Some(0x10F800));
    assert_eq!(range_size(&('\u{d000}'..='\u{e800}')), Some(0x1001));
}
