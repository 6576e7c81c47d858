use rusty_tokenizer::base::{get_stats, merge, render_token, replace_control_characters, PairCounts};

#[test]
fn test_get_stats_empty() {
    let ids: Vec<i32> = vec![];
    let counts = None;
    let result = get_stats(&ids, counts);
    assert_eq!(result.len(), 0);
}

#[test]
fn test_get_stats() {
    let ids = vec![1, 2, 3, 1, 2];
    let m = PairCounts::new();
    let m = get_stats(&ids, Some(m));

    assert_eq!(m.len(), 3);
    let res = m.get((1, 2));
    assert_eq!(res, 2);
}

#[test]
fn test_get_stats_counts_every_pair() {
    let ids = vec![1, 2, 3, 1, 2];
    let m = get_stats(&ids, None);
    assert_eq!(m.len(), 3);
    assert_eq!(m.get((1, 2)), 2);
    assert_eq!(m.get((2, 3)), 1);
    assert_eq!(m.get((3, 1)), 1);
    assert_eq!(m.get((9, 9)), 0);
}

#[test]
fn test_get_stats_accumulates() {
    let ids = vec![1, 2];
    let first = get_stats(&ids, None);
    let second = get_stats(&ids, Some(first));
    assert_eq!(second.get((1, 2)), 2);
    assert_eq!(second.len(), 1);
}

#[test]
fn test_get_stats_total_is_len_minus_one() {
    let ids = vec![5, 5, 5, 7, 5];
    let m = get_stats(&ids, None);
    let mut total: usize = 0;
    for i in 0..m.len() {
        total += m.entry(i).1;
    }
    assert_eq!(total, ids.len() - 1);
}

#[test]
fn test_merge() {
    let ids = vec![1, 2, 3, 1, 2];
    let pair = (1, 2);
    let idx = 4;

    let newids = merge(&ids, pair, idx);
    assert_eq!(newids.len(), 3);
    assert_eq!(newids[0], 4);
    assert_eq!(newids[1], 3);
}

#[test]
fn test_merge_expected_sequence() {
    let ids = vec![1, 2, 3, 1, 2];
    assert_eq!(merge(&ids, (1, 2), 4), vec![4, 3, 4]);
}

#[test]
fn test_merge_nothing_to_replace() {
    let ids = vec![1, 2, 3, 4];
    let pair = (5, 6);
    let idx = 9;

    let newids = merge(&ids, pair, idx);
    assert_eq!(newids.len(), 4);
    assert_eq!(newids, vec![1, 2, 3, 4]);
}

#[test]
fn test_merge_empty_and_single() {
    let empty: Vec<i32> = vec![];
    assert_eq!(merge(&empty, (1, 2), 9), Vec::<i32>::new());
    assert_eq!(merge(&[7], (1, 2), 9), vec![7]);
}

#[test]
fn test_merge_does_not_rematch_consumed_symbol() {
    // After [1, 1] at the front is consumed, the next scan position starts
    // past it: [1, 1, 1] becomes [9, 1], not [9, 9].
    assert_eq!(merge(&[1, 1, 1], (1, 1), 9), vec![9, 1]);
}

#[test]
fn test_replace_control_characters() {
    let string_w_c_chars = "abc\nde\n";
    let replaced = replace_control_characters(&string_w_c_chars);
    assert_eq!(replaced, "abcde");
}

#[test]
fn test_replace_control_characters_nothing_to_replace() {
    let string_no_chars = "abc";
    let replaced = replace_control_characters(&string_no_chars);
    assert_eq!(replaced, "abc");
}

#[test]
fn test_render_token_plain() {
    assert_eq!(render_token(b"abc"), "abc");
}

#[test]
fn test_render_token_strips_control() {
    assert_eq!(render_token(b"ab\ncd"), "abcd");
}

#[test]
fn test_render_token_invalid_utf8() {
    assert_eq!(render_token(&[0xff, 0xfe]), "Invalid UTF-8");
}
