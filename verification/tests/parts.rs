use base64::Engine;
use rustc_hash::FxHashMap;
use tiktoken::bpe::{encode_pieces, list_contains, special_step, try_encode_piece, Step};
use tiktoken::catalog::{extend_specials, R50K_PATTERN};
use tiktoken::construct::{invert_ranks, invert_specials};
use tiktoken::has_all_bytes;
use tiktoken::order::{bytes_equal, bytes_less, bytes_start_with, sort_distinct};
use tiktoken::text::{char_boundary_after, sub_str, valid_prefix_len};
use tiktoken::tiktoken::{
    build_search_pattern, copy_list, judge_found, keep_new, search_disallowed, special_literals,
};
use tiktoken::unstable::{
    bytes_all_space, first_not_before, prefix_run, push_unique, tail_cut, tokens_equal,
};
use tiktoken::{CoreBPE, Tiktoken, TiktokenError};

fn toy_ranks() -> FxHashMap<Vec<u8>, usize> {
    let mut ranks: FxHashMap<Vec<u8>, usize> = FxHashMap::default();
    for b in 0..=255u8 {
        ranks.insert(vec![b], b as usize);
    }
    ranks.insert(b"he".to_vec(), 256);
    ranks.insert(b"ll".to_vec(), 257);
    ranks.insert(b"hell".to_vec(), 258);
    ranks.insert(b" w".to_vec(), 259);
    ranks.insert(b"or".to_vec(), 260);
    ranks.insert(b"\n\n".to_vec(), 261);
    ranks.insert(b"  ".to_vec(), 262);
    ranks
}

fn toy_specials() -> FxHashMap<String, usize> {
    let mut specials: FxHashMap<String, usize> = FxHashMap::default();
    specials.insert(String::from("<|endoftext|>"), 1000);
    specials.insert(String::from("<|fim+prefix|>"), 1001);
    specials
}

fn toy_core() -> CoreBPE {
    CoreBPE::new(toy_ranks(), toy_specials(), R50K_PATTERN).unwrap()
}

fn strings(list: &[&str]) -> Vec<String> {
    list.iter().map(|s| s.to_string()).collect()
}

#[test]
fn byte_strings_are_ordered_byte_by_byte() {
    assert!(bytes_less(b"a", b"b"));
    assert!(bytes_less(b"a", b"ab"));
    assert!(bytes_less(b"", b"a"));
    assert!(bytes_less(b"ab", b"b"));
    assert!(bytes_less(&[0x7f], &[0x80]));
    assert!(!bytes_less(b"b", b"a"));
    assert!(!bytes_less(b"ab", b"a"));
    assert!(!bytes_less(b"a", b"a"));
    assert!(!bytes_less(b"", b""));
}

#[test]
fn prefixes_and_equality_of_byte_strings() {
    assert!(bytes_start_with(b"hello", b"hel"));
    assert!(bytes_start_with(b"hello", b""));
    assert!(bytes_start_with(b"hello", b"hello"));
    assert!(!bytes_start_with(b"hel", b"hello"));
    assert!(!bytes_start_with(b"hello", b"hex"));
    assert!(bytes_equal(b"abc", b"abc"));
    assert!(!bytes_equal(b"abc", b"abd"));
    assert!(!bytes_equal(b"abc", b"ab"));
    assert!(bytes_equal(b"", b""));
}

#[test]
fn distinct_entries_are_sorted() {
    let mut entries = vec![b"b".to_vec(), b"ab".to_vec(), b"a".to_vec(), vec![0xff], b"abc".to_vec()];
    sort_distinct(&mut entries);
    assert_eq!(entries, vec![b"a".to_vec(), b"ab".to_vec(), b"abc".to_vec(), b"b".to_vec(), vec![0xff]]);
}

#[test]
fn part_of_a_text_between_boundaries() {
    assert_eq!(sub_str("héllo", 0, 3), "hé");
    assert_eq!(sub_str("héllo", 1, 3), "é");
    assert_eq!(sub_str("héllo", 3, 6), "llo");
    assert_eq!(sub_str("héllo", 3, 3), "");
    assert_eq!(sub_str("héllo", 0, 6), "héllo");
}

#[test]
fn next_boundary_skips_the_rest_of_a_character() {
    assert_eq!(char_boundary_after("héllo", 0), 1);
    assert_eq!(char_boundary_after("héllo", 1), 3);
    assert_eq!(char_boundary_after("héllo", 2), 3);
    assert_eq!(char_boundary_after("héllo", 5), 6);
    assert_eq!(char_boundary_after("a✓", 1), 4);
}

#[test]
fn longest_valid_prefix_is_measured() {
    assert_eq!(valid_prefix_len(b"hello"), 5);
    assert_eq!(valid_prefix_len(b"he\xffllo"), 2);
    assert_eq!(valid_prefix_len(b"\xe2\x9c"), 0);
    assert_eq!(valid_prefix_len(b"a\xe2\x9c\x93b\xe2"), 5);
    assert_eq!(valid_prefix_len(b""), 0);
}

#[test]
fn first_entry_not_before_a_target() {
    let sorted = vec![b"a".to_vec(), b"ab".to_vec(), b"abc".to_vec(), b"b".to_vec(), b"ba".to_vec()];
    assert_eq!(first_not_before(&sorted, b""), 0);
    assert_eq!(first_not_before(&sorted, b"a"), 0);
    assert_eq!(first_not_before(&sorted, b"ab"), 1);
    assert_eq!(first_not_before(&sorted, b"abb"), 2);
    assert_eq!(first_not_before(&sorted, b"b"), 3);
    assert_eq!(first_not_before(&sorted, b"c"), 5);
    assert_eq!(first_not_before(&Vec::new(), b"c"), 0);
}

#[test]
fn entries_with_a_prefix_stand_together() {
    let sorted = vec![b"a".to_vec(), b"ab".to_vec(), b"abc".to_vec(), b"b".to_vec(), b"ba".to_vec()];
    assert_eq!(prefix_run(&sorted, b"ab"), (1, 3));
    assert_eq!(prefix_run(&sorted, b"a"), (0, 3));
    assert_eq!(prefix_run(&sorted, b"b"), (3, 5));
    assert_eq!(prefix_run(&sorted, b""), (0, 5));
    assert_eq!(prefix_run(&sorted, b"abcd"), (3, 3));
    assert_eq!(prefix_run(&sorted, b"c"), (5, 5));
    assert_eq!(prefix_run(&sorted, b"aa"), (1, 1));
}

#[test]
fn list_without_repetition_takes_each_item_once() {
    let mut list: Vec<Vec<usize>> = Vec::new();
    push_unique(&mut list, vec![1, 2]);
    push_unique(&mut list, vec![3]);
    push_unique(&mut list, vec![1, 2]);
    push_unique(&mut list, vec![]);
    push_unique(&mut list, vec![3]);
    assert_eq!(list, vec![vec![1, 2], vec![3], vec![]]);
    assert!(tokens_equal(&[1, 2], &[1, 2]));
    assert!(!tokens_equal(&[1, 2], &[1, 3]));
    assert!(!tokens_equal(&[1, 2], &[1]));
}

#[test]
fn space_bytes_are_space_line_feed_and_tab() {
    assert!(bytes_all_space(b" \n\t"));
    assert!(bytes_all_space(b""));
    assert!(!bytes_all_space(b" \r"));
    assert!(!bytes_all_space(b" a "));
}

#[test]
fn lists_of_literals() {
    let list = strings(&["a", "b", "a", "c", "b"]);
    assert!(list_contains(&list, "c"));
    assert!(!list_contains(&list, "d"));
    assert!(!list_contains(&Vec::new(), ""));
    assert_eq!(copy_list(&list), list);
    assert_eq!(keep_new(&list, &strings(&["b"])), strings(&["a", "c"]));
    assert_eq!(keep_new(&list, &Vec::new()), strings(&["a", "b", "c"]));
    assert_eq!(keep_new(&list, &list), Vec::<String>::new());
}

#[test]
fn search_pattern_escapes_and_joins() {
    assert_eq!(build_search_pattern(&strings(&["a.b", "<|x|>"])), "(a\\.b|<\\|x\\|>)");
    assert_eq!(build_search_pattern(&strings(&["a-b~c&d"])), "(a\\-b\\~c\\&d)");
    assert_eq!(build_search_pattern(&strings(&["plain"])), "(plain)");
    assert_eq!(build_search_pattern(&Vec::new()), "()");
}

#[test]
fn search_pattern_is_compiled() {
    let regex = Tiktoken::special_token_regex(&strings(&["a.b", "<|x|>"])).unwrap();
    assert_eq!(regex.as_str(), "(a\\.b|<\\|x\\|>)");
    assert_eq!(
        Tiktoken::special_token_regex(&strings(&["(unclosed"])).map(|p| p.as_str().to_string()),
        Ok(String::from("(\\(unclosed)"))
    );
}

#[test]
fn search_finds_the_first_disallowed_literal() {
    let list = strings(&["a.b", "<|x|>"]);
    assert_eq!(
        search_disallowed(&list, "xa.by <|x|>"),
        Some(TiktokenError::DisallowedSpecialTokenFound { literal: String::from("a.b") })
    );
    assert_eq!(
        search_disallowed(&list, "xaxby <|x|>"),
        Some(TiktokenError::DisallowedSpecialTokenFound { literal: String::from("<|x|>") })
    );
    assert_eq!(search_disallowed(&list, "xaxby <x>"), None);
    assert_eq!(search_disallowed(&Vec::new(), "a.b"), None);
}

#[test]
fn pieces_are_encoded_one_after_another() {
    let ranks = toy_ranks();
    assert_eq!(encode_pieces(&ranks, b"hello", &vec![(0, 5)]), Some((vec![258, 111], 2)));
    assert_eq!(encode_pieces(&ranks, b"hello", &vec![(0, 2), (2, 4)]), Some((vec![256, 257], 1)));
    assert_eq!(encode_pieces(&ranks, b"hello", &vec![(0, 4), (4, 5)]), Some((vec![258, 111], 1)));
    assert_eq!(encode_pieces(&ranks, b"hello", &vec![(1, 2)]), Some((vec![101], 1)));
    assert_eq!(encode_pieces(&ranks, b"hello", &vec![]), Some((vec![], 0)));
    assert_eq!(encode_pieces(&ranks, b"hello", &vec![(0, 0)]), None);
    assert_eq!(encode_pieces(&ranks, b"hello", &vec![(3, 9)]), None);
    assert_eq!(encode_pieces(&ranks, b"hello", &vec![(0, 2), (4, 3)]), None);
    assert_eq!(try_encode_piece(&ranks, b"hell"), Some(vec![258]));
    assert_eq!(try_encode_piece(&ranks, b"hello"), Some(vec![258, 111]));
    assert_eq!(try_encode_piece(&ranks, b""), None);
}

#[test]
fn byte_coverage_is_told() {
    assert!(has_all_bytes(&toy_ranks()));
    let mut ranks = toy_ranks();
    ranks.remove(&vec![255u8]);
    assert!(!has_all_bytes(&ranks));
    ranks.insert(vec![255u8], 255);
    ranks.remove(&vec![0u8]);
    assert!(!has_all_bytes(&ranks));
    assert!(!has_all_bytes(&FxHashMap::default()));
}

#[test]
fn rank_table_is_inverted_and_sorted() {
    let mut ranks: FxHashMap<Vec<u8>, usize> = FxHashMap::default();
    ranks.insert(b"b".to_vec(), 7);
    ranks.insert(b"a".to_vec(), 9);
    ranks.insert(b"ab".to_vec(), 8);
    let (decoder, sorted) = invert_ranks(&ranks).unwrap();
    assert_eq!(sorted, vec![b"a".to_vec(), b"ab".to_vec(), b"b".to_vec()]);
    assert_eq!(decoder.len(), 3);
    assert_eq!(decoder.get(&7), Some(&b"b".to_vec()));
    assert_eq!(decoder.get(&8), Some(&b"ab".to_vec()));
    assert_eq!(decoder.get(&9), Some(&b"a".to_vec()));
    ranks.insert(b"c".to_vec(), 7);
    assert!(invert_ranks(&ranks).is_none());
    ranks.insert(b"c".to_vec(), 6);
    assert!(invert_ranks(&ranks).is_some());
    ranks.insert(Vec::new(), 5);
    assert!(invert_ranks(&ranks).is_none());
}

#[test]
fn special_tokens_are_inverted_and_escaped() {
    let mut ranks: FxHashMap<Vec<u8>, usize> = FxHashMap::default();
    ranks.insert(b"a".to_vec(), 0);
    let (decoder, _) = invert_ranks(&ranks).unwrap();
    let mut specials: FxHashMap<String, usize> = FxHashMap::default();
    specials.insert(String::from("<|a+b|>"), 10);
    let (special_decoder, pattern) = invert_specials(&specials, &ranks, &decoder).unwrap();
    assert_eq!(special_decoder.get(&10), Some(&b"<|a+b|>".to_vec()));
    assert_eq!(pattern, "<\\|a\\+b\\|>");
    specials.insert(String::from("é#"), 11);
    let (special_decoder, pattern) = invert_specials(&specials, &ranks, &decoder).unwrap();
    assert_eq!(special_decoder.get(&11), Some(&"é#".as_bytes().to_vec()));
    assert!(pattern == "<\\|a\\+b\\|>|é\\#" || pattern == "é\\#|<\\|a\\+b\\|>");
    specials.insert(String::from("clash"), 0);
    assert!(invert_specials(&specials, &ranks, &decoder).is_none());
    let (_, pattern) = invert_specials(&FxHashMap::default(), &ranks, &decoder).unwrap();
    assert_eq!(pattern, "");
}

#[test]
fn special_literals_are_listed_once() {
    let mut list = special_literals(&toy_specials());
    list.sort();
    assert_eq!(list, strings(&["<|endoftext|>", "<|fim+prefix|>"]));
    assert_eq!(special_literals(&FxHashMap::default()), Vec::<String>::new());
}

#[test]
fn more_special_tokens_replace_and_add() {
    let mut base: FxHashMap<String, usize> = FxHashMap::default();
    base.insert(String::from("a"), 1);
    base.insert(String::from("b"), 2);
    let mut more: FxHashMap<String, usize> = FxHashMap::default();
    more.insert(String::from("b"), 5);
    more.insert(String::from("c"), 6);
    extend_specials(&mut base, &more);
    assert_eq!(base.len(), 3);
    assert_eq!(base.get("a"), Some(&1));
    assert_eq!(base.get("b"), Some(&5));
    assert_eq!(base.get("c"), Some(&6));
}

#[test]
fn next_allowed_special_token_is_found() {
    let core = toy_core();
    let text = "a<|endoftext|>b<|fim+prefix|>";
    assert_eq!(core.find_next_special(text, &strings(&["<|fim+prefix|>"]), 0), Some(Some((15, 29))));
    assert_eq!(core.find_next_special(text, &strings(&["<|fim+prefix|>"]), 15), Some(Some((15, 29))));
    assert_eq!(core.find_next_special(text, &strings(&["<|endoftext|>"]), 0), Some(Some((1, 14))));
    assert_eq!(core.find_next_special(text, &strings(&["<|endoftext|>"]), 1), Some(Some((1, 14))));
    assert_eq!(core.find_next_special(text, &strings(&["<|endoftext|>"]), 2), Some(None));
    assert_eq!(core.find_next_special(text, &Vec::new(), 0), Some(None));
    assert_eq!(core.find_next_special(text, &strings(&["<|endoftext|>"]), 29), Some(None));
    assert_eq!(core.find_next_special("", &strings(&["<|endoftext|>"]), 0), Some(None));
}

#[test]
fn encoding_tells_the_tokens_of_the_last_piece() {
    let core = toy_core();
    let all = strings(&["<|endoftext|>", "<|fim+prefix|>"]);
    assert_eq!(core._encode_native("hello he", &Vec::new()), Some((vec![258, 111, 32, 256], 2)));
    assert_eq!(core._encode_native("hello", &all), Some((vec![258, 111], 2)));
    assert_eq!(core._encode_native("he", &all), Some((vec![256], 1)));
    assert_eq!(core._encode_native("he<|endoftext|>", &all), Some((vec![256, 1000], 0)));
    assert_eq!(core._encode_native("<|endoftext|>he ll", &all), Some((vec![1000, 256, 32, 257], 2)));
    assert_eq!(core._encode_native("", &all), Some((vec![], 0)));
    assert_eq!(core._encode_ordinary_native("hello he"), Some(vec![258, 111, 32, 256]));
    assert_eq!(core.encode_region(" he"), Some((vec![32, 256], 2)));
}

#[test]
fn tokens_know_their_lengths_and_spaces() {
    let core = toy_core();
    assert_eq!(core.token_len(258), 4);
    assert_eq!(core.token_len(1000), 13);
    assert_eq!(core.token_len(9999), 0);
    assert!(core.token_is_all_space(32));
    assert!(core.token_is_all_space(9));
    assert!(core.token_is_all_space(261));
    assert!(core.token_is_all_space(262));
    assert!(!core.token_is_all_space(13));
    assert!(!core.token_is_all_space(256));
    assert!(!core.token_is_all_space(1000));
    assert!(!core.token_is_all_space(9999));
}

#[test]
fn candidates_are_encoded_anew() {
    let core = toy_core();
    assert_eq!(core.reencode(b"hello"), Some(vec![258, 111]));
    assert_eq!(core.reencode(b"hello he"), Some(vec![258, 111, 32, 256]));
    assert_eq!(core.reencode(b"he\xff"), Some(vec![256, 255]));
    assert_eq!(core.reencode(b"hello he\xff"), Some(vec![258, 111, 32, 256, 255]));
    assert_eq!(core.reencode(b""), Some(vec![]));
}

#[test]
fn completions_of_each_kind() {
    let core = toy_core();
    assert_eq!(core.extension_completions(b"he"), vec![vec![256], vec![258]]);
    assert_eq!(core.extension_completions(b"hello"), Vec::<Vec<usize>>::new());
    assert_eq!(core.extension_completions(b"\n"), vec![vec![10], vec![261]]);
    let mut list: Vec<Vec<usize>> = vec![vec![7]];
    assert!(core.straddle_completions(b"hello", 4, &mut list));
    assert_eq!(list, vec![vec![7], vec![258, 111], vec![258, 260]]);
    assert!(core.straddle_completions(b"hello", 1, &mut list));
    assert_eq!(list, vec![vec![7], vec![258, 111], vec![258, 260]]);
    assert_eq!(core.tail_completion(b"a "), Some(Some(vec![97, 32])));
    assert_eq!(core.tail_completion(b"hell\n"), Some(Some(vec![258, 10])));
    assert_eq!(core.tail_completion("a\u{3000}".as_bytes()), Some(Some(vec![97, 0xe3, 0x80, 0x80])));
    assert_eq!(core.tail_completion("a\u{a0}".as_bytes()), Some(Some(vec![97, 0xc2, 0xa0])));
    assert_eq!(core.tail_completion("a\u{85}".as_bytes()), Some(Some(vec![97, 0xc2, 0x85])));
    assert_eq!(core.tail_completion("a\u{200b}".as_bytes()), Some(None));
    assert_eq!(core.tail_completion("a\r".as_bytes()), Some(Some(vec![97, 13])));
    assert_eq!(core.tail_completion(b"ab"), Some(None));
    assert_eq!(core.tail_completion(b" "), Some(None));
    assert_eq!(core.tail_completion(b"a\xff"), Some(None));
    assert_eq!(
        core.unstable_completions(b"hello").map(|mut l| {
            l.sort();
            l
        }),
        Some(vec![vec![258, 111], vec![258, 260]])
    );
}

#[test]
fn tokenizer_may_be_built_from_tables() {
    let payload = format!("{} 0\n", base64::engine::general_purpose::STANDARD.encode(b"a"));
    let enc = Tiktoken::new(&payload, None, "a+").unwrap();
    assert_eq!(enc.encode_ordinary("aaa").unwrap(), vec![0, 0, 0]);
    assert_eq!(enc.bpe._get_tl_regex().as_str(), "a+");
    assert_eq!(enc.bpe._get_tl_special_regex().as_str(), "");
    let core = toy_core();
    assert_eq!(core._get_tl_regex().as_str(), R50K_PATTERN);
    assert_eq!(core._decode_native(&[258, 111]), b"hello".to_vec());
    assert_eq!(core.encode_with_unstable("he", &Vec::new()).unwrap().0, Vec::<usize>::new());
    assert_eq!(core.encode("he<|endoftext|>", &strings(&["<|endoftext|>"])), Ok(vec![256, 1000]));
}

#[test]
fn reported_match_is_judged() {
    let allowed = strings(&["<|x|>"]);
    let none: Vec<String> = Vec::new();
    assert_eq!(special_step("a<|x|>b", &allowed, 0, Some((1, 6))), Step::Stop(Some((1, 6))));
    assert_eq!(special_step("a<|x|>b", &allowed, 1, Some((1, 6))), Step::Stop(Some((1, 6))));
    assert_eq!(special_step("a<|x|>b", &none, 0, Some((1, 6))), Step::Next(2));
    assert_eq!(special_step("a<|x|>b", &allowed, 0, None), Step::Stop(None));
    assert_eq!(special_step("a<|x|>b", &allowed, 0, Some((1, 9))), Step::Fail);
    assert_eq!(special_step("a<|x|>b", &allowed, 0, Some((3, 2))), Step::Fail);
    assert_eq!(special_step("a<|x|>b", &allowed, 2, Some((1, 6))), Step::Fail);
    assert_eq!(special_step("é", &none, 0, Some((0, 0))), Step::Next(2));
    assert_eq!(special_step("é", &none, 0, Some((0, 2))), Step::Next(2));
    assert_eq!(special_step("é", &none, 0, Some((1, 2))), Step::Fail);
    assert_eq!(special_step("é", &strings(&["é"]), 0, Some((0, 2))), Step::Stop(Some((0, 2))));
    assert_eq!(special_step("ab", &none, 0, Some((2, 2))), Step::Stop(None));
    assert_eq!(special_step("ab", &none, 0, Some((1, 2))), Step::Next(2));
}

#[test]
fn reported_disallowed_match_is_judged() {
    assert_eq!(
        judge_found("xa.by", Some((1, 4))),
        Some(TiktokenError::DisallowedSpecialTokenFound { literal: String::from("a.b") })
    );
    assert_eq!(
        judge_found("xa.by", Some((0, 0))),
        Some(TiktokenError::DisallowedSpecialTokenFound { literal: String::new() })
    );
    assert_eq!(judge_found("xa.by", None), None);
    assert_eq!(judge_found("xa.by", Some((1, 9))), Some(TiktokenError::EncodeFailure));
    assert_eq!(judge_found("xa.by", Some((4, 1))), Some(TiktokenError::EncodeFailure));
    assert_eq!(judge_found("é", Some((1, 2))), Some(TiktokenError::EncodeFailure));
}

#[test]
fn cut_before_trailing_white_space() {
    assert_eq!(tail_cut(3, 1, true), Some(1));
    assert_eq!(tail_cut(5, 4, true), Some(4));
    assert_eq!(tail_cut(2, 1, true), Some(1));
    assert_eq!(tail_cut(1, 1, true), None);
    assert_eq!(tail_cut(3, 3, true), None);
    assert_eq!(tail_cut(3, 0, true), None);
    assert_eq!(tail_cut(3, 1, false), None);
    assert_eq!(tail_cut(0, 0, true), None);
}
