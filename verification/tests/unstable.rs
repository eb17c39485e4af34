use base64::Engine;
use rustc_hash::FxHashMap;
use tiktoken::catalog::{CL100K_PATTERN, R50K_PATTERN};
use tiktoken::{SpecialArgument, Tiktoken};

fn line(bytes: &[u8], rank: usize) -> String {
    format!("{} {}\n", base64::engine::general_purpose::STANDARD.encode(bytes), rank)
}

fn toy_payload() -> String {
    let mut payload = String::new();
    for b in 0..=255u8 {
        payload.push_str(&line(&[b], b as usize));
    }
    payload.push_str(&line(b"he", 256));
    payload.push_str(&line(b"ll", 257));
    payload.push_str(&line(b"hell", 258));
    payload.push_str(&line(b" w", 259));
    payload.push_str(&line(b"or", 260));
    payload.push_str(&line(b"\n\n", 261));
    payload.push_str(&line(b"  ", 262));
    payload
}

fn toy(pattern: &str) -> Tiktoken {
    let mut specials: FxHashMap<String, usize> = FxHashMap::default();
    specials.insert(String::from("<|endoftext|>"), 1000);
    Tiktoken::new(&toy_payload(), Some(specials), pattern).unwrap()
}

fn sorted(mut completions: Vec<Vec<usize>>) -> Vec<Vec<usize>> {
    completions.sort();
    completions
}

fn unstable_of(enc: &Tiktoken, text: &str, allowed: &SpecialArgument) -> (Vec<usize>, Vec<u8>, Vec<Vec<usize>>) {
    let (stable, completions) = enc.encode_with_unstable(text, allowed, &SpecialArgument::Absent).unwrap();
    let all = enc.encode(text, allowed, &SpecialArgument::Absent).unwrap();
    let whole = enc.decode(all);
    let kept = enc.decode(stable.clone());
    assert!(whole.starts_with(&kept));
    (stable, whole[kept.len()..].to_vec(), completions)
}

#[test]
fn completions_of_a_word() {
    let enc = toy(R50K_PATTERN);
    let (stable, unstable, completions) = unstable_of(&enc, "hello", &SpecialArgument::Absent);
    assert_eq!(stable, Vec::<usize>::new());
    assert_eq!(unstable, b"hello".to_vec());
    assert_eq!(sorted(completions), vec![vec![258, 111], vec![258, 260]]);
}

#[test]
fn completions_keep_the_stable_tokens() {
    let enc = toy(R50K_PATTERN);
    let (stable, unstable, completions) = unstable_of(&enc, "hello he", &SpecialArgument::Absent);
    assert_eq!(stable, vec![258, 111]);
    assert_eq!(unstable, b" he".to_vec());
    // " he" is cut into one piece; what may follow "he" is "he" itself, "hell", or "h"
    // with one of "e..." after it.
    assert_eq!(sorted(completions), vec![vec![32, 256], vec![32, 258]]);
}

#[test]
fn completions_of_one_byte_are_the_byte_strings_that_begin_with_it() {
    let enc = toy(CL100K_PATTERN);
    let (stable, unstable, completions) = unstable_of(&enc, "\n", &SpecialArgument::Absent);
    assert_eq!(stable, Vec::<usize>::new());
    assert_eq!(unstable, b"\n".to_vec());
    assert_eq!(sorted(completions), vec![vec![10], vec![261]]);
    let (_, unstable, completions) = unstable_of(&enc, "h", &SpecialArgument::Absent);
    assert_eq!(unstable, b"h".to_vec());
    assert_eq!(sorted(completions), vec![vec![104], vec![256], vec![258]]);
}

#[test]
fn text_that_ends_with_a_special_token_has_no_completions() {
    let enc = toy(R50K_PATTERN);
    let allowed = SpecialArgument::Word(String::from("all"));
    let (stable, completions) =
        enc.encode_with_unstable("hello<|endoftext|>", &allowed, &SpecialArgument::Absent).unwrap();
    assert_eq!(stable, vec![258, 111, 1000]);
    assert_eq!(completions, Vec::<Vec<usize>>::new());
    let (stable, completions) =
        enc.encode_with_unstable("", &allowed, &SpecialArgument::Absent).unwrap();
    assert_eq!(stable, Vec::<usize>::new());
    assert_eq!(completions, Vec::<Vec<usize>>::new());
}

#[test]
fn space_tokens_before_the_last_piece_are_unstable_too() {
    let enc = toy(CL100K_PATTERN);
    // "\n\n" and " " are two pieces of space tokens: both are taken off.
    let (stable, unstable, _) = unstable_of(&enc, "he\n\n ", &SpecialArgument::Absent);
    assert_eq!(stable, vec![256]);
    assert_eq!(unstable, b"\n\n ".to_vec());
}

#[test]
fn trailing_white_space_gives_the_split_completion() {
    let enc = toy(R50K_PATTERN);
    let (stable, unstable, completions) = unstable_of(&enc, "\n\n", &SpecialArgument::Absent);
    assert_eq!(stable, Vec::<usize>::new());
    assert_eq!(unstable, b"\n\n".to_vec());
    // The whole as one token, and the two line feeds apart.
    assert!(completions.contains(&vec![261]));
    assert!(completions.contains(&vec![10, 10]));
}

#[test]
fn every_completion_begins_with_the_unstable_bytes() {
    for pattern in [R50K_PATTERN, CL100K_PATTERN] {
        let enc = toy(pattern);
        for text in ["hello", "hello he", "hello wor", "he  ", "a\n\n", "é", "hell", " w", "12 h"] {
            let (_, unstable, completions) = unstable_of(&enc, text, &SpecialArgument::Absent);
            assert!(!unstable.is_empty());
            assert!(!completions.is_empty());
            for completion in completions {
                let bytes = enc.decode(completion);
                assert!(bytes.starts_with(&unstable));
            }
        }
    }
}

#[test]
fn completions_come_once_each() {
    let enc = toy(R50K_PATTERN);
    let (_, _, completions) = unstable_of(&enc, "hello wor", &SpecialArgument::Absent);
    let mut seen = completions.clone();
    seen.sort();
    seen.dedup();
    assert_eq!(seen.len(), completions.len());
}

#[test]
fn bytes_that_are_text_are_encoded_as_text() {
    let enc = toy(R50K_PATTERN);
    assert_eq!(enc.bpe._encode_bytes(b"hello world"), enc.encode_ordinary("hello world"));
    assert_eq!(enc.bpe._encode_bytes(b"").unwrap(), Vec::<usize>::new());
}

#[test]
fn bytes_that_are_no_text_are_merged_at_their_end() {
    let enc = toy(R50K_PATTERN);
    let tokens = enc.bpe._encode_bytes(b"hello he\xff").unwrap();
    assert_eq!(tokens, vec![258, 111, 32, 256, 255]);
    let tokens = enc.bpe._encode_bytes(b"hell\xe2\x9c").unwrap();
    assert_eq!(tokens, vec![258, 0xe2, 0x9c]);
    assert_eq!(enc.decode(tokens), b"hell\xe2\x9c".to_vec());
}

#[test]
fn bytes_without_a_valid_start_give_nothing() {
    let enc = toy(R50K_PATTERN);
    assert_eq!(enc.bpe._encode_bytes(b"\xff\xfe").unwrap(), Vec::<usize>::new());
}

#[test]
fn last_piece_length_grows_over_space_tokens() {
    let enc = toy(R50K_PATTERN);
    // tokens: "he", " ", "\n\n", "  "
    let tokens = vec![256, 32, 261, 262];
    assert_eq!(enc.bpe._increase_last_piece_token_len(tokens.clone(), 1), (tokens.clone(), 3));
    assert_eq!(enc.bpe._increase_last_piece_token_len(tokens.clone(), 0), (tokens.clone(), 0));
    assert_eq!(enc.bpe._increase_last_piece_token_len(tokens.clone(), 4), (tokens.clone(), 4));
    let tokens = vec![32, 256, 32];
    assert_eq!(enc.bpe._increase_last_piece_token_len(tokens.clone(), 2), (tokens.clone(), 2));
    assert_eq!(enc.bpe._increase_last_piece_token_len(tokens.clone(), 1), (tokens.clone(), 1));
    let tokens = vec![32, 32, 32];
    assert_eq!(enc.bpe._increase_last_piece_token_len(tokens.clone(), 1), (tokens.clone(), 3));
}

#[test]
fn tokens_are_taken_until_the_bytes_are_covered() {
    let enc = toy(R50K_PATTERN);
    assert_eq!(enc.bpe.take_until(&vec![258, 111, 259], 4), vec![258]);
    assert_eq!(enc.bpe.take_until(&vec![258, 111, 259], 5), vec![258, 111]);
    assert_eq!(enc.bpe.take_until(&vec![258, 111, 259], 6), vec![258, 111, 259]);
    assert_eq!(enc.bpe.take_until(&vec![258, 111, 259], 100), vec![258, 111, 259]);
    assert_eq!(enc.bpe.take_until(&vec![], 1), Vec::<usize>::new());
}
