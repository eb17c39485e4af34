use base64::Engine;
use rustc_hash::FxHashMap;
use tiktoken::catalog::{CL100K_PATTERN, R50K_PATTERN};
use tiktoken::{SpecialArgument, Tiktoken, TiktokenError};

fn line(bytes: &[u8], rank: usize) -> String {
    format!("{} {}\n", base64::engine::general_purpose::STANDARD.encode(bytes), rank)
}

fn toy_payload() -> String {
    let mut payload = String::new();
    for b in 0..=255u8 {
        payload.push_str(&line(&[b], b as usize));
    }
    payload.push_str(&line(b"he", 256));
    payload.push_str(&line(b"ll", 257));
    payload.push_str(&line(b"hell", 258));
    payload.push_str(&line(b" w", 259));
    payload.push_str(&line(b"or", 260));
    payload
}

fn toy_specials() -> FxHashMap<String, usize> {
    let mut specials: FxHashMap<String, usize> = FxHashMap::default();
    specials.insert(String::from("<|endoftext|>"), 1000);
    specials.insert(String::from("<|fim+prefix|>"), 1001);
    specials
}

fn toy() -> Tiktoken {
    Tiktoken::new(&toy_payload(), Some(toy_specials()), R50K_PATTERN).unwrap()
}

fn listed(literals: &[&str]) -> SpecialArgument {
    SpecialArgument::Listed(literals.iter().map(|l| l.to_string()).collect())
}

fn all() -> SpecialArgument {
    SpecialArgument::Word(String::from("all"))
}

#[test]
fn ordinary_text_is_cut_and_merged() {
    let enc = toy();
    assert_eq!(enc.encode_ordinary("hello world").unwrap(), vec![258, 111, 259, 260, 108, 100]);
    assert_eq!(enc.encode_ordinary("").unwrap(), Vec::<usize>::new());
    assert_eq!(enc.encode_ordinary("he").unwrap(), vec![256]);
}

#[test]
fn ordinary_encoding_does_not_see_special_tokens() {
    let enc = toy();
    let tokens = enc.encode_ordinary("<|endoftext|>").unwrap();
    assert!(!tokens.contains(&1000));
    assert_eq!(enc.decode(tokens), b"<|endoftext|>".to_vec());
}

#[test]
fn decoding_an_ordinary_encoding_gives_the_text() {
    let enc = toy();
    for text in ["hello world", "", " ", "hello  world\n\n", "héllo wörld ✓", "a'll be 123 !?", "\t\r\n x"] {
        let tokens = enc.encode_ordinary(text).unwrap();
        assert_eq!(enc.decode(tokens), text.as_bytes().to_vec());
    }
}

#[test]
fn decoding_with_the_other_pattern_gives_the_text() {
    let enc = Tiktoken::new(&toy_payload(), Some(toy_specials()), CL100K_PATTERN).unwrap();
    for text in ["hello world", "HELLO'S 12345 world\r\n", "  !"] {
        let tokens = enc.encode_ordinary(text).unwrap();
        assert_eq!(enc.decode(tokens), text.as_bytes().to_vec());
    }
    assert_eq!(enc.encode_ordinary("12345").unwrap(), vec![49, 50, 51, 52, 53]);
}

#[test]
fn allowed_special_token_is_encoded_by_its_id() {
    let enc = toy();
    let tokens = enc
        .encode("hello <|endoftext|>", &listed(&["<|endoftext|>"]), &SpecialArgument::Absent)
        .unwrap();
    assert_eq!(tokens, vec![258, 111, 32, 1000]);
    let tokens = enc.encode("<|endoftext|>he", &all(), &SpecialArgument::Absent).unwrap();
    assert_eq!(tokens, vec![1000, 256]);
    let tokens = enc
        .encode("he<|endoftext|><|fim+prefix|>he", &all(), &SpecialArgument::Absent)
        .unwrap();
    assert_eq!(tokens, vec![256, 1000, 1001, 256]);
}

#[test]
fn special_token_stands_where_its_literal_stood() {
    let enc = toy();
    let text = "he<|endoftext|>ll";
    let tokens = enc.encode(text, &listed(&["<|endoftext|>"]), &SpecialArgument::Absent).unwrap();
    let before = enc.encode_ordinary("he").unwrap();
    assert_eq!(tokens[before.len()], 1000);
    assert_eq!(tokens, vec![256, 1000, 257]);
    assert_eq!(enc.decode(tokens), text.as_bytes().to_vec());
}

#[test]
fn disallowed_special_token_is_rejected() {
    let enc = toy();
    let r = enc.encode("hello <|endoftext|>", &SpecialArgument::Absent, &SpecialArgument::Absent);
    assert_eq!(
        r.err(),
        Some(TiktokenError::DisallowedSpecialTokenFound { literal: String::from("<|endoftext|>") })
    );
    let r = enc.encode("a <|fim+prefix|> b", &SpecialArgument::Absent, &all());
    assert_eq!(
        r.err(),
        Some(TiktokenError::DisallowedSpecialTokenFound { literal: String::from("<|fim+prefix|>") })
    );
    let r = enc.encode("a <|fim+prefix|> b", &listed(&["<|endoftext|>"]), &all());
    assert_eq!(
        r.err(),
        Some(TiktokenError::DisallowedSpecialTokenFound { literal: String::from("<|fim+prefix|>") })
    );
}

#[test]
fn text_without_special_tokens_passes_the_check() {
    let enc = toy();
    let tokens = enc.encode("hello world", &SpecialArgument::Absent, &SpecialArgument::Absent).unwrap();
    assert_eq!(tokens, vec![258, 111, 259, 260, 108, 100]);
    let tokens = enc.encode("a < b | c > d", &SpecialArgument::Absent, &all()).unwrap();
    assert_eq!(enc.decode(tokens), b"a < b | c > d".to_vec());
}

#[test]
fn special_token_that_is_neither_allowed_nor_disallowed_is_ordinary_text() {
    let enc = toy();
    let tokens = enc.encode("<|endoftext|>", &SpecialArgument::Absent, &listed(&[])).unwrap();
    assert_eq!(tokens, enc.encode_ordinary("<|endoftext|>").unwrap());
    let tokens = enc
        .encode("<|endoftext|><|fim+prefix|>", &listed(&["<|fim+prefix|>"]), &listed(&["nothing"]))
        .unwrap();
    let mut expected = enc.encode_ordinary("<|endoftext|>").unwrap();
    expected.push(1001);
    assert_eq!(tokens, expected);
}

#[test]
fn listed_disallowed_literal_is_found() {
    let enc = toy();
    let r = enc.encode("say a.b now", &SpecialArgument::Absent, &listed(&["a.b"]));
    assert_eq!(
        r.err(),
        Some(TiktokenError::DisallowedSpecialTokenFound { literal: String::from("a.b") })
    );
    let tokens = enc.encode("say axb now", &SpecialArgument::Absent, &listed(&["a.b"])).unwrap();
    assert_eq!(enc.decode(tokens), b"say axb now".to_vec());
}

#[test]
fn word_other_than_all_is_refused() {
    let enc = toy();
    let word = SpecialArgument::Word(String::from("some"));
    assert_eq!(
        enc.encode("hello", &word, &SpecialArgument::Absent).err(),
        Some(TiktokenError::InvalidAllowedSpecialArgument)
    );
    assert_eq!(
        enc.encode("hello", &SpecialArgument::Absent, &word).err(),
        Some(TiktokenError::InvalidAllowedSpecialArgument)
    );
}

#[test]
fn argument_that_is_neither_word_nor_set_is_refused() {
    let enc = toy();
    let none = listed(&[]);
    assert_eq!(
        enc.validate_allowed_tokens("hi", &SpecialArgument::Other, &none).err(),
        Some(TiktokenError::InvalidAllowedSpecialArgument)
    );
    assert_eq!(
        enc.validate_allowed_tokens("hi", &none, &SpecialArgument::Other).err(),
        Some(TiktokenError::InvalidAllowedSpecialArgument)
    );
    assert_eq!(
        enc.encode("hi", &SpecialArgument::Other, &SpecialArgument::Absent).err(),
        Some(TiktokenError::InvalidAllowedSpecialArgument)
    );
    assert_eq!(
        enc.encode_with_unstable("hi", &all(), &SpecialArgument::Other).err(),
        Some(TiktokenError::InvalidAllowedSpecialArgument)
    );
    assert_eq!(
        TiktokenError::InvalidAllowedSpecialArgument.message(),
        "Invalid value for allowed_special or disallowed_special"
    );
}

#[test]
fn argument_that_is_not_given_takes_the_default() {
    let enc = toy();
    // Nothing is allowed, and every special token is disallowed.
    let allowed = enc
        .validate_allowed_tokens("hi", &SpecialArgument::Absent, &SpecialArgument::Absent)
        .unwrap();
    assert_eq!(allowed, Vec::<String>::new());
    let r = enc.encode("<|endoftext|>", &SpecialArgument::Absent, &SpecialArgument::Absent);
    assert_eq!(
        r.err(),
        Some(TiktokenError::DisallowedSpecialTokenFound { literal: String::from("<|endoftext|>") })
    );
    // What is allowed is not disallowed by default.
    let tokens = enc
        .encode("<|endoftext|>", &listed(&["<|endoftext|>"]), &SpecialArgument::Absent)
        .unwrap();
    assert_eq!(tokens, vec![1000]);
}

#[test]
fn validation_gives_the_allowed_literals() {
    let enc = toy();
    let allowed = enc
        .validate_allowed_tokens("hello", &listed(&["<|endoftext|>", "x"]), &SpecialArgument::Absent)
        .unwrap();
    assert_eq!(allowed, vec![String::from("<|endoftext|>"), String::from("x")]);
    let mut allowed = enc.validate_allowed_tokens("hello", &all(), &all()).unwrap();
    allowed.sort();
    assert_eq!(allowed, vec![String::from("<|endoftext|>"), String::from("<|fim+prefix|>")]);
    let allowed = enc.validate_allowed_tokens("x", &SpecialArgument::Absent, &all()).unwrap();
    assert_eq!(allowed, Vec::<String>::new());
}

#[test]
fn single_token_is_looked_up_both_ways() {
    let enc = toy();
    assert_eq!(enc.encode_single_token(b"hell"), Ok(258));
    assert_eq!(enc.encode_single_token(b"<|endoftext|>"), Ok(1000));
    assert_eq!(enc.encode_single_token(b"hello"), Err(TiktokenError::UnknownToken));
    assert_eq!(enc.encode_single_token(&[0xff, 0xfe]), Err(TiktokenError::UnknownToken));
    assert_eq!(enc.encode_single_token(&[0xff]), Ok(255));
    assert_eq!(enc.decode_single_token_bytes(258), Ok(b"hell".to_vec()));
    assert_eq!(enc.decode_single_token_bytes(1001), Ok(b"<|fim+prefix|>".to_vec()));
    assert_eq!(enc.decode_single_token_bytes(999), Err(TiktokenError::UnknownToken));
}

#[test]
fn single_piece_is_looked_up_or_merged() {
    let enc = toy();
    assert_eq!(enc._encode_single_piece(b"hell"), vec![258]);
    assert_eq!(enc._encode_single_piece(b"hello"), vec![258, 111]);
    assert_eq!(enc._encode_single_piece(b"hello world"), vec![258, 111, 259, 260, 108, 100]);
}

#[test]
fn decoding_joins_the_bytes_of_the_tokens() {
    let enc = toy();
    assert_eq!(enc.decode(vec![258, 111, 259, 260, 108, 100]), b"hello world".to_vec());
    assert_eq!(enc.decode(vec![256, 1000]), b"he<|endoftext|>".to_vec());
    assert_eq!(enc.decode(vec![]), Vec::<u8>::new());
    assert_eq!(enc.decode(vec![256, 5000, 257]), b"hell".to_vec());
}

#[test]
fn byte_values_come_in_rising_order() {
    let enc = toy();
    let values = enc.token_byte_values();
    assert_eq!(values.len(), 261);
    for pair in values.windows(2) {
        assert!(pair[0] < pair[1]);
    }
    assert_eq!(values[0], vec![0u8]);
    assert!(values.contains(&b"hell".to_vec()));
    let at = values.iter().position(|v| v == b"he").unwrap();
    assert_eq!(values[at - 1], b"h".to_vec());
    assert_eq!(values[at + 1], b"hell".to_vec());
}

#[test]
fn every_single_byte_has_a_rank() {
    let enc = toy();
    for b in 0..=255u8 {
        assert_eq!(enc.encode_single_token(&[b]), Ok(b as usize));
    }
}

#[test]
fn name_is_absent_for_a_tokenizer_of_ones_own() {
    assert_eq!(toy().name(), None);
}

#[test]
fn table_with_a_rank_twice_is_refused() {
    let payload = format!("{}{}", line(b"a", 0), line(b"b", 0));
    let r = Tiktoken::new(&payload, None, R50K_PATTERN);
    assert_eq!(r.err(), Some(TiktokenError::MalformedMergeTable));
}

#[test]
fn special_token_with_the_id_of_a_rank_is_refused() {
    let mut specials: FxHashMap<String, usize> = FxHashMap::default();
    specials.insert(String::from("<|endoftext|>"), 256);
    let r = Tiktoken::new(&toy_payload(), Some(specials), R50K_PATTERN);
    assert_eq!(r.err(), Some(TiktokenError::MalformedMergeTable));
}

#[test]
fn special_tokens_with_the_same_id_are_refused() {
    let mut specials: FxHashMap<String, usize> = FxHashMap::default();
    specials.insert(String::from("<|a|>"), 1000);
    specials.insert(String::from("<|b|>"), 1000);
    let r = Tiktoken::new(&toy_payload(), Some(specials), R50K_PATTERN);
    assert_eq!(r.err(), Some(TiktokenError::MalformedMergeTable));
}

#[test]
fn pattern_that_does_not_compile_is_refused() {
    let r = Tiktoken::new(&toy_payload(), Some(toy_specials()), "(unclosed");
    assert_eq!(r.err(), Some(TiktokenError::InvalidPattern));
}

#[test]
fn piece_with_a_byte_without_rank_cannot_be_encoded() {
    let payload = format!("{}{}", line(b"a", 0), line(b"b", 1));
    let enc = Tiktoken::new(&payload, None, R50K_PATTERN).unwrap();
    assert_eq!(enc.encode_ordinary("abba"), Ok(vec![0, 1, 1, 0]));
    assert_eq!(enc.encode_ordinary("abc"), Err(TiktokenError::EncodeFailure));
}

#[test]
fn pattern_that_matches_the_empty_text_cannot_encode() {
    let enc = Tiktoken::new(&toy_payload(), None, "x*").unwrap();
    // At "a" the pattern matches the empty text: that is no piece.
    assert_eq!(enc.encode_ordinary("axx"), Err(TiktokenError::EncodeFailure));
    assert_eq!(enc.encode_ordinary("xx"), Ok(vec![120, 120]));
}

#[test]
fn pattern_that_leaves_gaps_drops_them() {
    let enc = Tiktoken::new(&toy_payload(), None, "[a-z]+").unwrap();
    let tokens = enc.encode_ordinary("he, he!").unwrap();
    assert_eq!(tokens, vec![256, 256]);
}

#[test]
fn tokenizer_without_special_tokens_encodes() {
    let enc = Tiktoken::new(&toy_payload(), None, R50K_PATTERN).unwrap();
    let tokens = enc.encode("hello", &SpecialArgument::Absent, &SpecialArgument::Absent).unwrap();
    assert_eq!(tokens, vec![258, 111]);
    let tokens = enc.encode("héllo", &all(), &all()).unwrap();
    assert_eq!(enc.decode(tokens), "héllo".as_bytes().to_vec());
}

#[test]
fn error_has_a_message() {
    let e = TiktokenError::DisallowedSpecialTokenFound { literal: String::from("<|x|>") };
    assert_eq!(e.message(), "The text contains a special token that is not allowed: <|x|>");
    assert_eq!(TiktokenError::UnknownEncodingName.message(), "Invalid encoding");
    assert_eq!(TiktokenError::UnknownToken.message(), "Token not found in the vocabulary");
}
