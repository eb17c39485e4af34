use base64::Engine;
use rustc_hash::FxHashMap;
use tiktoken::catalog::{model_encoding_name, rank_table_name, same_text, CoreBPEConstructor};
use tiktoken::{encoding_for_model, get_encoding, SpecialArgument, TiktokenError};

fn byte_payload() -> String {
    let mut payload = String::new();
    for b in 0..=255u8 {
        payload.push_str(&format!(
            "{} {}\n",
            base64::engine::general_purpose::STANDARD.encode([b]),
            b
        ));
    }
    payload
}

fn all() -> SpecialArgument {
    SpecialArgument::Word(String::from("all"))
}

#[test]
fn models_name_their_encodings() {
    assert_eq!(model_encoding_name("text-davinci-003"), Some("p50k_base"));
    assert_eq!(model_encoding_name("text-davinci-002"), Some("p50k_base"));
    assert_eq!(model_encoding_name("text-davinci-001"), Some("r50k_base"));
    assert_eq!(model_encoding_name("text-curie-001"), Some("r50k_base"));
    assert_eq!(model_encoding_name("text-babbage-001"), Some("r50k_base"));
    assert_eq!(model_encoding_name("text-ada-001"), Some("r50k_base"));
    assert_eq!(model_encoding_name("davinci"), Some("r50k_base"));
    assert_eq!(model_encoding_name("curie"), Some("r50k_base"));
    assert_eq!(model_encoding_name("babbage"), Some("r50k_base"));
    assert_eq!(model_encoding_name("ada"), Some("r50k_base"));
    assert_eq!(model_encoding_name("code-davinci-002"), Some("p50k_base"));
    assert_eq!(model_encoding_name("code-davinci-001"), Some("p50k_base"));
    assert_eq!(model_encoding_name("code-cushman-002"), Some("p50k_base"));
    assert_eq!(model_encoding_name("code-cushman-001"), Some("p50k_base"));
    assert_eq!(model_encoding_name("davinci-codex"), Some("p50k_base"));
    assert_eq!(model_encoding_name("cushman-codex"), Some("p50k_base"));
    assert_eq!(model_encoding_name("text-davinci-edit-001"), Some("p50k_edit"));
    assert_eq!(model_encoding_name("code-davinci-edit-001"), Some("p50k_edit"));
    assert_eq!(model_encoding_name("text-embedding-ada-002"), Some("cl100k_base"));
    assert_eq!(model_encoding_name("text-similarity-davinci-001"), Some("r50k_base"));
    assert_eq!(model_encoding_name("text-similarity-curie-001"), Some("r50k_base"));
    assert_eq!(model_encoding_name("text-similarity-babbage-001"), Some("r50k_base"));
    assert_eq!(model_encoding_name("text-similarity-ada-001"), Some("r50k_base"));
    assert_eq!(model_encoding_name("text-search-davinci-doc-001"), Some("r50k_base"));
    assert_eq!(model_encoding_name("text-search-curie-doc-001"), Some("r50k_base"));
    assert_eq!(model_encoding_name("text-search-babbage-doc-001"), Some("r50k_base"));
    assert_eq!(model_encoding_name("text-search-ada-doc-001"), Some("r50k_base"));
    assert_eq!(model_encoding_name("code-search-babbage-code-001"), Some("r50k_base"));
    assert_eq!(model_encoding_name("code-search-ada-code-001"), Some("r50k_base"));
    assert_eq!(model_encoding_name("gpt2"), Some("gpt2"));
    assert_eq!(model_encoding_name("gpt-9"), None);
    assert_eq!(model_encoding_name(""), None);
}

#[test]
fn encodings_name_their_rank_tables() {
    assert_eq!(rank_table_name("gpt2"), Some("gpt2"));
    assert_eq!(rank_table_name("r50k_base"), Some("r50k_base"));
    assert_eq!(rank_table_name("p50k_base"), Some("p50k_base"));
    assert_eq!(rank_table_name("p50k_edit"), Some("p50k_base"));
    assert_eq!(rank_table_name("cl100k_base"), Some("cl100k_base"));
    assert_eq!(rank_table_name("other"), None);
}

#[test]
fn texts_are_compared_by_their_characters() {
    assert!(same_text("gpt2", "gpt2"));
    assert!(!same_text("gpt2", "gpt3"));
    assert!(!same_text("gpt2", "gpt"));
    assert!(same_text("", ""));
}

#[test]
fn catalog_gives_the_end_of_text_rank() {
    let payload = byte_payload();
    for (name, id) in [("gpt2", 50256), ("r50k_base", 50256), ("p50k_base", 50256), ("p50k_edit", 50256), ("cl100k_base", 100257)] {
        let enc = get_encoding(name, &payload, None).unwrap();
        assert_eq!(enc.name(), Some(String::from(name)));
        assert_eq!(enc.encode_single_token(b"<|endoftext|>"), Ok(id));
        let tokens = enc.encode("a<|endoftext|>", &all(), &SpecialArgument::Absent).unwrap();
        assert_eq!(tokens, vec![97, id]);
    }
}

#[test]
fn catalog_gives_the_fill_in_the_middle_ranks() {
    let payload = byte_payload();
    let enc = get_encoding("p50k_edit", &payload, None).unwrap();
    assert_eq!(enc.encode_single_token(b"<|fim_prefix|>"), Ok(50281));
    assert_eq!(enc.encode_single_token(b"<|fim_middle|>"), Ok(50282));
    assert_eq!(enc.encode_single_token(b"<|fim_suffix|>"), Ok(50283));
    assert_eq!(enc.encode_single_token(b"<|endofprompt|>"), Err(TiktokenError::UnknownToken));
    let enc = get_encoding("cl100k_base", &payload, None).unwrap();
    assert_eq!(enc.encode_single_token(b"<|fim_prefix|>"), Ok(100258));
    assert_eq!(enc.encode_single_token(b"<|fim_middle|>"), Ok(100259));
    assert_eq!(enc.encode_single_token(b"<|fim_suffix|>"), Ok(100260));
    assert_eq!(enc.encode_single_token(b"<|endofprompt|>"), Ok(100276));
    let enc = get_encoding("gpt2", &payload, None).unwrap();
    assert_eq!(enc.encode_single_token(b"<|fim_prefix|>"), Err(TiktokenError::UnknownToken));
}

#[test]
fn catalog_patterns_differ_on_digits() {
    let payload = byte_payload();
    let gpt2 = get_encoding("gpt2", &payload, None).unwrap();
    let cl100k = get_encoding("cl100k_base", &payload, None).unwrap();
    assert_eq!(gpt2.encode_ordinary("1234").unwrap(), vec![49, 50, 51, 52]);
    let (_, completions) = gpt2
        .encode_with_unstable("1234", &SpecialArgument::Absent, &SpecialArgument::Absent)
        .unwrap();
    let (_, other) = cl100k
        .encode_with_unstable("1234", &SpecialArgument::Absent, &SpecialArgument::Absent)
        .unwrap();
    // gpt2 keeps the digits in one piece, cl100k_base cuts after three of them.
    assert!(completions.contains(&vec![49, 50, 51, 52]));
    assert_eq!(other, vec![vec![52]]);
}

#[test]
fn more_special_tokens_go_over_those_of_the_catalog() {
    let payload = byte_payload();
    let mut more: FxHashMap<String, usize> = FxHashMap::default();
    more.insert(String::from("<|im_start|>"), 70000);
    more.insert(String::from("<|endoftext|>"), 60000);
    let enc = get_encoding("gpt2", &payload, Some(more)).unwrap();
    assert_eq!(enc.encode_single_token(b"<|im_start|>"), Ok(70000));
    assert_eq!(enc.encode_single_token(b"<|endoftext|>"), Ok(60000));
    assert_eq!(enc.decode_single_token_bytes(60000), Ok(b"<|endoftext|>".to_vec()));
    assert_eq!(enc.decode_single_token_bytes(50256), Err(TiktokenError::UnknownToken));
}

#[test]
fn unknown_names_are_refused() {
    let payload = byte_payload();
    assert_eq!(get_encoding("gpt3", &payload, None).err(), Some(TiktokenError::UnknownEncodingName));
    assert_eq!(
        encoding_for_model("gpt-9", &payload, None).err(),
        Some(TiktokenError::UnknownModelName { model: String::from("gpt-9") })
    );
    assert_eq!(
        get_encoding("gpt2", "not a table", None).err(),
        Some(TiktokenError::MalformedMergeTable)
    );
}

#[test]
fn unknown_model_is_named_in_the_message() {
    let e = encoding_for_model("no-such-model", &byte_payload(), None).err().unwrap();
    assert_eq!(e, TiktokenError::UnknownModelName { model: String::from("no-such-model") });
    assert_eq!(e.message(), "Invalid model: no-such-model");
}

#[test]
fn model_gives_what_its_encoding_gives() {
    let payload = byte_payload();
    for (model, encoding) in [
        ("text-embedding-ada-002", "cl100k_base"),
        ("text-davinci-003", "p50k_base"),
        ("code-davinci-edit-001", "p50k_edit"),
        ("davinci", "r50k_base"),
        ("gpt2", "gpt2"),
    ] {
        let by_model = encoding_for_model(model, &payload, None).unwrap();
        let by_name = get_encoding(encoding, &payload, None).unwrap();
        assert_eq!(by_model.name(), by_name.name());
        assert_eq!(by_model.token_byte_values(), by_name.token_byte_values());
        assert_eq!(
            by_model.encode_single_token(b"<|endoftext|>"),
            by_name.encode_single_token(b"<|endoftext|>")
        );
        assert_eq!(by_model.bpe._get_tl_regex().as_str(), by_name.bpe._get_tl_regex().as_str());
        let text = "a<|endoftext|>b 123";
        assert_eq!(
            by_model.encode(text, &all(), &SpecialArgument::Absent),
            by_name.encode(text, &all(), &SpecialArgument::Absent)
        );
    }
    let ada = encoding_for_model("text-embedding-ada-002", &payload, None).unwrap();
    assert_eq!(ada.name(), Some(String::from("cl100k_base")));
    assert_eq!(ada.encode_single_token(b"<|endoftext|>"), Ok(100257));
}

#[test]
fn model_gives_the_tokenizer_of_its_encoding() {
    let payload = byte_payload();
    let enc = encoding_for_model("text-embedding-ada-002", &payload, None).unwrap();
    assert_eq!(enc.name(), Some(String::from("cl100k_base")));
    assert_eq!(enc.encode_single_token(b"<|endofprompt|>"), Ok(100276));
    let enc = encoding_for_model("code-davinci-edit-001", &payload, None).unwrap();
    assert_eq!(enc.name(), Some(String::from("p50k_edit")));
    let enc = encoding_for_model("davinci", &payload, None).unwrap();
    assert_eq!(enc.name(), Some(String::from("r50k_base")));
}

#[test]
fn constructor_holds_the_parts() {
    let parts = CoreBPEConstructor::new("YQ== 0\n", None, "a+").unwrap();
    assert_eq!(parts.encoder.len(), 1);
    assert_eq!(parts.special_tokens.len(), 0);
    assert_eq!(parts.pat_str, "a+");
    let parts = CoreBPEConstructor::cl100k_base("YQ== 0\n").unwrap();
    assert_eq!(parts.special_tokens.len(), 5);
    assert_eq!(parts.special_tokens.get("<|endofprompt|>"), Some(&100276));
    let parts = CoreBPEConstructor::p50k_edit("YQ== 0\n").unwrap();
    assert_eq!(parts.special_tokens.len(), 4);
    assert!(CoreBPEConstructor::gpt2("x").is_err());
}
