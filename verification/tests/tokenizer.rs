//! Tokens.
use engramdb::common::tokenizer::{Token, Tokenizer, UNKNOWN_ID};
use engramdb::common::vocab_file::VocabFile;

fn smoke_tokenizer() -> Tokenizer {


    let vf = VocabFile::new(
        Vec::new(),
        vec![
            ("你".into(), "好".into()),
            ("世".into(), "界".into()),
        ],
        vec![
            "你".into(),
            "好".into(),
            "世".into(),
            "界".into(),
            "！".into(),
            "h".into(),
            "e".into(),
            "l".into(),
            "o".into(),
            " ".into(),
            "w".into(),
            "r".into(),
            "d".into(),
            "你好".into(),
            "世界".into(),
        ],
    );
    Tokenizer::from_vocab_file(vf).unwrap()
}

#[test]
fn test_roundtrip_reconstruct() {
    let tok = smoke_tokenizer();
    let text = "你好世界！hello world";
    let tokens = tok.tokenize(text);
    let recon = tok.reconstruct(text, &tokens);
    assert_eq!(recon, text);
}

#[test]
fn test_deterministic() {
    let tok = smoke_tokenizer();
    let text = "你好世界！这是测试 text 123";
    let a = tok.tokenize(text);
    let b = tok.tokenize(text);
    assert_eq!(a, b);
}

#[test]
fn test_incremental_equals_full() {
    let tok = smoke_tokenizer();

    let base = "你好世界！这是测试 text 123 hello";
    let mut prev = String::new();
    let mut prev_tokens: Vec<Token> = Vec::new();
    for i in 1..=base.chars().count() {
        let end = base
            .char_indices()
            .nth(i)
            .map(|(idx, _)| idx)
            .unwrap_or(base.len());
        let next = base[..end].to_string();
        let full = tok.tokenize(&next);
        let inc = tok.tokenize_incremental(&prev, &prev_tokens, &next);
        assert_eq!(inc, full, "step {}", i);
        prev = next;
        prev_tokens = inc;
    }
}

#[test]
fn test_incremental_prefix_shrink() {
    let tok = smoke_tokenizer();
    let full = "你好世界！这是测试 text 123 hello";
    let tokens = tok.tokenize(full);
    let mid = "你好世界！这是测试";
    let inc = tok.tokenize_incremental(full, &tokens, mid);
    assert_eq!(inc, tok.tokenize(mid));
}

#[test]
fn test_incremental_no_shared_prefix() {
    let tok = smoke_tokenizer();
    let tokens = tok.tokenize("你好世界");
    let other = "hello world 123";
    let inc = tok.tokenize_incremental("你好世界", &tokens, other);
    assert_eq!(inc, tok.tokenize(other));
}

#[test]
fn test_merge_behavior() {
    let tok = smoke_tokenizer();
    let text = "你好世界！";
    let tokens = tok.tokenize(text);

    let joined: String = tokens
        .iter()
        .map(|t| &text[t.offset.clone()])
        .collect::<Vec<_>>()
        .join("|");
    assert_eq!(joined, "你好|世界|！");
}

#[test]
fn test_unknown_char_marked_and_reversible() {


    let tok = smoke_tokenizer();
    let text = "你好😀世界";
    let tokens = tok.tokenize(text);
    let unknown: Vec<bool> = tokens.iter().map(|t| t.id == UNKNOWN_ID).collect();
    assert!(unknown.iter().any(|&b| b), "an unknown character is marked");
    assert_eq!(tokens.iter().filter(|t| t.id == UNKNOWN_ID).count(), 1);
    let recon = tok.reconstruct(text, &tokens);
    assert_eq!(recon, text, "an unknown character is kept");

    let joined: String = tokens
        .iter()
        .filter(|t| t.id != UNKNOWN_ID)
        .map(|t| &text[t.offset.clone()])
        .collect::<Vec<_>>()
        .join("|");
    assert_eq!(joined, "你好|世界");
}

#[test]
fn test_hot_words() {
    let tok = smoke_tokenizer();
    let hot = tok.hot_words(2);

    assert_eq!(hot.len(), 2);
    assert_eq!(tok.vocab_size(), 15);
}

#[test]
fn every_beginning_is_tokenized_as_by_itself() {
    let tok = smoke_tokenizer();
    for text in ["你好世界！这是测试 text 123 hello", "hello world 你好世界你好世界", "你好你好你好你好"] {
        let tokens = tok.tokenize(text);
        for (end, _) in text.char_indices() {
            let new = &text[..end];
            assert_eq!(tok.tokenize_incremental(text, &tokens, new), tok.tokenize(new), "{}", new);
        }
    }
}

#[test]
fn tokens_stand_for_what_they_cover() {
    let tok = smoke_tokenizer();
    let text = "你好😀世界！hello w";
    let mut at: usize = 0;
    for t in tok.tokenize(text) {
        assert_eq!(t.offset.start, at);
        at = t.offset.end;
        let part = &text[t.offset.clone()];
        if t.id == UNKNOWN_ID {
            assert_eq!(part.chars().count(), 1);
            assert!(!tok.is_in_vocab(part));
        } else {
            assert_eq!(tok.id_to_token(t.id), Some(part));
        }
    }
    assert_eq!(at, text.len());
}
