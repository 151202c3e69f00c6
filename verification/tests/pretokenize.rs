//! The pieces of a text.
use engramdb::common::pretokenize::{segment, segment_words, CharClass, Piece};

#[test]
fn test_segment_english_sentence() {
    let text = "Hello, world!";
    let pieces = segment(text);
    assert!(pieces.len() >= 4);
    assert_eq!(&text[pieces[0].start..pieces[0].end], "Hello");
    assert_eq!(&text[pieces[1].start..pieces[1].end], ",");
    assert_eq!(&text[pieces[2].start..pieces[2].end], " ");
    assert_eq!(&text[pieces[3].start..pieces[3].end], "world");
}

#[test]
fn test_segment_cjk_block_merged() {
    let text = "你好world";
    let pieces = segment(text);

    assert_eq!(pieces.len(), 2);
    assert_eq!(&text[pieces[0].start..pieces[0].end], "你好");
    assert_eq!(&text[pieces[1].start..pieces[1].end], "world");
}

#[test]
fn test_segment_coverage() {
    let text = "中文 abc 123，！\n🎉🙂";
    let pieces = segment(text);
    let mut offset = 0;
    for p in &pieces {
        assert_eq!(p.start, offset);
        assert!(p.end > p.start);
        offset = p.end;
    }
    assert_eq!(offset, text.len());
}

#[test]
fn test_segment_digits_punct() {
    let text = "v0.21_alpha-2";
    let pieces = segment(text);
    let joined: String = pieces
        .iter()
        .map(|p| &text[p.start..p.end])
        .collect::<Vec<_>>()
        .join("|");
    assert_eq!(joined, "v|0|.|21|_|alpha|-|2");
}

#[test]
fn test_seed_segment() {
    let seeds = vec!["银行".to_string(), "上海".to_string()];
    let words: Vec<String> = segment_words("上海银行间", &seeds)
        .into_iter()
        .map(|(w, _)| w)
        .collect();

    assert_eq!(words, vec!["上海", "银行", "间"]);
}

#[test]
fn test_seed_segment_no_seed() {
    let (words, pieces) = segment_words("你好abc", &[])
        .into_iter()
        .map(|(w, p)| (w, p))
        .collect::<Vec<_>>()
        .into_iter()
        .unzip::<String, Piece, Vec<String>, Vec<Piece>>();
    assert_eq!(words, vec!["你好", "abc"]);
    assert_eq!(pieces.len(), 2);
}

#[test]
fn test_empty_and_single() {
    assert!(segment("").is_empty());
    let pieces = segment("a");
    assert_eq!(pieces.len(), 1);
    assert_eq!(pieces[0].class, CharClass::Letter);
}

#[test]
fn white_space_stands_alone() {
    let words = segment_words("ab \n\u{3000}12", &vec!["x".to_string()]);
    let texts: Vec<&str> = words.iter().map(|w| w.0.as_str()).collect();
    assert_eq!(texts, vec!["ab", " ", "\n", "\u{3000}", "12"]);
}

#[test]
fn neighbouring_runs_differ() {
    let pieces = segment("ab12 \n中文,，");
    for pair in pieces.windows(2) {
        assert_eq!(pair[0].end, pair[1].start);
        assert!(pair[0].class != pair[1].class);
    }
}
