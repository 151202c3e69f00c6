//! The file of a vocabulary.
use engramdb::common::vocab_file::{VocabFile, VOCAB_MAGIC, VOCAB_VERSION};

#[test]
fn test_vocab_roundtrip() {
    let vf = VocabFile::new(
        vec!["银行".into()],
        vec![("银".into(), "行".into())],
        vec!["银".into(), "行".into(), "银行".into()],
    );
    let bytes = vf.to_bytes().unwrap();
    let loaded = VocabFile::from_bytes(&bytes).unwrap();
    assert_eq!(loaded.magic, VOCAB_MAGIC);
    assert_eq!(loaded.version, VOCAB_VERSION);
    assert_eq!(loaded.seeds, vec!["银行".to_string()]);
    assert_eq!(loaded.merges, vec![("银".to_string(), "行".to_string())]);
    assert_eq!(loaded.vocab, vec!["银".to_string(), "行".to_string(), "银行".to_string()]);
}

#[test]
fn test_vocab_magic_check() {
    let vf = VocabFile::new(Vec::new(), Vec::new(), Vec::new());
    let bytes = vf.to_bytes().unwrap();
    assert_eq!(&bytes[..4], &VOCAB_MAGIC);
}

#[test]
fn broken_files_are_refused() {
    match VocabFile::from_bytes(&[1, 2, 3]) {
        Err(engramdb::common::EngramDbError::Parse(m)) => {
            assert!(m.starts_with("vocab deserialize: "), "{m}");
        }
        other => panic!("{:?}", other.is_ok()),
    }
}
