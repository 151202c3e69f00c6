//! The file of a vocabulary: seed words, merges in the order of training, and
//! all tokens in the order of their numbers.
use vstd::prelude::*;

use crate::common::error::{EngramDbError, Fault};
use crate::text::join2;

verus! {

/// The bytes with which every vocabulary starts, `ENGV`.
pub const VOCAB_MAGIC: [u8; 4] = [0x45, 0x4E, 0x47, 0x56];

/// The version of the format.
pub const VOCAB_VERSION: u16 = 1;

/// A vocabulary.
#[derive(Debug)]
pub struct VocabFile {
    pub magic: [u8; 4],
    pub version: u16,
    /// Whether text is normalized for search.
    pub normalize: bool,
    pub seeds: Vec<String>,
    pub merges: Vec<(String, String)>,
    pub vocab: Vec<String>,
    /// The lengths of the codes of the tokens. Files of this version do not
    /// hold them.
    pub static_lengths: Vec<u8>,
}

/// What the file of a vocabulary holds.
#[verifier::ext_equal]
pub struct VocabParts {
    pub magic: Seq<u8>,
    pub version: u16,
    pub normalize: bool,
    pub seeds: Seq<Seq<char>>,
    pub merges: Seq<(Seq<char>, Seq<char>)>,
    pub vocab: Seq<Seq<char>>,
}

/// The model of a list of merges.
pub open spec fn merge_views(v: Seq<(String, String)>) -> Seq<(Seq<char>, Seq<char>)> {
    Seq::new(v.len(), |k: int| (v[k].0@, v[k].1@))
}

impl DeepView for VocabFile {
    type V = VocabParts;

    open spec fn deep_view(&self) -> VocabParts {
        VocabParts {
            magic: self.magic@,
            version: self.version,
            normalize: self.normalize,
            seeds: self.seeds.deep_view(),
            merges: merge_views(self.merges@),
            vocab: self.vocab.deep_view(),
        }
    }
}

/// What `bincode::serialize` makes of the parts of a vocabulary.
pub uninterp spec fn vocab_bytes(p: VocabParts) -> Seq<u8>;

/// What `bincode::deserialize` reads from bytes as the parts of a vocabulary,
/// where it reads any.
pub uninterp spec fn vocab_read(bytes: Seq<u8>) -> Option<VocabParts>;

/// `bincode::serialize` on the parts of a vocabulary. With its default options
/// it has no limit and does not fail; an array of bytes is written as it is,
/// without its length.
#[verifier::external_body]
fn write_parts(v: &VocabFile) -> (r: Option<Vec<u8>>)
    ensures
        r is Some,
        r->0@ == vocab_bytes(v.deep_view()),
        r->0@.len() >= 4 && r->0@.subrange(0, 4) == v.magic@,
{
    let parts = (&v.magic, v.version, v.normalize, &v.seeds, &v.merges, &v.vocab);
    bincode::serialize(&parts).ok()
}

/// `bincode::deserialize` to the parts of a vocabulary: it reads back what
/// `bincode::serialize` wrote. Of an error only the text is kept, of which
/// nothing is said.
#[verifier::external_body]
fn read_parts(bytes: &[u8]) -> (r: Result<VocabFile, String>)
    ensures
        match r {
            Ok(v) => vocab_read(bytes@) == Some(v.deep_view()) && v.static_lengths@.len() == 0,
            Err(_) => vocab_read(bytes@) is None,
        },
        forall|p: VocabParts|
            p.magic.len() == 4 && bytes@ == #[trigger] vocab_bytes(p) ==> r is Ok
                && r->Ok_0.deep_view() == p,
{
    let (magic, version, normalize, seeds, merges, vocab) = bincode::deserialize(bytes).map_err(
        |e| e.to_string(),
    )?;
    let static_lengths = Vec::new();
    Ok(VocabFile { magic, version, normalize, seeds, merges, vocab, static_lengths })
}

impl VocabFile {
    /// A vocabulary of the current version.
    pub fn new(seeds: Vec<String>, merges: Vec<(String, String)>, vocab: Vec<String>) -> (r: Self)
        ensures
            r.deep_view() == (VocabParts {
                magic: VOCAB_MAGIC@,
                version: VOCAB_VERSION,
                normalize: true,
                seeds: seeds.deep_view(),
                merges: merge_views(merges@),
                vocab: vocab.deep_view(),
            }),
            r.static_lengths@.len() == 0,
    {
        VocabFile {
            magic: VOCAB_MAGIC,
            version: VOCAB_VERSION,
            normalize: true,
            seeds,
            merges,
            vocab,
            static_lengths: Vec::new(),
        }
    }

    /// The bytes of the file.
    pub fn to_bytes(&self) -> (r: Result<Vec<u8>, EngramDbError>)
        ensures
            r is Ok,
            r->Ok_0@ == vocab_bytes(self.deep_view()),
            r->Ok_0@.len() >= 4,
            r->Ok_0@.subrange(0, 4) == self.magic@,
    {
        match write_parts(self) {
            Some(b) => Ok(b),
            None => Err(EngramDbError::Parse(String::new())),
        }
    }

    /// Reads a file. Of an error the kind and the beginning of the text are said.
    pub fn from_bytes(bytes: &[u8]) -> (r: Result<Self, EngramDbError>)
        ensures
            match r {
                Ok(v) => vocab_read(bytes@) == Some(v.deep_view()) && v.static_lengths@.len() == 0,
                Err(e) => vocab_read(bytes@) is None && (e.deep_view() matches Fault::Parse(m)
                    && "vocab deserialize: "@.is_prefix_of(m)),
            },
            forall|p: VocabParts|
                p.magic.len() == 4 && bytes@ == #[trigger] vocab_bytes(p) ==> r is Ok
                    && r->Ok_0.deep_view() == p,
    {
        match read_parts(bytes) {
            Ok(v) => Ok(v),
            Err(text) => Err(EngramDbError::Parse(join2("vocab deserialize: ", text.as_str()))),
        }
    }
}

} // verus!
