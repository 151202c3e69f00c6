//! A byte pair tokenizer.
//!
//! Text is split into words, every word into characters, and neighbouring
//! tokens are merged, the merge of the lowest rank first, until no merge
//! applies. A character that is not in the vocabulary keeps its place under
//! [`UNKNOWN_ID`].
use vstd::prelude::*;
use vstd::seq_lib::group_seq_properties;

use crate::common::error::{EngramDbError, Fault};
use crate::common::huffman::codes::{canonical_codes, codes_fit, codes_of, ranked, Code};
use crate::common::pretokenize::{
    class_of, classify, covers_chars, lemma_covers_join, lemma_covers_within, lemma_longest,
    lemma_run_end, longest, law_words_cover, ranges, run_end, run_words, seeded, seeds_ok,
    split_ranges, word_end, words_from,
};
use crate::common::vocab_file::{merge_views, vocab_read, VocabFile, VocabParts, VOCAB_MAGIC};
use crate::executor::key_index::{equal_positions, KeyIndex};
use crate::table::{table_get, table_insert};
use crate::text::{
    byte_at, byte_offsets, join2, lemma_byte_at_front, lemma_byte_at_mono, lemma_byte_at_shift,
    slice_text, to_chars,
};
use crate::value::Datum;
use crate::Value;

verus! {

/// A token: its number, and the bytes of the text that it covers.
#[derive(Debug, PartialEq, Eq)]
pub struct Token {
    pub id: u32,
    pub offset: std::ops::Range<usize>,
}

/// The model of a [`Token`].
pub struct Tok {
    pub id: u32,
    pub start: int,
    pub end: int,
}

impl DeepView for Token {
    type V = Tok;

    open spec fn deep_view(&self) -> Tok {
        Tok { id: self.id, start: self.offset.start as int, end: self.offset.end as int }
    }
}

impl Clone for Token {
    fn clone(&self) -> (r: Self)
        ensures
            r.deep_view() == self.deep_view(),
    {
        Token { id: self.id, offset: self.offset.start..self.offset.end }
    }
}

/// The number of a character that is not in the vocabulary.
pub const UNKNOWN_ID: u32 = 0xFFFF_FFFF;

/// The number of a text among the first `n` of a vocabulary: the last place
/// at which it stands.
pub open spec fn id_among(vocab: Seq<Seq<char>>, text: Seq<char>, n: int) -> Option<int>
    decreases n,
{
    if n <= 0 {
        None
    } else if vocab[n - 1] == text {
        Some(n - 1)
    } else {
        id_among(vocab, text, n - 1)
    }
}

/// The number of a text in a vocabulary.
pub open spec fn id_of(vocab: Seq<Seq<char>>, text: Seq<char>) -> Option<u32> {
    match id_among(vocab, text, vocab.len() as int) {
        Some(i) => Some(i as u32),
        None => None,
    }
}

/// Two tokens as one key.
pub open spec fn pair(a: u32, b: u32) -> u64 {
    (a * 0x1_0000_0000 + b) as u64
}

/// The merges of the first `n` pairs: the rank and the merged token of every
/// pair whose parts and whole are in the vocabulary. The last of equal pairs
/// counts.
pub open spec fn merges_of(
    vocab: Seq<Seq<char>>,
    merges: Seq<(Seq<char>, Seq<char>)>,
    n: int,
) -> Map<u64, (u32, u32)>
    decreases n,
{
    if n <= 0 {
        Map::empty()
    } else {
        let before = merges_of(vocab, merges, n - 1);
        let (a, b) = merges[n - 1];
        match (id_of(vocab, a), id_of(vocab, b), id_of(vocab, a + b)) {
            (Some(x), Some(y), Some(z)) => before.insert(pair(x, y), ((n - 1) as u32, z)),
            _ => before,
        }
    }
}

/// What a tokenizer knows.
#[verifier::ext_equal]
pub struct Lexicon {
    pub vocab: Seq<Seq<char>>,
    pub merges: Seq<(Seq<char>, Seq<char>)>,
    pub seeds: Seq<Seq<char>>,
}

/// The merges of a lexicon.
pub open spec fn rules(x: Lexicon) -> Map<u64, (u32, u32)> {
    merges_of(x.vocab, x.merges, x.merges.len() as int)
}

/// The tokens of the characters of a word.
pub open spec fn letters(x: Lexicon, w: Seq<char>) -> Seq<(u32, Seq<char>)> {
    Seq::new(
        w.len(),
        |k: int|
            (
                match id_of(x.vocab, seq![w[k]]) {
                    Some(id) => id,
                    None => UNKNOWN_ID,
                },
                seq![w[k]],
            ),
    )
}

/// The merge of the tokens `k` and `k + 1`.
pub open spec fn rule(m: Map<u64, (u32, u32)>, t: Seq<(u32, Seq<char>)>, k: int) -> Option<
    (u32, u32),
> {
    let p = pair(t[k].0, t[k + 1].0);
    if m.contains_key(p) {
        Some(m[p])
    } else {
        None
    }
}

/// Whether a merge goes before another.
pub open spec fn sooner(a: (u32, u32), b: (u32, u32)) -> bool {
    a.0 < b.0 || (a.0 == b.0 && a.1 < b.1)
}

/// The place of the merge to make among the first `n` pairs: that of the
/// lowest rank, the first of equal ones.
pub open spec fn best(m: Map<u64, (u32, u32)>, t: Seq<(u32, Seq<char>)>, n: int) -> Option<int>
    decreases n,
{
    if n <= 0 {
        None
    } else {
        let before = best(m, t, n - 1);
        match (rule(m, t, n - 1), before) {
            (None, _) => before,
            (Some(_), None) => Some(n - 1),
            (Some(r), Some(p)) => if sooner(r, rule(m, t, p)->0) {
                Some(n - 1)
            } else {
                before
            },
        }
    }
}

/// The tokens after the merge at `k`.
pub open spec fn merged_at(t: Seq<(u32, Seq<char>)>, k: int, id: u32) -> Seq<(u32, Seq<char>)> {
    t.subrange(0, k) + seq![(id, t[k].1 + t[k + 1].1)] + t.subrange(k + 2, t.len() as int)
}

/// The place of a merge is that of a pair with a rule.
pub proof fn lemma_best(m: Map<u64, (u32, u32)>, t: Seq<(u32, Seq<char>)>, n: int)
    ensures
        best(m, t, n) matches Some(k) ==> 0 <= k < n && rule(m, t, k) is Some,
    decreases n,
{
    if n > 0 {
        lemma_best(m, t, n - 1);
    }
}

/// The tokens after all merges.
pub open spec fn merged(m: Map<u64, (u32, u32)>, t: Seq<(u32, Seq<char>)>) -> Seq<(u32, Seq<char>)>
    decreases t.len(),
{
    match best(m, t, t.len() - 1) {
        Some(k) => {
            proof {
                lemma_best(m, t, t.len() - 1);
            }
            merged(m, merged_at(t, k, (rule(m, t, k)->0).1))
        },
        None => t,
    }
}

/// The tokens of a word.
pub open spec fn word_tokens(x: Lexicon, w: Seq<char>) -> Seq<(u32, Seq<char>)> {
    merged(rules(x), letters(x, w))
}

/// The words of a text.
pub open spec fn word_texts(x: Lexicon, s: Seq<char>) -> Seq<Seq<char>> {
    let w = words_from(s, x.seeds, 0);
    Seq::new(w.len(), |k: int| s.subrange(w[k].0, w[k].1))
}

/// The tokens of the first `n` words.
pub open spec fn words_tokens(x: Lexicon, words: Seq<Seq<char>>, n: int) -> Seq<(u32, Seq<char>)>
    decreases n,
{
    if n <= 0 {
        Seq::empty()
    } else {
        words_tokens(x, words, n - 1) + word_tokens(x, words[n - 1])
    }
}

/// The tokens of a text: their numbers and the texts that they cover.
pub open spec fn text_tokens(x: Lexicon, s: Seq<char>) -> Seq<(u32, Seq<char>)> {
    let w = word_texts(x, s);
    words_tokens(x, w, w.len() as int)
}

/// The number of bytes of a text.
pub open spec fn byte_len(s: Seq<char>) -> nat {
    byte_at(s, s.len() as int)
}

/// The number of bytes of the first `n` tokens.
pub open spec fn bytes_before(t: Seq<(u32, Seq<char>)>, n: int) -> nat
    decreases n,
{
    if n <= 0 {
        0
    } else {
        bytes_before(t, n - 1) + byte_len(t[n - 1].1)
    }
}

/// The tokens with the bytes that they cover, where the first starts at
/// `base`.
pub open spec fn placed_from(t: Seq<(u32, Seq<char>)>, base: int) -> Seq<Tok> {
    Seq::new(
        t.len(),
        |k: int|
            Tok {
                id: t[k].0,
                start: base + bytes_before(t, k),
                end: base + bytes_before(t, k + 1),
            },
    )
}

/// The tokens of a text with the bytes that they cover.
pub open spec fn tokens_of(x: Lexicon, s: Seq<char>) -> Seq<Tok> {
    placed_from(text_tokens(x, s), 0)
}

/// The texts of the first `n` tokens, put together.
pub open spec fn spelled(t: Seq<(u32, Seq<char>)>, n: int) -> Seq<char>
    decreases n,
{
    if n <= 0 {
        Seq::empty()
    } else {
        spelled(t, n - 1) + t[n - 1].1
    }
}

/// Tokens moved by a number of bytes.
pub open spec fn moved(t: Seq<Tok>, by: int) -> Seq<Tok> {
    Seq::new(t.len(), |k: int| Tok { id: t[k].id, start: t[k].start + by, end: t[k].end + by })
}

// The texts of the tokens.

pub proof fn lemma_spelled_add(a: Seq<(u32, Seq<char>)>, b: Seq<(u32, Seq<char>)>, n: int)
    requires
        0 <= n <= b.len(),
    ensures
        spelled(a + b, a.len() + n) == spelled(a, a.len() as int) + spelled(b, n),
    decreases n,
{
    if n > 0 {
        lemma_spelled_add(a, b, n - 1);
        assert((a + b)[a.len() + n - 1] == b[n - 1]);
        assert(spelled(a, a.len() as int) + spelled(b, n - 1) + b[n - 1].1 =~= spelled(
            a,
            a.len() as int,
        ) + spelled(b, n));
    } else {
        lemma_spelled_front(a, a + b, a.len() as int);
        assert(spelled(a, a.len() as int) + spelled(b, 0) =~= spelled(a, a.len() as int));
    }
}

proof fn lemma_spelled_front(a: Seq<(u32, Seq<char>)>, b: Seq<(u32, Seq<char>)>, n: int)
    requires
        0 <= n <= a.len(),
        n <= b.len(),
        forall|k: int| 0 <= k < n ==> a[k] == b[k],
    ensures
        spelled(a, n) == spelled(b, n),
    decreases n,
{
    if n > 0 {
        lemma_spelled_front(a, b, n - 1);
    }
}

proof fn lemma_spelled_merge(t: Seq<(u32, Seq<char>)>, k: int, id: u32)
    requires
        0 <= k < t.len() - 1,
    ensures
        spelled(merged_at(t, k, id), t.len() - 1) == spelled(t, t.len() as int),
        merged_at(t, k, id).len() == t.len() - 1,
{
    let (a, c) = (t.subrange(0, k), t.subrange(k + 2, t.len() as int));
    let mid = seq![(id, t[k].1 + t[k + 1].1)];
    let two = seq![t[k], t[k + 1]];
    assert(t =~= a + two + c);
    lemma_spelled_add(a + mid, c, c.len() as int);
    lemma_spelled_add(a, mid, 1);
    lemma_spelled_add(a + two, c, c.len() as int);
    lemma_spelled_add(a, two, 2);
    assert(spelled(mid, 1) =~= t[k].1 + t[k + 1].1) by {
        assert(spelled(mid, 0) =~= Seq::<char>::empty());
    }
    assert(spelled(two, 2) =~= t[k].1 + t[k + 1].1) by {
        assert(spelled(two, 0) =~= Seq::<char>::empty());
        assert(spelled(two, 1) =~= t[k].1);
    }
}

proof fn lemma_merged_spelled(m: Map<u64, (u32, u32)>, t: Seq<(u32, Seq<char>)>)
    ensures
        spelled(merged(m, t), merged(m, t).len() as int) == spelled(t, t.len() as int),
    decreases t.len(),
{
    if let Some(k) = best(m, t, t.len() - 1) {
        lemma_best(m, t, t.len() - 1);
        let id = (rule(m, t, k)->0).1;
        lemma_spelled_merge(t, k, id);
        lemma_merged_spelled(m, merged_at(t, k, id));
    }
}

proof fn lemma_letters_spelled(x: Lexicon, w: Seq<char>, n: int)
    requires
        0 <= n <= w.len(),
    ensures
        spelled(letters(x, w), n) == w.subrange(0, n),
    decreases n,
{
    if n > 0 {
        lemma_letters_spelled(x, w, n - 1);
        assert(w.subrange(0, n) =~= w.subrange(0, n - 1) + seq![w[n - 1]]);
    } else {
        assert(w.subrange(0, 0) =~= Seq::<char>::empty());
    }
}

/// The tokens of a word spell it.
pub proof fn lemma_word_spelled(x: Lexicon, w: Seq<char>)
    ensures
        spelled(word_tokens(x, w), word_tokens(x, w).len() as int) == w,
{
    lemma_letters_spelled(x, w, w.len() as int);
    assert(w.subrange(0, w.len() as int) =~= w);
    lemma_merged_spelled(rules(x), letters(x, w));
}

/// The first `n` words, put together.
pub open spec fn glued(words: Seq<Seq<char>>, n: int) -> Seq<char>
    decreases n,
{
    if n <= 0 {
        Seq::empty()
    } else {
        glued(words, n - 1) + words[n - 1]
    }
}

proof fn lemma_words_spelled(x: Lexicon, words: Seq<Seq<char>>, n: int)
    requires
        0 <= n <= words.len(),
    ensures
        spelled(words_tokens(x, words, n), words_tokens(x, words, n).len() as int) == glued(
            words,
            n,
        ),
    decreases n,
{
    if n > 0 {
        lemma_words_spelled(x, words, n - 1);
        lemma_word_spelled(x, words[n - 1]);
        let (a, b) = (words_tokens(x, words, n - 1), word_tokens(x, words[n - 1]));
        lemma_spelled_add(a, b, b.len() as int);
    }
}

proof fn lemma_glued_covers(s: Seq<char>, w: Seq<(int, int)>, a: int, n: int)
    requires
        0 <= a <= s.len(),
        0 <= n <= w.len(),
        covers_chars(w, a, s.len() as int),
    ensures
        glued(Seq::new(w.len(), |k: int| s.subrange(w[k].0, w[k].1)), n) == s.subrange(
            a,
            if n == 0 {
                a
            } else {
                w[n - 1].1
            },
        ),
    decreases n,
{
    let texts = Seq::new(w.len(), |k: int| s.subrange(w[k].0, w[k].1));
    if n > 0 {
        lemma_glued_covers(s, w, a, n - 1);
        lemma_covers_within(w, a, s.len() as int, n - 1);
        if n > 1 {
            lemma_covers_within(w, a, s.len() as int, n - 2);
            assert(w[n - 2].1 == w[n - 1].0);
            assert(s.subrange(a, w[n - 2].1) + texts[n - 1] =~= s.subrange(a, w[n - 1].1));
        } else {
            assert(s.subrange(a, a) + texts[0] =~= s.subrange(a, w[0].1));
        }
    } else {
        assert(s.subrange(a, a) =~= Seq::<char>::empty());
    }
}

/// The tokens of a text spell it: no character is lost or added.
pub proof fn law_tokens_spell(x: Lexicon, s: Seq<char>)
    ensures
        spelled(text_tokens(x, s), text_tokens(x, s).len() as int) == s,
{
    let words = word_texts(x, s);
    let w = words_from(s, x.seeds, 0);
    law_words_cover(s, x.seeds);
    lemma_words_spelled(x, words, words.len() as int);
    lemma_glued_covers(s, w, 0, w.len() as int);
    if w.len() > 0 {
        assert(s.subrange(0, s.len() as int) =~= s);
    } else {
        assert(s =~= Seq::<char>::empty());
        assert(s.subrange(0, 0) =~= s);
    }
}

// Tokens are not empty.

/// Whether every token covers a character at least.
pub open spec fn solid(t: Seq<(u32, Seq<char>)>) -> bool {
    forall|k: int| 0 <= k < t.len() ==> (#[trigger] t[k]).1.len() > 0
}

proof fn lemma_merged_solid(m: Map<u64, (u32, u32)>, t: Seq<(u32, Seq<char>)>)
    requires
        solid(t),
    ensures
        solid(merged(m, t)),
    decreases t.len(),
{
    if let Some(k) = best(m, t, t.len() - 1) {
        lemma_best(m, t, t.len() - 1);
        let id = (rule(m, t, k)->0).1;
        let u = merged_at(t, k, id);
        assert forall|j: int| 0 <= j < u.len() implies (#[trigger] u[j]).1.len() > 0 by {
            if j < k {
                assert(u[j] == t[j]);
            } else if j > k {
                assert(u[j] == t[j + 1]);
            } else {
                assert(t[k].1.len() > 0);
            }
        }
        lemma_merged_solid(m, u);
    }
}

pub proof fn lemma_words_solid(x: Lexicon, words: Seq<Seq<char>>, n: int)
    requires
        0 <= n <= words.len(),
    ensures
        solid(words_tokens(x, words, n)),
    decreases n,
{
    if n > 0 {
        lemma_words_solid(x, words, n - 1);
        let w = words[n - 1];
        assert(solid(letters(x, w)));
        lemma_merged_solid(rules(x), letters(x, w));
        let (a, b) = (words_tokens(x, words, n - 1), word_tokens(x, w));
        assert forall|k: int| 0 <= k < (a + b).len() implies (#[trigger] (a + b)[k]).1.len() > 0 by {
            if k >= a.len() {
                assert((a + b)[k] == b[k - a.len()]);
            }
        }
    }
}

// Bytes of tokens.

pub proof fn lemma_byte_len_add(a: Seq<char>, b: Seq<char>)
    ensures
        byte_len(a + b) == byte_len(a) + byte_len(b),
{
    let s = a + b;
    lemma_byte_at_shift(s, a.len() as int, b.len() as int);
    assert(s.subrange(a.len() as int, s.len() as int) =~= b);
    lemma_byte_at_front(s, a, a.len() as int);
}

/// The bytes of tokens are those of the text that they spell.
pub proof fn lemma_bytes_spelled(t: Seq<(u32, Seq<char>)>, n: int)
    ensures
        bytes_before(t, n) == byte_len(spelled(t, n)),
    decreases n,
{
    if n > 0 {
        lemma_bytes_spelled(t, n - 1);
        lemma_byte_len_add(spelled(t, n - 1), t[n - 1].1);
    }
}

/// The tokens of two texts put together, with the bytes that they cover.
proof fn lemma_placed_add(a: Seq<(u32, Seq<char>)>, b: Seq<(u32, Seq<char>)>, base: int)
    ensures
        placed_from(a + b, base) == placed_from(a, base) + moved(
            placed_from(b, 0),
            base + bytes_before(a, a.len() as int),
        ),
{
    let n = a.len() as int;
    let (p, q) = (placed_from(a + b, base), placed_from(a, base) + moved(
        placed_from(b, 0),
        base + bytes_before(a, n),
    ));
    assert forall|k: int| 0 <= k < p.len() implies p[k] == q[k] by {
        if k < n {
            lemma_bytes_front(a, a + b, k);
            lemma_bytes_front(a, a + b, k + 1);
        } else {
            lemma_bytes_add(a, b, k - n);
            lemma_bytes_add(a, b, k + 1 - n);
            assert((a + b)[k] == b[k - n]);
        }
    }
    assert(p =~= q);
}

proof fn lemma_bytes_front(a: Seq<(u32, Seq<char>)>, b: Seq<(u32, Seq<char>)>, n: int)
    requires
        0 <= n <= a.len(),
        n <= b.len(),
        forall|k: int| 0 <= k < n ==> a[k] == b[k],
    ensures
        bytes_before(a, n) == bytes_before(b, n),
    decreases n,
{
    if n > 0 {
        lemma_bytes_front(a, b, n - 1);
    }
}

proof fn lemma_bytes_add(a: Seq<(u32, Seq<char>)>, b: Seq<(u32, Seq<char>)>, n: int)
    requires
        0 <= n <= b.len(),
    ensures
        bytes_before(a + b, a.len() + n) == bytes_before(a, a.len() as int) + bytes_before(b, n),
    decreases n,
{
    if n > 0 {
        lemma_bytes_add(a, b, n - 1);
        assert((a + b)[a.len() + n - 1] == b[n - 1]);
    } else {
        lemma_bytes_front(a, a + b, a.len() as int);
    }
}

// Splitting a text between two runs.

/// Whether a text can be split at a character: no run goes across.
pub open spec fn splits_at(s: Seq<char>, m: int) -> bool {
    0 < m < s.len() ==> class_of(s[m]) != class_of(s[m - 1])
}

proof fn lemma_run_end_front(s: Seq<char>, t: Seq<char>, m: int, i: int)
    requires
        0 <= i < m <= s.len(),
        m <= t.len(),
        splits_at(s, m),
        splits_at(t, m),
        forall|k: int| 0 <= k < m ==> s[k] == t[k],
    ensures
        run_end(s, i) == run_end(t, i),
        run_end(s, i) <= m,
    decreases m - i,
{
    if i + 1 < m {
        lemma_run_end_front(s, t, m, i + 1);
    }
}

proof fn lemma_longest_front(
    s: Seq<char>,
    t: Seq<char>,
    seeds: Seq<Seq<char>>,
    i: int,
    b: int,
    n: int,
)
    requires
        0 <= i <= b <= s.len(),
        b <= t.len(),
        0 <= n <= seeds.len(),
        forall|k: int| i <= k < b ==> s[k] == t[k],
    ensures
        longest(s, seeds, i, b, n) == longest(t, seeds, i, b, n),
    decreases n,
{
    if n > 0 {
        lemma_longest_front(s, t, seeds, i, b, n - 1);
        let w = seeds[n - 1];
        if i + w.len() <= b {
            assert(s.subrange(i, i + w.len()) =~= t.subrange(i, i + w.len()));
        }
    }
}

proof fn lemma_seeded_front(s: Seq<char>, t: Seq<char>, seeds: Seq<Seq<char>>, i: int, b: int)
    requires
        0 <= i <= b <= s.len(),
        b <= t.len(),
        forall|k: int| i <= k < b ==> s[k] == t[k],
    ensures
        seeded(s, seeds, i, b) == seeded(t, seeds, i, b),
    decreases b - i,
{
    if i < b {
        lemma_longest_front(s, t, seeds, i, b, seeds.len() as int);
        lemma_longest(s, seeds, i, b, seeds.len() as int);
        lemma_seeded_front(s, t, seeds, word_end(s, seeds, i, b), b);
    }
}

/// The words of the runs from character `i` to character `m`.
spec fn words_between(s: Seq<char>, seeds: Seq<Seq<char>>, i: int, m: int) -> Seq<(int, int)>
    decreases
        (if i < m {
            m - i
        } else {
            0
        }),
{
    if i < 0 || i >= m || i >= s.len() || run_end(s, i) <= i {
        Seq::empty()
    } else {
        run_words(s, seeds, i, run_end(s, i)) + words_between(s, seeds, run_end(s, i), m)
    }
}

proof fn lemma_words_split(s: Seq<char>, seeds: Seq<Seq<char>>, i: int, m: int)
    requires
        0 <= i <= m <= s.len(),
        splits_at(s, m),
    ensures
        words_from(s, seeds, i) == words_between(s, seeds, i, m) + words_from(s, seeds, m),
        covers_chars(words_between(s, seeds, i, m), i, m),
    decreases m - i,
{
    if i < m {
        lemma_run_end(s, i);
        lemma_run_end_front(s, s, m, i);
        let e = run_end(s, i);
        lemma_words_split(s, seeds, e, m);
        crate::common::pretokenize::lemma_run_words_cover(s, seeds, i, e);
        lemma_covers_join(run_words(s, seeds, i, e), words_between(s, seeds, e, m), i, e, m);
        assert(words_from(s, seeds, i) =~= words_between(s, seeds, i, m) + words_from(
            s,
            seeds,
            m,
        ));
    } else {
        assert(words_from(s, seeds, i) =~= words_between(s, seeds, i, m) + words_from(
            s,
            seeds,
            m,
        ));
    }
}

proof fn lemma_words_between_front(
    s: Seq<char>,
    t: Seq<char>,
    seeds: Seq<Seq<char>>,
    i: int,
    m: int,
)
    requires
        0 <= i <= m <= s.len(),
        m <= t.len(),
        splits_at(s, m),
        splits_at(t, m),
        forall|k: int| 0 <= k < m ==> s[k] == t[k],
    ensures
        words_between(s, seeds, i, m) == words_between(t, seeds, i, m),
    decreases m - i,
{
    if i < m {
        lemma_run_end(s, i);
        lemma_run_end_front(s, t, m, i);
        let e = run_end(s, i);
        lemma_seeded_front(s, t, seeds, i, e);
        lemma_words_between_front(s, t, seeds, e, m);
    }
}

/// Ranges moved by a number of characters.
spec fn shifted(w: Seq<(int, int)>, by: int) -> Seq<(int, int)> {
    Seq::new(w.len(), |k: int| (w[k].0 + by, w[k].1 + by))
}

proof fn lemma_run_end_shift(s: Seq<char>, m: int, i: int)
    requires
        0 <= m,
        0 <= i,
        m + i < s.len(),
    ensures
        run_end(s, m + i) == m + run_end(s.subrange(m, s.len() as int), i),
    decreases s.len() - i,
{
    let u = s.subrange(m, s.len() as int);
    assert(u[i] == s[m + i]);
    if m + i + 1 < s.len() {
        assert(u[i + 1] == s[m + i + 1]);
        if class_of(s[m + i + 1]) == class_of(s[m + i]) {
            lemma_run_end_shift(s, m, i + 1);
        }
    }
}

proof fn lemma_longest_shift(
    s: Seq<char>,
    m: int,
    seeds: Seq<Seq<char>>,
    i: int,
    b: int,
    n: int,
)
    requires
        0 <= m,
        0 <= i <= b,
        m + b <= s.len(),
        0 <= n <= seeds.len(),
    ensures
        longest(s, seeds, m + i, m + b, n) == longest(
            s.subrange(m, s.len() as int),
            seeds,
            i,
            b,
            n,
        ),
    decreases n,
{
    if n > 0 {
        let u = s.subrange(m, s.len() as int);
        lemma_longest_shift(s, m, seeds, i, b, n - 1);
        let w = seeds[n - 1];
        if i + w.len() <= b {
            assert(u.subrange(i, i + w.len()) =~= s.subrange(m + i, m + i + w.len()));
        }
    }
}

proof fn lemma_seeded_shift(s: Seq<char>, m: int, seeds: Seq<Seq<char>>, i: int, b: int)
    requires
        0 <= m,
        0 <= i <= b,
        m + b <= s.len(),
    ensures
        seeded(s, seeds, m + i, m + b) == shifted(
            seeded(s.subrange(m, s.len() as int), seeds, i, b),
            m,
        ),
    decreases b - i,
{
    let u = s.subrange(m, s.len() as int);
    if i < b {
        lemma_longest_shift(s, m, seeds, i, b, seeds.len() as int);
        lemma_longest(u, seeds, i, b, seeds.len() as int);
        let e = word_end(u, seeds, i, b);
        assert(word_end(s, seeds, m + i, m + b) == m + e);
        lemma_seeded_shift(s, m, seeds, e, b);
        assert(seeded(s, seeds, m + i, m + b) =~= shifted(seeded(u, seeds, i, b), m));
    } else {
        assert(seeded(s, seeds, m + i, m + b) =~= shifted(seeded(u, seeds, i, b), m));
    }
}

proof fn lemma_words_shift(s: Seq<char>, seeds: Seq<Seq<char>>, m: int, i: int)
    requires
        0 <= m,
        0 <= i,
        m + i <= s.len(),
    ensures
        words_from(s, seeds, m + i) == shifted(
            words_from(s.subrange(m, s.len() as int), seeds, i),
            m,
        ),
    decreases s.len() - m - i,
{
    let u = s.subrange(m, s.len() as int);
    if m + i < s.len() {
        lemma_run_end(u, i);
        lemma_run_end_shift(s, m, i);
        let e = run_end(u, i);
        assert(u[i] == s[m + i]);
        lemma_seeded_shift(s, m, seeds, i, e);
        assert(run_words(s, seeds, m + i, m + e) =~= shifted(run_words(u, seeds, i, e), m));
        lemma_words_shift(s, seeds, m, e);
        assert(words_from(s, seeds, m + i) =~= shifted(words_from(u, seeds, i), m));
    } else {
        assert(words_from(s, seeds, m + i) =~= shifted(words_from(u, seeds, i), m));
    }
}

proof fn lemma_ranges_split(s: Seq<char>, seeds: Seq<Seq<char>>, m: int)
    requires
        0 <= m <= s.len(),
        splits_at(s, m),
    ensures
        words_from(s, seeds, 0) == words_from(s.subrange(0, m), seeds, 0) + shifted(
            words_from(s.subrange(m, s.len() as int), seeds, 0),
            m,
        ),
{
    let a = s.subrange(0, m);
    lemma_words_split(s, seeds, 0, m);
    lemma_words_split(a, seeds, 0, m);
    lemma_words_between_front(s, a, seeds, 0, m);
    lemma_words_shift(s, seeds, m, 0);
    assert(words_from(a, seeds, m) =~= Seq::empty());
    assert(words_from(a, seeds, 0) =~= words_between(a, seeds, 0, m));
}

/// The words of a text that can be split are those of its parts.
proof fn lemma_word_texts_split(x: Lexicon, s: Seq<char>, m: int)
    requires
        0 <= m <= s.len(),
        splits_at(s, m),
    ensures
        word_texts(x, s) == word_texts(x, s.subrange(0, m)) + word_texts(
            x,
            s.subrange(m, s.len() as int),
        ),
{
    let (a, b) = (s.subrange(0, m), s.subrange(m, s.len() as int));
    let w = words_from(s, x.seeds, 0);
    let (p, q) = (words_from(a, x.seeds, 0), words_from(b, x.seeds, 0));
    lemma_ranges_split(s, x.seeds, m);
    law_words_cover(a, x.seeds);
    law_words_cover(b, x.seeds);
    let (t, u) = (word_texts(x, s), word_texts(x, a) + word_texts(x, b));
    assert forall|k: int| 0 <= k < t.len() implies t[k] == u[k] by {
        if k < p.len() {
            lemma_covers_within(p, 0, m, k);
            assert(s.subrange(p[k].0, p[k].1) =~= a.subrange(p[k].0, p[k].1));
        } else {
            let j = k - p.len();
            lemma_covers_within(q, 0, b.len() as int, j);
            assert(w[k] == (q[j].0 + m, q[j].1 + m));
            assert(s.subrange(q[j].0 + m, q[j].1 + m) =~= b.subrange(q[j].0, q[j].1));
        }
    }
    assert(t =~= u);
}

proof fn lemma_words_tokens_add(x: Lexicon, a: Seq<Seq<char>>, b: Seq<Seq<char>>, n: int)
    requires
        0 <= n <= b.len(),
    ensures
        words_tokens(x, a + b, a.len() + n) == words_tokens(x, a, a.len() as int) + words_tokens(
            x,
            b,
            n,
        ),
    decreases n,
{
    if n > 0 {
        lemma_words_tokens_add(x, a, b, n - 1);
        assert((a + b)[a.len() + n - 1] == b[n - 1]);
        assert(words_tokens(x, a + b, a.len() + n) =~= words_tokens(x, a, a.len() as int)
            + words_tokens(x, b, n));
    } else {
        lemma_words_tokens_front(x, a, a + b, a.len() as int);
        assert(words_tokens(x, a, a.len() as int) + words_tokens(x, b, 0) =~= words_tokens(
            x,
            a,
            a.len() as int,
        ));
    }
}

proof fn lemma_words_tokens_front(x: Lexicon, a: Seq<Seq<char>>, b: Seq<Seq<char>>, n: int)
    requires
        0 <= n <= a.len(),
        n <= b.len(),
        forall|k: int| 0 <= k < n ==> a[k] == b[k],
    ensures
        words_tokens(x, a, n) == words_tokens(x, b, n),
    decreases n,
{
    if n > 0 {
        lemma_words_tokens_front(x, a, b, n - 1);
    }
}

/// A text that can be split between two runs has the tokens of its parts.
pub proof fn law_tokens_split(x: Lexicon, s: Seq<char>, m: int)
    requires
        0 <= m <= s.len(),
        splits_at(s, m),
    ensures
        tokens_of(x, s) == tokens_of(x, s.subrange(0, m)) + moved(
            tokens_of(x, s.subrange(m, s.len() as int)),
            byte_at(s, m) as int,
        ),
{
    let (a, b) = (s.subrange(0, m), s.subrange(m, s.len() as int));
    lemma_word_texts_split(x, s, m);
    let (p, q) = (word_texts(x, a), word_texts(x, b));
    lemma_words_tokens_add(x, p, q, q.len() as int);
    let (t, u) = (text_tokens(x, a), text_tokens(x, b));
    assert(text_tokens(x, s) == t + u);
    lemma_placed_add(t, u, 0);
    law_tokens_spell(x, a);
    lemma_bytes_spelled(t, t.len() as int);
    lemma_byte_at_front(s, a, m);
}

// Tokenizing more of a text.

/// The number of characters that two texts start with in common, from `i` on.
pub open spec fn common_from(a: Seq<char>, b: Seq<char>, i: int) -> int
    decreases a.len() - i,
{
    if 0 <= i < a.len() && i < b.len() && a[i] == b[i] {
        common_from(a, b, i + 1)
    } else {
        i
    }
}

pub proof fn lemma_common(a: Seq<char>, b: Seq<char>, i: int)
    requires
        0 <= i <= a.len(),
        i <= b.len(),
    ensures
        i <= common_from(a, b, i) <= a.len(),
        common_from(a, b, i) <= b.len(),
        forall|k: int| i <= k < common_from(a, b, i) ==> a[k] == b[k],
    decreases a.len() - i,
{
    if i < a.len() && i < b.len() && a[i] == b[i] {
        lemma_common(a, b, i + 1);
    }
}

/// The first character of the run that character `i` lies in.
pub open spec fn run_start(s: Seq<char>, i: int) -> int
    decreases i,
{
    if i <= 0 || class_of(s[i - 1]) != class_of(s[i]) {
        i
    } else {
        run_start(s, i - 1)
    }
}

pub proof fn lemma_run_start(s: Seq<char>, i: int)
    requires
        0 <= i < s.len(),
    ensures
        0 <= run_start(s, i) <= i,
        splits_at(s, run_start(s, i)),
    decreases i,
{
    if i > 0 && class_of(s[i - 1]) == class_of(s[i]) {
        lemma_run_start(s, i - 1);
    }
}

/// The character from which text is tokenized anew, where `p > 0` characters
/// are the same: `p` where both texts can be split there, else the start of
/// the run before it.
pub open spec fn restart(prev: Seq<char>, new: Seq<char>, p: int) -> int {
    if p < prev.len() && splits_at(prev, p) && splits_at(new, p) {
        p
    } else {
        run_start(prev, p - 1)
    }
}

/// The number of tokens at the front that end by a byte, from `k` on.
pub open spec fn ending_by(t: Seq<Tok>, byte: int, k: int) -> int
    decreases t.len() - k,
{
    if 0 <= k < t.len() && t[k].end <= byte {
        ending_by(t, byte, k + 1)
    } else {
        k
    }
}

/// The tokens of a text of which a former version and its tokens are known.
/// Where the text is a beginning of the former one and ends where that one
/// can be split, the former tokens that end within it are kept. Where the
/// texts share few bytes at their start, or less than half could be kept, all
/// is tokenized.
pub open spec fn retokenized(
    x: Lexicon,
    prev: Seq<char>,
    tokens: Seq<Tok>,
    new: Seq<char>,
) -> Seq<Tok> {
    let p = common_from(prev, new, 0);
    let bytes = byte_at(new, p) as int;
    if p == new.len() && splits_at(prev, p) {
        tokens.subrange(0, ending_by(tokens, bytes, 0))
    } else if bytes < 8 {
        tokens_of(x, new)
    } else {
        let m = restart(prev, new, p);
        let at = byte_at(new, m) as int;
        if at * 2 < byte_len(new) {
            tokens_of(x, new)
        } else {
            tokens.subrange(0, ending_by(tokens, at, 0)) + moved(
                tokens_of(x, new.subrange(m, new.len() as int)),
                at,
            )
        }
    }
}

proof fn lemma_ending_by(t: Seq<Tok>, byte: int, k: int)
    requires
        0 <= k <= t.len(),
    ensures
        k <= ending_by(t, byte, k) <= t.len(),
    decreases t.len() - k,
{
    if k < t.len() && t[k].end <= byte {
        lemma_ending_by(t, byte, k + 1);
    }
}

proof fn lemma_ending_all(t: Seq<Tok>, byte: int, n: int, k: int)
    requires
        0 <= k <= n <= t.len(),
        forall|i: int| 0 <= i < n ==> (#[trigger] t[i]).end <= byte,
        n < t.len() ==> t[n].end > byte,
    ensures
        ending_by(t, byte, k) == n,
    decreases n - k,
{
    if k < n {
        lemma_ending_all(t, byte, n, k + 1);
    }
}

proof fn lemma_bytes_mono(t: Seq<(u32, Seq<char>)>, i: int, j: int)
    requires
        0 <= i <= j,
    ensures
        bytes_before(t, i) <= bytes_before(t, j),
    decreases j,
{
    if i < j {
        lemma_bytes_mono(t, i, j - 1);
    }
}

/// The tokens of a text that end by a split are those of its first part.
proof fn lemma_tokens_kept(x: Lexicon, s: Seq<char>, m: int)
    requires
        0 <= m <= s.len(),
        splits_at(s, m),
    ensures
        ({
            let t = tokens_of(x, s);
            t.subrange(0, ending_by(t, byte_at(s, m) as int, 0)) == tokens_of(
                x,
                s.subrange(0, m),
            )
        }),
{
    let (a, b) = (s.subrange(0, m), s.subrange(m, s.len() as int));
    let (t, u) = (text_tokens(x, a), text_tokens(x, b));
    let (p, q) = (tokens_of(x, a), tokens_of(x, b));
    let all = tokens_of(x, s);
    let at = byte_at(s, m) as int;
    law_tokens_split(x, s, m);
    law_tokens_spell(x, a);
    lemma_bytes_spelled(t, t.len() as int);
    lemma_byte_at_front(s, a, m);
    assert forall|i: int| 0 <= i < p.len() implies (#[trigger] all[i]).end <= at by {
        lemma_bytes_mono(t, i + 1, t.len() as int);
    }
    if q.len() > 0 {
        let words = word_texts(x, b);
        lemma_words_solid(x, words, words.len() as int);
        assert(u[0].1.len() > 0);
        lemma_byte_at_mono(u[0].1, 0, u[0].1.len() as int);
        assert(bytes_before(u, 1) == bytes_before(u, 0) + byte_len(u[0].1));
        assert(all[p.len() as int] == moved(q, at)[0]);
    }
    lemma_ending_all(all, at, p.len() as int, 0);
    assert(all.subrange(0, p.len() as int) =~= p);
}

proof fn lemma_run_start_same(a: Seq<char>, b: Seq<char>, i: int)
    requires
        0 <= i < a.len(),
        i < b.len(),
        forall|k: int| 0 <= k <= i ==> a[k] == b[k],
    ensures
        run_start(a, i) == run_start(b, i),
        splits_at(b, run_start(a, i)),
    decreases i,
{
    if i > 0 && class_of(a[i - 1]) == class_of(a[i]) {
        lemma_run_start_same(a, b, i - 1);
    }
}

/// Tokenizing a text from the tokens of a former version gives the tokens of
/// the text, whatever the two have in common.
pub proof fn law_retokenized(x: Lexicon, prev: Seq<char>, new: Seq<char>)
    ensures
        retokenized(x, prev, tokens_of(x, prev), new) == tokens_of(x, new),
{
    let p = common_from(prev, new, 0);
    let bytes = byte_at(new, p) as int;
    lemma_common(prev, new, 0);
    if p == new.len() && splits_at(prev, p) {
        lemma_tokens_kept(x, prev, p);
        lemma_byte_at_front(prev, new, p);
        assert(prev.subrange(0, p) =~= new);
    } else if bytes >= 8 {
        assert(p > 0);
        let m = restart(prev, new, p);
        lemma_run_start(prev, p - 1);
        if m < p {
            lemma_run_start_same(prev, new, p - 1);
        } else if !(p < prev.len() && splits_at(prev, p) && splits_at(new, p)) {
            assert(false);
        }
        assert(splits_at(prev, m) && splits_at(new, m));
        lemma_tokens_kept(x, prev, m);
        lemma_byte_at_front(prev, new, m);
        assert(prev.subrange(0, m) =~= new.subrange(0, m));
        law_tokens_split(x, new, m);
    }
}

// Reading tokens back.

/// Whether a byte is where a character starts, or the end.
pub open spec fn boundary(s: Seq<char>, byte: int) -> bool {
    exists|i: int| 0 <= i <= s.len() && #[trigger] byte_at(s, i) == byte
}

/// The character that starts at a byte.
pub open spec fn char_from(s: Seq<char>, byte: int) -> int {
    choose|i: int| 0 <= i <= s.len() && #[trigger] byte_at(s, i) == byte
}

pub proof fn lemma_char_from(s: Seq<char>, i: int)
    requires
        0 <= i <= s.len(),
    ensures
        boundary(s, byte_at(s, i) as int),
        char_from(s, byte_at(s, i) as int) == i,
{
    let j = char_from(s, byte_at(s, i) as int);
    assert(boundary(s, byte_at(s, i) as int));
    if j < i {
        lemma_byte_at_mono(s, j, i);
    } else if i < j {
        lemma_byte_at_mono(s, i, j);
    }
}

/// The texts of the first `n` tokens, cut from a text. Tokens that end behind
/// the text are left out.
pub open spec fn reread(s: Seq<char>, t: Seq<Tok>, n: int) -> Seq<char>
    decreases n,
{
    if n <= 0 {
        Seq::empty()
    } else if t[n - 1].end <= byte_len(s) {
        reread(s, t, n - 1) + s.subrange(
            char_from(s, t[n - 1].start),
            char_from(s, t[n - 1].end),
        )
    } else {
        reread(s, t, n - 1)
    }
}

/// Whether tokens are cut where characters start.
pub open spec fn well_cut(s: Seq<char>, t: Seq<Tok>) -> bool {
    forall|k: int|
        0 <= k < t.len() && (#[trigger] t[k]).end <= byte_len(s) ==> t[k].start <= t[k].end
            && boundary(s, t[k].start) && boundary(s, t[k].end)
}

proof fn lemma_spelled_prefix(t: Seq<(u32, Seq<char>)>, k: int, n: int)
    requires
        0 <= k <= n,
    ensures
        spelled(t, k).len() <= spelled(t, n).len(),
        spelled(t, n).subrange(0, spelled(t, k).len() as int) == spelled(t, k),
    decreases n,
{
    if k < n {
        lemma_spelled_prefix(t, k, n - 1);
        assert(spelled(t, n).subrange(0, spelled(t, k).len() as int) =~= spelled(
            t,
            n - 1,
        ).subrange(0, spelled(t, k).len() as int));
    } else {
        assert(spelled(t, n).subrange(0, spelled(t, k).len() as int) =~= spelled(t, k));
    }
}

/// Where tokens of a text that they spell are cut.
pub proof fn lemma_cut_at(t: Seq<(u32, Seq<char>)>, s: Seq<char>, k: int)
    requires
        spelled(t, t.len() as int) == s,
        0 <= k <= t.len(),
    ensures
        spelled(t, k).len() <= s.len(),
        s.subrange(0, spelled(t, k).len() as int) == spelled(t, k),
        bytes_before(t, k) == byte_at(s, spelled(t, k).len() as int),
{
    lemma_spelled_prefix(t, k, t.len() as int);
    lemma_bytes_spelled(t, k);
    lemma_byte_at_front(s, spelled(t, k), spelled(t, k).len() as int);
}

proof fn lemma_reread(t: Seq<(u32, Seq<char>)>, s: Seq<char>, n: int)
    requires
        spelled(t, t.len() as int) == s,
        0 <= n <= t.len(),
    ensures
        reread(s, placed_from(t, 0), n) == spelled(t, n),
    decreases n,
{
    if n > 0 {
        lemma_reread(t, s, n - 1);
        lemma_cut_at(t, s, n - 1);
        lemma_cut_at(t, s, n);
        let (i, j) = (spelled(t, n - 1).len() as int, spelled(t, n).len() as int);
        lemma_char_from(s, i);
        lemma_char_from(s, j);
        lemma_byte_at_mono(s, j, s.len() as int);
        assert(s.subrange(i, j) =~= t[n - 1].1) by {
            assert(s.subrange(0, j).subrange(i, j) =~= s.subrange(i, j));
            assert(spelled(t, n).subrange(i, j) =~= t[n - 1].1);
        }
    }
}

/// Tokens can be reversed: the tokens of a text, cut from it, are the text.
pub proof fn law_reconstruct(x: Lexicon, s: Seq<char>)
    ensures
        well_cut(s, tokens_of(x, s)),
        reread(s, tokens_of(x, s), tokens_of(x, s).len() as int) == s,
{
    let t = text_tokens(x, s);
    law_tokens_spell(x, s);
    lemma_reread(t, s, t.len() as int);
    let p = tokens_of(x, s);
    assert forall|k: int| 0 <= k < p.len() && (#[trigger] p[k]).end <= byte_len(s) implies p[k].start
        <= p[k].end && boundary(s, p[k].start) && boundary(s, p[k].end) by {
        lemma_cut_at(t, s, k);
        lemma_cut_at(t, s, k + 1);
        lemma_char_from(s, spelled(t, k).len() as int);
        lemma_char_from(s, spelled(t, k + 1).len() as int);
    }
}

// The tokenizer.

/// The products of the first `n` merges, each once, in the order of training.
pub open spec fn products(x: Lexicon, n: int) -> Seq<u32>
    decreases n,
{
    if n <= 0 {
        Seq::empty()
    } else {
        let before = products(x, n - 1);
        let (a, b) = x.merges[n - 1];
        match (id_of(x.vocab, a), id_of(x.vocab, b)) {
            (Some(p), Some(q)) => if rules(x).contains_key(pair(p, q)) && !before.contains(
                rules(x)[pair(p, q)].1,
            ) {
                before.push(rules(x)[pair(p, q)].1)
            } else {
                before
            },
            _ => before,
        }
    }
}

/// The lengths of codes that are not zero, of the first `n` tokens.
pub open spec fn coded_lengths(lengths: Seq<u8>, n: int) -> Seq<(u32, u8)>
    decreases n,
{
    if n <= 0 {
        Seq::empty()
    } else if lengths[n - 1] > 0 {
        coded_lengths(lengths, n - 1).push(((n - 1) as u32, lengths[n - 1]))
    } else {
        coded_lengths(lengths, n - 1)
    }
}

/// The length of the code that marks what has no code.
pub const ESCAPE_LEN: u8 = 24;

/// Texts as rows of an index.
spec fn text_rows(v: Seq<Seq<char>>) -> Seq<Seq<Datum>> {
    Seq::new(v.len(), |i: int| seq![Datum::Varchar(v[i])])
}

proof fn lemma_last_position(v: Seq<Seq<char>>, text: Seq<char>, n: int)
    requires
        0 <= n <= v.len() <= usize::MAX,
    ensures
        ({
            let p = equal_positions(text_rows(v), seq![Datum::Varchar(text)], n);
            match id_among(v, text, n) {
                Some(i) => p.len() > 0 && p[p.len() - 1] == i,
                None => p.len() == 0,
            }
        }),
    decreases n,
{
    if n > 0 {
        lemma_last_position(v, text, n - 1);
        let (a, b) = (text_rows(v)[n - 1], seq![Datum::Varchar(text)]);
        assert(a[0] == Datum::Varchar(v[n - 1]) && b[0] == Datum::Varchar(text));
        if v[n - 1] == text {
            assert(a =~= b);
        }
    }
}

fn text_key(text: &str) -> (r: Vec<Value>)
    ensures
        r.deep_view() == seq![Datum::Varchar(text@)],
{
    let mut key: Vec<Value> = Vec::new();
    key.push(Value::Varchar(text.to_owned()));
    assert(key.deep_view() =~= seq![Datum::Varchar(text@)]);
    key
}

fn find_id(index: &KeyIndex, text: &str, Ghost(vocab): Ghost<Seq<Seq<char>>>) -> (r: Option<u32>)
    requires
        index.wf(),
        index@ == text_rows(vocab),
        vocab.len() <= usize::MAX,
    ensures
        r == id_of(vocab, text@),
{
    let key = text_key(text);
    let found = index.find_all(&key);
    proof {
        lemma_last_position(vocab, text@, vocab.len() as int);
    }
    let n: usize = found.len();
    if n == 0 {
        None
    } else {
        Some(found[n - 1] as u32)
    }
}

/// How many of the first `n` texts are not among those before them.
spec fn distinct(v: Seq<Seq<char>>, n: int) -> nat
    decreases n,
{
    if n <= 0 {
        0
    } else if v.subrange(0, n - 1).contains(v[n - 1]) {
        distinct(v, n - 1)
    } else {
        distinct(v, n - 1) + 1
    }
}

proof fn lemma_distinct(v: Seq<Seq<char>>, n: int)
    requires
        0 <= n <= v.len(),
    ensures
        v.subrange(0, n).to_set().finite(),
        v.subrange(0, n).to_set().len() == distinct(v, n),
        distinct(v, n) <= n,
    decreases n,
{
    broadcast use group_seq_properties;

    if n > 0 {
        lemma_distinct(v, n - 1);
        let (a, b) = (v.subrange(0, n - 1), v.subrange(0, n));
        assert(b =~= a.push(v[n - 1]));
        assert(b.to_set() =~= a.to_set().insert(v[n - 1])) by {
            assert forall|x: Seq<char>| b.to_set().contains(x) <==> a.to_set().insert(
                v[n - 1],
            ).contains(x) by {
                if b.contains(x) {
                    let i = b.index_of(x);
                    if i < n - 1 {
                        assert(a[i] == x);
                    }
                }
                if a.contains(x) {
                    let i = a.index_of(x);
                    assert(b[i] == x);
                }
                assert(b[n - 1] == v[n - 1]);
            }
        }
    } else {
        assert(v.subrange(0, 0).to_set() =~= Set::<Seq<char>>::empty());
    }
}

/// Whether two texts that a row stands for are equal where the rows are.
proof fn lemma_in_vocab(v: Seq<Seq<char>>, text: Seq<char>, n: int)
    requires
        0 <= n <= v.len(),
    ensures
        id_among(v, text, n) is Some <==> v.subrange(0, n).contains(text),
    decreases n,
{
    if n > 0 {
        lemma_in_vocab(v, text, n - 1);
        let (a, b) = (v.subrange(0, n - 1), v.subrange(0, n));
        if a.contains(text) {
            let i = a.index_of(text);
            assert(b[i] == text);
        }
        if b.contains(text) {
            let i = b.index_of(text);
            if i < n - 1 {
                assert(a[i] == text);
            }
        }
        assert(b[n - 1] == v[n - 1]);
    }
}

/// A byte pair tokenizer.
pub struct Tokenizer {
    index: KeyIndex,
    rules: fxhash::FxHashMap<u64, (u32, u32)>,
    merges: Vec<(String, String)>,
    seeds: Vec<String>,
    vocab: Vec<String>,
    distinct: usize,
    static_lengths: Vec<u8>,
    version: u16,
}

/// The tokens of a word as ranges of characters.
spec fn spans(v: Seq<(u32, usize, usize)>, s: Seq<char>) -> Seq<(u32, Seq<char>)> {
    Seq::new(v.len(), |k: int| (v[k].0, s.subrange(v[k].1 as int, v[k].2 as int)))
}

/// The ranges of tokens.
spec fn span_ranges(v: Seq<(u32, usize, usize)>) -> Seq<(int, int)> {
    Seq::new(v.len(), |k: int| (v[k].1 as int, v[k].2 as int))
}

proof fn lemma_spans_spelled(v: Seq<(u32, usize, usize)>, s: Seq<char>, a: int, b: int, n: int)
    requires
        0 <= a <= b <= s.len(),
        covers_chars(span_ranges(v), a, b),
        0 <= n <= v.len(),
    ensures
        spelled(spans(v, s), n) == s.subrange(
            a,
            if n == 0 {
                a
            } else {
                v[n - 1].2 as int
            },
        ),
    decreases n,
{
    let w = span_ranges(v);
    if n > 0 {
        lemma_spans_spelled(v, s, a, b, n - 1);
        lemma_covers_within(w, a, b, n - 1);
        assert(w[n - 1] == (v[n - 1].1 as int, v[n - 1].2 as int));
        if n > 1 {
            lemma_covers_within(w, a, b, n - 2);
            assert(w[n - 2] == (v[n - 2].1 as int, v[n - 2].2 as int));
            assert(w[n - 2].1 == w[n - 1].0);
        }
        assert(spelled(spans(v, s), n) =~= s.subrange(a, v[n - 1].2 as int));
    } else {
        assert(s.subrange(a, a) =~= Seq::<char>::empty());
    }
}

fn find_rule(rules: &fxhash::FxHashMap<u64, (u32, u32)>, a: u32, b: u32) -> (r: Option<(u32, u32)>)
    ensures
        r == if rules@.contains_key(pair(a, b)) {
            Some(rules@[pair(a, b)])
        } else {
            None
        },
{
    broadcast use vstd::std_specs::hash::group_hash_axioms;

    let key: u64 = a as u64 * 0x1_0000_0000 + b as u64;
    match table_get(rules, &key) {
        Some(x) => Some(*x),
        None => None,
    }
}

fn find_best(
    rules: &fxhash::FxHashMap<u64, (u32, u32)>,
    v: &Vec<(u32, usize, usize)>,
    Ghost(s): Ghost<Seq<char>>,
) -> (r: Option<(usize, u32)>)
    requires
        v.len() > 0,
    ensures
        match r {
            Some((k, id)) => best(rules@, spans(v@, s), v.len() - 1) == Some(k as int) && (rule(
                rules@,
                spans(v@, s),
                k as int,
            )->0).1 == id && k < v.len() - 1,
            None => best(rules@, spans(v@, s), v.len() - 1) is None,
        },
{
    let ghost t = spans(v@, s);
    let mut found: Option<(usize, (u32, u32))> = None;
    let mut k: usize = 0;
    while k < v.len() - 1
        invariant
            v.len() > 0,
            t == spans(v@, s),
            k <= v.len() - 1,
            match found {
                Some((p, r)) => best(rules@, t, k as int) == Some(p as int) && rule(
                    rules@,
                    t,
                    p as int,
                ) == Some(r) && p < k,
                None => best(rules@, t, k as int) is None,
            },
        decreases v.len() - k,
    {
        assert(t[k as int].0 == v[k as int].0 && t[k + 1].0 == v[k + 1].0);
        let here = find_rule(rules, v[k].0, v[k + 1].0);
        if let Some(r) = here {
            let take = match found {
                Some((_, q)) => r.0 < q.0 || (r.0 == q.0 && r.1 < q.1),
                None => true,
            };
            if take {
                found = Some((k, r));
            }
        }
        k += 1;
    }
    match found {
        Some((p, r)) => Some((p, r.1)),
        None => None,
    }
}

proof fn lemma_merge_spans(
    v: Seq<(u32, usize, usize)>,
    w: Seq<(u32, usize, usize)>,
    s: Seq<char>,
    a: int,
    b: int,
    k: int,
    id: u32,
)
    requires
        0 <= a <= b <= s.len(),
        covers_chars(span_ranges(v), a, b),
        0 <= k < v.len() - 1,
        w == v.update(k, (id, v[k].1, v[k + 1].2)).remove(k + 1),
    ensures
        spans(w, s) == merged_at(spans(v, s), k, id),
        covers_chars(span_ranges(w), a, b),
{
    let (x, y) = (span_ranges(v), span_ranges(w));
    let (t, u) = (spans(v, s), spans(w, s));
    lemma_covers_within(x, a, b, k);
    lemma_covers_within(x, a, b, k + 1);
    assert(x[k] == (v[k].1 as int, v[k].2 as int));
    assert(x[k + 1] == (v[k + 1].1 as int, v[k + 1].2 as int));
    assert(x[k].1 == x[k + 1].0);
    assert(s.subrange(v[k].1 as int, v[k + 1].2 as int) =~= t[k].1 + t[k + 1].1);
    assert forall|j: int| 0 <= j < w.len() implies w[j] == if j < k {
        v[j]
    } else if j == k {
        (id, v[k].1, v[k + 1].2)
    } else {
        v[j + 1]
    } by {}
    let z = merged_at(t, k, id);
    assert forall|j: int| 0 <= j < u.len() implies u[j] == z[j] by {
        if j < k {
            assert(z[j] == t[j]);
        } else if j > k {
            assert(z[j] == t[j + 1]);
        }
    }
    assert(u =~= z);
    assert forall|j: int| 0 <= j < y.len() implies (#[trigger] y[j]).0 < y[j].1 by {
        if j < k {
            assert(y[j] == x[j]);
        } else if j > k {
            assert(y[j] == x[j + 1]);
        }
    }
    assert forall|j: int| 0 <= j < y.len() - 1 implies (#[trigger] y[j]).1 == y[j + 1].0 by {
        if j + 1 < k {
            assert(y[j] == x[j] && y[j + 1] == x[j + 1]);
        } else if j + 1 == k {
            assert(y[j] == x[j] && y[j + 1].0 == x[k].0);
        } else if j == k {
            assert(y[j].1 == x[k + 1].1 && y[j + 1] == x[k + 2]);
        } else {
            assert(y[j] == x[j + 1] && y[j + 1] == x[j + 2]);
        }
    }
}

impl Tokenizer {
    /// What the tokenizer knows.
    pub closed spec fn lexicon(&self) -> Lexicon {
        Lexicon {
            vocab: self.vocab.deep_view(),
            merges: merge_views(self.merges@),
            seeds: self.seeds.deep_view(),
        }
    }

    /// The lengths of the codes of the tokens.
    pub closed spec fn lengths(&self) -> Seq<u8> {
        self.static_lengths@
    }

    /// The version of the vocabulary.
    pub closed spec fn format(&self) -> u16 {
        self.version
    }

    /// Whether the tables hold the vocabulary and the merges.
    pub closed spec fn wf(&self) -> bool {
        &&& self.index.wf()
        &&& self.index@ == text_rows(self.vocab.deep_view())
        &&& self.vocab.deep_view().len() <= usize::MAX
        &&& self.rules@ == rules(self.lexicon())
        &&& self.distinct == self.vocab.deep_view().to_set().len()
    }

    /// A tokenizer from the bytes of a vocabulary. Bytes that hold none, or
    /// one that does not start as it should, are an error.
    pub fn from_bytes(bytes: &[u8]) -> (r: Result<Self, EngramDbError>)
        ensures
            match r {
                Ok(t) => {
                    &&& t.wf()
                    &&& vocab_read(bytes@) is Some
                    &&& (vocab_read(bytes@)->0).magic == VOCAB_MAGIC@
                    &&& t.lexicon() == lexicon_of(vocab_read(bytes@)->0)
                    &&& t.format() == (vocab_read(bytes@)->0).version
                    &&& t.lengths().len() == 0
                },
                Err(e) => {
                    &&& e is Parse
                    &&& match vocab_read(bytes@) {
                        Some(p) => p.magic != VOCAB_MAGIC@ && e.deep_view() == Fault::Parse(
                            "vocab magic mismatch"@,
                        ),
                        None => true,
                    }
                },
            },
    {
        match VocabFile::from_bytes(bytes) {
            Ok(v) => Self::from_vocab_file(v),
            Err(e) => Err(e),
        }
    }

    /// A tokenizer from a vocabulary.
    pub fn from_vocab_file(vf: VocabFile) -> (r: Result<Self, EngramDbError>)
        ensures
            match r {
                Ok(t) => {
                    &&& t.wf()
                    &&& vf.magic@ == VOCAB_MAGIC@
                    &&& t.lexicon() == lexicon_of(vf.deep_view())
                    &&& t.format() == vf.version
                    &&& t.lengths() == vf.static_lengths@
                },
                Err(e) => vf.magic@ != VOCAB_MAGIC@ && e.deep_view() == Fault::Parse(
                    "vocab magic mismatch"@,
                ),
            },
    {
        broadcast use vstd::std_specs::hash::group_hash_axioms;

        if !same_magic(&vf.magic) {
            return Err(EngramDbError::Parse("vocab magic mismatch".to_owned()));
        }
        let ghost x = lexicon_of(vf.deep_view());
        let ghost v = vf.vocab.deep_view();
        let total: usize = vf.vocab.len();
        let mut index = KeyIndex::new();
        let mut count: usize = 0;
        let mut i: usize = 0;
        assert(index@ =~= text_rows(v.subrange(0, 0)));
        while i < vf.vocab.len()
            invariant
                v == vf.vocab.deep_view(),
                total == vf.vocab.len(),
                i <= vf.vocab.len(),
                index.wf(),
                index@ == text_rows(v.subrange(0, i as int)),
                count == distinct(v, i as int),
                count <= i,
            decreases vf.vocab.len() - i,
        {
            assert(v[i as int] == vf.vocab[i as int]@);
            let ghost front = v.subrange(0, i as int);
            let known = find_id(&index, vf.vocab[i].as_str(), Ghost(front));
            proof {
                lemma_in_vocab(front, v[i as int], i as int);
                assert(front.subrange(0, i as int) =~= front);
            }
            if known.is_none() {
                count += 1;
            }
            index.push(text_key(vf.vocab[i].as_str()));
            assert(text_rows(v.subrange(0, i + 1)) =~= text_rows(front).push(
                seq![Datum::Varchar(v[i as int])],
            ));
            i += 1;
        }
        proof {
            assert(v.subrange(0, v.len() as int) =~= v);
            lemma_distinct(v, v.len() as int);
        }
        let mut rules: fxhash::FxHashMap<u64, (u32, u32)> = fxhash::FxHashMap::default();
        let mut k: usize = 0;
        while k < vf.merges.len()
            invariant
                x == lexicon_of(vf.deep_view()),
                v == x.vocab,
                x.merges == merge_views(vf.merges@),
                v.len() <= usize::MAX,
                index.wf(),
                index@ == text_rows(v),
                k <= vf.merges.len(),
                rules@ == merges_of(x.vocab, x.merges, k as int),
            decreases vf.merges.len() - k,
        {
            broadcast use vstd::std_specs::hash::group_hash_axioms;

            assert(x.merges[k as int] == (vf.merges[k as int].0@, vf.merges[k as int].1@));
            let a = find_id(&index, vf.merges[k].0.as_str(), Ghost(v));
            let b = find_id(&index, vf.merges[k].1.as_str(), Ghost(v));
            let whole = join2(vf.merges[k].0.as_str(), vf.merges[k].1.as_str());
            let c = find_id(&index, whole.as_str(), Ghost(v));
            if let (Some(p), Some(q), Some(z)) = (a, b, c) {
                table_insert(&mut rules, p as u64 * 0x1_0000_0000 + q as u64, (k as u32, z));
            }
            k += 1;
        }
        Ok(
            Tokenizer {
                index,
                rules,
                merges: vf.merges,
                seeds: vf.seeds,
                vocab: vf.vocab,
                distinct: count,
                static_lengths: vf.static_lengths,
                version: vf.version,
            },
        )
    }

    /// The number of different tokens in the vocabulary.
    pub fn vocab_size(&self) -> (r: usize)
        requires
            self.wf(),
        ensures
            r == self.lexicon().vocab.to_set().len(),
    {
        self.distinct
    }

    /// The version of the vocabulary.
    pub fn version(&self) -> (r: u16)
        ensures
            r == self.format(),
    {
        self.version
    }

    /// The lengths of the codes of the tokens, empty where there are none.
    pub fn static_lengths(&self) -> (r: &[u8])
        ensures
            r@ == self.lengths(),
    {
        self.static_lengths.as_slice()
    }

    /// The codes of the tokens that have one, and of the mark for those that
    /// have none.
    pub fn static_entropy(&self, escape_id: u32) -> (r: fxhash::FxHashMap<u32, Code>)
        requires
            codes_fit(
                ranked(
                    coded_lengths(self.lengths(), self.lengths().len() as int).push(
                        (escape_id, ESCAPE_LEN),
                    ),
                ),
            ),
        ensures
            ({
                let s = ranked(
                    coded_lengths(self.lengths(), self.lengths().len() as int).push(
                        (escape_id, ESCAPE_LEN),
                    ),
                );
                r@ == codes_of(s, s.len() as int)
            }),
    {
        let mut lengths: Vec<(u32, u8)> = Vec::new();
        let mut i: usize = 0;
        while i < self.static_lengths.len()
            invariant
                i <= self.static_lengths.len(),
                lengths@ == coded_lengths(self.static_lengths@, i as int),
            decreases self.static_lengths.len() - i,
        {
            let l: u8 = self.static_lengths[i];
            if l > 0 {
                lengths.push((i as u32, l));
            }
            i += 1;
        }
        lengths.push((escape_id, ESCAPE_LEN));
        canonical_codes(lengths.as_slice())
    }

    /// Whether a text is in the vocabulary.
    pub fn is_in_vocab(&self, text: &str) -> (r: bool)
        requires
            self.wf(),
        ensures
            r == self.lexicon().vocab.contains(text@),
    {
        let ghost v = self.vocab.deep_view();
        proof {
            lemma_in_vocab(v, text@, v.len() as int);
            assert(v.subrange(0, v.len() as int) =~= v);
        }
        find_id(&self.index, text, Ghost(v)).is_some()
    }

    /// The text of a token.
    pub fn id_to_token(&self, id: u32) -> (r: Option<&str>)
        ensures
            match r {
                Some(t) => id < self.lexicon().vocab.len() && t@ == self.lexicon().vocab[id as int],
                None => id >= self.lexicon().vocab.len(),
            },
    {
        let i: usize = id as usize;
        if i < self.vocab.len() {
            assert(self.vocab.deep_view()[i as int] == self.vocab[i as int]@);
            Some(self.vocab[i].as_str())
        } else {
            None
        }
    }

    /// The number of a token.
    pub fn token_to_id(&self, token: &str) -> (r: Option<u32>)
        requires
            self.wf(),
        ensures
            r == id_of(self.lexicon().vocab, token@),
    {
        find_id(&self.index, token, Ghost(self.vocab.deep_view()))
    }

    /// The seed words.
    pub fn seeds(&self) -> (r: &[String])
        ensures
            r.deep_view() == self.lexicon().seeds,
    {
        let r = self.seeds.as_slice();
        assert(r.deep_view() =~= self.seeds.deep_view());
        r
    }

    /// The products of the first merges.
    pub fn hot_words(&self, top_n: usize) -> (r: Vec<u32>)
        requires
            self.wf(),
        ensures
            r@ == products(
                self.lexicon(),
                if top_n <= self.lexicon().merges.len() {
                    top_n as int
                } else {
                    self.lexicon().merges.len() as int
                },
            ),
    {
        let ghost x = self.lexicon();
        let mut out: Vec<u32> = Vec::new();
        let n: usize = if top_n <= self.merges.len() {
            top_n
        } else {
            self.merges.len()
        };
        let mut k: usize = 0;
        while k < n
            invariant
                self.wf(),
                x == self.lexicon(),
                n <= self.merges.len(),
                k <= n,
                out@ == products(x, k as int),
            decreases n - k,
        {
            assert(x.merges[k as int] == (self.merges[k as int].0@, self.merges[k as int].1@));
            let a = self.token_to_id(self.merges[k].0.as_str());
            let b = self.token_to_id(self.merges[k].1.as_str());
            if let (Some(p), Some(q)) = (a, b) {
                if let Some(r) = find_rule(&self.rules, p, q) {
                    if !has_id(&out, r.1) {
                        out.push(r.1);
                    }
                }
            }
            k += 1;
        }
        out
    }

    /// The tokens of the characters `a..b`, which are a word.
    fn encode_word(&self, cs: &Vec<char>, a: usize, b: usize) -> (r: Vec<(u32, usize, usize)>)
        requires
            self.wf(),
            a < b <= cs.len(),
        ensures
            spans(r@, cs@) == word_tokens(self.lexicon(), cs@.subrange(a as int, b as int)),
            covers_chars(span_ranges(r@), a as int, b as int),
    {
        let ghost x = self.lexicon();
        let ghost s = cs@;
        let ghost w = s.subrange(a as int, b as int);
        let mut v: Vec<(u32, usize, usize)> = Vec::new();
        let mut i: usize = a;
        while i < b
            invariant
                self.wf(),
                x == self.lexicon(),
                s == cs@,
                w == s.subrange(a as int, b as int),
                a <= i <= b <= cs.len(),
                v.len() == i - a,
                forall|k: int|
                    0 <= k < v.len() ==> (#[trigger] v[k]).0 == letters(x, w)[k].0 && v[k].1 == a
                        + k && v[k].2 == a + k + 1,
            decreases b - i,
        {
            let one = slice_text(cs, i, i + 1);
            assert(one@ =~= seq![w[i - a]]);
            let id: u32 = match self.token_to_id(one.as_str()) {
                Some(id) => id,
                None => UNKNOWN_ID,
            };
            v.push((id, i, i + 1));
            i += 1;
        }
        proof {
            let t = letters(x, w);
            assert forall|k: int| 0 <= k < t.len() implies spans(v@, s)[k] == t[k] by {
                assert(v[k].1 == a + k);
                assert(s.subrange(a + k, a + k + 1) =~= seq![w[k]]);
            }
            assert(spans(v@, s) =~= t);
            let y = span_ranges(v@);
            assert forall|k: int| 0 <= k < y.len() implies (#[trigger] y[k]).0 < y[k].1 by {
                assert(v[k].1 == a + k);
            }
            assert forall|k: int| 0 <= k < y.len() - 1 implies (#[trigger] y[k]).1 == y[k
                + 1].0 by {
                assert(v[k].1 == a + k && v[k + 1].1 == a + k + 1);
            }
            assert(v[0].1 == a && v[v.len() - 1].2 == b);
        }
        loop
            invariant
                self.wf(),
                x == self.lexicon(),
                s == cs@,
                a < b <= cs.len(),
                v.len() > 0,
                merged(rules(x), spans(v@, s)) == word_tokens(x, s.subrange(a as int, b as int)),
                covers_chars(span_ranges(v@), a as int, b as int),
            ensures
                spans(v@, s) == word_tokens(x, s.subrange(a as int, b as int)),
                covers_chars(span_ranges(v@), a as int, b as int),
            decreases v.len(),
        {
            match find_best(&self.rules, &v, Ghost(s)) {
                Some((k, id)) => {
                    let ghost before = v@;
                    let (_, from, _): (u32, usize, usize) = v[k];
                    let (_, _, to): (u32, usize, usize) = v[k + 1];
                    v.set(k, (id, from, to));
                    v.remove(k + 1);
                    proof {
                        lemma_merge_spans(before, v@, s, a as int, b as int, k as int, id);
                    }
                },
                None => {
                    break;
                },
            }
        }
        v
    }

    /// The tokens of a text.
    pub fn tokenize(&self, text: &str) -> (r: Vec<Token>)
        requires
            self.wf(),
            seeds_ok(self.lexicon().seeds),
        ensures
            r.deep_view() == tokens_of(self.lexicon(), text@),
    {
        let cs = to_chars(text);
        let offsets = byte_offsets(text, &cs);
        let r = self.tokenize_chars(&cs, &offsets, 0);
        assert(text@.subrange(0, text@.len() as int) =~= text@);
        r
    }

    /// The tokens of the characters from `m` on, by the bytes of the whole.
    fn tokenize_chars(&self, cs: &Vec<char>, offsets: &Vec<usize>, m: usize) -> (r: Vec<Token>)
        requires
            self.wf(),
            seeds_ok(self.lexicon().seeds),
            m <= cs.len(),
            offsets.len() == cs.len() + 1,
            forall|k: int| 0 <= k <= cs.len() ==> #[trigger] offsets[k] == byte_at(cs@, k),
        ensures
            r.deep_view() == moved(
                tokens_of(self.lexicon(), cs@.subrange(m as int, cs.len() as int)),
                byte_at(cs@, m as int) as int,
            ),
    {
        let ghost x = self.lexicon();
        let rest = copy_from(cs, m);
        let ghost all = cs@;
        let ghost s = rest@;
        let ghost at = byte_at(all, m as int) as int;
        let words = split_ranges(&rest, self.seeds());
        let ghost w = words_from(s, x.seeds, 0);
        let ghost texts = word_texts(x, s);
        let mut out: Vec<Token> = Vec::new();
        let mut k: usize = 0;
        assert(out.deep_view() =~= moved(placed_from(words_tokens(x, texts, 0), 0), at));
        while k < words.len()
            invariant
                self.wf(),
                x == self.lexicon(),
                all == cs@,
                s == rest@,
                s == all.subrange(m as int, all.len() as int),
                m <= cs.len(),
                at == byte_at(all, m as int),
                offsets.len() == cs.len() + 1,
                forall|k: int| 0 <= k <= cs.len() ==> #[trigger] offsets[k] == byte_at(all, k),
                w == words_from(s, x.seeds, 0),
                w == ranges(words@),
                covers_chars(w, 0, s.len() as int),
                texts == word_texts(x, s),
                k <= words.len(),
                out.deep_view() == moved(
                    placed_from(words_tokens(x, texts, k as int), 0),
                    at,
                ),
            decreases words.len() - k,
        {
            let (a, b): (usize, usize) = words[k];
            assert(w[k as int] == (a as int, b as int));
            proof {
                lemma_covers_within(w, 0, s.len() as int, k as int);
                lemma_base(x, s, k as int);
            }
            let part = self.encode_word(&rest, a, b);
            let ghost t = words_tokens(x, texts, k as int);
            let ghost u = spans(part@, s);
            let ghost start = out.deep_view();
            proof {
                lemma_placed_add(t, u, 0);
            }
            let ghost want = moved(placed_from(t + u, 0), at);
            let mut j: usize = 0;
            assert(want.subrange(0, t.len() as int) =~= start);
            while j < part.len()
                invariant
                    all == cs@,
                    s == rest@,
                    s == all.subrange(m as int, all.len() as int),
                    m <= cs.len(),
                    at == byte_at(all, m as int),
                    offsets.len() == cs.len() + 1,
                    forall|k: int| 0 <= k <= cs.len() ==> #[trigger] offsets[k] == byte_at(all, k),
                    0 <= a < b <= s.len(),
                    u == spans(part@, s),
                    covers_chars(span_ranges(part@), a as int, b as int),
                    want == moved(placed_from(t + u, 0), at),
                    placed_from(t + u, 0) == placed_from(t, 0) + moved(
                        placed_from(u, 0),
                        bytes_before(t, t.len() as int) as int,
                    ),
                    bytes_before(t, t.len() as int) == byte_at(s, a as int),
                    j <= part.len(),
                    out.deep_view() == want.subrange(0, t.len() + j),
                decreases part.len() - j,
            {
                let (id, p, q): (u32, usize, usize) = part[j];
                proof {
                    let r = span_ranges(part@);
                    assert(r[j as int] == (p as int, q as int));
                    lemma_covers_within(r, a as int, b as int, j as int);
                    if j > 0 {
                        assert(r[j - 1].1 == r[j as int].0);
                        assert(r[j - 1] == (part@[j - 1].1 as int, part@[j - 1].2 as int));
                    } else {
                        assert(r[0].0 == a);
                    }
                    lemma_spans_spelled(part@, s, a as int, b as int, j as int);
                    lemma_spans_spelled(part@, s, a as int, b as int, j + 1);
                    lemma_bytes_spelled(u, j as int);
                    lemma_bytes_spelled(u, j + 1);
                    lemma_part_bytes(s, a as int, p as int);
                    lemma_part_bytes(s, a as int, q as int);
                    lemma_byte_at_shift(all, m as int, p as int);
                    lemma_byte_at_shift(all, m as int, q as int);
                    assert(offsets[m + p] == byte_at(all, m + p));
                    assert(offsets[m + q] == byte_at(all, m + q));
                }
                let token = Token { id, offset: offsets[m + p]..offsets[m + q] };
                let ghost tok = token.deep_view();
                let ghost before = out.deep_view();
                out.push(token);
                assert(out.deep_view() =~= before.push(tok));
                assert(want[t.len() + j] == tok);
                assert(out.deep_view() =~= want.subrange(0, t.len() + j + 1));
                j += 1;
            }
            assert(want.subrange(0, t.len() + j) =~= want);
            assert(texts[k as int] == s.subrange(a as int, b as int));
            k += 1;
        }
        out
    }

    /// The tokens of a text of which a former version and its tokens are
    /// known. Tokens of the common beginning are kept.
    pub fn tokenize_incremental(&self, prev_text: &str, prev_tokens: &[Token], new_text: &str) -> (r:
        Vec<Token>)
        requires
            self.wf(),
            seeds_ok(self.lexicon().seeds),
        ensures
            r.deep_view() == retokenized(
                self.lexicon(),
                prev_text@,
                prev_tokens.deep_view(),
                new_text@,
            ),
    {
        let ghost x = self.lexicon();
        let ghost (prev, new) = (prev_text@, new_text@);
        let ps = to_chars(prev_text);
        let cs = to_chars(new_text);
        let offsets = byte_offsets(new_text, &cs);
        let p: usize = count_common(&ps, &cs);
        proof {
            lemma_common(prev, new, 0);
            assert(new.subrange(0, new.len() as int) =~= new);
        }
        assert(offsets[p as int] == byte_at(new, p as int));
        let bytes: usize = offsets[p];
        let total: usize = offsets[cs.len()];
        assert(total == byte_len(new));
        if p == cs.len() && (p == 0 || p == ps.len() || classify(ps[p]) != classify(ps[p - 1])) {
            return keep_tokens(prev_tokens, bytes);
        }
        if bytes < 8 {
            return self.tokenize(new_text);
        }
        assert(p > 0);
        let m: usize = if p < ps.len() && classify(ps[p]) != classify(ps[p - 1]) && classify(cs[p])
            != classify(cs[p - 1]) {
            p
        } else {
            find_run_start(&ps, p - 1)
        };
        assert(m == restart(prev, new, p as int));
        assert(offsets[m as int] == byte_at(new, m as int));
        let at: usize = offsets[m];
        proof {
            lemma_byte_at_mono(new, m as int, new.len() as int);
        }
        if at < total - at {
            return self.tokenize(new_text);
        }
        let mut tokens = keep_tokens(prev_tokens, at);
        let mut more = self.tokenize_chars(&cs, &offsets, m);
        let ghost (f, g) = (tokens.deep_view(), more.deep_view());
        let ghost (y, z) = (tokens@, more@);
        tokens.append(&mut more);
        assert(tokens@ == y + z);
        assert(tokens.deep_view() =~= f + g);
        tokens
    }

    /// The texts of tokens, cut from a text.
    pub fn reconstruct(&self, text: &str, tokens: &[Token]) -> (r: String)
        requires
            well_cut(text@, tokens.deep_view()),
        ensures
            r@ == reread(text@, tokens.deep_view(), tokens@.len() as int),
    {
        let cs = to_chars(text);
        let offsets = byte_offsets(text, &cs);
        let ghost s = text@;
        let ghost t = tokens.deep_view();
        let mut out = String::new();
        let mut k: usize = 0;
        while k < tokens.len()
            invariant
                cs@ == s,
                offsets.len() == cs.len() + 1,
                forall|k: int| 0 <= k <= cs.len() ==> #[trigger] offsets[k] == byte_at(s, k),
                t == tokens.deep_view(),
                well_cut(s, t),
                k <= tokens@.len(),
                out@ == reread(s, t, k as int),
            decreases tokens@.len() - k,
        {
            assert(t[k as int] == tokens@[k as int].deep_view());
            assert(offsets[cs.len() as int] == byte_at(s, cs.len() as int));
            let (from, to): (usize, usize) = (tokens[k].offset.start, tokens[k].offset.end);
            if to <= offsets[cs.len()] {
                let i: usize = find_offset(&offsets, from, Ghost(s));
                let j: usize = find_offset(&offsets, to, Ghost(s));
                proof {
                    lemma_char_from(s, i as int);
                    lemma_char_from(s, j as int);
                    if j < i {
                        lemma_byte_at_mono(s, j as int, i as int);
                    }
                }
                let piece = slice_text(&cs, i, j);
                out.push_str(piece.as_str());
            }
            k += 1;
        }
        out
    }
}

/// What a tokenizer knows of a vocabulary.
pub open spec fn lexicon_of(p: VocabParts) -> Lexicon {
    Lexicon { vocab: p.vocab, merges: p.merges, seeds: p.seeds }
}

fn same_magic(m: &[u8; 4]) -> (r: bool)
    ensures
        r == (m@ == VOCAB_MAGIC@),
{
    let magic: [u8; 4] = VOCAB_MAGIC;
    let mut i: usize = 0;
    while i < 4
        invariant
            i <= 4,
            magic@ == VOCAB_MAGIC@,
            forall|k: int| 0 <= k < i ==> m@[k] == magic@[k],
        decreases 4 - i,
    {
        if m[i] != magic[i] {
            assert(m@[i as int] != magic@[i as int]);
            return false;
        }
        i += 1;
    }
    assert(m@ =~= magic@);
    true
}

fn has_id(v: &Vec<u32>, id: u32) -> (r: bool)
    ensures
        r == v@.contains(id),
{
    let mut i: usize = 0;
    while i < v.len()
        invariant
            i <= v.len(),
            forall|k: int| 0 <= k < i ==> v[k] != id,
        decreases v.len() - i,
    {
        if v[i] == id {
            assert(v@[i as int] == id);
            return true;
        }
        i += 1;
    }
    false
}

fn copy_from(cs: &Vec<char>, m: usize) -> (r: Vec<char>)
    requires
        m <= cs.len(),
    ensures
        r@ == cs@.subrange(m as int, cs.len() as int),
{
    let mut out: Vec<char> = Vec::new();
    let mut i: usize = m;
    while i < cs.len()
        invariant
            m <= i <= cs.len(),
            out@ == cs@.subrange(m as int, i as int),
        decreases cs.len() - i,
    {
        out.push(cs[i]);
        assert(cs@.subrange(m as int, i + 1) =~= cs@.subrange(m as int, i as int).push(
            cs@[i as int],
        ));
        i += 1;
    }
    out
}

fn count_common(a: &Vec<char>, b: &Vec<char>) -> (r: usize)
    ensures
        r == common_from(a@, b@, 0),
        r <= a.len(),
        r <= b.len(),
{
    let mut i: usize = 0;
    while i < a.len() && i < b.len() && a[i] == b[i]
        invariant
            i <= a.len(),
            i <= b.len(),
            common_from(a@, b@, 0) == common_from(a@, b@, i as int),
        decreases a.len() - i,
    {
        i += 1;
    }
    i
}

fn find_run_start(cs: &Vec<char>, i: usize) -> (r: usize)
    requires
        i < cs.len(),
    ensures
        r == run_start(cs@, i as int),
        r <= i,
{
    let mut j: usize = i;
    while j > 0 && classify(cs[j - 1]) == classify(cs[j])
        invariant
            j <= i < cs.len(),
            run_start(cs@, i as int) == run_start(cs@, j as int),
        decreases j,
    {
        j -= 1;
    }
    j
}

fn keep_tokens(tokens: &[Token], byte: usize) -> (r: Vec<Token>)
    ensures
        r.deep_view() == tokens.deep_view().subrange(
            0,
            ending_by(tokens.deep_view(), byte as int, 0),
        ),
{
    let ghost t = tokens.deep_view();
    let mut out: Vec<Token> = Vec::new();
    let mut k: usize = 0;
    while k < tokens.len() && tokens[k].offset.end <= byte
        invariant
            t == tokens.deep_view(),
            k <= tokens@.len(),
            ending_by(t, byte as int, 0) == ending_by(t, byte as int, k as int),
            out.len() == k,
            forall|j: int| 0 <= j < k ==> (#[trigger] out[j]).deep_view() == t[j],
        decreases tokens@.len() - k,
    {
        assert(t[k as int] == tokens@[k as int].deep_view());
        out.push(tokens[k].clone());
        k += 1;
    }
    proof {
        if k < tokens@.len() {
            assert(t[k as int] == tokens@[k as int].deep_view());
        }
        assert(ending_by(t, byte as int, 0) == k);
        assert(out.deep_view() =~= t.subrange(0, k as int));
    }
    out
}

/// Finds the character that starts at a byte.
fn find_offset(offsets: &Vec<usize>, byte: usize, Ghost(s): Ghost<Seq<char>>) -> (r: usize)
    requires
        offsets.len() == s.len() + 1,
        forall|k: int| 0 <= k <= s.len() ==> #[trigger] offsets[k] == byte_at(s, k),
        boundary(s, byte as int),
    ensures
        r <= s.len(),
        byte_at(s, r as int) == byte,
{
    let ghost want = char_from(s, byte as int);
    let mut lo: usize = 0;
    let mut hi: usize = offsets.len() - 1;
    while lo < hi
        invariant
            offsets.len() == s.len() + 1,
            forall|k: int| 0 <= k <= s.len() ==> #[trigger] offsets[k] == byte_at(s, k),
            0 <= want <= s.len(),
            byte_at(s, want) == byte,
            lo <= want <= hi < offsets.len(),
        decreases hi - lo,
    {
        let mid: usize = lo + (hi - lo) / 2;
        assert(offsets[mid as int] == byte_at(s, mid as int));
        if offsets[mid] < byte {
            proof {
                if want <= mid {
                    lemma_byte_at_mono(s, want, mid as int);
                }
            }
            lo = mid + 1;
        } else {
            proof {
                if mid < want {
                    lemma_byte_at_mono(s, mid as int, want);
                }
            }
            hi = mid;
        }
    }
    lo
}

proof fn lemma_part_bytes(s: Seq<char>, a: int, b: int)
    requires
        0 <= a <= b <= s.len(),
    ensures
        byte_len(s.subrange(a, b)) == byte_at(s, b) - byte_at(s, a),
{
    let u = s.subrange(a, s.len() as int);
    lemma_byte_at_shift(s, a, b - a);
    lemma_byte_at_front(u, s.subrange(a, b), b - a);
}

/// The bytes before a word.
proof fn lemma_base(x: Lexicon, s: Seq<char>, k: int)
    requires
        0 <= k < words_from(s, x.seeds, 0).len(),
    ensures
        ({
            let t = words_tokens(x, word_texts(x, s), k);
            bytes_before(t, t.len() as int) == byte_at(s, words_from(s, x.seeds, 0)[k].0)
        }),
{
    let w = words_from(s, x.seeds, 0);
    let texts = word_texts(x, s);
    let t = words_tokens(x, texts, k);
    law_words_cover(s, x.seeds);
    lemma_words_spelled(x, texts, k);
    lemma_glued_covers(s, w, 0, k);
    lemma_bytes_spelled(t, t.len() as int);
    lemma_covers_within(w, 0, s.len() as int, k);
    if k > 0 {
        lemma_covers_within(w, 0, s.len() as int, k - 1);
        assert(w[k - 1].1 == w[k].0);
    }
    lemma_part_bytes(s, 0, w[k].0);
}

} // verus!
