//! What the tokens of a text stand for.
use vstd::prelude::*;

use crate::common::tokenizer::{
    best, byte_len, char_from, id_among, id_of, law_tokens_spell, lemma_best, lemma_char_from,
    lemma_cut_at, lemma_words_solid, letters, merged, merged_at, merges_of, pair, rule, rules,
    spelled, text_tokens, tokens_of, word_texts, word_tokens, words_tokens, Lexicon, Tok,
    UNKNOWN_ID,
};
use crate::text::lemma_byte_at_mono;

verus! {

/// Whether a token is named rightly: its number is that of the text in the
/// vocabulary, or the text is a character that the vocabulary lacks.
pub open spec fn stands_for(v: Seq<Seq<char>>, id: u32, text: Seq<char>) -> bool {
    ||| id < v.len() && v[id as int] == text
    ||| id == UNKNOWN_ID && text.len() == 1 && !v.contains(text)
}

/// Whether all tokens are named rightly.
spec fn all_stand(v: Seq<Seq<char>>, t: Seq<(u32, Seq<char>)>) -> bool {
    forall|k: int| 0 <= k < t.len() ==> stands_for(v, (#[trigger] t[k]).0, t[k].1)
}

/// Whether the two parts of a key make the text of a number.
spec fn makes(v: Seq<Seq<char>>, p: u64, z: u32) -> bool {
    let (a, b) = (p / 0x1_0000_0000, p % 0x1_0000_0000);
    a < v.len() && b < v.len() && z < v.len() && v[a as int] + v[b as int] == v[z as int]
}

proof fn lemma_id_among(v: Seq<Seq<char>>, text: Seq<char>, n: int)
    requires
        0 <= n <= v.len(),
    ensures
        match id_among(v, text, n) {
            Some(i) => 0 <= i < n && v[i] == text,
            None => forall|i: int| 0 <= i < n ==> v[i] != text,
        },
    decreases n,
{
    if n > 0 {
        lemma_id_among(v, text, n - 1);
    }
}

proof fn lemma_id_of(v: Seq<Seq<char>>, text: Seq<char>)
    requires
        v.len() <= UNKNOWN_ID,
    ensures
        match id_of(v, text) {
            Some(i) => i < v.len() && v[i as int] == text,
            None => !v.contains(text),
        },
{
    lemma_id_among(v, text, v.len() as int);
}

/// Every merge makes a text of the vocabulary.
proof fn lemma_merges_make(
    v: Seq<Seq<char>>,
    merges: Seq<(Seq<char>, Seq<char>)>,
    n: int,
    p: u64,
)
    requires
        v.len() <= UNKNOWN_ID,
        0 <= n <= merges.len(),
        merges_of(v, merges, n).contains_key(p),
    ensures
        makes(v, p, merges_of(v, merges, n)[p].1),
    decreases n,
{
    if n > 0 {
        let (a, b) = merges[n - 1];
        lemma_id_of(v, a);
        lemma_id_of(v, b);
        lemma_id_of(v, a + b);
        if let (Some(x), Some(y), Some(z)) = (id_of(v, a), id_of(v, b), id_of(v, a + b)) {
            if p != pair(x, y) {
                lemma_merges_make(v, merges, n - 1, p);
            }
        } else {
            lemma_merges_make(v, merges, n - 1, p);
        }
    }
}

/// Merging keeps the names right.
proof fn lemma_merged_stand(x: Lexicon, t: Seq<(u32, Seq<char>)>)
    requires
        x.vocab.len() <= UNKNOWN_ID,
        all_stand(x.vocab, t),
    ensures
        all_stand(x.vocab, merged(rules(x), t)),
    decreases t.len(),
{
    let m = rules(x);
    if let Some(k) = best(m, t, t.len() - 1) {
        lemma_best(m, t, t.len() - 1);
        let id = (rule(m, t, k)->0).1;
        let p = pair(t[k].0, t[k + 1].0);
        lemma_merges_make(x.vocab, x.merges, x.merges.len() as int, p);
        assert(p / 0x1_0000_0000 == t[k].0 && p % 0x1_0000_0000 == t[k + 1].0);
        assert(stands_for(x.vocab, t[k].0, t[k].1));
        assert(stands_for(x.vocab, t[k + 1].0, t[k + 1].1));
        let u = merged_at(t, k, id);
        assert forall|j: int| 0 <= j < u.len() implies stands_for(
            x.vocab,
            (#[trigger] u[j]).0,
            u[j].1,
        ) by {
            if j < k {
                assert(u[j] == t[j]);
            } else if j > k {
                assert(u[j] == t[j + 1]);
            }
        }
        lemma_merged_stand(x, u);
    }
}

/// The tokens of words are named rightly.
proof fn lemma_words_stand(x: Lexicon, words: Seq<Seq<char>>, n: int)
    requires
        x.vocab.len() <= UNKNOWN_ID,
        0 <= n <= words.len(),
    ensures
        all_stand(x.vocab, words_tokens(x, words, n)),
    decreases n,
{
    if n > 0 {
        lemma_words_stand(x, words, n - 1);
        let w = words[n - 1];
        let t = letters(x, w);
        assert forall|k: int| 0 <= k < t.len() implies stands_for(
            x.vocab,
            (#[trigger] t[k]).0,
            t[k].1,
        ) by {
            lemma_id_of(x.vocab, seq![w[k]]);
        }
        lemma_merged_stand(x, t);
        let (a, b) = (words_tokens(x, words, n - 1), word_tokens(x, w));
        assert forall|k: int| 0 <= k < (a + b).len() implies stands_for(
            x.vocab,
            (#[trigger] (a + b)[k]).0,
            (a + b)[k].1,
        ) by {
            if k >= a.len() {
                assert((a + b)[k] == b[k - a.len()]);
            }
        }
    }
}

/// The characters that a token covers.
pub open spec fn covered(s: Seq<char>, t: Tok) -> Seq<char> {
    s.subrange(char_from(s, t.start), char_from(s, t.end))
}

/// Each token of a text has the number of the text that it covers, or covers
/// one character that the vocabulary lacks and is unknown.
pub proof fn law_tokens_stand(x: Lexicon, s: Seq<char>, k: int)
    requires
        x.vocab.len() <= UNKNOWN_ID,
        0 <= k < tokens_of(x, s).len(),
    ensures
        stands_for(x.vocab, tokens_of(x, s)[k].id, covered(s, tokens_of(x, s)[k])),
{
    let t = text_tokens(x, s);
    let words = word_texts(x, s);
    lemma_words_stand(x, words, words.len() as int);
    law_tokens_spell(x, s);
    lemma_cut_at(t, s, k);
    lemma_cut_at(t, s, k + 1);
    let (i, j) = (spelled(t, k).len() as int, spelled(t, k + 1).len() as int);
    lemma_char_from(s, i);
    lemma_char_from(s, j);
    assert(s.subrange(i, j) =~= t[k].1) by {
        assert(s.subrange(0, j).subrange(i, j) =~= s.subrange(i, j));
        assert(spelled(t, k + 1).subrange(i, j) =~= t[k].1);
    }
    assert(stands_for(x.vocab, t[k].0, t[k].1));
}

/// The tokens of a text tile it: the first starts at its start, each of the
/// others where the one before it ends, and the last ends at its end. None is
/// empty.
pub proof fn law_tokens_tile(x: Lexicon, s: Seq<char>)
    ensures
        ({
            let p = tokens_of(x, s);
            &&& p.len() == 0 <==> s.len() == 0
            &&& p.len() > 0 ==> p[0].start == 0 && p[p.len() - 1].end == byte_len(s)
            &&& forall|j: int, k: int|
                0 <= j < p.len() && k == j + 1 && k < p.len() ==> (#[trigger] p[j]).end == (
                #[trigger] p[k]).start
            &&& forall|k: int| 0 <= k < p.len() ==> (#[trigger] p[k]).start < p[k].end
        }),
{
    let t = text_tokens(x, s);
    let p = tokens_of(x, s);
    let words = word_texts(x, s);
    law_tokens_spell(x, s);
    lemma_words_solid(x, words, words.len() as int);
    lemma_cut_at(t, s, t.len() as int);
    assert forall|k: int| 0 <= k < p.len() implies (#[trigger] p[k]).start < p[k].end by {
        lemma_cut_at(t, s, k);
        lemma_cut_at(t, s, k + 1);
        assert(t[k].1.len() > 0);
        lemma_byte_at_mono(s, spelled(t, k).len() as int, spelled(t, k + 1).len() as int);
    }
    if p.len() > 0 {
        lemma_cut_at(t, s, 1);
        assert(t[0].1.len() > 0);
    }
}

} // verus!
