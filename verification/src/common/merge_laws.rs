//! Which words a text has, and which of their parts are merged.
use vstd::prelude::*;

use crate::common::pretokenize::{
    class_of, law_runs_cover, law_words_cover, lemma_covers_within, lemma_run_end, longest,
    one_class, pieces_of, run_end, run_words, runs, seeded, word_end, words_from, words_of,
    CharClass,
};
use crate::common::tokenizer::{
    best, byte_len, coded_lengths, id_among, id_of, lemma_best, letters, merged, merged_at,
    merges_of, pair, rule, rules, sooner, word_tokens, Lexicon, UNKNOWN_ID,
};
use crate::text::{
    char_bytes, lemma_byte_at_front, lemma_byte_at_mono, lemma_byte_at_shift, occurs_at,
};

verus! {

/// Whether the merge at `k` goes before all others: none has a lower rank,
/// and none of the same rank stands further left.
pub open spec fn foremost(m: Map<u64, (u32, u32)>, t: Seq<(u32, Seq<char>)>, k: int) -> bool {
    &&& 0 <= k < t.len() - 1
    &&& rule(m, t, k) is Some
    &&& forall|j: int|
        0 <= j < t.len() - 1 && #[trigger] rule(m, t, j) is Some ==> {
            let (a, b) = (rule(m, t, k)->0, rule(m, t, j)->0);
            a.0 < b.0 || (a.0 == b.0 && (a.1 < b.1 || (a.1 == b.1 && k <= j)))
        }
}

proof fn lemma_foremost(m: Map<u64, (u32, u32)>, t: Seq<(u32, Seq<char>)>, n: int)
    ensures
        match best(m, t, n) {
            Some(k) => forall|j: int|
                0 <= j < n && #[trigger] rule(m, t, j) is Some ==> !sooner(
                    rule(m, t, j)->0,
                    rule(m, t, k)->0,
                ) && (rule(m, t, j) == rule(m, t, k) ==> k <= j),
            None => forall|j: int| 0 <= j < n ==> #[trigger] rule(m, t, j) is None,
        },
    decreases n,
{
    if n > 0 {
        lemma_foremost(m, t, n - 1);
        lemma_best(m, t, n - 1);
    }
}

/// Merging puts the two tokens of the lowest rank together, the leftmost of
/// equal ones, and goes on with the result: a token of the merged number that
/// covers both texts, between the tokens that stood left and right of them.
pub proof fn law_merge_step(
    m: Map<u64, (u32, u32)>,
    t: Seq<(u32, Seq<char>)>,
    k: int,
    u: Seq<(u32, Seq<char>)>,
)
    requires
        foremost(m, t, k),
        u.len() == t.len() - 1,
        forall|j: int| 0 <= j < k ==> #[trigger] u[j] == t[j],
        u[k] == ((rule(m, t, k)->0).1, t[k].1 + t[k + 1].1),
        forall|j: int| k < j < u.len() ==> #[trigger] u[j] == t[j + 1],
    ensures
        merged(m, t) == merged(m, u),
{
    lemma_foremost(m, t, t.len() - 1);
    lemma_best(m, t, t.len() - 1);
    let p = best(m, t, t.len() - 1);
    assert(p is Some) by {
        assert(rule(m, t, k) is Some);
    }
    assert(rule(m, t, p->0) is Some);
    assert(p->0 == k);
    assert(merged_at(t, k, (rule(m, t, k)->0).1) =~= u);
}

proof fn lemma_merged_out(m: Map<u64, (u32, u32)>, t: Seq<(u32, Seq<char>)>)
    ensures
        forall|k: int|
            0 <= k < merged(m, t).len() - 1 ==> #[trigger] rule(m, merged(m, t), k) is None,
    decreases t.len(),
{
    lemma_foremost(m, t, t.len() - 1);
    lemma_best(m, t, t.len() - 1);
    if let Some(k) = best(m, t, t.len() - 1) {
        lemma_merged_out(m, merged_at(t, k, (rule(m, t, k)->0).1));
    }
}

/// Merging goes on until nothing is left to merge: no two tokens of a word
/// that stand side by side have a merge.
pub proof fn law_merged_out(x: Lexicon, w: Seq<char>, k: int)
    requires
        0 <= k < word_tokens(x, w).len() - 1,
    ensures
        !rules(x).contains_key(pair(word_tokens(x, w)[k].0, word_tokens(x, w)[k + 1].0)),
{
    lemma_merged_out(rules(x), letters(x, w));
    assert(rule(rules(x), word_tokens(x, w), k) is None);
}

/// A word none of whose neighbouring characters have a merge keeps its
/// characters as tokens, each with its number in the vocabulary, the last
/// where it stands there more than once.
pub proof fn law_unmerged(x: Lexicon, w: Seq<char>, k: int)
    requires
        x.vocab.len() <= UNKNOWN_ID,
        forall|j: int|
            0 <= j < w.len() - 1 ==> #[trigger] rule(rules(x), letters(x, w), j) is None,
        0 <= k < w.len(),
    ensures
        word_tokens(x, w).len() == w.len(),
        word_tokens(x, w)[k].1 == seq![w[k]],
        match word_tokens(x, w)[k].0 {
            UNKNOWN_ID => !x.vocab.contains(seq![w[k]]),
            id => {
                &&& id < x.vocab.len() && x.vocab[id as int] == seq![w[k]]
                &&& forall|j: int| id < j < x.vocab.len() ==> #[trigger] x.vocab[j] != seq![w[k]]
            },
        },
{
    let (m, t) = (rules(x), letters(x, w));
    lemma_foremost(m, t, t.len() - 1);
    lemma_best(m, t, t.len() - 1);
    if let Some(p) = best(m, t, t.len() - 1) {
        assert(rule(m, t, p) is Some);
        assert(false);
    }
    lemma_id_among(x.vocab, seq![w[k]], x.vocab.len() as int);
}

proof fn lemma_id_among(v: Seq<Seq<char>>, text: Seq<char>, n: int)
    requires
        0 <= n <= v.len(),
    ensures
        match id_among(v, text, n) {
            Some(i) => 0 <= i < n && v[i] == text && forall|j: int|
                i < j < n ==> #[trigger] v[j] != text,
            None => forall|i: int| 0 <= i < n ==> #[trigger] v[i] != text,
        },
    decreases n,
{
    if n > 0 {
        lemma_id_among(v, text, n - 1);
    }
}

/// Whether pair `r` of the training makes token `z` of tokens `a` and `b`.
pub open spec fn trained(x: Lexicon, r: int, a: u32, b: u32, z: u32) -> bool {
    &&& 0 <= r < x.merges.len()
    &&& id_of(x.vocab, x.merges[r].0) == Some(a)
    &&& id_of(x.vocab, x.merges[r].1) == Some(b)
    &&& id_of(x.vocab, x.merges[r].0 + x.merges[r].1) == Some(z)
}

/// Whether pair `r` is the last of the first `n` that makes a token of tokens
/// `a` and `b`, and makes `z`.
spec fn last_trained(x: Lexicon, r: int, a: u32, b: u32, z: u32, n: int) -> bool {
    &&& r < n
    &&& trained(x, r, a, b, z)
    &&& forall|q: int, y: u32| r < q < n ==> !#[trigger] trained(x, q, a, b, y)
}

proof fn lemma_ranks(x: Lexicon, a: u32, b: u32, n: int) -> (r: int)
    requires
        0 <= n <= x.merges.len(),
    ensures
        ({
            let m = merges_of(x.vocab, x.merges, n);
            let p = pair(a, b);
            if m.contains_key(p) {
                last_trained(x, r, a, b, m[p].1, n) && m[p].0 == r as u32
            } else {
                forall|q: int, y: u32| q < n ==> !#[trigger] trained(x, q, a, b, y)
            }
        }),
    decreases n,
{
    if n > 0 {
        let before = lemma_ranks(x, a, b, n - 1);
        let (s, t) = x.merges[n - 1];
        if let (Some(p), Some(q), Some(z)) = (
            id_of(x.vocab, s),
            id_of(x.vocab, t),
            id_of(x.vocab, s + t),
        ) {
            if p == a && q == b {
                assert(trained(x, n - 1, a, b, z));
                n - 1
            } else {
                assert(pair(p, q) != pair(a, b));
                assert forall|y: u32| !#[trigger] trained(x, n - 1, a, b, y) by {}
                before
            }
        } else {
            assert forall|y: u32| !#[trigger] trained(x, n - 1, a, b, y) by {}
            before
        }
    } else {
        0
    }
}

/// Two tokens have a merge when a pair of the training is made of their texts
/// and its whole is in the vocabulary too. The merge makes the token of the
/// whole, and its rank is the place of the last such pair.
pub proof fn law_ranks(x: Lexicon, a: u32, b: u32, r: int, z: u32)
    requires
        x.merges.len() <= u32::MAX,
        trained(x, r, a, b, z),
        forall|q: int, y: u32| r < q ==> !#[trigger] trained(x, q, a, b, y),
    ensures
        rules(x).contains_key(pair(a, b)),
        rules(x)[pair(a, b)] == (r as u32, z),
{
    let q = lemma_ranks(x, a, b, x.merges.len() as int);
    assert(trained(x, r, a, b, z));
    assert(trained(x, q, a, b, rules(x)[pair(a, b)].1));
}

/// Tokens that no pair of the training is made of have no merge.
pub proof fn law_no_rank(x: Lexicon, a: u32, b: u32)
    requires
        forall|q: int, y: u32| !#[trigger] trained(x, q, a, b, y),
    ensures
        !rules(x).contains_key(pair(a, b)),
{
    let r = lemma_ranks(x, a, b, x.merges.len() as int);
    assert(!trained(x, r, a, b, rules(x)[pair(a, b)].1));
}

// The words.

/// Whether a seed word stands at character `a`, with all its characters of
/// the class of the first.
pub open spec fn seed_at(s: Seq<char>, seed: Seq<char>, a: int) -> bool {
    occurs_at(s, seed, a) && one_class(s, a, a + seed.len())
}

/// Whether the characters `a..b` are all of a run.
pub open spec fn whole_run(s: Seq<char>, a: int, b: int) -> bool {
    &&& one_class(s, a, b)
    &&& a > 0 ==> class_of(s[a - 1]) != class_of(s[a])
    &&& b < s.len() ==> class_of(s[b]) != class_of(s[a])
}

/// Whether the characters `a..b` are a word: a single white space, the longest
/// seed word or else a single character among Chinese characters where there
/// are seed words, and all of a run elsewhere.
pub open spec fn a_word(s: Seq<char>, seeds: Seq<Seq<char>>, a: int, b: int) -> bool {
    if class_of(s[a]) == CharClass::Space {
        b == a + 1
    } else if class_of(s[a]) == CharClass::Cjk && seeds.len() > 0 {
        &&& b == a + 1 || exists|q: int|
            0 <= q < seeds.len() && #[trigger] seeds[q] == s.subrange(a, b)
        &&& forall|q: int|
            0 <= q < seeds.len() && #[trigger] seed_at(s, seeds[q], a) ==> seeds[q].len() <= b - a
    } else {
        whole_run(s, a, b)
    }
}

proof fn lemma_longest_seed(s: Seq<char>, seeds: Seq<Seq<char>>, i: int, b: int, n: int)
    requires
        0 <= i < b <= s.len(),
        0 <= n <= seeds.len(),
    ensures
        ({
            let l = longest(s, seeds, i, b, n);
            &&& 0 <= l && i + l <= b
            &&& l > 0 ==> exists|q: int|
                0 <= q < n && #[trigger] seeds[q] == s.subrange(i, i + l)
            &&& forall|q: int|
                0 <= q < n && i + (#[trigger] seeds[q]).len() <= b && occurs_at(s, seeds[q], i)
                    ==> seeds[q].len() <= l
        }),
    decreases n,
{
    if n > 0 {
        lemma_longest_seed(s, seeds, i, b, n - 1);
        let w = seeds[n - 1];
        let l = longest(s, seeds, i, b, n);
        if i + w.len() <= b && occurs_at(s, w, i) && w.len() > longest(s, seeds, i, b, n - 1) {
            assert(seeds[n - 1] == s.subrange(i, i + l));
        }
    }
}

proof fn lemma_seeded_words(s: Seq<char>, seeds: Seq<Seq<char>>, a: int, i: int, b: int)
    requires
        0 <= a <= i <= b <= s.len(),
        a < b,
        one_class(s, a, b),
        class_of(s[a]) == CharClass::Cjk,
        b < s.len() ==> class_of(s[b]) != class_of(s[a]),
        seeds.len() > 0,
    ensures
        ({
            let w = seeded(s, seeds, i, b);
            forall|k: int| 0 <= k < w.len() ==> a_word(s, seeds, (#[trigger] w[k]).0, w[k].1)
        }),
    decreases b - i,
{
    if i < b {
        lemma_longest_seed(s, seeds, i, b, seeds.len() as int);
        let e = word_end(s, seeds, i, b);
        lemma_seeded_words(s, seeds, a, e, b);
        let (w, rest) = (seeded(s, seeds, i, b), seeded(s, seeds, e, b));
        assert(class_of(s[i]) == class_of(s[a]));
        assert(a_word(s, seeds, i, e)) by {
            assert forall|q: int|
                0 <= q < seeds.len() && #[trigger] seed_at(s, seeds[q], i) implies seeds[q].len()
                <= e - i by {
                if i + seeds[q].len() > b {
                    assert(class_of(s[b]) == class_of(s[i]));
                }
            }
        }
        assert forall|k: int| 0 <= k < w.len() implies a_word(
            s,
            seeds,
            (#[trigger] w[k]).0,
            w[k].1,
        ) by {
            if k > 0 {
                assert(w[k] == rest[k - 1]);
            }
        }
    }
}

proof fn lemma_words(s: Seq<char>, seeds: Seq<Seq<char>>, i: int)
    requires
        0 <= i <= s.len(),
        0 < i < s.len() ==> class_of(s[i - 1]) != class_of(s[i]),
    ensures
        ({
            let w = words_from(s, seeds, i);
            forall|k: int| 0 <= k < w.len() ==> a_word(s, seeds, (#[trigger] w[k]).0, w[k].1)
        }),
    decreases s.len() - i,
{
    if i < s.len() {
        lemma_run_end(s, i);
        let e = run_end(s, i);
        assert(class_of(s[e - 1]) == class_of(s[i]));
        lemma_words(s, seeds, e);
        let (w, x, y) = (
            words_from(s, seeds, i),
            run_words(s, seeds, i, e),
            words_from(s, seeds, e),
        );
        if class_of(s[i]) == CharClass::Cjk && seeds.len() > 0 {
            lemma_seeded_words(s, seeds, i, i, e);
        }
        assert forall|k: int| 0 <= k < w.len() implies a_word(
            s,
            seeds,
            (#[trigger] w[k]).0,
            w[k].1,
        ) by {
            if k >= x.len() {
                assert(w[k] == y[k - x.len()]);
            } else {
                assert(w[k] == x[k]);
                if class_of(s[i]) == CharClass::Space {
                    assert(class_of(s[i + k]) == class_of(s[i]));
                }
            }
        }
    }
}

/// The words of a text are the runs of its characters, but that white space
/// is split into single characters, and Chinese characters, where there are
/// seed words, into the longest seed word that stands there, or else a single
/// character.
pub proof fn law_words(s: Seq<char>, seeds: Seq<Seq<char>>, k: int)
    requires
        0 <= k < words_from(s, seeds, 0).len(),
    ensures
        a_word(s, seeds, words_from(s, seeds, 0)[k].0, words_from(s, seeds, 0)[k].1),
{
    lemma_words(s, seeds, 0);
}

/// The runs of a text are pieces of its bytes that follow each other from its
/// first byte to its last, each with the class of its characters.
pub proof fn law_pieces(s: Seq<char>, k: int)
    requires
        byte_len(s) <= usize::MAX,
        0 <= k < pieces_of(s).len(),
    ensures
        ({
            let p = pieces_of(s);
            &&& p.len() == runs(s, 0).len()
            &&& p[0].start == 0
            &&& p[p.len() - 1].end == byte_len(s)
            &&& k + 1 < p.len() ==> p[k].end == p[k + 1].start
            &&& p[k].start < p[k].end
            &&& p[k].class == class_of(s[runs(s, 0)[k].0])
        }),
{
    let r = runs(s, 0);
    law_runs_cover(s);
    lemma_covers_within(r, 0, s.len() as int, k);
    lemma_byte_at_mono(s, r[k].0, r[k].1);
    lemma_byte_at_mono(s, r[k].1, s.len() as int);
    if k + 1 < r.len() {
        assert(r[k].1 == r[k + 1].0);
    }
}

/// A word stands with its text, the bytes that the text takes, and the class of
/// its first character.
pub proof fn law_word_pieces(s: Seq<char>, seeds: Seq<Seq<char>>, k: int)
    requires
        byte_len(s) <= usize::MAX,
        0 <= k < words_of(s, seeds).len(),
    ensures
        ({
            let w = words_of(s, seeds);
            &&& w[k].0.len() > 0
            &&& w[k].1.end - w[k].1.start == byte_len(w[k].0)
            &&& w[k].1.class == class_of(w[k].0[0])
            &&& w[0].1.start == 0
            &&& w[w.len() - 1].1.end == byte_len(s)
            &&& k + 1 < w.len() ==> w[k].1.end == w[k + 1].1.start
        }),
{
    let r = words_from(s, seeds, 0);
    law_words_cover(s, seeds);
    lemma_covers_within(r, 0, s.len() as int, k);
    let (a, b) = (r[k].0, r[k].1);
    lemma_byte_at_mono(s, a, b);
    lemma_byte_at_mono(s, b, s.len() as int);
    lemma_byte_at_shift(s, a, b - a);
    lemma_byte_at_front(s.subrange(a, s.len() as int), s.subrange(a, b), b - a);
    if k + 1 < r.len() {
        assert(r[k].1 == r[k + 1].0);
        lemma_covers_within(r, 0, s.len() as int, k + 1);
        lemma_byte_at_mono(s, r[k + 1].0, s.len() as int);
    }
}

/// A character takes as few bytes as hold its number: seven bits in one byte,
/// eleven in two, sixteen in three and twenty-one in four.
pub proof fn law_char_bytes(c: char)
    ensures
        1 <= char_bytes(c) <= 4,
        char_bytes(c) == 1 <==> (c as int) < 128,
        char_bytes(c) <= 2 <==> (c as int) < 64 * 32,
        char_bytes(c) <= 3 <==> (c as int) < 64 * 64 * 16,
{
}

/// The tokens that have a code are listed with its length, each once and in the
/// order of their numbers.
pub proof fn law_coded(lengths: Seq<u8>, n: int, i: int)
    requires
        0 <= i < n <= lengths.len() <= u32::MAX,
    ensures
        coded_lengths(lengths, n).contains((i as u32, lengths[i])) <==> lengths[i] > 0,
        forall|k: int|
            0 <= k < coded_lengths(lengths, n).len() ==> (#[trigger] coded_lengths(lengths, n)[k]).0
                < n && lengths[coded_lengths(lengths, n)[k].0 as int] == coded_lengths(
                lengths,
                n,
            )[k].1 > 0,
        forall|j: int, k: int|
            0 <= j < k < coded_lengths(lengths, n).len() ==> (#[trigger] coded_lengths(
                lengths,
                n,
            )[j]).0 < (#[trigger] coded_lengths(lengths, n)[k]).0,
{
    lemma_coded(lengths, n);
    let c = coded_lengths(lengths, n);
    if lengths[i] > 0 {
        assert(listed(c, i, lengths[i]));
        let k = choose|k: int| 0 <= k < c.len() && #[trigger] c[k] == (i as u32, lengths[i]);
        assert(c[k] == (i as u32, lengths[i]));
    }
}

spec fn listed(c: Seq<(u32, u8)>, i: int, l: u8) -> bool {
    exists|k: int| 0 <= k < c.len() && #[trigger] c[k] == (i as u32, l)
}

proof fn lemma_coded(lengths: Seq<u8>, n: int)
    requires
        0 <= n <= lengths.len() <= u32::MAX,
    ensures
        ({
            let c = coded_lengths(lengths, n);
            &&& forall|i: int| 0 <= i < n && lengths[i] > 0 ==> #[trigger] listed(c, i, lengths[i])
            &&& forall|k: int|
                0 <= k < c.len() ==> (#[trigger] c[k]).0 < n && lengths[c[k].0 as int] == c[k].1 > 0
            &&& forall|j: int, k: int|
                0 <= j < k < c.len() ==> (#[trigger] c[j]).0 < (#[trigger] c[k]).0
        }),
    decreases n,
{
    if n > 0 {
        lemma_coded(lengths, n - 1);
        let (c, before) = (coded_lengths(lengths, n), coded_lengths(lengths, n - 1));
        assert forall|i: int| 0 <= i < n && lengths[i] > 0 implies #[trigger] listed(
            c,
            i,
            lengths[i],
        ) by {
            if i < n - 1 {
                assert(listed(before, i, lengths[i]));
                let k = choose|k: int|
                    0 <= k < before.len() && #[trigger] before[k] == (i as u32, lengths[i]);
                assert(c[k] == before[k]);
            } else {
                assert(c[c.len() - 1] == (i as u32, lengths[i]));
            }
        }
    }
}

} // verus!
