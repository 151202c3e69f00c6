//! Splitting text into runs of characters of one class.
//!
//! The runs bound what a tokenizer may merge. Where a list of seed words is
//! given, runs of Chinese characters are split into seed words, the longest
//! first. White space is split into single characters.
use vstd::prelude::*;

use crate::text::{
    alphabetic, byte_at, byte_offsets, is_letter, is_white, occurs_at, slice_text, to_chars, white,
};

verus! {

/// The classes of characters.
#[derive(Debug, Clone, Copy, PartialEq, Eq, Structural)]
pub enum CharClass {
    /// CJK ideographs, their extensions and compatibility forms.
    Cjk,
    /// Other letters.
    Letter,
    /// ASCII digits.
    Digit,
    /// White space.
    Space,
    /// Punctuation.
    Punct,
    /// Everything else.
    Symbol,
}

/// Whether a character is a CJK ideograph.
pub open spec fn cjk(c: char) -> bool {
    let n = c as u32;
    ||| 0x3400 <= n <= 0x4DBF
    ||| 0x4E00 <= n <= 0x9FFF
    ||| 0xF900 <= n <= 0xFAFF
    ||| 0x20000 <= n <= 0x2FA1F
}

/// Whether a character is punctuation: that of ASCII, and blocks of Unicode.
pub open spec fn punct(c: char) -> bool {
    let n = c as u32;
    ||| 0x21 <= n <= 0x2F
    ||| 0x3A <= n <= 0x40
    ||| 0x5B <= n <= 0x60
    ||| 0x7B <= n <= 0x7E
    ||| 0x2000 <= n <= 0x206F
    ||| 0x3000 <= n <= 0x303F
    ||| 0xFE10 <= n <= 0xFE1F
    ||| 0xFE30 <= n <= 0xFE4F
    ||| 0xFF00 <= n <= 0xFF0F
    ||| 0xFF1A <= n <= 0xFF1F
    ||| 0xFF3B <= n <= 0xFF3F
    ||| 0xFF5B <= n <= 0xFF65
}

/// The class of a character.
pub open spec fn class_of(c: char) -> CharClass {
    if cjk(c) {
        CharClass::Cjk
    } else if white(c) {
        CharClass::Space
    } else if '0' <= c <= '9' {
        CharClass::Digit
    } else if alphabetic(c) {
        CharClass::Letter
    } else if punct(c) {
        CharClass::Punct
    } else {
        CharClass::Symbol
    }
}

fn is_cjk(c: char) -> (r: bool)
    ensures
        r == cjk(c),
{
    let n: u32 = c as u32;
    (0x3400 <= n && n <= 0x4DBF) || (0x4E00 <= n && n <= 0x9FFF) || (0xF900 <= n && n <= 0xFAFF)
        || (0x20000 <= n && n <= 0x2FA1F)
}

fn is_punct(c: char) -> (r: bool)
    ensures
        r == punct(c),
{
    let n: u32 = c as u32;
    (0x21 <= n && n <= 0x2F) || (0x3A <= n && n <= 0x40) || (0x5B <= n && n <= 0x60) || (0x7B <= n
        && n <= 0x7E) || (0x2000 <= n && n <= 0x206F) || (0x3000 <= n && n <= 0x303F) || (0xFE10
        <= n && n <= 0xFE1F) || (0xFE30 <= n && n <= 0xFE4F) || (0xFF00 <= n && n <= 0xFF0F) || (
    0xFF1A <= n && n <= 0xFF1F) || (0xFF3B <= n && n <= 0xFF3F) || (0xFF5B <= n && n <= 0xFF65)
}

/// The class of a character.
pub fn classify(c: char) -> (r: CharClass)
    ensures
        r == class_of(c),
{
    if is_cjk(c) {
        CharClass::Cjk
    } else if is_white(c) {
        CharClass::Space
    } else if '0' <= c && c <= '9' {
        CharClass::Digit
    } else if is_letter(c) {
        CharClass::Letter
    } else if is_punct(c) {
        CharClass::Punct
    } else {
        CharClass::Symbol
    }
}

/// A run: the bytes `start..end` of a text.
#[derive(Debug, Clone, Copy, PartialEq, Eq, Structural)]
pub struct Piece {
    pub start: usize,
    pub end: usize,
    pub class: CharClass,
}

/// The first character behind the run that character `i` lies in.
pub open spec fn run_end(s: Seq<char>, i: int) -> int
    decreases s.len() - i,
{
    if i + 1 >= s.len() || class_of(s[i + 1]) != class_of(s[i]) {
        i + 1
    } else {
        run_end(s, i + 1)
    }
}

/// A run does not end before it starts, nor behind the text.
pub proof fn lemma_run_end(s: Seq<char>, i: int)
    requires
        0 <= i < s.len(),
    ensures
        i < run_end(s, i) <= s.len(),
        forall|k: int| i <= k < run_end(s, i) ==> class_of(#[trigger] s[k]) == class_of(s[i]),
        run_end(s, i) < s.len() ==> class_of(s[run_end(s, i)]) != class_of(s[i]),
    decreases s.len() - i,
{
    if i + 1 < s.len() && class_of(s[i + 1]) == class_of(s[i]) {
        lemma_run_end(s, i + 1);
    }
}

/// The runs from character `i` on, by their characters.
pub open spec fn runs(s: Seq<char>, i: int) -> Seq<(int, int)>
    decreases s.len() - i,
{
    if i < 0 || i >= s.len() {
        Seq::empty()
    } else {
        proof {
            lemma_run_end(s, i);
        }
        seq![(i, run_end(s, i))] + runs(s, run_end(s, i))
    }
}

/// The run of characters as bytes.
pub open spec fn piece(s: Seq<char>, a: int, b: int) -> Piece {
    Piece {
        start: byte_at(s, a) as usize,
        end: byte_at(s, b) as usize,
        class: class_of(s[a]),
    }
}

/// The runs of a text.
pub open spec fn pieces_of(s: Seq<char>) -> Seq<Piece> {
    let r = runs(s, 0);
    Seq::new(r.len(), |k: int| piece(s, r[k].0, r[k].1))
}

/// The length of the longest of the first `n` seed words that stands at
/// character `i` and ends by character `b`.
pub open spec fn longest(s: Seq<char>, seeds: Seq<Seq<char>>, i: int, b: int, n: int) -> int
    decreases n,
{
    if n <= 0 {
        0
    } else {
        let best = longest(s, seeds, i, b, n - 1);
        let w = seeds[n - 1];
        if i + w.len() <= b && occurs_at(s, w, i) && w.len() > best {
            w.len() as int
        } else {
            best
        }
    }
}

/// The end of the word at character `i`: that of the longest seed word, or of
/// the single character.
pub open spec fn word_end(s: Seq<char>, seeds: Seq<Seq<char>>, i: int, b: int) -> int {
    let n = longest(s, seeds, i, b, seeds.len() as int);
    if n > 0 {
        i + n
    } else {
        i + 1
    }
}

/// The words of the characters `i..b`.
pub open spec fn seeded(s: Seq<char>, seeds: Seq<Seq<char>>, i: int, b: int) -> Seq<(int, int)>
    decreases
        (if i < b {
            b - i
        } else {
            0
        }),
{
    if i >= b {
        Seq::empty()
    } else {
        seq![(i, word_end(s, seeds, i, b))] + seeded(s, seeds, word_end(s, seeds, i, b), b)
    }
}

/// The words of a run.
pub open spec fn run_words(s: Seq<char>, seeds: Seq<Seq<char>>, a: int, b: int) -> Seq<(int, int)> {
    if class_of(s[a]) == CharClass::Cjk && seeds.len() > 0 {
        seeded(s, seeds, a, b)
    } else if class_of(s[a]) == CharClass::Space {
        Seq::new((b - a) as nat, |k: int| (a + k, a + k + 1))
    } else {
        seq![(a, b)]
    }
}

/// The words from character `i` on, which starts a run.
pub open spec fn words_from(s: Seq<char>, seeds: Seq<Seq<char>>, i: int) -> Seq<(int, int)>
    decreases s.len() - i,
{
    if i < 0 || i >= s.len() {
        Seq::empty()
    } else {
        proof {
            lemma_run_end(s, i);
        }
        run_words(s, seeds, i, run_end(s, i)) + words_from(s, seeds, run_end(s, i))
    }
}

/// Whether a list of words covers the characters `a..b` without gaps, each
/// word with a character at least.
pub open spec fn covers_chars(w: Seq<(int, int)>, a: int, b: int) -> bool {
    &&& w.len() == 0 ==> a == b
    &&& w.len() > 0 ==> w[0].0 == a && w[w.len() - 1].1 == b
    &&& forall|k: int| 0 <= k < w.len() ==> (#[trigger] w[k]).0 < w[k].1
    &&& forall|j: int, k: int|
        0 <= j < w.len() && k == j + 1 && k < w.len() ==> (#[trigger] w[j]).1 == (
        #[trigger] w[k]).0
}

pub proof fn lemma_covers_join(x: Seq<(int, int)>, y: Seq<(int, int)>, a: int, b: int, c: int)
    requires
        covers_chars(x, a, b),
        covers_chars(y, b, c),
    ensures
        covers_chars(x + y, a, c),
{
    let w = x + y;
    assert forall|k: int| 0 <= k < w.len() implies (#[trigger] w[k]).0 < w[k].1 by {
        if k >= x.len() {
            assert(w[k] == y[k - x.len()]);
        }
    }
    assert forall|j: int, k: int| 0 <= j < w.len() && k == j + 1 && k < w.len() implies (
    #[trigger] w[j]).1 == (#[trigger] w[k]).0 by {
        if j >= x.len() {
            assert(w[j] == y[j - x.len()]);
            assert(w[k] == y[k - x.len()]);
        } else if k < x.len() {
            assert(w[j] == x[j] && w[k] == x[k]);
        } else {
            assert(w[k] == y[0]);
        }
    }
    if y.len() > 0 {
        assert(w[w.len() - 1] == y[y.len() - 1]);
    } else if x.len() > 0 {
        assert(w =~= x);
    }
}

/// A seed word that fits ends by the end.
pub proof fn lemma_longest(s: Seq<char>, seeds: Seq<Seq<char>>, i: int, b: int, n: int)
    requires
        0 <= i < b,
        0 <= n <= seeds.len(),
    ensures
        0 <= longest(s, seeds, i, b, n) <= b - i,
    decreases n,
{
    if n > 0 {
        lemma_longest(s, seeds, i, b, n - 1);
    }
}

proof fn lemma_seeded_covers(s: Seq<char>, seeds: Seq<Seq<char>>, i: int, b: int)
    requires
        0 <= i <= b,
    ensures
        covers_chars(seeded(s, seeds, i, b), i, b),
    decreases b - i,
{
    if i < b {
        lemma_longest(s, seeds, i, b, seeds.len() as int);
        let e = word_end(s, seeds, i, b);
        lemma_seeded_covers(s, seeds, e, b);
        lemma_covers_join(seq![(i, e)], seeded(s, seeds, e, b), i, e, b);
    }
}

/// The words of a run cover it.
pub proof fn lemma_run_words_cover(s: Seq<char>, seeds: Seq<Seq<char>>, a: int, b: int)
    requires
        0 <= a < b,
    ensures
        covers_chars(run_words(s, seeds, a, b), a, b),
{
    lemma_seeded_covers(s, seeds, a, b);
}

proof fn lemma_runs_cover(s: Seq<char>, i: int)
    requires
        0 <= i <= s.len(),
    ensures
        covers_chars(runs(s, i), i, s.len() as int),
    decreases s.len() - i,
{
    if i < s.len() {
        lemma_run_end(s, i);
        let e = run_end(s, i);
        lemma_runs_cover(s, e);
        lemma_covers_join(seq![(i, e)], runs(s, e), i, e, s.len() as int);
    }
}

/// The runs of a text cover it without gaps or overlaps.
pub proof fn law_runs_cover(s: Seq<char>)
    ensures
        covers_chars(runs(s, 0), 0, s.len() as int),
{
    lemma_runs_cover(s, 0);
}

pub proof fn lemma_words_cover(s: Seq<char>, seeds: Seq<Seq<char>>, i: int)
    requires
        0 <= i <= s.len(),
    ensures
        covers_chars(words_from(s, seeds, i), i, s.len() as int),
    decreases s.len() - i,
{
    if i < s.len() {
        lemma_run_end(s, i);
        let e = run_end(s, i);
        lemma_run_words_cover(s, seeds, i, e);
        lemma_words_cover(s, seeds, e);
        lemma_covers_join(
            run_words(s, seeds, i, e),
            words_from(s, seeds, e),
            i,
            e,
            s.len() as int,
        );
    }
}

/// The words of a text cover it without gaps or overlaps, whatever the seed
/// words are.
pub proof fn law_words_cover(s: Seq<char>, seeds: Seq<Seq<char>>)
    ensures
        covers_chars(words_from(s, seeds, 0), 0, s.len() as int),
{
    lemma_words_cover(s, seeds, 0);
}

/// Whether the characters `a..b` lie in the text and have one class.
pub open spec fn one_class(s: Seq<char>, a: int, b: int) -> bool {
    0 <= a < b <= s.len() && forall|k: int|
        a <= k < b ==> class_of(#[trigger] s[k]) == class_of(s[a])
}

/// Whether run `k` and the next differ in their class.
pub open spec fn differs(s: Seq<char>, r: Seq<(int, int)>, k: int) -> bool {
    class_of(s[r[k].0]) != class_of(s[r[k + 1].0])
}

proof fn lemma_runs_class(s: Seq<char>, i: int)
    requires
        0 <= i <= s.len(),
    ensures
        ({
            let r = runs(s, i);
            forall|k: int| 0 <= k < r.len() ==> one_class(s, (#[trigger] r[k]).0, r[k].1)
        }),
    decreases s.len() - i,
{
    if i < s.len() {
        lemma_run_end(s, i);
        let e = run_end(s, i);
        lemma_runs_class(s, e);
        let (r, rest) = (runs(s, i), runs(s, e));
        assert forall|k: int| 0 <= k < r.len() implies one_class(
            s,
            (#[trigger] r[k]).0,
            r[k].1,
        ) by {
            if k > 0 {
                assert(r[k] == rest[k - 1]);
            }
        }
    }
}

proof fn lemma_runs_differ(s: Seq<char>, i: int)
    requires
        0 <= i <= s.len(),
    ensures
        ({
            let r = runs(s, i);
            forall|k: int| 0 <= k < r.len() - 1 ==> #[trigger] differs(s, r, k)
        }),
    decreases s.len() - i,
{
    if i < s.len() {
        lemma_run_end(s, i);
        let e = run_end(s, i);
        lemma_runs_differ(s, e);
        let (r, rest) = (runs(s, i), runs(s, e));
        assert forall|k: int| 0 <= k < r.len() - 1 implies #[trigger] differs(s, r, k) by {
            assert(r[k + 1] == rest[k]);
            if k > 0 {
                assert(r[k] == rest[k - 1]);
                assert(differs(s, rest, k - 1));
            } else {
                assert(rest[0].0 == e);
            }
        }
    }
}

/// A run has one class, and the next run has another.
pub proof fn law_runs_class(s: Seq<char>)
    ensures
        ({
            let r = runs(s, 0);
            &&& forall|k: int| 0 <= k < r.len() ==> one_class(s, (#[trigger] r[k]).0, r[k].1)
            &&& forall|k: int| 0 <= k < r.len() - 1 ==> #[trigger] differs(s, r, k)
        }),
{
    lemma_runs_class(s, 0);
    lemma_runs_differ(s, 0);
}

/// Whether a word lies in one run, and is one character where that is white
/// space.
pub open spec fn kept_apart(s: Seq<char>, a: int, b: int) -> bool {
    one_class(s, a, b) && (class_of(s[a]) == CharClass::Space ==> b == a + 1)
}

proof fn lemma_seeded_class(s: Seq<char>, seeds: Seq<Seq<char>>, a: int, i: int, b: int)
    requires
        a <= i <= b,
        a < b,
        one_class(s, a, b),
        class_of(s[a]) != CharClass::Space,
    ensures
        ({
            let w = seeded(s, seeds, i, b);
            forall|k: int| 0 <= k < w.len() ==> kept_apart(s, (#[trigger] w[k]).0, w[k].1)
        }),
    decreases b - i,
{
    if i < b {
        lemma_longest(s, seeds, i, b, seeds.len() as int);
        let e = word_end(s, seeds, i, b);
        lemma_seeded_class(s, seeds, a, e, b);
        let (w, rest) = (seeded(s, seeds, i, b), seeded(s, seeds, e, b));
        assert forall|k: int| 0 <= k < w.len() implies kept_apart(
            s,
            (#[trigger] w[k]).0,
            w[k].1,
        ) by {
            if k > 0 {
                assert(w[k] == rest[k - 1]);
            } else {
                assert(class_of(s[i]) == class_of(s[a]));
            }
        }
    }
}

proof fn lemma_words_class(s: Seq<char>, seeds: Seq<Seq<char>>, i: int)
    requires
        0 <= i <= s.len(),
    ensures
        ({
            let w = words_from(s, seeds, i);
            forall|k: int| 0 <= k < w.len() ==> kept_apart(s, (#[trigger] w[k]).0, w[k].1)
        }),
    decreases s.len() - i,
{
    if i < s.len() {
        lemma_run_end(s, i);
        let e = run_end(s, i);
        lemma_words_class(s, seeds, e);
        let (w, x, y) = (
            words_from(s, seeds, i),
            run_words(s, seeds, i, e),
            words_from(s, seeds, e),
        );
        if class_of(s[i]) == CharClass::Cjk {
            lemma_seeded_class(s, seeds, i, i, e);
        }
        assert forall|k: int| 0 <= k < w.len() implies kept_apart(
            s,
            (#[trigger] w[k]).0,
            w[k].1,
        ) by {
            if k >= x.len() {
                assert(w[k] == y[k - x.len()]);
            } else {
                assert(w[k] == x[k]);
            }
        }
    }
}

/// A word has characters of one class, and one that holds white space is that
/// character alone.
pub proof fn law_spaces_alone(s: Seq<char>, seeds: Seq<Seq<char>>)
    ensures
        ({
            let w = words_from(s, seeds, 0);
            forall|k: int| 0 <= k < w.len() ==> kept_apart(s, (#[trigger] w[k]).0, w[k].1)
        }),
{
    lemma_words_class(s, seeds, 0);
}

fn find_run_end(cs: &Vec<char>, i: usize) -> (r: usize)
    requires
        i < cs.len(),
    ensures
        r == run_end(cs@, i as int),
        i < r <= cs.len(),
{
    let class = classify(cs[i]);
    let mut e: usize = i + 1;
    while e < cs.len() && classify(cs[e]) == class
        invariant
            i < e <= cs.len(),
            class == class_of(cs@[e - 1]),
            run_end(cs@, i as int) == run_end(cs@, e - 1),
        decreases cs.len() - e,
    {
        e += 1;
    }
    e
}

/// Splits a text into its runs.
pub fn segment(text: &str) -> (r: Vec<Piece>)
    ensures
        r@ == pieces_of(text@),
{
    let cs = to_chars(text);
    let offsets = byte_offsets(text, &cs);
    let ghost s = text@;
    let ghost all = runs(s, 0);
    let mut out: Vec<Piece> = Vec::new();
    let mut i: usize = 0;
    while i < cs.len()
        invariant
            cs@ == s,
            offsets.len() == cs.len() + 1,
            forall|k: int| 0 <= k <= cs.len() ==> #[trigger] offsets[k] == byte_at(s, k),
            i <= cs.len(),
            all == runs(s, 0),
            all == all.subrange(0, out.len() as int) + runs(s, i as int),
            out.len() <= all.len(),
            forall|k: int|
                0 <= k < out.len() ==> #[trigger] out[k] == piece(s, all[k].0, all[k].1),
        decreases cs.len() - i,
    {
        let e: usize = find_run_end(&cs, i);
        assert(offsets[i as int] == byte_at(s, i as int));
        assert(offsets[e as int] == byte_at(s, e as int));
        let ghost n = out.len() as int;
        proof {
            assert(runs(s, i as int)[0] == (i as int, e as int));
            assert(all[n] == (all.subrange(0, n) + runs(s, i as int))[n]);
            assert(all =~= all.subrange(0, n + 1) + runs(s, e as int)) by {
                assert(all.subrange(0, n + 1) =~= all.subrange(0, n).push(all[n]));
            }
        }
        out.push(Piece { start: offsets[i], end: offsets[e], class: classify(cs[i]) });
        i = e;
    }
    assert(out@ =~= pieces_of(s));
    out
}

/// Whether no seed word is empty.
pub open spec fn seeds_ok(seeds: Seq<Seq<char>>) -> bool {
    forall|k: int| 0 <= k < seeds.len() ==> (#[trigger] seeds[k]).len() > 0
}

fn seed_chars(seeds: &[String]) -> (r: Vec<Vec<char>>)
    ensures
        r.deep_view() == seeds.deep_view(),
{
    let mut out: Vec<Vec<char>> = Vec::new();
    let mut i: usize = 0;
    while i < seeds.len()
        invariant
            i <= seeds.len(),
            out.len() == i,
            forall|k: int| 0 <= k < i ==> (#[trigger] out[k])@ == seeds[k]@,
        decreases seeds.len() - i,
    {
        out.push(to_chars(seeds[i].as_str()));
        i += 1;
    }
    assert forall|k: int| 0 <= k < out.len() implies #[trigger] out.deep_view()[k]
        == seeds.deep_view()[k] by {
        assert(out[k].deep_view() =~= out[k]@);
    }
    assert(out.deep_view() =~= seeds.deep_view());
    out
}

fn stands(cs: &Vec<char>, w: &Vec<char>, i: usize, b: usize) -> (r: bool)
    requires
        i <= b <= cs.len(),
    ensures
        r == (i + w.len() <= b && occurs_at(cs@, w@, i as int)),
{
    if w.len() > b - i {
        return false;
    }
    let mut k: usize = 0;
    while k < w.len()
        invariant
            i + w.len() <= b <= cs.len(),
            k <= w.len(),
            forall|j: int| 0 <= j < k ==> w[j] == cs[i + j],
        decreases w.len() - k,
    {
        if cs[i + k] != w[k] {
            assert(cs@.subrange(i as int, i + w.len())[k as int] == cs@[i + k]);
            return false;
        }
        k += 1;
    }
    assert(cs@.subrange(i as int, i + w.len()) =~= w@);
    true
}

fn find_word_end(cs: &Vec<char>, seeds: &Vec<Vec<char>>, i: usize, b: usize) -> (r: usize)
    requires
        i < b <= cs.len(),
    ensures
        r == word_end(cs@, seeds.deep_view(), i as int, b as int),
        i < r <= b,
{
    let ghost sv = seeds.deep_view();
    let mut best: usize = 0;
    let mut n: usize = 0;
    while n < seeds.len()
        invariant
            i < b <= cs.len(),
            sv == seeds.deep_view(),
            n <= seeds.len(),
            best == longest(cs@, sv, i as int, b as int, n as int),
            best <= b - i,
        decreases seeds.len() - n,
    {
        assert(sv[n as int] =~= seeds[n as int]@);
        if stands(cs, &seeds[n], i, b) && seeds[n].len() > best {
            best = seeds[n].len();
        }
        n += 1;
    }
    if best > 0 {
        i + best
    } else {
        i + 1
    }
}

/// Appends the words of the characters `i..b`.
fn push_seeded(out: &mut Vec<(usize, usize)>, cs: &Vec<char>, seeds: &Vec<Vec<char>>, a: usize, b: usize)
    requires
        a <= b <= cs.len(),
    ensures
        ranges(final(out)@) == ranges(old(out)@) + seeded(
            cs@,
            seeds.deep_view(),
            a as int,
            b as int,
        ),
{
    let ghost sv = seeds.deep_view();
    let ghost start = ranges(out@);
    let ghost want = seeded(cs@, sv, a as int, b as int);
    let mut i: usize = a;
    while i < b
        invariant
            sv == seeds.deep_view(),
            i <= b <= cs.len(),
            start + want == ranges(out@) + seeded(cs@, sv, i as int, b as int),
        decreases b - i,
    {
        let e: usize = find_word_end(cs, seeds, i, b);
        let ghost before = ranges(out@);
        out.push((i, e));
        assert(ranges(out@) =~= before.push((i as int, e as int)));
        assert(before + seeded(cs@, sv, i as int, b as int) =~= ranges(out@) + seeded(
            cs@,
            sv,
            e as int,
            b as int,
        ));
        i = e;
    }
    assert(ranges(out@) + seeded(cs@, sv, i as int, b as int) =~= ranges(out@));
}

/// Ranges as mathematical numbers.
pub open spec fn ranges(v: Seq<(usize, usize)>) -> Seq<(int, int)> {
    Seq::new(v.len(), |k: int| (v[k].0 as int, v[k].1 as int))
}

/// The words of a text, by their characters.
pub fn split_ranges(cs: &Vec<char>, seeds: &[String]) -> (r: Vec<(usize, usize)>)
    ensures
        ranges(r@) == words_from(cs@, seeds.deep_view(), 0),
        covers_chars(ranges(r@), 0, cs.len() as int),
{
    let ghost s = cs@;
    let ghost sv = seeds.deep_view();
    let words = seed_chars(seeds);
    let ghost want = words_from(s, sv, 0);
    let mut out: Vec<(usize, usize)> = Vec::new();
    let mut i: usize = 0;
    assert(ranges(out@) + words_from(s, sv, 0) =~= want);
    while i < cs.len()
        invariant
            s == cs@,
            sv == words.deep_view(),
            sv.len() == seeds@.len(),
            i <= cs.len(),
            want == ranges(out@) + words_from(s, sv, i as int),
        decreases cs.len() - i,
    {
        let e: usize = find_run_end(cs, i);
        let class = classify(cs[i]);
        let ghost before = ranges(out@);
        if class == CharClass::Cjk && seeds.len() > 0 {
            push_seeded(&mut out, cs, &words, i, e);
        } else if class == CharClass::Space {
            let mut k: usize = i;
            while k < e
                invariant
                    i <= k <= e <= cs.len(),
                    ranges(out@) == before + Seq::new((k - i) as nat, |j: int| (i + j, i + j + 1)),
                decreases e - k,
            {
                let ghost so_far = ranges(out@);
                out.push((k, k + 1));
                assert(ranges(out@) =~= so_far.push((k as int, k + 1)));
                assert(ranges(out@) =~= before + Seq::new(
                    (k + 1 - i) as nat,
                    |j: int| (i + j, i + j + 1),
                ));
                k += 1;
            }
        } else {
            out.push((i, e));
            assert(ranges(out@) =~= before + seq![(i as int, e as int)]);
        }
        assert(ranges(out@) == before + run_words(s, sv, i as int, e as int));
        assert(before + words_from(s, sv, i as int) =~= ranges(out@) + words_from(s, sv, e as int));
        i = e;
    }
    assert(ranges(out@) + words_from(s, sv, i as int) =~= ranges(out@));
    proof {
        law_words_cover(s, sv);
    }
    out
}

/// The words of a text with the bytes that they take.
pub open spec fn words_of(s: Seq<char>, seeds: Seq<Seq<char>>) -> Seq<(Seq<char>, Piece)> {
    let w = words_from(s, seeds, 0);
    Seq::new(w.len(), |k: int| (s.subrange(w[k].0, w[k].1), piece(s, w[k].0, w[k].1)))
}

/// The model of a list of words.
pub open spec fn word_views(v: Seq<(String, Piece)>) -> Seq<(Seq<char>, Piece)> {
    Seq::new(v.len(), |k: int| (v[k].0@, v[k].1))
}

pub proof fn lemma_covers_within(w: Seq<(int, int)>, a: int, b: int, k: int)
    requires
        covers_chars(w, a, b),
        0 <= k < w.len(),
    ensures
        a <= w[k].0 < w[k].1 <= b,
    decreases w.len(),
{
    if w.len() > 1 {
        let front = w.drop_last();
        let m = w[w.len() - 2].1;
        assert(covers_chars(front, a, m)) by {
            assert forall|j: int| 0 <= j < front.len() implies (#[trigger] front[j]).0
                < front[j].1 by {
                assert(front[j] == w[j]);
            }
            assert forall|j: int| 0 <= j < front.len() - 1 implies (#[trigger] front[j]).1
                == front[j + 1].0 by {
                assert(front[j] == w[j] && front[j + 1] == w[j + 1]);
            }
        }
        assert(w[w.len() - 1].0 == m);
        assert(w[w.len() - 1].0 < w[w.len() - 1].1);
        if k < w.len() - 1 {
            lemma_covers_within(front, a, m, k);
            assert(front[k] == w[k]);
        } else if w.len() > 1 {
            lemma_covers_within(front, a, m, 0);
            assert(front[0] == w[0]);
        }
    }
}

/// Splits a text into words: its runs, with runs of Chinese characters split
/// by the seed words, and white space split into characters.
pub fn segment_words(text: &str, seeds: &[String]) -> (r: Vec<(String, Piece)>)
    requires
        seeds_ok(seeds.deep_view()),
    ensures
        word_views(r@) == words_of(text@, seeds.deep_view()),
{
    let cs = to_chars(text);
    let offsets = byte_offsets(text, &cs);
    let spans = split_ranges(&cs, seeds);
    let ghost s = text@;
    let ghost want = words_of(s, seeds.deep_view());
    let ghost w = words_from(s, seeds.deep_view(), 0);
    let mut out: Vec<(String, Piece)> = Vec::new();
    let mut k: usize = 0;
    while k < spans.len()
        invariant
            cs@ == s,
            offsets.len() == cs.len() + 1,
            forall|k: int| 0 <= k <= cs.len() ==> #[trigger] offsets[k] == byte_at(s, k),
            w == words_from(s, seeds.deep_view(), 0),
            want == words_of(s, seeds.deep_view()),
            ranges(spans@) == w,
            covers_chars(w, 0, cs.len() as int),
            k <= spans.len(),
            out.len() == k,
            forall|j: int|
                0 <= j < k ==> (#[trigger] out[j]).0@ == want[j].0 && out[j].1 == want[j].1,
        decreases spans.len() - k,
    {
        let (a, b): (usize, usize) = spans[k];
        assert(w[k as int] == (a as int, b as int));
        proof {
            lemma_covers_within(w, 0, cs.len() as int, k as int);
        }
        assert(offsets[a as int] == byte_at(s, a as int));
        assert(offsets[b as int] == byte_at(s, b as int));
        let word = slice_text(&cs, a, b);
        out.push((word, Piece { start: offsets[a], end: offsets[b], class: classify(cs[a]) }));
        k += 1;
    }
    assert(word_views(out@) =~= want);
    out
}

/// The words of a text split by seed words alone, with their bytes.
pub open spec fn seed_words(s: Seq<char>, seeds: Seq<Seq<char>>) -> Seq<(Seq<char>, usize, usize)> {
    let w = seeded(s, seeds, 0, s.len() as int);
    Seq::new(
        w.len(),
        |k: int|
            (
                s.subrange(w[k].0, w[k].1),
                byte_at(s, w[k].0) as usize,
                byte_at(s, w[k].1) as usize,
            ),
    )
}

/// The model of a list of words with their bytes.
pub open spec fn seed_views(v: Seq<(String, usize, usize)>) -> Seq<(Seq<char>, usize, usize)> {
    Seq::new(v.len(), |k: int| (v[k].0@, v[k].1, v[k].2))
}

/// Splits a text by seed words, the longest first; what no seed word covers
/// is split into characters.
pub fn seed_segment(text: &str, seeds: &[String]) -> (r: Vec<(String, usize, usize)>)
    requires
        seeds_ok(seeds.deep_view()),
    ensures
        seed_views(r@) == seed_words(text@, seeds.deep_view()),
{
    let cs = to_chars(text);
    let offsets = byte_offsets(text, &cs);
    let words = seed_chars(seeds);
    let ghost s = text@;
    let mut spans: Vec<(usize, usize)> = Vec::new();
    push_seeded(&mut spans, &cs, &words, 0, cs.len());
    let ghost w = seeded(s, seeds.deep_view(), 0, s.len() as int);
    let ghost want = seed_words(s, seeds.deep_view());
    proof {
        assert(ranges(spans@) =~= w);
        lemma_seeded_covers(s, seeds.deep_view(), 0, s.len() as int);
    }
    let mut out: Vec<(String, usize, usize)> = Vec::new();
    let mut k: usize = 0;
    while k < spans.len()
        invariant
            cs@ == s,
            offsets.len() == cs.len() + 1,
            forall|k: int| 0 <= k <= cs.len() ==> #[trigger] offsets[k] == byte_at(s, k),
            w == seeded(s, seeds.deep_view(), 0, s.len() as int),
            want == seed_words(s, seeds.deep_view()),
            ranges(spans@) == w,
            covers_chars(w, 0, cs.len() as int),
            k <= spans.len(),
            out.len() == k,
            forall|j: int|
                0 <= j < k ==> (#[trigger] out[j]).0@ == want[j].0 && out[j].1 == want[j].1
                    && out[j].2 == want[j].2,
        decreases spans.len() - k,
    {
        let (a, b): (usize, usize) = spans[k];
        assert(w[k as int] == (a as int, b as int));
        proof {
            lemma_covers_within(w, 0, cs.len() as int, k as int);
        }
        assert(offsets[a as int] == byte_at(s, a as int));
        assert(offsets[b as int] == byte_at(s, b as int));
        out.push((slice_text(&cs, a, b), offsets[a], offsets[b]));
        k += 1;
    }
    assert(seed_views(out@) =~= want);
    out
}

} // verus!
