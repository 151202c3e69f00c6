//! What is encoded is decoded.
use vstd::arithmetic::div_mod::{lemma_div_denominator, lemma_small_mod};
use vstd::prelude::*;
use vstd::seq_lib::{commutative_foldr, group_to_multiset_ensures, lemma_fold_right_permutation};

use crate::common::bits::{
    bit_or_zero, digits, filled, lemma_digit, lemma_digits_len,
};
use crate::common::huffman::codes::{
    canon, codes_fit, codes_of, key_len, key_symbol, lemma_ranked, lemma_unpack, pack, packed,
    ranked, Code,
};
use crate::common::huffman::stream::{
    by_symbol, coded, count_len, counts_fit, decodable, decoded, first_code, from_le4,
    header_bytes, header_count, header_ok, header_table, le4, lemma_ranked_permutation,
    lemma_short, lemma_symbol_order, next_symbol, of_len, onward, symbol_bytes, table_of,
};
use crate::common::huffman::tree::{
    ascends, law_lengths_fill, law_lengths_symbols, lengths_of, listed, share, shares, total_freq,
};
use crate::float::{lemma_two_add, lemma_two_mono, two};

verus! {

/// The sum of the shares of the first `n` ranks.
pub open spec fn rank_shares(s: Seq<u64>, n: int) -> nat
    decreases n,
{
    if n <= 0 {
        0
    } else {
        rank_shares(s, n - 1) + share(key_len(s[n - 1]) as int)
    }
}

/// Whether ranked symbols are those of a prefix code with codes of at most 31
/// bits.
pub open spec fn prefix_code(s: Seq<u64>) -> bool {
    &&& forall|i: int, j: int| 0 <= i < j < s.len() ==> #[trigger] s[i] < #[trigger] s[j]
    &&& forall|i: int| 0 <= i < s.len() ==> 1 <= key_len(#[trigger] s[i]) <= 31
    &&& forall|i: int, j: int|
        0 <= i < s.len() && 0 <= j < s.len() && i != j ==> key_symbol(#[trigger] s[i])
            != key_symbol(#[trigger] s[j])
    &&& rank_shares(s, s.len() as int) <= two(32)
}

/// Whether ranked symbols have lengths of at most 32 bits that fill no more
/// than the whole.
pub open spec fn fitting(s: Seq<u64>) -> bool {
    &&& forall|i: int, j: int| 0 <= i < j < s.len() ==> #[trigger] s[i] <= #[trigger] s[j]
    &&& forall|i: int| 0 <= i < s.len() ==> 1 <= key_len(#[trigger] s[i]) <= 32
    &&& rank_shares(s, s.len() as int) <= two(32)
}

/// Whether a symbol has a rank.
pub open spec fn known(s: Seq<u64>, x: u32) -> bool {
    exists|k: int| 0 <= k < s.len() && key_symbol(#[trigger] s[k]) == x
}

proof fn lemma_powers()
    ensures
        two(1) == 2,
        two(30) == 0x4000_0000,
        two(31) == 0x8000_0000,
        two(32) == 0x1_0000_0000,
{
    reveal_with_fuel(two, 33);
}

proof fn lemma_shares_mono(s: Seq<u64>, a: int, b: int)
    requires
        0 <= a <= b,
    ensures
        rank_shares(s, a) <= rank_shares(s, b),
    decreases b,
{
    if a < b {
        lemma_shares_mono(s, a, b - 1);
    }
}

proof fn lemma_share_split(small: int, large: int)
    requires
        0 <= small <= large <= 32,
    ensures
        share(small) == share(large) * two((large - small) as nat),
        share(large) > 0,
{
    lemma_two_add((32 - large) as nat, (large - small) as nat);
    lemma_two_mono(0, (32 - large) as nat);
}

proof fn lemma_len_mono(s: Seq<u64>, i: int, j: int)
    requires
        fitting(s),
        0 <= i <= j < s.len(),
    ensures
        key_len(s[i]) <= key_len(s[j]),
{
    if i < j {
        assert(s[i] <= s[j]);
    }
}

/// A code is the sum of the shares before it, in units of its own share.
proof fn lemma_canon(s: Seq<u64>, k: int)
    requires
        prefix_code(s),
        0 <= k < s.len(),
    ensures
        canon(s, k) * share(key_len(s[k]) as int) == rank_shares(s, k),
        canon(s, k) < two(key_len(s[k])),
    decreases k,
{
    let l = key_len(s[k]) as int;
    let u = share(l);
    lemma_shares_mono(s, k + 1, s.len() as int);
    lemma_share_split(0, l);
    assert(rank_shares(s, k) + u <= two(32));
    assert(1 <= l <= 31);
    let x: nat = if k == 0 {
        0
    } else {
        (canon(s, k - 1) + 1) * two((l - key_len(s[k - 1])) as nat)
    };
    if k > 0 {
        lemma_canon(s, k - 1);
        lemma_len_mono(s, k - 1, k);
        let p = key_len(s[k - 1]) as int;
        lemma_share_split(p, l);
        let c = canon(s, k - 1);
        let t = two((l - p) as nat);
        assert((c + 1) * share(p) == c * share(p) + share(p)) by (nonlinear_arith);
        assert(((c + 1) * t) * u == (c + 1) * share(p)) by (nonlinear_arith)
            requires
                share(p) == u * t,
        ;
        assert(x * u == rank_shares(s, k));
    } else {
        assert(0 * u == 0);
    }
    assert(x < two(l as nat)) by (nonlinear_arith)
        requires
            x * u + u <= two(32),
            two(32) == u * two(l as nat),
            u > 0,
    ;
    lemma_two_mono(l as nat, 32);
    lemma_powers();
    lemma_small_mod(x, 0x1_0000_0000);
    assert(canon(s, k) == x);
}

/// The number of ranks with a length below `l`, among the first `n`.
spec fn shorter(s: Seq<u64>, l: int, n: int) -> int
    decreases n,
{
    if n <= 0 {
        0
    } else if key_len(s[n - 1]) < l {
        n
    } else {
        shorter(s, l, n - 1)
    }
}

proof fn lemma_shorter(s: Seq<u64>, l: int, n: int)
    requires
        fitting(s),
        0 <= n <= s.len(),
    ensures
        0 <= shorter(s, l, n) <= n,
        forall|k: int| 0 <= k < n ==> (key_len(#[trigger] s[k]) < l <==> k < shorter(s, l, n)),
    decreases n,
{
    if n > 0 {
        if key_len(s[n - 1]) < l {
            assert forall|k: int| 0 <= k < n implies key_len(#[trigger] s[k]) < l by {
                lemma_len_mono(s, k, n - 1);
            }
        } else {
            lemma_shorter(s, l, n - 1);
        }
    }
}

/// The number of ranks with a length below `l`.
spec fn cut(s: Seq<u64>, l: int) -> int {
    shorter(s, l, s.len() as int)
}

proof fn lemma_cut(s: Seq<u64>, l: int)
    requires
        fitting(s),
    ensures
        0 <= cut(s, l) <= cut(s, l + 1) <= s.len(),
        forall|k: int|
            0 <= k < s.len() ==> (key_len(#[trigger] s[k]) == l <==> cut(s, l) <= k < cut(s, l + 1)),
        forall|k: int| 0 <= k < s.len() ==> (key_len(#[trigger] s[k]) < l <==> k < cut(s, l)),
{
    let n = s.len() as int;
    lemma_shorter(s, l, n);
    lemma_shorter(s, l + 1, n);
    if cut(s, l) > cut(s, l + 1) {
        let k = cut(s, l + 1);
        assert(key_len(s[k]) < l);
        assert(false);
    }
}

proof fn lemma_of_len(s: Seq<u64>, l: int, m: int)
    requires
        fitting(s),
        0 <= m <= s.len(),
    ensures
        of_len(s, l, m).len() == if m <= cut(s, l) {
            0
        } else if m <= cut(s, l + 1) {
            m - cut(s, l)
        } else {
            cut(s, l + 1) - cut(s, l)
        },
        forall|j: int|
            0 <= j < of_len(s, l, m).len() ==> #[trigger] of_len(s, l, m)[j] == key_symbol(
                s[cut(s, l) + j],
            ),
    decreases m,
{
    lemma_cut(s, l);
    if m > 0 {
        lemma_of_len(s, l, m - 1);
        assert(key_len(s[m - 1]) == l <==> cut(s, l) <= m - 1 < cut(s, l + 1));
    }
}

proof fn lemma_shares_between(s: Seq<u64>, l: int, a: int, b: int)
    requires
        0 <= a <= b <= s.len(),
        forall|k: int| a <= k < b ==> key_len(#[trigger] s[k]) == l,
    ensures
        rank_shares(s, b) == rank_shares(s, a) + (b - a) * share(l),
    decreases b,
{
    if a < b {
        lemma_shares_between(s, l, a, b - 1);
        assert((b - 1 - a) * share(l) + share(l) == (b - a) * share(l)) by (nonlinear_arith);
    } else {
        assert((b - a) * share(l) == 0) by (nonlinear_arith)
            requires
                b == a,
        ;
    }
}

/// The first code of a length is the sum of the shares of shorter codes.
proof fn lemma_first(s: Seq<u64>, l: int)
    requires
        fitting(s),
        0 <= l <= 31,
    ensures
        first_code(s, l) * share(l) == rank_shares(s, cut(s, l)),
        (first_code(s, l) + count_len(s, l)) * share(l) == rank_shares(s, cut(s, l + 1)),
        count_len(s, l) == cut(s, l + 1) - cut(s, l),
        first_code(s, l) + count_len(s, l) <= two(l as nat),
    decreases l,
{
    let n = s.len() as int;
    lemma_cut(s, l);
    lemma_of_len(s, l, n);
    lemma_share_split(0, l);
    let u = share(l);
    if l == 0 {
        if cut(s, 0) > 0 {
            assert(key_len(s[0]) < 0);
        }
        assert(0 * u == 0);
    } else {
        lemma_first(s, l - 1);
        lemma_cut(s, l - 1);
        lemma_share_split(l - 1, l);
        lemma_powers();
        let y = (first_code(s, l - 1) + count_len(s, l - 1)) * 2;
        assert(y * u == rank_shares(s, cut(s, l))) by (nonlinear_arith)
            requires
                y == (first_code(s, l - 1) + count_len(s, l - 1)) * 2,
                (first_code(s, l - 1) + count_len(s, l - 1)) * share(l - 1) == rank_shares(
                    s,
                    cut(s, l),
                ),
                share(l - 1) == u * 2,
        ;
        lemma_two_mono((l - 1) as nat, 30);
        lemma_powers();
        lemma_small_mod(y, 0x1_0000_0000);
        assert(first_code(s, l) == y);
    }
    assert forall|k: int| cut(s, l) <= k < cut(s, l + 1) implies key_len(#[trigger] s[k]) == l by {}
    lemma_shares_between(s, l, cut(s, l), cut(s, l + 1));
    let (f, c) = (first_code(s, l), count_len(s, l));
    lemma_shares_mono(s, cut(s, l + 1), n);
    lemma_first_bound(f, c, u, two(l as nat));
}

proof fn lemma_first_bound(f: nat, c: nat, u: nat, t: nat)
    requires
        f * u + c * u <= two(32),
        two(32) == u * t,
        u > 0,
    ensures
        (f + c) * u == f * u + c * u,
        f + c <= t,
{
    assert((f + c) * u == f * u + c * u) by (nonlinear_arith);
    assert(f + c <= t) by (nonlinear_arith)
        requires
            (f + c) * u <= u * t,
            u > 0,
    ;
}

/// Codes that fit can be decoded with.
proof fn lemma_counts_fit(s: Seq<u64>)
    requires
        fitting(s),
    ensures
        counts_fit(s),
{
    assert forall|l: int| 0 <= l <= 31 implies #[trigger] first_code(s, l) + count_len(s, l)
        <= u32::MAX by {
        lemma_first(s, l);
        lemma_two_mono(l as nat, 31);
        lemma_powers();
    }
}

/// A prefix code has canonical codes.
proof fn lemma_codes_fit(s: Seq<u64>)
    requires
        prefix_code(s),
    ensures
        codes_fit(s),
{
    assert forall|k: int| 0 <= k < s.len() implies #[trigger] canon(s, k) < u32::MAX by {
        lemma_canon(s, k);
        lemma_two_mono(key_len(s[k]), 31);
        lemma_powers();
    }
    assert forall|k: int| 0 < k < s.len() implies key_len(#[trigger] s[k]) < key_len(s[k - 1])
        + 32 by {
        assert(key_len(s[k - 1]) >= 1);
    }
}

/// Where a code stands, its symbol is found.
proof fn lemma_find(s: Seq<u64>, bits: Seq<bool>, at: int, k: int, j: int)
    requires
        prefix_code(s),
        0 <= k < s.len(),
        0 <= at,
        0 <= j < key_len(s[k]),
        at + key_len(s[k]) <= bits.len(),
        bits.subrange(at, at + key_len(s[k])) == digits(canon(s, k), key_len(s[k])),
    ensures
        next_symbol(s, bits, at, j, canon(s, k) / two((key_len(s[k]) - j) as nat)) == Some(
            (key_symbol(s[k]), key_len(s[k]) as int),
        ),
    decreases key_len(s[k]) - j,
{
    let len = key_len(s[k]) as int;
    let code = canon(s, k);
    let l = j + 1;
    let v = code / two((len - l) as nat);
    lemma_canon(s, k);
    lemma_digit(code, len as nat, j);
    assert(bits[at + j] == bits.subrange(at, at + len)[j]);
    lemma_two_mono(0, (len - l) as nat);
    lemma_div_denominator(code as int, two((len - l) as nat) as int, 2);
    assert(two((len - j) as nat) == 2 * two((len - l) as nat));
    assert(two((len - l) as nat) * 2 == two((len - j) as nat));
    let above = code / two((len - j) as nat);
    assert(above == v / 2);
    let c = 2 * above + if bit_or_zero(bits, at + j) {
        1nat
    } else {
        0nat
    };
    assert(c == v);
    lemma_first(s, l);
    lemma_cut(s, l);
    lemma_share_split(l, len);
    let (f, n, u) = (first_code(s, l), count_len(s, l), share(len));
    if l == len {
        assert(two(0) == 1);
        assert(v == code);
        assert(cut(s, l) <= k < cut(s, l + 1));
        assert forall|i: int| cut(s, l) <= i < k implies key_len(#[trigger] s[i]) == l by {}
        lemma_shares_between(s, l, cut(s, l), k);
        let d = k - cut(s, l);
        assert(code == f + d) by (nonlinear_arith)
            requires
                code * u == f * u + d * u,
                u > 0,
        ;
        lemma_of_len(s, l, s.len() as int);
        assert(of_len(s, l, s.len() as int)[d] == key_symbol(s[cut(s, l) + d]));
    } else {
        assert(cut(s, l + 1) <= k) by {
            lemma_cut(s, l + 1);
            assert(!(key_len(s[k]) < l + 1));
        }
        lemma_shares_mono(s, cut(s, l + 1), k);
        let t = two((len - l) as nat);
        let sum = f + n;
        assert(sum * t <= code) by (nonlinear_arith)
            requires
                sum * share(l) <= code * u,
                share(l) == u * t,
                u > 0,
        ;
        assert(sum <= code as int / t as int) by (nonlinear_arith)
            requires
                sum * t <= code,
                t > 0,
                sum >= 0,
        ;
        assert(!(f <= c < f + n));
        lemma_find(s, bits, at, k, l);
    }
}

proof fn lemma_codes(s: Seq<u64>, n: int, k: int)
    requires
        prefix_code(s),
        0 <= k < n <= s.len(),
    ensures
        codes_of(s, n).contains_key(key_symbol(s[k])),
        codes_of(s, n)[key_symbol(s[k])] == (Code {
            len: key_len(s[k]) as u8,
            bits: canon(s, k) as u32,
        }),
    decreases n,
{
    if k < n - 1 {
        lemma_codes(s, n - 1, k);
        assert(key_symbol(s[k]) != key_symbol(s[n - 1]));
    }
}

proof fn lemma_coded_front(codes: Map<u32, Code>, symbols: Seq<u32>, i: int, n: int)
    requires
        0 <= i <= n,
    ensures
        coded(codes, symbols, i).len() <= coded(codes, symbols, n).len(),
        coded(codes, symbols, n).subrange(0, coded(codes, symbols, i).len() as int) == coded(
            codes,
            symbols,
            i,
        ),
    decreases n,
{
    let part = coded(codes, symbols, i);
    if i < n {
        lemma_coded_front(codes, symbols, i, n - 1);
        let c = codes[symbols[n - 1]];
        let all = coded(codes, symbols, n);
        assert(all.subrange(0, part.len() as int) =~= coded(codes, symbols, n - 1).subrange(
            0,
            part.len() as int,
        ));
    } else {
        assert(part.subrange(0, part.len() as int) =~= part);
    }
}

proof fn lemma_code_at(s: Seq<u64>, symbols: Seq<u32>, i: int) -> (k: int)
    requires
        prefix_code(s),
        0 <= i < symbols.len(),
        known(s, symbols[i]),
    ensures
        0 <= k < s.len(),
        key_symbol(s[k]) == symbols[i],
        ({
            let codes = codes_of(s, s.len() as int);
            let bits = filled(coded(codes, symbols, symbols.len() as int));
            let at = coded(codes, symbols, i).len() as int;
            &&& coded(codes, symbols, i + 1).len() == at + key_len(s[k])
            &&& at + key_len(s[k]) <= bits.len()
            &&& bits.subrange(at, at + key_len(s[k])) == digits(canon(s, k), key_len(s[k]))
        }),
{
    let codes = codes_of(s, s.len() as int);
    let m = symbols.len() as int;
    let all = coded(codes, symbols, m);
    let bits = filled(all);
    let part = coded(codes, symbols, i);
    let at = part.len() as int;
    let k = choose|k: int| 0 <= k < s.len() && key_symbol(#[trigger] s[k]) == symbols[i];
    lemma_codes(s, s.len() as int, k);
    lemma_canon(s, k);
    let len = key_len(s[k]) as int;
    lemma_two_mono(len as nat, 31);
    lemma_powers();
    let word = digits(canon(s, k), len as nat);
    lemma_digits_len(canon(s, k), len as nat);
    let more = coded(codes, symbols, i + 1);
    assert(more == part + word);
    lemma_coded_front(codes, symbols, i + 1, m);
    lemma_word_within(all, bits, part, word);
    k
}

proof fn lemma_word_within(all: Seq<bool>, bits: Seq<bool>, part: Seq<bool>, word: Seq<bool>)
    requires
        bits == filled(all),
        part.len() + word.len() <= all.len(),
        all.subrange(0, (part + word).len() as int) == part + word,
    ensures
        part.len() + word.len() <= bits.len(),
        bits.subrange(part.len() as int, (part.len() + word.len()) as int) == word,
{
    let at = part.len() as int;
    let mid = bits.subrange(at, at + word.len());
    assert forall|j: int| 0 <= j < word.len() implies mid[j] == word[j] by {
        assert(bits[at + j] == all[at + j]);
        assert(all[at + j] == all.subrange(0, (part + word).len() as int)[at + j]);
        assert((part + word)[at + j] == word[j]);
    }
    assert(mid =~= word);
}

proof fn lemma_decode_rest(s: Seq<u64>, symbols: Seq<u32>, i: int)
    requires
        prefix_code(s),
        0 <= i <= symbols.len(),
        forall|j: int| 0 <= j < symbols.len() ==> known(s, #[trigger] symbols[j]),
    ensures
        ({
            let codes = codes_of(s, s.len() as int);
            let bits = filled(coded(codes, symbols, symbols.len() as int));
            let at = coded(codes, symbols, i).len() as int;
            let n = (symbols.len() - i) as nat;
            decodable(s, bits, at, n) && decoded(s, bits, at, n) == symbols.subrange(
                i,
                symbols.len() as int,
            )
        }),
    decreases symbols.len() - i,
{
    let codes = codes_of(s, s.len() as int);
    let m = symbols.len() as int;
    let bits = filled(coded(codes, symbols, m));
    let at = coded(codes, symbols, i).len() as int;
    if i < m {
        let k = lemma_code_at(s, symbols, i);
        lemma_canon(s, k);
        let len = key_len(s[k]) as int;
        lemma_find(s, bits, at, k, 0);
        lemma_two_mono(0, len as nat);
        assert(canon(s, k) / two((len - 0) as nat) == 0) by {
            vstd::arithmetic::div_mod::lemma_basic_div(canon(s, k) as int, two(len as nat) as int);
        }
        lemma_decode_rest(s, symbols, i + 1);
        assert(onward(bits, at, len) == coded(codes, symbols, i + 1).len());
        assert(seq![symbols[i]] + symbols.subrange(i + 1, m) =~= symbols.subrange(i, m));
    } else {
        assert(symbols.subrange(i, m) =~= Seq::<u32>::empty());
    }
}

/// Decoding undoes encoding with any prefix code.
pub proof fn law_decode_encoded(s: Seq<u64>, symbols: Seq<u32>)
    requires
        prefix_code(s),
        forall|j: int| 0 <= j < symbols.len() ==> known(s, #[trigger] symbols[j]),
    ensures
        ({
            let codes = codes_of(s, s.len() as int);
            let bits = filled(coded(codes, symbols, symbols.len() as int));
            decodable(s, bits, 0, symbols.len()) && decoded(s, bits, 0, symbols.len()) == symbols
        }),
{
    lemma_decode_rest(s, symbols, 0);
    assert(symbols.subrange(0, symbols.len() as int) =~= symbols);
}

// The table in a header.

proof fn lemma_le4(n: u32, h: Seq<u8>, i: int)
    requires
        0 <= i,
        i + 4 <= h.len(),
        h.subrange(i, i + 4) == le4(n),
    ensures
        from_le4(h, i) == n,
{
    let w = h.subrange(i, i + 4);
    assert(h[i] == w[0] && h[i + 1] == w[1] && h[i + 2] == w[2] && h[i + 3] == w[3]);
    assert(n == n % 256 + (n / 256) % 256 * 256 + (n / 65536) % 256 * 65536 + n / 16777216
        * 16777216) by (bit_vector);
}

proof fn lemma_symbol_bytes(t: Seq<(u32, u8)>, n: int)
    requires
        0 <= n <= t.len(),
    ensures
        symbol_bytes(t, n).len() == 4 * n,
        forall|i: int|
            0 <= i < n ==> symbol_bytes(t, n).subrange(4 * i, 4 * i + 4) == #[trigger] le4(t[i].0),
    decreases n,
{
    if n > 0 {
        lemma_symbol_bytes(t, n - 1);
        let front = symbol_bytes(t, n - 1);
        let all = symbol_bytes(t, n);
        assert forall|i: int| 0 <= i < n implies all.subrange(4 * i, 4 * i + 4) == #[trigger] le4(
            t[i].0,
        ) by {
            if i < n - 1 {
                assert(all.subrange(4 * i, 4 * i + 4) =~= front.subrange(4 * i, 4 * i + 4));
            } else {
                assert(all.subrange(4 * i, 4 * i + 4) =~= le4(t[i].0));
            }
        }
    }
}

/// Reading a header gives back the table that it was made of.
pub proof fn law_header_roundtrip(t: Seq<(u32, u8)>)
    requires
        t.len() <= u32::MAX,
    ensures
        header_bytes(t).len() == 4 + 5 * t.len(),
        header_count(header_bytes(t)) == t.len(),
        header_table(header_bytes(t)) == t,
{
    let h = header_bytes(t);
    let n = t.len() as int;
    lemma_symbol_bytes(t, n);
    let first = le4(t.len() as u32);
    let syms = symbol_bytes(t, n);
    assert(h.subrange(0, 4) =~= first);
    lemma_le4(t.len() as u32, h, 0);
    let r = header_table(h);
    assert forall|i: int| 0 <= i < n implies r[i] == t[i] by {
        assert(syms.subrange(4 * i, 4 * i + 4) == le4(t[i].0));
        assert(h.subrange(4 + 4 * i, 4 + 4 * i + 4) =~= syms.subrange(4 * i, 4 * i + 4));
        lemma_le4(t[i].0, h, 4 + 4 * i);
        assert(h[4 + 4 * n + i] == t[i].1);
    }
    assert(r =~= t);
}

// The lengths that frequencies give are those of a prefix code.

spec fn add_share() -> spec_fn(u64, nat) -> nat {
    |k: u64, sum: nat| sum + share(key_len(k) as int)
}

proof fn lemma_fold_shares(s: Seq<u64>, b: nat)
    ensures
        s.fold_right(add_share(), b) == rank_shares(s, s.len() as int) + b,
    decreases s.len(),
{
    if s.len() > 0 {
        let f = add_share();
        lemma_fold_shares(s.drop_last(), f(s.last(), b));
        lemma_shares_prefix(s, s.len() - 1);
    }
}

proof fn lemma_shares_prefix(s: Seq<u64>, n: int)
    requires
        0 <= n < s.len(),
    ensures
        rank_shares(s.drop_last(), n) == rank_shares(s, n),
    decreases n,
{
    if n > 0 {
        lemma_shares_prefix(s, n - 1);
    }
}

proof fn lemma_packed_shares(lengths: Seq<(u32, u8)>, n: int)
    requires
        0 <= n <= lengths.len(),
        forall|i: int| 0 <= i < lengths.len() ==> (#[trigger] lengths[i]).1 > 0,
    ensures
        packed(lengths, n).len() == n,
        forall|i: int|
            0 <= i < n ==> #[trigger] packed(lengths, n)[i] == pack(lengths[i].0, lengths[i].1),
        rank_shares(packed(lengths, n), n) == shares(lengths, n),
    decreases n,
{
    if n > 0 {
        lemma_packed_shares(lengths, n - 1);
        let all = packed(lengths, n);
        assert(all.drop_last() =~= packed(lengths, n - 1));
        lemma_shares_prefix(all, n - 1);
        lemma_unpack(lengths[n - 1].0, lengths[n - 1].1);
    }
}

/// The sum of the shares of the first `n` entries of a table. An entry without
/// a length has no code and no share.
pub open spec fn used_shares(t: Seq<(u32, u8)>, n: int) -> nat
    decreases n,
{
    if n <= 0 {
        0
    } else if t[n - 1].1 > 0 {
        used_shares(t, n - 1) + share(t[n - 1].1 as int)
    } else {
        used_shares(t, n - 1)
    }
}

proof fn lemma_packed_used(t: Seq<(u32, u8)>, n: int)
    requires
        0 <= n <= t.len(),
    ensures
        rank_shares(packed(t, n), packed(t, n).len() as int) == used_shares(t, n),
    decreases n,
{
    if n > 0 {
        lemma_packed_used(t, n - 1);
        if t[n - 1].1 > 0 {
            let all = packed(t, n);
            assert(all.drop_last() =~= packed(t, n - 1));
            lemma_shares_prefix(all, all.len() - 1);
            lemma_unpack(t[n - 1].0, t[n - 1].1);
        }
    }
}

/// A header that is long enough for its table can be decoded with where the
/// lengths are at most 32 and the codes fill no more than the whole.
pub proof fn law_header_fits(h: Seq<u8>)
    requires
        h.len() >= 4,
        h.len() >= 4 + 5 * header_count(h),
        forall|i: int| 0 <= i < header_table(h).len() ==> (#[trigger] header_table(h)[i]).1 <= 32,
        used_shares(header_table(h), header_table(h).len() as int) <= two(32),
    ensures
        header_ok(h),
{
    let t = header_table(h);
    let n = t.len() as int;
    let all = packed(t, n);
    let s = ranked(t);
    lemma_packed_used(t, n);
    lemma_ranked(t);
    assert(commutative_foldr(add_share()));
    lemma_fold_right_permutation(s, all, add_share(), 0);
    lemma_fold_shares(s, 0);
    lemma_fold_shares(all, 0);
    assert forall|i: int| 0 <= i < s.len() implies 1 <= key_len(#[trigger] s[i]) <= 32 by {
        lemma_short(t, s, i);
    }
    lemma_counts_fit(s);
}

/// What stands behind the table of a header has no effect.
pub proof fn law_header_tail(h: Seq<u8>, rest: Seq<u8>)
    requires
        h.len() >= 4,
        h.len() >= 4 + 5 * header_count(h),
    ensures
        header_table(h + rest) == header_table(h),
        header_ok(h + rest) == header_ok(h),
{
    let g = h + rest;
    let (t, u) = (header_table(h), header_table(g));
    assert(header_count(g) == header_count(h));
    assert forall|i: int| 0 <= i < t.len() implies u[i] == t[i] by {}
    assert(u =~= t);
}

/// Symbols that occur once, with lengths that fill no more than the whole,
/// are those of a prefix code.
pub proof fn lemma_prefix_code(lengths: Seq<(u32, u8)>)
    requires
        listed(lengths).no_duplicates(),
        forall|i: int| 0 <= i < lengths.len() ==> 1 <= (#[trigger] lengths[i]).1 <= 31,
        shares(lengths, lengths.len() as int) <= two(32),
    ensures
        prefix_code(ranked(lengths)),
        ranked(lengths).len() == lengths.len(),
        forall|i: int|
            0 <= i < lengths.len() ==> ranked(lengths).contains(
                pack((#[trigger] lengths[i]).0, lengths[i].1),
            ),
{
    broadcast use group_to_multiset_ensures;

    let n = lengths.len() as int;
    let all = packed(lengths, n);
    let s = ranked(lengths);
    lemma_packed_shares(lengths, n);
    lemma_ranked(lengths);
    assert(commutative_foldr(add_share()));
    lemma_fold_right_permutation(s, all, add_share(), 0);
    lemma_fold_shares(s, 0);
    lemma_fold_shares(all, 0);
    assert(s.to_multiset().len() == all.to_multiset().len());
    assert forall|i: int, j: int| 0 <= i < n && 0 <= j < n && i != j implies key_symbol(
        #[trigger] all[i],
    ) != key_symbol(#[trigger] all[j]) by {
        lemma_unpack(lengths[i].0, lengths[i].1);
        lemma_unpack(lengths[j].0, lengths[j].1);
        assert(listed(lengths)[i] != listed(lengths)[j]);
    }
    assert(all.no_duplicates());
    all.lemma_multiset_has_no_duplicates();
    s.lemma_multiset_has_no_duplicates_conv();
    assert forall|i: int| 0 <= i < s.len() implies 1 <= key_len(#[trigger] s[i]) <= 31 by {
        assert(s.to_multiset().count(s[i]) > 0);
        assert(all.contains(s[i]));
        let j = all.index_of(s[i]);
        assert(all[j] == pack(lengths[j].0, lengths[j].1));
        lemma_unpack(lengths[j].0, lengths[j].1);
    }
    assert forall|i: int, j: int| 0 <= i < s.len() && 0 <= j < s.len() && i != j implies key_symbol(
        #[trigger] s[i],
    ) != key_symbol(#[trigger] s[j]) by {
        assert(s.to_multiset().count(s[i]) > 0 && s.to_multiset().count(s[j]) > 0);
        assert(all.contains(s[i]) && all.contains(s[j]));
        let a = all.index_of(s[i]);
        let b = all.index_of(s[j]);
        assert(s[i] != s[j]);
        assert(key_symbol(all[a]) != key_symbol(all[b]));
    }
    assert forall|i: int| 0 <= i < n implies s.contains(
        pack((#[trigger] lengths[i]).0, lengths[i].1),
    ) by {
        assert(all[i] == pack(lengths[i].0, lengths[i].1));
        assert(all.to_multiset().count(all[i]) > 0);
    }
}

proof fn lemma_few(lengths: Seq<(u32, u8)>, n: int)
    requires
        0 <= n <= lengths.len(),
        forall|i: int| 0 <= i < lengths.len() ==> (#[trigger] lengths[i]).1 <= 31,
    ensures
        shares(lengths, n) >= 2 * n,
    decreases n,
{
    if n > 0 {
        lemma_few(lengths, n - 1);
        lemma_two_mono(1, (32 - lengths[n - 1].1) as nat);
        lemma_powers();
    }
}

/// Whether a table of frequencies has finitely many symbols, and frequencies
/// and codes that fit: the frequencies sum up to 64 bits, and no code is
/// longer than 31 bits.
pub open spec fn usable(freqs: Map<u32, u64>) -> bool {
    &&& exists|s: Seq<u32>| ascends(s) && #[trigger] s.to_set() == freqs.dom()
    &&& total_freq(freqs) <= u64::MAX
    &&& forall|k: int|
        0 <= k < lengths_of(freqs).len() ==> (#[trigger] lengths_of(freqs)[k]).1 <= 31
}

/// The table of usable frequencies is that of a prefix code in which the
/// symbols that occur have a rank.
proof fn lemma_usable(freqs: Map<u32, u64>)
    requires
        usable(freqs),
    ensures
        prefix_code(ranked(table_of(freqs))),
        ranked(table_of(freqs)) == ranked(lengths_of(freqs)),
        table_of(freqs).len() <= u32::MAX,
        forall|i: int| 0 <= i < table_of(freqs).len() ==> (#[trigger] table_of(freqs)[i]).1 <= 31,
        forall|x: u32|
            freqs.contains_key(x) && freqs[x] > 0 ==> #[trigger] known(ranked(table_of(freqs)), x),
{
    broadcast use group_to_multiset_ensures;

    let lengths = lengths_of(freqs);
    let t = table_of(freqs);
    law_lengths_symbols(freqs);
    law_lengths_fill(freqs, 32);
    lemma_prefix_code(lengths);
    lemma_symbol_order();
    lengths.lemma_sort_by_ensures(by_symbol());
    lemma_ranked_permutation(t, lengths);
    let s = ranked(t);
    lemma_few(lengths, lengths.len() as int);
    lemma_powers();
    assert(t.to_multiset().len() == lengths.to_multiset().len());
    assert forall|i: int| 0 <= i < t.len() implies (#[trigger] t[i]).1 <= 31 by {
        assert(t.to_multiset().count(t[i]) > 0);
        assert(lengths.contains(t[i]));
        let j = lengths.index_of(t[i]);
        assert(lengths[j].1 <= 31);
    }
    assert forall|x: u32| freqs.contains_key(x) && freqs[x] > 0 implies #[trigger] known(s, x) by {
        assert(listed(lengths).contains(x));
        let i = listed(lengths).index_of(x);
        assert(lengths[i].0 == x);
        let key = pack(lengths[i].0, lengths[i].1);
        assert(s.contains(key));
        lemma_unpack(lengths[i].0, lengths[i].1);
        let k = s.index_of(key);
        assert(key_symbol(s[k]) == x);
    }
}

/// What an encoder encodes, a decoder with its header decodes: for every
/// table of frequencies whose codes fit, and all symbols that occur in it,
/// the encoder can be made, it has a code for every symbol, its header can be
/// read, and decoding as many symbols as were encoded gives these back.
pub proof fn law_huffman_roundtrip(freqs: Map<u32, u64>, symbols: Seq<u32>)
    requires
        usable(freqs),
        forall|j: int|
            0 <= j < symbols.len() ==> freqs.contains_key(#[trigger] symbols[j])
                && freqs[symbols[j]] > 0,
    ensures
        codes_fit(ranked(lengths_of(freqs))),
        header_ok(header_bytes(table_of(freqs))),
        header_table(header_bytes(table_of(freqs))) == table_of(freqs),
        ({
            let s = ranked(table_of(freqs));
            let codes = codes_of(s, s.len() as int);
            let bits = filled(coded(codes, symbols, symbols.len() as int));
            &&& forall|j: int|
                0 <= j < symbols.len() ==> codes.contains_key(#[trigger] symbols[j])
            &&& decodable(s, bits, 0, symbols.len())
            &&& decoded(s, bits, 0, symbols.len()) == symbols
        }),
{
    let t = table_of(freqs);
    lemma_usable(freqs);
    let s = ranked(t);
    lemma_codes_fit(s);
    lemma_counts_fit(s);
    law_header_roundtrip(t);
    let h = header_bytes(t);
    assert forall|i: int| 0 <= i < t.len() implies (#[trigger] header_table(h)[i]).1 <= 32 by {
        assert(t[i].1 <= 31);
    }
    law_decode_encoded(s, symbols);
    let codes = codes_of(s, s.len() as int);
    assert forall|j: int| 0 <= j < symbols.len() implies codes.contains_key(
        #[trigger] symbols[j],
    ) by {
        assert(known(s, symbols[j]));
        let k = choose|k: int| 0 <= k < s.len() && key_symbol(#[trigger] s[k]) == symbols[j];
        lemma_codes(s, s.len() as int, k);
    }
}

} // verus!
