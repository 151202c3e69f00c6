//! Codes from the lengths of the codes.
use vstd::arithmetic::div_mod::lemma_mul_mod_noop_left;
use vstd::prelude::*;
use vstd::relations::{sorted_by, total_ordering};
use vstd::seq_lib::lemma_sorted_unique;

use crate::float::two;
use crate::table::{sort_numbers, table_insert};

verus! {

/// A code: its length, and its bits as a number.
#[derive(Debug, Clone, Copy, PartialEq, Eq, Structural)]
pub struct Code {
    pub len: u8,
    pub bits: u32,
}

/// A length and a symbol as one number that orders by the length first.
pub open spec fn pack(symbol: u32, len: u8) -> u64 {
    (len * 0x1_0000_0000 + symbol) as u64
}

/// The length in a packed number.
pub open spec fn key_len(k: u64) -> nat {
    k as nat / 0x1_0000_0000
}

/// The symbol in a packed number.
pub open spec fn key_symbol(k: u64) -> u32 {
    (k % 0x1_0000_0000) as u32
}

/// The packed numbers of the first `n` symbols. A symbol of length zero has
/// no code.
pub open spec fn packed(lengths: Seq<(u32, u8)>, n: int) -> Seq<u64>
    decreases n,
{
    if n <= 0 {
        Seq::empty()
    } else if lengths[n - 1].1 > 0 {
        packed(lengths, n - 1).push(pack(lengths[n - 1].0, lengths[n - 1].1))
    } else {
        packed(lengths, n - 1)
    }
}

/// The order of numbers.
pub open spec fn rises() -> spec_fn(u64, u64) -> bool {
    |a: u64, b: u64| a <= b
}

/// The symbols ranked by length, then by symbol.
pub open spec fn ranked(lengths: Seq<(u32, u8)>) -> Seq<u64> {
    packed(lengths, lengths.len() as int).sort_by(rises())
}

/// A number shifted left within 32 bits.
pub open spec fn shifted(c: nat, d: int) -> nat {
    (c * two(d as nat)) % 0x1_0000_0000
}

/// The code of the symbol of rank `k`: one more than the one before,
/// lengthened with zeros.
pub open spec fn canon(s: Seq<u64>, k: int) -> nat
    decreases k,
{
    if k <= 0 {
        0
    } else {
        shifted(canon(s, k - 1) + 1, key_len(s[k]) - key_len(s[k - 1]))
    }
}

/// The codes of the first `n` ranks. A symbol that comes twice has its last
/// code.
pub open spec fn codes_of(s: Seq<u64>, n: int) -> Map<u32, Code>
    decreases n,
{
    if n <= 0 {
        Map::empty()
    } else {
        codes_of(s, n - 1).insert(
            key_symbol(s[n - 1]),
            Code { len: key_len(s[n - 1]) as u8, bits: canon(s, n - 1) as u32 },
        )
    }
}

/// Whether the codes fit in 32 bits: no step lengthens by 32 bits or more,
/// and no code is followed by more than 32 bits can hold.
pub open spec fn codes_fit(s: Seq<u64>) -> bool {
    &&& s.len() > 0 ==> key_len(s[0]) < 32
    &&& forall|k: int| 0 < k < s.len() ==> key_len(#[trigger] s[k]) < key_len(s[k - 1]) + 32
    &&& forall|k: int| 0 <= k < s.len() ==> #[trigger] canon(s, k) < u32::MAX
}

pub proof fn lemma_unpack(symbol: u32, len: u8)
    ensures
        key_len(pack(symbol, len)) == len,
        key_symbol(pack(symbol, len)) == symbol,
{
}

pub proof fn lemma_rises_orders()
    ensures
        total_ordering(rises()),
{
    let leq = rises();
    assert forall|x: u64, y: u64| #[trigger] leq(x, y) || #[trigger] leq(y, x) by {}
}

/// Numbers in ascending order are the sorted sequence of what they hold.
pub proof fn lemma_sorted_is(sorted: Seq<u64>, all: Seq<u64>)
    requires
        sorted.to_multiset() == all.to_multiset(),
        forall|i: int, j: int| 0 <= i <= j < sorted.len() ==> sorted[i] <= sorted[j],
    ensures
        sorted == all.sort_by(rises()),
{
    lemma_rises_orders();
    all.lemma_sort_by_ensures(rises());
    assert(sorted_by(sorted, rises()));
    lemma_sorted_unique(sorted, all.sort_by(rises()), rises());
}

/// The ranks ascend, and hold what was ranked.
pub proof fn lemma_ranked(lengths: Seq<(u32, u8)>)
    ensures
        ranked(lengths).to_multiset() == packed(lengths, lengths.len() as int).to_multiset(),
        forall|i: int, j: int|
            0 <= i <= j < ranked(lengths).len() ==> #[trigger] ranked(lengths)[i]
                <= #[trigger] ranked(lengths)[j],
{
    lemma_rises_orders();
    packed(lengths, lengths.len() as int).lemma_sort_by_ensures(rises());
    let s = ranked(lengths);
    let leq = rises();
    assert forall|i: int, j: int| 0 <= i <= j < s.len() implies #[trigger] s[i] <= #[trigger] s[j] by {
        if i < j {
            assert(leq(s[i], s[j]));
        }
    }
}

fn shift_left(c: u32, d: u8) -> (r: u32)
    ensures
        r == shifted(c as nat, d as int),
{
    let mut r: u32 = c;
    let mut i: u8 = 0;
    assert(c * two(0) == c) by (nonlinear_arith)
        requires
            two(0) == 1,
    ;
    while i < d
        invariant
            i <= d,
            r == shifted(c as nat, i as int),
        decreases d - i,
    {
        let ghost before = r as int;
        r = r.wrapping_mul(2);
        proof {
            assert(two((i + 1) as nat) == 2 * two(i as nat));
            lemma_mul_mod_noop_left((c * two(i as nat)) as int, 2, 0x1_0000_0000);
            assert((c * two(i as nat)) * 2 == c * two((i + 1) as nat)) by (nonlinear_arith)
                requires
                    two((i + 1) as nat) == 2 * two(i as nat),
            ;
        }
        i += 1;
    }
    r
}

/// Packs the symbols that have a code, in ascending order.
pub fn rank_lengths(lengths: &[(u32, u8)]) -> (r: Vec<u64>)
    ensures
        r@ == ranked(lengths@),
{
    let mut v: Vec<u64> = Vec::new();
    let mut i: usize = 0;
    while i < lengths.len()
        invariant
            i <= lengths.len(),
            v@ == packed(lengths@, i as int),
        decreases lengths.len() - i,
    {
        let p = lengths[i];
        if p.1 > 0 {
            v.push(p.1 as u64 * 0x1_0000_0000 + p.0 as u64);
        }
        i += 1;
    }
    let ghost all = v@;
    sort_numbers(&mut v);
    proof {
        lemma_sorted_is(v@, all);
    }
    v
}

/// The canonical codes of symbols with the given lengths.
pub fn canonical_codes(lengths: &[(u32, u8)]) -> (r: fxhash::FxHashMap<u32, Code>)
    requires
        codes_fit(ranked(lengths@)),
    ensures
        r@ == codes_of(ranked(lengths@), ranked(lengths@).len() as int),
{
    broadcast use vstd::std_specs::hash::group_hash_axioms;

    let sorted = rank_lengths(lengths);
    let ghost s = sorted@;
    proof {
        lemma_ranked(lengths@);
    }
    let mut codes: fxhash::FxHashMap<u32, Code> = fxhash::FxHashMap::default();
    let mut code: u32 = 0;
    let mut prev: u64 = 0;
    let mut k: usize = 0;
    while k < sorted.len()
        invariant
            s == sorted@,
            codes_fit(s),
            forall|i: int, j: int|
                0 <= i <= j < s.len() ==> #[trigger] s[i] <= #[trigger] s[j],
            k <= sorted.len(),
            codes@ == codes_of(s, k as int),
            k == 0 ==> code == 0 && prev == 0,
            k > 0 ==> code == canon(s, k - 1) + 1 && prev == key_len(s[k - 1]),
        decreases sorted.len() - k,
    {
        broadcast use vstd::std_specs::hash::group_hash_axioms;

        let key: u64 = sorted[k];
        let len: u64 = key / 0x1_0000_0000;
        let symbol: u32 = (key % 0x1_0000_0000) as u32;
        proof {
            if k > 0 {
                assert(s[k - 1] <= s[k as int]);
                assert(key_len(s[k as int]) < key_len(s[k - 1]) + 32);
            } else {
                assert(key_len(s[0]) < 32);
                assert((0 * two(len as nat)) % 0x1_0000_0000 == 0);
            }
        }
        code = shift_left(code, (len - prev) as u8);
        assert(code == canon(s, k as int));
        assert(canon(s, k as int) < u32::MAX);
        prev = len;
        table_insert(&mut codes, symbol, Code { len: len as u8, bits: code });
        code += 1;
        k += 1;
    }
    codes
}

} // verus!
