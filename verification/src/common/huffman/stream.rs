//! Encoding and decoding with canonical codes.
use vstd::prelude::*;
use vstd::relations::{sorted_by, total_ordering};
use vstd::seq_lib::{group_to_multiset_ensures, lemma_sorted_unique};

use crate::common::bits::{bit_at, bit_or_zero, digits, filled, stream_bits, BitWriter};
use crate::common::huffman::codes::{
    canonical_codes, codes_fit, codes_of, key_len, key_symbol, lemma_ranked, lemma_unpack, pack,
    packed, rank_lengths, ranked, Code,
};
use crate::common::huffman::tree::{build_lengths, lengths_of, total_freq};
use crate::float::two;
use crate::table::{sort_numbers, table_get};

verus! {

/// The order of lengths by their symbols.
pub open spec fn by_symbol() -> spec_fn((u32, u8), (u32, u8)) -> bool {
    |a: (u32, u8), b: (u32, u8)| a.0 < b.0 || (a.0 == b.0 && a.1 <= b.1)
}

/// The lengths in the order of their symbols.
pub open spec fn table_of(freqs: Map<u32, u64>) -> Seq<(u32, u8)> {
    lengths_of(freqs).sort_by(by_symbol())
}

/// The four bytes of a number, the lowest first.
pub open spec fn le4(n: u32) -> Seq<u8> {
    seq![
        (n % 256) as u8,
        ((n / 256) % 256) as u8,
        ((n / 65536) % 256) as u8,
        (n / 16777216) as u8,
    ]
}

/// The number in four bytes at a place.
pub open spec fn from_le4(h: Seq<u8>, i: int) -> u32 {
    (h[i] + h[i + 1] * 256 + h[i + 2] * 65536 + h[i + 3] * 16777216) as u32
}

/// The bytes of the first `n` symbols of a table.
pub open spec fn symbol_bytes(t: Seq<(u32, u8)>, n: int) -> Seq<u8>
    decreases n,
{
    if n <= 0 {
        Seq::empty()
    } else {
        symbol_bytes(t, n - 1) + le4(t[n - 1].0)
    }
}

/// The bytes of a table: how many symbols there are, the symbols, and the
/// lengths of their codes.
pub open spec fn header_bytes(t: Seq<(u32, u8)>) -> Seq<u8> {
    le4(t.len() as u32) + symbol_bytes(t, t.len() as int) + Seq::new(t.len(), |i: int| t[i].1)
}

/// The number of symbols that a header announces.
pub open spec fn header_count(h: Seq<u8>) -> int {
    from_le4(h, 0) as int
}

/// The table in a header.
pub open spec fn header_table(h: Seq<u8>) -> Seq<(u32, u8)> {
    let n = header_count(h);
    Seq::new(n as nat, |i: int| (from_le4(h, 4 + 4 * i), h[4 + 4 * n + i]))
}

/// The bits of the codes of the first `n` symbols.
pub open spec fn coded(codes: Map<u32, Code>, symbols: Seq<u32>, n: int) -> Seq<bool>
    decreases n,
{
    if n <= 0 {
        Seq::empty()
    } else {
        let c = codes[symbols[n - 1]];
        coded(codes, symbols, n - 1) + digits(c.bits as nat, c.len as nat)
    }
}

/// The symbols of one length among the first `n` ranks.
pub open spec fn of_len(s: Seq<u64>, len: int, n: int) -> Seq<u32>
    decreases n,
{
    if n <= 0 {
        Seq::empty()
    } else if key_len(s[n - 1]) == len {
        of_len(s, len, n - 1).push(key_symbol(s[n - 1]))
    } else {
        of_len(s, len, n - 1)
    }
}

/// The number of symbols of one length.
pub open spec fn count_len(s: Seq<u64>, len: int) -> nat {
    of_len(s, len, s.len() as int).len()
}

/// The first code of a length, within 32 bits.
pub open spec fn first_code(s: Seq<u64>, len: int) -> nat
    decreases len,
{
    if len <= 0 {
        0
    } else {
        ((first_code(s, len - 1) + count_len(s, len - 1)) * 2) % 0x1_0000_0000
    }
}

/// Whether 32 bits can count the codes of each length below 32.
pub open spec fn counts_fit(s: Seq<u64>) -> bool {
    forall|l: int| 0 <= l <= 31 ==> #[trigger] first_code(s, l) + count_len(s, l) <= u32::MAX
}

/// Whether a header is long enough for its table, and its table is one that
/// can be decoded with.
pub open spec fn header_ok(h: Seq<u8>) -> bool {
    &&& h.len() >= 4
    &&& h.len() >= 4 + 5 * header_count(h)
    &&& forall|i: int|
        0 <= i < header_table(h).len() ==> (#[trigger] header_table(h)[i]).1 <= 32
    &&& counts_fit(ranked(header_table(h)))
}

/// The symbol whose code stands at a place, and the length of the code, where
/// the first `len` bits, which make `code`, are no code. There is none where
/// 32 bits make no code.
pub open spec fn next_symbol(
    s: Seq<u64>,
    bits: Seq<bool>,
    at: int,
    len: int,
    code: nat,
) -> Option<(u32, int)>
    decreases 32 - len,
{
    if len >= 32 {
        None
    } else {
        let c = 2 * code + if bit_or_zero(bits, at + len) {
            1nat
        } else {
            0nat
        };
        let l = len + 1;
        let first = first_code(s, l);
        if first <= c < first + count_len(s, l) {
            Some((of_len(s, l, s.len() as int)[c - first], l))
        } else {
            next_symbol(s, bits, at, l, c)
        }
    }
}

/// The place behind some bits, at most the end.
pub open spec fn onward(bits: Seq<bool>, at: int, len: int) -> int {
    if at + len <= bits.len() {
        at + len
    } else {
        bits.len() as int
    }
}

/// Whether `n` codes stand from a place on.
pub open spec fn decodable(s: Seq<u64>, bits: Seq<bool>, at: int, n: nat) -> bool
    decreases n,
{
    n == 0 || match next_symbol(s, bits, at, 0, 0) {
        Some((_, l)) => decodable(s, bits, onward(bits, at, l), (n - 1) as nat),
        None => false,
    }
}

/// The symbols of the `n` codes from a place on.
pub open spec fn decoded(s: Seq<u64>, bits: Seq<bool>, at: int, n: nat) -> Seq<u32>
    decreases n,
{
    if n == 0 {
        Seq::empty()
    } else {
        match next_symbol(s, bits, at, 0, 0) {
            Some((x, l)) => seq![x] + decoded(s, bits, onward(bits, at, l), (n - 1) as nat),
            None => Seq::empty(),
        }
    }
}

/// The place behind the `n` codes from a place on.
pub open spec fn behind(s: Seq<u64>, bits: Seq<bool>, at: int, n: nat) -> int
    decreases n,
{
    if n == 0 {
        at
    } else {
        match next_symbol(s, bits, at, 0, 0) {
            Some((_, l)) => behind(s, bits, onward(bits, at, l), (n - 1) as nat),
            None => at,
        }
    }
}

pub proof fn lemma_symbol_order()
    ensures
        total_ordering(by_symbol()),
{
    let leq = by_symbol();
    assert forall|x: (u32, u8), y: (u32, u8)| #[trigger] leq(x, y) || #[trigger] leq(y, x) by {}
}

/// Packs a symbol and a length so that the symbol decides first.
spec fn pack_symbol(p: (u32, u8)) -> u64 {
    (p.0 * 256 + p.1) as u64
}

/// An injection keeps how often values occur.
pub proof fn lemma_map_count<A, B>(a: Seq<A>, b: Seq<B>, f: spec_fn(A) -> B, x: A)
    requires
        a.len() == b.len(),
        forall|i: int| 0 <= i < a.len() ==> #[trigger] b[i] == f(a[i]),
        forall|i: int| 0 <= i < a.len() && #[trigger] f(a[i]) == f(x) ==> a[i] == x,
    ensures
        a.to_multiset().count(x) == b.to_multiset().count(f(x)),
    decreases a.len(),
{
    broadcast use group_to_multiset_ensures;

    if a.len() > 0 {
        let (p, q) = (a.drop_last(), b.drop_last());
        assert forall|i: int| 0 <= i < p.len() implies #[trigger] q[i] == f(p[i]) by {
            assert(b[i] == f(a[i]));
        }
        assert forall|i: int| 0 <= i < p.len() && #[trigger] f(p[i]) == f(x) implies p[i] == x by {
            assert(f(a[i]) == f(x));
        }
        lemma_map_count(p, q, f, x);
        assert(a =~= p.push(a.last()));
        assert(b =~= q.push(b.last()));
        assert(b.last() == f(a.last()));
        assert(f(a[a.len() - 1]) == f(x) ==> a.last() == x);
    } else {
        assert(a =~= Seq::<A>::empty() && b =~= Seq::<B>::empty());
    }
}

/// The lengths sorted by symbol.
fn sort_by_symbol(lengths: &Vec<(u32, u8)>) -> (r: Vec<(u32, u8)>)
    ensures
        r@ == lengths@.sort_by(by_symbol()),
        r@.to_multiset() == lengths@.to_multiset(),
{
    broadcast use group_to_multiset_ensures;

    let mut v: Vec<u64> = Vec::new();
    let mut i: usize = 0;
    while i < lengths.len()
        invariant
            i <= lengths.len(),
            v.len() == i,
            forall|k: int| 0 <= k < i ==> #[trigger] v[k] == pack_symbol(lengths[k]),
        decreases lengths.len() - i,
    {
        v.push(lengths[i].0 as u64 * 256 + lengths[i].1 as u64);
        i += 1;
    }
    let ghost all = v@;
    sort_numbers(&mut v);
    let ghost s = v@;
    let mut out: Vec<(u32, u8)> = Vec::new();
    let mut j: usize = 0;
    proof {
        assert forall|k: int| 0 <= k < s.len() implies #[trigger] s[k] < 0x100_0000_0000 by {
            assert(s.to_multiset().count(s[k]) > 0);
            assert(all.contains(s[k]));
            let m = all.index_of(s[k]);
            assert(all[m] == pack_symbol(lengths@[m]));
        }
    }
    while j < v.len()
        invariant
            s == v@,
            forall|k: int| 0 <= k < s.len() ==> #[trigger] s[k] < 0x100_0000_0000,
            j <= v.len(),
            out.len() == j,
            forall|k: int| 0 <= k < j ==> s[k] == pack_symbol(#[trigger] out[k]),
        decreases v.len() - j,
    {
        assert(s[j as int] < 0x100_0000_0000);
        out.push(((v[j] / 256) as u32, (v[j] % 256) as u8));
        j += 1;
    }
    proof {
        let f = |p: (u32, u8)| pack_symbol(p);
        assert forall|x: (u32, u8)| out@.to_multiset().count(x) == lengths@.to_multiset().count(
            x,
        ) by {
            lemma_map_count(lengths@, all, f, x);
            assert forall|i: int| 0 <= i < out@.len() implies #[trigger] s[i] == f(out@[i]) by {}
            lemma_map_count(out@, s, f, x);
        }
        assert(out@.to_multiset() =~= lengths@.to_multiset());
        lemma_symbol_order();
        lengths@.lemma_sort_by_ensures(by_symbol());
        let leq = by_symbol();
        assert forall|i: int, j: int| 0 <= i < j < out@.len() implies #[trigger] leq(
            out@[i],
            out@[j],
        ) by {
            assert(s[i] <= s[j]);
            assert(s[i] == pack_symbol(out@[i]) && s[j] == pack_symbol(out@[j]));
        }
        assert(sorted_by(out@, leq));
        lemma_sorted_unique(out@, lengths@.sort_by(leq), leq);
    }
    out
}

proof fn lemma_packed_count(lengths: Seq<(u32, u8)>, n: int, symbol: u32, len: u8)
    requires
        0 <= n <= lengths.len(),
    ensures
        packed(lengths, n).to_multiset().count(pack(symbol, len)) == if len > 0 {
            lengths.subrange(0, n).to_multiset().count((symbol, len))
        } else {
            0
        },
    decreases n,
{
    broadcast use group_to_multiset_ensures;

    if n > 0 {
        lemma_packed_count(lengths, n - 1, symbol, len);
        let (x, l) = lengths[n - 1];
        assert(lengths.subrange(0, n) =~= lengths.subrange(0, n - 1).push((x, l)));
        lemma_unpack(x, l);
        lemma_unpack(symbol, len);
    } else {
        assert(packed(lengths, n) =~= Seq::<u64>::empty());
        assert(lengths.subrange(0, 0) =~= Seq::<(u32, u8)>::empty());
    }
}

proof fn lemma_packed_range(lengths: Seq<(u32, u8)>, n: int, k: u64)
    requires
        0 <= n <= lengths.len(),
        packed(lengths, n).contains(k),
    ensures
        k == pack(key_symbol(k), key_len(k) as u8),
        0 < key_len(k) <= 255,
    decreases n,
{
    if n > 0 {
        let (x, l) = lengths[n - 1];
        lemma_unpack(x, l);
        let front = packed(lengths, n - 1);
        let i = packed(lengths, n).index_of(k);
        if i < front.len() {
            assert(front[i] == k);
            lemma_packed_range(lengths, n - 1, k);
        }
    }
}

/// The ranks of symbols do not depend on the order in which they come.
pub proof fn lemma_ranked_permutation(a: Seq<(u32, u8)>, b: Seq<(u32, u8)>)
    requires
        a.to_multiset() == b.to_multiset(),
    ensures
        ranked(a) == ranked(b),
{
    broadcast use group_to_multiset_ensures;

    let (p, q) = (packed(a, a.len() as int), packed(b, b.len() as int));
    assert(a.subrange(0, a.len() as int) =~= a);
    assert(b.subrange(0, b.len() as int) =~= b);
    assert forall|k: u64| p.to_multiset().count(k) == q.to_multiset().count(k) by {
        if p.contains(k) {
            lemma_packed_range(a, a.len() as int, k);
        }
        if q.contains(k) {
            lemma_packed_range(b, b.len() as int, k);
        }
        lemma_packed_count(a, a.len() as int, key_symbol(k), key_len(k) as u8);
        lemma_packed_count(b, b.len() as int, key_symbol(k), key_len(k) as u8);
    }
    assert(p.to_multiset() =~= q.to_multiset());
    lemma_ranked(a);
    crate::common::huffman::codes::lemma_sorted_is(ranked(a), q);
}

/// Encodes symbols.
pub struct HuffmanEncoder {
    codes: fxhash::FxHashMap<u32, Code>,
    table: Vec<(u32, u8)>,
}

impl HuffmanEncoder {
    /// The lengths of the codes, in the order of the symbols.
    pub closed spec fn table(&self) -> Seq<(u32, u8)> {
        self.table@
    }

    /// The codes.
    pub closed spec fn codes(&self) -> Map<u32, Code> {
        self.codes@
    }

    /// An encoder for symbols of the given frequencies.
    pub fn new(freqs: &fxhash::FxHashMap<u32, u64>) -> (r: Self)
        requires
            total_freq(freqs@) <= u64::MAX,
            codes_fit(ranked(lengths_of(freqs@))),
        ensures
            r.table() == table_of(freqs@),
            r.codes() == codes_of(
                ranked(table_of(freqs@)),
                ranked(table_of(freqs@)).len() as int,
            ),
    {
        let lengths = build_lengths(freqs);
        let codes = canonical_codes(lengths.as_slice());
        let table = sort_by_symbol(&lengths);
        proof {
            lemma_ranked_permutation(table@, lengths@);
        }
        HuffmanEncoder { codes, table }
    }

    /// The table as bytes.
    pub fn header(&self) -> (r: Vec<u8>)
        ensures
            r@ == header_bytes(self.table()),
    {
        let ghost t = self.table@;
        let mut out: Vec<u8> = Vec::new();
        push_le4(&mut out, self.table.len() as u32);
        let ghost front = le4(t.len() as u32);
        assert(out@ =~= front + symbol_bytes(t, 0));
        let mut i: usize = 0;
        while i < self.table.len()
            invariant
                t == self.table@,
                i <= self.table.len(),
                out@ == front + symbol_bytes(t, i as int),
            decreases self.table.len() - i,
        {
            push_le4(&mut out, self.table[i].0);
            assert(out@ =~= front + symbol_bytes(t, i + 1));
            i += 1;
        }
        let ghost all = front + symbol_bytes(t, t.len() as int);
        let ghost want = header_bytes(t);
        let mut j: usize = 0;
        assert(want.subrange(0, all.len() as int) =~= all);
        while j < self.table.len()
            invariant
                t == self.table@,
                want == all + Seq::new(t.len(), |i: int| t[i].1),
                j <= self.table.len(),
                out@ == want.subrange(0, all.len() + j),
            decreases self.table.len() - j,
        {
            out.push(self.table[j].1);
            assert(want[all.len() + j] == t[j as int].1);
            assert(out@ =~= want.subrange(0, all.len() + j + 1));
            j += 1;
        }
        assert(want.subrange(0, all.len() + j) =~= want);
        out
    }

    /// The codes of symbols as packed bits, without the table.
    pub fn encode(&self, symbols: &[u32]) -> (r: Vec<u8>)
        requires
            forall|i: int| 0 <= i < symbols@.len() ==> self.codes().contains_key(#[trigger] symbols@[i]),
        ensures
            stream_bits(r@) == filled(coded(self.codes(), symbols@, symbols@.len() as int)),
    {
        broadcast use vstd::std_specs::hash::group_hash_axioms;

        let mut w = BitWriter::new();
        let mut i: usize = 0;
        while i < symbols.len()
            invariant
                forall|i: int|
                    0 <= i < symbols@.len() ==> self.codes().contains_key(#[trigger] symbols@[i]),
                i <= symbols.len(),
                w.wf(),
                w@ == coded(self.codes(), symbols@, i as int),
            decreases symbols.len() - i,
        {
            broadcast use vstd::std_specs::hash::group_hash_axioms;

            assert(self.codes().contains_key(symbols@[i as int]));
            if let Some(c) = table_get(&self.codes, &symbols[i]) {
                w.push_digits(c.bits, c.len);
            }
            i += 1;
        }
        w.finish()
    }
}

fn push_le4(out: &mut Vec<u8>, n: u32)
    ensures
        final(out)@ == old(out)@ + le4(n),
{
    let ghost before = out@;
    out.push((n % 256) as u8);
    out.push(((n / 256) % 256) as u8);
    out.push(((n / 65536) % 256) as u8);
    out.push((n / 16777216) as u8);
    assert(out@ =~= before + le4(n));
}

fn read_le4(h: &[u8], i: usize) -> (r: u32)
    requires
        i + 4 <= h@.len(),
    ensures
        r == from_le4(h@, i as int),
{
    h[i] as u32 + h[i + 1] as u32 * 256 + h[i + 2] as u32 * 65536 + h[i + 3] as u32 * 16777216
}

/// Decodes symbols.
pub struct HuffmanDecoder {
    first: Vec<u32>,
    symbols_by_len: Vec<Vec<u32>>,
    data: Vec<u8>,
    pos: usize,
    bit: u8,
    ranks: Ghost<Seq<u64>>,
}

fn power(k: u8) -> (r: u8)
    requires
        k < 8,
    ensures
        r == two((7 - k) as nat),
        r > 0,
{
    proof {
        reveal_with_fuel(two, 8);
    }
    match k {
        0 => 128,
        1 => 64,
        2 => 32,
        3 => 16,
        4 => 8,
        5 => 4,
        6 => 2,
        _ => 1,
    }
}

impl HuffmanDecoder {
    /// The ranks of the symbols of the table.
    pub closed spec fn ranks(&self) -> Seq<u64> {
        self.ranks@
    }

    /// The bits that are decoded.
    pub closed spec fn bits(&self) -> Seq<bool> {
        stream_bits(self.data@)
    }

    /// The place of the next bit.
    pub closed spec fn at(&self) -> int {
        8 * self.pos + self.bit
    }

    /// Whether the tables fit the ranks, and the place is within the bits.
    pub closed spec fn wf(&self) -> bool {
        let s = self.ranks@;
        &&& counts_fit(s)
        &&& self.first.len() == 33
        &&& self.symbols_by_len.len() == 33
        &&& forall|l: int|
            0 <= l <= 32 ==> #[trigger] self.first[l] == first_code(s, l)
                && self.symbols_by_len[l]@ == of_len(s, l, s.len() as int)
        &&& self.pos <= self.data.len()
        &&& self.bit < 8
        &&& self.pos == self.data.len() ==> self.bit == 0
    }

    /// A decoder of a stream with the table of a header.
    pub fn new(header: &[u8], stream: Vec<u8>) -> (r: Self)
        requires
            header_ok(header@),
        ensures
            r.wf(),
            r.ranks() == ranked(header_table(header@)),
            r.bits() == stream_bits(stream@),
            r.at() == 0,
    {
        let n: usize = read_le4(header, 0) as usize;
        let ghost h = header@;
        let size: usize = header.len();
        let mut pairs: Vec<(u32, u8)> = Vec::new();
        let mut i: usize = 0;
        while i < n
            invariant
                h == header@,
                header_ok(h),
                size == h.len(),
                n == header_count(h),
                4 + 5 * n <= size,
                i <= n,
                pairs.len() == i,
                forall|k: int| 0 <= k < i ==> #[trigger] pairs[k] == header_table(h)[k],
            decreases n - i,
        {
            let s: u32 = read_le4(header, 4 + 4 * i);
            pairs.push((s, header[4 + 4 * n + i]));
            i += 1;
        }
        assert(pairs@ =~= header_table(h));
        let sorted = rank_lengths(pairs.as_slice());
        let ghost s = sorted@;
        proof {
            lemma_ranked(pairs@);
            assert forall|k: int| 0 <= k < s.len() implies 0 < key_len(#[trigger] s[k]) <= 32 by {
                lemma_short(pairs@, s, k);
            }
        }
        let mut by_len: Vec<Vec<u32>> = Vec::new();
        let mut l: usize = 0;
        while l < 33
            invariant
                l <= 33,
                by_len.len() == l,
                forall|k: int| 0 <= k < l ==> (#[trigger] by_len[k])@ == of_len(s, k, 0),
            decreases 33 - l,
        {
            by_len.push(Vec::new());
            l += 1;
        }
        let mut k: usize = 0;
        while k < sorted.len()
            invariant
                s == sorted@,
                forall|k: int| 0 <= k < s.len() ==> 0 < key_len(#[trigger] s[k]) <= 32,
                k <= sorted.len(),
                by_len.len() == 33,
                forall|j: int| 0 <= j <= 32 ==> (#[trigger] by_len[j])@ == of_len(s, j, k as int),
            decreases sorted.len() - k,
        {
            let key: u64 = sorted[k];
            assert(0 < key_len(s[k as int]) <= 32);
            let len: usize = (key / 0x1_0000_0000) as usize;
            let symbol: u32 = (key % 0x1_0000_0000) as u32;
            let ghost before = by_len@;
            let mut group: Vec<u32> = Vec::new();
            std::mem::swap(&mut group, &mut by_len[len]);
            group.push(symbol);
            std::mem::swap(&mut group, &mut by_len[len]);
            assert(by_len@ =~= before.update(len as int, by_len@[len as int]));
            k += 1;
        }
        let mut first: Vec<u32> = Vec::new();
        first.push(0);
        let mut code: u32 = 0;
        let mut m: usize = 1;
        while m < 33
            invariant
                counts_fit(s),
                1 <= m <= 33,
                by_len.len() == 33,
                forall|j: int|
                    0 <= j <= 32 ==> (#[trigger] by_len[j])@ == of_len(s, j, s.len() as int),
                first.len() == m,
                code == first_code(s, m - 1),
                forall|j: int| 0 <= j < m ==> #[trigger] first[j] == first_code(s, j),
            decreases 33 - m,
        {
            assert(by_len[m - 1]@ == of_len(s, m - 1, s.len() as int));
            assert(first_code(s, m - 1) + count_len(s, m - 1) <= u32::MAX);
            let count: u32 = by_len[m - 1].len() as u32;
            code = (code + count).wrapping_mul(2);
            first.push(code);
            m += 1;
        }
        assert forall|j: int| 0 <= j <= 32 implies #[trigger] first[j] == first_code(s, j)
            && by_len[j]@ == of_len(s, j, s.len() as int) by {
            assert(by_len[j]@ == of_len(s, j, s.len() as int));
        }
        HuffmanDecoder {
            first,
            symbols_by_len: by_len,
            data: stream,
            pos: 0,
            bit: 0,
            ranks: Ghost(s),
        }
    }

    #[verifier::spinoff_prover]
    #[verifier::rlimit(40)]
    fn read_bit(&mut self) -> (r: bool)
        requires
            old(self).wf(),
        ensures
            final(self).wf(),
            final(self).ranks() == old(self).ranks(),
            final(self).bits() == old(self).bits(),
            r == bit_or_zero(old(self).bits(), old(self).at()),
            final(self).at() == onward(old(self).bits(), old(self).at(), 1),
            old(self).at() <= old(self).bits().len(),
    {
        if self.pos >= self.data.len() {
            return false;
        }
        let ghost s = self.ranks@;
        let ghost (first, groups) = (self.first@, self.symbols_by_len@);
        let ghost place = self.at();
        assert(place / 8 == self.pos && place % 8 == self.bit);
        let p: u8 = power(self.bit);
        let r = (self.data[self.pos] / p) % 2 == 1;
        assert(r == bit_at(self.data@[self.pos as int], self.bit as int));
        if self.bit == 7 {
            self.pos = self.pos + 1;
            self.bit = 0;
        } else {
            self.bit = self.bit + 1;
        }
        proof {
            assert(self.first@ == first && self.symbols_by_len@ == groups);
            assert forall|l: int| 0 <= l <= 32 implies #[trigger] self.first[l] == first_code(s, l)
                && self.symbols_by_len[l]@ == of_len(s, l, s.len() as int) by {
                assert(first[l] == old(self).first[l]);
            }
        }
        r
    }

    #[verifier::spinoff_prover]
    #[verifier::rlimit(40)]
    fn decode_one(&mut self) -> (r: u32)
        requires
            old(self).wf(),
            next_symbol(old(self).ranks(), old(self).bits(), old(self).at(), 0, 0) is Some,
        ensures
            final(self).wf(),
            final(self).ranks() == old(self).ranks(),
            final(self).bits() == old(self).bits(),
            ({
                let found = next_symbol(old(self).ranks(), old(self).bits(), old(self).at(), 0, 0)->0;
                r == found.0 && final(self).at() == onward(old(self).bits(), old(self).at(), found.1)
            }),
    {
        let ghost s = self.ranks();
        let ghost bits = self.bits();
        let ghost at = self.at();
        let ghost found = next_symbol(s, bits, at, 0, 0);
        let mut code: u64 = 0;
        let mut len: usize = 0;
        assert(two(0) == 1);
        proof {
            assert(at <= bits.len());
        }
        loop
            invariant
                self.wf(),
                s == self.ranks(),
                bits == self.bits(),
                s == old(self).ranks(),
                bits == old(self).bits(),
                at == old(self).at(),
                found == next_symbol(s, bits, at, 0, 0),
                0 <= at <= bits.len(),
                len <= 32,
                self.at() == onward(bits, at, len as int),
                (code as nat) < two(len as nat),
                found == next_symbol(s, bits, at, len as int, code as nat),
                found is Some,
            decreases 32 - len,
        {
            let ghost before = code as nat;
            let bit = self.read_bit();
            proof {
                assert(bit == bit_or_zero(bits, at + len));
                assert(two((len + 1) as nat) == 2 * two(len as nat));
                crate::float::lemma_two_mono(len as nat, 32);
                assert(two(32) == 0x1_0000_0000) by {
                    reveal_with_fuel(two, 33);
                }
            }
            code = 2 * code + if bit {
                1u64
            } else {
                0u64
            };
            len += 1;
            assert(self.first[len as int] == first_code(s, len as int));
            let first: u64 = self.first[len] as u64;
            let count: usize = self.symbols_by_len[len].len();
            if code >= first && (code - first) < count as u64 {
                let r: u32 = self.symbols_by_len[len][(code - first) as usize];
                return r;
            }
        }
    }

    /// The symbols of the next `count` codes.
    pub fn decode(&mut self, count: usize) -> (r: Vec<u32>)
        requires
            old(self).wf(),
            decodable(old(self).ranks(), old(self).bits(), old(self).at(), count as nat),
        ensures
            final(self).wf(),
            final(self).ranks() == old(self).ranks(),
            final(self).bits() == old(self).bits(),
            r@ == decoded(old(self).ranks(), old(self).bits(), old(self).at(), count as nat),
            final(self).at() == behind(
                old(self).ranks(),
                old(self).bits(),
                old(self).at(),
                count as nat,
            ),
    {
        let ghost s = self.ranks();
        let ghost bits = self.bits();
        let ghost start = self.at();
        let mut out: Vec<u32> = Vec::new();
        let mut i: usize = 0;
        while i < count
            invariant
                self.wf(),
                s == self.ranks(),
                bits == self.bits(),
                i <= count,
                decodable(s, bits, self.at(), (count - i) as nat),
                decoded(s, bits, start, count as nat) == out@ + decoded(
                    s,
                    bits,
                    self.at(),
                    (count - i) as nat,
                ),
                behind(s, bits, start, count as nat) == behind(
                    s,
                    bits,
                    self.at(),
                    (count - i) as nat,
                ),
            decreases count - i,
        {
            let ghost place = self.at();
            let ghost so_far = out@;
            let x: u32 = self.decode_one();
            out.push(x);
            assert(out@ + decoded(s, bits, self.at(), (count - i - 1) as nat) =~= so_far + decoded(
                s,
                bits,
                place,
                (count - i) as nat,
            ));
            i += 1;
        }
        assert(out@ + decoded(s, bits, self.at(), 0) =~= out@);
        out
    }
}

pub proof fn lemma_short(lengths: Seq<(u32, u8)>, s: Seq<u64>, k: int)
    requires
        s == ranked(lengths),
        0 <= k < s.len(),
        forall|i: int| 0 <= i < lengths.len() ==> (#[trigger] lengths[i]).1 <= 32,
    ensures
        0 < key_len(s[k]) <= 32,
{
    broadcast use group_to_multiset_ensures;

    let n = lengths.len() as int;
    lemma_ranked(lengths);
    assert(s.to_multiset().count(s[k]) > 0);
    assert(packed(lengths, n).contains(s[k]));
    lemma_packed_range(lengths, n, s[k]);
    let (x, l) = (key_symbol(s[k]), key_len(s[k]) as u8);
    lemma_packed_count(lengths, n, x, l);
    assert(lengths.subrange(0, n) =~= lengths);
    assert(lengths.contains((x, l)));
    let i = lengths.index_of((x, l));
    assert(lengths[i].1 == l);
}

} // verus!
