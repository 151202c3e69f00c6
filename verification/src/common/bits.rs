//! Streams of bits, packed into bytes from the highest bit on.
use vstd::prelude::*;
use vstd::arithmetic::div_mod::lemma_div_denominator;

use crate::float::{lemma_two_mono, two};

verus! {

/// The last `len` binary digits of a number, the highest first.
pub open spec fn digits(n: nat, len: nat) -> Seq<bool>
    decreases len,
{
    if len == 0 {
        Seq::empty()
    } else {
        digits(n / 2, (len - 1) as nat).push(n % 2 == 1)
    }
}

/// Bit `k` of a byte, counted from the highest.
pub open spec fn bit_at(b: u8, k: int) -> bool {
    (b as nat / two((7 - k) as nat)) % 2 == 1
}

/// The bits of bytes.
pub open spec fn stream_bits(bytes: Seq<u8>) -> Seq<bool> {
    Seq::new(8 * bytes.len(), |i: int| bit_at(bytes[i / 8], i % 8))
}

/// Bits with zeros up to a whole number of bytes.
pub open spec fn filled(b: Seq<bool>) -> Seq<bool> {
    b + Seq::new(((8 - b.len() % 8) % 8) as nat, |i: int| false)
}

/// The bit at a place, zero behind the end.
pub open spec fn bit_or_zero(b: Seq<bool>, i: int) -> bool {
    0 <= i < b.len() && b[i]
}

pub proof fn lemma_digits_len(n: nat, len: nat)
    ensures
        digits(n, len).len() == len,
    decreases len,
{
    if len > 0 {
        lemma_digits_len(n / 2, (len - 1) as nat);
    }
}

/// A digit is a quotient by a power of two.
pub proof fn lemma_digit(n: nat, len: nat, k: int)
    requires
        0 <= k < len,
    ensures
        digits(n, len)[k] == ((n / two((len - 1 - k) as nat)) % 2 == 1),
        digits(n, len).len() == len,
    decreases len,
{
    lemma_digits_len(n, len);
    lemma_digits_len(n / 2, (len - 1) as nat);
    if k == len - 1 {
        assert(two(0) == 1);
        assert(n / 1 == n);
    } else {
        lemma_digit(n / 2, (len - 1) as nat, k);
        let j = (len - 2 - k) as nat;
        lemma_two_mono(0, j);
        lemma_div_denominator(n as int, 2, two(j) as int);
        assert(two((len - 1 - k) as nat) == 2 * two(j));
    }
}

/// One more byte adds its eight digits.
pub proof fn lemma_push_byte(bytes: Seq<u8>, b: u8)
    ensures
        stream_bits(bytes.push(b)) == stream_bits(bytes) + digits(b as nat, 8),
{
    lemma_digits_len(b as nat, 8);
    let all = stream_bits(bytes.push(b));
    let want = stream_bits(bytes) + digits(b as nat, 8);
    assert forall|i: int| 0 <= i < all.len() implies all[i] == want[i] by {
        if i >= 8 * bytes.len() {
            let k = i - 8 * bytes.len();
            assert(i / 8 == bytes.len() && i % 8 == k);
            lemma_digit(b as nat, 8, k);
        } else {
            assert(i / 8 < bytes.len());
        }
    }
    assert(all =~= want);
}

/// Packs bits into bytes.
pub struct BitWriter {
    out: Vec<u8>,
    rest: u8,
    count: u8,
}

impl View for BitWriter {
    type V = Seq<bool>;

    closed spec fn view(&self) -> Seq<bool> {
        stream_bits(self.out@) + digits(self.rest as nat, self.count as nat)
    }
}

impl BitWriter {
    /// Whether fewer than eight bits are not packed yet.
    pub closed spec fn wf(&self) -> bool {
        self.count < 8 && (self.rest as nat) < two(self.count as nat)
    }

    /// No bits.
    pub fn new() -> (r: Self)
        ensures
            r.wf(),
            r@ == Seq::<bool>::empty(),
    {
        let r = BitWriter { out: Vec::new(), rest: 0, count: 0 };
        assert(two(0) == 1);
        assert(r@ =~= Seq::<bool>::empty());
        r
    }

    /// Appends a bit.
    pub fn push(&mut self, bit: bool)
        requires
            old(self).wf(),
        ensures
            final(self).wf(),
            final(self)@ == old(self)@.push(bit),
    {
        let ghost before = self@;
        let ghost (r, c) = (self.rest as nat, self.count as nat);
        proof {
            lemma_two_mono(c, 7);
            assert(two(7) == 128) by {
                reveal_with_fuel(two, 8);
            }
            lemma_digits_len(r, c);
        }
        let b: u8 = if bit {
            1
        } else {
            0
        };
        let next: u8 = self.rest * 2 + b;
        assert((2 * r + b) / 2 == r && (2 * r + b) % 2 == b);
        assert(digits(next as nat, c + 1) == digits(r, c).push(bit));
        if self.count == 7 {
            proof {
                lemma_push_byte(self.out@, next);
            }
            self.out.push(next);
            self.rest = 0;
            self.count = 0;
            assert(two(0) == 1);
            assert(self@ =~= before.push(bit));
        } else {
            self.rest = next;
            self.count = self.count + 1;
            assert(two(c + 1) == 2 * two(c));
            assert(self@ =~= before.push(bit));
        }
    }

    /// Appends the last digits of a number, the highest first.
    pub fn push_digits(&mut self, n: u32, len: u8)
        requires
            old(self).wf(),
        ensures
            final(self).wf(),
            final(self)@ == old(self)@ + digits(n as nat, len as nat),
        decreases len,
    {
        let ghost before = self@;
        if len > 0 {
            self.push_digits(n / 2, len - 1);
            self.push(n % 2 == 1);
        }
        assert(self@ =~= before + digits(n as nat, len as nat));
    }

    /// The bytes, the last one filled up with zeros.
    pub fn finish(self) -> (r: Vec<u8>)
        requires
            self.wf(),
        ensures
            stream_bits(r@) == filled(self@),
    {
        let ghost all = self@;
        let ghost c = self.count as int;
        let ghost q = all.len() as int / 8;
        let mut w = self;
        let ghost mut k: nat = 0;
        proof {
            lemma_count(w);
            assert(all.len() == 8 * q + c);
            assert(w@ =~= all + zeros(k));
        }
        while w.count != 0
            invariant
                w.wf(),
                w@ == all + zeros(k),
                all.len() == 8 * q + c,
                0 <= c < 8,
                c == 0 ==> k == 0,
                c + k <= 8,
                w.count as int == if c + k == 8 {
                    0
                } else {
                    c + k
                },
            decreases 8 - c - k,
        {
            w.push(false);
            proof {
                assert(w@ =~= all + zeros(k + 1));
                lemma_count(w);
                assert(w@.len() == 8 * q + (c + k + 1));
                k = k + 1;
            }
        }
        assert(k == (8 - all.len() % 8) % 8);
        assert(stream_bits(w.out@) =~= filled(all));
        w.out
    }
}

/// `k` bits that are not set.
pub open spec fn zeros(k: nat) -> Seq<bool> {
    Seq::new(k, |i: int| false)
}

/// The bits that wait for a byte are those behind the last whole one.
proof fn lemma_count(w: BitWriter)
    requires
        w.wf(),
    ensures
        w@.len() % 8 == w.count,
        w.count < 8,
{
    lemma_digits_len(w.rest as nat, w.count as nat);
}

} // verus!
