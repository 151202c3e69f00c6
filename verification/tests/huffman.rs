//! Huffman codes.
use engramdb::common::huffman::{build_lengths, canonical_codes, Code, HuffmanDecoder, HuffmanEncoder};
use fxhash::FxHashMap;

#[test]
fn test_canonical_codes() {


    let lengths = vec![(1u32, 2u8), (2, 1), (3, 2)];
    let codes = canonical_codes(&lengths);
    assert_eq!(codes[&2], Code { len: 1, bits: 0 }); // b: 0
    assert_eq!(codes[&1], Code { len: 2, bits: 2 }); // a: 10
    assert_eq!(codes[&3], Code { len: 2, bits: 3 }); // c: 11
}

#[test]
fn test_roundtrip() {
    let mut freqs = FxHashMap::default();
    for s in [1u32, 1, 1, 2, 2, 3, 4, 4, 4, 4, 4, 5] {
        *freqs.entry(s).or_insert(0) += 1;
    }
    let enc = HuffmanEncoder::new(&freqs);
    let header = enc.header();
    let symbols = vec![1u32, 2, 3, 4, 5, 1, 2, 4];
    let stream = enc.encode(&symbols);
    let mut dec = HuffmanDecoder::new(&header, stream);
    let out = dec.decode(symbols.len());
    assert_eq!(out, symbols);
}

#[test]
fn test_single_symbol() {
    let mut freqs = FxHashMap::default();
    freqs.insert(7u32, 100);
    let enc = HuffmanEncoder::new(&freqs);
    let header = enc.header();
    let symbols = vec![7u32, 7, 7];
    let stream = enc.encode(&symbols);
    let mut dec = HuffmanDecoder::new(&header, stream);
    let out = dec.decode(symbols.len());
    assert_eq!(out, symbols);
}

#[test]
fn test_skewed() {
    let mut freqs = FxHashMap::default();
    for s in [0u32, 1, 2, 3, 4, 5, 6] {
        *freqs.entry(s).or_insert(0) += 1;
    }
    *freqs.entry(0).or_insert(0) += 1000;
    let enc = HuffmanEncoder::new(&freqs);
    let header = enc.header();
    let mut symbols = Vec::new();
    for i in 0..200 {
        symbols.push(i % 7);
    }
    let stream = enc.encode(&symbols);
    let mut dec = HuffmanDecoder::new(&header, stream);
    let out = dec.decode(symbols.len());
    assert_eq!(out, symbols);
}

/// A header with the symbols from 1 on and lengths.
fn header_of(lengths: &[u8]) -> Vec<u8> {
    let mut h = (lengths.len() as u32).to_le_bytes().to_vec();
    for i in 0..lengths.len() {
        h.extend_from_slice(&(i as u32 + 1).to_le_bytes());
    }
    h.extend_from_slice(lengths);
    h
}

#[test]
fn a_complete_code_of_32_bits_is_read() {
    let mut lengths: Vec<u8> = (1..=32).collect();
    lengths.push(32);
    let header = header_of(&lengths);
    let stream = vec![0b0101_1000, 0xFF, 0xFF, 0xFF, 0xFF, 0xFF];
    let mut dec = HuffmanDecoder::new(&header, stream.clone());
    assert_eq!(dec.decode(3), vec![1, 2, 3]);
    let mut longer = header.clone();
    longer.extend_from_slice(&[7, 7, 7]);
    assert_eq!(HuffmanDecoder::new(&longer, stream).decode(3), vec![1, 2, 3]);
}

#[test]
fn no_lengths_are_cheaper() {
    let counts = [5u64, 2, 1, 1, 7];
    let mut freqs = FxHashMap::default();
    for (i, n) in counts.iter().enumerate() {
        freqs.insert(i as u32, *n);
    }
    let cost: u64 = build_lengths(&freqs).iter().map(|(s, l)| counts[*s as usize] * *l as u64).sum();
    assert_eq!(cost, 31);
    for code in 0..5usize.pow(5) {
        let lens: Vec<u32> = (0..5u32).map(|i| (code / 5usize.pow(i) % 5) as u32 + 1).collect();
        if lens.iter().map(|l| 1u32 << (5 - l)).sum::<u32>() <= 32 {
            let other: u64 = lens.iter().zip(counts).map(|(l, n)| n * *l as u64).sum();
            assert!(other >= cost, "{:?}", lens);
        }
    }
}

#[test]
fn lengths_fill_the_whole() {
    let mut freqs = FxHashMap::default();
    let (mut a, mut b) = (1u64, 1u64);
    for s in 0..40u32 {
        freqs.insert(s, a);
        (a, b) = (b, a + b);
    }
    let lengths = build_lengths(&freqs);
    assert_eq!(lengths.iter().map(|(_, l)| *l).max(), Some(39));
    assert_eq!(lengths.iter().map(|(_, l)| 1u64 << (50 - l)).sum::<u64>(), 1 << 50);
}
