use rgzip::blocks::huffman::HuffmanNode;
use rgzip::errors::GzipError;
use rgzip::sources::bitadapter::BitAdapter;
use rgzip::sources::bitsource::BitSource;
use rgzip::sources::vecsource::VecSource;
use rgzip::sources::wideadapter::WideAdapter;

/// Packs bits into bytes, the first bit into the least significant place.
fn pack(bits: &[u8]) -> Vec<u8> {
    let mut bytes = vec![0u8; (bits.len() + 7) / 8];
    for (i, b) in bits.iter().enumerate() {
        bytes[i / 8] |= b << (i % 8);
    }
    bytes
}

/// The bits of a code of `len` bits, the most significant first.
fn code(value: u32, len: u32) -> Vec<u8> {
    (0..len).map(|i| ((value >> (len - 1 - i)) & 1) as u8).collect()
}

fn reader(bits: &[u8]) -> BitAdapter<VecSource> {
    BitAdapter::new(VecSource::new(pack(bits)))
}

/// A table of code lengths and its canonical codes, as the format's
/// description gives them for the symbols A to H.
fn example() -> (Vec<u8>, Vec<(u32, u32)>) {
    (
        vec![3, 3, 3, 3, 3, 2, 4, 4],
        vec![
            (0b010, 3),
            (0b011, 3),
            (0b100, 3),
            (0b101, 3),
            (0b110, 3),
            (0b00, 2),
            (0b1110, 4),
            (0b1111, 4),
        ],
    )
}

#[test]
fn canonical_codes_of_the_example_table() {
    let (lengths, codes) = example();
    let entries = HuffmanNode::assign_codes(&lengths).unwrap();
    assert_eq!(entries.len(), 8);
    for (symbol, (value, len)) in codes.iter().enumerate() {
        let (entry_len, entry_symbol, pattern) = entries[symbol];
        assert_eq!(entry_len as u32, *len);
        assert_eq!(entry_symbol as usize, symbol);
        // the pattern holds the code in reading order: its bits in opposite order
        assert_eq!(HuffmanNode::reverse_bits(pattern, entry_len), *value);
        assert_eq!(pattern, HuffmanNode::reverse_bits(*value, entry_len));
    }
    assert_eq!(entries[0], (3, 0, 0b010));
    assert_eq!(entries[1], (3, 1, 0b110));
    assert_eq!(entries[2], (3, 2, 0b001));
    assert_eq!(entries[5], (2, 5, 0b00));
    assert_eq!(entries[6], (4, 6, 0b0111));
    assert_eq!(entries[7], (4, 7, 0b1111));
}

#[test]
fn trie_of_the_example_table_decodes_each_code() {
    let (lengths, codes) = example();
    let tree = HuffmanNode::build(lengths).unwrap();
    for (symbol, (value, len)) in codes.iter().enumerate() {
        let mut bits = code(*value, *len);
        // what follows a code does not matter
        bits.extend([1, 0, 1, 1, 0, 1, 0, 0]);
        let mut input = reader(&bits);
        assert_eq!(HuffmanNode::get_code(&tree, &mut input), Ok(symbol as u32));
        // exactly the code was consumed: the next bits are the ones appended
        assert_eq!(input.get_bits(8), Ok(0b10110100));
    }
}

#[test]
fn a_run_of_codes_decodes_symbol_after_symbol() {
    let (lengths, codes) = example();
    let tree = HuffmanNode::build(lengths).unwrap();
    let order = [5usize, 0, 7, 7, 2, 6, 1, 4, 3, 5];
    let mut bits = Vec::new();
    for s in order {
        bits.extend(code(codes[s].0, codes[s].1));
    }
    let mut input = WideAdapter::new(VecSource::new(pack(&bits)));
    for s in order {
        assert_eq!(HuffmanNode::get_code(&tree, &mut input), Ok(s as u32));
    }
}

#[test]
fn equal_tables_build_equal_tries() {
    let (lengths, codes) = example();
    let one = HuffmanNode::build(lengths.clone()).unwrap();
    let two = HuffmanNode::build(lengths).unwrap();
    assert_eq!(one, two);
    for (value, len) in codes {
        let bits = code(value, len);
        let a = HuffmanNode::get_code(&one, &mut reader(&bits));
        let b = HuffmanNode::get_code(&two, &mut reader(&bits));
        assert_eq!(a, b);
    }
}

#[test]
fn trie_has_the_shape_of_the_codes() {
    let tree = HuffmanNode::build(vec![1, 2, 2]).unwrap();
    let leaf = |s: u16| Box::new(HuffmanNode::Code(s));
    let expected = HuffmanNode::Node {
        zero: leaf(0),
        one: Box::new(HuffmanNode::Node { zero: leaf(1), one: leaf(2) }),
    };
    assert_eq!(tree, expected);
}

#[test]
fn unused_symbols_get_no_code() {
    let entries = HuffmanNode::assign_codes(&vec![0, 2, 0, 1, 0, 2]).unwrap();
    assert_eq!(entries, vec![(2, 1, 0b01), (1, 3, 0b0), (2, 5, 0b11)]);
    let tree = HuffmanNode::build(vec![0, 2, 0, 1, 0, 2]).unwrap();
    assert_eq!(HuffmanNode::get_code(&tree, &mut reader(&[0])), Ok(3));
    assert_eq!(HuffmanNode::get_code(&tree, &mut reader(&[1, 0])), Ok(1));
    assert_eq!(HuffmanNode::get_code(&tree, &mut reader(&[1, 1])), Ok(5));
}

#[test]
fn reverse_bits_turns_the_low_bits_around() {
    assert_eq!(HuffmanNode::reverse_bits(0b110, 3), 0b011);
    assert_eq!(HuffmanNode::reverse_bits(0b1, 15), 0b100_0000_0000_0000);
    assert_eq!(HuffmanNode::reverse_bits(0b1011, 4), 0b1101);
    assert_eq!(HuffmanNode::reverse_bits(0xFFFF_FFFF, 0), 0);
    assert_eq!(HuffmanNode::reverse_bits(0b1111_0110, 3), 0b011);
    assert_eq!(HuffmanNode::reverse_bits(0x8000_0001, 32), 0x8000_0001);
    assert_eq!(HuffmanNode::reverse_bits(0x0000_00F0, 32), 0x0F00_0000);
}

#[test]
fn a_table_without_codes_has_no_trie() {
    assert_eq!(HuffmanNode::build(vec![]), Err(GzipError::InternalError));
    assert_eq!(HuffmanNode::build(vec![0, 0, 0]), Err(GzipError::InternalError));
    assert_eq!(HuffmanNode::assign_codes(&vec![0, 0, 0]), Ok(vec![]));
}

#[test]
fn a_table_with_too_many_codes_of_a_length_is_refused() {
    assert_eq!(HuffmanNode::build(vec![1, 1, 1]), Err(GzipError::InternalError));
    assert_eq!(HuffmanNode::assign_codes(&vec![1, 1, 1]), Err(GzipError::InternalError));
    assert_eq!(HuffmanNode::assign_codes(&vec![1, 2, 2, 2]), Err(GzipError::InternalError));
    assert_eq!(HuffmanNode::assign_codes(&vec![2, 2, 2, 2, 15]), Err(GzipError::InternalError));
}

#[test]
fn a_length_above_fifteen_is_refused() {
    assert_eq!(HuffmanNode::assign_codes(&vec![1, 16]), Err(GzipError::InternalError));
    assert_eq!(HuffmanNode::build(vec![255]), Err(GzipError::InternalError));
    assert!(HuffmanNode::assign_codes(&vec![1, 15]).is_ok());
}

#[test]
fn a_table_with_more_symbols_than_sixteen_bits_number_is_refused() {
    let mut lengths = vec![0u8; 65537];
    lengths[0] = 1;
    lengths[65536] = 1;
    assert_eq!(HuffmanNode::assign_codes(&lengths), Err(GzipError::InternalError));
    lengths.pop();
    lengths[65535] = 1;
    assert_eq!(
        HuffmanNode::assign_codes(&lengths),
        Ok(vec![(1, 0, 0), (1, 65535, 1)])
    );
}

#[test]
fn a_split_with_an_empty_side_has_no_trie() {
    // the codes 00 and 01: nothing starts with 1
    assert_eq!(HuffmanNode::build(vec![2, 2]), Err(GzipError::InternalError));
    // the codes 0, 100 and 101: nothing starts with 11
    assert_eq!(HuffmanNode::build(vec![1, 3, 3]), Err(GzipError::InternalError));
}

#[test]
fn a_group_of_bits_with_a_pattern_that_starts_no_code_has_no_trie() {
    // the codes 00, 01 and 10: they are read two bits at once, and nothing
    // is 11
    assert_eq!(HuffmanNode::build(vec![2, 2, 2]), Err(GzipError::InternalError));
    let entries = vec![(2u8, 0u16, 0b00u32), (2, 1, 0b10), (2, 2, 0b01)];
    assert_eq!(HuffmanNode::assign_codes(&vec![2, 2, 2]), Ok(entries.clone()));
    assert_eq!(HuffmanNode::build_trie(&entries, 0), Err(GzipError::InternalError));
    // the codes 00, 01, 10, 110: behind 11 one code is left, which is a leaf
    let tree = HuffmanNode::build(vec![2, 2, 2, 3]).unwrap();
    assert_eq!(HuffmanNode::get_code(&tree, &mut reader(&[1, 0])), Ok(2));
    let mut input = reader(&[1, 1, 1, 0]);
    assert_eq!(HuffmanNode::get_code(&tree, &mut input), Ok(3));
    assert_eq!(input.get_bits(2), Ok(0b10));
    // the codes 0, 100, 101, and 11 missing
    assert_eq!(HuffmanNode::build(vec![1, 3, 3]), Err(GzipError::InternalError));
    // the codes 00, 010, 011, 100, 101: nothing starts with 11
    assert_eq!(HuffmanNode::build(vec![2, 3, 3, 3, 3]), Err(GzipError::InternalError));
}

#[test]
fn a_single_code_is_a_leaf_that_reads_no_bits() {
    let tree = HuffmanNode::build(vec![0, 0, 5]).unwrap();
    assert_eq!(tree, HuffmanNode::Code(2));
    let mut input = reader(&[]);
    assert_eq!(HuffmanNode::get_code(&tree, &mut input), Ok(2));
    assert_eq!(HuffmanNode::get_code(&tree, &mut input), Ok(2));
}

#[test]
fn a_code_alone_on_its_side_is_a_leaf_there() {
    // the codes 0 and 10: after a 1 only one symbol is left
    let tree = HuffmanNode::build(vec![1, 2]).unwrap();
    assert_eq!(
        tree,
        HuffmanNode::Node {
            zero: Box::new(HuffmanNode::Code(0)),
            one: Box::new(HuffmanNode::Code(1)),
        }
    );
    let mut input = reader(&[1, 1, 0]);
    assert_eq!(HuffmanNode::get_code(&tree, &mut input), Ok(1));
    assert_eq!(HuffmanNode::get_code(&tree, &mut input), Ok(1));
    assert_eq!(HuffmanNode::get_code(&tree, &mut input), Ok(0));
}

#[test]
fn a_code_cut_short_is_a_truncated_file() {
    let (lengths, _) = example();
    let tree = HuffmanNode::build(lengths).unwrap();
    let mut input = reader(&[]);
    assert_eq!(HuffmanNode::get_code(&tree, &mut input), Err(GzipError::TruncatedFile));
    // eight bits: 1110 is a code, 111 the start of one
    let mut input = reader(&[1, 1, 1, 0, 1, 1, 1, 1]);
    assert_eq!(HuffmanNode::get_code(&tree, &mut input), Ok(6));
    assert_eq!(HuffmanNode::get_code(&tree, &mut input), Ok(7));
    assert_eq!(HuffmanNode::get_code(&tree, &mut input), Err(GzipError::TruncatedFile));
}

#[test]
fn build_trie_splits_entries_on_their_next_bit() {
    let entries = vec![(1u8, 7u16, 0u32), (2, 8, 0b01), (2, 9, 0b11)];
    let tree = HuffmanNode::build_trie(&entries, 0).unwrap();
    assert_eq!(HuffmanNode::get_code(&tree, &mut reader(&[0])), Ok(7));
    assert_eq!(HuffmanNode::get_code(&tree, &mut reader(&[1, 0])), Ok(8));
    assert_eq!(HuffmanNode::get_code(&tree, &mut reader(&[1, 1])), Ok(9));
    assert_eq!(HuffmanNode::build_trie(&vec![], 0), Err(GzipError::InternalError));
    // two entries with one pattern cannot be told apart
    let twins = vec![(1u8, 0u16, 1u32), (1, 1, 1)];
    assert_eq!(HuffmanNode::build_trie(&twins, 0), Err(GzipError::InternalError));
}

/// The codes of a table as strings of bits, by the rule of the format, or
/// nothing where a length has more codes than fit.
fn codes_of(lengths: &[u8]) -> Option<Vec<(usize, Vec<u8>)>> {
    let longest = *lengths.iter().max().unwrap_or(&0) as usize;
    let mut count = vec![0u32; longest + 2];
    for l in lengths {
        count[*l as usize] += 1;
    }
    count[0] = 0;
    let mut next = vec![0u32; longest + 2];
    let mut value = 0u32;
    for bits in 1..=longest {
        value = (value + count[bits - 1]) << 1;
        next[bits] = value;
        if value + count[bits] > (1 << bits) {
            return None;
        }
    }
    let mut codes = Vec::new();
    for (symbol, l) in lengths.iter().enumerate() {
        if *l > 0 {
            codes.push((symbol, code(next[*l as usize], *l as u32)));
            next[*l as usize] += 1;
        }
    }
    Some(codes)
}

/// The codes among `codes` that go on from bit `depth` as `pattern` does.
fn part(codes: &[(usize, Vec<u8>)], depth: usize, pattern: &[u8]) -> Vec<(usize, Vec<u8>)> {
    codes
        .iter()
        .filter(|c| c.1[depth..depth + pattern.len()] == *pattern)
        .cloned()
        .collect()
}

/// The number of bits that are read at once at bit `depth` of `codes`: as
/// many as the shortest of them has left.
fn group(codes: &[(usize, Vec<u8>)], depth: usize) -> usize {
    codes.iter().map(|c| c.1.len()).min().unwrap() - depth
}

/// Where reading `bits` ends among `codes`, which are read in groups of
/// bits until one code is left behind a group: its symbol and the number of
/// bits read.
fn split(codes: &[(usize, Vec<u8>)], depth: usize, bits: &[u8]) -> (usize, usize) {
    if codes.len() == 1 {
        return (codes[0].0, depth);
    }
    let size = group(codes, depth);
    split(&part(codes, depth, &bits[depth..depth + size]), depth + size, bits)
}

/// Whether `codes` can be read in groups of bits: behind each group one
/// code is left, or several that can be read in groups in turn; and each
/// pattern of the bits of a group starts a code.
fn splits(codes: &[(usize, Vec<u8>)], depth: usize) -> bool {
    match codes.len() {
        0 => false,
        1 => true,
        _ => {
            let size = group(codes, depth);
            size > 0
                && (0..1u32 << size).all(|pattern| {
                    splits(&part(codes, depth, &code(pattern, size as u32)), depth + size)
                })
        }
    }
}

#[test]
fn every_small_table() {
    let mut built = 0;
    let mut complete = 0;
    for n in 0..4usize.pow(5) {
        let lengths: Vec<u8> = (0..5).map(|i| ((n >> (2 * i)) & 3) as u8).collect();
        let tree = HuffmanNode::build(lengths.clone());
        let codes = match codes_of(&lengths) {
            Some(codes) if splits(&codes, 0) => codes,
            _ => {
                assert_eq!(tree, Err(GzipError::InternalError), "{:?}", lengths);
                continue;
            }
        };
        let tree = tree.unwrap();
        built += 1;
        let filled: u32 = lengths.iter().filter(|l| **l > 0).map(|l| 8 >> *l).sum();
        if filled == 8 {
            complete += 1;
        }
        for (symbol, bits) in &codes {
            let mut stream = bits.clone();
            stream.extend([1, 0, 0, 1, 1, 1, 0, 1]);
            let (expected, read) = split(&codes, 0, &stream);
            assert_eq!(expected, *symbol);
            if filled == 8 {
                assert_eq!(read, bits.len());
            }
            let mut input = reader(&stream);
            assert_eq!(HuffmanNode::get_code(&tree, &mut input), Ok(*symbol as u32));
            let rest = stream.len() - read;
            let mut left = Vec::new();
            for _ in 0..rest {
                left.push(input.get_bit().unwrap() as u8);
            }
            assert_eq!(left[..], stream[read..]);
        }
    }
    assert!(built > 0 && complete > 0);
}

#[test]
fn every_complete_table_is_built() {
    // every way to fill the code space with codes of up to three bits
    let mut seen = 0;
    for n in 0..4usize.pow(6) {
        let lengths: Vec<u8> = (0..6).map(|i| ((n >> (2 * i)) & 3) as u8).collect();
        let filled: u32 = lengths.iter().filter(|l| **l > 0).map(|l| 8 >> *l).sum();
        if filled == 8 {
            seen += 1;
            assert!(HuffmanNode::build(lengths).is_ok());
        }
    }
    assert!(seen > 10);
}

#[test]
fn build_trie_goes_on_behind_the_bits_that_were_read() {
    let leaf = |s: u16| Box::new(HuffmanNode::Code(s));
    // the codes 00 and 01, of which the first bit was read
    let entries = vec![(2u8, 0u16, 0b00u32), (2, 1, 0b10)];
    assert_eq!(
        HuffmanNode::build_trie(&entries, 1),
        Ok(HuffmanNode::Node { zero: leaf(0), one: leaf(1) })
    );
    assert_eq!(HuffmanNode::build_trie(&entries, 0), Err(GzipError::InternalError));
    // the codes 100, 101 and 11 behind their first bit
    let entries = vec![(3u8, 4u16, 0b001u32), (3, 5, 0b101), (2, 6, 0b11)];
    let tree = HuffmanNode::build_trie(&entries, 1).unwrap();
    assert_eq!(
        tree,
        HuffmanNode::Node {
            zero: Box::new(HuffmanNode::Node { zero: leaf(4), one: leaf(5) }),
            one: leaf(6),
        }
    );
    // one entry is a leaf wherever it stands
    assert_eq!(HuffmanNode::build_trie(&vec![(2, 9, 0b01)], 7), Ok(HuffmanNode::Code(9)));
    // entries of which nothing is left cannot be told apart
    assert_eq!(HuffmanNode::build_trie(&entries, 3), Err(GzipError::InternalError));
    assert_eq!(HuffmanNode::build_trie(&entries, 40000), Err(GzipError::InternalError));
}

/// The symbols at the leaves of a trie, from the zero side to the one side.
fn leaves(tree: &HuffmanNode, found: &mut Vec<u16>) {
    match tree {
        HuffmanNode::Code(symbol) => found.push(*symbol),
        HuffmanNode::Node { zero, one } => {
            leaves(zero, found);
            leaves(one, found);
        }
    }
}

#[test]
fn the_leaves_of_a_trie_are_the_symbols_of_its_table() {
    let mut built = 0;
    for n in 0..4usize.pow(6) {
        let lengths: Vec<u8> = (0..6).map(|i| ((n >> (2 * i)) & 3) as u8).collect();
        if let Ok(tree) = HuffmanNode::build(lengths.clone()) {
            built += 1;
            let mut found = Vec::new();
            leaves(&tree, &mut found);
            found.sort();
            let used: Vec<u16> = (0..6u16).filter(|s| lengths[*s as usize] > 0).collect();
            assert_eq!(found, used, "{:?}", lengths);
        }
    }
    assert!(built > 10);
}
