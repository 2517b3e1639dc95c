use rgzip::blocks::dynamic::{BlockDynamic, CODE_LENGTHS_UNSHUFFLE};
use rgzip::blocks::fixed::BlockFixed;
use rgzip::blocks::huffman::HuffmanNode;
use rgzip::blocks::stored::BlockStored;
use rgzip::blocks::window::WindowDecoder;
use rgzip::buffers::circular::CircularBuffer;
use rgzip::buffers::inmemory::InMemoryBuffer;
use rgzip::decoder::{decode_block, decode_deflate};
use rgzip::errors::GzipError;
use rgzip::sources::bitadapter::BitAdapter;
use rgzip::sources::bitsource::BitSource;
use rgzip::sources::bytesource::ByteSource;
use rgzip::sources::vecsource::VecSource;
use rgzip::sources::wideadapter::WideAdapter;

fn inflate(data: Vec<u8>) -> (Result<(), GzipError>, Vec<u8>) {
    let mut bits = BitAdapter::new(VecSource::new(data.clone()));
    let mut out = CircularBuffer::new(Vec::new());
    let r = decode_deflate(&mut bits, &mut out);
    let out = out.into_sink();
    // the other bit reader and the other buffer decode alike
    let mut wide = WideAdapter::new(VecSource::new(data));
    let mut other = InMemoryBuffer::new(Vec::new());
    assert_eq!(decode_deflate(&mut wide, &mut other), r);
    assert_eq!(other.into_sink(), out);
    (r, out)
}

/// Packs bits into bytes, the first bit into the least significant place.
fn pack(bits: &[u8]) -> Vec<u8> {
    let mut bytes = vec![0u8; (bits.len() + 7) / 8];
    for (i, b) in bits.iter().enumerate() {
        bytes[i / 8] |= b << (i % 8);
    }
    bytes
}

/// The bits of a code of `len` bits, the most significant first.
fn code(value: u32, len: u32) -> Vec<u8> {
    (0..len).map(|i| ((value >> (len - 1 - i)) & 1) as u8).collect()
}

/// The bits of a field of `len` bits, the least significant first.
fn field(value: u32, len: u32) -> Vec<u8> {
    (0..len).map(|i| ((value >> i) & 1) as u8).collect()
}

/// The code of a literal/length symbol in a fixed block.
fn fixed(symbol: u32) -> Vec<u8> {
    if symbol < 144 {
        code(0x30 + symbol, 8)
    } else if symbol < 256 {
        code(0x190 + symbol - 144, 9)
    } else if symbol < 280 {
        code(symbol - 256, 7)
    } else {
        code(0xC0 + symbol - 280, 8)
    }
}

/// The canonical codes of a table of code lengths, by the rule of the
/// format: the value and the length of each symbol's code.
fn canonical(lengths: &[u8]) -> Vec<(u32, u32)> {
    let mut next = vec![0u32; 17];
    let mut count = vec![0u32; 17];
    for l in lengths {
        count[*l as usize] += 1;
    }
    count[0] = 0;
    let mut value = 0;
    for bits in 1..17 {
        value = (value + count[bits - 1]) << 1;
        next[bits] = value;
    }
    lengths
        .iter()
        .map(|l| {
            let c = next[*l as usize];
            if *l > 0 {
                next[*l as usize] += 1;
            }
            (c, *l as u32)
        })
        .collect()
}

/// The opening of a dynamic block, marked as the last block: the counts and
/// the two tables of code lengths, each length written with a code of four
/// bits.
fn dynamic_tables(literals: &[u8], distances: &[u8]) -> Vec<u8> {
    let mut bits = vec![1];
    bits.extend(field(2, 2));
    bits.extend(field(literals.len() as u32 - 257, 5));
    bits.extend(field(distances.len() as u32 - 1, 5));
    bits.extend(field(19 - 4, 4));
    for symbol in CODE_LENGTHS_UNSHUFFLE {
        bits.extend(field(if symbol < 16 { 4 } else { 0 }, 3));
    }
    for l in literals.iter().chain(distances) {
        bits.extend(code(*l as u32, 4));
    }
    bits
}

fn table(size: usize, used: &[(usize, u8)]) -> Vec<u8> {
    let mut lengths = vec![0u8; size];
    for (symbol, len) in used {
        lengths[*symbol] = *len;
    }
    lengths
}

#[test]
fn every_literal_of_the_fixed_code() {
    let mut bits = vec![1, 1, 0];
    for b in 0..=255u32 {
        bits.extend(fixed(b));
    }
    bits.extend(fixed(256));
    let (r, out) = inflate(pack(&bits));
    assert_eq!(r, Ok(()));
    assert_eq!(out, (0..=255u8).collect::<Vec<u8>>());
}

#[test]
fn fixed_code_symbol_by_symbol() {
    let block = BlockFixed::new();
    for symbol in [0u32, 65, 143, 144, 200, 255, 256, 257, 279, 280, 285, 286, 287] {
        let mut bits = fixed(symbol);
        bits.extend([1, 0, 1]);
        let mut input = BitAdapter::new(VecSource::new(pack(&bits)));
        assert_eq!(block.get_literal(&mut input), Ok(symbol));
        assert_eq!(input.get_bits(3), Ok(0b101));
    }
    let mut input = BitAdapter::new(VecSource::new(vec![0b0001_0110]));
    // five bits, the first the most significant: 0, 1, 1, 0, 1
    assert_eq!(block.get_distance(&mut input), Ok(0b01101));
    let mut input = BitAdapter::new(VecSource::new(vec![0b0011_1111]));
    assert_eq!(block.get_literal(&mut input), Err(GzipError::TruncatedFile));
}

#[test]
fn lengths_and_distances_with_their_extra_bits() {
    let block = BlockFixed::new();
    let read = |symbol: u32, length_more: (u32, u32), distance: u32, distance_more: (u32, u32)| {
        let mut bits = field(length_more.0, length_more.1);
        bits.extend(code(distance, 5));
        bits.extend(field(distance_more.0, distance_more.1));
        let mut input = BitAdapter::new(VecSource::new(pack(&bits)));
        block.get_window(&mut input, symbol)
    };
    assert_eq!(read(257, (0, 0), 0, (0, 0)), Ok((3, 1)));
    assert_eq!(read(264, (0, 0), 3, (0, 0)), Ok((10, 4)));
    assert_eq!(read(265, (1, 1), 4, (1, 1)), Ok((12, 6)));
    assert_eq!(read(273, (5, 3), 10, (9, 4)), Ok((40, 42)));
    assert_eq!(read(284, (30, 5), 29, (8191, 13)), Ok((257, 32768)));
    // length 258 has a symbol of its own
    assert_eq!(read(284, (31, 5), 29, (0, 13)), Err(GzipError::InvalidDeflateStream));
    assert_eq!(read(285, (0, 0), 28, (1, 13)), Ok((258, 16386)));
    assert_eq!(read(257, (0, 0), 30, (0, 0)), Err(GzipError::InvalidDeflateStream));
    assert_eq!(read(257, (0, 0), 31, (0, 0)), Err(GzipError::InvalidDeflateStream));
    // the extra bits of the distance are missing
    let mut input = BitAdapter::new(VecSource::new(pack(&code(29, 5))));
    assert_eq!(block.get_window(&mut input, 257), Err(GzipError::TruncatedFile));
}

#[test]
fn length_symbols_that_are_not_assigned_fail() {
    for symbol in [286, 287] {
        let mut bits = vec![1, 1, 0];
        bits.extend(fixed(65));
        bits.extend(fixed(symbol));
        bits.extend(fixed(256));
        let (r, out) = inflate(pack(&bits));
        assert_eq!(r, Err(GzipError::InvalidDeflateStream));
        assert_eq!(out, b"A".to_vec());
    }
}

#[test]
fn a_distance_symbol_of_thirty_or_more_fails() {
    let mut bits = vec![1, 1, 0];
    bits.extend(fixed(65));
    bits.extend(fixed(257));
    bits.extend(code(30, 5));
    bits.extend(fixed(256));
    let (r, out) = inflate(pack(&bits));
    assert_eq!(r, Err(GzipError::InvalidDeflateStream));
    assert_eq!(out, b"A".to_vec());
}

#[test]
fn a_block_without_its_end_is_a_truncated_file() {
    let mut bits = vec![1, 1, 0];
    bits.extend(fixed(65));
    bits.extend(fixed(66));
    let (r, out) = inflate(pack(&bits));
    assert_eq!(r, Err(GzipError::TruncatedFile));
    assert_eq!(out[..2], b"AB"[..]);
}

#[test]
fn blocks_follow_each_other_until_the_last() {
    // a stored block, a fixed block that refers back into it, a last stored block
    let mut bits = vec![0, 0, 0, 0, 0, 0, 0, 0];
    bits.extend(field(3, 16));
    bits.extend(field(!3u32 & 0xFFFF, 16));
    for b in b"abc" {
        bits.extend(field(*b as u32, 8));
    }
    bits.extend([0, 1, 0]);
    bits.extend(fixed(257 + 2));
    bits.extend(code(2, 5));
    bits.extend(fixed(256));
    bits.extend([1, 0, 0]);
    while bits.len() % 8 != 0 {
        bits.push(1);
    }
    bits.extend(field(1, 16));
    bits.extend(field(!1u32 & 0xFFFF, 16));
    bits.extend(field(b'!' as u32, 8));
    // what follows the last block is not read
    bits.extend(field(0xFFFF, 16));
    let (r, out) = inflate(pack(&bits));
    assert_eq!(r, Ok(()));
    assert_eq!(out, b"abcabcab!".to_vec());
}

#[test]
fn a_stored_block_of_the_greatest_length() {
    let payload: Vec<u8> = (0..70000u32).map(|i| (i * 7 + 3) as u8).collect();
    let mut stream = vec![0x00, 0xFF, 0xFF, 0x00, 0x00];
    stream.extend(&payload[..65535]);
    stream.extend([0x01, 0x71, 0x11, 0x8E, 0xEE]);
    stream.extend(&payload[65535..]);
    let (r, out) = inflate(stream);
    assert_eq!(r, Ok(()));
    assert_eq!(out, payload);
}

#[test]
fn a_stored_block_is_read_from_the_next_byte_boundary() {
    let mut input = BitAdapter::new(VecSource::new(vec![0xFF, 2, 0, 0xFD, 0xFF, 8, 9, 0x55]));
    assert_eq!(input.get_bits(3), Ok(7));
    let mut output = CircularBuffer::new(Vec::new());
    assert_eq!(BlockStored::new().decode(&mut input, &mut output), Ok(()));
    assert_eq!(output.into_sink(), vec![8, 9]);
    assert_eq!(input.get_u8(), Ok(0x55));
}

#[test]
fn a_block_by_its_type() {
    let mut output = CircularBuffer::new(Vec::new());
    let mut input = BitAdapter::new(VecSource::new(vec![1, 0, 0xFE, 0xFF, 77]));
    assert_eq!(decode_block(0, &mut input, &mut output), Ok(()));
    let mut input = BitAdapter::new(VecSource::new(pack(&[fixed(78), fixed(256)].concat())));
    assert_eq!(decode_block(1, &mut input, &mut output), Ok(()));
    let mut input = BitAdapter::new(VecSource::new(vec![0; 8]));
    assert_eq!(decode_block(3, &mut input, &mut output), Err(GzipError::DeflateModeNotSupported));
    assert_eq!(decode_block(200, &mut input, &mut output), Err(GzipError::DeflateModeNotSupported));
    assert_eq!(output.into_sink(), vec![77, 78]);
}

#[test]
fn a_long_text_wraps_the_window() {
    // from a reference compressor: 3000 times the same 36 letters
    let stream = vec![
        237, 202, 73, 2, 66, 0, 0, 0, 192, 47, 17, 21, 207, 33, 84, 150, 146, 37, 203, 235, 61,
        195, 101, 230, 60, 65, 120, 137, 226, 235, 237, 158, 164, 89, 254, 40, 202, 234, 249,
        122, 215, 77, 219, 125, 190, 253, 111, 24, 167, 249, 191, 172, 219, 30, 56, 142, 227,
        56, 142, 227, 56, 142, 227, 56, 142, 227, 56, 142, 227, 56, 142, 227, 56, 142, 227, 56,
        142, 227, 56, 142, 227, 56, 142, 227, 56, 142, 227, 56, 142, 227, 56, 142, 227, 56,
        142, 227, 56, 142, 227, 56, 142, 227, 56, 142, 227, 56, 142, 227, 56, 142, 227, 56,
        142, 227, 56, 142, 227, 56, 142, 227, 56, 142, 227, 56, 142, 227, 56, 142, 227, 56,
        142, 227, 56, 142, 227, 56, 142, 227, 56, 142, 227, 56, 142, 227, 56, 142, 227, 56,
        142, 227, 56, 142, 227, 56, 142, 227, 56, 142, 227, 56, 142, 227, 56, 142, 227, 56,
        142, 227, 56, 142, 227, 56, 142, 227, 56, 142, 227, 56, 142, 227, 56, 142, 227, 56,
        142, 227, 56, 142, 227, 56, 142, 227, 56, 142, 227, 56, 142, 227, 56, 142, 227, 56,
        142, 227, 56, 142, 227, 56, 142, 227, 56, 142, 227, 56, 142, 227, 56, 142, 227, 56,
        142, 227, 56, 142, 227, 56, 142, 227, 56, 142, 227, 56, 142, 227, 56, 142, 227, 56,
        142, 227, 56, 142, 227, 56, 142, 227, 56, 142, 227, 56, 142, 227, 56, 142, 227, 56,
        142, 227, 56, 142, 227, 56, 142, 227, 56, 142, 227, 56, 142, 227, 56, 142, 227, 56,
        142, 227, 56, 142, 227, 56, 142, 227, 56, 142, 227, 56, 142, 227, 56, 142, 227, 56,
        142, 227, 56, 142, 227, 56, 142, 227, 56, 142, 227, 56, 142, 227, 56, 142, 227, 56,
        142, 227, 56, 142, 227, 56, 142, 227, 56, 142, 227, 56, 142, 227, 56, 142, 227, 56,
        142, 227, 56, 142, 227, 56, 142, 227, 56, 142, 227, 56, 142, 227, 56, 142, 227, 56,
        142, 227, 56, 142, 227, 56, 142, 227, 56, 142, 227, 56, 142, 227, 56, 142, 227, 56,
        142, 227, 56, 206, 73, 231, 0,
    ];
    let (r, out) = inflate(stream);
    assert_eq!(r, Ok(()));
    let text = b"0123456789abcdefghijklmnopqrstuvwxyz";
    assert_eq!(out.len(), 3000 * text.len());
    for (i, b) in out.iter().enumerate() {
        assert_eq!(*b, text[i % text.len()]);
    }
}

#[test]
fn dynamic_block_with_codes_of_its_own() {
    let literals = table(258, &[(97, 2), (98, 2), (256, 2), (257, 2)]);
    let distances = table(2, &[(0, 1), (1, 1)]);
    let codes = canonical(&literals);
    let far = canonical(&distances);
    let mut bits = dynamic_tables(&literals, &distances);
    for symbol in [97usize, 98, 98, 97] {
        bits.extend(code(codes[symbol].0, codes[symbol].1));
    }
    // length 3 at distance 2
    bits.extend(code(codes[257].0, codes[257].1));
    bits.extend(code(far[1].0, far[1].1));
    bits.extend(code(codes[256].0, codes[256].1));
    let (r, out) = inflate(pack(&bits));
    assert_eq!(r, Ok(()));
    assert_eq!(out, b"abbabab".to_vec());
}

#[test]
fn dynamic_block_with_the_example_table() {
    // the code lengths 3, 3, 3, 3, 3, 2, 4, 4 for the symbols A to H, and
    // a code of 4 bits for the end of the block in place of the second of 4 bits
    let mut used: Vec<(usize, u8)> = [3u8, 3, 3, 3, 3, 2, 4]
        .iter()
        .enumerate()
        .map(|(i, l)| (b'A' as usize + i, *l))
        .collect();
    used.push((256, 4));
    let literals = table(257, &used);
    let distances = table(1, &[(0, 1)]);
    let codes = canonical(&literals);
    assert_eq!(codes[b'A' as usize], (0b010, 3));
    assert_eq!(codes[b'F' as usize], (0b00, 2));
    assert_eq!(codes[b'G' as usize], (0b1110, 4));
    assert_eq!(codes[256], (0b1111, 4));
    let mut bits = dynamic_tables(&literals, &distances);
    for b in b"FACEBAGGAGE" {
        bits.extend(code(codes[*b as usize].0, codes[*b as usize].1));
    }
    bits.extend(code(codes[256].0, codes[256].1));
    let (r, out) = inflate(pack(&bits));
    assert_eq!(r, Ok(()));
    assert_eq!(out, b"FACEBAGGAGE".to_vec());
}

#[test]
fn dynamic_block_whose_only_code_ends_it_is_empty() {
    let bits = dynamic_tables(&table(257, &[(256, 1)]), &table(1, &[(0, 1)]));
    let (r, out) = inflate(pack(&bits));
    assert_eq!(r, Ok(()));
    assert!(out.is_empty());
}

#[test]
fn dynamic_block_that_could_never_end_fails() {
    let bits = dynamic_tables(&table(257, &[(65, 1)]), &table(1, &[(0, 1)]));
    let (r, out) = inflate(pack(&bits));
    assert_eq!(r, Err(GzipError::InvalidDeflateStream));
    assert!(out.is_empty());
}

#[test]
fn dynamic_block_with_a_table_without_a_trie_fails() {
    // no distance code at all
    let bits = dynamic_tables(&table(257, &[(65, 1), (256, 1)]), &table(1, &[]));
    assert_eq!(inflate(pack(&bits)).0, Err(GzipError::InternalError));
    // three literal/length codes of one bit
    let bits = dynamic_tables(&table(257, &[(65, 1), (66, 1), (256, 1)]), &table(1, &[(0, 1)]));
    assert_eq!(inflate(pack(&bits)).0, Err(GzipError::InternalError));
    // code-length codes from which no trie can be built: all of length zero
    let mut bits = vec![1];
    bits.extend(field(2, 2));
    bits.extend(field(0, 14));
    bits.extend(field(0, 12));
    assert_eq!(inflate(pack(&bits)).0, Err(GzipError::InternalError));
}

#[test]
fn dynamic_block_cut_short_is_a_truncated_file() {
    let literals = table(257, &[(65, 1), (256, 1)]);
    let mut bits = dynamic_tables(&literals, &table(1, &[(0, 1)]));
    bits.extend([0, 0, 1]);
    let whole = bits.len();
    assert_eq!(inflate(pack(&bits)), (Ok(()), b"AA".to_vec()));
    for n in [0usize, 1, 2, 3, 10, 16, 17, 40, 72, 80, 130] {
        assert!(n * 8 < whole);
        assert_eq!(inflate(pack(&bits)[..n].to_vec()).0, Err(GzipError::TruncatedFile));
    }
}

#[test]
fn a_run_of_code_lengths() {
    // a code for the symbols 0, 5, 16, 17 and 18 of the code-length alphabet
    let mut lengths = vec![0u8; 19];
    lengths[0] = 3;
    lengths[5] = 3;
    lengths[16] = 2;
    lengths[17] = 2;
    lengths[18] = 3;
    // and a symbol to make the code complete
    lengths[8] = 3;
    let codes = canonical(&lengths);
    let tree = HuffmanNode::build(lengths).unwrap();
    let symbol = |s: usize| code(codes[s].0, codes[s].1);
    let builder = BlockDynamic::new();

    let mut bits = symbol(5);
    bits.extend(symbol(16));
    bits.extend(field(2, 2));
    bits.extend(symbol(17));
    bits.extend(field(1, 3));
    bits.extend(symbol(16));
    bits.extend(field(0, 2));
    bits.extend(symbol(0));
    bits.extend(symbol(18));
    bits.extend(field(3, 7));
    bits.extend(symbol(8));
    let mut expected = vec![5u8; 6];
    expected.extend(vec![0u8; 4 + 3 + 1 + 14]);
    let mut input = BitAdapter::new(VecSource::new(pack(&bits)));
    assert_eq!(builder.decode_lengths(&tree, 28, &mut input), Ok(expected.clone()));
    // the last symbol was not needed
    assert_eq!(HuffmanNode::get_code(&tree, &mut input), Ok(8));
    // a repeat that would go beyond the size asked for is cut there
    let mut input = BitAdapter::new(VecSource::new(pack(&bits)));
    assert_eq!(builder.decode_lengths(&tree, 15, &mut input), Ok(expected[..15].to_vec()));
    assert_eq!(HuffmanNode::get_code(&tree, &mut input), Ok(8));
    for size in 0..=28usize {
        let mut input = BitAdapter::new(VecSource::new(pack(&bits)));
        let lengths = builder.decode_lengths(&tree, size, &mut input).unwrap();
        assert_eq!(lengths, expected[..size].to_vec());
    }
    let mut input = BitAdapter::new(VecSource::new(pack(&bits)));
    assert_eq!(builder.decode_lengths(&tree, 0, &mut input), Ok(vec![]));
    let mut input = BitAdapter::new(VecSource::new(pack(&bits)));
    assert_eq!(builder.decode_lengths(&tree, 30, &mut input), Err(GzipError::TruncatedFile));
}

#[test]
fn a_repeat_without_a_length_before_it_fails() {
    let mut lengths = vec![0u8; 19];
    lengths[5] = 1;
    lengths[16] = 1;
    let codes = canonical(&lengths);
    let tree = HuffmanNode::build(lengths).unwrap();
    let mut bits = code(codes[16].0, codes[16].1);
    bits.extend(field(0, 2));
    let mut input = BitAdapter::new(VecSource::new(pack(&bits)));
    assert_eq!(
        BlockDynamic::new().decode_lengths(&tree, 4, &mut input),
        Err(GzipError::InvalidDeflateStream)
    );
    // and where the stream ends inside the repeat, that comes first
    let mut input = BitAdapter::new(VecSource::new(vec![0b1]));
    assert_eq!(input.get_bits_rev(7), Ok(1));
    assert_eq!(
        BlockDynamic::new().decode_lengths(&tree, 4, &mut input),
        Err(GzipError::TruncatedFile)
    );
}

#[test]
fn the_fixed_code_is_the_canonical_code_of_its_lengths() {
    let mut lengths = vec![8u8; 144];
    lengths.extend(vec![9u8; 112]);
    lengths.extend(vec![7u8; 24]);
    lengths.extend(vec![8u8; 8]);
    let codes = canonical(&lengths);
    let tree = HuffmanNode::build(lengths).unwrap();
    let block = BlockFixed::new();
    for symbol in 0..288u32 {
        let (value, len) = codes[symbol as usize];
        assert_eq!(code(value, len), fixed(symbol));
        let stream = pack(&code(value, len));
        let mut input = BitAdapter::new(VecSource::new(stream.clone()));
        assert_eq!(block.get_literal(&mut input), Ok(symbol));
        let mut input = BitAdapter::new(VecSource::new(stream));
        assert_eq!(HuffmanNode::get_code(&tree, &mut input), Ok(symbol));
    }
}

#[test]
fn dynamic_block_with_tables_written_as_runs() {
    // the letters a to d with codes of three bits, the end of the block with one
    let literals = table(257, &[(97, 3), (98, 3), (99, 3), (100, 3), (256, 1)]);
    // the code-length codes: the lengths 1 and 3, and the three kinds of run
    let mut code_lengths = vec![0u8; 19];
    code_lengths[1] = 2;
    code_lengths[3] = 2;
    code_lengths[16] = 2;
    code_lengths[17] = 3;
    code_lengths[18] = 3;
    let written = canonical(&code_lengths);
    let symbol = |s: usize| code(written[s].0, written[s].1);

    let mut bits = vec![1];
    bits.extend(field(2, 2));
    bits.extend(field(0, 5));
    bits.extend(field(0, 5));
    bits.extend(field(18 - 4, 4));
    for position in &CODE_LENGTHS_UNSHUFFLE[..18] {
        bits.extend(field(code_lengths[*position] as u32, 3));
    }
    // 97 zeros, the length 3 and three repeats of it, 155 zeros in three runs,
    // the length 1, and the length 1 of the only distance code
    bits.extend(symbol(18));
    bits.extend(field(97 - 11, 7));
    bits.extend(symbol(3));
    bits.extend(symbol(16));
    bits.extend(field(3 - 3, 2));
    bits.extend(symbol(18));
    bits.extend(field(138 - 11, 7));
    bits.extend(symbol(17));
    bits.extend(field(7 - 3, 3));
    bits.extend(symbol(17));
    bits.extend(field(10 - 3, 3));
    bits.extend(symbol(1));
    bits.extend(symbol(1));

    let codes = canonical(&literals);
    for b in b"adcbbad" {
        bits.extend(code(codes[*b as usize].0, codes[*b as usize].1));
    }
    bits.extend(code(codes[256].0, codes[256].1));
    let (r, out) = inflate(pack(&bits));
    assert_eq!(r, Ok(()));
    assert_eq!(out, b"adcbbad".to_vec());
}

#[test]
fn a_repeat_in_the_tables_of_a_block_is_cut_after_the_last_length() {
    // the letter a and the end of the block, with a code of one bit each
    let literals = table(257, &[(97, 1), (256, 1)]);
    let mut code_lengths = vec![0u8; 19];
    code_lengths[1] = 2;
    code_lengths[16] = 2;
    code_lengths[17] = 2;
    code_lengths[18] = 2;
    let written = canonical(&code_lengths);
    let symbol = |s: usize| code(written[s].0, written[s].1);

    let mut bits = vec![1];
    bits.extend(field(2, 2));
    bits.extend(field(0, 5));
    bits.extend(field(0, 5));
    bits.extend(field(18 - 4, 4));
    for position in &CODE_LENGTHS_UNSHUFFLE[..18] {
        bits.extend(field(code_lengths[*position] as u32, 3));
    }
    // 97 zeros, the length 1, 158 zeros in three runs, the length 1, and a
    // repeat of it six times where one length is missing
    bits.extend(symbol(18));
    bits.extend(field(97 - 11, 7));
    bits.extend(symbol(1));
    bits.extend(symbol(18));
    bits.extend(field(138 - 11, 7));
    bits.extend(symbol(17));
    bits.extend(field(10 - 3, 3));
    bits.extend(symbol(17));
    bits.extend(field(10 - 3, 3));
    bits.extend(symbol(1));
    bits.extend(symbol(16));
    bits.extend(field(6 - 3, 2));

    let codes = canonical(&literals);
    for b in b"aaa" {
        bits.extend(code(codes[*b as usize].0, codes[*b as usize].1));
    }
    bits.extend(code(codes[256].0, codes[256].1));
    let (r, out) = inflate(pack(&bits));
    assert_eq!(r, Ok(()));
    assert_eq!(out, b"aaa".to_vec());
}
