use rgzip::buffers::channel::{forward_all, ChannelBuffer};
use rgzip::buffers::circular::CircularBuffer;
use rgzip::buffers::copy::CopyBuffer;
use rgzip::buffers::inmemory::InMemoryBuffer;
use rgzip::decoder::decode_deflate;
use rgzip::errors::GzipError;
use rgzip::sinks::limited::LimitedSink;
use rgzip::sources::bitadapter::BitAdapter;
use rgzip::sources::vecsource::VecSource;
use rgzip::sources::wideadapter::WideAdapter;
use rgzip::sources::widesource::WideSource;

fn inflate(data: Vec<u8>) -> (Result<(), GzipError>, Vec<u8>) {
    let mut bits = BitAdapter::new(VecSource::new(data.clone()));
    let mut out = CircularBuffer::new(Vec::new());
    let r = decode_deflate(&mut bits, &mut out);
    let out = out.into_sink();

    // every bit reader and every buffer decodes alike
    let mut wide = WideAdapter::new(WideSource::new(data.clone()));
    let mut copy = CopyBuffer::new(Vec::new());
    assert_eq!(decode_deflate(&mut wide, &mut copy), r);
    assert_eq!(copy.finish(), Ok(out.clone()));

    let mut wide = WideAdapter::new(VecSource::new(data.clone()));
    let mut memory = InMemoryBuffer::new(Vec::new());
    assert_eq!(decode_deflate(&mut wide, &mut memory), r);
    assert_eq!(memory.into_sink(), out);

    let mut bits = BitAdapter::new(WideSource::new(data));
    let mut channel = ChannelBuffer::new();
    assert_eq!(decode_deflate(&mut bits, &mut channel), r);
    let mut worker = CircularBuffer::new(Vec::new());
    assert!(forward_all(&mut worker, &channel.into_queue()).is_ok());
    assert_eq!(worker.into_sink(), out);

    (r, out)
}

/// Packs bits into bytes, the first bit into the least significant place.
fn pack(bits: &[u8]) -> Vec<u8> {
    let mut bytes = vec![0u8; (bits.len() + 7) / 8];
    for (i, b) in bits.iter().enumerate() {
        bytes[i / 8] |= b << (i % 8);
    }
    bytes
}

/// The bits of a code of `len` bits, the most significant first.
fn code(value: u32, len: u32) -> Vec<u8> {
    (0..len).map(|i| ((value >> (len - 1 - i)) & 1) as u8).collect()
}

#[test]
fn stored_block_of_no_bytes_gives_no_output() {
    let (r, out) = inflate(vec![0x01, 0x00, 0x00, 0xFF, 0xFF]);
    assert_eq!(r, Ok(()));
    assert!(out.is_empty());
}

#[test]
fn stored_block_gives_its_bytes() {
    let (r, out) = inflate(vec![0x01, 0x05, 0x00, 0xFA, 0xFF, 9, 0, 255, 7, 31]);
    assert_eq!(r, Ok(()));
    assert_eq!(out, vec![9, 0, 255, 7, 31]);
}

#[test]
fn stored_block_with_fields_that_disagree_fails() {
    let (r, out) = inflate(vec![0x01, 0x03, 0x00, 0x03, 0x00, 1, 2, 3]);
    assert_eq!(r, Err(GzipError::StoredHeaderFailure));
    assert!(out.is_empty());
}

#[test]
fn fixed_block_of_four_literals() {
    let mut bits = vec![1, 1, 0];
    for _ in 0..4 {
        bits.extend(code(0x30 + 65, 8));
    }
    bits.extend(code(0, 7));
    let (r, out) = inflate(pack(&bits));
    assert_eq!(r, Ok(()));
    assert_eq!(out, b"AAAA".to_vec());
}

#[test]
fn fixed_block_with_a_copy_that_overlaps_itself() {
    let mut bits = vec![1, 1, 0];
    bits.extend(code(0x30 + 65, 8));
    // length 3 is symbol 257, distance 1 is distance symbol 0
    bits.extend(code(1, 7));
    bits.extend(code(0, 5));
    bits.extend(code(0, 7));
    let (r, out) = inflate(pack(&bits));
    assert_eq!(r, Ok(()));
    assert_eq!(out, b"AAAA".to_vec());
}

#[test]
fn fixed_block_from_a_reference_compressor() {
    let (r, out) = inflate(vec![115, 116, 116, 116, 4, 0]);
    assert_eq!(r, Ok(()));
    assert_eq!(out, b"AAAA".to_vec());
    let (r, out) = inflate(vec![203, 72, 205, 201, 201, 87, 200, 64, 39, 1]);
    assert_eq!(r, Ok(()));
    assert_eq!(out, b"hello hello hello hello".to_vec());
}

#[test]
fn stored_block_from_a_reference_compressor() {
    let (r, out) = inflate(vec![1, 5, 0, 250, 255, 104, 101, 108, 108, 111]);
    assert_eq!(r, Ok(()));
    assert_eq!(out, b"hello".to_vec());
}

#[test]
fn dynamic_block_from_a_reference_compressor() {
    let stream = vec![
        117, 207, 193, 9, 195, 48, 12, 133, 225, 85, 52, 64, 233, 20, 189, 20, 186, 132, 19, 63,
        219, 162, 137, 101, 36, 21, 211, 237, 139, 79, 197, 36, 57, 127, 191, 120, 232, 233, 212,
        131, 145, 23, 208, 2, 115, 146, 68, 206, 59, 236, 70, 252, 151, 46, 122, 69, 33, 99, 64,
        103, 139, 178, 159, 73, 18, 217, 216, 74, 133, 205, 135, 104, 178, 150, 17, 44, 216, 24,
        233, 220, 184, 174, 138, 248, 217, 216, 191, 83, 96, 8, 38, 117, 20, 47, 206, 197, 47, 236,
        17, 244, 125, 216, 181, 166, 92, 243, 224, 34, 13, 243, 155, 92, 29, 58, 40, 194, 90, 96,
        189, 255, 0,
    ];
    let text = "It was the best of times, it was the worst of times, it was the age of wisdom, \
                it was the age of foolishness, it was the epoch of belief, it was the epoch of \
                incredulity, it was the season of Light, it was the season of Darkness, it was \
                the spring of hope, it was the winter of despair.";
    let (r, out) = inflate(stream);
    assert_eq!(r, Ok(()));
    assert_eq!(out, text.as_bytes().to_vec());
}

#[test]
fn reserved_block_type_fails() {
    let (r, out) = inflate(pack(&[1, 1, 1, 0, 0, 0, 0, 0]));
    assert_eq!(r, Err(GzipError::DeflateModeNotSupported));
    assert!(out.is_empty());
}

#[test]
fn input_that_ends_early_fails() {
    let (r, _) = inflate(vec![]);
    assert_eq!(r, Err(GzipError::TruncatedFile));
    let (r, out) = inflate(vec![0x01, 0x05, 0x00, 0xFA, 0xFF, 9, 0]);
    assert_eq!(r, Err(GzipError::TruncatedFile));
    assert_eq!(out, vec![9, 0]);
}

#[test]
fn copy_from_before_the_first_byte_fails() {
    let mut bits = vec![1, 1, 0];
    bits.extend(code(0x30 + 65, 8));
    // length 3, distance 2: only one byte was produced
    bits.extend(code(1, 7));
    bits.extend(code(1, 5));
    bits.extend(code(0, 7));
    let (r, out) = inflate(pack(&bits));
    assert_eq!(r, Err(GzipError::InvalidDeflateStream));
    assert_eq!(out, b"A".to_vec());
}

#[test]
fn a_payload_in_a_stored_block_comes_out_of_it() {
    for len in [0usize, 1, 255, 256, 257, 40000, 65535] {
        let payload: Vec<u8> = (0..len).map(|i| (i * 31 + 5) as u8).collect();
        let mut stream = vec![
            1,
            (len % 256) as u8,
            (len / 256) as u8,
            (255 - len % 256) as u8,
            (255 - len / 256) as u8,
        ];
        stream.extend(&payload);
        let (r, out) = inflate(stream);
        assert_eq!(r, Ok(()));
        assert_eq!(out, payload);
    }
}

#[test]
fn what_reached_the_sink_stays_when_a_write_is_refused() {
    // four times the letter A, into sinks with room for fewer
    for room in 0..4usize {
        let mut bits = BitAdapter::new(VecSource::new(vec![115, 116, 116, 116, 4, 0]));
        let mut out = CircularBuffer::new(LimitedSink::new(room));
        assert_eq!(decode_deflate(&mut bits, &mut out), Err(GzipError::CantWriteFile));
        assert_eq!(out.into_sink().into_vec(), b"AAAA"[..room].to_vec());
    }
    let mut bits = BitAdapter::new(VecSource::new(vec![115, 116, 116, 116, 4, 0]));
    let mut out = CircularBuffer::new(LimitedSink::new(4));
    assert_eq!(decode_deflate(&mut bits, &mut out), Ok(()));
    assert_eq!(out.into_sink().into_vec(), b"AAAA".to_vec());
}

/// Bytes drawn from `alphabet` by a fixed rule.
fn drawn(seed: u64, count: usize, alphabet: &[u8]) -> Vec<u8> {
    let mut x = seed;
    (0..count)
        .map(|_| {
            x = (x * 1103515245 + 12345) & 0x7fff_ffff;
            alphabet[((x >> 8) % alphabet.len() as u64) as usize]
        })
        .collect()
}

#[test]
fn dynamic_block_of_drawn_letters_from_a_reference_compressor() {
    let stream = vec![
        29, 146, 137, 13, 128, 48, 12, 3, 87, 241, 106, 249, 189, 255, 4, 92, 145, 80, 161, 52,
        241, 151, 110, 164, 170, 226, 250, 66, 237, 186, 170, 94, 207, 197, 186, 171, 107, 42,
        52, 93, 101, 79, 246, 108, 103, 69, 150, 54, 88, 239, 114, 99, 212, 242, 37, 53, 122,
        91, 32, 178, 53, 225, 217, 141, 190, 146, 65, 140, 170, 147, 35, 115, 193, 92, 190,
        230, 230, 164, 166, 119, 236, 133, 34, 10, 8, 96, 14, 98, 43, 76, 227, 52, 26, 38, 16,
        83, 247, 148, 52, 197, 231, 132, 124, 114, 239, 10, 190, 77, 233, 56, 175, 220, 89,
        157, 70, 110, 179, 157, 209, 46, 176, 179, 211, 215, 200, 8, 200, 61, 99, 148, 209,
        184, 151, 136, 90, 12, 76, 52, 203, 81, 223, 17, 188, 50, 16, 78, 16, 195, 214, 53,
        113, 126, 143, 65, 129, 186, 21, 112, 3, 128, 23, 201, 139, 145, 211, 118, 243, 209,
        21, 240, 17, 143, 118, 34, 58, 23, 177, 168, 197, 15, 138, 224, 112, 253, 178, 69, 168,
        168, 142, 188, 64, 132, 98, 147, 176, 241, 219, 90, 178, 13, 54, 206, 218, 63, 59, 28,
        146, 2, 154, 160, 87, 111, 59, 33, 195, 51, 1, 35, 147, 49, 204, 196, 20, 25, 175, 85,
        226, 31, 14, 159, 27, 106, 193, 103, 129, 173, 95, 112, 247, 132, 195, 222, 118, 52,
        231, 160, 138, 100, 60, 68, 193, 68, 183, 107, 105, 78, 27, 194, 55, 239, 66, 36, 113,
        249, 165, 184, 28, 51, 130, 134, 107, 205, 147, 90, 168, 238, 1, 156, 50, 138, 172,
        241, 194, 16, 96, 98, 94, 61, 207, 37, 125, 36, 190, 12, 155, 241, 225, 72, 220, 130,
        152, 151, 0, 97, 112, 65, 176, 10, 13, 162, 215, 246, 27, 13, 153, 81, 70, 206, 147,
        72, 34, 236, 162, 35, 235, 101, 13, 181, 246, 192, 213, 187, 159, 212, 201, 111, 170,
        78, 102, 245, 174, 78, 124,
    ];
    let (r, out) = inflate(stream);
    assert_eq!(r, Ok(()));
    assert_eq!(out, drawn(7, 700, b"abcdefgh "));
}

#[test]
fn dynamic_block_without_references_from_a_reference_compressor() {
    let stream = vec![
        5, 193, 1, 1, 0, 0, 0, 128, 144, 173, 249, 63, 34, 64, 85, 73, 82, 146, 148, 136, 40,
        41, 84, 81, 170, 72, 170, 132, 144, 170, 170, 72, 85, 138, 34, 36, 10, 10, 130, 42, 81,
        17, 0, 42, 37, 10, 129, 40, 137, 138, 148, 42, 149, 34, 84, 162, 130, 74, 72, 40, 160,
        42, 32, 73, 36, 137, 148, 82, 36, 42, 40, 130, 146, 32, 149, 74, 0, 74, 32, 138, 82,
        73, 81, 69, 149, 42, 72, 161, 84, 85, 85, 136, 20, 149, 170, 20, 73, 161, 68, 16, 162,
        84, 72, 161, 10, 169, 164, 162, 170, 64, 85, 73, 82, 146, 148, 136, 40, 41, 84, 81,
        170, 72, 170, 132, 144, 170, 170, 72, 85, 138, 34, 36, 10, 10, 130, 42, 81, 17, 0, 42,
        37, 10, 129, 40, 137, 138, 148, 42, 149, 34, 84, 162, 130, 74, 72, 40, 160, 42, 32, 73,
        36, 137, 148, 82, 36, 42, 40, 130, 146, 32, 149, 74, 0, 74, 32, 138, 82, 73, 81, 69,
        149, 1,
    ];
    let (r, out) = inflate(stream);
    assert_eq!(r, Ok(()));
    assert_eq!(out, drawn(3, 900, b"ab"));
}

#[test]
fn several_blocks_from_a_reference_compressor() {
    // two compressed blocks with an empty stored block between them
    let stream = vec![
        28, 143, 193, 17, 0, 49, 8, 2, 255, 84, 12, 84, 239, 226, 220, 92, 162, 130, 171, 113,
        37, 187, 181, 149, 132, 144, 184, 113, 42, 171, 222, 17, 190, 101, 49, 206, 57, 8, 220,
        8, 185, 228, 252, 11, 208, 80, 7, 226, 10, 61, 248, 243, 48, 208, 21, 188, 15, 245, 45,
        168, 52, 128, 134, 74, 109, 44, 44, 25, 158, 163, 63, 66, 115, 195, 88, 9, 67, 126, 77,
        136, 116, 101, 128, 31, 147, 25, 188, 53, 71, 234, 18, 45, 101, 212, 214, 123, 236, 30,
        230, 21, 55, 152, 215, 106, 178, 170, 3, 0, 0, 255, 255, 29, 143, 73, 18, 0, 32, 8,
        195, 238, 125, 113, 203, 235, 77, 28, 71, 100, 41, 1, 151, 238, 146, 157, 102, 201,
        181, 197, 197, 95, 127, 233, 22, 77, 57, 70, 13, 74, 21, 56, 89, 143, 242, 136, 185,
        58, 212, 168, 10, 226, 41, 61, 232, 251, 97, 115, 6, 188, 239, 222, 111, 161, 74, 3,
        104, 168, 228, 100, 33, 169, 120, 204, 254, 136, 83, 13, 195, 20, 130, 254, 53, 33,
        210, 85, 1, 127, 76, 21, 196, 53, 37, 205, 224, 12, 25, 229, 122, 31, 235, 199, 98,
        210, 193, 252, 246, 238, 1,
    ];
    let (r, out) = inflate(stream);
    assert_eq!(r, Ok(()));
    assert_eq!(out, drawn(5, 500, b"xyz\n"));
}

#[test]
fn the_shortest_stream_decodes_to_nothing() {
    // one fixed block that ends at once
    let (r, out) = inflate(vec![3, 0]);
    assert_eq!(r, Ok(()));
    assert!(out.is_empty());
}

#[test]
fn an_error_found_before_a_write_does_not_depend_on_the_output() {
    // an output that accepts no byte at all
    let refuse = |data: Vec<u8>| {
        let mut bits = BitAdapter::new(VecSource::new(data));
        let mut out = CircularBuffer::new(LimitedSink::new(0));
        let r = decode_deflate(&mut bits, &mut out);
        assert!(out.into_sink().into_vec().is_empty());
        r
    };
    // a stored block whose two length fields disagree
    assert_eq!(
        refuse(vec![0x01, 0x03, 0x00, 0x03, 0x00, 1, 2, 3]),
        Err(GzipError::StoredHeaderFailure)
    );
    // an empty stored block and then one whose fields disagree
    assert_eq!(
        refuse(vec![0x00, 0x00, 0x00, 0xFF, 0xFF, 0x01, 0x01, 0x00, 0x01, 0x00, 7]),
        Err(GzipError::StoredHeaderFailure)
    );
    // the block type that is not assigned
    assert_eq!(refuse(vec![0b111]), Err(GzipError::DeflateModeNotSupported));
    // a fixed block that opens with a back-reference
    let mut bits = vec![1, 1, 0];
    bits.extend(code(1, 7));
    bits.extend(code(0, 5));
    assert_eq!(refuse(pack(&bits)), Err(GzipError::InvalidDeflateStream));
    // a stream that ends inside its first block
    assert_eq!(refuse(vec![0x01, 0x05]), Err(GzipError::TruncatedFile));
    // blocks that write nothing are decoded to their end
    assert_eq!(refuse(vec![0x01, 0x00, 0x00, 0xFF, 0xFF]), Ok(()));
    // and a write that the output refuses is its error
    assert_eq!(
        refuse(vec![0x01, 0x01, 0x00, 0xFE, 0xFF, 7]),
        Err(GzipError::CantWriteFile)
    );
}
