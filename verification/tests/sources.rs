use rgzip::errors::GzipError;
use rgzip::sources::bitadapter::BitAdapter;
use rgzip::sources::bitsource::BitSource;
use rgzip::sources::bytesource::ByteSource;
use rgzip::sources::vecsource::VecSource;
use rgzip::sources::wideadapter::WideAdapter;
use rgzip::sources::widesource::WideSource;

fn bytes() -> Vec<u8> {
    (0..40u32).map(|i| (i * 37 + 11) as u8).collect()
}

/// Bit `i` of a stream, the least significant bit of each byte first.
fn bit(data: &[u8], i: usize) -> u32 {
    ((data[i / 8] >> (i % 8)) & 1) as u32
}

#[test]
fn bytes_come_in_order() {
    let mut source = VecSource::new(vec![7, 8, 9]);
    assert_eq!(source.get_u8(), Ok(7));
    assert_eq!(source.get_u8(), Ok(8));
    assert_eq!(source.get_u8(), Ok(9));
    assert_eq!(source.get_u8(), Err(GzipError::TruncatedFile));
    assert_eq!(source.get_u8(), Err(GzipError::TruncatedFile));
}

#[test]
fn integers_are_little_endian() {
    let mut source = VecSource::new(vec![0x34, 0x12, 0x78, 0x56, 0x34, 0x12, 0xFF, 0xFF, 0xFF]);
    assert_eq!(source.get_u16(), Ok(0x1234));
    assert_eq!(source.get_u32(), Ok(0x1234_5678));
    assert_eq!(source.get_variable(3), Ok(0xFF_FFFF));
    assert_eq!(source.get_variable(0), Ok(0));
    let mut source = WideSource::new(vec![1, 0, 0, 0x80, 0xAB]);
    assert_eq!(source.get_u32(), Ok(0x8000_0001));
    assert_eq!(source.get_variable(1), Ok(0xAB));
    assert_eq!(source.get_variable(0), Ok(0));
    assert_eq!(source.get_variable(1), Err(GzipError::TruncatedFile));
}

#[test]
fn an_integer_cut_short_is_a_truncated_file() {
    let mut source = VecSource::new(vec![1, 2, 3]);
    assert_eq!(source.get_u32(), Err(GzipError::TruncatedFile));
    // the bytes of the failed read are gone
    assert_eq!(source.get_u8(), Err(GzipError::TruncatedFile));
    let mut source = VecSource::new(vec![1]);
    assert_eq!(source.get_u16(), Err(GzipError::TruncatedFile));
}

#[test]
fn eight_bytes_at_once_or_none() {
    let data = vec![1, 2, 3, 4, 5, 6, 7, 8, 9];
    let mut source = VecSource::new(data.clone());
    assert_eq!(source.get_u8(), Ok(1));
    assert_eq!(source.get_u64(), Ok(0x0908_0706_0504_0302));
    assert_eq!(source.get_u64(), Err(GzipError::TruncatedFile));
    let mut source = VecSource::new(data.clone());
    assert_eq!(source.get_u16(), Ok(0x0201));
    assert_eq!(source.get_u64(), Err(GzipError::TruncatedFile));
    // nothing was consumed by the failed read
    assert_eq!(source.get_u8(), Ok(3));

    // the wide source leaves the last eight bytes to single reads
    let mut source = WideSource::new(data.clone());
    assert_eq!(source.get_u64(), Ok(0x0807_0605_0403_0201));
    assert_eq!(source.get_u64(), Err(GzipError::TruncatedFile));
    assert_eq!(source.get_u8(), Ok(9));
    let mut source = WideSource::new(data);
    assert_eq!(source.get_u8(), Ok(1));
    assert_eq!(source.get_u64(), Err(GzipError::TruncatedFile));
    assert_eq!(source.get_u8(), Ok(2));
}

#[test]
fn bits_come_least_significant_first() {
    let data = bytes();
    let mut narrow = BitAdapter::new(VecSource::new(data.clone()));
    let mut wide = WideAdapter::new(WideSource::new(data.clone()));
    let mut mixed = WideAdapter::new(VecSource::new(data.clone()));
    for i in 0..data.len() * 8 {
        assert_eq!(narrow.get_bit(), Ok(bit(&data, i)));
        assert_eq!(wide.get_bit(), Ok(bit(&data, i)));
        assert_eq!(mixed.get_bit(), Ok(bit(&data, i)));
    }
    assert_eq!(narrow.get_bit(), Err(GzipError::TruncatedFile));
    assert_eq!(wide.get_bit(), Err(GzipError::TruncatedFile));
    assert_eq!(mixed.get_bit(), Err(GzipError::TruncatedFile));
}

#[test]
fn the_two_orders_of_a_field() {
    // the bits 1, 0, 1, 1, 0, 0, 0, 0 in reading order
    let mut input = BitAdapter::new(VecSource::new(vec![0b0000_1101, 0b0000_1101]));
    assert_eq!(input.get_bits_rev(4), Ok(0b1101));
    assert_eq!(input.get_bits_rev(4), Ok(0));
    assert_eq!(input.get_bits(4), Ok(0b1011));
    assert_eq!(input.get_bits(4), Ok(0));
    let mut input = WideAdapter::new(VecSource::new(vec![0b0000_1101, 0b0000_1101]));
    assert_eq!(input.get_bits_rev(4), Ok(0b1101));
    assert_eq!(input.get_bits_rev(4), Ok(0));
    assert_eq!(input.get_bits(4), Ok(0b1011));
    assert_eq!(input.get_bits(4), Ok(0));
}

fn fields<T: BitSource>(input: &mut T, data: &[u8]) {
    let sizes = [0u8, 1, 3, 5, 7, 13, 2, 32, 9, 31, 4, 16, 0, 8, 11, 24, 17, 6, 32, 1];
    let mut at = 0usize;
    for (n, size) in sizes.iter().enumerate() {
        let mut expected = 0u64;
        for j in 0..*size as usize {
            if n % 2 == 0 {
                expected |= (bit(data, at + j) as u64) << j;
            } else {
                expected = (expected << 1) | bit(data, at + j) as u64;
            }
        }
        let got = if n % 2 == 0 { input.get_bits_rev(*size) } else { input.get_bits(*size) };
        assert_eq!(got, Ok(expected as u32));
        at += *size as usize;
    }
}

#[test]
fn fields_of_every_width() {
    let data = bytes();
    fields(&mut BitAdapter::new(VecSource::new(data.clone())), &data);
    fields(&mut BitAdapter::new(WideSource::new(data.clone())), &data);
    fields(&mut WideAdapter::new(VecSource::new(data.clone())), &data);
    fields(&mut WideAdapter::new(WideSource::new(data.clone())), &data);
}

fn aligned<T: BitSource>(input: &mut T) {
    // three bits of the first byte, then whole bytes from the second on
    assert_eq!(input.get_bits_rev(3), Ok(0b101));
    assert_eq!(input.get_u8(), Ok(0x22));
    assert_eq!(input.get_u16(), Ok(0x4433));
    assert_eq!(input.get_bit(), Ok(1));
    assert_eq!(input.get_u8(), Ok(0x66));
    // at a byte boundary nothing is skipped
    assert_eq!(input.get_u8(), Ok(0x77));
    assert_eq!(input.get_bits_rev(8), Ok(0x88));
    assert_eq!(input.get_u32(), Ok(0xCCBB_AA99));
    assert_eq!(input.get_bits(1), Ok(1));
    assert_eq!(input.get_u8(), Ok(0xEE));
    assert_eq!(input.get_u8(), Err(GzipError::TruncatedFile));
    assert_eq!(input.get_bit(), Err(GzipError::TruncatedFile));
}

#[test]
fn a_byte_read_starts_at_the_next_byte_boundary() {
    let data = vec![
        0x15, 0x22, 0x33, 0x44, 0x55, 0x66, 0x77, 0x88, 0x99, 0xAA, 0xBB, 0xCC, 0xDD, 0xEE,
    ];
    aligned(&mut BitAdapter::new(VecSource::new(data.clone())));
    aligned(&mut WideAdapter::new(VecSource::new(data.clone())));
    aligned(&mut WideAdapter::new(WideSource::new(data.clone())));
    aligned(&mut BitAdapter::new(WideSource::new(data)));
}

#[test]
fn a_field_cut_short_is_a_truncated_file() {
    let mut input = BitAdapter::new(VecSource::new(vec![0xFF]));
    assert_eq!(input.get_bits_rev(9), Err(GzipError::TruncatedFile));
    assert_eq!(input.get_bit(), Err(GzipError::TruncatedFile));
    let mut input = WideAdapter::new(VecSource::new(vec![0xFF; 9]));
    assert_eq!(input.get_bits(32), Ok(0xFFFF_FFFF));
    assert_eq!(input.get_bits(32), Ok(0xFFFF_FFFF));
    assert_eq!(input.get_bits(9), Err(GzipError::TruncatedFile));
    assert_eq!(input.get_bit(), Err(GzipError::TruncatedFile));
    let mut input = WideAdapter::new(WideSource::new(vec![0xA5; 10]));
    assert_eq!(input.get_bits_rev(32), Ok(0xA5A5_A5A5));
    assert_eq!(input.get_bits_rev(32), Ok(0xA5A5_A5A5));
    assert_eq!(input.get_bits_rev(16), Ok(0xA5A5));
    assert_eq!(input.get_bits_rev(1), Err(GzipError::TruncatedFile));
}

#[test]
fn the_slow_path_joins_two_fetches() {
    let data = bytes();
    let mut input = WideAdapter::new(VecSource::new(data.clone()));
    // 60 bits are gone: 4 are buffered
    for _ in 0..60 {
        assert!(input.get_bit().is_ok());
    }
    let mut expected = 0u32;
    for j in 0..20 {
        expected |= bit(&data, 60 + j) << j;
    }
    assert_eq!(input.get_bits_rev_slow(20), Ok(expected));
    assert_eq!(input.get_bit(), Ok(bit(&data, 80)));
    // near the end the slow path reads bit by bit
    let mut input = WideAdapter::new(VecSource::new(vec![0xFF, 0x01]));
    assert_eq!(input.get_bits_rev(4), Ok(0xF));
    assert_eq!(input.get_bits_rev_slow(8), Ok(0x1F));
    assert_eq!(input.get_bits_rev_slow(5), Err(GzipError::TruncatedFile));
}

#[test]
fn an_adapter_hands_out_eight_bytes_only_from_a_boundary() {
    let data = bytes();
    let mut input = BitAdapter::new(VecSource::new(data.clone()));
    assert_eq!(input.get_u64(), Ok(u64::from_le_bytes(data[0..8].try_into().unwrap())));
    assert_eq!(input.get_bit(), Ok(bit(&data, 64)));
    assert_eq!(input.get_u64(), Ok(u64::from_le_bytes(data[9..17].try_into().unwrap())));
    let mut input = WideAdapter::new(VecSource::new(data.clone()));
    assert_eq!(input.get_u64(), Ok(u64::from_le_bytes(data[0..8].try_into().unwrap())));
    assert_eq!(input.get_bit(), Ok(bit(&data, 64)));
    assert_eq!(input.get_u64(), Err(GzipError::TruncatedFile));
    // the failed read took nothing
    assert_eq!(input.get_bit(), Ok(bit(&data, 65)));
}
