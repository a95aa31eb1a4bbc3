use giflar::decoder::code_stream::{mirror_bits, BitBuffer, ByteStream, CodeStream};
use giflar::gif::{ImageData, SubBlock};

#[test]
fn push_bytes_to_buf() {
    let mut buf = BitBuffer::default();
    buf.push_back(0xFF);
    assert_eq!(
        buf.buf,
        0b11111111_00000000_00000000_00000000_00000000_00000000_00000000_00000000
    );
    assert_eq!(buf.n_bits, 8);

    buf.push_back(0b00110011);
    assert_eq!(
        buf.buf,
        0b11111111_00110011_00000000_00000000_00000000_00000000_00000000_00000000
    );
    assert_eq!(buf.n_bits, 16);
}

#[test]
fn pop_front_from_buf() {
    let mut buf = BitBuffer::default();
    buf.push_back(0b00110011);
    let code = buf.pop_front(2).unwrap();

    assert_eq!(code, 0b001);
    assert_eq!(buf.n_bits, 5);
    assert!(buf.has_space_left());
    assert_eq!(buf.space_left(), 64 - 5);
}

#[test]
fn fill_buf() {
    let mut buf = BitBuffer::default();
    let bytes: &[u8] = &[0xff, 0xff, 0xff, 0xff, 0xff, 0xff, 0xff, 0x00];
    let blocks = vec![SubBlock(bytes.to_vec())];
    let mut it = ByteStream::new(&blocks);
    buf.fill(&mut it);

    assert!(!buf.has_space_left());
    assert_eq!(buf.buf, 0xFF_FF_FF_FF_FF_FF_FF_00)
}

#[test]
fn return_none_when_empty() {
    let mut buf = BitBuffer::default();
    assert_eq!(buf.pop_front(2), None);
}

#[test]
fn default_buffer_is_empty() {
    let buf = BitBuffer::default();
    assert_eq!(buf.buf, 0);
    assert_eq!(buf.n_bits, 0);
    assert_eq!(buf.space_left(), 64);
    assert!(buf.has_space_left());
}

#[test]
fn pop_front_moves_the_rest_to_the_top() {
    let mut buf = BitBuffer::default();
    buf.push_back(0b00110011);
    assert_eq!(buf.pop_front(2), Some(0b001));
    assert_eq!(buf.buf, 0b10011u64 << 59);
    assert_eq!(buf.pop_front(4), Some(0b10011));
    assert_eq!(buf.buf, 0);
    assert_eq!(buf.n_bits, 0);
}

#[test]
fn pop_front_of_more_bits_than_queued_changes_nothing() {
    let mut buf = BitBuffer::default();
    buf.push_back(0xA5);
    assert_eq!(buf.pop_front(8), None);
    assert_eq!(buf.buf, 0xA5u64 << 56);
    assert_eq!(buf.n_bits, 8);
    assert_eq!(buf.pop_front(7), Some(0xA5));
    assert_eq!(buf.n_bits, 0);
}

#[test]
fn pop_front_takes_up_to_twelve_bits_across_bytes() {
    let mut buf = BitBuffer::default();
    buf.push_back(0xAB);
    buf.push_back(0xCD);
    assert_eq!(buf.pop_front(11), Some(0xABC));
    assert_eq!(buf.n_bits, 4);
    assert_eq!(buf.buf, 0xDu64 << 60);
}

#[test]
fn fill_stops_when_the_bytes_run_out() {
    let mut buf = BitBuffer::default();
    let blocks = vec![SubBlock(vec![0x12, 0x34]), SubBlock(vec![0x56])];
    let mut it = ByteStream::new(&blocks);
    buf.fill(&mut it);
    assert_eq!(buf.n_bits, 24);
    assert_eq!(buf.buf, 0x123456u64 << 40);
    assert!(it.at_end());
}

#[test]
fn fill_leaves_fewer_than_eight_bits_free() {
    let mut buf = BitBuffer::default();
    buf.push_back(0b00110011);
    assert_eq!(buf.pop_front(2), Some(1));
    let blocks = vec![SubBlock(vec![0xFF; 20])];
    let mut it = ByteStream::new(&blocks);
    buf.fill(&mut it);
    assert_eq!(buf.n_bits, 61);
    assert_eq!(buf.space_left(), 3);
    assert!(buf.has_space_left());
    assert_eq!(buf.buf, (0b10011u64 << 59) | (0x00FF_FFFF_FFFF_FFFFu64 << 3));
    // Seven bytes were taken, thirteen are left.
    let mut left = 0;
    while it.next().is_some() {
        left += 1;
    }
    assert_eq!(left, 13);
}

#[test]
fn byte_stream_walks_the_sub_blocks_in_order() {
    let blocks = vec![
        SubBlock(vec![]),
        SubBlock(vec![1, 2]),
        SubBlock(vec![]),
        SubBlock(vec![]),
        SubBlock(vec![3]),
        SubBlock(vec![]),
    ];
    let mut it = ByteStream::new(&blocks);
    assert!(!it.at_end());
    assert_eq!(it.next(), Some(1));
    assert_eq!(it.next(), Some(2));
    assert!(!it.at_end());
    assert_eq!(it.next(), Some(3));
    assert!(it.at_end());
    assert_eq!(it.next(), None);
    assert_eq!(it.next(), None);
}

#[test]
fn byte_stream_without_bytes_is_at_its_end() {
    let none: Vec<SubBlock> = Vec::new();
    let mut it = ByteStream::new(&none);
    assert!(it.at_end());
    assert_eq!(it.next(), None);

    let empty = vec![SubBlock(vec![]), SubBlock(vec![])];
    let mut it = ByteStream::new(&empty);
    assert!(it.at_end());
    assert_eq!(it.next(), None);
}

#[test]
fn mirror_bits_reverses_the_low_bits() {
    assert_eq!(mirror_bits(0b001, 3), 0b100);
    assert_eq!(mirror_bits(0b1011, 4), 0b1101);
    assert_eq!(mirror_bits(0x01, 8), 0x80);
    assert_eq!(mirror_bits(0x28, 8), 0x14);
    assert_eq!(mirror_bits(0xFFFF, 5), 0b11111);
    assert_eq!(mirror_bits(0xABC, 12), 0x3D5);
    assert_eq!(mirror_bits(0x1234, 0), 0);
    assert_eq!(mirror_bits(0x8001, 16), 0x8001);
}

#[test]
fn next_code_reads_the_least_significant_bits_first() {
    let data = ImageData::from_tuple((2, vec![SubBlock(vec![0x28])]));
    let mut codes = CodeStream::new(&data);
    assert_eq!(codes.next_code(3), Some(0));
    assert_eq!(codes.next_code(3), Some(5));
    // Two bits are left: not enough for a code of three.
    assert_eq!(codes.next_code(3), None);
    assert_eq!(codes.next_code(2), Some(0));
    assert_eq!(codes.next_code(2), None);
}

#[test]
fn next_code_crosses_bytes_and_sub_blocks() {
    let data = ImageData::from_tuple((2, vec![SubBlock(vec![0x44]), SubBlock(vec![0x01])]));
    let mut codes = CodeStream::new(&data);
    assert_eq!(codes.next_code(3), Some(4));
    assert_eq!(codes.next_code(3), Some(0));
    assert_eq!(codes.next_code(3), Some(5));
    assert_eq!(codes.next_code(7), Some(0));
    assert_eq!(codes.next_code(2), None);
}

#[test]
fn next_code_serves_a_width_that_changes_between_reads() {
    let payload = vec![0x8C, 0x2D, 0x99, 0x87, 0x2A, 0x1C, 0xDC];
    let data = ImageData::from_tuple((2, vec![SubBlock(payload)]));
    let mut codes = CodeStream::new(&data);
    for expected in [4, 1, 6, 6] {
        assert_eq!(codes.next_code(3), Some(expected));
    }
    for expected in [2, 9, 9, 7, 8, 10, 2, 12] {
        assert_eq!(codes.next_code(4), Some(expected));
    }
    assert_eq!(codes.next_code(5), Some(1));
    assert_eq!(codes.next_code(5), Some(14));
    // Two bits are left of the seven bytes.
    assert_eq!(codes.next_code(12), None);
    assert_eq!(codes.next_code(2), Some(3));
}

#[test]
fn next_code_of_twelve_bits() {
    let data = ImageData::from_tuple((11, vec![SubBlock(vec![0xBC, 0xFA, 0xFF])]));
    let mut codes = CodeStream::new(&data);
    assert_eq!(codes.next_code(12), Some(0xABC));
    assert_eq!(codes.next_code(12), Some(0xFFF));
    assert_eq!(codes.next_code(2), None);
}

#[test]
fn next_code_on_no_data_is_exhausted() {
    let data = ImageData::from_tuple((2, Vec::new()));
    let mut codes = CodeStream::new(&data);
    assert_eq!(codes.next_code(3), None);
    assert_eq!(codes.next_code(12), None);
}
