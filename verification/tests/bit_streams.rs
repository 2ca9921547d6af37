use hyperloglog_rs::bitreader::{len_rice, BitReader};
use hyperloglog_rs::bitwriter::BitWriter;

fn splitmix64(state: u64) -> u64 {
    let mut z = state.wrapping_add(0x9E37_79B9_7F4A_7C15);
    z = (z ^ (z >> 30)).wrapping_mul(0xBF58_476D_1CE4_E5B9);
    z = (z ^ (z >> 27)).wrapping_mul(0x94D0_49BB_1331_11EB);
    z ^ (z >> 31)
}

#[test]
fn test_hand_picked_no_ops() {
    let expected = [
        0b01110111_11000010_11110100_00100011_11101100_10100100_11001010_01110110_u64.to_be(),
        0b11011101_00110110_10011010_00111110_10100000_11110101_01100101_01001010_u64.to_be(),
    ];
    let buffer: [u64; 2] = expected;

    let mut writer = BitWriter::new(buffer.to_vec());
    writer.seek(13);
    let buffer = writer.into_words();

    assert_eq!(
        buffer,
        expected,
        "Buffer is not as expected. Buffer[0] Xor Expected: {:064b}",
        (buffer[0] ^ expected[0]).to_be()
    );
}

#[test]
fn test_read_write_unary() {
    let mut positions = [0usize; 1000];
    let mut expected = [0u64; 1000];
    let mut writer = BitWriter::new(vec![0u64; 2000]);
    let mut state = 0u64;
    for i in 0..1000 {
        state = splitmix64(state);
        let value = state % 128;
        positions[i] = writer.write_unary(value) as usize;
        if i > 0 {
            positions[i] += positions[i - 1];
        }
        expected[i] = value;
    }
    let buffer = writer.into_words();
    let mut reader = BitReader::new(&buffer);
    for (value, position) in expected.into_iter().zip(positions) {
        assert_eq!(reader.read_unary(), value as u8, "Unary encoded value does not match the expected value.");
        assert_eq!(reader.last_read_bit_position() as usize, position, "Unary encoded value does not match the expected value.");
    }
}

#[test]
fn bits_and_rice_codes_roundtrip() {
    let mut writer = BitWriter::new(vec![0u64; 4]);
    assert_eq!(writer.write_bits(0b1011, 4), 4);
    let written = writer.write_rice(0b1_0110, 3, 2);
    assert_eq!((written as u32), len_rice(0b1_0110, 2, 3, 0));
    assert_eq!(writer.tell(), 4 + (written as u32));
    let buffer = writer.into_words();
    assert_eq!(buffer[0] >> 60, 0b1011);
    let mut reader = BitReader::new(&buffer);
    assert_eq!(reader.read_bits(4), 0b1011);
    assert_eq!(reader.read_rice(2), 0b1_0110);
    assert_eq!(reader.read_unary(), 3);
    assert_eq!(reader.last_read_bit_position(), 4 + (written as u32));
}
