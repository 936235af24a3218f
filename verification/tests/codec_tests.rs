use sprite_codec::buffer::Buffer;
use sprite_codec::codec::decode_sprite;
use sprite_codec::codec::read_encoding_mode;
use sprite_codec::codec::DecodeError;
use sprite_codec::codec::EncodingMode;
use sprite_codec::stream::BitStream;

fn fresh(width: u8, height: u8) -> Buffer {
    let mut b = Buffer {
        bit_index: 0,
        width: 0,
        height: 0,
        vertical_offset: 0,
        horizontal_offset: 0,
        byte_index: 0,
        bytes: Vec::new(),
        bitplane_length: 0,
        row_index: 0,
    };
    b.allocate_space(width, height);
    b
}

#[test]
fn literal_pairs_land_in_the_primary_region() {
    // literal-first stream: pairs 01, 10, then thirty 11 pairs reach the
    // 64-bit target of a 1x1-tile sprite; the first two symbols become the
    // first two bytes written into the second region, wrapping every
    // height*8 = 8 rows
    let mut data = vec![0b0110_1111];
    data.extend(std::iter::repeat(0xFF).take(7));
    let mut stream = BitStream::new(data);
    let mut b = fresh(1, 1);
    let r = b.decompress_to_bitplane(&mut stream, 1, true, true);
    assert!(r.is_ok());
    let expected = [0x7F, 0xBF, 0xFF, 0xFF, 0xFF, 0xFF, 0xFF, 0xFF];
    for i in 0..8 {
        assert_eq!(b.bytes[392 + i], expected[i]);
    }
    assert_eq!(stream.bits_left(), 0);
}

#[test]
fn minimal_run_code_emits_three_zero_pairs() {
    // run-first stream: prefix bits 1,0 give P = 2, suffix bits 0,0 give
    // Q = 0, so runLength = P + Q + 1 = 3 zero pairs (six zero bits)
    let mut data = vec![0b1000_1111];
    data.extend(std::iter::repeat(0xFF).take(6));
    data.push(0b1111_1100);
    let mut stream = BitStream::new(data);
    let mut b = fresh(1, 1);
    let r = b.decompress_to_bitplane(&mut stream, 0, true, true);
    assert!(r.is_ok());
    let expected = [0x3F, 0x3F, 0x3F, 0xFF, 0xFF, 0xFF, 0xFF, 0xFF];
    for i in 0..8 {
        assert_eq!(b.bytes[392 + i], expected[i]);
    }
}

#[test]
fn longer_run_code_decodes_prefix_plus_suffix_plus_one() {
    // prefix 110 gives P = 6, suffix 101 gives Q = 5: 12 zero pairs
    let data = vec![0b1101_0111, 0xFF, 0xFF, 0xFF, 0xFF, 0b1111_1100];
    let mut stream = BitStream::new(data);
    let mut b = fresh(1, 1);
    let r = b.decompress_to_bitplane(&mut stream, 0, true, true);
    assert!(r.is_ok());
    let expected = [0x0F, 0x0F, 0x0F, 0x0F, 0x3F, 0x3F, 0x3F, 0x3F];
    for i in 0..8 {
        assert_eq!(b.bytes[392 + i], expected[i]);
    }
}

#[test]
fn mode_one_consumes_a_single_bit() {
    let mut stream = BitStream::new(vec![0b0000_0000]);
    let before = stream.bits_left();
    let mode = read_encoding_mode(&mut stream);
    assert_eq!(mode, EncodingMode::Mode1);
    assert_eq!(before - stream.bits_left(), 1);
}

#[test]
fn mode_two_consumes_two_bits() {
    let mut stream = BitStream::new(vec![0b1000_0000]);
    let before = stream.bits_left();
    let mode = read_encoding_mode(&mut stream);
    assert_eq!(mode, EncodingMode::Mode2);
    assert_eq!(before - stream.bits_left(), 2);
}

#[test]
fn mode_three_consumes_two_bits() {
    let mut stream = BitStream::new(vec![0b1100_0000]);
    let before = stream.bits_left();
    let mode = read_encoding_mode(&mut stream);
    assert_eq!(mode, EncodingMode::Mode3);
    assert_eq!(before - stream.bits_left(), 2);
}

#[test]
fn decode_sprite_full_pipeline_on_zero_planes() {
    // 1x1 sprite, primary flag 1, both passes run-first and write only
    // zero runs; every stage then maps zero planes to zero planes
    let data = vec![0x11, 0xBC, 0x12, 0x00];
    let b = decode_sprite(data).expect("decode should succeed");
    assert_eq!(b.width, 1);
    assert_eq!(b.height, 1);
    assert_eq!(b.bytes.len(), 1176);
    assert!(b.bytes.iter().all(|&x| x == 0));
    let px = b.pixel_colors();
    assert!(px.iter().all(|&p| p == 0));
}

#[test]
fn decode_sprite_rejects_empty_input() {
    assert!(matches!(decode_sprite(Vec::new()), Err(DecodeError::EmptyInput)));
}

#[test]
fn decode_sprite_rejects_zero_width() {
    assert!(matches!(decode_sprite(vec![0x01, 0x00]), Err(DecodeError::BadDimensions)));
}

#[test]
fn decode_sprite_rejects_oversized_width() {
    assert!(matches!(decode_sprite(vec![0x81, 0x00]), Err(DecodeError::BadDimensions)));
}

#[test]
fn decode_sprite_rejects_oversized_height() {
    assert!(matches!(decode_sprite(vec![0x19, 0x00]), Err(DecodeError::BadDimensions)));
}

#[test]
fn decode_sprite_rejects_endless_run_prefix() {
    // after the header the stream is all one bits; the clamped cursor keeps
    // feeding ones into the run prefix until the length cap trips
    assert!(matches!(decode_sprite(vec![0x11, 0xBF, 0xFF]), Err(DecodeError::RunTooLong)));
}

#[test]
fn decode_sprite_rejects_run_beyond_the_buffer() {
    // prefix of twelve ones (P = 2^13 - 2 = 8190) and a zero suffix ask for
    // 8191 zero pairs, far beyond the three-region buffer
    assert!(matches!(
        decode_sprite(vec![0x11, 0xBF, 0xFC, 0x00, 0x00]),
        Err(DecodeError::BufferOverflow)
    ));
}

#[test]
fn mode_two_pipeline_keeps_the_literal_plane() {
    // first pass (literal 11 then a 31-pair zero run) puts 0xC0 at the head
    // of the second region; the second pass writes only zeros into the
    // third; under Mode2 the XOR merge with the zero plane changes nothing,
    // and the aligned, interleaved result carries the byte to pair 216
    let data = vec![0x11, 0xF3, 0xC0, 0x90];
    let b = decode_sprite(data).expect("decode should succeed");
    assert_eq!(b.bytes[824], 0xC0);
    for i in 392..1176 {
        if i != 824 {
            assert_eq!(b.bytes[i], 0, "byte {} should be zero", i);
        }
    }
    let px = b.pixel_colors();
    assert_eq!(px[1728], 2);
    assert_eq!(px[1729], 2);
    assert_eq!(px[0], 0);
}

#[test]
fn mode_three_pipeline_delta_decodes_the_literal_plane() {
    // same planes as the Mode2 case, but Mode3 delta-decodes the second
    // region first: 0xC0's high nibble 12 maps to 8, so 0x80 survives
    let data = vec![0x11, 0xF3, 0xC0, 0xD0];
    let b = decode_sprite(data).expect("decode should succeed");
    assert_eq!(b.bytes[824], 0x80);
    for i in 392..1176 {
        if i != 824 {
            assert_eq!(b.bytes[i], 0, "byte {} should be zero", i);
        }
    }
}

#[test]
fn mode_one_pipeline_delta_decodes_both_planes() {
    // Mode1 consumes a single selector bit; both planes are delta-decoded
    let data = vec![0x11, 0xF3, 0xC0, 0x20];
    let b = decode_sprite(data).expect("decode should succeed");
    assert_eq!(b.bytes[824], 0x80);
    for i in 392..1176 {
        if i != 824 {
            assert_eq!(b.bytes[i], 0, "byte {} should be zero", i);
        }
    }
}
