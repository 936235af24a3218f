use sprite_codec::buffer::Buffer;

fn fresh(width: u8, height: u8) -> Buffer {
    let mut b = Buffer {
        bit_index: 0,
        width: 0,
        height: 0,
        vertical_offset: 0,
        horizontal_offset: 0,
        byte_index: 0,
        bytes: Vec::new(),
        bitplane_length: 0,
        row_index: 0,
    };
    b.allocate_space(width, height);
    b
}

#[test]
fn allocate_space_sizes_and_offsets() {
    let b = fresh(5, 3);
    assert_eq!(b.bytes.len(), 1176);
    assert_eq!(b.bitplane_length, 1176);
    assert_eq!(b.vertical_offset, 2);
    assert_eq!(b.horizontal_offset, 2);
    assert!(b.bytes.iter().all(|&x| x == 0));
}

#[test]
fn write_pair_packs_high_to_low() {
    let mut b = fresh(1, 1);
    b.write_pair(0b01);
    b.write_pair(0b10);
    assert_eq!(b.bytes[0], 0b0100_0000);
    assert_eq!(b.bytes[1], 0b1000_0000);
    assert_eq!(b.byte_index, 2);
}

#[test]
fn column_slice_wraps_to_next_pair_offset() {
    // writing height*8 symbols fills one bit-offset slice of a tile-column
    // and returns the cursor to the column start at the next pair offset
    let mut b = fresh(1, 1);
    for _ in 0..8 {
        b.write_pair(3);
    }
    assert_eq!(b.byte_index, 0);
    assert_eq!(b.bit_index, 2);
    assert_eq!(b.row_index, 0);
    for i in 0..8 {
        assert_eq!(b.bytes[i], 0b1100_0000);
    }
}

#[test]
fn full_column_advances_to_next_tile_column() {
    // 4 * height*8 symbols fill the whole column across all four pair
    // offsets and move the cursor to the next tile-column
    let mut b = fresh(1, 1);
    for _ in 0..32 {
        b.write_pair(3);
    }
    assert_eq!(b.byte_index, 8);
    assert_eq!(b.bit_index, 0);
    assert_eq!(b.row_index, 0);
    for i in 0..8 {
        assert_eq!(b.bytes[i], 0xFF);
    }
}

#[test]
fn write_zero_pairs_moves_cursor_only() {
    let mut b = fresh(2, 2);
    b.bytes[0] = 0xAA;
    b.write_zero_pairs(20);
    assert_eq!(b.bytes[0], 0xAA);
    assert_eq!(b.byte_index, 4);
    assert_eq!(b.bit_index, 2);
    assert_eq!(b.row_index, 4);
}

#[test]
fn wipe_bitplane_zeroes_only_its_region() {
    let mut b = fresh(7, 7);
    for i in 0..1176 {
        b.bytes[i] = 0x55;
    }
    b.wipe_bitplane(1);
    for i in 0..392 {
        assert_eq!(b.bytes[i], 0x55);
    }
    for i in 392..784 {
        assert_eq!(b.bytes[i], 0);
    }
    for i in 784..1176 {
        assert_eq!(b.bytes[i], 0x55);
    }
}

#[test]
fn xor_buffers_merges_bytewise() {
    let mut b = fresh(7, 7);
    b.bytes[784] = 0b1010_1010;
    b.bytes[392] = 0b1100_1100;
    b.xor_buffers(2, 1);
    assert_eq!(b.bytes[392], 0b0110_0110);
    assert_eq!(b.bytes[784], 0b1010_1010);
}

#[test]
fn xor_merge_twice_restores_destination() {
    // the XOR merge is its own inverse
    let mut b = fresh(7, 7);
    for i in 0..392 {
        b.bytes[392 + i] = (i % 251) as u8;
        b.bytes[784 + i] = (i % 13) as u8;
    }
    let before: Vec<u8> = b.bytes.clone();
    b.xor_buffers(2, 1);
    b.xor_buffers(2, 1);
    assert_eq!(b.bytes, before);
}

#[test]
fn copy_bitplane_reads_back_exactly() {
    // the copied rectangle, read back from the canvas, equals the source
    let mut b = fresh(2, 1);
    // vertical_offset = 5, horizontal_offset = 3 => origin 5*8 + 3*56 = 208
    assert_eq!(b.vertical_offset, 5);
    assert_eq!(b.horizontal_offset, 3);
    for i in 0..16 {
        b.bytes[392 + i] = (i as u8) + 1;
    }
    b.copy_bitplane(1, 0);
    for c in 0..2 {
        for r in 0..8 {
            assert_eq!(b.bytes[208 + 56 * c + r], b.bytes[392 + 8 * c + r]);
            assert_eq!(b.bytes[208 + 56 * c + r], (8 * c + r) as u8 + 1);
        }
    }
    // the rest of the destination region was wiped
    for i in 0..208 {
        assert_eq!(b.bytes[i], 0);
    }
    for i in 216..264 {
        assert_eq!(b.bytes[i], 0);
    }
}

#[test]
fn zip_buffers_interleaves_first_two_regions() {
    let mut b = fresh(7, 7);
    for i in 0..392 {
        b.bytes[i] = 1;
        b.bytes[392 + i] = 2;
    }
    b.bytes[0] = 0xAA;
    b.bytes[392] = 0xBB;
    b.zip_buffers();
    assert_eq!(b.bytes[392], 0xAA);
    assert_eq!(b.bytes[393], 0xBB);
    for k in 1..392 {
        assert_eq!(b.bytes[392 + 2 * k], 1);
        assert_eq!(b.bytes[392 + 2 * k + 1], 2);
    }
    for i in 0..392 {
        let expected = if i == 0 { 0xAA } else { 1 };
        assert_eq!(b.bytes[i], expected);
    }
}

#[test]
fn delta_decode_substitutes_and_chains_parity() {
    let mut b = fresh(1, 1);
    // high nibble 1 decodes to 1 with parity 1; the low nibble 0 is then
    // flipped to 0xF by the carried parity
    b.bytes[784] = 0x10;
    b.delta_decode(2);
    assert_eq!(b.bytes[784], 0x1F);
    for r in 1..8 {
        assert_eq!(b.bytes[784 + r], 0);
    }
}

#[test]
fn delta_decode_of_zero_plane_is_noop() {
    // parity stays 0 and the zero nibble is a fixed point of the table
    let mut b = fresh(7, 7);
    b.bytes[100] = 0x42;
    b.delta_decode(2);
    for i in 784..1176 {
        assert_eq!(b.bytes[i], 0);
    }
    assert_eq!(b.bytes[100], 0x42);
}

#[test]
fn pixel_colors_pairs_bits_into_indices() {
    let mut b = fresh(7, 7);
    b.bytes[392] = 0b1000_0000;
    b.bytes[393] = 0b0100_0000;
    let px = b.pixel_colors();
    assert_eq!(px.len(), 3136);
    assert_eq!(px[0], 2);
    assert_eq!(px[1], 1);
    for j in 2..8 {
        assert_eq!(px[j], 0);
    }
}
