use sprite_codec::stream::BitStream;

#[test]
fn read_bits_most_significant_first() {
    let mut s = BitStream::new(vec![0b1011_0100, 0b1100_0000]);
    assert_eq!(s.read_bits(4, false), 0b1011);
    assert_eq!(s.read_bits(4, false), 0b0100);
    assert_eq!(s.read_bits(2, false), 0b11);
}

#[test]
fn read_bits_from_left_packs_high_bits() {
    let mut s = BitStream::new(vec![0b1010_0000]);
    assert_eq!(s.read_bits(3, true), 0b1010_0000);
}

#[test]
fn current_bit_and_advance() {
    let mut s = BitStream::new(vec![0b1000_0001]);
    assert_eq!(s.current_bit(), 1);
    s.next_bit();
    assert_eq!(s.current_bit(), 0);
}

#[test]
fn bits_left_counts_bits_after_cursor() {
    let s = BitStream::new(vec![0xAB, 0xCD]);
    assert_eq!(s.bits_left(), 15);
    let mut s2 = BitStream::new(vec![0xAB, 0xCD]);
    s2.read_bits(8, false);
    assert_eq!(s2.bits_left(), 7);
}

#[test]
fn cursor_clamps_at_final_bit() {
    let mut s = BitStream::new(vec![0b0000_0001]);
    for _ in 0..20 {
        s.next_bit();
    }
    // the cursor stays on the last bit, which keeps being returned
    assert_eq!(s.byte_index, 0);
    assert_eq!(s.bit_index, 7);
    assert_eq!(s.current_bit(), 1);
    assert_eq!(s.bits_left(), 0);
}

#[test]
fn truncated_reads_repeat_the_final_bit() {
    let mut s = BitStream::new(vec![0b0000_0000]);
    s.read_bits(8, false);
    // past the end: the clamped cursor keeps yielding the final zero bit
    assert_eq!(s.read_bits(4, false), 0);
}

#[test]
fn last_two_bits_tracks_the_recent_window() {
    let mut s = BitStream::new(vec![0b1100_0000]);
    s.next_bit();
    assert_eq!(s.last_two_bits, 0b01);
}
