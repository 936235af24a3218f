//! Sequential most-significant-bit-first cursor over a byte sequence.
//!
//! The cursor clamps at the last bit of the stream instead of running past it,
//! so reads on a truncated stream degrade gracefully rather than failing.

use vstd::prelude::*;

verus! {

/// Bit `i` (0 = most significant) of byte `b`.
pub open spec fn byte_bit(b: u8, i: int) -> u8 {
    (b >> ((7 - i) as u8)) & 1
}

/// Position of the last readable bit of a stream of `len` bytes.
pub open spec fn last_bit_pos(len: nat) -> int {
    len * 8 - 1
}

/// A cursor position clamped to the final bit of the stream.
pub open spec fn clamp_pos(len: nat, pos: int) -> int {
    if pos > last_bit_pos(len) {
        last_bit_pos(len)
    } else {
        pos
    }
}

/// The bit a reader sees at position `pos`: positions past the end keep
/// returning the stream's final bit, because the cursor clamps there.
pub open spec fn stream_bit(bytes: Seq<u8>, pos: int) -> u8 {
    let p = clamp_pos(bytes.len(), pos);
    byte_bit(bytes[p / 8], p % 8)
}

/// Value of `n` bits taken in order from `pos`, first bit most significant.
pub open spec fn read_acc(bytes: Seq<u8>, pos: int, n: nat) -> nat
    decreases n,
{
    if n == 0 {
        0
    } else {
        2 * read_acc(bytes, pos, (n - 1) as nat) + stream_bit(bytes, pos + n - 1) as nat
    }
}

/// Value of `n` bits (`n <= 8`) from `pos` packed into the top of a byte:
/// the first bit lands in bit 7, the next in bit 6, and so on.
pub open spec fn read_acc_high(bytes: Seq<u8>, pos: int, n: nat) -> u8
    decreases n,
{
    if n == 0 {
        0
    } else {
        read_acc_high(bytes, pos, (n - 1) as nat) | (stream_bit(bytes, pos + n - 1) << (
        (8 - n) as u8))
    }
}

/// Keep only the two most recent bits seen by the cursor.
pub open spec fn push_bit2(acc: u8, b: u8) -> u8 {
    ((acc << 1u8) | b) & 3
}

/// Bookkeeping value of `last_two_bits` after `read_bits` has taken `n` bits
/// from `pos`: each step records the bit under the cursor and then the bit
/// under the cursor after the advance.
pub open spec fn ltb_after(bytes: Seq<u8>, pos: int, n: nat, acc: u8) -> u8
    decreases n,
{
    if n == 0 {
        acc
    } else {
        ltb_after(
            bytes,
            pos + 1,
            (n - 1) as nat,
            push_bit2(push_bit2(acc, stream_bit(bytes, pos)), stream_bit(bytes, pos + 1)),
        )
    }
}

/// Clamping twice is the same as clamping once, even with an offset in between.
pub proof fn lemma_clamp_add(len: nat, pos: int, k: int)
    requires
        k >= 0,
    ensures
        clamp_pos(len, clamp_pos(len, pos) + k) == clamp_pos(len, pos + k),
{
}

/// The bit seen at a clamped position is the bit seen at the raw position.
pub proof fn lemma_stream_bit_clamp(bytes: Seq<u8>, pos: int)
    ensures
        stream_bit(bytes, clamp_pos(bytes.len(), pos)) == stream_bit(bytes, pos),
{
}

/// Reading from a clamped position accumulates the same bits as reading from
/// the raw position.
pub proof fn lemma_read_acc_clamp(bytes: Seq<u8>, pos: int, n: nat)
    ensures
        read_acc(bytes, clamp_pos(bytes.len(), pos), n) == read_acc(bytes, pos, n),
    decreases n,
{
    if n > 0 {
        lemma_read_acc_clamp(bytes, pos, (n - 1) as nat);
        assert(clamp_pos(bytes.len(), clamp_pos(bytes.len(), pos) + n - 1) == clamp_pos(
            bytes.len(),
            pos + n - 1,
        )) by {
            lemma_clamp_add(bytes.len(), pos, n - 1);
        }
    }
}

/// An accumulated `n`-bit read is always below `2^n`.
pub proof fn lemma_read_acc_bound(bytes: Seq<u8>, pos: int, n: nat)
    ensures
        read_acc(bytes, pos, n) < vstd::arithmetic::power2::pow2(n),
    decreases n,
{
    if n == 0 {
        vstd::arithmetic::power2::lemma2_to64();
    } else {
        vstd::arithmetic::power2::lemma_pow2_unfold(n);
        lemma_read_acc_bound(bytes, pos, (n - 1) as nat);
        assert(stream_bit(bytes, pos + n - 1) <= 1) by {
            let p = clamp_pos(bytes.len(), pos + n - 1);
            let bb = bytes[p / 8];
            let sh = (7 - p % 8) as u8;
            assert((bb >> sh) & 1 <= 1) by (bit_vector);
        }
    }
}

/// `ltb_after` over `n + 1` bits is `ltb_after` over `n` bits followed by one
/// more double push.
pub proof fn lemma_ltb_snoc(bytes: Seq<u8>, pos: int, n: nat, acc: u8)
    ensures
        ltb_after(bytes, pos, n + 1, acc) == push_bit2(
            push_bit2(ltb_after(bytes, pos, n, acc), stream_bit(bytes, pos + n)),
            stream_bit(bytes, pos + n + 1),
        ),
    decreases n,
{
    reveal_with_fuel(ltb_after, 2);
    if n > 0 {
        lemma_ltb_snoc(
            bytes,
            pos + 1,
            (n - 1) as nat,
            push_bit2(push_bit2(acc, stream_bit(bytes, pos)), stream_bit(bytes, pos + 1)),
        );
    }
}

/// Sequential bit reader over an in-memory byte sequence.
pub struct BitStream {
    pub bit_index: u8,
    pub byte_index: usize,
    pub bytes: Vec<u8>,
    pub last_two_bits: u8,
}

impl BitStream {
    /// The cursor always points at some bit of a non-empty stream.
    pub open spec fn wf(self) -> bool {
        &&& self.bytes@.len() >= 1
        &&& self.bytes@.len() * 8 <= usize::MAX
        &&& self.byte_index < self.bytes@.len()
        &&& self.bit_index < 8
    }

    /// Absolute bit position of the cursor.
    pub open spec fn pos(self) -> int {
        self.byte_index * 8 + self.bit_index
    }

    pub fn new(bytes: Vec<u8>) -> (s: Self)
        requires
            bytes@.len() >= 1,
            bytes@.len() * 8 <= usize::MAX,
        ensures
            s.wf(),
            s.bytes@ == bytes@,
            s.pos() == 0,
            s.last_two_bits == 0,
    {
        BitStream { bit_index: 0, byte_index: 0, bytes, last_two_bits: 0 }
    }

    /// Byte under the cursor; zero when the cursor index is out of range.
    pub fn current_byte(&self) -> (r: u8)
        ensures
            r == if self.byte_index < self.bytes@.len() {
                self.bytes@[self.byte_index as int]
            } else {
                0u8
            },
    {
        if self.byte_index < self.bytes.len() {
            self.bytes[self.byte_index]
        } else {
            0
        }
    }

    /// Bit under the cursor, without advancing.
    pub fn current_bit(&self) -> (r: u8)
        requires
            self.wf(),
        ensures
            r == stream_bit(self.bytes@, self.pos()),
            r <= 1,
    {
        let r = (self.current_byte() >> (7 - self.bit_index)) & 1;
        proof {
            vstd::arithmetic::div_mod::lemma_fundamental_div_mod_converse(
                self.pos(),
                8,
                self.byte_index as int,
                self.bit_index as int,
            );
            let b = self.bytes@[self.byte_index as int];
            let i = self.bit_index;
            assert((b >> ((7 - i) as u8)) & 1 <= 1) by (bit_vector);
        }
        r
    }

    /// Replace the low two tracked bits with the previous low bit and the bit
    /// now under the cursor.
    pub fn update_last_two_bits(&mut self)
        requires
            old(self).wf(),
        ensures
            final(self).wf(),
            final(self).bytes@ == old(self).bytes@,
            final(self).byte_index == old(self).byte_index,
            final(self).bit_index == old(self).bit_index,
            final(self).last_two_bits == push_bit2(
                old(self).last_two_bits,
                stream_bit(old(self).bytes@, old(self).pos()),
            ),
    {
        self.last_two_bits = ((self.last_two_bits << 1) | self.current_bit()) & 3;
    }

    /// Clamp a cursor whose bit index may have just run past the current byte:
    /// either move into the next byte or stop at the stream's final bit.
    pub fn check_end_of_byte(&mut self)
        requires
            old(self).bytes@.len() >= 1,
            old(self).bytes@.len() * 8 <= usize::MAX,
            old(self).byte_index < old(self).bytes@.len(),
            old(self).bit_index <= 8,
        ensures
            final(self).wf(),
            final(self).bytes@ == old(self).bytes@,
            final(self).last_two_bits == old(self).last_two_bits,
            final(self).pos() == clamp_pos(old(self).bytes@.len(), old(self).pos()),
    {
        let last_byte_index = self.bytes.len() - 1;
        if self.byte_index >= last_byte_index {
            self.byte_index = last_byte_index;
            if self.bit_index >= 7 {
                self.bit_index = 7;
            }
        } else {
            if self.bit_index > 7 {
                self.bit_index = 0;
                self.byte_index += 1;
            }
        }
    }

    /// Advance the cursor one bit, clamping at the end of the stream, and
    /// track the newly exposed bit.
    pub fn next_bit(&mut self)
        requires
            old(self).wf(),
        ensures
            final(self).wf(),
            final(self).bytes@ == old(self).bytes@,
            final(self).pos() == clamp_pos(old(self).bytes@.len(), old(self).pos() + 1),
            final(self).last_two_bits == push_bit2(
                old(self).last_two_bits,
                stream_bit(old(self).bytes@, final(self).pos()),
            ),
    {
        self.bit_index += 1;
        self.check_end_of_byte();
        self.update_last_two_bits();
    }

    /// Read `bits_amount` bits (at most 8), advancing the cursor.  With
    /// `write_from_left` the bits fill the byte from bit 7 downward; otherwise
    /// they accumulate from the low end, first bit most significant.
    pub fn read_bits(&mut self, bits_amount: u8, write_from_left: bool) -> (r: u8)
        requires
            old(self).wf(),
            bits_amount <= 8,
        ensures
            final(self).wf(),
            final(self).bytes@ == old(self).bytes@,
            final(self).pos() == clamp_pos(old(self).bytes@.len(), old(self).pos() + bits_amount),
            !write_from_left ==> r == read_acc(
                old(self).bytes@,
                old(self).pos(),
                bits_amount as nat,
            ),
            write_from_left ==> r == read_acc_high(
                old(self).bytes@,
                old(self).pos(),
                bits_amount as nat,
            ),
            final(self).last_two_bits == ltb_after(
                old(self).bytes@,
                old(self).pos(),
                bits_amount as nat,
                old(self).last_two_bits,
            ),
    {
        let mut count: u8 = 0;
        let mut byte: u8 = 0;
        proof {
            vstd::arithmetic::power2::lemma2_to64();
        }
        while count < bits_amount
            invariant
                self.wf(),
                count <= bits_amount,
                bits_amount <= 8,
                self.bytes@ == old(self).bytes@,
                self.pos() == clamp_pos(self.bytes@.len(), old(self).pos() + count),
                !write_from_left ==> byte == read_acc(self.bytes@, old(self).pos(), count as nat),
                !write_from_left ==> (byte as nat) < vstd::arithmetic::power2::pow2(count as nat),
                write_from_left ==> byte == read_acc_high(self.bytes@, old(self).pos(), count as nat),
                self.last_two_bits == ltb_after(
                    self.bytes@,
                    old(self).pos(),
                    count as nat,
                    old(self).last_two_bits,
                ),
            decreases bits_amount - count,
        {
            let b = self.current_bit();
            proof {
                lemma_stream_bit_clamp(self.bytes@, old(self).pos() + count);
                assert(b == stream_bit(self.bytes@, old(self).pos() + count));
            }
            byte = match write_from_left {
                true => byte | (b << (7 - count)),
                false => {
                    proof {
                        vstd::arithmetic::power2::lemma2_to64();
                        assert(byte < 128) by {
                            if (count as nat) < 7 {
                                vstd::arithmetic::power2::lemma_pow2_strictly_increases(
                                    count as nat,
                                    7,
                                );
                            }
                        }
                        assert((byte << 1u8) | b == 2 * byte + b) by (bit_vector)
                            requires
                                byte < 128 && b <= 1,
                        ;
                    }
                    (byte << 1) | b
                },
            };
            count += 1;
            proof {
                if !write_from_left {
                    lemma_read_acc_bound(self.bytes@, old(self).pos(), count as nat);
                }
                lemma_ltb_snoc(
                    self.bytes@,
                    old(self).pos(),
                    (count - 1) as nat,
                    old(self).last_two_bits,
                );
                lemma_clamp_add(self.bytes@.len(), old(self).pos() + count - 1, 1);
                lemma_stream_bit_clamp(self.bytes@, old(self).pos() + count);
            }
            self.update_last_two_bits();
            self.next_bit();
        }
        byte
    }

    /// Number of readable bits strictly after the cursor.
    pub fn bits_left(&self) -> (r: usize)
        requires
            self.wf(),
        ensures
            r == self.bytes@.len() * 8 - self.pos() - 1,
    {
        (self.bytes.len() * 8) - ((self.byte_index * 8) + 1 + self.bit_index as usize)
    }
}

} // verus!
