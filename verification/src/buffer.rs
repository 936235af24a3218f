//! Three-region bitplane byte store with a column-major write cursor.
//!
//! The buffer holds three equally addressed 392-byte regions (a 7x7-tile
//! plane each) in one contiguous allocation of 1176 bytes.  Decoded 2-bit
//! symbols are written column by column: one byte per row, four pair slots
//! per byte, one tile-column at a time.

use vstd::prelude::*;

verus! {

/// First byte of a region: region 0 at 0, region 1 at 392, anything else
/// selects the third region at 784.
pub open spec fn region_base(region: u8) -> int {
    if region == 0 {
        0
    } else if region == 1 {
        392
    } else {
        784
    }
}

/// Write-cursor state: absolute byte index, pair offset within the byte
/// (0, 2, 4 or 6), and row within the current tile-column pass.
pub ghost struct Cursor {
    pub byte: int,
    pub bit: int,
    pub row: int,
}

/// A cursor that sits somewhere inside a column pass of height `colh`.
pub open spec fn cursor_ok(c: Cursor, colh: int) -> bool {
    &&& 0 <= c.row < colh
    &&& (c.bit == 0 || c.bit == 2 || c.bit == 4 || c.bit == 6)
    &&& c.row <= c.byte
}

/// Cursor position after one symbol write: next row down; at the column's
/// end return to the column start at the next pair offset; after the last
/// pair offset move to the next tile-column.
pub open spec fn cursor_step(c: Cursor, colh: int) -> Cursor {
    if c.row + 1 >= colh {
        if c.bit + 2 >= 8 {
            Cursor { byte: c.byte + 1, bit: 0, row: 0 }
        } else {
            Cursor { byte: c.byte + 1 - colh, bit: c.bit + 2, row: 0 }
        }
    } else {
        Cursor { byte: c.byte + 1, bit: c.bit, row: c.row + 1 }
    }
}

/// Cursor position after `n` symbol writes.
pub open spec fn cursor_steps(c: Cursor, colh: int, n: nat) -> Cursor
    decreases n,
{
    if n == 0 {
        c
    } else {
        cursor_steps(cursor_step(c, colh), colh, (n - 1) as nat)
    }
}

/// Every one of `n` writes from cursor `c` lands below index `len`.
pub open spec fn steps_in_bounds(c: Cursor, colh: int, n: nat, len: int) -> bool {
    forall|k: nat| k < n ==> (#[trigger] cursor_steps(c, colh, k)).byte < len
}

/// Total number of symbols written from the start of the buffer to reach
/// cursor `c`; each write advances it by exactly one.
pub open spec fn cursor_rank(c: Cursor, colh: int) -> int {
    4 * (c.byte - c.row) + (if c.bit == 0 {
        0
    } else if c.bit == 2 {
        colh
    } else if c.bit == 4 {
        2 * colh
    } else {
        3 * colh
    }) + c.row
}

/// One write preserves cursor well-formedness and advances the rank by one.
pub proof fn lemma_cursor_step_ok(c: Cursor, colh: int)
    requires
        cursor_ok(c, colh),
        colh >= 1,
    ensures
        cursor_ok(cursor_step(c, colh), colh),
        cursor_rank(cursor_step(c, colh), colh) == cursor_rank(c, colh) + 1,
        cursor_step(c, colh).byte <= c.byte + 1,
{
}

/// Peeling the last step off an iterated cursor advance.
pub proof fn lemma_cursor_steps_snoc(c: Cursor, colh: int, n: nat)
    ensures
        cursor_steps(c, colh, n + 1) == cursor_step(cursor_steps(c, colh, n), colh),
    decreases n,
{
    reveal_with_fuel(cursor_steps, 2);
    if n > 0 {
        lemma_cursor_steps_snoc(cursor_step(c, colh), colh, (n - 1) as nat);
    }
}

/// Iterated advances compose.
pub proof fn lemma_cursor_steps_add(c: Cursor, colh: int, m: nat, n: nat)
    ensures
        cursor_steps(c, colh, m + n) == cursor_steps(cursor_steps(c, colh, m), colh, n),
    decreases m,
{
    if m > 0 {
        lemma_cursor_steps_add(cursor_step(c, colh), colh, (m - 1) as nat, n);
    }
}

/// `n` writes preserve cursor well-formedness and advance the rank by `n`.
pub proof fn lemma_cursor_steps_ok(c: Cursor, colh: int, n: nat)
    requires
        cursor_ok(c, colh),
        colh >= 1,
    ensures
        cursor_ok(cursor_steps(c, colh, n), colh),
        cursor_rank(cursor_steps(c, colh, n), colh) == cursor_rank(c, colh) + n,
    decreases n,
{
    if n > 0 {
        lemma_cursor_step_ok(c, colh);
        lemma_cursor_steps_ok(cursor_step(c, colh), colh, (n - 1) as nat);
    }
}

/// Writing `j <= height*8` symbols from the top of a tile-column walks one
/// byte per row; the write that completes the column slice returns the cursor
/// to the column's first byte at the next pair offset (or, after the last
/// pair offset, to the top of the next tile-column).
pub proof fn lemma_column_slice(c: Cursor, colh: int, j: nat)
    requires
        colh >= 1,
        c.row == 0,
        c.bit == 0 || c.bit == 2 || c.bit == 4 || c.bit == 6,
        j <= colh,
    ensures
        j < colh ==> cursor_steps(c, colh, j) == (Cursor {
            byte: c.byte + j,
            bit: c.bit,
            row: j as int,
        }),
        j == colh ==> cursor_steps(c, colh, j) == (if c.bit < 6 {
            Cursor { byte: c.byte, bit: c.bit + 2, row: 0 }
        } else {
            Cursor { byte: c.byte + colh, bit: 0, row: 0 }
        }),
    decreases j,
{
    if j > 0 {
        lemma_column_slice(c, colh, (j - 1) as nat);
        lemma_cursor_steps_snoc(c, colh, (j - 1) as nat);
    }
}

/// Writing `4 * height*8` symbols starting at the top of a tile-column at
/// pair offset zero fills the whole column — all four pair offsets — and
/// leaves the cursor at the top of the next tile-column.
pub proof fn lemma_column_full(c: Cursor, colh: int)
    requires
        colh >= 1,
        c.row == 0,
        c.bit == 0,
    ensures
        cursor_steps(c, colh, (4 * colh) as nat) == (Cursor {
            byte: c.byte + colh,
            bit: 0,
            row: 0,
        }),
{
    let c1 = Cursor { byte: c.byte, bit: 2, row: 0 };
    let c2 = Cursor { byte: c.byte, bit: 4, row: 0 };
    let c3 = Cursor { byte: c.byte, bit: 6, row: 0 };
    lemma_column_slice(c, colh, colh as nat);
    lemma_column_slice(c1, colh, colh as nat);
    lemma_column_slice(c2, colh, colh as nat);
    lemma_column_slice(c3, colh, colh as nat);
    lemma_cursor_steps_add(c, colh, colh as nat, colh as nat);
    lemma_cursor_steps_add(c, colh, (2 * colh) as nat, colh as nat);
    lemma_cursor_steps_add(c, colh, (3 * colh) as nat, colh as nat);
}

/// One symbol write: OR the 2-bit value into the byte at the cursor, packed
/// high to low (pair offset 0 lands in bits 7-6).
pub open spec fn write_pair_spec(s: Seq<u8>, byte: int, bit: int, data: u8) -> Seq<u8> {
    s.update(byte, s[byte] | (data << ((6 - bit) as u8)))
}

/// Zero-fill of one 392-byte region.
pub open spec fn wipe_spec(s: Seq<u8>, base: int) -> Seq<u8> {
    Seq::new(s.len(), |i: int| if base <= i < base + 392 { 0u8 } else { s[i] })
}

/// Byte-wise XOR of the source region into the destination region.
pub open spec fn xor_merge_spec(s: Seq<u8>, src: int, dst: int) -> Seq<u8> {
    Seq::new(
        s.len(),
        |i: int|
            if dst <= i < dst + 392 {
                s[i] ^ s[src + (i - dst)]
            } else {
                s[i]
            },
    )
}

/// Merging the same pair of distinct regions twice restores the destination:
/// the XOR merge is its own inverse.
pub proof fn lemma_xor_merge_involutive(s: Seq<u8>, src: u8, dst: u8)
    requires
        s.len() == 1176,
        region_base(src) != region_base(dst),
    ensures
        xor_merge_spec(xor_merge_spec(s, region_base(src), region_base(dst)), region_base(src),
            region_base(dst)) == s,
{
    let sb = region_base(src);
    let db = region_base(dst);
    let once = xor_merge_spec(s, sb, db);
    let twice = xor_merge_spec(once, sb, db);
    assert forall|i: int| 0 <= i < 1176 implies twice[i] == s[i] by {
        if db <= i < db + 392 {
            let x = s[i];
            let y = s[sb + (i - db)];
            assert(once[sb + (i - db)] == y);
            assert((x ^ y) ^ y == x) by (bit_vector);
        }
    }
    assert(twice =~= s);
}

/// Fixed-capacity three-bitplane byte store with its column-major write
/// cursor and the sprite's decoded dimensions.
pub struct Buffer {
    pub bit_index: u8,
    pub width: u8,
    pub height: u8,
    pub vertical_offset: u8,
    pub horizontal_offset: u8,
    pub byte_index: usize,
    pub bytes: Vec<u8>,
    pub bitplane_length: usize,
    pub row_index: usize,
}

impl Buffer {
    /// Valid sprite dimensions, centring offsets derived from them, and a
    /// fully allocated three-region store.
    pub open spec fn wf(self) -> bool {
        &&& 1 <= self.width <= 7
        &&& 1 <= self.height <= 7
        &&& self.vertical_offset == 7 - self.width
        &&& self.horizontal_offset == (7 - self.height) / 2
        &&& self.bytes@.len() == 1176
        &&& self.bitplane_length == 1176
    }

    /// Rows per tile-column pass, in bytes.
    pub open spec fn column_height(self) -> int {
        self.height * 8
    }

    /// The write cursor as an abstract value.
    pub open spec fn cursor(self) -> Cursor {
        Cursor { byte: self.byte_index as int, bit: self.bit_index as int, row: self.row_index as int }
    }

    /// Dimensions, centring offsets and allocation size agree between two
    /// buffer states.
    pub open spec fn same_shape(self, other: Buffer) -> bool {
        &&& self.width == other.width
        &&& self.height == other.height
        &&& self.vertical_offset == other.vertical_offset
        &&& self.horizontal_offset == other.horizontal_offset
        &&& self.bitplane_length == other.bitplane_length
    }

    /// Write cursor fields agree between two buffer states.
    pub open spec fn same_cursor(self, other: Buffer) -> bool {
        &&& self.byte_index == other.byte_index
        &&& self.bit_index == other.bit_index
        &&& self.row_index == other.row_index
    }

    /// Record the sprite dimensions, derive the centring offsets, and
    /// zero-allocate the three regions: two full 7x7 planes plus a third
    /// sized to at least a 7x7 plane.
    pub fn allocate_space(&mut self, width: u8, height: u8)
        requires
            1 <= width <= 7,
            1 <= height <= 7,
        ensures
            final(self).wf(),
            final(self).width == width,
            final(self).height == height,
            final(self).bytes@.len() == 1176,
            forall|i: int| 0 <= i < 1176 ==> final(self).bytes@[i] == 0u8,
            final(self).same_cursor(*old(self)),
    {
        let max_sprite_size: u8 = 7;
        self.width = width;
        self.height = height;
        // offsets used later to centre the sprite in the 7 x 7 tile canvas
        self.vertical_offset = max_sprite_size - width;
        self.horizontal_offset = (max_sprite_size - height) / 2;
        // two full 7 x 7 planes, and a third at least as large as the sprite
        // area so that oversized inputs stay inside the allocation
        proof {
            assert((width as usize) * (height as usize) <= 49) by (nonlinear_arith)
                requires
                    width <= 7 && height <= 7,
            ;
        }
        let area = (width as usize) * (height as usize);
        let third = if area > 49 {
            area
        } else {
            49
        };
        self.bitplane_length = ((49 * 2) + third) * 8;
        let mut bytes: Vec<u8> = Vec::new();
        while bytes.len() < self.bitplane_length
            invariant
                self.bitplane_length == 1176,
                bytes@.len() <= 1176,
                forall|i: int| 0 <= i < bytes@.len() ==> bytes@[i] == 0u8,
            decreases self.bitplane_length - bytes.len(),
        {
            bytes.push(0);
        }
        self.bytes = bytes;
    }

    /// Write one 2-bit symbol at the cursor and advance it one slot.
    pub fn write_pair(&mut self, data: u8)
        requires
            old(self).wf(),
            data < 4,
            cursor_ok(old(self).cursor(), old(self).column_height()),
            old(self).byte_index < 1176,
        ensures
            final(self).wf(),
            final(self).same_shape(*old(self)),
            final(self).bytes@ == write_pair_spec(
                old(self).bytes@,
                old(self).byte_index as int,
                old(self).bit_index as int,
                data,
            ),
            final(self).cursor() == cursor_step(old(self).cursor(), old(self).column_height()),
            cursor_ok(final(self).cursor(), final(self).column_height()),
            final(self).byte_index <= 1176,
    {
        let column_height: usize = (self.height as usize) * 8;
        let shift: u8 = 8 - (self.bit_index + 2);
        let v = self.bytes[self.byte_index] | (data << shift);
        self.bytes[self.byte_index] = v;

        self.byte_index += 1;
        self.row_index += 1;
        if self.row_index >= column_height {
            // the column slice is full: back to the column start, next offset
            self.row_index = 0;
            self.byte_index -= column_height;
            self.bit_index += 2;
            if self.bit_index >= 8 {
                // all four pair offsets done: move to the next tile-column
                self.bit_index = 0;
                self.byte_index += column_height;
            }
        }
    }

    /// Write `zero_pairs_amount` zero symbols; only the cursor moves, since
    /// OR-ing zero bits leaves every byte as it was.
    pub fn write_zero_pairs(&mut self, zero_pairs_amount: usize)
        requires
            old(self).wf(),
            cursor_ok(old(self).cursor(), old(self).column_height()),
            old(self).byte_index <= 1176,
            steps_in_bounds(
                old(self).cursor(),
                old(self).column_height(),
                zero_pairs_amount as nat,
                1176,
            ),
        ensures
            final(self).wf(),
            final(self).same_shape(*old(self)),
            final(self).bytes@ == old(self).bytes@,
            final(self).cursor() == cursor_steps(
                old(self).cursor(),
                old(self).column_height(),
                zero_pairs_amount as nat,
            ),
            cursor_ok(final(self).cursor(), final(self).column_height()),
            final(self).byte_index <= 1176,
    {
        let mut count: usize = 0;
        while count < zero_pairs_amount
            invariant
                self.wf(),
                self.same_shape(*old(self)),
                count <= zero_pairs_amount,
                self.bytes@ == old(self).bytes@,
                self.cursor() == cursor_steps(
                    old(self).cursor(),
                    old(self).column_height(),
                    count as nat,
                ),
                cursor_ok(self.cursor(), self.column_height()),
                self.byte_index <= 1176,
                steps_in_bounds(
                    old(self).cursor(),
                    old(self).column_height(),
                    zero_pairs_amount as nat,
                    1176,
                ),
            decreases zero_pairs_amount - count,
        {
            proof {
                assert(cursor_steps(old(self).cursor(), old(self).column_height(), count as nat).byte
                    < 1176);
            }
            let ghost prev = self.bytes@;
            let ghost b = self.byte_index as int;
            let ghost sh = (6 - self.bit_index) as u8;
            self.write_pair(0);
            proof {
                let x = prev[b];
                assert(x | (0u8 << sh) == x) by (bit_vector);
                assert(prev.update(b, x) =~= prev);
                lemma_cursor_steps_snoc(old(self).cursor(), old(self).column_height(), count as nat);
            }
            count += 1;
        }
    }

    /// Write `n` zero symbols, checking each slot: returns `false`, with the
    /// cursor left where it stopped, exactly when some write of the run would
    /// land outside the buffer.  Zero symbols never change a byte, since
    /// writes OR into it.
    pub fn try_write_zero_pairs(&mut self, n: usize) -> (ok: bool)
        requires
            old(self).wf(),
            cursor_ok(old(self).cursor(), old(self).column_height()),
            old(self).byte_index <= 1176,
        ensures
            final(self).wf(),
            final(self).same_shape(*old(self)),
            final(self).bytes@ == old(self).bytes@,
            cursor_ok(final(self).cursor(), final(self).column_height()),
            final(self).byte_index <= 1176,
            ok == steps_in_bounds(
                old(self).cursor(),
                old(self).column_height(),
                n as nat,
                1176,
            ),
            ok ==> final(self).cursor() == cursor_steps(
                old(self).cursor(),
                old(self).column_height(),
                n as nat,
            ),
    {
        let mut count: usize = 0;
        while count < n
            invariant
                self.wf(),
                self.same_shape(*old(self)),
                count <= n,
                self.bytes@ == old(self).bytes@,
                self.cursor() == cursor_steps(
                    old(self).cursor(),
                    old(self).column_height(),
                    count as nat,
                ),
                cursor_ok(self.cursor(), self.column_height()),
                self.byte_index <= 1176,
                forall|j: nat|
                    j < count ==> (#[trigger] cursor_steps(
                        old(self).cursor(),
                        old(self).column_height(),
                        j,
                    )).byte < 1176,
            decreases n - count,
        {
            if self.byte_index >= 1176 {
                proof {
                    assert(cursor_steps(
                        old(self).cursor(),
                        old(self).column_height(),
                        count as nat,
                    ).byte >= 1176);
                }
                return false;
            }
            let ghost prev = self.bytes@;
            let ghost b = self.byte_index as int;
            let ghost sh = (6 - self.bit_index) as u8;
            self.write_pair(0);
            proof {
                let x = prev[b];
                assert(x | (0u8 << sh) == x) by (bit_vector);
                assert(prev.update(b, x) =~= prev);
                lemma_cursor_steps_snoc(old(self).cursor(), old(self).column_height(), count as nat);
            }
            count += 1;
        }
        true
    }

    /// Zero-fill the 392-byte span of one region.
    pub fn wipe_bitplane(&mut self, bitplane: u8)
        requires
            old(self).bytes@.len() == 1176,
        ensures
            final(self).same_shape(*old(self)),
            final(self).same_cursor(*old(self)),
            final(self).width == old(self).width,
            final(self).height == old(self).height,
            final(self).bytes@ == wipe_spec(old(self).bytes@, region_base(bitplane)),
    {
        let offset: usize = match bitplane {
            0 => 0,
            1 => 392,
            _ => 784,
        };
        let mut index = offset;
        while index < offset + 392
            invariant
                offset == region_base(bitplane),
                offset <= index <= offset + 392,
                offset + 392 <= 1176,
                self.bytes@.len() == 1176,
                self.same_shape(*old(self)),
                self.same_cursor(*old(self)),
                self.width == old(self).width,
                self.height == old(self).height,
                forall|i: int|
                    0 <= i < 1176 ==> self.bytes@[i] == (if offset <= i < index {
                        0u8
                    } else {
                        old(self).bytes@[i]
                    }),
            decreases offset + 392 - index,
        {
            self.bytes[index] = 0;
            index += 1;
        }
        proof {
            assert(self.bytes@ =~= wipe_spec(old(self).bytes@, region_base(bitplane)));
        }
    }

    /// XOR every byte of the source region into the destination region,
    /// in place.
    pub fn xor_buffers(&mut self, buffer_index: u8, replace_buffer: u8)
        requires
            old(self).bytes@.len() == 1176,
        ensures
            final(self).same_shape(*old(self)),
            final(self).same_cursor(*old(self)),
            final(self).width == old(self).width,
            final(self).height == old(self).height,
            final(self).bytes@ == xor_merge_spec(
                old(self).bytes@,
                region_base(buffer_index),
                region_base(replace_buffer),
            ),
    {
        let buffer_index_offset: usize = match buffer_index {
            0 => 0,
            1 => 392,
            _ => 784,
        };
        let replace_index_offset: usize = match replace_buffer {
            0 => 0,
            1 => 392,
            _ => 784,
        };
        let end_index: usize = 392;
        let mut index: usize = 0;
        while index < end_index
            invariant
                end_index == 392,
                index <= 392,
                buffer_index_offset == region_base(buffer_index),
                replace_index_offset == region_base(replace_buffer),
                self.bytes@.len() == 1176,
                self.same_shape(*old(self)),
                self.same_cursor(*old(self)),
                self.width == old(self).width,
                self.height == old(self).height,
                forall|i: int|
                    0 <= i < 1176 ==> self.bytes@[i] == (if replace_index_offset <= i
                        < replace_index_offset + index {
                        old(self).bytes@[i] ^ old(self).bytes@[buffer_index_offset + (i
                            - replace_index_offset)]
                    } else {
                        old(self).bytes@[i]
                    }),
            decreases end_index - index,
        {
            let v = self.bytes[index + replace_index_offset] ^ self.bytes[index
                + buffer_index_offset];
            proof {
                assert(self.bytes@[buffer_index_offset + index] == old(self).bytes@[
                    buffer_index_offset + index]);
            }
            self.bytes[index + replace_index_offset] = v;
            index += 1;
        }
        proof {
            assert(self.bytes@ =~= xor_merge_spec(
                old(self).bytes@,
                region_base(buffer_index),
                region_base(replace_buffer),
            ));
        }
    }
}


/// Top-left byte of the aligned copy of a `w x h`-tile sprite inside the
/// 7x7-tile canvas of the region starting at `to`.
pub open spec fn copy_origin(w: int, h: int, to: int) -> int {
    to + (7 - w) * 8 + ((7 - h) / 2) * 56
}

/// Aligned copy: wipe the destination region, then place the packed
/// `w`-column source plane at the canvas origin, one 56-byte tile-column
/// stride per source column.
pub open spec fn copy_spec(s: Seq<u8>, w: int, h: int, from: int, to: int) -> Seq<u8> {
    let k = copy_origin(w, h, to);
    Seq::new(
        s.len(),
        |i: int|
            if k <= i < k + 56 * w && (i - k) % 56 < 8 * h {
                s[from + 8 * h * ((i - k) / 56) + (i - k) % 56]
            } else if to <= i < to + 392 {
                0u8
            } else {
                s[i]
            },
    )
}

/// For a destination in the first or second region, the aligned rectangle
/// of any valid sprite fits the 1176-byte store.
pub proof fn lemma_copy_fits_low_regions(w: int, h: int, to: int)
    requires
        1 <= w <= 7,
        1 <= h <= 7,
        to == 0 || to == 392,
    ensures
        copy_origin(w, h, to) + 56 * (w - 1) + 8 * h <= 1176,
{
}

/// Reading the copied rectangle back from the canvas returns the source
/// plane exactly, byte for byte, whatever the canvas offsets are.
pub proof fn lemma_copy_reads_back(s: Seq<u8>, w: int, h: int, from: int, to: int, c: int, r: int)
    requires
        s.len() == 1176,
        1 <= w <= 7,
        1 <= h <= 7,
        0 <= c < w,
        0 <= r < 8 * h,
        copy_origin(w, h, to) + 56 * (w - 1) + 8 * h <= 1176,
        0 <= to,
    ensures
        copy_spec(s, w, h, from, to)[copy_origin(w, h, to) + 56 * c + r] == s[from + 8 * h * c + r],
{
    let k = copy_origin(w, h, to);
    let i = k + 56 * c + r;
    assert(56 * c <= 56 * (w - 1)) by (nonlinear_arith)
        requires
            c <= w - 1,
    ;
    vstd::arithmetic::div_mod::lemma_fundamental_div_mod_converse(i - k, 56, c, r);
    assert(k + 56 * c <= i < k + 56 * w) by (nonlinear_arith)
        requires
            i == k + 56 * c + r && 0 <= r && r < 8 * h && h <= 7 && c < w,
    ;
}

/// Interleave of the first two regions into the back half of the buffer:
/// pair `k` of the result holds byte `k` of the first region followed by
/// byte `k` of the second.
pub open spec fn zip_spec(s: Seq<u8>) -> Seq<u8> {
    Seq::new(
        s.len(),
        |i: int|
            if 392 <= i < 1176 {
                if (i - 392) % 2 == 0 {
                    s[(i - 392) / 2]
                } else {
                    s[392 + (i - 392) / 2]
                }
            } else {
                s[i]
            },
    )
}

/// The nibble substitution that reverses the per-scanline delta transform.
pub open spec fn delta_table(n: u8) -> u8 {
    if n == 0 {
        0
    } else if n == 1 {
        1
    } else if n == 2 {
        3
    } else if n == 3 {
        2
    } else if n == 4 {
        7
    } else if n == 5 {
        6
    } else if n == 6 {
        4
    } else if n == 7 {
        5
    } else if n == 8 {
        15
    } else if n == 9 {
        14
    } else if n == 10 {
        12
    } else if n == 11 {
        13
    } else if n == 12 {
        8
    } else if n == 13 {
        9
    } else if n == 14 {
        11
    } else {
        10
    }
}

/// Decode one byte's two nibbles under the incoming parity; the result pairs
/// the decoded byte with the outgoing parity (the low bit of the decoded low
/// nibble).
pub open spec fn delta_byte(b: u8, parity: u8) -> (u8, u8) {
    let hi = delta_table(b >> 4u8) ^ ((15 * parity) as u8);
    let p1 = hi & 1;
    let lo = delta_table(b & 15) ^ ((15 * p1) as u8);
    let p2 = lo & 1;
    (((hi << 4u8) + lo) as u8, p2)
}

/// Parity carried into column `col` of the scanline `row` of the plane at
/// `base`; it resets to zero at the start of every scanline.
pub open spec fn delta_parity(s: Seq<u8>, base: int, colh: int, row: int, col: int) -> u8
    decreases col,
{
    if col <= 0 {
        0
    } else {
        delta_byte(s[base + (col - 1) * colh + row], delta_parity(s, base, colh, row, col - 1)).1
    }
}

/// Decoded byte of column `col`, scanline `row` of the plane at `base`.
pub open spec fn delta_decoded_at(s: Seq<u8>, base: int, colh: int, row: int, col: int) -> u8 {
    delta_byte(s[base + col * colh + row], delta_parity(s, base, colh, row, col)).0
}

/// Whole-plane delta decode of a `w x h`-tile plane at `base`, in place.
pub open spec fn delta_decode_spec(s: Seq<u8>, base: int, w: int, h: int) -> Seq<u8> {
    let colh = 8 * h;
    Seq::new(
        s.len(),
        |i: int|
            if base <= i < base + w * colh {
                delta_decoded_at(s, base, colh, (i - base) % colh, (i - base) / colh)
            } else {
                s[i]
            },
    )
}

/// The zero byte decodes to zero under zero parity, and keeps the parity at
/// zero.
pub proof fn lemma_delta_byte_zero()
    ensures
        delta_byte(0, 0) == (0u8, 0u8),
{
    assert(0u8 >> 4u8 == 0u8) by (bit_vector);
    assert(0u8 & 15u8 == 0u8) by (bit_vector);
    assert(0u8 ^ ((15 * 0) as u8) == 0u8) by (bit_vector);
    assert(0u8 & 1u8 == 0u8) by (bit_vector);
    assert((((0u8 << 4u8) + 0u8) as u8) == 0u8) by (bit_vector);
}

/// On an all-zero plane the scanline parity never leaves zero.
pub proof fn lemma_delta_zero_parity(s: Seq<u8>, base: int, colh: int, w: int, row: int, col: int)
    requires
        colh >= 1,
        0 <= base,
        base + w * colh <= s.len(),
        0 <= row < colh,
        0 <= col <= w,
        forall|i: int| base <= i < base + w * colh ==> s[i] == 0u8,
    ensures
        delta_parity(s, base, colh, row, col) == 0,
    decreases col,
{
    if col > 0 {
        lemma_delta_zero_parity(s, base, colh, w, row, col - 1);
        assert(base <= base + (col - 1) * colh + row < base + w * colh) by (nonlinear_arith)
            requires
                0 <= col - 1 < w && 0 <= row < colh && colh >= 1,
        ;
        lemma_delta_byte_zero();
    }
}

/// Delta-decoding a plane that is already all zero is a no-op: the parity
/// stays zero on every scanline and the zero nibble is a fixed point of the
/// substitution table.
pub proof fn lemma_delta_decode_zero_fixpoint(s: Seq<u8>, base: int, w: int, h: int)
    requires
        s.len() == 1176,
        1 <= w <= 7,
        1 <= h <= 7,
        0 <= base,
        base + w * (8 * h) <= 1176,
        forall|i: int| base <= i < base + w * (8 * h) ==> s[i] == 0u8,
    ensures
        delta_decode_spec(s, base, w, h) == s,
{
    let colh = 8 * h;
    let out = delta_decode_spec(s, base, w, h);
    assert forall|i: int| 0 <= i < 1176 implies out[i] == s[i] by {
        if base <= i < base + w * colh {
            let off = i - base;
            let col = off / colh;
            let row = off % colh;
            vstd::arithmetic::div_mod::lemma_fundamental_div_mod(off, colh);
            vstd::arithmetic::div_mod::lemma_mod_bound(off, colh);
            assert(0 <= col < w) by (nonlinear_arith)
                requires
                    off == col * colh + row && 0 <= off < w * colh && 0 <= row < colh && colh >= 1,
            ;
            lemma_delta_zero_parity(s, base, colh, w, row, col);
            assert(base <= base + col * colh + row < base + w * colh) by (nonlinear_arith)
                requires
                    0 <= col < w && 0 <= row < colh && colh >= 1,
            ;
            lemma_delta_byte_zero();
        }
    }
    assert(out =~= s);
}

/// Colour index of pixel `j` over the interleaved back half of the buffer:
/// the even byte of pair `j / 8` gives the high bit, the odd byte the low
/// bit, both at bit `j % 8`.
pub open spec fn pixel_color(s: Seq<u8>, j: int) -> u8 {
    (2 * crate::stream::byte_bit(s[392 + 2 * (j / 8)], j % 8) + crate::stream::byte_bit(
        s[392 + 2 * (j / 8) + 1],
        j % 8,
    )) as u8
}

/// Substitution table lookup for one nibble.
fn decode_nibble(n: u8) -> (r: u8)
    requires
        n < 16,
    ensures
        r == delta_table(n),
        r <= 15,
{
    match n {
        0 => 0,
        1 => 1,
        2 => 3,
        3 => 2,
        4 => 7,
        5 => 6,
        6 => 4,
        7 => 5,
        8 => 15,
        9 => 14,
        10 => 12,
        11 => 13,
        12 => 8,
        13 => 9,
        14 => 11,
        _ => 10,
    }
}


impl Buffer {
    /// Wipe the destination region, then copy the packed source plane into
    /// it, centred in the 7x7-tile canvas by the stored offsets.  The two
    /// regions must be distinct, so the source plane survives the wipe and
    /// is copied as it stood.
    pub fn copy_bitplane(&mut self, from: u8, to: u8)
        requires
            old(self).wf(),
            region_base(from) != region_base(to),
            copy_origin(
                old(self).width as int,
                old(self).height as int,
                region_base(to),
            ) + 56 * (old(self).width - 1) + 8 * old(self).height <= 1176,
        ensures
            final(self).wf(),
            final(self).same_shape(*old(self)),
            final(self).same_cursor(*old(self)),
            final(self).bytes@ == copy_spec(
                old(self).bytes@,
                old(self).width as int,
                old(self).height as int,
                region_base(from),
                region_base(to),
            ),
    {
        let height: usize = (self.height as usize) * 8;
        let wcols: usize = self.width as usize;
        let from_start: usize = match from {
            0 => 0,
            1 => 392,
            _ => 784,
        };
        proof {
            assert(wcols * height <= 392) by (nonlinear_arith)
                requires
                    wcols <= 7 && height <= 56,
            ;
        }

        // snapshot the source rectangle so the copy reads a consistent plane
        let mut rect: Vec<u8> = Vec::new();
        let mut i: usize = 0;
        while i < wcols * height
            invariant
                self.wf(),
                self == old(self),
                from_start == region_base(from),
                wcols == self.width as int,
                height == 8 * self.height as int,
                wcols * height <= 392,
                rect@.len() == i,
                i <= wcols * height,
                forall|j: int| 0 <= j < i ==> rect@[j] == self.bytes@[from_start + j],
            decreases wcols * height - i,
        {
            let b = self.bytes[from_start + i];
            rect.push(b);
            i += 1;
        }

        self.wipe_bitplane(to);

        let to_start: usize = match to {
            0 => 0,
            1 => 392,
            _ => 784,
        };
        let ghost w = old(self).width as int;
        let ghost h = old(self).height as int;
        let ghost k = copy_origin(w, h, region_base(to));
        let ghost orig = old(self).bytes@;

        let mut index: usize = ((self.vertical_offset as usize) * 8 + (self.horizontal_offset
            as usize) * 8 * 7) + to_start;
        let mut current_column: usize = 0;
        assert(index == k);
        while current_column < wcols
            invariant
                self.wf(),
                self.same_shape(*old(self)),
                self.same_cursor(*old(self)),
                wcols == w,
                height == 8 * h,
                1 <= w <= 7,
                1 <= h <= 7,
                to_start == region_base(to),
                from_start == region_base(from),
                k == copy_origin(w, h, region_base(to)),
                k + 56 * (w - 1) + 8 * h <= 1176,
                to_start <= k,
                orig == old(self).bytes@,
                current_column <= wcols,
                wcols * height <= 392,
                index == k + 56 * current_column,
                rect@.len() == wcols * height,
                forall|j: int| 0 <= j < wcols * height ==> rect@[j] == orig[from_start + j],
                forall|ii: int|
                    0 <= ii < 1176 ==> self.bytes@[ii] == (if k <= ii < k + 56 * current_column
                        && (ii - k) % 56 < 8 * h {
                        orig[region_base(from) + 8 * h * ((ii - k) / 56) + (ii - k) % 56]
                    } else if to_start <= ii < to_start + 392 {
                        0u8
                    } else {
                        orig[ii]
                    }),
            decreases wcols - current_column,
        {
            let ghost cc = current_column as int;
            proof {
                assert(56 * cc <= 56 * (w - 1)) by (nonlinear_arith)
                    requires
                        cc <= w - 1,
                ;
                assert(cc * height + height <= wcols * height) by (nonlinear_arith)
                    requires
                        cc + 1 <= wcols && height >= 0,
                ;
            }
            let mut row_count: usize = 0;
            while row_count < height
                invariant
                    self.wf(),
                    self.same_shape(*old(self)),
                    self.same_cursor(*old(self)),
                    wcols == w,
                    height == 8 * h,
                    1 <= w <= 7,
                    1 <= h <= 7,
                    to_start == region_base(to),
                    from_start == region_base(from),
                    k == copy_origin(w, h, region_base(to)),
                    k + 56 * (w - 1) + 8 * h <= 1176,
                    to_start <= k,
                    orig == old(self).bytes@,
                    cc == current_column as int,
                    current_column < wcols,
                    wcols * height <= 392,
                    56 * cc <= 56 * (w - 1),
                    cc * height + height <= wcols * height,
                    row_count <= height,
                    index == k + 56 * cc + row_count,
                    rect@.len() == wcols * height,
                    forall|j: int| 0 <= j < wcols * height ==> rect@[j] == orig[from_start + j],
                    forall|ii: int|
                        0 <= ii < 1176 ==> self.bytes@[ii] == (if k <= ii < k + 56 * cc && (ii - k)
                            % 56 < 8 * h {
                            orig[region_base(from) + 8 * h * ((ii - k) / 56) + (ii - k) % 56]
                        } else if k + 56 * cc <= ii < k + 56 * cc + row_count {
                            orig[region_base(from) + cc * height + (ii - k - 56 * cc)]
                        } else if to_start <= ii < to_start + 392 {
                            0u8
                        } else {
                            orig[ii]
                        }),
                decreases height - row_count,
            {
                let src_at = current_column * height + row_count;
                let v = rect[src_at];
                self.bytes[index] = v;
                index += 1;
                row_count += 1;
            }
            index -= height;
            index += 56;
            proof {
                // fold the finished column into the per-column formula
                let nc = cc + 1;
                assert forall|ii: int| 0 <= ii < 1176 implies self.bytes@[ii] == (if k <= ii < k
                    + 56 * nc && (ii - k) % 56 < 8 * h {
                    orig[region_base(from) + 8 * h * ((ii - k) / 56) + (ii - k) % 56]
                } else if to_start <= ii < to_start + 392 {
                    0u8
                } else {
                    orig[ii]
                }) by {
                    if k + 56 * cc <= ii < k + 56 * cc + 56 {
                        let r = ii - k - 56 * cc;
                        vstd::arithmetic::div_mod::lemma_fundamental_div_mod_converse(
                            ii - k,
                            56,
                            cc,
                            r,
                        );
                        assert(8 * h * cc == cc * height) by (nonlinear_arith)
                            requires
                                height == 8 * h,
                        ;
                    }
                }
            }
            current_column += 1;
        }
        proof {
            assert(self.bytes@ =~= copy_spec(
                old(self).bytes@,
                w,
                h,
                region_base(from),
                region_base(to),
            ));
        }
    }

    /// Interleave the first region with the second into the back half of the
    /// buffer, walking from the highest pair downward so every source byte is
    /// read before it can be overwritten.
    pub fn zip_buffers(&mut self)
        requires
            old(self).bytes@.len() == 1176,
        ensures
            final(self).same_shape(*old(self)),
            final(self).same_cursor(*old(self)),
            final(self).width == old(self).width,
            final(self).height == old(self).height,
            final(self).bytes@ == zip_spec(old(self).bytes@),
    {
        let mut k: usize = 392;
        while k > 0
            invariant
                k <= 392,
                self.bytes@.len() == 1176,
                self.same_shape(*old(self)),
                self.same_cursor(*old(self)),
                self.width == old(self).width,
                self.height == old(self).height,
                forall|i: int|
                    0 <= i < 1176 ==> self.bytes@[i] == (if 392 + 2 * k <= i < 1176 {
                        if (i - 392) % 2 == 0 {
                            old(self).bytes@[(i - 392) / 2]
                        } else {
                            old(self).bytes@[392 + (i - 392) / 2]
                        }
                    } else {
                        old(self).bytes@[i]
                    }),
            decreases k,
        {
            k -= 1;
            let hi = self.bytes[392 + k];
            let lo = self.bytes[k];
            self.bytes[392 + 2 * k + 1] = hi;
            self.bytes[392 + 2 * k] = lo;
            proof {
                let a = 392 + 2 * (k as int);
                vstd::arithmetic::div_mod::lemma_fundamental_div_mod_converse(
                    a - 392,
                    2,
                    k as int,
                    0,
                );
                vstd::arithmetic::div_mod::lemma_fundamental_div_mod_converse(
                    a + 1 - 392,
                    2,
                    k as int,
                    1,
                );
            }
        }
        proof {
            assert(self.bytes@ =~= zip_spec(old(self).bytes@));
        }
    }

    /// Reverse the per-scanline delta transform of one plane, scanline by
    /// scanline with the parity chained left to right across the columns.
    pub fn delta_decode(&mut self, buffer: u8)
        requires
            old(self).wf(),
            old(self).byte_index + 8 * (old(self).height as int) <= usize::MAX,
        ensures
            final(self).wf(),
            final(self).same_shape(*old(self)),
            final(self).bit_index == old(self).bit_index,
            final(self).row_index == old(self).row_index,
            final(self).byte_index == old(self).byte_index + 8 * old(self).height,
            final(self).bytes@ == delta_decode_spec(
                old(self).bytes@,
                region_base(buffer),
                old(self).width as int,
                old(self).height as int,
            ),
    {
        let index_offset: usize = match buffer {
            0 => 0,
            1 => 392,
            _ => 784,
        };
        let row_height: usize = (self.height as usize) * 8;
        let col_width: usize = self.width as usize;
        let ghost base = region_base(buffer);
        let ghost w = old(self).width as int;
        let ghost h = old(self).height as int;
        let ghost colh = 8 * h;
        let ghost orig = old(self).bytes@;
        proof {
            assert(base + w * colh <= 1176) by (nonlinear_arith)
                requires
                    base <= 784 && 1 <= w <= 7 && 1 <= h <= 7 && colh == 8 * h,
            ;
        }

        let mut row_index: usize = 0;
        while row_index < row_height
            invariant
                self.wf(),
                self.same_shape(*old(self)),
                self.bit_index == old(self).bit_index,
                self.row_index == old(self).row_index,
                self.byte_index == old(self).byte_index + row_index,
                old(self).byte_index + row_height <= usize::MAX,
                index_offset == base,
                row_height == colh,
                col_width == w,
                1 <= w <= 7,
                1 <= h <= 7,
                colh == 8 * h,
                base + w * colh <= 1176,
                orig == old(self).bytes@,
                row_index <= row_height,
                forall|ii: int|
                    0 <= ii < 1176 ==> self.bytes@[ii] == (if base <= ii < base + w * colh && (ii
                        - base) % colh < row_index {
                        delta_decoded_at(orig, base, colh, (ii - base) % colh, (ii - base) / colh)
                    } else {
                        orig[ii]
                    }),
            decreases row_height - row_index,
        {
            let mut prev_state: u8 = 0;
            let mut col_index: usize = 0;
            while col_index < col_width
                invariant
                    self.wf(),
                    self.same_shape(*old(self)),
                    self.bit_index == old(self).bit_index,
                    self.row_index == old(self).row_index,
                    self.byte_index == old(self).byte_index + row_index,
                    old(self).byte_index + row_height <= usize::MAX,
                    index_offset == base,
                    row_height == colh,
                    col_width == w,
                    1 <= w <= 7,
                    1 <= h <= 7,
                    colh == 8 * h,
                    base + w * colh <= 1176,
                    orig == old(self).bytes@,
                    row_index < row_height,
                    col_index <= col_width,
                    prev_state == delta_parity(orig, base, colh, row_index as int, col_index as int),
                    prev_state <= 1,
                    forall|ii: int|
                        0 <= ii < 1176 ==> self.bytes@[ii] == (if base <= ii < base + w * colh && (
                        ii - base) % colh < row_index {
                            delta_decoded_at(
                                orig,
                                base,
                                colh,
                                (ii - base) % colh,
                                (ii - base) / colh,
                            )
                        } else if base <= ii < base + w * colh && (ii - base) % colh == row_index
                            && (ii - base) / colh < col_index {
                            delta_decoded_at(
                                orig,
                                base,
                                colh,
                                (ii - base) % colh,
                                (ii - base) / colh,
                            )
                        } else {
                            orig[ii]
                        }),
                decreases col_width - col_index,
            {
                proof {
                    assert(col_index * row_height + row_index < w * colh) by (nonlinear_arith)
                        requires
                            col_index < w && row_index < colh && row_height == colh && colh >= 1,
                    ;
                }
                let index: usize = (col_index * row_height + row_index) + index_offset;
                proof {
                    vstd::arithmetic::div_mod::lemma_fundamental_div_mod_converse(
                        index - base,
                        colh,
                        col_index as int,
                        row_index as int,
                    );
                    assert(index - base == (col_index as int) * colh + row_index) by (
                    nonlinear_arith)
                        requires
                            index == col_index * row_height + row_index + base && row_height
                                == colh,
                    ;
                }
                let byte = self.bytes[index];
                assert(byte == orig[index as int]);
                proof {
                    assert(byte >> 4u8 < 16 && (byte & 15u8) < 16) by (bit_vector);
                }
                let first = decode_nibble(byte >> 4) ^ (15 * prev_state);
                proof {
                    let t = delta_table(byte >> 4u8);
                    let m = (15 * prev_state) as u8;
                    assert(t ^ m <= 15 && (t ^ m) & 1 <= 1) by (bit_vector)
                        requires
                            t <= 15 && m <= 15,
                    ;
                }
                prev_state = first & 1;
                proof {
                    let f = first;
                    assert(f & 1 <= 1) by (bit_vector);
                }
                let second = decode_nibble(byte & 15) ^ (15 * prev_state);
                proof {
                    let t = delta_table(byte & 15);
                    let m = (15 * prev_state) as u8;
                    assert(t ^ m <= 15 && (t ^ m) & 1 <= 1) by (bit_vector)
                        requires
                            t <= 15 && m <= 15,
                    ;
                }
                prev_state = second & 1;
                proof {
                    let sc = second;
                    assert(sc & 1 <= 1) by (bit_vector);
                    assert(first <= 15 ==> (first << 4u8) <= 240) by (bit_vector);
                }
                let combined = (first << 4) + second;
                self.bytes[index] = combined;
                proof {
                    assert(combined == delta_decoded_at(
                        orig,
                        base,
                        colh,
                        row_index as int,
                        col_index as int,
                    ));
                    // only `index` decomposes to this (row, column) pair, so
                    // every other position keeps its branch of the formula
                    let row = row_index as int;
                    let col = col_index as int;
                    assert forall|ii: int| 0 <= ii < 1176 implies self.bytes@[ii] == (if base <= ii
                        < base + w * colh && (ii - base) % colh < row {
                        delta_decoded_at(orig, base, colh, (ii - base) % colh, (ii - base) / colh)
                    } else if base <= ii < base + w * colh && (ii - base) % colh == row && (ii
                        - base) / colh < col + 1 {
                        delta_decoded_at(orig, base, colh, (ii - base) % colh, (ii - base) / colh)
                    } else {
                        orig[ii]
                    }) by {
                        if base <= ii < base + w * colh && (ii - base) % colh == row && (ii - base)
                            / colh == col {
                            vstd::arithmetic::div_mod::lemma_fundamental_div_mod(ii - base, colh);
                            assert(ii - base == colh * col + row);
                            assert(colh * col == col * colh) by (nonlinear_arith);
                            assert(ii == index as int);
                        }
                    }
                }
                col_index += 1;
            }
            proof {
                // a position of this scanline always has its column below `w`,
                // so the finished scanline folds into the per-row formula
                let nr = row_index + 1;
                assert forall|ii: int| 0 <= ii < 1176 implies self.bytes@[ii] == (if base <= ii
                    < base + w * colh && (ii - base) % colh < nr {
                    delta_decoded_at(orig, base, colh, (ii - base) % colh, (ii - base) / colh)
                } else {
                    orig[ii]
                }) by {
                    if base <= ii < base + w * colh {
                        let off = ii - base;
                        let q = off / colh;
                        let r = off % colh;
                        vstd::arithmetic::div_mod::lemma_fundamental_div_mod(off, colh);
                        vstd::arithmetic::div_mod::lemma_mod_bound(off, colh);
                        assert(0 <= q < w) by (nonlinear_arith)
                            requires
                                off == q * colh + r && 0 <= off < w * colh && 0 <= r < colh && colh
                                    >= 1,
                        ;
                    }
                }
            }
            row_index += 1;
            self.byte_index += 1;
        }
        proof {
            assert(self.bytes@ =~= delta_decode_spec(orig, base, w, h));
        }
    }

    /// Colour index of every pixel of the interleaved back half: one 2-bit
    /// value per bit position, high bit from the even byte of each pair, low
    /// bit from the odd byte.
    pub fn pixel_colors(&self) -> (r: Vec<u8>)
        requires
            self.bytes@.len() == 1176,
        ensures
            r@.len() == 3136,
            forall|j: int| 0 <= j < 3136 ==> r@[j] == pixel_color(self.bytes@, j),
    {
        let mut pixels: Vec<u8> = Vec::new();
        let mut pair: usize = 0;
        while pair < 392
            invariant
                self.bytes@.len() == 1176,
                pair <= 392,
                pixels@.len() == 8 * pair,
                forall|j: int| 0 <= j < 8 * pair ==> pixels@[j] == pixel_color(self.bytes@, j),
            decreases 392 - pair,
        {
            let a = self.bytes[392 + 2 * pair];
            let b = self.bytes[392 + 2 * pair + 1];
            let mut bit_index: usize = 0;
            while bit_index < 8
                invariant
                    self.bytes@.len() == 1176,
                    pair < 392,
                    bit_index <= 8,
                    a == self.bytes@[392 + 2 * (pair as int)],
                    b == self.bytes@[392 + 2 * (pair as int) + 1],
                    pixels@.len() == 8 * pair + bit_index,
                    forall|j: int|
                        0 <= j < 8 * pair + bit_index ==> pixels@[j] == pixel_color(
                            self.bytes@,
                            j,
                        ),
                decreases 8 - bit_index,
            {
                let shift: u8 = 7 - (bit_index as u8);
                let bit_a = (a >> shift) & 1;
                let bit_b = (b >> shift) & 1;
                proof {
                    assert((a >> shift) & 1 <= 1 && (b >> shift) & 1 <= 1) by (bit_vector);
                    let j = 8 * (pair as int) + bit_index;
                    vstd::arithmetic::div_mod::lemma_fundamental_div_mod_converse(
                        j,
                        8,
                        pair as int,
                        bit_index as int,
                    );
                }
                if bit_a == 0 && bit_b == 0 {
                    pixels.push(0);
                } else if bit_a == 0 && bit_b == 1 {
                    pixels.push(1);
                } else if bit_a == 1 && bit_b == 0 {
                    pixels.push(2);
                } else {
                    pixels.push(3);
                }
                bit_index += 1;
            }
            pair += 1;
        }
        pixels
    }
}

} // verus!
