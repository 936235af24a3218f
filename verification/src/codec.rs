//! Two-phase packet decoder and the full decode pipeline.
//!
//! The bitstream is a sequence of packets: literal 2-bit symbols, and
//! self-delimiting run-length codes for runs of the zero symbol.  A run code
//! is a unary-terminated prefix (`L - 1` one bits and a closing zero, worth
//! `2^L - 2`) followed by an `L`-bit suffix `Q`; it stands for
//! `2^L - 2 + Q + 1` zero symbols.

use vstd::prelude::*;
use crate::stream::BitStream;
use crate::stream::clamp_pos;
use crate::stream::last_bit_pos;
use crate::stream::read_acc;
use crate::stream::stream_bit;
use crate::stream::lemma_clamp_add;
use crate::stream::lemma_read_acc_bound;
use crate::stream::lemma_read_acc_clamp;
use crate::stream::lemma_stream_bit_clamp;
use crate::buffer::Buffer;
use crate::buffer::Cursor;
use crate::buffer::cursor_ok;
use crate::buffer::cursor_rank;
use crate::buffer::cursor_step;
use crate::buffer::cursor_steps;
use crate::buffer::lemma_cursor_step_ok;
use crate::buffer::lemma_cursor_steps_ok;
use crate::buffer::steps_in_bounds;
use crate::buffer::write_pair_spec;
use crate::buffer::copy_origin;
use crate::buffer::copy_spec;
use crate::buffer::delta_decode_spec;
use crate::buffer::xor_merge_spec;
use crate::buffer::zip_spec;

verus! {

/// How the decoded planes are combined: which of them gets delta-decoded,
/// and whether the third region is XOR-merged into the second.
#[derive(Clone, Copy, PartialEq, Eq, Structural, Debug)]
pub enum EncodingMode {
    Mode1,
    Mode2,
    Mode3,
}

/// Inputs on which decoding stops instead of producing a sprite.
#[derive(Clone, Copy, PartialEq, Eq, Structural, Debug)]
pub enum DecodeError {
    /// No bytes at all: the header cannot be read.
    EmptyInput,
    /// A width or height nibble outside 1..=7.
    BadDimensions,
    /// A run prefix of more than 16 bits, beyond what the format's 16-bit
    /// accumulators can represent.
    RunTooLong,
    /// A symbol write that would land outside the three-region buffer.
    BufferOverflow,
}

/// Phase of the packet machine: reading literal pairs, counting the unary
/// run prefix, or about to read the run suffix.
pub ghost enum PassPhase {
    Literal,
    Prefix,
    Suffix,
}

/// Abstract state of one decode pass.
pub ghost struct PassState {
    /// Unclamped stream cursor (the concrete reader clamps it at the end).
    pub pos: int,
    /// Buffer contents.
    pub buf: Seq<u8>,
    /// Write cursor.
    pub cur: Cursor,
    /// Output bits written so far in this pass.
    pub written: int,
    /// Current phase.
    pub phase: PassPhase,
    /// Bits taken so far by the run prefix (total prefix length in `Suffix`).
    pub prefix_len: int,
}

/// What a finished pass leaves behind.
pub ghost struct PassEnd {
    pub pos: int,
    pub buf: Seq<u8>,
    pub cur: Cursor,
}

/// A pass stops once the target bit count is written (first pass) or the
/// stream has no bits left after the cursor (second pass).
pub open spec fn pass_done(bits: Seq<u8>, first: bool, target: int, st: PassState) -> bool {
    if first {
        st.written >= target
    } else {
        st.pos >= last_bit_pos(bits.len())
    }
}

/// Decreasing measure of a pass: output bits still owed, or stream bits
/// still unread.
pub open spec fn pass_metric(bits: Seq<u8>, first: bool, target: int, st: PassState) -> int {
    let m = if first {
        target - st.written
    } else {
        last_bit_pos(bits.len()) - st.pos
    };
    if m < 0 {
        0
    } else {
        m
    }
}

pub open spec fn phase_rank(p: PassPhase) -> int {
    match p {
        PassPhase::Literal => 2,
        PassPhase::Prefix => 1,
        PassPhase::Suffix => 0,
    }
}

pub open spec fn prefix_budget(l: int) -> int {
    if l < 17 {
        17 - l
    } else {
        0
    }
}

/// One decode pass, one packet-machine step per recursive call.
///
/// Literal phase: a nonzero pair is written at the cursor; the zero pair is
/// the escape into a run code.  Prefix phase: one bit per step until the
/// closing zero; a prefix beyond 16 bits is refused.  Suffix phase: read the
/// `L`-bit suffix and emit `prefix + suffix + 1` zero symbols, refusing a
/// run that would write outside the buffer.  Zero symbols only move the
/// cursor, since writes OR into the byte.
pub open spec fn decode_pass(
    bits: Seq<u8>,
    first: bool,
    target: int,
    colh: int,
    st: PassState,
) -> Result<PassEnd, DecodeError>
    decreases pass_metric(bits, first, target, st), phase_rank(st.phase), prefix_budget(
        st.prefix_len,
    ),
{
    if pass_done(bits, first, target, st) {
        Ok(PassEnd { pos: st.pos, buf: st.buf, cur: st.cur })
    } else {
        match st.phase {
            PassPhase::Literal => {
                let pair = read_acc(bits, st.pos, 2);
                if pair == 0 {
                    decode_pass(
                        bits,
                        first,
                        target,
                        colh,
                        PassState { pos: st.pos + 2, phase: PassPhase::Prefix, prefix_len: 0, ..st },
                    )
                } else if st.cur.byte >= 1176 {
                    Err(DecodeError::BufferOverflow)
                } else {
                    decode_pass(
                        bits,
                        first,
                        target,
                        colh,
                        PassState {
                            pos: st.pos + 2,
                            buf: write_pair_spec(st.buf, st.cur.byte, st.cur.bit, pair as u8),
                            cur: cursor_step(st.cur, colh),
                            written: st.written + 2,
                            phase: PassPhase::Literal,
                            prefix_len: 0,
                        },
                    )
                }
            },
            PassPhase::Prefix => {
                if st.prefix_len >= 16 {
                    Err(DecodeError::RunTooLong)
                } else if stream_bit(bits, st.pos) == 1 {
                    decode_pass(
                        bits,
                        first,
                        target,
                        colh,
                        PassState { pos: st.pos + 1, prefix_len: st.prefix_len + 1, ..st },
                    )
                } else {
                    decode_pass(
                        bits,
                        first,
                        target,
                        colh,
                        PassState {
                            pos: st.pos + 1,
                            phase: PassPhase::Suffix,
                            prefix_len: st.prefix_len + 1,
                            ..st
                        },
                    )
                }
            },
            PassPhase::Suffix => {
                if st.prefix_len < 1 || st.prefix_len > 16 {
                    Err(DecodeError::RunTooLong)
                } else {
                    let l = st.prefix_len;
                    let p = read_acc(bits, st.pos - l, l as nat);
                    let q = read_acc(bits, st.pos, l as nat);
                    let run = p + q + 1;
                    if !steps_in_bounds(st.cur, colh, run, 1176) {
                        Err(DecodeError::BufferOverflow)
                    } else {
                        decode_pass(
                            bits,
                            first,
                            target,
                            colh,
                            PassState {
                                pos: st.pos + l,
                                buf: st.buf,
                                cur: cursor_steps(st.cur, colh, run),
                                written: st.written + 2 * run,
                                phase: PassPhase::Literal,
                                prefix_len: 0,
                            },
                        )
                    }
                }
            },
        }
    }
}


/// A run of `n` one bits accumulates to `2^n - 1`.
pub proof fn lemma_all_ones_value(bits: Seq<u8>, pos: int, n: nat)
    requires
        forall|k: int| 0 <= k < n ==> #[trigger] stream_bit(bits, pos + k) == 1,
    ensures
        read_acc(bits, pos, n) == vstd::arithmetic::power2::pow2(n) - 1,
    decreases n,
{
    if n == 0 {
        vstd::arithmetic::power2::lemma2_to64();
    } else {
        vstd::arithmetic::power2::lemma_pow2_unfold(n);
        lemma_all_ones_value(bits, pos, (n - 1) as nat);
        assert(stream_bit(bits, pos + n - 1) == 1);
    }
}

/// Decoding a run prefix of `l - 1` one bits closed by a zero bit
/// accumulates exactly `2^l - 2`: the prefix value the run length formula
/// `2^l - 2 + q + 1` starts from.
pub proof fn lemma_prefix_ones_value(bits: Seq<u8>, pos: int, l: nat)
    requires
        l >= 1,
        forall|k: int| 0 <= k < l - 1 ==> #[trigger] stream_bit(bits, pos + k) == 1,
        stream_bit(bits, pos + l - 1) == 0,
    ensures
        read_acc(bits, pos, l) == vstd::arithmetic::power2::pow2(l) - 2,
{
    vstd::arithmetic::power2::lemma_pow2_unfold(l);
    lemma_all_ones_value(bits, pos, (l - 1) as nat);
}

/// Round trip of the run-length code: encoding a run length with the
/// minimal prefix length `l` (the one with `2^l - 2 <= run - 1 < 2^(l+1) - 2`)
/// gives a suffix `q = run - (2^l - 1)` that is representable in `l` bits,
/// and decoding `2^l - 2 + q + 1` returns the original run length.
pub proof fn lemma_run_code_round_trip(run: int, l: nat)
    requires
        run >= 1,
        vstd::arithmetic::power2::pow2(l) - 2 <= run - 1,
        run - 1 < vstd::arithmetic::power2::pow2(l + 1) - 2,
    ensures
        l >= 1,
        0 <= run - (vstd::arithmetic::power2::pow2(l) - 1)
            < vstd::arithmetic::power2::pow2(l),
        (vstd::arithmetic::power2::pow2(l) - 2) + (run - (vstd::arithmetic::power2::pow2(l) - 1))
            + 1 == run,
{
    vstd::arithmetic::power2::lemma2_to64();
    vstd::arithmetic::power2::lemma_pow2_unfold(l + 1);
    if l == 0 {
        assert(false);
    }
}


/// Counting the rest of a run prefix: from a prefix state that has already
/// taken some bits, the remaining one bits and the closing zero lead the
/// pass to the suffix state, one stream bit per step.  (In the first pass
/// nothing is written meanwhile, so the pass cannot stop inside a prefix.)
proof fn lemma_prefix_steps(bits: Seq<u8>, target: int, colh: int, st: PassState, l: int)
    requires
        st.phase == PassPhase::Prefix,
        0 <= st.prefix_len < l <= 16,
        st.written < target,
        forall|k: int|
            0 <= k < l - 1 - st.prefix_len ==> #[trigger] stream_bit(bits, st.pos + k) == 1,
        stream_bit(bits, st.pos + (l - 1 - st.prefix_len)) == 0,
    ensures
        decode_pass(bits, true, target, colh, st) == decode_pass(
            bits,
            true,
            target,
            colh,
            PassState {
                pos: st.pos + (l - st.prefix_len),
                phase: PassPhase::Suffix,
                prefix_len: l,
                ..st
            },
        ),
    decreases l - st.prefix_len,
{
    assert(!pass_done(bits, true, target, st));
    if st.prefix_len == l - 1 {
        assert(stream_bit(bits, st.pos) == 0);
    } else {
        assert(stream_bit(bits, st.pos + 0) == 1);
        let st2 = PassState { pos: st.pos + 1, prefix_len: st.prefix_len + 1, ..st };
        assert forall|k: int| 0 <= k < l - 1 - st2.prefix_len implies #[trigger] stream_bit(
            bits,
            st2.pos + k,
        ) == 1 by {
            assert(stream_bit(bits, st.pos + (k + 1)) == 1);
        }
        assert(stream_bit(bits, st2.pos + (l - 1 - st2.prefix_len)) == stream_bit(
            bits,
            st.pos + (l - 1 - st.prefix_len),
        ));
        lemma_prefix_steps(bits, target, colh, st2, l);
    }
}

/// A whole run packet, decoded by the first pass from the run state: a
/// prefix of `l - 1` one bits and a closing zero (worth `P = 2^l - 2`)
/// followed by the `l`-bit suffix `Q` emits exactly `P + Q + 1` zero
/// symbols.  The buffer bytes stay as they were, the write cursor advances
/// by exactly that many slots, the written count grows by two bits per
/// symbol, and the pass is back in the literal state.
pub proof fn lemma_run_packet_decodes(bits: Seq<u8>, target: int, colh: int, st: PassState, l: int)
    requires
        st.phase == PassPhase::Prefix,
        st.prefix_len == 0,
        st.written < target,
        1 <= l <= 16,
        forall|k: int| 0 <= k < l - 1 ==> #[trigger] stream_bit(bits, st.pos + k) == 1,
        stream_bit(bits, st.pos + (l - 1)) == 0,
        steps_in_bounds(
            st.cur,
            colh,
            read_acc(bits, st.pos, l as nat) + read_acc(bits, st.pos + l, l as nat) + 1,
            1176,
        ),
    ensures
        ({
            let q = read_acc(bits, st.pos + l, l as nat);
            let run = (vstd::arithmetic::power2::pow2(l as nat) - 2) + q + 1;
            decode_pass(bits, true, target, colh, st) == decode_pass(
                bits,
                true,
                target,
                colh,
                PassState {
                    pos: st.pos + 2 * l,
                    buf: st.buf,
                    cur: cursor_steps(st.cur, colh, run as nat),
                    written: st.written + 2 * run,
                    phase: PassPhase::Literal,
                    prefix_len: 0,
                },
            )
        }),
{
    lemma_prefix_steps(bits, target, colh, st, l);
    lemma_prefix_ones_value(bits, st.pos, l as nat);
    let st_suffix = PassState {
        pos: st.pos + l,
        phase: PassPhase::Suffix,
        prefix_len: l,
        ..st
    };
    assert(!pass_done(bits, true, target, st_suffix));
    assert(read_acc(bits, st_suffix.pos - l, l as nat) == read_acc(bits, st.pos, l as nat));
}

/// Encode-then-decode identity of the run-length code at the decoder
/// itself: take any run length, encode it with the minimal prefix length
/// `l` — the one with `2^l - 2 <= run - 1 < 2^(l+1) - 2` — and the suffix
/// value `run - (2^l - 1)`; presented with that packet in the run state,
/// the first pass emits exactly `run` zero symbols and returns to the
/// literal state.
pub proof fn lemma_run_packet_round_trip(
    bits: Seq<u8>,
    target: int,
    colh: int,
    st: PassState,
    run: int,
    l: int,
)
    requires
        st.phase == PassPhase::Prefix,
        st.prefix_len == 0,
        st.written < target,
        run >= 1,
        vstd::arithmetic::power2::pow2(l as nat) - 2 <= run - 1,
        run - 1 < vstd::arithmetic::power2::pow2((l + 1) as nat) - 2,
        0 <= l <= 16,
        forall|k: int| 0 <= k < l - 1 ==> #[trigger] stream_bit(bits, st.pos + k) == 1,
        stream_bit(bits, st.pos + (l - 1)) == 0,
        read_acc(bits, st.pos + l, l as nat) == run - (vstd::arithmetic::power2::pow2(l as nat)
            - 1),
        steps_in_bounds(st.cur, colh, run as nat, 1176),
    ensures
        decode_pass(bits, true, target, colh, st) == decode_pass(
            bits,
            true,
            target,
            colh,
            PassState {
                pos: st.pos + 2 * l,
                buf: st.buf,
                cur: cursor_steps(st.cur, colh, run as nat),
                written: st.written + 2 * run,
                phase: PassPhase::Literal,
                prefix_len: 0,
            },
        ),
{
    lemma_run_code_round_trip(run, l as nat);
    lemma_prefix_ones_value(bits, st.pos, l as nat);
    assert(read_acc(bits, st.pos, l as nat) + read_acc(bits, st.pos + l, l as nat) + 1 == run);
    lemma_run_packet_decodes(bits, target, colh, st, l);
}

impl Buffer {
    /// Run one decode pass of the packet machine over the stream, writing
    /// 2-bit symbols through the write cursor into the region picked by
    /// `primary_buffer` (true: the second region, false: the third).  The
    /// first pass stops at the sprite's bit target, the second when the
    /// stream runs out.  The result is exactly what the abstract decoder
    /// `decode_pass` computes from the same starting state, including which
    /// error ends a malformed stream.
    pub fn decompress_to_bitplane(
        &mut self,
        bytes: &mut BitStream,
        initial_packet: u8,
        primary_buffer: bool,
        first_bitplane: bool,
    ) -> (res: Result<(), DecodeError>)
        requires
            old(self).wf(),
            old(bytes).wf(),
        ensures
            final(self).wf(),
            final(self).same_shape(*old(self)),
            final(bytes).wf(),
            final(bytes).bytes@ == old(bytes).bytes@,
            ({
                let st0 = PassState {
                    pos: old(bytes).pos(),
                    buf: old(self).bytes@,
                    cur: Cursor {
                        byte: if primary_buffer {
                            392
                        } else {
                            784
                        },
                        bit: 0,
                        row: 0,
                    },
                    written: 0,
                    phase: if initial_packet == 0 {
                        PassPhase::Prefix
                    } else {
                        PassPhase::Literal
                    },
                    prefix_len: 0,
                };
                let target = old(self).width * old(self).height * 64;
                match decode_pass(
                    old(bytes).bytes@,
                    first_bitplane,
                    target,
                    old(self).column_height(),
                    st0,
                ) {
                    Ok(end) => {
                        &&& res is Ok
                        &&& final(self).bytes@ == end.buf
                        &&& final(self).cursor() == end.cur
                        &&& cursor_ok(final(self).cursor(), final(self).column_height())
                        &&& final(self).byte_index <= 1176
                        &&& final(bytes).pos() == clamp_pos(old(bytes).bytes@.len(), end.pos)
                    },
                    Err(e) => res == Err::<(), DecodeError>(e),
                }
            }),
    {
        let ghost bits = old(bytes).bytes@;
        let ghost slen = bits.len();
        let ghost colh = old(self).column_height();
        let ghost target = old(self).width * old(self).height * 64;

        let mut rle_length: u16 = 0;
        let mut reading_first_rle = initial_packet == 0;
        let mut reading_second_rle = false;
        let mut first_rle_bits_read: u16 = 0;
        let mut bits_written: usize = 0;
        let ghost gw = old(self).width as int;
        let ghost gh = old(self).height as int;
        proof {
            let ew = old(self).width as usize;
            let eh = old(self).height as usize;
            assert((ew as int) * (eh as int) <= 49) by (nonlinear_arith)
                requires
                    ew <= 7 && eh <= 7,
            ;
        }
        let bytes_to_write: usize = (self.width as usize) * (self.height as usize) * 8;
        proof {
            assert(bytes_to_write * 8 == target) by (nonlinear_arith)
                requires
                    bytes_to_write == gw * gh * 8 && target == gw * gh * 64,
            ;
        }
        self.byte_index = if primary_buffer {
            392
        } else {
            784
        };
        self.bit_index = 0;
        self.row_index = 0;

        let ghost st0 = PassState {
            pos: old(bytes).pos(),
            buf: old(self).bytes@,
            cur: self.cursor(),
            written: 0,
            phase: if initial_packet == 0 {
                PassPhase::Prefix
            } else {
                PassPhase::Literal
            },
            prefix_len: 0,
        };
        let ghost mut gpos = old(bytes).pos();

        while (first_bitplane && bits_written < bytes_to_write * 8) || (!first_bitplane
            && bytes.bits_left() > 0)
            invariant
                self.wf(),
                self.same_shape(*old(self)),
                bytes.wf(),
                bytes.bytes@ == bits,
                bits == old(bytes).bytes@,
                slen == bits.len(),
                colh == self.column_height(),
                colh == old(self).column_height(),
                target == old(self).width * old(self).height * 64,
                bytes_to_write * 8 == target,
                bytes_to_write <= 392,
                cursor_ok(self.cursor(), colh),
                self.byte_index <= 1176,
                bytes.pos() == clamp_pos(slen, gpos),
                rle_length <= 16,
                (first_rle_bits_read as nat) == read_acc(bits, gpos - rle_length, rle_length as nat),
                !(reading_first_rle && reading_second_rle),
                (!reading_first_rle && !reading_second_rle) ==> (rle_length == 0
                    && first_rle_bits_read == 0),
                reading_second_rle ==> rle_length >= 1,
                bits_written == 2 * (cursor_rank(self.cursor(), colh) - cursor_rank(st0.cur, colh)),
                cursor_rank(st0.cur, colh) >= 0,
                st0 == (PassState {
                    pos: old(bytes).pos(),
                    buf: old(self).bytes@,
                    cur: Cursor {
                        byte: if primary_buffer {
                            392
                        } else {
                            784
                        },
                        bit: 0,
                        row: 0,
                    },
                    written: 0,
                    phase: if initial_packet == 0 {
                        PassPhase::Prefix
                    } else {
                        PassPhase::Literal
                    },
                    prefix_len: 0,
                }),
                ({
                    let cur_st = PassState {
                        pos: gpos,
                        buf: self.bytes@,
                        cur: self.cursor(),
                        written: bits_written as int,
                        phase: if reading_first_rle {
                            PassPhase::Prefix
                        } else if reading_second_rle {
                            PassPhase::Suffix
                        } else {
                            PassPhase::Literal
                        },
                        prefix_len: rle_length as int,
                    };
                    decode_pass(bits, first_bitplane, target, colh, cur_st) == decode_pass(
                        bits,
                        first_bitplane,
                        target,
                        colh,
                        st0,
                    )
                }),
            decreases pass_metric(
                bits,
                first_bitplane,
                target,
                PassState {
                    pos: gpos,
                    buf: st0.buf,
                    cur: st0.cur,
                    written: bits_written as int,
                    phase: PassPhase::Literal,
                    prefix_len: 0,
                },
            ), phase_rank(
                if reading_first_rle {
                    PassPhase::Prefix
                } else if reading_second_rle {
                    PassPhase::Suffix
                } else {
                    PassPhase::Literal
                },
            ), prefix_budget(rle_length as int),
        {
            let ghost pre_phase: PassPhase = if reading_first_rle {
                PassPhase::Prefix
            } else if reading_second_rle {
                PassPhase::Suffix
            } else {
                PassPhase::Literal
            };
            let ghost pre_st = PassState {
                pos: gpos,
                buf: self.bytes@,
                cur: self.cursor(),
                written: bits_written as int,
                phase: pre_phase,
                prefix_len: rle_length as int,
            };
            proof {
                assert(!pass_done(bits, first_bitplane, target, pre_st));
            }

            if reading_first_rle {
                if rle_length >= 16 {
                    proof {
                        assert(decode_pass(bits, first_bitplane, target, colh, pre_st) == Err::<
                            PassEnd,
                            DecodeError,
                        >(DecodeError::RunTooLong));
                    }
                    return Err(DecodeError::RunTooLong);
                }
                let current_bit = bytes.current_bit();
                proof {
                    lemma_stream_bit_clamp(bits, gpos);
                }
                rle_length += 1;
                proof {
                    vstd::arithmetic::power2::lemma2_to64();
                    lemma_read_acc_bound(bits, gpos - (rle_length - 1), (rle_length - 1) as nat);
                    if ((rle_length - 1) as nat) < 15 {
                        vstd::arithmetic::power2::lemma_pow2_strictly_increases(
                            (rle_length - 1) as nat,
                            15,
                        );
                    }
                    assert((first_rle_bits_read << 1u16) | (current_bit as u16) == 2
                        * first_rle_bits_read + current_bit) by (bit_vector)
                        requires
                            first_rle_bits_read < 32768 && current_bit <= 1,
                    ;
                }
                first_rle_bits_read = (first_rle_bits_read << 1) | (current_bit as u16);
                if current_bit == 0 {
                    reading_first_rle = false;
                    reading_second_rle = true;
                }
                bytes.next_bit();
                proof {
                    lemma_clamp_add(slen, gpos, 1);
                    gpos = gpos + 1;
                    assert((first_rle_bits_read as nat) == read_acc(
                        bits,
                        gpos - rle_length,
                        rle_length as nat,
                    ));
                    let nxt = PassState {
                        pos: gpos,
                        buf: self.bytes@,
                        cur: self.cursor(),
                        written: bits_written as int,
                        phase: if reading_second_rle {
                            PassPhase::Suffix
                        } else {
                            PassPhase::Prefix
                        },
                        prefix_len: rle_length as int,
                    };
                    assert(decode_pass(bits, first_bitplane, target, colh, pre_st) == decode_pass(
                        bits,
                        first_bitplane,
                        target,
                        colh,
                        nxt,
                    ));
                }
            } else if reading_second_rle {
                // read the `L`-bit run suffix
                let mut second_rle_bits_read: u16 = 0;
                let mut rle_bits_count: u16 = 0;
                let ghost qstart = gpos;
                while rle_bits_count < rle_length
                    invariant
                        bytes.wf(),
                        bytes.bytes@ == bits,
                        slen == bits.len(),
                        rle_bits_count <= rle_length,
                        rle_length <= 16,
                        bytes.pos() == clamp_pos(slen, qstart + rle_bits_count),
                        (second_rle_bits_read as nat) == read_acc(
                            bits,
                            qstart,
                            rle_bits_count as nat,
                        ),
                    decreases rle_length - rle_bits_count,
                {
                    let current_bit = bytes.current_bit();
                    proof {
                        lemma_stream_bit_clamp(bits, qstart + rle_bits_count);
                        vstd::arithmetic::power2::lemma2_to64();
                        lemma_read_acc_bound(bits, qstart, rle_bits_count as nat);
                        if (rle_bits_count as nat) < 15 {
                            vstd::arithmetic::power2::lemma_pow2_strictly_increases(
                                rle_bits_count as nat,
                                15,
                            );
                        }
                        assert((second_rle_bits_read << 1u16) | (current_bit as u16) == 2
                            * second_rle_bits_read + current_bit) by (bit_vector)
                            requires
                                second_rle_bits_read < 32768 && current_bit <= 1,
                        ;
                        lemma_clamp_add(slen, qstart + rle_bits_count, 1);
                    }
                    second_rle_bits_read = (second_rle_bits_read << 1) | (current_bit as u16);
                    rle_bits_count += 1;
                    bytes.next_bit();
                }
                proof {
                    gpos = qstart + rle_length;
                }
                let zero_pairs: usize = first_rle_bits_read as usize + second_rle_bits_read
                    as usize + 1;
                let ghost run = (read_acc(bits, pre_st.pos - pre_st.prefix_len,
                    pre_st.prefix_len as nat) + read_acc(bits, pre_st.pos, pre_st.prefix_len as nat)
                    + 1) as nat;
                proof {
                    assert(zero_pairs == run);
                }

                // emit the run, checking every write stays inside the buffer
                let ghost cur0 = self.cursor();
                let fit = self.try_write_zero_pairs(zero_pairs);
                if !fit {
                    proof {
                        assert(!steps_in_bounds(cur0, colh, run, 1176));
                        assert(decode_pass(bits, first_bitplane, target, colh, pre_st) == Err::<
                            PassEnd,
                            DecodeError,
                        >(DecodeError::BufferOverflow));
                    }
                    return Err(DecodeError::BufferOverflow);
                }
                proof {
                    lemma_cursor_steps_ok(cur0, colh, run);
                    // the rank stays small, so the written count cannot overflow
                    assert(cursor_rank(self.cursor(), colh) <= 4 * 1176 + 3 * 56);
                    assert(bits_written + zero_pairs * 2 <= 300000);
                }
                bits_written += zero_pairs * 2;
                rle_length = 0;
                first_rle_bits_read = 0;
                reading_first_rle = false;
                reading_second_rle = false;
                proof {
                    let nxt = PassState {
                        pos: gpos,
                        buf: self.bytes@,
                        cur: self.cursor(),
                        written: bits_written as int,
                        phase: PassPhase::Literal,
                        prefix_len: 0,
                    };
                    assert(decode_pass(bits, first_bitplane, target, colh, pre_st) == decode_pass(
                        bits,
                        first_bitplane,
                        target,
                        colh,
                        nxt,
                    ));
                }
            } else {
                let bits_pair = bytes.read_bits(2, false);
                proof {
                    lemma_read_acc_clamp(bits, gpos, 2);
                    lemma_clamp_add(slen, gpos, 2);
                    lemma_read_acc_bound(bits, gpos, 2);
                    vstd::arithmetic::power2::lemma2_to64();
                    gpos = gpos + 2;
                }
                if bits_pair == 0 {
                    rle_length = 0;
                    reading_first_rle = true;
                    reading_second_rle = false;
                    proof {
                        let nxt = PassState {
                            pos: gpos,
                            buf: self.bytes@,
                            cur: self.cursor(),
                            written: bits_written as int,
                            phase: PassPhase::Prefix,
                            prefix_len: 0,
                        };
                        assert(decode_pass(bits, first_bitplane, target, colh, pre_st)
                            == decode_pass(bits, first_bitplane, target, colh, nxt));
                    }
                } else {
                    if self.byte_index >= 1176 {
                        proof {
                            assert(decode_pass(bits, first_bitplane, target, colh, pre_st)
                                == Err::<PassEnd, DecodeError>(DecodeError::BufferOverflow));
                        }
                        return Err(DecodeError::BufferOverflow);
                    }
                    let ghost pre_buf = self.bytes@;
                    let ghost pre_cur = self.cursor();
                    self.write_pair(bits_pair);
                    proof {
                        lemma_cursor_step_ok(pre_cur, colh);
                        assert(bits_written <= 2 * (4 * 1176 + 3 * 56));
                    }
                    bits_written += 2;
                    proof {
                        let pair = read_acc(bits, pre_st.pos, 2);
                        assert((pair as u8) == bits_pair);
                        let nxt = PassState {
                            pos: gpos,
                            buf: self.bytes@,
                            cur: self.cursor(),
                            written: bits_written as int,
                            phase: PassPhase::Literal,
                            prefix_len: 0,
                        };
                        assert(nxt.buf == write_pair_spec(pre_st.buf, pre_st.cur.byte,
                            pre_st.cur.bit, pair as u8));
                        assert(decode_pass(bits, first_bitplane, target, colh, pre_st)
                            == decode_pass(bits, first_bitplane, target, colh, nxt));
                    }
                }
            }
        }
        proof {
            let cur_st = PassState {
                pos: gpos,
                buf: self.bytes@,
                cur: self.cursor(),
                written: bits_written as int,
                phase: if reading_first_rle {
                    PassPhase::Prefix
                } else if reading_second_rle {
                    PassPhase::Suffix
                } else {
                    PassPhase::Literal
                },
                prefix_len: rle_length as int,
            };
            assert(pass_done(bits, first_bitplane, target, cur_st));
            assert(decode_pass(bits, first_bitplane, target, colh, cur_st) == Ok::<
                PassEnd,
                DecodeError,
            >(PassEnd { pos: gpos, buf: self.bytes@, cur: self.cursor() }));
        }
        Ok(())
    }
}


/// Read the encoding-mode selector: a leading zero bit selects the first
/// mode and consumes one bit; a leading one consumes a second bit that picks
/// between the other two modes.
pub fn read_encoding_mode(bytes: &mut BitStream) -> (mode: EncodingMode)
    requires
        old(bytes).wf(),
    ensures
        final(bytes).wf(),
        final(bytes).bytes@ == old(bytes).bytes@,
        ({
            let bits = old(bytes).bytes@;
            let p = old(bytes).pos();
            if stream_bit(bits, p) == 0 {
                mode == EncodingMode::Mode1 && final(bytes).pos() == clamp_pos(bits.len(), p + 1)
            } else {
                &&& final(bytes).pos() == clamp_pos(bits.len(), p + 2)
                &&& mode == (if stream_bit(bits, p + 1) == 0 {
                    EncodingMode::Mode2
                } else {
                    EncodingMode::Mode3
                })
            }
        }),
{
    if bytes.current_bit() == 0 {
        bytes.next_bit();
        EncodingMode::Mode1
    } else {
        bytes.next_bit();
        proof {
            lemma_stream_bit_clamp(bytes.bytes@, old(bytes).pos() + 1);
            lemma_clamp_add(bytes.bytes@.len(), old(bytes).pos() + 1, 1);
        }
        let mode = if bytes.current_bit() == 0 {
            EncodingMode::Mode2
        } else {
            EncodingMode::Mode3
        };
        bytes.next_bit();
        mode
    }
}

/// Result of a successful decode: the sprite's tile dimensions and the full
/// buffer, whose back half holds the interleaved plane pair.
pub ghost struct SpriteSnap {
    pub width: int,
    pub height: int,
    pub buf: Seq<u8>,
}

/// The freshly allocated three-region store.
pub open spec fn zero_buffer() -> Seq<u8> {
    Seq::new(1176, |i: int| 0u8)
}

/// The whole decode pipeline over a raw byte sequence.
///
/// Header: width and height nibbles (each must be 1..=7), the primary-buffer
/// flag, and the first pass's initial packet kind.  The first pass fills one
/// plane (the second region when the flag is 1, else the third) up to the
/// sprite's bit target; then the encoding mode selector and the second
/// pass's packet kind are read and the second pass consumes the rest of the
/// stream into the other plane.  The mode decides the delta-decode and
/// XOR-merge steps; both planes are then centred into the canvas and
/// interleaved into the back half of the buffer.
pub open spec fn decode_sprite_spec(bits: Seq<u8>) -> Result<SpriteSnap, DecodeError> {
    if bits.len() == 0 {
        Err(DecodeError::EmptyInput)
    } else {
        let w = read_acc(bits, 0, 4) as int;
        let h = read_acc(bits, 4, 4) as int;
        if !(1 <= w <= 7 && 1 <= h <= 7) {
            Err(DecodeError::BadDimensions)
        } else {
            let primary = stream_bit(bits, 8);
            let init1 = stream_bit(bits, 9);
            let colh = 8 * h;
            let st1 = PassState {
                pos: clamp_pos(bits.len(), 10),
                buf: zero_buffer(),
                cur: Cursor {
                    byte: if primary == 1 {
                        392
                    } else {
                        784
                    },
                    bit: 0,
                    row: 0,
                },
                written: 0,
                phase: if init1 == 0 {
                    PassPhase::Prefix
                } else {
                    PassPhase::Literal
                },
                prefix_len: 0,
            };
            match decode_pass(bits, true, w * h * 64, colh, st1) {
                Err(e) => Err(e),
                Ok(end1) => {
                    let b0 = stream_bit(bits, end1.pos);
                    let mode_bits: int = if b0 == 0 {
                        1
                    } else {
                        2
                    };
                    let init2 = stream_bit(bits, end1.pos + mode_bits);
                    let st2 = PassState {
                        pos: clamp_pos(bits.len(), end1.pos + mode_bits + 1),
                        buf: end1.buf,
                        cur: Cursor {
                            byte: if primary == 1 {
                                784
                            } else {
                                392
                            },
                            bit: 0,
                            row: 0,
                        },
                        written: 0,
                        phase: if init2 == 0 {
                            PassPhase::Prefix
                        } else {
                            PassPhase::Literal
                        },
                        prefix_len: 0,
                    };
                    match decode_pass(bits, false, w * h * 64, colh, st2) {
                        Err(e) => Err(e),
                        Ok(end2) => {
                            let composed = if b0 == 0 {
                                delta_decode_spec(
                                    delta_decode_spec(end2.buf, 784, w, h),
                                    392,
                                    w,
                                    h,
                                )
                            } else if stream_bit(bits, end1.pos + 1) == 0 {
                                xor_merge_spec(delta_decode_spec(end2.buf, 784, w, h), 784, 392)
                            } else {
                                xor_merge_spec(
                                    delta_decode_spec(
                                        delta_decode_spec(end2.buf, 784, w, h),
                                        392,
                                        w,
                                        h,
                                    ),
                                    784,
                                    392,
                                )
                            };
                            let aligned = copy_spec(
                                copy_spec(composed, w, h, 392, 0),
                                w,
                                h,
                                784,
                                392,
                            );
                            Ok(SpriteSnap { width: w, height: h, buf: zip_spec(aligned) })
                        },
                    }
                },
            }
        }
    }
}

/// Decode a complete sprite from its raw bytes, exactly as
/// `decode_sprite_spec` describes, error for error.
pub fn decode_sprite(data: Vec<u8>) -> (res: Result<Buffer, DecodeError>)
    requires
        data@.len() * 8 <= usize::MAX,
    ensures
        ({
            match decode_sprite_spec(data@) {
                Ok(snap) => res matches Ok(b) && b.wf() && b.width == snap.width && b.height
                    == snap.height && b.bytes@ == snap.buf,
                Err(e) => res == Err::<Buffer, DecodeError>(e),
            }
        }),
{
    if data.len() == 0 {
        return Err(DecodeError::EmptyInput);
    }
    let ghost bits = data@;
    let ghost slen = bits.len();
    let mut stream = BitStream::new(data);
    let sprite_width = stream.read_bits(4, false);
    proof {
        lemma_read_acc_clamp(bits, 0, 4);
    }
    let sprite_height = stream.read_bits(4, false);
    proof {
        lemma_read_acc_clamp(bits, 4, 4);
        lemma_clamp_add(slen, 4, 4);
        vstd::arithmetic::power2::lemma2_to64();
        lemma_read_acc_bound(bits, 0, 4);
        lemma_read_acc_bound(bits, 4, 4);
    }
    if sprite_width < 1 || sprite_width > 7 || sprite_height < 1 || sprite_height > 7 {
        return Err(DecodeError::BadDimensions);
    }
    let ghost w = sprite_width as int;
    let ghost h = sprite_height as int;
    let mut buffer = Buffer {
        bit_index: 0,
        width: 0,
        height: 0,
        vertical_offset: 0,
        horizontal_offset: 0,
        byte_index: 0,
        bytes: Vec::new(),
        bitplane_length: 0,
        row_index: 0,
    };
    buffer.allocate_space(sprite_width, sprite_height);
    proof {
        assert(buffer.bytes@ =~= zero_buffer());
    }
    let primary_buffer = stream.read_bits(1, false);
    proof {
        reveal_with_fuel(read_acc, 2);
        lemma_read_acc_clamp(bits, 8, 1);
        lemma_clamp_add(slen, 8, 1);
        lemma_read_acc_bound(bits, 8, 1);
        assert(primary_buffer == stream_bit(bits, 8));
        assert(primary_buffer <= 1);
    }
    let initial_packet = stream.read_bits(1, false);
    proof {
        reveal_with_fuel(read_acc, 2);
        lemma_read_acc_clamp(bits, 9, 1);
        lemma_clamp_add(slen, 9, 1);
        assert(initial_packet == stream_bit(bits, 9));
        assert(stream.pos() == clamp_pos(slen, 10));
    }
    let ghost st1 = PassState {
        pos: clamp_pos(slen, 10),
        buf: zero_buffer(),
        cur: Cursor {
            byte: if primary_buffer == 1 {
                392
            } else {
                784
            },
            bit: 0,
            row: 0,
        },
        written: 0,
        phase: if initial_packet == 0 {
            PassPhase::Prefix
        } else {
            PassPhase::Literal
        },
        prefix_len: 0,
    };
    let r1 = buffer.decompress_to_bitplane(&mut stream, initial_packet, primary_buffer == 1, true);
    proof {
        assert(stream_bit(bits, 8) == 1 ==> st1.cur.byte == 392);
    }
    match r1 {
        Err(e) => {
            return Err(e);
        },
        Ok(()) => {},
    }
    let ghost end1 = decode_pass(bits, true, w * h * 64, 8 * h, st1)->Ok_0;
    proof {
        lemma_stream_bit_clamp(bits, end1.pos);
        lemma_clamp_add(slen, end1.pos, 1);
        lemma_clamp_add(slen, end1.pos, 2);
    }
    let mode = read_encoding_mode(&mut stream);
    let ghost b0 = stream_bit(bits, end1.pos);
    let ghost mode_bits: int = if b0 == 0 {
        1int
    } else {
        2int
    };
    proof {
        lemma_stream_bit_clamp(bits, end1.pos + 1);
        assert(stream.pos() == clamp_pos(slen, end1.pos + mode_bits));
        lemma_stream_bit_clamp(bits, end1.pos + mode_bits);
        lemma_read_acc_clamp(bits, end1.pos + mode_bits, 1);
        lemma_clamp_add(slen, end1.pos + mode_bits, 1);
    }
    let initial_packet2 = stream.read_bits(1, false);
    let ghost init2 = stream_bit(bits, end1.pos + mode_bits);
    proof {
        reveal_with_fuel(read_acc, 2);
        assert(initial_packet2 == init2);
        assert(stream.pos() == clamp_pos(slen, end1.pos + mode_bits + 1));
    }
    let ghost st2 = PassState {
        pos: clamp_pos(slen, end1.pos + mode_bits + 1),
        buf: end1.buf,
        cur: Cursor {
            byte: if primary_buffer == 1 {
                784
            } else {
                392
            },
            bit: 0,
            row: 0,
        },
        written: 0,
        phase: if init2 == 0 {
            PassPhase::Prefix
        } else {
            PassPhase::Literal
        },
        prefix_len: 0,
    };
    proof {
        assert((if primary_buffer == 0 {
            392int
        } else {
            784int
        }) == (if stream_bit(bits, 8) == 1 {
            784int
        } else {
            392int
        }));
    }
    let r2 = buffer.decompress_to_bitplane(&mut stream, initial_packet2, primary_buffer == 0, false);
    match r2 {
        Err(e) => {
            proof {
                assert(decode_sprite_spec(bits) == Err::<SpriteSnap, DecodeError>(e));
            }
            return Err(e);
        },
        Ok(()) => {},
    }
    let ghost end2 = decode_pass(bits, false, w * h * 64, 8 * h, st2)->Ok_0;
    match mode {
        EncodingMode::Mode1 => {
            buffer.delta_decode(2);
            buffer.delta_decode(1);
        },
        EncodingMode::Mode2 => {
            buffer.delta_decode(2);
            buffer.xor_buffers(2, 1);
        },
        EncodingMode::Mode3 => {
            buffer.delta_decode(2);
            buffer.delta_decode(1);
            buffer.xor_buffers(2, 1);
        },
    }
    proof {
        crate::buffer::lemma_copy_fits_low_regions(w, h, 0);
        crate::buffer::lemma_copy_fits_low_regions(w, h, 392);
    }
    buffer.copy_bitplane(1, 0);
    buffer.copy_bitplane(2, 1);
    buffer.zip_buffers();
    Ok(buffer)
}

} // verus!
