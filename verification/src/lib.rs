//! Decoder for a compressed two-bitplane sprite format: a bit-level stream
//! reader, a run-length/literal packet decoder, a column-addressed bitplane
//! buffer with delta-decoding and XOR-merge passes, and the composition stage
//! that aligns and interleaves the decoded planes into the final 56x56 canvas.

pub mod stream;
pub mod buffer;
pub mod codec;
