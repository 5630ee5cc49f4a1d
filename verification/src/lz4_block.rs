//! The lz4 block decoder of the `lz4` crate.

use vstd::prelude::*;

verus! {

/// What `lz4::block::decompress_to_buffer` makes of the block `src` when it is told that the data
/// is `size` bytes long and is handed a buffer of that size: the bytes that it says it has written, or
/// the text of its error.
pub uninterp spec fn lz4_decoded(src: Seq<u8>, size: int) -> Result<Seq<u8>, Seq<char>>;

/// `lz4::block::decompress_to_buffer`, told that the data is `size` bytes long and handed a buffer of
/// that size: it succeeds or fails by the block and the size alone, and where it succeeds it returns
/// the number of bytes, at most `size`, that it has put at the start of the buffer, whatever the
/// buffer held. It hands the length of the block to the C library cut to 32 bits: of a block longer
/// than a signed one holds, the library decodes the first bytes or none. What it leaves in the rest of the buffer, and in all of it where it fails, is
/// not said: that depends on the machine.
#[verifier::external_body]
pub(crate) fn lz4_decompress(src: &[u8], size: i32, buf: &mut Vec<u8>) -> (res: Result<
    usize,
    String,
>)
    requires
        0 <= size,
        old(buf)@.len() == size,
    ensures
        final(buf)@.len() == size,
        match res {
            Ok(n) => {
                &&& n <= size
                &&& lz4_decoded(src@, size as int) == Ok::<Seq<u8>, Seq<char>>(
                    final(buf)@.take(n as int),
                )
            },
            Err(e) => lz4_decoded(src@, size as int) == Err::<Seq<u8>, Seq<char>>(e@),
        },
{
    lz4::block::decompress_to_buffer(src, Some(size), buf).map_err(|e| e.to_string())
}

} // verus!
