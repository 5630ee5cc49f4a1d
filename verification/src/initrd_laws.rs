//! What holds of an initrd in the lz4 format: it loads to the same bytes at the same address as the
//! initrd that was packed.

use crate::bytes::{le_bytes, lemma_le8, lemma_le_bytes_len, word};
use crate::guest_memory::{in_one_region, lemma_mapped_run_in_region, region_holds};
use crate::initrd::{
    chunk_error, decoded, fails, is_lz4, loaded, loaded_lz4, size_in_memory, Decoding, InitrdConfig,
    InitrdErrorView, Loading,
};
use crate::lz4_block::lz4_decoded;
use crate::lz4_pack::{
    are_initrd_blocks, chunk_count, compresses, initrd_chunk, initrd_frames, initrd_image, is_initrd_image,
    INITRD_LZ4_MAGIC,
};
use vstd::prelude::*;

verus! {

/// `block` is an lz4 block of `data`.
pub open spec fn is_block_of(block: Seq<u8>, data: Seq<u8>) -> bool {
    &&& block.len() <= usize::MAX
    &&& lz4_decoded(block, data.len() as int) == Ok::<Seq<u8>, Seq<char>>(data)
}

/// Whatever `compress` makes of `data` is an lz4 block of it.
pub open spec fn is_compressor_of<F: Fn(&[u8]) -> Vec<u8>>(compress: F, data: Seq<u8>) -> bool {
    forall|block: Seq<u8>| #[trigger] compresses(compress, data, block) ==> is_block_of(block, data)
}

pub(crate) proof fn lemma_frames_grow(initrd: Seq<u8>, blocks: Seq<Seq<u8>>, i: nat, j: nat)
    requires
        i <= j,
    ensures
        initrd_frames(initrd, blocks, i).len() <= initrd_frames(initrd, blocks, j).len(),
        initrd_frames(initrd, blocks, j).take(initrd_frames(initrd, blocks, i).len() as int)
            == initrd_frames(initrd, blocks, i),
    decreases j - i,
{
    let fi = initrd_frames(initrd, blocks, i);
    let fj = initrd_frames(initrd, blocks, j);
    if i < j {
        lemma_frames_grow(initrd, blocks, i, (j - 1) as nat);
        let f = initrd_frames(initrd, blocks, (j - 1) as nat);
        assert(fj.take(fi.len() as int) =~= f.take(fi.len() as int));
    } else {
        assert(fj.take(fi.len() as int) =~= fi);
    }
}

pub(crate) proof fn lemma_chunk(initrd: Seq<u8>, i: int)
    requires
        0 <= i < chunk_count(initrd.len()),
    ensures
        i * 0x40_0000 <= initrd.len(),
        0 < initrd_chunk(initrd, i).len() <= 0x40_0000,
        i + 1 < chunk_count(initrd.len()) ==> initrd_chunk(initrd, i).len() == 0x40_0000,
        i + 1 == chunk_count(initrd.len()) ==> i * 0x40_0000 + initrd_chunk(initrd, i).len()
            == initrd.len(),
        initrd.take(i * 0x40_0000) + initrd_chunk(initrd, i) == initrd.take(
            i * 0x40_0000 + initrd_chunk(initrd, i).len(),
        ),
{
    assert(initrd.take(i * 0x40_0000) + initrd_chunk(initrd, i) =~= initrd.take(
        i * 0x40_0000 + initrd_chunk(initrd, i).len(),
    ));
}

spec fn done_with(initrd: Seq<u8>, i: nat) -> Seq<u8> {
    if i < chunk_count(initrd.len()) {
        initrd.take((i as int) * 0x40_0000)
    } else {
        initrd
    }
}

proof fn lemma_decode_from(initrd: Seq<u8>, blocks: Seq<Seq<u8>>, i: nat)
    requires
        initrd.len() <= usize::MAX,
        blocks.len() == chunk_count(initrd.len()),
        forall|k: int|
            0 <= k < blocks.len() ==> is_block_of(#[trigger] blocks[k], initrd_chunk(initrd, k)),
        i <= blocks.len(),
    ensures
        ({
            let n = blocks.len();
            let rest = initrd_frames(initrd, blocks, n).skip(
                initrd_frames(initrd, blocks, i).len() as int,
            );
            decoded(rest, (n - i) as nat, initrd.len(), done_with(initrd, i)) == (Decoding {
                done: initrd,
                torn: 0,
                refusal: None,
            })
        }),
    decreases blocks.len() - i,
{
    let n = blocks.len();
    let all = initrd_frames(initrd, blocks, n);
    let fi = initrd_frames(initrd, blocks, i);
    let rest = all.skip(fi.len() as int);
    if i < n {
        let fn1 = initrd_frames(initrd, blocks, i + 1);
        let chunk = initrd_chunk(initrd, i as int);
        let block = blocks[i as int];
        lemma_decode_from(initrd, blocks, i + 1);
        lemma_frames_grow(initrd, blocks, i + 1, n);
        lemma_chunk(initrd, i as int);
        lemma_le8(chunk.len());
        lemma_le8(block.len());
        assert(is_block_of(block, chunk));
        assert(all.take(fn1.len() as int) == fn1);
        assert(fn1.len() == fi.len() + 16 + block.len());
        assert forall|k: int| 0 <= k < 16 + block.len() implies #[trigger] rest[k]
            == fn1[fi.len() + k] by {
            assert(all.take(fn1.len() as int)[fi.len() + k] == fn1[fi.len() + k]);
        }
        assert(rest.subrange(0, 8) =~= le_bytes(chunk.len(), 8));
        assert(rest.subrange(8, 16) =~= le_bytes(block.len(), 8));
        assert(rest.subrange(16, 16 + block.len() as int) =~= block);
        assert(word(rest, 0) == chunk.len());
        assert(word(rest, 8) == block.len());
        assert(rest.skip(16 + block.len() as int) =~= all.skip(fn1.len() as int));
        assert(done_with(initrd, i) + chunk == done_with(initrd, i + 1)) by {
            if i + 1 == n {
                assert(initrd.take(initrd.len() as int) =~= initrd);
            }
        }
    }
}

/// Unpacking undoes packing: the lz4 format of an initrd declares its size and decodes to it, if
/// each block is an lz4 block of its chunk.
pub proof fn law_packed_initrd_decodes(initrd: Seq<u8>, blocks: Seq<Seq<u8>>)
    requires
        initrd.len() <= usize::MAX,
        blocks.len() == chunk_count(initrd.len()),
        forall|k: int|
            0 <= k < blocks.len() ==> is_block_of(#[trigger] blocks[k], initrd_chunk(initrd, k)),
    ensures
        is_lz4(initrd_image(initrd, blocks)),
        size_in_memory(initrd_image(initrd, blocks)) == Ok::<usize, InitrdErrorView>(
            initrd.len() as usize,
        ),
        word(initrd_image(initrd, blocks), 16) == blocks.len(),
        decoded(
            initrd_image(initrd, blocks).skip(24),
            blocks.len(),
            initrd.len(),
            Seq::empty(),
        ) == (Decoding { done: initrd, torn: 0, refusal: None }),
{
    let image = initrd_image(initrd, blocks);
    let n = blocks.len();
    lemma_le8(initrd.len());
    lemma_le8(n);
    assert(image.take(8) =~= INITRD_LZ4_MAGIC@);
    assert(image.subrange(8, 16) =~= le_bytes(initrd.len(), 8));
    assert(image.subrange(16, 24) =~= le_bytes(n, 8));
    lemma_decode_from(initrd, blocks, 0);
    let all = initrd_frames(initrd, blocks, n);
    assert(image.skip(24) =~= all);
    assert(all.skip(0) =~= all);
    assert(done_with(initrd, 0) =~= Seq::empty());
}

/// An initrd in the lz4 format takes as much guest memory as the initrd that was packed, so it goes
/// to the same address, and loading it there leaves exactly the bytes that were packed, just as
/// loading the unpacked initrd does. Where there is no address for the one there is none for the
/// other.
pub proof fn law_packed_initrd_loads_alike<F: Fn(&[u8]) -> Vec<u8>>(
    compress: F,
    initrd: Seq<u8>,
    image: Seq<u8>,
    regions: Map<int, Seq<u8>>,
    address: u64,
)
    requires
        initrd.len() <= usize::MAX,
        is_initrd_image(compress, initrd, image),
        forall|k: int|
            0 <= k < chunk_count(initrd.len()) ==> #[trigger] is_compressor_of(
                compress,
                initrd_chunk(initrd, k),
            ),
        in_one_region(regions, address as int, initrd.len() as int),
    ensures
        size_in_memory(image) == Ok::<usize, InitrdErrorView>(initrd.len() as usize),
        loaded(regions, image, Some(address)) == (Loading {
            result: Ok((InitrdConfig { address, size: initrd.len() as usize })),
            at: address as int,
            bytes: initrd,
            torn: 0,
            recorded: initrd.len(),
        }),
        !is_lz4(initrd) ==> {
            &&& size_in_memory(initrd) == size_in_memory(image)
            &&& loaded(regions, initrd, Some(address)) == loaded(regions, image, Some(address))
            &&& loaded(regions, initrd, None) == loaded(regions, image, None)
        },
{
    let blocks = choose|blocks: Seq<Seq<u8>>| #[trigger]
        are_initrd_blocks(compress, initrd, blocks) && image == initrd_image(initrd, blocks);
    assert forall|k: int| 0 <= k < blocks.len() implies is_block_of(
        #[trigger] blocks[k],
        initrd_chunk(initrd, k),
    ) by {
        assert(is_compressor_of(compress, initrd_chunk(initrd, k)));
    }
    law_packed_initrd_decodes(initrd, blocks);
    let start = choose|start: int|
        #[trigger] region_holds(regions, start, address as int) && address + initrd.len() <= start
            + regions[start].len();
    lemma_mapped_run_in_region(regions, start, address as int, initrd.len());
    assert(initrd.take(initrd.len() as int) =~= initrd);
}

/// `compress` makes one block of `data`, whenever it is called.
pub open spec fn is_deterministic_on<F: Fn(&[u8]) -> Vec<u8>>(compress: F, data: Seq<u8>) -> bool {
    forall|a: Seq<u8>, b: Seq<u8>| #[trigger]
        compresses(compress, data, a) && #[trigger] compresses(compress, data, b) ==> a == b
}

/// Packing an initrd with a deterministic compressor gives the same bytes every time.
pub proof fn law_packed_initrd_is_determined<F: Fn(&[u8]) -> Vec<u8>>(
    compress: F,
    initrd: Seq<u8>,
    a: Seq<u8>,
    b: Seq<u8>,
)
    requires
        is_initrd_image(compress, initrd, a),
        is_initrd_image(compress, initrd, b),
        forall|k: int|
            0 <= k < chunk_count(initrd.len()) ==> #[trigger] is_deterministic_on(
                compress,
                initrd_chunk(initrd, k),
            ),
    ensures
        a == b,
{
    let x = choose|blocks: Seq<Seq<u8>>| #[trigger]
        are_initrd_blocks(compress, initrd, blocks) && a == initrd_image(initrd, blocks);
    let y = choose|blocks: Seq<Seq<u8>>| #[trigger]
        are_initrd_blocks(compress, initrd, blocks) && b == initrd_image(initrd, blocks);
    assert forall|i: int| 0 <= i < x.len() implies x[i] == y[i] by {
        assert(is_deterministic_on(compress, initrd_chunk(initrd, i)));
        assert(compresses(compress, initrd_chunk(initrd, i), x[i]));
        assert(compresses(compress, initrd_chunk(initrd, i), y[i]));
    }
    assert(x =~= y);
}

proof fn lemma_trailing_bytes(rest: Seq<u8>, t: Seq<u8>, n: nat, size: nat, done: Seq<u8>)
    requires
        decoded(rest, n, size, done).refusal is None,
    ensures
        decoded(rest + t, n, size, done) == decoded(rest, n, size, done),
    decreases n,
{
    if n > 0 {
        let longer = rest + t;
        assert(chunk_error(rest, done.len(), size) is None);
        assert(longer.subrange(0, 8) =~= rest.subrange(0, 8));
        assert(longer.subrange(8, 16) =~= rest.subrange(8, 16));
        let end = 16 + word(rest, 8);
        assert(longer.subrange(16, end) =~= rest.subrange(16, end));
        assert(longer.skip(end) =~= rest.skip(end) + t);
        if let Ok(out) = lz4_decoded(rest.subrange(16, end), word(rest, 0) as int) {
            lemma_trailing_bytes(rest.skip(end), t, (n - 1) as nat, size, done + out);
        }
    }
}

/// Bytes behind the last chunk are ignored: what loads from an initrd in the lz4 format loads alike,
/// to the same address and with the same bytes, whatever follows it.
pub proof fn law_trailing_bytes_are_ignored(
    regions: Map<int, Seq<u8>>,
    data: Seq<u8>,
    t: Seq<u8>,
    address: Option<u64>,
)
    requires
        is_lz4(data),
        loaded(regions, data, address).result is Ok,
    ensures
        size_in_memory(data + t) == size_in_memory(data),
        loaded(regions, data + t, address) == loaded(regions, data, address),
{
    let longer = data + t;
    assert(longer.take(8) =~= data.take(8));
    assert(longer.subrange(8, 16) =~= data.subrange(8, 16));
    assert(longer.subrange(16, 24) =~= data.subrange(16, 24));
    assert(longer.skip(24) =~= data.skip(24) + t);
    lemma_trailing_bytes(
        data.skip(24),
        t,
        word(data, 16) as nat,
        word(data, 8) as nat,
        Seq::empty(),
    );
}

/// Data that starts with the magic prefix is decompressed and never loaded as it is: what loading it
/// comes to is what decompressing it comes to, errors included.
pub proof fn law_magic_is_decompressed(
    regions: Map<int, Seq<u8>>,
    data: Seq<u8>,
    address: Option<u64>,
)
    requires
        is_lz4(data),
    ensures
        data.len() < 24 ==> loaded(regions, data, address) == fails(
            InitrdErrorView::Lz4("truncated image"@),
        ),
        data.len() >= 24 ==> loaded(regions, data, address) == (match address {
            None => fails(InitrdErrorView::Address),
            Some(a) => loaded_lz4(regions, data, word(data, 8), a),
        }),
{
}

proof fn lemma_joined_chunk(a: Seq<u8>, b: Seq<u8>, i: int)
    requires
        a.len() % 0x40_0000 == 0,
        0 <= i < chunk_count((a + b).len()),
    ensures
        chunk_count((a + b).len()) == chunk_count(a.len()) + chunk_count(b.len()),
        initrd_chunk(a + b, i) == (if i < chunk_count(a.len()) {
            initrd_chunk(a, i)
        } else {
            initrd_chunk(b, i - chunk_count(a.len()))
        }),
{
    let n = chunk_count(a.len()) as int;
    assert(n * 0x40_0000 == a.len());
    if i < n {
        assert(initrd_chunk(a + b, i) =~= initrd_chunk(a, i));
    } else {
        assert(initrd_chunk(a + b, i) =~= initrd_chunk(b, i - n));
    }
}

proof fn lemma_joined_frames(a: Seq<u8>, b: Seq<u8>, x: Seq<Seq<u8>>, y: Seq<Seq<u8>>, i: nat)
    requires
        a.len() % 0x40_0000 == 0,
        x.len() == chunk_count(a.len()),
        y.len() == chunk_count(b.len()),
        i <= chunk_count((a + b).len()),
    ensures
        initrd_frames(a + b, x + y, i) == (if i <= x.len() {
            initrd_frames(a, x, i)
        } else {
            initrd_frames(a, x, x.len()) + initrd_frames(b, y, (i - x.len()) as nat)
        }),
    decreases i,
{
    if i > 0 {
        lemma_joined_frames(a, b, x, y, (i - 1) as nat);
        lemma_joined_chunk(a, b, i - 1);
        if i > x.len() {
            let j = (i - x.len()) as nat;
            assert((x + y)[i - 1] == y[j - 1]);
            if j == 1 {
                assert(initrd_frames(b, y, 0) =~= Seq::empty());
            }
            assert(initrd_frames(a + b, x + y, i) =~= initrd_frames(a, x, x.len()) + initrd_frames(
                b,
                y,
                j,
            ));
        } else {
            assert((x + y)[i - 1] == x[i - 1]);
        }
    }
}

/// Chunks are packed independently of each other: behind the header, an initrd is packed to what its
/// parts are packed to, one after the other, if the first part consists of whole chunks and the
/// compressor is deterministic.
pub proof fn law_chunks_are_independent<F: Fn(&[u8]) -> Vec<u8>>(
    compress: F,
    a: Seq<u8>,
    b: Seq<u8>,
    image_a: Seq<u8>,
    image_b: Seq<u8>,
    image: Seq<u8>,
)
    requires
        a.len() % 0x40_0000 == 0,
        is_initrd_image(compress, a, image_a),
        is_initrd_image(compress, b, image_b),
        is_initrd_image(compress, a + b, image),
        forall|k: int|
            0 <= k < chunk_count((a + b).len()) ==> #[trigger] is_deterministic_on(
                compress,
                initrd_chunk(a + b, k),
            ),
    ensures
        image.skip(24) == image_a.skip(24) + image_b.skip(24),
{
    let x = choose|blocks: Seq<Seq<u8>>| #[trigger]
        are_initrd_blocks(compress, a, blocks) && image_a == initrd_image(a, blocks);
    let y = choose|blocks: Seq<Seq<u8>>| #[trigger]
        are_initrd_blocks(compress, b, blocks) && image_b == initrd_image(b, blocks);
    let n = chunk_count((a + b).len());
    if n > 0 {
        lemma_joined_chunk(a, b, 0);
    }
    assert forall|i: int| 0 <= i < (x + y).len() implies compresses(
        compress,
        initrd_chunk(a + b, i),
        #[trigger] (x + y)[i],
    ) by {
        lemma_joined_chunk(a, b, i);
        if i < x.len() {
            assert(compresses(compress, initrd_chunk(a, i), x[i]));
        } else {
            assert(compresses(compress, initrd_chunk(b, i - x.len()), y[i - x.len()]));
        }
    }
    assert(are_initrd_blocks(compress, a + b, x + y));
    law_packed_initrd_is_determined(compress, a + b, image, initrd_image(a + b, x + y));
    lemma_joined_frames(a, b, x, y, n);
    lemma_frames_behind_header(a, x);
    lemma_frames_behind_header(b, y);
    lemma_frames_behind_header(a + b, x + y);
    assert(initrd_frames(b, y, 0) =~= Seq::empty());
    assert(initrd_frames(a, x, x.len()) + initrd_frames(b, y, 0) =~= initrd_frames(a, x, x.len()));
}

proof fn lemma_frames_behind_header(initrd: Seq<u8>, blocks: Seq<Seq<u8>>)
    ensures
        initrd_image(initrd, blocks).skip(24) == initrd_frames(
            initrd,
            blocks,
            chunk_count(initrd.len()),
        ),
{
    lemma_le_bytes_len(initrd.len(), 8);
    lemma_le_bytes_len(chunk_count(initrd.len()), 8);
    assert(initrd_image(initrd, blocks).skip(24) =~= initrd_frames(
        initrd,
        blocks,
        chunk_count(initrd.len()),
    ));
}

} // verus!
