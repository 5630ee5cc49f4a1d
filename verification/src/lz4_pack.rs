//! The lz4 slot formats for a vmlinux and for an initrd. Both take the block compressor from the
//! caller, and compress the parts separately, so that each can be decompressed straight into guest
//! memory. All integers are little-endian and 64 bits wide.

use crate::bytes::{le_bytes, lemma_le_bytes_len, overwrite, push_u64, u16_at, u32_at, u64_at, zeros};
use crate::elf::{
    e_phnum, e_phoff, elf_error, is_elf, is_load, is_other, lemma_phdr_ok, p_data, p_filesz,
    p_offset, p_paddr, p_type, phdr, to_usize, EHDR_SIZE, PHDR_SIZE, PT_LOAD,
};
use crate::pack_laws::{law_packed_is_elf, lemma_packed_header};
use crate::vmlinux_pack::{
    aligned, pack_vmlinux, packed, padding, place, table_end, with_offset,
};
use vstd::prelude::*;
use vstd::slice::slice_subrange;

verus! {

/// Magic prefix of the lz4 vmlinux format: `JOOSLZ4` and a version byte.
pub const LZ4_MAGIC: [u8; 8] = [0x4a, 0x4f, 0x4f, 0x53, 0x4c, 0x5a, 0x34, 0x01];

/// The level of lz4's high-compression mode that slot contents are compressed with.
pub const LZ4_LEVEL: i32 = 9;

/// Magic prefix of the chunked lz4 initrd format: `JOOSLZI` and a version byte.
pub const INITRD_LZ4_MAGIC: [u8; 8] = [0x4a, 0x4f, 0x4f, 0x53, 0x4c, 0x5a, 0x49, 0x01];

/// Uncompressed size of each independently compressed initrd chunk: 4 MiB.
pub const INITRD_LZ4_CHUNK: usize = 0x40_0000;

/// `compress` can make `block` of `data`.
pub open spec fn compresses<F: Fn(&[u8]) -> Vec<u8>>(
    compress: F,
    data: Seq<u8>,
    block: Seq<u8>,
) -> bool {
    exists|d: &[u8], v: Vec<u8>|
        d@ == data && v@ == block && #[trigger] call_ensures(compress, (d,), v)
}

/// The number of chunks of an initrd of `len` bytes.
pub open spec fn chunk_count(len: nat) -> nat {
    (len + 0x40_0000 - 1) as nat / 0x40_0000
}

/// Chunk `i` of `initrd`.
pub open spec fn initrd_chunk(initrd: Seq<u8>, i: int) -> Seq<u8> {
    initrd.subrange(
        i * 0x40_0000,
        if (i + 1) * 0x40_0000 <= initrd.len() {
            (i + 1) * 0x40_0000
        } else {
            initrd.len() as int
        },
    )
}

/// The first `i` chunks of the lz4 format: each one's length, the length of its block, the block.
pub open spec fn initrd_frames(initrd: Seq<u8>, blocks: Seq<Seq<u8>>, i: nat) -> Seq<u8>
    decreases i,
{
    if i == 0 {
        Seq::empty()
    } else {
        initrd_frames(initrd, blocks, (i - 1) as nat) + le_bytes(
            initrd_chunk(initrd, i - 1).len(),
            8,
        ) + le_bytes(blocks[i - 1].len(), 8) + blocks[i - 1]
    }
}

/// The lz4 format of `initrd`, whose chunks are compressed to `blocks`.
pub open spec fn initrd_image(initrd: Seq<u8>, blocks: Seq<Seq<u8>>) -> Seq<u8> {
    INITRD_LZ4_MAGIC@ + le_bytes(initrd.len(), 8) + le_bytes(chunk_count(initrd.len()), 8)
        + initrd_frames(initrd, blocks, chunk_count(initrd.len()))
}

/// `compress` can make `blocks` of the chunks of `initrd`, one of each.
pub open spec fn are_initrd_blocks<F: Fn(&[u8]) -> Vec<u8>>(
    compress: F,
    initrd: Seq<u8>,
    blocks: Seq<Seq<u8>>,
) -> bool {
    &&& blocks.len() == chunk_count(initrd.len())
    &&& forall|i: int|
        0 <= i < blocks.len() ==> compresses(
            compress,
            initrd_chunk(initrd, i),
            #[trigger] blocks[i],
        )
}

/// `image` is the lz4 format of `initrd`, with each chunk compressed by `compress`.
pub open spec fn is_initrd_image<F: Fn(&[u8]) -> Vec<u8>>(
    compress: F,
    initrd: Seq<u8>,
    image: Seq<u8>,
) -> bool {
    exists|blocks: Seq<Seq<u8>>| #[trigger]
        are_initrd_blocks(compress, initrd, blocks) && image == initrd_image(initrd, blocks)
}

/// lz4-compresses an initrd (any blob, really) so that it can be decompressed straight into guest
/// memory at its load address. `compress` is an lz4 block compressor.
pub fn pack_initrd_lz4<F: Fn(&[u8]) -> Vec<u8>>(initrd: &[u8], compress: &F) -> (out: Vec<u8>)
    requires
        forall|d: &[u8]| #[trigger] call_requires(*compress, (d,)),
    ensures
        is_initrd_image(*compress, initrd@, out@),
{
    let len = initrd.len();
    let nchunk: usize = if len % INITRD_LZ4_CHUNK == 0 {
        len / INITRD_LZ4_CHUNK
    } else {
        len / INITRD_LZ4_CHUNK + 1
    };
    let mut out: Vec<u8> = vstd::slice::slice_to_vec(INITRD_LZ4_MAGIC.as_slice());
    push_u64(&mut out, len as u64);
    push_u64(&mut out, nchunk as u64);
    let ghost head = out@;
    let ghost mut blocks: Seq<Seq<u8>> = Seq::empty();
    let mut i: usize = 0;
    assert(out@ =~= head + initrd_frames(initrd@, blocks, 0));
    while i < nchunk
        invariant
            i <= nchunk,
            len == initrd@.len(),
            nchunk == chunk_count(initrd@.len()),
            forall|d: &[u8]| #[trigger] call_requires(*compress, (d,)),
            blocks.len() == i,
            forall|k: int|
                0 <= k < blocks.len() ==> compresses(
                    *compress,
                    initrd_chunk(initrd@, k),
                    #[trigger] blocks[k],
                ),
            out@ == head + initrd_frames(initrd@, blocks, i as nat),
        decreases nchunk - i,
    {
        let start = i * INITRD_LZ4_CHUNK;
        let end = if len - start >= INITRD_LZ4_CHUNK {
            start + INITRD_LZ4_CHUNK
        } else {
            len
        };
        let chunk = slice_subrange(initrd, start, end);
        assert(chunk@ == initrd_chunk(initrd@, i as int));
        let compressed = compress(chunk);
        let ghost old_blocks = blocks;
        push_u64(&mut out, chunk.len() as u64);
        push_u64(&mut out, compressed.len() as u64);
        out.extend_from_slice(compressed.as_slice());
        proof {
            blocks = blocks.push(compressed@);
            assert(call_ensures(*compress, (chunk,), compressed));
            lemma_frames_extend(initrd@, old_blocks, blocks, i as nat);
            assert(out@ =~= head + initrd_frames(initrd@, blocks, (i + 1) as nat));
        }
        i = i + 1;
    }
    assert(are_initrd_blocks(*compress, initrd@, blocks));
    assert(out@ =~= initrd_image(initrd@, blocks));
    out
}

proof fn lemma_frames_extend(initrd: Seq<u8>, a: Seq<Seq<u8>>, b: Seq<Seq<u8>>, i: nat)
    requires
        i <= a.len() <= b.len(),
        forall|k: int| 0 <= k < i ==> a[k] == b[k],
    ensures
        initrd_frames(initrd, a, i) == initrd_frames(initrd, b, i),
    decreases i,
{
    if i > 0 {
        lemma_frames_extend(initrd, a, b, (i - 1) as nat);
    }
}

/// What follows the program headers in the stub once the segments other than `PT_LOAD` among the
/// first `i` are placed, each at the next aligned offset.
pub open spec fn stub_data(p: Seq<u8>, i: nat) -> Seq<u8>
    decreases i,
{
    if i == 0 {
        Seq::empty()
    } else {
        let before = stub_data(p, (i - 1) as nat);
        if is_other(p, i - 1) {
            before + padding(table_end(p) + before.len()) + p_data(p, i - 1)
        } else {
            before
        }
    }
}

/// Program header `i` of the stub. A `PT_LOAD` has its offset and its file size zeroed, so that a
/// loader skips it; another segment with file contents has them behind the program headers.
pub open spec fn stub_phdr(p: Seq<u8>, i: int) -> Seq<u8> {
    let ph = phdr(p, i);
    if p_type(p, i) == 1 {
        without_contents(ph)
    } else if p_filesz(p, i) > 0 {
        with_offset(ph, aligned(table_end(p) + stub_data(p, i as nat).len()))
    } else {
        ph
    }
}

/// The first `i` program headers of the stub.
pub open spec fn stub_phdrs(p: Seq<u8>, i: nat) -> Seq<u8>
    decreases i,
{
    if i == 0 {
        Seq::empty()
    } else {
        stub_phdrs(p, (i - 1) as nat) + stub_phdr(p, i - 1)
    }
}

/// The stub of the packed file `p`: all of it but the contents of its `PT_LOAD` segments.
pub open spec fn stub(p: Seq<u8>) -> Seq<u8> {
    p.subrange(0, 64) + stub_phdrs(p, e_phnum(p)) + stub_data(p, e_phnum(p))
}

/// Which of the first `i` program headers are `PT_LOAD`s with file contents, in order.
pub open spec fn load_indices(p: Seq<u8>, i: nat) -> Seq<int>
    decreases i,
{
    if i == 0 {
        Seq::empty()
    } else if is_load(p, i - 1) {
        load_indices(p, (i - 1) as nat).push(i - 1)
    } else {
        load_indices(p, (i - 1) as nat)
    }
}

/// The `PT_LOAD` segments of `p`, in program header order.
pub open spec fn loads(p: Seq<u8>) -> Seq<int> {
    load_indices(p, e_phnum(p))
}

/// The first `k` segments of the lz4 format: each one's address in guest memory, its size, the
/// length of its block, the block.
pub open spec fn kernel_frames(p: Seq<u8>, blocks: Seq<Seq<u8>>, k: nat) -> Seq<u8>
    decreases k,
{
    if k == 0 {
        Seq::empty()
    } else {
        let i = loads(p)[k - 1];
        kernel_frames(p, blocks, (k - 1) as nat) + le_bytes(p_paddr(p, i), 8) + le_bytes(
            p_filesz(p, i),
            8,
        ) + le_bytes(blocks[k - 1].len(), 8) + blocks[k - 1]
    }
}

/// The lz4 format of the packed file `p`, whose `PT_LOAD` segments are compressed to `blocks`.
pub open spec fn kernel_image(p: Seq<u8>, blocks: Seq<Seq<u8>>) -> Seq<u8> {
    LZ4_MAGIC@ + le_bytes(stub(p).len(), 8) + stub(p) + le_bytes(loads(p).len(), 8)
        + kernel_frames(p, blocks, loads(p).len())
}

pub(crate) proof fn lemma_stub_phdr_len(p: Seq<u8>, i: int)
    requires
        is_elf(p),
        0 <= i < e_phnum(p),
    ensures
        stub_phdr(p, i).len() == 56,
{
    lemma_le_bytes_len(aligned(table_end(p) + stub_data(p, i as nat).len()), 8);
}

pub(crate) proof fn lemma_stub_phdrs_len(p: Seq<u8>, i: nat)
    requires
        is_elf(p),
        i <= e_phnum(p),
    ensures
        stub_phdrs(p, i).len() == 56 * i,
    decreases i,
{
    if i > 0 {
        lemma_stub_phdrs_len(p, (i - 1) as nat);
        lemma_stub_phdr_len(p, i - 1);
    }
}

pub(crate) proof fn lemma_load_indices(p: Seq<u8>, i: nat)
    ensures
        load_indices(p, i).len() <= i,
        forall|k: int|
            0 <= k < load_indices(p, i).len() ==> {
                &&& 0 <= #[trigger] load_indices(p, i)[k] < i
                &&& is_load(p, load_indices(p, i)[k])
            },
    decreases i,
{
    if i > 0 {
        lemma_load_indices(p, (i - 1) as nat);
    }
}

/// What the lz4 format needs of a `PT_LOAD` segment.
struct LoadSegment {
    paddr: u64,
    offset: usize,
    filesz: usize,
}

spec fn is_load_segment(seg: LoadSegment, p: Seq<u8>, i: int) -> bool {
    &&& seg.paddr == p_paddr(p, i)
    &&& seg.offset == p_offset(p, i)
    &&& seg.filesz == p_filesz(p, i)
    &&& seg.offset + seg.filesz <= p.len()
}

/// Program header `ph` with its offset and its file size zeroed.
pub open spec fn without_contents(ph: Seq<u8>) -> Seq<u8> {
    ph.subrange(0, 8) + zeros(8) + ph.subrange(16, 32) + zeros(8) + ph.subrange(40, 56)
}

fn drop_contents(out: &mut Vec<u8>, at: usize)
    requires
        at + 56 <= old(out)@.len(),
    ensures
        final(out)@ == old(out)@.take(at as int) + without_contents(
            old(out)@.subrange(at as int, at + 56),
        ) + old(out)@.skip(at + 56),
{
    let ghost before = out@;
    assert(out@.len() == out.len());
    let z: [u8; 8] = [0, 0, 0, 0, 0, 0, 0, 0];
    overwrite(out, at + 8, z.as_slice());
    overwrite(out, at + 32, z.as_slice());
    assert(z@ =~= zeros(8));
    assert(out@ =~= before.take(at as int) + without_contents(
        before.subrange(at as int, at + 56),
    ) + before.skip(at + 56));
}

fn move_contents(out: &mut Vec<u8>, at: usize, data: &[u8])
    requires
        at + 56 <= old(out)@.len(),
    ensures
        final(out)@ == old(out)@.take(at as int) + with_offset(
            old(out)@.subrange(at as int, at + 56),
            aligned(old(out)@.len()),
        ) + old(out)@.skip(at + 56) + padding(old(out)@.len()) + data@,
{
    let ghost before = out@;
    let offset = place(out, data);
    assert(out@.len() == out.len());
    let mut bytes: Vec<u8> = Vec::new();
    push_u64(&mut bytes, offset as u64);
    proof {
        lemma_le_bytes_len(offset as nat, 8);
        assert(bytes@ =~= le_bytes(offset as nat, 8));
    }
    overwrite(out, at + 8, bytes.as_slice());
    assert(out@ =~= before.take(at as int) + with_offset(
        before.subrange(at as int, at + 56),
        aligned(before.len()),
    ) + before.skip(at + 56) + padding(before.len()) + data@);
}

/// Where program header `i` stands in a packed file.
spec fn entry(i: nat) -> int {
    64 + 56 * (i as int)
}

/// The stub with its first `i` segments done: behind their headers stand the other headers of `p`.
spec fn stub_so_far(p: Seq<u8>, i: nat) -> Seq<u8> {
    p.subrange(0, 64) + stub_phdrs(p, i) + p.subrange(entry(i), entry(e_phnum(p)))
        + stub_data(p, i)
}

/// The stub `s` with the header at `at` replaced by `ph`, and with `more` appended.
spec fn with_phdr(s: Seq<u8>, at: int, ph: Seq<u8>, more: Seq<u8>) -> Seq<u8> {
    s.take(at) + ph + s.skip(at + 56) + more
}

proof fn lemma_stub_len(p: Seq<u8>, i: nat)
    requires
        is_elf(p),
        e_phoff(p) == 64,
        i <= e_phnum(p),
    ensures
        stub_so_far(p, i).len() == table_end(p) + stub_data(p, i).len(),
        i < e_phnum(p) ==> stub_so_far(p, i).subrange(entry(i), entry(i) + 56) == phdr(
            p,
            i as int,
        ),
{
    lemma_stub_phdrs_len(p, i);
    if i < e_phnum(p) {
        assert(stub_so_far(p, i).subrange(entry(i), entry(i) + 56) =~= phdr(p, i as int));
    }
}

proof fn lemma_stub_step(p: Seq<u8>, i: nat)
    requires
        is_elf(p),
        e_phoff(p) == 64,
        i < e_phnum(p),
    ensures
        stub_so_far(p, i + 1) == with_phdr(
            stub_so_far(p, i),
            entry(i),
            stub_phdr(p, i as int),
            if is_other(p, i as int) {
                padding(stub_so_far(p, i).len()) + p_data(p, i as int)
            } else {
                Seq::empty()
            },
        ),
{
    let at = entry(i);
    let end = entry(e_phnum(p));
    let s = stub_so_far(p, i);
    let table = p.subrange(at + 56, end);
    let ph = stub_phdr(p, i as int);
    lemma_stub_len(p, i);
    lemma_stub_phdrs_len(p, i);
    lemma_stub_phdr_len(p, i as int);
    let more = if is_other(p, i as int) {
        padding(s.len()) + p_data(p, i as int)
    } else {
        Seq::empty()
    };
    assert(s.take(at) =~= p.subrange(0, 64) + stub_phdrs(p, i));
    assert(s.skip(at + 56) =~= table + stub_data(p, i));
    assert(stub_data(p, i + 1) =~= stub_data(p, i) + more);
    let front = p.subrange(0, 64) + stub_phdrs(p, i);
    assert(front + ph =~= p.subrange(0, 64) + stub_phdrs(p, i + 1));
    assert(front + ph + (table + stub_data(p, i)) + more =~= front + ph + table + (stub_data(p, i)
        + more));
}

/// The stub of the packed file `p`, and what the lz4 format needs of its `PT_LOAD` segments.
fn make_stub(p: &[u8]) -> (res: Result<(Vec<u8>, Vec<LoadSegment>), String>)
    requires
        is_elf(p@),
        e_phoff(p@) == 64,
    ensures
        match res {
            Ok((st, segs)) => {
                &&& st@ == stub(p@)
                &&& segs@.len() == loads(p@).len()
                &&& forall|k: int|
                    0 <= k < segs@.len() ==> is_load_segment(#[trigger] segs@[k], p@, loads(p@)[k])
            },
            Err(_) => false,
        },
{
    let phnum = u16_at(p, 56) as usize;
    assert(p@.len() == p.len());
    let mut st: Vec<u8> = vstd::slice::slice_to_vec(
        slice_subrange(p, 0, EHDR_SIZE + phnum * PHDR_SIZE),
    );
    let mut segs: Vec<LoadSegment> = Vec::new();
    let mut i: usize = 0;
    assert(st@ =~= stub_so_far(p@, 0));
    while i < phnum
        invariant
            i <= phnum,
            phnum == e_phnum(p@),
            phnum <= 0xffff,
            is_elf(p@),
            e_phoff(p@) == 64,
            p@.len() == p.len(),
            64 + 56 * phnum <= p@.len(),
            st@ == stub_so_far(p@, i as nat),
            segs@.len() == load_indices(p@, i as nat).len(),
            forall|k: int|
                0 <= k < segs@.len() ==> is_load_segment(
                    #[trigger] segs@[k],
                    p@,
                    load_indices(p@, i as nat)[k],
                ),
        decreases phnum - i,
    {
        let at = EHDR_SIZE + i * PHDR_SIZE;
        let ph = slice_subrange(p, at, at + PHDR_SIZE);
        assert(ph@ == phdr(p@, i as int));
        proof {
            lemma_phdr_ok(p@, 0, i as int);
            lemma_stub_len(p@, i as nat);
            lemma_stub_step(p@, i as nat);
        }
        let offset = match to_usize(u64_at(ph, 8), "p_offset") {
            Ok(v) => v,
            Err(m) => return Err(m),
        };
        let filesz = match to_usize(u64_at(ph, 32), "p_filesz") {
            Ok(v) => v,
            Err(m) => return Err(m),
        };
        let ghost before = st@;
        let ghost nothing = Seq::<u8>::empty();
        if u32_at(ph, 0) == PT_LOAD {
            drop_contents(&mut st, at);
            assert(st@ =~= with_phdr(before, at as int, stub_phdr(p@, i as int), nothing));
            if filesz > 0 {
                segs.push(LoadSegment { paddr: u64_at(ph, 24), offset, filesz });
            }
        } else if filesz > 0 {
            move_contents(&mut st, at, slice_subrange(p, offset, offset + filesz));
            assert(st@ =~= with_phdr(
                before,
                at as int,
                stub_phdr(p@, i as int),
                padding(before.len()) + p_data(p@, i as int),
            ));
        } else {
            assert(before.subrange(at as int, at + 56) == phdr(p@, i as int));
            assert(st@ =~= with_phdr(before, at as int, stub_phdr(p@, i as int), nothing));
        }
        i = i + 1;
    }
    assert(st@ =~= stub(p@));
    Ok((st, segs))
}

/// `compress` can make `blocks` of the `PT_LOAD` segments of `p`, one of each.
pub open spec fn are_kernel_blocks<F: Fn(&[u8]) -> Vec<u8>>(
    compress: F,
    p: Seq<u8>,
    blocks: Seq<Seq<u8>>,
) -> bool {
    &&& blocks.len() == loads(p).len()
    &&& forall|k: int|
        0 <= k < blocks.len() ==> compresses(compress, p_data(p, loads(p)[k]), #[trigger] blocks[k])
}

/// `image` is the lz4 format of the packed file `p`, with each `PT_LOAD` segment compressed by
/// `compress`.
pub open spec fn is_kernel_image<F: Fn(&[u8]) -> Vec<u8>>(
    compress: F,
    p: Seq<u8>,
    image: Seq<u8>,
) -> bool {
    exists|blocks: Seq<Seq<u8>>| #[trigger]
        are_kernel_blocks(compress, p, blocks) && image == kernel_image(p, blocks)
}

/// Packs `vmlinux`, then lz4-compresses each `PT_LOAD` segment separately, so that it can be
/// decompressed straight into guest memory at its physical address. `compress` is an lz4 block
/// compressor.
pub fn pack_vmlinux_lz4<F: Fn(&[u8]) -> Vec<u8>>(vmlinux: &[u8], compress: &F) -> (res: Result<
    Vec<u8>,
    String,
>)
    requires
        forall|d: &[u8]| #[trigger] call_requires(*compress, (d,)),
    ensures
        match res {
            Ok(out) => {
                &&& is_elf(vmlinux@)
                &&& packed(vmlinux@).len() <= usize::MAX
                &&& stub(packed(vmlinux@)).len() <= usize::MAX
                &&& is_kernel_image(*compress, packed(vmlinux@), out@)
            },
            Err(m) => elf_error(vmlinux@) == Some(m@),
        },
{
    // Normalise (and bounds-check) first, so the offsets below are trusted.
    let packed_file = match pack_vmlinux(vmlinux) {
        Ok(v) => v,
        Err(m) => return Err(m),
    };
    let ghost p = packed(vmlinux@);
    proof {
        assert(packed_file@.len() == packed_file.len());
        law_packed_is_elf(vmlinux@);
        lemma_packed_header(vmlinux@);
    }
    let (st, segs) = match make_stub(packed_file.as_slice()) {
        Ok(v) => v,
        Err(m) => return Err(m),
    };
    let mut out: Vec<u8> = vstd::slice::slice_to_vec(LZ4_MAGIC.as_slice());
    push_u64(&mut out, st.len() as u64);
    out.extend_from_slice(st.as_slice());
    push_u64(&mut out, segs.len() as u64);
    let ghost head = out@;
    assert(head =~= LZ4_MAGIC@ + le_bytes(stub(p).len(), 8) + stub(p) + le_bytes(
        loads(p).len(),
        8,
    ));
    let ghost mut blocks: Seq<Seq<u8>> = Seq::empty();
    let n = segs.len();
    let mut k: usize = 0;
    assert(out@ =~= head + kernel_frames(p, blocks, 0));
    while k < n
        invariant
            k <= n,
            n == segs@.len(),
            n == loads(p).len(),
            p == packed_file@,
            forall|j: int|
                0 <= j < segs@.len() ==> is_load_segment(#[trigger] segs@[j], p, loads(p)[j]),
            forall|d: &[u8]| #[trigger] call_requires(*compress, (d,)),
            blocks.len() == k,
            forall|j: int|
                0 <= j < blocks.len() ==> compresses(
                    *compress,
                    p_data(p, loads(p)[j]),
                    #[trigger] blocks[j],
                ),
            out@ == head + kernel_frames(p, blocks, k as nat),
        decreases n - k,
    {
        let seg = &segs[k];
        assert(is_load_segment(segs@[k as int], p, loads(p)[k as int]));
        let data = slice_subrange(packed_file.as_slice(), seg.offset, seg.offset + seg.filesz);
        assert(data@ == p_data(p, loads(p)[k as int]));
        let compressed = compress(data);
        let ghost old_blocks = blocks;
        push_u64(&mut out, seg.paddr);
        push_u64(&mut out, data.len() as u64);
        push_u64(&mut out, compressed.len() as u64);
        out.extend_from_slice(compressed.as_slice());
        proof {
            blocks = blocks.push(compressed@);
            assert(call_ensures(*compress, (data,), compressed));
            lemma_kernel_frames_extend(p, old_blocks, blocks, k as nat);
            assert(out@ =~= head + kernel_frames(p, blocks, (k + 1) as nat));
        }
        k = k + 1;
    }
    assert(are_kernel_blocks(*compress, p, blocks));
    assert(out@ =~= kernel_image(p, blocks));
    Ok(out)
}

proof fn lemma_kernel_frames_extend(p: Seq<u8>, a: Seq<Seq<u8>>, b: Seq<Seq<u8>>, k: nat)
    requires
        k <= a.len() <= b.len(),
        forall|j: int| 0 <= j < k ==> a[j] == b[j],
    ensures
        kernel_frames(p, a, k) == kernel_frames(p, b, k),
    decreases k,
{
    if k > 0 {
        lemma_kernel_frames_extend(p, a, b, (k - 1) as nat);
    }
}

} // verus!
