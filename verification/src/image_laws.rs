//! Where everything stands in the lz4 images, byte by byte, and that nothing is left out of them.

use crate::bytes::{le_at, le_bytes, lemma_le8};
use crate::elf::{
    e_phnum, e_phoff, is_elf, is_load, p_data, p_filesz, p_paddr, p_type, phdr,
};
use crate::initrd_laws::{is_block_of, is_compressor_of, lemma_chunk, lemma_frames_grow};
use crate::kernel_laws::{
    law_kernel_image_restores_segments, lemma_field_bound, lemma_kernel_frames_grow, lemma_loads_of_packed, lemma_phnum_bound,
    lemma_stub_header, read_kernel_image,
};
use crate::layout_laws::{
    law_packing_keeps_program_headers, law_packing_keeps_the_elf_header,
};
use crate::lz4_pack::{
    are_initrd_blocks, are_kernel_blocks, chunk_count, compresses, initrd_chunk, initrd_frames,
    initrd_image, is_initrd_image, is_kernel_image, kernel_frames, kernel_image, lemma_load_indices,
    lemma_stub_phdr_len, load_indices, loads, stub, stub_data, stub_phdr,
};
use crate::pack_laws::{
    law_packed_is_elf, law_packing_keeps_segments, lemma_packed_header,
};
use crate::vmlinux_pack::{aligned, packed, table_end};
use vstd::prelude::*;

verus! {

/// The program headers that are `PT_LOAD`s with file contents are `idx`: all of them, each one once, in
/// order.
pub open spec fn are_all_loads(b: Seq<u8>, idx: Seq<int>) -> bool {
    &&& forall|k: int|
        0 <= k < idx.len() ==> 0 <= #[trigger] idx[k] < e_phnum(b) && p_type(b, idx[k]) == 1
            && p_filesz(b, idx[k]) != 0
    &&& forall|k: int, l: int| 0 <= k < l < idx.len() ==> #[trigger] idx[k] < #[trigger] idx[l]
    &&& forall|i: int|
        0 <= i < e_phnum(b) && #[trigger] p_type(b, i) == 1 && p_filesz(b, i) != 0 ==> idx.contains(
            i,
        )
}

proof fn lemma_loads_are_all(b: Seq<u8>, n: nat)
    ensures
        forall|k: int|
            0 <= k < load_indices(b, n).len() ==> 0 <= #[trigger] load_indices(b, n)[k] < n
                && is_load(b, load_indices(b, n)[k]),
        forall|k: int, l: int|
            0 <= k < l < load_indices(b, n).len() ==> #[trigger] load_indices(b, n)[k]
                < #[trigger] load_indices(b, n)[l],
        forall|i: int|
            0 <= i < n && #[trigger] is_load(b, i) ==> load_indices(b, n).contains(i),
    decreases n,
{
    if n > 0 {
        lemma_loads_are_all(b, (n - 1) as nat);
        let before = load_indices(b, (n - 1) as nat);
        let now = load_indices(b, n);
        assert forall|i: int| 0 <= i < n && #[trigger] is_load(b, i) implies now.contains(i) by {
            if i < n - 1 {
                let k = choose|k: int| 0 <= k < before.len() && before[k] == i;
                assert(now[k] == i);
            } else {
                assert(now[now.len() - 1] == i);
            }
        }
    }
}

proof fn lemma_loads(b: Seq<u8>)
    ensures
        are_all_loads(b, loads(b)),
{
    lemma_loads_are_all(b, e_phnum(b));
    assert forall|i: int| 0 <= i < e_phnum(b) && #[trigger] p_type(b, i) == 1 && p_filesz(b, i)
        != 0 implies loads(b).contains(i) by {
        assert(is_load(b, i));
    }
}

/// No segment is lost: what an lz4 image of a vmlinux reads back as has one segment for each `PT_LOAD`
/// of the vmlinux with file contents, and no more, in program header order, each with the address, the
/// size and the contents that the vmlinux has.
pub proof fn law_kernel_image_holds_every_load<F: Fn(&[u8]) -> Vec<u8>>(
    compress: F,
    vmlinux: Seq<u8>,
    image: Seq<u8>,
)
    requires
        is_elf(vmlinux),
        packed(vmlinux).len() <= usize::MAX,
        image.len() <= usize::MAX,
        is_kernel_image(compress, packed(vmlinux), image),
        forall|i: int|
            0 <= i < e_phnum(vmlinux) ==> is_compressor_of(compress, #[trigger] p_data(vmlinux, i)),
    ensures
        read_kernel_image(image) matches Some((st, segs)) && exists|idx: Seq<int>|
            {
                &&& #[trigger] are_all_loads(vmlinux, idx)
                &&& segs.len() == idx.len()
                &&& forall|k: int|
                    0 <= k < segs.len() ==> {
                        &&& (#[trigger] segs[k]).paddr == p_paddr(vmlinux, idx[k])
                        &&& segs[k].filesz == p_filesz(vmlinux, idx[k])
                        &&& is_block_of(segs[k].block, p_data(vmlinux, idx[k]))
                    }
            },
{
    lemma_loads(vmlinux);
    assert forall|k: int| 0 <= k < loads(vmlinux).len() implies is_compressor_of(
        compress,
        p_data(vmlinux, #[trigger] loads(vmlinux)[k]),
    ) by {
        let i = loads(vmlinux)[k];
        assert(0 <= i < e_phnum(vmlinux));
        assert(is_compressor_of(compress, p_data(vmlinux, i)));
    }
    law_kernel_image_restores_segments(compress, vmlinux, image);
    assert(are_all_loads(vmlinux, loads(vmlinux)));
}

/// Something is compressed exactly to what the compressor returns for it.
pub proof fn law_blocks_come_from_the_compressor<F: Fn(&[u8]) -> Vec<u8>>(
    compress: F,
    data: Seq<u8>,
    block: Seq<u8>,
)
    ensures
        compresses(compress, data, block) <==> exists|d: &[u8], v: Vec<u8>|
            d@ == data && v@ == block && #[trigger] call_ensures(compress, (d,), v),
{
}

/// `image` holds the segments `idx` of `b` as records from `at[0]` on: address, size, length of the
/// block, all as 64-bit integers, and the block, which is what `compress` makes of the contents.
pub open spec fn holds_kernel_records<F: Fn(&[u8]) -> Vec<u8>>(
    compress: F,
    b: Seq<u8>,
    image: Seq<u8>,
    idx: Seq<int>,
    at: Seq<int>,
) -> bool {
    &&& at.len() == idx.len() + 1
    &&& at[idx.len() as int] == image.len()
    &&& forall|k: int|
        0 <= k < idx.len() ==> {
            let r = #[trigger] at[k];
            &&& r + 24 <= at[k + 1]
            &&& le_at(image, r, 8) == p_paddr(b, idx[k])
            &&& le_at(image, r + 8, 8) == p_filesz(b, idx[k])
            &&& le_at(image, r + 16, 8) == at[k + 1] - r - 24
            &&& compresses(compress, p_data(b, idx[k]), image.subrange(r + 24, at[k + 1]))
        }
}

spec fn kernel_record_at(p: Seq<u8>, blocks: Seq<Seq<u8>>, k: nat) -> int {
    (24 + stub(p).len() + kernel_frames(p, blocks, k).len()) as int
}

#[verifier::rlimit(40)]
proof fn lemma_kernel_record(p: Seq<u8>, blocks: Seq<Seq<u8>>, k: int)
    requires
        is_elf(p),
        blocks.len() == loads(p).len(),
        kernel_image(p, blocks).len() <= usize::MAX,
        0 <= k < blocks.len(),
    ensures
        ({
            let image = kernel_image(p, blocks);
            let r = kernel_record_at(p, blocks, k as nat);
            let next = kernel_record_at(p, blocks, (k + 1) as nat);
            &&& next == r + 24 + blocks[k].len()
            &&& next <= image.len()
            &&& le_at(image, r, 8) == p_paddr(p, loads(p)[k])
            &&& le_at(image, r + 8, 8) == p_filesz(p, loads(p)[k])
            &&& le_at(image, r + 16, 8) == blocks[k].len()
            &&& image.subrange(r + 24, next) == blocks[k]
        }),
{
    let n = blocks.len();
    let image = kernel_image(p, blocks);
    let all = kernel_frames(p, blocks, n);
    let fk = kernel_frames(p, blocks, k as nat);
    let f1 = kernel_frames(p, blocks, (k + 1) as nat);
    let r = kernel_record_at(p, blocks, k as nat);
    let i = loads(p)[k];
    let block = blocks[k];
    lemma_kernel_frames_grow(p, blocks, (k + 1) as nat, n);
    lemma_load_indices(p, e_phnum(p));
    lemma_field_bound(p, i);
    crate::bytes::lemma_le_bytes_len(stub(p).len(), 8);
    crate::bytes::lemma_le_bytes_len(n, 8);
    crate::bytes::lemma_le_bytes_len(block.len(), 8);
    lemma_le8(p_paddr(p, i));
    lemma_le8(p_filesz(p, i));
    assert(f1.len() == fk.len() + 24 + block.len());
    lemma_le8(block.len());
    assert(image.skip(24 + stub(p).len() as int) =~= all);
    let rest = image.skip(r);
    assert(rest =~= all.skip(fk.len() as int));
    assert forall|j: int| 0 <= j < 24 + block.len() implies #[trigger] rest[j] == f1[fk.len()
        + j] by {
        assert(all.take(f1.len() as int)[fk.len() + j] == f1[fk.len() + j]);
    }
    assert(rest.subrange(0, 8) =~= le_bytes(p_paddr(p, i), 8));
    assert(rest.subrange(8, 16) =~= le_bytes(p_filesz(p, i), 8));
    assert(rest.subrange(16, 24) =~= le_bytes(block.len(), 8));
    assert(rest.subrange(24, 24 + block.len() as int) =~= block);
    assert(image.subrange(r, r + 8) =~= rest.subrange(0, 8));
    assert(image.subrange(r + 8, r + 16) =~= rest.subrange(8, 16));
    assert(image.subrange(r + 16, r + 24) =~= rest.subrange(16, 24));
    assert(image.subrange(r + 24, r + 24 + block.len() as int) =~= rest.subrange(
        24,
        24 + block.len() as int,
    ));
}

/// The lz4 image of a vmlinux is laid out as documented: the magic, the length of the stub, the stub,
/// the number of segments, and a record for each `PT_LOAD` of the vmlinux with file contents, in
/// program header order, up to the end of the image.
#[verifier::rlimit(40)]
pub proof fn law_kernel_image_layout<F: Fn(&[u8]) -> Vec<u8>>(
    compress: F,
    vmlinux: Seq<u8>,
    image: Seq<u8>,
)
    requires
        is_elf(vmlinux),
        packed(vmlinux).len() <= usize::MAX,
        image.len() <= usize::MAX,
        is_kernel_image(compress, packed(vmlinux), image),
    ensures
        ({
            let end = 16 + stub(packed(vmlinux)).len();
            &&& image.len() >= end + 8
            &&& image.take(8) == seq![0x4au8, 0x4f, 0x4f, 0x53, 0x4c, 0x5a, 0x34, 0x01]
            &&& le_at(image, 8, 8) == stub(packed(vmlinux)).len()
            &&& image.subrange(16, end as int) == stub(packed(vmlinux))
            &&& exists|idx: Seq<int>, at: Seq<int>|
                {
                    &&& are_all_loads(vmlinux, idx)
                    &&& le_at(image, end as int, 8) == idx.len()
                    &&& at.len() > 0 && at[0] == end + 8
                    &&& #[trigger] holds_kernel_records(compress, vmlinux, image, idx, at)
                }
        }),
{
    let p = packed(vmlinux);
    let st = stub(p);
    let end = 16 + st.len() as int;
    lemma_packed_header(vmlinux);
    law_packed_is_elf(vmlinux);
    lemma_loads_of_packed(vmlinux, e_phnum(vmlinux));
    lemma_loads(vmlinux);
    let idx = loads(vmlinux);
    assert(loads(p) == idx);
    let blocks = choose|blocks: Seq<Seq<u8>>| #[trigger]
        are_kernel_blocks(compress, p, blocks) && image == kernel_image(p, blocks);
    let n = blocks.len();
    lemma_load_indices(p, e_phnum(p));
    lemma_phnum_bound(p);
    crate::bytes::lemma_le_bytes_len(st.len(), 8);
    crate::bytes::lemma_le_bytes_len(n, 8);
    lemma_le8(st.len());
    lemma_le8(n);
    assert(image.take(8) =~= seq![0x4au8, 0x4f, 0x4f, 0x53, 0x4c, 0x5a, 0x34, 0x01]);
    assert(image.subrange(8, 16) =~= le_bytes(st.len(), 8));
    assert(image.subrange(16, end) =~= st);
    assert(image.subrange(end, end + 8) =~= le_bytes(n, 8));
    let at = Seq::new(n + 1, |k: int| kernel_record_at(p, blocks, k as nat));
    assert forall|k: int| 0 <= k < n implies {
        let r = #[trigger] at[k];
        &&& r + 24 <= at[k + 1]
        &&& le_at(image, r, 8) == p_paddr(vmlinux, idx[k])
        &&& le_at(image, r + 8, 8) == p_filesz(vmlinux, idx[k])
        &&& le_at(image, r + 16, 8) == at[k + 1] - r - 24
        &&& compresses(compress, p_data(vmlinux, idx[k]), image.subrange(r + 24, at[k + 1]))
    } by {
        lemma_kernel_record(p, blocks, k);
        law_packing_keeps_segments(vmlinux, idx[k]);
        assert(compresses(compress, p_data(p, loads(p)[k]), blocks[k]));
    }
    assert(holds_kernel_records(compress, vmlinux, image, idx, at));
}

proof fn lemma_stub_phdr_bytes(p: Seq<u8>, i: int)
    requires
        is_elf(p),
        0 <= i < e_phnum(p),
    ensures
        stub_phdr(p, i).len() == 56,
        p_type(p, i) != 1 ==> forall|k: int|
            0 <= k < 56 && !(8 <= k < 16) ==> #[trigger] stub_phdr(p, i)[k] == phdr(p, i)[k],
        p_type(p, i) == 1 ==> forall|k: int|
            0 <= k < 56 ==> #[trigger] stub_phdr(p, i)[k] == (if 8 <= k < 16 || 32 <= k < 40 {
                0
            } else {
                phdr(p, i)[k]
            }),
{
    let offset = aligned(table_end(p) + stub_data(p, i as nat).len());
    lemma_stub_phdr_len(p, i);
    crate::bytes::lemma_le_bytes_len(offset, 8);
}

proof fn lemma_stub_elf_header(vmlinux: Seq<u8>)
    requires
        is_elf(vmlinux),
        packed(vmlinux).len() <= usize::MAX,
    ensures
        stub(packed(vmlinux)).len() >= 64 + 56 * e_phnum(vmlinux),
        forall|k: int|
            0 <= k < 64 ==> #[trigger] stub(packed(vmlinux))[k] == packed(vmlinux)[k],
{
    let p = packed(vmlinux);
    let st = stub(p);
    lemma_packed_header(vmlinux);
    law_packed_is_elf(vmlinux);
    lemma_stub_header(p);
    assert forall|k: int| 0 <= k < 64 implies #[trigger] st[k] == p[k] by {
        assert(st.subrange(0, 64)[k] == p.subrange(0, 64)[k]);
    }
}

proof fn lemma_stub_header_byte(vmlinux: Seq<u8>, i: int, k: int)
    requires
        is_elf(vmlinux),
        packed(vmlinux).len() <= usize::MAX,
        0 <= i < e_phnum(vmlinux),
        0 <= k < 56,
    ensures
        stub(packed(vmlinux))[64 + 56 * i + k] == stub_phdr(packed(vmlinux), i)[k],
        !(8 <= k < 16) ==> phdr(packed(vmlinux), i)[k] == vmlinux[e_phoff(vmlinux) + 56 * i + k],
        p_type(packed(vmlinux), i) == p_type(vmlinux, i),
{
    let p = packed(vmlinux);
    lemma_packed_header(vmlinux);
    law_packed_is_elf(vmlinux);
    lemma_stub_header(p);
    law_packing_keeps_program_headers(vmlinux, i);
    law_packing_keeps_segments(vmlinux, i);
    assert(phdr(stub(p), i) == stub_phdr(p, i));
    assert(phdr(stub(p), i)[k] == stub(p)[64 + 56 * i + k]);
    assert(phdr(p, i)[k] == p[64 + 56 * i + k]);
}

/// The stub has the ELF header and the program headers of the vmlinux, as the packed file has them,
/// but for the offsets; and a `PT_LOAD` has the offset and the file size zero.
#[verifier::rlimit(40)]
pub proof fn law_stub_keeps_headers(vmlinux: Seq<u8>, i: int)
    requires
        is_elf(vmlinux),
        packed(vmlinux).len() <= usize::MAX,
        stub(packed(vmlinux)).len() <= usize::MAX,
        0 <= i < e_phnum(vmlinux),
    ensures
        ({
            let st = stub(packed(vmlinux));
            let at = 64 + 56 * i;
            let from = e_phoff(vmlinux) + 56 * i;
            &&& st.len() >= 64 + 56 * e_phnum(vmlinux)
            &&& forall|k: int|
                0 <= k < 64 ==> #[trigger] st[k] == (if k < 32 || 48 <= k < 58 {
                    vmlinux[k]
                } else if k == 32 {
                    64
                } else {
                    0
                })
            &&& p_type(vmlinux, i) != 1 ==> forall|k: int|
                0 <= k < 56 && !(8 <= k < 16) ==> #[trigger] st[at + k] == vmlinux[from + k]
            &&& p_type(vmlinux, i) == 1 ==> forall|k: int|
                0 <= k < 56 ==> #[trigger] st[at + k] == (if 8 <= k < 16 || 32 <= k < 40 {
                    0
                } else {
                    vmlinux[from + k]
                })
        }),
{
    let p = packed(vmlinux);
    let st = stub(p);
    let at = 64 + 56 * i;
    let from = e_phoff(vmlinux) + 56 * i;
    lemma_stub_elf_header(vmlinux);
    law_packing_keeps_the_elf_header(vmlinux);
    law_packed_is_elf(vmlinux);
    lemma_packed_header(vmlinux);
    lemma_stub_phdr_bytes(p, i);
    lemma_stub_header_byte(vmlinux, i, 0);
    if p_type(vmlinux, i) == 1 {
        assert forall|k: int| 0 <= k < 56 implies #[trigger] st[at + k] == (if 8 <= k < 16 || 32 <= k
            < 40 {
            0
        } else {
            vmlinux[from + k]
        }) by {
            lemma_stub_header_byte(vmlinux, i, k);
        }
    } else {
        assert forall|k: int| 0 <= k < 56 && !(8 <= k < 16) implies #[trigger] st[at + k]
            == vmlinux[from + k] by {
            lemma_stub_header_byte(vmlinux, i, k);
        }
    }
}

/// `image` holds the chunks of `initrd`, 4 MiB each but for the last, as records from `at[0]` on:
/// length of the chunk and of the block, as 64-bit integers, and the block, which is what `compress`
/// makes of the chunk.
pub open spec fn holds_initrd_records<F: Fn(&[u8]) -> Vec<u8>>(
    compress: F,
    initrd: Seq<u8>,
    image: Seq<u8>,
    at: Seq<int>,
) -> bool {
    &&& at.len() > 0
    &&& at.last() == image.len()
    &&& (at.len() - 1) * 0x40_0000 >= initrd.len()
    &&& at.len() > 1 ==> (at.len() - 2) * 0x40_0000 < initrd.len()
    &&& forall|k: int|
        0 <= k < at.len() - 1 ==> {
            let r = #[trigger] at[k];
            let from = k * 0x40_0000;
            let to = if from + 0x40_0000 <= initrd.len() {
                from + 0x40_0000
            } else {
                initrd.len() as int
            };
            &&& r + 16 <= at[k + 1]
            &&& le_at(image, r, 8) == to - from
            &&& le_at(image, r + 8, 8) == at[k + 1] - r - 16
            &&& compresses(
                compress,
                initrd.subrange(from, to),
                image.subrange(r + 16, at[k + 1]),
            )
        }
}

spec fn initrd_record_at(initrd: Seq<u8>, blocks: Seq<Seq<u8>>, k: nat) -> int {
    24 + initrd_frames(initrd, blocks, k).len() as int
}

#[verifier::rlimit(40)]
proof fn lemma_initrd_record(initrd: Seq<u8>, blocks: Seq<Seq<u8>>, k: int)
    requires
        initrd.len() <= usize::MAX,
        blocks.len() == chunk_count(initrd.len()),
        initrd_image(initrd, blocks).len() <= usize::MAX,
        0 <= k < blocks.len(),
    ensures
        ({
            let image = initrd_image(initrd, blocks);
            let r = initrd_record_at(initrd, blocks, k as nat);
            let next = initrd_record_at(initrd, blocks, (k + 1) as nat);
            &&& next == r + 16 + blocks[k].len()
            &&& next <= image.len()
            &&& le_at(image, r, 8) == initrd_chunk(initrd, k).len()
            &&& le_at(image, r + 8, 8) == blocks[k].len()
            &&& image.subrange(r + 16, next) == blocks[k]
        }),
{
    let n = blocks.len();
    let image = initrd_image(initrd, blocks);
    let all = initrd_frames(initrd, blocks, n);
    let fk = initrd_frames(initrd, blocks, k as nat);
    let f1 = initrd_frames(initrd, blocks, (k + 1) as nat);
    let r = initrd_record_at(initrd, blocks, k as nat);
    let chunk = initrd_chunk(initrd, k);
    let block = blocks[k];
    lemma_frames_grow(initrd, blocks, (k + 1) as nat, n);
    lemma_chunk(initrd, k);
    crate::bytes::lemma_le_bytes_len(initrd.len(), 8);
    crate::bytes::lemma_le_bytes_len(n, 8);
    crate::bytes::lemma_le_bytes_len(block.len(), 8);
    lemma_le8(chunk.len());
    assert(f1.len() == fk.len() + 16 + block.len());
    lemma_le8(block.len());
    assert(image.skip(24) =~= all);
    let rest = image.skip(r);
    assert(rest =~= all.skip(fk.len() as int));
    assert forall|j: int| 0 <= j < 16 + block.len() implies #[trigger] rest[j] == f1[fk.len()
        + j] by {
        assert(all.take(f1.len() as int)[fk.len() + j] == f1[fk.len() + j]);
    }
    assert(rest.subrange(0, 8) =~= le_bytes(chunk.len(), 8));
    assert(rest.subrange(8, 16) =~= le_bytes(block.len(), 8));
    assert(rest.subrange(16, 16 + block.len() as int) =~= block);
    assert(image.subrange(r, r + 8) =~= rest.subrange(0, 8));
    assert(image.subrange(r + 8, r + 16) =~= rest.subrange(8, 16));
    assert(image.subrange(r + 16, r + 16 + block.len() as int) =~= rest.subrange(
        16,
        16 + block.len() as int,
    ));
}

/// The lz4 image of an initrd is laid out as documented: the magic, the size of the initrd, the number
/// of chunks, and a record for each chunk of the initrd, in order, up to the end of the image.
#[verifier::rlimit(40)]
pub proof fn law_initrd_image_layout<F: Fn(&[u8]) -> Vec<u8>>(
    compress: F,
    initrd: Seq<u8>,
    image: Seq<u8>,
)
    requires
        initrd.len() <= usize::MAX,
        image.len() <= usize::MAX,
        is_initrd_image(compress, initrd, image),
    ensures
        image.len() >= 24,
        image.take(8) == seq![0x4au8, 0x4f, 0x4f, 0x53, 0x4c, 0x5a, 0x49, 0x01],
        le_at(image, 8, 8) == initrd.len(),
        exists|at: Seq<int>|
            {
                &&& #[trigger] holds_initrd_records(compress, initrd, image, at)
                &&& at[0] == 24
                &&& le_at(image, 16, 8) == at.len() - 1
            },
{
    let blocks = choose|blocks: Seq<Seq<u8>>| #[trigger]
        are_initrd_blocks(compress, initrd, blocks) && image == initrd_image(initrd, blocks);
    let n = blocks.len();
    lemma_le8(initrd.len());
    lemma_le8(n);
    assert(image.take(8) =~= seq![0x4au8, 0x4f, 0x4f, 0x53, 0x4c, 0x5a, 0x49, 0x01]);
    assert(image.subrange(8, 16) =~= le_bytes(initrd.len(), 8));
    assert(image.subrange(16, 24) =~= le_bytes(n, 8));
    let at = Seq::new(n + 1, |k: int| initrd_record_at(initrd, blocks, k as nat));
    assert(at[0] == 24);
    assert(at.last() == image.len()) by {
        assert(image.skip(24) =~= initrd_frames(initrd, blocks, n));
    }
    assert forall|k: int| 0 <= k < at.len() - 1 implies {
        let r = #[trigger] at[k];
        let from = k * 0x40_0000;
        let to = if from + 0x40_0000 <= initrd.len() {
            from + 0x40_0000
        } else {
            initrd.len() as int
        };
        &&& r + 16 <= at[k + 1]
        &&& le_at(image, r, 8) == to - from
        &&& le_at(image, r + 8, 8) == at[k + 1] - r - 16
        &&& compresses(compress, initrd.subrange(from, to), image.subrange(r + 16, at[k + 1]))
    } by {
        lemma_initrd_record(initrd, blocks, k);
        lemma_chunk(initrd, k);
        assert(compresses(compress, initrd_chunk(initrd, k), blocks[k]));
    }
    assert(holds_initrd_records(compress, initrd, image, at));
}

} // verus!
