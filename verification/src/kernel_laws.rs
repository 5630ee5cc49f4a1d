//! What holds of a vmlinux in the lz4 format: its stub is an ELF file that keeps all but the
//! contents of the `PT_LOAD` segments, and these can be read back from the blocks behind it.

use crate::bytes::{le_at, le_bytes, lemma_le8, zeros};
use crate::elf::{
    e_phentsize, e_phnum, e_phoff, is_elf, is_other, lemma_phdr_ok, lemma_phdrs_ok,
    p_data, p_filesz, p_offset, p_paddr, p_type, phdr,
};
use crate::initrd_laws::{is_block_of, is_compressor_of, is_deterministic_on};
use crate::lz4_pack::{
    are_kernel_blocks, compresses, is_kernel_image, kernel_frames, kernel_image, lemma_load_indices,
    lemma_stub_phdr_len, lemma_stub_phdrs_len, load_indices, loads, stub, stub_data, stub_phdr,
    stub_phdrs, without_contents, LZ4_MAGIC,
};
use crate::pack_laws::{
    law_packed_is_elf, law_packing_is_idempotent, law_packing_keeps_segments,
    lemma_container_facts, lemma_packed_header, lemma_with_offset,
};
use crate::vmlinux_pack::{
    aligned, container, loads_data, new_offset, packed, packed_ehdr, packed_phdrs, segments_data,
    table_end, with_offset,
};
use vstd::prelude::*;

verus! {

proof fn lemma_stub_data_grows(p: Seq<u8>, i: nat, j: nat)
    requires
        i <= j,
    ensures
        stub_data(p, i).len() <= stub_data(p, j).len(),
        stub_data(p, j).take(stub_data(p, i).len() as int) == stub_data(p, i),
    decreases j - i,
{
    let di = stub_data(p, i);
    let dj = stub_data(p, j);
    if i < j {
        lemma_stub_data_grows(p, i, (j - 1) as nat);
        assert(dj.take(di.len() as int) =~= stub_data(p, (j - 1) as nat).take(di.len() as int));
    } else {
        assert(dj.take(di.len() as int) =~= di);
    }
}

proof fn lemma_phdr_in_stub(p: Seq<u8>, i: int, n: nat)
    requires
        is_elf(p),
        0 <= i < n <= e_phnum(p),
    ensures
        stub_phdrs(p, n).len() == 56 * n,
        stub_phdrs(p, n).subrange(56 * i, 56 * i + 56) == stub_phdr(p, i),
    decreases n,
{
    lemma_stub_phdrs_len(p, n);
    lemma_stub_phdrs_len(p, (n - 1) as nat);
    lemma_stub_phdr_len(p, n - 1);
    let all = stub_phdrs(p, n);
    if i < n - 1 {
        lemma_phdr_in_stub(p, i, (n - 1) as nat);
        assert(all.subrange(56 * i, 56 * i + 56) =~= stub_phdrs(p, (n - 1) as nat).subrange(
            56 * i,
            56 * i + 56,
        ));
    } else {
        assert(all.subrange(56 * i, 56 * i + 56) =~= stub_phdr(p, i));
    }
}

pub(crate) proof fn lemma_stub_header(p: Seq<u8>)
    requires
        is_elf(p),
        e_phoff(p) == 64,
    ensures
        stub(p).len() == table_end(p) + stub_data(p, e_phnum(p)).len(),
        stub(p).subrange(0, 64) == p.subrange(0, 64),
        e_phoff(stub(p)) == 64,
        e_phentsize(stub(p)) == 56,
        e_phnum(stub(p)) == e_phnum(p),
        forall|i: int| 0 <= i < e_phnum(p) ==> #[trigger] phdr(stub(p), i) == stub_phdr(p, i),
{
    let s = stub(p);
    let n = e_phnum(p);
    lemma_stub_phdrs_len(p, n);
    assert(s.subrange(0, 64) =~= p.subrange(0, 64));
    assert(s.subrange(32, 40) =~= p.subrange(32, 40));
    assert(s.subrange(54, 56) =~= p.subrange(54, 56));
    assert(s.subrange(56, 58) =~= p.subrange(56, 58));
    assert forall|i: int| 0 <= i < n implies #[trigger] phdr(s, i) == stub_phdr(p, i) by {
        lemma_phdr_in_stub(p, i, n);
        assert(phdr(s, i) =~= stub_phdrs(p, n).subrange(56 * i, 56 * i + 56));
    }
}

pub(crate) proof fn lemma_without_contents(ph: Seq<u8>)
    requires
        ph.len() == 56,
    ensures
        without_contents(ph).len() == 56,
        le_at(without_contents(ph), 0, 4) == le_at(ph, 0, 4),
        le_at(without_contents(ph), 8, 8) == 0,
        le_at(without_contents(ph), 24, 8) == le_at(ph, 24, 8),
        le_at(without_contents(ph), 32, 8) == 0,
        with_offset(without_contents(ph), 0) == without_contents(ph),
{
    let w = without_contents(ph);
    assert(w.subrange(0, 4) =~= ph.subrange(0, 4));
    assert(w.subrange(8, 16) =~= zeros(8));
    assert(w.subrange(24, 32) =~= ph.subrange(24, 32));
    assert(w.subrange(32, 40) =~= zeros(8));
    lemma_le8(0);
    reveal_with_fuel(le_bytes, 9);
    assert(le_bytes(0, 8) =~= zeros(8));
    assert(with_offset(w, 0) =~= w);
}

/// The stub keeps every program header's type and address. Its `PT_LOAD`s have no file contents,
/// so a loader skips them, and every other segment has the contents that it has in the packed file.
pub proof fn law_stub_keeps_all_but_loads(p: Seq<u8>, i: int)
    requires
        is_elf(p),
        e_phoff(p) == 64,
        stub(p).len() <= usize::MAX,
        0 <= i < e_phnum(p),
    ensures
        e_phnum(stub(p)) == e_phnum(p),
        p_type(stub(p), i) == p_type(p, i),
        p_paddr(stub(p), i) == p_paddr(p, i),
        p_filesz(stub(p), i) == (if p_type(p, i) == 1 {
            0
        } else {
            p_filesz(p, i)
        }),
        is_other(p, i) ==> {
            &&& p_offset(stub(p), i) + p_filesz(stub(p), i) <= stub(p).len()
            &&& p_data(stub(p), i) == p_data(p, i)
        },
{
    let s = stub(p);
    let n = e_phnum(p);
    let ph = phdr(p, i);
    lemma_stub_header(p);
    assert(phdr(s, i) == stub_phdr(p, i));
    if p_type(p, i) == 1 {
        lemma_without_contents(ph);
    } else if p_filesz(p, i) > 0 {
        lemma_phdr_ok(p, 0, i);
        lemma_stub_phdrs_len(p, n);
        lemma_stub_data_grows(p, (i + 1) as nat, n);
        let upto = stub_data(p, (i + 1) as nat);
        let tail = stub_data(p, n);
        let offset = aligned(table_end(p) + stub_data(p, i as nat).len());
        let at = offset - table_end(p);
        let len = p_filesz(p, i) as int;
        assert(at + len == upto.len());
        lemma_with_offset(ph, offset);
        assert(upto.subrange(at, at + len) =~= p_data(p, i));
        assert(tail.take(upto.len() as int) == upto);
        assert(tail.subrange(at, at + len) =~= upto.subrange(at, at + len));
        assert(s.subrange(at + table_end(p), at + table_end(p) + len) =~= tail.subrange(
            at,
            at + len,
        ));
    }
}

/// The stub is an ELF file with sane program headers, and with the ELF header of the packed file.
pub proof fn law_stub_is_elf(p: Seq<u8>)
    requires
        is_elf(p),
        e_phoff(p) == 64,
        stub(p).len() <= usize::MAX,
    ensures
        is_elf(stub(p)),
        stub(p).subrange(0, 64) == p.subrange(0, 64),
{
    let s = stub(p);
    lemma_stub_header(p);
    assert(s.subrange(0, 4) =~= p.subrange(0, 4)) by {
        assert(s.subrange(0, 64).subrange(0, 4) =~= s.subrange(0, 4));
        assert(p.subrange(0, 64).subrange(0, 4) =~= p.subrange(0, 4));
    }
    assert(s[4] == s.subrange(0, 64)[4] && s[5] == s.subrange(0, 64)[5]);
    assert forall|i: int| 0 <= i < e_phnum(s) implies {
        &&& #[trigger] p_offset(s, i) <= usize::MAX
        &&& p_filesz(s, i) <= usize::MAX
        &&& p_filesz(s, i) > 0 ==> p_offset(s, i) + p_filesz(s, i) <= s.len()
    } by {
        law_stub_keeps_all_but_loads(p, i);
        lemma_phdr_ok(p, 0, i);
        assert(phdr(s, i) == stub_phdr(p, i));
        if p_type(p, i) == 1 {
            lemma_without_contents(phdr(p, i));
        }
    }
    lemma_phdrs_ok(s, 0);
}

/// A `PT_LOAD` segment in the lz4 format.
pub struct KernelSegment {
    pub paddr: nat,
    pub filesz: nat,
    pub block: Seq<u8>,
}

/// Reads the `n` segments that `rest` consists of.
pub open spec fn read_segments(rest: Seq<u8>, n: nat) -> Option<Seq<KernelSegment>>
    decreases n,
{
    if n == 0 {
        if rest.len() == 0 {
            Some(Seq::empty())
        } else {
            None
        }
    } else if rest.len() < 24 || rest.len() - 24 < le_at(rest, 16, 8) {
        None
    } else {
        let end = 24 + le_at(rest, 16, 8) as int;
        let seg = KernelSegment {
            paddr: le_at(rest, 0, 8),
            filesz: le_at(rest, 8, 8),
            block: rest.subrange(24, end),
        };
        match read_segments(rest.skip(end), (n - 1) as nat) {
            Some(segs) => Some(seq![seg] + segs),
            None => None,
        }
    }
}

/// Reads the stub and the segments of a vmlinux in the lz4 format.
pub open spec fn read_kernel_image(image: Seq<u8>) -> Option<(Seq<u8>, Seq<KernelSegment>)> {
    if image.len() < 16 || image.take(8) != LZ4_MAGIC@ || image.len() - 24 < le_at(image, 8, 8) {
        None
    } else {
        let end = 16 + le_at(image, 8, 8) as int;
        match read_segments(image.skip(end + 8), le_at(image, end, 8)) {
            Some(segs) => Some((image.subrange(16, end), segs)),
            None => None,
        }
    }
}

/// The `PT_LOAD` segments of `p` from the `k`-th on, compressed to `blocks`.
pub open spec fn segments_from(p: Seq<u8>, blocks: Seq<Seq<u8>>, k: int) -> Seq<KernelSegment> {
    Seq::new(
        (loads(p).len() - k) as nat,
        |j: int|
            KernelSegment {
                paddr: p_paddr(p, loads(p)[k + j]),
                filesz: p_filesz(p, loads(p)[k + j]),
                block: blocks[k + j],
            },
    )
}

pub(crate) proof fn lemma_kernel_frames_grow(p: Seq<u8>, blocks: Seq<Seq<u8>>, i: nat, j: nat)
    requires
        i <= j,
    ensures
        kernel_frames(p, blocks, i).len() <= kernel_frames(p, blocks, j).len(),
        kernel_frames(p, blocks, j).take(kernel_frames(p, blocks, i).len() as int)
            == kernel_frames(p, blocks, i),
    decreases j - i,
{
    let fi = kernel_frames(p, blocks, i);
    let fj = kernel_frames(p, blocks, j);
    if i < j {
        lemma_kernel_frames_grow(p, blocks, i, (j - 1) as nat);
        assert(fj.take(fi.len() as int) =~= kernel_frames(p, blocks, (j - 1) as nat).take(
            fi.len() as int,
        ));
    } else {
        assert(fj.take(fi.len() as int) =~= fi);
    }
}

pub(crate) proof fn lemma_field_bound(p: Seq<u8>, i: int)
    requires
        is_elf(p),
        0 <= i < e_phnum(p),
    ensures
        p_paddr(p, i) <= u64::MAX,
        p_filesz(p, i) <= u64::MAX,
{
    let ph = phdr(p, i);
    crate::bytes::lemma_pow256();
    crate::bytes::lemma_le_bound(ph.subrange(24, 32));
    crate::bytes::lemma_le_bound(ph.subrange(32, 40));
}

proof fn lemma_read_from(p: Seq<u8>, blocks: Seq<Seq<u8>>, k: nat)
    requires
        is_elf(p),
        blocks.len() == loads(p).len(),
        forall|j: int| 0 <= j < blocks.len() ==> #[trigger] blocks[j].len() <= u64::MAX,
        k <= blocks.len(),
    ensures
        read_segments(
            kernel_frames(p, blocks, blocks.len()).skip(kernel_frames(p, blocks, k).len() as int),
            (blocks.len() - k) as nat,
        ) == Some(segments_from(p, blocks, k as int)),
    decreases blocks.len() - k,
{
    let n = blocks.len();
    let all = kernel_frames(p, blocks, n);
    let fk = kernel_frames(p, blocks, k);
    let rest = all.skip(fk.len() as int);
    if k < n {
        let f1 = kernel_frames(p, blocks, k + 1);
        let i = loads(p)[k as int];
        let block = blocks[k as int];
        lemma_read_from(p, blocks, k + 1);
        lemma_kernel_frames_grow(p, blocks, k + 1, n);
        lemma_load_indices(p, e_phnum(p));
        lemma_field_bound(p, i);
        lemma_le8(p_paddr(p, i));
        lemma_le8(p_filesz(p, i));
        lemma_le8(block.len());
        assert(all.take(f1.len() as int) == f1);
        assert(f1.len() == fk.len() + 24 + block.len());
        assert forall|j: int| 0 <= j < 24 + block.len() implies #[trigger] rest[j] == f1[fk.len()
            + j] by {
            assert(all.take(f1.len() as int)[fk.len() + j] == f1[fk.len() + j]);
        }
        assert(rest.subrange(0, 8) =~= le_bytes(p_paddr(p, i), 8));
        assert(rest.subrange(8, 16) =~= le_bytes(p_filesz(p, i), 8));
        assert(rest.subrange(16, 24) =~= le_bytes(block.len(), 8));
        assert(rest.subrange(24, 24 + block.len() as int) =~= block);
        assert(rest.skip(24 + block.len() as int) =~= all.skip(f1.len() as int));
        let seg = KernelSegment { paddr: p_paddr(p, i), filesz: p_filesz(p, i), block };
        assert(seq![seg] + segments_from(p, blocks, k as int + 1) =~= segments_from(p, blocks, k as int));
    } else {
        assert(segments_from(p, blocks, k as int) =~= Seq::empty());
    }
}

/// The lz4 format of a packed file reads back as its stub and its compressed `PT_LOAD` segments, in
/// program header order.
pub proof fn law_kernel_image_reads_back(p: Seq<u8>, blocks: Seq<Seq<u8>>)
    requires
        is_elf(p),
        blocks.len() == loads(p).len(),
        kernel_image(p, blocks).len() <= usize::MAX,
    ensures
        read_kernel_image(kernel_image(p, blocks)) == Some(
            (stub(p), segments_from(p, blocks, 0)),
        ),
{
    let image = kernel_image(p, blocks);
    let n = blocks.len();
    let st = stub(p);
    let end = 16 + st.len() as int;
    crate::bytes::lemma_le_bytes_len(st.len(), 8);
    crate::bytes::lemma_le_bytes_len(n, 8);
    lemma_load_indices(p, e_phnum(p));
    lemma_phnum_bound(p);
    lemma_le8(st.len());
    lemma_le8(n);
    assert forall|j: int| 0 <= j < n implies #[trigger] blocks[j].len() <= u64::MAX by {
        lemma_kernel_frames_grow(p, blocks, (j + 1) as nat, n);
    }
    assert(image.take(8) =~= LZ4_MAGIC@);
    assert(image.subrange(8, 16) =~= le_bytes(st.len(), 8));
    assert(image.subrange(16, end) =~= st);
    assert(image.subrange(end, end + 8) =~= le_bytes(n, 8));
    let all = kernel_frames(p, blocks, n);
    assert(image.skip(end + 8) =~= all);
    lemma_read_from(p, blocks, 0);
    assert(all.skip(0) =~= all);
}

pub(crate) proof fn lemma_phnum_bound(p: Seq<u8>)
    requires
        is_elf(p),
    ensures
        e_phnum(p) <= 0xffff,
{
    crate::bytes::lemma_pow256();
    crate::bytes::lemma_le_bound(p.subrange(56, 58));
}

pub(crate) proof fn lemma_loads_of_packed(b: Seq<u8>, i: nat)
    requires
        is_elf(b),
        packed(b).len() <= usize::MAX,
        i <= e_phnum(b),
    ensures
        load_indices(packed(b), i) == load_indices(b, i),
    decreases i,
{
    if i > 0 {
        lemma_loads_of_packed(b, (i - 1) as nat);
        law_packing_keeps_segments(b, i - 1);
    }
}

proof fn lemma_segment_restored<F: Fn(&[u8]) -> Vec<u8>>(
    compress: F,
    vmlinux: Seq<u8>,
    blocks: Seq<Seq<u8>>,
    k: int,
)
    requires
        is_elf(vmlinux),
        packed(vmlinux).len() <= usize::MAX,
        are_kernel_blocks(compress, packed(vmlinux), blocks),
        loads(packed(vmlinux)) == loads(vmlinux),
        0 <= k < loads(vmlinux).len(),
        is_compressor_of(compress, p_data(vmlinux, loads(vmlinux)[k])),
    ensures
        ({
            let seg = segments_from(packed(vmlinux), blocks, 0)[k];
            &&& seg.paddr == p_paddr(vmlinux, loads(vmlinux)[k])
            &&& seg.filesz == p_filesz(vmlinux, loads(vmlinux)[k])
            &&& is_block_of(seg.block, p_data(vmlinux, loads(vmlinux)[k]))
        }),
{
    let p = packed(vmlinux);
    lemma_load_indices(vmlinux, e_phnum(vmlinux));
    law_packing_keeps_segments(vmlinux, loads(vmlinux)[k]);
    assert(compresses(compress, p_data(p, loads(p)[k]), blocks[k]));
}

/// The lz4 format of a vmlinux holds its `PT_LOAD` segments, in program header order: each one's
/// address, its size, and a block that decompresses to the contents that it has in the vmlinux.
#[verifier::rlimit(40)]
pub proof fn law_kernel_image_restores_segments<F: Fn(&[u8]) -> Vec<u8>>(
    compress: F,
    vmlinux: Seq<u8>,
    image: Seq<u8>,
)
    requires
        is_elf(vmlinux),
        packed(vmlinux).len() <= usize::MAX,
        image.len() <= usize::MAX,
        is_kernel_image(compress, packed(vmlinux), image),
        forall|k: int|
            0 <= k < loads(vmlinux).len() ==> is_compressor_of(
                compress,
                p_data(vmlinux, #[trigger] loads(vmlinux)[k]),
            ),
    ensures
        read_kernel_image(image) matches Some((st, segs)) && {
            &&& st == stub(packed(vmlinux))
            &&& segs.len() == loads(vmlinux).len()
            &&& forall|k: int|
                0 <= k < segs.len() ==> {
                    &&& (#[trigger] segs[k]).paddr == p_paddr(vmlinux, loads(vmlinux)[k])
                    &&& segs[k].filesz == p_filesz(vmlinux, loads(vmlinux)[k])
                    &&& is_block_of(segs[k].block, p_data(vmlinux, loads(vmlinux)[k]))
                }
        },
{
    let p = packed(vmlinux);
    lemma_packed_header(vmlinux);
    law_packed_is_elf(vmlinux);
    lemma_loads_of_packed(vmlinux, e_phnum(vmlinux));
    assert(loads(p) == loads(vmlinux));
    let blocks = choose|blocks: Seq<Seq<u8>>| #[trigger]
        are_kernel_blocks(compress, p, blocks) && image == kernel_image(p, blocks);
    law_kernel_image_reads_back(p, blocks);
    let segs = segments_from(p, blocks, 0);
    assert forall|k: int| 0 <= k < segs.len() implies {
        &&& (#[trigger] segs[k]).paddr == p_paddr(vmlinux, loads(vmlinux)[k])
        &&& segs[k].filesz == p_filesz(vmlinux, loads(vmlinux)[k])
        &&& is_block_of(segs[k].block, p_data(vmlinux, loads(vmlinux)[k]))
    } by {
        assert(is_compressor_of(compress, p_data(vmlinux, loads(vmlinux)[k])));
        lemma_segment_restored(compress, vmlinux, blocks, k);
    }
}

/// The stub of a packed vmlinux is an ELF file that keeps what the vmlinux has besides the contents of
/// its `PT_LOAD` segments: each program header's type and address, and the contents of every other
/// segment, which lie within the stub.
pub proof fn law_stub_keeps_vmlinux(vmlinux: Seq<u8>, i: int)
    requires
        is_elf(vmlinux),
        packed(vmlinux).len() <= usize::MAX,
        stub(packed(vmlinux)).len() <= usize::MAX,
        0 <= i < e_phnum(vmlinux),
    ensures
        is_elf(stub(packed(vmlinux))),
        e_phnum(stub(packed(vmlinux))) == e_phnum(vmlinux),
        p_type(stub(packed(vmlinux)), i) == p_type(vmlinux, i),
        p_paddr(stub(packed(vmlinux)), i) == p_paddr(vmlinux, i),
        p_type(vmlinux, i) == 1 ==> p_filesz(stub(packed(vmlinux)), i) == 0,
        is_other(vmlinux, i) ==> p_data(stub(packed(vmlinux)), i) == p_data(vmlinux, i),
{
    lemma_packed_header(vmlinux);
    law_packed_is_elf(vmlinux);
    law_packing_keeps_segments(vmlinux, i);
    law_stub_keeps_all_but_loads(packed(vmlinux), i);
    law_stub_is_elf(packed(vmlinux));
}

/// Packing a vmlinux with a deterministic compressor gives the same bytes every time, whether it is
/// fed the vmlinux or its packed form.
pub proof fn law_kernel_image_is_determined<F: Fn(&[u8]) -> Vec<u8>>(
    compress: F,
    vmlinux: Seq<u8>,
    a: Seq<u8>,
    b: Seq<u8>,
)
    requires
        is_elf(vmlinux),
        packed(vmlinux).len() <= usize::MAX,
        is_kernel_image(compress, packed(vmlinux), a),
        is_kernel_image(compress, packed(packed(vmlinux)), b),
        forall|k: int|
            0 <= k < loads(vmlinux).len() ==> is_deterministic_on(
                compress,
                p_data(vmlinux, #[trigger] loads(vmlinux)[k]),
            ),
    ensures
        a == b,
{
    let p = packed(vmlinux);
    law_packing_is_idempotent(vmlinux);
    lemma_packed_header(vmlinux);
    lemma_loads_of_packed(vmlinux, e_phnum(vmlinux));
    lemma_load_indices(vmlinux, e_phnum(vmlinux));
    let x = choose|blocks: Seq<Seq<u8>>| #[trigger]
        are_kernel_blocks(compress, p, blocks) && a == kernel_image(p, blocks);
    let y = choose|blocks: Seq<Seq<u8>>| #[trigger]
        are_kernel_blocks(compress, p, blocks) && b == kernel_image(p, blocks);
    assert forall|k: int| 0 <= k < x.len() implies x[k] == y[k] by {
        let i = loads(vmlinux)[k];
        law_packing_keeps_segments(vmlinux, i);
        assert(is_deterministic_on(compress, p_data(vmlinux, i)));
        assert(compresses(compress, p_data(p, loads(p)[k]), x[k]));
        assert(compresses(compress, p_data(p, loads(p)[k]), y[k]));
    }
    assert(x =~= y);
}

proof fn lemma_stub_segments(p: Seq<u8>, i: nat)
    requires
        is_elf(p),
        e_phoff(p) == 64,
        stub(p).len() <= usize::MAX,
        i <= e_phnum(p),
    ensures
        loads_data(stub(p), i).len() == 0,
        loads_data(stub(p), e_phnum(p)).len() == 0 ==> segments_data(stub(p), i) == stub_data(p, i),
    decreases i,
{
    let s = stub(p);
    lemma_stub_header(p);
    if i > 0 {
        lemma_stub_segments(p, (i - 1) as nat);
        law_stub_keeps_all_but_loads(p, i - 1);
        lemma_stub_has_no_container(p, i - 1);
    } else {
        assert(loads_data(s, e_phnum(p)).len() == 0 ==> loads_data(s, e_phnum(p)) =~= stub_data(
            p,
            0,
        ));
    }
}

proof fn lemma_stub_has_no_container(p: Seq<u8>, i: int)
    requires
        is_elf(p),
        e_phoff(p) == 64,
        stub(p).len() <= usize::MAX,
    ensures
        container(stub(p), i) is None,
{
    lemma_stub_header(p);
    lemma_container_facts(stub(p), i, 0);
    if let Some(j) = container(stub(p), i) {
        law_stub_keeps_all_but_loads(p, j);
    }
}

proof fn lemma_stub_offset(p: Seq<u8>, i: int)
    requires
        is_elf(p),
        e_phoff(p) == 64,
        stub(p).len() <= usize::MAX,
        0 <= i < e_phnum(p),
        is_other(p, i),
    ensures
        new_offset(stub(p), i) == aligned(table_end(p) + stub_data(p, i as nat).len()),
        new_offset(stub(p), i) <= usize::MAX,
{
    lemma_stub_header(p);
    law_stub_keeps_all_but_loads(p, i);
    lemma_stub_segments(p, e_phnum(p));
    lemma_stub_segments(p, i as nat);
    lemma_stub_has_no_container(p, i);
    lemma_stub_data_grows(p, (i + 1) as nat, e_phnum(p));
}

#[verifier::rlimit(40)]
proof fn lemma_stub_phdr_packs(vmlinux: Seq<u8>, i: int)
    requires
        is_elf(vmlinux),
        packed(vmlinux).len() <= usize::MAX,
        stub(packed(vmlinux)).len() <= usize::MAX,
        0 <= i < e_phnum(vmlinux),
    ensures
        ({
            let p = packed(vmlinux);
            with_offset(phdr(stub(p), i), new_offset(stub(p), i)) == stub_phdr(p, i)
        }),
{
    let p = packed(vmlinux);
    let s = stub(p);
    lemma_packed_header(vmlinux);
    law_packed_is_elf(vmlinux);
    lemma_stub_header(p);
    law_packing_keeps_segments(vmlinux, i);
    law_stub_keeps_all_but_loads(p, i);
    assert(phdr(s, i) == stub_phdr(p, i));
    let ph = phdr(p, i);
    if p_type(p, i) == 1 {
        lemma_without_contents(ph);
    } else if p_filesz(p, i) > 0 {
        lemma_stub_offset(p, i);
        lemma_with_offset(ph, new_offset(s, i));
    } else {
        assert(ph == with_offset(phdr(vmlinux, i), 0));
        lemma_with_offset(phdr(vmlinux, i), 0);
    }
}

proof fn lemma_stub_phdrs_pack(vmlinux: Seq<u8>, i: nat)
    requires
        is_elf(vmlinux),
        packed(vmlinux).len() <= usize::MAX,
        stub(packed(vmlinux)).len() <= usize::MAX,
        i <= e_phnum(vmlinux),
    ensures
        packed_phdrs(stub(packed(vmlinux)), i) == stub_phdrs(packed(vmlinux), i),
    decreases i,
{
    if i > 0 {
        lemma_stub_phdrs_pack(vmlinux, (i - 1) as nat);
        lemma_stub_phdr_packs(vmlinux, i - 1);
    }
}

/// The stub is a packed file itself: packing it returns it unchanged.
pub proof fn law_stub_packs_to_itself(vmlinux: Seq<u8>)
    requires
        is_elf(vmlinux),
        packed(vmlinux).len() <= usize::MAX,
        stub(packed(vmlinux)).len() <= usize::MAX,
    ensures
        is_elf(stub(packed(vmlinux))),
        packed(stub(packed(vmlinux))) == stub(packed(vmlinux)),
{
    let p = packed(vmlinux);
    let s = stub(p);
    let n = e_phnum(p);
    lemma_packed_header(vmlinux);
    law_packed_is_elf(vmlinux);
    law_packing_is_idempotent(vmlinux);
    law_stub_is_elf(p);
    lemma_stub_header(p);
    lemma_packed_header(p);
    assert(packed_ehdr(s) =~= packed_ehdr(p)) by {
        let a = s.subrange(0, 64);
        assert(s.subrange(0, 32) =~= a.subrange(0, 32) && p.subrange(0, 32) =~= a.subrange(0, 32));
        assert(s.subrange(48, 58) =~= a.subrange(48, 58) && p.subrange(48, 58) =~= a.subrange(
            48,
            58,
        ));
    }
    assert(packed(p).subrange(0, 64) =~= packed_ehdr(p));
    lemma_stub_phdrs_pack(vmlinux, n);
    lemma_stub_segments(p, n);
}

} // verus!
