//! Packing a vmlinux down to the bytes that its loader reads: the ELF header, the program headers
//! and each segment's file contents, back to back. What lies between the segments, the section
//! headers and the symbol tables are dropped.

use crate::bytes::{le_bytes, overwrite, push_u64, resize, zeros};
use crate::elf::{
    e_phnum, e_phoff, elf_error, is_elf, is_load, is_other, is_segment, lemma_phdr_ok, p_data,
    p_filesz, p_offset, p_type, phdr, read_elf, Segment, EHDR_SIZE, PHDR_SIZE, PT_LOAD,
};
use vstd::prelude::*;
use vstd::slice::slice_subrange;

verus! {

/// Alignment of the segments' data within a packed file.
pub const DATA_ALIGN: usize = 16;

/// `n` rounded up to the alignment of segment data.
pub open spec fn aligned(n: nat) -> nat {
    (n + 15) / 16 * 16
}

/// The zero bytes that take a file of `n` bytes to the alignment of segment data.
pub open spec fn padding(n: nat) -> Seq<u8> {
    zeros((aligned(n) - n) as nat)
}

/// Where the program header table of a packed file ends: right behind the ELF header and the
/// headers of `b`.
pub open spec fn table_end(b: Seq<u8>) -> nat {
    64 + 56 * e_phnum(b)
}

/// What follows the program headers in the packed file once the `PT_LOAD` segments among the first
/// `i` are placed, each at the next aligned offset.
pub open spec fn loads_data(b: Seq<u8>, i: nat) -> Seq<u8>
    decreases i,
{
    if i == 0 {
        Seq::empty()
    } else {
        let before = loads_data(b, (i - 1) as nat);
        if is_load(b, i - 1) {
            before + padding(table_end(b) + before.len()) + p_data(b, i - 1)
        } else {
            before
        }
    }
}

/// Where the packed file has the data of the `PT_LOAD` segment `i`.
pub open spec fn load_offset(b: Seq<u8>, i: int) -> nat {
    aligned(table_end(b) + loads_data(b, i as nat).len())
}

/// The file contents of segment `i` lie within those of the `PT_LOAD` segment `j`.
pub open spec fn contains_segment(b: Seq<u8>, j: int, i: int) -> bool {
    &&& is_load(b, j)
    &&& p_offset(b, j) <= p_offset(b, i)
    &&& p_offset(b, i) + p_filesz(b, i) <= p_offset(b, j) + p_filesz(b, j)
}

/// The first `PT_LOAD` segment from `j` on that contains segment `i`.
pub open spec fn container_from(b: Seq<u8>, i: int, j: nat) -> Option<int>
    decreases e_phnum(b) - j,
{
    if j >= e_phnum(b) {
        None
    } else if contains_segment(b, j as int, i) {
        Some(j as int)
    } else {
        container_from(b, i, j + 1)
    }
}

/// The first `PT_LOAD` segment that contains segment `i`.
pub open spec fn container(b: Seq<u8>, i: int) -> Option<int> {
    container_from(b, i, 0)
}

/// What follows the program headers in the packed file once all `PT_LOAD` segments are placed, and
/// behind them those of the first `i` other segments that no `PT_LOAD` segment contains.
pub open spec fn segments_data(b: Seq<u8>, i: nat) -> Seq<u8>
    decreases i,
{
    if i == 0 {
        loads_data(b, e_phnum(b))
    } else {
        let before = segments_data(b, (i - 1) as nat);
        if is_other(b, i - 1) && container(b, i - 1) is None {
            before + padding(table_end(b) + before.len()) + p_data(b, i - 1)
        } else {
            before
        }
    }
}

/// Where the packed file has the file contents of segment `i`; zero where it has none. A segment
/// within a `PT_LOAD` segment moves with it.
pub open spec fn new_offset(b: Seq<u8>, i: int) -> nat {
    if p_filesz(b, i) == 0 {
        0
    } else if p_type(b, i) == 1 {
        load_offset(b, i)
    } else {
        match container(b, i) {
            Some(j) => (load_offset(b, j) + (p_offset(b, i) - p_offset(b, j))) as nat,
            None => aligned(table_end(b) + segments_data(b, i as nat).len()),
        }
    }
}

/// The ELF header of the packed file: that of `b`, with the program headers right behind it and
/// without section headers.
pub open spec fn packed_ehdr(b: Seq<u8>) -> Seq<u8> {
    b.subrange(0, 32) + le_bytes(64, 8) + zeros(8) + b.subrange(48, 58) + zeros(6)
}

/// Program header `ph` with the offset `offset`.
pub open spec fn with_offset(ph: Seq<u8>, offset: nat) -> Seq<u8> {
    ph.subrange(0, 8) + le_bytes(offset, 8) + ph.subrange(16, 56)
}

/// The first `i` program headers of the packed file: those of `b`, each with its new offset.
pub open spec fn packed_phdrs(b: Seq<u8>, i: nat) -> Seq<u8>
    decreases i,
{
    if i == 0 {
        Seq::empty()
    } else {
        packed_phdrs(b, (i - 1) as nat) + with_offset(phdr(b, i - 1), new_offset(b, i - 1))
    }
}

/// The packed file.
pub open spec fn packed(b: Seq<u8>) -> Seq<u8> {
    packed_ehdr(b) + packed_phdrs(b, e_phnum(b)) + segments_data(b, e_phnum(b))
}

pub(crate) proof fn lemma_loads_data_grows(b: Seq<u8>, i: nat, j: nat)
    requires
        i <= j,
    ensures
        loads_data(b, i).len() <= loads_data(b, j).len(),
        loads_data(b, j).take(loads_data(b, i).len() as int) == loads_data(b, i),
    decreases j - i,
{
    if i < j {
        lemma_loads_data_grows(b, i, (j - 1) as nat);
        assert(loads_data(b, j).take(loads_data(b, i).len() as int) =~= loads_data(
            b,
            (j - 1) as nat,
        ).take(loads_data(b, i).len() as int));
    } else {
        assert(loads_data(b, j).take(loads_data(b, i).len() as int) =~= loads_data(b, i));
    }
}

pub(crate) proof fn lemma_load_end(b: Seq<u8>, j: int)
    requires
        is_elf(b),
        0 <= j < e_phnum(b),
        is_load(b, j),
    ensures
        load_offset(b, j) + p_filesz(b, j) == table_end(b) + loads_data(b, (j + 1) as nat).len(),
        load_offset(b, j) + p_filesz(b, j) <= table_end(b) + loads_data(b, e_phnum(b)).len(),
{
    lemma_phdr_ok(b, 0, j);
    lemma_loads_data_grows(b, (j + 1) as nat, e_phnum(b));
}

pub(crate) proof fn lemma_packed_phdrs_len(b: Seq<u8>, i: nat)
    requires
        is_elf(b),
        i <= e_phnum(b),
    ensures
        packed_phdrs(b, i).len() == 56 * i,
    decreases i,
{
    if i > 0 {
        lemma_packed_phdrs_len(b, (i - 1) as nat);
        crate::bytes::lemma_le_bytes_len(new_offset(b, i - 1), 8);
    }
}

/// Appends `data` at the next aligned offset, which it returns.
pub(crate) fn place(out: &mut Vec<u8>, data: &[u8]) -> (at: usize)
    ensures
        final(out)@ == old(out)@ + padding(old(out)@.len()) + data@,
        at == aligned(old(out)@.len()),
{
    let ghost before = out@;
    while out.len() % DATA_ALIGN != 0
        invariant
            before.len() <= out@.len() <= aligned(before.len()),
            out@ == before + zeros((out@.len() - before.len()) as nat),
        decreases aligned(before.len()) - out@.len(),
    {
        out.push(0u8);
        assert(out@ =~= before + zeros((out@.len() - before.len()) as nat));
    }
    assert(out@.len() == aligned(before.len()));
    let at = out.len();
    out.extend_from_slice(data);
    assert(out@ =~= before + padding(before.len()) + data@);
    at
}

fn place_loads(b: &[u8], segs: &Vec<Segment>, out: &mut Vec<u8>) -> (offsets: Vec<usize>)
    requires
        is_elf(b@),
        segs@.len() == e_phnum(b@),
        forall|i: int| 0 <= i < segs@.len() ==> is_segment(#[trigger] segs@[i], b@, i),
        old(out)@.len() == table_end(b@),
    ensures
        final(out)@ == old(out)@ + loads_data(b@, e_phnum(b@)),
        offsets@.len() == e_phnum(b@),
        forall|i: int|
            0 <= i < offsets@.len() ==> #[trigger] offsets@[i] == (if is_load(b@, i) {
                load_offset(b@, i)
            } else {
                0
            }),
{
    let ghost head = out@;
    let n = segs.len();
    let mut offsets: Vec<usize> = Vec::with_capacity(n);
    let mut i: usize = 0;
    assert(out@ =~= head + loads_data(b@, 0));
    while i < n
        invariant
            i <= n,
            n == segs@.len(),
            is_elf(b@),
            segs@.len() == e_phnum(b@),
            forall|k: int| 0 <= k < segs@.len() ==> is_segment(#[trigger] segs@[k], b@, k),
            head.len() == table_end(b@),
            out@ == head + loads_data(b@, i as nat),
            offsets@.len() == i,
            forall|k: int|
                0 <= k < i ==> #[trigger] offsets@[k] == (if is_load(b@, k) {
                    load_offset(b@, k)
                } else {
                    0
                }),
        decreases n - i,
    {
        let seg = segs[i];
        assert(is_segment(segs@[i as int], b@, i as int));
        assert(b@.len() == b.len());
        if seg.p_type == PT_LOAD && seg.filesz > 0 {
            let data = slice_subrange(b, seg.offset, seg.offset + seg.filesz);
            let at = place(out, data);
            offsets.push(at);
            assert(out@ =~= head + loads_data(b@, (i + 1) as nat));
        } else {
            offsets.push(0);
        }
        i = i + 1;
    }
    offsets
}

/// Where the packed file has segment `i` by way of the first `PT_LOAD` segment that contains it.
fn within_load(b: &[u8], segs: &Vec<Segment>, offsets: &Vec<usize>, i: usize, end: usize) -> (res:
    Option<usize>)
    requires
        is_elf(b@),
        segs@.len() == e_phnum(b@),
        forall|k: int| 0 <= k < segs@.len() ==> is_segment(#[trigger] segs@[k], b@, k),
        offsets@.len() == segs@.len(),
        forall|k: int|
            0 <= k < segs@.len() && is_load(b@, k) ==> #[trigger] offsets@[k] == load_offset(b@, k),
        i < segs@.len(),
        segs@[i as int].filesz > 0,
        table_end(b@) + loads_data(b@, e_phnum(b@)).len() <= end,
    ensures
        match res {
            Some(at) => container(b@, i as int) matches Some(j) && at == load_offset(b@, j) + (
            p_offset(b@, i as int) - p_offset(b@, j)),
            None => container(b@, i as int) is None,
        },
{
    assert(is_segment(segs@[i as int], b@, i as int));
    assert(b@.len() == b.len());
    let seg = segs[i];
    let n = segs.len();
    let mut j: usize = 0;
    while j < n
        invariant
            j <= n,
            n == segs@.len(),
            i < n,
            is_elf(b@),
            b@.len() == b.len(),
            segs@.len() == e_phnum(b@),
            forall|k: int| 0 <= k < segs@.len() ==> is_segment(#[trigger] segs@[k], b@, k),
            offsets@.len() == segs@.len(),
            forall|k: int|
                0 <= k < segs@.len() && is_load(b@, k) ==> #[trigger] offsets@[k] == load_offset(
                    b@,
                    k,
                ),
            is_segment(seg, b@, i as int),
            seg.filesz > 0,
            table_end(b@) + loads_data(b@, e_phnum(b@)).len() <= end,
            container(b@, i as int) == container_from(b@, i as int, j as nat),
        decreases n - j,
    {
        let s = segs[j];
        assert(is_segment(segs@[j as int], b@, j as int));
        if s.p_type == PT_LOAD && s.filesz > 0 && seg.offset >= s.offset && seg.offset + seg.filesz
            <= s.offset + s.filesz {
            proof {
                lemma_load_end(b@, j as int);
            }
            return Some(offsets[j] + (seg.offset - s.offset));
        }
        j = j + 1;
    }
    None
}

fn place_others(b: &[u8], segs: &Vec<Segment>, offsets: &mut Vec<usize>, out: &mut Vec<u8>)
    requires
        is_elf(b@),
        segs@.len() == e_phnum(b@),
        forall|i: int| 0 <= i < segs@.len() ==> is_segment(#[trigger] segs@[i], b@, i),
        old(offsets)@.len() == e_phnum(b@),
        forall|i: int|
            0 <= i < segs@.len() ==> #[trigger] old(offsets)@[i] == (if is_load(b@, i) {
                load_offset(b@, i)
            } else {
                0
            }),
        exists|head: Seq<u8>|
            head.len() == table_end(b@) && #[trigger] (head + loads_data(b@, e_phnum(b@))) == old(
                out,
            )@,
    ensures
        final(out)@ == old(out)@.take(table_end(b@) as int) + segments_data(b@, e_phnum(b@)),
        final(offsets)@.len() == e_phnum(b@),
        forall|i: int|
            0 <= i < segs@.len() ==> #[trigger] final(offsets)@[i] == new_offset(b@, i),
{
    let ghost head = out@.take(table_end(b@) as int);
    let n = segs.len();
    let mut i: usize = 0;
    assert(out@ =~= head + segments_data(b@, 0));
    while i < n
        invariant
            i <= n,
            n == segs@.len(),
            is_elf(b@),
            segs@.len() == e_phnum(b@),
            forall|k: int| 0 <= k < segs@.len() ==> is_segment(#[trigger] segs@[k], b@, k),
            head.len() == table_end(b@),
            out@ == head + segments_data(b@, i as nat),
            loads_data(b@, e_phnum(b@)).len() <= segments_data(b@, i as nat).len(),
            offsets@.len() == n,
            forall|k: int|
                0 <= k < segs@.len() && is_load(b@, k) ==> #[trigger] offsets@[k] == load_offset(
                    b@,
                    k,
                ),
            forall|k: int| 0 <= k < i ==> #[trigger] offsets@[k] == new_offset(b@, k),
            forall|k: int|
                i <= k < n ==> #[trigger] offsets@[k] == (if is_load(b@, k) {
                    load_offset(b@, k)
                } else {
                    0
                }),
        decreases n - i,
    {
        let seg = segs[i];
        assert(is_segment(segs@[i as int], b@, i as int));
        assert(b@.len() == b.len());
        if seg.p_type != PT_LOAD && seg.filesz > 0 {
            let at = match within_load(b, segs, offsets, i, out.len()) {
                Some(at) => at,
                None => place(
                    out,
                    slice_subrange(b, seg.offset, seg.offset + seg.filesz),
                ),
            };
            offsets.set(i, at);
        }
        assert(out@ =~= head + segments_data(b@, (i + 1) as nat));
        i = i + 1;
    }
}

fn packed_header(b: &[u8], phnum: usize) -> (out: Vec<u8>)
    requires
        b@.len() >= 64,
        phnum == e_phnum(b@),
        phnum <= 0xffff,
    ensures
        out@ == packed_ehdr(b@) + zeros((56 * phnum) as nat),
        packed_ehdr(b@).len() == 64,
{
    proof {
        crate::bytes::lemma_le_bytes_len(64, 8);
    }
    let mut out: Vec<u8> = Vec::with_capacity(EHDR_SIZE + phnum * PHDR_SIZE);
    out.extend_from_slice(slice_subrange(b, 0, 32));
    push_u64(&mut out, EHDR_SIZE as u64);
    push_u64(&mut out, 0);
    out.extend_from_slice(slice_subrange(b, 48, 58));
    resize(&mut out, EHDR_SIZE + phnum * PHDR_SIZE);
    proof {
        reveal_with_fuel(le_bytes, 9);
        assert(le_bytes(0, 8) =~= zeros(8));
        assert(out@ =~= packed_ehdr(b@) + zeros((56 * phnum) as nat));
    }
    out
}

fn write_phdrs(b: &[u8], phoff: usize, offsets: &Vec<usize>, out: &mut Vec<u8>)
    requires
        is_elf(b@),
        phoff == e_phoff(b@),
        offsets@.len() == e_phnum(b@),
        offsets@.len() <= 0xffff,
        phoff + offsets@.len() * 56 <= b@.len(),
        forall|i: int| 0 <= i < offsets@.len() ==> #[trigger] offsets@[i] == new_offset(b@, i),
        old(out)@.len() >= table_end(b@),
    ensures
        final(out)@ == old(out)@.take(64) + packed_phdrs(b@, e_phnum(b@)) + old(out)@.skip(
            table_end(b@) as int,
        ),
{
    let ghost start = out@;
    let n = offsets.len();
    let mut i: usize = 0;
    assert(out@ =~= start.take(64) + packed_phdrs(b@, 0) + start.skip(64));
    while i < n
        invariant
            i <= n,
            n == offsets@.len(),
            n <= 0xffff,
            is_elf(b@),
            phoff == e_phoff(b@),
            offsets@.len() == e_phnum(b@),
            phoff + offsets@.len() * 56 <= b@.len(),
            forall|k: int| 0 <= k < offsets@.len() ==> #[trigger] offsets@[k] == new_offset(b@, k),
            start.len() >= table_end(b@),
            packed_phdrs(b@, i as nat).len() == 56 * i,
            out@ == start.take(64) + packed_phdrs(b@, i as nat) + start.skip(64 + 56 * i),
        decreases n - i,
    {
        assert(b@.len() == b.len());
        let src = phoff + i * PHDR_SIZE;
        let mut ph: Vec<u8> = Vec::with_capacity(PHDR_SIZE);
        ph.extend_from_slice(slice_subrange(b, src, src + 8));
        push_u64(&mut ph, offsets[i] as u64);
        ph.extend_from_slice(slice_subrange(b, src + 16, src + PHDR_SIZE));
        proof {
            lemma_packed_phdrs_len(b@, (i + 1) as nat);
            assert(ph@ =~= with_offset(phdr(b@, i as int), new_offset(b@, i as int)));
        }
        overwrite(out, EHDR_SIZE + i * PHDR_SIZE, ph.as_slice());
        assert(out@ =~= start.take(64) + packed_phdrs(b@, (i + 1) as nat) + start.skip(
            64 + 56 * (i + 1),
        ));
        i = i + 1;
    }
}

/// Returns `vmlinux` packed, or an error if it isn't a 64-bit little-endian ELF file with sane
/// program headers.
pub fn pack_vmlinux(vmlinux: &[u8]) -> (res: Result<Vec<u8>, String>)
    ensures
        match res {
            Ok(out) => is_elf(vmlinux@) && out@ == packed(vmlinux@),
            Err(m) => elf_error(vmlinux@) == Some(m@),
        },
{
    let (phoff, segs) = match read_elf(vmlinux) {
        Ok(v) => v,
        Err(m) => return Err(m),
    };
    let mut out = packed_header(vmlinux, segs.len());
    let mut offsets = place_loads(vmlinux, &segs, &mut out);
    place_others(vmlinux, &segs, &mut offsets, &mut out);
    write_phdrs(vmlinux, phoff, &offsets, &mut out);
    assert(out@ =~= packed(vmlinux@));
    Ok(out)
}

} // verus!
