//! What holds of packed vmlinux files: they are ELF files with the same program headers and the
//! same segment contents as what was packed, and packing them again changes nothing.

use crate::bytes::{le_at, le_bytes, lemma_le8, lemma_le_bytes_len};
use crate::elf::{
    e_phentsize, e_phnum, e_phoff, is_elf, is_load, is_other, lemma_phdr_ok, lemma_phdrs_ok,
    p_data, p_filesz, p_offset, p_paddr, p_type, phdr,
};
use crate::vmlinux_pack::{
    container, container_from, contains_segment, lemma_load_end, lemma_loads_data_grows,
    lemma_packed_phdrs_len, load_offset, loads_data, new_offset, packed, packed_ehdr, packed_phdrs,
    segments_data, table_end, with_offset,
};
use vstd::prelude::*;

verus! {

pub(crate) proof fn lemma_container_facts(b: Seq<u8>, i: int, from: nat)
    ensures
        match container_from(b, i, from) {
            Some(j) => {
                &&& from <= j < e_phnum(b)
                &&& contains_segment(b, j, i)
                &&& forall|k: int| from <= k < j ==> !contains_segment(b, k, i)
            },
            None => forall|k: int| from <= k < e_phnum(b) ==> !contains_segment(b, k, i),
        },
    decreases e_phnum(b) - from,
{
    if from < e_phnum(b) && !contains_segment(b, from as int, i) {
        lemma_container_facts(b, i, from + 1);
    }
}

proof fn lemma_container_is(b: Seq<u8>, i: int, from: nat, j: int)
    requires
        from <= j < e_phnum(b),
        contains_segment(b, j, i),
        forall|k: int| from <= k < j ==> !contains_segment(b, k, i),
    ensures
        container_from(b, i, from) == Some(j),
{
    lemma_container_facts(b, i, from);
}

pub(crate) proof fn lemma_segments_data_grows(b: Seq<u8>, i: nat, j: nat)
    requires
        i <= j,
    ensures
        segments_data(b, i).len() <= segments_data(b, j).len(),
        segments_data(b, j).take(segments_data(b, i).len() as int) == segments_data(b, i),
    decreases j - i,
{
    if i < j {
        lemma_segments_data_grows(b, i, (j - 1) as nat);
        assert(segments_data(b, j).take(segments_data(b, i).len() as int) =~= segments_data(
            b,
            (j - 1) as nat,
        ).take(segments_data(b, i).len() as int));
    } else {
        assert(segments_data(b, j).take(segments_data(b, i).len() as int) =~= segments_data(b, i));
    }
}

proof fn lemma_phdr_in_table(b: Seq<u8>, i: int, n: nat)
    requires
        is_elf(b),
        0 <= i < n <= e_phnum(b),
    ensures
        packed_phdrs(b, n).len() == 56 * n,
        packed_phdrs(b, n).subrange(56 * i, 56 * i + 56) == with_offset(
            phdr(b, i),
            new_offset(b, i),
        ),
    decreases n,
{
    lemma_packed_phdrs_len(b, n);
    lemma_packed_phdrs_len(b, (n - 1) as nat);
    lemma_le_bytes_len(new_offset(b, n - 1), 8);
    let before = packed_phdrs(b, (n - 1) as nat);
    if i < n - 1 {
        lemma_phdr_in_table(b, i, (n - 1) as nat);
        assert(packed_phdrs(b, n).subrange(56 * i, 56 * i + 56) =~= before.subrange(
            56 * i,
            56 * i + 56,
        ));
    } else {
        assert(packed_phdrs(b, n).subrange(56 * i, 56 * i + 56) =~= with_offset(
            phdr(b, i),
            new_offset(b, i),
        ));
    }
}

/// The ELF header of a packed file.
pub(crate) proof fn lemma_packed_header(b: Seq<u8>)
    requires
        is_elf(b),
    ensures
        packed_ehdr(b).len() == 64,
        packed(b).len() == table_end(b) + segments_data(b, e_phnum(b)).len(),
        e_phoff(packed(b)) == 64,
        e_phentsize(packed(b)) == 56,
        e_phnum(packed(b)) == e_phnum(b),
        packed(b).subrange(0, 4) == b.subrange(0, 4),
        packed(b)[4] == b[4],
        packed(b)[5] == b[5],
        forall|i: int|
            0 <= i < e_phnum(b) ==> #[trigger] phdr(packed(b), i) == with_offset(
                phdr(b, i),
                new_offset(b, i),
            ),
        packed(b).skip(table_end(b) as int) == segments_data(b, e_phnum(b)),
{
    let p = packed(b);
    let n = e_phnum(b);
    lemma_le8(64);
    lemma_packed_phdrs_len(b, n);
    assert(p.subrange(32, 40) =~= le_bytes(64, 8));
    assert(p.subrange(54, 56) =~= b.subrange(54, 56));
    assert(p.subrange(56, 58) =~= b.subrange(56, 58));
    assert(p.subrange(0, 4) =~= b.subrange(0, 4));
    assert forall|i: int| 0 <= i < n implies #[trigger] phdr(p, i) == with_offset(
        phdr(b, i),
        new_offset(b, i),
    ) by {
        lemma_phdr_in_table(b, i, n);
        assert(phdr(p, i) =~= packed_phdrs(b, n).subrange(56 * i, 56 * i + 56));
    }
    assert(p.skip(table_end(b) as int) =~= segments_data(b, n));
}

/// Where the segments lie in a packed file, and that they hold what they held.
pub(crate) proof fn lemma_new_data(b: Seq<u8>, i: int)
    requires
        is_elf(b),
        0 <= i < e_phnum(b),
        p_filesz(b, i) > 0,
    ensures
        table_end(b) <= new_offset(b, i),
        new_offset(b, i) + p_filesz(b, i) <= packed(b).len(),
        packed(b).subrange(new_offset(b, i) as int, (new_offset(b, i) + p_filesz(b, i)) as int)
            == p_data(b, i),
{
    let n = e_phnum(b);
    let p = packed(b);
    let tail = segments_data(b, n);
    lemma_packed_header(b);
    lemma_phdr_ok(b, 0, i);
    lemma_segments_data_grows(b, 0, n);
    let at = new_offset(b, i) - table_end(b);
    let len = p_filesz(b, i) as int;
    if p_type(b, i) == 1 {
        lemma_load_data(b, i);
        assert(p.subrange(at + table_end(b), at + table_end(b) + len) =~= tail.subrange(
            at,
            at + len,
        ));
    } else {
        lemma_container_facts(b, i, 0);
        match container(b, i) {
            Some(j) => {
                lemma_phdr_ok(b, 0, j);
                lemma_load_data(b, j);
                let jat = load_offset(b, j) - table_end(b);
                let d = p_offset(b, i) - p_offset(b, j);
                let jdata = tail.subrange(jat, jat + p_filesz(b, j));
                assert(p.subrange(at + table_end(b), at + table_end(b) + len) =~= jdata.subrange(
                    d,
                    d + len,
                ));
                assert(p_data(b, j).subrange(d, d + len) =~= p_data(b, i));
            },
            None => {
                lemma_segments_data_grows(b, (i + 1) as nat, n);
                let upto = segments_data(b, (i + 1) as nat);
                assert(tail.take(upto.len() as int) == upto);
                assert(tail.subrange(at, at + len) =~= upto.subrange(at, at + len));
                assert(upto.subrange(at, at + len) =~= p_data(b, i));
                assert(p.subrange(at + table_end(b), at + table_end(b) + len) =~= tail.subrange(
                    at,
                    at + len,
                ));
            },
        }
    }
}

proof fn lemma_load_data(b: Seq<u8>, j: int)
    requires
        is_elf(b),
        0 <= j < e_phnum(b),
        is_load(b, j),
    ensures
        ({
            let at = load_offset(b, j) - table_end(b);
            let tail = segments_data(b, e_phnum(b));
            &&& 0 <= at
            &&& at + p_filesz(b, j) <= loads_data(b, e_phnum(b)).len() <= tail.len()
            &&& tail.subrange(at, at + p_filesz(b, j)) == p_data(b, j)
        }),
{
    let n = e_phnum(b);
    let tail = segments_data(b, n);
    let loads = loads_data(b, n);
    lemma_phdr_ok(b, 0, j);
    lemma_load_end(b, j);
    lemma_segments_data_grows(b, 0, n);
    lemma_loads_data_grows(b, (j + 1) as nat, n);
    let upto = loads_data(b, (j + 1) as nat);
    let at = load_offset(b, j) - table_end(b);
    let len = p_filesz(b, j) as int;
    assert(loads.take(upto.len() as int) == upto);
    assert(tail.take(loads.len() as int) == loads);
    assert(upto.subrange(at, at + len) =~= p_data(b, j));
    assert(loads.subrange(at, at + len) =~= upto.subrange(at, at + len));
    assert(tail.subrange(at, at + len) =~= loads.subrange(at, at + len));
}

pub(crate) proof fn lemma_with_offset(ph: Seq<u8>, offset: nat)
    requires
        ph.len() == 56,
        offset <= u64::MAX,
    ensures
        with_offset(ph, offset).len() == 56,
        le_at(with_offset(ph, offset), 0, 4) == le_at(ph, 0, 4),
        le_at(with_offset(ph, offset), 8, 8) == offset,
        le_at(with_offset(ph, offset), 24, 8) == le_at(ph, 24, 8),
        le_at(with_offset(ph, offset), 32, 8) == le_at(ph, 32, 8),
        with_offset(with_offset(ph, offset), offset) == with_offset(ph, offset),
{
    lemma_le8(offset);
    let w = with_offset(ph, offset);
    assert(w.subrange(0, 4) =~= ph.subrange(0, 4));
    assert(w.subrange(8, 16) =~= le_bytes(offset, 8));
    assert(w.subrange(24, 32) =~= ph.subrange(24, 32));
    assert(w.subrange(32, 40) =~= ph.subrange(32, 40));
    assert(with_offset(w, offset) =~= w);
}

/// Packing keeps what the loader reads: every program header of the packed file is that of the
/// unpacked one but for its offset, and every segment's file contents are the same bytes.
pub proof fn law_packing_keeps_segments(b: Seq<u8>, i: int)
    requires
        is_elf(b),
        packed(b).len() <= usize::MAX,
        0 <= i < e_phnum(b),
    ensures
        e_phnum(packed(b)) == e_phnum(b),
        phdr(packed(b), i) == with_offset(phdr(b, i), p_offset(packed(b), i)),
        p_type(packed(b), i) == p_type(b, i),
        p_paddr(packed(b), i) == p_paddr(b, i),
        p_filesz(packed(b), i) == p_filesz(b, i),
        p_offset(packed(b), i) == new_offset(b, i),
        p_filesz(b, i) > 0 ==> p_data(packed(b), i) == p_data(b, i),
{
    lemma_packed_header(b);
    if p_filesz(b, i) > 0 {
        lemma_new_data(b, i);
    }
    assert(phdr(packed(b), i) == with_offset(phdr(b, i), new_offset(b, i)));
    lemma_with_offset(phdr(b, i), new_offset(b, i));
}

/// A packed file is an ELF file with sane program headers.
pub proof fn law_packed_is_elf(b: Seq<u8>)
    requires
        is_elf(b),
        packed(b).len() <= usize::MAX,
    ensures
        is_elf(packed(b)),
{
    let p = packed(b);
    lemma_packed_header(b);
    assert forall|i: int| 0 <= i < e_phnum(p) implies {
        &&& #[trigger] p_offset(p, i) <= usize::MAX
        &&& p_filesz(p, i) <= usize::MAX
        &&& p_filesz(p, i) > 0 ==> p_offset(p, i) + p_filesz(p, i) <= p.len()
    } by {
        law_packing_keeps_segments(b, i);
        lemma_phdr_ok(b, 0, i);
        if p_filesz(b, i) > 0 {
            lemma_new_data(b, i);
        }
    }
    lemma_phdrs_ok(p, 0);
}

proof fn lemma_loads_data_of_packed(b: Seq<u8>, i: nat)
    requires
        is_elf(b),
        packed(b).len() <= usize::MAX,
        i <= e_phnum(b),
    ensures
        loads_data(packed(b), i) == loads_data(b, i),
    decreases i,
{
    if i > 0 {
        lemma_loads_data_of_packed(b, (i - 1) as nat);
        law_packing_keeps_segments(b, i - 1);
    }
}

proof fn lemma_container_of_packed(b: Seq<u8>, i: int)
    requires
        is_elf(b),
        packed(b).len() <= usize::MAX,
        0 <= i < e_phnum(b),
        is_other(b, i),
    ensures
        container(packed(b), i) == container(b, i),
{
    let p = packed(b);
    let n = e_phnum(b);
    law_packing_keeps_segments(b, i);
    lemma_container_facts(b, i, 0);
    match container(b, i) {
        Some(j) => {
            law_packing_keeps_segments(b, j);
            assert forall|k: int| 0 <= k < j implies !contains_segment(p, k, i) by {
                law_packing_keeps_segments(b, k);
                if is_load(b, k) {
                    lemma_load_end(b, k);
                    lemma_loads_data_grows(b, (k + 1) as nat, j as nat);
                }
            }
            lemma_container_is(p, i, 0, j);
        },
        None => {
            lemma_segments_data_grows(b, 0, i as nat);
            assert forall|k: int| 0 <= k < n implies !contains_segment(p, k, i) by {
                law_packing_keeps_segments(b, k);
                if is_load(b, k) {
                    lemma_load_end(b, k);
                }
            }
            lemma_container_facts(p, i, 0);
        },
    }
}

proof fn lemma_segments_data_of_packed(b: Seq<u8>, i: nat)
    requires
        is_elf(b),
        packed(b).len() <= usize::MAX,
        i <= e_phnum(b),
    ensures
        segments_data(packed(b), i) == segments_data(b, i),
    decreases i,
{
    let p = packed(b);
    lemma_packed_header(b);
    if i == 0 {
        lemma_loads_data_of_packed(b, e_phnum(b));
    } else {
        lemma_segments_data_of_packed(b, (i - 1) as nat);
        law_packing_keeps_segments(b, i - 1);
        if is_other(b, i - 1) {
            lemma_container_of_packed(b, i - 1);
        }
    }
}

proof fn lemma_new_offset_of_packed(b: Seq<u8>, i: int)
    requires
        is_elf(b),
        packed(b).len() <= usize::MAX,
        0 <= i < e_phnum(b),
    ensures
        new_offset(packed(b), i) == new_offset(b, i),
{
    lemma_packed_header(b);
    law_packing_keeps_segments(b, i);
    if p_filesz(b, i) > 0 {
        lemma_loads_data_of_packed(b, i as nat);
        lemma_segments_data_of_packed(b, i as nat);
        if is_other(b, i) {
            lemma_container_of_packed(b, i);
            lemma_container_facts(b, i, 0);
            if let Some(j) = container(b, i) {
                lemma_loads_data_of_packed(b, j as nat);
                law_packing_keeps_segments(b, j);
            }
        }
    }
}

proof fn lemma_packed_phdrs_of_packed(b: Seq<u8>, i: nat)
    requires
        is_elf(b),
        packed(b).len() <= usize::MAX,
        i <= e_phnum(b),
    ensures
        packed_phdrs(packed(b), i) == packed_phdrs(b, i),
    decreases i,
{
    if i > 0 {
        lemma_packed_phdrs_of_packed(b, (i - 1) as nat);
        lemma_packed_header(b);
        law_packing_keeps_segments(b, i - 1);
        lemma_new_offset_of_packed(b, i - 1);
        if p_filesz(b, i - 1) > 0 {
            lemma_new_data(b, i - 1);
        }
        assert(phdr(packed(b), i - 1) == with_offset(phdr(b, i - 1), new_offset(b, i - 1)));
        lemma_with_offset(phdr(b, i - 1), new_offset(b, i - 1));
    }
}

/// Packing is idempotent: packing a packed file returns it unchanged.
pub proof fn law_packing_is_idempotent(b: Seq<u8>)
    requires
        is_elf(b),
        packed(b).len() <= usize::MAX,
    ensures
        is_elf(packed(b)),
        packed(packed(b)) == packed(b),
{
    let p = packed(b);
    law_packed_is_elf(b);
    lemma_packed_header(b);
    lemma_le8(64);
    assert(packed_ehdr(p) =~= packed_ehdr(b)) by {
        assert(p.subrange(0, 32) =~= b.subrange(0, 32));
        assert(p.subrange(48, 58) =~= b.subrange(48, 58));
    }
    lemma_packed_phdrs_of_packed(b, e_phnum(b));
    lemma_segments_data_of_packed(b, e_phnum(b));
}

/// `a` and `b` agree in all that a loader reads: in the ELF header but for what it says of where the
/// program headers and the section headers are, in the program headers, and in the segments' file
/// contents.
pub open spec fn loads_alike(a: Seq<u8>, b: Seq<u8>) -> bool {
    &&& a.subrange(0, 32) == b.subrange(0, 32)
    &&& a.subrange(48, 58) == b.subrange(48, 58)
    &&& forall|i: int|
        0 <= i < e_phnum(a) ==> {
            &&& #[trigger] phdr(a, i) == phdr(b, i)
            &&& p_filesz(a, i) > 0 ==> p_data(a, i) == p_data(b, i)
        }
}

proof fn lemma_alike_phnum(a: Seq<u8>, b: Seq<u8>)
    requires
        is_elf(a),
        is_elf(b),
        a.subrange(48, 58) == b.subrange(48, 58),
    ensures
        e_phnum(a) == e_phnum(b),
{
    assert(a.subrange(56, 58) =~= a.subrange(48, 58).subrange(8, 10));
    assert(b.subrange(56, 58) =~= b.subrange(48, 58).subrange(8, 10));
}

proof fn lemma_alike_loads(a: Seq<u8>, b: Seq<u8>, i: nat)
    requires
        is_elf(a),
        is_elf(b),
        loads_alike(a, b),
        i <= e_phnum(a),
    ensures
        loads_data(a, i) == loads_data(b, i),
    decreases i,
{
    lemma_alike_phnum(a, b);
    if i > 0 {
        lemma_alike_loads(a, b, (i - 1) as nat);
        assert(phdr(a, i - 1) == phdr(b, i - 1));
    }
}

proof fn lemma_alike_container(a: Seq<u8>, b: Seq<u8>, i: int, from: nat)
    requires
        is_elf(a),
        is_elf(b),
        loads_alike(a, b),
        0 <= i < e_phnum(a),
    ensures
        container_from(a, i, from) == container_from(b, i, from),
    decreases e_phnum(a) - from,
{
    lemma_alike_phnum(a, b);
    if from < e_phnum(a) {
        lemma_alike_container(a, b, i, from + 1);
        assert(phdr(a, i) == phdr(b, i));
        assert(phdr(a, from as int) == phdr(b, from as int));
    }
}

proof fn lemma_alike_segments(a: Seq<u8>, b: Seq<u8>, i: nat)
    requires
        is_elf(a),
        is_elf(b),
        loads_alike(a, b),
        i <= e_phnum(a),
    ensures
        segments_data(a, i) == segments_data(b, i),
    decreases i,
{
    lemma_alike_phnum(a, b);
    if i == 0 {
        lemma_alike_loads(a, b, e_phnum(a));
    } else {
        lemma_alike_segments(a, b, (i - 1) as nat);
        lemma_alike_container(a, b, i - 1, 0);
        assert(phdr(a, i - 1) == phdr(b, i - 1));
    }
}

proof fn lemma_alike_phdrs(a: Seq<u8>, b: Seq<u8>, i: nat)
    requires
        is_elf(a),
        is_elf(b),
        loads_alike(a, b),
        i <= e_phnum(a),
    ensures
        packed_phdrs(a, i) == packed_phdrs(b, i),
    decreases i,
{
    if i > 0 {
        let k = i - 1;
        lemma_alike_phnum(a, b);
        lemma_alike_phdrs(a, b, k as nat);
        lemma_alike_container(a, b, k, 0);
        lemma_alike_loads(a, b, k as nat);
        lemma_alike_segments(a, b, k as nat);
        assert(phdr(a, k) == phdr(b, k));
        lemma_container_facts(a, k, 0);
        if let Some(j) = container(a, k) {
            lemma_alike_loads(a, b, j as nat);
            assert(phdr(a, j) == phdr(b, j));
        }
    }
}

/// Packing drops everything that a loader does not read: files that agree in what it reads are
/// packed to the same bytes, whatever else they hold.
pub proof fn law_packing_drops_everything_else(a: Seq<u8>, b: Seq<u8>)
    requires
        is_elf(a),
        is_elf(b),
        loads_alike(a, b),
    ensures
        packed(a) == packed(b),
{
    lemma_alike_phnum(a, b);
    lemma_alike_phdrs(a, b, e_phnum(a));
    lemma_alike_segments(a, b, e_phnum(a));
}

} // verus!
