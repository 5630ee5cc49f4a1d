//! Where everything stands in packed files, byte by byte: the ELF header, the program headers, the
//! segments' contents, and the padding between them.

use crate::bytes::{le_at, le_bytes, lemma_le8};
use crate::elf::{
    e_phnum, e_phoff, is_elf, is_load, lemma_phdr_ok, p_data, p_filesz, p_offset, p_type, phdr,
};
use crate::pack_laws::{
    law_packing_keeps_segments, lemma_container_facts, lemma_new_data, lemma_packed_header,
    lemma_segments_data_grows,
};
use crate::vmlinux_pack::{
    aligned, container, contains_segment, lemma_load_end, lemma_loads_data_grows, load_offset,
    loads_data, new_offset, packed, packed_ehdr, segments_data, table_end, with_offset,
};
use vstd::prelude::*;

verus! {

/// `e_entry`: where the kernel starts.
pub open spec fn e_entry(b: Seq<u8>) -> nat {
    le_at(b, 24, 8)
}

/// The packed file has the ELF header of the unpacked one, the entry point with it: all that is
/// rewritten says where the program headers are, which is right behind the ELF header, and that there
/// are no section headers.
pub proof fn law_packing_keeps_the_elf_header(b: Seq<u8>)
    requires
        is_elf(b),
    ensures
        packed(b).len() >= 64 + 56 * e_phnum(b),
        forall|k: int|
            0 <= k < 64 ==> #[trigger] packed(b)[k] == (if k < 32 || 48 <= k < 58 {
                b[k]
            } else if k == 32 {
                64
            } else {
                0
            }),
        packed(b).subrange(0, 32) == b.subrange(0, 32),
        packed(b).subrange(48, 58) == b.subrange(48, 58),
        e_entry(packed(b)) == e_entry(b),
{
    let p = packed(b);
    lemma_packed_header(b);
    lemma_le8(64);
    reveal_with_fuel(le_bytes, 9);
    assert(le_bytes(64, 8) =~= seq![64u8, 0, 0, 0, 0, 0, 0, 0]);
    assert(p.take(64) =~= packed_ehdr(b));
    assert forall|k: int| 0 <= k < 64 implies #[trigger] p[k] == (if k < 32 || 48 <= k < 58 {
        b[k]
    } else if k == 32 {
        64
    } else {
        0
    }) by {
        assert(p[k] == packed_ehdr(b)[k]);
    }
    assert(p.subrange(0, 32) =~= b.subrange(0, 32));
    assert(p.subrange(48, 58) =~= b.subrange(48, 58));
    assert(p.subrange(24, 32) =~= b.subrange(24, 32));
}

/// The packed file has the program headers of the unpacked one, in order and right behind the ELF
/// header: every byte of them but for the offset of the segment's contents. A segment without contents
/// has the offset zero.
pub proof fn law_packing_keeps_program_headers(b: Seq<u8>, i: int)
    requires
        is_elf(b),
        packed(b).len() <= usize::MAX,
        0 <= i < e_phnum(b),
    ensures
        forall|k: int|
            0 <= k < 56 && !(8 <= k < 16) ==> #[trigger] packed(b)[64 + 56 * i + k] == b[e_phoff(b)
                + 56 * i + k],
        p_filesz(b, i) == 0 ==> le_at(packed(b), 64 + 56 * i + 8, 8) == 0,
{
    let p = packed(b);
    lemma_packed_header(b);
    law_packing_keeps_segments(b, i);
    let ph = phdr(p, i);
    assert(ph == with_offset(phdr(b, i), new_offset(b, i)));
    crate::bytes::lemma_le_bytes_len(new_offset(b, i), 8);
    assert forall|k: int| 0 <= k < 56 && !(8 <= k < 16) implies #[trigger] p[64 + 56 * i + k]
        == b[e_phoff(b) + 56 * i + k] by {
        assert(ph[k] == p[64 + 56 * i + k]);
        assert(ph[k] == phdr(b, i)[k]);
    }
    assert(ph.subrange(8, 16) =~= p.subrange(64 + 56 * i + 8, 64 + 56 * i + 16));
}

/// Segment `i` is a `PT_LOAD` with file contents.
pub open spec fn loads_bytes(b: Seq<u8>, i: int) -> bool {
    0 <= i < e_phnum(b) && p_type(b, i) == 1 && p_filesz(b, i) != 0
}

/// The file contents of segment `i` lie within those of the `PT_LOAD` segment `j`.
pub open spec fn lies_in(b: Seq<u8>, i: int, j: int) -> bool {
    &&& loads_bytes(b, j)
    &&& p_offset(b, j) <= p_offset(b, i)
    &&& p_offset(b, i) + p_filesz(b, i) <= p_offset(b, j) + p_filesz(b, j)
}

/// Segment `i` is no `PT_LOAD`, has file contents, and no `PT_LOAD` segment contains them.
pub open spec fn stands_alone(b: Seq<u8>, i: int) -> bool {
    &&& 0 <= i < e_phnum(b)
    &&& p_type(b, i) != 1
    &&& p_filesz(b, i) != 0
    &&& forall|j: int| !#[trigger] lies_in(b, i, j)
}

/// Where the contents of segment `i` end in the packed file.
pub open spec fn packed_end(b: Seq<u8>, i: int) -> nat {
    p_offset(packed(b), i) + p_filesz(b, i)
}

proof fn lemma_loads_bytes(b: Seq<u8>, i: int)
    requires
        is_elf(b),
        0 <= i < e_phnum(b),
    ensures
        loads_bytes(b, i) <==> is_load(b, i),
{
}

proof fn lemma_last_load(b: Seq<u8>, i: nat)
    requires
        is_elf(b),
        packed(b).len() <= usize::MAX,
        i <= e_phnum(b),
    ensures
        loads_data(b, i).len() == 0 || exists|j: int|
            0 <= j < i && #[trigger] loads_bytes(b, j) && packed_end(b, j) == table_end(b)
                + loads_data(b, i).len(),
    decreases i,
{
    if i > 0 {
        lemma_last_load(b, (i - 1) as nat);
        if is_load(b, i - 1) {
            lemma_load_end(b, i - 1);
            law_packing_keeps_segments(b, i - 1);
            assert(loads_bytes(b, i - 1));
        }
    }
}

proof fn lemma_load_offset(b: Seq<u8>, i: int)
    requires
        is_elf(b),
        packed(b).len() <= usize::MAX,
        loads_bytes(b, i),
    ensures
        p_offset(packed(b), i) == aligned(table_end(b) + loads_data(b, i as nat).len()),
{
    law_packing_keeps_segments(b, i);
}

proof fn lemma_earlier_load(b: Seq<u8>, j: int, i: int)
    requires
        is_elf(b),
        packed(b).len() <= usize::MAX,
        loads_bytes(b, j),
        j < i,
    ensures
        packed_end(b, j) <= table_end(b) + loads_data(b, i as nat).len(),
{
    law_packing_keeps_segments(b, j);
    lemma_load_end(b, j);
    lemma_loads_data_grows(b, (j + 1) as nat, i as nat);
}

/// The contents of the `PT_LOAD` segments stand behind the program headers, in order, each at the next
/// multiple of 16: right behind the program headers, or behind an earlier one.
#[verifier::rlimit(40)]
pub proof fn law_loads_are_laid_out_in_order(b: Seq<u8>, i: int)
    requires
        is_elf(b),
        packed(b).len() <= usize::MAX,
        loads_bytes(b, i),
    ensures
        p_offset(packed(b), i) % 16 == 0,
        p_offset(packed(b), i) >= 64 + 56 * e_phnum(b),
        forall|j: int|
            j < i && #[trigger] loads_bytes(b, j) ==> packed_end(b, j) <= p_offset(packed(b), i),
        p_offset(packed(b), i) < 64 + 56 * e_phnum(b) + 16 || exists|j: int|
            j < i && #[trigger] loads_bytes(b, j) && p_offset(packed(b), i) < packed_end(b, j) + 16,
{
    let off = p_offset(packed(b), i);
    let len = loads_data(b, i as nat).len();
    lemma_load_offset(b, i);
    assert(table_end(b) + len <= off < table_end(b) + len + 16);
    assert forall|j: int| j < i && #[trigger] loads_bytes(b, j) implies packed_end(b, j) <= off by {
        lemma_earlier_load(b, j, i);
    }
    lemma_last_load(b, i as nat);
    if len != 0 {
        let j = choose|j: int|
            0 <= j < i && #[trigger] loads_bytes(b, j) && packed_end(b, j) == table_end(b) + len;
        assert(loads_bytes(b, j));
    }
}

/// A segment whose contents lie within a `PT_LOAD` segment is at the same place within it, of the
/// first one that contains it.
pub proof fn law_contained_segments_move_along(b: Seq<u8>, i: int, j: int)
    requires
        is_elf(b),
        packed(b).len() <= usize::MAX,
        0 <= i < e_phnum(b),
        p_type(b, i) != 1,
        p_filesz(b, i) != 0,
        lies_in(b, i, j),
        forall|k: int| k < j ==> !#[trigger] lies_in(b, i, k),
    ensures
        p_offset(packed(b), i) - p_offset(packed(b), j) == p_offset(b, i) - p_offset(b, j),
{
    law_packing_keeps_segments(b, i);
    law_packing_keeps_segments(b, j);
    lemma_container_facts(b, i, 0);
    assert(contains_segment(b, j, i));
    if let Some(c) = container(b, i) {
        assert(contains_segment(b, c, i));
        assert(lies_in(b, i, c));
        if j < c {
            assert(!contains_segment(b, j, i));
        }
    }
}

proof fn lemma_stands_alone(b: Seq<u8>, i: int)
    requires
        is_elf(b),
        0 <= i < e_phnum(b),
        p_type(b, i) != 1,
        p_filesz(b, i) != 0,
    ensures
        stands_alone(b, i) <==> container(b, i) is None,
{
    lemma_container_facts(b, i, 0);
    if let Some(c) = container(b, i) {
        assert(contains_segment(b, c, i));
        assert(lies_in(b, i, c));
    } else {
        assert forall|j: int| !#[trigger] lies_in(b, i, j) by {
            if lies_in(b, i, j) {
                assert(!contains_segment(b, j, i));
            }
        }
    }
}

proof fn lemma_alone_end(b: Seq<u8>, j: int)
    requires
        is_elf(b),
        packed(b).len() <= usize::MAX,
        stands_alone(b, j),
    ensures
        packed_end(b, j) == table_end(b) + segments_data(b, (j + 1) as nat).len(),
{
    law_packing_keeps_segments(b, j);
    lemma_stands_alone(b, j);
    lemma_phdr_ok(b, 0, j);
}

#[verifier::rlimit(40)]
proof fn lemma_last_segment(b: Seq<u8>, i: nat)
    requires
        is_elf(b),
        packed(b).len() <= usize::MAX,
        i <= e_phnum(b),
    ensures
        segments_data(b, i).len() == 0 || exists|j: int|
            (#[trigger] loads_bytes(b, j) || (j < i && stands_alone(b, j))) && packed_end(b, j)
                == table_end(b) + segments_data(b, i).len(),
    decreases i,
{
    if i == 0 {
        lemma_last_load(b, e_phnum(b));
    } else {
        let before = segments_data(b, (i - 1) as nat);
        lemma_last_segment(b, (i - 1) as nat);
        if p_type(b, i - 1) != 1 && p_filesz(b, i - 1) != 0 {
            lemma_stands_alone(b, i - 1);
        }
        if stands_alone(b, i - 1) {
            lemma_alone_end(b, i - 1);
            assert(!loads_bytes(b, i - 1));
            assert(packed_end(b, i - 1) == table_end(b) + segments_data(b, i).len());
        } else {
            assert(segments_data(b, i) == before);
            if before.len() != 0 {
                let j = choose|j: int|
                    (#[trigger] loads_bytes(b, j) || (j < i - 1 && stands_alone(b, j)))
                        && packed_end(b, j) == table_end(b) + before.len();
                assert(loads_bytes(b, j) || stands_alone(b, j));
            }
        }
    }
}

proof fn lemma_alone_offset(b: Seq<u8>, i: int)
    requires
        is_elf(b),
        packed(b).len() <= usize::MAX,
        stands_alone(b, i),
    ensures
        p_offset(packed(b), i) == aligned(table_end(b) + segments_data(b, i as nat).len()),
{
    law_packing_keeps_segments(b, i);
    lemma_stands_alone(b, i);
}

proof fn lemma_load_before(b: Seq<u8>, j: int, i: int)
    requires
        is_elf(b),
        packed(b).len() <= usize::MAX,
        loads_bytes(b, j),
        0 <= i,
    ensures
        packed_end(b, j) <= table_end(b) + segments_data(b, i as nat).len(),
{
    law_packing_keeps_segments(b, j);
    lemma_load_end(b, j);
    lemma_segments_data_grows(b, 0, i as nat);
}

proof fn lemma_alone_before(b: Seq<u8>, j: int, i: int)
    requires
        is_elf(b),
        packed(b).len() <= usize::MAX,
        stands_alone(b, j),
        j < i,
    ensures
        packed_end(b, j) <= table_end(b) + segments_data(b, i as nat).len(),
{
    lemma_alone_end(b, j);
    lemma_segments_data_grows(b, (j + 1) as nat, i as nat);
}

/// The contents of the other segments that no `PT_LOAD` contains stand behind those of all `PT_LOAD`
/// segments, in order, each at the next multiple of 16.
#[verifier::rlimit(40)]
pub proof fn law_others_are_laid_out_in_order(b: Seq<u8>, i: int)
    requires
        is_elf(b),
        packed(b).len() <= usize::MAX,
        stands_alone(b, i),
    ensures
        p_offset(packed(b), i) % 16 == 0,
        p_offset(packed(b), i) >= 64 + 56 * e_phnum(b),
        forall|j: int| #[trigger]
            loads_bytes(b, j) ==> packed_end(b, j) <= p_offset(packed(b), i),
        forall|j: int|
            j < i && #[trigger] stands_alone(b, j) ==> packed_end(b, j) <= p_offset(packed(b), i),
        p_offset(packed(b), i) < 64 + 56 * e_phnum(b) + 16 || exists|j: int|
            (#[trigger] loads_bytes(b, j) || (j < i && stands_alone(b, j))) && p_offset(
                packed(b),
                i,
            ) < packed_end(b, j) + 16,
{
    let off = p_offset(packed(b), i);
    let len = segments_data(b, i as nat).len();
    lemma_alone_offset(b, i);
    assert(table_end(b) + len <= off < table_end(b) + len + 16);
    assert forall|j: int| #[trigger] loads_bytes(b, j) implies packed_end(b, j) <= off by {
        lemma_load_before(b, j, i);
    }
    assert forall|j: int| j < i && #[trigger] stands_alone(b, j) implies packed_end(b, j) <= off by {
        lemma_alone_before(b, j, i);
    }
    lemma_last_segment(b, i as nat);
    if len != 0 {
        let j = choose|j: int|
            (#[trigger] loads_bytes(b, j) || (j < i && stands_alone(b, j))) && packed_end(b, j)
                == table_end(b) + len;
        assert(loads_bytes(b, j) || (j < i && stands_alone(b, j)));
    }
}

/// Nothing stands behind the last segment's contents: the packed file ends with the program headers or
/// with the contents of a segment.
pub proof fn law_packed_file_ends_with_a_segment(b: Seq<u8>)
    requires
        is_elf(b),
        packed(b).len() <= usize::MAX,
    ensures
        forall|i: int|
            0 <= i < e_phnum(b) && p_filesz(b, i) != 0 ==> #[trigger] packed_end(b, i)
                <= packed(b).len(),
        packed(b).len() == 64 + 56 * e_phnum(b) || exists|i: int|
            0 <= i < e_phnum(b) && p_filesz(b, i) != 0 && #[trigger] packed_end(b, i) == packed(
                b,
            ).len(),
{
    lemma_packed_header(b);
    assert forall|i: int| 0 <= i < e_phnum(b) && p_filesz(b, i) != 0 implies #[trigger] packed_end(
        b,
        i,
    ) <= packed(b).len() by {
        law_packing_keeps_segments(b, i);
        lemma_new_data(b, i);
    }
    lemma_last_segment(b, e_phnum(b));
}

proof fn lemma_gap_in_loads(b: Seq<u8>, i: nat, q: int)
    requires
        is_elf(b),
        i <= e_phnum(b),
        0 <= q < loads_data(b, i).len(),
        forall|j: int|
            0 <= j < i && #[trigger] loads_bytes(b, j) ==> !(load_offset(b, j) <= table_end(b) + q
                < load_offset(b, j) + p_filesz(b, j)),
    ensures
        loads_data(b, i)[q] == 0,
    decreases i,
{
    let before = loads_data(b, (i - 1) as nat);
    if q < before.len() {
        lemma_gap_in_loads(b, (i - 1) as nat, q);
    } else {
        assert(is_load(b, i - 1));
        lemma_phdr_ok(b, 0, i - 1);
        assert(loads_bytes(b, i - 1));
    }
}

#[verifier::rlimit(40)]
proof fn lemma_gap(b: Seq<u8>, i: nat, q: int)
    requires
        is_elf(b),
        packed(b).len() <= usize::MAX,
        i <= e_phnum(b),
        0 <= q < segments_data(b, i).len(),
        forall|j: int|
            0 <= j < e_phnum(b) && p_filesz(b, j) != 0 ==> !(p_offset(packed(b), j) <= table_end(b)
                + q < #[trigger] packed_end(b, j)),
    ensures
        segments_data(b, i)[q] == 0,
    decreases i,
{
    if i == 0 {
        assert forall|j: int| 0 <= j < e_phnum(b) && #[trigger] loads_bytes(b, j) implies !(
        load_offset(b, j) <= table_end(b) + q < load_offset(b, j) + p_filesz(b, j)) by {
            law_packing_keeps_segments(b, j);
            assert(!(p_offset(packed(b), j) <= table_end(b) + q < packed_end(b, j)));
        }
        lemma_gap_in_loads(b, e_phnum(b), q);
    } else {
        let before = segments_data(b, (i - 1) as nat);
        if q < before.len() {
            lemma_gap(b, (i - 1) as nat, q);
        } else {
            lemma_phdr_ok(b, 0, i - 1);
            law_packing_keeps_segments(b, i - 1);
            assert(!(p_offset(packed(b), i - 1) <= table_end(b) + q < packed_end(b, i - 1)));
        }
    }
}

/// What stands between the program headers and the contents of the segments, and between those, is
/// zero.
pub proof fn law_padding_is_zero(b: Seq<u8>, at: int)
    requires
        is_elf(b),
        packed(b).len() <= usize::MAX,
        64 + 56 * e_phnum(b) <= at < packed(b).len(),
        forall|j: int|
            0 <= j < e_phnum(b) && p_filesz(b, j) != 0 ==> !(p_offset(packed(b), j) <= at
                < #[trigger] packed_end(b, j)),
    ensures
        packed(b)[at] == 0,
{
    lemma_packed_header(b);
    let q = at - table_end(b);
    assert(packed(b)[at] == packed(b).skip(table_end(b) as int)[q]);
    lemma_gap(b, e_phnum(b), q);
}

/// The contents of a segment are, byte by byte, the same in the packed file as in the unpacked one.
pub proof fn law_packing_keeps_contents(b: Seq<u8>, i: int, k: int)
    requires
        is_elf(b),
        packed(b).len() <= usize::MAX,
        0 <= i < e_phnum(b),
        0 <= k < p_filesz(b, i),
    ensures
        p_offset(b, i) + p_filesz(b, i) <= b.len(),
        p_offset(packed(b), i) + p_filesz(b, i) <= packed(b).len(),
        packed(b)[p_offset(packed(b), i) + k] == b[p_offset(b, i) + k],
{
    lemma_phdr_ok(b, 0, i);
    lemma_new_data(b, i);
    law_packing_keeps_segments(b, i);
    assert(p_data(packed(b), i)[k] == p_data(b, i)[k]);
}

} // verus!
