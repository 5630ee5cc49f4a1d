//! The 64-bit little-endian ELF header and program header table.

use crate::bytes::{le_at, u16_at, u32_at, u64_at};
use crate::text::{hexadecimal, message, message_with, push_hexadecimal};
use vstd::prelude::*;
use vstd::string::StringExecFns;

verus! {

/// Size of the ELF header.
pub const EHDR_SIZE: usize = 64;

/// Size of a program header.
pub const PHDR_SIZE: usize = 56;

/// The type of a program header whose segment is loaded.
pub const PT_LOAD: u32 = 1;

/// `e_phoff`: where the program header table starts.
pub open spec fn e_phoff(b: Seq<u8>) -> nat {
    le_at(b, 32, 8)
}

/// `e_phentsize`: the size of a program header.
pub open spec fn e_phentsize(b: Seq<u8>) -> nat {
    le_at(b, 54, 2)
}

/// `e_phnum`: the number of program headers.
pub open spec fn e_phnum(b: Seq<u8>) -> nat {
    le_at(b, 56, 2)
}

/// The bytes of program header `i`.
pub open spec fn phdr(b: Seq<u8>, i: int) -> Seq<u8> {
    b.subrange(e_phoff(b) + i * 56, e_phoff(b) + i * 56 + 56)
}

/// `p_type` of program header `i`.
pub open spec fn p_type(b: Seq<u8>, i: int) -> nat {
    le_at(phdr(b, i), 0, 4)
}

/// `p_offset` of program header `i`: where the segment's file contents start.
pub open spec fn p_offset(b: Seq<u8>, i: int) -> nat {
    le_at(phdr(b, i), 8, 8)
}

/// `p_paddr` of program header `i`: where the segment goes in guest memory.
pub open spec fn p_paddr(b: Seq<u8>, i: int) -> nat {
    le_at(phdr(b, i), 24, 8)
}

/// `p_filesz` of program header `i`: how many bytes the segment has in the file.
pub open spec fn p_filesz(b: Seq<u8>, i: int) -> nat {
    le_at(phdr(b, i), 32, 8)
}

/// The file contents of the segment of program header `i`.
pub open spec fn p_data(b: Seq<u8>, i: int) -> Seq<u8> {
    b.subrange(p_offset(b, i) as int, (p_offset(b, i) + p_filesz(b, i)) as int)
}

/// Program header `i` is a `PT_LOAD` with file contents.
pub open spec fn is_load(b: Seq<u8>, i: int) -> bool {
    p_type(b, i) == 1 && p_filesz(b, i) > 0
}

/// Program header `i` is not a `PT_LOAD`, and has file contents.
pub open spec fn is_other(b: Seq<u8>, i: int) -> bool {
    p_type(b, i) != 1 && p_filesz(b, i) > 0
}

/// What is said of a field `what` whose value `v` does not fit in `usize`.
pub open spec fn too_wide(what: Seq<char>, v: nat) -> Seq<char> {
    what + " "@ + hexadecimal(v) + " doesn't fit in usize"@
}

/// What keeps the program headers from `i` on from being usable, if anything does: the first of
/// them with a field that does not fit in `usize`, or with file contents past the end of the file.
pub open spec fn phdr_error(b: Seq<u8>, i: nat) -> Option<Seq<char>>
    decreases e_phnum(b) - i,
{
    if i >= e_phnum(b) {
        None
    } else if p_offset(b, i as int) > usize::MAX {
        Some(too_wide("p_offset"@, p_offset(b, i as int)))
    } else if p_filesz(b, i as int) > usize::MAX {
        Some(too_wide("p_filesz"@, p_filesz(b, i as int)))
    } else if p_filesz(b, i as int) > 0 && p_offset(b, i as int) + p_filesz(b, i as int) > b.len() {
        Some("program header "@ + crate::text::decimal(i) + " runs past end of file"@)
    } else {
        phdr_error(b, i + 1)
    }
}

/// What keeps `b` from being a 64-bit little-endian ELF file with sane program headers, if
/// anything does.
pub open spec fn elf_error(b: Seq<u8>) -> Option<Seq<char>> {
    if b.len() < 64 || b.subrange(0, 4) != seq![0x7fu8, 0x45u8, 0x4cu8, 0x46u8] {
        Some("not an ELF file"@)
    } else if b[4] != 2 || b[5] != 1 {
        Some("not a 64-bit little-endian ELF"@)
    } else if e_phoff(b) > usize::MAX {
        Some(too_wide("e_phoff"@, e_phoff(b)))
    } else if e_phentsize(b) != 56 {
        Some("unexpected e_phentsize "@ + crate::text::decimal(e_phentsize(b)))
    } else if e_phoff(b) + e_phnum(b) * 56 > b.len() {
        Some("program headers run past end of file"@)
    } else {
        phdr_error(b, 0)
    }
}

/// `b` is a 64-bit little-endian ELF file with sane program headers.
pub open spec fn is_elf(b: Seq<u8>) -> bool {
    elf_error(b) is None
}

/// `v` as a `usize`, or a message that names the field `what` where it does not fit.
pub fn to_usize(v: u64, what: &str) -> (res: Result<usize, String>)
    ensures
        match res {
            Ok(n) => n == v,
            Err(m) => v > usize::MAX && m@ == too_wide(what@, v as nat),
        },
{
    if v <= usize::MAX as u64 {
        Ok(v as usize)
    } else {
        let mut m = String::from_str(what);
        m.append(" ");
        push_hexadecimal(&mut m, v);
        m.append(" doesn't fit in usize");
        Err(m)
    }
}

/// What the packing reads of a program header.
#[derive(Clone, Copy)]
pub(crate) struct Segment {
    pub p_type: u32,
    pub offset: usize,
    pub filesz: usize,
}

/// `seg` holds the fields of program header `i`.
pub(crate) open spec fn is_segment(seg: Segment, b: Seq<u8>, i: int) -> bool {
    &&& seg.p_type == p_type(b, i)
    &&& seg.offset == p_offset(b, i)
    &&& seg.filesz == p_filesz(b, i)
    &&& seg.filesz > 0 ==> seg.offset + seg.filesz <= b.len()
}

/// If nothing is wrong with the program headers from `from` on, nothing is wrong with header `i`.
pub(crate) proof fn lemma_phdr_ok(b: Seq<u8>, from: nat, i: int)
    requires
        phdr_error(b, from) is None,
        from <= i < e_phnum(b),
    ensures
        p_offset(b, i) <= usize::MAX,
        p_filesz(b, i) <= usize::MAX,
        p_filesz(b, i) > 0 ==> p_offset(b, i) + p_filesz(b, i) <= b.len(),
    decreases i - from,
{
    if from < i {
        lemma_phdr_ok(b, from + 1, i);
    }
}

/// If each program header from `from` on is usable, nothing is wrong with them.
pub(crate) proof fn lemma_phdrs_ok(b: Seq<u8>, from: nat)
    requires
        forall|i: int|
            from <= i < e_phnum(b) ==> {
                &&& #[trigger] p_offset(b, i) <= usize::MAX
                &&& p_filesz(b, i) <= usize::MAX
                &&& p_filesz(b, i) > 0 ==> p_offset(b, i) + p_filesz(b, i) <= b.len()
            },
    ensures
        phdr_error(b, from) is None,
    decreases e_phnum(b) - from,
{
    if from < e_phnum(b) {
        assert(p_offset(b, from as int) <= usize::MAX);
        lemma_phdrs_ok(b, from + 1);
    }
}

fn read_segments(b: &[u8], phoff: usize, phnum: usize) -> (res: Result<Vec<Segment>, String>)
    requires
        phoff == e_phoff(b@),
        phnum == e_phnum(b@),
        phoff + phnum * 56 <= b@.len(),
    ensures
        match res {
            Ok(segs) => {
                &&& phdr_error(b@, 0) is None
                &&& segs@.len() == phnum
                &&& forall|i: int| 0 <= i < phnum ==> is_segment(#[trigger] segs@[i], b@, i)
            },
            Err(m) => phdr_error(b@, 0) == Some(m@),
        },
{
    let mut segs: Vec<Segment> = Vec::with_capacity(phnum);
    let mut i: usize = 0;
    while i < phnum
        invariant
            i <= phnum,
            phoff == e_phoff(b@),
            phnum == e_phnum(b@),
            phoff + phnum * 56 <= b@.len(),
            phdr_error(b@, 0) == phdr_error(b@, i as nat),
            segs@.len() == i,
            forall|k: int| 0 <= k < i ==> is_segment(#[trigger] segs@[k], b@, k),
        decreases phnum - i,
    {
        assert(b@.len() == b.len());
        let at = phoff + i * PHDR_SIZE;
        let ph = vstd::slice::slice_subrange(b, at, at + PHDR_SIZE);
        assert(ph@ == phdr(b@, i as int));
        let p_type = u32_at(ph, 0);
        let offset = match to_usize(u64_at(ph, 8), "p_offset") {
            Ok(v) => v,
            Err(m) => return Err(m),
        };
        let filesz = match to_usize(u64_at(ph, 32), "p_filesz") {
            Ok(v) => v,
            Err(m) => return Err(m),
        };
        if filesz > 0 && (offset > b.len() || filesz > b.len() - offset) {
            return Err(message_with("program header ", i as u64, " runs past end of file"));
        }
        segs.push(Segment { p_type, offset, filesz });
        i = i + 1;
    }
    Ok(segs)
}

/// The offset of the program header table of `b`, and what its headers say, where `b` is a usable
/// ELF file.
pub(crate) fn read_elf(b: &[u8]) -> (res: Result<(usize, Vec<Segment>), String>)
    ensures
        match res {
            Ok((phoff, segs)) => {
                &&& is_elf(b@)
                &&& phoff == e_phoff(b@)
                &&& segs@.len() == e_phnum(b@)
                &&& segs@.len() <= 0xffff
                &&& phoff + segs@.len() * 56 <= b@.len()
                &&& forall|i: int| 0 <= i < segs@.len() ==> is_segment(#[trigger] segs@[i], b@, i)
            },
            Err(m) => elf_error(b@) == Some(m@),
        },
{
    proof {
        if b@.len() >= 64 {
            let magic = seq![0x7fu8, 0x45u8, 0x4cu8, 0x46u8];
            let m = b@.subrange(0, 4);
            assert(m[0] == b@[0] && m[1] == b@[1] && m[2] == b@[2] && m[3] == b@[3]);
            assert(m =~= magic <==> b@[0] == 0x7f && b@[1] == 0x45 && b@[2] == 0x4c && b@[3]
                == 0x46);
        }
    }
    if b.len() < EHDR_SIZE || b[0] != 0x7f || b[1] != 0x45 || b[2] != 0x4c || b[3] != 0x46 {
        return Err(message("not an ELF file"));
    }
    if b[4] != 2 || b[5] != 1 {
        return Err(message("not a 64-bit little-endian ELF"));
    }
    let phoff = match to_usize(u64_at(b, 32), "e_phoff") {
        Ok(v) => v,
        Err(m) => return Err(m),
    };
    let phentsize = u16_at(b, 54) as usize;
    let phnum = u16_at(b, 56) as usize;
    if phentsize != PHDR_SIZE {
        let m = message_with("unexpected e_phentsize ", phentsize as u64, "");
        proof {
            reveal_strlit("");
            assert(m@ =~= "unexpected e_phentsize "@ + crate::text::decimal(phentsize as nat));
        }
        return Err(m);
    }
    if phoff > b.len() || phnum * PHDR_SIZE > b.len() - phoff {
        return Err(message("program headers run past end of file"));
    }
    match read_segments(b, phoff, phnum) {
        Ok(segs) => Ok((phoff, segs)),
        Err(m) => Err(m),
    }
}

} // verus!
