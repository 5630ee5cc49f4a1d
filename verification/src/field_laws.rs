//! What the fields of files and messages are, byte by byte and character by character.

use crate::bytes::{le_at, le_bytes, lemma_le8, resized, word, zeros};
use crate::elf::{
    e_phentsize, e_phnum, e_phoff, elf_error, is_elf, is_load, is_other, lemma_phdr_ok,
    lemma_phdrs_ok, p_data, p_filesz, p_offset, p_paddr, p_type, phdr, phdr_error, too_wide,
};
use crate::text::{all_digits, decimal, digits, digits_value, hexadecimal, is_digit};
use vstd::prelude::*;

verus! {

/// Integers in byte buffers are little-endian: the byte at `off` is the least significant one.
pub proof fn law_integers_are_little_endian(b: Seq<u8>, off: int)
    requires
        0 <= off,
    ensures
        off + 2 <= b.len() ==> le_at(b, off, 2) == b[off] + 0x100 * b[off + 1],
        off + 4 <= b.len() ==> le_at(b, off, 4) == b[off] + 0x100 * b[off + 1] + 0x1_0000 * b[off
            + 2] + 0x100_0000 * b[off + 3],
        off + 8 <= b.len() ==> le_at(b, off, 8) == b[off] + 0x100 * b[off + 1] + 0x1_0000 * b[off
            + 2] + 0x100_0000 * b[off + 3] + 0x1_0000_0000 * b[off + 4] + 0x100_0000_0000 * b[off
            + 5] + 0x1_0000_0000_0000 * b[off + 6] + 0x100_0000_0000_0000 * b[off + 7],
{
    if off + 2 <= b.len() {
        lemma_le_step(b, off, 2);
        lemma_le_step(b, off + 1, 1);
        lemma_le_step(b, off + 2, 0);
    }
    if off + 4 <= b.len() {
        lemma_le_step(b, off, 4);
        lemma_le_step(b, off + 1, 3);
        lemma_le_step(b, off + 2, 2);
        lemma_le_step(b, off + 3, 1);
        lemma_le_step(b, off + 4, 0);
    }
    if off + 8 <= b.len() {
        lemma_le_step(b, off, 8);
        lemma_le_step(b, off + 1, 7);
        lemma_le_step(b, off + 2, 6);
        lemma_le_step(b, off + 3, 5);
        lemma_le_step(b, off + 4, 4);
        lemma_le_step(b, off + 5, 3);
        lemma_le_step(b, off + 6, 2);
        lemma_le_step(b, off + 7, 1);
        lemma_le_step(b, off + 8, 0);
    }
}

proof fn lemma_le_step(b: Seq<u8>, off: int, n: int)
    requires
        0 <= off,
        0 <= n,
        off + n <= b.len(),
    ensures
        n == 0 ==> le_at(b, off, n) == 0,
        n > 0 ==> le_at(b, off, n) == b[off] + 256 * le_at(b, off + 1, n - 1),
{
    if n > 0 {
        assert(b.subrange(off, off + n).skip(1) =~= b.subrange(off + 1, off + n));
    }
}

/// The eight bytes of a 64-bit integer read back as the integer, and those of a number as a `usize`.
pub proof fn law_integers_read_back(v: u64, before: Seq<u8>, after: Seq<u8>)
    ensures
        le_bytes(v as nat, 8).len() == 8,
        le_at(before + le_bytes(v as nat, 8) + after, before.len() as int, 8) == v,
        v <= usize::MAX ==> word(before + le_bytes(v as nat, 8) + after, before.len() as int) == v,
{
    lemma_le8(v as nat);
    let s = before + le_bytes(v as nat, 8) + after;
    assert(s.subrange(before.len() as int, before.len() as int + 8) =~= le_bytes(v as nat, 8));
}

/// A word is the 64-bit integer at its offset, where that fits in `usize`.
pub proof fn law_word_is_the_integer(s: Seq<u8>, off: int)
    requires
        0 <= off,
        off + 8 <= s.len(),
        le_at(s, off, 8) <= usize::MAX,
    ensures
        word(s, off) == le_at(s, off, 8),
{
}

/// Zero bytes are zero, and resizing keeps what there is room for and fills up with zeros.
pub proof fn law_resizing(s: Seq<u8>, n: nat)
    ensures
        zeros(n).len() == n,
        forall|k: int| 0 <= k < n ==> #[trigger] zeros(n)[k] == 0,
        resized(s, n).len() == n,
        forall|k: int|
            0 <= k < n ==> #[trigger] resized(s, n)[k] == (if k < s.len() {
                s[k]
            } else {
                0
            }),
{
}

/// A decimal digit is one of the characters from `0` to `9`.
pub proof fn law_decimal_digits(c: char, s: Seq<char>)
    ensures
        is_digit(c) <==> 0x30 <= c as int <= 0x39,
        all_digits(s) <==> (forall|i: int| 0 <= i < s.len() ==> '0' <= #[trigger] s[i] <= '9'),
{
    if forall|i: int| 0 <= i < s.len() ==> '0' <= #[trigger] s[i] <= '9' {
        assert forall|i: int| 0 <= i < s.len() implies is_digit(#[trigger] s[i]) by {
            assert('0' <= s[i] <= '9');
        }
    }
}

/// Each digit behind others makes the number ten times as large and adds its own value.
pub proof fn law_digits_count_in_tens(s: Seq<char>, c: char)
    requires
        '0' <= c <= '9',
    ensures
        digits_value(Seq::empty()) == 0,
        digits_value(s.push(c)) == 10 * digits_value(s) + (c as int - '0' as int),
{
    assert(s.push(c).drop_last() =~= s);
}

/// A number in decimal has no leading zero, unless it is zero.
pub proof fn law_decimal_has_no_leading_zero(n: nat)
    ensures
        decimal(n).len() > 0,
        n > 0 ==> decimal(n)[0] != '0',
        n == 0 ==> decimal(n) == seq!['0'],
    decreases n,
{
    if n >= 10 {
        law_decimal_has_no_leading_zero(n / 10);
        assert(decimal(n)[0] == decimal(n / 10)[0]);
    }
}

/// The value of a hexadecimal digit.
pub open spec fn hex_value(c: char) -> int {
    if '0' <= c <= '9' {
        c as int - '0' as int
    } else {
        c as int - 'a' as int + 10
    }
}

/// The value of hexadecimal digits.
pub open spec fn hex_digits_value(s: Seq<char>) -> int
    decreases s.len(),
{
    if s.len() == 0 {
        0
    } else {
        16 * hex_digits_value(s.drop_last()) + hex_value(s.last())
    }
}

proof fn lemma_hex_digits(n: nat)
    ensures
        digits(n, 16).len() > 0,
        forall|i: int|
            0 <= i < digits(n, 16).len() ==> '0' <= #[trigger] digits(n, 16)[i] <= '9' || 'a'
                <= digits(n, 16)[i] <= 'f',
        hex_digits_value(digits(n, 16)) == n,
        n > 0 ==> digits(n, 16)[0] != '0',
    decreases n,
{
    let s = digits(n, 16);
    if n < 16 {
        assert(s.drop_last() =~= Seq::empty());
        assert(hex_digits_value(Seq::<char>::empty()) == 0);
    } else {
        lemma_hex_digits(n / 16);
        let before = digits(n / 16, 16);
        assert(s.drop_last() =~= before);
        assert(s[0] == before[0]);
        assert forall|i: int| 0 <= i < s.len() implies '0' <= #[trigger] s[i] <= '9' || 'a' <= s[i]
            <= 'f' by {
            if i < before.len() {
                assert(s[i] == before[i]);
            }
        }
    }
}

/// A number in hexadecimal is `0x` and then lower-case digits, without a leading zero, that write the
/// number.
pub proof fn law_hexadecimal_reads_back(n: nat)
    ensures
        hexadecimal(n).len() > 2,
        hexadecimal(n)[0] == '0',
        hexadecimal(n)[1] == 'x',
        forall|i: int|
            2 <= i < hexadecimal(n).len() ==> '0' <= #[trigger] hexadecimal(n)[i] <= '9' || 'a'
                <= hexadecimal(n)[i] <= 'f',
        hex_digits_value(hexadecimal(n).skip(2)) == n,
        n > 0 ==> hexadecimal(n)[2] != '0',
{
    reveal_strlit("0x");
    lemma_hex_digits(n);
    let h = hexadecimal(n);
    assert(h.skip(2) =~= digits(n, 16));
    assert forall|i: int| 2 <= i < h.len() implies '0' <= #[trigger] h[i] <= '9' || 'a' <= h[i]
        <= 'f' by {
        assert(h[i] == digits(n, 16)[i - 2]);
    }
}

/// The fields of the ELF header are the bytes that the ELF format has for them.
pub proof fn law_elf_header_fields(b: Seq<u8>)
    requires
        b.len() >= 64,
    ensures
        e_phoff(b) == b[32] + 0x100 * b[33] + 0x1_0000 * b[34] + 0x100_0000 * b[35] + 0x1_0000_0000
            * b[36] + 0x100_0000_0000 * b[37] + 0x1_0000_0000_0000 * b[38] + 0x100_0000_0000_0000
            * b[39],
        e_phentsize(b) == b[54] + 0x100 * b[55],
        e_phnum(b) == b[56] + 0x100 * b[57],
{
    law_integers_are_little_endian(b, 32);
    law_integers_are_little_endian(b, 54);
    law_integers_are_little_endian(b, 56);
}

/// The fields of program header `i` are the bytes that the ELF format has for them: the headers stand
/// one after the other, 56 bytes each, from `e_phoff` on.
pub proof fn law_program_header_fields(b: Seq<u8>, i: int)
    requires
        0 <= i,
        e_phoff(b) + 56 * i + 56 <= b.len(),
    ensures
        ({
            let at = e_phoff(b) + 56 * i;
            &&& phdr(b, i).len() == 56
            &&& forall|k: int| 0 <= k < 56 ==> #[trigger] phdr(b, i)[k] == b[at + k]
            &&& p_type(b, i) == le_at(b, at, 4)
            &&& p_offset(b, i) == le_at(b, at + 8, 8)
            &&& p_paddr(b, i) == le_at(b, at + 24, 8)
            &&& p_filesz(b, i) == le_at(b, at + 32, 8)
        }),
        is_load(b, i) <==> p_type(b, i) == 1 && p_filesz(b, i) != 0,
        is_other(b, i) <==> p_type(b, i) != 1 && p_filesz(b, i) != 0,
{
    let at = e_phoff(b) + 56 * i;
    let ph = phdr(b, i);
    assert(ph.subrange(0, 4) =~= b.subrange(at, at + 4));
    assert(ph.subrange(8, 16) =~= b.subrange(at + 8, at + 16));
    assert(ph.subrange(24, 32) =~= b.subrange(at + 24, at + 32));
    assert(ph.subrange(32, 40) =~= b.subrange(at + 32, at + 40));
}

/// The file contents of a segment are the `p_filesz` bytes of the file from `p_offset` on.
pub proof fn law_segment_contents(b: Seq<u8>, i: int)
    requires
        p_offset(b, i) + p_filesz(b, i) <= b.len(),
    ensures
        p_data(b, i).len() == p_filesz(b, i),
        forall|k: int|
            0 <= k < p_filesz(b, i) ==> #[trigger] p_data(b, i)[k] == b[p_offset(b, i) + k],
{
}

/// Program header `i` is usable: its fields fit in `usize`, and its file contents in the file.
pub open spec fn usable(b: Seq<u8>, i: int) -> bool {
    &&& p_offset(b, i) <= usize::MAX
    &&& p_filesz(b, i) <= usize::MAX
    &&& p_filesz(b, i) != 0 ==> p_offset(b, i) + p_filesz(b, i) <= b.len()
}

/// A file is taken for an ELF file with sane program headers exactly if it starts with the ELF magic,
/// is 64 bits wide and little-endian, has program headers of 56 bytes that lie within the file, and
/// every one of them has its file contents within the file.
pub proof fn law_what_an_elf_file_is(b: Seq<u8>)
    ensures
        is_elf(b) <==> {
            &&& b.len() >= 64
            &&& b[0] == 0x7f && b[1] == 0x45 && b[2] == 0x4c && b[3] == 0x46
            &&& b[4] == 2 && b[5] == 1
            &&& le_at(b, 32, 8) <= usize::MAX
            &&& le_at(b, 54, 2) == 56
            &&& le_at(b, 32, 8) + 56 * le_at(b, 56, 2) <= b.len()
            &&& forall|i: int|
                0 <= i < le_at(b, 56, 2) ==> {
                    &&& #[trigger] p_offset(b, i) <= usize::MAX
                    &&& p_filesz(b, i) <= usize::MAX
                    &&& p_filesz(b, i) != 0 ==> p_offset(b, i) + p_filesz(b, i) <= b.len()
                }
        },
{
    if b.len() >= 64 {
        let m = b.subrange(0, 4);
        assert(m[0] == b[0] && m[1] == b[1] && m[2] == b[2] && m[3] == b[3]);
        assert(m =~= seq![0x7fu8, 0x45u8, 0x4cu8, 0x46u8] <==> b[0] == 0x7f && b[1] == 0x45 && b[2]
            == 0x4c && b[3] == 0x46);
    }
    if is_elf(b) {
        assert forall|i: int| 0 <= i < le_at(b, 56, 2) implies {
            &&& #[trigger] p_offset(b, i) <= usize::MAX
            &&& p_filesz(b, i) <= usize::MAX
            &&& p_filesz(b, i) != 0 ==> p_offset(b, i) + p_filesz(b, i) <= b.len()
        } by {
            lemma_phdr_ok(b, 0, i);
        }
    } else if forall|i: int|
        0 <= i < le_at(b, 56, 2) ==> {
            &&& #[trigger] p_offset(b, i) <= usize::MAX
            &&& p_filesz(b, i) <= usize::MAX
            &&& p_filesz(b, i) != 0 ==> p_offset(b, i) + p_filesz(b, i) <= b.len()
        } {
        lemma_phdrs_ok(b, 0);
    }
}

/// A file that is too short or does not start with the ELF magic is no ELF file, and one of another
/// class or byte order is not a 64-bit little-endian one, whatever else is wrong with it.
pub proof fn law_errors_of_the_identification(b: Seq<u8>)
    ensures
        b.len() < 64 || b[0] != 0x7f || b[1] != 0x45 || b[2] != 0x4c || b[3] != 0x46 ==> elf_error(b)
            == Some("not an ELF file"@),
        b.len() >= 64 && b[0] == 0x7f && b[1] == 0x45 && b[2] == 0x4c && b[3] == 0x46 && (b[4] != 2
            || b[5] != 1) ==> elf_error(b) == Some("not a 64-bit little-endian ELF"@),
{
    if b.len() >= 64 {
        let m = b.subrange(0, 4);
        assert(m[0] == b[0] && m[1] == b[1] && m[2] == b[2] && m[3] == b[3]);
        assert(m =~= seq![0x7fu8, 0x45u8, 0x4cu8, 0x46u8] <==> b[0] == 0x7f && b[1] == 0x45 && b[2]
            == 0x4c && b[3] == 0x46);
    }
}

/// Of a 64-bit little-endian ELF file, the first thing that is wrong with where its program headers are
/// is what is said of it.
pub proof fn law_errors_of_the_table(b: Seq<u8>)
    requires
        b.len() >= 64,
        b[0] == 0x7f && b[1] == 0x45 && b[2] == 0x4c && b[3] == 0x46 && b[4] == 2 && b[5] == 1,
    ensures
        le_at(b, 32, 8) > usize::MAX ==> elf_error(b) == Some(
            "e_phoff "@ + hexadecimal(le_at(b, 32, 8)) + " doesn't fit in usize"@,
        ),
        le_at(b, 32, 8) <= usize::MAX && le_at(b, 54, 2) != 56 ==> elf_error(b) == Some(
            "unexpected e_phentsize "@ + decimal(le_at(b, 54, 2)),
        ),
        le_at(b, 32, 8) <= usize::MAX && le_at(b, 54, 2) == 56 && le_at(b, 32, 8) + 56 * le_at(
            b,
            56,
            2,
        ) > b.len() ==> elf_error(b) == Some("program headers run past end of file"@),
{
    let m = b.subrange(0, 4);
    assert(m =~= seq![0x7fu8, 0x45u8, 0x4cu8, 0x46u8]);
    reveal_strlit("e_phoff");
    reveal_strlit(" ");
    reveal_strlit("e_phoff ");
    assert("e_phoff"@ + " "@ =~= "e_phoff "@);
}

proof fn lemma_first_bad_header(b: Seq<u8>, from: nat, i: int)
    requires
        from <= i < e_phnum(b),
        forall|j: int| from <= j < i ==> #[trigger] usable(b, j),
    ensures
        phdr_error(b, from) == phdr_error(b, i as nat),
    decreases i - from,
{
    if from < i {
        assert(usable(b, from as int));
        lemma_first_bad_header(b, from + 1, i);
    }
}

/// Of program headers that lie within the file, the first that is not usable is the one that is named,
/// with what is wrong with it.
pub proof fn law_errors_of_a_header(b: Seq<u8>, i: int)
    requires
        b.len() >= 64,
        b[0] == 0x7f && b[1] == 0x45 && b[2] == 0x4c && b[3] == 0x46 && b[4] == 2 && b[5] == 1,
        le_at(b, 32, 8) <= usize::MAX,
        le_at(b, 54, 2) == 56,
        le_at(b, 32, 8) + 56 * le_at(b, 56, 2) <= b.len(),
        0 <= i < le_at(b, 56, 2),
        forall|j: int| 0 <= j < i ==> #[trigger] usable(b, j),
    ensures
        p_offset(b, i) > usize::MAX ==> elf_error(b) == Some(
            "p_offset "@ + hexadecimal(p_offset(b, i)) + " doesn't fit in usize"@,
        ),
        p_offset(b, i) <= usize::MAX && p_filesz(b, i) > usize::MAX ==> elf_error(b) == Some(
            "p_filesz "@ + hexadecimal(p_filesz(b, i)) + " doesn't fit in usize"@,
        ),
        p_offset(b, i) <= usize::MAX && 0 < p_filesz(b, i) <= usize::MAX && p_offset(b, i)
            + p_filesz(b, i) > b.len() ==> elf_error(b) == Some(
            "program header "@ + decimal(i as nat) + " runs past end of file"@,
        ),
{
    let m = b.subrange(0, 4);
    assert(m =~= seq![0x7fu8, 0x45u8, 0x4cu8, 0x46u8]);
    lemma_first_bad_header(b, 0, i);
    reveal_strlit("p_offset");
    reveal_strlit("p_filesz");
    reveal_strlit(" ");
    reveal_strlit("p_offset ");
    reveal_strlit("p_filesz ");
    assert("p_offset"@ + " "@ =~= "p_offset "@);
    assert("p_filesz"@ + " "@ =~= "p_filesz "@);
}

/// What is said of a field that is too wide names the field and gives its value in hexadecimal.
pub proof fn law_too_wide_names_the_field(what: Seq<char>, v: nat)
    ensures
        too_wide(what, v) == what + " "@ + hexadecimal(v) + " doesn't fit in usize"@,
{
}

} // verus!
