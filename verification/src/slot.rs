//! Slots: the sections of the launcher that hold its vmlinux, its initrd and its configuration, and
//! patching new contents into them. A slot is the length of its contents, in eight little-endian
//! bytes, the contents, and zero padding up to the capacity of the slot.

use crate::bytes::{le_at, le_bytes, lemma_le8, push_u64, resize, resized, u64_at, word, zeros};
use crate::object_file::{find_section, object_error, parse_object, section_range};
use crate::text::{
    all_digits, decimal, digits_value, lemma_digits_value_prefix, message, push_decimal,
};
use vstd::prelude::*;
use vstd::slice::slice_subrange;
use vstd::string::{is_ascii_spec_bytes, StringExecFns, StringSliceAdditionalSpecFns};

verus! {

/// Parses a string of ASCII digits into a `usize`: a slot capacity in bytes.
pub fn parse_usize(s: &str) -> (n: usize)
    requires
        all_digits(s@),
        digits_value(s@) <= usize::MAX,
    ensures
        n == digits_value(s@),
{
    broadcast use is_ascii_spec_bytes;

    proof {
        assert forall|i: int| 0 <= i < s@.len() implies '\0' <= #[trigger] s@[i] <= '\u{7f}' by {
            assert(crate::text::is_digit(s@[i]));
        }
        assert(vstd::string::is_ascii(s));
        assert(s.spec_bytes() =~= Seq::new(s@.len(), |i: int| s@[i] as u8));
    }
    let bytes = s.as_bytes();
    let mut result: usize = 0;
    let mut i: usize = 0;
    assert(s@.take(0) =~= Seq::empty());
    while i < bytes.len()
        invariant
            i <= bytes@.len(),
            bytes@.len() == s@.len(),
            forall|k: int| 0 <= k < s@.len() ==> #[trigger] bytes@[k] == s@[k] as u8,
            all_digits(s@),
            digits_value(s@) <= usize::MAX,
            result == digits_value(s@.take(i as int)),
        decreases bytes@.len() - i,
    {
        let b = bytes[i];
        proof {
            assert(crate::text::is_digit(s@[i as int]));
            assert(s@.take(i + 1).drop_last() =~= s@.take(i as int));
            lemma_digits_value_prefix(s@, (i + 1) as nat);
            assert(digits_value(s@.take(i + 1)) == 10 * result + (b - 0x30));
        }
        result = result * 10 + (b - 0x30) as usize;
        i = i + 1;
    }
    assert(s@.take(i as int) =~= s@);
    result
}

/// The contents of `slot`, without the padding.
pub open spec fn slot_contents(slot: Seq<u8>) -> Seq<u8> {
    slot.subrange(8, 8 + word(slot, 0))
}

/// Extracts the contents of a slot: its first eight bytes are their length.
pub fn slot_data(slot: &[u8]) -> (data: &[u8])
    requires
        slot@.len() >= 8,
        8 + word(slot@, 0) <= slot@.len(),
    ensures
        data@ == slot_contents(slot@),
{
    let len = u64_at(slot, 0) as usize;
    assert(slot@.len() == slot.len());
    slice_subrange(slot, 8, 8 + len)
}

/// The bytes of a slot of `size` bytes with the given contents, whose length is `len`.
pub open spec fn slot_image(len: u64, contents: Seq<u8>, size: nat) -> Seq<u8> {
    resized(le_bytes(len as nat, 8) + contents, size)
}

/// Makes the bytes of a slot of `size` bytes with the given contents, whose length is `len`.
pub fn slot_bytes(len: u64, contents: &[u8], size: usize) -> (out: Vec<u8>)
    ensures
        out@ == slot_image(len, contents@, size as nat),
{
    let mut out: Vec<u8> = Vec::with_capacity(size);
    push_u64(&mut out, len);
    out.extend_from_slice(contents);
    assert(out@ =~= le_bytes(len as nat, 8) + contents@);
    resize(&mut out, size);
    out
}

/// What is patched into a slot reads back from it: a slot made of contents that fit is as long as
/// the slot is, and its contents are those that it was made of.
pub proof fn law_slot_reads_back(contents: Seq<u8>, size: usize)
    requires
        8 + contents.len() <= size,
    ensures
        slot_image(contents.len() as u64, contents, size as nat).len() == size,
        word(slot_image(contents.len() as u64, contents, size as nat), 0) == contents.len(),
        slot_contents(slot_image(contents.len() as u64, contents, size as nat)) == contents,
        slot_image(contents.len() as u64, contents, size as nat).skip(8 + contents.len() as int)
            == zeros((size - 8 - contents.len()) as nat),
{
    let slot = slot_image(contents.len() as u64, contents, size as nat);
    lemma_le8(contents.len());
    assert(slot.subrange(0, 8) =~= le_bytes(contents.len(), 8));
    assert(slot_contents(slot) =~= contents);
    assert(slot.skip(8 + contents.len() as int) =~= zeros((size - 8 - contents.len()) as nat));
}

/// A slot that can be patched.
#[derive(Clone, Copy, Debug, PartialEq, Eq, Structural)]
pub enum Slot {
    Vmlinux,
    Initrd,
}

impl Slot {
    /// The name of the section that is the slot.
    pub open spec fn section_spec(self) -> Seq<char> {
        match self {
            Slot::Vmlinux => ".joos_vmlinux"@,
            Slot::Initrd => ".joos_initrd"@,
        }
    }

    /// The name of the slot in messages.
    pub open spec fn label_spec(self) -> Seq<char> {
        match self {
            Slot::Vmlinux => "vmlinux"@,
            Slot::Initrd => "initrd"@,
        }
    }

    /// The name of the slot in the variable that configures its capacity.
    pub open spec fn variable_spec(self) -> Seq<char> {
        match self {
            Slot::Vmlinux => "VMLINUX"@,
            Slot::Initrd => "INITRD"@,
        }
    }

    /// The name of the section that is the slot.
    pub fn section(self) -> (s: &'static str)
        ensures
            s@ == self.section_spec(),
    {
        match self {
            Slot::Vmlinux => ".joos_vmlinux",
            Slot::Initrd => ".joos_initrd",
        }
    }

    /// The name of the slot in messages.
    pub fn label(self) -> (s: &'static str)
        ensures
            s@ == self.label_spec(),
    {
        match self {
            Slot::Vmlinux => "vmlinux",
            Slot::Initrd => "initrd",
        }
    }

    fn variable(self) -> (s: &'static str)
        ensures
            s@ == self.variable_spec(),
    {
        match self {
            Slot::Vmlinux => "VMLINUX",
            Slot::Initrd => "INITRD",
        }
    }
}

/// What is said of a launcher at `path` that is refused with the error `e`.
pub open spec fn not_an_object(path: Seq<char>, e: Seq<char>) -> Seq<char> {
    "cannot parse "@ + path + " as an object file: "@ + e
}

/// Checks that the launcher at `path`, whose bytes are `launcher`, is an object file.
pub fn check_launcher(path: &str, launcher: &[u8]) -> (res: Result<(), String>)
    ensures
        match res {
            Ok(()) => object_error(launcher@) is None,
            Err(m) => object_error(launcher@) matches Some(e) && m@ == not_an_object(path@, e),
        },
{
    match parse_object(launcher) {
        Ok(()) => Ok(()),
        Err(e) => {
            let mut m = message("cannot parse ");
            m.append(path);
            m.append(" as an object file: ");
            m.append(e.as_str());
            Err(m)
        },
    }
}

/// Where `slot` is in the file of the launcher at `path`, as `found` says, which is what the
/// section lookup gave: its offset and its size.
pub open spec fn slot_place(path: Seq<char>, slot: Slot, found: Option<Option<(u64, u64)>>) -> Result<
    (u64, u64),
    Seq<char>,
> {
    match found {
        None => Err(
            path + ": no "@ + slot.section_spec()
                + " section - was this built with joos-fire's slot-based embedding?"@,
        ),
        Some(None) => Err(path + ": "@ + slot.section_spec() + " has no file contents (bss?)"@),
        Some(Some(range)) => Ok(range),
    }
}

/// Where `slot` is in the file of the launcher at `path`, given what the section lookup gave.
pub fn place_slot(path: &str, slot: Slot, found: Option<Option<(u64, u64)>>) -> (res: Result<
    (u64, u64),
    String,
>)
    ensures
        match res {
            Ok(range) => slot_place(path@, slot, found) == Ok::<(u64, u64), Seq<char>>(range),
            Err(m) => slot_place(path@, slot, found) == Err::<(u64, u64), Seq<char>>(m@),
        },
        found matches Some(Some(range)) ==> res == Ok::<(u64, u64), String>(range),
        res is Ok ==> found is Some && found->0 is Some,
{
    match found {
        None => {
            let mut m = message(path);
            m.append(": no ");
            m.append(slot.section());
            m.append(" section - was this built with joos-fire's slot-based embedding?");
            Err(m)
        },
        Some(None) => {
            let mut m = message(path);
            m.append(": ");
            m.append(slot.section());
            m.append(" has no file contents (bss?)");
            Err(m)
        },
        Some(Some(range)) => Ok(range),
    }
}

/// Finds `slot` in the launcher at `path`, whose bytes are `launcher`: its file offset and its
/// size.
pub fn find_slot(path: &str, launcher: &[u8], slot: Slot) -> (res: Result<(u64, u64), String>)
    ensures
        match res {
            Ok(range) => slot_place(path@, slot, section_range(launcher@, slot.section_spec()))
                == Ok::<(u64, u64), Seq<char>>(range),
            Err(m) => slot_place(path@, slot, section_range(launcher@, slot.section_spec()))
                == Err::<(u64, u64), Seq<char>>(m@),
        },
        section_range(launcher@, slot.section_spec()) matches Some(Some(range)) ==> res == Ok::<
            (u64, u64),
            String,
        >(range),
        res matches Ok(range) ==> section_range(launcher@, slot.section_spec()) == Some(
            Some(range),
        ),
{
    let found = find_section(launcher, slot.section());
    place_slot(path, slot, found)
}

/// The capacity of a slot of `size` bytes: all of it but the length of its contents.
pub fn slot_capacity(size: u64) -> (capacity: u64)
    requires
        size >= 8,
    ensures
        capacity == size - 8,
{
    size - 8
}

/// What is said where the file at `path`, of `len` bytes, does not fit in `slot`.
pub open spec fn does_not_fit(path: Seq<char>, len: u64, slot: Slot, capacity: u64) -> Seq<char> {
    path + ": "@ + decimal(len as nat) + " bytes exceeds the "@ + slot.label_spec()
        + " slot's capacity of "@ + decimal(capacity as nat) + " bytes - rebuild with `make "@
        + slot.label_spec() + "=... build/fire2` (bigger JOOS_"@ + slot.variable_spec()
        + "_MAX) instead"@
}

/// Checks that the file at `path`, of `len` bytes, fits in `slot`.
pub fn check_fits(path: &str, len: u64, slot: Slot, capacity: u64) -> (res: Result<(), String>)
    ensures
        match res {
            Ok(()) => len <= capacity,
            Err(m) => len > capacity && m@ == does_not_fit(path@, len, slot, capacity),
        },
{
    if len <= capacity {
        return Ok(());
    }
    let mut m = message(path);
    m.append(": ");
    push_decimal(&mut m, len);
    m.append(" bytes exceeds the ");
    m.append(slot.label());
    m.append(" slot's capacity of ");
    push_decimal(&mut m, capacity);
    m.append(" bytes - rebuild with `make ");
    m.append(slot.label());
    m.append("=... build/fire2` (bigger JOOS_");
    m.append(slot.variable());
    m.append("_MAX) instead");
    Err(m)
}

/// What is said of a patched slot.
pub fn patched_message(slot: Slot, len: u64, capacity: u64) -> (m: String)
    ensures
        m@ == slot.label_spec() + ": patched "@ + decimal(len as nat) + " bytes into "@
            + slot.section_spec() + " (capacity "@ + decimal(capacity as nat) + ")"@,
{
    let mut m = message(slot.label());
    m.append(": patched ");
    push_decimal(&mut m, len);
    m.append(" bytes into ");
    m.append(slot.section());
    m.append(" (capacity ");
    push_decimal(&mut m, capacity);
    m.append(")");
    m
}

/// A slot is where its section is: at exactly the offset and with exactly the size that the section
/// lookup has found, whatever they are.
pub proof fn law_slot_is_where_its_section_is(path: Seq<char>, slot: Slot, offset: u64, size: u64)
    ensures
        slot_place(path, slot, Some(Some((offset, size)))) == Ok::<(u64, u64), Seq<char>>(
            (offset, size),
        ),
{
}

/// A slot whose section is missing, or has no file contents, is not found, and the message names the
/// file and the section.
pub proof fn law_slots_that_are_not_found(path: Seq<char>)
    ensures
        slot_place(path, Slot::Vmlinux, None) == Err::<(u64, u64), Seq<char>>(
            path + ": no "@ + ".joos_vmlinux"@
                + " section - was this built with joos-fire's slot-based embedding?"@,
        ),
        slot_place(path, Slot::Initrd, None) == Err::<(u64, u64), Seq<char>>(
            path + ": no "@ + ".joos_initrd"@
                + " section - was this built with joos-fire's slot-based embedding?"@,
        ),
        slot_place(path, Slot::Vmlinux, Some(None)) == Err::<(u64, u64), Seq<char>>(
            path + ": "@ + ".joos_vmlinux"@ + " has no file contents (bss?)"@,
        ),
        slot_place(path, Slot::Initrd, Some(None)) == Err::<(u64, u64), Seq<char>>(
            path + ": "@ + ".joos_initrd"@ + " has no file contents (bss?)"@,
        ),
{
}

/// The two slots are two sections, and each is told apart by its name.
pub proof fn law_slot_names()
    ensures
        Slot::Vmlinux.section_spec() == ".joos_vmlinux"@,
        Slot::Initrd.section_spec() == ".joos_initrd"@,
        Slot::Vmlinux.label_spec() == "vmlinux"@,
        Slot::Initrd.label_spec() == "initrd"@,
        Slot::Vmlinux.variable_spec() == "VMLINUX"@,
        Slot::Initrd.variable_spec() == "INITRD"@,
        Slot::Vmlinux.section_spec() != Slot::Initrd.section_spec(),
        Slot::Vmlinux.label_spec() != Slot::Initrd.label_spec(),
{
    reveal_strlit(".joos_vmlinux");
    reveal_strlit(".joos_initrd");
    reveal_strlit("vmlinux");
    reveal_strlit("initrd");
    assert(".joos_vmlinux"@.len() != ".joos_initrd"@.len());
    assert("vmlinux"@.len() != "initrd"@.len());
}

/// A slot is, byte by byte, the length of its contents, least significant byte first, then the
/// contents, then zeros, cut off where the slot ends.
pub proof fn law_slot_layout(len: u64, contents: Seq<u8>, size: nat, k: int)
    requires
        0 <= k < size,
    ensures
        slot_image(len, contents, size).len() == size,
        size >= 8 ==> le_at(slot_image(len, contents, size), 0, 8) == len,
        k >= 8 ==> slot_image(len, contents, size)[k] == (if k < 8 + contents.len() {
            contents[k - 8]
        } else {
            0
        }),
        k < 8 ==> slot_image(len, contents, size)[k] == slot_image(len, contents, 8)[k],
{
    lemma_le8(len as nat);
    let slot = slot_image(len, contents, size);
    if size >= 8 {
        assert(slot.subrange(0, 8) =~= le_bytes(len as nat, 8));
    }
}

/// The contents of a slot are, byte by byte, what stands behind its first eight bytes, as much of it as
/// those say.
pub proof fn law_slot_contents(slot: Seq<u8>)
    requires
        slot.len() >= 8,
        8 + word(slot, 0) <= slot.len(),
    ensures
        slot_contents(slot).len() == word(slot, 0),
        forall|k: int| 0 <= k < word(slot, 0) ==> #[trigger] slot_contents(slot)[k] == slot[8 + k],
{
}

/// What the patch program says of a file that it refuses names the file, and where it does not fit, its
/// length, the slot and the slot's capacity.
pub proof fn law_patch_messages(path: Seq<char>, e: Seq<char>, len: u64, capacity: u64)
    ensures
        not_an_object(path, e) == "cannot parse "@ + path + " as an object file: "@ + e,
        does_not_fit(path, len, Slot::Vmlinux, capacity) == path + ": "@ + decimal(len as nat)
            + " bytes exceeds the "@ + "vmlinux"@ + " slot's capacity of "@ + decimal(
            capacity as nat,
        ) + " bytes - rebuild with `make "@ + "vmlinux"@ + "=... build/fire2` (bigger JOOS_"@
            + "VMLINUX"@ + "_MAX) instead"@,
        does_not_fit(path, len, Slot::Initrd, capacity) == path + ": "@ + decimal(len as nat)
            + " bytes exceeds the "@ + "initrd"@ + " slot's capacity of "@ + decimal(
            capacity as nat,
        ) + " bytes - rebuild with `make "@ + "initrd"@ + "=... build/fire2` (bigger JOOS_"@
            + "INITRD"@ + "_MAX) instead"@,
{
}

} // verus!
