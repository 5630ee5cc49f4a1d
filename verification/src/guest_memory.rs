//! Guest memory, as the `vm-memory` crate holds it: regions of bytes at guest addresses, and a
//! record of the pages that were written.
//!
//! What is said of it here is said of guest memory whose regions are mapped for reading and writing,
//! no two of them over one backing range, and which nobody else accesses meanwhile: no vCPU has run
//! yet.

use std::sync::atomic::{AtomicU8, Ordering};
use vm_memory::bitmap::{AtomicBitmap, Bitmap};
use vm_memory::{Bytes, GuestAddress, GuestMemory, GuestMemoryMmap, VolatileMemory};
use vstd::prelude::*;

verus! {

/// The page bitmap of `vm-memory`.
#[verifier::external_type_specification]
#[verifier::external_body]
pub struct ExAtomicBitmap(AtomicBitmap);

/// The mapped guest memory of `vm-memory`. Its regions are mapped for reading and writing, and no two
/// of them share one backing range.
#[verifier::external_type_specification]
#[verifier::external_body]
#[verifier::reject_recursive_types(B)]
pub struct ExGuestMemoryMmap<B>(GuestMemoryMmap<B>);

/// The regions of guest memory: the bytes of each one, by the address of its first byte. No two of
/// them overlap, and a write to one of them changes no other.
pub uninterp spec fn guest_regions(mem: GuestMemoryMmap<AtomicBitmap>) -> Map<int, Seq<u8>>;

/// The guest addresses that the page bitmaps do not show to be clean: those of the pages recorded as
/// written, and those that no bitmap covers.
pub uninterp spec fn guest_dirty(mem: GuestMemoryMmap<AtomicBitmap>) -> Set<int>;

/// The pages of guest memory: of each guest address that a page bitmap covers, the first address of
/// its page.
pub uninterp spec fn guest_pages(mem: GuestMemoryMmap<AtomicBitmap>) -> Map<int, int>;

/// `a` and `b` are one address, or lie on one page.
pub open spec fn on_one_page(pages: Map<int, int>, a: int, b: int) -> bool {
    a == b || (pages.contains_key(a) && pages.contains_key(b) && pages[a] == pages[b])
}

/// The addresses that are dirty once the pages of the `len` bytes from `addr` on are recorded as
/// written, if `dirty` were before.
pub open spec fn recorded(dirty: Set<int>, pages: Map<int, int>, addr: int, len: nat) -> Set<int> {
    dirty.union(
        Set::new(
            |a: int|
                exists|b: int| addr <= b < addr + len && #[trigger] on_one_page(pages, a, b),
        ),
    )
}

/// The region at `start` holds the byte at `addr`.
pub open spec fn region_holds(regions: Map<int, Seq<u8>>, start: int, addr: int) -> bool {
    regions.contains_key(start) && start <= addr < start + regions[start].len()
}

/// Some region holds the byte at `addr`.
pub open spec fn mapped(regions: Map<int, Seq<u8>>, addr: int) -> bool {
    exists|start: int| region_holds(regions, start, addr)
}

/// Some region holds the byte at `addr` and all of the `size` bytes from there on.
pub open spec fn in_one_region(regions: Map<int, Seq<u8>>, addr: int, size: int) -> bool {
    exists|start: int|
        #[trigger] region_holds(regions, start, addr) && addr + size <= start
            + regions[start].len()
}

/// How many of the `max` bytes from `addr` on are mapped before the first that is not.
pub open spec fn mapped_run(regions: Map<int, Seq<u8>>, addr: int, max: nat) -> nat
    decreases max,
{
    if max == 0 || !mapped(regions, addr) {
        0
    } else {
        1 + mapped_run(regions, addr + 1, (max - 1) as nat)
    }
}

/// `regions` with `data` written from `addr` on, where they are mapped.
pub open spec fn overlaid(regions: Map<int, Seq<u8>>, addr: int, data: Seq<u8>) -> Map<
    int,
    Seq<u8>,
> {
    regions.map_entries(
        |start: int, bytes: Seq<u8>|
            Seq::new(
                bytes.len(),
                |i: int|
                    if addr <= start + i < addr + data.len() {
                        data[start + i - addr]
                    } else {
                        bytes[i]
                    },
            ),
    )
}

/// The guest address `addr` is mapped.
pub open spec fn maps(regions: Map<int, Seq<u8>>, addr: u64) -> bool {
    mapped(regions, addr as int)
}

/// `regions` with `byte` at the guest address `addr`.
pub open spec fn with_byte(regions: Map<int, Seq<u8>>, addr: u64, byte: u8) -> Map<int, Seq<u8>> {
    overlaid(regions, addr as int, seq![byte])
}

/// A write of `size` bytes at `addr` succeeds: `addr` is mapped, and so are the bytes from there
/// on.
pub open spec fn writable(regions: Map<int, Seq<u8>>, addr: int, size: nat) -> bool {
    mapped(regions, addr) && mapped_run(regions, addr, size) == size
}

/// `GuestMemory::get_slice` of `vm-memory`: it succeeds where one region holds all of the `size`
/// bytes at `addr`. Regions end below the highest guest address, so the sum of the two is then a
/// guest address too.
#[verifier::external_body]
pub(crate) fn has_slice(mem: &GuestMemoryMmap<AtomicBitmap>, addr: u64, size: usize) -> (res: bool)
    ensures
        res == in_one_region(guest_regions(*mem), addr as int, size as int),
        res ==> addr + size <= u64::MAX,
{
    mem.get_slice(GuestAddress(addr), size).is_ok()
}

/// `Bytes::write_slice` of `vm-memory`: it copies `data` to guest memory from `addr` on, up to the
/// first byte that is not mapped, and succeeds where it has copied all of it to an address that is
/// mapped. The pages that it has copied to are recorded as written, and no other page.
#[verifier::external_body]
pub(crate) fn write_slice(
    mem: &mut GuestMemoryMmap<AtomicBitmap>,
    data: &[u8],
    addr: u64,
) -> (res: bool)
    ensures
        res == writable(guest_regions(*old(mem)), addr as int, data@.len()),
        guest_regions(*final(mem)) == overlaid(
            guest_regions(*old(mem)),
            addr as int,
            data@.take(mapped_run(guest_regions(*old(mem)), addr as int, data@.len()) as int),
        ),
        guest_dirty(*final(mem)) == recorded(
            guest_dirty(*old(mem)),
            guest_pages(*old(mem)),
            addr as int,
            mapped_run(guest_regions(*old(mem)), addr as int, data@.len()),
        ),
        guest_pages(*final(mem)) == guest_pages(*old(mem)),
{
    mem.write_slice(data, GuestAddress(addr)).is_ok()
}

/// `Bytes::read_slice` of `vm-memory`: the `len` bytes of guest memory from `addr` on, where one
/// region holds them.
#[verifier::external_body]
pub(crate) fn read_slice(mem: &GuestMemoryMmap<AtomicBitmap>, addr: u64, len: usize) -> (out: Vec<
    u8,
>)
    requires
        in_one_region(guest_regions(*mem), addr as int, len as int),
    ensures
        out@.len() == len,
        forall|start: int, i: int|
            0 <= i < len && #[trigger] region_holds(guest_regions(*mem), start, addr + i)
                ==> #[trigger] out@[i] == guest_regions(*mem)[start][addr + i - start],
{
    let mut out = vec![0u8; len];
    let _ = mem.read_slice(&mut out, GuestAddress(addr));
    out
}

/// A store through `VolatileMemory::get_atomic_ref` of `vm-memory`: it sets the byte at `addr`, which
/// is mapped, and records no page as written.
#[verifier::external_body]
pub(crate) fn store_byte(mem: &mut GuestMemoryMmap<AtomicBitmap>, addr: u64, byte: u8)
    requires
        maps(guest_regions(*old(mem)), addr),
    ensures
        guest_regions(*final(mem)) == with_byte(guest_regions(*old(mem)), addr, byte),
        guest_dirty(*final(mem)) == guest_dirty(*old(mem)),
        guest_pages(*final(mem)) == guest_pages(*old(mem)),
{
    if let Ok(slice) = mem.get_slice(GuestAddress(addr), 1) {
        if let Ok(cell) = slice.get_atomic_ref::<AtomicU8>(0) {
            cell.store(byte, Ordering::Relaxed);
        }
    }
}

/// `Bitmap::mark_dirty` of `vm-memory`, on the slice of guest memory that is the `len` bytes from
/// `addr` on: it records their pages as written, and no other page, and leaves the bytes alone.
#[verifier::external_body]
pub(crate) fn mark_dirty(mem: &mut GuestMemoryMmap<AtomicBitmap>, addr: u64, len: usize)
    requires
        in_one_region(guest_regions(*old(mem)), addr as int, len as int),
    ensures
        guest_regions(*final(mem)) == guest_regions(*old(mem)),
        guest_dirty(*final(mem)) == recorded(
            guest_dirty(*old(mem)),
            guest_pages(*old(mem)),
            addr as int,
            len as nat,
        ),
        guest_pages(*final(mem)) == guest_pages(*old(mem)),
{
    if let Ok(slice) = mem.get_slice(GuestAddress(addr), len) {
        slice.bitmap().mark_dirty(0, len);
    }
}

pub(crate) proof fn lemma_mapped_run_in_region(
    regions: Map<int, Seq<u8>>,
    start: int,
    addr: int,
    max: nat,
)
    requires
        regions.contains_key(start),
        start <= addr,
        addr + max <= start + regions[start].len(),
    ensures
        mapped_run(regions, addr, max) == max,
    decreases max,
{
    if max > 0 {
        assert(region_holds(regions, start, addr));
        lemma_mapped_run_in_region(regions, start, addr + 1, (max - 1) as nat);
    }
}

pub(crate) proof fn lemma_overlaid_nothing(regions: Map<int, Seq<u8>>, addr: int)
    ensures
        overlaid(regions, addr, Seq::empty()) == regions,
{
    let o = overlaid(regions, addr, Seq::empty());
    assert forall|start: int| regions.contains_key(start) implies #[trigger] o[start]
        == regions[start] by {
        assert(o[start] =~= regions[start]);
    }
    assert(o =~= regions);
}

pub(crate) proof fn lemma_overlaid_twice(
    regions: Map<int, Seq<u8>>,
    addr: int,
    d1: Seq<u8>,
    d2: Seq<u8>,
)
    ensures
        overlaid(overlaid(regions, addr, d1), addr + d1.len(), d2) == overlaid(
            regions,
            addr,
            d1 + d2,
        ),
{
    let o = overlaid(overlaid(regions, addr, d1), addr + d1.len(), d2);
    let t = overlaid(regions, addr, d1 + d2);
    assert forall|start: int| regions.contains_key(start) implies #[trigger] o[start]
        == t[start] by {
        assert(o[start] =~= t[start]);
    }
    assert(o =~= t);
}

pub(crate) proof fn lemma_overlaid_region(
    regions: Map<int, Seq<u8>>,
    addr: int,
    size: int,
    at: int,
    data: Seq<u8>,
)
    requires
        in_one_region(regions, addr, size),
    ensures
        in_one_region(overlaid(regions, at, data), addr, size),
{
    let start = choose|start: int|
        #[trigger] region_holds(regions, start, addr) && addr + size <= start
            + regions[start].len();
    assert(region_holds(overlaid(regions, at, data), start, addr));
}

/// Where one region holds some bytes, it holds any of them.
pub(crate) proof fn lemma_part_of_region(
    regions: Map<int, Seq<u8>>,
    addr: int,
    size: int,
    pos: int,
    len: int,
)
    requires
        in_one_region(regions, addr, size),
        0 <= pos,
        0 < len,
        pos + len <= size,
    ensures
        in_one_region(regions, addr + pos, len),
{
    let start = choose|start: int|
        #[trigger] region_holds(regions, start, addr) && addr + size <= start
            + regions[start].len();
    assert(region_holds(regions, start, addr + pos));
}

/// Recording nothing changes nothing.
pub(crate) proof fn lemma_recorded_nothing(dirty: Set<int>, pages: Map<int, int>, addr: int)
    ensures
        recorded(dirty, pages, addr, 0) == dirty,
{
    assert(recorded(dirty, pages, addr, 0) =~= dirty);
}

/// Recording some bytes, and then all of them, is recording all of them.
pub(crate) proof fn lemma_recorded_more(
    dirty: Set<int>,
    pages: Map<int, int>,
    addr: int,
    some: nat,
    all: nat,
)
    requires
        some <= all,
    ensures
        recorded(recorded(dirty, pages, addr, some), pages, addr, all) == recorded(
            dirty,
            pages,
            addr,
            all,
        ),
{
    assert(recorded(recorded(dirty, pages, addr, some), pages, addr, all) =~= recorded(
        dirty,
        pages,
        addr,
        all,
    ));
}

} // verus!
