//! What loading an initrd leaves in guest memory, byte by byte, and which pages it records as written.

use crate::bytes::word;
use crate::guest_memory::{
    guest_dirty, guest_pages, guest_regions, in_one_region, mapped, mapped_run, on_one_page, overlaid,
    recorded, region_holds,
};
use crate::initrd::{
    chunk_error, decoded, error_message, fails, file_loaded, file_loads, is_lz4, loaded,
    loads_as, placed, size_in_memory, FileRead, InitrdConfig, InitrdError,
    InitrdErrorView, InitrdFile, Loading,
};
use crate::lz4_block::lz4_decoded;
use crate::lz4_pack::INITRD_LZ4_MAGIC;
use crate::text::decimal;
use vm_memory::bitmap::AtomicBitmap;
use vm_memory::GuestMemoryMmap;
use vstd::prelude::*;

verus! {

/// A region of guest memory holds the byte at `x`.
pub open spec fn has_byte(regions: Map<int, Seq<u8>>, x: int) -> bool {
    exists|start: int| #[trigger]
        regions.contains_key(start) && start <= x < start + regions[start].len()
}

/// One region of guest memory holds the byte at `address` and the `size` bytes from there on.
pub open spec fn has_room(regions: Map<int, Seq<u8>>, address: int, size: int) -> bool {
    exists|start: int| #[trigger]
        regions.contains_key(start) && start <= address < start + regions[start].len() && address
            + size <= start + regions[start].len()
}

/// `data` starts with the magic prefix of the lz4 format.
pub open spec fn starts_with_magic(data: Seq<u8>) -> bool {
    &&& data.len() >= 8
    &&& data[0] == 0x4a && data[1] == 0x4f && data[2] == 0x4f && data[3] == 0x53
    &&& data[4] == 0x4c && data[5] == 0x5a && data[6] == 0x49 && data[7] == 0x01
}

/// Guest memory is the same in `before` and `after`, and so is the record of written pages.
pub open spec fn untouched(
    before: GuestMemoryMmap<AtomicBitmap>,
    after: GuestMemoryMmap<AtomicBitmap>,
) -> bool {
    &&& guest_regions(after) == guest_regions(before)
    &&& guest_dirty(after) == guest_dirty(before)
}

/// Guest memory has the same regions in `before` and `after`, and the same bytes at all addresses but
/// the `len` from `address` on.
pub open spec fn same_outside(
    before: Map<int, Seq<u8>>,
    after: Map<int, Seq<u8>>,
    address: int,
    len: int,
) -> bool {
    &&& forall|start: int| #[trigger]
        after.contains_key(start) <==> before.contains_key(start)
    &&& forall|start: int| #[trigger]
        before.contains_key(start) ==> after[start].len() == before[start].len()
    &&& forall|start: int, i: int|
        before.contains_key(start) && 0 <= i < before[start].len() && !(address <= start + i
            < address + len) ==> #[trigger] after[start][i] == before[start][i]
}

/// Guest memory holds `data` from `address` on, wherever a region holds an address of it.
pub open spec fn holds(regions: Map<int, Seq<u8>>, address: int, data: Seq<u8>) -> bool {
    forall|start: int, i: int|
        regions.contains_key(start) && 0 <= i < regions[start].len() && address <= start + i
            < address + data.len() ==> #[trigger] regions[start][i] == data[start + i - address]
}

/// The pages recorded as written in `after` are those in `before` and those of the `len` bytes from
/// `address` on, and no others.
pub open spec fn records_exactly(
    before: GuestMemoryMmap<AtomicBitmap>,
    after: GuestMemoryMmap<AtomicBitmap>,
    address: int,
    len: int,
) -> bool {
    let pages = guest_pages(before);
    forall|x: int| #[trigger]
        guest_dirty(after).contains(x) <==> {
            ||| guest_dirty(before).contains(x)
            ||| address <= x < address + len
            ||| pages.contains_key(x) && exists|y: int| #[trigger]
                pages.contains_key(y) && address <= y < address + len && pages[y] == pages[x]
        }
}

/// The load has refused the lz4 image with the text `text`.
pub open spec fn refused_with(res: Result<InitrdConfig, InitrdError>, text: Seq<char>) -> bool {
    match res {
        Err(InitrdError::Lz4(m)) => m@ == text,
        _ => false,
    }
}

proof fn lemma_has_byte(regions: Map<int, Seq<u8>>, x: int)
    ensures
        has_byte(regions, x) <==> mapped(regions, x),
{
    if has_byte(regions, x) {
        let start = choose|start: int| #[trigger]
            regions.contains_key(start) && start <= x < start + regions[start].len();
        assert(region_holds(regions, start, x));
    }
    if mapped(regions, x) {
        let start = choose|start: int| region_holds(regions, start, x);
        assert(regions.contains_key(start));
    }
}

proof fn lemma_has_room(regions: Map<int, Seq<u8>>, address: int, size: int)
    ensures
        has_room(regions, address, size) <==> in_one_region(regions, address, size),
{
    if has_room(regions, address, size) {
        let start = choose|start: int| #[trigger]
            regions.contains_key(start) && start <= address < start + regions[start].len()
                && address + size <= start + regions[start].len();
        assert(region_holds(regions, start, address));
    }
    if in_one_region(regions, address, size) {
        let start = choose|start: int|
            #[trigger] region_holds(regions, start, address) && address + size <= start
                + regions[start].len();
        assert(regions.contains_key(start));
    }
}

proof fn lemma_magic(data: Seq<u8>)
    ensures
        starts_with_magic(data) <==> is_lz4(data),
{
    if data.len() >= 8 {
        let t = data.take(8);
        let m = INITRD_LZ4_MAGIC@;
        assert(m =~= seq![0x4au8, 0x4f, 0x4f, 0x53, 0x4c, 0x5a, 0x49, 0x01]);
        assert(t[0] == data[0] && t[1] == data[1] && t[2] == data[2] && t[3] == data[3]);
        assert(t[4] == data[4] && t[5] == data[5] && t[6] == data[6] && t[7] == data[7]);
        if starts_with_magic(data) {
            assert(t =~= m);
        }
    }
}

pub(crate) proof fn lemma_run(regions: Map<int, Seq<u8>>, address: int, max: nat)
    ensures
        mapped_run(regions, address, max) <= max,
        forall|x: int|
            address <= x < address + mapped_run(regions, address, max) ==> #[trigger] has_byte(
                regions,
                x,
            ),
        mapped_run(regions, address, max) < max ==> !has_byte(
            regions,
            address + mapped_run(regions, address, max),
        ),
    decreases max,
{
    lemma_has_byte(regions, address);
    if max > 0 && mapped(regions, address) {
        lemma_run(regions, address + 1, (max - 1) as nat);
    }
}

pub(crate) proof fn lemma_overlaid(regions: Map<int, Seq<u8>>, address: int, data: Seq<u8>)
    ensures
        same_outside(regions, overlaid(regions, address, data), address, data.len() as int),
        holds(overlaid(regions, address, data), address, data),
{
}

proof fn lemma_recorded(
    before: GuestMemoryMmap<AtomicBitmap>,
    after: GuestMemoryMmap<AtomicBitmap>,
    address: int,
    len: nat,
)
    requires
        guest_dirty(after) == recorded(guest_dirty(before), guest_pages(before), address, len),
    ensures
        records_exactly(before, after, address, len as int),
        len == 0 ==> guest_dirty(after) == guest_dirty(before),
{
    let pages = guest_pages(before);
    assert forall|x: int| #[trigger] guest_dirty(after).contains(x) <==> {
        ||| guest_dirty(before).contains(x)
        ||| address <= x < address + len
        ||| pages.contains_key(x) && exists|y: int| #[trigger]
            pages.contains_key(y) && address <= y < address + len && pages[y] == pages[x]
    } by {
        if address <= x < address + len {
            assert(on_one_page(pages, x, x));
        }
        if pages.contains_key(x) && exists|y: int| #[trigger]
            pages.contains_key(y) && address <= y < address + len && pages[y] == pages[x] {
            let y = choose|y: int| #[trigger]
                pages.contains_key(y) && address <= y < address + len && pages[y] == pages[x];
            assert(on_one_page(pages, x, y));
        }
    }
    if len == 0 {
        assert(guest_dirty(after) =~= guest_dirty(before));
    }
}

proof fn lemma_fails_untouched(
    before: GuestMemoryMmap<AtomicBitmap>,
    after: GuestMemoryMmap<AtomicBitmap>,
    res: Result<InitrdConfig, InitrdError>,
    e: InitrdErrorView,
)
    requires
        loads_as(before, after, res, fails(e)),
    ensures
        untouched(before, after),
        res matches Err(err) && err@ == e,
{
    lemma_recorded(before, after, 0, 0);
    crate::guest_memory::lemma_overlaid_nothing(guest_regions(before), 0);
}

/// The view of an error is its variant, with the characters of its text.
pub proof fn law_error_views(e: InitrdError)
    ensures
        e is Address <==> e@ is Address,
        e is Load <==> e@ is Load,
        e is Metadata <==> e@ is Metadata,
        e is CloneFd <==> e@ is CloneFd,
        e is Read <==> e@ is Read,
        e is Lz4 <==> e@ is Lz4,
        e matches InitrdError::Metadata(m) ==> e@->Metadata_0 == m@,
        e matches InitrdError::CloneFd(m) ==> e@->CloneFd_0 == m@,
        e matches InitrdError::Read(m) ==> e@->Read_0 == m@,
        e matches InitrdError::Lz4(m) ==> e@->Lz4_0 == m@,
{
}

/// What is said to a user of an error.
pub proof fn law_error_messages(e: InitrdError)
    ensures
        e is Address ==> error_message(e@) == "Failed to compute the initrd address."@,
        e is Load ==> error_message(e@)
            == "Cannot load initrd due to an invalid memory configuration."@,
        e matches InitrdError::Metadata(m) ==> error_message(e@) == "Cannot image metadata: "@ + m@,
        e matches InitrdError::CloneFd(m) ==> error_message(e@) == "Cannot copy initrd file fd: "@
            + m@,
        e matches InitrdError::Read(m) ==> error_message(e@)
            == "Cannot load initrd due to an invalid image: "@ + m@,
        e matches InitrdError::Lz4(m) ==> error_message(e@) == "Cannot load lz4-compressed initrd: "@
            + m@,
{
}

/// A load that fails before it touches guest memory leaves it as it is.
pub proof fn law_early_failures_touch_nothing(
    before: GuestMemoryMmap<AtomicBitmap>,
    after: GuestMemoryMmap<AtomicBitmap>,
    res: Result<InitrdConfig, InitrdError>,
    e: InitrdErrorView,
)
    requires
        loads_as(before, after, res, fails(e)),
    ensures
        untouched(before, after),
        res matches Err(err) && err@ == e,
{
    lemma_fails_untouched(before, after, res, e);
}

/// Loading never changes which addresses make up a page, and never forgets a page that was written.
pub proof fn law_loading_forgets_no_page(
    before: GuestMemoryMmap<AtomicBitmap>,
    after: GuestMemoryMmap<AtomicBitmap>,
    res: Result<InitrdConfig, InitrdError>,
    l: Loading,
)
    requires
        loads_as(before, after, res, l),
    ensures
        guest_pages(after) == guest_pages(before),
        forall|x: int|
            guest_dirty(before).contains(x) ==> #[trigger] guest_dirty(after).contains(x),
{
}

/// An initrd takes as much guest memory as it has bytes, and one in the lz4 format as many as it
/// declares.
pub proof fn law_size_of_an_initrd(data: Seq<u8>)
    requires
        data.len() <= usize::MAX,
    ensures
        !starts_with_magic(data) ==> size_in_memory(data) == Ok::<usize, InitrdErrorView>(
            data.len() as usize,
        ),
        starts_with_magic(data) && data.len() >= 24 ==> size_in_memory(data) == Ok::<
            usize,
            InitrdErrorView,
        >(word(data, 8)),
        starts_with_magic(data) && data.len() < 24 ==> size_in_memory(data) == Err::<
            usize,
            InitrdErrorView,
        >(InitrdErrorView::Lz4("truncated image"@)),
{
    lemma_magic(data);
}

/// An initrd that there is no place for is refused, and leaves guest memory as it is.
pub proof fn law_initrd_without_a_place(
    before: GuestMemoryMmap<AtomicBitmap>,
    after: GuestMemoryMmap<AtomicBitmap>,
    res: Result<InitrdConfig, InitrdError>,
    data: Seq<u8>,
)
    requires
        loads_as(before, after, res, loaded(guest_regions(before), data, None)),
        !starts_with_magic(data) || data.len() >= 24,
    ensures
        untouched(before, after),
        res matches Err(InitrdError::Address),
{
    lemma_magic(data);
    lemma_fails_untouched(before, after, res, InitrdErrorView::Address);
}

/// An initrd without the magic prefix is loaded as it is: guest memory holds its bytes at the address
/// and is the same elsewhere, and exactly the pages of these bytes are recorded as written. It succeeds
/// exactly if all of these addresses are mapped; otherwise the bytes before the first that is not are
/// there.
#[verifier::rlimit(40)]
pub proof fn law_raw_initrd_is_in_memory(
    before: GuestMemoryMmap<AtomicBitmap>,
    after: GuestMemoryMmap<AtomicBitmap>,
    res: Result<InitrdConfig, InitrdError>,
    data: Seq<u8>,
    address: u64,
)
    requires
        loads_as(before, after, res, loaded(guest_regions(before), data, Some(address))),
        data.len() <= usize::MAX,
        !starts_with_magic(data),
    ensures
        res is Ok <==> has_byte(guest_regions(before), address as int) && forall|x: int|
            address <= x < address + data.len() ==> #[trigger] has_byte(guest_regions(before), x),
        res matches Ok(config) ==> {
            &&& config.address == address
            &&& config.size == data.len()
            &&& holds(guest_regions(after), address as int, data)
            &&& same_outside(
                guest_regions(before),
                guest_regions(after),
                address as int,
                data.len() as int,
            )
            &&& records_exactly(before, after, address as int, data.len() as int)
        },
        res matches Err(e) ==> e is Load && exists|n: int|
            {
                &&& 0 <= n <= data.len()
                &&& !(#[trigger] has_byte(guest_regions(before), address + n))
                &&& forall|x: int|
                    address <= x < address + n ==> #[trigger] has_byte(guest_regions(before), x)
                &&& holds(guest_regions(after), address as int, data.take(n))
                &&& same_outside(guest_regions(before), guest_regions(after), address as int, n)
                &&& records_exactly(before, after, address as int, n)
            },
{
    let regions = guest_regions(before);
    let run = mapped_run(regions, address as int, data.len());
    lemma_magic(data);
    lemma_run(regions, address as int, data.len());
    lemma_has_byte(regions, address as int);
    lemma_overlaid(regions, address as int, data.take(run as int));
    lemma_recorded(before, after, address as int, run);
    if run == data.len() {
        assert(data.take(run as int) =~= data);
    } else {
        assert(!has_byte(regions, address + run));
    }
    if res is Err {
        assert(!has_byte(regions, address + run));
    }
}

/// An initrd file whose bytes could all be read is in guest memory as they are: byte for byte at the
/// address, with everything else the same, and the load says that it is as long as the file. Where no
/// region has room for it, or reading has failed, the load fails; then the bytes that were read are
/// there.
pub proof fn law_file_initrd_is_in_memory(
    before: GuestMemoryMmap<AtomicBitmap>,
    after: GuestMemoryMmap<AtomicBitmap>,
    res: Result<InitrdConfig, InitrdError>,
    read: FileRead,
    size: usize,
    address: u64,
)
    requires
        loads_as(before, after, res, file_loaded(guest_regions(before), read, size, Some(address))),
        read.well_formed(size),
    ensures
        !has_room(guest_regions(before), address as int, size as int) ==> untouched(before, after)
            && (res matches Err(InitrdError::Load)),
        has_room(guest_regions(before), address as int, size as int) ==> {
            &&& holds(guest_regions(after), address as int, read.contents@)
            &&& same_outside(
                guest_regions(before),
                guest_regions(after),
                address as int,
                read.contents@.len() as int,
            )
            &&& records_exactly(
                before,
                after,
                address as int,
                if read.failed_read {
                    size as int
                } else {
                    read.contents@.len() as int
                },
            )
            &&& match read.failure {
                None => res matches Ok(config) && config.address == address && config.size == size
                    && read.contents@.len() == size,
                Some(e) => res matches Err(InitrdError::Read(m)) && m@ == e@,
            }
        },
{
    let regions = guest_regions(before);
    lemma_has_room(regions, address as int, size as int);
    if has_room(regions, address as int, size as int) {
        lemma_overlaid(regions, address as int, read.contents@);
        lemma_recorded(
            before,
            after,
            address as int,
            if read.failed_read {
                size as nat
            } else {
                read.contents@.len()
            },
        );
    } else {
        lemma_fails_untouched(before, after, res, InitrdErrorView::Load);
    }
}

/// A file that there is no place for is refused, and leaves guest memory as it is.
pub proof fn law_file_without_a_place(
    before: GuestMemoryMmap<AtomicBitmap>,
    after: GuestMemoryMmap<AtomicBitmap>,
    res: Result<InitrdConfig, InitrdError>,
    read: FileRead,
    size: usize,
)
    requires
        loads_as(before, after, res, file_loaded(guest_regions(before), read, size, None)),
    ensures
        untouched(before, after),
        res matches Err(InitrdError::Address),
{
    lemma_fails_untouched(before, after, res, InitrdErrorView::Address);
}

/// What is read from a file without failure loads as the same bytes do that are loaded raw: to the same
/// result, the same bytes of guest memory and the same record of written pages.
pub proof fn law_file_loads_like_raw_bytes(regions: Map<int, Seq<u8>>, read: FileRead, address: u64)
    requires
        read.contents@.len() <= usize::MAX,
        read.failure is None,
        !starts_with_magic(read.contents@),
        has_room(regions, address as int, read.contents@.len() as int),
    ensures
        file_loaded(regions, read, read.contents@.len() as usize, Some(address)) == loaded(
            regions,
            read.contents@,
            Some(address),
        ),
{
    let data = read.contents@;
    lemma_magic(data);
    lemma_has_room(regions, address as int, data.len() as int);
    lemma_has_byte(regions, address as int);
    let start = choose|start: int|
        #[trigger] region_holds(regions, start, address as int) && address + data.len() <= start
            + regions[start].len();
    crate::guest_memory::lemma_mapped_run_in_region(regions, start, address as int, data.len());
    assert(data.take(data.len() as int) =~= data);
}

/// Loading a file asks for a place for exactly as many bytes as its metadata says, and reads exactly as
/// many once it has a place with room for them. A file whose size is not known is refused.
pub proof fn law_file_is_placed_by_its_size<
    R: Fn(usize) -> FileRead,
    P: Fn(&GuestMemoryMmap<AtomicBitmap>, usize) -> Option<u64>,
>(
    before: GuestMemoryMmap<AtomicBitmap>,
    after: GuestMemoryMmap<AtomicBitmap>,
    file: InitrdFile<R>,
    initrd_load_addr: P,
    res: Result<InitrdConfig, InitrdError>,
)
    requires
        file_loads(before, after, file, initrd_load_addr, res),
    ensures
        file.size matches Err(e) ==> untouched(before, after) && (match res {
            Err(InitrdError::Metadata(m)) => m@ == e@,
            _ => false,
        }),
        file.size matches Ok(size) ==> exists|address: Option<u64>|
            {
                &&& #[trigger] call_ensures(initrd_load_addr, (&before, size as usize), address)
                &&& match address {
                    None => untouched(before, after) && (res matches Err(InitrdError::Address)),
                    Some(a) => if has_room(guest_regions(before), a as int, size as usize as int) {
                        exists|read: FileRead|
                            {
                                &&& #[trigger] call_ensures(file.read, (size as usize,), read)
                                &&& loads_as(
                                    before,
                                    after,
                                    res,
                                    file_loaded(
                                        guest_regions(before),
                                        read,
                                        size as usize,
                                        Some(a),
                                    ),
                                )
                            }
                    } else {
                        untouched(before, after) && (res matches Err(InitrdError::Load))
                    },
                }
            },
{
    match file.size {
        Err(e) => {
            lemma_fails_untouched(before, after, res, InitrdErrorView::Metadata(e@));
        },
        Ok(size) => {
            let size = size as usize;
            let regions = guest_regions(before);
            let address = choose|address: Option<u64>|
                {
                    &&& #[trigger] call_ensures(initrd_load_addr, (&before, size), address)
                    &&& match placed(regions, size, address) {
                        Err(e) => loads_as(before, after, res, fails(e)),
                        Ok(_) => exists|read: FileRead|
                            {
                                &&& #[trigger] call_ensures(file.read, (size,), read)
                                &&& loads_as(
                                    before,
                                    after,
                                    res,
                                    file_loaded(regions, read, size, address),
                                )
                            },
                    }
                };
            match address {
                None => {
                    lemma_fails_untouched(before, after, res, InitrdErrorView::Address);
                },
                Some(a) => {
                    lemma_has_room(regions, a as int, size as int);
                    if !has_room(regions, a as int, size as int) {
                        lemma_fails_untouched(before, after, res, InitrdErrorView::Load);
                    }
                },
            }
        },
    }
}

/// A chunk stands at `from` in `data` and ends at `to`, and decodes to the bytes of an initrd from
/// `pos` to `end`.
pub open spec fn is_chunk(data: Seq<u8>, from: int, to: int, pos: int, end: int) -> bool {
    &&& 0 <= from
    &&& from + 16 <= to <= data.len()
    &&& 0 <= pos <= end
    &&& word(data, from) == end - pos
    &&& word(data, from + 8) == to - from - 16
    &&& end - pos <= i32::MAX
    &&& lz4_decoded(data.subrange(from + 16, to), end - pos) matches Ok(out) && out.len() == end - pos
}

/// What the chunk from `from` to `to`, of `len` bytes, decodes to.
pub open spec fn chunk_bytes(data: Seq<u8>, from: int, to: int, len: int) -> Seq<u8> {
    lz4_decoded(data.subrange(from + 16, to), len)->Ok_0
}

/// Chunks stand one after the other in `data`, at `at`, and decode to the bytes of an initrd from one
/// of `pos` to the next.
pub open spec fn are_chunks(data: Seq<u8>, at: Seq<int>, pos: Seq<int>) -> bool {
    &&& at.len() == pos.len()
    &&& at.len() > 0
    &&& forall|k: int|
        0 <= k < at.len() - 1 ==> is_chunk(data, #[trigger] at[k], at[k + 1], pos[k], pos[k + 1])
}

/// `bytes` are what the chunks at `at` decode to.
pub open spec fn come_from_chunks(data: Seq<u8>, at: Seq<int>, pos: Seq<int>, bytes: Seq<u8>) -> bool {
    forall|k: int|
        0 <= k < at.len() - 1 ==> bytes.subrange(pos[k], pos[k + 1]) == chunk_bytes(
            data,
            #[trigger] at[k],
            at[k + 1],
            pos[k + 1] - pos[k],
        )
}

proof fn lemma_positions_grow(data: Seq<u8>, at: Seq<int>, pos: Seq<int>, i: int, j: int)
    requires
        are_chunks(data, at, pos),
        0 <= i <= j < pos.len(),
    ensures
        pos[i] <= pos[j],
    decreases j - i,
{
    if i < j {
        lemma_positions_grow(data, at, pos, i, j - 1);
        assert(is_chunk(data, at[j - 1], at[j], pos[j - 1], pos[j]));
    }
}

/// Decoding gets past a chunk.
proof fn lemma_past_chunk(
    data: Seq<u8>,
    from: int,
    to: int,
    end: int,
    n: nat,
    size: nat,
    done: Seq<u8>,
)
    requires
        is_chunk(data, from, to, done.len() as int, end),
        end <= size,
        n > 0,
    ensures
        decoded(data.skip(from), n, size, done) == decoded(
            data.skip(to),
            (n - 1) as nat,
            size,
            done + chunk_bytes(data, from, to, end - done.len()),
        ),
{
    let rest = data.skip(from);
    assert(rest.subrange(0, 8) =~= data.subrange(from, from + 8));
    assert(rest.subrange(8, 16) =~= data.subrange(from + 8, from + 16));
    assert(rest.subrange(16, to - from) =~= data.subrange(from + 16, to));
    assert(rest.skip(to - from) =~= data.skip(to));
    assert(chunk_error(rest, done.len(), size) is None);
}

/// Decoding gets past the chunks at `at`.
#[verifier::rlimit(40)]
proof fn lemma_past_chunks(
    data: Seq<u8>,
    at: Seq<int>,
    pos: Seq<int>,
    n: nat,
    size: nat,
    k: nat,
) -> (done: Seq<u8>)
    requires
        are_chunks(data, at, pos),
        0 <= at[0] <= data.len(),
        pos[0] == 0,
        k < at.len(),
        at.len() - 1 <= n,
        pos.last() <= size,
    ensures
        done.len() == pos[k as int],
        0 <= at[k as int] <= data.len(),
        decoded(data.skip(at[0]), n, size, Seq::empty()) == decoded(
            data.skip(at[k as int]),
            (n - k) as nat,
            size,
            done,
        ),
        forall|j: int|
            0 <= j < k ==> done.subrange(pos[j], pos[j + 1]) == chunk_bytes(
                data,
                #[trigger] at[j],
                at[j + 1],
                pos[j + 1] - pos[j],
            ),
    decreases k,
{
    if k == 0 {
        Seq::empty()
    } else {
        let i = k - 1;
        let before = lemma_past_chunks(data, at, pos, n, size, i as nat);
        let from = at[i];
        let to = at[i + 1];
        let len = pos[i + 1] - pos[i];
        assert(is_chunk(data, at[i], at[i + 1], pos[i], pos[i + 1]));
        lemma_positions_grow(data, at, pos, i + 1, pos.len() - 1);
        lemma_past_chunk(data, from, to, pos[i + 1], (n - i) as nat, size, before);
        let out = chunk_bytes(data, from, to, len);
        let done = before + out;
        assert forall|j: int| 0 <= j < k implies done.subrange(pos[j], pos[j + 1]) == chunk_bytes(
            data,
            #[trigger] at[j],
            at[j + 1],
            pos[j + 1] - pos[j],
        ) by {
            assert(is_chunk(data, at[j], at[j + 1], pos[j], pos[j + 1]));
            if j < i {
                lemma_positions_grow(data, at, pos, j + 1, i);
                assert(done.subrange(pos[j], pos[j + 1]) =~= before.subrange(pos[j], pos[j + 1]));
            } else {
                assert(done.subrange(pos[j], pos[j + 1]) =~= out);
            }
        }
        done
    }
}

/// Where decoding succeeds, there are chunks that it has decoded.
#[verifier::rlimit(40)]
proof fn lemma_chunks_of(data: Seq<u8>, from: int, n: nat, size: nat, done: Seq<u8>) -> (r: (
    Seq<int>,
    Seq<int>,
))
    requires
        0 <= from <= data.len(),
        decoded(data.skip(from), n, size, done).refusal is None,
    ensures
        are_chunks(data, r.0, r.1),
        r.0.len() == n + 1,
        r.0[0] == from,
        r.1[0] == done.len(),
        r.1.last() == size,
    decreases n,
{
    if n == 0 {
        (seq![from], seq![done.len() as int])
    } else {
        let rest = data.skip(from);
        let to = from + 16 + word(rest, 8);
        assert(chunk_error(rest, done.len(), size) is None);
        assert(rest.subrange(0, 8) =~= data.subrange(from, from + 8));
        assert(rest.subrange(8, 16) =~= data.subrange(from + 8, from + 16));
        assert(rest.subrange(16, to - from) =~= data.subrange(from + 16, to));
        assert(rest.skip(to - from) =~= data.skip(to));
        let out = lz4_decoded(data.subrange(from + 16, to), word(data, from) as int)->Ok_0;
        let (at1, pos1) = lemma_chunks_of(data, to, (n - 1) as nat, size, done + out);
        let at = seq![from] + at1;
        let pos = seq![done.len() as int] + pos1;
        assert forall|k: int| 0 <= k < at.len() - 1 implies is_chunk(
            data,
            #[trigger] at[k],
            at[k + 1],
            pos[k],
            pos[k + 1],
        ) by {
            if k > 0 {
                assert(is_chunk(data, at1[k - 1], at1[k], pos1[k - 1], pos1[k]));
            }
        }
        (at, pos)
    }
}

/// Chunks that make up the whole initrd stand in the image `data`: as many as it says, right behind its
/// header, and for as many bytes as it says.
pub open spec fn are_all_chunks(data: Seq<u8>, at: Seq<int>, pos: Seq<int>) -> bool {
    &&& are_chunks(data, at, pos)
    &&& at.len() == word(data, 16) + 1
    &&& at[0] == 24
    &&& pos[0] == 0
    &&& pos.last() == word(data, 8)
}

/// An image in the lz4 format loads exactly if it consists of as many chunks as it says, each of which
/// decodes to as many bytes as it says, and all of them to the size of the initrd. It is then at the
/// address, and as long as it says, with everything else the same, and exactly its pages are recorded as
/// written. Otherwise no page is recorded.
#[verifier::rlimit(40)]
pub proof fn law_lz4_initrd_loads_iff_its_chunks_decode(
    before: GuestMemoryMmap<AtomicBitmap>,
    after: GuestMemoryMmap<AtomicBitmap>,
    res: Result<InitrdConfig, InitrdError>,
    data: Seq<u8>,
    address: u64,
)
    requires
        loads_as(before, after, res, loaded(guest_regions(before), data, Some(address))),
        starts_with_magic(data),
    ensures
        data.len() < 24 ==> untouched(before, after) && refused_with(res, "truncated image"@),
        data.len() >= 24 && !has_room(
            guest_regions(before),
            address as int,
            word(data, 8) as int,
        ) ==> untouched(before, after) && (res matches Err(InitrdError::Load)),
        data.len() >= 24 && has_room(guest_regions(before), address as int, word(data, 8) as int)
            ==> {
            &&& res is Ok <==> exists|at: Seq<int>, pos: Seq<int>| #[trigger]
                are_all_chunks(data, at, pos)
            &&& res matches Ok(config) ==> {
                &&& config.address == address
                &&& config.size == word(data, 8)
                &&& same_outside(
                    guest_regions(before),
                    guest_regions(after),
                    address as int,
                    word(data, 8) as int,
                )
                &&& records_exactly(before, after, address as int, word(data, 8) as int)
            }
            &&& res matches Err(e) ==> e is Lz4 && guest_dirty(after) == guest_dirty(before)
        },
{
    lemma_magic(data);
    let regions = guest_regions(before);
    if data.len() < 24 {
        lemma_fails_untouched(before, after, res, InitrdErrorView::Lz4("truncated image"@));
    } else {
        let size = word(data, 8);
        let n = word(data, 16) as nat;
        lemma_has_room(regions, address as int, size as int);
        if !has_room(regions, address as int, size as int) {
            lemma_fails_untouched(before, after, res, InitrdErrorView::Load);
        } else {
            let d = decoded(data.skip(24), n, size as nat, Seq::empty());
            if d.refusal is None {
                let (at, pos) = lemma_chunks_of(data, 24, n, size as nat, Seq::empty());
                assert(are_all_chunks(data, at, pos));
                let done = lemma_past_chunks(data, at, pos, n, size as nat, n);
                lemma_overlaid(regions, address as int, d.done);
                lemma_recorded(before, after, address as int, size as nat);
            } else {
                lemma_recorded(before, after, address as int, 0);
            }
            if exists|at: Seq<int>, pos: Seq<int>| #[trigger] are_all_chunks(data, at, pos) {
                let (at, pos) = choose|at: Seq<int>, pos: Seq<int>| #[trigger]
                    are_all_chunks(data, at, pos);
                let done = lemma_past_chunks(data, at, pos, n, size as nat, n);
            }
        }
    }
}

/// An image in the lz4 format whose chunks decode is in guest memory as what they decode to, one chunk
/// behind the other.
pub proof fn law_lz4_initrd_is_in_memory(
    before: GuestMemoryMmap<AtomicBitmap>,
    after: GuestMemoryMmap<AtomicBitmap>,
    res: Result<InitrdConfig, InitrdError>,
    data: Seq<u8>,
    address: u64,
    at: Seq<int>,
    pos: Seq<int>,
)
    requires
        loads_as(before, after, res, loaded(guest_regions(before), data, Some(address))),
        starts_with_magic(data),
        data.len() >= 24,
        has_room(guest_regions(before), address as int, word(data, 8) as int),
        are_all_chunks(data, at, pos),
    ensures
        exists|bytes: Seq<u8>|
            {
                &&& bytes.len() == word(data, 8)
                &&& come_from_chunks(data, at, pos, bytes)
                &&& #[trigger] holds(guest_regions(after), address as int, bytes)
            },
{
    lemma_magic(data);
    let regions = guest_regions(before);
    let size = word(data, 8) as nat;
    let n = word(data, 16) as nat;
    lemma_has_room(regions, address as int, size as int);
    let done = lemma_past_chunks(data, at, pos, n, size, n);
    lemma_overlaid(regions, address as int, done);
    assert(holds(guest_regions(after), address as int, done));
}

/// The first chunk that is refused is the one that is named, with what is wrong with it: behind the
/// chunks at `at`, which decode, either there is no whole chunk, or it exceeds the size of the initrd,
/// or it is too long for the decoder, or the decoder refuses it or decodes it to another length; or
/// there are no more chunks, and the initrd is not complete.
#[verifier::rlimit(40)]
pub proof fn law_first_bad_chunk_is_named(
    before: GuestMemoryMmap<AtomicBitmap>,
    after: GuestMemoryMmap<AtomicBitmap>,
    res: Result<InitrdConfig, InitrdError>,
    data: Seq<u8>,
    address: u64,
    at: Seq<int>,
    pos: Seq<int>,
)
    requires
        loads_as(before, after, res, loaded(guest_regions(before), data, Some(address))),
        starts_with_magic(data),
        data.len() >= 24,
        has_room(guest_regions(before), address as int, word(data, 8) as int),
        are_chunks(data, at, pos),
        at[0] == 24,
        pos[0] == 0,
        at.len() <= word(data, 16) + 1,
        pos.last() <= word(data, 8),
    ensures
        ({
            let r = at.last();
            let p = pos.last();
            let size = word(data, 8);
            let more = at.len() <= word(data, 16);
            let raw_len = word(data, r);
            let whole = r + 16 <= data.len() && r + 16 + word(data, r + 8) <= data.len();
            let fits = whole && p + raw_len <= size;
            let block = data.subrange(r + 16, r + 16 + word(data, r + 8));
            &&& more && !whole ==> refused_with(res, "truncated image"@)
            &&& more && whole && p + raw_len > size ==> refused_with(
                res,
                "chunks exceed declared size "@ + decimal(size as nat),
            )
            &&& more && fits && raw_len > i32::MAX ==> refused_with(
                res,
                "chunk too big: "@ + decimal(raw_len as nat),
            )
            &&& more && fits && raw_len <= i32::MAX ==> match lz4_decoded(block, raw_len as int) {
                Err(e) => refused_with(res, "chunk at "@ + decimal(p as nat) + ": "@ + e),
                Ok(out) => out.len() != raw_len ==> refused_with(
                    res,
                    "chunk at "@ + decimal(p as nat) + ": decompressed "@ + decimal(out.len())
                        + " bytes, expected "@ + decimal(raw_len as nat),
                ),
            }
            &&& !more && p != size ==> refused_with(
                res,
                "decompressed "@ + decimal(p as nat) + " bytes, expected "@ + decimal(size as nat),
            )
        }),
{
    lemma_magic(data);
    let regions = guest_regions(before);
    let size = word(data, 8) as nat;
    let n = word(data, 16) as nat;
    lemma_has_room(regions, address as int, size as int);
    let k = (at.len() - 1) as nat;
    let done = lemma_past_chunks(data, at, pos, n, size, k);
    let r = at.last();
    let rest = data.skip(r);
    if r + 16 <= data.len() {
        assert(rest.subrange(0, 8) =~= data.subrange(r, r + 8));
        assert(rest.subrange(8, 16) =~= data.subrange(r + 8, r + 16));
        let end = 16 + word(rest, 8);
        if r + end <= data.len() {
            assert(rest.subrange(16, end) =~= data.subrange(r + 16, r + end));
        }
    }
}

/// Where a chunk is refused, the chunks before it are in guest memory, one behind the other.
#[verifier::rlimit(40)]
pub proof fn law_chunks_before_a_bad_one_stay(
    before: GuestMemoryMmap<AtomicBitmap>,
    after: GuestMemoryMmap<AtomicBitmap>,
    res: Result<InitrdConfig, InitrdError>,
    data: Seq<u8>,
    address: u64,
    at: Seq<int>,
    pos: Seq<int>,
)
    requires
        loads_as(before, after, res, loaded(guest_regions(before), data, Some(address))),
        starts_with_magic(data),
        data.len() >= 24,
        has_room(guest_regions(before), address as int, word(data, 8) as int),
        are_chunks(data, at, pos),
        at[0] == 24,
        pos[0] == 0,
        at.len() <= word(data, 16) + 1,
        pos.last() <= word(data, 8),
    ensures
        exists|bytes: Seq<u8>|
            {
                &&& bytes.len() == pos.last()
                &&& come_from_chunks(data, at, pos, bytes)
                &&& #[trigger] holds(guest_regions(after), address as int, bytes)
            },
{
    lemma_magic(data);
    let regions = guest_regions(before);
    let size = word(data, 8) as nat;
    let n = word(data, 16) as nat;
    lemma_has_room(regions, address as int, size as int);
    let k = (at.len() - 1) as nat;
    let done = lemma_past_chunks(data, at, pos, n, size, k);
    let d = decoded(data.skip(24), n, size, Seq::empty());
    lemma_decoding_grows(data.skip(at.last()), (n - k) as nat, size, done);
    let l = loaded(regions, data, Some(address));
    let all = if l.torn == 0 {
        l.bytes
    } else {
        l.bytes + choose|rest: Seq<u8>|
            rest.len() == l.torn && guest_regions(after) == #[trigger] overlaid(
                regions,
                l.at,
                l.bytes + rest,
            )
    };
    assert(guest_regions(after) == overlaid(regions, address as int, all));
    lemma_overlaid(regions, address as int, all);
    assert forall|start: int, i: int|
        guest_regions(after).contains_key(start) && 0 <= i < guest_regions(after)[start].len()
            && address <= start + i < address + done.len() implies #[trigger] guest_regions(
        after,
    )[start][i] == done[start + i - address] by {
        let x = start + i - address;
        assert(all[x] == d.done[x]);
        assert(d.done.take(done.len() as int)[x] == done[x]);
    }
    assert(holds(guest_regions(after), address as int, done));
}

proof fn lemma_decoding_grows(rest: Seq<u8>, n: nat, size: nat, done: Seq<u8>)
    ensures
        decoded(rest, n, size, done).done.len() >= done.len(),
        decoded(rest, n, size, done).done.take(done.len() as int) == done,
    decreases n,
{
    let d = decoded(rest, n, size, done).done;
    if n > 0 && chunk_error(rest, done.len(), size) is None {
        let raw_len = word(rest, 0) as nat;
        let end = 16 + word(rest, 8);
        if let Ok(out) = lz4_decoded(rest.subrange(16, end), raw_len as int) {
            if out.len() == raw_len {
                lemma_decoding_grows(rest.skip(end), (n - 1) as nat, size, done + out);
                assert(d.take((done + out).len() as int).take(done.len() as int) =~= d.take(
                    done.len() as int,
                ));
            }
            assert((done + out).take(done.len() as int) =~= done);
        }
    }
    assert(done.take(done.len() as int) =~= done);
}

} // verus!
