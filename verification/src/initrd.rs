//! Loading an initrd into guest memory: as it is, or decompressed from the chunked lz4 format.

use crate::bytes::{u64_at, word};
use crate::guest_memory::{
    guest_dirty, guest_pages, guest_regions, has_slice, in_one_region, lemma_mapped_run_in_region,
    lemma_overlaid_nothing, lemma_overlaid_region, lemma_overlaid_twice, lemma_part_of_region,
    lemma_recorded_more, lemma_recorded_nothing, mapped_run, mark_dirty, overlaid, read_slice,
    recorded, region_holds, store_byte, writable, write_slice,
};
use crate::load_laws::{lemma_overlaid, lemma_run, same_outside};
use crate::lz4_block::{lz4_decoded, lz4_decompress};
use crate::lz4_pack::INITRD_LZ4_MAGIC;
use crate::text::{decimal, message, message_with, push_decimal};
use vm_memory::bitmap::AtomicBitmap;
use vm_memory::GuestMemoryMmap;
use vstd::prelude::*;
use vstd::slice::slice_subrange;
use vstd::string::StringExecFns;

verus! {

/// Errors associated with initrd loading.
#[derive(Debug)]
pub enum InitrdError {
    /// Failed to compute the initrd address.
    Address,
    /// Cannot load initrd due to an invalid memory configuration.
    Load,
    /// Cannot image metadata.
    Metadata(String),
    /// Cannot copy initrd file fd.
    CloneFd(String),
    /// Cannot load initrd due to an invalid image.
    Read(String),
    /// Cannot load lz4-compressed initrd.
    Lz4(String),
}

/// An [`InitrdError`], with the characters of its text.
pub enum InitrdErrorView {
    Address,
    Load,
    Metadata(Seq<char>),
    CloneFd(Seq<char>),
    Read(Seq<char>),
    Lz4(Seq<char>),
}

impl View for InitrdError {
    type V = InitrdErrorView;

    open spec fn view(&self) -> InitrdErrorView {
        match self {
            InitrdError::Address => InitrdErrorView::Address,
            InitrdError::Load => InitrdErrorView::Load,
            InitrdError::Metadata(e) => InitrdErrorView::Metadata(e@),
            InitrdError::CloneFd(e) => InitrdErrorView::CloneFd(e@),
            InitrdError::Read(e) => InitrdErrorView::Read(e@),
            InitrdError::Lz4(e) => InitrdErrorView::Lz4(e@),
        }
    }
}

/// What is said to a user of an error.
pub open spec fn error_message(e: InitrdErrorView) -> Seq<char> {
    match e {
        InitrdErrorView::Address => "Failed to compute the initrd address."@,
        InitrdErrorView::Load => "Cannot load initrd due to an invalid memory configuration."@,
        InitrdErrorView::Metadata(m) => "Cannot image metadata: "@ + m,
        InitrdErrorView::CloneFd(m) => "Cannot copy initrd file fd: "@ + m,
        InitrdErrorView::Read(m) => "Cannot load initrd due to an invalid image: "@ + m,
        InitrdErrorView::Lz4(m) => "Cannot load lz4-compressed initrd: "@ + m,
    }
}

impl InitrdError {
    /// The error as it is shown to a user.
    pub fn message(&self) -> (m: String)
        ensures
            m@ == error_message(self@),
    {
        match self {
            InitrdError::Address => message("Failed to compute the initrd address."),
            InitrdError::Load => message(
                "Cannot load initrd due to an invalid memory configuration.",
            ),
            InitrdError::Metadata(e) => message("Cannot image metadata: ").concat(e.as_str()),
            InitrdError::CloneFd(e) => message("Cannot copy initrd file fd: ").concat(e.as_str()),
            InitrdError::Read(e) => message("Cannot load initrd due to an invalid image: ").concat(
                e.as_str(),
            ),
            InitrdError::Lz4(e) => message("Cannot load lz4-compressed initrd: ").concat(
                e.as_str(),
            ),
        }
    }
}

/// Splits the next `len` bytes off the front of `data`.
pub fn take<'a>(data: &mut &'a [u8], len: usize) -> (res: Result<&'a [u8], InitrdError>)
    ensures
        old(data)@.len() < len ==> {
            &&& res matches Err(e) && e@ == InitrdErrorView::Lz4("truncated image"@)
            &&& final(data)@ == old(data)@
        },
        old(data)@.len() >= len ==> {
            &&& res matches Ok(head) && head@ == old(data)@.take(len as int)
            &&& final(data)@ == old(data)@.skip(len as int)
        },
{
    if data.len() < len {
        return Err(InitrdError::Lz4(message("truncated image")));
    }
    let (head, tail) = data.split_at(len);
    *data = tail;
    Ok(head)
}

/// Splits a 64-bit integer off the front of `data`.
pub fn take_usize(data: &mut &[u8]) -> (res: Result<usize, InitrdError>)
    ensures
        old(data)@.len() < 8 ==> {
            &&& res matches Err(e) && e@ == InitrdErrorView::Lz4("truncated image"@)
            &&& final(data)@ == old(data)@
        },
        old(data)@.len() >= 8 ==> {
            &&& res matches Ok(v) && v == word(old(data)@, 0)
            &&& final(data)@ == old(data)@.skip(8)
        },
{
    let head = match take(data, 8) {
        Ok(head) => head,
        Err(e) => return Err(e),
    };
    assert(head@.subrange(0, 8) =~= old(data)@.subrange(0, 8));
    Ok(u64_at(head, 0) as usize)
}

/// Why the chunk at the front of `rest` is not handed to the decoder, with `pos` of the initrd's
/// `size` bytes decoded, if it is not.
pub open spec fn chunk_error(rest: Seq<u8>, pos: nat, size: nat) -> Option<Seq<char>> {
    if rest.len() < 16 || rest.len() - 16 < word(rest, 8) {
        Some("truncated image"@)
    } else if pos + word(rest, 0) > size {
        Some("chunks exceed declared size "@ + decimal(size))
    } else if word(rest, 0) > i32::MAX {
        Some("chunk too big: "@ + decimal(word(rest, 0) as nat))
    } else {
        None
    }
}

/// Why the decoder's result `written` on the chunk at `pos`, of `raw_len` bytes, is refused, if it is:
/// it is the number of bytes that the decoder has written, or the text of its error.
pub open spec fn chunk_refusal(pos: nat, raw_len: nat, written: Result<nat, Seq<char>>) -> Option<
    Seq<char>,
> {
    match written {
        Err(e) => Some("chunk at "@ + decimal(pos) + ": "@ + e),
        Ok(n) => if n != raw_len {
            Some(
                "chunk at "@ + decimal(pos) + ": decompressed "@ + decimal(n)
                    + " bytes, expected "@ + decimal(raw_len),
            )
        } else {
            None
        },
    }
}

/// Takes the decoder's result `written` on the chunk at `pos`, of `raw_len` bytes: the number of
/// bytes that it has written, or the text of its error.
pub fn accept_chunk(pos: usize, raw_len: usize, written: Result<usize, String>) -> (res: Result<
    (),
    InitrdError,
>)
    ensures
        ({
            let w = match written {
                Ok(n) => Ok::<nat, Seq<char>>(n as nat),
                Err(e) => Err::<nat, Seq<char>>(e@),
            };
            match res {
                Ok(()) => chunk_refusal(pos as nat, raw_len as nat, w) is None,
                Err(e) => {
                    &&& e is Lz4
                    &&& chunk_refusal(pos as nat, raw_len as nat, w) == Some(e->Lz4_0@)
                },
            }
        }),
{
    match written {
        Err(e) => {
            let m = message_with("chunk at ", pos as u64, ": ").concat(e.as_str());
            Err(InitrdError::Lz4(m))
        },
        Ok(n) => {
            if n == raw_len {
                return Ok(());
            }
            let mut m = message_with("chunk at ", pos as u64, ": decompressed ");
            push_decimal(&mut m, n as u64);
            m.append(" bytes, expected ");
            push_decimal(&mut m, raw_len as u64);
            Err(InitrdError::Lz4(m))
        },
    }
}

/// What decoding an initrd comes to.
#[verifier::ext_equal]
pub struct Decoding {
    /// The bytes that are decoded
    pub done: Seq<u8>,
    /// How many bytes behind them the decoder may have written over, on a chunk that is refused
    pub torn: nat,
    /// Why a chunk, or the initrd as a whole, is refused, if it is
    pub refusal: Option<Seq<char>>,
}

/// What decoding the chunks in `rest` comes to, of an initrd of `size` bytes of which `done` are
/// decoded and `n` chunks are to come. It ends at the first chunk that is refused.
pub open spec fn decoded(rest: Seq<u8>, n: nat, size: nat, done: Seq<u8>) -> Decoding
    decreases n,
{
    if n == 0 {
        Decoding {
            done,
            torn: 0,
            refusal: if done.len() == size {
                None
            } else {
                Some("decompressed "@ + decimal(done.len()) + " bytes, expected "@ + decimal(size))
            },
        }
    } else if chunk_error(rest, done.len(), size) is Some {
        Decoding { done, torn: 0, refusal: chunk_error(rest, done.len(), size) }
    } else {
        let raw_len = word(rest, 0) as nat;
        let end = 16 + word(rest, 8);
        match lz4_decoded(rest.subrange(16, end), raw_len as int) {
            Err(e) => Decoding {
                done,
                torn: raw_len,
                refusal: chunk_refusal(done.len(), raw_len, Err(e)),
            },
            Ok(out) => {
                let refusal = chunk_refusal(done.len(), raw_len, Ok(out.len()));
                if refusal is Some {
                    Decoding { done: done + out, torn: (raw_len - out.len()) as nat, refusal }
                } else {
                    decoded(rest.skip(end), (n - 1) as nat, size, done + out)
                }
            },
        }
    }
}

/// Where an initrd went in guest memory.
#[derive(Debug)]
pub struct InitrdConfig {
    /// Load address of initrd in guest memory
    pub address: u64,
    /// Size of initrd in guest memory
    pub size: usize,
}

/// What loading an initrd comes to, and what it does to guest memory.
#[verifier::ext_equal]
pub struct Loading {
    /// What it returns
    pub result: Result<InitrdConfig, InitrdErrorView>,
    /// Where it writes
    pub at: int,
    /// The bytes that it writes there
    pub bytes: Seq<u8>,
    /// How many bytes behind those may be written over
    pub torn: nat,
    /// Of how many bytes, from where it writes on, the pages are recorded as written
    pub recorded: nat,
}

/// A load that fails with the error `e` before it has touched guest memory.
pub open spec fn fails(e: InitrdErrorView) -> Loading {
    Loading { result: Err(e), at: 0, bytes: Seq::empty(), torn: 0, recorded: 0 }
}

/// `data` is an initrd in the chunked lz4 format.
pub open spec fn is_lz4(data: Seq<u8>) -> bool {
    data.len() >= 8 && data.take(8) == INITRD_LZ4_MAGIC@
}

/// The size of the initrd `data` in guest memory.
pub open spec fn size_in_memory(data: Seq<u8>) -> Result<usize, InitrdErrorView> {
    if !is_lz4(data) {
        Ok(data.len() as usize)
    } else if data.len() < 24 {
        Err(InitrdErrorView::Lz4("truncated image"@))
    } else {
        Ok(word(data, 8))
    }
}

/// What loading the initrd `data` at `address` comes to: `address` is what the placement of an initrd
/// of that size gave.
pub open spec fn loaded(
    regions: Map<int, Seq<u8>>,
    data: Seq<u8>,
    address: Option<u64>,
) -> Loading {
    match (size_in_memory(data), address) {
        (Err(e), _) => fails(e),
        (Ok(_), None) => fails(InitrdErrorView::Address),
        (Ok(size), Some(address)) => if is_lz4(data) {
            loaded_lz4(regions, data, size, address)
        } else {
            let written = mapped_run(regions, address as int, data.len());
            Loading {
                result: if writable(regions, address as int, data.len()) {
                    Ok(InitrdConfig { address, size })
                } else {
                    Err(InitrdErrorView::Load)
                },
                at: address as int,
                bytes: data.take(written as int),
                torn: 0,
                recorded: written,
            }
        },
    }
}

/// What decompressing the initrd `data` to `address` comes to. Pages are recorded as written only
/// once all of it is decompressed.
pub open spec fn loaded_lz4(
    regions: Map<int, Seq<u8>>,
    data: Seq<u8>,
    size: usize,
    address: u64,
) -> Loading {
    if !in_one_region(regions, address as int, size as int) {
        fails(InitrdErrorView::Load)
    } else {
        let d = decoded(data.skip(24), word(data, 16) as nat, size as nat, Seq::empty());
        Loading {
            result: match d.refusal {
                Some(e) => Err(InitrdErrorView::Lz4(e)),
                None => Ok(InitrdConfig { address, size }),
            },
            at: address as int,
            bytes: d.done,
            torn: d.torn,
            recorded: if d.refusal is None {
                size as nat
            } else {
                0
            },
        }
    }
}

/// `res` is the outcome `o`, up to the texts of errors.
pub open spec fn outcome_is(
    res: Result<InitrdConfig, InitrdError>,
    o: Result<InitrdConfig, InitrdErrorView>,
) -> bool {
    match res {
        Ok(config) => o == Ok::<InitrdConfig, InitrdErrorView>(config),
        Err(e) => o == Err::<InitrdConfig, InitrdErrorView>(e@),
    }
}

/// The regions `after` are the regions `before` with `bytes` written from `at` on, and with anything
/// at all in the `torn` bytes behind.
pub open spec fn overwritten(
    before: Map<int, Seq<u8>>,
    after: Map<int, Seq<u8>>,
    at: int,
    bytes: Seq<u8>,
    torn: nat,
) -> bool {
    if torn == 0 {
        after == overlaid(before, at, bytes)
    } else {
        exists|rest: Seq<u8>|
            rest.len() == torn && after == #[trigger] overlaid(before, at, bytes + rest)
    }
}

/// From the memory `before` to the memory `after`, a load has returned `res` and done what `l` says.
/// Besides the pages that it records, no page is recorded as written, and none is forgotten.
pub open spec fn loads_as(
    before: GuestMemoryMmap<AtomicBitmap>,
    after: GuestMemoryMmap<AtomicBitmap>,
    res: Result<InitrdConfig, InitrdError>,
    l: Loading,
) -> bool {
    &&& outcome_is(res, l.result)
    &&& overwritten(guest_regions(before), guest_regions(after), l.at, l.bytes, l.torn)
    &&& guest_dirty(after) == recorded(guest_dirty(before), guest_pages(before), l.at, l.recorded)
    &&& guest_pages(after) == guest_pages(before)
}

/// What reading an initrd file gave.
pub struct FileRead {
    /// The bytes that were read, in order
    pub contents: Vec<u8>,
    /// Why no more of them could be read, where that is not all of the file
    pub failure: Option<String>,
    /// Whether the system has failed a read. What such a read has written is not known, so the pages
    /// of the whole initrd count as written
    pub failed_read: bool,
}

impl FileRead {
    /// No more than `size` bytes were read, and no fewer unless reading has failed.
    pub open spec fn well_formed(&self, size: usize) -> bool {
        &&& self.contents@.len() <= size
        &&& self.failure is None ==> self.contents@.len() == size
    }
}

/// What loading an initrd file of `size` bytes at `address` comes to, of which reading gave `read`.
pub open spec fn file_loaded(
    regions: Map<int, Seq<u8>>,
    read: FileRead,
    size: usize,
    address: Option<u64>,
) -> Loading {
    match placed(regions, size, address) {
        Err(e) => fails(e),
        Ok(address) => Loading {
            result: match read.failure {
                Some(e) => Err(InitrdErrorView::Read(e@)),
                None => Ok(InitrdConfig { address, size }),
            },
            at: address as int,
            bytes: read.contents@,
            torn: 0,
            recorded: if read.failed_read {
                size as nat
            } else {
                read.contents@.len()
            },
        },
    }
}

/// An initrd file.
pub struct InitrdFile<R: Fn(usize) -> FileRead> {
    /// Size of the file, by its metadata, or why it is not known
    pub size: Result<u64, String>,
    /// Reads as many bytes of the file as it is told
    pub read: R,
}

impl<R: Fn(usize) -> FileRead> InitrdFile<R> {
    /// The file can be read, to no more than the number of bytes asked for.
    pub open spec fn well_formed(&self) -> bool {
        &&& forall|n: usize| #[trigger] call_requires(self.read, (n,))
        &&& forall|n: usize, r: FileRead| #[trigger]
            call_ensures(self.read, (n,), r) ==> r.well_formed(n)
    }
}

/// What the boot configuration says of the initrd.
pub struct BootConfig<R: Fn(usize) -> FileRead> {
    /// The initrd file, if there is one, or why its descriptor cannot be copied
    pub initrd_file: Option<Result<InitrdFile<R>, String>>,
}

fn has_magic(data: &[u8]) -> (res: bool)
    ensures
        res == is_lz4(data@),
{
    if data.len() < 8 {
        return false;
    }
    let mut i: usize = 0;
    while i < 8
        invariant
            i <= 8,
            data@.len() >= 8,
            forall|k: int| 0 <= k < i ==> data@[k] == INITRD_LZ4_MAGIC@[k],
        decreases 8 - i,
    {
        if data[i] != INITRD_LZ4_MAGIC[i] {
            assert(data@.take(8)[i as int] != INITRD_LZ4_MAGIC@[i as int]);
            return false;
        }
        i = i + 1;
    }
    assert(data@.take(8) =~= INITRD_LZ4_MAGIC@);
    true
}

/// Splits a chunk off the front of `rest`, with `pos` of the initrd's `size` bytes decoded: its
/// length, and its block.
fn take_chunk<'a>(rest: &mut &'a [u8], pos: usize, size: usize) -> (res: Result<
    (usize, &'a [u8]),
    InitrdError,
>)
    ensures
        match res {
            Ok((raw_len, block)) => {
                &&& chunk_error(old(rest)@, pos as nat, size as nat) is None
                &&& raw_len == word(old(rest)@, 0)
                &&& block@ == old(rest)@.subrange(16, 16 + word(old(rest)@, 8))
                &&& final(rest)@ == old(rest)@.skip(16 + word(old(rest)@, 8))
            },
            Err(e) => {
                &&& e is Lz4
                &&& chunk_error(old(rest)@, pos as nat, size as nat) == Some(e->Lz4_0@)
            },
        },
{
    let ghost before = rest@;
    let raw_len = match take_usize(rest) {
        Ok(v) => v,
        Err(e) => return Err(e),
    };
    let clen = match take_usize(rest) {
        Ok(v) => v,
        Err(e) => return Err(e),
    };
    assert(before.skip(8).subrange(0, 8) =~= before.subrange(8, 16));
    let block = match take(rest, clen) {
        Ok(v) => v,
        Err(e) => return Err(e),
    };
    assert(block@ =~= before.subrange(16, 16 + word(before, 8)));
    assert(rest@ =~= before.skip(16 + word(before, 8)));
    if pos > size || raw_len > size - pos {
        let m = message_with("chunks exceed declared size ", size as u64, "");
        proof {
            reveal_strlit("");
            assert(m@ =~= "chunks exceed declared size "@ + decimal(size as nat));
        }
        return Err(InitrdError::Lz4(m));
    }
    if raw_len > i32::MAX as usize {
        let m = message_with("chunk too big: ", raw_len as u64, "");
        proof {
            reveal_strlit("");
            assert(m@ =~= "chunk too big: "@ + decimal(raw_len as nat));
        }
        return Err(InitrdError::Lz4(m));
    }
    Ok((raw_len, block))
}

/// What placing an initrd of `size` bytes at `address` in one region comes to.
pub open spec fn placed(regions: Map<int, Seq<u8>>, size: usize, address: Option<u64>) -> Result<
    u64,
    InitrdErrorView,
> {
    match address {
        None => Err(InitrdErrorView::Address),
        Some(address) => if in_one_region(regions, address as int, size as int) {
            Ok(address)
        } else {
            Err(InitrdErrorView::Load)
        },
    }
}

fn place(vm_memory: &GuestMemoryMmap<AtomicBitmap>, size: usize, address: Option<u64>) -> (res:
    Result<u64, InitrdError>)
    ensures
        match res {
            Ok(a) => {
                &&& placed(guest_regions(*vm_memory), size, address) == Ok::<u64, InitrdErrorView>(
                    a,
                )
                &&& a + size <= u64::MAX
            },
            Err(e) => placed(guest_regions(*vm_memory), size, address) == Err::<
                u64,
                InitrdErrorView,
            >(e@),
        },
{
    let a = match address {
        Some(a) => a,
        None => return Err(InitrdError::Address),
    };
    if !has_slice(vm_memory, a, size) {
        return Err(InitrdError::Load);
    }
    Ok(a)
}

/// A load that fails before it has touched guest memory.
proof fn lemma_fails(mem: GuestMemoryMmap<AtomicBitmap>, e: InitrdError)
    ensures
        loads_as(mem, mem, Err(e), fails(e@)),
{
    lemma_overlaid_nothing(guest_regions(mem), 0);
    lemma_recorded_nothing(guest_dirty(mem), guest_pages(mem), 0);
}

/// Writes `data` to `address`, within the region that holds the `size` bytes there.
fn write_within(
    vm_memory: &mut GuestMemoryMmap<AtomicBitmap>,
    data: &[u8],
    address: u64,
    size: usize,
)
    requires
        in_one_region(guest_regions(*old(vm_memory)), address as int, size as int),
        data@.len() <= size,
    ensures
        guest_regions(*final(vm_memory)) == overlaid(
            guest_regions(*old(vm_memory)),
            address as int,
            data@,
        ),
        guest_dirty(*final(vm_memory)) == recorded(
            guest_dirty(*old(vm_memory)),
            guest_pages(*old(vm_memory)),
            address as int,
            data@.len(),
        ),
        guest_pages(*final(vm_memory)) == guest_pages(*old(vm_memory)),
{
    proof {
        let regions = guest_regions(*vm_memory);
        let start = choose|start: int|
            #[trigger] region_holds(regions, start, address as int) && address + size <= start
                + regions[start].len();
        lemma_mapped_run_in_region(regions, start, address as int, data@.len());
        assert(data@.take(data@.len() as int) =~= data@);
    }
    let _ = write_slice(vm_memory, data, address);
}

/// Stores `data` at `address`, within the region that holds the `size` bytes there, without recording
/// any page as written.
fn store_within(
    vm_memory: &mut GuestMemoryMmap<AtomicBitmap>,
    data: &[u8],
    address: u64,
    size: usize,
)
    requires
        in_one_region(guest_regions(*old(vm_memory)), address as int, size as int),
        address + size <= u64::MAX,
        data@.len() <= size,
    ensures
        guest_regions(*final(vm_memory)) == overlaid(
            guest_regions(*old(vm_memory)),
            address as int,
            data@,
        ),
        guest_dirty(*final(vm_memory)) == guest_dirty(*old(vm_memory)),
        guest_pages(*final(vm_memory)) == guest_pages(*old(vm_memory)),
{
    let ghost regions = guest_regions(*vm_memory);
    let mut i: usize = 0;
    proof {
        assert(data@.take(0) =~= Seq::empty());
        lemma_overlaid_nothing(regions, address as int);
    }
    while i < data.len()
        invariant
            i <= data@.len() <= size,
            address + size <= u64::MAX,
            in_one_region(regions, address as int, size as int),
            guest_regions(*vm_memory) == overlaid(regions, address as int, data@.take(i as int)),
            guest_dirty(*vm_memory) == guest_dirty(*old(vm_memory)),
            guest_pages(*vm_memory) == guest_pages(*old(vm_memory)),
        decreases data@.len() - i,
    {
        proof {
            let now = data@.take(i as int);
            lemma_overlaid_region(regions, address as int, size as int, address as int, now);
            lemma_part_of_region(guest_regions(*vm_memory), address as int, size as int, i as int, 1);
            lemma_overlaid_twice(regions, address as int, now, seq![data@[i as int]]);
            assert(now + seq![data@[i as int]] =~= data@.take(i + 1));
        }
        store_byte(vm_memory, address + i as u64, data[i]);
        i = i + 1;
    }
    assert(data@.take(data@.len() as int) =~= data@);
}

/// The regions `after` are the regions `before` with `buf` at `at`, where the decoder has put what it
/// makes of `block`.
spec fn decoded_to(
    before: Map<int, Seq<u8>>,
    after: Map<int, Seq<u8>>,
    at: int,
    block: Seq<u8>,
    buf: Seq<u8>,
) -> bool {
    &&& after == overlaid(before, at, buf)
    &&& lz4_decoded(block, buf.len() as int) matches Ok(out) ==> out.len() <= buf.len() && buf.take(
        out.len() as int,
    ) == out
}

/// Decompresses the chunk at `pos`, of `raw_len` bytes, from `block` to guest memory at `at`, over the
/// bytes that are there. No page is recorded as written.
fn decode_chunk(
    vm_memory: &mut GuestMemoryMmap<AtomicBitmap>,
    block: &[u8],
    raw_len: usize,
    pos: usize,
    at: u64,
) -> (res: Result<(), InitrdError>)
    requires
        raw_len <= i32::MAX,
        at + raw_len <= u64::MAX,
        raw_len > 0 ==> in_one_region(guest_regions(*old(vm_memory)), at as int, raw_len as int),
    ensures
        exists|buf: Seq<u8>|
            buf.len() == raw_len && #[trigger] decoded_to(
                guest_regions(*old(vm_memory)),
                guest_regions(*final(vm_memory)),
                at as int,
                block@,
                buf,
            ),
        guest_dirty(*final(vm_memory)) == guest_dirty(*old(vm_memory)),
        guest_pages(*final(vm_memory)) == guest_pages(*old(vm_memory)),
        ({
            let w = match lz4_decoded(block@, raw_len as int) {
                Ok(out) => Ok::<nat, Seq<char>>(out.len()),
                Err(e) => Err::<nat, Seq<char>>(e),
            };
            match res {
                Ok(()) => chunk_refusal(pos as nat, raw_len as nat, w) is None,
                Err(e) => {
                    &&& e is Lz4
                    &&& chunk_refusal(pos as nat, raw_len as nat, w) == Some(e->Lz4_0@)
                },
            }
        }),
{
    let ghost regions = guest_regions(*vm_memory);
    let mut buf: Vec<u8> = Vec::new();
    if raw_len > 0 {
        buf = read_slice(vm_memory, at, raw_len);
    }
    let written = lz4_decompress(block, raw_len as i32, &mut buf);
    if raw_len > 0 {
        store_within(vm_memory, buf.as_slice(), at, raw_len);
    } else {
        proof {
            assert(buf@ =~= Seq::empty());
            lemma_overlaid_nothing(regions, at as int);
        }
    }
    assert(decoded_to(regions, guest_regions(*vm_memory), at as int, block@, buf@));
    accept_chunk(pos, raw_len, written)
}

/// From the memory `before` to the memory `after`, loading the initrd file `file` where
/// `initrd_load_addr` says has returned `res`. The file is read only once it has a place.
pub open spec fn file_loads<
    R: Fn(usize) -> FileRead,
    P: Fn(&GuestMemoryMmap<AtomicBitmap>, usize) -> Option<u64>,
>(
    before: GuestMemoryMmap<AtomicBitmap>,
    after: GuestMemoryMmap<AtomicBitmap>,
    file: InitrdFile<R>,
    initrd_load_addr: P,
    res: Result<InitrdConfig, InitrdError>,
) -> bool {
    match file.size {
        Err(e) => loads_as(before, after, res, fails(InitrdErrorView::Metadata(e@))),
        Ok(size) => exists|address: Option<u64>|
            {
                &&& #[trigger] call_ensures(initrd_load_addr, (&before, size as usize), address)
                &&& match placed(guest_regions(before), size as usize, address) {
                    Err(e) => loads_as(before, after, res, fails(e)),
                    Ok(_) => exists|read: FileRead|
                        {
                            &&& #[trigger] call_ensures(file.read, (size as usize,), read)
                            &&& loads_as(
                                before,
                                after,
                                res,
                                file_loaded(guest_regions(before), read, size as usize, address),
                            )
                        },
                }
            },
    }
}

impl InitrdConfig {
    /// The size that the initrd `data` will have in guest memory.
    pub fn loaded_size(data: &[u8]) -> (res: Result<usize, InitrdError>)
        ensures
            match res {
                Ok(size) => size_in_memory(data@) == Ok::<usize, InitrdErrorView>(size),
                Err(e) => size_in_memory(data@) == Err::<usize, InitrdErrorView>(e@),
            },
    {
        if !has_magic(data) {
            return Ok(data.len());
        }
        let mut rest = slice_subrange(data, 8, data.len());
        let size = match take_usize(&mut rest) {
            Ok(v) => v,
            Err(e) => return Err(e),
        };
        match take_usize(&mut rest) {
            Ok(_) => {},
            Err(e) => return Err(e),
        }
        assert(data@.subrange(8, data@.len() as int).subrange(0, 8) =~= data@.subrange(8, 16));
        Ok(size)
    }

    /// Loads the initrd `data` into guest memory at `address`, which is where an initrd of its size
    /// goes. Data that starts with the magic prefix of the lz4 format is decompressed chunk by chunk.
    pub fn load_at(
        vm_memory: &mut GuestMemoryMmap<AtomicBitmap>,
        data: &[u8],
        address: Option<u64>,
    ) -> (res: Result<Self, InitrdError>)
        ensures
            loads_as(
                *old(vm_memory),
                *final(vm_memory),
                res,
                loaded(guest_regions(*old(vm_memory)), data@, address),
            ),
            size_in_memory(data@) matches Ok(size) ==> address matches Some(a) ==> same_outside(
                guest_regions(*old(vm_memory)),
                guest_regions(*final(vm_memory)),
                a as int,
                size as int,
            ),
    {
        if has_magic(data) {
            return Self::from_lz4_bytes(vm_memory, data, address);
        }
        let size = data.len();
        let a = match address {
            Some(a) => a,
            None => {
                proof {
                    lemma_fails(*vm_memory, InitrdError::Address);
                }
                return Err(InitrdError::Address);
            },
        };
        proof {
            let run = mapped_run(guest_regions(*vm_memory), a as int, data@.len());
            lemma_run(guest_regions(*vm_memory), a as int, data@.len());
            lemma_overlaid(guest_regions(*vm_memory), a as int, data@.take(run as int));
        }
        let ok = write_slice(vm_memory, data, a);
        if !ok {
            return Err(InitrdError::Load);
        }
        Ok(InitrdConfig { address: a, size })
    }

    /// Loads an initrd file of `size` bytes, of which reading gave `read`, into guest memory at
    /// `address`, which is where an initrd of that size goes.
    pub fn load_file_at(
        vm_memory: &mut GuestMemoryMmap<AtomicBitmap>,
        read: &FileRead,
        size: usize,
        address: Option<u64>,
    ) -> (res: Result<Self, InitrdError>)
        requires
            read.well_formed(size),
        ensures
            loads_as(
                *old(vm_memory),
                *final(vm_memory),
                res,
                file_loaded(guest_regions(*old(vm_memory)), *read, size, address),
            ),
    {
        let a = match place(vm_memory, size, address) {
            Ok(a) => a,
            Err(e) => {
                proof {
                    lemma_fails(*vm_memory, e);
                }
                return Err(e);
            },
        };
        let contents = read.contents.as_slice();
        proof {
            let regions = guest_regions(*vm_memory);
            lemma_overlaid_region(regions, a as int, size as int, a as int, contents@);
            lemma_recorded_more(
                guest_dirty(*vm_memory),
                guest_pages(*vm_memory),
                a as int,
                contents@.len(),
                size as nat,
            );
        }
        write_within(vm_memory, contents, a, size);
        if read.failed_read {
            mark_dirty(vm_memory, a, size);
        }
        match &read.failure {
            None => Ok(InitrdConfig { address: a, size }),
            Some(e) => Err(InitrdError::Read(e.clone())),
        }
    }

    /// Loads the initrd `data` into guest memory. `initrd_load_addr` says where in guest memory an
    /// initrd of a given size goes, if anywhere.
    pub fn from_bytes<P: Fn(&GuestMemoryMmap<AtomicBitmap>, usize) -> Option<u64>>(
        vm_memory: &mut GuestMemoryMmap<AtomicBitmap>,
        data: &[u8],
        initrd_load_addr: &P,
    ) -> (res: Result<Self, InitrdError>)
        requires
            forall|mem: &GuestMemoryMmap<AtomicBitmap>, size: usize| #[trigger]
                call_requires(*initrd_load_addr, (mem, size)),
        ensures
            match size_in_memory(data@) {
                Err(e) => loads_as(*old(vm_memory), *final(vm_memory), res, fails(e)),
                Ok(size) => exists|address: Option<u64>|
                    {
                        &&& #[trigger] call_ensures(
                            *initrd_load_addr,
                            (&*old(vm_memory), size),
                            address,
                        )
                        &&& loads_as(
                            *old(vm_memory),
                            *final(vm_memory),
                            res,
                            loaded(guest_regions(*old(vm_memory)), data@, address),
                        )
                        &&& address matches Some(a) ==> same_outside(
                            guest_regions(*old(vm_memory)),
                            guest_regions(*final(vm_memory)),
                            a as int,
                            size as int,
                        )
                    },
            },
    {
        let size = match Self::loaded_size(data) {
            Ok(size) => size,
            Err(e) => {
                proof {
                    lemma_fails(*vm_memory, e);
                }
                return Err(e);
            },
        };
        let address = initrd_load_addr(&*vm_memory, size);
        Self::load_at(vm_memory, data, address)
    }

    /// Loads the initrd from a file into guest memory. `initrd_load_addr` says where in guest memory
    /// an initrd of a given size goes, if anywhere.
    pub fn from_file<
        R: Fn(usize) -> FileRead,
        P: Fn(&GuestMemoryMmap<AtomicBitmap>, usize) -> Option<u64>,
    >(
        vm_memory: &mut GuestMemoryMmap<AtomicBitmap>,
        file: &InitrdFile<R>,
        initrd_load_addr: &P,
    ) -> (res: Result<Self, InitrdError>)
        requires
            file.well_formed(),
            forall|mem: &GuestMemoryMmap<AtomicBitmap>, size: usize| #[trigger]
                call_requires(*initrd_load_addr, (mem, size)),
        ensures
            file_loads(*old(vm_memory), *final(vm_memory), *file, *initrd_load_addr, res),
    {
        let size = match &file.size {
            Ok(size) => *size as usize,
            Err(e) => {
                let err = InitrdError::Metadata(e.clone());
                proof {
                    lemma_fails(*vm_memory, err);
                }
                return Err(err);
            },
        };
        let address = initrd_load_addr(&*vm_memory, size);
        match place(vm_memory, size, address) {
            Ok(_) => {},
            Err(e) => {
                proof {
                    lemma_fails(*vm_memory, e);
                }
                return Err(e);
            },
        }
        let read = (file.read)(size);
        assert(call_ensures(file.read, (size,), read));
        Self::load_file_at(vm_memory, &read, size, address)
    }

    /// Loads the initrd into guest memory based on the boot config.
    pub fn from_config<
        R: Fn(usize) -> FileRead,
        P: Fn(&GuestMemoryMmap<AtomicBitmap>, usize) -> Option<u64>,
    >(
        boot_cfg: &BootConfig<R>,
        vm_memory: &mut GuestMemoryMmap<AtomicBitmap>,
        initrd_load_addr: &P,
    ) -> (res: Result<Option<Self>, InitrdError>)
        requires
            boot_cfg.initrd_file matches Some(Ok(file)) ==> file.well_formed(),
            forall|mem: &GuestMemoryMmap<AtomicBitmap>, size: usize| #[trigger]
                call_requires(*initrd_load_addr, (mem, size)),
        ensures
            match boot_cfg.initrd_file {
                None => res matches Ok(None) && *final(vm_memory) == *old(vm_memory),
                Some(Err(e)) => {
                    &&& res matches Err(err) && err@ == InitrdErrorView::CloneFd(e@)
                    &&& *final(vm_memory) == *old(vm_memory)
                },
                Some(Ok(file)) => match res {
                    Ok(Some(config)) => file_loads(
                        *old(vm_memory),
                        *final(vm_memory),
                        file,
                        *initrd_load_addr,
                        Ok(config),
                    ),
                    Ok(None) => false,
                    Err(e) => file_loads(
                        *old(vm_memory),
                        *final(vm_memory),
                        file,
                        *initrd_load_addr,
                        Err(e),
                    ),
                },
            },
    {
        match &boot_cfg.initrd_file {
            None => Ok(None),
            Some(Err(e)) => Err(InitrdError::CloneFd(e.clone())),
            Some(Ok(file)) => match Self::from_file(vm_memory, file, initrd_load_addr) {
                Ok(config) => Ok(Some(config)),
                Err(e) => Err(e),
            },
        }
    }

    /// Decompresses the initrd `data` chunk by chunk into guest memory at `address`, which is where an
    /// initrd of that size goes, each chunk behind the one before it.
    #[verifier::rlimit(40)]
    fn from_lz4_bytes(
        vm_memory: &mut GuestMemoryMmap<AtomicBitmap>,
        data: &[u8],
        address: Option<u64>,
    ) -> (res: Result<Self, InitrdError>)
        requires
            is_lz4(data@),
        ensures
            loads_as(
                *old(vm_memory),
                *final(vm_memory),
                res,
                loaded(guest_regions(*old(vm_memory)), data@, address),
            ),
            size_in_memory(data@) matches Ok(size) ==> address matches Some(a) ==> same_outside(
                guest_regions(*old(vm_memory)),
                guest_regions(*final(vm_memory)),
                a as int,
                size as int,
            ),
    {
        let size = match Self::loaded_size(data) {
            Ok(size) => size,
            Err(e) => {
                proof {
                    lemma_fails(*vm_memory, e);
                }
                return Err(e);
            },
        };
        let nchunk = u64_at(data, 16) as usize;
        let a = match place(vm_memory, size, address) {
            Ok(a) => a,
            Err(e) => {
                proof {
                    lemma_fails(*vm_memory, e);
                }
                return Err(e);
            },
        };
        let ghost regions = guest_regions(*vm_memory);
        let ghost dirty = guest_dirty(*vm_memory);
        let ghost pages = guest_pages(*vm_memory);
        let ghost all = decoded(data@.skip(24), nchunk as nat, size as nat, Seq::empty());
        let ghost mut done: Seq<u8> = Seq::empty();
        let mut rest = slice_subrange(data, 24, data.len());
        let mut pos: usize = 0;
        let mut i: usize = 0;
        proof {
            assert(rest@ =~= data@.skip(24));
            lemma_overlaid_nothing(regions, a as int);
            lemma_recorded_nothing(dirty, pages, a as int);
            lemma_overlaid(regions, a as int, done);
        }
        while i < nchunk
            invariant
                i <= nchunk,
                is_lz4(data@),
                data@.len() >= 24,
                size == word(data@, 8),
                nchunk == word(data@, 16),
                address == Some(a),
                in_one_region(regions, a as int, size as int),
                a + size <= u64::MAX,
                regions == guest_regions(*old(vm_memory)),
                dirty == guest_dirty(*old(vm_memory)),
                pages == guest_pages(*old(vm_memory)),
                guest_regions(*vm_memory) == overlaid(regions, a as int, done),
                guest_dirty(*vm_memory) == dirty,
                guest_pages(*vm_memory) == pages,
                recorded(dirty, pages, a as int, 0) == dirty,
                same_outside(regions, guest_regions(*vm_memory), a as int, size as int),
                pos == done.len(),
                pos <= size,
                all == decoded(data@.skip(24), nchunk as nat, size as nat, Seq::empty()),
                all == decoded(rest@, (nchunk - i) as nat, size as nat, done),
            decreases nchunk - i,
        {
            let ghost before = guest_regions(*vm_memory);
            let (raw_len, block) = match take_chunk(&mut rest, pos, size) {
                Ok(v) => v,
                Err(e) => return Err(e),
            };
            proof {
                lemma_overlaid_region(regions, a as int, size as int, a as int, done);
                if raw_len > 0 {
                    lemma_part_of_region(
                        before,
                        a as int,
                        size as int,
                        pos as int,
                        raw_len as int,
                    );
                }
            }
            let res = decode_chunk(vm_memory, block, raw_len, pos, a + pos as u64);
            let ghost buf = choose|buf: Seq<u8>|
                buf.len() == raw_len && #[trigger] decoded_to(
                    before,
                    guest_regions(*vm_memory),
                    a + pos,
                    block@,
                    buf,
                );
            proof {
                lemma_overlaid_twice(regions, a as int, done, buf);
                lemma_overlaid(regions, a as int, done + buf);
            }
            match res {
                Ok(()) => {
                    assert(buf.take(buf.len() as int) =~= buf);
                },
                Err(e) => {
                    proof {
                        let torn = buf.skip(buf.len() - all.torn);
                        assert(done + buf =~= all.done + torn);
                        if all.torn == 0 {
                            assert(done + buf =~= all.done);
                        }
                    }
                    return Err(e);
                },
            }
            pos = pos + raw_len;
            proof {
                done = done + buf;
            }
            i = i + 1;
        }
        if pos != size {
            let mut m = message_with("decompressed ", pos as u64, " bytes, expected ");
            push_decimal(&mut m, size as u64);
            return Err(InitrdError::Lz4(m));
        }
        proof {
            lemma_overlaid_region(regions, a as int, size as int, a as int, done);
        }
        mark_dirty(vm_memory, a, size);
        Ok(InitrdConfig { address: a, size })
    }
}

} // verus!
