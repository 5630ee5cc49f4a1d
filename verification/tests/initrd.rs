//! Loading an initrd into real guest memory.

use std::io::{ErrorKind, Read, Seek, SeekFrom, Write};

use joos_fire::initrd::{
    accept_chunk, take, take_usize, BootConfig, FileRead, InitrdConfig, InitrdError, InitrdFile,
};
use joos_fire::lz4_pack::{pack_initrd_lz4, INITRD_LZ4_CHUNK, INITRD_LZ4_MAGIC, LZ4_LEVEL};
use lz4::block::CompressionMode;
use vm_memory::bitmap::{AtomicBitmap, Bitmap};
use vm_memory::{Bytes, GuestAddress, GuestMemory, GuestMemoryMmap, GuestMemoryRegion};
use vmm_sys_util::tempfile::TempFile;

const GUEST_PAGE_SIZE: usize = 4096;

type Memory = GuestMemoryMmap<AtomicBitmap>;

fn single_region_mem_at(at: u64, size: usize) -> Memory {
    Memory::from_ranges(&[(GuestAddress(at), size)]).unwrap()
}

fn single_region_mem(size: usize) -> Memory {
    single_region_mem_at(0, size)
}

/// At the end of the region at address zero, on a page boundary.
fn initrd_load_addr(mem: &Memory, size: usize) -> Option<u64> {
    let lowmem: usize = mem.find_region(GuestAddress(0))?.len() as usize;
    if lowmem < size {
        return None;
    }
    Some(((lowmem - size) & !(GUEST_PAGE_SIZE - 1)) as u64)
}

/// Reads `size` bytes, or as many as there are.
fn read_up_to<F: Read>(mut file: F, size: usize) -> FileRead {
    let mut contents: Vec<u8> = Vec::new();
    let mut failed_read = false;
    while contents.len() < size {
        let mut buf: Vec<u8> = vec![0; size - contents.len()];
        match file.read(&mut buf) {
            Ok(0) => {
                let failure = Some("failed to fill whole buffer".to_string());
                return FileRead { contents, failure, failed_read };
            }
            Ok(n) => contents.extend_from_slice(&buf[..n]),
            Err(e) if e.kind() == ErrorKind::Interrupted => failed_read = true,
            Err(e) => return FileRead { contents, failure: Some(e.to_string()), failed_read: true },
        }
    }
    FileRead { contents, failure: None, failed_read }
}

fn unread(_size: usize) -> FileRead {
    panic!("a file without a place is read")
}

fn make_test_bin() -> Vec<u8> {
    let mut fake_bin: Vec<u8> = Vec::new();
    fake_bin.resize(1_000_000, 0xAA);
    fake_bin
}

fn compress(data: &[u8]) -> Vec<u8> {
    lz4::block::compress(data, Some(CompressionMode::HIGHCOMPRESSION(LZ4_LEVEL)), false).unwrap()
}

fn bytes_at(mem: &Memory, at: u64, len: usize) -> Vec<u8> {
    let mut buf: Vec<u8> = vec![0; len];
    mem.read_slice(&mut buf, GuestAddress(at)).unwrap();
    buf
}

fn dirty_at(mem: &Memory, at: usize) -> bool {
    mem.find_region(GuestAddress(0)).unwrap().bitmap().dirty_at(at)
}

/// An image that declares `size` bytes in `nchunk` chunks, and holds `chunks`.
fn image(size: u64, nchunk: u64, chunks: &[(u64, Vec<u8>)]) -> Vec<u8> {
    let mut out: Vec<u8> = INITRD_LZ4_MAGIC.to_vec();
    out.extend_from_slice(&size.to_le_bytes());
    out.extend_from_slice(&nchunk.to_le_bytes());
    for (raw_len, block) in chunks {
        out.extend_from_slice(&raw_len.to_le_bytes());
        out.extend_from_slice(&(block.len() as u64).to_le_bytes());
        out.extend_from_slice(block);
    }
    out
}

fn lz4_error(data: &[u8], mem_size: usize) -> String {
    let mut gm = single_region_mem(mem_size);
    match InitrdConfig::from_bytes(&mut gm, data, &initrd_load_addr) {
        Err(InitrdError::Lz4(m)) => m,
        other => panic!("{:?}", other),
    }
}

#[test]
fn test_load_initrd() {
    let image = make_test_bin();

    let mem_size: usize = image.len() * 2 + GUEST_PAGE_SIZE;

    let tempfile = TempFile::new().unwrap();
    let mut tempfile = tempfile.into_file();
    tempfile.write_all(&image).unwrap();

    let mut gm = single_region_mem(mem_size);

    // Need to reset the cursor to read initrd properly.
    tempfile.seek(SeekFrom::Start(0)).unwrap();
    let size = Ok(tempfile.metadata().unwrap().len());
    let file = InitrdFile { size, read: |n: usize| read_up_to(&tempfile, n) };
    let initrd = InitrdConfig::from_file(&mut gm, &file, &initrd_load_addr).unwrap();
    assert!(gm.address_in_range(GuestAddress(initrd.address)));
    assert_eq!(initrd.size, image.len());
    assert_eq!(initrd.address, 1_003_520);
    assert_eq!(bytes_at(&gm, initrd.address, initrd.size), image);
}

#[test]
fn test_load_initrd_no_memory() {
    let mut gm = single_region_mem(79);
    let image = make_test_bin();
    let tempfile = TempFile::new().unwrap();
    let mut tempfile = tempfile.into_file();
    tempfile.write_all(&image).unwrap();

    // Need to reset the cursor to read initrd properly.
    tempfile.seek(SeekFrom::Start(0)).unwrap();
    let size = Ok(tempfile.metadata().unwrap().len());
    let file = InitrdFile { size, read: |n: usize| read_up_to(&tempfile, n) };
    let res = InitrdConfig::from_file(&mut gm, &file, &initrd_load_addr);
    assert!(matches!(res, Err(InitrdError::Address)), "{:?}", res);
}

#[test]
fn test_load_initrd_unaligned() {
    let image: Vec<u8> = vec![1, 2, 3, 4];
    let tempfile = TempFile::new().unwrap();
    let mut tempfile = tempfile.into_file();
    tempfile.write_all(&image).unwrap();
    let mut gm = single_region_mem_at(GUEST_PAGE_SIZE as u64 + 1, image.len() * 2);

    // Need to reset the cursor to read initrd properly.
    tempfile.seek(SeekFrom::Start(0)).unwrap();
    let size = Ok(tempfile.metadata().unwrap().len());
    let file = InitrdFile { size, read: |n: usize| read_up_to(&tempfile, n) };
    let res = InitrdConfig::from_file(&mut gm, &file, &initrd_load_addr);
    assert!(matches!(res, Err(InitrdError::Address)), "{:?}", res);
}

#[test]
fn file_errors_come_in_order() {
    let mut gm = single_region_mem(3 * GUEST_PAGE_SIZE);

    let unknown = InitrdFile { size: Err("no metadata".to_string()), read: unread };
    let res = InitrdConfig::from_file(&mut gm, &unknown, &initrd_load_addr);
    assert_eq!(res.unwrap_err().message(), "Cannot image metadata: no metadata");

    // A file is read only once it has a place.
    let huge = InitrdFile { size: Ok(1 << 20), read: unread };
    let res = InitrdConfig::from_file(&mut gm, &huge, &initrd_load_addr);
    assert_eq!(res.unwrap_err().message(), "Failed to compute the initrd address.");

    let outside = |_mem: &Memory, _size: usize| -> Option<u64> { Some(1 << 30) };
    let small = InitrdFile { size: Ok(10), read: unread };
    let res = InitrdConfig::from_file(&mut gm, &small, &outside);
    assert_eq!(
        res.unwrap_err().message(),
        "Cannot load initrd due to an invalid memory configuration."
    );

    let nothing = |n: usize| read_up_to(&[][..], n);
    let empty = InitrdFile { size: Ok(10), read: nothing };
    let res = InitrdConfig::from_file(&mut gm, &empty, &initrd_load_addr);
    assert_eq!(
        res.unwrap_err().message(),
        "Cannot load initrd due to an invalid image: failed to fill whole buffer"
    );
    assert_eq!(bytes_at(&gm, 0, 3 * GUEST_PAGE_SIZE), vec![0u8; 3 * GUEST_PAGE_SIZE]);
}

#[test]
fn short_file_leaves_what_was_read() {
    let data: Vec<u8> = vec![7; GUEST_PAGE_SIZE + 2];
    let short = |n: usize| read_up_to(&data[..], n);
    let file = InitrdFile { size: Ok(3 * GUEST_PAGE_SIZE as u64), read: short };
    let mut gm = single_region_mem(4 * GUEST_PAGE_SIZE);
    let res = InitrdConfig::from_file(&mut gm, &file, &initrd_load_addr);
    assert!(matches!(res, Err(InitrdError::Read(_))));
    assert_eq!(bytes_at(&gm, 4096, data.len()), data);
    assert_eq!(bytes_at(&gm, 4096 + data.len() as u64, 1), vec![0]);
    // The pages of what was read are recorded, and no others.
    assert!(!dirty_at(&gm, 0));
    assert!(dirty_at(&gm, GUEST_PAGE_SIZE));
    assert!(dirty_at(&gm, 2 * GUEST_PAGE_SIZE));
    assert!(!dirty_at(&gm, 3 * GUEST_PAGE_SIZE));
}

#[test]
fn failed_read_records_the_whole_initrd() {
    let broken = |_n: usize| FileRead {
        contents: vec![1, 2, 3],
        failure: Some("IO error".to_string()),
        failed_read: true,
    };
    let file = InitrdFile { size: Ok(3 * GUEST_PAGE_SIZE as u64), read: broken };
    let mut gm = single_region_mem(5 * GUEST_PAGE_SIZE);
    let res = InitrdConfig::from_file(&mut gm, &file, &initrd_load_addr);
    assert!(matches!(res, Err(InitrdError::Read(m)) if m == "IO error"));
    assert_eq!(bytes_at(&gm, 2 * 4096 - 1, 5), vec![0, 1, 2, 3, 0]);
    assert!(!dirty_at(&gm, GUEST_PAGE_SIZE));
    assert!(dirty_at(&gm, 2 * GUEST_PAGE_SIZE));
    assert!(dirty_at(&gm, 3 * GUEST_PAGE_SIZE));
    assert!(dirty_at(&gm, 4 * GUEST_PAGE_SIZE));
}

#[test]
fn from_config_follows_the_file() {
    let mut gm = single_region_mem(2 * GUEST_PAGE_SIZE);
    let mut none = BootConfig { initrd_file: Some(Ok(InitrdFile { size: Ok(0), read: unread })) };
    none.initrd_file = None;
    assert!(InitrdConfig::from_config(&none, &mut gm, &initrd_load_addr).unwrap().is_none());

    none.initrd_file = Some(Err("too many files".to_string()));
    let res = InitrdConfig::from_config(&none, &mut gm, &initrd_load_addr);
    assert_eq!(res.unwrap_err().message(), "Cannot copy initrd file fd: too many files");

    let contents: Vec<u8> = vec![9, 8, 7];
    let file = InitrdFile { size: Ok(3), read: |n: usize| read_up_to(&contents[..], n) };
    let some = BootConfig { initrd_file: Some(Ok(file)) };
    let config = InitrdConfig::from_config(&some, &mut gm, &initrd_load_addr).unwrap().unwrap();
    assert_eq!((config.address, config.size), (4096, 3));
    assert_eq!(bytes_at(&gm, 4096, 4), vec![9, 8, 7, 0]);
}

#[test]
fn raw_bytes_are_copied_and_recorded() {
    let mut gm = single_region_mem(8 * GUEST_PAGE_SIZE);
    let data: Vec<u8> = vec![0x5a; GUEST_PAGE_SIZE + 1];
    let config = InitrdConfig::from_bytes(&mut gm, &data, &initrd_load_addr).unwrap();
    assert_eq!((config.address, config.size), (6 * 4096, 4097));
    assert_eq!(bytes_at(&gm, config.address, config.size), data);
    assert_eq!(bytes_at(&gm, 6 * 4096 - 1, 1), vec![0]);
    assert_eq!(bytes_at(&gm, 7 * 4096 + 1, 1), vec![0]);
    assert!(dirty_at(&gm, 6 * GUEST_PAGE_SIZE));
    assert!(dirty_at(&gm, 7 * GUEST_PAGE_SIZE));
    assert!(!dirty_at(&gm, 0));
}

#[test]
fn raw_bytes_that_do_not_fit() {
    let mut gm = single_region_mem(GUEST_PAGE_SIZE);
    let too_long: Vec<u8> = vec![1; GUEST_PAGE_SIZE + 1];
    let res = InitrdConfig::from_bytes(&mut gm, &too_long, &initrd_load_addr);
    assert!(matches!(res, Err(InitrdError::Address)));

    // What is mapped is written, but the load fails.
    let near_end = |_mem: &Memory, _size: usize| -> Option<u64> { Some(4094) };
    let res = InitrdConfig::from_bytes(&mut gm, &[1, 2, 3], &near_end);
    assert!(matches!(res, Err(InitrdError::Load)));
    assert_eq!(bytes_at(&gm, 4093, 3), vec![0, 1, 2]);

    let outside = |_mem: &Memory, _size: usize| -> Option<u64> { Some(4096) };
    assert!(matches!(InitrdConfig::from_bytes(&mut gm, &[], &outside), Err(InitrdError::Load)));
    let inside = |_mem: &Memory, _size: usize| -> Option<u64> { Some(4095) };
    let config = InitrdConfig::from_bytes(&mut gm, &[], &inside).unwrap();
    assert_eq!((config.address, config.size), (4095, 0));
}

#[test]
fn raw_bytes_cross_regions_but_lz4_does_not() {
    let ranges: [(GuestAddress, usize); 2] = [(GuestAddress(0), 4096), (GuestAddress(4096), 4096)];
    let mut gm = Memory::from_ranges(&ranges).unwrap();
    let across = |_mem: &Memory, _size: usize| -> Option<u64> { Some(4094) };
    let config = InitrdConfig::from_bytes(&mut gm, &[1, 2, 3, 4], &across).unwrap();
    assert_eq!((config.address, config.size), (4094, 4));
    assert_eq!(bytes_at(&gm, 4093, 6), vec![0, 1, 2, 3, 4, 0]);

    let packed = pack_initrd_lz4(&[5, 6, 7, 8], &compress);
    let res = InitrdConfig::from_bytes(&mut gm, &packed, &across);
    assert!(matches!(res, Err(InitrdError::Load)));
    assert_eq!(bytes_at(&gm, 4093, 6), vec![0, 1, 2, 3, 4, 0]);
}

#[test]
fn packed_initrd_loads_like_the_raw_one() {
    let mut initrd: Vec<u8> = Vec::new();
    let mut x: u32 = 7;
    while initrd.len() < 2 * INITRD_LZ4_CHUNK + 5 {
        x = x.wrapping_mul(1_103_515_245).wrapping_add(12_345);
        initrd.push(((x >> 16) % 11) as u8);
    }
    let packed = pack_initrd_lz4(&initrd, &compress);
    assert!(packed.len() < initrd.len());
    assert_eq!(InitrdConfig::loaded_size(&packed).unwrap(), initrd.len());
    assert_eq!(InitrdConfig::loaded_size(&initrd).unwrap(), initrd.len());

    let mem_size: usize = initrd.len() + 3 * GUEST_PAGE_SIZE;
    let mut raw_mem = single_region_mem(mem_size);
    let mut lz4_mem = single_region_mem(mem_size);
    let raw = InitrdConfig::from_bytes(&mut raw_mem, &initrd, &initrd_load_addr).unwrap();
    let lz4 = InitrdConfig::from_bytes(&mut lz4_mem, &packed, &initrd_load_addr).unwrap();
    assert_eq!((raw.address, raw.size), (lz4.address, lz4.size));
    assert!(bytes_at(&lz4_mem, lz4.address, lz4.size) == initrd);
    assert!(bytes_at(&lz4_mem, 0, mem_size) == bytes_at(&raw_mem, 0, mem_size));
    assert!(dirty_at(&lz4_mem, lz4.address as usize));
    assert!(dirty_at(&lz4_mem, lz4.address as usize + lz4.size - 1));
    assert!(!dirty_at(&lz4_mem, 0));
}

#[test]
fn empty_packed_initrd_loads() {
    let packed = pack_initrd_lz4(&[], &compress);
    assert_eq!(packed.len(), 24);
    let mut gm = single_region_mem(GUEST_PAGE_SIZE + 1);
    let config = InitrdConfig::from_bytes(&mut gm, &packed, &initrd_load_addr).unwrap();
    assert_eq!((config.address, config.size), (4096, 0));
}

#[test]
fn packed_initrd_without_a_place() {
    let packed = pack_initrd_lz4(&[1; 100], &compress);
    let mut gm = single_region_mem(99);
    let res = InitrdConfig::from_bytes(&mut gm, &packed, &initrd_load_addr);
    assert!(matches!(res, Err(InitrdError::Address)));
    let outside = |_mem: &Memory, _size: usize| -> Option<u64> { Some(50) };
    let res = InitrdConfig::from_bytes(&mut gm, &packed, &outside);
    assert!(matches!(res, Err(InitrdError::Load)));
}

#[test]
fn truncated_images_are_refused() {
    let whole = image(3, 1, &[(3, compress(&[1, 2, 3]))]);
    let mut gm = single_region_mem(GUEST_PAGE_SIZE);
    assert!(InitrdConfig::from_bytes(&mut gm, &whole, &initrd_load_addr).is_ok());
    let mut len: usize = 8;
    while len < whole.len() {
        assert_eq!(lz4_error(&whole[..len], GUEST_PAGE_SIZE), "truncated image");
        len += 1;
    }
    // Seven bytes of the magic are an initrd of seven bytes.
    let config = InitrdConfig::from_bytes(&mut gm, &whole[..7], &initrd_load_addr).unwrap();
    assert_eq!(config.size, 7);
}

#[test]
fn lz4_errors_say_what_is_wrong() {
    let block = compress(&[1, 2, 3]);
    assert_eq!(
        lz4_error(&image(2, 1, &[(3, block.clone())]), GUEST_PAGE_SIZE),
        "chunks exceed declared size 2"
    );
    assert_eq!(
        lz4_error(&image(4, 2, &[(3, block.clone()), (u64::MAX, vec![])]), GUEST_PAGE_SIZE),
        "chunks exceed declared size 4"
    );
    assert_eq!(
        lz4_error(&image(4, 1, &[(4, block.clone())]), GUEST_PAGE_SIZE),
        "chunk at 0: decompressed 3 bytes, expected 4"
    );
    assert_eq!(
        lz4_error(&image(4, 1, &[(3, block.clone())]), GUEST_PAGE_SIZE),
        "decompressed 3 bytes, expected 4"
    );
    assert_eq!(
        lz4_error(&image(6, 2, &[(3, block.clone()), (3, vec![0xff; 4])]), GUEST_PAGE_SIZE),
        "chunk at 3: Decompression failed. Input invalid or too long?"
    );
    let res = InitrdConfig::from_bytes(
        &mut single_region_mem(GUEST_PAGE_SIZE),
        &image(2, 1, &[(3, block)]),
        &initrd_load_addr,
    );
    assert_eq!(
        res.unwrap_err().message(),
        "Cannot load lz4-compressed initrd: chunks exceed declared size 2"
    );
}

#[test]
fn chunk_longer_than_the_decoder_takes() {
    let size: u64 = 1 << 31;
    assert_eq!(
        lz4_error(&image(size, 1, &[(size, vec![])]), (1 << 31) + GUEST_PAGE_SIZE),
        "chunk too big: 2147483648"
    );
}

#[test]
fn chunks_before_the_refused_one_are_in_memory() {
    let mut gm = single_region_mem(GUEST_PAGE_SIZE);
    let data = image(6, 2, &[(3, compress(&[1, 2, 3])), (3, vec![0xff; 4])]);
    let at_ten = |_mem: &Memory, _size: usize| -> Option<u64> { Some(10) };
    assert!(InitrdConfig::from_bytes(&mut gm, &data, &at_ten).is_err());
    assert_eq!(bytes_at(&gm, 9, 4), vec![0, 1, 2, 3]);
    assert_eq!(bytes_at(&gm, 16, 1), vec![0]);
    assert!(!dirty_at(&gm, 0));
}

#[test]
fn refused_chunk_stays_in_its_place() {
    let mut gm = single_region_mem(GUEST_PAGE_SIZE);
    gm.write_slice(&[0x77; 20], GuestAddress(0)).unwrap();
    let at_four = |_mem: &Memory, _size: usize| -> Option<u64> { Some(4) };
    // Three bytes come out where five are declared.
    let data = image(5, 1, &[(5, compress(&[1, 2, 3]))]);
    assert!(InitrdConfig::from_bytes(&mut gm, &data, &at_four).is_err());
    assert_eq!(bytes_at(&gm, 0, 7), vec![0x77, 0x77, 0x77, 0x77, 1, 2, 3]);
    assert_eq!(bytes_at(&gm, 9, 11), vec![0x77u8; 11]);
}

#[test]
fn bytes_behind_the_last_chunk_are_ignored() {
    let mut data = image(3, 1, &[(3, compress(&[1, 2, 3]))]);
    let mut gm = single_region_mem(2 * GUEST_PAGE_SIZE);
    let first = InitrdConfig::from_bytes(&mut gm, &data, &initrd_load_addr).unwrap();
    let memory = bytes_at(&gm, 0, 2 * GUEST_PAGE_SIZE);
    data.extend_from_slice(&[0xff; 30]);
    let mut gm = single_region_mem(2 * GUEST_PAGE_SIZE);
    let second = InitrdConfig::from_bytes(&mut gm, &data, &initrd_load_addr).unwrap();
    assert_eq!((first.address, first.size), (second.address, second.size));
    assert_eq!(bytes_at(&gm, 0, 2 * GUEST_PAGE_SIZE), memory);
}

#[test]
fn decoder_results_are_accepted_or_not() {
    assert!(accept_chunk(7, 3, Ok(3)).is_ok());
    assert_eq!(
        accept_chunk(7, 3, Ok(2)).unwrap_err().message(),
        "Cannot load lz4-compressed initrd: chunk at 7: decompressed 2 bytes, expected 3"
    );
    assert_eq!(
        accept_chunk(0, 3, Err("bad block".to_string())).unwrap_err().message(),
        "Cannot load lz4-compressed initrd: chunk at 0: bad block"
    );
}

#[test]
fn take_splits_the_front_off() {
    let data: Vec<u8> = vec![5, 1, 0, 0, 0, 0, 0, 0, 9, 8];
    let mut rest: &[u8] = &data;
    assert_eq!(take_usize(&mut rest).unwrap(), 261);
    assert_eq!(take(&mut rest, 1).unwrap(), &[9u8][..]);
    assert_eq!(rest, &[8u8][..]);
    assert!(matches!(take(&mut rest, 2), Err(InitrdError::Lz4(m)) if m == "truncated image"));
    assert!(matches!(take_usize(&mut rest), Err(InitrdError::Lz4(m)) if m == "truncated image"));
    assert_eq!(rest, &[8u8][..]);
    assert_eq!(take(&mut rest, 1).unwrap(), &[8u8][..]);
    assert_eq!(take(&mut rest, 0).unwrap().len(), 0);
}
