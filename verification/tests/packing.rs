//! Packing of vmlinux files and of initrds.

use joos_fire::bytes::{u16_at, u32_at, u64_at};
use joos_fire::elf::to_usize;
use joos_fire::lz4_pack::{
    pack_initrd_lz4, pack_vmlinux_lz4, INITRD_LZ4_CHUNK, INITRD_LZ4_MAGIC, LZ4_LEVEL, LZ4_MAGIC,
};
use joos_fire::vmlinux_pack::pack_vmlinux;
use lz4::block::CompressionMode;

/// A program header: its type, offset, address and file size.
type Header = (u32, u64, u64, u64);

fn compress(data: &[u8]) -> Vec<u8> {
    lz4::block::compress(data, Some(CompressionMode::HIGHCOMPRESSION(LZ4_LEVEL)), false).unwrap()
}

fn put(out: &mut [u8], at: usize, data: &[u8]) {
    out[at..at + data.len()].copy_from_slice(data);
}

/// An ELF file of `len` bytes with its program headers at `phoff`. Every byte that is no header
/// tells where it is.
fn elf(phoff: usize, headers: &[Header], len: usize) -> Vec<u8> {
    let mut out: Vec<u8> = (0..len).map(|i: usize| (i % 251) as u8).collect();
    put(&mut out, 0, &[0x7f, 0x45, 0x4c, 0x46, 2, 1]);
    put(&mut out, 32, &(phoff as u64).to_le_bytes());
    put(&mut out, 54, &56u16.to_le_bytes());
    put(&mut out, 56, &(headers.len() as u16).to_le_bytes());
    let mut at: usize = phoff;
    for (p_type, offset, paddr, filesz) in headers {
        put(&mut out, at, &p_type.to_le_bytes());
        put(&mut out, at + 8, &offset.to_le_bytes());
        put(&mut out, at + 24, &paddr.to_le_bytes());
        put(&mut out, at + 32, &filesz.to_le_bytes());
        at += 56;
    }
    out
}

const HEADERS: [Header; 5] = [
    (1, 0x1000, 0x10_0000, 20),
    (4, 0x1004, 0x10_0004, 8),
    (1, 0x2000, 0x20_0000, 5),
    (2, 0x1800, 0, 3),
    (0x6474_e551, 77, 0, 0),
];

fn kernel() -> Vec<u8> {
    elf(0x100, &HEADERS, 0x2100)
}

fn error(file: &[u8]) -> String {
    let lz4 = pack_vmlinux_lz4(file, &compress).unwrap_err();
    let plain = pack_vmlinux(file).unwrap_err();
    assert_eq!(lz4, plain);
    plain
}

#[test]
fn packed_layout() {
    let k = kernel();
    let p = pack_vmlinux(&k).unwrap();
    assert_eq!(p.len(), 403);
    assert_eq!(&p[..32], &k[..32]);
    assert_eq!(u64_at(&p, 32), 64);
    assert_eq!(&p[40..48], &[0u8; 8]);
    assert_eq!(&p[48..58], &k[48..58]);
    assert_eq!(&p[58..64], &[0u8; 6]);
    let offsets: [u64; 5] = [352, 356, 384, 400, 0];
    let mut i: usize = 0;
    while i < 5 {
        let at: usize = 64 + 56 * i;
        let from: usize = 0x100 + 56 * i;
        assert_eq!(&p[at..at + 8], &k[from..from + 8]);
        assert_eq!(u64_at(&p, at + 8), offsets[i]);
        assert_eq!(&p[at + 16..at + 56], &k[from + 16..from + 56]);
        i += 1;
    }
    assert_eq!(&p[344..352], &[0u8; 8]);
    assert_eq!(&p[352..372], &k[0x1000..0x1014]);
    assert_eq!(&p[372..384], &[0u8; 12]);
    assert_eq!(&p[384..389], &k[0x2000..0x2005]);
    assert_eq!(&p[389..400], &[0u8; 11]);
    assert_eq!(&p[400..403], &k[0x1800..0x1803]);
}

#[test]
fn packing_keeps_segments() {
    let k = kernel();
    let p = pack_vmlinux(&k).unwrap();
    assert_eq!(u16_at(&p, 56), 5);
    for (i, (p_type, offset, paddr, filesz)) in HEADERS.iter().enumerate() {
        let at: usize = 64 + 56 * i;
        assert_eq!(u32_at(&p, at), *p_type);
        assert_eq!(u64_at(&p, at + 24), *paddr);
        assert_eq!(u64_at(&p, at + 32), *filesz);
        let new: usize = u64_at(&p, at + 8) as usize;
        let old: usize = *offset as usize;
        let len: usize = *filesz as usize;
        assert_eq!(&p[new..new + len], &k[old..old + len]);
    }
}

#[test]
fn packing_is_idempotent() {
    let p = pack_vmlinux(&kernel()).unwrap();
    assert_eq!(pack_vmlinux(&p).unwrap(), p);
    assert_eq!(
        pack_vmlinux_lz4(&p, &compress).unwrap(),
        pack_vmlinux_lz4(&kernel(), &compress).unwrap()
    );
}

#[test]
fn packing_drops_everything_else() {
    let mut k = kernel();
    let p = pack_vmlinux(&k).unwrap();
    k[0x1500] ^= 0xff;
    k[0x20ff] ^= 0xff;
    put(&mut k, 40, &[7; 8]);
    put(&mut k, 58, &[7; 6]);
    k.push(1);
    assert_eq!(pack_vmlinux(&k).unwrap(), p);
    // Nor does it matter where the program headers are.
    let table: Vec<u8> = k[0x100..0x100 + 5 * 56].to_vec();
    put(&mut k, 0x40, &table);
    put(&mut k, 32, &0x40u64.to_le_bytes());
    assert_eq!(pack_vmlinux(&k).unwrap(), p);
}

#[test]
fn no_program_headers() {
    let k = elf(64, &[], 100);
    let p = pack_vmlinux(&k).unwrap();
    assert_eq!(p.len(), 64);
    assert_eq!(pack_vmlinux(&p).unwrap(), p);
}

#[test]
fn overlapping_loads_and_the_first_container() {
    let headers: [Header; 3] = [(4, 0x110, 0, 4), (1, 0x108, 0, 16), (1, 0x100, 0, 64)];
    let p = pack_vmlinux(&elf(64, &headers, 0x200)).unwrap();
    assert_eq!(u64_at(&p, 64 + 56 + 8), 240);
    assert_eq!(u64_at(&p, 64 + 112 + 8), 256);
    // The note lies in both, and moves with the first.
    assert_eq!(u64_at(&p, 64 + 8), 248);
    assert_eq!(p.len(), 320);
}

#[test]
fn offset_of_an_empty_segment_is_not_looked_at() {
    let headers: [Header; 1] = [(1, u64::MAX, 0, 0)];
    let p = pack_vmlinux(&elf(64, &headers, 200)).unwrap();
    assert_eq!(u64_at(&p, 72), 0);
    assert_eq!(p.len(), 120);
}

#[test]
fn not_elf_files() {
    assert_eq!(error(&[]), "not an ELF file");
    assert_eq!(error(&kernel()[..63]), "not an ELF file");
    let mut k = kernel();
    k[3] = 0x47;
    assert_eq!(error(&k), "not an ELF file");
    let mut k = kernel();
    k[4] = 1;
    assert_eq!(error(&k), "not a 64-bit little-endian ELF");
    let mut k = kernel();
    k[5] = 2;
    assert_eq!(error(&k), "not a 64-bit little-endian ELF");
}

#[test]
fn bad_program_headers() {
    let mut k = kernel();
    put(&mut k, 54, &32u16.to_le_bytes());
    assert_eq!(error(&k), "unexpected e_phentsize 32");

    let mut k = kernel();
    put(&mut k, 32, &(0x2100u64 - 5 * 56 + 1).to_le_bytes());
    assert_eq!(error(&k), "program headers run past end of file");
    put(&mut k, 32, &u64::MAX.to_le_bytes());
    assert_eq!(error(&k), "program headers run past end of file");

    let mut k = kernel();
    put(&mut k, 0x100 + 2 * 56 + 32, &0x101u64.to_le_bytes());
    assert_eq!(error(&k), "program header 2 runs past end of file");
    put(&mut k, 0x100 + 2 * 56 + 32, &0x100u64.to_le_bytes());
    assert!(pack_vmlinux(&k).is_ok());
    put(&mut k, 0x100 + 3 * 56 + 8, &u64::MAX.to_le_bytes());
    assert_eq!(error(&k), "program header 3 runs past end of file");
}

#[test]
fn kernel_lz4_layout() {
    let k = kernel();
    let out = pack_vmlinux_lz4(&k, &compress).unwrap();
    assert_eq!(&out[..8], b"JOOSLZ4\x01");
    assert_eq!(&out[..8], &LZ4_MAGIC);
    // The headers, the note at 352 and the other segment at 368.
    assert_eq!(u64_at(&out, 8), 371);
    let stub = &out[16..16 + 371];
    let p = pack_vmlinux(&k).unwrap();
    assert_eq!(&stub[..64], &p[..64]);
    let offsets: [u64; 5] = [0, 352, 0, 368, 0];
    let sizes: [u64; 5] = [0, 8, 0, 3, 0];
    let mut i: usize = 0;
    while i < 5 {
        let at: usize = 64 + 56 * i;
        assert_eq!(&stub[at..at + 8], &p[at..at + 8]);
        assert_eq!(u64_at(stub, at + 8), offsets[i]);
        assert_eq!(&stub[at + 16..at + 32], &p[at + 16..at + 32]);
        assert_eq!(u64_at(stub, at + 32), sizes[i]);
        assert_eq!(&stub[at + 40..at + 56], &p[at + 40..at + 56]);
        i += 1;
    }
    assert_eq!(&stub[352..360], &k[0x1004..0x100c]);
    assert_eq!(&stub[360..368], &[0u8; 8]);
    assert_eq!(&stub[368..371], &k[0x1800..0x1803]);
    // The stub is an ELF file that packs to itself.
    assert_eq!(pack_vmlinux(stub).unwrap(), stub);
}

#[test]
fn kernel_lz4_restores_segments() {
    let k = kernel();
    let out = pack_vmlinux_lz4(&k, &compress).unwrap();
    let mut at: usize = 16 + 371;
    assert_eq!(u64_at(&out, at), 2);
    at += 8;
    for (p_type, offset, paddr, filesz) in HEADERS {
        if p_type == 1 {
            assert_eq!(u64_at(&out, at), paddr);
            assert_eq!(u64_at(&out, at + 8), filesz);
            let clen: usize = u64_at(&out, at + 16) as usize;
            let block = &out[at + 24..at + 24 + clen];
            let data = lz4::block::decompress(block, Some(filesz as i32)).unwrap();
            let old: usize = offset as usize;
            assert_eq!(data, &k[old..old + filesz as usize]);
            at += 24 + clen;
        }
    }
    assert_eq!(at, out.len());
}

#[test]
fn initrd_lz4_layout() {
    assert_eq!(INITRD_LZ4_CHUNK, 4 * 1024 * 1024);
    assert_eq!(&INITRD_LZ4_MAGIC, b"JOOSLZI\x01");
    let plain = |data: &[u8]| -> Vec<u8> { vec![data.len() as u8, 0xee] };
    assert_eq!(pack_initrd_lz4(&[], &plain).len(), 24);

    let mut expected: Vec<u8> = b"JOOSLZI\x01".to_vec();
    expected.extend_from_slice(&[3, 0, 0, 0, 0, 0, 0, 0]);
    expected.extend_from_slice(&[1, 0, 0, 0, 0, 0, 0, 0]);
    expected.extend_from_slice(&[3, 0, 0, 0, 0, 0, 0, 0]);
    expected.extend_from_slice(&[2, 0, 0, 0, 0, 0, 0, 0]);
    expected.extend_from_slice(&[3, 0xee]);
    assert_eq!(pack_initrd_lz4(&[1, 2, 3], &plain), expected);
}

#[test]
fn initrd_lz4_chunks() {
    let plain = |data: &[u8]| -> Vec<u8> { vec![data[0]] };
    let mut initrd: Vec<u8> = vec![1; INITRD_LZ4_CHUNK];
    let out = pack_initrd_lz4(&initrd, &plain);
    assert_eq!(out.len(), 24 + 17);
    assert_eq!(u64_at(&out, 16), 1);

    initrd.push(2);
    let out = pack_initrd_lz4(&initrd, &plain);
    assert_eq!(u64_at(&out, 8), INITRD_LZ4_CHUNK as u64 + 1);
    assert_eq!(u64_at(&out, 16), 2);
    assert_eq!(u64_at(&out, 24), INITRD_LZ4_CHUNK as u64);
    assert_eq!(out[40], 1);
    assert_eq!(u64_at(&out, 41), 1);
    assert_eq!(out[57], 2);
    assert_eq!(out.len(), 58);
}

#[test]
fn packed_initrd_is_determined() {
    let initrd: Vec<u8> = vec![42; 100_000];
    let out = pack_initrd_lz4(&initrd, &compress);
    assert_eq!(pack_initrd_lz4(&initrd, &compress), out);
    assert!(out.len() < 1000);
}

#[test]
fn chunks_are_packed_independently() {
    let a: Vec<u8> = vec![1; INITRD_LZ4_CHUNK];
    let b: Vec<u8> = vec![2; 1000];
    let mut joined = a.clone();
    joined.extend_from_slice(&b);
    let mut records: Vec<u8> = pack_initrd_lz4(&a, &compress)[24..].to_vec();
    records.extend_from_slice(&pack_initrd_lz4(&b, &compress)[24..]);
    assert_eq!(&pack_initrd_lz4(&joined, &compress)[24..], &records[..]);
}

#[test]
fn little_endian_integers() {
    let b: Vec<u8> = vec![0xff, 1, 2, 3, 4, 5, 6, 7, 8];
    assert_eq!(u16_at(&b, 1), 0x0201);
    assert_eq!(u32_at(&b, 1), 0x0403_0201);
    assert_eq!(u64_at(&b, 1), 0x0807_0605_0403_0201);
    assert_eq!(u16_at(&[0xff, 0xff], 0), u16::MAX);
    assert_eq!(u64_at(&[0xff; 8], 0), u64::MAX);
}

#[test]
fn fields_as_usize() {
    assert_eq!(to_usize(0, "p_offset").unwrap(), 0);
    assert_eq!(to_usize(usize::MAX as u64, "p_offset").unwrap(), usize::MAX);
}
