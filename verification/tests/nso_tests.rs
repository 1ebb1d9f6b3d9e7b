use nso::elf::{DT_GNU_HASH, DT_HASH, DT_RELA, DT_RELASZ, DT_SYMTAB};
use nso::elf::{R_AARCH64_ABS64, R_AARCH64_RELATIVE};
use nso::error::{Error, FormatError, Lz4Error};
use nso::format::{NsoSegment, NSO_MAGIC};
use nso::nso::{place_segment, Nso};
use nso::section::SearchSection;
use nso::stream::BinaryStream;

fn put32(buf: &mut Vec<u8>, off: usize, v: u32) {
    buf[off..off + 4].copy_from_slice(&v.to_le_bytes());
}

fn put64(buf: &mut Vec<u8>, off: usize, v: u64) {
    buf[off..off + 8].copy_from_slice(&v.to_le_bytes());
}

fn get64(buf: &[u8], off: usize) -> u64 {
    let mut b = [0u8; 8];
    b.copy_from_slice(&buf[off..off + 8]);
    u64::from_le_bytes(b)
}

/// Header with the magic and the three segments (file offset, memory offset,
/// size); the rest zero.
fn header(segs: [(u32, u32, u32); 3], flags: u32, bss_size: u32, csizes: [u32; 3]) -> Vec<u8> {
    let mut h = vec![0u8; 0x100];
    put32(&mut h, 0, NSO_MAGIC);
    put32(&mut h, 12, flags);
    for (i, (f, m, s)) in segs.iter().enumerate() {
        put32(&mut h, 16 + 16 * i, *f);
        put32(&mut h, 20 + 16 * i, *m);
        put32(&mut h, 24 + 16 * i, *s);
    }
    put32(&mut h, 60, bss_size);
    put32(&mut h, 0x60, csizes[0]);
    put32(&mut h, 0x64, csizes[1]);
    put32(&mut h, 0x68, csizes[2]);
    h
}

/// An uncompressed image: text 0x100..0x200 (memory 0), rodata 0x200..0x300
/// (memory 0x1000), data 0x300..0x500 (memory 0x2000), with MOD0, a dynamic
/// section, a hash table, three symbols and two relocations.
fn uncompressed_image(gnu: bool) -> Vec<u8> {
    let mut f = header([(0x100, 0, 0x100), (0x200, 0x1000, 0x100), (0x300, 0x2000, 0x200)], 0, 0x100, [0; 3]);
    f.resize(0x500, 0);
    // MOD0 at text + 0x10.
    put32(&mut f, 0x104, 0x10);
    put32(&mut f, 0x114, 0x2000 - 0x10);
    put32(&mut f, 0x118, 0x2200);
    put32(&mut f, 0x11C, 0x2300);
    // Dynamic section at data (file 0x300).
    let mut at = 0x300;
    let mut entry = |f: &mut Vec<u8>, tag: i64, val: u64| {
        put64(f, at, tag as u64);
        put64(f, at + 8, val);
        at += 16;
    };
    if gnu {
        entry(&mut f, DT_GNU_HASH, 0x1000);
        entry(&mut f, DT_SYMTAB, 0x1040);
    } else {
        entry(&mut f, DT_HASH, 0x1000);
        entry(&mut f, DT_SYMTAB, 0x1010);
    }
    entry(&mut f, DT_RELA, 0x2100);
    entry(&mut f, DT_RELASZ, 48);
    entry(&mut f, 0, 0);
    let symtab;
    if gnu {
        // nbuckets 2, symoffset 1, bloom size 1, shift 0; bloom; buckets [1, 2];
        // chain: symbol 1 even, symbol 2 odd (last).
        put32(&mut f, 0x200, 2);
        put32(&mut f, 0x204, 1);
        put32(&mut f, 0x208, 1);
        put32(&mut f, 0x20C, 0);
        put32(&mut f, 0x218, 1);
        put32(&mut f, 0x21C, 2);
        put32(&mut f, 0x220, 0);
        put32(&mut f, 0x224, 1);
        symtab = 0x240;
    } else {
        put32(&mut f, 0x200, 1);
        put32(&mut f, 0x204, 3);
        symtab = 0x210;
    }
    for i in 0..3usize {
        let s = symtab + 24 * i;
        put32(&mut f, s, 0x10 * i as u32);
        f[s + 4] = 0x12;
        f[s + 5] = 0;
        f[s + 6..s + 8].copy_from_slice(&7u16.to_le_bytes());
        put64(&mut f, s + 8, 0x1234 * i as u64);
        put64(&mut f, s + 16, 0x20);
    }
    // Relocations at data + 0x100 (file 0x400).
    put64(&mut f, 0x400, 0x2180);
    put64(&mut f, 0x408, (1u64 << 32) | R_AARCH64_ABS64 as u64);
    put64(&mut f, 0x410, 8);
    put64(&mut f, 0x418, 0x2188);
    put64(&mut f, 0x420, R_AARCH64_RELATIVE as u64);
    put64(&mut f, 0x428, (-16i64) as u64);
    f
}

/// Text bytes holding a MOD0 header whose dynamic section is the (zeroed) data
/// segment at memory 0x240, and bss 0x280..0x290.
fn text_with_mod0() -> Vec<u8> {
    let mut t: Vec<u8> = (0..0x100u32).map(|i| (i * 7 + 3) as u8).collect();
    put32(&mut t, 4, 0x10);
    put32(&mut t, 0x14, 0x240 - 0x10);
    put32(&mut t, 0x18, 0x280);
    put32(&mut t, 0x1C, 0x290);
    t
}

/// A file with an LZ4-compressed text; rodata and data stored plainly.
fn compressed_image() -> (Vec<u8>, Vec<u8>) {
    let text = text_with_mod0();
    let packed = lz4_flex::block::compress(&text);
    let c = packed.len() as u32;
    let mut f = header(
        [(0x100, 0x100, 0x100), (0x100 + c, 0x200, 0x40), (0x140 + c, 0x240, 0x40)],
        1,
        0x10,
        [c, 0x40, 0x40],
    );
    f.extend_from_slice(&packed);
    f.extend(std::iter::repeat(0xAAu8).take(0x40));
    f.extend(std::iter::repeat(0u8).take(0x40));
    (f, text)
}

#[test]
fn load_uncompressed_applies_relocations() {
    let f = uncompressed_image(false);
    let nso = Nso::new(f.clone()).unwrap();
    let img = nso.stream.data();
    assert_eq!(img.len(), f.len());
    assert_eq!(get64(img, 0x480), 0x1234 + 8);
    assert_eq!(get64(img, 0x488), (-16i64) as u64);
    assert_eq!(&img[..0x480], &f[..0x480]);
    assert_eq!(&img[0x490..], &f[0x490..]);
    assert!(!nso.is_32bit);
    // The cursor stays just past the last relocation written.
    assert_eq!(nso.stream.position(), 0x490);
}

#[test]
fn load_with_gnu_hash_counts_symbols() {
    let f = uncompressed_image(true);
    let nso = Nso::new(f).unwrap();
    let img = nso.stream.data();
    assert_eq!(get64(img, 0x480), 0x1234 + 8);
    assert_eq!(get64(img, 0x488), (-16i64) as u64);
}

#[test]
fn relocation_with_unknown_symbol_is_skipped() {
    let mut f = uncompressed_image(false);
    put64(&mut f, 0x408, (9u64 << 32) | R_AARCH64_ABS64 as u64);
    let nso = Nso::new(f.clone()).unwrap();
    assert_eq!(get64(nso.stream.data(), 0x480), 0);
    assert_eq!(get64(nso.stream.data(), 0x488), (-16i64) as u64);
}

#[test]
fn relocation_outside_segments_fails() {
    let mut f = uncompressed_image(false);
    put64(&mut f, 0x418, 0x9000);
    assert_eq!(Nso::new(f).err(), Some(Error::AddressNotMapped(0x9000)));
}

#[test]
fn relocation_write_past_end_fails() {
    let mut f = uncompressed_image(false);
    // Address 0x2200 maps to file offset 0x500, the very end of the file.
    put64(&mut f, 0x418, 0x2200);
    assert_eq!(Nso::new(f).err(), Some(Error::EndOfStream));
}

#[test]
fn uncompressed_load_gives_bss_segment() {
    let f = uncompressed_image(false);
    let nso = Nso::new(f).unwrap();
    let h = nso.get_section_helper(1, 2, 3, 4);
    let text = SearchSection::new(0x100, 0x200, 0, 0x100);
    let ro = SearchSection::new(0x200, 0x300, 0x1000, 0x1100);
    let data = SearchSection::new(0x300, 0x500, 0x2000, 0x2200);
    let bss = SearchSection::new(0x2200, 0x2300, 0x2200, 0x2300);
    assert_eq!(h.exec_list, vec![text]);
    assert_eq!(h.data_list, vec![ro, data]);
    assert_eq!(h.bss_list, vec![bss]);
    assert_eq!(h.all, vec![text, ro, data, bss]);
    assert_eq!(h.method_count, 1);
    assert_eq!(h.type_definitions_count, 2);
    assert_eq!(h.metadata_usages_count, 3);
    assert_eq!(h.image_count, 4);
    assert_eq!(h.image.len(), 0x500);
    assert!(!h.is_32bit);
    assert!(h.pointer_in_exec);
}

#[test]
fn header_too_small() {
    assert_eq!(
        Nso::new(vec![0u8; 0xFF]).err(),
        Some(Error::InvalidFormat(FormatError::HeaderTooSmall))
    );
}

#[test]
fn invalid_magic() {
    let mut f = uncompressed_image(false);
    f[0] = b'X';
    assert_eq!(Nso::new(f).err(), Some(Error::InvalidFormat(FormatError::InvalidMagic)));
}

#[test]
fn mod0_past_end_of_file() {
    let f = header([(0x200, 0, 0x10), (0x210, 0x100, 0x10), (0x220, 0x200, 0x10)], 0, 0, [0; 3]);
    assert_eq!(Nso::new(f).err(), Some(Error::EndOfStream));
}

#[test]
fn dynamic_section_not_mapped() {
    let mut f = uncompressed_image(false);
    // Dynamic section at 0x1FF0 + 0x10 + 0x100 = 0x2100 is mapped; move it to a hole.
    put32(&mut f, 0x114, 0x1800);
    assert_eq!(Nso::new(f).err(), Some(Error::AddressNotMapped(0x1810)));
}

#[test]
fn load_compressed_text() {
    let (f, text) = compressed_image();
    let nso = Nso::new(f.clone()).unwrap();
    let img = nso.stream.data();
    assert_eq!(img.len(), 0x290);
    assert_eq!(&img[0x100..0x200], &text[..]);
    assert!(img[0x200..0x240].iter().all(|b| *b == 0xAA));
    assert!(img[0x240..].iter().all(|b| *b == 0));
    assert_eq!(&img[12..16], &[0, 0, 0, 0]);
    assert_eq!(&img[16..20], &0x100u32.to_le_bytes());
    assert_eq!(&img[32..36], &0x200u32.to_le_bytes());
    assert_eq!(&img[48..52], &0x240u32.to_le_bytes());
    assert_eq!(&img[0..12], &f[0..12]);
    assert_eq!(&img[52..0x100], &f[52..0x100]);
    assert_eq!(nso.stream.position(), 0);
    // No bss without MOD0: the bss list falls back to the data list.
    let h = nso.get_section_helper(0, 0, 0, 0);
    assert_eq!(h.bss_list, h.data_list);
    assert_eq!(h.all.len(), 3);
}

#[test]
fn decompressed_image_loads_as_itself() {
    let (f, _) = compressed_image();
    let first = Nso::new(f).unwrap();
    let img = first.stream.data().to_vec();
    let second = Nso::new(img.clone()).unwrap();
    assert_eq!(second.stream.data(), &img[..]);
    // Just past the zero entry that ends the dynamic section.
    assert_eq!(second.stream.position(), 0x250);
    let h = second.get_section_helper(0, 0, 0, 0);
    assert_eq!(h.bss_list, vec![SearchSection::new(0x280, 0x290, 0x280, 0x290)]);
}

#[test]
fn compressed_segment_out_of_bounds() {
    let (mut f, _) = compressed_image();
    put32(&mut f, 0x60, 0x10000);
    assert_eq!(
        Nso::new(f).err(),
        Some(Error::InvalidFormat(FormatError::CompressedSegmentOutOfBounds))
    );
}

#[test]
fn uncompressed_segment_out_of_bounds() {
    let (mut f, _) = compressed_image();
    let len = f.len() as u32;
    put32(&mut f, 48, len - 0x10);
    assert_eq!(
        Nso::new(f).err(),
        Some(Error::InvalidFormat(FormatError::UncompressedSegmentOutOfBounds))
    );
}

#[test]
fn corrupt_lz4_block() {
    let (mut f, _) = compressed_image();
    // A token asking for a match before any output.
    f[0x100] = 0x0F;
    f[0x101] = 0xFF;
    f[0x102] = 0xFF;
    assert!(matches!(
        Nso::new(f).err(),
        Some(Error::InvalidFormat(FormatError::DecompressionFailed(_)))
    ));
}

#[test]
fn address_translation() {
    let (f, _) = compressed_image();
    let nso = Nso::new(f).unwrap();
    assert_eq!(nso.map_vatr(0x180), Ok(0x180));
    // The end of a segment is included.
    assert_eq!(nso.map_vatr(0x200), Ok(0x200));
    assert_eq!(nso.map_vatr(0x10000), Err(Error::AddressNotMapped(0x10000)));
    assert_eq!(nso.map_rtva(0x180), 0x180);
    assert_eq!(nso.map_rtva(0x10000), 0);
    assert_eq!(nso.map_rtva(nso.map_vatr(0x1F0).unwrap()), 0x1F0);
}

#[test]
fn address_translation_first_match_wins() {
    let f = uncompressed_image(false);
    let nso = Nso::new(f).unwrap();
    // 0x100 ends text (memory 0..0x100) and maps to file 0x200, where rodata
    // starts; back from 0x200 the text segment answers first.
    assert_eq!(nso.map_vatr(0x100), Ok(0x200));
    assert_eq!(nso.map_rtva(0x200), 0x100);
    assert_eq!(nso.map_vatr(0x1000), Ok(0x200));
    assert_eq!(nso.map_rtva(0x250), 0x1050);
}

#[test]
fn dump_and_rva() {
    let (f, _) = compressed_image();
    let nso = Nso::new(f).unwrap();
    assert!(!nso.check_dump());
    assert_eq!(nso.get_rva(0x1234_5678_9ABC), 0x1234_5678_9ABC);
}

#[test]
fn stream_reads_little_endian() {
    let mut bytes = vec![1, 2, 3, 4, 5, 6, 7, 8];
    bytes.extend_from_slice(&[0xFF; 8]);
    let mut s = BinaryStream::new(bytes);
    assert_eq!(s.read_u8(), Ok(1));
    assert_eq!(s.read_u16(), Ok(0x0302));
    assert_eq!(s.position(), 3);
    s.set_position(0);
    assert_eq!(s.read_u32(), Ok(0x04030201));
    s.set_position(0);
    assert_eq!(s.read_u64(), Ok(0x0807060504030201));
    assert_eq!(s.read_i64(), Ok(-1));
    assert_eq!(s.read_u8(), Err(Error::EndOfStream));
    assert_eq!(s.position(), 16);
    s.set_position(100);
    assert_eq!(s.read_u32(), Err(Error::EndOfStream));
    assert_eq!(s.len(), 16);
}

#[test]
fn stream_write_then_read_back() {
    let mut s = BinaryStream::new(vec![0xEE; 12]);
    s.set_position(2);
    assert_eq!(s.write_u64(0x1122334455667788), Ok(()));
    assert_eq!(s.position(), 10);
    s.set_position(2);
    assert_eq!(s.read_u64(), Ok(0x1122334455667788));
    assert_eq!(s.data()[..2], [0xEE, 0xEE]);
    assert_eq!(s.data()[10..], [0xEE, 0xEE]);
    s.set_position(5);
    assert_eq!(s.write_u64(1), Err(Error::EndOfStream));
    assert_eq!(s.position(), 5);
    assert_eq!(s.data()[5..], [0x55, 0x44, 0x33, 0x22, 0x11, 0xEE, 0xEE]);
}

#[test]
fn place_segment_truncates_at_end() {
    let mut dst = vec![0u8; 6];
    place_segment(&mut dst, 4, &[9, 8, 7]);
    assert_eq!(dst, vec![0, 0, 0, 0, 9, 8]);
    place_segment(&mut dst, 6, &[1]);
    assert_eq!(dst, vec![0, 0, 0, 0, 9, 8]);
    place_segment(&mut dst, 0, &[5]);
    assert_eq!(dst, vec![5, 0, 0, 0, 9, 8]);
}

#[test]
fn segment_fields() {
    let s = NsoSegment { file_offset: 1, memory_offset: 2, decompressed_size: 3 };
    assert_eq!(s.clone(), s);
}

#[test]
fn lz4_error_reason_is_kept() {
    let (mut f, _) = compressed_image();
    // Claim a decoded text of 0x10 bytes: the block decodes to 0x100.
    put32(&mut f, 24, 0x10);
    match Nso::new(f).err() {
        Some(Error::InvalidFormat(FormatError::DecompressionFailed(
            Lz4Error::OutputTooSmall { actual, .. },
        ))) => {
            assert_eq!(actual, 0x10)
        }
        other => panic!("unexpected {:?}", other),
    }
}

#[test]
fn failed_lz4_block_before_out_of_range_segment() {
    let (mut f, _) = compressed_image();
    // A corrupt text block, and rodata placed past the end of the image: the
    // decoding error comes first.
    f[0x100] = 0x0F;
    f[0x101] = 0xFF;
    f[0x102] = 0xFF;
    put32(&mut f, 24, 0x1000);
    assert!(matches!(
        Nso::new(f).err(),
        Some(Error::InvalidFormat(FormatError::DecompressionFailed(_)))
    ));
}

#[test]
fn accessors_follow_the_stream() {
    let f = uncompressed_image(false);
    let nso = Nso::new(f).unwrap();
    assert_eq!(nso.image_bytes(), nso.stream.data());
    assert_eq!(nso.cursor_position(), nso.stream.position());
    assert!(!nso.is_32bit_code());
}

#[test]
fn load_refuses_segment_past_image_end() {
    let (mut f, _) = compressed_image();
    // Data ends at 0x40 in memory: the image is 0x100 bytes, and rodata (at 0x200)
    // would land past its end once text has decoded.
    put32(&mut f, 52, 0);
    put32(&mut f, 60, 0);
    assert!(Nso::load(f).is_none());
}

#[test]
fn load_matches_new() {
    let (f, _) = compressed_image();
    let a = Nso::load(f.clone()).unwrap().unwrap();
    let b = Nso::new(f).unwrap();
    assert_eq!(a.image_bytes(), b.image_bytes());
    let g = uncompressed_image(true);
    let c = Nso::load(g.clone()).unwrap().unwrap();
    assert_eq!(c.image_bytes(), Nso::new(g).unwrap().image_bytes());
    assert_eq!(
        Nso::load(vec![0u8; 4]).unwrap().err(),
        Some(Error::InvalidFormat(FormatError::HeaderTooSmall))
    );
}
