//! The NSO format as a mathematical model: what each stage of loading a file
//! produces from its bytes.

use vstd::prelude::*;

use crate::bytes::{le_bytes, le_value, splice};
use crate::elf::{first_with_tag, ElfDyn, ElfSym};
use crate::elf::{DT_GNU_HASH, DT_HASH, DT_RELA, DT_RELASZ, DT_SYMTAB};
use crate::elf::{R_AARCH64_ABS64, R_AARCH64_RELATIVE};
use crate::error::{Error, FormatError};
use crate::lz4::lz4_block_decompressed;
use crate::stream::in_bounds;

verus! {

/// "NSO0" read as a little-endian `u32`.
pub const NSO_MAGIC: u32 = 0x304F534E;

/// The fields of the 0x100-byte NSO header that the loader uses.
#[derive(Debug, Clone, Copy, PartialEq, Eq, Structural)]
pub struct NsoHeader {
    pub flags: u32,
    pub text_file_offset: u32,
    pub text_memory_offset: u32,
    pub text_decompressed_size: u32,
    pub rodata_file_offset: u32,
    pub rodata_memory_offset: u32,
    pub rodata_decompressed_size: u32,
    pub data_file_offset: u32,
    pub data_memory_offset: u32,
    pub data_decompressed_size: u32,
    pub bss_size: u32,
    pub text_compressed_size: u32,
    pub rodata_compressed_size: u32,
    pub data_compressed_size: u32,
}

/// A stretch of the image: where it lies in the file and in memory, and its size.
#[derive(Debug, Clone, Copy, PartialEq, Eq, Structural)]
pub struct NsoSegment {
    pub file_offset: u64,
    pub memory_offset: u64,
    pub decompressed_size: u64,
}

/// The little-endian `u32` at `at`.
pub open spec fn le32(s: Seq<u8>, at: int) -> u32 {
    le_value(s, at, 4) as u32
}

/// The little-endian `u64` at `at`.
pub open spec fn le64(s: Seq<u8>, at: int) -> u64 {
    le_value(s, at, 8) as u64
}

/// Reading a `u32` at `at`.
pub open spec fn read32(s: Seq<u8>, at: int) -> Result<u32, Error> {
    if in_bounds(s, at, 4) {
        Ok(le32(s, at))
    } else {
        Err(Error::EndOfStream)
    }
}

/// The header fields, read at their offsets.
pub open spec fn header_fields(s: Seq<u8>) -> NsoHeader {
    NsoHeader {
        flags: le32(s, 12),
        text_file_offset: le32(s, 16),
        text_memory_offset: le32(s, 20),
        text_decompressed_size: le32(s, 24),
        rodata_file_offset: le32(s, 32),
        rodata_memory_offset: le32(s, 36),
        rodata_decompressed_size: le32(s, 40),
        data_file_offset: le32(s, 48),
        data_memory_offset: le32(s, 52),
        data_decompressed_size: le32(s, 56),
        bss_size: le32(s, 60),
        text_compressed_size: le32(s, 0x60),
        rodata_compressed_size: le32(s, 0x64),
        data_compressed_size: le32(s, 0x68),
    }
}

/// The header of a file: too short or with the wrong magic it is rejected.
pub open spec fn spec_parse_header(s: Seq<u8>) -> Result<NsoHeader, Error> {
    if s.len() < 0x100 {
        Err(Error::InvalidFormat(FormatError::HeaderTooSmall))
    } else if le32(s, 0) != NSO_MAGIC {
        Err(Error::InvalidFormat(FormatError::InvalidMagic))
    } else {
        Ok(header_fields(s))
    }
}

pub open spec fn text_compressed(h: NsoHeader) -> bool {
    h.flags & 1 != 0
}

pub open spec fn rodata_compressed(h: NsoHeader) -> bool {
    h.flags & 2 != 0
}

pub open spec fn data_compressed(h: NsoHeader) -> bool {
    h.flags & 4 != 0
}

/// Whether any of the three segments is stored compressed.
pub open spec fn any_compressed(h: NsoHeader) -> bool {
    text_compressed(h) || rodata_compressed(h) || data_compressed(h)
}

/// The text, rodata and data segments that the header describes.
pub open spec fn header_segments(h: NsoHeader) -> Seq<NsoSegment> {
    seq![
        NsoSegment {
            file_offset: h.text_file_offset as u64,
            memory_offset: h.text_memory_offset as u64,
            decompressed_size: h.text_decompressed_size as u64,
        },
        NsoSegment {
            file_offset: h.rodata_file_offset as u64,
            memory_offset: h.rodata_memory_offset as u64,
            decompressed_size: h.rodata_decompressed_size as u64,
        },
        NsoSegment {
            file_offset: h.data_file_offset as u64,
            memory_offset: h.data_memory_offset as u64,
            decompressed_size: h.data_decompressed_size as u64,
        },
    ]
}

/// Every field of a segment fits in 32 bits, as those read from a file do.
pub open spec fn segment_wf(seg: NsoSegment) -> bool {
    seg.file_offset <= u32::MAX && seg.memory_offset <= u32::MAX && seg.decompressed_size
        <= u32::MAX
}

/// `addr` lies in the memory range of `seg`, both ends included.
pub open spec fn holds_address(seg: NsoSegment, addr: u64) -> bool {
    seg.memory_offset <= addr <= seg.memory_offset + seg.decompressed_size
}

/// `offset` lies in the file range of `seg`, both ends included.
pub open spec fn holds_offset(seg: NsoSegment, offset: u64) -> bool {
    seg.file_offset <= offset <= seg.file_offset + seg.decompressed_size
}

/// The file offset of `addr`, translated by the first segment that holds it.
pub open spec fn find_va(segs: Seq<NsoSegment>, addr: u64) -> Option<u64>
    decreases segs.len(),
{
    if segs.len() == 0 {
        None
    } else if holds_address(segs[0], addr) {
        Some((addr - segs[0].memory_offset + segs[0].file_offset) as u64)
    } else {
        find_va(segs.drop_first(), addr)
    }
}

/// The address of file offset `offset`, translated by the first segment that holds it.
pub open spec fn find_rva(segs: Seq<NsoSegment>, offset: u64) -> Option<u64>
    decreases segs.len(),
{
    if segs.len() == 0 {
        None
    } else if holds_offset(segs[0], offset) {
        Some((offset - segs[0].file_offset + segs[0].memory_offset) as u64)
    } else {
        find_rva(segs.drop_first(), offset)
    }
}

/// Virtual address to file offset; an address outside every segment is an error.
pub open spec fn spec_map_va(segs: Seq<NsoSegment>, addr: u64) -> Result<u64, Error> {
    match find_va(segs, addr) {
        Some(o) => Ok(o),
        None => Err(Error::AddressNotMapped(addr)),
    }
}

// ---------------------------------------------------------------------------
// Decompression

/// Where rodata lands in the decompressed image.
pub open spec fn new_rodata_offset(h: NsoHeader) -> int {
    h.text_file_offset + h.text_decompressed_size
}

/// Where data lands in the decompressed image.
pub open spec fn new_data_offset(h: NsoHeader) -> int {
    new_rodata_offset(h) + h.rodata_decompressed_size
}

/// The length of the decompressed image: the end of data plus bss, and at least
/// the header.
pub open spec fn output_len(h: NsoHeader) -> int {
    let total = h.data_memory_offset + h.data_decompressed_size + h.bss_size;
    if total > 0x100 {
        total
    } else {
        0x100
    }
}

/// How much of the file's header goes into the decompressed image.
pub open spec fn header_copy_len(s: Seq<u8>) -> int {
    if s.len() < 0x100 {
        s.len() as int
    } else {
        0x100
    }
}

/// The decompressed image before the segments go in: the file's header (as much
/// of it as there is) with the segment offsets rewritten and the flags cleared,
/// then zeros.
pub open spec fn initial_image(s: Seq<u8>, h: NsoHeader) -> Seq<u8> {
    let m = header_copy_len(s);
    let base = s.take(m) + Seq::new((output_len(h) - m) as nat, |i: int| 0u8);
    let b1 = splice(base, 16, le_bytes(h.text_file_offset as nat, 4));
    let b2 = splice(b1, 32, le_bytes(new_rodata_offset(h) as nat, 4));
    let b3 = splice(b2, 48, le_bytes(new_data_offset(h) as nat, 4));
    splice(b3, 12, le_bytes(0, 4))
}

/// `dst` with as much of `b` as fits written at `at`.
pub open spec fn place(dst: Seq<u8>, at: int, b: Seq<u8>) -> Seq<u8> {
    let room = dst.len() - at;
    let n = if b.len() < room {
        b.len() as int
    } else {
        room
    };
    splice(dst, at, b.take(n))
}

/// Copying one segment of `src` into the image `dst`: a compressed segment is
/// `compressed_size` bytes of LZ4 at `file_offset`, a plain one `size` bytes there.
pub open spec fn spec_segment(
    src: Seq<u8>,
    dst: Seq<u8>,
    file_offset: int,
    dest_offset: int,
    size: int,
    compressed_size: int,
    compressed: bool,
) -> Result<Seq<u8>, Error> {
    if compressed {
        if file_offset + compressed_size > src.len() {
            Err(Error::InvalidFormat(FormatError::CompressedSegmentOutOfBounds))
        } else {
            match lz4_block_decompressed(
                src.subrange(file_offset, file_offset + compressed_size),
                size as usize,
            ) {
                Ok(d) => Ok(place(dst, dest_offset, d)),
                Err(e) => Err(Error::InvalidFormat(FormatError::DecompressionFailed(e))),
            }
        }
    } else {
        if file_offset + size > src.len() {
            Err(Error::InvalidFormat(FormatError::UncompressedSegmentOutOfBounds))
        } else {
            Ok(place(dst, dest_offset, src.subrange(file_offset, file_offset + size)))
        }
    }
}

/// Whether copying a segment gets to its destination: the segment lies inside
/// the file and, when compressed, its LZ4 block decodes.
pub open spec fn segment_loads(
    s: Seq<u8>,
    file_offset: int,
    size: int,
    compressed_size: int,
    compressed: bool,
) -> bool {
    if compressed {
        file_offset + compressed_size <= s.len() && lz4_block_decompressed(
            s.subrange(file_offset, file_offset + compressed_size),
            size as usize,
        ) is Ok
    } else {
        file_offset + size <= s.len()
    }
}

pub open spec fn text_loads(s: Seq<u8>, h: NsoHeader) -> bool {
    segment_loads(
        s,
        h.text_file_offset as int,
        h.text_decompressed_size as int,
        h.text_compressed_size as int,
        text_compressed(h),
    )
}

pub open spec fn rodata_loads(s: Seq<u8>, h: NsoHeader) -> bool {
    segment_loads(
        s,
        h.rodata_file_offset as int,
        h.rodata_decompressed_size as int,
        h.rodata_compressed_size as int,
        rodata_compressed(h),
    )
}

pub open spec fn data_loads(s: Seq<u8>, h: NsoHeader) -> bool {
    segment_loads(
        s,
        h.data_file_offset as int,
        h.data_decompressed_size as int,
        h.data_compressed_size as int,
        data_compressed(h),
    )
}

/// The inputs on which decompression runs to completion: the rewritten offsets
/// fit in 32 bits, the image fits in memory, and every segment that gets to its
/// destination (after all those before it did) starts inside the image.
pub open spec fn decompress_defined(s: Seq<u8>, h: NsoHeader) -> bool {
    any_compressed(h) ==> {
        &&& new_data_offset(h) <= u32::MAX
        &&& output_len(h) <= usize::MAX
        &&& text_loads(s, h) ==> h.text_file_offset <= output_len(h)
        &&& text_loads(s, h) && rodata_loads(s, h) ==> new_rodata_offset(h) <= output_len(h)
        &&& text_loads(s, h) && rodata_loads(s, h) && data_loads(s, h) ==> new_data_offset(h)
            <= output_len(h)
    }
}

/// Placing the text segment into the image `dst`, at its own file offset.
pub open spec fn place_text(s: Seq<u8>, dst: Seq<u8>, h: NsoHeader) -> Result<Seq<u8>, Error> {
    spec_segment(
        s,
        dst,
        h.text_file_offset as int,
        h.text_file_offset as int,
        h.text_decompressed_size as int,
        h.text_compressed_size as int,
        text_compressed(h),
    )
}

/// Placing the rodata segment into the image `dst`, right after text.
pub open spec fn place_rodata(s: Seq<u8>, dst: Seq<u8>, h: NsoHeader) -> Result<Seq<u8>, Error> {
    spec_segment(
        s,
        dst,
        h.rodata_file_offset as int,
        new_rodata_offset(h),
        h.rodata_decompressed_size as int,
        h.rodata_compressed_size as int,
        rodata_compressed(h),
    )
}

/// Placing the data segment into the image `dst`, right after rodata.
pub open spec fn place_data(s: Seq<u8>, dst: Seq<u8>, h: NsoHeader) -> Result<Seq<u8>, Error> {
    spec_segment(
        s,
        dst,
        h.data_file_offset as int,
        new_data_offset(h),
        h.data_decompressed_size as int,
        h.data_compressed_size as int,
        data_compressed(h),
    )
}

/// The image the loader works on: the file itself when nothing is compressed,
/// else the initial image with the three segments placed one after another.
pub open spec fn spec_decompress(s: Seq<u8>, h: NsoHeader) -> Result<Seq<u8>, Error> {
    if !any_compressed(h) {
        Ok(s)
    } else {
        match place_text(s, initial_image(s, h), h) {
            Err(e) => Err(e),
            Ok(o1) => match place_rodata(s, o1, h) {
                Err(e) => Err(e),
                Ok(o2) => place_data(s, o2, h),
            },
        }
    }
}

// ---------------------------------------------------------------------------
// MOD0 and the dynamic section

/// What the MOD0 header gives: the dynamic section's address and the bss range.
#[derive(Debug, Clone, Copy, PartialEq, Eq, Structural)]
pub struct Mod0Info {
    pub dynamic_offset: u64,
    pub bss_start: u64,
    pub bss_end: u64,
}

/// The MOD0 header, found through the offset stored at text + 4.
pub open spec fn spec_mod0(s: Seq<u8>, h: NsoHeader) -> Result<Mod0Info, Error> {
    let t = h.text_file_offset as int;
    match read32(s, t + 4) {
        Err(e) => Err(e),
        Ok(m) => match read32(s, t + m + 4) {
            Err(e) => Err(e),
            Ok(d) => match read32(s, t + m + 8) {
                Err(e) => Err(e),
                Ok(bs) => match read32(s, t + m + 12) {
                    Err(e) => Err(e),
                    Ok(be) => Ok(
                        Mod0Info {
                            dynamic_offset: (d + m) as u64,
                            bss_start: bs as u64,
                            bss_end: be as u64,
                        },
                    ),
                },
            },
        },
    }
}

/// The bss segment that a MOD0 header describes.
pub open spec fn bss_segment_of(m: Mod0Info) -> NsoSegment {
    NsoSegment {
        file_offset: m.bss_start,
        memory_offset: m.bss_start,
        decompressed_size: (m.bss_end - m.bss_start) as u64,
    }
}

/// The end of the data segment in memory.
pub open spec fn data_end(h: NsoHeader) -> int {
    h.data_memory_offset + h.data_decompressed_size
}

/// The dynamic entry stored at `at`.
pub open spec fn dyn_entry_at(s: Seq<u8>, at: int) -> ElfDyn {
    ElfDyn { d_tag: le64(s, at) as i64, d_un: le64(s, at + 8) }
}

/// Reading at most `remaining` 16-byte dynamic entries from `at`, after those in
/// `acc`, up to the first one tagged 0.
pub open spec fn scan_dynamic(s: Seq<u8>, at: int, remaining: nat, acc: Seq<ElfDyn>) -> Result<
    Seq<ElfDyn>,
    Error,
>
    decreases remaining,
{
    if remaining == 0 {
        Ok(acc)
    } else if !in_bounds(s, at, 16) {
        Err(Error::EndOfStream)
    } else if dyn_entry_at(s, at).d_tag == 0 {
        Ok(acc)
    } else {
        scan_dynamic(s, at + 16, (remaining - 1) as nat, acc.push(dyn_entry_at(s, at)))
    }
}

/// The largest of `n` bucket words from `at` and `acc`.
pub open spec fn max_bucket(s: Seq<u8>, at: int, n: nat, acc: u32) -> Result<u32, Error>
    decreases n,
{
    if n == 0 {
        Ok(acc)
    } else if !in_bounds(s, at, 4) {
        Err(Error::EndOfStream)
    } else {
        let b = le32(s, at);
        max_bucket(s, at + 4, (n - 1) as nat, if b > acc { b } else { acc })
    }
}

/// Walking a GNU hash chain from `at`, counting symbols from `last`, up to the
/// first word with its low bit set. `None`: the count passes `u32::MAX`.
pub open spec fn chain_end(s: Seq<u8>, at: int, last: u32) -> Option<Result<u32, Error>>
    decreases s.len() - at,
{
    if !in_bounds(s, at, 4) {
        Some(Err(Error::EndOfStream))
    } else if last == u32::MAX {
        None
    } else if le32(s, at) & 1 != 0 {
        Some(Ok((last + 1) as u32))
    } else {
        chain_end(s, at + 4, (last + 1) as u32)
    }
}

/// The GNU hash table at file offset `a`: the number of symbols it covers.
pub open spec fn gnu_hash_count(s: Seq<u8>, a: int) -> Option<Result<u64, Error>> {
    match read32(s, a) {
        Err(e) => Some(Err(e)),
        Ok(nbuckets) => match read32(s, a + 4) {
            Err(e) => Some(Err(e)),
            Ok(symoffset) => match read32(s, a + 8) {
                Err(e) => Some(Err(e)),
                Ok(bloom_size) => match read32(s, a + 12) {
                    Err(e) => Some(Err(e)),
                    Ok(_) => {
                        let buckets = a + 16 + 8 * bloom_size;
                        match max_bucket(s, buckets, nbuckets as nat, 0) {
                            Err(e) => Some(Err(e)),
                            Ok(last) => if last < symoffset {
                                Some(Ok(symoffset as u64))
                            } else {
                                let chains = buckets + 4 * nbuckets;
                                match chain_end(s, chains + (last - symoffset) * 4, last) {
                                    None => None,
                                    Some(Err(e)) => Some(Err(e)),
                                    Some(Ok(l)) => Some(Ok(l as u64)),
                                }
                            },
                        }
                    },
                },
            },
        },
    }
}

/// The number of dynamic symbols: from the SysV hash table if there is one, else
/// from the GNU hash table, else 0. `None`: the count passes `u32::MAX`.
pub open spec fn spec_symbol_count(s: Seq<u8>, segs: Seq<NsoSegment>, dyns: Seq<ElfDyn>) -> Option<
    Result<u64, Error>,
> {
    match first_with_tag(dyns, DT_HASH) {
        Some(e) => Some(
            match spec_map_va(segs, e.d_un) {
                Err(x) => Err(x),
                Ok(a) => match read32(s, a as int) {
                    Err(x) => Err(x),
                    Ok(_) => match read32(s, a + 4) {
                        Err(x) => Err(x),
                        Ok(nchain) => Ok(nchain as u64),
                    },
                },
            },
        ),
        None => match first_with_tag(dyns, DT_GNU_HASH) {
            None => Some(Ok(0)),
            Some(e) => match spec_map_va(segs, e.d_un) {
                Err(x) => Some(Err(x)),
                Ok(a) => gnu_hash_count(s, a as int),
            },
        },
    }
}

/// The 24-byte symbol stored at `at`.
pub open spec fn sym_at(s: Seq<u8>, at: int) -> ElfSym {
    ElfSym {
        st_name: le32(s, at),
        st_info: le_value(s, at + 4, 1) as u8,
        st_other: le_value(s, at + 5, 1) as u8,
        st_shndx: le_value(s, at + 6, 2) as u16,
        st_value: le64(s, at + 8),
        st_size: le64(s, at + 16),
    }
}

/// Reading `n` symbols from `at`, after those in `acc`.
pub open spec fn scan_symbols(s: Seq<u8>, at: int, n: nat, acc: Seq<ElfSym>) -> Result<
    Seq<ElfSym>,
    Error,
>
    decreases n,
{
    if n == 0 {
        Ok(acc)
    } else if !in_bounds(s, at, 24) {
        Err(Error::EndOfStream)
    } else {
        scan_symbols(s, at + 24, (n - 1) as nat, acc.push(sym_at(s, at)))
    }
}

/// The dynamic symbol table: as many symbols as the hash table covers, read at
/// the address of the symbol table entry; none without such an entry.
pub open spec fn spec_symbols(s: Seq<u8>, segs: Seq<NsoSegment>, dyns: Seq<ElfDyn>) -> Option<
    Result<Seq<ElfSym>, Error>,
> {
    match spec_symbol_count(s, segs, dyns) {
        None => None,
        Some(Err(e)) => Some(Err(e)),
        Some(Ok(count)) => Some(
            match first_with_tag(dyns, DT_SYMTAB) {
                None => Ok(Seq::empty()),
                Some(e) => match spec_map_va(segs, e.d_un) {
                    Err(x) => Err(x),
                    Ok(o) => scan_symbols(s, o as int, count as nat, Seq::empty()),
                },
            },
        ),
    }
}

/// The 24-byte relocation (offset, info, addend) stored at `at`.
pub open spec fn rela_at(s: Seq<u8>, at: int) -> (u64, u64, i64) {
    (le64(s, at), le64(s, at + 8), le64(s, at + 16) as i64)
}

/// Reading `n` relocations from `at`, after those in `acc`.
pub open spec fn scan_relas(s: Seq<u8>, at: int, n: nat, acc: Seq<(u64, u64, i64)>) -> Result<
    Seq<(u64, u64, i64)>,
    Error,
>
    decreases n,
{
    if n == 0 {
        Ok(acc)
    } else if !in_bounds(s, at, 24) {
        Err(Error::EndOfStream)
    } else {
        scan_relas(s, at + 24, (n - 1) as nat, acc.push(rela_at(s, at)))
    }
}

/// Writing the little-endian `v` at `at`.
pub open spec fn write64(d: Seq<u8>, at: int, v: u64) -> Result<Seq<u8>, Error> {
    if in_bounds(d, at, 8) {
        Ok(splice(d, at, le_bytes(v as nat, 8)))
    } else {
        Err(Error::EndOfStream)
    }
}

/// The relocation type of an `r_info` word.
pub open spec fn rela_type(info: u64) -> u32 {
    (info & 0xFFFFFFFF) as u32
}

/// The symbol index of an `r_info` word.
pub open spec fn rela_symbol(info: u64) -> u64 {
    info >> 32
}

/// Applying one relocation to the image `d`: ABS64 (with a known symbol) writes
/// the symbol's value plus the addend, RELATIVE writes the addend, others nothing.
pub open spec fn apply_one(
    d: Seq<u8>,
    r: (u64, u64, i64),
    syms: Seq<ElfSym>,
    segs: Seq<NsoSegment>,
) -> Result<Seq<u8>, Error> {
    let t = rela_type(r.1);
    let idx = rela_symbol(r.1);
    if t == R_AARCH64_ABS64 {
        if idx < syms.len() {
            match spec_map_va(segs, r.0) {
                Err(e) => Err(e),
                Ok(o) => write64(
                    d,
                    o as int,
                    ((syms[idx as int].st_value + (r.2 as u64)) % 0x1_0000_0000_0000_0000) as u64,
                ),
            }
        } else {
            Ok(d)
        }
    } else if t == R_AARCH64_RELATIVE {
        match spec_map_va(segs, r.0) {
            Err(e) => Err(e),
            Ok(o) => write64(d, o as int, r.2 as u64),
        }
    } else {
        Ok(d)
    }
}

/// Applying the relocations in order; the first failing one stops it.
pub open spec fn apply_relocations(
    d: Seq<u8>,
    rels: Seq<(u64, u64, i64)>,
    syms: Seq<ElfSym>,
    segs: Seq<NsoSegment>,
) -> Result<Seq<u8>, Error>
    decreases rels.len(),
{
    if rels.len() == 0 {
        Ok(d)
    } else {
        match apply_one(d, rels[0], syms, segs) {
            Err(e) => Err(e),
            Ok(d2) => apply_relocations(d2, rels.drop_first(), syms, segs),
        }
    }
}

/// Relocating the image `s`: nothing to do without both a RELA and a RELASZ
/// entry. `None`: the table's byte size asks for more than a vector can hold.
pub open spec fn spec_relocate(
    s: Seq<u8>,
    segs: Seq<NsoSegment>,
    dyns: Seq<ElfDyn>,
    syms: Seq<ElfSym>,
) -> Option<Result<Seq<u8>, Error>> {
    match first_with_tag(dyns, DT_RELA) {
        None => Some(Ok(s)),
        Some(rela) => match first_with_tag(dyns, DT_RELASZ) {
            None => Some(Ok(s)),
            Some(relasz) => match spec_map_va(segs, rela.d_un) {
                Err(e) => Some(Err(e)),
                Ok(o) => {
                    let n = relasz.d_un / 24;
                    if n * 24 > isize::MAX {
                        None
                    } else {
                        Some(
                            match scan_relas(s, o as int, n as nat, Seq::empty()) {
                                Err(e) => Err(e),
                                Ok(rels) => apply_relocations(s, rels, syms, segs),
                            },
                        )
                    }
                },
            },
        },
    }
}

/// The image after applying `rels` in order, up to the first one that fails.
pub open spec fn relocated_prefix(
    d: Seq<u8>,
    rels: Seq<(u64, u64, i64)>,
    syms: Seq<ElfSym>,
    segs: Seq<NsoSegment>,
) -> Seq<u8>
    decreases rels.len(),
{
    if rels.len() == 0 {
        d
    } else {
        match apply_one(d, rels[0], syms, segs) {
            Err(_) => d,
            Ok(d2) => relocated_prefix(d2, rels.drop_first(), syms, segs),
        }
    }
}

/// The image after the relocation step, whether it succeeds or fails: the
/// relocations before the first failing one stay applied.
pub open spec fn relocate_image(
    s: Seq<u8>,
    segs: Seq<NsoSegment>,
    dyns: Seq<ElfDyn>,
    syms: Seq<ElfSym>,
) -> Seq<u8> {
    match first_with_tag(dyns, DT_RELA) {
        None => s,
        Some(rela) => match first_with_tag(dyns, DT_RELASZ) {
            None => s,
            Some(relasz) => match spec_map_va(segs, rela.d_un) {
                Err(_) => s,
                Ok(o) => match scan_relas(s, o as int, (relasz.d_un / 24) as nat, Seq::empty()) {
                    Err(_) => s,
                    Ok(rels) => relocated_prefix(s, rels, syms, segs),
                },
            },
        },
    }
}

/// The image after the dynamic stage, whether it succeeds or fails.
pub open spec fn dynamic_stage_image(s: Seq<u8>, h: NsoHeader) -> Seq<u8> {
    let segs = header_segments(h);
    match spec_mod0(s, h) {
        Err(_) => s,
        Ok(m) => match spec_map_va(segs, m.dynamic_offset) {
            Err(_) => s,
            Ok(df) => match scan_dynamic(
                s,
                df as int,
                ((data_end(h) - m.dynamic_offset) / 16) as nat,
                Seq::empty(),
            ) {
                Err(_) => s,
                Ok(dyns) => match spec_symbols(s, segs, dyns) {
                    Some(Ok(syms)) => relocate_image(s, segs, dyns, syms),
                    _ => s,
                },
            },
        },
    }
}

/// The bss segment after the dynamic stage, whether it succeeds or fails: set as
/// soon as MOD0 has been read, else `before`.
pub open spec fn dynamic_stage_bss(s: Seq<u8>, h: NsoHeader, before: Option<NsoSegment>) -> Option<
    NsoSegment,
> {
    match spec_mod0(s, h) {
        Err(_) => before,
        Ok(m) => Some(bss_segment_of(m)),
    }
}

/// Loading the dynamic part of an uncompressed image `s`: MOD0, the dynamic
/// section, the symbols and the relocations. It gives the relocated image and the
/// bss segment. `None`: the original arithmetic fails (bss end before its start,
/// dynamic section after the end of data, hash chain count or relocation table
/// size out of range).
pub open spec fn spec_load_dynamic(s: Seq<u8>, h: NsoHeader) -> Option<
    Result<(Seq<u8>, NsoSegment), Error>,
> {
    let segs = header_segments(h);
    match spec_mod0(s, h) {
        Err(e) => Some(Err(e)),
        Ok(m) => if m.bss_end < m.bss_start || data_end(h) < m.dynamic_offset {
            None
        } else {
            match spec_map_va(segs, m.dynamic_offset) {
                Err(e) => Some(Err(e)),
                Ok(df) => match scan_dynamic(
                    s,
                    df as int,
                    ((data_end(h) - m.dynamic_offset) / 16) as nat,
                    Seq::empty(),
                ) {
                    Err(e) => Some(Err(e)),
                    Ok(dyns) => match spec_symbols(s, segs, dyns) {
                        None => None,
                        Some(Err(e)) => Some(Err(e)),
                        Some(Ok(syms)) => match spec_relocate(s, segs, dyns, syms) {
                            None => None,
                            Some(Err(e)) => Some(Err(e)),
                            Some(Ok(d)) => Some(Ok((d, bss_segment_of(m)))),
                        },
                    },
                },
            }
        },
    }
}

// ---------------------------------------------------------------------------
// The whole load

/// What loading a file gives: the image, the three segments and the bss segment.
pub open spec fn spec_load(s: Seq<u8>) -> Option<
    Result<(Seq<u8>, Seq<NsoSegment>, Option<NsoSegment>), Error>,
> {
    match spec_parse_header(s) {
        Err(e) => Some(Err(e)),
        Ok(h) => if any_compressed(h) {
            if !decompress_defined(s, h) {
                None
            } else {
                Some(
                    match spec_decompress(s, h) {
                        Err(e) => Err(e),
                        Ok(d) => Ok((d, header_segments(h), None)),
                    },
                )
            }
        } else {
            match spec_load_dynamic(s, h) {
                None => None,
                Some(Err(e)) => Some(Err(e)),
                Some(Ok((d, bss))) => Some(Ok((d, header_segments(h), Some(bss)))),
            }
        },
    }
}

/// The files that loading handles without failing arithmetic or slicing.
pub open spec fn load_defined(s: Seq<u8>) -> bool {
    match spec_parse_header(s) {
        Err(_) => true,
        Ok(h) => if any_compressed(h) {
            decompress_defined(s, h)
        } else {
            spec_load_dynamic(s, h) is Some
        },
    }
}

/// The part of `load_defined` that does not depend on how LZ4 blocks decode: a
/// compressed file's rewritten offsets fit in 32 bits and its image in memory,
/// and an uncompressed file's dynamic stage runs to completion.
pub open spec fn layout_defined(s: Seq<u8>) -> bool {
    match spec_parse_header(s) {
        Err(_) => true,
        Ok(h) => if any_compressed(h) {
            new_data_offset(h) <= u32::MAX && output_len(h) <= usize::MAX
        } else {
            spec_load_dynamic(s, h) is Some
        },
    }
}

// ---------------------------------------------------------------------------
// Where the stream's cursor is left; each is meant for the stage's `Ok` case.

/// The cursor after scanning the dynamic section from `at`.
pub open spec fn dynamic_scan_end(s: Seq<u8>, at: int, remaining: nat) -> int
    decreases remaining,
{
    if remaining == 0 || !in_bounds(s, at, 16) {
        at
    } else if dyn_entry_at(s, at).d_tag == 0 {
        at + 16
    } else {
        dynamic_scan_end(s, at + 16, (remaining - 1) as nat)
    }
}

/// The cursor after walking a GNU hash chain from `at`.
pub open spec fn chain_walk_end(s: Seq<u8>, at: int, last: u32) -> int
    decreases s.len() - at,
{
    if !in_bounds(s, at, 4) || last == u32::MAX {
        at
    } else if le32(s, at) & 1 != 0 {
        at + 4
    } else {
        chain_walk_end(s, at + 4, (last + 1) as u32)
    }
}

/// The cursor after counting the symbols, starting from `start`.
pub open spec fn symbol_count_end(s: Seq<u8>, segs: Seq<NsoSegment>, dyns: Seq<ElfDyn>, start: int) -> int {
    match first_with_tag(dyns, DT_HASH) {
        Some(e) => match spec_map_va(segs, e.d_un) {
            Ok(a) => a + 8,
            Err(_) => start,
        },
        None => match first_with_tag(dyns, DT_GNU_HASH) {
            None => start,
            Some(e) => match spec_map_va(segs, e.d_un) {
                Err(_) => start,
                Ok(a) => {
                    let nbuckets = le32(s, a as int);
                    let symoffset = le32(s, a + 4);
                    let buckets = a + 16 + 8 * le32(s, a + 8);
                    match max_bucket(s, buckets, nbuckets as nat, 0) {
                        Err(_) => start,
                        Ok(last) => if last < symoffset {
                            buckets + 4 * nbuckets
                        } else {
                            chain_walk_end(s, buckets + 4 * nbuckets + (last - symoffset) * 4, last)
                        },
                    }
                },
            },
        },
    }
}

/// The cursor after reading the symbols, starting from `start`.
pub open spec fn symbols_end(s: Seq<u8>, segs: Seq<NsoSegment>, dyns: Seq<ElfDyn>, start: int) -> int {
    match first_with_tag(dyns, DT_SYMTAB) {
        None => symbol_count_end(s, segs, dyns, start),
        Some(e) => match spec_map_va(segs, e.d_un) {
            Ok(o) => match spec_symbol_count(s, segs, dyns) {
                Some(Ok(count)) => o + 24 * count,
                _ => start,
            },
            Err(_) => start,
        },
    }
}

/// The file offset a relocation writes to, if it writes.
pub open spec fn rela_target(r: (u64, u64, i64), syms: Seq<ElfSym>, segs: Seq<NsoSegment>) -> Option<int> {
    let t = rela_type(r.1);
    if (t == R_AARCH64_ABS64 && rela_symbol(r.1) < syms.len()) || t == R_AARCH64_RELATIVE {
        match spec_map_va(segs, r.0) {
            Ok(o) => Some(o as int),
            Err(_) => None,
        }
    } else {
        None
    }
}

/// The cursor after applying `rels`, from `cur`: just past the last write.
pub open spec fn apply_end(
    rels: Seq<(u64, u64, i64)>,
    syms: Seq<ElfSym>,
    segs: Seq<NsoSegment>,
    cur: int,
) -> int
    decreases rels.len(),
{
    if rels.len() == 0 {
        cur
    } else {
        let next = match rela_target(rels[0], syms, segs) {
            Some(o) => o + 8,
            None => cur,
        };
        apply_end(rels.drop_first(), syms, segs, next)
    }
}

/// The cursor after relocating, starting from `start`.
pub open spec fn relocate_end(
    s: Seq<u8>,
    segs: Seq<NsoSegment>,
    dyns: Seq<ElfDyn>,
    syms: Seq<ElfSym>,
    start: int,
) -> int {
    match first_with_tag(dyns, DT_RELA) {
        None => start,
        Some(rela) => match first_with_tag(dyns, DT_RELASZ) {
            None => start,
            Some(relasz) => match spec_map_va(segs, rela.d_un) {
                Err(_) => start,
                Ok(o) => {
                    let n = relasz.d_un / 24;
                    match scan_relas(s, o as int, n as nat, Seq::empty()) {
                        Ok(rels) => apply_end(rels, syms, segs, o + 24 * n),
                        Err(_) => start,
                    }
                },
            },
        },
    }
}

/// The cursor after loading the dynamic part of an uncompressed image.
pub open spec fn dynamic_load_end(s: Seq<u8>, h: NsoHeader) -> int {
    let segs = header_segments(h);
    match spec_mod0(s, h) {
        Err(_) => 0,
        Ok(m) => match spec_map_va(segs, m.dynamic_offset) {
            Err(_) => 0,
            Ok(df) => {
                let max = ((data_end(h) - m.dynamic_offset) / 16) as nat;
                match scan_dynamic(s, df as int, max, Seq::empty()) {
                    Err(_) => 0,
                    Ok(dyns) => match spec_symbols(s, segs, dyns) {
                        Some(Ok(syms)) => relocate_end(
                            s,
                            segs,
                            dyns,
                            syms,
                            symbols_end(s, segs, dyns, dynamic_scan_end(s, df as int, max)),
                        ),
                        _ => 0,
                    },
                }
            },
        },
    }
}

/// The cursor after loading a file: 0 when it was decompressed, else where the
/// last read or write of the dynamic stage left it.
pub open spec fn spec_load_cursor(s: Seq<u8>) -> int {
    match spec_parse_header(s) {
        Err(_) => 0,
        Ok(h) => if any_compressed(h) {
            0
        } else {
            dynamic_load_end(s, h)
        },
    }
}

} // verus!
