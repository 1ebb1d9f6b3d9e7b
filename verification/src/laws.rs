//! Properties of loading that span its stages.

use vstd::prelude::*;

use crate::bytes::{le_bytes, splice};
use crate::bytes::{lemma_le_bytes_len, law_le_roundtrip, lemma_le_value_frame, lemma_pow256_facts};
use crate::elf::{first_with_tag, ElfDyn, ElfSym, DT_RELA, DT_RELASZ};
use crate::error::Error;
use crate::format::{apply_one, apply_relocations, find_rva, find_va, holds_address, holds_offset};
use crate::format::{NsoSegment, segment_wf, write64};
use crate::format::{any_compressed, decompress_defined, header_fields, initial_image, le32};
use crate::format::{new_data_offset, new_rodata_offset, output_len, place, spec_decompress};
use crate::format::{segment_loads, spec_parse_header, spec_segment, NsoHeader};
use crate::format::{header_segments, scan_relas, spec_load, spec_load_dynamic, spec_map_va, spec_relocate};
use crate::format::{data_compressed, rodata_compressed, text_compressed};
use crate::format::{place_rodata, place_text};

verus! {

/// The file ranges of two different segments share no offset.
pub open spec fn file_ranges_disjoint(segs: Seq<NsoSegment>) -> bool {
    forall|i: int, j: int|
        0 <= i < segs.len() && 0 <= j < segs.len() && i != j ==> #[trigger] segs[i].file_offset
            + segs[i].decompressed_size < #[trigger] segs[j].file_offset || segs[j].file_offset
            + segs[j].decompressed_size < segs[i].file_offset
}

/// The memory ranges of two different segments share no address.
pub open spec fn memory_ranges_disjoint(segs: Seq<NsoSegment>) -> bool {
    forall|i: int, j: int|
        0 <= i < segs.len() && 0 <= j < segs.len() && i != j ==> #[trigger] segs[i].memory_offset
            + segs[i].decompressed_size < #[trigger] segs[j].memory_offset
            || segs[j].memory_offset + segs[j].decompressed_size < segs[i].memory_offset
}

proof fn lemma_find_va_index(segs: Seq<NsoSegment>, addr: u64)
    requires
        forall|i: int| 0 <= i < segs.len() ==> segment_wf(#[trigger] segs[i]),
    ensures
        find_va(segs, addr) is Some ==> exists|i: int|
            0 <= i < segs.len() && holds_address(#[trigger] segs[i], addr) && find_va(segs, addr)
                == Some((addr - segs[i].memory_offset + segs[i].file_offset) as u64),
        find_va(segs, addr) is None ==> forall|i: int|
            0 <= i < segs.len() ==> !holds_address(#[trigger] segs[i], addr),
    decreases segs.len(),
{
    if segs.len() > 0 {
        let rest = segs.drop_first();
        assert forall|i: int| 0 <= i < rest.len() implies segment_wf(#[trigger] rest[i]) by {
            assert(segment_wf(segs[i + 1]));
        }
        lemma_find_va_index(rest, addr);
        if !holds_address(segs[0], addr) && find_va(segs, addr) is Some {
            let i = choose|i: int|
                0 <= i < rest.len() && holds_address(#[trigger] rest[i], addr) && find_va(rest, addr)
                    == Some((addr - rest[i].memory_offset + rest[i].file_offset) as u64);
            assert(segs[i + 1] == rest[i]);
        }
        if find_va(segs, addr) is None {
            assert forall|i: int| 0 <= i < segs.len() implies !holds_address(#[trigger] segs[i], addr) by {
                if i > 0 {
                    assert(segs[i] == rest[i - 1]);
                }
            }
        }
    }
}

proof fn lemma_find_rva_index(segs: Seq<NsoSegment>, offset: u64)
    requires
        forall|i: int| 0 <= i < segs.len() ==> segment_wf(#[trigger] segs[i]),
    ensures
        find_rva(segs, offset) is Some ==> exists|i: int|
            0 <= i < segs.len() && holds_offset(#[trigger] segs[i], offset) && find_rva(segs, offset)
                == Some((offset - segs[i].file_offset + segs[i].memory_offset) as u64),
        find_rva(segs, offset) is None ==> forall|i: int|
            0 <= i < segs.len() ==> !holds_offset(#[trigger] segs[i], offset),
    decreases segs.len(),
{
    if segs.len() > 0 {
        let rest = segs.drop_first();
        assert forall|i: int| 0 <= i < rest.len() implies segment_wf(#[trigger] rest[i]) by {
            assert(segment_wf(segs[i + 1]));
        }
        lemma_find_rva_index(rest, offset);
        if !holds_offset(segs[0], offset) && find_rva(segs, offset) is Some {
            let i = choose|i: int|
                0 <= i < rest.len() && holds_offset(#[trigger] rest[i], offset) && find_rva(
                    rest,
                    offset,
                ) == Some((offset - rest[i].file_offset + rest[i].memory_offset) as u64);
            assert(segs[i + 1] == rest[i]);
        }
        if find_rva(segs, offset) is None {
            assert forall|i: int| 0 <= i < segs.len() implies !holds_offset(#[trigger] segs[i], offset) by {
                if i > 0 {
                    assert(segs[i] == rest[i - 1]);
                }
            }
        }
    }
}

/// Translating an address uses the first segment whose memory range, both ends
/// included, holds it: the offset is as far into that segment's file range as the
/// address is into its memory range. No segment holding it: no offset.
pub proof fn law_address_translation(segs: Seq<NsoSegment>, addr: u64)
    requires
        forall|i: int| 0 <= i < segs.len() ==> segment_wf(#[trigger] segs[i]),
    ensures
        find_va(segs, addr) matches Some(o) ==> exists|i: int|
            {
                &&& 0 <= i < segs.len()
                &&& #[trigger] segs[i].memory_offset <= addr <= segs[i].memory_offset
                    + segs[i].decompressed_size
                &&& o == addr - segs[i].memory_offset + segs[i].file_offset
                &&& forall|j: int|
                    #![trigger segs[j]]
                    0 <= j < i ==> !(segs[j].memory_offset <= addr <= segs[j].memory_offset
                        + segs[j].decompressed_size)
            },
        find_va(segs, addr) is None ==> forall|i: int|
            0 <= i < segs.len() ==> !(#[trigger] segs[i].memory_offset <= addr <= segs[i].memory_offset
                + segs[i].decompressed_size),
    decreases segs.len(),
{
    if segs.len() > 0 {
        let rest = segs.drop_first();
        assert forall|i: int| 0 <= i < rest.len() implies segment_wf(#[trigger] rest[i]) by {
            assert(segment_wf(segs[i + 1]));
        }
        assert(segment_wf(segs[0]));
        law_address_translation(rest, addr);
        if !holds_address(segs[0], addr) {
            if let Some(o) = find_va(segs, addr) {
                let i = choose|i: int|
                    {
                        &&& 0 <= i < rest.len()
                        &&& #[trigger] rest[i].memory_offset <= addr <= rest[i].memory_offset
                            + rest[i].decompressed_size
                        &&& o == addr - rest[i].memory_offset + rest[i].file_offset
                        &&& forall|j: int|
                            #![trigger rest[j]]
                            0 <= j < i ==> !(rest[j].memory_offset <= addr <= rest[j].memory_offset
                                + rest[j].decompressed_size)
                    };
                assert(segs[i + 1] == rest[i]);
                assert forall|j: int|
                    #![trigger segs[j]]
                    0 <= j < i + 1 implies !(segs[j].memory_offset <= addr
                        <= segs[j].memory_offset + segs[j].decompressed_size) by {
                    if j > 0 {
                        assert(segs[j] == rest[j - 1]);
                    }
                }
                assert(segs[i + 1].memory_offset <= addr <= segs[i + 1].memory_offset
                    + segs[i + 1].decompressed_size);
            } else {
                assert forall|i: int| 0 <= i < segs.len() implies !(#[trigger] segs[i].memory_offset
                    <= addr <= segs[i].memory_offset + segs[i].decompressed_size) by {
                    if i > 0 {
                        assert(segs[i] == rest[i - 1]);
                    }
                }
            }
        } else {
            assert(segs[0].memory_offset <= addr <= segs[0].memory_offset + segs[0].decompressed_size);
        }
    }
}

/// Translating a file offset uses the first segment whose file range, both ends
/// included, holds it: the address is as far into that segment's memory range as
/// the offset is into its file range. No segment holding it: no address.
pub proof fn law_offset_translation(segs: Seq<NsoSegment>, offset: u64)
    requires
        forall|i: int| 0 <= i < segs.len() ==> segment_wf(#[trigger] segs[i]),
    ensures
        find_rva(segs, offset) matches Some(a) ==> exists|i: int|
            {
                &&& 0 <= i < segs.len()
                &&& #[trigger] segs[i].file_offset <= offset <= segs[i].file_offset
                    + segs[i].decompressed_size
                &&& a == offset - segs[i].file_offset + segs[i].memory_offset
                &&& forall|j: int|
                    #![trigger segs[j]]
                    0 <= j < i ==> !(segs[j].file_offset <= offset <= segs[j].file_offset
                        + segs[j].decompressed_size)
            },
        find_rva(segs, offset) is None ==> forall|i: int|
            0 <= i < segs.len() ==> !(#[trigger] segs[i].file_offset <= offset <= segs[i].file_offset
                + segs[i].decompressed_size),
    decreases segs.len(),
{
    if segs.len() > 0 {
        let rest = segs.drop_first();
        assert forall|i: int| 0 <= i < rest.len() implies segment_wf(#[trigger] rest[i]) by {
            assert(segment_wf(segs[i + 1]));
        }
        assert(segment_wf(segs[0]));
        law_offset_translation(rest, offset);
        if !holds_offset(segs[0], offset) {
            if let Some(a) = find_rva(segs, offset) {
                let i = choose|i: int|
                    {
                        &&& 0 <= i < rest.len()
                        &&& #[trigger] rest[i].file_offset <= offset <= rest[i].file_offset
                            + rest[i].decompressed_size
                        &&& a == offset - rest[i].file_offset + rest[i].memory_offset
                        &&& forall|j: int|
                            #![trigger rest[j]]
                            0 <= j < i ==> !(rest[j].file_offset <= offset <= rest[j].file_offset
                                + rest[j].decompressed_size)
                    };
                assert(segs[i + 1] == rest[i]);
                assert forall|j: int|
                    #![trigger segs[j]]
                    0 <= j < i + 1 implies !(segs[j].file_offset <= offset
                        <= segs[j].file_offset + segs[j].decompressed_size) by {
                    if j > 0 {
                        assert(segs[j] == rest[j - 1]);
                    }
                }
                assert(segs[i + 1].file_offset <= offset <= segs[i + 1].file_offset
                    + segs[i + 1].decompressed_size);
            } else {
                assert forall|i: int| 0 <= i < segs.len() implies !(#[trigger] segs[i].file_offset
                    <= offset <= segs[i].file_offset + segs[i].decompressed_size) by {
                    if i > 0 {
                        assert(segs[i] == rest[i - 1]);
                    }
                }
            }
        } else {
            assert(segs[0].file_offset <= offset <= segs[0].file_offset + segs[0].decompressed_size);
        }
    }
}

/// When no two segments share a file offset, translating an address to a file
/// offset and back gives the address again.
pub proof fn law_address_roundtrip(segs: Seq<NsoSegment>, addr: u64)
    requires
        forall|i: int| 0 <= i < segs.len() ==> segment_wf(#[trigger] segs[i]),
        file_ranges_disjoint(segs),
    ensures
        find_va(segs, addr) matches Some(o) ==> find_rva(segs, o) == Some(addr),
{
    lemma_find_va_index(segs, addr);
    if let Some(o) = find_va(segs, addr) {
        let i = choose|i: int|
            0 <= i < segs.len() && holds_address(#[trigger] segs[i], addr) && find_va(segs, addr)
                == Some((addr - segs[i].memory_offset + segs[i].file_offset) as u64);
        assert(segment_wf(segs[i]));
        assert(holds_offset(segs[i], o));
        lemma_find_rva_index(segs, o);
        let j = choose|j: int|
            0 <= j < segs.len() && holds_offset(#[trigger] segs[j], o) && find_rva(segs, o) == Some(
                (o - segs[j].file_offset + segs[j].memory_offset) as u64,
            );
        assert(segment_wf(segs[j]));
        assert(i == j);
    }
}

/// When no two segments share an address, translating a file offset to an
/// address and back gives the offset again.
pub proof fn law_offset_roundtrip(segs: Seq<NsoSegment>, offset: u64)
    requires
        forall|i: int| 0 <= i < segs.len() ==> segment_wf(#[trigger] segs[i]),
        memory_ranges_disjoint(segs),
    ensures
        find_rva(segs, offset) matches Some(a) ==> find_va(segs, a) == Some(offset),
{
    lemma_find_rva_index(segs, offset);
    if let Some(a) = find_rva(segs, offset) {
        let i = choose|i: int|
            0 <= i < segs.len() && holds_offset(#[trigger] segs[i], offset) && find_rva(segs, offset)
                == Some((offset - segs[i].file_offset + segs[i].memory_offset) as u64);
        assert(segment_wf(segs[i]));
        assert(holds_address(segs[i], a));
        lemma_find_va_index(segs, a);
        let j = choose|j: int|
            0 <= j < segs.len() && holds_address(#[trigger] segs[j], a) && find_va(segs, a) == Some(
                (a - segs[j].memory_offset + segs[j].file_offset) as u64,
            );
        assert(segment_wf(segs[j]));
        assert(i == j);
    }
}

/// An address that some segment holds is always translated.
pub proof fn law_held_address_is_mapped(segs: Seq<NsoSegment>, addr: u64, k: int)
    requires
        forall|i: int| 0 <= i < segs.len() ==> segment_wf(#[trigger] segs[i]),
        0 <= k < segs.len(),
        holds_address(segs[k], addr),
    ensures
        find_va(segs, addr) is Some,
{
    lemma_find_va_index(segs, addr);
}

/// Indexing into a splice.
pub proof fn lemma_splice_index(s: Seq<u8>, at: int, b: Seq<u8>, j: int)
    requires
        0 <= at,
        at + b.len() <= s.len(),
        0 <= j < s.len(),
    ensures
        splice(s, at, b).len() == s.len(),
        splice(s, at, b)[j] == if at <= j < at + b.len() {
            b[j - at]
        } else {
            s[j]
        },
{
}

/// A segment placed at or after `k` leaves the first `k` bytes and the length of
/// the image as they were.
proof fn lemma_segment_keeps_prefix(
    src: Seq<u8>,
    dst: Seq<u8>,
    file_offset: int,
    dest_offset: int,
    size: int,
    compressed_size: int,
    compressed: bool,
    k: int,
)
    requires
        0 <= k <= dest_offset,
        segment_loads(src, file_offset, size, compressed_size, compressed) ==> dest_offset
            <= dst.len(),
    ensures
        spec_segment(src, dst, file_offset, dest_offset, size, compressed_size, compressed) matches Ok(d)
            ==> d.len() == dst.len() && forall|j: int| 0 <= j < k ==> #[trigger] d[j] == dst[j],
{
    if segment_loads(src, file_offset, size, compressed_size, compressed) {
    assert forall|b: Seq<u8>| true implies #[trigger] place(dst, dest_offset, b).len() == dst.len()
        && forall|j: int| 0 <= j < k ==> #[trigger] place(dst, dest_offset, b)[j] == dst[j] by {
        let room = dst.len() - dest_offset;
        let n = if b.len() < room {
            b.len() as int
        } else {
            room
        };
        assert forall|j: int| 0 <= j < k implies #[trigger] place(dst, dest_offset, b)[j] == dst[j] by {
            lemma_splice_index(dst, dest_offset, b.take(n), j);
        }
    }
    }
}

/// Decompression keeps the length of the initial image and, when no segment
/// lands before `k`, its first `k` bytes.
proof fn lemma_decompress_keeps_prefix(s: Seq<u8>, h: NsoHeader, k: int)
    requires
        spec_parse_header(s) == Ok::<NsoHeader, Error>(h),
        any_compressed(h),
        decompress_defined(s, h),
        0 <= k,
        k <= h.text_file_offset,
        k <= new_rodata_offset(h),
        k <= new_data_offset(h),
    ensures
        spec_decompress(s, h) matches Ok(d) ==> d.len() == output_len(h) && forall|j: int|
            0 <= j < k ==> #[trigger] d[j] == initial_image(s, h)[j],
{
    let img = initial_image(s, h);
    lemma_initial_header_byte(s, h, 0);
    if let Ok(o1) = place_text(s, img, h) {
        lemma_segment_keeps_prefix(s, img, h.text_file_offset as int, h.text_file_offset as int,
            h.text_decompressed_size as int, h.text_compressed_size as int, text_compressed(h), k);
        if let Ok(o2) = place_rodata(s, o1, h) {
            lemma_segment_keeps_prefix(s, o1, h.rodata_file_offset as int, new_rodata_offset(h),
                h.rodata_decompressed_size as int, h.rodata_compressed_size as int, rodata_compressed(h), k);
            lemma_segment_keeps_prefix(s, o2, h.data_file_offset as int, new_data_offset(h),
                h.data_decompressed_size as int, h.data_compressed_size as int, data_compressed(h), k);
        }
    }
}

/// The first 0x100 bytes of the initial image: the file's header with the flags
/// and the three segment offsets overwritten.
proof fn lemma_initial_header_byte(s: Seq<u8>, h: NsoHeader, j: int)
    requires
        s.len() >= 0x100,
        0 <= j < 0x100,
        output_len(h) >= 0x100,
    ensures
        initial_image(s, h).len() == output_len(h),
        initial_image(s, h)[j] == if 12 <= j < 16 {
            le_bytes(0, 4)[j - 12]
        } else if 16 <= j < 20 {
            le_bytes(h.text_file_offset as nat, 4)[j - 16]
        } else if 32 <= j < 36 {
            le_bytes(new_rodata_offset(h) as nat, 4)[j - 32]
        } else if 48 <= j < 52 {
            le_bytes(new_data_offset(h) as nat, 4)[j - 48]
        } else {
            s[j]
        },
{
    let base = s.take(0x100) + Seq::new((output_len(h) - 0x100) as nat, |i: int| 0u8);
    lemma_le_bytes_len(0, 4);
    lemma_le_bytes_len(h.text_file_offset as nat, 4);
    lemma_le_bytes_len(new_rodata_offset(h) as nat, 4);
    lemma_le_bytes_len(new_data_offset(h) as nat, 4);
    let b1 = splice(base, 16, le_bytes(h.text_file_offset as nat, 4));
    let b2 = splice(b1, 32, le_bytes(new_rodata_offset(h) as nat, 4));
    let b3 = splice(b2, 48, le_bytes(new_data_offset(h) as nat, 4));
    assert(base.len() == output_len(h));
    assert(base[j] == s[j]);
    lemma_splice_index(base, 16, le_bytes(h.text_file_offset as nat, 4), j);
    lemma_splice_index(b1, 32, le_bytes(new_rodata_offset(h) as nat, 4), j);
    lemma_splice_index(b2, 48, le_bytes(new_data_offset(h) as nat, 4), j);
    lemma_splice_index(b3, 12, le_bytes(0, 4), j);
}

/// The initial image is as long as the decompressed image.
pub proof fn lemma_initial_image_len(s: Seq<u8>, h: NsoHeader)
    ensures
        initial_image(s, h).len() == output_len(h),
{
    lemma_le_bytes_len(0, 4);
    lemma_le_bytes_len(h.text_file_offset as nat, 4);
    lemma_le_bytes_len(new_rodata_offset(h) as nat, 4);
    lemma_le_bytes_len(new_data_offset(h) as nat, 4);
}

/// The `u32` at `off` of a byte sequence whose window there is the encoding of `v`.
proof fn lemma_le32_of_encoding(d: Seq<u8>, off: int, v: nat)
    requires
        0 <= off,
        off + 4 <= d.len(),
        v <= u32::MAX,
        forall|k: int| 0 <= k < 4 ==> #[trigger] d[off + k] == le_bytes(v, 4)[k],
    ensures
        le32(d, off) == v,
{
    lemma_le_bytes_len(v, 4);
    assert forall|k: int| 0 <= k < 4 implies #[trigger] d[off + k] == le_bytes(v, 4)[0 + k] by {}
    lemma_le_value_frame(d, off, le_bytes(v, 4), 0, 4);
    law_le_roundtrip(v, 4);
    lemma_pow256_facts();
}

/// The `u32` at `off` of two sequences that agree there.
proof fn lemma_le32_same(d: Seq<u8>, s: Seq<u8>, off: int)
    requires
        forall|k: int| 0 <= k < 4 ==> #[trigger] d[off + k] == s[off + k],
    ensures
        le32(d, off) == le32(s, off),
{
    lemma_le_value_frame(d, off, s, off, 4);
}

/// Decompressing a file whose segments all land after the header gives an image
/// whose header describes that image: flags cleared, the rodata and data file
/// offsets moved to where those segments now lie, every other field kept; so
/// loading the image again leaves it as it is.
pub proof fn law_decompressed_header(s: Seq<u8>, h: NsoHeader)
    requires
        spec_parse_header(s) == Ok::<NsoHeader, Error>(h),
        any_compressed(h),
        decompress_defined(s, h),
        h.text_file_offset >= 0x100,
        new_rodata_offset(h) >= 0x100,
        new_data_offset(h) >= 0x100,
    ensures
        spec_decompress(s, h) matches Ok(d) ==> {
            &&& d.len() == output_len(h)
            &&& spec_parse_header(d) == Ok::<NsoHeader, Error>(
                NsoHeader {
                    flags: 0,
                    rodata_file_offset: new_rodata_offset(h) as u32,
                    data_file_offset: new_data_offset(h) as u32,
                    ..h
                },
            )
            &&& spec_decompress(d, header_fields(d)) == Ok::<Seq<u8>, Error>(d)
        },
{
    if let Ok(d) = spec_decompress(s, h) {
        lemma_decompress_keeps_prefix(s, h, 0x100);
        assert(d.len() == output_len(h));
        assert forall|j: int| 0 <= j < 0x100 implies #[trigger] d[j] == if 12 <= j < 16 {
            le_bytes(0, 4)[j - 12]
        } else if 16 <= j < 20 {
            le_bytes(h.text_file_offset as nat, 4)[j - 16]
        } else if 32 <= j < 36 {
            le_bytes(new_rodata_offset(h) as nat, 4)[j - 32]
        } else if 48 <= j < 52 {
            le_bytes(new_data_offset(h) as nat, 4)[j - 48]
        } else {
            s[j]
        } by {
            lemma_initial_header_byte(s, h, j);
        }
        lemma_le32_of_encoding(d, 12, 0);
        lemma_le32_of_encoding(d, 16, h.text_file_offset as nat);
        lemma_le32_of_encoding(d, 32, new_rodata_offset(h) as nat);
        lemma_le32_of_encoding(d, 48, new_data_offset(h) as nat);
        lemma_le32_same(d, s, 0);
        lemma_le32_same(d, s, 20);
        lemma_le32_same(d, s, 24);
        lemma_le32_same(d, s, 36);
        lemma_le32_same(d, s, 40);
        lemma_le32_same(d, s, 52);
        lemma_le32_same(d, s, 56);
        lemma_le32_same(d, s, 60);
        lemma_le32_same(d, s, 0x60);
        lemma_le32_same(d, s, 0x64);
        lemma_le32_same(d, s, 0x68);
        assert(0u32 & 1 == 0 && 0u32 & 2 == 0 && 0u32 & 4 == 0) by (bit_vector);
    }
}

/// Loading gives an image as long as the file when nothing is compressed, and
/// as long as the end of data plus bss (at least 0x100) when something is.
pub proof fn law_load_image_length(s: Seq<u8>)
    ensures
        spec_load(s) matches Some(Ok((d, segs, bss))) ==> spec_parse_header(s) matches Ok(h) && d.len()
            == if any_compressed(h) {
            output_len(h)
        } else {
            s.len() as int
        },
{
    if let Ok(h) = spec_parse_header(s) {
        if any_compressed(h) {
            if spec_load(s) is Some {
                lemma_decompress_keeps_prefix(s, h, 0);
            }
        } else if let Some(Ok((d, segs, bss))) = spec_load(s) {
            let segs = header_segments(h);
            assert(spec_load_dynamic(s, h) == Some(Ok::<(Seq<u8>, NsoSegment), Error>((d, bss->0))));
            assert forall|dyns: Seq<ElfDyn>, syms: Seq<ElfSym>|
                #[trigger] spec_relocate(s, segs, dyns, syms) matches Some(Ok(_)) implies spec_relocate(
                s,
                segs,
                dyns,
                syms,
            )->Some_0->Ok_0.len() == s.len() by {
                if let Some(rela) = first_with_tag(dyns, DT_RELA) {
                    if let Some(relasz) = first_with_tag(dyns, DT_RELASZ) {
                        if let Ok(o) = spec_map_va(segs, rela.d_un) {
                            let n = relasz.d_un / 24;
                            if let Ok(rels) = scan_relas(s, o as int, n as nat, Seq::empty()) {
                                law_relocation_keeps_length(s, rels, syms, segs);
                            }
                        }
                    }
                }
            }
        }
    }
}

/// Relocating never changes the length of the image.
pub proof fn law_relocation_keeps_length(
    d: Seq<u8>,
    rels: Seq<(u64, u64, i64)>,
    syms: Seq<ElfSym>,
    segs: Seq<NsoSegment>,
)
    ensures
        apply_relocations(d, rels, syms, segs) matches Ok(d2) ==> d2.len() == d.len(),
    decreases rels.len(),
{
    if rels.len() > 0 {
        lemma_le_bytes_len(0, 8);
        if let Ok(d1) = apply_one(d, rels[0], syms, segs) {
            assert forall|at: int, v: u64| #[trigger] write64(d, at, v) is Ok implies write64(
                d,
                at,
                v,
            )->Ok_0.len() == d.len() by {
                lemma_le_bytes_len(v as nat, 8);
            }
            law_relocation_keeps_length(d1, rels.drop_first(), syms, segs);
        }
    }
}

} // verus!
