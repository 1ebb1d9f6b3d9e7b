//! What relocation and decompression leave in the image, stated against the
//! relocation words and the segments' bytes.

use vstd::prelude::*;

use crate::bytes::{le_bytes, le_value, splice};
use crate::bytes::{lemma_le_bytes_len, lemma_le_value_frame};
use crate::elf::{first_with_tag, ElfDyn, ElfSym, DT_RELA, DT_RELASZ};
use crate::error::Error;
use crate::format::{apply_one, apply_relocations, find_va, rela_symbol, rela_type, write64};
use crate::format::{NsoHeader, NsoSegment, scan_relas, spec_map_va, spec_relocate};
use crate::format::{header_segments, scan_dynamic, spec_load, spec_load_dynamic};
use crate::format::{spec_parse_header, spec_symbols};
use crate::format::{any_compressed, decompress_defined, initial_image, place};
use crate::format::{segment_loads, spec_decompress, spec_segment};
use crate::format::{data_compressed, place_rodata, place_text, rodata_compressed, text_compressed};
use crate::lz4::lz4_block_decompressed;
use crate::laws::lemma_splice_index;
use crate::stream::{in_bounds, law_read_back_write};

verus! {

/// The relocation type: the low 32 bits of `r_info`.
pub open spec fn info_type(info: u64) -> nat {
    info as nat % 0x1_0000_0000
}

/// The symbol index: the high 32 bits of `r_info`.
pub open spec fn info_symbol(info: u64) -> nat {
    info as nat / 0x1_0000_0000
}

/// Whether a relocation writes: RELATIVE always, ABS64 when its symbol is in the table.
pub open spec fn writes(r: (u64, u64, i64), syms: Seq<ElfSym>) -> bool {
    info_type(r.1) == 1027 || (info_type(r.1) == 257 && info_symbol(r.1) < syms.len())
}

/// The value a writing relocation stores: the addend for RELATIVE, the symbol's
/// value plus the addend (modulo 2^64) for ABS64.
pub open spec fn written_value(r: (u64, u64, i64), syms: Seq<ElfSym>) -> nat {
    if info_type(r.1) == 1027 {
        (r.2 as u64) as nat
    } else {
        ((syms[info_symbol(r.1) as int].st_value as nat + (r.2 as u64) as nat)
            % 0x1_0000_0000_0000_0000) as nat
    }
}

/// The file offset a relocation's target address translates to.
pub open spec fn target(r: (u64, u64, i64), segs: Seq<NsoSegment>) -> int {
    find_va(segs, r.0)->Some_0 as int
}

/// Two 8-byte windows share a byte.
pub open spec fn windows_overlap(a: int, b: int) -> bool {
    a < b + 8 && b < a + 8
}

proof fn lemma_info_bits(info: u64)
    ensures
        rela_type(info) as nat == info_type(info),
        rela_symbol(info) as nat == info_symbol(info),
{
    assert((info & 0xFFFFFFFF) == info % 0x1_0000_0000 && (info >> 32) == info / 0x1_0000_0000)
        by (bit_vector);
}

/// One relocation: a writing one stores its value at its translated target, or
/// fails; any other leaves the image as it is.
proof fn lemma_apply_one(d: Seq<u8>, r: (u64, u64, i64), syms: Seq<ElfSym>, segs: Seq<NsoSegment>)
    ensures
        !writes(r, syms) ==> apply_one(d, r, syms, segs) == Ok::<Seq<u8>, Error>(d),
        writes(r, syms) && apply_one(d, r, syms, segs) is Ok ==> {
            &&& find_va(segs, r.0) is Some
            &&& in_bounds(d, target(r, segs), 8)
            &&& apply_one(d, r, syms, segs) == Ok::<Seq<u8>, Error>(
                splice(d, target(r, segs), le_bytes(written_value(r, syms), 8)),
            )
        },
{
    lemma_info_bits(r.1);
}

/// Applying the relocations in order, when it succeeds: every writing one has a
/// target inside the image; the 8 bytes at the target of each writing relocation
/// that no later writing one overlaps hold its value; relocations of other types
/// change nothing and do not stop the ones after them; bytes outside every
/// writing target keep their value; the length is kept.
pub proof fn law_relocations_applied(
    d: Seq<u8>,
    rels: Seq<(u64, u64, i64)>,
    syms: Seq<ElfSym>,
    segs: Seq<NsoSegment>,
)
    ensures
        apply_relocations(d, rels, syms, segs) matches Ok(d2) ==> {
            &&& d2.len() == d.len()
            &&& forall|i: int|
                0 <= i < rels.len() && #[trigger] writes(rels[i], syms) ==> find_va(segs, rels[i].0)
                    is Some && in_bounds(d, target(rels[i], segs), 8)
            &&& forall|i: int|
                0 <= i < rels.len() && #[trigger] writes(rels[i], syms) && (forall|j: int|
                    i < j < rels.len() && writes(rels[j], syms) ==> !windows_overlap(
                        target(rels[i], segs),
                        target(rels[j], segs),
                    )) ==> le_value(d2, target(rels[i], segs), 8) == written_value(rels[i], syms)
            &&& forall|p: int|
                0 <= p < d.len() && (forall|i: int|
                    0 <= i < rels.len() && writes(rels[i], syms) ==> !(target(rels[i], segs) <= p
                        < target(rels[i], segs) + 8)) ==> #[trigger] d2[p] == d[p]
        },
    decreases rels.len(),
{
    if rels.len() > 0 {
        let r0 = rels[0];
        let rest = rels.drop_first();
        lemma_apply_one(d, r0, syms, segs);
        if let Ok(d1) = apply_one(d, r0, syms, segs) {
            law_relocations_applied(d1, rest, syms, segs);
            if let Ok(d2) = apply_relocations(d, rels, syms, segs) {
                assert(apply_relocations(d1, rest, syms, segs) == Ok::<Seq<u8>, Error>(d2));
                let o0 = target(r0, segs);
                if writes(r0, syms) {
                    lemma_le_bytes_len(written_value(r0, syms), 8);
                    law_read_back_write(d, o0, written_value(r0, syms) as u64);
                }
                assert(d1.len() == d.len()) by {
                    if writes(r0, syms) {
                        assert(written_value(r0, syms) < 0x1_0000_0000_0000_0000);
                    }
                }
                // Targets are in bounds.
                assert forall|i: int|
                    0 <= i < rels.len() && #[trigger] writes(rels[i], syms) implies find_va(
                        segs,
                        rels[i].0,
                    ) is Some && in_bounds(d, target(rels[i], segs), 8) by {
                    if i > 0 {
                        assert(rels[i] == rest[i - 1]);
                        assert(writes(rest[i - 1], syms));
                    }
                }
                // Bytes outside every target.
                assert forall|p: int|
                    0 <= p < d.len() && (forall|i: int|
                        0 <= i < rels.len() && writes(rels[i], syms) ==> !(target(rels[i], segs) <= p
                            < target(rels[i], segs) + 8)) implies #[trigger] d2[p] == d[p] by {
                    assert forall|i: int|
                        0 <= i < rest.len() && writes(rest[i], syms) implies !(target(rest[i], segs)
                        <= p < target(rest[i], segs) + 8) by {
                        assert(rest[i] == rels[i + 1]);
                    }
                    assert(d2[p] == d1[p]);
                    if writes(r0, syms) {
                        assert(!(o0 <= p < o0 + 8));
                        lemma_splice_index(d, o0, le_bytes(written_value(r0, syms), 8), p);
                    }
                }
                // Values at targets that nothing later overwrites.
                assert forall|i: int|
                    0 <= i < rels.len() && #[trigger] writes(rels[i], syms) && (forall|j: int|
                        i < j < rels.len() && writes(rels[j], syms) ==> !windows_overlap(
                            target(rels[i], segs),
                            target(rels[j], segs),
                        )) implies le_value(d2, target(rels[i], segs), 8) == written_value(
                    rels[i],
                    syms,
                ) by {
                    if i > 0 {
                        assert(rels[i] == rest[i - 1]);
                        assert forall|j: int|
                            i - 1 < j < rest.len() && writes(rest[j], syms) implies !windows_overlap(
                            target(rest[i - 1], segs),
                            target(rest[j], segs),
                        ) by {
                            assert(rest[j] == rels[j + 1]);
                        }
                        assert(writes(rest[i - 1], syms));
                    } else {
                        assert forall|k: int| 0 <= k < 8 implies #[trigger] d2[o0 + k] == d1[o0 + k] by {
                            let p = o0 + k;
                            assert forall|j: int|
                                0 <= j < rest.len() && writes(rest[j], syms) implies !(target(
                                    rest[j],
                                    segs,
                                ) <= p < target(rest[j], segs) + 8) by {
                                assert(rest[j] == rels[j + 1]);
                                assert(!windows_overlap(o0, target(rels[j + 1], segs)));
                            }
                        }
                        assert forall|k: int| 0 <= k < 8 implies #[trigger] d2[o0 + k] == d1[o0 + k] by {}
                        lemma_le_value_frame(d2, o0, d1, o0, 8);
                    }
                }
            }
        }
    }
}

/// Relocating an image: without both a RELA and a RELASZ entry nothing changes;
/// otherwise the table of RELASZ / 24 records at the translated RELA address is
/// read and applied in order.
pub proof fn law_relocation_source(
    s: Seq<u8>,
    segs: Seq<NsoSegment>,
    dyns: Seq<ElfDyn>,
    syms: Seq<ElfSym>,
)
    ensures
        spec_relocate(s, segs, dyns, syms) matches Some(Ok(d2)) ==> match first_with_tag(dyns, DT_RELA) {
            Some(rela) => match first_with_tag(dyns, DT_RELASZ) {
                Some(relasz) => spec_map_va(segs, rela.d_un) matches Ok(o) && scan_relas(
                    s,
                    o as int,
                    (relasz.d_un / 24) as nat,
                    Seq::empty(),
                ) matches Ok(rels) && apply_relocations(s, rels, syms, segs) == Ok::<Seq<u8>, Error>(d2),
                None => d2 == s,
            },
            None => d2 == s,
        },
{
}

/// The bytes a segment decodes to: the decoding of its LZ4 block when
/// compressed, its stored bytes otherwise.
pub open spec fn segment_bytes(
    s: Seq<u8>,
    file_offset: int,
    size: int,
    compressed_size: int,
    compressed: bool,
) -> Seq<u8> {
    if compressed {
        lz4_block_decompressed(s.subrange(file_offset, file_offset + compressed_size), size as usize)->Ok_0
    } else {
        s.subrange(file_offset, file_offset + size)
    }
}

/// Text's bytes: flag bit 0 marks it compressed.
pub open spec fn text_bytes(s: Seq<u8>, h: NsoHeader) -> Seq<u8> {
    segment_bytes(
        s,
        h.text_file_offset as int,
        h.text_decompressed_size as int,
        h.text_compressed_size as int,
        h.flags % 2 == 1,
    )
}

/// Rodata's bytes: flag bit 1 marks it compressed.
pub open spec fn rodata_bytes(s: Seq<u8>, h: NsoHeader) -> Seq<u8> {
    segment_bytes(
        s,
        h.rodata_file_offset as int,
        h.rodata_decompressed_size as int,
        h.rodata_compressed_size as int,
        (h.flags / 2) % 2 == 1,
    )
}

/// Data's bytes: flag bit 2 marks it compressed.
pub open spec fn data_bytes(s: Seq<u8>, h: NsoHeader) -> Seq<u8> {
    segment_bytes(
        s,
        h.data_file_offset as int,
        h.data_decompressed_size as int,
        h.data_compressed_size as int,
        (h.flags / 4) % 2 == 1,
    )
}

/// Placing a segment writes its bytes from `dest_offset` on, as many as fit,
/// and leaves every other byte and the length as they were.
proof fn lemma_segment_bytes(
    src: Seq<u8>,
    dst: Seq<u8>,
    file_offset: int,
    dest_offset: int,
    size: int,
    compressed_size: int,
    compressed: bool,
)
    requires
        0 <= dest_offset,
        0 <= file_offset,
        segment_loads(src, file_offset, size, compressed_size, compressed) ==> dest_offset <= dst.len(),
    ensures
        spec_segment(src, dst, file_offset, dest_offset, size, compressed_size, compressed)
            matches Ok(o) ==> {
            let b = segment_bytes(src, file_offset, size, compressed_size, compressed);
            &&& o.len() == dst.len()
            &&& forall|j: int|
                0 <= j < dst.len() ==> #[trigger] o[j] == if dest_offset <= j && j - dest_offset < b.len() {
                    b[j - dest_offset]
                } else {
                    dst[j]
                }
        },
{
    if let Ok(o) = spec_segment(src, dst, file_offset, dest_offset, size, compressed_size, compressed) {
        let b = segment_bytes(src, file_offset, size, compressed_size, compressed);
        assert(segment_loads(src, file_offset, size, compressed_size, compressed));
        assert(o == place(dst, dest_offset, b));
        let room = dst.len() - dest_offset;
        let n = if b.len() < room {
            b.len() as int
        } else {
            room
        };
        assert forall|j: int| 0 <= j < dst.len() implies #[trigger] o[j] == if dest_offset <= j && j
            - dest_offset < b.len() {
            b[j - dest_offset]
        } else {
            dst[j]
        } by {
            lemma_splice_index(dst, dest_offset, b.take(n), j);
        }
    }
}

proof fn lemma_flag_bits(f: u32)
    ensures
        (f & 1 != 0) == (f % 2 == 1),
        (f & 2 != 0) == ((f / 2) % 2 == 1),
        (f & 4 != 0) == ((f / 4) % 2 == 1),
{
    assert((f & 1 != 0) == (f % 2 == 1)) by (bit_vector);
    assert((f & 2 != 0) == ((f / 2) % 2 == 1)) by (bit_vector);
    assert((f & 4 != 0) == ((f / 4) % 2 == 1)) by (bit_vector);
}

/// Decompressing a file (flag bits 0, 1, 2 marking text, rodata, data as
/// compressed) gives an image as long as the end of data plus bss (at least
/// 0x100) in which text lies at its file offset, rodata right after text's
/// decompressed size and data right after rodata's: each segment's decoded bytes,
/// up to its decompressed size, stand at its place as far as the image reaches.
pub proof fn law_decompressed_segments(s: Seq<u8>, h: NsoHeader)
    requires
        decompress_defined(s, h),
        any_compressed(h),
    ensures
        spec_decompress(s, h) matches Ok(d) ==> {
            let t = h.text_file_offset as int;
            let ro = t + h.text_decompressed_size;
            let da = ro + h.rodata_decompressed_size;
            let total = h.data_memory_offset + h.data_decompressed_size + h.bss_size;
            let tb = text_bytes(s, h);
            let rb = rodata_bytes(s, h);
            let db = data_bytes(s, h);
            &&& d.len() == if total > 0x100 { total } else { 0x100 }
            &&& forall|k: int| 0 <= k < h.text_decompressed_size && k < tb.len() && t + k < d.len()
                ==> #[trigger] d[t + k] == tb[k]
            &&& forall|k: int| 0 <= k < h.rodata_decompressed_size && k < rb.len() && ro + k < d.len()
                ==> #[trigger] d[ro + k] == rb[k]
            &&& forall|k: int| 0 <= k < h.data_decompressed_size && k < db.len() && da + k < d.len()
                ==> #[trigger] d[da + k] == db[k]
        },
{
    lemma_flag_bits(h.flags);
    if let Ok(d) = spec_decompress(s, h) {
        let img = initial_image(s, h);
        crate::laws::lemma_initial_image_len(s, h);
        let t = h.text_file_offset as int;
        let ro = t + h.text_decompressed_size;
        let da = ro + h.rodata_decompressed_size;
        lemma_segment_bytes(
            s,
            img,
            t,
            t,
            h.text_decompressed_size as int,
            h.text_compressed_size as int,
            text_compressed(h),
        );
        let o1 = place_text(s, img, h)->Ok_0;
        lemma_segment_bytes(
            s,
            o1,
            h.rodata_file_offset as int,
            ro,
            h.rodata_decompressed_size as int,
            h.rodata_compressed_size as int,
            rodata_compressed(h),
        );
        let o2 = place_rodata(s, o1, h)->Ok_0;
        lemma_segment_bytes(
            s,
            o2,
            h.data_file_offset as int,
            da,
            h.data_decompressed_size as int,
            h.data_compressed_size as int,
            data_compressed(h),
        );
        let tb = text_bytes(s, h);
        let rb = rodata_bytes(s, h);
        assert forall|k: int| 0 <= k < h.text_decompressed_size && k < tb.len() && t + k < d.len()
            implies #[trigger] d[t + k] == tb[k] by {
            assert(o2[t + k] == o1[t + k]);
            assert(d[t + k] == o2[t + k]);
        }
        assert forall|k: int| 0 <= k < h.rodata_decompressed_size && k < rb.len() && ro + k < d.len()
            implies #[trigger] d[ro + k] == rb[k] by {
            assert(d[ro + k] == o2[ro + k]);
        }
    }
}

/// The dynamic stage of an uncompressed file, from the MOD0 words on: the MOD0
/// offset is the word at text + 4; from the MOD0 header on, the words at + 4,
/// + 8 and + 12 give the dynamic section (relative to MOD0) and the bss range.
/// The dynamic entries are read at the dynamic section's translated address, at
/// most (end of data - dynamic section) / 16 of them; then the symbols and the
/// relocations follow from those entries.
pub proof fn law_dynamic_stage(s: Seq<u8>, h: NsoHeader)
    ensures
        spec_load_dynamic(s, h) matches Some(Ok((d, bss))) ==> {
            let t = h.text_file_offset as int;
            let m = le_value(s, t + 4, 4);
            let dynamic = le_value(s, t + m + 4, 4) + m;
            let bs = le_value(s, t + m + 8, 4);
            let be = le_value(s, t + m + 12, 4);
            let segs = header_segments(h);
            &&& bss.file_offset == bs && bss.memory_offset == bs && bss.decompressed_size == be - bs
            &&& spec_map_va(segs, dynamic as u64) matches Ok(df) && scan_dynamic(
                s,
                df as int,
                ((h.data_memory_offset + h.data_decompressed_size - dynamic) / 16) as nat,
                Seq::empty(),
            ) matches Ok(dyns) && spec_symbols(s, segs, dyns) matches Some(Ok(syms)) && spec_relocate(
                s,
                segs,
                dyns,
                syms,
            ) == Some(Ok::<Seq<u8>, Error>(d))
        },
{
    let t = h.text_file_offset as int;
    crate::table_laws::lemma_le32_value(s, t + 4);
    let m = le_value(s, t + 4, 4);
    crate::table_laws::lemma_le32_value(s, t + m + 4);
    crate::table_laws::lemma_le32_value(s, t + m + 8);
    crate::table_laws::lemma_le32_value(s, t + m + 12);
}

/// What loading a file gives: for a compressed file (any of flag bits 0-2) the
/// decompressed image, no bss and the three segments the header describes; for
/// an uncompressed one the image and bss of the dynamic stage and the same
/// segments.
pub proof fn law_load_stages(s: Seq<u8>)
    ensures
        spec_load(s) matches Some(Ok((d, segs, bss))) ==> spec_parse_header(s) matches Ok(h) && {
            &&& segs.len() == 3
            &&& segs[0].file_offset == h.text_file_offset && segs[0].memory_offset
                == h.text_memory_offset && segs[0].decompressed_size == h.text_decompressed_size
            &&& segs[1].file_offset == h.rodata_file_offset && segs[1].memory_offset
                == h.rodata_memory_offset && segs[1].decompressed_size == h.rodata_decompressed_size
            &&& segs[2].file_offset == h.data_file_offset && segs[2].memory_offset
                == h.data_memory_offset && segs[2].decompressed_size == h.data_decompressed_size
            &&& if h.flags % 8 != 0 {
                spec_decompress(s, h) == Ok::<Seq<u8>, Error>(d) && bss is None
            } else {
                bss matches Some(b) && spec_load_dynamic(s, h) == Some(
                    Ok::<(Seq<u8>, NsoSegment), Error>((d, b)),
                )
            }
        },
{
    if let Ok(h) = spec_parse_header(s) {
        let f = h.flags;
        assert((f % 8 != 0) == (f & 1 != 0 || f & 2 != 0 || f & 4 != 0)) by (bit_vector);
    }
}

} // verus!
