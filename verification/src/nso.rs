//! Loading an NSO image: header, decompression, MOD0, dynamic symbols and
//! relocations, and address translation.

use vstd::prelude::*;

use crate::bytes::{read_le, write_le};
use crate::bytes::{lemma_le_value_bound, lemma_pow256_facts};
use crate::elf::{find_tag, ElfDyn, ElfSym};
use crate::elf::{DT_GNU_HASH, DT_HASH, DT_RELA, DT_RELASZ, DT_SYMTAB};
use crate::elf::{R_AARCH64_ABS64, R_AARCH64_RELATIVE};
use crate::error::{Error, FormatError};
use crate::format::{NsoHeader, NsoSegment, NSO_MAGIC, any_compressed, new_data_offset};
use crate::format::{find_rva, find_va, le32, segment_wf, spec_map_va, spec_parse_header};
use crate::format::{header_copy_len, decompress_defined, initial_image, output_len, place, segment_loads};
use crate::format::{spec_decompress, spec_segment};
use crate::format::{Mod0Info, bss_segment_of, dyn_entry_at, scan_dynamic, spec_load_dynamic, spec_mod0};
use crate::format::{chain_end, gnu_hash_count, max_bucket, read32, spec_symbol_count};
use crate::format::{scan_symbols, spec_symbols, sym_at};
use crate::format::{apply_one, apply_relocations, rela_at, rela_symbol, scan_relas, spec_relocate};
use crate::format::{header_segments, layout_defined, load_defined, spec_load};
use crate::format::{dynamic_stage_bss, dynamic_stage_image, relocate_image, relocated_prefix};
use crate::format::{apply_end, chain_walk_end, dynamic_load_end, dynamic_scan_end};
use crate::format::{relocate_end, spec_load_cursor, symbol_count_end, symbols_end};
use crate::laws::{file_ranges_disjoint, law_address_roundtrip, law_offset_roundtrip, memory_ranges_disjoint};
use crate::lz4::lz4_decompress;
use crate::section::{section_of, SearchSection, SectionHelper};
use crate::stream::BinaryStream;

verus! {

/// A loaded NSO image.
pub struct Nso {
    pub stream: BinaryStream,
    pub is_32bit: bool,
    segments: Vec<NsoSegment>,
    bss_segment: Option<NsoSegment>,
}

/// The little-endian `u32` at `off`.
fn u32_at(data: &[u8], off: usize) -> (v: u32)
    requires
        off + 4 <= data@.len(),
    ensures
        v == le32(data@, off as int),
{
    let x = read_le(data, off, 4);
    proof {
        lemma_le_value_bound(data@, off as int, 4);
        lemma_pow256_facts();
    }
    x as u32
}

/// Writes as much of `bytes` as fits into `dst` at `dest_offset`.
pub fn place_segment(dst: &mut Vec<u8>, dest_offset: usize, bytes: &[u8])
    requires
        dest_offset <= old(dst)@.len(),
    ensures
        final(dst)@ == place(old(dst)@, dest_offset as int, bytes@),
        final(dst)@.len() == old(dst)@.len(),
{
    let ghost d0 = dst@;
    let dlen = dst.len();
    let room = dlen - dest_offset;
    let n = if bytes.len() < room {
        bytes.len()
    } else {
        room
    };
    let mut k: usize = 0;
    while k < n
        invariant
            k <= n,
            n <= bytes@.len(),
            dest_offset + n <= d0.len(),
            dst@.len() == d0.len(),
            dlen == d0.len(),
            forall|j: int| 0 <= j < d0.len() ==> #[trigger] dst@[j] == if dest_offset <= j < dest_offset + k {
                bytes@[j - dest_offset]
            } else {
                d0[j]
            },
        decreases n - k,
    {
        dst.set(dest_offset + k, bytes[k]);
        k += 1;
    }
    assert(dst@ =~= place(d0, dest_offset as int, bytes@));
}

impl Nso {
    /// The text, rodata and data segments.
    pub closed spec fn segs(&self) -> Seq<NsoSegment> {
        self.segments@
    }

    /// The bss segment, known once MOD0 has been read.
    pub closed spec fn bss(&self) -> Option<NsoSegment> {
        self.bss_segment
    }

    /// The bytes of the image.
    pub closed spec fn image(&self) -> Seq<u8> {
        self.stream.bytes()
    }

    /// The cursor of the image's stream.
    pub closed spec fn cursor(&self) -> nat {
        self.stream.pos()
    }

    /// Whether the image holds 32-bit code.
    pub closed spec fn is_32bit_image(&self) -> bool {
        self.is_32bit
    }

    /// Every segment has 32-bit fields.
    pub closed spec fn wf(&self) -> bool {
        &&& forall|i: int| 0 <= i < self.segments@.len() ==> segment_wf(#[trigger] self.segments@[i])
        &&& self.bss_segment matches Some(b) ==> segment_wf(b)
    }

    /// A well-formed image has segments whose fields all fit in 32 bits, so the
    /// laws on address translation apply to it.
    pub proof fn lemma_wf_segments(&self)
        requires
            self.wf(),
        ensures
            forall|i: int| 0 <= i < self.segs().len() ==> segment_wf(#[trigger] self.segs()[i]),
            self.bss() matches Some(b) ==> segment_wf(b),
    {
    }

    /// When no two segments of the image share a file offset, `map_rtva` undoes
    /// `map_vatr`.
    pub proof fn law_map_vatr_then_rtva(&self, addr: u64)
        requires
            self.wf(),
            file_ranges_disjoint(self.segs()),
        ensures
            spec_map_va(self.segs(), addr) matches Ok(o) ==> find_rva(self.segs(), o) == Some(addr),
    {
        law_address_roundtrip(self.segs(), addr);
    }

    /// When no two segments of the image share an address, `map_vatr` undoes
    /// `map_rtva` on every offset that some segment holds.
    pub proof fn law_map_rtva_then_vatr(&self, offset: u64)
        requires
            self.wf(),
            memory_ranges_disjoint(self.segs()),
        ensures
            find_rva(self.segs(), offset) matches Some(a) ==> spec_map_va(self.segs(), a) == Ok::<
                u64,
                Error,
            >(offset),
    {
        law_offset_roundtrip(self.segs(), offset);
    }

    /// The bytes of the image.
    pub fn image_bytes(&self) -> (d: &[u8])
        ensures
            d@ == self.image(),
    {
        self.stream.data()
    }

    /// The cursor of the image's stream.
    pub fn cursor_position(&self) -> (p: u64)
        ensures
            p == self.cursor(),
    {
        self.stream.position()
    }

    /// Whether the image holds 32-bit code.
    pub fn is_32bit_code(&self) -> (b: bool)
        ensures
            b == self.is_32bit_image(),
    {
        self.is_32bit
    }

    /// `b` has the segments, bss segment and word size of `a`, and they are well formed.
    closed spec fn same_layout(a: &Nso, b: &Nso) -> bool {
        &&& b.segments@ == a.segments@
        &&& b.bss_segment == a.bss_segment
        &&& b.is_32bit == a.is_32bit
        &&& b.wf()
    }

    fn get_symbol_count(&mut self, dynamic_section: &[ElfDyn]) -> (r: Result<usize, Error>)
        requires
            old(self).wf(),
            spec_symbol_count(old(self).stream.bytes(), old(self).segs(), dynamic_section@) is Some,
        ensures
            Self::same_layout(old(self), final(self)),
            final(self).stream.bytes() == old(self).stream.bytes(),
            match spec_symbol_count(old(self).stream.bytes(), old(self).segs(), dynamic_section@) {
                Some(Ok(c)) => r matches Ok(n) && n == c && final(self).stream.pos() == symbol_count_end(
                    old(self).stream.bytes(),
                    old(self).segs(),
                    dynamic_section@,
                    old(self).stream.pos() as int,
                ),
                Some(Err(e)) => r == Err::<usize, Error>(e),
                None => false,
            },
    {
        let ghost s = self.stream.bytes();
        if let Some(hash_entry) = find_tag(dynamic_section, DT_HASH) {
            let addr = self.map_vatr(hash_entry.d_un)?;
            self.stream.set_position(addr);
            let _nbucket = self.stream.read_u32()?;
            let nchain = self.stream.read_u32()?;
            return Ok(nchain as usize);
        }
        if let Some(gnu_hash) = find_tag(dynamic_section, DT_GNU_HASH) {
            let addr = self.map_vatr(gnu_hash.d_un)?;
            proof {
                Self::lemma_map_va_bound(self.segs(), gnu_hash.d_un);
            }
            self.stream.set_position(addr);
            let nbuckets = self.stream.read_u32()?;
            let symoffset = self.stream.read_u32()?;
            let bloom_size = self.stream.read_u32()?;
            let _bloom_shift = self.stream.read_u32()?;
            let buckets_address = addr + 16 + 8 * bloom_size as u64;

            self.stream.set_position(buckets_address);
            let mut last_symbol = 0u32;
            let mut i: u32 = 0;
            while i < nbuckets
                invariant
                    Self::same_layout(old(self), self),
                    self.stream.bytes() == s,
                    s == old(self).stream.bytes(),
                    spec_symbol_count(s, old(self).segs(), dynamic_section@)
                        == gnu_hash_count(s, addr as int),
                    read32(s, addr as int) == Ok::<u32, Error>(nbuckets),
                    read32(s, addr + 4) == Ok::<u32, Error>(symoffset),
                    read32(s, addr + 8) == Ok::<u32, Error>(bloom_size),
                    read32(s, addr + 12) is Ok,
                    buckets_address == addr + 16 + 8 * bloom_size,
                    i <= nbuckets,
                    self.stream.pos() == buckets_address + 4 * i,
                    buckets_address <= 0x10_0000_0000,
                    max_bucket(s, buckets_address as int, nbuckets as nat, 0) == max_bucket(
                        s,
                        buckets_address + 4 * i,
                        (nbuckets - i) as nat,
                        last_symbol,
                    ),
                decreases nbuckets - i,
            {
                let bucket = self.stream.read_u32()?;
                if bucket > last_symbol {
                    last_symbol = bucket;
                }
                i += 1;
            }

            if last_symbol < symoffset {
                return Ok(symoffset as usize);
            }

            let chains_base = buckets_address + 4 * nbuckets as u64;
            self.stream.set_position(chains_base + (last_symbol - symoffset) as u64 * 4);
            let ghost start = self.stream.pos() as int;
            let ghost first = last_symbol;
            loop
                invariant_except_break
                    chain_end(s, start, first) == chain_end(s, self.stream.pos() as int, last_symbol),
                    chain_walk_end(s, start, first)
                        == chain_walk_end(s, self.stream.pos() as int, last_symbol),
                    chain_end(s, start, first) is Some,
                invariant
                    Self::same_layout(old(self), self),
                    self.stream.bytes() == s,
                    s == old(self).stream.bytes(),
                    spec_symbol_count(s, old(self).segs(), dynamic_section@)
                        == gnu_hash_count(s, addr as int),
                    read32(s, addr as int) == Ok::<u32, Error>(nbuckets),
                    read32(s, addr + 4) == Ok::<u32, Error>(symoffset),
                    read32(s, addr + 8) == Ok::<u32, Error>(bloom_size),
                    read32(s, addr + 12) is Ok,
                    buckets_address == addr + 16 + 8 * bloom_size,
                    max_bucket(s, buckets_address as int, nbuckets as nat, 0) == Ok::<u32, Error>(first),
                    first >= symoffset,
                    start == buckets_address + 4 * nbuckets + (first - symoffset) * 4,
                ensures
                    chain_end(s, start, first) == Some(Ok::<u32, Error>(last_symbol)),
                    chain_walk_end(s, start, first) == self.stream.pos(),
                decreases s.len() - self.stream.pos(),
            {
                let chain_entry = self.stream.read_u32()?;
                last_symbol += 1;
                if (chain_entry & 1) != 0 {
                    break;
                }
            }
            return Ok(last_symbol as usize);
        }
        Ok(0)
    }

    fn read_symbols(&mut self, dynamic_section: &[ElfDyn]) -> (r: Result<Vec<ElfSym>, Error>)
        requires
            old(self).wf(),
            spec_symbols(old(self).stream.bytes(), old(self).segs(), dynamic_section@) is Some,
        ensures
            Self::same_layout(old(self), final(self)),
            final(self).stream.bytes() == old(self).stream.bytes(),
            match spec_symbols(old(self).stream.bytes(), old(self).segs(), dynamic_section@) {
                Some(Ok(v)) => r matches Ok(x) && x@ == v && final(self).stream.pos() == symbols_end(
                    old(self).stream.bytes(),
                    old(self).segs(),
                    dynamic_section@,
                    old(self).stream.pos() as int,
                ),
                Some(Err(e)) => r == Err::<Vec<ElfSym>, Error>(e),
                None => false,
            },
    {
        let ghost s = self.stream.bytes();
        let symbol_count = self.get_symbol_count(dynamic_section)?;
        let dynsym_entry = find_tag(dynamic_section, DT_SYMTAB);
        let dynsym_addr = match dynsym_entry {
            Some(e) => e.d_un,
            None => return Ok(Vec::new()),
        };

        let dynsym_offset = self.map_vatr(dynsym_addr)?;
        proof {
            Self::lemma_map_va_bound(self.segs(), dynsym_addr);
        }
        self.stream.set_position(dynsym_offset);

        let mut symbols: Vec<ElfSym> = Vec::new();
        let mut i: usize = 0;
        while i < symbol_count
            invariant
                Self::same_layout(old(self), self),
                self.stream.bytes() == s,
                s == old(self).stream.bytes(),
                i <= symbol_count <= u32::MAX,
                dynsym_offset <= 0x2_0000_0000,
                self.stream.pos() == dynsym_offset + 24 * i,
                spec_symbols(s, old(self).segs(), dynamic_section@) == Some(
                    scan_symbols(s, dynsym_offset as int, symbol_count as nat, Seq::empty()),
                ),
                scan_symbols(s, dynsym_offset as int, symbol_count as nat, Seq::empty())
                    == scan_symbols(s, dynsym_offset + 24 * i, (symbol_count - i) as nat, symbols@),
            decreases symbol_count - i,
        {
            let ghost at = self.stream.pos() as int;
            let st_name = self.stream.read_u32()?;
            let st_info = self.stream.read_u8()?;
            let st_other = self.stream.read_u8()?;
            let st_shndx = self.stream.read_u16()?;
            let st_value = self.stream.read_u64()?;
            let st_size = self.stream.read_u64()?;
            let sym = ElfSym { st_name, st_info, st_other, st_shndx, st_value, st_size };
            assert(sym == sym_at(s, at));
            symbols.push(sym);
            i += 1;
        }

        Ok(symbols)
    }

    fn process_relocations(&mut self, dynamic_section: &[ElfDyn], symbol_table: &[ElfSym]) -> (r:
        Result<(), Error>)
        requires
            old(self).wf(),
            spec_relocate(
                old(self).stream.bytes(),
                old(self).segs(),
                dynamic_section@,
                symbol_table@,
            ) is Some,
        ensures
            Self::same_layout(old(self), final(self)),
            final(self).stream.bytes() == relocate_image(
                old(self).stream.bytes(),
                old(self).segs(),
                dynamic_section@,
                symbol_table@,
            ),
            match spec_relocate(old(self).stream.bytes(), old(self).segs(), dynamic_section@, symbol_table@) {
                Some(Ok(d)) => r is Ok && final(self).stream.bytes() == d && final(self).stream.pos()
                    == relocate_end(
                    old(self).stream.bytes(),
                    old(self).segs(),
                    dynamic_section@,
                    symbol_table@,
                    old(self).stream.pos() as int,
                ),
                Some(Err(e)) => r == Err::<(), Error>(e),
                None => false,
            },
    {
        let ghost s = self.stream.bytes();
        let ghost segs = self.segs();
        let rela_entry = match find_tag(dynamic_section, DT_RELA) {
            Some(e) => e,
            None => return Ok(()),
        };
        let relasz_entry = match find_tag(dynamic_section, DT_RELASZ) {
            Some(e) => e,
            None => return Ok(()),
        };

        let rela_offset = self.map_vatr(rela_entry.d_un)?;
        proof {
            Self::lemma_map_va_bound(self.segs(), rela_entry.d_un);
        }
        let rela_count = relasz_entry.d_un / 24;

        self.stream.set_position(rela_offset);
        let mut rela_entries: Vec<(u64, u64, i64)> = Vec::new();
        let mut i: u64 = 0;
        while i < rela_count
            invariant
                Self::same_layout(old(self), self),
                self.stream.bytes() == s,
                s == old(self).stream.bytes(),
                segs == old(self).segs(),
                i <= rela_count,
                rela_count * 24 <= u64::MAX,
                rela_offset <= 0x2_0000_0000,
                self.stream.pos() == rela_offset + 24 * i,
                spec_relocate(s, segs, dynamic_section@, symbol_table@) == Some(
                    match scan_relas(s, rela_offset as int, rela_count as nat, Seq::empty()) {
                        Err(e) => Err(e),
                        Ok(rels) => apply_relocations(s, rels, symbol_table@, segs),
                    },
                ),
                scan_relas(s, rela_offset as int, rela_count as nat, Seq::empty())
                    == scan_relas(s, rela_offset + 24 * i, (rela_count - i) as nat, rela_entries@),
                relocate_image(s, segs, dynamic_section@, symbol_table@) == match scan_relas(
                    s,
                    rela_offset as int,
                    rela_count as nat,
                    Seq::empty(),
                ) {
                    Err(_) => s,
                    Ok(rels) => relocated_prefix(s, rels, symbol_table@, segs),
                },
            decreases rela_count - i,
        {
            let ghost at = self.stream.pos() as int;
            let r_offset = self.stream.read_u64()?;
            let r_info = self.stream.read_u64()?;
            let r_addend = self.stream.read_i64()?;
            assert((r_offset, r_info, r_addend) == rela_at(s, at));
            rela_entries.push((r_offset, r_info, r_addend));
            i += 1;
        }
        let ghost rels = rela_entries@;
        assert(rels.skip(0) =~= rels);

        let mut j: usize = 0;
        while j < rela_entries.len()
            invariant
                Self::same_layout(old(self), self),
                segs == old(self).segs(),
                s == old(self).stream.bytes(),
                rels == rela_entries@,
                j <= rels.len(),
                spec_relocate(s, segs, dynamic_section@, symbol_table@) == Some(
                    apply_relocations(s, rels, symbol_table@, segs),
                ),
                apply_relocations(s, rels, symbol_table@, segs) == apply_relocations(
                    self.stream.bytes(),
                    rels.skip(j as int),
                    symbol_table@,
                    segs,
                ),
                relocate_image(s, segs, dynamic_section@, symbol_table@) == relocated_prefix(
                    s,
                    rels,
                    symbol_table@,
                    segs,
                ),
                relocated_prefix(s, rels, symbol_table@, segs) == relocated_prefix(
                    self.stream.bytes(),
                    rels.skip(j as int),
                    symbol_table@,
                    segs,
                ),
                apply_relocations(s, rels, symbol_table@, segs) is Ok ==> relocate_end(
                    s,
                    segs,
                    dynamic_section@,
                    symbol_table@,
                    old(self).stream.pos() as int,
                )
                    == apply_end(rels.skip(j as int), symbol_table@, segs, self.stream.pos() as int),
            decreases rels.len() - j,
        {
            let ghost d = self.stream.bytes();
            let (r_offset, r_info, r_addend) = rela_entries[j];
            let rel_type = (r_info & 0xFFFFFFFF) as u32;
            let sym_idx = r_info >> 32;
            assert(rels.skip(j as int)[0] == rels[j as int]);
            assert(rels.skip(j as int).drop_first() =~= rels.skip(j + 1));

            if rel_type == R_AARCH64_ABS64 {
                if sym_idx < symbol_table.len() as u64 {
                    let symbol = symbol_table[sym_idx as usize];
                    let value = symbol.st_value.wrapping_add(r_addend as u64);
                    assert(value == ((symbol_table@[rela_symbol(r_info) as int].st_value + (r_addend as u64))
                        % 0x1_0000_0000_0000_0000) as u64);
                    let write_offset = self.map_vatr(r_offset)?;
                    self.stream.set_position(write_offset);
                    self.stream.write_u64(value)?;
                }
            } else if rel_type == R_AARCH64_RELATIVE {
                let write_offset = self.map_vatr(r_offset)?;
                self.stream.set_position(write_offset);
                self.stream.write_u64(r_addend as u64)?;
            }
            assert(apply_one(d, rels[j as int], symbol_table@, segs) == Ok::<Seq<u8>, Error>(
                self.stream.bytes(),
            ));
            j += 1;
        }
        assert(rels.skip(j as int) =~= Seq::<(u64, u64, i64)>::empty());
        Ok(())
    }

    fn read_mod0_and_dynamic(&mut self, header: &NsoHeader) -> (r: Result<(), Error>)
        requires
            old(self).wf(),
            old(self).segs() == header_segments(*header),
            spec_load_dynamic(old(self).stream.bytes(), *header) is Some,
        ensures
            final(self).segs() == old(self).segs(),
            final(self).is_32bit == old(self).is_32bit,
            final(self).wf(),
            final(self).stream.bytes() == dynamic_stage_image(old(self).stream.bytes(), *header),
            final(self).bss() == dynamic_stage_bss(old(self).stream.bytes(), *header, old(self).bss()),
            match spec_load_dynamic(old(self).stream.bytes(), *header) {
                Some(Ok((d, bss))) => {
                    &&& r is Ok
                    &&& final(self).stream.bytes() == d
                    &&& final(self).bss() == Some(bss)
                    &&& final(self).stream.pos() == dynamic_load_end(old(self).stream.bytes(), *header)
                },
                Some(Err(e)) => r == Err::<(), Error>(e),
                None => false,
            },
    {
        let ghost s = self.stream.bytes();
        let ghost segs = self.segs();
        self.stream.set_position(header.text_file_offset as u64 + 4);
        let mod_offset = (self.stream.read_u32()?) as u64;

        self.stream.set_position(header.text_file_offset as u64 + mod_offset + 4);
        let dynamic_offset = (self.stream.read_u32()?) as u64 + mod_offset;
        let bss_start = (self.stream.read_u32()?) as u64;
        let bss_end = (self.stream.read_u32()?) as u64;
        let ghost m = spec_mod0(s, *header)->Ok_0;
        assert(m == Mod0Info { dynamic_offset, bss_start, bss_end });

        self.bss_segment = Some(
            NsoSegment {
                file_offset: bss_start,
                memory_offset: bss_start,
                decompressed_size: bss_end - bss_start,
            },
        );

        let data_end = header.data_memory_offset as u64 + header.data_decompressed_size as u64;
        let max_entries = (data_end - dynamic_offset) / 16;

        let dyn_file_offset = self.map_vatr(dynamic_offset)?;
        proof {
            Self::lemma_map_va_bound(self.segs(), dynamic_offset);
        }
        self.stream.set_position(dyn_file_offset);

        let mut dynamic_section: Vec<ElfDyn> = Vec::new();
        let mut i: u64 = 0;
        assert(scan_dynamic(s, dyn_file_offset as int, max_entries as nat, Seq::empty()) is Err
            ==> spec_load_dynamic(s, *header) == Some(Err::<(Seq<u8>, NsoSegment), Error>(
            scan_dynamic(s, dyn_file_offset as int, max_entries as nat, Seq::empty())->Err_0)));
        assert(scan_dynamic(s, dyn_file_offset as int, max_entries as nat, Seq::empty()) is Err
            ==> dynamic_stage_image(s, *header) == s);
        while i < max_entries
            invariant_except_break
                scan_dynamic(s, dyn_file_offset as int, max_entries as nat, Seq::empty())
                    == scan_dynamic(s, dyn_file_offset + 16 * i, (max_entries - i) as nat, dynamic_section@),
                dynamic_scan_end(s, dyn_file_offset as int, max_entries as nat)
                    == dynamic_scan_end(s, dyn_file_offset + 16 * i, (max_entries - i) as nat),
                self.stream.pos() == dyn_file_offset + 16 * i,
            invariant
                self.stream.bytes() == s,
                self.segs() == segs,
                segs == header_segments(*header),
                segs == old(self).segs(),
                s == old(self).stream.bytes(),
                self.is_32bit == old(self).is_32bit,
                self.bss() == Some(bss_segment_of(m)),
                self.wf(),
                spec_mod0(s, *header) == Ok::<Mod0Info, Error>(m),
                data_end == crate::format::data_end(*header),
                dynamic_offset <= data_end,
                max_entries == (data_end - dynamic_offset) / 16,
                spec_map_va(segs, dynamic_offset) == Ok::<u64, Error>(dyn_file_offset),
                spec_load_dynamic(s, *header) is Some,
                scan_dynamic(s, dyn_file_offset as int, max_entries as nat, Seq::empty()) is Err
                    ==> spec_load_dynamic(s, *header) == Some(Err::<(Seq<u8>, NsoSegment), Error>(
                    scan_dynamic(s, dyn_file_offset as int, max_entries as nat, Seq::empty())->Err_0)),
                scan_dynamic(s, dyn_file_offset as int, max_entries as nat, Seq::empty()) is Err
                    ==> dynamic_stage_image(s, *header) == s,
                i <= max_entries,
                max_entries <= 0x2000_0000,
                dyn_file_offset <= 0x2_0000_0000,
            ensures
                scan_dynamic(s, dyn_file_offset as int, max_entries as nat, Seq::empty())
                    == Ok::<Seq<ElfDyn>, Error>(dynamic_section@),
                dynamic_scan_end(s, dyn_file_offset as int, max_entries as nat) == self.stream.pos(),
            decreases max_entries - i,
        {
            let ghost at = self.stream.pos() as int;
            let d_tag = self.stream.read_i64()?;
            let d_un = self.stream.read_u64()?;
            assert(ElfDyn { d_tag, d_un } == dyn_entry_at(s, at));
            if d_tag == 0 {
                break;
            }
            dynamic_section.push(ElfDyn { d_tag, d_un });
            i += 1;
        }

        let symbol_table = self.read_symbols(dynamic_section.as_slice())?;
        self.process_relocations(dynamic_section.as_slice(), symbol_table.as_slice())?;

        Ok(())
    }

    /// `r` is what loading the file `s` gives.
    pub open spec fn loaded_from(r: Result<Self, Error>, s: Seq<u8>) -> bool {
        match spec_load(s) {
            Some(Ok((d, segs, bss))) => r matches Ok(n) && {
                &&& n.image() == d
                &&& n.segs() == segs
                &&& n.bss() == bss
                &&& !n.is_32bit_image()
                &&& n.wf()
                &&& n.cursor() == spec_load_cursor(s)
            },
            Some(Err(e)) => r matches Err(x) && x == e,
            None => false,
        }
    }

    /// Whether a segment gets to its destination: it lies inside the file and,
    /// when compressed, its LZ4 block decodes.
    fn segment_loads_check(
        src: &[u8],
        file_offset: u32,
        size: u32,
        compressed_size: u32,
        compressed: bool,
    ) -> (b: bool)
        ensures
            b == segment_loads(src@, file_offset as int, size as int, compressed_size as int, compressed),
    {
        if compressed {
            if file_offset as u64 + compressed_size as u64 > src.len() as u64 {
                return false;
            }
            let end = file_offset as usize + compressed_size as usize;
            let block = vstd::slice::slice_subrange(src, file_offset as usize, end);
            match lz4_decompress(block, size as usize) {
                Ok(_) => true,
                Err(_) => false,
            }
        } else {
            file_offset as u64 + size as u64 <= src.len() as u64
        }
    }

    /// Whether decompressing `data` as `header` describes it runs to completion.
    fn decompress_defined_check(data: &[u8], header: &NsoHeader) -> (b: bool)
        requires
            any_compressed(*header) ==> new_data_offset(*header) <= u32::MAX && output_len(*header)
                <= usize::MAX,
        ensures
            b == decompress_defined(data@, *header),
    {
        let t = (header.flags & 1) != 0;
        let r = (header.flags & 2) != 0;
        let d = (header.flags & 4) != 0;
        if !t && !r && !d {
            return true;
        }
        let new_ro: u64 = header.text_file_offset as u64 + header.text_decompressed_size as u64;
        let new_data: u64 = new_ro + header.rodata_decompressed_size as u64;
        let total: u64 = header.data_memory_offset as u64 + header.data_decompressed_size as u64
            + header.bss_size as u64;
        let len: u64 = if total > 0x100 {
            total
        } else {
            0x100
        };
        if header.text_file_offset as u64 <= len && new_ro <= len && new_data <= len {
            return true;
        }
        let text = Self::segment_loads_check(
            data,
            header.text_file_offset,
            header.text_decompressed_size,
            header.text_compressed_size,
            t,
        );
        let rodata = Self::segment_loads_check(
            data,
            header.rodata_file_offset,
            header.rodata_decompressed_size,
            header.rodata_compressed_size,
            r,
        );
        let data_seg = Self::segment_loads_check(
            data,
            header.data_file_offset,
            header.data_decompressed_size,
            header.data_compressed_size,
            d,
        );
        !(text && header.text_file_offset as u64 > len) && !(text && rodata && new_ro > len) && !(
        text && rodata && data_seg && new_data > len)
    }

    /// Loads an NSO file as `new` does, after checking by decoding its LZ4 blocks
    /// that no segment lands past the end of the decompressed image; `None` when
    /// one would, since loading cannot go on there.
    pub fn load(data: Vec<u8>) -> (r: Option<Result<Self, Error>>)
        requires
            layout_defined(data@),
        ensures
            r is None <==> !load_defined(data@),
            r matches Some(x) ==> Self::loaded_from(x, data@),
    {
        let header = match Self::parse_header(data.as_slice()) {
            Ok(h) => h,
            Err(_) => return Some(Self::new(data)),
        };
        if Self::decompress_defined_check(data.as_slice(), &header) {
            Some(Self::new(data))
        } else {
            None
        }
    }

    /// Loads an NSO file: parses the header, decompresses the segments when any
    /// is compressed, and otherwise reads MOD0, the dynamic symbols and applies
    /// the relocations to the image. Files on which that arithmetic or slicing
    /// would fail (`load_defined`) are not accepted.
    pub fn new(data: Vec<u8>) -> (r: Result<Self, Error>)
        requires
            load_defined(data@),
        ensures
            Self::loaded_from(r, data@),
    {
        let header = Self::parse_header(data.as_slice())?;
        let is_compressed = (header.flags & 7) != 0;
        proof {
            let f = header.flags;
            assert((f & 7 != 0) == (f & 1 != 0 || f & 2 != 0 || f & 4 != 0)) by (bit_vector);
            assert(is_compressed == any_compressed(header));
        }
        let decompressed = Self::decompress_if_needed(data.as_slice(), &header)?;

        let text_seg = NsoSegment {
            file_offset: header.text_file_offset as u64,
            memory_offset: header.text_memory_offset as u64,
            decompressed_size: header.text_decompressed_size as u64,
        };
        let rodata_seg = NsoSegment {
            file_offset: header.rodata_file_offset as u64,
            memory_offset: header.rodata_memory_offset as u64,
            decompressed_size: header.rodata_decompressed_size as u64,
        };
        let data_seg = NsoSegment {
            file_offset: header.data_file_offset as u64,
            memory_offset: header.data_memory_offset as u64,
            decompressed_size: header.data_decompressed_size as u64,
        };

        let mut segments: Vec<NsoSegment> = Vec::new();
        segments.push(text_seg);
        segments.push(rodata_seg);
        segments.push(data_seg);
        assert(segments@ =~= header_segments(header));

        let mut nso = Nso {
            stream: BinaryStream::new(decompressed),
            is_32bit: false,
            segments,
            bss_segment: None,
        };

        if !is_compressed {
            assert(spec_load(data@) == match spec_load_dynamic(data@, header) {
                None => None,
                Some(Err(e)) => Some(Err(e)),
                Some(Ok((d, bss))) => Some(Ok((d, header_segments(header), Some(bss)))),
            });
            assert(spec_load_cursor(data@) == dynamic_load_end(data@, header));
            nso.read_mod0_and_dynamic(&header)?;
        } else {
            assert(spec_load_cursor(data@) == 0);
        }

        Ok(nso)
    }

    /// A translated address stays within 33 bits.
    proof fn lemma_map_va_bound(segs: Seq<NsoSegment>, addr: u64)
        requires
            forall|i: int| 0 <= i < segs.len() ==> segment_wf(#[trigger] segs[i]),
        ensures
            find_va(segs, addr) matches Some(o) ==> o <= 0x2_0000_0000,
        decreases segs.len(),
    {
        if segs.len() > 0 {
            assert(segment_wf(segs[0]));
            assert forall|i: int| 0 <= i < segs.drop_first().len() implies segment_wf(
                #[trigger] segs.drop_first()[i],
            ) by {
                assert(segment_wf(segs[i + 1]));
            }
            Self::lemma_map_va_bound(segs.drop_first(), addr);
        }
    }

    fn parse_header(data: &[u8]) -> (r: Result<NsoHeader, Error>)
        ensures
            r == spec_parse_header(data@),
    {
        if data.len() < 0x100 {
            return Err(Error::InvalidFormat(FormatError::HeaderTooSmall));
        }
        let magic = u32_at(data, 0);
        if magic != NSO_MAGIC {
            return Err(Error::InvalidFormat(FormatError::InvalidMagic));
        }
        Ok(
            NsoHeader {
                flags: u32_at(data, 12),
                text_file_offset: u32_at(data, 16),
                text_memory_offset: u32_at(data, 20),
                text_decompressed_size: u32_at(data, 24),
                rodata_file_offset: u32_at(data, 32),
                rodata_memory_offset: u32_at(data, 36),
                rodata_decompressed_size: u32_at(data, 40),
                data_file_offset: u32_at(data, 48),
                data_memory_offset: u32_at(data, 52),
                data_decompressed_size: u32_at(data, 56),
                bss_size: u32_at(data, 60),
                text_compressed_size: u32_at(data, 0x60),
                rodata_compressed_size: u32_at(data, 0x64),
                data_compressed_size: u32_at(data, 0x68),
            },
        )
    }

    fn decompress_segment(
        src: &[u8],
        dst: &mut Vec<u8>,
        file_offset: usize,
        dest_offset: usize,
        decompressed_size: usize,
        compressed_size: usize,
        is_compressed: bool,
    ) -> (r: Result<(), Error>)
        requires
            file_offset <= u32::MAX,
            decompressed_size <= u32::MAX,
            compressed_size <= u32::MAX,
            segment_loads(
                src@,
                file_offset as int,
                decompressed_size as int,
                compressed_size as int,
                is_compressed,
            )
                ==> dest_offset <= old(dst)@.len(),
        ensures
            final(dst)@.len() == old(dst)@.len(),
            r is Err ==> final(dst)@ == old(dst)@,
            match spec_segment(
                src@,
                old(dst)@,
                file_offset as int,
                dest_offset as int,
                decompressed_size as int,
                compressed_size as int,
                is_compressed,
            ) {
                Ok(d) => r is Ok && final(dst)@ == d,
                Err(e) => r == Err::<(), Error>(e),
            },
    {
        if is_compressed {
            if file_offset as u64 + compressed_size as u64 > src.len() as u64 {
                return Err(Error::InvalidFormat(FormatError::CompressedSegmentOutOfBounds));
            }
            let end = file_offset + compressed_size;
            let compressed = vstd::slice::slice_subrange(src, file_offset, end);
            match lz4_decompress(compressed, decompressed_size) {
                Ok(decompressed) => {
                    place_segment(dst, dest_offset, decompressed.as_slice());
                    Ok(())
                },
                Err(e) => Err(Error::InvalidFormat(FormatError::DecompressionFailed(e))),
            }
        } else {
            if file_offset as u64 + decompressed_size as u64 > src.len() as u64 {
                return Err(Error::InvalidFormat(FormatError::UncompressedSegmentOutOfBounds));
            }
            let end = file_offset + decompressed_size;
            place_segment(dst, dest_offset, vstd::slice::slice_subrange(src, file_offset, end));
            Ok(())
        }
    }

    fn decompress_if_needed(data: &[u8], header: &NsoHeader) -> (r: Result<Vec<u8>, Error>)
        requires
            decompress_defined(data@, *header),
        ensures
            match spec_decompress(data@, *header) {
                Ok(d) => r matches Ok(v) && v@ == d,
                Err(e) => r == Err::<Vec<u8>, Error>(e),
            },
    {
        let text_compressed = (header.flags & 1) != 0;
        let rodata_compressed = (header.flags & 2) != 0;
        let data_compressed = (header.flags & 4) != 0;

        if !text_compressed && !rodata_compressed && !data_compressed {
            return Ok(vstd::slice::slice_to_vec(data));
        }
        let total_size: usize = header.data_memory_offset as usize
            + header.data_decompressed_size as usize + header.bss_size as usize;
        let len: usize = if total_size > 0x100 {
            total_size
        } else {
            0x100
        };
        let mut result: Vec<u8> = vec![0u8; len];
        let ghost h = *header;
        let ghost s = data@;
        let m: usize = if data.len() < 0x100 {
            data.len()
        } else {
            0x100
        };
        let mut k: usize = 0;
        while k < m
            invariant
                k <= m,
                m == header_copy_len(s),
                s == data@,
                len >= 0x100,
                result@.len() == len,
                forall|j: int| 0 <= j < len ==> #[trigger] result@[j] == if j < k {
                    s[j]
                } else {
                    0u8
                },
            decreases m - k,
        {
            result.set(k, data[k]);
            k += 1;
        }
        assert(result@ =~= s.take(m as int) + Seq::new((output_len(h) - m) as nat, |i: int| 0u8));

        let new_ro_offset: u32 = header.text_file_offset + header.text_decompressed_size;
        let new_data_offset: u32 = new_ro_offset + header.rodata_decompressed_size;

        write_le(&mut result, 16, header.text_file_offset as u64, 4);
        write_le(&mut result, 32, new_ro_offset as u64, 4);
        write_le(&mut result, 48, new_data_offset as u64, 4);
        write_le(&mut result, 12, 0, 4);
        assert(result@ == initial_image(s, h));

        Self::decompress_segment(
            data,
            &mut result,
            header.text_file_offset as usize,
            header.text_file_offset as usize,
            header.text_decompressed_size as usize,
            header.text_compressed_size as usize,
            text_compressed,
        )?;
        Self::decompress_segment(
            data,
            &mut result,
            header.rodata_file_offset as usize,
            new_ro_offset as usize,
            header.rodata_decompressed_size as usize,
            header.rodata_compressed_size as usize,
            rodata_compressed,
        )?;
        Self::decompress_segment(
            data,
            &mut result,
            header.data_file_offset as usize,
            new_data_offset as usize,
            header.data_decompressed_size as usize,
            header.data_compressed_size as usize,
            data_compressed,
        )?;
        Ok(result)
    }

    /// Translates a virtual address to a file offset through the first segment
    /// whose memory range (both ends included) holds it.
    pub fn map_vatr(&self, addr: u64) -> (r: Result<u64, Error>)
        requires
            self.wf(),
        ensures
            r == spec_map_va(self.segs(), addr),
    {
        let mut i: usize = 0;
        assert(self.segments@.skip(0) =~= self.segments@);
        while i < self.segments.len()
            invariant
                self.wf(),
                i <= self.segments@.len(),
                find_va(self.segments@, addr) == find_va(self.segments@.skip(i as int), addr),
            decreases self.segments@.len() - i,
        {
            let seg = self.segments[i];
            assert(segment_wf(self.segments@[i as int]));
            if addr >= seg.memory_offset && addr <= seg.memory_offset + seg.decompressed_size {
                return Ok(addr - seg.memory_offset + seg.file_offset);
            }
            assert(self.segments@.skip(i as int).drop_first() =~= self.segments@.skip(i + 1));
            i += 1;
        }
        assert(self.segments@.skip(i as int) =~= Seq::<NsoSegment>::empty());
        Err(Error::AddressNotMapped(addr))
    }

    /// Translates a file offset to a virtual address through the first segment
    /// whose file range (both ends included) holds it; 0 when none does.
    pub fn map_rtva(&self, offset: u64) -> (r: u64)
        requires
            self.wf(),
        ensures
            r == match find_rva(self.segs(), offset) {
                Some(a) => a,
                None => 0,
            },
    {
        let mut i: usize = 0;
        assert(self.segments@.skip(0) =~= self.segments@);
        while i < self.segments.len()
            invariant
                self.wf(),
                i <= self.segments@.len(),
                find_rva(self.segments@, offset) == find_rva(self.segments@.skip(i as int), offset),
            decreases self.segments@.len() - i,
        {
            let seg = self.segments[i];
            assert(segment_wf(self.segments@[i as int]));
            if offset >= seg.file_offset && offset <= seg.file_offset + seg.decompressed_size {
                return offset - seg.file_offset + seg.memory_offset;
            }
            assert(self.segments@.skip(i as int).drop_first() =~= self.segments@.skip(i + 1));
            i += 1;
        }
        assert(self.segments@.skip(i as int) =~= Seq::<NsoSegment>::empty());
        0
    }

    /// The search section covering a segment.
    fn search_section(seg: &NsoSegment) -> (s: SearchSection)
        requires
            segment_wf(*seg),
        ensures
            s == section_of(*seg),
    {
        SearchSection::new(
            seg.file_offset,
            seg.file_offset + seg.decompressed_size,
            seg.memory_offset,
            seg.memory_offset + seg.decompressed_size,
        )
    }

    /// Groups the image's sections for searching: text is executable; rodata and
    /// data are data; bss is bss, or the data sections when there is no bss.
    pub fn get_section_helper(
        &self,
        method_count: usize,
        type_definitions_count: usize,
        metadata_usages_count: usize,
        image_count: usize,
    ) -> (r: SectionHelper<'_>)
        requires
            self.wf(),
        ensures
            r.image@ == self.image(),
            r.is_32bit == self.is_32bit_image(),
            r.pointer_in_exec,
            r.method_count == method_count,
            r.type_definitions_count == type_definitions_count,
            r.metadata_usages_count == metadata_usages_count,
            r.image_count == image_count,
            r.exec_list@ == if self.segs().len() >= 3 {
                seq![section_of(self.segs()[0])]
            } else {
                Seq::empty()
            },
            r.data_list@ == if self.segs().len() >= 3 {
                seq![section_of(self.segs()[1]), section_of(self.segs()[2])]
            } else {
                Seq::empty()
            },
            r.all@ == r.exec_list@ + r.data_list@ + match self.bss() {
                Some(b) => seq![section_of(b)],
                None => Seq::empty(),
            },
            r.bss_list@ == match self.bss() {
                Some(b) => seq![section_of(b)],
                None => r.data_list@,
            },
    {
        let mut exec_list: Vec<SearchSection> = Vec::new();
        let mut data_list: Vec<SearchSection> = Vec::new();
        let mut bss_list: Vec<SearchSection> = Vec::new();
        let mut all: Vec<SearchSection> = Vec::new();

        if self.segments.len() >= 3 {
            assert(segment_wf(self.segments@[0]));
            assert(segment_wf(self.segments@[1]));
            assert(segment_wf(self.segments@[2]));
            let s = Self::search_section(&self.segments[0]);
            all.push(s);
            exec_list.push(s);

            let s = Self::search_section(&self.segments[1]);
            all.push(s);
            data_list.push(s);

            let s = Self::search_section(&self.segments[2]);
            all.push(s);
            data_list.push(s);
        }

        if let Some(bss) = &self.bss_segment {
            let s = Self::search_section(bss);
            all.push(s);
            bss_list.push(s);
        }

        let bss = if bss_list.len() == 0 {
            data_list.clone()
        } else {
            bss_list
        };

        SectionHelper {
            image: self.stream.data(),
            is_32bit: self.is_32bit,
            pointer_in_exec: true,
            all,
            data_list,
            exec_list,
            bss_list: bss,
            method_count,
            type_definitions_count,
            metadata_usages_count,
            image_count,
        }
    }

    /// NSO images are never memory dumps.
    pub fn check_dump(&self) -> (r: bool)
        ensures
            !r,
    {
        false
    }

    /// Pointers in an NSO image are already relative to its base.
    pub fn get_rva(&self, pointer: u64) -> (r: u64)
        ensures
            r == pointer,
    {
        pointer
    }
}

} // verus!
