//! The ELF records that an NSO image carries: dynamic entries and symbols.

use vstd::prelude::*;

verus! {

/// Dynamic tag of the SysV symbol hash table.
pub const DT_HASH: i64 = 4;
/// Dynamic tag of the symbol table.
pub const DT_SYMTAB: i64 = 6;
/// Dynamic tag of the relocation table with addends.
pub const DT_RELA: i64 = 7;
/// Dynamic tag of the byte size of the relocation table.
pub const DT_RELASZ: i64 = 8;
/// Dynamic tag of the GNU symbol hash table.
pub const DT_GNU_HASH: i64 = 0x6ffffef5;
/// AArch64 relocation: symbol value plus addend.
pub const R_AARCH64_ABS64: u32 = 257;
/// AArch64 relocation: image base (zero here) plus addend.
pub const R_AARCH64_RELATIVE: u32 = 1027;

/// An entry of the dynamic section.
#[derive(Debug, Clone, Copy, PartialEq, Eq, Structural)]
pub struct ElfDyn {
    pub d_tag: i64,
    pub d_un: u64,
}

/// An entry of the dynamic symbol table.
#[derive(Debug, Clone, Copy, PartialEq, Eq, Structural)]
pub struct ElfSym {
    pub st_name: u32,
    pub st_info: u8,
    pub st_other: u8,
    pub st_shndx: u16,
    pub st_value: u64,
    pub st_size: u64,
}

/// The first entry of `entries` whose tag is `tag`.
pub open spec fn first_with_tag(entries: Seq<ElfDyn>, tag: i64) -> Option<ElfDyn>
    decreases entries.len(),
{
    if entries.len() == 0 {
        None
    } else if entries[0].d_tag == tag {
        Some(entries[0])
    } else {
        first_with_tag(entries.drop_first(), tag)
    }
}

/// The first entry of `entries` whose tag is `tag`.
pub fn find_tag(entries: &[ElfDyn], tag: i64) -> (r: Option<ElfDyn>)
    ensures
        r == first_with_tag(entries@, tag),
{
    let mut i: usize = 0;
    assert(entries@.skip(0) =~= entries@);
    while i < entries.len()
        invariant
            i <= entries@.len(),
            first_with_tag(entries@, tag) == first_with_tag(entries@.skip(i as int), tag),
        decreases entries@.len() - i,
    {
        let e = entries[i];
        if e.d_tag == tag {
            return Some(e);
        }
        assert(entries@.skip(i as int).drop_first() =~= entries@.skip(i + 1));
        i += 1;
    }
    assert(entries@.skip(i as int) =~= Seq::<ElfDyn>::empty());
    None
}

} // verus!
