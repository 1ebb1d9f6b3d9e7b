//! What each reading stage takes from the file, stated against the raw bytes.

use vstd::prelude::*;

use crate::bytes::{le_value, lemma_le_value_bound, lemma_pow256_facts};
use crate::elf::{first_with_tag, ElfDyn, ElfSym, DT_GNU_HASH, DT_HASH, DT_SYMTAB};
use crate::error::{Error, FormatError};
use crate::format::{chain_end, gnu_hash_count, le32, max_bucket, read32};
use crate::format::{scan_dynamic, scan_relas, scan_symbols, spec_parse_header};
use crate::format::{spec_map_va, spec_symbol_count, spec_symbols, NsoSegment};
use crate::stream::in_bounds;

verus! {

/// The `u32` model of a window is the integer it holds.
pub proof fn lemma_le32_value(s: Seq<u8>, at: int)
    ensures
        le32(s, at) as nat == le_value(s, at, 4),
{
    lemma_le_value_bound(s, at, 4);
    lemma_pow256_facts();
}

/// The `u64` model of a window is the integer it holds.
pub proof fn lemma_le64_value(s: Seq<u8>, at: int)
    ensures
        (le_value(s, at, 8) as u64) as nat == le_value(s, at, 8),
{
    lemma_le_value_bound(s, at, 8);
    lemma_pow256_facts();
}

/// A file is accepted when it holds the 0x100-byte header and starts with the
/// magic; each header field is the little-endian word at its offset.
pub proof fn law_header_fields(s: Seq<u8>)
    ensures
        s.len() < 0x100 ==> spec_parse_header(s) == Err::<crate::format::NsoHeader, Error>(
            Error::InvalidFormat(FormatError::HeaderTooSmall),
        ),
        s.len() >= 0x100 && le_value(s, 0, 4) != 0x304F534E ==> spec_parse_header(s) == Err::<
            crate::format::NsoHeader,
            Error,
        >(Error::InvalidFormat(FormatError::InvalidMagic)),
        s.len() >= 0x100 && le_value(s, 0, 4) == 0x304F534E ==> spec_parse_header(s) is Ok,
        spec_parse_header(s) matches Ok(h) ==> {
            &&& h.flags == le_value(s, 12, 4)
            &&& h.text_file_offset == le_value(s, 16, 4)
            &&& h.text_memory_offset == le_value(s, 20, 4)
            &&& h.text_decompressed_size == le_value(s, 24, 4)
            &&& h.rodata_file_offset == le_value(s, 32, 4)
            &&& h.rodata_memory_offset == le_value(s, 36, 4)
            &&& h.rodata_decompressed_size == le_value(s, 40, 4)
            &&& h.data_file_offset == le_value(s, 48, 4)
            &&& h.data_memory_offset == le_value(s, 52, 4)
            &&& h.data_decompressed_size == le_value(s, 56, 4)
            &&& h.bss_size == le_value(s, 60, 4)
            &&& h.text_compressed_size == le_value(s, 0x60, 4)
            &&& h.rodata_compressed_size == le_value(s, 0x64, 4)
            &&& h.data_compressed_size == le_value(s, 0x68, 4)
        },
{
    lemma_le32_value(s, 0);
    lemma_le32_value(s, 12);
    lemma_le32_value(s, 16);
    lemma_le32_value(s, 20);
    lemma_le32_value(s, 24);
    lemma_le32_value(s, 32);
    lemma_le32_value(s, 36);
    lemma_le32_value(s, 40);
    lemma_le32_value(s, 48);
    lemma_le32_value(s, 52);
    lemma_le32_value(s, 56);
    lemma_le32_value(s, 60);
    lemma_le32_value(s, 0x60);
    lemma_le32_value(s, 0x64);
    lemma_le32_value(s, 0x68);
}

/// The tag of the 16-byte dynamic entry stored at `at`.
pub open spec fn raw_tag(s: Seq<u8>, at: int) -> i64 {
    (le_value(s, at, 8) as u64) as i64
}

proof fn lemma_scan_dynamic(s: Seq<u8>, at: int, rem: nat, acc: Seq<ElfDyn>)
    ensures
        scan_dynamic(s, at, rem, acc) matches Ok(r) ==> {
            &&& acc.len() <= r.len() <= acc.len() + rem
            &&& r.take(acc.len() as int) == acc
            &&& forall|k: int|
                0 <= k < r.len() - acc.len() ==> {
                    &&& in_bounds(s, at + 16 * k, 16)
                    &&& #[trigger] r[acc.len() + k].d_tag == raw_tag(s, at + 16 * k)
                    &&& r[acc.len() + k].d_un as nat == le_value(s, at + 16 * k + 8, 8)
                    &&& r[acc.len() + k].d_tag != 0
                }
            &&& r.len() < acc.len() + rem ==> in_bounds(s, at + 16 * (r.len() - acc.len()), 16)
                && raw_tag(s, at + 16 * (r.len() - acc.len())) == 0
        },
    decreases rem,
{
    if rem > 0 && in_bounds(s, at, 16) && raw_tag(s, at) != 0 {
        let e = ElfDyn { d_tag: raw_tag(s, at), d_un: le_value(s, at + 8, 8) as u64 };
        lemma_scan_dynamic(s, at + 16, (rem - 1) as nat, acc.push(e));
        lemma_le64_value(s, at + 8);
        if let Ok(r) = scan_dynamic(s, at, rem, acc) {
            assert(r.take(acc.len() + 1int) == acc.push(e));
            assert(r.take(acc.len() as int) =~= acc) by {
                assert(r.take(acc.len() as int) =~= r.take(acc.len() + 1int).take(acc.len() as int));
            }
            assert(r[acc.len() as int] == r.take(acc.len() + 1int)[acc.len() as int]);
            assert forall|k: int| 0 <= k < r.len() - acc.len() implies {
                &&& in_bounds(s, at + 16 * k, 16)
                &&& #[trigger] r[acc.len() + k].d_tag == raw_tag(s, at + 16 * k)
                &&& r[acc.len() + k].d_un as nat == le_value(s, at + 16 * k + 8, 8)
                &&& r[acc.len() + k].d_tag != 0
            } by {
                if k > 0 {
                    let k1 = k - 1;
                    assert(r[(acc.len() + 1) + k1].d_tag == raw_tag(s, (at + 16) + 16 * k1));
                    assert(acc.len() + 1 + k1 == acc.len() + k);
                    assert(at + 16 + 16 * k1 == at + 16 * k);
                }
            }
            if r.len() < acc.len() + rem {
                assert(at + 16 + 16 * (r.len() - (acc.len() + 1)) == at + 16 * (r.len() - acc.len()));
            }
        }
    }
}

/// The dynamic entries read are the 16-byte (tag, value) pairs stored from `at`
/// on, in order, up to but not including the first one tagged 0, and at most
/// `max` of them: fewer only because the next stored tag is 0.
pub proof fn law_dynamic_entries(s: Seq<u8>, at: int, max: nat)
    ensures
        scan_dynamic(s, at, max, Seq::empty()) matches Ok(dyns) ==> {
            &&& dyns.len() <= max
            &&& forall|k: int|
                0 <= k < dyns.len() ==> {
                    &&& #[trigger] dyns[k].d_tag == raw_tag(s, at + 16 * k)
                    &&& dyns[k].d_un as nat == le_value(s, at + 16 * k + 8, 8)
                    &&& dyns[k].d_tag != 0
                }
            &&& dyns.len() < max ==> raw_tag(s, at + 16 * dyns.len()) == 0
        },
{
    lemma_scan_dynamic(s, at, max, Seq::empty());
    if let Ok(dyns) = scan_dynamic(s, at, max, Seq::empty()) {
        assert forall|k: int| 0 <= k < dyns.len() implies {
            &&& #[trigger] dyns[k].d_tag == raw_tag(s, at + 16 * k)
            &&& dyns[k].d_un as nat == le_value(s, at + 16 * k + 8, 8)
            &&& dyns[k].d_tag != 0
        } by {
            assert(dyns[0 + k].d_tag == raw_tag(s, at + 16 * k));
        }
    }
}

proof fn lemma_scan_symbols(s: Seq<u8>, at: int, n: nat, acc: Seq<ElfSym>)
    ensures
        scan_symbols(s, at, n, acc) matches Ok(r) ==> {
            &&& r.len() == acc.len() + n
            &&& r.take(acc.len() as int) == acc
            &&& forall|k: int|
                0 <= k < n ==> {
                    &&& #[trigger] r[acc.len() + k].st_name as nat == le_value(s, at + 24 * k, 4)
                    &&& r[acc.len() + k].st_info as nat == le_value(s, at + 24 * k + 4, 1)
                    &&& r[acc.len() + k].st_other as nat == le_value(s, at + 24 * k + 5, 1)
                    &&& r[acc.len() + k].st_shndx as nat == le_value(s, at + 24 * k + 6, 2)
                    &&& r[acc.len() + k].st_value as nat == le_value(s, at + 24 * k + 8, 8)
                    &&& r[acc.len() + k].st_size as nat == le_value(s, at + 24 * k + 16, 8)
                }
        },
    decreases n,
{
    assert(acc.take(acc.len() as int) =~= acc);
    if n > 0 && in_bounds(s, at, 24) {
        let e = crate::format::sym_at(s, at);
        lemma_scan_symbols(s, at + 24, (n - 1) as nat, acc.push(e));
        lemma_le32_value(s, at);
        lemma_le64_value(s, at + 8);
        lemma_le64_value(s, at + 16);
        lemma_le_value_bound(s, at + 4, 1);
        lemma_le_value_bound(s, at + 5, 1);
        lemma_le_value_bound(s, at + 6, 2);
        lemma_pow256_facts();
        if let Ok(r) = scan_symbols(s, at, n, acc) {
            assert(r.take(acc.len() as int) =~= r.take(acc.len() + 1int).take(acc.len() as int));
            assert(r[acc.len() as int] == r.take(acc.len() + 1int)[acc.len() as int]);
            assert forall|k: int| 0 <= k < n implies {
                &&& #[trigger] r[acc.len() + k].st_name as nat == le_value(s, at + 24 * k, 4)
                &&& r[acc.len() + k].st_info as nat == le_value(s, at + 24 * k + 4, 1)
                &&& r[acc.len() + k].st_other as nat == le_value(s, at + 24 * k + 5, 1)
                &&& r[acc.len() + k].st_shndx as nat == le_value(s, at + 24 * k + 6, 2)
                &&& r[acc.len() + k].st_value as nat == le_value(s, at + 24 * k + 8, 8)
                &&& r[acc.len() + k].st_size as nat == le_value(s, at + 24 * k + 16, 8)
            } by {
                if k == 0 {
                    assert(r.take(acc.len() + 1int) == acc.push(e));
                    assert(r[acc.len() + k] == acc.push(e)[acc.len() as int]);
                } else {
                    let k1 = k - 1;
                    assert(r[(acc.len() + 1) + k1].st_name as nat == le_value(s, (at + 24) + 24 * k1, 4));
                    assert(acc.len() + 1 + k1 == acc.len() + k);
                    assert(at + 24 + 24 * k1 == at + 24 * k);
                }
            }
        }
    }
}

/// The symbols read are the `n` 24-byte records stored from `at` on, in order,
/// each field the little-endian integer at its place in the record.
pub proof fn law_symbol_records(s: Seq<u8>, at: int, n: nat)
    ensures
        scan_symbols(s, at, n, Seq::empty()) matches Ok(v) ==> {
            &&& v.len() == n
            &&& forall|k: int|
                0 <= k < n ==> {
                    &&& #[trigger] v[k].st_name as nat == le_value(s, at + 24 * k, 4)
                    &&& v[k].st_info as nat == le_value(s, at + 24 * k + 4, 1)
                    &&& v[k].st_other as nat == le_value(s, at + 24 * k + 5, 1)
                    &&& v[k].st_shndx as nat == le_value(s, at + 24 * k + 6, 2)
                    &&& v[k].st_value as nat == le_value(s, at + 24 * k + 8, 8)
                    &&& v[k].st_size as nat == le_value(s, at + 24 * k + 16, 8)
                }
        },
        scan_symbols(s, at, n, Seq::empty()) is Err ==> !in_bounds(s, at, 24 * n),
{
    lemma_scan_symbols(s, at, n, Seq::empty());
    lemma_scan_symbols_err(s, at, n, Seq::empty());
    if let Ok(v) = scan_symbols(s, at, n, Seq::empty()) {
        assert forall|k: int| 0 <= k < n implies {
            &&& #[trigger] v[k].st_name as nat == le_value(s, at + 24 * k, 4)
            &&& v[k].st_info as nat == le_value(s, at + 24 * k + 4, 1)
            &&& v[k].st_other as nat == le_value(s, at + 24 * k + 5, 1)
            &&& v[k].st_shndx as nat == le_value(s, at + 24 * k + 6, 2)
            &&& v[k].st_value as nat == le_value(s, at + 24 * k + 8, 8)
            &&& v[k].st_size as nat == le_value(s, at + 24 * k + 16, 8)
        } by {
            assert(v[0 + k].st_name as nat == le_value(s, at + 24 * k, 4));
        }
    }
}

proof fn lemma_scan_symbols_err(s: Seq<u8>, at: int, n: nat, acc: Seq<ElfSym>)
    ensures
        scan_symbols(s, at, n, acc) is Err ==> !in_bounds(s, at, 24 * n),
    decreases n,
{
    if n > 0 && in_bounds(s, at, 24) {
        lemma_scan_symbols_err(s, at + 24, (n - 1) as nat, acc.push(crate::format::sym_at(s, at)));
    }
}

/// The raw relocation (offset, info, addend) stored at `at`.
pub open spec fn raw_rela(s: Seq<u8>, at: int) -> (u64, u64, i64) {
    (
        le_value(s, at, 8) as u64,
        le_value(s, at + 8, 8) as u64,
        (le_value(s, at + 16, 8) as u64) as i64,
    )
}

proof fn lemma_scan_relas(s: Seq<u8>, at: int, n: nat, acc: Seq<(u64, u64, i64)>)
    ensures
        scan_relas(s, at, n, acc) matches Ok(r) ==> {
            &&& r.len() == acc.len() + n
            &&& r.take(acc.len() as int) == acc
            &&& forall|k: int| 0 <= k < n ==> #[trigger] r[acc.len() + k] == raw_rela(s, at + 24 * k)
        },
    decreases n,
{
    if n > 0 && in_bounds(s, at, 24) {
        lemma_scan_relas(s, at + 24, (n - 1) as nat, acc.push(crate::format::rela_at(s, at)));
        if let Ok(r) = scan_relas(s, at, n, acc) {
            assert(r.take(acc.len() as int) =~= r.take(acc.len() + 1int).take(acc.len() as int));
            assert(r[acc.len() as int] == r.take(acc.len() + 1int)[acc.len() as int]);
            assert forall|k: int| 0 <= k < n implies #[trigger] r[acc.len() + k] == raw_rela(
                s,
                at + 24 * k,
            ) by {
                if k > 0 {
                    let k1 = k - 1;
                    assert(r[(acc.len() + 1) + k1] == raw_rela(s, (at + 24) + 24 * k1));
                    assert(acc.len() + 1 + k1 == acc.len() + k);
                    assert(at + 24 + 24 * k1 == at + 24 * k);
                }
            }
        }
    }
}

/// The relocations read are the `n` 24-byte (offset, info, addend) records
/// stored from `at` on, in order.
pub proof fn law_relocation_records(s: Seq<u8>, at: int, n: nat)
    ensures
        scan_relas(s, at, n, Seq::empty()) matches Ok(v) ==> v.len() == n && forall|k: int|
            0 <= k < n ==> #[trigger] v[k] == raw_rela(s, at + 24 * k),
{
    lemma_scan_relas(s, at, n, Seq::empty());
    if let Ok(v) = scan_relas(s, at, n, Seq::empty()) {
        assert forall|k: int| 0 <= k < n implies #[trigger] v[k] == raw_rela(s, at + 24 * k) by {
            assert(v[0 + k] == raw_rela(s, at + 24 * k));
        }
    }
}

proof fn lemma_max_bucket(s: Seq<u8>, at: int, n: nat, acc: u32)
    ensures
        max_bucket(s, at, n, acc) matches Ok(m) ==> {
            &&& m >= acc
            &&& forall|i: int| 0 <= i < n ==> #[trigger] le_value(s, at + 4 * i, 4) <= m
            &&& m == acc || exists|i: int| 0 <= i < n && #[trigger] le_value(s, at + 4 * i, 4) == m
        },
    decreases n,
{
    if n > 0 && in_bounds(s, at, 4) {
        let b = le32(s, at);
        let next = if b > acc {
            b
        } else {
            acc
        };
        lemma_le32_value(s, at);
        lemma_max_bucket(s, at + 4, (n - 1) as nat, next);
        if let Ok(m) = max_bucket(s, at, n, acc) {
            assert forall|i: int| 0 <= i < n implies #[trigger] le_value(s, at + 4 * i, 4) <= m by {
                if i > 0 {
                    assert(le_value(s, (at + 4) + 4 * (i - 1), 4) <= m);
                    assert((at + 4) + 4 * (i - 1) == at + 4 * i);
                }
            }
            if m != acc {
                if m == next {
                    assert(le_value(s, at + 4 * 0, 4) == m);
                } else {
                    let i = choose|i: int| 0 <= i < n - 1 && #[trigger] le_value(s, (at + 4) + 4 * i, 4) == m;
                    assert((at + 4) + 4 * i == at + 4 * (i + 1));
                    assert(le_value(s, at + 4 * (i + 1), 4) == m);
                }
            }
        }
    }
}

proof fn lemma_low_bit(x: u32)
    ensures
        (x & 1 != 0) == (x % 2 == 1),
{
    assert((x & 1 != 0) == (x % 2 == 1)) by (bit_vector);
}

proof fn lemma_chain_end(s: Seq<u8>, at: int, last: u32)
    ensures
        chain_end(s, at, last) matches Some(Ok(l)) ==> {
            &&& l > last
            &&& le_value(s, at + 4 * (l - 1 - last), 4) % 2 == 1
            &&& forall|k: int| 0 <= k < l - 1 - last ==> #[trigger] le_value(s, at + 4 * k, 4) % 2 == 0
        },
    decreases s.len() - at,
{
    if in_bounds(s, at, 4) && last != u32::MAX {
        lemma_le32_value(s, at);
        lemma_low_bit(le32(s, at));
        if le32(s, at) & 1 == 0 {
            lemma_chain_end(s, at + 4, (last + 1) as u32);
            if let Some(Ok(l)) = chain_end(s, at, last) {
                assert((at + 4) + 4 * (l - 1 - (last + 1)) == at + 4 * (l - 1 - last));
                assert forall|k: int| 0 <= k < l - 1 - last implies #[trigger] le_value(s, at + 4 * k, 4) % 2
                    == 0 by {
                    if k > 0 {
                        assert(le_value(s, (at + 4) + 4 * (k - 1), 4) % 2 == 0);
                        assert((at + 4) + 4 * (k - 1) == at + 4 * k);
                    }
                }
            }
        }
    }
}

/// `m` is the largest of the `nb` bucket words from `buckets` on, or 0 when it
/// exceeds them all.
pub open spec fn top_bucket(s: Seq<u8>, buckets: int, nb: nat, m: int) -> bool {
    &&& m == 0 || exists|i: int| 0 <= i < nb && #[trigger] le_value(s, buckets + 4 * i, 4) == m
    &&& forall|i: int| 0 <= i < nb ==> #[trigger] le_value(s, buckets + 4 * i, 4) <= m
}

/// The number of symbols a GNU hash table at `a` covers: the table's header
/// words give the bucket count, the first hashed symbol and the bloom size; the
/// buckets follow the bloom words and the chain words follow the buckets, one per
/// symbol from the first hashed one. The count lies past every bucket's symbol,
/// and when the highest bucket reaches hashed symbols, it is one past the symbol
/// whose chain word first has its low bit set from that bucket on.
pub proof fn law_gnu_hash_count(s: Seq<u8>, a: int)
    ensures
        gnu_hash_count(s, a) matches Some(Ok(c)) ==> {
            let nb = le_value(s, a, 4);
            let first = le_value(s, a + 4, 4);
            let buckets = a + 16 + 8 * le_value(s, a + 8, 4);
            let chains = buckets + 4 * nb;
            &&& c >= first
            &&& forall|i: int| 0 <= i < nb ==> #[trigger] le_value(s, buckets + 4 * i, 4) < c
            &&& c > first ==> exists|m: int|
                {
                    &&& #[trigger] top_bucket(s, buckets, nb, m)
                    &&& first <= m < c
                    &&& le_value(s, chains + 4 * (c - 1 - first), 4) % 2 == 1
                    &&& forall|k: int|
                        m <= k < c - 1 ==> #[trigger] le_value(s, chains + 4 * (k - first), 4) % 2 == 0
                }
        },
{
    lemma_le32_value(s, a);
    lemma_le32_value(s, a + 4);
    lemma_le32_value(s, a + 8);
    if let Some(Ok(c)) = gnu_hash_count(s, a) {
        let nb = le_value(s, a, 4);
        let first = le_value(s, a + 4, 4);
        let buckets = a + 16 + 8 * le_value(s, a + 8, 4);
        let chains = buckets + 4 * nb;
        lemma_max_bucket(s, buckets, nb, 0);
        let last = max_bucket(s, buckets, nb, 0)->Ok_0;
        if last >= first {
            let start = chains + (last - first) * 4;
            lemma_chain_end(s, start, last);
            assert(start + 4 * (c - 1 - last) == chains + 4 * (c - 1 - first));
            assert forall|k: int| last <= k < c - 1 implies #[trigger] le_value(s, chains + 4 * (k - first), 4)
                % 2 == 0 by {
                assert(start + 4 * (k - last) == chains + 4 * (k - first));
                assert(le_value(s, start + 4 * (k - last), 4) % 2 == 0);
            }
            assert(first <= last < c);
            assert(top_bucket(s, buckets, nb, last as int));
        }
    }
}

/// Which table gives the symbol count: the SysV hash table when there is one
/// (its chain count, the word after the bucket count), else the GNU hash table,
/// else none (0).
pub proof fn law_symbol_count_source(s: Seq<u8>, segs: Seq<NsoSegment>, dyns: Seq<ElfDyn>)
    ensures
        spec_symbol_count(s, segs, dyns) matches Some(Ok(c)) ==> {
            &&& first_with_tag(dyns, DT_HASH) matches Some(e) ==> spec_map_va(segs, e.d_un) matches Ok(
                a,
            ) && c == le_value(s, a + 4, 4)
            &&& first_with_tag(dyns, DT_HASH) is None ==> match first_with_tag(dyns, DT_GNU_HASH) {
                Some(e) => spec_map_va(segs, e.d_un) matches Ok(a) && gnu_hash_count(s, a as int)
                    == Some(Ok::<u64, Error>(c)),
                None => c == 0,
            }
        },
{
    if let Some(e) = first_with_tag(dyns, DT_HASH) {
        if let Ok(a) = spec_map_va(segs, e.d_un) {
            lemma_le32_value(s, a + 4);
        }
    }
}

/// The symbol table read is `count` records at the symbol table entry's
/// translated address, or empty without such an entry.
pub proof fn law_symbols_source(s: Seq<u8>, segs: Seq<NsoSegment>, dyns: Seq<ElfDyn>)
    ensures
        spec_symbols(s, segs, dyns) matches Some(Ok(v)) ==> spec_symbol_count(s, segs, dyns) matches Some(
            Ok(count),
        ) && match first_with_tag(dyns, DT_SYMTAB) {
            None => v.len() == 0,
            Some(e) => spec_map_va(segs, e.d_un) matches Ok(o) && scan_symbols(
                s,
                o as int,
                count as nat,
                Seq::empty(),
            ) == Ok::<Seq<ElfSym>, Error>(v),
        },
{
}

} // verus!
