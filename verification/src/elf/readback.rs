//! Reading back what packing writes: the section headers and payloads of a packed
//! object are found where its file header says, and hold the sections laid out.
use vstd::prelude::*;

use super::section::{
    lemma_section_header_roundtrip, section_header_bytes, section_readable, spec_section_at,
    SectionView, SHT_NOBITS,
};

use super::{
    aligns_ok, elf_header_bytes, header_from, headers_bytes, layout, lemma_align_padding,
    lemma_layout_len, packed_bytes, pad4, parsed_section, parsed_sections, section_i_readable,
    sections_readable, sections_readable_upto, sh_pos, shstrtab_readable, spec_e_shentsize,
    spec_e_shnum, spec_e_shoff, spec_e_shstrndx, spec_shstrtab, zeros, ElfHeader,
};
use super::{
    elf_parsable, first_strtab, first_symtab, is_first_strtab, is_first_symtab,
    lemma_first_strtab_unique, lemma_first_symtab_unique, named_symbols, pack_ready,
    packed_symtab, parsed_from, section_views, tables_readable, written_sections, Elf,
};
use super::symbol::{lemma_symbols_roundtrip, unnamed, SymbolView};
use super::symtab::symbol_views;
use super::section::SHT_SYMTAB;
use super::strtab::name_at;
use crate::le::{lemma_u16_le_roundtrip, lemma_u32_le_roundtrip, u16_le_bytes, u32_le_bytes};

verus! {

/// A packed section header is 40 bytes long.
proof fn lemma_header_bytes_len(s: SectionView)
    ensures
        section_header_bytes(s).len() == 40,
{
}

/// Packed section headers are 40 bytes long each.
proof fn lemma_headers_len(secs: Seq<SectionView>)
    ensures
        headers_bytes(secs).len() == 40 * secs.len(),
    decreases secs.len(),
{
    if secs.len() > 0 {
        lemma_headers_len(secs.drop_last());
        lemma_header_bytes_len(secs.last());
        assert(headers_bytes(secs) == headers_bytes(secs.drop_last()) + section_header_bytes(
            secs.last(),
        ));
    }
}

/// The header of section `i` is the `i`-th run of 40 bytes.
proof fn lemma_headers_at(secs: Seq<SectionView>, i: int)
    requires
        0 <= i < secs.len(),
    ensures
        headers_bytes(secs).subrange(40 * i, 40 * i + 40) == section_header_bytes(secs[i]),
    decreases secs.len(),
{
    let init = secs.drop_last();
    lemma_headers_len(init);
    let hb = headers_bytes(secs);
    if i == secs.len() - 1 {
        assert(hb.subrange(40 * i, 40 * i + 40) =~= section_header_bytes(secs[i]));
    } else {
        lemma_headers_at(init, i);
        assert(hb.subrange(40 * i, 40 * i + 40) =~= headers_bytes(init).subrange(40 * i, 40 * i + 40));
    }
}

/// Where the layout from `start` places section `i`: after the sections before it.
pub open spec fn layout_offset(secs: Seq<SectionView>, start: int, i: int) -> int {
    layout(secs.subrange(0, i), start).2
}

/// Section `i` keeps its fields but for its offset, which is where its payload lies in
/// the laid-out bytes, within what the layout reaches.
proof fn lemma_layout_at(secs: Seq<SectionView>, start: int, i: int)
    requires
        aligns_ok(secs),
        0 <= i < secs.len(),
    ensures
        layout(secs, start).0[i] == (SectionView {
            sh_offset: layout_offset(secs, start, i) as u32,
            ..secs[i]
        }),
        start <= layout_offset(secs, start, i),
        layout_offset(secs, start, i) + secs[i].data.len() <= layout(secs, start).2,
        layout(secs, start).1.subrange(
            layout_offset(secs, start, i) - start,
            layout_offset(secs, start, i) - start + secs[i].data.len(),
        ) == secs[i].data,
    decreases secs.len(),
{
    let init = secs.drop_last();
    assert(aligns_ok(init)) by {
        assert forall|k: int| 0 <= k < init.len() implies (#[trigger] init[k]).sh_addralign < 32 by {
            assert(init[k] == secs[k]);
        }
    }
    lemma_layout_len(secs, start);
    lemma_layout_len(init, start);
    let prev = layout(init, start);
    let l = layout(secs, start);
    if i == secs.len() - 1 {
        assert(secs.subrange(0, i) =~= init);
        let d = secs[i].data;
        assert(l.1.subrange(prev.2 - start, prev.2 - start + d.len()) =~= d);
    } else {
        lemma_layout_at(init, start, i);
        assert(init.subrange(0, i) =~= secs.subrange(0, i));
        let off = layout_offset(secs, start, i);
        let d = secs[i].data;
        assert(l.1.subrange(off - start, off - start + d.len()) =~= prev.1.subrange(
            off - start,
            off - start + d.len(),
        ));
    }
}

/// The two parts of a concatenation are its first and its last bytes.
proof fn lemma_concat_parts(x: Seq<u8>, y: Seq<u8>)
    ensures
        (x + y).subrange(0, x.len() as int) == x,
        (x + y).subrange(x.len() as int, (x.len() + y.len()) as int) == y,
{
    assert((x + y).subrange(0, x.len() as int) =~= x);
    assert((x + y).subrange(x.len() as int, (x.len() + y.len()) as int) =~= y);
}

/// A run of bytes inside a prefix is the same run of the whole.
proof fn lemma_subrange_of_prefix(s: Seq<u8>, k: int, i: int, j: int)
    requires
        0 <= i <= j <= k <= s.len(),
    ensures
        s.subrange(0, k).subrange(i, j) == s.subrange(i, j),
{
    assert(s.subrange(0, k).subrange(i, j) =~= s.subrange(i, j));
}

/// The fields of a written file header lie at their offsets.
#[verifier::spinoff_prover]
#[verifier::rlimit(40)]
proof fn lemma_file_header_pieces(h: ElfHeader, shoff: u32, shnum: u16)
    ensures
        elf_header_bytes(h, shoff, shnum).len() == 52,
        elf_header_bytes(h, shoff, shnum).subrange(0, 16) == h.ident@,
        elf_header_bytes(h, shoff, shnum).subrange(16, 18) == u16_le_bytes(h.e_type),
        elf_header_bytes(h, shoff, shnum).subrange(18, 20) == u16_le_bytes(h.e_machine),
        elf_header_bytes(h, shoff, shnum).subrange(20, 24) == u32_le_bytes(h.e_version),
        elf_header_bytes(h, shoff, shnum).subrange(24, 28) == u32_le_bytes(h.e_entry),
        elf_header_bytes(h, shoff, shnum).subrange(28, 32) == u32_le_bytes(h.e_phoff),
        elf_header_bytes(h, shoff, shnum).subrange(32, 36) == u32_le_bytes(shoff),
        elf_header_bytes(h, shoff, shnum).subrange(36, 40) == u32_le_bytes(h.e_flags),
        elf_header_bytes(h, shoff, shnum).subrange(40, 42) == u16_le_bytes(h.e_ehsize),
        elf_header_bytes(h, shoff, shnum).subrange(42, 44) == u16_le_bytes(h.e_phentsize),
        elf_header_bytes(h, shoff, shnum).subrange(44, 46) == u16_le_bytes(h.e_phnum),
        elf_header_bytes(h, shoff, shnum).subrange(46, 48) == u16_le_bytes(h.e_shentsize),
        elf_header_bytes(h, shoff, shnum).subrange(48, 50) == u16_le_bytes(shnum),
        elf_header_bytes(h, shoff, shnum).subrange(50, 52) == u16_le_bytes(h.e_shstrndx),
{
    let e = elf_header_bytes(h, shoff, shnum);
    assert(h.ident@.len() == 16);
    let a0 = h.ident@;
    let a1 = a0 + u16_le_bytes(h.e_type);
    let a2 = a1 + u16_le_bytes(h.e_machine);
    let a3 = a2 + u32_le_bytes(h.e_version);
    let a4 = a3 + u32_le_bytes(h.e_entry);
    let a5 = a4 + u32_le_bytes(h.e_phoff);
    let a6 = a5 + u32_le_bytes(shoff);
    let a7 = a6 + u32_le_bytes(h.e_flags);
    let a8 = a7 + u16_le_bytes(h.e_ehsize);
    let a9 = a8 + u16_le_bytes(h.e_phentsize);
    let a10 = a9 + u16_le_bytes(h.e_phnum);
    let a11 = a10 + u16_le_bytes(h.e_shentsize);
    let a12 = a11 + u16_le_bytes(shnum);
    assert(e == a12 + u16_le_bytes(h.e_shstrndx));
    lemma_concat_parts(a0, u16_le_bytes(h.e_type));
    lemma_concat_parts(a1, u16_le_bytes(h.e_machine));
    lemma_concat_parts(a2, u32_le_bytes(h.e_version));
    lemma_concat_parts(a3, u32_le_bytes(h.e_entry));
    lemma_concat_parts(a4, u32_le_bytes(h.e_phoff));
    lemma_concat_parts(a5, u32_le_bytes(shoff));
    lemma_concat_parts(a6, u32_le_bytes(h.e_flags));
    lemma_concat_parts(a7, u16_le_bytes(h.e_ehsize));
    lemma_concat_parts(a8, u16_le_bytes(h.e_phentsize));
    lemma_concat_parts(a9, u16_le_bytes(h.e_phnum));
    lemma_concat_parts(a10, u16_le_bytes(h.e_shentsize));
    lemma_concat_parts(a11, u16_le_bytes(shnum));
    lemma_concat_parts(a12, u16_le_bytes(h.e_shstrndx));
    // each prefix of the header is the header up to that field
    lemma_subrange_of_prefix(e, 50, 0, 48);
    lemma_subrange_of_prefix(e, 48, 0, 46);
    lemma_subrange_of_prefix(e, 46, 0, 44);
    lemma_subrange_of_prefix(e, 44, 0, 42);
    lemma_subrange_of_prefix(e, 42, 0, 40);
    lemma_subrange_of_prefix(e, 40, 0, 36);
    lemma_subrange_of_prefix(e, 36, 0, 32);
    lemma_subrange_of_prefix(e, 32, 0, 28);
    lemma_subrange_of_prefix(e, 28, 0, 24);
    lemma_subrange_of_prefix(e, 24, 0, 20);
    lemma_subrange_of_prefix(e, 20, 0, 18);
    lemma_subrange_of_prefix(e, 18, 0, 16);
    lemma_subrange_of_prefix(e, 50, 48, 50);
    lemma_subrange_of_prefix(e, 48, 46, 48);
    lemma_subrange_of_prefix(e, 46, 44, 46);
    lemma_subrange_of_prefix(e, 44, 42, 44);
    lemma_subrange_of_prefix(e, 42, 40, 42);
    lemma_subrange_of_prefix(e, 40, 36, 40);
    lemma_subrange_of_prefix(e, 36, 32, 36);
    lemma_subrange_of_prefix(e, 32, 28, 32);
    lemma_subrange_of_prefix(e, 28, 24, 28);
    lemma_subrange_of_prefix(e, 24, 20, 24);
    lemma_subrange_of_prefix(e, 20, 18, 20);
    lemma_subrange_of_prefix(e, 18, 16, 18);
}

/// A file header written with section-header offset `shoff` and count `shnum` reads
/// back as `h` with those two fields.
proof fn lemma_file_header_reads_back(h: ElfHeader, shoff: u32, shnum: u16, b: Seq<u8>)
    requires
        b.len() >= 52,
        b.subrange(0, 52) == elf_header_bytes(h, shoff, shnum),
    ensures
        header_from(ElfHeader { e_shoff: shoff, e_shnum: shnum, ..h }, b),
{
    lemma_file_header_pieces(h, shoff, shnum);
    lemma_subrange_of_prefix(b, 52, 0, 16);
    lemma_subrange_of_prefix(b, 52, 16, 18);
    lemma_subrange_of_prefix(b, 52, 18, 20);
    lemma_subrange_of_prefix(b, 52, 20, 24);
    lemma_subrange_of_prefix(b, 52, 24, 28);
    lemma_subrange_of_prefix(b, 52, 28, 32);
    lemma_subrange_of_prefix(b, 52, 32, 36);
    lemma_subrange_of_prefix(b, 52, 36, 40);
    lemma_subrange_of_prefix(b, 52, 40, 42);
    lemma_subrange_of_prefix(b, 52, 42, 44);
    lemma_subrange_of_prefix(b, 52, 44, 46);
    lemma_subrange_of_prefix(b, 52, 46, 48);
    lemma_subrange_of_prefix(b, 52, 48, 50);
    lemma_subrange_of_prefix(b, 52, 50, 52);
    lemma_u16_le_roundtrip(h.e_type, b, 16);
    lemma_u16_le_roundtrip(h.e_machine, b, 18);
    lemma_u32_le_roundtrip(h.e_version, b, 20);
    lemma_u32_le_roundtrip(h.e_entry, b, 24);
    lemma_u32_le_roundtrip(h.e_phoff, b, 28);
    lemma_u32_le_roundtrip(shoff, b, 32);
    lemma_u32_le_roundtrip(h.e_flags, b, 36);
    lemma_u16_le_roundtrip(h.e_ehsize, b, 40);
    lemma_u16_le_roundtrip(h.e_phentsize, b, 42);
    lemma_u16_le_roundtrip(h.e_phnum, b, 44);
    lemma_u16_le_roundtrip(h.e_shentsize, b, 46);
    lemma_u16_le_roundtrip(shnum, b, 48);
    lemma_u16_le_roundtrip(h.e_shstrndx, b, 50);
}

/// A run of bytes inside the second part of a concatenation is the same run of it.
proof fn lemma_subrange_of_suffix(x: Seq<u8>, y: Seq<u8>, i: int, j: int)
    requires
        0 <= i <= j <= y.len(),
    ensures
        (x + y).subrange(x.len() + i, x.len() + j) == y.subrange(i, j),
{
    assert((x + y).subrange(x.len() + i, x.len() + j) =~= y.subrange(i, j));
}

/// A run of bytes inside the first part of a concatenation is the same run of it.
proof fn lemma_subrange_of_first(x: Seq<u8>, y: Seq<u8>, i: int, j: int)
    requires
        0 <= i <= j <= x.len(),
    ensures
        (x + y).subrange(i, j) == x.subrange(i, j),
{
    assert((x + y).subrange(i, j) =~= x.subrange(i, j));
}

/// A section as reading its header back gives it: no name, and no payload when it
/// occupies no file space.
pub open spec fn read_back(s: SectionView) -> SectionView {
    SectionView {
        data: if s.sh_type != SHT_NOBITS {
            s.data
        } else {
            Seq::empty()
        },
        name: Seq::empty(),
        ..s
    }
}

/// Whether every section that occupies file space records its payload's size.
pub open spec fn sizes_recorded(secs: Seq<SectionView>) -> bool {
    forall|i: int|
        0 <= i < secs.len() ==> (#[trigger] secs[i]).sh_type != SHT_NOBITS ==> secs[i].sh_size
            == secs[i].data.len()
}

/// The offset of the section headers in a packed object.
pub open spec fn packed_shoff(secs: Seq<SectionView>) -> int {
    layout(secs, 64).2 + pad4(layout(secs, 64).2)
}

/// Whether an object with sections `secs` packs into a file whose every offset, up to
/// the end of its section headers, fits in 32 bits, with a count that fits in 16.
pub open spec fn packs_within_limits(secs: Seq<SectionView>) -> bool {
    &&& secs.len() <= u16::MAX
    &&& packed_shoff(secs) + 40 * secs.len() <= u32::MAX
}

/// The layout of the packed file: header and padding, payloads, section headers.
proof fn lemma_packed_shape(h: ElfHeader, secs: Seq<SectionView>)
    requires
        aligns_ok(secs),
        packs_within_limits(secs),
    ensures
        ({
            let l = layout(secs, 64);
            let d = l.1 + zeros(pad4(l.2));
            let x = elf_header_bytes(h, packed_shoff(secs) as u32, secs.len() as u16) + zeros(12) + d;
            &&& d.len() + 64 == packed_shoff(secs)
            &&& x.len() == packed_shoff(secs)
            &&& packed_bytes(h, secs) == x + headers_bytes(l.0)
            &&& headers_bytes(l.0).len() == 40 * secs.len()
            &&& l.0.len() == secs.len()
            &&& l.2 == 64 + l.1.len()
        }),
{
    let l = layout(secs, 64);
    reveal(packed_bytes);
    lemma_layout_len(secs, 64);
    lemma_headers_len(l.0);
    lemma_file_header_pieces(h, packed_shoff(secs) as u32, secs.len() as u16);
    assert(pad4(l.2) >= 0);
}

/// Section `i`'s header, read where the packed file's header says, gives the section
/// as laid out, payload included.
#[verifier::spinoff_prover]
proof fn lemma_packed_section_reads_back(h: ElfHeader, secs: Seq<SectionView>, i: int)
    requires
        aligns_ok(secs),
        sizes_recorded(secs),
        packs_within_limits(secs),
        h.e_shentsize == 40,
        0 <= i < secs.len(),
    ensures
        sh_pos(packed_bytes(h, secs), i) == packed_shoff(secs) + 40 * i,
        section_readable(packed_bytes(h, secs), packed_shoff(secs) + 40 * i),
        spec_section_at(packed_bytes(h, secs), packed_shoff(secs) + 40 * i) == read_back(
            layout(secs, 64).0[i],
        ),
{
    let b = packed_bytes(h, secs);
    let l = layout(secs, 64);
    let d = l.1 + zeros(pad4(l.2));
    let shoff = packed_shoff(secs);
    let e = elf_header_bytes(h, shoff as u32, secs.len() as u16);
    let x = e + zeros(12) + d;
    let hb = headers_bytes(l.0);
    lemma_packed_shape(h, secs);
    assert(spec_e_shoff(b) == shoff && spec_e_shentsize(b) == 40) by {
        lemma_packed_header_reads_back(h, secs);
    }
    // the section header
    let pos = shoff + 40 * i;
    assert(b.subrange(pos, pos + 40) == section_header_bytes(l.0[i])) by {
        lemma_headers_at(l.0, i);
        lemma_subrange_of_suffix(x, hb, 40 * i, 40 * i + 40);
    }
    // the payload
    lemma_layout_at(secs, 64, i);
    let s = l.0[i];
    let off = layout_offset(secs, 64, i);
    assert(s.sh_offset == off);
    assert(s.data == secs[i].data);
    if s.sh_type != SHT_NOBITS {
        let n = s.data.len() as int;
        assert(b.subrange(off, off + n) == s.data) by {
            lemma_subrange_of_first(x, hb, off, off + n);
            lemma_subrange_of_suffix(e + zeros(12), d, off - 64, off - 64 + n);
            lemma_subrange_of_first(l.1, zeros(pad4(l.2)), off - 64, off - 64 + n);
        }
    }
    lemma_section_header_roundtrip(s, b, pos);
}

/// Whether section `k` is the section-name table of `secs`: it occupies file space,
/// and every section's name is the one stored at its `sh_name` in it.
pub open spec fn names_from_table(secs: Seq<SectionView>, k: int) -> bool {
    &&& 0 <= k < secs.len()
    &&& secs[k].sh_type != SHT_NOBITS
    &&& forall|i: int|
        0 <= i < secs.len() ==> #[trigger] secs[i].sh_name <= secs[k].data.len() && secs[i].name
            == name_at(secs[k].data, secs[i].sh_name as int)
}

/// Whether every section that occupies no file space has no payload.
pub open spec fn nobits_empty(secs: Seq<SectionView>) -> bool {
    forall|i: int|
        0 <= i < secs.len() ==> (#[trigger] secs[i]).sh_type == SHT_NOBITS ==> secs[i].data.len()
            == 0
}

/// The file header of a packed object reads back, with the offset and count of the
/// section headers filled in.
proof fn lemma_packed_header_reads_back(h: ElfHeader, secs: Seq<SectionView>)
    requires
        aligns_ok(secs),
        packs_within_limits(secs),
    ensures
        packed_bytes(h, secs).len() >= 52,
        header_from(
            ElfHeader {
                e_shoff: packed_shoff(secs) as u32,
                e_shnum: secs.len() as u16,
                ..h
            },
            packed_bytes(h, secs),
        ),
{
    let b = packed_bytes(h, secs);
    let l = layout(secs, 64);
    let shoff = packed_shoff(secs);
    let e = elf_header_bytes(h, shoff as u32, secs.len() as u16);
    let d = l.1 + zeros(pad4(l.2));
    let x = e + zeros(12) + d;
    lemma_packed_shape(h, secs);
    lemma_file_header_pieces(h, shoff as u32, secs.len() as u16);
    lemma_subrange_of_first(x, headers_bytes(l.0), 0, 52);
    lemma_subrange_of_first(e + zeros(12), d, 0, 52);
    lemma_subrange_of_first(e, zeros(12), 0, 52);
    assert(e.subrange(0, 52) =~= e);
    lemma_file_header_reads_back(h, shoff as u32, secs.len() as u16, b);
}

/// Whether section `k` holds every section's `sh_name`.
pub open spec fn sh_names_in_table(secs: Seq<SectionView>, k: int) -> bool {
    &&& 0 <= k < secs.len()
    &&& forall|i: int| 0 <= i < secs.len() ==> #[trigger] secs[i].sh_name <= secs[k].data.len()
}

/// `s` with the name stored at its `sh_name` in `table`.
pub open spec fn named_from(s: SectionView, table: Seq<u8>) -> SectionView {
    SectionView { name: name_at(table, s.sh_name as int), ..s }
}

/// Section `i` of a packed object is read back as laid out, with its name taken from
/// the section-name table.
#[verifier::rlimit(40)]
proof fn lemma_packed_section_named(h: ElfHeader, secs: Seq<SectionView>, i: int)
    requires
        aligns_ok(secs),
        sizes_recorded(secs),
        nobits_empty(secs),
        packs_within_limits(secs),
        h.e_shentsize == 40,
        sh_names_in_table(secs, h.e_shstrndx as int),
        0 <= i < secs.len(),
    ensures
        section_i_readable(packed_bytes(h, secs), i),
        parsed_section(packed_bytes(h, secs), i) == named_from(
            layout(secs, 64).0[i],
            secs[h.e_shstrndx as int].data,
        ),
{
    let b = packed_bytes(h, secs);
    let l0 = layout(secs, 64).0;
    let k = h.e_shstrndx as int;
    lemma_packed_header_reads_back(h, secs);
    assert(spec_e_shstrndx(b) == k);
    lemma_layout_at(secs, 64, k);
    lemma_packed_section_reads_back(h, secs, k);
    assert(spec_shstrtab(b).data =~= secs[k].data);
    lemma_layout_at(secs, 64, i);
    lemma_packed_section_reads_back(h, secs, i);
    assert(secs[i].sh_name <= secs[k].data.len());
    let r = spec_section_at(b, sh_pos(b, i));
    assert(r == read_back(l0[i]));
    assert(r.data =~= l0[i].data);
    assert(parsed_section(b, i) == named_from(l0[i], secs[k].data));
}

/// Reading a packed object gives every section as it was laid out, with its name taken
/// from the section-name table the header names.
pub proof fn lemma_packed_sections_named(h: ElfHeader, secs: Seq<SectionView>)
    requires
        aligns_ok(secs),
        sizes_recorded(secs),
        nobits_empty(secs),
        packs_within_limits(secs),
        h.e_shentsize == 40,
        sh_names_in_table(secs, h.e_shstrndx as int),
    ensures
        shstrtab_readable(packed_bytes(h, secs)),
        sections_readable(packed_bytes(h, secs)),
        parsed_sections(packed_bytes(h, secs)).len() == secs.len(),
        forall|i: int| 0 <= i < secs.len() ==> #[trigger] parsed_sections(packed_bytes(h, secs))[i]
            == named_from(layout(secs, 64).0[i], secs[h.e_shstrndx as int].data),
{
    let b = packed_bytes(h, secs);
    let k = h.e_shstrndx as int;
    lemma_packed_header_reads_back(h, secs);
    lemma_packed_shape(h, secs);
    assert(spec_e_shnum(b) == secs.len());
    lemma_packed_section_reads_back(h, secs, k);
    assert forall|i: int| 0 <= i < spec_e_shnum(b) implies #[trigger] section_i_readable(b, i) by {
        lemma_packed_section_named(h, secs, i);
    }
    assert(sections_readable_upto(b, spec_e_shnum(b) as int));
    assert forall|i: int| 0 <= i < secs.len() implies #[trigger] parsed_sections(b)[i] == named_from(
        layout(secs, 64).0[i],
        secs[k].data,
    ) by {
        lemma_packed_section_named(h, secs, i);
    }
}

/// Reading a packed object gives back its file header, with the offset and count of
/// the section headers filled in, and every section as it was laid out, names and
/// payloads included.
pub proof fn lemma_packed_sections_read_back(h: ElfHeader, secs: Seq<SectionView>)
    requires
        aligns_ok(secs),
        sizes_recorded(secs),
        nobits_empty(secs),
        packs_within_limits(secs),
        h.e_shentsize == 40,
        names_from_table(secs, h.e_shstrndx as int),
    ensures
        packed_bytes(h, secs).len() >= 52,
        header_from(
            ElfHeader {
                e_shoff: packed_shoff(secs) as u32,
                e_shnum: secs.len() as u16,
                ..h
            },
            packed_bytes(h, secs),
        ),
        shstrtab_readable(packed_bytes(h, secs)),
        sections_readable(packed_bytes(h, secs)),
        parsed_sections(packed_bytes(h, secs)) == layout(secs, 64).0,
{
    let b = packed_bytes(h, secs);
    let l0 = layout(secs, 64).0;
    let k = h.e_shstrndx as int;
    lemma_packed_header_reads_back(h, secs);
    lemma_packed_sections_named(h, secs);
    lemma_layout_len(secs, 64);
    assert forall|i: int| 0 <= i < secs.len() implies #[trigger] parsed_sections(b)[i] == l0[i] by {
        lemma_layout_at(secs, 64, i);
        assert(named_from(l0[i], secs[k].data) == l0[i]);
    }
    assert(parsed_sections(b) =~= l0);
}

/// Laying sections out changes no section's type or payload.
proof fn lemma_layout_keeps(secs: Seq<SectionView>, i: int)
    requires
        aligns_ok(secs),
        0 <= i < secs.len(),
    ensures
        layout(secs, 64).0.len() == secs.len(),
        layout(secs, 64).0[i].sh_type == secs[i].sh_type,
        layout(secs, 64).0[i].data == secs[i].data,
{
    lemma_layout_len(secs, 64);
    lemma_layout_at(secs, 64, i);
}

/// Laying sections out keeps the symbol and string tables readable, at the same indices.
proof fn lemma_layout_keeps_tables(secs: Seq<SectionView>, k: int)
    requires
        aligns_ok(secs),
        tables_readable(secs, k),
    ensures
        tables_readable(layout(secs, 64).0, k),
        first_symtab(layout(secs, 64).0) == first_symtab(secs),
        first_strtab(layout(secs, 64).0, k) == first_strtab(secs, k),
{
    let l0 = layout(secs, 64).0;
    lemma_layout_len(secs, 64);
    assert forall|j: int| 0 <= j < secs.len() implies #[trigger] l0[j].sh_type == secs[j].sh_type
        && l0[j].data == secs[j].data by {
        lemma_layout_keeps(secs, j);
    }
    let si = choose|i: int| is_first_symtab(secs, i);
    let ti = choose|i: int| is_first_strtab(secs, i, k);
    lemma_first_symtab_unique(secs, si);
    lemma_first_strtab_unique(secs, ti, k);
    assert(is_first_symtab(l0, si));
    assert(is_first_strtab(l0, ti, k));
    lemma_first_symtab_unique(l0, si);
    lemma_first_strtab_unique(l0, ti, k);
}

/// What `pack` returns reads back: the bytes hold a readable object whose file header is
/// the object's own with the section-header offset and count filled in, and whose
/// sections are those `pack` leaves in the object, names and payloads included. This
/// holds of an object whose header records 40-byte section headers and names the
/// section-name table its sections' names come from, whose sections without file space
/// have no payload, whose symbol and string tables are readable, and whose file fits
/// the 32-bit offsets and 16-bit count of the format.
pub proof fn lemma_pack_reads_back(e: Elf)
    requires
        pack_ready(e),
        e.header.e_shentsize == 40,
        packs_within_limits(written_sections(e)),
        nobits_empty(written_sections(e)),
        names_from_table(written_sections(e), e.header.e_shstrndx as int),
        tables_readable(written_sections(e), e.header.e_shstrndx as int),
    ensures
        elf_parsable(packed_bytes(e.header, written_sections(e))),
        header_from(
            ElfHeader {
                e_shoff: packed_shoff(written_sections(e)) as u32,
                e_shnum: written_sections(e).len() as u16,
                ..e.header
            },
            packed_bytes(e.header, written_sections(e)),
        ),
        parsed_sections(packed_bytes(e.header, written_sections(e))) == layout(
            written_sections(e),
            64,
        ).0,
{
    let w = written_sections(e);
    assert(sizes_recorded(w));
    lemma_packed_sections_read_back(e.header, w);
    lemma_layout_keeps_tables(w, e.header.e_shstrndx as int);
    lemma_packed_header_reads_back(e.header, w);
    assert(spec_e_shstrndx(packed_bytes(e.header, w)) == e.header.e_shstrndx);
}

/// Whether every symbol's name is the one stored at its `st_name` in `strdata`.
pub open spec fn symbols_named_from(syms: Seq<SymbolView>, strdata: Seq<u8>) -> bool {
    forall|k: int| 0 <= k < syms.len() ==> (#[trigger] syms[k]).name == name_at(strdata, syms[k].st_name as int)
}

/// Reading packed symbols back with their names from the string table they were named
/// from gives them back.
proof fn lemma_symbols_read_back(syms: Seq<SymbolView>, strdata: Seq<u8>)
    requires
        symbols_named_from(syms, strdata),
    ensures
        named_symbols(super::symbol::symbols_bytes(syms), strdata) == syms,
{
    lemma_symbols_roundtrip(syms);
    let r = named_symbols(super::symbol::symbols_bytes(syms), strdata);
    assert forall|k: int| 0 <= k < syms.len() implies #[trigger] r[k] == syms[k] by {
        assert(syms.map_values(|s: SymbolView| unnamed(s))[k] == unnamed(syms[k]));
    }
    assert(r =~= syms);
}

/// Whether `r` is the header `h` with section headers at `shoff`, `shnum` of them.
pub open spec fn header_with_layout(h: ElfHeader, shoff: u32, shnum: u16, r: ElfHeader) -> bool {
    &&& r.ident@ == h.ident@
    &&& r.e_type == h.e_type
    &&& r.e_machine == h.e_machine
    &&& r.e_version == h.e_version
    &&& r.e_entry == h.e_entry
    &&& r.e_phoff == h.e_phoff
    &&& r.e_shoff == shoff
    &&& r.e_flags == h.e_flags
    &&& r.e_ehsize == h.e_ehsize
    &&& r.e_phentsize == h.e_phentsize
    &&& r.e_phnum == h.e_phnum
    &&& r.e_shentsize == h.e_shentsize
    &&& r.e_shnum == shnum
    &&& r.e_shstrndx == h.e_shstrndx
}

/// What reading the bytes `pack` returns gives is the object `pack` leaves: its header
/// with the section-header offset and count filled in, the same sections, the same
/// section-name, string and symbol table indices, and the same symbols with their names. This holds of an object that meets the conditions of
/// [`lemma_pack_reads_back`], whose header names its section-name table, whose symbol
/// and string tables are the first ones among its sections, and whose symbols' names
/// are the ones stored in its string table.
pub proof fn lemma_pack_parses_back(e: Elf, e2: Elf)
    requires
        pack_ready(e),
        e.header.e_shentsize == 40,
        packs_within_limits(written_sections(e)),
        nobits_empty(written_sections(e)),
        names_from_table(written_sections(e), e.header.e_shstrndx as int),
        tables_readable(written_sections(e), e.header.e_shstrndx as int),
        e.shstrtab_idx == e.header.e_shstrndx,
        e.symtab_idx == first_symtab(written_sections(e)),
        e.strtab_idx == first_strtab(written_sections(e), e.header.e_shstrndx as int),
        symbols_named_from(symbol_views(e.symtab.symbols@), e.strtab.section@.data),
        parsed_from(e2, packed_bytes(e.header, written_sections(e))),
    ensures
        header_with_layout(
            e.header,
            packed_shoff(written_sections(e)) as u32,
            written_sections(e).len() as u16,
            e2.header,
        ),
        section_views(e2.sections@) == layout(written_sections(e), 64).0,
        e2.shstrtab_idx == e.shstrtab_idx,
        e2.strtab_idx == e.strtab_idx,
        e2.symtab_idx == e.symtab_idx,
        symbol_views(e2.symtab.symbols@) == symbol_views(e.symtab.symbols@),
{
    let w = written_sections(e);
    let k = e.header.e_shstrndx as int;
    let b = packed_bytes(e.header, w);
    lemma_pack_reads_back(e);
    lemma_layout_keeps_tables(w, k);
    lemma_packed_header_reads_back(e.header, w);
    assert(spec_e_shstrndx(b) == k);
    let si = e.symtab_idx as int;
    let ti = e.strtab_idx as int;
    lemma_first_symtab_unique(w, first_symtab(w));
    assert(is_first_symtab(w, si));
    assert(is_first_strtab(w, ti, k));
    assert(si != ti);
    lemma_layout_keeps(w, si);
    lemma_layout_keeps(w, ti);
    assert(w[si] == packed_symtab(e));
    assert(w[ti] == e.strtab.section@);
    lemma_symbols_read_back(symbol_views(e.symtab.symbols@), e.strtab.section@.data);
}

/// Sequences of sections with the same types have their first symbol table and first
/// string table (other than `k`) at the same indices.
proof fn lemma_same_types_same_tables(a: Seq<SectionView>, b: Seq<SectionView>, k: int)
    requires
        a.len() == b.len(),
        forall|i: int| 0 <= i < a.len() ==> #[trigger] a[i].sh_type == b[i].sh_type,
        exists|i: int| is_first_symtab(a, i),
        exists|i: int| is_first_strtab(a, i, k),
    ensures
        exists|i: int| is_first_symtab(b, i),
        exists|i: int| is_first_strtab(b, i, k),
        first_symtab(b) == first_symtab(a),
        first_strtab(b, k) == first_strtab(a, k),
{
    let si = choose|i: int| is_first_symtab(a, i);
    let ti = choose|i: int| is_first_strtab(a, i, k);
    lemma_first_symtab_unique(a, si);
    lemma_first_strtab_unique(a, ti, k);
    assert forall|j: int| 0 <= j < si implies #[trigger] b[j].sh_type != SHT_SYMTAB by {
        assert(a[j].sh_type == b[j].sh_type);
    }
    assert forall|j: int| 0 <= j < ti implies !(#[trigger] b[j].sh_type == super::section::SHT_STRTAB && j != k) by {
        assert(a[j].sh_type == b[j].sh_type);
    }
    assert(a[si].sh_type == b[si].sh_type);
    assert(a[ti].sh_type == b[ti].sh_type);
    assert(is_first_symtab(b, si));
    assert(is_first_strtab(b, ti, k));
    lemma_first_symtab_unique(b, si);
    lemma_first_strtab_unique(b, ti, k);
}

/// The sections `pack` writes for an object whose tables are its sections (the
/// section-name table without its name): its sections, with the section-name table
/// without its name and the symbol table holding the packed symbols.
proof fn lemma_written_of_views(e: Elf)
    requires
        e.shstrtab_idx < e.sections@.len(),
        e.strtab_idx < e.sections@.len(),
        e.symtab_idx < e.sections@.len(),
        e.shstrtab_idx != e.symtab_idx,
        e.shstrtab_idx != e.strtab_idx,
        e.strtab_idx != e.symtab_idx,
        e.shstrtab.section@ == (SectionView {
            name: Seq::empty(),
            ..section_views(e.sections@)[e.shstrtab_idx as int]
        }),
        e.strtab.section@ == section_views(e.sections@)[e.strtab_idx as int],
        e.symtab.section@ == section_views(e.sections@)[e.symtab_idx as int],
    ensures
        ({
            let v = section_views(e.sections@);
            let w = written_sections(e);
            let k = e.shstrtab_idx as int;
            &&& w.len() == v.len()
            &&& forall|i: int| 0 <= i < v.len() && i != k && i != e.symtab_idx ==> #[trigger] w[i] == v[i]
            &&& w[k] == (SectionView { name: Seq::empty(), ..v[k] })
            &&& w[e.symtab_idx as int] == packed_symtab(e)
            &&& forall|i: int| 0 <= i < v.len() ==> #[trigger] w[i].sh_type == v[i].sh_type
            &&& forall|i: int| 0 <= i < v.len() ==> #[trigger] w[i].sh_name == v[i].sh_name
        }),
{
}

/// Reading an object, packing it, and reading the bytes again gives back the object as
/// packing leaves it: its header with the section-header offset and count filled in,
/// its sections (the section-name table regaining its name, which packing does not
/// keep in the object), the indices of its three tables, its symbols with their names,
/// and its name index. This holds of an object read from `b` that `pack` accepts,
/// whose header records 40-byte section headers, whose section-name table is not its
/// symbol table, and whose packed file fits the 32-bit offsets and 16-bit count of the
/// format.
#[verifier::spinoff_prover]
#[verifier::rlimit(60)]
pub proof fn lemma_parse_pack_parse(b: Seq<u8>, e: Elf, e2: Elf)
    requires
        elf_parsable(b),
        parsed_from(e, b),
        pack_ready(e),
        e.header.e_shentsize == 40,
        e.shstrtab_idx != e.symtab_idx,
        packs_within_limits(written_sections(e)),
        parsed_from(e2, packed_bytes(e.header, written_sections(e))),
    ensures
        header_with_layout(
            e.header,
            packed_shoff(written_sections(e)) as u32,
            written_sections(e).len() as u16,
            e2.header,
        ),
        e2.sections@.len() == e.sections@.len(),
        forall|i: int| 0 <= i < e.sections@.len() && i != e.shstrtab_idx ==> #[trigger] section_views(
            e2.sections@,
        )[i] == layout(written_sections(e), 64).0[i],
        section_views(e2.sections@)[e.shstrtab_idx as int] == (SectionView {
            name: section_views(e.sections@)[e.shstrtab_idx as int].name,
            ..layout(written_sections(e), 64).0[e.shstrtab_idx as int]
        }),
        e2.shstrtab_idx == e.shstrtab_idx,
        e2.strtab_idx == e.strtab_idx,
        e2.symtab_idx == e.symtab_idx,
        symbol_views(e2.symtab.symbols@) == symbol_views(e.symtab.symbols@),
        super::symtab::log_views(e2.symtab.name_to_index@) == super::symtab::log_views(
            e.symtab.name_to_index@,
        ),
{
    let p = parsed_sections(b);
    let w = written_sections(e);
    let k = e.shstrtab_idx as int;
    let si = e.symtab_idx as int;
    let ti = e.strtab_idx as int;
    let h = e.header;
    let b2 = packed_bytes(h, w);
    let sv = symbol_views(e.symtab.symbols@);
    assert(h.e_shstrndx as int == k);
    assert(spec_e_shstrndx(b) as int == k);
    assert(is_first_symtab(p, si) && is_first_strtab(p, ti, k)) by {
        lemma_first_symtab_unique(p, choose|i: int| is_first_symtab(p, i));
        lemma_first_strtab_unique(p, choose|i: int| is_first_strtab(p, i, k), k);
    }
    assert(p[k] == parsed_section(b, k));
    assert(e.shstrtab.section@ == (SectionView { name: Seq::empty(), ..section_views(e.sections@)[k] }));
    lemma_written_of_views(e);
    assert(sections_readable_upto(b, spec_e_shnum(b) as int));
    // what reading `b` guarantees of the written sections
    assert(nobits_empty(w)) by {
        assert forall|i: int| 0 <= i < w.len() && (#[trigger] w[i]).sh_type == SHT_NOBITS implies w[i].data.len() == 0 by {
            if i != si {
                assert(p[i] == parsed_section(b, i));
            }
        }
    }
    assert(w[si].sh_type == SHT_SYMTAB);
    assert(sizes_recorded(w));
    assert(aligns_ok(w));
    assert(w[k].data == spec_shstrtab(b).data) by {
        assert(p[k] == parsed_section(b, k));
    }
    assert(sh_names_in_table(w, k)) by {
        assert forall|i: int| 0 <= i < w.len() implies #[trigger] w[i].sh_name <= w[k].data.len() by {
            assert(section_i_readable(b, i));
            assert(p[i] == parsed_section(b, i));
        }
    }
    // the packed symbol table
    lemma_symbols_roundtrip(sv);
    assert(sv == named_symbols(p[si].data, p[ti].data));
    assert(w[ti] == p[ti]);
    assert(symbols_named_from(sv, w[ti].data)) by {
        assert forall|j: int| 0 <= j < sv.len() implies (#[trigger] sv[j]).name == name_at(w[ti].data, sv[j].st_name as int) by {
            assert(sv[j] == named_symbols(p[si].data, p[ti].data)[j]);
        }
    }
    lemma_symbols_read_back(sv, w[ti].data);
    // reading the packed bytes
    lemma_packed_sections_named(h, w);
    lemma_packed_header_reads_back(h, w);
    lemma_layout_len(w, 64);
    let p2 = parsed_sections(b2);
    let l0 = layout(w, 64).0;
    assert forall|i: int| 0 <= i < w.len() implies #[trigger] p2[i].sh_type == w[i].sh_type && p2[i].data
        == w[i].data by {
        lemma_layout_keeps(w, i);
    }
    assert(spec_e_shstrndx(b2) as int == k);
    lemma_same_types_same_tables(p, w, k);
    lemma_same_types_same_tables(w, p2, k);
    assert(e2.symtab_idx == si && e2.strtab_idx == ti);
    assert(symbol_views(e2.symtab.symbols@) == named_symbols(w[si].data, w[ti].data));
    // the sections read back
    assert forall|i: int| 0 <= i < w.len() && i != k implies #[trigger] section_views(e2.sections@)[i]
        == l0[i] by {
        lemma_layout_at(w, 64, i);
        assert(section_views(e2.sections@)[i] == p2[i]);
        if i != si {
            assert(w[i] == p[i]);
            assert(p[i] == parsed_section(b, i));
        }
        assert(named_from(l0[i], w[k].data) == l0[i]);
    }
    assert(section_views(e2.sections@)[k] == (SectionView { name: section_views(e.sections@)[k].name, ..l0[k] })) by {
        lemma_layout_at(w, 64, k);
        assert(p[k] == parsed_section(b, k));
        assert(section_views(e.sections@)[k] == p[k]);
    }
    assert(header_from(e2.header, b2));
}

} // verus!
