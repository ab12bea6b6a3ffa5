//! The ELF32 object model: sections, string and symbol tables, relocations.
use vstd::prelude::*;

pub mod section;
pub mod strtab;
pub mod symbol;
pub mod symtab;
pub mod readback;

pub use section::{
    Relocation, RelocationRecord, Section, SectionVariant, SectionView, TextSection, SHT_NOBITS,
    SHT_REL, SHT_RELA, SHT_STRTAB, SHT_SYMTAB,
};
pub use strtab::StrTab;
pub use symbol::{Symbol, SymbolView};
pub use symtab::SymTab;

use crate::le::{
    push_u16_le, push_u32_le, read_u16_le, read_u32_le, spec_u16_le, spec_u32_le, u16_le_bytes,
    u32_le_bytes, ByteReader,
};
use section::{
    relocation_views, section_header_bytes, section_readable, spec_section_at, spec_symbol_index,
    spec_unpack_relocations, RelocationView,
};
use strtab::{name_at, spec_add_name, strtab_after_add};
use symbol::{spec_bind, spec_type_id, spec_unpack_symbols};
use symbol::symbols_bytes;
use symtab::{symbol_views, symtab_after_add, without_function_prefix};
use crate::constants::{
    function_prefix, lemma_constants, symbol_at, symbol_dollar, DOLLAR_SIGN, SYMBOL_AT,
    SYMBOL_DOLLAR,
};
use crate::text::{
    chars_contain, chars_occur_at, concat, contains_str, replace_str, spec_replace, starts_with,
    str_eq, substring,
};

verus! {

// ELF symbol binding (st_info >> 4)
pub const STB_LOCAL: u8 = 0;

pub const STB_GLOBAL: u8 = 1;

// ELF symbol type (st_info & 0xf)
pub const STT_NOTYPE: u8 = 0;

pub const STT_FUNC: u8 = 2;

pub const STT_SECTION: u8 = 3;

/// The ELF32 file header.
#[derive(Debug, Clone, Copy, PartialEq)]
pub struct ElfHeader {
    pub ident: [u8; 16],
    pub e_type: u16,
    pub e_machine: u16,
    pub e_version: u32,
    pub e_entry: u32,
    pub e_phoff: u32,
    pub e_shoff: u32,
    pub e_flags: u32,
    pub e_ehsize: u16,
    pub e_phentsize: u16,
    pub e_phnum: u16,
    pub e_shentsize: u16,
    pub e_shnum: u16,
    pub e_shstrndx: u16,
}

/// A relocatable ELF32 object: its header, its sections, and the section-name,
/// symbol-name and symbol tables kept apart for editing.
#[derive(Debug)]
pub struct Elf {
    pub header: ElfHeader,
    pub sections: Vec<Section>,
    pub shstrtab_idx: usize,
    pub strtab_idx: usize,
    pub symtab_idx: usize,
    pub shstrtab: StrTab,
    pub strtab: StrTab,
    pub symtab: SymTab,
}

/// The views of a vector of sections.
pub open spec fn section_views(v: Seq<Section>) -> Seq<SectionView> {
    v.map_values(|s: Section| s@)
}

/// Offset of the section header table (`e_shoff`).
pub open spec fn spec_e_shoff(b: Seq<u8>) -> u32 {
    spec_u32_le(b, 32)
}

/// Size of one section header (`e_shentsize`).
pub open spec fn spec_e_shentsize(b: Seq<u8>) -> u16 {
    spec_u16_le(b, 46)
}

/// Number of section headers (`e_shnum`).
pub open spec fn spec_e_shnum(b: Seq<u8>) -> u16 {
    spec_u16_le(b, 48)
}

/// Index of the section-name string table (`e_shstrndx`).
pub open spec fn spec_e_shstrndx(b: Seq<u8>) -> u16 {
    spec_u16_le(b, 50)
}

/// Where the header of section `i` lies.
pub open spec fn sh_pos(b: Seq<u8>, i: int) -> int {
    spec_e_shoff(b) + i * spec_e_shentsize(b)
}

/// The section-name string table.
pub open spec fn spec_shstrtab(b: Seq<u8>) -> SectionView {
    spec_section_at(b, sh_pos(b, spec_e_shstrndx(b) as int))
}

/// Section `i` as parsed, with its name looked up in the section-name table.
pub open spec fn parsed_section(b: Seq<u8>, i: int) -> SectionView {
    let s = spec_section_at(b, sh_pos(b, i));
    SectionView { name: name_at(spec_shstrtab(b).data, s.sh_name as int), ..s }
}

/// All sections as parsed.
pub open spec fn parsed_sections(b: Seq<u8>) -> Seq<SectionView> {
    Seq::new(spec_e_shnum(b) as nat, |i: int| parsed_section(b, i))
}

/// Whether `i` is the first symbol table section.
pub open spec fn is_first_symtab(secs: Seq<SectionView>, i: int) -> bool {
    &&& 0 <= i < secs.len()
    &&& secs[i].sh_type == SHT_SYMTAB
    &&& forall|j: int| 0 <= j < i ==> #[trigger] secs[j].sh_type != SHT_SYMTAB
}

/// Whether `i` is the first string table section other than the section-name table.
pub open spec fn is_first_strtab(secs: Seq<SectionView>, i: int, shstrndx: int) -> bool {
    &&& 0 <= i < secs.len()
    &&& secs[i].sh_type == SHT_STRTAB
    &&& i != shstrndx
    &&& forall|j: int| 0 <= j < i ==> !(#[trigger] secs[j].sh_type == SHT_STRTAB && j != shstrndx)
}

/// The index of the first symbol table section.
pub open spec fn first_symtab(secs: Seq<SectionView>) -> int {
    choose|i: int| is_first_symtab(secs, i)
}

/// The index of the first string table section other than the section-name table.
pub open spec fn first_strtab(secs: Seq<SectionView>, shstrndx: int) -> int {
    choose|i: int| is_first_strtab(secs, i, shstrndx)
}

/// The symbols of a symbol table payload with their names read from a string table.
pub open spec fn named_symbols(symdata: Seq<u8>, strdata: Seq<u8>) -> Seq<SymbolView> {
    spec_unpack_symbols(symdata).map_values(
        |s: SymbolView| SymbolView { name: name_at(strdata, s.st_name as int), ..s },
    )
}

/// Whether the section-name table's header lies at a 32-bit offset inside `b`,
/// with its payload.
pub open spec fn shstrtab_readable(b: Seq<u8>) -> bool {
    let shstrndx = spec_e_shstrndx(b) as int;
    &&& sh_pos(b, shstrndx) <= u32::MAX
    &&& section_readable(b, sh_pos(b, shstrndx))
}

/// Whether the header of section `i` lies at a 32-bit offset inside `b`, with its
/// payload, and names a place inside the section-name table.
pub open spec fn section_i_readable(b: Seq<u8>, i: int) -> bool {
    &&& sh_pos(b, i) <= u32::MAX
    &&& section_readable(b, sh_pos(b, i))
    &&& spec_section_at(b, sh_pos(b, i)).sh_name <= spec_shstrtab(b).data.len()
}

/// Whether the first `k` sections are readable.
pub open spec fn sections_readable_upto(b: Seq<u8>, k: int) -> bool {
    forall|i: int| 0 <= i < k ==> #[trigger] section_i_readable(b, i)
}

/// Whether every section is readable.
pub open spec fn sections_readable(b: Seq<u8>) -> bool {
    sections_readable_upto(b, spec_e_shnum(b) as int)
}

/// Whether the sections hold a symbol table made of whole records and a string
/// table besides the section-name table, and every symbol name lies inside it.
pub open spec fn tables_readable(secs: Seq<SectionView>, shstrndx: int) -> bool {
    &&& exists|i: int| is_first_symtab(secs, i)
    &&& exists|i: int| is_first_strtab(secs, i, shstrndx)
    &&& secs[first_symtab(secs)].data.len() % 16 == 0
    &&& forall|k: int|
        0 <= k < spec_unpack_symbols(secs[first_symtab(secs)].data).len() ==> (
        #[trigger] spec_unpack_symbols(secs[first_symtab(secs)].data)[k]).st_name
            <= secs[first_strtab(secs, shstrndx)].data.len()
}

/// Whether `b` holds an object that can be read: a full file header; section
/// headers, and the payloads they point to, inside `b` at offsets that fit in 32 bits;
/// section names inside the section-name table; a symbol table made of whole records;
/// a string table besides the section-name table; and every symbol name inside it.
pub open spec fn elf_parsable(b: Seq<u8>) -> bool {
    &&& b.len() >= 52
    &&& shstrtab_readable(b)
    &&& sections_readable(b)
    &&& tables_readable(parsed_sections(b), spec_e_shstrndx(b) as int)
}

/// Whether `e` is what reading `b` gives: its header, its sections with their names,
/// the indices of its three tables, its symbols with their names, and a name index
/// holding each named symbol's index, written in order.
pub open spec fn parsed_from(e: Elf, b: Seq<u8>) -> bool {
    let secs = parsed_sections(b);
    let shstrndx = spec_e_shstrndx(b) as int;
    &&& header_from(e.header, b)
    &&& section_views(e.sections@) == secs
    &&& e.shstrtab_idx == shstrndx
    &&& e.shstrtab.section@ == spec_shstrtab(b)
    &&& e.symtab_idx == first_symtab(secs)
    &&& e.strtab_idx == first_strtab(secs, shstrndx)
    &&& e.strtab.section@ == secs[e.strtab_idx as int]
    &&& e.symtab.section@ == secs[e.symtab_idx as int]
    &&& symbol_views(e.symtab.symbols@) == named_symbols(
        secs[e.symtab_idx as int].data,
        secs[e.strtab_idx as int].data,
    )
    &&& symtab::log_views(e.symtab.name_to_index@) == symtab::named_writes(
        symbol_views(e.symtab.symbols@),
        0,
        e.symtab.symbols@.len() as int,
    )
}

/// A first symbol table exists when any does.
proof fn lemma_first_symtab_exists(secs: Seq<SectionView>, k: int)
    requires
        0 <= k < secs.len(),
        secs[k].sh_type == SHT_SYMTAB,
    ensures
        exists|i: int| is_first_symtab(secs, i),
    decreases k,
{
    if exists|j: int| 0 <= j < k && secs[j].sh_type == SHT_SYMTAB {
        let j = choose|j: int| 0 <= j < k && secs[j].sh_type == SHT_SYMTAB;
        lemma_first_symtab_exists(secs, j);
    } else {
        assert(is_first_symtab(secs, k));
    }
}

/// The first symbol table is unique.
pub(crate) proof fn lemma_first_symtab_unique(secs: Seq<SectionView>, i: int)
    requires
        is_first_symtab(secs, i),
    ensures
        first_symtab(secs) == i,
{
    let c = first_symtab(secs);
    if c < i {
        assert(secs[c].sh_type != SHT_SYMTAB);
    }
    if c > i {
        assert(secs[i].sh_type != SHT_SYMTAB);
    }
}

/// The first string table is unique.
pub(crate) proof fn lemma_first_strtab_unique(secs: Seq<SectionView>, i: int, shstrndx: int)
    requires
        is_first_strtab(secs, i, shstrndx),
    ensures
        first_strtab(secs, shstrndx) == i,
{
    let c = first_strtab(secs, shstrndx);
    if c < i {
        assert(!(secs[c].sh_type == SHT_STRTAB && c != shstrndx));
    }
    if c > i {
        assert(!(secs[i].sh_type == SHT_STRTAB && i != shstrndx));
    }
}

/// Whether the header fields of `h` are the ones stored in `b`.
pub open spec fn header_from(h: ElfHeader, b: Seq<u8>) -> bool {
    &&& h.ident@ == b.subrange(0, 16)
    &&& h.e_type == spec_u16_le(b, 16)
    &&& h.e_machine == spec_u16_le(b, 18)
    &&& h.e_version == spec_u32_le(b, 20)
    &&& h.e_entry == spec_u32_le(b, 24)
    &&& h.e_phoff == spec_u32_le(b, 28)
    &&& h.e_shoff == spec_u32_le(b, 32)
    &&& h.e_flags == spec_u32_le(b, 36)
    &&& h.e_ehsize == spec_u16_le(b, 40)
    &&& h.e_phentsize == spec_u16_le(b, 42)
    &&& h.e_phnum == spec_u16_le(b, 44)
    &&& h.e_shentsize == spec_u16_le(b, 46)
    &&& h.e_shnum == spec_u16_le(b, 48)
    &&& h.e_shstrndx == spec_u16_le(b, 50)
}

/// Reads the 52-byte file header.
fn parse_header(data: &[u8]) -> (h: ElfHeader)
    requires
        data@.len() >= 52,
    ensures
        header_from(h, data@),
{
    let mut ident = [0u8; 16];
    let mut k: usize = 0;
    while k < 16
        invariant
            k <= 16,
            data@.len() >= 52,
            forall|j: int| 0 <= j < k ==> ident@[j] == data@[j],
            ident@.len() == 16,
        decreases 16 - k,
    {
        ident[k] = data[k];
        k += 1;
    }
    assert(ident@ =~= data@.subrange(0, 16));
    let mut rdr = ByteReader::new(data);
    rdr.set_position(16);
    let e_type = read_u16_le(&mut rdr);
    let e_machine = read_u16_le(&mut rdr);
    let e_version = read_u32_le(&mut rdr);
    let e_entry = read_u32_le(&mut rdr);
    let e_phoff = read_u32_le(&mut rdr);
    let e_shoff = read_u32_le(&mut rdr);
    let e_flags = read_u32_le(&mut rdr);
    let e_ehsize = read_u16_le(&mut rdr);
    let e_phentsize = read_u16_le(&mut rdr);
    let e_phnum = read_u16_le(&mut rdr);
    let e_shentsize = read_u16_le(&mut rdr);
    let e_shnum = read_u16_le(&mut rdr);
    let e_shstrndx = read_u16_le(&mut rdr);
    ElfHeader {
        ident,
        e_type,
        e_machine,
        e_version,
        e_entry,
        e_phoff,
        e_shoff,
        e_flags,
        e_ehsize,
        e_phentsize,
        e_phnum,
        e_shentsize,
        e_shnum,
        e_shstrndx,
    }
}

/// Whether a section header at `pos`, and the payload it points to, lie inside `data`.
fn readable_at(data: &[u8], pos: usize) -> (r: bool)
    ensures
        r == section_readable(data@, pos as int),
{
    let len = data.len();
    if pos > len || len - pos < 40 {
        return false;
    }
    let mut rdr = ByteReader::new(data);
    rdr.set_position(pos + 4);
    let sh_type = read_u32_le(&mut rdr);
    rdr.set_position(pos + 16);
    let sh_offset = read_u32_le(&mut rdr);
    let sh_size = read_u32_le(&mut rdr);
    sh_type == SHT_NOBITS || sh_offset as u64 + sh_size as u64 <= len as u64
}

/// Reads the section whose header is at `pos`.
fn section_at(data: &[u8], pos: usize) -> (s: Section)
    requires
        section_readable(data@, pos as int),
    ensures
        s@ == spec_section_at(data@, pos as int),
{
    let mut rdr = ByteReader::new(data);
    rdr.set_position(pos);
    Section::unpack(&mut rdr)
}

/// Where the header of section `i` lies, computed without overflow.
fn header_pos(e_shoff: u32, i: u16, e_shentsize: u16) -> (p: u64)
    ensures
        p == e_shoff + i * e_shentsize,
{
    assert(i as u64 * e_shentsize as u64 <= 0xFFFF * 0xFFFF) by (nonlinear_arith)
        requires
            i <= 0xFFFF,
            e_shentsize <= 0xFFFF,
    ;
    e_shoff as u64 + i as u64 * e_shentsize as u64
}

/// Reads every section, naming each from the section-name table; `None` when a
/// header or payload lies outside `data` or a name lies outside the table.
fn parse_sections(data: &[u8], h: &ElfHeader, shstrtab: &StrTab) -> (r: Option<Vec<Section>>)
    requires
        data@.len() >= 52,
        header_from(*h, data@),
        shstrtab.section@ == spec_shstrtab(data@),
    ensures
        r is Some <==> sections_readable(data@),
        r matches Some(v) ==> section_views(v@) == parsed_sections(data@),
{
    let ghost b = data@;
    let n = h.e_shnum;
    let shstr_len = shstrtab.section.data.len();
    let mut sections: Vec<Section> = Vec::with_capacity(n as usize);
    let mut i: u16 = 0;
    while i < n
        invariant
            b == data@,
            header_from(*h, b),
            n == spec_e_shnum(b),
            shstrtab.section@ == spec_shstrtab(b),
            shstr_len == shstrtab.section.data@.len(),
            i <= n,
            sections@.len() == i,
            section_views(sections@) == Seq::new(i as nat, |j: int| parsed_section(b, j)),
            sections_readable_upto(b, i as int),
        decreases n - i,
    {
        let pos = header_pos(h.e_shoff, i, h.e_shentsize);
        assert(pos == sh_pos(b, i as int));
        if pos > u32::MAX as u64 {
            assert(!sections_readable(b)) by {
                if sections_readable(b) {
                    assert(section_i_readable(b, i as int));
                }
            }
            return None;
        }
        if !readable_at(data, pos as usize) {
            assert(!sections_readable(b)) by {
                if sections_readable(b) {
                    assert(section_i_readable(b, i as int));
                }
            }
            return None;
        }
        let mut section = section_at(data, pos as usize);
        if section.sh_name as usize > shstr_len {
            assert(!sections_readable(b)) by {
                if sections_readable(b) {
                    assert(section_i_readable(b, i as int));
                }
            }
            return None;
        }
        assert(section_i_readable(b, i as int));
        section.name = shstrtab.get_string(section.sh_name as usize);
        assert(section@ == parsed_section(b, i as int));
        let ghost prev = sections@;
        sections.push(section);
        proof {
            assert forall|j: int| 0 <= j < i + 1 implies #[trigger] section_views(sections@)[j] == parsed_section(b, j) by {
                if j < i {
                    assert(sections@[j] == prev[j]);
                    assert(section_views(prev)[j] == parsed_section(b, j));
                }
            }
            assert(section_views(sections@) =~= Seq::new(
                (i + 1) as nat,
                |j: int| parsed_section(b, j),
            ));
        }
        let ghost old_i = i as int;
        i += 1;
        assert forall|j: int| 0 <= j < i implies #[trigger] section_i_readable(b, j) by {
            if j < old_i {
            } else {
                assert(j == old_i);
            }
        }
    }
    assert(section_views(sections@) =~= parsed_sections(b));
    assert(sections_readable(b));
    Some(sections)
}

/// The index of the first symbol table section, if any.
fn find_first_symtab(sections: &Vec<Section>) -> (r: Option<usize>)
    ensures
        r matches Some(i) ==> is_first_symtab(section_views(sections@), i as int),
        r is None ==> !exists|i: int| is_first_symtab(section_views(sections@), i),
{
    let ghost secs = section_views(sections@);
    let n = sections.len();
    let mut k: usize = 0;
    while k < n
        invariant
            n == sections@.len(),
            secs == section_views(sections@),
            k <= n,
            forall|j: int| 0 <= j < k ==> #[trigger] secs[j].sh_type != SHT_SYMTAB,
        decreases n - k,
    {
        assert(secs[k as int] == sections@[k as int]@);
        if sections[k].sh_type == SHT_SYMTAB {
            return Some(k);
        }
        k += 1;
    }
    assert forall|i: int| !is_first_symtab(secs, i) by {
        if is_first_symtab(secs, i) {
            assert(secs[i].sh_type != SHT_SYMTAB);
        }
    }
    None
}

/// The index of the first string table section other than `shstrndx`, if any.
fn find_first_strtab(sections: &Vec<Section>, shstrndx: usize) -> (r: Option<usize>)
    ensures
        r matches Some(i) ==> is_first_strtab(section_views(sections@), i as int, shstrndx as int),
        r is None ==> !exists|i: int| is_first_strtab(section_views(sections@), i, shstrndx as int),
{
    let ghost secs = section_views(sections@);
    let n = sections.len();
    let mut k: usize = 0;
    while k < n
        invariant
            n == sections@.len(),
            secs == section_views(sections@),
            k <= n,
            forall|j: int|
                0 <= j < k ==> !(#[trigger] secs[j].sh_type == SHT_STRTAB && j != shstrndx),
        decreases n - k,
    {
        assert(secs[k as int] == sections@[k as int]@);
        if sections[k].sh_type == SHT_STRTAB && k != shstrndx {
            return Some(k);
        }
        k += 1;
    }
    assert forall|i: int| !is_first_strtab(secs, i, shstrndx as int) by {
        if is_first_strtab(secs, i, shstrndx as int) {
            assert(!(secs[i].sh_type == SHT_STRTAB && i != shstrndx));
        }
    }
    None
}

/// Whether every symbol's name offset lies inside a string table of `str_len` bytes.
fn names_in_bounds(symtab: &SymTab, str_len: usize) -> (r: bool)
    ensures
        r == forall|j: int|
            0 <= j < symtab.symbols@.len() ==> #[trigger] symtab.symbols@[j].st_name <= str_len,
{
    let ns = symtab.symbols.len();
    let mut q: usize = 0;
    while q < ns
        invariant
            ns == symtab.symbols@.len(),
            q <= ns,
            forall|j: int| 0 <= j < q ==> #[trigger] symtab.symbols@[j].st_name <= str_len,
        decreases ns - q,
    {
        if symtab.symbols[q].st_name as usize > str_len {
            return false;
        }
        q += 1;
    }
    true
}

impl Elf {
    /// Reads an object file, or returns `None` when [`elf_parsable`] does not hold.
    pub fn try_from_bytes(data: &[u8]) -> (r: Option<Self>)
        ensures
            r is Some <==> elf_parsable(data@),
            r matches Some(e) ==> parsed_from(e, data@),
    {
        let ghost b = data@;
        if data.len() < 52 {
            return None;
        }
        let header = parse_header(data);

        // the section-name table
        let shstr_pos = header_pos(header.e_shoff, header.e_shstrndx, header.e_shentsize);
        if shstr_pos > u32::MAX as u64 || !readable_at(data, shstr_pos as usize) {
            return None;
        }
        let shstrtab = StrTab::new(section_at(data, shstr_pos as usize));

        let sections = match parse_sections(data, &header, &shstrtab) {
            Some(v) => v,
            None => {
                return None;
            },
        };
        let ghost secs = parsed_sections(b);
        let shstrndx = header.e_shstrndx as usize;

        let symtab_idx = match find_first_symtab(&sections) {
            Some(i) => i,
            None => {
                return None;
            },
        };
        proof {
            lemma_first_symtab_unique(secs, symtab_idx as int);
        }
        let strtab_idx = match find_first_strtab(&sections, shstrndx) {
            Some(i) => i,
            None => {
                return None;
            },
        };
        proof {
            lemma_first_strtab_unique(secs, strtab_idx as int, shstrndx as int);
        }
        assert(secs[symtab_idx as int] == sections@[symtab_idx as int]@);
        assert(secs[strtab_idx as int] == sections@[strtab_idx as int]@);

        let strtab = StrTab::new(sections[strtab_idx].clone());
        let symtab_section = sections[symtab_idx].clone();
        if symtab_section.data.len() % 16 != 0 {
            return None;
        }
        let mut symtab = SymTab::new(symtab_section);
        if !names_in_bounds(&symtab, strtab.section.data.len()) {
            assert(!elf_parsable(b)) by {
                if elf_parsable(b) {
                    assert forall|j: int| 0 <= j < symtab.symbols@.len() implies #[trigger] symtab.symbols@[j].st_name <= strtab.section.data@.len() by {
                        assert(symbol_views(symtab.symbols@)[j] == symtab.symbols@[j]@);
                    }
                }
            }
            return None;
        }
        assert(elf_parsable(b)) by {
            assert forall|k: int|
                0 <= k < spec_unpack_symbols(secs[first_symtab(secs)].data).len() implies (
                #[trigger] spec_unpack_symbols(secs[first_symtab(secs)].data)[k]).st_name
                    <= secs[first_strtab(secs, shstrndx as int)].data.len() by {
                assert(symbol_views(symtab.symbols@)[k] == symtab.symbols@[k]@);
            }
        }
        let ghost before = symtab.symbols@;
        symtab.populate_symbols(&strtab);
        assert(symbol_views(symtab.symbols@) =~= named_symbols(
            secs[symtab_idx as int].data,
            secs[strtab_idx as int].data,
        )) by {
            assert forall|j: int| 0 <= j < symtab.symbols@.len() implies symbol_views(
                symtab.symbols@,
            )[j] == named_symbols(secs[symtab_idx as int].data, secs[strtab_idx as int].data)[j] by {
                assert(symbol_views(before)[j] == before[j]@);
            }
        }
        Some(
            Self {
                header,
                sections,
                shstrtab_idx: shstrndx,
                symtab_idx,
                strtab_idx,
                shstrtab,
                strtab,
                symtab,
            },
        )
    }

    /// Reads an object file whose layout is sound (see [`elf_parsable`]).
    pub fn from_bytes(data: &[u8]) -> (e: Self)
        requires
            elf_parsable(data@),
        ensures
            parsed_from(e, data@),
    {
        Self::try_from_bytes(data).unwrap()
    }
}


/// The string table and the symbol table of an object, which symbol edits change together.
pub struct TablesView {
    pub strtab: SectionView,
    pub symtab: SectionView,
    pub symbols: Seq<SymbolView>,
}

/// The tables of `e`.
pub open spec fn tables(e: Elf) -> TablesView {
    TablesView {
        strtab: e.strtab.section@,
        symtab: e.symtab.section@,
        symbols: symbol_views(e.symtab.symbols@),
    }
}

/// Whether `i` is the first index in `names` holding `name`.
pub open spec fn is_first_name(names: Seq<Seq<char>>, name: Seq<char>, i: int) -> bool {
    &&& 0 <= i < names.len()
    &&& names[i] == name
    &&& forall|j: int| 0 <= j < i ==> #[trigger] names[j] != name
}

/// The names of the symbols.
pub open spec fn symbol_names(syms: Seq<SymbolView>) -> Seq<Seq<char>> {
    syms.map_values(|s: SymbolView| s.name)
}

/// The names of the sections.
pub open spec fn section_names(secs: Seq<SectionView>) -> Seq<Seq<char>> {
    secs.map_values(|s: SectionView| s.name)
}

/// The tables after adding `sym` (see [`Elf::add_symbol_get_index`]), and the index returned.
pub open spec fn spec_add_symbol(t: TablesView, sym: SymbolView, force: bool) -> (TablesView, int) {
    if !force && exists|i: int| is_first_name(symbol_names(t.symbols), sym.name, i) {
        (t, choose|i: int| is_first_name(symbol_names(t.symbols), sym.name, i))
    } else {
        let strtab = if sym.name.len() > 0 {
            strtab_after_add(t.strtab, sym.name)
        } else {
            t.strtab
        };
        let sym2 = if sym.name.len() > 0 {
            SymbolView { st_name: spec_add_name(t.strtab.data, sym.name).1 as u32, ..sym }
        } else {
            sym
        };
        let (sec, syms, idx) = symtab_after_add(t.symtab, t.symbols, sym2);
        (TablesView { strtab, symtab: sec, symbols: syms }, idx)
    }
}

/// The first index holding a name is unique.
pub proof fn lemma_first_name_unique(names: Seq<Seq<char>>, name: Seq<char>, i: int)
    requires
        is_first_name(names, name, i),
    ensures
        (choose|k: int| is_first_name(names, name, k)) == i,
{
    let c = choose|k: int| is_first_name(names, name, k);
    if c < i {
        assert(names[c] != name);
    }
    if c > i {
        assert(names[i] != name);
    }
}

/// Adding a symbol whose name is new, non-empty and free of NUL characters (see
/// [`Elf::add_symbol`]) adds one symbol, at the index returned, whose name reads back
/// from the string table at its `st_name`; a global symbol goes last. Adding it again
/// changes nothing and returns the same index.
pub proof fn lemma_add_symbol_reads_back(t: TablesView, sym: SymbolView)
    requires
        sym.name.len() > 0,
        !sym.name.contains('\0'),
        !symbol_names(t.symbols).contains(sym.name),
        t.strtab.data.len() <= u32::MAX,
    ensures
        ({
            let (t2, idx) = spec_add_symbol(t, sym, false);
            &&& t2.symbols.len() == t.symbols.len() + 1
            &&& 0 <= idx < t2.symbols.len()
            &&& t2.symbols[idx].name == sym.name
            &&& name_at(t2.strtab.data, t2.symbols[idx].st_name as int) == sym.name
            &&& spec_bind(sym.st_info) != 0 ==> idx == t.symbols.len()
            &&& spec_add_symbol(t2, sym, false) == (t2, idx)
        }),
{
    let names = symbol_names(t.symbols);
    assert forall|i: int| !is_first_name(names, sym.name, i) by {
        if is_first_name(names, sym.name, i) {
            assert(names.contains(sym.name));
        }
    }
    let (t2, idx) = spec_add_symbol(t, sym, false);
    strtab::lemma_add_name_reads_back(t.strtab.data, sym.name);
    let k = spec_add_name(t.strtab.data, sym.name).1;
    let sym2 = SymbolView { st_name: k as u32, ..sym };
    assert(k <= t.strtab.data.len());
    assert(t2.symbols[idx] == sym2);
    let names2 = symbol_names(t2.symbols);
    assert forall|j: int| 0 <= j < idx implies #[trigger] names2[j] != sym.name by {
        if spec_bind(sym.st_info) == 0 && t.symtab.sh_info <= t.symbols.len() {
            assert(t2.symbols[j] == t.symbols[j]);
        } else {
            assert(t2.symbols[j] == t.symbols[j]);
        }
        assert(names[j] == t.symbols[j].name);
    }
    assert(is_first_name(names2, sym.name, idx));
    lemma_first_name_unique(names2, sym.name, idx);
}

/// The index of the first symbol named `name`, if any.
fn first_symbol_named(syms: &Vec<Symbol>, name: &str) -> (r: Option<usize>)
    ensures
        r matches Some(i) ==> is_first_name(symbol_names(symbol_views(syms@)), name@, i as int),
        r is None ==> forall|i: int| !is_first_name(symbol_names(symbol_views(syms@)), name@, i),
{
    let ghost names = symbol_names(symbol_views(syms@));
    let n = syms.len();
    let mut k: usize = 0;
    while k < n
        invariant
            n == syms@.len(),
            names == symbol_names(symbol_views(syms@)),
            k <= n,
            forall|j: int| 0 <= j < k ==> #[trigger] names[j] != name@,
        decreases n - k,
    {
        assert(names[k as int] == syms@[k as int].name@);
        if str_eq(syms[k].name.as_str(), name) {
            return Some(k);
        }
        k += 1;
    }
    assert forall|i: int| !is_first_name(names, name@, i) by {
        if is_first_name(names, name@, i) {
            assert(names[i] != name@);
        }
    }
    None
}

/// The index of the first section named `name`, if any.
fn first_section_named(secs: &Vec<Section>, name: &str) -> (r: Option<usize>)
    ensures
        r matches Some(i) ==> is_first_name(section_names(section_views(secs@)), name@, i as int),
        r is None ==> forall|i: int| !is_first_name(section_names(section_views(secs@)), name@, i),
{
    let ghost names = section_names(section_views(secs@));
    let n = secs.len();
    let mut k: usize = 0;
    while k < n
        invariant
            n == secs@.len(),
            names == section_names(section_views(secs@)),
            k <= n,
            forall|j: int| 0 <= j < k ==> #[trigger] names[j] != name@,
        decreases n - k,
    {
        assert(names[k as int] == secs@[k as int].name@);
        if str_eq(secs[k].name.as_str(), name) {
            return Some(k);
        }
        k += 1;
    }
    assert forall|i: int| !is_first_name(names, name@, i) by {
        if is_first_name(names, name@, i) {
            assert(names[i] != name@);
        }
    }
    None
}

/// The indices `i < k` of the sections of type `SHT_REL`, in order.
pub open spec fn rel_indices(secs: Seq<SectionView>, k: int) -> Seq<int>
    decreases k,
{
    if k <= 0 {
        Seq::empty()
    } else if secs[k - 1].sh_type == SHT_REL {
        rel_indices(secs, k - 1).push(k - 1)
    } else {
        rel_indices(secs, k - 1)
    }
}

/// Whether a section name is `.rodata` or starts with `.rodata.`.
pub open spec fn is_rodata_name(n: Seq<char>) -> bool {
    n == seq!['.', 'r', 'o', 'd', 'a', 't', 'a'] || chars_occur_at(
        n,
        seq!['.', 'r', 'o', 'd', 'a', 't', 'a', '.'],
        0,
    )
}

/// The indices `i < k` of the read-only data sections, in order.
pub open spec fn rodata_indices(secs: Seq<SectionView>, k: int) -> Seq<int>
    decreases k,
{
    if k <= 0 {
        Seq::empty()
    } else if is_rodata_name(secs[k - 1].name) {
        rodata_indices(secs, k - 1).push(k - 1)
    } else {
        rodata_indices(secs, k - 1)
    }
}

/// Whether a section name starts with `.text`.
pub open spec fn is_text_name(n: Seq<char>) -> bool {
    chars_occur_at(n, seq!['.', 't', 'e', 'x', 't'], 0)
}

/// Whether a section name is `.text` or starts with `.text.`.
pub open spec fn is_function_text_name(n: Seq<char>) -> bool {
    n == seq!['.', 't', 'e', 'x', 't'] || chars_occur_at(n, seq!['.', 't', 'e', 'x', 't', '.'], 0)
}

/// The indices `i < k` of the sections whose names start with `.text`, in order.
pub open spec fn text_indices(secs: Seq<SectionView>, k: int) -> Seq<int>
    decreases k,
{
    if k <= 0 {
        Seq::empty()
    } else if is_text_name(secs[k - 1].name) {
        text_indices(secs, k - 1).push(k - 1)
    } else {
        text_indices(secs, k - 1)
    }
}

/// The indices `i < k` of the `.text` and `.text.*` sections, in order.
pub open spec fn function_text_indices(secs: Seq<SectionView>, k: int) -> Seq<int>
    decreases k,
{
    if k <= 0 {
        Seq::empty()
    } else if is_function_text_name(secs[k - 1].name) {
        function_text_indices(secs, k - 1).push(k - 1)
    } else {
        function_text_indices(secs, k - 1)
    }
}

/// Whether `f` is the first position at which the function names and the
/// `.text` sections pair `name` with a section.
pub open spec fn is_first_function_text(texts: Seq<int>, fnames: Seq<Seq<char>>, name: Seq<char>, f: int) -> bool {
    &&& 0 <= f < texts.len()
    &&& f < fnames.len()
    &&& fnames[f] == name
    &&& forall|g: int| 0 <= g < f ==> #[trigger] fnames[g] != name
}

/// The relocations of a `SHT_REL` payload, each named after the symbol it refers to.
pub open spec fn named_relocations(data: Seq<u8>, syms: Seq<SymbolView>) -> Seq<RelocationView> {
    spec_unpack_relocations(data).map_values(
        |r: RelocationView| RelocationView { symbol: syms[spec_symbol_index(r.r_info) as int].name, ..r },
    )
}

/// Whether a section name starts with `.text`.
fn text_name(name: &str) -> (b: bool)
    ensures
        b == is_text_name(name@),
{
    let text = ".text";
    proof {
        reveal_strlit(".text");
        assert(text@ =~= seq!['.', 't', 'e', 'x', 't']);
    }
    starts_with(name, text)
}

/// Whether a section name is `.text` or starts with `.text.`.
fn function_text_name(name: &str) -> (b: bool)
    ensures
        b == is_function_text_name(name@),
{
    let text = ".text";
    let text_dot = ".text.";
    proof {
        reveal_strlit(".text");
        reveal_strlit(".text.");
        assert(text@ =~= seq!['.', 't', 'e', 'x', 't']);
        assert(text_dot@ =~= seq!['.', 't', 'e', 'x', 't', '.']);
    }
    str_eq(name, text) || starts_with(name, text_dot)
}

/// Whether a section name is `.rodata` or starts with `.rodata.`.
fn rodata_name(name: &str) -> (b: bool)
    ensures
        b == is_rodata_name(name@),
{
    let rodata = ".rodata";
    let rodata_dot = ".rodata.";
    proof {
        reveal_strlit(".rodata");
        reveal_strlit(".rodata.");
        assert(rodata@ =~= seq!['.', 'r', 'o', 'd', 'a', 't', 'a']);
        assert(rodata_dot@ =~= seq!['.', 'r', 'o', 'd', 'a', 't', 'a', '.']);
    }
    str_eq(name, rodata) || starts_with(name, rodata_dot)
}

/// Names each relocation after the symbol it refers to.
fn name_relocations(rr: &mut RelocationRecord, symbols: &Vec<Symbol>)
    requires
        forall|k: int|
            0 <= k < old(rr).relocations@.len() ==> (#[trigger] old(rr).relocations@[k]).r_info / 256
                < symbols@.len(),
    ensures
        final(rr).section@ == old(rr).section@,
        final(rr).relocations@.len() == old(rr).relocations@.len(),
        forall|k: int|
            0 <= k < final(rr).relocations@.len() ==> #[trigger] final(rr).relocations@[k]@ == (
            RelocationView {
                symbol: symbols@[(old(rr).relocations@[k].r_info / 256) as int].name@,
                ..old(rr).relocations@[k]@
            }),
{
    let m = rr.relocations.len();
    let mut j: usize = 0;
    while j < m
        invariant
            m == rr.relocations@.len(),
            m == old(rr).relocations@.len(),
            j <= m,
            rr.section@ == old(rr).section@,
            forall|k: int|
                0 <= k < m ==> (#[trigger] old(rr).relocations@[k]).r_info / 256 < symbols@.len(),
            forall|k: int| j <= k < m ==> #[trigger] rr.relocations@[k] == old(rr).relocations@[k],
            forall|k: int|
                0 <= k < j ==> #[trigger] rr.relocations@[k]@ == (RelocationView {
                    symbol: symbols@[(old(rr).relocations@[k].r_info / 256) as int].name@,
                    ..old(rr).relocations@[k]@
                }),
        decreases m - j,
    {
        let sym_index = rr.relocations[j].symbol_index();
        let name = symbols[sym_index].name.clone();
        let mut rel = rr.relocations[j].clone();
        rel.symbol = name;
        rr.relocations.set(j, rel);
        j += 1;
    }
}

/// The function symbols of `syms`, sorted by section index (stably).
fn sorted_functions(syms: &Vec<Symbol>) -> (r: Vec<&Symbol>)
    ensures
        r@.len() == sort_by_shndx(func_symbols(symbol_views(syms@))).len(),
        forall|k: int| 0 <= k < r@.len() ==> (#[trigger] r@[k])@ == sort_by_shndx(func_symbols(symbol_views(syms@)))[k],
{
    let ghost views = symbol_views(syms@);
    let n = syms.len();
    let mut sorted: Vec<&Symbol> = Vec::new();
    let mut i: usize = 0;
    while i < n
        invariant
            n == syms@.len(),
            views == symbol_views(syms@),
            i <= n,
            sorted@.len() == sort_by_shndx(func_symbols(views.subrange(0, i as int))).len(),
            forall|k: int| 0 <= k < sorted@.len() ==> (#[trigger] sorted@[k])@ == sort_by_shndx(func_symbols(views.subrange(0, i as int)))[k],
        decreases n - i,
    {
        let ghost pre = views.subrange(0, i as int);
        let ghost next = views.subrange(0, i + 1);
        assert(next.drop_last() =~= pre);
        assert(next.last() == syms@[i as int]@);
        if syms[i].type_id() == STT_FUNC {
            let ghost old_sorted = sort_by_shndx(func_symbols(pre));
            let x = &syms[i];
            let mut p = sorted.len();
            while p > 0 && sorted[p - 1].st_shndx > x.st_shndx
                invariant
                    p <= sorted@.len(),
                    sorted@.len() == old_sorted.len(),
                    forall|k: int| 0 <= k < sorted@.len() ==> (#[trigger] sorted@[k])@ == old_sorted[k],
                    forall|q: int| p <= q < old_sorted.len() ==> #[trigger] old_sorted[q].st_shndx > x.st_shndx,
                decreases p,
            {
                assert(sorted@[p - 1]@ == old_sorted[p - 1]);
                p -= 1;
            }
            proof {
                if p > 0 {
                    assert(sorted@[p - 1]@ == old_sorted[p - 1]);
                }
                lemma_insert_by_shndx_at(old_sorted, x@, p as int);
                assert(func_symbols(next) == func_symbols(pre).push(x@));
                assert(sort_by_shndx(func_symbols(next)) == insert_by_shndx(old_sorted, x@)) by {
                    assert(func_symbols(next).drop_last() =~= func_symbols(pre));
                }
            }
            sorted.insert(p, x);
        } else {
            assert(func_symbols(next) == func_symbols(pre));
        }
        i += 1;
    }
    assert(views.subrange(0, n as int) =~= views);
    sorted
}

/// A copy of a vector of symbols.
pub(crate) fn clone_symbols(v: &Vec<Symbol>) -> (r: Vec<Symbol>)
    ensures
        r@ == v@,
{
    let n = v.len();
    let mut r: Vec<Symbol> = Vec::with_capacity(n);
    let mut i: usize = 0;
    while i < n
        invariant
            n == v@.len(),
            i <= n,
            r@ == v@.subrange(0, i as int),
        decreases n - i,
    {
        r.push(v[i].clone());
        i += 1;
        assert(r@ =~= v@.subrange(0, i as int));
    }
    assert(r@ =~= v@);
    r
}

/// Lays the sections out from offset 64, setting each `sh_offset`; returns the
/// padded payloads, the packed headers and the offset reached.
fn lay_out_sections(sections: &mut Vec<Section>) -> (r: (Vec<u8>, Vec<u8>, u32))
    requires
        aligns_ok(section_views(old(sections)@)),
        forall|k: int|
            0 <= k < old(sections)@.len() ==> (#[trigger] section_views(old(sections)@)[k]).sh_type != SHT_NOBITS
                ==> section_views(old(sections)@)[k].sh_size == section_views(old(sections)@)[k].data.len(),
        layout(section_views(old(sections)@), 64).2 + pad4(layout(section_views(old(sections)@), 64).2)
            <= u32::MAX,
    ensures
        section_views(final(sections)@) == layout(section_views(old(sections)@), 64).0,
        r.0@ == layout(section_views(old(sections)@), 64).1,
        r.1@ == headers_bytes(layout(section_views(old(sections)@), 64).0),
        r.2 == layout(section_views(old(sections)@), 64).2,
{
    let ghost w = section_views(sections@);
        let n = sections.len();
        let mut sh_offset: u32 = 64;
        let mut section_headers: Vec<u8> = Vec::new();
        let mut section_data: Vec<u8> = Vec::new();
        let mut i: usize = 0;
        proof {
            assert(aligns_ok(w));
            lemma_layout_len(w, 64);
            assert(w.take(0) =~= Seq::<SectionView>::empty());
        }
        while i < n
            invariant
                n == sections@.len(),
                n == w.len(),
                i <= n,
                aligns_ok(w),
                forall|k: int|
                    0 <= k < w.len() ==> (#[trigger] w[k]).sh_type != SHT_NOBITS ==> w[k].sh_size
                        == w[k].data.len(),
                layout(w, 64).2 + pad4(layout(w, 64).2) <= u32::MAX,
                forall|k: int| i <= k < n ==> #[trigger] sections@[k]@ == w[k],
                section_views(sections@).take(i as int) == layout(w.take(i as int), 64).0,
                section_data@ == layout(w.take(i as int), 64).1,
                sh_offset == layout(w.take(i as int), 64).2,
                section_headers@ == headers_bytes(layout(w.take(i as int), 64).0),
            decreases n - i,
        {
            proof {
                lemma_layout_step(w, i as int);
                lemma_layout_prefix(w, 64, i + 1);
                assert(sections@[i as int]@ == w[i as int]);
            }
            let ghost pre = layout(w.take(i as int), 64);
            let ghost old_sections = sections@;
            sections[i].sh_offset = sh_offset;
            let mut data = sections[i].pack_data();
            #[verifier::truncate]
            let len = data.len() as u32;
            assert(len == w[i as int].data.len());
            let header = sections[i].pack_header();
            sh_offset = sh_offset + len;
            section_headers.extend_from_slice(header.as_slice());
            section_data.append(&mut data);
            let alignment: u32 = 1u32 << sections[i].sh_addralign;
            if sh_offset % alignment != 0 {
                let bytes_needed = alignment - (sh_offset % alignment);
                push_zeros(&mut section_data, bytes_needed);
                sh_offset = sh_offset + bytes_needed;
            } else {
                assert(section_data@ =~= section_data@ + zeros(0));
            }
            proof {
                let next = w.take(i + 1);
                assert(layout(next, 64).0.drop_last() =~= pre.0);
                assert(section_headers@ =~= headers_bytes(layout(next, 64).0));
                assert forall|k: int| 0 <= k < i + 1 implies #[trigger] section_views(sections@).take(i + 1)[k] == layout(next, 64).0[k] by {
                    if k < i {
                        assert(sections@[k] == old_sections[k]);
                        assert(section_views(old_sections).take(i as int)[k] == pre.0[k]);
                    }
                }
                assert(section_views(sections@).take(i + 1) =~= layout(next, 64).0);
                assert forall|k: int| i + 1 <= k < n implies #[trigger] sections@[k]@ == w[k] by {
                    assert(sections@[k] == old_sections[k]);
                }
            }
            i += 1;
        }
        proof {
            assert(w.take(n as int) =~= w);
            lemma_layout_len(w, 64);
        }
    proof {
        assert(w.take(n as int) =~= w);
        assert(section_views(sections@).take(n as int) =~= section_views(sections@));
    }
    (section_data, section_headers, sh_offset)
}

/// The 52-byte file header with the given section header offset and count.
fn file_header_bytes(h: &ElfHeader, shoff: u32, shnum: u16) -> (out: Vec<u8>)
    ensures
        out@ == elf_header_bytes(*h, shoff, shnum),
{
    let mut out: Vec<u8> = Vec::with_capacity(64);
    let mut k: usize = 0;
    while k < 16
        invariant
            k <= 16,
            out@ == h.ident@.subrange(0, k as int),
            h.ident@.len() == 16,
        decreases 16 - k,
    {
        out.push(h.ident[k]);
        k += 1;
        assert(out@ =~= h.ident@.subrange(0, k as int));
    }
    assert(h.ident@.subrange(0, 16) =~= h.ident@);
    push_u16_le(&mut out, h.e_type);
    push_u16_le(&mut out, h.e_machine);
    push_u32_le(&mut out, h.e_version);
    push_u32_le(&mut out, h.e_entry);
    push_u32_le(&mut out, h.e_phoff);
    push_u32_le(&mut out, shoff);
    push_u32_le(&mut out, h.e_flags);
    push_u16_le(&mut out, h.e_ehsize);
    push_u16_le(&mut out, h.e_phentsize);
    push_u16_le(&mut out, h.e_phnum);
    push_u16_le(&mut out, h.e_shentsize);
    push_u16_le(&mut out, shnum);
    push_u16_le(&mut out, h.e_shstrndx);
    assert(out@ =~= elf_header_bytes(*h, shoff, shnum));
    out
}

impl Elf {
    /// The symbol table.
    pub fn symtab(&self) -> (r: &SymTab)
        ensures
            *r == self.symtab,
    {
        &self.symtab
    }

    /// Replaces the symbol table with a copy of `symtab`.
    pub fn set_symtab(&mut self, symtab: &SymTab)
        ensures
            final(self).symtab.section@ == symtab.section@,
            final(self).symtab.symbols@ == symtab.symbols@,
            final(self).header == old(self).header,
            final(self).sections@ == old(self).sections@,
            final(self).shstrtab_idx == old(self).shstrtab_idx,
            final(self).strtab_idx == old(self).strtab_idx,
            final(self).symtab_idx == old(self).symtab_idx,
            final(self).shstrtab == old(self).shstrtab,
            final(self).strtab == old(self).strtab,
    {
        self.symtab = symtab.clone();
    }

    /// The symbols.
    pub fn get_symbols(&self) -> (r: &Vec<Symbol>)
        ensures
            *r == self.symtab.symbols,
    {
        &self.symtab.symbols
    }

    /// The first symbol named `name`, and its index. Such a symbol must exist.
    pub fn get_symbol_by_name(&self, name: String) -> (r: (usize, Symbol))
        requires
            exists|i: int| 0 <= i < self.symtab.symbols@.len() && self.symtab.symbols@[i].name@ == name@,
        ensures
            is_first_name(symbol_names(symbol_views(self.symtab.symbols@)), name@, r.0 as int),
            r.1 == self.symtab.symbols@[r.0 as int],
    {
        match first_symbol_named(&self.symtab.symbols, name.as_str()) {
            Some(i) => (i, self.symtab.symbols[i].clone()),
            None => {
                proof {
                    let names = symbol_names(symbol_views(self.symtab.symbols@));
                    let k = choose|i: int| 0 <= i < self.symtab.symbols@.len() && self.symtab.symbols@[i].name@ == name@;
                    assert(names[k] == name@);
                    lemma_first_name_exists(names, name@, k);
                }
                unreached()
            },
        }
    }

    /// The first section named `name`, if any.
    pub fn find_section(&self, name: &str) -> (r: Option<&Section>)
        ensures
            r matches Some(s) ==> exists|i: int|
                is_first_name(section_names(section_views(self.sections@)), name@, i) && *s
                    == self.sections@[i],
            r is None ==> forall|i: int|
                !is_first_name(section_names(section_views(self.sections@)), name@, i),
    {
        match first_section_named(&self.sections, name) {
            Some(i) => Some(&self.sections[i]),
            None => None,
        }
    }

    /// A copy of the first symbol named `name`, if any.
    pub fn find_symbol(&self, name: &str) -> (r: Option<Symbol>)
        ensures
            r matches Some(s) ==> exists|i: int|
                is_first_name(symbol_names(symbol_views(self.symtab.symbols@)), name@, i) && s
                    == self.symtab.symbols@[i],
            r is None ==> forall|i: int|
                !is_first_name(symbol_names(symbol_views(self.symtab.symbols@)), name@, i),
    {
        match first_symbol_named(&self.symtab.symbols, name) {
            Some(i) => Some(self.symtab.symbols[i].clone()),
            None => None,
        }
    }

    /// Adds a name to the section-name table and returns its index there.
    pub fn add_sh_symbol(&mut self, symbol_name: &str) -> (idx: u32)
        ensures
            final(self).shstrtab.section@ == strtab_after_add(
                old(self).shstrtab.section@,
                symbol_name@,
            ),
            idx == spec_add_name(old(self).shstrtab.section.data@, symbol_name@).1 as u32,
            final(self).header == old(self).header,
            final(self).sections@ == old(self).sections@,
            final(self).shstrtab_idx == old(self).shstrtab_idx,
            final(self).strtab_idx == old(self).strtab_idx,
            final(self).symtab_idx == old(self).symtab_idx,
            final(self).strtab == old(self).strtab,
            final(self).symtab == old(self).symtab,
    {
        self.shstrtab.add_symbol(symbol_name)
    }

    /// Appends a section, after adding its name to the section-name table and
    /// pointing `sh_name` at it. Returns the new section's index.
    pub fn add_section(&mut self, section: Section) -> (idx: usize)
        ensures
            final(self).shstrtab.section@ == strtab_after_add(
                old(self).shstrtab.section@,
                section.name@,
            ),
            final(self).sections@.len() == old(self).sections@.len() + 1,
            final(self).sections@.subrange(0, old(self).sections@.len() as int) == old(self).sections@,
            final(self).sections@.last()@ == (SectionView {
                sh_name: spec_add_name(old(self).shstrtab.section.data@, section.name@).1 as u32,
                ..section@
            }),
            idx == old(self).sections@.len(),
            final(self).header == old(self).header,
            final(self).shstrtab_idx == old(self).shstrtab_idx,
            final(self).strtab_idx == old(self).strtab_idx,
            final(self).symtab_idx == old(self).symtab_idx,
            final(self).strtab == old(self).strtab,
            final(self).symtab == old(self).symtab,
    {
        let mut section = section;
        section.sh_name = self.add_sh_symbol(section.name.as_str());
        self.sections.push(section);
        assert(self.sections@.subrange(0, old(self).sections@.len() as int) =~= old(self).sections@);
        self.sections.len() - 1
    }

    /// Adds a symbol unless one with its name is already present, in which case the
    /// index of the first such symbol is returned.
    pub fn add_symbol(&mut self, sym: Symbol) -> (idx: usize)
        requires
            old(self).symtab.symbols@.len() < u32::MAX,
        ensures
            tables(*final(self)) == spec_add_symbol(tables(*old(self)), sym@, false).0,
            idx == spec_add_symbol(tables(*old(self)), sym@, false).1,
            final(self).header == old(self).header,
            final(self).sections@ == old(self).sections@,
            final(self).shstrtab_idx == old(self).shstrtab_idx,
            final(self).strtab_idx == old(self).strtab_idx,
            final(self).symtab_idx == old(self).symtab_idx,
            final(self).shstrtab == old(self).shstrtab,
    {
        self.add_symbol_get_index(sym, false)
    }

    /// Adds a symbol and returns its index. Unless `force` is set, a symbol with the
    /// same name already present is reused instead (the first one). A named symbol
    /// gets its name added to the string table and `st_name` pointed at it; it then
    /// goes into the symbol table as [`SymTab::add_symbol`] places it.
    #[verifier::spinoff_prover]
    #[verifier::rlimit(40)]
    pub fn add_symbol_get_index(&mut self, symbol: Symbol, force: bool) -> (idx: usize)
        requires
            old(self).symtab.symbols@.len() < u32::MAX,
        ensures
            tables(*final(self)) == spec_add_symbol(tables(*old(self)), symbol@, force).0,
            idx == spec_add_symbol(tables(*old(self)), symbol@, force).1,
            final(self).header == old(self).header,
            final(self).sections@ == old(self).sections@,
            final(self).shstrtab_idx == old(self).shstrtab_idx,
            final(self).strtab_idx == old(self).strtab_idx,
            final(self).symtab_idx == old(self).symtab_idx,
            final(self).shstrtab == old(self).shstrtab,
    {
        let ghost t0 = tables(*self);
        if !force {
            match first_symbol_named(&self.symtab.symbols, symbol.name.as_str()) {
                Some(index) => {
                    proof {
                        lemma_first_name_unique(symbol_names(t0.symbols), symbol@.name, index as int);
                    }
                    return index;
                },
                None => {
                    assert(!exists|i: int| is_first_name(symbol_names(t0.symbols), symbol@.name, i));
                },
            }
        }
        let mut sym = symbol.clone();
        if !sym.name.as_str().is_empty() {
            sym.st_name = self.strtab.add_symbol(symbol.name.as_str());
        }
        let ghost before = self.symtab.symbols@;
        let idx = self.symtab.add_symbol(sym);
        proof {
            let sec_syms = symtab_after_add(t0.symtab, t0.symbols, sym@);
            if spec_bind(sym.st_info) == 0 && t0.symtab.sh_info <= t0.symbols.len() {
                assert(symbol_views(self.symtab.symbols@) =~= t0.symbols.insert(t0.symtab.sh_info as int, sym@));
            } else {
                assert(symbol_views(self.symtab.symbols@) =~= t0.symbols.push(sym@));
            }
            assert(symbol_views(self.symtab.symbols@) == sec_syms.1);
        }
        idx
    }

    /// The names of the function symbols, ordered by section index; symbols in the
    /// same section keep their table order.
    pub fn function_names(&self) -> (r: Vec<&str>)
        ensures
            r@.len() == function_names_of(symbol_views(self.symtab.symbols@)).len(),
            forall|k: int| 0 <= k < r@.len() ==> (#[trigger] r@[k])@ == function_names_of(symbol_views(self.symtab.symbols@))[k],
    {
        let sorted = sorted_functions(&self.symtab.symbols);
        let n = sorted.len();
        let mut r: Vec<&str> = Vec::with_capacity(n);
        let mut i: usize = 0;
        while i < n
            invariant
                n == sorted@.len(),
                i <= n,
                r@.len() == i,
                n == function_names_of(symbol_views(self.symtab.symbols@)).len(),
                forall|k: int| 0 <= k < n ==> (#[trigger] sorted@[k])@ == sort_by_shndx(func_symbols(symbol_views(self.symtab.symbols@)))[k],
                forall|k: int| 0 <= k < i ==> (#[trigger] r@[k])@ == function_names_of(symbol_views(self.symtab.symbols@))[k],
            decreases n - i,
        {
            r.push(sorted[i].name.as_str());
            i += 1;
        }
        r
    }

    /// The sections whose names start with `.text`, in order, each paired with the
    /// function name at the same position in [`Elf::function_names`] when there are
    /// function symbols at all.
    pub fn get_functions(&self) -> (r: Vec<TextSection>)
        requires
            function_names_of(symbol_views(self.symtab.symbols@)).len() == 0
                || text_indices(section_views(self.sections@), self.sections@.len() as int).len()
                <= function_names_of(symbol_views(self.symtab.symbols@)).len(),
        ensures
            r@.len() == text_indices(section_views(self.sections@), self.sections@.len() as int).len(),
            forall|k: int|
                0 <= k < r@.len() ==> (#[trigger] r@[k]).section@ == self.sections@[text_indices(
                    section_views(self.sections@),
                    self.sections@.len() as int,
                )[k]]@ && r@[k].function_name@ == if function_names_of(
                    symbol_views(self.symtab.symbols@),
                ).len() == 0 {
                    Seq::<char>::empty()
                } else {
                    function_names_of(symbol_views(self.symtab.symbols@))[k]
                },
    {
        let ghost secs = section_views(self.sections@);
        let ghost fnames = function_names_of(symbol_views(self.symtab.symbols@));
        let function_names = self.function_names();
        let n = self.sections.len();
        let mut r: Vec<TextSection> = Vec::new();
        let mut i: usize = 0;
        while i < n
            invariant
                n == self.sections@.len(),
                secs == section_views(self.sections@),
                function_names@.len() == fnames.len(),
                forall|k: int| 0 <= k < fnames.len() ==> (#[trigger] function_names@[k])@ == fnames[k],
                fnames.len() == 0 || text_indices(secs, n as int).len() <= fnames.len(),
                i <= n,
                r@.len() == text_indices(secs, i as int).len(),
                text_indices(secs, i as int).len() <= text_indices(secs, n as int).len(),
                forall|k: int| 0 <= k < text_indices(secs, i as int).len() ==> 0 <= #[trigger] text_indices(secs, i as int)[k] < i,
                forall|k: int|
                    0 <= k < r@.len() ==> (#[trigger] r@[k]).section@ == self.sections@[text_indices(secs, i as int)[k]]@
                        && r@[k].function_name@ == if fnames.len() == 0 { Seq::<char>::empty() } else { fnames[k] },
            decreases n - i,
        {
            assert(secs[i as int] == self.sections@[i as int]@);
            proof {
                lemma_text_indices_grow(secs, i as int + 1, n as int);
            }
            if text_name(self.sections[i].name.as_str()) {
                let mut text = TextSection::from_section(self.sections[i].clone());
                if function_names.len() > 0 {
                    text.function_name = function_names[r.len()].to_owned();
                }
                r.push(text);
            }
            i += 1;
        }
        r
    }

    /// The index of the section holding function `name`: the `.text`/`.text.*`
    /// section at the first position where [`Elf::function_names`] has `name`.
    pub fn text_section_by_name(&self, name: &str) -> (idx: usize)
        requires
            exists|f: int| is_first_function_text(
                function_text_indices(section_views(self.sections@), self.sections@.len() as int),
                function_names_of(symbol_views(self.symtab.symbols@)),
                name@,
                f,
            ),
        ensures
            exists|f: int| is_first_function_text(
                function_text_indices(section_views(self.sections@), self.sections@.len() as int),
                function_names_of(symbol_views(self.symtab.symbols@)),
                name@,
                f,
            ) && idx == function_text_indices(section_views(self.sections@), self.sections@.len() as int)[f],
    {
        let ghost secs = section_views(self.sections@);
        let ghost fnames = function_names_of(symbol_views(self.symtab.symbols@));
        let ghost texts = function_text_indices(secs, self.sections@.len() as int);
        let function_names = self.function_names();
        let n = self.sections.len();
        let mut f: usize = 0;
        let mut i: usize = 0;
        let ghost target = choose|f: int| is_first_function_text(texts, fnames, name@, f);
        while i < n
            invariant
                n == self.sections@.len(),
                secs == section_views(self.sections@),
                texts == function_text_indices(secs, n as int),
                fnames == function_names_of(symbol_views(self.symtab.symbols@)),
                function_names@.len() == fnames.len(),
                forall|k: int| 0 <= k < fnames.len() ==> (#[trigger] function_names@[k])@ == fnames[k],
                is_first_function_text(texts, fnames, name@, target),
                i <= n,
                f == function_text_indices(secs, i as int).len(),
                f <= target,
                f <= i,
                function_text_indices(secs, i as int) == texts.subrange(0, f as int),
            decreases n - i,
        {
            assert(secs[i as int] == self.sections@[i as int]@);
            proof {
                lemma_function_text_indices_prefix(secs, i as int + 1, n as int);
            }
            if function_text_name(self.sections[i].name.as_str()) {
                proof {
                    assert(is_function_text_name(secs[i as int].name));
                    assert(function_text_indices(secs, i + 1) == function_text_indices(secs, i as int).push(i as int));
                    let ti = function_text_indices(secs, i + 1);
                    assert(ti == texts.subrange(0, ti.len() as int));
                    assert(ti[f as int] == i);
                    assert(texts[f as int] == i);
                }
                if str_eq(function_names[f], name) {
                    proof {
                        assert(f == target) by {
                            if f < target {
                                assert(fnames[f as int] != name@);
                            }
                        }
                    }
                    assert(is_first_function_text(texts, fnames, name@, f as int));
                    assert(is_first_function_text(
                        function_text_indices(section_views(self.sections@), self.sections@.len() as int),
                        function_names_of(symbol_views(self.symtab.symbols@)),
                        name@,
                        f as int,
                    ) && i == function_text_indices(section_views(self.sections@), self.sections@.len() as int)[f as int]);
                    return i;
                }
                proof {
                    assert(fnames[f as int] != name@);
                }
                f += 1;
                proof {
                    let ti = function_text_indices(secs, i + 1);
                    assert(ti =~= texts.subrange(0, f as int));
                }
            }
            i += 1;
        }
        proof {
            assert(function_text_indices(secs, n as int).len() == f);
            assert(false);
        }
        0
    }

    /// [`Elf::get_functions`] where its condition holds (no function names, or at
    /// least as many as there are `.text` sections), `None` otherwise.
    pub fn try_get_functions(&self) -> (r: Option<Vec<TextSection>>)
        ensures
            r is Some <==> (function_names_of(symbol_views(self.symtab.symbols@)).len() == 0
                || text_indices(section_views(self.sections@), self.sections@.len() as int).len()
                <= function_names_of(symbol_views(self.symtab.symbols@)).len()),
            r matches Some(v) ==> v@.len() == text_indices(
                section_views(self.sections@),
                self.sections@.len() as int,
            ).len() && forall|k: int|
                0 <= k < v@.len() ==> (#[trigger] v@[k]).section@ == self.sections@[text_indices(
                    section_views(self.sections@),
                    self.sections@.len() as int,
                )[k]]@,
    {
        let ghost secs = section_views(self.sections@);
        let names = self.function_names();
        let n = self.sections.len();
        let mut count: usize = 0;
        let mut i: usize = 0;
        while i < n
            invariant
                n == self.sections@.len(),
                secs == section_views(self.sections@),
                i <= n,
                count <= i,
                count == text_indices(secs, i as int).len(),
            decreases n - i,
        {
            assert(secs[i as int] == self.sections@[i as int]@);
            if text_name(self.sections[i].name.as_str()) {
                count += 1;
            }
            i += 1;
        }
        if names.len() == 0 || count <= names.len() {
            Some(self.get_functions())
        } else {
            None
        }
    }

    /// [`Elf::text_section_by_name`] where it finds the section, `None` otherwise.
    pub fn find_function_text(&self, name: &str) -> (r: Option<usize>)
        ensures
            r is Some <==> exists|f: int| is_first_function_text(
                function_text_indices(section_views(self.sections@), self.sections@.len() as int),
                function_names_of(symbol_views(self.symtab.symbols@)),
                name@,
                f,
            ),
            r matches Some(idx) ==> exists|f: int| is_first_function_text(
                function_text_indices(section_views(self.sections@), self.sections@.len() as int),
                function_names_of(symbol_views(self.symtab.symbols@)),
                name@,
                f,
            ) && idx == function_text_indices(section_views(self.sections@), self.sections@.len() as int)[f],
    {
        let ghost secs = section_views(self.sections@);
        let ghost fnames = function_names_of(symbol_views(self.symtab.symbols@));
        let ghost texts = function_text_indices(secs, self.sections@.len() as int);
        let function_names = self.function_names();
        let n = self.sections.len();
        let mut f: usize = 0;
        let mut i: usize = 0;
        while i < n
            invariant
                n == self.sections@.len(),
                secs == section_views(self.sections@),
                texts == function_text_indices(secs, n as int),
                fnames == function_names_of(symbol_views(self.symtab.symbols@)),
                function_names@.len() == fnames.len(),
                forall|k: int| 0 <= k < fnames.len() ==> (#[trigger] function_names@[k])@ == fnames[k],
                i <= n,
                f == function_text_indices(secs, i as int).len(),
                f <= i,
                function_text_indices(secs, i as int) == texts.subrange(0, f as int),
                forall|g: int| 0 <= g < f ==> #[trigger] fnames[g] != name@,
            decreases n - i,
        {
            assert(secs[i as int] == self.sections@[i as int]@);
            proof {
                lemma_function_text_indices_prefix(secs, i as int + 1, n as int);
            }
            if function_text_name(self.sections[i].name.as_str()) {
                proof {
                    assert(function_text_indices(secs, i + 1) == function_text_indices(secs, i as int).push(i as int));
                    let ti = function_text_indices(secs, i + 1);
                    assert(ti == texts.subrange(0, ti.len() as int));
                    assert(ti[f as int] == i);
                    assert(texts[f as int] == i);
                }
                if f >= function_names.len() {
                    assert forall|g: int| !is_first_function_text(texts, fnames, name@, g) by {}
                    return None;
                }
                if str_eq(function_names[f], name) {
                    assert(is_first_function_text(texts, fnames, name@, f as int));
                    return Some(i);
                }
                f += 1;
                proof {
                    let ti = function_text_indices(secs, i + 1);
                    assert(ti =~= texts.subrange(0, f as int));
                }
            }
            i += 1;
        }
        proof {
            assert(function_text_indices(secs, n as int).len() == f);
            assert(texts.len() == f);
            assert forall|g: int| !is_first_function_text(texts, fnames, name@, g) by {}
        }
        None
    }

    /// The type, size, alignment exponent and payload length of section `i` as it is
    /// written out (see [`written_sections`]).
    fn written_fields(&self, i: usize) -> (r: (u32, u32, u32, u128))
        requires
            self.shstrtab_idx < self.sections@.len(),
            self.strtab_idx < self.sections@.len(),
            self.symtab_idx < self.sections@.len(),
            i < self.sections@.len(),
        ensures
            r.0 == written_sections(*self)[i as int].sh_type,
            r.1 == written_sections(*self)[i as int].sh_size,
            r.2 == written_sections(*self)[i as int].sh_addralign,
            r.3 == written_sections(*self)[i as int].data.len(),
    {
        let ghost w = written_sections(*self);
        if i == self.symtab_idx {
            proof {
                symbol::lemma_symbols_roundtrip(symbol_views(self.symtab.symbols@));
            }
            let n = self.symtab.symbols.len() as u128;
            let s = &self.symtab.section;
            #[verifier::truncate]
            let size = (16 * n) as u32;
            (s.sh_type, size, s.sh_addralign, 16 * n)
        } else if i == self.strtab_idx {
            let s = &self.strtab.section;
            (s.sh_type, s.sh_size, s.sh_addralign, s.data.len() as u128)
        } else if i == self.shstrtab_idx {
            let s = &self.shstrtab.section;
            (s.sh_type, s.sh_size, s.sh_addralign, s.data.len() as u128)
        } else {
            let s = &self.sections[i];
            assert(section_views(self.sections@)[i as int] == self.sections@[i as int]@);
            (s.sh_type, s.sh_size, s.sh_addralign, s.data.len() as u128)
        }
    }

    /// Whether the object can be packed (see [`pack_ready`]).
    #[verifier::spinoff_prover]
    pub fn can_pack(&self) -> (r: bool)
        ensures
            r == pack_ready(*self),
    {
        let n = self.sections.len();
        if self.shstrtab_idx >= n || self.strtab_idx >= n || self.symtab_idx >= n {
            return false;
        }
        let ghost w = written_sections(*self);
        assert(w.len() == n);
        let mut i: usize = 0;
        while i < n
            invariant
                i <= n,
                n == self.sections@.len(),
                w == written_sections(*self),
                w.len() == n,
                self.shstrtab_idx < n,
                self.strtab_idx < n,
                self.symtab_idx < n,
                forall|k: int| 0 <= k < i ==> (#[trigger] w[k]).sh_addralign < 32,
                forall|k: int| 0 <= k < i ==> (#[trigger] w[k]).sh_type != SHT_NOBITS ==> w[k].sh_size == w[k].data.len(),
            decreases n - i,
        {
            let (ty, size, align, dlen) = self.written_fields(i);
            if align >= 32 {
                return false;
            }
            if ty != SHT_NOBITS && size as u128 != dlen {
                return false;
            }
            i += 1;
        }
        assert(aligns_ok(w));
        let mut off: u64 = 64;
        let mut i: usize = 0;
        proof {
            assert(w.take(0) =~= Seq::<SectionView>::empty());
        }
        while i < n
            invariant
                i <= n,
                n == self.sections@.len(),
                w == written_sections(*self),
                w.len() == n,
                self.shstrtab_idx < n,
                self.strtab_idx < n,
                self.symtab_idx < n,
                aligns_ok(w),
                off <= u32::MAX,
                off == layout(w.take(i as int), 64).2,
            decreases n - i,
        {
            proof {
                lemma_layout_step(w, i as int);
                lemma_layout_prefix(w, 64, i + 1);
            }
            let (_ty, _size, align, dlen) = self.written_fields(i);
            if dlen > (0xFFFF_FFFF - off) as u128 {
                return false;
            }
            let off2 = off + dlen as u64;
            let a: u64 = 1u64 << align;
            proof {
                assert(a == (1u32 << align) as u64) by (bit_vector)
                    requires
                        a == 1u64 << align,
                        align < 32,
                ;
            }
            let pad = if off2 % a != 0 {
                a - off2 % a
            } else {
                0
            };
            if pad > 0xFFFF_FFFF - off2 {
                return false;
            }
            off = off2 + pad;
            i += 1;
        }
        assert(w.take(n as int) =~= w);
        let p4 = if off % 4 != 0 {
            4 - off % 4
        } else {
            0
        };
        off + p4 <= 0xFFFF_FFFF
    }

    /// Tidies symbol names after compiling stubs: the stub prefix comes off every name
    /// that carries it; then each symbol whose name starts with the escape for `.`
    /// is added again with `@` in place of its first character; then each symbol whose
    /// name holds the escape for `$` is added again with `$` restored. A renamed symbol
    /// whose name is already present is not added twice.
    #[verifier::spinoff_prover]
    #[verifier::rlimit(40)]
    pub fn symbol_cleanup(&mut self)
        requires
            forall|i: int|
                0 <= i < old(self).symtab.symbols@.len() ==> #[trigger] old(self).symtab.symbols@[i].st_name
                    + 8 <= u32::MAX,
            old(self).symtab.symbols@.len() < 0x3fff_ffff,
        ensures
            tables(*final(self)) == cleaned_tables(tables(*old(self))),
            final(self).header == old(self).header,
            final(self).sections@ == old(self).sections@,
            final(self).shstrtab_idx == old(self).shstrtab_idx,
            final(self).strtab_idx == old(self).strtab_idx,
            final(self).symtab_idx == old(self).symtab_idx,
            final(self).shstrtab == old(self).shstrtab,
    {
        proof {
            lemma_constants();
        }
        let ghost t0 = tables(*self);
        self.symtab.remove_function_prefix();
        let ghost t1 = tables(*self);
        assert(t1 == tables_without_prefix(t0));

        // "__at__..." becomes "@_at__..."
        let snapshot = clone_symbols(&self.symtab.symbols);
        let ghost snap = symbol_views(snapshot@);
        let n = snapshot.len();
        let mut i: usize = 0;
        while i < n
            invariant
                n == snapshot@.len(),
                snap == symbol_views(snapshot@),
                snap == t1.symbols,
                n < 0x3fff_ffff,
                i <= n,
                SYMBOL_AT@ == symbol_at(),
                tables(*self) == fold_at(t1, snap, i as int),
                self.symtab.symbols@.len() <= n + i,
                self.header == old(self).header,
                self.sections@ == old(self).sections@,
                self.shstrtab_idx == old(self).shstrtab_idx,
                self.strtab_idx == old(self).strtab_idx,
                self.symtab_idx == old(self).symtab_idx,
                self.shstrtab == old(self).shstrtab,
            decreases n - i,
        {
            assert(snap[i as int] == snapshot@[i as int]@);
            if starts_with(snapshot[i].name.as_str(), SYMBOL_AT) {
                let mut sym = snapshot[i].clone();
                let len = sym.name.as_str().unicode_len();
                let rest = substring(sym.name.as_str(), 1, len);
                let at = "@";
                proof {
                    reveal_strlit("@");
                    assert(at@ =~= seq!['@']);
                }
                sym.name = concat(at, rest.as_str());
                assert(sym@ == renamed_at(snap[i as int]));
                proof {
                    lemma_add_symbol_len(tables(*self), sym@, false);
                }
                self.add_symbol(sym);
            }
            i += 1;
        }
        let ghost t2 = tables(*self);

        // "__dollar__" becomes "$"
        let snapshot2 = clone_symbols(&self.symtab.symbols);
        let ghost snap2 = symbol_views(snapshot2@);
        let n2 = snapshot2.len();
        let mut j: usize = 0;
        while j < n2
            invariant
                n2 == snapshot2@.len(),
                snap2 == symbol_views(snapshot2@),
                snap2 == t2.symbols,
                n2 < 0x7fff_ffff,
                j <= n2,
                SYMBOL_DOLLAR@ == symbol_dollar(),
                DOLLAR_SIGN@ == seq!['$'],
                tables(*self) == fold_dollar(t2, snap2, j as int),
                self.symtab.symbols@.len() <= n2 + j,
                self.header == old(self).header,
                self.sections@ == old(self).sections@,
                self.shstrtab_idx == old(self).shstrtab_idx,
                self.strtab_idx == old(self).strtab_idx,
                self.symtab_idx == old(self).symtab_idx,
                self.shstrtab == old(self).shstrtab,
            decreases n2 - j,
        {
            assert(snap2[j as int] == snapshot2@[j as int]@);
            let has = contains_str(snapshot2[j].name.as_str(), SYMBOL_DOLLAR);
            if has {
                let mut sym = snapshot2[j].clone();
                sym.name = replace_str(sym.name.as_str(), SYMBOL_DOLLAR, DOLLAR_SIGN);
                assert(sym@ == renamed_dollar(snap2[j as int]));
                proof {
                    lemma_add_symbol_len(tables(*self), sym@, false);
                    assert(fold_dollar(t2, snap2, j + 1) == spec_add_symbol(
                        fold_dollar(t2, snap2, j as int),
                        renamed_dollar(snap2[j as int]),
                        false,
                    ).0);
                }
                self.add_symbol(sym);
            } else {
                assert(fold_dollar(t2, snap2, j + 1) == fold_dollar(t2, snap2, j as int));
            }
            j += 1;
        }
    }

    /// Writes the tables back into their sections, lays the sections out from
    /// offset 64 (each payload padded to its alignment, `1 << sh_addralign`), and
    /// returns the whole file: header, twelve zero bytes, payloads padded to a
    /// multiple of four, then the section headers.
    pub fn pack(&mut self) -> (r: Vec<u8>)
        requires
            pack_ready(*old(self)),
        ensures
            r@ == packed_bytes(old(self).header, written_sections(*old(self))),
            section_views(final(self).sections@) == layout(written_sections(*old(self)), 64).0,
            final(self).symtab.section@ == packed_symtab(*old(self)),
            final(self).symtab.symbols@ == old(self).symtab.symbols@,
            final(self).header == old(self).header,
            final(self).shstrtab_idx == old(self).shstrtab_idx,
            final(self).strtab_idx == old(self).strtab_idx,
            final(self).symtab_idx == old(self).symtab_idx,
            final(self).shstrtab.section@ == old(self).shstrtab.section@,
            final(self).strtab.section@ == old(self).strtab.section@,
    {
        let ghost w = written_sections(*self);
        self.write_tables();
        let (mut section_data, mut section_headers, sh_offset) = lay_out_sections(&mut self.sections);
        proof {
            lemma_layout_len(w, 64);
        }
        if sh_offset % 4 != 0 {
            let bytes_needed = 4 - (sh_offset % 4);
            push_zeros(&mut section_data, bytes_needed);
        } else {
            assert(section_data@ =~= section_data@ + zeros(0));
        }
        #[verifier::truncate]
        let dlen = section_data.len() as u32;
        #[verifier::truncate]
        let shnum = self.sections.len() as u16;
        let mut out = file_header_bytes(&self.header, 64 + dlen, shnum);
        push_zeros(&mut out, 12);
        out.append(&mut section_data);
        out.append(&mut section_headers);
        reveal(packed_bytes);
        assert(out@ =~= packed_bytes(self.header, w));
        out
    }

    /// Writes the three tables back into their sections.
    fn write_tables(&mut self)
        requires
            old(self).shstrtab_idx < old(self).sections@.len(),
            old(self).strtab_idx < old(self).sections@.len(),
            old(self).symtab_idx < old(self).sections@.len(),
        ensures
            section_views(final(self).sections@) == written_sections(*old(self)),
            final(self).symtab.section@ == packed_symtab(*old(self)),
            final(self).symtab.symbols@ == old(self).symtab.symbols@,
            final(self).header == old(self).header,
            final(self).shstrtab_idx == old(self).shstrtab_idx,
            final(self).strtab_idx == old(self).strtab_idx,
            final(self).symtab_idx == old(self).symtab_idx,
            final(self).shstrtab.section@ == old(self).shstrtab.section@,
            final(self).strtab.section@ == old(self).strtab.section@,
    {
        let ghost w = written_sections(*self);
        self.shstrtab.pack_data();
        self.strtab.pack_data();
        self.symtab.pack_data();
        let s0 = self.shstrtab.section.clone();
        self.sections.set(self.shstrtab_idx, s0);
        let s1 = self.strtab.section.clone();
        self.sections.set(self.strtab_idx, s1);
        let s2 = self.symtab.section.clone();
        self.sections.set(self.symtab_idx, s2);
        assert(section_views(self.sections@) =~= w);
    }

    /// The sections of type `SHT_REL` with their indices.
    pub fn reloc_sections(&self) -> (r: Vec<(usize, Section)>)
        ensures
            r@.len() == rel_indices(section_views(self.sections@), self.sections@.len() as int).len(),
            forall|k: int|
                0 <= k < r@.len() ==> #[trigger] r@[k].0 == rel_indices(
                    section_views(self.sections@),
                    self.sections@.len() as int,
                )[k] && r@[k].1@ == self.sections@[r@[k].0 as int]@,
    {
        let ghost secs = section_views(self.sections@);
        let n = self.sections.len();
        let mut r: Vec<(usize, Section)> = Vec::new();
        let mut i: usize = 0;
        while i < n
            invariant
                n == self.sections@.len(),
                secs == section_views(self.sections@),
                i <= n,
                r@.len() == rel_indices(secs, i as int).len(),
                forall|k: int| 0 <= k < rel_indices(secs, i as int).len() ==> 0 <= #[trigger] rel_indices(secs, i as int)[k] < i,
                forall|k: int|
                    0 <= k < r@.len() ==> #[trigger] r@[k].0 == rel_indices(secs, i as int)[k]
                        && r@[k].1@ == self.sections@[r@[k].0 as int]@,
            decreases n - i,
        {
            assert(secs[i as int] == self.sections@[i as int]@);
            if self.sections[i].sh_type == SHT_REL {
                r.push((i, self.sections[i].clone()));
            }
            i += 1;
        }
        r
    }

    /// The read-only data sections (`.rodata` and `.rodata.*`), in order.
    pub fn rodata_sections(&self) -> (r: Vec<&Section>)
        ensures
            r@.len() == rodata_indices(section_views(self.sections@), self.sections@.len() as int).len(),
            forall|k: int|
                0 <= k < r@.len() ==> *#[trigger] r@[k] == self.sections@[rodata_indices(
                    section_views(self.sections@),
                    self.sections@.len() as int,
                )[k]],
    {
        let ghost secs = section_views(self.sections@);
        let n = self.sections.len();
        let mut r: Vec<&Section> = Vec::new();
        let mut i: usize = 0;
        while i < n
            invariant
                n == self.sections@.len(),
                secs == section_views(self.sections@),
                i <= n,
                r@.len() == rodata_indices(secs, i as int).len(),
                forall|k: int|
                    0 <= k < r@.len() ==> *#[trigger] r@[k] == self.sections@[rodata_indices(secs, i as int)[k]],
                forall|k: int| 0 <= k < rodata_indices(secs, i as int).len() ==> 0 <= #[trigger] rodata_indices(secs, i as int)[k] < i,
            decreases n - i,
        {
            assert(secs[i as int] == self.sections@[i as int]@);
            if rodata_name(self.sections[i].name.as_str()) {
                r.push(&self.sections[i]);
            }
            i += 1;
        }
        r
    }

    /// The `SHT_REL` sections parsed into relocations, each named after its symbol.
    /// Every payload must hold whole entries, and every entry a valid symbol index.
    pub fn relocation_sections(&self) -> (r: Vec<RelocationRecord>)
        requires
            forall|i: int|
                0 <= i < self.sections@.len() && (#[trigger] self.sections@[i]).sh_type == SHT_REL
                    ==> self.sections@[i].data@.len() % 8 == 0 && forall|k: int|
                    0 <= k < spec_unpack_relocations(self.sections@[i].data@).len()
                        ==> (#[trigger] spec_unpack_relocations(self.sections@[i].data@)[k]).r_info
                        / 256 < self.symtab.symbols@.len(),
        ensures
            r@.len() == rel_indices(section_views(self.sections@), self.sections@.len() as int).len(),
            forall|k: int|
                0 <= k < r@.len() ==> (#[trigger] r@[k]).section@ == self.sections@[rel_indices(
                    section_views(self.sections@),
                    self.sections@.len() as int,
                )[k]]@ && relocation_views(r@[k].relocations@) == named_relocations(
                    r@[k].section.data@,
                    symbol_views(self.symtab.symbols@),
                ),
    {
        let ghost secs = section_views(self.sections@);
        let ghost syms = symbol_views(self.symtab.symbols@);
        let n = self.sections.len();
        let mut r: Vec<RelocationRecord> = Vec::new();
        let mut i: usize = 0;
        while i < n
            invariant
                n == self.sections@.len(),
                secs == section_views(self.sections@),
                syms == symbol_views(self.symtab.symbols@),
                i <= n,
                forall|i: int|
                    0 <= i < self.sections@.len() && (#[trigger] self.sections@[i]).sh_type == SHT_REL
                        ==> self.sections@[i].data@.len() % 8 == 0 && forall|k: int|
                        0 <= k < spec_unpack_relocations(self.sections@[i].data@).len()
                            ==> (#[trigger] spec_unpack_relocations(self.sections@[i].data@)[k]).r_info
                            / 256 < self.symtab.symbols@.len(),
                r@.len() == rel_indices(secs, i as int).len(),
                forall|k: int| 0 <= k < rel_indices(secs, i as int).len() ==> 0 <= #[trigger] rel_indices(secs, i as int)[k] < i,
                forall|k: int|
                    0 <= k < r@.len() ==> (#[trigger] r@[k]).section@ == self.sections@[rel_indices(secs, i as int)[k]]@
                        && relocation_views(r@[k].relocations@) == named_relocations(r@[k].section.data@, syms),
            decreases n - i,
        {
            assert(secs[i as int] == self.sections@[i as int]@);
            if self.sections[i].sh_type == SHT_REL {
                let mut rr = RelocationRecord::new(self.sections[i].clone());
                proof {
                    assert forall|k: int| 0 <= k < rr.relocations@.len() implies (#[trigger] rr.relocations@[k]).r_info / 256 < self.symtab.symbols@.len() by {
                        assert(relocation_views(rr.relocations@)[k] == rr.relocations@[k]@);
                    }
                }
                let ghost before = rr.relocations@;
                name_relocations(&mut rr, &self.symtab.symbols);
                proof {
                    assert(relocation_views(rr.relocations@) =~= named_relocations(rr.section.data@, syms)) by {
                        assert forall|k: int| 0 <= k < rr.relocations@.len() implies relocation_views(rr.relocations@)[k] == named_relocations(rr.section.data@, syms)[k] by {
                            assert(relocation_views(before)[k] == before[k]@);
                        }
                    }
                }
                r.push(rr);
            }
            i += 1;
        }
        r
    }
}

/// The function symbols (`STT_FUNC`), in table order.
pub open spec fn func_symbols(syms: Seq<SymbolView>) -> Seq<SymbolView>
    decreases syms.len(),
{
    if syms.len() == 0 {
        Seq::empty()
    } else if spec_type_id(syms.last().st_info) == STT_FUNC {
        func_symbols(syms.drop_last()).push(syms.last())
    } else {
        func_symbols(syms.drop_last())
    }
}

/// `x` placed into `sorted` after every element whose section index is not greater.
pub open spec fn insert_by_shndx(sorted: Seq<SymbolView>, x: SymbolView) -> Seq<SymbolView>
    decreases sorted.len(),
{
    if sorted.len() == 0 || sorted.last().st_shndx <= x.st_shndx {
        sorted.push(x)
    } else {
        insert_by_shndx(sorted.drop_last(), x).push(sorted.last())
    }
}

/// `s` sorted by section index, keeping the table order of equal indices (a stable sort).
pub open spec fn sort_by_shndx(s: Seq<SymbolView>) -> Seq<SymbolView>
    decreases s.len(),
{
    if s.len() == 0 {
        Seq::empty()
    } else {
        insert_by_shndx(sort_by_shndx(s.drop_last()), s.last())
    }
}

/// The names of the function symbols, ordered by section index.
pub open spec fn function_names_of(syms: Seq<SymbolView>) -> Seq<Seq<char>> {
    sort_by_shndx(func_symbols(syms)).map_values(|s: SymbolView| s.name)
}

/// Inserting at the place found by scanning back from the end.
pub(crate) proof fn lemma_insert_by_shndx_at(sorted: Seq<SymbolView>, x: SymbolView, p: int)
    requires
        0 <= p <= sorted.len(),
        forall|q: int| p <= q < sorted.len() ==> #[trigger] sorted[q].st_shndx > x.st_shndx,
        p == 0 || sorted[p - 1].st_shndx <= x.st_shndx,
    ensures
        insert_by_shndx(sorted, x) == sorted.insert(p, x),
    decreases sorted.len(),
{
    if p == sorted.len() {
        assert(sorted.insert(p, x) =~= sorted.push(x));
    } else {
        let init = sorted.drop_last();
        lemma_insert_by_shndx_at(init, x, p);
        assert(sorted.insert(p, x) =~= init.insert(p, x).push(sorted.last()));
    }
}

/// Filtering a longer prefix keeps what a shorter prefix found.
proof fn lemma_text_indices_grow(secs: Seq<SectionView>, i: int, n: int)
    requires
        0 <= i <= n,
    ensures
        text_indices(secs, i).len() <= text_indices(secs, n).len(),
    decreases n - i,
{
    if i < n {
        lemma_text_indices_grow(secs, i, n - 1);
    }
}

/// The `.text` and `.text.*` sections found below `k` lie below `k`, in increasing order.
pub(crate) proof fn lemma_function_text_indices_range(secs: Seq<SectionView>, k: int)
    ensures
        forall|q: int| 0 <= q < function_text_indices(secs, k).len() ==> 0 <= #[trigger] function_text_indices(secs, k)[q] < k,
    decreases k,
{
    if k > 0 {
        lemma_function_text_indices_range(secs, k - 1);
        let prev = function_text_indices(secs, k - 1);
        if is_function_text_name(secs[k - 1].name) {
            assert forall|q: int| 0 <= q < function_text_indices(secs, k).len() implies 0 <= #[trigger] function_text_indices(secs, k)[q] < k by {
                if q < prev.len() {
                    assert(function_text_indices(secs, k)[q] == prev[q]);
                }
            }
        }
    }
}

/// The `.text` sections found below `k` lie below `k`.
pub(crate) proof fn lemma_text_indices_range(secs: Seq<SectionView>, k: int)
    ensures
        forall|q: int| 0 <= q < text_indices(secs, k).len() ==> 0 <= #[trigger] text_indices(secs, k)[q] < k,
    decreases k,
{
    if k > 0 {
        lemma_text_indices_range(secs, k - 1);
        let prev = text_indices(secs, k - 1);
        if is_text_name(secs[k - 1].name) {
            assert forall|q: int| 0 <= q < text_indices(secs, k).len() implies 0 <= #[trigger] text_indices(secs, k)[q] < k by {
                if q < prev.len() {
                    assert(text_indices(secs, k)[q] == prev[q]);
                }
            }
        }
    }
}

/// The read-only data sections found below `k` lie below `k`.
pub(crate) proof fn lemma_rodata_indices_range(secs: Seq<SectionView>, k: int)
    ensures
        forall|q: int| 0 <= q < rodata_indices(secs, k).len() ==> 0 <= #[trigger] rodata_indices(secs, k)[q] < k,
    decreases k,
{
    if k > 0 {
        lemma_rodata_indices_range(secs, k - 1);
        let prev = rodata_indices(secs, k - 1);
        if is_rodata_name(secs[k - 1].name) {
            assert forall|q: int| 0 <= q < rodata_indices(secs, k).len() implies 0 <= #[trigger] rodata_indices(secs, k)[q] < k by {
                if q < prev.len() {
                    assert(rodata_indices(secs, k)[q] == prev[q]);
                }
            }
        }
    }
}

/// Filtering a longer prefix extends what a shorter prefix found.
proof fn lemma_function_text_indices_prefix(secs: Seq<SectionView>, i: int, n: int)
    requires
        0 <= i <= n,
    ensures
        function_text_indices(secs, i).len() <= function_text_indices(secs, n).len(),
        function_text_indices(secs, i) == function_text_indices(secs, n).subrange(
            0,
            function_text_indices(secs, i).len() as int,
        ),
    decreases n - i,
{
    if i < n {
        lemma_function_text_indices_prefix(secs, i, n - 1);
        let a = function_text_indices(secs, i);
        let b = function_text_indices(secs, n - 1);
        assert(b.subrange(0, a.len() as int) == a);
        if is_function_text_name(secs[n - 1].name) {
            assert(function_text_indices(secs, n).subrange(0, a.len() as int) =~= b.subrange(0, a.len() as int));
        }
    }
}

/// A symbol whose name began with the escape for `.` renamed to begin with `@`
/// (the first character is replaced).
pub open spec fn renamed_at(s: SymbolView) -> SymbolView {
    SymbolView { name: seq!['@'] + s.name.skip(1), ..s }
}

/// A symbol with every escape for `$` in its name turned back into `$`.
pub open spec fn renamed_dollar(s: SymbolView) -> SymbolView {
    SymbolView { name: spec_replace(s.name, symbol_dollar(), seq!['$']), ..s }
}

/// The tables after adding, for each of the first `k` symbols of `snap` whose name
/// starts with the escape for `.`, its [`renamed_at`] copy.
pub open spec fn fold_at(t: TablesView, snap: Seq<SymbolView>, k: int) -> TablesView
    decreases k,
{
    if k <= 0 {
        t
    } else if chars_occur_at(snap[k - 1].name, symbol_at(), 0) {
        spec_add_symbol(fold_at(t, snap, k - 1), renamed_at(snap[k - 1]), false).0
    } else {
        fold_at(t, snap, k - 1)
    }
}

/// The tables after adding, for each of the first `k` symbols of `snap` whose name
/// holds the escape for `$`, its [`renamed_dollar`] copy.
pub open spec fn fold_dollar(t: TablesView, snap: Seq<SymbolView>, k: int) -> TablesView
    decreases k,
{
    if k <= 0 {
        t
    } else if chars_contain(snap[k - 1].name, symbol_dollar()) {
        spec_add_symbol(fold_dollar(t, snap, k - 1), renamed_dollar(snap[k - 1]), false).0
    } else {
        fold_dollar(t, snap, k - 1)
    }
}

/// The tables once the stub prefix is gone from the symbol names (and the symbol
/// table repacked).
pub open spec fn tables_without_prefix(t: TablesView) -> TablesView {
    let syms = t.symbols.map_values(|s: SymbolView| without_function_prefix(s));
    TablesView {
        strtab: t.strtab,
        symtab: SectionView {
            data: symbols_bytes(syms),
            sh_size: (16 * t.symbols.len()) as u32,
            ..t.symtab
        },
        symbols: syms,
    }
}

/// The tables after [`Elf::symbol_cleanup`].
pub open spec fn cleaned_tables(t: TablesView) -> TablesView {
    let t1 = tables_without_prefix(t);
    let t2 = fold_at(t1, t1.symbols, t1.symbols.len() as int);
    fold_dollar(t2, t2.symbols, t2.symbols.len() as int)
}

/// Adding a symbol keeps every name the table held, and afterwards the table holds the
/// added symbol's name.
pub(crate) proof fn lemma_add_keeps_names(t: TablesView, sym: SymbolView, force: bool)
    ensures
        forall|n: Seq<char>| symbol_names(t.symbols).contains(n) ==> #[trigger] symbol_names(
            spec_add_symbol(t, sym, force).0.symbols,
        ).contains(n),
        symbol_names(spec_add_symbol(t, sym, force).0.symbols).contains(sym.name),
{
    let names = symbol_names(t.symbols);
    let t2 = spec_add_symbol(t, sym, force).0;
    let names2 = symbol_names(t2.symbols);
    if !force && exists|i: int| is_first_name(names, sym.name, i) {
        let i = choose|i: int| is_first_name(names, sym.name, i);
        assert(names[i] == sym.name);
    } else {
        let sym2 = if sym.name.len() > 0 {
            SymbolView { st_name: spec_add_name(t.strtab.data, sym.name).1 as u32, ..sym }
        } else {
            sym
        };
        let r = symtab_after_add(t.symtab, t.symbols, sym2);
        assert(t2.symbols == r.1);
        assert(names2[r.2] == sym.name);
        assert forall|n: Seq<char>| names.contains(n) implies #[trigger] names2.contains(n) by {
            let i = choose|i: int| 0 <= i < names.len() && names[i] == n;
            if spec_bind(sym2.st_info) == 0 && t.symtab.sh_info <= t.symbols.len() {
                if i < t.symtab.sh_info {
                    assert(names2[i] == n);
                } else {
                    assert(names2[i + 1] == n);
                }
            } else {
                assert(names2[i] == n);
            }
        }
    }
}

/// Folding in the copies renamed for `$` keeps every name, and adds the renamed name of
/// each of the first `k` symbols of `snap` whose name holds the escape for `$`.
#[verifier::spinoff_prover]
proof fn lemma_fold_dollar_names(t: TablesView, snap: Seq<SymbolView>, k: int)
    requires
        0 <= k <= snap.len(),
    ensures
        forall|n: Seq<char>| symbol_names(t.symbols).contains(n) ==> #[trigger] symbol_names(
            fold_dollar(t, snap, k).symbols,
        ).contains(n),
        forall|j: int| 0 <= j < k && chars_contain(snap[j].name, symbol_dollar()) ==> symbol_names(
            fold_dollar(t, snap, k).symbols,
        ).contains(#[trigger] renamed_dollar(snap[j]).name),
    decreases k,
{
    if k > 0 {
        lemma_fold_dollar_names(t, snap, k - 1);
        let prev = fold_dollar(t, snap, k - 1);
        let cur = fold_dollar(t, snap, k);
        if chars_contain(snap[k - 1].name, symbol_dollar()) {
            lemma_add_keeps_names(prev, renamed_dollar(snap[k - 1]), false);
            assert(cur == spec_add_symbol(prev, renamed_dollar(snap[k - 1]), false).0);
        } else {
            assert(cur == prev);
        }
        assert forall|n: Seq<char>| symbol_names(t.symbols).contains(n) implies #[trigger] symbol_names(
            cur.symbols,
        ).contains(n) by {
            assert(symbol_names(prev.symbols).contains(n));
        }
        assert forall|j: int| 0 <= j < k && chars_contain(snap[j].name, symbol_dollar()) implies symbol_names(
            cur.symbols,
        ).contains(#[trigger] renamed_dollar(snap[j]).name) by {
            if j < k - 1 {
                assert(symbol_names(prev.symbols).contains(renamed_dollar(snap[j]).name));
            }
        }
    }
}

/// Folding in the copies renamed for `.` keeps every name, and adds the renamed name of
/// each of the first `k` symbols of `snap` whose name starts with the escape for `.`.
#[verifier::spinoff_prover]
proof fn lemma_fold_at_names(t: TablesView, snap: Seq<SymbolView>, k: int)
    requires
        0 <= k <= snap.len(),
    ensures
        forall|n: Seq<char>| symbol_names(t.symbols).contains(n) ==> #[trigger] symbol_names(
            fold_at(t, snap, k).symbols,
        ).contains(n),
        forall|j: int| 0 <= j < k && chars_occur_at(snap[j].name, symbol_at(), 0) ==> symbol_names(
            fold_at(t, snap, k).symbols,
        ).contains(#[trigger] renamed_at(snap[j]).name),
    decreases k,
{
    if k > 0 {
        lemma_fold_at_names(t, snap, k - 1);
        let prev = fold_at(t, snap, k - 1);
        let cur = fold_at(t, snap, k);
        if chars_occur_at(snap[k - 1].name, symbol_at(), 0) {
            lemma_add_keeps_names(prev, renamed_at(snap[k - 1]), false);
            assert(cur == spec_add_symbol(prev, renamed_at(snap[k - 1]), false).0);
        } else {
            assert(cur == prev);
        }
        assert forall|n: Seq<char>| symbol_names(t.symbols).contains(n) implies #[trigger] symbol_names(
            cur.symbols,
        ).contains(n) by {
            assert(symbol_names(prev.symbols).contains(n));
        }
        assert forall|j: int| 0 <= j < k && chars_occur_at(snap[j].name, symbol_at(), 0) implies symbol_names(
            cur.symbols,
        ).contains(#[trigger] renamed_at(snap[j]).name) by {
            if j < k - 1 {
                assert(symbol_names(prev.symbols).contains(renamed_at(snap[j]).name));
            }
        }
    }
}

/// Symbol cleanup (see [`Elf::symbol_cleanup`]) loses no name: every name the table
/// holds once the stub prefix is gone stays; for each symbol then starting with the
/// escape for `.`, its [`renamed_at`] name is present; and for each symbol holding the
/// escape for `$` after that step, its [`renamed_dollar`] name is present.
pub proof fn lemma_cleanup_names(t: TablesView)
    ensures
        ({
            let t1 = tables_without_prefix(t);
            let t2 = fold_at(t1, t1.symbols, t1.symbols.len() as int);
            let names = symbol_names(cleaned_tables(t).symbols);
            &&& forall|n: Seq<char>| symbol_names(t1.symbols).contains(n) ==> #[trigger] names.contains(n)
            &&& forall|j: int| 0 <= j < t1.symbols.len() && chars_occur_at(t1.symbols[j].name, symbol_at(), 0)
                ==> names.contains(#[trigger] renamed_at(t1.symbols[j]).name)
            &&& forall|j: int| 0 <= j < t2.symbols.len() && chars_contain(t2.symbols[j].name, symbol_dollar())
                ==> names.contains(#[trigger] renamed_dollar(t2.symbols[j]).name)
        }),
{
    let t1 = tables_without_prefix(t);
    let t2 = fold_at(t1, t1.symbols, t1.symbols.len() as int);
    let t3 = cleaned_tables(t);
    lemma_fold_at_names(t1, t1.symbols, t1.symbols.len() as int);
    lemma_fold_dollar_names(t2, t2.symbols, t2.symbols.len() as int);
    assert(t3 == fold_dollar(t2, t2.symbols, t2.symbols.len() as int));
    assert forall|n: Seq<char>| symbol_names(t1.symbols).contains(n) implies #[trigger] symbol_names(
        t3.symbols,
    ).contains(n) by {
        assert(symbol_names(t2.symbols).contains(n));
    }
    assert forall|j: int| 0 <= j < t1.symbols.len() && chars_occur_at(t1.symbols[j].name, symbol_at(), 0)
        implies symbol_names(t3.symbols).contains(#[trigger] renamed_at(t1.symbols[j]).name) by {
        assert(symbol_names(t2.symbols).contains(renamed_at(t1.symbols[j]).name));
    }
}

/// Adding a symbol grows the table by at most one.
proof fn lemma_add_symbol_len(t: TablesView, sym: SymbolView, force: bool)
    ensures
        spec_add_symbol(t, sym, force).0.symbols.len() <= t.symbols.len() + 1,
{
}

/// `n` zero bytes.
pub open spec fn zeros(n: int) -> Seq<u8> {
    Seq::new(n as nat, |i: int| 0u8)
}

/// The padding that brings `off` to a multiple of `1 << align`.
pub open spec fn align_padding(off: int, align: u32) -> int {
    let a = (1u32 << align) as int;
    if off % a != 0 {
        a - off % a
    } else {
        0
    }
}

/// The padding that brings `off` to a multiple of four.
pub open spec fn pad4(off: int) -> int {
    if off % 4 != 0 {
        4 - off % 4
    } else {
        0
    }
}

/// Laying sections out one after another from offset `start`: the sections with
/// `sh_offset` set to where their payload goes, the payloads each followed by the
/// padding its alignment asks for, and the offset reached.
pub open spec fn layout(secs: Seq<SectionView>, start: int) -> (Seq<SectionView>, Seq<u8>, int)
    decreases secs.len(),
{
    if secs.len() == 0 {
        (Seq::empty(), Seq::empty(), start)
    } else {
        let prev = layout(secs.drop_last(), start);
        let s = secs.last();
        let off2 = prev.2 + s.data.len();
        (
            prev.0.push(SectionView { sh_offset: prev.2 as u32, ..s }),
            prev.1 + s.data + zeros(align_padding(off2, s.sh_addralign)),
            off2 + align_padding(off2, s.sh_addralign),
        )
    }
}

/// The packed headers of `secs`, one after another.
pub open spec fn headers_bytes(secs: Seq<SectionView>) -> Seq<u8>
    decreases secs.len(),
{
    if secs.len() == 0 {
        Seq::empty()
    } else {
        headers_bytes(secs.drop_last()) + section_header_bytes(secs.last())
    }
}

/// The 52-byte file header with the given section header offset and count.
pub open spec fn elf_header_bytes(h: ElfHeader, shoff: u32, shnum: u16) -> Seq<u8> {
    h.ident@ + u16_le_bytes(h.e_type) + u16_le_bytes(h.e_machine) + u32_le_bytes(h.e_version)
        + u32_le_bytes(h.e_entry) + u32_le_bytes(h.e_phoff) + u32_le_bytes(shoff) + u32_le_bytes(
        h.e_flags,
    ) + u16_le_bytes(h.e_ehsize) + u16_le_bytes(h.e_phentsize) + u16_le_bytes(h.e_phnum)
        + u16_le_bytes(h.e_shentsize) + u16_le_bytes(shnum) + u16_le_bytes(h.e_shstrndx)
}

/// The symbol table section once its symbols are packed into it.
pub open spec fn packed_symtab(e: Elf) -> SectionView {
    SectionView {
        data: symbols_bytes(symbol_views(e.symtab.symbols@)),
        sh_size: (16 * e.symtab.symbols@.len()) as u32,
        ..e.symtab.section@
    }
}

/// The sections with the three tables written back into their places.
pub open spec fn written_sections(e: Elf) -> Seq<SectionView> {
    section_views(e.sections@).update(e.shstrtab_idx as int, e.shstrtab.section@).update(
        e.strtab_idx as int,
        e.strtab.section@,
    ).update(e.symtab_idx as int, packed_symtab(e))
}

/// The bytes of an object file with header `h` and sections `secs`: the file header,
/// twelve zero bytes, the payloads laid out from offset 64 and padded to a multiple of
/// four, then the section headers.
#[verifier::opaque]
pub open spec fn packed_bytes(h: ElfHeader, secs: Seq<SectionView>) -> Seq<u8> {
    let l = layout(secs, 64);
    let d = l.1 + zeros(pad4(l.2));
    elf_header_bytes(h, (64 + d.len()) as u32, secs.len() as u16) + zeros(12) + d + headers_bytes(
        l.0,
    )
}

/// Whether an object can be packed: the table indices are in range; every section
/// has an alignment exponent below 32 and, unless it is `SHT_NOBITS`, a size equal
/// to its payload's; and the file stays within 32-bit offsets.
pub open spec fn pack_ready(e: Elf) -> bool {
    let secs = written_sections(e);
    &&& e.shstrtab_idx < e.sections@.len()
    &&& e.strtab_idx < e.sections@.len()
    &&& e.symtab_idx < e.sections@.len()
    &&& aligns_ok(secs)
    &&& forall|i: int|
        0 <= i < secs.len() ==> (#[trigger] secs[i]).sh_type != SHT_NOBITS ==> secs[i].sh_size
            == secs[i].data.len()
    &&& layout(secs, 64).2 + pad4(layout(secs, 64).2) <= u32::MAX
}

/// Whether every section's alignment exponent is below 32.
pub open spec fn aligns_ok(secs: Seq<SectionView>) -> bool {
    forall|k: int| 0 <= k < secs.len() ==> (#[trigger] secs[k]).sh_addralign < 32
}

/// The padding for an alignment exponent below 32 is less than the alignment.
pub(crate) proof fn lemma_align_padding(off: int, align: u32)
    requires
        align < 32,
    ensures
        0 <= align_padding(off, align) < (1u32 << align),
{
    lemma_shift_positive(align);
}

/// The layout reaches `start` plus the length of what it lays out, and places
/// one section per input section.
pub(crate) proof fn lemma_layout_len(secs: Seq<SectionView>, start: int)
    requires
        aligns_ok(secs),
    ensures
        layout(secs, start).2 == start + layout(secs, start).1.len(),
        layout(secs, start).0.len() == secs.len(),
        layout(secs, start).2 >= start,
    decreases secs.len(),
{
    if secs.len() > 0 {
        let init = secs.drop_last();
        assert(aligns_ok(init)) by {
            assert forall|k: int| 0 <= k < init.len() implies (#[trigger] init[k]).sh_addralign < 32 by {
                assert(init[k] == secs[k]);
            }
        }
        lemma_layout_len(init, start);
        let s = secs.last();
        let prev = layout(init, start);
        lemma_align_padding(prev.2 + s.data.len(), s.sh_addralign);
    }
}

/// One more section laid out: it goes at the offset reached, followed by its padding.
proof fn lemma_layout_step(w: Seq<SectionView>, i: int)
    requires
        0 <= i < w.len(),
        aligns_ok(w),
    ensures
        ({
            let p = layout(w.take(i), 64);
            let q = layout(w.take(i + 1), 64);
            let pad = align_padding(p.2 + w[i].data.len(), w[i].sh_addralign);
            &&& q.0 == p.0.push(SectionView { sh_offset: p.2 as u32, ..w[i] })
            &&& q.1 == p.1 + w[i].data + zeros(pad)
            &&& q.2 == p.2 + w[i].data.len() + pad
            &&& 0 <= pad < (1u32 << w[i].sh_addralign)
            &&& p.2 == 64 + p.1.len()
            &&& p.0.len() == i
        }),
{
    let next = w.take(i + 1);
    assert(next.drop_last() =~= w.take(i));
    assert(next.last() == w[i]);
    assert(aligns_ok(w.take(i))) by {
        assert forall|k: int| 0 <= k < w.take(i).len() implies (#[trigger] w.take(i)[k]).sh_addralign < 32 by {
            assert(w.take(i)[k] == w[k]);
        }
    }
    lemma_layout_len(w.take(i), 64);
    lemma_align_padding(layout(w.take(i), 64).2 + w[i].data.len(), w[i].sh_addralign);
}

/// Laying out a prefix reaches no further than laying out everything.
proof fn lemma_layout_prefix(secs: Seq<SectionView>, start: int, i: int)
    requires
        0 <= i <= secs.len(),
        aligns_ok(secs),
    ensures
        layout(secs.take(i), start).2 <= layout(secs, start).2,
    decreases secs.len() - i,
{
    if i < secs.len() {
        lemma_layout_prefix(secs, start, i + 1);
        let t = secs.take(i + 1);
        assert(t.drop_last() =~= secs.take(i));
        assert(t.last() == secs[i]);
        lemma_align_padding(layout(secs.take(i), start).2 + secs[i].data.len(), secs[i].sh_addralign);
    } else {
        assert(secs.take(i) =~= secs);
    }
}

/// `1 << a` is positive for `a < 32`.
proof fn lemma_shift_positive(a: u32)
    requires
        a < 32,
    ensures
        (1u32 << a) > 0,
{
    assert((1u32 << a) > 0) by (bit_vector)
        requires
            a < 32,
    ;
}

/// Appends `n` zero bytes.
fn push_zeros(buf: &mut Vec<u8>, n: u32)
    ensures
        final(buf)@ == old(buf)@ + zeros(n as int),
{
    let mut k: u32 = 0;
    while k < n
        invariant
            k <= n,
            buf@ == old(buf)@ + zeros(k as int),
        decreases n - k,
    {
        buf.push(0);
        k += 1;
        assert(buf@ =~= old(buf)@ + zeros(k as int));
    }
}

/// A first index holding a name exists when any index holds it.
pub proof fn lemma_first_name_exists(names: Seq<Seq<char>>, name: Seq<char>, k: int)
    requires
        0 <= k < names.len(),
        names[k] == name,
    ensures
        exists|i: int| is_first_name(names, name, i),
    decreases k,
{
    if exists|j: int| 0 <= j < k && names[j] == name {
        let j = choose|j: int| 0 <= j < k && names[j] == name;
        lemma_first_name_exists(names, name, j);
    } else {
        assert(is_first_name(names, name, k));
    }
}

} // verus!
