//! Section headers, section payloads and relocation records.
use vstd::prelude::*;

use super::strtab::StrTab;
use super::symtab::SymTab;
use crate::le::{
    lemma_u32_le_roundtrip, push_u32_le, read_u32_le, spec_u32_le, u32_le_bytes, ByteReader,
};

verus! {

// ELF section types (sh_type)
pub const SHT_SYMTAB: u32 = 2;

pub const SHT_STRTAB: u32 = 3;

pub const SHT_RELA: u32 = 4;

pub const SHT_NOBITS: u32 = 8;

pub const SHT_REL: u32 = 9;

/// Size in bytes of one packed section header (10 fields of 4 bytes).
pub const SECTION_HEADER_SIZE: usize = 40;

/// An `Elf32_Shdr` together with the section's bytes and its name.
#[derive(Debug, Default, PartialEq)]
pub struct Section {
    pub sh_name: u32,
    pub sh_type: u32,
    pub sh_flags: u32,
    pub sh_addr: u32,
    pub sh_offset: u32,
    pub sh_size: u32,
    pub sh_link: u32,
    pub sh_info: u32,
    pub sh_addralign: u32,
    pub sh_entsize: u32,
    pub data: Vec<u8>,
    pub name: String,
}

/// The mathematical value of a [`Section`].
pub struct SectionView {
    pub sh_name: u32,
    pub sh_type: u32,
    pub sh_flags: u32,
    pub sh_addr: u32,
    pub sh_offset: u32,
    pub sh_size: u32,
    pub sh_link: u32,
    pub sh_info: u32,
    pub sh_addralign: u32,
    pub sh_entsize: u32,
    pub data: Seq<u8>,
    pub name: Seq<char>,
}

impl View for Section {
    type V = SectionView;

    open spec fn view(&self) -> SectionView {
        SectionView {
            sh_name: self.sh_name,
            sh_type: self.sh_type,
            sh_flags: self.sh_flags,
            sh_addr: self.sh_addr,
            sh_offset: self.sh_offset,
            sh_size: self.sh_size,
            sh_link: self.sh_link,
            sh_info: self.sh_info,
            sh_addralign: self.sh_addralign,
            sh_entsize: self.sh_entsize,
            data: self.data@,
            name: self.name@,
        }
    }
}

/// The size written into a packed header: the payload length, except for
/// `SHT_NOBITS` sections, which keep their recorded size.
pub open spec fn header_size_field(s: SectionView) -> u32 {
    if s.sh_type != SHT_NOBITS {
        s.data.len() as u32
    } else {
        s.sh_size
    }
}

/// The 40 bytes of a packed section header.
pub open spec fn section_header_bytes(s: SectionView) -> Seq<u8> {
    u32_le_bytes(s.sh_name) + u32_le_bytes(s.sh_type) + u32_le_bytes(s.sh_flags) + u32_le_bytes(
        s.sh_addr,
    ) + u32_le_bytes(s.sh_offset) + u32_le_bytes(header_size_field(s)) + u32_le_bytes(s.sh_link)
        + u32_le_bytes(s.sh_info) + u32_le_bytes(s.sh_addralign) + u32_le_bytes(s.sh_entsize)
}

/// Whether a section header can be read at `pos` in `b`: the header lies in `b`,
/// and so does the payload it points to unless it is `SHT_NOBITS`.
pub open spec fn section_readable(b: Seq<u8>, pos: int) -> bool {
    &&& 0 <= pos
    &&& pos + 40 <= b.len()
    &&& spec_u32_le(b, pos + 4) != SHT_NOBITS ==> spec_u32_le(b, pos + 16) as int + spec_u32_le(
        b,
        pos + 20,
    ) as int <= b.len()
}

/// The section whose header is at `pos` in `b`: the header fields, the payload at
/// `sh_offset` of `sh_size` bytes (none for `SHT_NOBITS`), and an empty name.
pub open spec fn spec_section_at(b: Seq<u8>, pos: int) -> SectionView {
    let sh_type = spec_u32_le(b, pos + 4);
    let sh_offset = spec_u32_le(b, pos + 16);
    let sh_size = spec_u32_le(b, pos + 20);
    SectionView {
        sh_name: spec_u32_le(b, pos),
        sh_type,
        sh_flags: spec_u32_le(b, pos + 8),
        sh_addr: spec_u32_le(b, pos + 12),
        sh_offset,
        sh_size,
        sh_link: spec_u32_le(b, pos + 24),
        sh_info: spec_u32_le(b, pos + 28),
        sh_addralign: spec_u32_le(b, pos + 32),
        sh_entsize: spec_u32_le(b, pos + 36),
        data: if sh_type != SHT_NOBITS {
            b.subrange(sh_offset as int, sh_offset + sh_size)
        } else {
            Seq::empty()
        },
        name: Seq::empty(),
    }
}

/// A section with its header fields and payload set and an empty name.
pub open spec fn spec_new_section(
    sh_name: u32,
    sh_type: u32,
    sh_flags: u32,
    sh_addr: u32,
    sh_offset: u32,
    sh_size: u32,
    sh_link: u32,
    sh_info: u32,
    sh_addralign: u32,
    sh_entsize: u32,
    data: Seq<u8>,
) -> SectionView {
    SectionView {
        sh_name,
        sh_type,
        sh_flags,
        sh_addr,
        sh_offset,
        sh_size,
        sh_link,
        sh_info,
        sh_addralign,
        sh_entsize,
        data,
        name: Seq::empty(),
    }
}

/// A copy of the bytes of `v`.
pub fn copy_bytes(v: &Vec<u8>) -> (r: Vec<u8>)
    ensures
        r@ == v@,
{
    let r = v.clone();
    assert(r@ =~= v@);
    r
}

impl Clone for Section {
    fn clone(&self) -> (r: Self)
        ensures
            r@ == self@,
    {
        Section {
            sh_name: self.sh_name,
            sh_type: self.sh_type,
            sh_flags: self.sh_flags,
            sh_addr: self.sh_addr,
            sh_offset: self.sh_offset,
            sh_size: self.sh_size,
            sh_link: self.sh_link,
            sh_info: self.sh_info,
            sh_addralign: self.sh_addralign,
            sh_entsize: self.sh_entsize,
            data: copy_bytes(&self.data),
            name: self.name.clone(),
        }
    }
}

impl Section {
    /// A section with the given header fields and payload and an empty name.
    #[allow(clippy::too_many_arguments)]
    pub fn new(
        sh_name: u32,
        sh_type: u32,
        sh_flags: u32,
        sh_addr: u32,
        sh_offset: u32,
        sh_size: u32,
        sh_link: u32,
        sh_info: u32,
        sh_addralign: u32,
        sh_entsize: u32,
        data: Vec<u8>,
    ) -> (s: Self)
        ensures
            s@ == spec_new_section(
                sh_name,
                sh_type,
                sh_flags,
                sh_addr,
                sh_offset,
                sh_size,
                sh_link,
                sh_info,
                sh_addralign,
                sh_entsize,
                data@,
            ),
    {
        let s = Self {
            sh_name,
            sh_type,
            sh_flags,
            sh_addr,
            sh_offset,
            sh_size,
            sh_link,
            sh_info,
            sh_addralign,
            sh_entsize,
            data,
            name: String::new(),
        };
        assert(s@.name =~= Seq::<char>::empty());
        s
    }

    /// The 40-byte section header. The size field is the payload length,
    /// except for `SHT_NOBITS` sections, which keep `sh_size`.
    pub fn pack_header(&self) -> (buf: Vec<u8>)
        ensures
            buf@ == section_header_bytes(self@),
    {
        let mut buf: Vec<u8> = Vec::with_capacity(SECTION_HEADER_SIZE);
        push_u32_le(&mut buf, self.sh_name);
        push_u32_le(&mut buf, self.sh_type);
        push_u32_le(&mut buf, self.sh_flags);
        push_u32_le(&mut buf, self.sh_addr);
        push_u32_le(&mut buf, self.sh_offset);
        if self.sh_type != SHT_NOBITS {
            #[verifier::truncate]
            let len = self.data.len() as u32;
            push_u32_le(&mut buf, len);
        } else {
            push_u32_le(&mut buf, self.sh_size);
        }
        push_u32_le(&mut buf, self.sh_link);
        push_u32_le(&mut buf, self.sh_info);
        push_u32_le(&mut buf, self.sh_addralign);
        push_u32_le(&mut buf, self.sh_entsize);
        assert(buf@ =~= section_header_bytes(self@));
        buf
    }

    /// A copy of the section's payload.
    pub fn pack_data(&self) -> (r: Vec<u8>)
        ensures
            r@ == self.data@,
    {
        copy_bytes(&self.data)
    }

    /// The packed header and a copy of the payload.
    pub fn pack(&self) -> (r: (Vec<u8>, Vec<u8>))
        ensures
            r.0@ == section_header_bytes(self@),
            r.1@ == self.data@,
    {
        (self.pack_header(), self.pack_data())
    }

    /// Reads the header at the reader's position and, unless the section is
    /// `SHT_NOBITS`, the `sh_size` payload bytes at `sh_offset`. The name is left empty.
    /// The reader is left just after the header for an `SHT_NOBITS` section, and just
    /// after the payload otherwise.
    pub fn unpack(rdr: &mut ByteReader) -> (s: Self)
        requires
            section_readable(old(rdr).data@, old(rdr).pos as int),
        ensures
            s@ == spec_section_at(old(rdr).data@, old(rdr).pos as int),
            final(rdr).data@ == old(rdr).data@,
            final(rdr).pos == if spec_u32_le(old(rdr).data@, old(rdr).pos + 4) == SHT_NOBITS {
                old(rdr).pos + 40
            } else {
                spec_u32_le(old(rdr).data@, old(rdr).pos + 16) + spec_u32_le(
                    old(rdr).data@,
                    old(rdr).pos + 20,
                )
            },
    {
        let ghost b = rdr.data@;
        let ghost pos = rdr.pos as int;
        let sh_name = read_u32_le(rdr);
        let sh_type = read_u32_le(rdr);
        let sh_flags = read_u32_le(rdr);
        let sh_addr = read_u32_le(rdr);
        let sh_offset = read_u32_le(rdr);
        let sh_size = read_u32_le(rdr);
        let sh_link = read_u32_le(rdr);
        let sh_info = read_u32_le(rdr);
        let sh_addralign = read_u32_le(rdr);
        let sh_entsize = read_u32_le(rdr);

        let mut data: Vec<u8> = Vec::new();
        if sh_type != SHT_NOBITS {
            rdr.set_position(sh_offset as usize);
            data = rdr.read_bytes(sh_size as usize);
        }
        let s = Self {
            sh_name,
            sh_type,
            sh_flags,
            sh_addr,
            sh_offset,
            sh_size,
            sh_link,
            sh_info,
            sh_addralign,
            sh_entsize,
            data,
            name: String::new(),
        };
        assert(s@ =~= spec_section_at(b, pos));
        s
    }
}

/// Unpacking a packed header reads back every field; the payload read is the one
/// stored at `sh_offset` (none for `SHT_NOBITS`), and the name is empty.
pub proof fn lemma_section_header_roundtrip(s: SectionView, b: Seq<u8>, pos: int)
    requires
        0 <= pos,
        pos + 40 <= b.len(),
        b.subrange(pos, pos + 40) == section_header_bytes(s),
        s.sh_type != SHT_NOBITS ==> {
            &&& s.sh_size as int == s.data.len()
            &&& s.sh_offset + s.data.len() <= b.len()
            &&& b.subrange(s.sh_offset as int, s.sh_offset + s.data.len()) == s.data
        },
    ensures
        section_readable(b, pos),
        spec_section_at(b, pos) == (SectionView {
            data: if s.sh_type != SHT_NOBITS { s.data } else { Seq::empty() },
            name: Seq::empty(),
            ..s
        }),
{
    let h = section_header_bytes(s);
    assert forall|k: int| 0 <= k < 10 implies #[trigger] b.subrange(pos + 4 * k, pos + 4 * k + 4)
        == h.subrange(4 * k, 4 * k + 4) by {
        assert(b.subrange(pos + 4 * k, pos + 4 * k + 4) =~= h.subrange(4 * k, 4 * k + 4));
    }
    assert(h.subrange(0, 4) =~= u32_le_bytes(s.sh_name));
    assert(h.subrange(4, 8) =~= u32_le_bytes(s.sh_type));
    assert(h.subrange(8, 12) =~= u32_le_bytes(s.sh_flags));
    assert(h.subrange(12, 16) =~= u32_le_bytes(s.sh_addr));
    assert(h.subrange(16, 20) =~= u32_le_bytes(s.sh_offset));
    assert(h.subrange(20, 24) =~= u32_le_bytes(header_size_field(s)));
    assert(h.subrange(24, 28) =~= u32_le_bytes(s.sh_link));
    assert(h.subrange(28, 32) =~= u32_le_bytes(s.sh_info));
    assert(h.subrange(32, 36) =~= u32_le_bytes(s.sh_addralign));
    assert(h.subrange(36, 40) =~= u32_le_bytes(s.sh_entsize));
    assert(b.subrange(pos + 4 * 0, pos + 4 * 0 + 4) == h.subrange(0, 4));
    assert(b.subrange(pos + 4 * 1, pos + 4 * 1 + 4) == h.subrange(4, 8));
    assert(b.subrange(pos + 4 * 2, pos + 4 * 2 + 4) == h.subrange(8, 12));
    assert(b.subrange(pos + 4 * 3, pos + 4 * 3 + 4) == h.subrange(12, 16));
    assert(b.subrange(pos + 4 * 4, pos + 4 * 4 + 4) == h.subrange(16, 20));
    assert(b.subrange(pos + 4 * 5, pos + 4 * 5 + 4) == h.subrange(20, 24));
    assert(b.subrange(pos + 4 * 6, pos + 4 * 6 + 4) == h.subrange(24, 28));
    assert(b.subrange(pos + 4 * 7, pos + 4 * 7 + 4) == h.subrange(28, 32));
    assert(b.subrange(pos + 4 * 8, pos + 4 * 8 + 4) == h.subrange(32, 36));
    assert(b.subrange(pos + 4 * 9, pos + 4 * 9 + 4) == h.subrange(36, 40));
    lemma_u32_le_roundtrip(s.sh_name, b, pos);
    lemma_u32_le_roundtrip(s.sh_type, b, pos + 4);
    lemma_u32_le_roundtrip(s.sh_flags, b, pos + 8);
    lemma_u32_le_roundtrip(s.sh_addr, b, pos + 12);
    lemma_u32_le_roundtrip(s.sh_offset, b, pos + 16);
    lemma_u32_le_roundtrip(header_size_field(s), b, pos + 20);
    lemma_u32_le_roundtrip(s.sh_link, b, pos + 24);
    lemma_u32_le_roundtrip(s.sh_info, b, pos + 28);
    lemma_u32_le_roundtrip(s.sh_addralign, b, pos + 32);
    lemma_u32_le_roundtrip(s.sh_entsize, b, pos + 36);
    assert(spec_section_at(b, pos) =~= (SectionView {
        data: if s.sh_type != SHT_NOBITS { s.data } else { Seq::empty() },
        name: Seq::empty(),
        ..s
    }));
}


/// An executable section and the function it holds.
#[derive(Debug, Default)]
pub struct TextSection {
    pub section: Section,
    pub function_name: String,
}

impl TextSection {
    /// Wraps `section`; the function name is left empty.
    pub fn from_section(section: Section) -> (t: Self)
        ensures
            t.section@ == section@,
            t.function_name@ == Seq::<char>::empty(),
    {
        Self { section, function_name: String::new() }
    }

    /// The packed header and payload of the section.
    pub fn pack(&self) -> (r: (Vec<u8>, Vec<u8>))
        ensures
            r.0@ == section_header_bytes(self.section@),
            r.1@ == self.section.data@,
    {
        self.section.pack()
    }
}

/// A `SHT_NOBITS` section: it has a header but no bytes in the file.
#[derive(Debug, Default, PartialEq)]
pub struct BssSection {
    pub section: Section,
}

impl BssSection {
    /// Wraps `section`.
    pub fn from_section(section: Section) -> (b: Self)
        ensures
            b.section@ == section@,
    {
        Self { section }
    }

    /// Always empty: such a section occupies no space in the file.
    pub fn pack_data(&self) -> (r: Vec<u8>)
        ensures
            r@ == Seq::<u8>::empty(),
    {
        Vec::new()
    }

    /// The packed header and an empty payload.
    pub fn pack(&self) -> (r: (Vec<u8>, Vec<u8>))
        ensures
            r.0@ == section_header_bytes(self.section@),
            r.1@ == Seq::<u8>::empty(),
    {
        let header = self.section.pack_header();
        let data = self.pack_data();
        (header, data)
    }
}

/// Size in bytes of one packed relocation (`Elf32_Rel`).
pub const RELOCATION_SIZE: usize = 8;

/// An `Elf32_Rel` entry and the name of the symbol it refers to, where known.
#[derive(Debug, Default, PartialEq)]
pub struct Relocation {
    pub r_offset: u32,
    pub r_info: u32,
    pub symbol: String,
}

/// The symbol index of a relocation (`r_info >> 8`).
pub open spec fn spec_symbol_index(r_info: u32) -> u32 {
    r_info / 256
}

/// The relocation type (`r_info & 0xff`).
pub open spec fn spec_reloc_type(r_info: u32) -> u32 {
    r_info % 256
}

/// The mathematical value of a [`Relocation`].
pub struct RelocationView {
    pub r_offset: u32,
    pub r_info: u32,
    pub symbol: Seq<char>,
}

impl View for Relocation {
    type V = RelocationView;

    open spec fn view(&self) -> RelocationView {
        RelocationView { r_offset: self.r_offset, r_info: self.r_info, symbol: self.symbol@ }
    }
}

/// The 8 bytes of a packed relocation.
pub open spec fn relocation_bytes(r: RelocationView) -> Seq<u8> {
    u32_le_bytes(r.r_offset) + u32_le_bytes(r.r_info)
}

/// The relocation whose entry is at `pos` in `b`, with no symbol name.
pub open spec fn spec_relocation_at(b: Seq<u8>, pos: int) -> RelocationView {
    RelocationView {
        r_offset: spec_u32_le(b, pos),
        r_info: spec_u32_le(b, pos + 4),
        symbol: Seq::empty(),
    }
}

/// The relocations packed one after another in `b`, all without symbol names.
pub open spec fn spec_unpack_relocations(b: Seq<u8>) -> Seq<RelocationView> {
    Seq::new(b.len() / 8, |i: int| spec_relocation_at(b, 8 * i))
}

/// The concatenated entries of `rs`.
pub open spec fn relocations_bytes(rs: Seq<RelocationView>) -> Seq<u8>
    decreases rs.len(),
{
    if rs.len() == 0 {
        Seq::empty()
    } else {
        relocations_bytes(rs.drop_last()) + relocation_bytes(rs.last())
    }
}

/// `r` without its symbol name: what survives packing.
pub open spec fn without_symbol(r: RelocationView) -> RelocationView {
    RelocationView { symbol: Seq::empty(), ..r }
}

/// The views of a vector of relocations.
pub open spec fn relocation_views(v: Seq<Relocation>) -> Seq<RelocationView> {
    v.map_values(|r: Relocation| r@)
}

impl Clone for Relocation {
    fn clone(&self) -> (r: Self)
        ensures
            r == *self,
    {
        Relocation { r_offset: self.r_offset, r_info: self.r_info, symbol: self.symbol.clone() }
    }
}

impl Relocation {
    /// The index of the symbol this relocation refers to.
    pub fn symbol_index(&self) -> (i: usize)
        ensures
            i == spec_symbol_index(self.r_info),
    {
        (self.r_info / 256) as usize
    }

    /// Points the relocation at symbol `index`, keeping its type.
    /// Indices must fit in 24 bits.
    pub fn set_symbol_index(&mut self, index: u32)
        requires
            index <= 0xFFFFFF,
        ensures
            final(self).r_info == index * 256 + spec_reloc_type(old(self).r_info),
            spec_symbol_index(final(self).r_info) == index,
            spec_reloc_type(final(self).r_info) == spec_reloc_type(old(self).r_info),
            final(self).r_offset == old(self).r_offset,
            final(self).symbol == old(self).symbol,
    {
        let t = self.type_id();
        self.r_info = index * 256 + t;
    }

    /// The relocation type.
    pub fn type_id(&self) -> (t: u32)
        ensures
            t == spec_reloc_type(self.r_info),
    {
        self.r_info % 256
    }

    /// Appends the 8-byte entry to `buf`.
    pub fn pack_into(&self, buf: &mut Vec<u8>)
        ensures
            final(buf)@ == old(buf)@ + relocation_bytes(self@),
    {
        push_u32_le(buf, self.r_offset);
        push_u32_le(buf, self.r_info);
        assert(buf@ =~= old(buf)@ + relocation_bytes(self@));
    }

    /// The 8-byte entry.
    pub fn pack(&self) -> (r: Vec<u8>)
        ensures
            r@ == relocation_bytes(self@),
    {
        let mut buf: Vec<u8> = Vec::with_capacity(RELOCATION_SIZE);
        self.pack_into(&mut buf);
        assert(buf@ =~= relocation_bytes(self@));
        buf
    }

    /// Reads the entry at `pos` in `data`, with no symbol name.
    pub fn unpack_at(data: &[u8], pos: usize) -> (r: Self)
        requires
            pos + 8 <= data@.len(),
        ensures
            r@ == spec_relocation_at(data@, pos as int),
    {
        let mut rdr = ByteReader { data, pos };
        let r_offset = read_u32_le(&mut rdr);
        let r_info = read_u32_le(&mut rdr);
        let r = Self { r_offset, r_info, symbol: String::new() };
        assert(r@ =~= spec_relocation_at(data@, pos as int));
        r
    }

    /// Reads the entry at the start of `data`, with no symbol name.
    pub fn unpack(data: &[u8]) -> (r: Self)
        requires
            8 <= data@.len(),
        ensures
            r@ == spec_relocation_at(data@, 0),
    {
        Self::unpack_at(data, 0)
    }

    /// Reads consecutive 8-byte entries, with no symbol names.
    pub fn unpack_all(data: &[u8]) -> (v: Vec<Self>)
        requires
            data@.len() % 8 == 0,
        ensures
            relocation_views(v@) == spec_unpack_relocations(data@),
    {
        let len = data.len();
        let n = len / 8;
        let mut v: Vec<Relocation> = Vec::with_capacity(n);
        let mut i: usize = 0;
        while i < n
            invariant
                len == data@.len(),
                n == data@.len() / 8,
                data@.len() % 8 == 0,
                i <= n,
                v@.len() == i,
                forall|j: int| 0 <= j < i ==> #[trigger] v@[j]@ == spec_relocation_at(data@, 8 * j),
            decreases n - i,
        {
            assert(8 * i + 8 <= data@.len()) by (nonlinear_arith)
                requires
                    i < n,
                    n == data@.len() / 8,
                    data@.len() % 8 == 0,
            ;
            let r = Self::unpack_at(data, 8 * i);
            v.push(r);
            i += 1;
        }
        assert(relocation_views(v@) =~= spec_unpack_relocations(data@));
        v
    }
}

/// Packing relocations one after another and unpacking them gives them back, names aside.
pub proof fn lemma_relocations_roundtrip(rs: Seq<RelocationView>)
    ensures
        relocations_bytes(rs).len() == 8 * rs.len(),
        spec_unpack_relocations(relocations_bytes(rs)) == rs.map_values(
            |r: RelocationView| without_symbol(r),
        ),
    decreases rs.len(),
{
    if rs.len() > 0 {
        let init = rs.drop_last();
        lemma_relocations_roundtrip(init);
        let b = relocations_bytes(rs);
        let bi = relocations_bytes(init);
        let r = rs.last();
        assert(b == bi + relocation_bytes(r));
        assert forall|j: int| 0 <= j < rs.len() implies #[trigger] spec_relocation_at(b, 8 * j)
            == without_symbol(rs[j]) by {
            if j < init.len() {
                assert(spec_unpack_relocations(bi)[j] == without_symbol(init[j]));
                assert forall|k: int| 8 * j <= k < 8 * j + 8 implies b[k] == bi[k] by {
                    assert(8 * j + 8 <= bi.len()) by (nonlinear_arith)
                        requires
                            j < init.len(),
                            bi.len() == 8 * init.len(),
                    ;
                }
            } else {
                assert(b.subrange(8 * j, 8 * j + 4) =~= u32_le_bytes(r.r_offset));
                assert(b.subrange(8 * j + 4, 8 * j + 8) =~= u32_le_bytes(r.r_info));
                lemma_u32_le_roundtrip(r.r_offset, b, 8 * j);
                lemma_u32_le_roundtrip(r.r_info, b, 8 * j + 4);
            }
        }
        assert(b.len() / 8 == rs.len()) by (nonlinear_arith)
            requires
                b.len() == 8 * rs.len(),
        ;
        assert(spec_unpack_relocations(b) =~= rs.map_values(|r: RelocationView| without_symbol(r)));
    }
}

/// A `SHT_REL` section and the relocations parsed from it.
#[derive(Debug, Default, PartialEq)]
pub struct RelocationRecord {
    pub section: Section,
    pub relocations: Vec<Relocation>,
}

impl RelocationRecord {
    /// Parses the section's payload into relocations.
    pub fn new(section: Section) -> (r: Self)
        requires
            section.data@.len() % 8 == 0,
        ensures
            r.section@ == section@,
            relocation_views(r.relocations@) == spec_unpack_relocations(section.data@),
    {
        let relocations = Relocation::unpack_all(section.data.as_slice());
        Self { section, relocations }
    }

    /// Writes the relocations back into the section's payload and size,
    /// and returns the payload.
    pub fn pack_data(&mut self) -> (r: &[u8])
        ensures
            final(self).relocations@ == old(self).relocations@,
            final(self).section@ == (SectionView {
                data: relocations_bytes(relocation_views(old(self).relocations@)),
                sh_size: (8 * old(self).relocations@.len()) as u32,
                ..old(self).section@
            }),
            r@ == relocations_bytes(relocation_views(old(self).relocations@)),
    {
        let mut buf: Vec<u8> = Vec::new();
        let n = self.relocations.len();
        let mut i: usize = 0;
        while i < n
            invariant
                n == self.relocations@.len(),
                i <= n,
                buf@ == relocations_bytes(relocation_views(self.relocations@.subrange(0, i as int))),
            decreases n - i,
        {
            self.relocations[i].pack_into(&mut buf);
            proof {
                let vs = relocation_views(self.relocations@.subrange(0, i + 1));
                assert(vs.drop_last() =~= relocation_views(self.relocations@.subrange(0, i as int)));
            }
            i += 1;
        }
        assert(self.relocations@.subrange(0, n as int) =~= self.relocations@);
        proof {
            lemma_relocations_roundtrip(relocation_views(self.relocations@));
        }
        #[verifier::truncate]
        let size = buf.len() as u32;
        self.section.sh_size = size;
        self.section.data = buf;
        self.section.data.as_slice()
    }

    /// Writes the relocations back into the section and returns its packed header and payload.
    pub fn pack(&mut self) -> (r: (Vec<u8>, Vec<u8>))
        ensures
            final(self).relocations@ == old(self).relocations@,
            final(self).section@ == (SectionView {
                data: relocations_bytes(relocation_views(old(self).relocations@)),
                sh_size: (8 * old(self).relocations@.len()) as u32,
                ..old(self).section@
            }),
            r.0@ == section_header_bytes(final(self).section@),
            r.1@ == final(self).section.data@,
    {
        let data = vstd::slice::slice_to_vec(self.pack_data());
        let header = self.section.pack_header();
        (header, data)
    }

    /// Appends a relocation.
    pub fn add_relocation(&mut self, rel: Relocation)
        ensures
            final(self).relocations@ == old(self).relocations@.push(rel),
            final(self).section@ == old(self).section@,
    {
        self.relocations.push(rel);
    }
}


/// A section seen through the structure its type gives it.
#[derive(Debug)]
pub enum SectionVariant {
    Raw(Section),
    SymTab(SymTab),
    StrTab(StrTab),
    Rel(RelocationRecord),
    Bss(BssSection),
    Text(TextSection),
}

/// The plain section inside a variant.
pub open spec fn variant_section(v: SectionVariant) -> SectionView {
    match v {
        SectionVariant::Raw(s) => s@,
        SectionVariant::Bss(s) => s.section@,
        SectionVariant::SymTab(s) => s.section@,
        SectionVariant::StrTab(s) => s.section@,
        SectionVariant::Rel(s) => s.section@,
        SectionVariant::Text(s) => s.section@,
    }
}

impl SectionVariant {
    /// The plain section inside the variant, for changing it in place.
    pub fn as_section_mut(&mut self) -> (r: &mut Section)
        ensures
            r@ == variant_section(*old(self)),
            variant_section(*final(self)) == final(r)@,
            (*final(self) is Raw) == (*old(self) is Raw),
            (*final(self) is Bss) == (*old(self) is Bss),
            (*final(self) is SymTab) == (*old(self) is SymTab),
            (*final(self) is StrTab) == (*old(self) is StrTab),
            (*final(self) is Rel) == (*old(self) is Rel),
            (*final(self) is Text) == (*old(self) is Text),
    {
        match self {
            SectionVariant::Raw(s) => s,
            SectionVariant::Bss(s) => &mut s.section,
            SectionVariant::SymTab(s) => &mut s.section,
            SectionVariant::StrTab(s) => &mut s.section,
            SectionVariant::Rel(s) => &mut s.section,
            SectionVariant::Text(s) => &mut s.section,
        }
    }

    /// The packed header and payload, as the variant's own `pack` produces them.
    pub fn pack(&mut self) -> (r: (Vec<u8>, Vec<u8>))
        ensures
            r.0@ == section_header_bytes(variant_section(*final(self))),
            (*final(self) is Bss) ==> r.1@ == Seq::<u8>::empty(),
            !(*final(self) is Bss) ==> r.1@ == variant_section(*final(self)).data,
    {
        match self {
            SectionVariant::Raw(s) => s.pack(),
            SectionVariant::Bss(s) => s.pack(),
            SectionVariant::SymTab(s) => s.pack(),
            SectionVariant::StrTab(s) => s.pack(),
            SectionVariant::Rel(s) => s.pack(),
            SectionVariant::Text(s) => s.pack(),
        }
    }

    /// Symbol tables and string tables get their own structure; any other section stays raw.
    pub fn wrap(section: Section) -> (v: Self)
        requires
            section.sh_type == SHT_SYMTAB ==> section.data@.len() % 16 == 0,
        ensures
            section.sh_type == SHT_SYMTAB ==> v is SymTab,
            section.sh_type == SHT_STRTAB ==> v is StrTab,
            section.sh_type != SHT_SYMTAB && section.sh_type != SHT_STRTAB ==> v is Raw,
            variant_section(v) == section@,
            v matches SectionVariant::SymTab(t) ==> super::symtab::symbol_views(t.symbols@)
                == super::symbol::spec_unpack_symbols(section.data@),
    {
        if section.sh_type == SHT_SYMTAB {
            Self::SymTab(SymTab::new(section))
        } else if section.sh_type == SHT_STRTAB {
            Self::StrTab(StrTab::new(section))
        } else {
            Self::Raw(section)
        }
    }
}

} // verus!
