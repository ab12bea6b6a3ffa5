//! One entry of an ELF32 symbol table (`Elf32_Sym`, 16 bytes).
use vstd::prelude::*;

use crate::le::{
    lemma_u16_le_roundtrip, lemma_u32_le_roundtrip, push_u16_le, push_u32_le, read_u16_le, read_u32_le,
    spec_u16_le, spec_u32_le, u16_le_bytes, u32_le_bytes, ByteReader,
};

verus! {

/// An `Elf32_Sym` record and the name that its `st_name` points to.
#[derive(Debug, Default, PartialEq)]
pub struct Symbol {
    pub st_name: u32,
    pub st_value: u32,
    pub st_size: u32,
    pub st_info: u8,
    pub st_other: u8,
    pub st_shndx: u16,
    pub name: String,
}

/// The mathematical value of a [`Symbol`]: its record fields and its name as characters.
pub struct SymbolView {
    pub st_name: u32,
    pub st_value: u32,
    pub st_size: u32,
    pub st_info: u8,
    pub st_other: u8,
    pub st_shndx: u16,
    pub name: Seq<char>,
}

impl View for Symbol {
    type V = SymbolView;

    open spec fn view(&self) -> SymbolView {
        SymbolView {
            st_name: self.st_name,
            st_value: self.st_value,
            st_size: self.st_size,
            st_info: self.st_info,
            st_other: self.st_other,
            st_shndx: self.st_shndx,
            name: self.name@,
        }
    }
}

/// Size in bytes of one packed symbol.
pub const SYMBOL_SIZE: usize = 16;

/// The binding of a symbol (the high nibble of `st_info`).
pub open spec fn spec_bind(st_info: u8) -> u8 {
    st_info / 16
}

/// The type of a symbol (the low nibble of `st_info`).
pub open spec fn spec_type_id(st_info: u8) -> u8 {
    st_info % 16
}

/// The 16 bytes of a symbol record, in file order.
pub open spec fn symbol_bytes(s: SymbolView) -> Seq<u8> {
    u32_le_bytes(s.st_name) + u32_le_bytes(s.st_value) + u32_le_bytes(s.st_size) + seq![
        s.st_info,
        s.st_other,
    ] + u16_le_bytes(s.st_shndx)
}

/// The symbol record stored at `pos` in `b`, with an empty name.
pub open spec fn spec_unpack_symbol(b: Seq<u8>, pos: int) -> SymbolView {
    SymbolView {
        st_name: spec_u32_le(b, pos),
        st_value: spec_u32_le(b, pos + 4),
        st_size: spec_u32_le(b, pos + 8),
        st_info: b[pos + 12],
        st_other: b[pos + 13],
        st_shndx: spec_u16_le(b, pos + 14),
        name: Seq::empty(),
    }
}

/// The records packed one after another in `b`, all with empty names.
pub open spec fn spec_unpack_symbols(b: Seq<u8>) -> Seq<SymbolView> {
    Seq::new(b.len() / 16, |i: int| spec_unpack_symbol(b, 16 * i))
}

/// The concatenated records of `syms`.
pub open spec fn symbols_bytes(syms: Seq<SymbolView>) -> Seq<u8>
    decreases syms.len(),
{
    if syms.len() == 0 {
        Seq::empty()
    } else {
        symbols_bytes(syms.drop_last()) + symbol_bytes(syms.last())
    }
}

/// `s` with its name cleared: what survives packing.
pub open spec fn unnamed(s: SymbolView) -> SymbolView {
    SymbolView { name: Seq::empty(), ..s }
}

impl Clone for Symbol {
    fn clone(&self) -> (r: Self)
        ensures
            r == *self,
    {
        Symbol {
            st_name: self.st_name,
            st_value: self.st_value,
            st_size: self.st_size,
            st_info: self.st_info,
            st_other: self.st_other,
            st_shndx: self.st_shndx,
            name: self.name.clone(),
        }
    }
}

impl Symbol {
    /// The binding: local (0), global (1) or weak (2).
    pub fn bind(&self) -> (b: u8)
        ensures
            b == spec_bind(self.st_info),
    {
        self.st_info / 16
    }

    /// The symbol type, such as `STT_FUNC` (2).
    pub fn type_id(&self) -> (t: u8)
        ensures
            t == spec_type_id(self.st_info),
    {
        self.st_info % 16
    }

    /// Appends the 16-byte record to `buf`.
    pub fn pack_into(&self, buf: &mut Vec<u8>)
        ensures
            final(buf)@ == old(buf)@ + symbol_bytes(self@),
    {
        push_u32_le(buf, self.st_name);
        push_u32_le(buf, self.st_value);
        push_u32_le(buf, self.st_size);
        buf.push(self.st_info);
        buf.push(self.st_other);
        push_u16_le(buf, self.st_shndx);
        assert(buf@ =~= old(buf)@ + symbol_bytes(self@));
    }

    /// The 16-byte record.
    pub fn pack(&self) -> (r: Vec<u8>)
        ensures
            r@ == symbol_bytes(self@),
    {
        let mut buf: Vec<u8> = Vec::with_capacity(16);
        self.pack_into(&mut buf);
        assert(buf@ =~= symbol_bytes(self@));
        buf
    }

    /// Reads the record at `pos` in `data`; the name is left empty.
    pub fn unpack_at(data: &[u8], pos: usize) -> (s: Self)
        requires
            pos + 16 <= data@.len(),
        ensures
            s@ == spec_unpack_symbol(data@, pos as int),
    {
        let mut rdr = ByteReader { data, pos };
        let st_name = read_u32_le(&mut rdr);
        let st_value = read_u32_le(&mut rdr);
        let st_size = read_u32_le(&mut rdr);
        let st_info = data[pos + 12];
        let st_other = data[pos + 13];
        rdr.pos = pos + 14;
        let st_shndx = read_u16_le(&mut rdr);
        let s = Symbol { st_name, st_value, st_size, st_info, st_other, st_shndx, name: String::new() };
        assert(s@.name =~= Seq::<char>::empty());
        s
    }

    /// Reads the record at the start of `data`; the name is left empty.
    pub fn unpack(data: &[u8]) -> (s: Self)
        requires
            16 <= data@.len(),
        ensures
            s@ == spec_unpack_symbol(data@, 0),
    {
        Self::unpack_at(data, 0)
    }

    /// Reads consecutive 16-byte records; the names are left empty.
    pub fn unpack_all(data: &[u8]) -> (v: Vec<Self>)
        requires
            data@.len() % 16 == 0,
        ensures
            v@.map_values(|s: Symbol| s@) == spec_unpack_symbols(data@),
    {
        let len = data.len();
        let n = len / 16;
        let mut v: Vec<Symbol> = Vec::with_capacity(n);
        let mut i: usize = 0;
        while i < n
            invariant
                len == data@.len(),
                n == data@.len() / 16,
                data@.len() % 16 == 0,
                i <= n,
                v@.len() == i,
                forall|j: int| 0 <= j < i ==> #[trigger] v@[j]@ == spec_unpack_symbol(data@, 16 * j),
            decreases n - i,
        {
            assert(16 * i + 16 <= data@.len()) by (nonlinear_arith)
                requires
                    i < n,
                    n == data@.len() / 16,
                    data@.len() % 16 == 0,
            ;
            let s = Self::unpack_at(data, 16 * i);
            v.push(s);
            i += 1;
        }
        assert(v@.map_values(|s: Symbol| s@) =~= spec_unpack_symbols(data@));
        v
    }
}

/// Packing records one after another and unpacking them gives the records back, names aside.
pub proof fn lemma_symbols_roundtrip(syms: Seq<SymbolView>)
    ensures
        symbols_bytes(syms).len() == 16 * syms.len(),
        spec_unpack_symbols(symbols_bytes(syms)) == syms.map_values(|s: SymbolView| unnamed(s)),
    decreases syms.len(),
{
    if syms.len() > 0 {
        let init = syms.drop_last();
        lemma_symbols_roundtrip(init);
        let b = symbols_bytes(syms);
        let bi = symbols_bytes(init);
        let s = syms.last();
        assert(b == bi + symbol_bytes(s));
        assert forall|j: int| 0 <= j < syms.len() implies #[trigger] spec_unpack_symbol(b, 16 * j)
            == unnamed(syms[j]) by {
            if j < init.len() {
                assert(spec_unpack_symbols(bi)[j] == unnamed(init[j]));
                assert(spec_unpack_symbol(bi, 16 * j) == unnamed(init[j]));
                assert forall|k: int| 16 * j <= k < 16 * j + 16 implies b[k] == bi[k] by {
                    assert(16 * j + 16 <= bi.len()) by (nonlinear_arith)
                        requires
                            j < init.len(),
                            bi.len() == 16 * init.len(),
                    ;
                }
            } else {
                assert(j == init.len());
                let sb = symbol_bytes(s);
                assert(b.subrange(16 * j, 16 * j + 4) =~= u32_le_bytes(s.st_name));
                assert(b.subrange(16 * j + 4, 16 * j + 8) =~= u32_le_bytes(s.st_value));
                assert(b.subrange(16 * j + 8, 16 * j + 12) =~= u32_le_bytes(s.st_size));
                assert(b.subrange(16 * j + 14, 16 * j + 16) =~= u16_le_bytes(s.st_shndx));
                lemma_u32_le_roundtrip(s.st_name, b, 16 * j);
                lemma_u32_le_roundtrip(s.st_value, b, 16 * j + 4);
                lemma_u32_le_roundtrip(s.st_size, b, 16 * j + 8);
                lemma_u16_le_roundtrip(s.st_shndx, b, 16 * j + 14);
                assert(b[16 * j + 12] == sb[12]);
                assert(b[16 * j + 13] == sb[13]);
            }
        }
        assert(b.len() / 16 == syms.len()) by (nonlinear_arith)
            requires
                b.len() == 16 * syms.len(),
        ;
        assert(spec_unpack_symbols(b) =~= syms.map_values(|s: SymbolView| unnamed(s)));
    }
}

} // verus!
