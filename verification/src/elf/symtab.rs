//! A symbol table section and the symbols parsed from it.
use vstd::prelude::*;

use super::section::{section_header_bytes, Section, SectionView};
use super::strtab::{name_at, str_at, StrTab};
use vstd::utf8::*;
use super::symbol::{
    lemma_symbols_roundtrip, spec_bind, spec_unpack_symbols, symbols_bytes, unnamed, Symbol,
    SymbolView,
};
use crate::constants::{function_prefix, lemma_constants, FUNCTION_PREFIX};
use crate::text::{chars_occur_at, starts_with, str_eq, substring};

verus! {

/// The views of a vector of symbols.
pub open spec fn symbol_views(v: Seq<Symbol>) -> Seq<SymbolView> {
    v.map_values(|s: Symbol| s@)
}

/// Whether `i` is the index of the last symbol named `name`.
pub open spec fn is_last_named(syms: Seq<SymbolView>, name: Seq<char>, i: int) -> bool {
    &&& 0 <= i < syms.len()
    &&& syms[i].name == name
    &&& forall|j: int| i < j < syms.len() ==> #[trigger] syms[j].name != name
}

/// Whether no symbol is named `name`.
pub open spec fn none_named(syms: Seq<SymbolView>, name: Seq<char>) -> bool {
    forall|j: int| 0 <= j < syms.len() ==> #[trigger] syms[j].name != name
}

/// A symbol after the stub prefix has been taken off its name: the name loses the
/// prefix, and `st_name` points that many bytes further into the string table.
pub open spec fn without_function_prefix(s: SymbolView) -> SymbolView {
    if chars_occur_at(s.name, function_prefix(), 0) {
        SymbolView {
            name: s.name.skip(function_prefix().len() as int),
            st_name: (s.st_name + function_prefix().len()) as u32,
            ..s
        }
    } else {
        s
    }
}

/// The symbol table section and symbols after [`SymTab::add_symbol`], and the index returned.
pub open spec fn symtab_after_add(sec: SectionView, syms: Seq<SymbolView>, sym: SymbolView) -> (
    SectionView,
    Seq<SymbolView>,
    int,
) {
    if spec_bind(sym.st_info) == 0 && sec.sh_info <= syms.len() {
        (
            SectionView { sh_info: (sec.sh_info + 1) as u32, ..sec },
            syms.insert(sec.sh_info as int, sym),
            sec.sh_info as int,
        )
    } else {
        (sec, syms.push(sym), syms.len() as int)
    }
}

/// A symbol table section together with its parsed symbols, and the writes made to
/// its name index: `(name, Some(index))` records a name at an index, `(name, None)`
/// forgets it. A name's index is the one its last write gives.
#[derive(Debug, Default, PartialEq)]
pub struct SymTab {
    pub section: Section,
    pub symbols: Vec<Symbol>,
    pub name_to_index: Vec<(String, Option<usize>)>,
}

/// The writes of a name index, as texts.
pub open spec fn log_views(v: Seq<(String, Option<usize>)>) -> Seq<(Seq<char>, Option<usize>)> {
    v.map_values(|e: (String, Option<usize>)| (e.0@, e.1))
}

/// The index the writes `log` leave for `name`: that of its last write, if any.
pub open spec fn index_lookup(log: Seq<(Seq<char>, Option<usize>)>, name: Seq<char>) -> Option<usize>
    decreases log.len(),
{
    if log.len() == 0 {
        None
    } else if log.last().0 == name {
        log.last().1
    } else {
        index_lookup(log.drop_last(), name)
    }
}

/// The writes that record, in order, the index of each named symbol among
/// `syms[from..to]`.
pub open spec fn named_writes(syms: Seq<SymbolView>, from: int, to: int) -> Seq<(Seq<char>, Option<usize>)>
    decreases to - from,
{
    if to <= from {
        Seq::empty()
    } else {
        named_writes(syms, from, to - 1) + if syms[to - 1].name.len() > 0 {
            seq![(syms[to - 1].name, Some((to - 1) as usize))]
        } else {
            Seq::empty()
        }
    }
}

/// The write recording a name at an index, none for the empty name.
pub open spec fn name_write(name: Seq<char>, idx: usize) -> Seq<(Seq<char>, Option<usize>)> {
    if name.len() > 0 {
        seq![(name, Some(idx))]
    } else {
        Seq::empty()
    }
}

/// The writes that move, in order, each of the first `k` symbols whose name carries the
/// stub prefix from its old name to its new one.
pub open spec fn prefix_writes(syms: Seq<SymbolView>, k: int) -> Seq<(Seq<char>, Option<usize>)>
    decreases k,
{
    if k <= 0 {
        Seq::empty()
    } else if chars_occur_at(syms[k - 1].name, function_prefix(), 0) {
        prefix_writes(syms, k - 1) + seq![
            (syms[k - 1].name, None),
            (syms[k - 1].name.skip(8), Some((k - 1) as usize)),
        ]
    } else {
        prefix_writes(syms, k - 1)
    }
}

/// Whether every index the writes record lies inside the symbols.
pub open spec fn indices_in_range(log: Seq<(Seq<char>, Option<usize>)>, n: nat) -> bool {
    forall|k: int| 0 <= k < log.len() ==> ((#[trigger] log[k]).1 matches Some(i) ==> i < n)
}

/// The index the writes leave for a name is one they record.
proof fn lemma_lookup_in_range(log: Seq<(Seq<char>, Option<usize>)>, name: Seq<char>, n: nat)
    requires
        indices_in_range(log, n),
    ensures
        index_lookup(log, name) matches Some(i) ==> i < n,
    decreases log.len(),
{
    if log.len() > 0 && log.last().0 != name {
        assert(indices_in_range(log.drop_last(), n)) by {
            assert forall|k: int| 0 <= k < log.drop_last().len() implies ((#[trigger] log.drop_last()[k]).1 matches Some(i) ==> i < n) by {
                assert(log.drop_last()[k] == log[k]);
            }
        }
        lemma_lookup_in_range(log.drop_last(), name, n);
    } else if log.len() > 0 {
        assert(log[log.len() - 1] == log.last());
    }
}

/// One more symbol in [`prefix_writes`]: its two writes when its name carries the prefix.
proof fn lemma_prefix_writes_step(syms: Seq<SymbolView>, i: int)
    requires
        0 <= i < syms.len(),
    ensures
        prefix_writes(syms, i + 1) == prefix_writes(syms, i) + if chars_occur_at(
            syms[i].name,
            function_prefix(),
            0,
        ) {
            seq![(syms[i].name, None), (syms[i].name.skip(8), Some(i as usize))]
        } else {
            Seq::empty()
        },
{
    if !chars_occur_at(syms[i].name, function_prefix(), 0) {
        assert(prefix_writes(syms, i) + Seq::<(Seq<char>, Option<usize>)>::empty() =~= prefix_writes(syms, i));
    }
}

/// Records a rename in a name index: the old name forgotten, the new one at `i`.
fn push_rename(log: &mut Vec<(String, Option<usize>)>, old_name: String, new_name: String, i: usize)
    ensures
        log_views(final(log)@) == log_views(old(log)@) + seq![(old_name@, None), (new_name@, Some(i))],
{
    push_write(log, old_name, None);
    push_write(log, new_name, Some(i));
    assert(log_views(log@) =~= log_views(old(log)@) + seq![(old_name@, None), (new_name@, Some(i))]);
}

/// Appends one write to a name index.
fn push_write(log: &mut Vec<(String, Option<usize>)>, name: String, idx: Option<usize>)
    ensures
        log_views(final(log)@) == log_views(old(log)@).push((name@, idx)),
{
    log.push((name, idx));
    assert(log_views(log@) =~= log_views(old(log)@).push((name@, idx)));
}

impl Clone for SymTab {
    fn clone(&self) -> (r: Self)
        ensures
            r.section@ == self.section@,
            r.symbols@ == self.symbols@,
            log_views(r.name_to_index@) == log_views(self.name_to_index@),
    {
        let n = self.symbols.len();
        let mut symbols: Vec<Symbol> = Vec::with_capacity(n);
        let mut i: usize = 0;
        while i < n
            invariant
                n == self.symbols@.len(),
                i <= n,
                symbols@ == self.symbols@.subrange(0, i as int),
            decreases n - i,
        {
            symbols.push(self.symbols[i].clone());
            i += 1;
            assert(symbols@ =~= self.symbols@.subrange(0, i as int));
        }
        assert(symbols@ =~= self.symbols@);
        let m = self.name_to_index.len();
        let mut log: Vec<(String, Option<usize>)> = Vec::with_capacity(m);
        let mut j: usize = 0;
        while j < m
            invariant
                m == self.name_to_index@.len(),
                j <= m,
                log_views(log@) == log_views(self.name_to_index@.subrange(0, j as int)),
            decreases m - j,
        {
            let e = &self.name_to_index[j];
            push_write(&mut log, e.0.clone(), e.1);
            assert(log_views(self.name_to_index@.subrange(0, j + 1)) =~= log_views(
                self.name_to_index@.subrange(0, j as int),
            ).push((self.name_to_index@[j as int].0@, self.name_to_index@[j as int].1)));
            j += 1;
        }
        assert(self.name_to_index@.subrange(0, m as int) =~= self.name_to_index@);
        SymTab { section: self.section.clone(), symbols, name_to_index: log }
    }
}

impl SymTab {
    /// Parses the section's payload into symbols; their names are left empty.
    pub fn new(section: Section) -> (t: Self)
        requires
            section.data@.len() % 16 == 0,
        ensures
            t.section@ == section@,
            symbol_views(t.symbols@) == spec_unpack_symbols(section.data@),
            t.name_to_index@.len() == 0,
    {
        let symbols = Symbol::unpack_all(section.data.as_slice());
        Self { section, symbols, name_to_index: Vec::new() }
    }

    /// The index the name index holds for `name` (see [`index_lookup`]).
    pub fn get_symbol_index(&self, name: &str) -> (r: Option<usize>)
        ensures
            r == index_lookup(log_views(self.name_to_index@), name@),
    {
        let ghost views = log_views(self.name_to_index@);
        let n = self.name_to_index.len();
        let mut i: usize = n;
        assert(views.subrange(0, n as int) =~= views);
        while i > 0
            invariant
                n == self.name_to_index@.len(),
                views == log_views(self.name_to_index@),
                i <= n,
                index_lookup(views.subrange(0, i as int), name@) == index_lookup(views, name@),
            decreases i,
        {
            let ghost pre = views.subrange(0, i as int);
            assert(pre.last() == views[i - 1]);
            assert(pre.drop_last() =~= views.subrange(0, i - 1));
            i -= 1;
            let e = &self.name_to_index[i];
            if str_eq(e.0.as_str(), name) {
                return e.1;
            }
        }
        None
    }

    /// The symbol the name index gives for `name`, and its index.
    pub fn get_symbol_by_name(&self, name: &str) -> (r: Option<(usize, &Symbol)>)
        requires
            indices_in_range(log_views(self.name_to_index@), self.symbols@.len()),
        ensures
            match index_lookup(log_views(self.name_to_index@), name@) {
                Some(i) => r matches Some((j, s)) && j == i && *s == self.symbols@[i as int],
                None => r is None,
            },
    {
        proof {
            lemma_lookup_in_range(log_views(self.name_to_index@), name@, self.symbols@.len());
        }
        match self.get_symbol_index(name) {
            Some(idx) => Some((idx, &self.symbols[idx])),
            None => None,
        }
    }

    /// Adds a symbol. Local symbols go at `sh_info`, the end of the local block,
    /// which then grows by one; when `sh_info` lies past the end of the table, or
    /// for global and weak symbols, the symbol is appended. Returns its index.
    pub fn add_symbol(&mut self, symbol: Symbol) -> (index: usize)
        requires
            old(self).symbols@.len() < u32::MAX,
        ensures
            spec_bind(symbol.st_info) == 0 && old(self).section.sh_info <= old(self).symbols@.len()
                ==> {
                &&& index == old(self).section.sh_info
                &&& final(self).symbols@ == old(self).symbols@.insert(index as int, symbol)
                &&& final(self).section@ == (SectionView {
                    sh_info: (old(self).section.sh_info + 1) as u32,
                    ..old(self).section@
                })
                &&& log_views(final(self).name_to_index@) == log_views(old(self).name_to_index@)
                    + named_writes(
                    symbol_views(final(self).symbols@),
                    index as int,
                    final(self).symbols@.len() as int,
                ) + name_write(symbol.name@, index)
            },
            !(spec_bind(symbol.st_info) == 0 && old(self).section.sh_info
                <= old(self).symbols@.len()) ==> {
                &&& index == old(self).symbols@.len()
                &&& final(self).symbols@ == old(self).symbols@.push(symbol)
                &&& final(self).section@ == old(self).section@
                &&& log_views(final(self).name_to_index@) == log_views(old(self).name_to_index@)
                    + name_write(symbol.name@, index)
            },
    {
        let is_local = symbol.bind() == 0;
        let name = symbol.name.clone();
        let named = name.as_str().unicode_len() > 0;
        if is_local {
            let index = self.section.sh_info as usize;
            if index <= self.symbols.len() {
                self.symbols.insert(index, symbol);
                self.section.sh_info = self.section.sh_info + 1;
                let n = self.symbols.len();
                let mut i: usize = index;
                assert(log_views(self.name_to_index@) =~= log_views(old(self).name_to_index@)
                    + named_writes(symbol_views(self.symbols@), index as int, index as int));
                while i < n
                    invariant
                        index <= i <= n,
                        n == self.symbols@.len(),
                        self.symbols@ == old(self).symbols@.insert(index as int, symbol),
                        self.section@ == (SectionView {
                            sh_info: (old(self).section.sh_info + 1) as u32,
                            ..old(self).section@
                        }),
                        log_views(self.name_to_index@) == log_views(old(self).name_to_index@)
                            + named_writes(symbol_views(self.symbols@), index as int, i as int),
                    decreases n - i,
                {
                    let ghost before = log_views(self.name_to_index@);
                    let ghost sv = symbol_views(self.symbols@);
                    assert(sv[i as int] == self.symbols@[i as int]@);
                    if self.symbols[i].name.as_str().unicode_len() > 0 {
                        let nm = self.symbols[i].name.clone();
                        push_write(&mut self.name_to_index, nm, Some(i));
                    }
                    assert(named_writes(sv, index as int, i + 1) == named_writes(sv, index as int, i as int)
                        + if sv[i as int].name.len() > 0 {
                        seq![(sv[i as int].name, Some(i))]
                    } else {
                        Seq::empty()
                    });
                    assert(log_views(self.name_to_index@) =~= log_views(old(self).name_to_index@)
                        + named_writes(sv, index as int, i + 1));
                    i += 1;
                }
                let ghost mid = log_views(self.name_to_index@);
                if named {
                    push_write(&mut self.name_to_index, name, Some(index));
                }
                assert(log_views(self.name_to_index@) =~= mid + name_write(symbol.name@, index));
                return index;
            }
        }
        let idx = self.symbols.len();
        self.symbols.push(symbol);
        if named {
            push_write(&mut self.name_to_index, name, Some(idx));
        }
        assert(log_views(self.name_to_index@) =~= log_views(old(self).name_to_index@) + name_write(
            symbol.name@,
            idx,
        ));
        idx
    }

    /// Packs the symbols into the section's payload and size, and returns the payload.
    pub fn pack_data(&mut self) -> (r: &[u8])
        ensures
            final(self).symbols@ == old(self).symbols@,
            final(self).name_to_index@ == old(self).name_to_index@,
            final(self).section@ == (SectionView {
                data: symbols_bytes(symbol_views(old(self).symbols@)),
                sh_size: (16 * old(self).symbols@.len()) as u32,
                ..old(self).section@
            }),
            r@ == symbols_bytes(symbol_views(old(self).symbols@)),
    {
        let mut buf: Vec<u8> = Vec::new();
        let n = self.symbols.len();
        let mut i: usize = 0;
        while i < n
            invariant
                n == self.symbols@.len(),
                i <= n,
                buf@ == symbols_bytes(symbol_views(self.symbols@.subrange(0, i as int))),
            decreases n - i,
        {
            self.symbols[i].pack_into(&mut buf);
            proof {
                let vs = symbol_views(self.symbols@.subrange(0, i + 1));
                assert(vs.drop_last() =~= symbol_views(self.symbols@.subrange(0, i as int)));
            }
            i += 1;
        }
        assert(self.symbols@.subrange(0, n as int) =~= self.symbols@);
        proof {
            lemma_symbols_roundtrip(symbol_views(self.symbols@));
        }
        #[verifier::truncate]
        let size = buf.len() as u32;
        self.section.sh_size = size;
        self.section.data = buf;
        self.section.data.as_slice()
    }

    /// Packs the symbols into the section and returns its header and payload.
    pub fn pack(&mut self) -> (r: (Vec<u8>, Vec<u8>))
        ensures
            final(self).symbols@ == old(self).symbols@,
            final(self).name_to_index@ == old(self).name_to_index@,
            final(self).section@ == (SectionView {
                data: symbols_bytes(symbol_views(old(self).symbols@)),
                sh_size: (16 * old(self).symbols@.len()) as u32,
                ..old(self).section@
            }),
            r.0@ == section_header_bytes(final(self).section@),
            r.1@ == final(self).section.data@,
    {
        let data = vstd::slice::slice_to_vec(self.pack_data());
        let header = self.section.pack_header();
        (header, data)
    }

    /// Packs the symbols into the section and returns a copy of the section.
    pub fn pack_section(&mut self) -> (s: Section)
        ensures
            final(self).symbols@ == old(self).symbols@,
            final(self).name_to_index@ == old(self).name_to_index@,
            final(self).section@ == (SectionView {
                data: symbols_bytes(symbol_views(old(self).symbols@)),
                sh_size: (16 * old(self).symbols@.len()) as u32,
                ..old(self).section@
            }),
            s@ == final(self).section@,
    {
        self.pack();
        self.section.clone()
    }

    /// Reads each symbol's name from `strtab` at its `st_name`.
    pub fn populate_symbols(&mut self, strtab: &StrTab)
        requires
            forall|i: int|
                0 <= i < old(self).symbols@.len() ==> #[trigger] old(self).symbols@[i].st_name
                    <= strtab.section.data@.len(),
        ensures
            final(self).section@ == old(self).section@,
            final(self).symbols@.len() == old(self).symbols@.len(),
            forall|i: int|
                0 <= i < final(self).symbols@.len() ==> #[trigger] final(self).symbols@[i]@ == (
                SymbolView {
                    name: name_at(strtab.section.data@, old(self).symbols@[i].st_name as int),
                    ..old(self).symbols@[i]@
                }),
            log_views(final(self).name_to_index@) == named_writes(
                symbol_views(final(self).symbols@),
                0,
                final(self).symbols@.len() as int,
            ),
    {
        let n = self.symbols.len();
        let mut i: usize = 0;
        while i < n
            invariant
                n == self.symbols@.len(),
                n == old(self).symbols@.len(),
                i <= n,
                self.section@ == old(self).section@,
                forall|j: int| i <= j < n ==> #[trigger] self.symbols@[j] == old(self).symbols@[j],
                forall|j: int|
                    0 <= j < n ==> #[trigger] old(self).symbols@[j].st_name
                        <= strtab.section.data@.len(),
                forall|j: int|
                    0 <= j < i ==> #[trigger] self.symbols@[j]@ == (SymbolView {
                        name: name_at(strtab.section.data@, old(self).symbols@[j].st_name as int),
                        ..old(self).symbols@[j]@
                    }),
            decreases n - i,
        {
            let name = strtab.get_string(self.symbols[i].st_name as usize);
            let mut sym = self.symbols[i].clone();
            sym.name = name;
            self.symbols.set(i, sym);
            i += 1;
        }
        self.name_to_index = Vec::new();
        let ghost sv = symbol_views(self.symbols@);
        let ghost syms = self.symbols@;
        let ghost sec = self.section@;
        let mut k: usize = 0;
        assert(log_views(self.name_to_index@) =~= named_writes(sv, 0, 0));
        while k < n
            invariant
                n == self.symbols@.len(),
                self.symbols@ == syms,
                self.section@ == sec,
                k <= n,
                sv == symbol_views(self.symbols@),
                log_views(self.name_to_index@) == named_writes(sv, 0, k as int),
            decreases n - k,
        {
            assert(sv[k as int] == self.symbols@[k as int]@);
            if self.symbols[k].name.as_str().unicode_len() > 0 {
                let nm = self.symbols[k].name.clone();
                push_write(&mut self.name_to_index, nm, Some(k));
            }
            assert(log_views(self.name_to_index@) =~= named_writes(sv, 0, k + 1));
            k += 1;
        }
    }

    /// Takes the stub prefix off every symbol name that carries it, moving `st_name`
    /// past the prefix in the string table, then packs the table.
    #[verifier::spinoff_prover]
    pub fn remove_function_prefix(&mut self)
        requires
            forall|i: int|
                0 <= i < old(self).symbols@.len() ==> #[trigger] old(self).symbols@[i].st_name + 8
                    <= u32::MAX,
        ensures
            symbol_views(final(self).symbols@) == symbol_views(old(self).symbols@).map_values(
                |s: SymbolView| without_function_prefix(s),
            ),
            final(self).section@ == (SectionView {
                data: symbols_bytes(symbol_views(final(self).symbols@)),
                sh_size: (16 * old(self).symbols@.len()) as u32,
                ..old(self).section@
            }),
            log_views(final(self).name_to_index@) == log_views(old(self).name_to_index@)
                + prefix_writes(symbol_views(old(self).symbols@), old(self).symbols@.len() as int),
    {
        proof {
            lemma_constants();
        }
        let ghost ov = symbol_views(old(self).symbols@);
        let n = self.symbols.len();
        let mut i: usize = 0;
        while i < n
            invariant
                n == self.symbols@.len(),
                n == old(self).symbols@.len(),
                i <= n,
                self.section@ == old(self).section@,
                FUNCTION_PREFIX@ == function_prefix(),
                forall|j: int| i <= j < n ==> #[trigger] self.symbols@[j] == old(self).symbols@[j],
                forall|j: int|
                    0 <= j < n ==> #[trigger] old(self).symbols@[j].st_name + 8 <= u32::MAX,
                forall|j: int|
                    0 <= j < i ==> #[trigger] self.symbols@[j]@ == without_function_prefix(
                        old(self).symbols@[j]@,
                    ),
                ov == symbol_views(old(self).symbols@),
                log_views(self.name_to_index@) == log_views(old(self).name_to_index@)
                    + prefix_writes(ov, i as int),
            decreases n - i,
        {
            assert(ov[i as int] == old(self).symbols@[i as int]@);
            let ghost before = log_views(self.name_to_index@);
            if starts_with(self.symbols[i].name.as_str(), FUNCTION_PREFIX) {
                let old_name = self.symbols[i].name.clone();
                let mut sym = self.symbols[i].clone();
                let len = sym.name.as_str().unicode_len();
                sym.name = substring(sym.name.as_str(), 8, len);
                sym.st_name = sym.st_name + 8;
                assert(sym.name@ =~= old(self).symbols@[i as int].name@.skip(8));
                let new_name = sym.name.clone();
                self.symbols.set(i, sym);
                push_rename(&mut self.name_to_index, old_name, new_name, i);
            }
            proof {
                lemma_prefix_writes_step(ov, i as int);
                assert(log_views(self.name_to_index@) =~= log_views(old(self).name_to_index@)
                    + prefix_writes(ov, i + 1));
            }
            i += 1;
        }
        assert(symbol_views(self.symbols@) =~= symbol_views(old(self).symbols@).map_values(
            |s: SymbolView| without_function_prefix(s),
        ));
        self.pack();
    }

    /// The names of all symbols, in order.
    pub fn list(&self) -> (r: Vec<String>)
        ensures
            r@.len() == self.symbols@.len(),
            forall|i: int| 0 <= i < r@.len() ==> #[trigger] r@[i] == self.symbols@[i].name,
    {
        let n = self.symbols.len();
        let mut r: Vec<String> = Vec::with_capacity(n);
        let mut i: usize = 0;
        while i < n
            invariant
                n == self.symbols@.len(),
                i <= n,
                r@.len() == i,
                forall|j: int| 0 <= j < i ==> #[trigger] r@[j] == self.symbols@[j].name,
            decreases n - i,
        {
            r.push(self.symbols[i].name.clone());
            i += 1;
        }
        r
    }
}

/// Packing a symbol table and parsing it again gives back its symbols, names aside.
pub proof fn lemma_symtab_pack_roundtrip(syms: Seq<SymbolView>)
    ensures
        symbols_bytes(syms).len() % 16 == 0,
        spec_unpack_symbols(symbols_bytes(syms)) == syms.map_values(|s: SymbolView| unnamed(s)),
{
    lemma_symbols_roundtrip(syms);
    assert(symbols_bytes(syms).len() % 16 == 0) by (nonlinear_arith)
        requires
            symbols_bytes(syms).len() == 16 * syms.len(),
    ;
}

/// Whether the local symbols come first: `sh_info` counts them, and every symbol before
/// it is local and every one after it is not.
pub open spec fn locals_first(sec: SectionView, syms: Seq<SymbolView>) -> bool {
    &&& sec.sh_info <= syms.len()
    &&& forall|i: int|
        0 <= i < syms.len() ==> (spec_bind((#[trigger] syms[i]).st_info) == 0 <==> i < sec.sh_info)
}

/// Adding a symbol keeps the local symbols first, and the symbol added is at the index
/// returned.
pub proof fn lemma_add_keeps_locals_first(sec: SectionView, syms: Seq<SymbolView>, sym: SymbolView)
    requires
        locals_first(sec, syms),
        syms.len() < u32::MAX,
    ensures
        locals_first(symtab_after_add(sec, syms, sym).0, symtab_after_add(sec, syms, sym).1),
        symtab_after_add(sec, syms, sym).1.len() == syms.len() + 1,
        symtab_after_add(sec, syms, sym).1[symtab_after_add(sec, syms, sym).2] == sym,
{
    let r = symtab_after_add(sec, syms, sym);
    if spec_bind(sym.st_info) == 0 {
        let k = sec.sh_info as int;
        assert forall|i: int| 0 <= i < r.1.len() implies (spec_bind((#[trigger] r.1[i]).st_info)
            == 0 <==> i < r.0.sh_info) by {
            if i < k {
                assert(r.1[i] == syms[i]);
            } else if i > k {
                assert(r.1[i] == syms[i - 1]);
            }
        }
    } else {
        assert forall|i: int| 0 <= i < r.1.len() implies (spec_bind((#[trigger] r.1[i]).st_info)
            == 0 <==> i < r.0.sh_info) by {
            if i < syms.len() {
                assert(r.1[i] == syms[i]);
            }
        }
    }
}

/// Encoding characters whose first `k` are ASCII and not NUL gives those as `k` non-zero
/// bytes, followed by the encoding of the rest.
proof fn lemma_encode_ascii_front(s: Seq<char>, k: int)
    requires
        0 <= k <= s.len(),
        forall|j: int| 0 <= j < k ==> 0 < (#[trigger] s[j]) as u32 <= 0x7F,
    ensures
        encode_utf8(s).len() >= k,
        encode_utf8(s).skip(k) == encode_utf8(s.skip(k)),
        forall|j: int| 0 <= j < k ==> #[trigger] encode_utf8(s)[j] != 0,
    decreases k,
{
    if k == 0 {
        assert(s.skip(0) =~= s);
        assert(encode_utf8(s).skip(0) =~= encode_utf8(s));
    } else {
        let s1 = s.drop_first();
        assert forall|j: int| 0 <= j < k - 1 implies 0 < (#[trigger] s1[j]) as u32 <= 0x7F by {
            assert(s1[j] == s[j + 1]);
        }
        lemma_encode_ascii_front(s1, k - 1);
        let v = s[0] as u32;
        assert(0 < v <= 0x7F);
        assert(0 < (v & 0x7F) && (v & 0x7F) == v) by (bit_vector)
            requires
                0 < v <= 0x7F,
        ;
        let e = encode_utf8(s);
        assert(e == encode_scalar(v) + encode_utf8(s1));
        assert(encode_scalar(v) == seq![(v & 0x7F) as u8]);
        assert(s1.skip(k - 1) =~= s.skip(k));
        assert(e.skip(k) =~= encode_utf8(s1).skip(k - 1));
        assert forall|j: int| 0 <= j < k implies #[trigger] e[j] != 0 by {
            if j > 0 {
                assert(e[j] == encode_utf8(s1)[j - 1]);
            }
        }
    }
}

/// Reading from `k` places further on gives what reading from `i` gives, less its first
/// `k` bytes.
proof fn lemma_str_at_skip(b: Seq<u8>, i: int, k: int)
    requires
        0 <= i,
        0 <= k <= str_at(b, i).len(),
    ensures
        str_at(b, i + k) == str_at(b, i).skip(k),
    decreases k,
{
    if k == 0 {
        assert(str_at(b, i).skip(0) =~= str_at(b, i));
    } else {
        assert(str_at(b, i) == seq![b[i]] + str_at(b, i + 1));
        lemma_str_at_skip(b, i + 1, k - 1);
        assert(str_at(b, i + 1).skip(k - 1) =~= str_at(b, i).skip(k));
    }
}

/// Taking the stub prefix off a symbol keeps its name and `st_name` in step: when its
/// name is the one stored at its `st_name` in a string table, the new name is the one
/// stored at the new `st_name`, the prefix's length further on.
pub proof fn lemma_prefix_removal_reads_back(strdata: Seq<u8>, s: SymbolView)
    requires
        name_at(strdata, s.st_name as int) == s.name,
        s.st_name + 8 <= u32::MAX,
    ensures
        name_at(strdata, without_function_prefix(s).st_name as int) == without_function_prefix(s).name,
{
    if chars_occur_at(s.name, function_prefix(), 0) {
        let i = s.st_name as int;
        let x = str_at(strdata, i);
        assert(s.name.len() >= 8);
        assert(valid_utf8(x) && decode_utf8(x) == s.name) by {
            if !valid_utf8(x) {
                assert(name_at(strdata, i) == Seq::<char>::empty());
            }
        }
        decode_utf8_encode_utf8(x);
        let p = function_prefix();
        assert forall|j: int| 0 <= j < 8 implies 0 < (#[trigger] s.name[j]) as u32 <= 0x7F by {
            assert(s.name.subrange(0, 8)[j] == s.name[j]);
            assert(p[j] == '_' || p[j] == 'm' || p[j] == 'w');
        }
        lemma_encode_ascii_front(s.name, 8);
        lemma_str_at_skip(strdata, i, 8);
        encode_utf8_valid_utf8(s.name.skip(8));
        encode_utf8_decode_utf8(s.name.skip(8));
        assert(without_function_prefix(s).st_name as int == i + 8);
    }
}

/// The symbols with the stub prefix taken off their names (see
/// [`SymTab::remove_function_prefix`]).
pub open spec fn without_prefixes(syms: Seq<SymbolView>) -> Seq<SymbolView> {
    syms.map_values(|t: SymbolView| without_function_prefix(t))
}

/// Taking the stub prefix off the symbols of a table keeps every name readable from
/// the string table at its `st_name`, as it was before.
pub proof fn lemma_prefix_removal_keeps_names(syms: Seq<SymbolView>, strdata: Seq<u8>)
    requires
        forall|k: int| 0 <= k < syms.len() ==> name_at(strdata, (#[trigger] syms[k]).st_name as int)
            == syms[k].name && syms[k].st_name + 8 <= u32::MAX,
    ensures
        forall|k: int| 0 <= k < syms.len() ==> name_at(
            strdata,
            (#[trigger] without_prefixes(syms)[k]).st_name as int,
        ) == without_prefixes(syms)[k].name,
{
    assert forall|k: int| 0 <= k < syms.len() implies name_at(
        strdata,
        (#[trigger] without_prefixes(syms)[k]).st_name as int,
    ) == without_prefixes(syms)[k].name by {
        lemma_prefix_removal_reads_back(strdata, syms[k]);
    }
}

} // verus!
