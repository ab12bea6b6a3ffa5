//! Splicing assembled code and data into the object compiled from stub C source.
use vstd::prelude::*;
use vstd::utf8::*;

use crate::assembler::string_views;
use crate::constants::{function_prefix, lemma_constants, FUNCTION_PREFIX};
use crate::elf::section::{
    relocation_views, relocations_bytes, spec_reloc_type, spec_symbol_index,
    spec_unpack_relocations, RelocationRecord, RelocationView,
};
use crate::elf::strtab::{spec_add_name, strtab_after_add};
use crate::elf::symbol::spec_bind;
use crate::elf::symtab::symbol_views;
use crate::elf::{
    cleaned_tables, function_names_of, function_text_indices, is_first_function_text, rel_indices, rodata_indices, section_views, spec_add_symbol, tables, text_indices, Elf, Relocation,
    Section, SectionView, Symbol, SymbolView, TablesView,
};
use crate::error::MWError;
use crate::preprocessor::{rodata_stub, text_stub, Preprocessor};
use crate::text::{chars_occur_at, skip_chars, starts_with, str_eq};
use crate::{rodata_name, split_relocations, split_spec};

verus! {

/// One assembled file: its path, the function or data label it was included for, its
/// `.rodata` data symbols `(name, size, is local)` and its object.
pub struct AsmObject {
    pub path: String,
    pub main_symbol: String,
    pub all_symbols: Vec<(String, usize, bool)>,
    pub elf: Elf,
}

/// Whether the function sections of `e` can be listed: there are no function names,
/// or at least as many as there are `.text` sections.
pub open spec fn functions_listable(e: Elf) -> bool {
    function_names_of(symbol_views(e.symtab.symbols@)).len() == 0 || text_indices(
        section_views(e.sections@),
        e.sections@.len() as int,
    ).len() <= function_names_of(symbol_views(e.symtab.symbols@)).len()
}

/// The size of the first `.text` section of `e`, or 0 when there is none.
pub open spec fn first_text_len(e: Elf) -> nat {
    let t = text_indices(section_views(e.sections@), e.sections@.len() as int);
    if t.len() == 0 {
        0
    } else {
        e.sections@[t[0]].data@.len()
    }
}

/// The stub text standing in for one assembled file.
pub open spec fn object_stub(o: AsmObject) -> Seq<u8> {
    encode_utf8(text_stub(o.main_symbol@, first_text_len(o.elf)) + rodata_stub(o.all_symbols@))
}

/// The first `k` segments of source, each followed by the stub of its object.
pub open spec fn stub_prefix(segments: Seq<&[u8]>, objects: Seq<AsmObject>, k: int) -> Seq<u8>
    decreases k,
{
    if k <= 0 {
        Seq::empty()
    } else {
        stub_prefix(segments, objects, k - 1) + segments[k - 1]@ + object_stub(objects[k - 1])
    }
}

/// The C source to compile: the segments of the input source with the stub of
/// each assembled file in place of the macro call that named it.
pub open spec fn stub_source_text(segments: Seq<&[u8]>, objects: Seq<AsmObject>) -> Seq<u8> {
    stub_prefix(segments, objects, objects.len() as int) + segments[objects.len() as int]@
}

/// Builds the C source to compile (see [`stub_source_text`]); fails when the function
/// sections of an assembled object cannot be listed.
pub fn stub_source(segments: &[&[u8]], objects: &[AsmObject]) -> (r: Result<Vec<u8>, MWError>)
    requires
        segments@.len() == objects@.len() + 1,
    ensures
        r is Ok <==> forall|k: int| 0 <= k < objects@.len() ==> functions_listable(
            #[trigger] objects@[k].elf,
        ),
        r matches Ok(v) ==> v@ == stub_source_text(segments@, objects@),
{
    let n = objects.len();
    let mut out: Vec<u8> = Vec::new();
    let mut i: usize = 0;
    while i < n
        invariant
            i <= n,
            n == objects@.len(),
            segments@.len() == n + 1,
            out@ == stub_prefix(segments@, objects@, i as int),
            forall|k: int| 0 <= k < i ==> functions_listable(#[trigger] objects@[k].elf),
        decreases n - i,
    {
        let obj = &objects[i];
        out.extend_from_slice(segments[i]);
        let count = match obj.elf.try_get_functions() {
            None => {
                return Err(MWError::Internal("cannot list the functions of an assembled object"));
            },
            Some(fs) => if fs.len() > 0 {
                fs[0].section.data.len()
            } else {
                0
            },
        };
        let stub = Preprocessor::stub_for(obj.main_symbol.as_str(), count, obj.all_symbols.as_slice());
        out.extend_from_slice(stub.as_slice());
        i += 1;
    }
    out.extend_from_slice(segments[n]);
    Ok(out)
}


/// The functions among `fnames` that were stubs: those whose names carry the stub
/// prefix, with it taken off, in order.
pub open spec fn stub_names(fnames: Seq<Seq<char>>) -> Seq<Seq<char>>
    decreases fnames.len(),
{
    if fnames.len() == 0 {
        Seq::empty()
    } else if chars_occur_at(fnames.last(), function_prefix(), 0) {
        stub_names(fnames.drop_last()).push(fnames.last().skip(8))
    } else {
        stub_names(fnames.drop_last())
    }
}

/// The names of the stub functions of a compiled object, without the stub prefix.
pub fn stub_function_names(elf: &Elf) -> (r: Vec<String>)
    ensures
        r@.len() == stub_names(function_names_of(symbol_views(elf.symtab.symbols@))).len(),
        forall|k: int|
            0 <= k < r@.len() ==> (#[trigger] r@[k])@ == stub_names(
                function_names_of(symbol_views(elf.symtab.symbols@)),
            )[k],
{
    proof {
        lemma_constants();
    }
    let names = elf.function_names();
    let ghost fnames = function_names_of(symbol_views(elf.symtab.symbols@));
    let n = names.len();
    let mut r: Vec<String> = Vec::new();
    let mut i: usize = 0;
    while i < n
        invariant
            i <= n,
            n == fnames.len(),
            names@.len() == n,
            forall|k: int| 0 <= k < n ==> (#[trigger] names@[k])@ == fnames[k],
            FUNCTION_PREFIX@ == function_prefix(),
            r@.len() == stub_names(fnames.subrange(0, i as int)).len(),
            forall|k: int|
                0 <= k < r@.len() ==> (#[trigger] r@[k])@ == stub_names(fnames.subrange(0, i as int))[k],
        decreases n - i,
    {
        let ghost pre = fnames.subrange(0, i as int);
        let ghost next = fnames.subrange(0, i + 1);
        assert(next.drop_last() =~= pre);
        assert(next.last() == fnames[i as int]);
        let name = names[i];
        if starts_with(name, FUNCTION_PREFIX) {
            r.push(skip_chars(name, 8));
        }
        i += 1;
    }
    assert(fnames.subrange(0, n as int) =~= fnames);
    r
}

/// Whether `name` is one of `names`.
pub fn contains_name(names: &Vec<String>, name: &str) -> (r: bool)
    ensures
        r == exists|k: int| 0 <= k < names@.len() && (#[trigger] names@[k])@ == name@,
{
    let n = names.len();
    let mut i: usize = 0;
    while i < n
        invariant
            i <= n,
            n == names@.len(),
            forall|k: int| 0 <= k < i ==> (#[trigger] names@[k])@ != name@,
        decreases n - i,
    {
        if str_eq(names[i].as_str(), name) {
            return true;
        }
        i += 1;
    }
    false
}

/// The section index of the last symbol named `name` among `syms`, if any (a later
/// symbol of the same name takes the place of an earlier one).
pub open spec fn last_section_of(syms: Seq<SymbolView>, name: Seq<char>) -> Option<u16>
    decreases syms.len(),
{
    if syms.len() == 0 {
        None
    } else if syms.last().name == name {
        Some(syms.last().st_shndx)
    } else {
        last_section_of(syms.drop_last(), name)
    }
}

/// The section index of the last symbol named `name` (see [`last_section_of`]).
pub fn symbol_section(syms: &Vec<Symbol>, name: &str) -> (r: Option<u16>)
    ensures
        r == last_section_of(symbol_views(syms@), name@),
{
    let ghost views = symbol_views(syms@);
    let mut i = syms.len();
    assert(views.subrange(0, i as int) =~= views);
    while i > 0
        invariant
            i <= syms@.len(),
            views == symbol_views(syms@),
            last_section_of(views.subrange(0, i as int), name@) == last_section_of(views, name@),
        decreases i,
    {
        let ghost pre = views.subrange(0, i as int);
        assert(pre.drop_last() =~= views.subrange(0, i - 1));
        assert(pre.last() == syms@[i - 1]@);
        if str_eq(syms[i - 1].name.as_str(), name) {
            return Some(syms[i - 1].st_shndx);
        }
        i -= 1;
    }
    None
}

/// The indices from `start` on of the sections named `.rodata`, in order.
pub open spec fn rodata_from(secs: Seq<SectionView>, start: int) -> Seq<int>
    decreases secs.len() - start,
{
    if start < 0 || start >= secs.len() {
        Seq::empty()
    } else if secs[start].name == rodata_name() {
        seq![start] + rodata_from(secs, start + 1)
    } else {
        rodata_from(secs, start + 1)
    }
}

proof fn lemma_rodata_from_range(secs: Seq<SectionView>, start: int)
    requires
        0 <= start,
    ensures
        forall|k: int|
            0 <= k < rodata_from(secs, start).len() ==> start <= #[trigger] rodata_from(secs, start)[k]
                < secs.len(),
        forall|k: int, l: int|
            0 <= k < l < rodata_from(secs, start).len() ==> #[trigger] rodata_from(secs, start)[k]
                < #[trigger] rodata_from(secs, start)[l],
        forall|k: int|
            0 <= k < rodata_from(secs, start).len() ==> secs[#[trigger] rodata_from(secs, start)[k]].name
                == rodata_name(),
    decreases secs.len() - start,
{
    if start < secs.len() {
        lemma_rodata_from_range(secs, start + 1);
        let rest = rodata_from(secs, start + 1);
        let all = rodata_from(secs, start);
        if secs[start].name == rodata_name() {
            assert(all == seq![start] + rest);
            assert forall|k: int| 0 < k < all.len() implies #[trigger] all[k] == rest[k - 1] by {}
            assert forall|k: int| 0 <= k < all.len() implies start <= #[trigger] all[k] < secs.len() by {
                if k > 0 {
                    assert(all[k] == rest[k - 1]);
                }
            }
            assert forall|k: int, l: int| 0 <= k < l < all.len() implies #[trigger] all[k] < #[trigger] all[l] by {
                assert(all[l] == rest[l - 1]);
                if k > 0 {
                    assert(all[k] == rest[k - 1]);
                }
            }
        } else {
            assert(all == rest);
        }
    }
}

/// Every `.rodata` section from `start` on is listed.
proof fn lemma_rodata_from_complete(secs: Seq<SectionView>, start: int, j: int)
    requires
        0 <= start <= j < secs.len(),
        secs[j].name == rodata_name(),
    ensures
        rodata_from(secs, start).contains(j),
    decreases j - start,
{
    if start < j {
        lemma_rodata_from_complete(secs, start + 1, j);
        let rest = rodata_from(secs, start + 1);
        let p = choose|p: int| 0 <= p < rest.len() && rest[p] == j;
        if secs[start].name == rodata_name() {
            assert(rodata_from(secs, start)[p + 1] == j);
        } else {
            assert(rodata_from(secs, start)[p] == j);
        }
    } else {
        assert(rodata_from(secs, start)[0] == j);
    }
}

/// The indices of the first `count` sections named `.rodata` after section `text_idx`,
/// or `None` when there are fewer than `count` of them.
pub fn rodata_sections_after(secs: &Vec<Section>, text_idx: usize, count: usize) -> (r: Option<Vec<usize>>)
    requires
        text_idx < secs@.len(),
    ensures
        r is Some <==> rodata_from(section_views(secs@), text_idx + 1).len() >= count,
        r matches Some(v) ==> v@.len() == count && forall|k: int|
            0 <= k < count ==> #[trigger] v@[k] == rodata_from(section_views(secs@), text_idx + 1)[k],
        r matches Some(v) ==> {
            &&& forall|k: int| 0 <= k < count ==> text_idx < #[trigger] v@[k] < secs@.len()
                && secs@[v@[k] as int].name@ == rodata_name()
            &&& forall|k: int, l: int| 0 <= k < l < count ==> #[trigger] v@[k] < #[trigger] v@[l]
            &&& forall|j: int| count > 0 && text_idx < j <= v@[count - 1] && #[trigger] secs@[j].name@
                == rodata_name() ==> v@.contains(j as usize)
        },
{
    proof {
        reveal_strlit(".rodata");
    }
    let rodata = ".rodata";
    assert(rodata@ =~= rodata_name());
    let ghost w = section_views(secs@);
    let mut found: Vec<usize> = Vec::new();
    if count == 0 {
        return Some(found);
    }
    let n = secs.len();
    let mut i = text_idx + 1;
    while i < n
        invariant
            text_idx + 1 <= i <= n,
            n == secs@.len(),
            w == section_views(secs@),
            rodata@ == rodata_name(),
            0 < count,
            found@.len() < count,
            rodata_from(w, text_idx + 1) == found@.map_values(|x: usize| x as int) + rodata_from(w, i as int),
        decreases n - i,
    {
        assert(w[i as int] == secs@[i as int]@);
        if str_eq(secs[i].name.as_str(), rodata) {
            let ghost before = found@;
            found.push(i);
            assert(found@.map_values(|x: usize| x as int) =~= before.map_values(|x: usize| x as int) + seq![i as int]);
            if found.len() == count {
                proof {
                    let all = rodata_from(w, text_idx + 1);
                    assert(all == found@.map_values(|x: usize| x as int) + rodata_from(w, i + 1));
                    assert forall|k: int| 0 <= k < count implies #[trigger] found@[k] == all[k] by {
                        assert(all[k] == found@.map_values(|x: usize| x as int)[k]);
                    }
                    lemma_rodata_from_range(w, text_idx + 1);
                    assert forall|k: int| 0 <= k < count implies text_idx < #[trigger] found@[k] < secs@.len()
                        && secs@[found@[k] as int].name@ == rodata_name() by {
                        assert(w[all[k]] == secs@[all[k]]@);
                    }
                    assert forall|j: int| count > 0 && text_idx < j <= found@[count - 1] && #[trigger] secs@[j].name@
                        == rodata_name() implies found@.contains(j as usize) by {
                        assert(w[j] == secs@[j]@);
                        lemma_rodata_from_complete(w, text_idx + 1, j);
                        let p = choose|p: int| 0 <= p < all.len() && all[p] == j;
                        if p >= count {
                            assert(all[count - 1] < all[p]);
                        }
                        assert(found@[p] == j);
                    }
                }
                return Some(found);
            }
        }
        i += 1;
    }
    assert(rodata_from(w, n as int) =~= Seq::<int>::empty());
    None
}

/// The payload of a section whose bytes are replaced by the assembled `asm_text`: the
/// first as many bytes as it held, then zeros up to its size.
pub open spec fn transplanted_data(old_data: Seq<u8>, sh_size: u32, asm_text: Seq<u8>) -> Seq<u8> {
    let d = old_data.len();
    let head = asm_text.subrange(0, d as int);
    if d < sh_size {
        head + Seq::new((sh_size - d) as nat, |i: int| 0u8)
    } else {
        head
    }
}

/// Transplanting puts the assembled code where the stub's bytes were: the first bytes
/// of the new payload, as many as the stub had, are the first bytes of the assembled
/// text, and the rest, up to the section's recorded size, are zeros.
pub proof fn lemma_transplant_holds_assembled_code(old_data: Seq<u8>, sh_size: u32, asm_text: Seq<u8>)
    requires
        asm_text.len() >= old_data.len(),
    ensures
        transplanted_data(old_data, sh_size, asm_text).len() == if old_data.len() < sh_size {
            sh_size as int
        } else {
            old_data.len() as int
        },
        forall|i: int| 0 <= i < old_data.len() ==> #[trigger] transplanted_data(old_data, sh_size, asm_text)[i]
            == asm_text[i],
        forall|i: int|
            old_data.len() <= i < transplanted_data(old_data, sh_size, asm_text).len()
                ==> #[trigger] transplanted_data(old_data, sh_size, asm_text)[i] == 0,
{
}

/// Replaces the bytes of a compiled `.text` section with as many assembled bytes,
/// zero-filled up to the section's size; fails when there are too few assembled bytes.
pub fn transplant_text(section: &mut Section, asm_text: &[u8]) -> (r: Result<(), MWError>)
    ensures
        r is Ok <==> asm_text@.len() >= old(section).data@.len(),
        r is Ok ==> final(section)@ == (SectionView {
            data: transplanted_data(old(section).data@, old(section).sh_size, asm_text@),
            ..old(section)@
        }),
        r is Ok ==> forall|i: int| 0 <= i < old(section).data@.len() ==> #[trigger] final(section).data@[i]
            == asm_text@[i],
        r is Ok ==> forall|i: int| old(section).data@.len() <= i < final(section).data@.len()
            ==> #[trigger] final(section).data@[i] == 0,
        r is Ok ==> final(section).data@.len() == if old(section).data@.len() < old(section).sh_size {
            old(section).sh_size as int
        } else {
            old(section).data@.len() as int
        },
        r is Err ==> *final(section) == *old(section),
{
    let d = section.data.len();
    if asm_text.len() < d {
        return Err(MWError::Internal("not enough assembled code to fill a function"));
    }
    proof {
        lemma_transplant_holds_assembled_code(section.data@, section.sh_size, asm_text@);
    }
    let mut data = vstd::slice::slice_to_vec(vstd::slice::slice_subrange(asm_text, 0, d));
    let size = section.sh_size as usize;
    if d < size {
        let ghost head = data@;
        let mut k = d;
        while k < size
            invariant
                d <= k <= size,
                data@ == head + Seq::new((k - d) as nat, |i: int| 0u8),
            decreases size - k,
        {
            data.push(0);
            k += 1;
            assert(data@ =~= head + Seq::new((k - d) as nat, |i: int| 0u8));
        }
    }
    section.data = data;
    assert(section@ =~= (SectionView {
            data: transplanted_data(old(section).data@, old(section).sh_size, asm_text@),
            ..old(section)@
        }));
    Ok(())
}


/// Where the `k`-th of the `.rodata` sections `idxs` ends within the assembled data,
/// the sections being filled one after another from its start.
pub open spec fn piece_end(secs: Seq<SectionView>, idxs: Seq<usize>, k: int) -> int
    decreases k,
{
    if k <= 0 {
        0
    } else {
        piece_end(secs, idxs, k - 1) + secs[idxs[k - 1] as int].data.len()
    }
}

/// A `.rodata` section after its bytes were replaced by `bytes` of the assembled data:
/// aligned to 4 bytes (`sh_addralign` 2) in place of the compiler's 16.
pub open spec fn filled_rodata(s: SectionView, bytes: Seq<u8>) -> SectionView {
    SectionView { data: bytes, sh_addralign: 2, ..s }
}

/// Fills the `.rodata` sections `indices` one after another with the assembled data
/// `asm_rodata`, each taking as many bytes as it holds, and aligns them to 4 bytes.
/// Returns where each ends within the assembled data; fails, changing nothing, when
/// the assembled data is too short.
pub fn copy_rodata(sections: &mut Vec<Section>, indices: &[usize], asm_rodata: &[u8]) -> (r: Result<Vec<usize>, MWError>)
    requires
        forall|k: int| 0 <= k < indices@.len() ==> #[trigger] indices@[k] < old(sections)@.len(),
        forall|k: int, l: int| 0 <= k < l < indices@.len() ==> #[trigger] indices@[k] != #[trigger] indices@[l],
    ensures
        r is Ok <==> piece_end(section_views(old(sections)@), indices@, indices@.len() as int) <= asm_rodata@.len(),
        r is Err ==> final(sections)@ == old(sections)@,
        r matches Ok(ends) ==> {
            &&& ends@.len() == indices@.len()
            &&& forall|k: int| 0 <= k < ends@.len() ==> #[trigger] ends@[k] == piece_end(section_views(old(sections)@), indices@, k + 1)
            &&& final(sections)@.len() == old(sections)@.len()
            &&& forall|k: int| 0 <= k < indices@.len() ==> (#[trigger] final(sections)@[indices@[k] as int])@ == filled_rodata(
                old(sections)@[indices@[k] as int]@,
                asm_rodata@.subrange(
                    piece_end(section_views(old(sections)@), indices@, k),
                    piece_end(section_views(old(sections)@), indices@, k + 1),
                ),
            )
            &&& forall|j: int| 0 <= j < old(sections)@.len() && (forall|k: int| 0 <= k < indices@.len() ==> #[trigger] indices@[k] != j)
                ==> #[trigger] final(sections)@[j] == old(sections)@[j]
        },
        r matches Ok(ends) ==> forall|k: int| 0 <= k < indices@.len() ==> {
            let start = if k == 0 { 0 } else { ends@[k - 1] as int };
            let d = (#[trigger] final(sections)@[indices@[k] as int]).data@;
            &&& d.len() == old(sections)@[indices@[k] as int].data@.len()
            &&& ends@[k] == start + d.len()
            &&& ends@[k] <= asm_rodata@.len()
            &&& forall|i: int| 0 <= i < d.len() ==> #[trigger] d[i] == asm_rodata@[start + i]
            &&& final(sections)@[indices@[k] as int].sh_addralign == 2
        },
{
    let ghost w = section_views(sections@);
    let n = indices.len();
    let total = asm_rodata.len();
    let mut end: usize = 0;
    let mut k: usize = 0;
    while k < n
        invariant
            k <= n,
            n == indices@.len(),
            total == asm_rodata@.len(),
            w == section_views(sections@),
            forall|q: int| 0 <= q < n ==> #[trigger] indices@[q] < sections@.len(),
            end == piece_end(w, indices@, k as int),
            end <= total,
        decreases n - k,
    {
        let len = sections[indices[k]].data.len();
        assert(w[indices@[k as int] as int] == sections@[indices@[k as int] as int]@);
        if len > total - end {
            proof {
                lemma_piece_end_grows(w, indices@, k + 1, n as int);
            }
            return Err(MWError::Internal("not enough assembled data to fill the .rodata sections"));
        }
        end = end + len;
        k += 1;
    }
    let mut ends: Vec<usize> = Vec::new();
    let mut offset: usize = 0;
    let mut k: usize = 0;
    while k < n
        invariant
            k <= n,
            n == indices@.len(),
            total == asm_rodata@.len(),
            w == section_views(old(sections)@),
            sections@.len() == old(sections)@.len(),
            forall|q: int| 0 <= q < n ==> #[trigger] indices@[q] < sections@.len(),
            forall|q: int, l: int| 0 <= q < l < n ==> #[trigger] indices@[q] != #[trigger] indices@[l],
            piece_end(w, indices@, n as int) <= total,
            offset == piece_end(w, indices@, k as int),
            ends@.len() == k,
            forall|q: int| 0 <= q < k ==> #[trigger] ends@[q] == piece_end(w, indices@, q + 1),
            forall|q: int| 0 <= q < k ==> (#[trigger] sections@[indices@[q] as int])@ == filled_rodata(
                old(sections)@[indices@[q] as int]@,
                asm_rodata@.subrange(piece_end(w, indices@, q), piece_end(w, indices@, q + 1)),
            ),
            forall|j: int| 0 <= j < sections@.len() && (forall|q: int| 0 <= q < k ==> #[trigger] indices@[q] != j)
                ==> #[trigger] sections@[j] == old(sections)@[j],
        decreases n - k,
    {
        proof {
            lemma_piece_end_grows(w, indices@, k + 1, n as int);
        }
        let idx = indices[k];
        assert(sections@[idx as int] == old(sections)@[idx as int]) by {
            assert forall|q: int| 0 <= q < k implies #[trigger] indices@[q] != idx by {}
        }
        assert(w[idx as int] == old(sections)@[idx as int]@);
        let len = sections[idx].data.len();
        let bytes = vstd::slice::slice_to_vec(vstd::slice::slice_subrange(asm_rodata, offset, offset + len));
        let ghost before = sections@;
        sections[idx].data = bytes;
        sections[idx].sh_addralign = 2;
        offset = offset + len;
        ends.push(offset);
        proof {
            assert forall|j: int| 0 <= j < sections@.len() && j != idx implies #[trigger] sections@[j] == before[j] by {}
            assert(sections@[idx as int]@ == filled_rodata(
                old(sections)@[idx as int]@,
                asm_rodata@.subrange(piece_end(w, indices@, k as int), piece_end(w, indices@, k + 1)),
            ));
            assert forall|q: int| 0 <= q < k + 1 implies (#[trigger] sections@[indices@[q] as int])@ == filled_rodata(
                old(sections)@[indices@[q] as int]@,
                asm_rodata@.subrange(piece_end(w, indices@, q), piece_end(w, indices@, q + 1)),
            ) by {
                if q < k {
                    assert(indices@[q] != idx);
                    assert(sections@[indices@[q] as int] == before[indices@[q] as int]);
                }
            }
        }
        k += 1;
    }
    proof {
        let w = section_views(old(sections)@);
        let n = indices@.len() as int;
        lemma_piece_end_grows(w, indices@, 0, n);
        assert forall|k: int| 0 <= k < n implies {
            let start = if k == 0 { 0 } else { ends@[k - 1] as int };
            let d = (#[trigger] sections@[indices@[k] as int]).data@;
            &&& d.len() == old(sections)@[indices@[k] as int].data@.len()
            &&& ends@[k] == start + d.len()
            &&& ends@[k] <= asm_rodata@.len()
            &&& forall|i: int| 0 <= i < d.len() ==> #[trigger] d[i] == asm_rodata@[start + i]
            &&& sections@[indices@[k] as int].sh_addralign == 2
        } by {
            lemma_piece_end_grows(w, indices@, k, k + 1);
            lemma_piece_end_grows(w, indices@, k + 1, n);
            assert(w[indices@[k] as int] == old(sections)@[indices@[k] as int]@);
            if k > 0 {
                assert(ends@[k - 1] == piece_end(w, indices@, k));
            }
        }
    }
    Ok(ends)
}

proof fn lemma_piece_end_grows(secs: Seq<SectionView>, idxs: Seq<usize>, k: int, n: int)
    requires
        0 <= k <= n,
    ensures
        piece_end(secs, idxs, k) <= piece_end(secs, idxs, n),
    decreases n - k,
{
    if k < n {
        lemma_piece_end_grows(secs, idxs, k, n - 1);
    }
}


/// What moving the relocations of an assembled record into the compiled object has
/// built so far: the compiled object's tables, the assembled object's symbols, how
/// many local symbols were brought over, the names of the symbols the relocations
/// refer to, and the relocations pointed at the compiled object's symbols.
pub struct RelocTransfer {
    pub t: TablesView,
    pub asm_syms: Seq<SymbolView>,
    pub local: nat,
    pub names: Seq<Seq<char>>,
    pub relocs: Seq<RelocationView>,
}

/// `r` pointed at symbol `idx`, keeping its type.
pub open spec fn with_symbol_index(r: RelocationView, idx: int) -> RelocationView {
    RelocationView { r_info: (idx * 256 + spec_reloc_type(r.r_info)) as u32, ..r }
}

/// Moves one relocation over: its symbol in the assembled object (moved to section
/// `retarget` when given) is added to the compiled object (see [`spec_add_symbol`];
/// reused when it is there already unless `force` is set), and the relocation is
/// pointed at it. Fails when the relocation's symbol does not exist, when the count
/// of local symbols or the compiled symbol table is full, or when the new index does
/// not fit in 24 bits.
#[verifier::opaque]
pub open spec fn transfer_one(st: RelocTransfer, r: RelocationView, force: bool, retarget: Option<u16>) -> Option<RelocTransfer> {
    let si = spec_symbol_index(r.r_info) as int;
    if si >= st.asm_syms.len() {
        None
    } else {
        let sym0 = st.asm_syms[si];
        let is_local = spec_bind(sym0.st_info) == 0;
        if is_local && st.local >= usize::MAX {
            None
        } else {
            let sym = match retarget {
                Some(x) => SymbolView { st_shndx: x, ..sym0 },
                None => sym0,
            };
            if st.t.symbols.len() >= u32::MAX {
                None
            } else {
                let added = spec_add_symbol(st.t, sym, force);
                if added.1 > 0xFFFFFF {
                    None
                } else {
                    Some(
                        RelocTransfer {
                            t: added.0,
                            asm_syms: st.asm_syms.update(si, sym),
                            local: if is_local {
                                st.local + 1
                            } else {
                                st.local
                            },
                            names: st.names.push(sym.name),
                            relocs: st.relocs.push(with_symbol_index(r, added.1)),
                        },
                    )
                }
            }
        }
    }
}

/// Moves the relocations `rs` over one after another (see [`transfer_one`]).
#[verifier::opaque]
pub open spec fn transfer_all(st: RelocTransfer, rs: Seq<RelocationView>, force: bool, retarget: Option<u16>) -> Option<RelocTransfer>
    decreases rs.len(),
{
    if rs.len() == 0 {
        Some(st)
    } else {
        match transfer_all(st, rs.drop_last(), force, retarget) {
            None => None,
            Some(s) => transfer_one(s, rs.last(), force, retarget),
        }
    }
}

proof fn lemma_transfer_fails_on(st: RelocTransfer, rs: Seq<RelocationView>, j: int, force: bool, retarget: Option<u16>)
    requires
        0 <= j <= rs.len(),
        transfer_all(st, rs.subrange(0, j), force, retarget) is None,
    ensures
        transfer_all(st, rs, force, retarget) is None,
    decreases rs.len() - j,
{
    reveal(transfer_all);
    if j < rs.len() {
        assert(rs.subrange(0, j + 1).drop_last() =~= rs.subrange(0, j));
        lemma_transfer_fails_on(st, rs, j + 1, force, retarget);
    } else {
        assert(rs.subrange(0, j) =~= rs);
    }
}

/// Whether the compiled object kept everything but its tables.
pub open spec fn same_but_tables(a: Elf, b: Elf) -> bool {
    &&& a.header == b.header
    &&& a.sections@ == b.sections@
    &&& a.shstrtab_idx == b.shstrtab_idx
    &&& a.strtab_idx == b.strtab_idx
    &&& a.symtab_idx == b.symtab_idx
    &&& a.shstrtab == b.shstrtab
}

/// Moves one relocation over (see [`transfer_one`]) and returns it pointed at its
/// symbol in the compiled object.
#[verifier::spinoff_prover]
#[verifier::rlimit(30)]
fn transfer_step(
    compiled: &mut Elf,
    asm_syms: &mut Vec<Symbol>,
    rel: &Relocation,
    force: bool,
    retarget: Option<u16>,
    local: &mut usize,
    names: &mut Vec<String>,
) -> (r: Result<Relocation, MWError>)
    ensures
        same_but_tables(*old(compiled), *final(compiled)),
        match transfer_one(
            RelocTransfer {
                t: tables(*old(compiled)),
                asm_syms: symbol_views(old(asm_syms)@),
                local: *old(local) as nat,
                names: string_views(old(names)@),
                relocs: Seq::empty(),
            },
            rel@,
            force,
            retarget,
        ) {
            None => r is Err,
            Some(v) => r matches Ok(x) && tables(*final(compiled)) == v.t && symbol_views(
                final(asm_syms)@,
            ) == v.asm_syms && *final(local) == v.local && string_views(final(names)@) == v.names
                && v.relocs == seq![x@],
        },
{
    let ghost cur = RelocTransfer {
        t: tables(*compiled),
        asm_syms: symbol_views(asm_syms@),
        local: *local as nat,
        names: string_views(names@),
        relocs: Seq::empty(),
    };
    reveal(transfer_one);
    let si = rel.symbol_index();
    if si >= asm_syms.len() {
        return Err(MWError::Internal("a relocation refers to a missing symbol"));
    }
    assert(cur.asm_syms[si as int] == asm_syms@[si as int]@);
    let is_local = asm_syms[si].bind() == 0;
    if is_local {
        if *local == usize::MAX {
            return Err(MWError::Internal("too many local symbols"));
        }
        *local = *local + 1;
    }
    match retarget {
        Some(x) => {
            asm_syms[si].st_shndx = x;
        },
        None => {},
    }
    if compiled.symtab.symbols.len() >= 0xFFFF_FFFF {
        return Err(MWError::Internal("the symbol table is full"));
    }
    let sym = asm_syms[si].clone();
    let name = sym.name.clone();
    let idx = compiled.add_symbol_get_index(sym, force);
    if idx > 0xFFFFFF {
        return Err(MWError::Internal("a symbol index does not fit in a relocation"));
    }
    let mut moved = rel.clone();
    moved.set_symbol_index(idx as u32);
    let ghost before_names = names@;
    names.push(name);
    proof {
        assert(string_views(names@) =~= string_views(before_names).push(name@));
        assert(symbol_views(asm_syms@) =~= cur.asm_syms.update(si as int, asm_syms@[si as int]@));
        assert(seq![moved@] =~= Seq::<RelocationView>::empty().push(moved@));
    }
    Ok(moved)
}

/// Moving one relocation over does not look at the relocations moved before it.
proof fn lemma_transfer_one_relocs(st: RelocTransfer, r: RelocationView, force: bool, retarget: Option<u16>)
    ensures
        match transfer_one(RelocTransfer { relocs: Seq::empty(), ..st }, r, force, retarget) {
            None => transfer_one(st, r, force, retarget) is None,
            Some(v) => transfer_one(st, r, force, retarget) == Some(
                RelocTransfer { relocs: st.relocs + v.relocs, ..v },
            ),
        },
{
    reveal(transfer_one);
    match transfer_one(RelocTransfer { relocs: Seq::empty(), ..st }, r, force, retarget) {
        None => {},
        Some(v) => {
            let w = transfer_one(st, r, force, retarget).unwrap();
            assert(w.relocs =~= st.relocs + v.relocs);
        },
    }
}

/// The index an addition returns lies inside the table it leaves, which is never
/// shorter than before.
proof fn lemma_add_symbol_index(t: TablesView, sym: SymbolView, force: bool)
    ensures
        t.symbols.len() <= spec_add_symbol(t, sym, force).0.symbols.len(),
        0 <= spec_add_symbol(t, sym, force).1 < spec_add_symbol(t, sym, force).0.symbols.len(),
{
    let names = crate::elf::symbol_names(t.symbols);
    if !force && exists|i: int| crate::elf::is_first_name(names, sym.name, i) {
        let i = choose|i: int| crate::elf::is_first_name(names, sym.name, i);
        assert(names.len() == t.symbols.len());
    }
}

/// A relocation pointed at symbol `idx` (below 2^24) names that symbol and keeps its type.
proof fn lemma_with_symbol_index(r: RelocationView, idx: int)
    requires
        0 <= idx <= 0xFFFFFF,
    ensures
        spec_symbol_index(with_symbol_index(r, idx).r_info) == idx,
        spec_reloc_type(with_symbol_index(r, idx).r_info) == spec_reloc_type(r.r_info),
        with_symbol_index(r, idx).r_offset == r.r_offset,
{
    let ty = spec_reloc_type(r.r_info) as int;
    assert(0 <= ty < 256);
    let v = idx * 256 + ty;
    assert(0 <= v <= 0xFFFF_FFFF) by (nonlinear_arith)
        requires
            0 <= idx <= 0xFFFFFF,
            0 <= ty < 256,
            v == idx * 256 + ty,
    ;
    assert(v / 256 == idx && v % 256 == ty) by (nonlinear_arith)
        requires
            0 <= idx,
            0 <= ty < 256,
            v == idx * 256 + ty,
    ;
}

/// Moving one relocation over appends it, pointed at a symbol inside the table it
/// leaves, which is never shorter than before; its offset and type are kept.
proof fn lemma_transfer_one_in_range(p: RelocTransfer, r: RelocationView, force: bool, retarget: Option<u16>)
    requires
        transfer_one(p, r, force, retarget) is Some,
    ensures
        ({
            let s = transfer_one(p, r, force, retarget).unwrap();
            &&& s.relocs.len() == p.relocs.len() + 1
            &&& s.relocs.drop_last() == p.relocs
            &&& p.t.symbols.len() <= s.t.symbols.len()
            &&& spec_symbol_index(s.relocs.last().r_info) < s.t.symbols.len()
            &&& s.relocs.last().r_offset == r.r_offset
            &&& spec_reloc_type(s.relocs.last().r_info) == spec_reloc_type(r.r_info)
        }),
{
    reveal(transfer_one);
    let s = transfer_one(p, r, force, retarget).unwrap();
    let si = spec_symbol_index(r.r_info) as int;
    let sym0 = p.asm_syms[si];
    let sym = match retarget {
        Some(x) => SymbolView { st_shndx: x, ..sym0 },
        None => sym0,
    };
    lemma_add_symbol_index(p.t, sym, force);
    let added = spec_add_symbol(p.t, sym, force);
    lemma_with_symbol_index(r, added.1);
    assert(s.relocs == p.relocs.push(with_symbol_index(r, added.1)));
    assert(s.relocs.drop_last() =~= p.relocs);
}

/// Moving relocations over (see [`transfer_all`]) points every one of them, those moved
/// before included, at a symbol inside the compiled object's symbol table as it stands
/// afterwards; the moved relocations keep their offsets and types, in order.
pub proof fn lemma_transfer_in_range(st: RelocTransfer, rs: Seq<RelocationView>, force: bool, retarget: Option<u16>)
    requires
        forall|k: int| 0 <= k < st.relocs.len() ==> spec_symbol_index(
            (#[trigger] st.relocs[k]).r_info,
        ) < st.t.symbols.len(),
        transfer_all(st, rs, force, retarget) is Some,
    ensures
        ({
            let s = transfer_all(st, rs, force, retarget).unwrap();
            &&& s.relocs.len() == st.relocs.len() + rs.len()
            &&& s.relocs.subrange(0, st.relocs.len() as int) == st.relocs
            &&& st.t.symbols.len() <= s.t.symbols.len()
            &&& forall|k: int| 0 <= k < s.relocs.len() ==> spec_symbol_index(
                (#[trigger] s.relocs[k]).r_info,
            ) < s.t.symbols.len()
            &&& forall|k: int| 0 <= k < rs.len() ==> (#[trigger] s.relocs[st.relocs.len() + k]).r_offset
                == rs[k].r_offset && spec_reloc_type(s.relocs[st.relocs.len() + k].r_info)
                == spec_reloc_type(rs[k].r_info)
        }),
    decreases rs.len(),
{
    reveal(transfer_all);
    if rs.len() > 0 {
        let init = rs.drop_last();
        assert(transfer_all(st, init, force, retarget) is Some);
        lemma_transfer_in_range(st, init, force, retarget);
        let p = transfer_all(st, init, force, retarget).unwrap();
        let r = rs.last();
        lemma_transfer_one_in_range(p, r, force, retarget);
        let s = transfer_one(p, r, force, retarget).unwrap();
        assert forall|k: int| 0 <= k < s.relocs.len() implies spec_symbol_index(
            (#[trigger] s.relocs[k]).r_info,
        ) < s.t.symbols.len() by {
            if k < p.relocs.len() {
                assert(s.relocs[k] == p.relocs[k]);
            }
        }
        assert forall|k: int| 0 <= k < rs.len() implies (#[trigger] s.relocs[st.relocs.len()
            + k]).r_offset == rs[k].r_offset && spec_reloc_type(
            s.relocs[st.relocs.len() + k].r_info,
        ) == spec_reloc_type(rs[k].r_info) by {
            if k < init.len() {
                assert(s.relocs[st.relocs.len() + k] == p.relocs[st.relocs.len() + k]);
                assert(init[k] == rs[k]);
            }
        }
        assert(s.relocs.subrange(0, st.relocs.len() as int) =~= st.relocs) by {
            assert(p.relocs.subrange(0, st.relocs.len() as int) == st.relocs);
        }
    } else {
        assert(st.relocs.subrange(0, st.relocs.len() as int) =~= st.relocs);
    }
}

/// Moves the relocations of one assembled record into the compiled object (see
/// [`transfer_all`]), updating the assembled symbols, the local-symbol count and the
/// list of names in place.
#[verifier::spinoff_prover]
pub fn transfer_relocations(
    compiled: &mut Elf,
    asm_syms: &mut Vec<Symbol>,
    relocations: &mut Vec<Relocation>,
    force: bool,
    retarget: Option<u16>,
    local: &mut usize,
    names: &mut Vec<String>,
) -> (r: Result<(), MWError>)
    ensures
        same_but_tables(*old(compiled), *final(compiled)),
        match transfer_all(
            RelocTransfer {
                t: tables(*old(compiled)),
                asm_syms: symbol_views(old(asm_syms)@),
                local: *old(local) as nat,
                names: string_views(old(names)@),
                relocs: Seq::empty(),
            },
            relocation_views(old(relocations)@),
            force,
            retarget,
        ) {
            None => r is Err,
            Some(v) => r is Ok && tables(*final(compiled)) == v.t && symbol_views(final(asm_syms)@)
                == v.asm_syms && *final(local) == v.local && string_views(final(names)@) == v.names
                && relocation_views(final(relocations)@) == v.relocs,
        },
{
    let ghost start = RelocTransfer {
        t: tables(*compiled),
        asm_syms: symbol_views(asm_syms@),
        local: *local as nat,
        names: string_views(names@),
        relocs: Seq::empty(),
    };
    reveal(transfer_all);
    let ghost rs = relocation_views(relocations@);
    let n = relocations.len();
    let mut out: Vec<Relocation> = Vec::new();
    let mut j: usize = 0;
    assert(rs.subrange(0, 0) =~= Seq::<RelocationView>::empty());
    assert(relocation_views(out@) =~= Seq::<RelocationView>::empty());
    while j < n
        invariant
            j <= n,
            n == relocations@.len(),
            rs == relocation_views(relocations@),
            relocations@ == old(relocations)@,
            start == (RelocTransfer {
                t: tables(*old(compiled)),
                asm_syms: symbol_views(old(asm_syms)@),
                local: *old(local) as nat,
                names: string_views(old(names)@),
                relocs: Seq::empty(),
            }),
            same_but_tables(*old(compiled), *compiled),
            transfer_all(start, rs.subrange(0, j as int), force, retarget) == Some(
                RelocTransfer {
                    t: tables(*compiled),
                    asm_syms: symbol_views(asm_syms@),
                    local: *local as nat,
                    names: string_views(names@),
                    relocs: relocation_views(out@),
                },
            ),
        decreases n - j,
    {
        let ghost cur = RelocTransfer {
            t: tables(*compiled),
            asm_syms: symbol_views(asm_syms@),
            local: *local as nat,
            names: string_views(names@),
            relocs: relocation_views(out@),
        };
        let ghost pre = rs.subrange(0, j as int);
        let ghost next = rs.subrange(0, j + 1);
        assert(next.drop_last() =~= pre);
        assert(next.last() == relocations@[j as int]@);
        proof {
            reveal(transfer_all);
            lemma_transfer_one_relocs(cur, relocations@[j as int]@, force, retarget);
        }
        match transfer_step(compiled, asm_syms, &relocations[j], force, retarget, local, names) {
            Err(e) => {
                proof {
                    assert(transfer_one(cur, rs[j as int], force, retarget) is None);
                    assert(transfer_all(start, next, force, retarget) is None);
                    lemma_transfer_fails_on(start, rs, j + 1, force, retarget);
                }
                return Err(e);
            },
            Ok(moved) => {
                let ghost before_out = out@;
                out.push(moved);
                assert(relocation_views(out@) =~= relocation_views(before_out) + seq![moved@]);
                proof {
                    reveal(transfer_all);
                }
            },
        }
        j += 1;
    }
    assert(rs.subrange(0, n as int) =~= rs);
    *relocations = out;
    Ok(())
}


/// What splicing one assembled object needs to know besides the objects: whether it
/// has code, the compiled section that code goes to, the compiled `.rodata` sections
/// its data goes to and where the pieces of that data end, the names of the
/// relocation sections, where the compiled symbol table is, and where its global
/// symbols started before any symbol was brought over.
pub struct SpliceCtx {
    pub has_text: bool,
    pub text_idx: usize,
    pub rodata: Seq<usize>,
    pub offsets: Seq<usize>,
    pub rel_text: u32,
    pub rel_rodata: u32,
    pub symtab_idx: usize,
    pub initial_sh_info: u32,
}

/// The compiled object and the assembled symbols while one object is spliced: the
/// sections, the section-name table, the symbol tables, the assembled symbols, how
/// many local symbols were brought over and the names the relocations refer to.
pub struct SpliceState {
    pub secs: Seq<SectionView>,
    pub shstrtab: SectionView,
    pub t: TablesView,
    pub asm_syms: Seq<SymbolView>,
    pub local: nat,
    pub names: Seq<Seq<char>>,
}

/// The state of a compiled object and the assembled symbols.
pub open spec fn splice_state(e: Elf, asm_syms: Seq<Symbol>, local: usize, names: Seq<String>) -> SpliceState {
    SpliceState {
        secs: section_views(e.sections@),
        shstrtab: e.shstrtab.section@,
        t: tables(e),
        asm_syms: symbol_views(asm_syms),
        local: local as nat,
        names: string_views(names),
    }
}

/// The header of the `i`-th assembled relocation record as it goes into the compiled
/// object: linked to the compiled symbol table, and applying to the compiled code
/// section (the first record of an object with code) or else to its first `.rodata`
/// section.
pub open spec fn record_header(rec: SectionView, i: int, ctx: SpliceCtx) -> SectionView {
    if ctx.has_text && i == 0 {
        SectionView { sh_link: ctx.symtab_idx as u32, sh_name: ctx.rel_text, sh_info: ctx.text_idx as u32, ..rec }
    } else {
        SectionView {
            sh_link: ctx.symtab_idx as u32,
            sh_name: ctx.rel_rodata,
            sh_info: ctx.rodata[0] as u32,
            ..rec
        }
    }
}

/// `sec` appended to the sections, its name added to the section-name table.
pub open spec fn with_section(st: SpliceState, sec: SectionView) -> SpliceState {
    SpliceState {
        secs: st.secs.push(SectionView { sh_name: spec_add_name(st.shstrtab.data, sec.name).1 as u32, ..sec }),
        shstrtab: strtab_after_add(st.shstrtab, sec.name),
        ..st
    }
}

/// Brings the `i`-th assembled relocation record over: its relocations are moved
/// (see [`transfer_all`]; symbols are reused only for the code record of an object
/// with code, and the second record of such an object moves its symbols to the code
/// section), and the record is appended with the new header. Fails when a record
/// other than the code record has no `.rodata` section to apply to, when the record
/// holds a partial entry, or when moving fails.
#[verifier::opaque]
pub open spec fn record_transferred(st: SpliceState, rec: SectionView, i: int, ctx: SpliceCtx) -> Option<SpliceState> {
    if !(ctx.has_text && i == 0) && ctx.rodata.len() == 0 {
        None
    } else if rec.data.len() % 8 != 0 {
        None
    } else {
        let hdr = record_header(rec, i, ctx);
        match transfer_all(
            RelocTransfer { t: st.t, asm_syms: st.asm_syms, local: st.local, names: st.names, relocs: Seq::empty() },
            spec_unpack_relocations(rec.data),
            !ctx.has_text || i != 0,
            if ctx.has_text && i == 1 {
                Some(ctx.text_idx as u16)
            } else {
                None
            },
        ) {
            None => None,
            Some(v) => {
                let sec = SectionView { data: relocations_bytes(v.relocs), sh_size: (8 * v.relocs.len()) as u32, ..hdr };
                Some(with_section(SpliceState { t: v.t, asm_syms: v.asm_syms, local: v.local, names: v.names, ..st }, sec))
            },
        }
    }
}

/// Whether the compiled object kept its header and table positions.
pub open spec fn same_frame(a: Elf, b: Elf) -> bool {
    &&& a.header == b.header
    &&& a.shstrtab_idx == b.shstrtab_idx
    &&& a.strtab_idx == b.strtab_idx
    &&& a.symtab_idx == b.symtab_idx
}

/// Brings the `i`-th assembled relocation record over (see [`record_transferred`]).
#[verifier::spinoff_prover]
pub fn transfer_record(
    compiled: &mut Elf,
    asm_syms: &mut Vec<Symbol>,
    rec: &Section,
    i: usize,
    has_text: bool,
    text_idx: usize,
    rodata: &[usize],
    rel_text: u32,
    rel_rodata: u32,
    local: &mut usize,
    names: &mut Vec<String>,
) -> (r: Result<(), MWError>)
    ensures
        same_frame(*old(compiled), *final(compiled)),
        match record_transferred(
            splice_state(*old(compiled), old(asm_syms)@, *old(local), old(names)@),
            rec@,
            i as int,
            SpliceCtx {
                has_text,
                text_idx,
                rodata: rodata@,
                offsets: Seq::empty(),
                rel_text,
                rel_rodata,
                symtab_idx: old(compiled).symtab_idx,
                initial_sh_info: 0,
            },
        ) {
            None => r is Err,
            Some(v) => r is Ok && splice_state(*final(compiled), final(asm_syms)@, *final(local), final(names)@) == v,
        },
{
    let ghost st = splice_state(*compiled, asm_syms@, *local, names@);
    let ghost ctx = SpliceCtx {
        has_text,
        text_idx,
        rodata: rodata@,
        offsets: Seq::empty(),
        rel_text,
        rel_rodata,
        symtab_idx: compiled.symtab_idx,
        initial_sh_info: 0,
    };
    let first_text = has_text && i == 0;
    if !first_text && rodata.len() == 0 {
        assert(record_transferred(st, rec@, i as int, ctx) is None) by {
            reveal(record_transferred);
        }
        return Err(MWError::Internal("a relocation record has no .rodata section to apply to"));
    }
    if rec.data.len() % 8 != 0 {
        assert(record_transferred(st, rec@, i as int, ctx) is None) by {
            reveal(record_transferred);
        }
        return Err(MWError::Internal("a relocation record holds a partial entry"));
    }
    let mut section = rec.clone();
    #[verifier::truncate]
    let link = compiled.symtab_idx as u32;
    section.sh_link = link;
    if first_text {
        section.sh_name = rel_text;
        #[verifier::truncate]
        let info = text_idx as u32;
        section.sh_info = info;
    } else {
        section.sh_name = rel_rodata;
        #[verifier::truncate]
        let info = rodata[0] as u32;
        section.sh_info = info;
    }
    assert(section@ == record_header(rec@, i as int, ctx));
    let mut rr = RelocationRecord::new(section);
    let force = !has_text || i != 0;
    let retarget = if has_text && i == 1 {
        #[verifier::truncate]
        let t = text_idx as u16;
        Some(t)
    } else {
        None
    };
    let ghost start = RelocTransfer { t: st.t, asm_syms: st.asm_syms, local: st.local, names: st.names, relocs: Seq::empty() };
    let ghost result = transfer_all(start, spec_unpack_relocations(rec@.data), force, retarget);
    match transfer_relocations(compiled, asm_syms, &mut rr.relocations, force, retarget, local, names) {
        Err(e) => {
            assert(record_transferred(st, rec@, i as int, ctx) is None) by {
                reveal(record_transferred);
            }
            return Err(e);
        },
        Ok(()) => {},
    }
    let ghost v = result.unwrap();
    rr.pack();
    let ghost sec = rr.section@;
    assert(sec == SectionView { data: relocations_bytes(v.relocs), sh_size: (8 * v.relocs.len()) as u32, ..record_header(rec@, i as int, ctx) });
    compiled.add_section(rr.section);
    proof {
        let mid = SpliceState { t: v.t, asm_syms: v.asm_syms, local: v.local, names: v.names, ..st };
        assert(record_transferred(st, rec@, i as int, ctx) == Some(with_section(mid, sec))) by {
            reveal(record_transferred);
        }
        assert(section_views(compiled.sections@) =~= st.secs.push(
            SectionView { sh_name: spec_add_name(st.shstrtab.data, sec.name).1 as u32, ..sec },
        ));
    }
    Ok(())
}


/// Brings the assembled relocation records `recs` over one after another (see
/// [`record_transferred`]).
pub open spec fn records_transferred(st: SpliceState, recs: Seq<SectionView>, ctx: SpliceCtx) -> Option<SpliceState>
    decreases recs.len(),
{
    if recs.len() == 0 {
        Some(st)
    } else {
        match records_transferred(st, recs.drop_last(), ctx) {
            None => None,
            Some(s) => record_transferred(s, recs.last(), recs.len() - 1, ctx),
        }
    }
}

/// The sections of a list of indexed sections.
pub open spec fn indexed_sections(v: Seq<(usize, Section)>) -> Seq<SectionView> {
    v.map_values(|p: (usize, Section)| p.1@)
}

/// Brings the assembled relocation records `recs` over (see [`records_transferred`]).
pub fn transfer_records(
    compiled: &mut Elf,
    asm_syms: &mut Vec<Symbol>,
    recs: &Vec<(usize, Section)>,
    has_text: bool,
    text_idx: usize,
    rodata: &[usize],
    rel_text: u32,
    rel_rodata: u32,
    local: &mut usize,
    names: &mut Vec<String>,
) -> (r: Result<(), MWError>)
    ensures
        same_frame(*old(compiled), *final(compiled)),
        match records_transferred(
            splice_state(*old(compiled), old(asm_syms)@, *old(local), old(names)@),
            indexed_sections(recs@),
            SpliceCtx {
                has_text,
                text_idx,
                rodata: rodata@,
                offsets: Seq::empty(),
                rel_text,
                rel_rodata,
                symtab_idx: old(compiled).symtab_idx,
                initial_sh_info: 0,
            },
        ) {
            None => r is Err,
            Some(v) => r is Ok && splice_state(*final(compiled), final(asm_syms)@, *final(local), final(names)@) == v,
        },
{
    let ghost ctx = SpliceCtx {
        has_text,
        text_idx,
        rodata: rodata@,
        offsets: Seq::empty(),
        rel_text,
        rel_rodata,
        symtab_idx: compiled.symtab_idx,
        initial_sh_info: 0,
    };
    let ghost st0 = splice_state(*compiled, asm_syms@, *local, names@);
    let ghost all = indexed_sections(recs@);
    let n = recs.len();
    let mut i: usize = 0;
    assert(all.subrange(0, 0) =~= Seq::<SectionView>::empty());
    while i < n
        invariant
            i <= n,
            n == recs@.len(),
            all == indexed_sections(recs@),
            ctx.symtab_idx == compiled.symtab_idx,
            ctx == (SpliceCtx {
                has_text,
                text_idx,
                rodata: rodata@,
                offsets: Seq::empty(),
                rel_text,
                rel_rodata,
                symtab_idx: old(compiled).symtab_idx,
                initial_sh_info: 0,
            }),
            st0 == splice_state(*old(compiled), old(asm_syms)@, *old(local), old(names)@),
            same_frame(*old(compiled), *compiled),
            records_transferred(st0, all.subrange(0, i as int), ctx) == Some(
                splice_state(*compiled, asm_syms@, *local, names@),
            ),
        decreases n - i,
    {
        let ghost next = all.subrange(0, i + 1);
        assert(next.drop_last() =~= all.subrange(0, i as int));
        assert(next.last() == recs@[i as int].1@);
        match transfer_record(compiled, asm_syms, &recs[i].1, i, has_text, text_idx, rodata, rel_text, rel_rodata, local, names) {
            Err(e) => {
                proof {
                    lemma_records_fail_on(st0, all, i + 1, ctx);
                }
                return Err(e);
            },
            Ok(()) => {},
        }
        i += 1;
    }
    assert(all.subrange(0, n as int) =~= all);
    Ok(())
}

proof fn lemma_records_fail_on(st: SpliceState, recs: Seq<SectionView>, j: int, ctx: SpliceCtx)
    requires
        0 <= j <= recs.len(),
        records_transferred(st, recs.subrange(0, j), ctx) is None,
    ensures
        records_transferred(st, recs, ctx) is None,
    decreases recs.len() - j,
{
    if j < recs.len() {
        assert(recs.subrange(0, j + 1).drop_last() =~= recs.subrange(0, j));
        lemma_records_fail_on(st, recs, j + 1, ctx);
    } else {
        assert(recs.subrange(0, j) =~= recs);
    }
}


/// The relocation sections that a compiled `.rodata` relocation section `rs` is split
/// into, one per `.rodata` piece: each holds the relocations falling in its piece (see
/// [`split_spec`]) and applies to that piece.
pub open spec fn split_sections(rs: SectionView, ctx: SpliceCtx) -> Seq<SectionView> {
    let parts = split_spec(spec_unpack_relocations(rs.data), ctx.offsets);
    Seq::new(
        parts.len(),
        |i: int|
            SectionView {
                sh_info: ctx.rodata[i] as u32,
                data: relocations_bytes(parts[i]),
                sh_size: (8 * parts[i].len()) as u32,
                ..rs
            },
    )
}

/// A relocation renumbered after `local` local symbols were inserted where the global
/// symbols started (`initial`): indices from there on move up by `local`.
pub open spec fn shifted(r: RelocationView, initial: u32, local: nat) -> RelocationView {
    let si = spec_symbol_index(r.r_info);
    if si >= initial {
        with_symbol_index(r, si + local)
    } else {
        r
    }
}

/// The relocations renumbered (see [`shifted`]).
pub open spec fn shifted_all(rels: Seq<RelocationView>, initial: u32, local: nat) -> Seq<RelocationView> {
    rels.map_values(|r: RelocationView| shifted(r, initial, local))
}

/// Whether renumbering keeps every index within 24 bits.
pub open spec fn shift_fits(rels: Seq<RelocationView>, initial: u32, local: nat) -> bool {
    forall|k: int|
        0 <= k < rels.len() && spec_symbol_index(#[trigger] rels[k].r_info) >= initial
            ==> spec_symbol_index(rels[k].r_info) + local <= 0xFFFFFF
}

/// A relocation section with its relocations renumbered (see [`shifted`]), or `None`
/// when an index would not fit.
#[verifier::opaque]
pub open spec fn renumbered(rs: SectionView, initial: u32, local: nat) -> Option<SectionView> {
    let rels = spec_unpack_relocations(rs.data);
    if !shift_fits(rels, initial, local) {
        None
    } else {
        Some(SectionView { data: relocations_bytes(shifted_all(rels, initial, local)), sh_size: (8 * rels.len()) as u32, ..rs })
    }
}

/// The first section with the type, `sh_info` and name index of `rs`.
#[verifier::opaque]
pub open spec fn first_like(secs: Seq<SectionView>, rs: SectionView) -> Option<int> {
    if exists|p: int| 0 <= p < secs.len() && is_like(secs[p], rs) && forall|q: int| 0 <= q < p ==> !is_like(#[trigger] secs[q], rs) {
        Some(choose|p: int| 0 <= p < secs.len() && is_like(secs[p], rs) && forall|q: int| 0 <= q < p ==> !is_like(#[trigger] secs[q], rs))
    } else {
        None
    }
}

/// Whether `s` has the type, `sh_info` and name index of `rs`.
pub open spec fn is_like(s: SectionView, rs: SectionView) -> bool {
    s.sh_type == rs.sh_type && s.sh_info == rs.sh_info && s.sh_name == rs.sh_name
}

/// Updates one relocation section `rs` of the compiled object, at `idx`, after local
/// symbols were brought over: one that applies to the first `.rodata` piece is split
/// over the pieces (when there are several), its first part replacing it and all of
/// them kept in `pending`; any other has its relocations renumbered (see [`shifted`])
/// and replaces the first section like it. Fails on a partial entry, when there is no
/// `.rodata` piece, when an index would not fit, or when no section is like `rs`.
#[verifier::opaque]
pub open spec fn fixed_section(secs: Seq<SectionView>, pending: Seq<SectionView>, idx: int, rs: SectionView, ctx: SpliceCtx, local: nat) -> Option<(Seq<SectionView>, Seq<SectionView>)> {
    if rs.data.len() % 8 != 0 || ctx.rodata.len() == 0 {
        None
    } else if rs.sh_info == ctx.rodata[0] as u32 {
        if ctx.rodata.len() == 1 {
            Some((secs, pending))
        } else {
            let news = split_sections(rs, ctx);
            Some((secs.update(idx, news[0]), pending + news))
        }
    } else {
        match renumbered(rs, ctx.initial_sh_info, local) {
            None => None,
            Some(packed) => match first_like(secs, rs) {
                None => None,
                Some(p) => Some((secs.update(p, packed), pending)),
            },
        }
    }
}

/// The first section like `rs` (see [`first_like`]).
fn find_like(secs: &Vec<Section>, rs: &Section) -> (r: Option<usize>)
    ensures
        r matches Some(p) ==> p < secs@.len() && first_like(section_views(secs@), rs@) == Some(p as int),
        r is None ==> first_like(section_views(secs@), rs@) is None,
{
    reveal(first_like);
    let ghost w = section_views(secs@);
    let n = secs.len();
    let mut p: usize = 0;
    while p < n
        invariant
            p <= n,
            n == secs@.len(),
            w == section_views(secs@),
            forall|q: int| 0 <= q < p ==> !is_like(#[trigger] w[q], rs@),
        decreases n - p,
    {
        assert(w[p as int] == secs@[p as int]@);
        if secs[p].sh_type == rs.sh_type && secs[p].sh_info == rs.sh_info && secs[p].sh_name == rs.sh_name {
            assert(0 <= p < w.len() && is_like(w[p as int], rs@) && forall|q: int| 0 <= q < p ==> !is_like(#[trigger] w[q], rs@));
            proof {
                reveal(first_like);
                let c = choose|c: int| 0 <= c < w.len() && is_like(w[c], rs@) && forall|q: int| 0 <= q < c ==> !is_like(#[trigger] w[q], rs@);
                if c < p {
                    assert(!is_like(w[c], rs@));
                }
                if c > p {
                    assert(!is_like(w[p as int], rs@));
                }
            }
            return Some(p);
        }
        p += 1;
    }
    proof {
        reveal(first_like);
    }
    None
}

/// Renumbering after `local` symbols were inserted at index `initial` keeps each
/// relocation on its symbol: a relocation naming symbol `i` of the old table names,
/// once renumbered, the same symbol in the new table (the old one with the inserted
/// symbols at `initial`). An index at or above `initial` moves up by `local`, one below
/// stays; the offset and the relocation type are kept.
pub proof fn lemma_shift_keeps_symbols(
    rels: Seq<RelocationView>,
    initial: u32,
    local: nat,
    old_syms: Seq<SymbolView>,
    inserted: Seq<SymbolView>,
)
    requires
        shift_fits(rels, initial, local),
        inserted.len() == local,
        initial <= old_syms.len(),
        forall|k: int| 0 <= k < rels.len() ==> spec_symbol_index(#[trigger] rels[k].r_info) < old_syms.len(),
    ensures
        shifted_all(rels, initial, local).len() == rels.len(),
        forall|k: int| 0 <= k < rels.len() ==> {
            let si = spec_symbol_index(rels[k].r_info) as int;
            let r2 = #[trigger] shifted_all(rels, initial, local)[k];
            let new_syms = old_syms.subrange(0, initial as int) + inserted + old_syms.subrange(
                initial as int,
                old_syms.len() as int,
            );
            &&& spec_symbol_index(r2.r_info) == if si >= initial { si + local } else { si }
            &&& new_syms[spec_symbol_index(r2.r_info) as int] == old_syms[si]
            &&& r2.r_offset == rels[k].r_offset
            &&& spec_reloc_type(r2.r_info) == spec_reloc_type(rels[k].r_info)
        },
{
    assert forall|k: int| 0 <= k < rels.len() implies {
        let si = spec_symbol_index(rels[k].r_info) as int;
        let r2 = #[trigger] shifted_all(rels, initial, local)[k];
        let new_syms = old_syms.subrange(0, initial as int) + inserted + old_syms.subrange(
            initial as int,
            old_syms.len() as int,
        );
        &&& spec_symbol_index(r2.r_info) == if si >= initial { si + local } else { si }
        &&& new_syms[spec_symbol_index(r2.r_info) as int] == old_syms[si]
        &&& r2.r_offset == rels[k].r_offset
        &&& spec_reloc_type(r2.r_info) == spec_reloc_type(rels[k].r_info)
    } by {
        let r = rels[k];
        let si = spec_symbol_index(r.r_info) as int;
        if si >= initial {
            assert(si + local <= 0xFFFFFF);
            lemma_with_symbol_index(r, si + local);
        }
    }
}

/// The relocations renumbered (see [`shifted`]), or `None` when an index would not fit.
fn shift_relocations(rels: &Vec<Relocation>, initial_sh_info: u32, local: usize) -> (r: Option<Vec<Relocation>>)
    ensures
        r is Some <==> shift_fits(relocation_views(rels@), initial_sh_info, local as nat),
        r matches Some(v) ==> relocation_views(v@) == shifted_all(relocation_views(rels@), initial_sh_info, local as nat),
        r matches Some(v) ==> v@.len() == rels@.len() && forall|k: int| 0 <= k < rels@.len() ==> spec_symbol_index(
            #[trigger] v@[k].r_info,
        ) == if spec_symbol_index(rels@[k].r_info) >= initial_sh_info {
            spec_symbol_index(rels@[k].r_info) + local
        } else {
            spec_symbol_index(rels@[k].r_info) as int
        },
{
    let ghost views = relocation_views(rels@);
    let n = rels.len();
    let mut out: Vec<Relocation> = Vec::new();
    let mut k: usize = 0;
    while k < n
        invariant
            k <= n,
            n == rels@.len(),
            views == relocation_views(rels@),
            forall|j: int| 0 <= j < k && spec_symbol_index(#[trigger] views[j].r_info) >= initial_sh_info
                ==> spec_symbol_index(views[j].r_info) + local <= 0xFFFFFF,
            relocation_views(out@) == shifted_all(views.subrange(0, k as int), initial_sh_info, local as nat),
        decreases n - k,
    {
        let mut rel = rels[k].clone();
        let si = rel.symbol_index();
        assert(views[k as int] == rels@[k as int]@);
        if si >= initial_sh_info as usize {
            if si > 0xFFFFFF || local > 0xFFFFFF - si {
                assert(!shift_fits(views, initial_sh_info, local as nat)) by {
                    assert(spec_symbol_index(views[k as int].r_info) >= initial_sh_info);
                }
                return None;
            }
            rel.set_symbol_index((si + local) as u32);
        }
        let ghost before = out@;
        out.push(rel);
        proof {
            assert(relocation_views(out@) =~= relocation_views(before).push(rel@));
            assert(shifted_all(views.subrange(0, k + 1), initial_sh_info, local as nat) =~= shifted_all(
                views.subrange(0, k as int),
                initial_sh_info,
                local as nat,
            ).push(shifted(views[k as int], initial_sh_info, local as nat)));
        }
        k += 1;
    }
    assert(views.subrange(0, n as int) =~= views);
    proof {
        assert forall|k: int| 0 <= k < rels@.len() implies spec_symbol_index(#[trigger] out@[k].r_info)
            == if spec_symbol_index(rels@[k].r_info) >= initial_sh_info {
            spec_symbol_index(rels@[k].r_info) + local
        } else {
            spec_symbol_index(rels@[k].r_info) as int
        } by {
            assert(relocation_views(out@)[k] == out@[k]@);
            assert(views[k] == rels@[k]@);
            let r = views[k];
            let si = spec_symbol_index(r.r_info) as int;
            if si >= initial_sh_info {
                assert(si + local <= 0xFFFFFF);
                lemma_with_symbol_index(r, si + local);
            }
        }
    }
    Some(out)
}

/// A context with no fields of interest.
pub open spec fn arbitrary_ctx() -> SpliceCtx {
    SpliceCtx {
        has_text: false,
        text_idx: 0,
        rodata: Seq::empty(),
        offsets: Seq::empty(),
        rel_text: 0,
        rel_rodata: 0,
        symtab_idx: 0,
        initial_sh_info: 0,
    }
}


/// A copy of a list of relocations.
fn copy_relocations(v: &Vec<Relocation>) -> (r: Vec<Relocation>)
    ensures
        r@ == v@,
{
    let n = v.len();
    let mut r: Vec<Relocation> = Vec::new();
    let mut i: usize = 0;
    while i < n
        invariant
            i <= n,
            n == v@.len(),
            r@ == v@.subrange(0, i as int),
        decreases n - i,
    {
        r.push(v[i].clone());
        i += 1;
        assert(r@ =~= v@.subrange(0, i as int));
    }
    assert(r@ =~= v@);
    r
}

/// Replaces section `idx` by the first of the sections that `rs` splits into and
/// appends all of them to `pending` (see [`split_sections`]).
#[verifier::spinoff_prover]
fn split_into(
    secs: &mut Vec<Section>,
    pending: &mut Vec<Section>,
    idx: usize,
    rs: &Section,
    relocs: &Vec<Relocation>,
    rodata: &[usize],
    offsets: &[usize],
)
    requires
        idx < old(secs)@.len(),
        offsets@.len() == rodata@.len(),
        rodata@.len() >= 2,
        rs.data@.len() % 8 == 0,
        relocation_views(relocs@) == spec_unpack_relocations(rs.data@),
    ensures
        section_views(final(secs)@) == section_views(old(secs)@).update(
            idx as int,
            split_sections(rs@, SpliceCtx { rodata: rodata@, offsets: offsets@, ..arbitrary_ctx() })[0],
        ),
        section_views(final(pending)@) == section_views(old(pending)@) + split_sections(
            rs@,
            SpliceCtx { rodata: rodata@, offsets: offsets@, ..arbitrary_ctx() },
        ),
{
    let ghost ctx = SpliceCtx { rodata: rodata@, offsets: offsets@, ..arbitrary_ctx() };
    let ghost w = section_views(secs@);
    let ghost pw = section_views(pending@);
    let parts = split_relocations(relocs.as_slice(), offsets);
    let ghost news = split_sections(rs@, ctx);
    proof {
        crate::lemma_split_len(spec_unpack_relocations(rs@.data), offsets@);
    }
    let n = parts.len();
    let mut i: usize = 0;
    assert(news.subrange(0, 0) =~= Seq::<SectionView>::empty());
    assert(pw + news.subrange(0, 0) =~= pw);
    while i < n
        invariant
            i <= n,
            n == parts@.len(),
            n == offsets@.len(),
            n == rodata@.len(),
            n >= 2,
            idx < w.len(),
            rs.data@.len() % 8 == 0,
            news == split_sections(rs@, ctx),
            news.len() == n,
            ctx.rodata == rodata@,
            ctx.offsets == offsets@,
            forall|k: int| 0 <= k < n ==> relocation_views((#[trigger] parts@[k])@) == split_spec(
                spec_unpack_relocations(rs@.data),
                offsets@,
            )[k],
            section_views(pending@) == pw + news.subrange(0, i as int),
            section_views(secs@) == if i == 0 {
                w
            } else {
                w.update(idx as int, news[0])
            },
        decreases n - i,
    {
        let mut sec = rs.clone();
        #[verifier::truncate]
        let info = rodata[i] as u32;
        sec.sh_info = info;
        let mut part = RelocationRecord::new(sec);
        part.relocations = copy_relocations(&parts[i]);
        part.pack();
        assert(part.section@ == news[i as int]);
        let ghost before = pending@;
        pending.push(part.section.clone());
        assert(section_views(pending@) =~= section_views(before).push(news[i as int]));
        assert(news.subrange(0, i + 1) =~= news.subrange(0, i as int).push(news[i as int]));
        if i == 0 {
            secs.set(idx, part.section);
            assert(section_views(secs@) =~= w.update(idx as int, news[0]));
        }
        i += 1;
    }
    assert(news.subrange(0, n as int) =~= news);
}

proof fn lemma_renumbered(rs: SectionView, initial: u32, local: nat, rels: Seq<RelocationView>, packed: SectionView)
    requires
        shift_fits(spec_unpack_relocations(rs.data), initial, local),
        rels == shifted_all(spec_unpack_relocations(rs.data), initial, local),
        packed == (SectionView { data: relocations_bytes(rels), sh_size: (8 * rels.len()) as u32, ..rs }),
    ensures
        renumbered(rs, initial, local) == Some(packed),
{
    reveal(renumbered);
}

/// Renumbers the relocations of `rs` (see [`renumbered`]) and puts the result in
/// place of the first section like `rs`; fails when an index would not fit or when
/// there is no such section.
#[verifier::spinoff_prover]
fn renumber_into(secs: &mut Vec<Section>, rs: &Section, relocs: &Vec<Relocation>, initial_sh_info: u32, local: usize) -> (r: Result<(), MWError>)
    requires
        rs.data@.len() % 8 == 0,
        relocation_views(relocs@) == spec_unpack_relocations(rs.data@),
    ensures
        match renumbered(rs@, initial_sh_info, local as nat) {
            None => r is Err,
            Some(packed) => match first_like(section_views(old(secs)@), rs@) {
                None => r is Err,
                Some(p) => r is Ok && section_views(final(secs)@) == section_views(old(secs)@).update(p, packed),
            },
        },
{
    let ghost w = section_views(secs@);
    let shifted_rels = match shift_relocations(relocs, initial_sh_info, local) {
        None => {
            assert(renumbered(rs@, initial_sh_info, local as nat) is None) by {
                reveal(renumbered);
            }
            return Err(MWError::Internal("a symbol index does not fit in a relocation"));
        },
        Some(v) => v,
    };
    let mut out = RelocationRecord { section: rs.clone(), relocations: shifted_rels };
    out.pack();
    let ghost packed = out.section@;
    proof {
        lemma_renumbered(rs@, initial_sh_info, local as nat, relocation_views(out.relocations@), packed);
    }
    match find_like(secs, rs) {
        None => {
            return Err(MWError::Internal("relocation section not found"));
        },
        Some(p) => {
            secs.set(p, out.section);
            assert(section_views(secs@) =~= w.update(p as int, packed));
        },
    }
    Ok(())
}

/// Updates the compiled relocation section `rs`, found at `idx` (see [`fixed_section`]).
fn fix_section(
    secs: &mut Vec<Section>,
    pending: &mut Vec<Section>,
    idx: usize,
    rs: &Section,
    rodata: &[usize],
    offsets: &[usize],
    initial_sh_info: u32,
    local: usize,
) -> (r: Result<(), MWError>)
    requires
        idx < old(secs)@.len(),
        offsets@.len() == rodata@.len(),
    ensures
        match fixed_section(
            section_views(old(secs)@),
            section_views(old(pending)@),
            idx as int,
            rs@,
            SpliceCtx { rodata: rodata@, offsets: offsets@, initial_sh_info, ..arbitrary_ctx() },
            local as nat,
        ) {
            None => r is Err,
            Some((a, b)) => r is Ok && section_views(final(secs)@) == a && section_views(final(pending)@) == b,
        },
{
    reveal(fixed_section);
    let ghost ctx = SpliceCtx { rodata: rodata@, offsets: offsets@, initial_sh_info, ..arbitrary_ctx() };
    if rs.data.len() % 8 != 0 || rodata.len() == 0 {
        return Err(MWError::Internal("a relocation section cannot be updated"));
    }
    let rr = RelocationRecord::new(rs.clone());
    #[verifier::truncate]
    let first = rodata[0] as u32;
    if rr.section.sh_info == first {
        if rodata.len() == 1 {
            return Ok(());
        }
        split_into(secs, pending, idx, rs, &rr.relocations, rodata, offsets);
        assert(split_sections(rs@, SpliceCtx { rodata: rodata@, offsets: offsets@, ..arbitrary_ctx() }) == split_sections(rs@, ctx));
        return Ok(());
    }
    renumber_into(secs, rs, &rr.relocations, initial_sh_info, local)
}


/// Updates the compiled relocation sections `items` (each with its index) one after
/// another (see [`fixed_section`]).
pub open spec fn fixed_all(secs: Seq<SectionView>, pending: Seq<SectionView>, items: Seq<(int, SectionView)>, ctx: SpliceCtx, local: nat) -> Option<(Seq<SectionView>, Seq<SectionView>)>
    decreases items.len(),
{
    if items.len() == 0 {
        Some((secs, pending))
    } else {
        match fixed_all(secs, pending, items.drop_last(), ctx, local) {
            None => None,
            Some((s2, p2)) => fixed_section(s2, p2, items.last().0, items.last().1, ctx, local),
        }
    }
}

/// The sections `news` appended one after another (see [`with_section`]).
pub open spec fn sections_added(st: SpliceState, news: Seq<SectionView>) -> SpliceState
    decreases news.len(),
{
    if news.len() == 0 {
        st
    } else {
        with_section(sections_added(st, news.drop_last()), news.last())
    }
}

/// The relocation sections of the compiled object, each with its index.
pub open spec fn rel_items(secs: Seq<SectionView>) -> Seq<(int, SectionView)> {
    rel_indices(secs, secs.len() as int).map_values(|i: int| (i, secs[i]))
}

/// The compiled object after local symbols were brought over: every relocation
/// section is updated (see [`fixed_all`]), then the split-off parts of the first
/// `.rodata` relocation section, but the first, are appended.
#[verifier::opaque]
pub open spec fn relocations_fixed(st: SpliceState, ctx: SpliceCtx) -> Option<SpliceState> {
    match fixed_all(st.secs, Seq::empty(), rel_items(st.secs), ctx, st.local) {
        None => None,
        Some((secs, pending)) => Some(
            sections_added(
                SpliceState { secs, ..st },
                if pending.len() == 0 {
                    pending
                } else {
                    pending.subrange(1, pending.len() as int)
                },
            ),
        ),
    }
}

proof fn lemma_fixed_section_len(secs: Seq<SectionView>, pending: Seq<SectionView>, idx: int, rs: SectionView, ctx: SpliceCtx, local: nat)
    requires
        0 <= idx < secs.len(),
        fixed_section(secs, pending, idx, rs, ctx, local) is Some,
    ensures
        fixed_section(secs, pending, idx, rs, ctx, local).unwrap().0.len() == secs.len(),
{
    reveal(first_like);
    reveal(fixed_section);
}

/// The relocation sections lie within the sections.
proof fn lemma_rel_indices_range(secs: Seq<SectionView>, k: int)
    ensures
        forall|q: int| 0 <= q < rel_indices(secs, k).len() ==> 0 <= #[trigger] rel_indices(secs, k)[q] < k,
    decreases k,
{
    if k > 0 {
        lemma_rel_indices_range(secs, k - 1);
        let prev = rel_indices(secs, k - 1);
        if secs[k - 1].sh_type == crate::elf::SHT_REL {
            assert(rel_indices(secs, k) == prev.push(k - 1));
            assert forall|q: int| 0 <= q < rel_indices(secs, k).len() implies 0 <= #[trigger] rel_indices(secs, k)[q] < k by {
                if q < prev.len() {
                    assert(rel_indices(secs, k)[q] == prev[q]);
                }
            }
        }
    }
}

/// Appends a section (see [`with_section`]).
#[verifier::spinoff_prover]
fn append_section(compiled: &mut Elf, sec: Section, asm_syms: &Vec<Symbol>, local: usize, names: &Vec<String>)
    ensures
        same_frame(*old(compiled), *final(compiled)),
        tables(*final(compiled)) == tables(*old(compiled)),
        splice_state(*final(compiled), asm_syms@, local, names@) == with_section(
            splice_state(*old(compiled), asm_syms@, local, names@),
            sec@,
        ),
{
    let ghost before = splice_state(*compiled, asm_syms@, local, names@);
    let ghost v = sec@;
    compiled.add_section(sec);
    assert(section_views(compiled.sections@) =~= before.secs.push(
        SectionView { sh_name: spec_add_name(before.shstrtab.data, v.name).1 as u32, ..v },
    ));
}

proof fn lemma_fixed_fail_on(secs: Seq<SectionView>, items: Seq<(int, SectionView)>, j: int, ctx: SpliceCtx, local: nat)
    requires
        0 <= j <= items.len(),
        fixed_all(secs, Seq::empty(), items.subrange(0, j), ctx, local) is None,
    ensures
        fixed_all(secs, Seq::empty(), items, ctx, local) is None,
    decreases items.len() - j,
{
    if j < items.len() {
        assert(items.subrange(0, j + 1).drop_last() =~= items.subrange(0, j));
        lemma_fixed_fail_on(secs, items, j + 1, ctx, local);
    } else {
        assert(items.subrange(0, j) =~= items);
    }
}

/// Updates the relocation sections `items` of the compiled sections one after another
/// (see [`fixed_all`]) and returns the split-off parts.
#[verifier::spinoff_prover]
fn fix_all_sections(
    secs: &mut Vec<Section>,
    snapshot: &Vec<(usize, Section)>,
    rodata: &[usize],
    offsets: &[usize],
    initial_sh_info: u32,
    local: usize,
) -> (r: Result<Vec<Section>, MWError>)
    requires
        offsets@.len() == rodata@.len(),
        snapshot@.len() == rel_items(section_views(old(secs)@)).len(),
        forall|q: int| 0 <= q < snapshot@.len() ==> (#[trigger] snapshot@[q]).0 == rel_items(section_views(old(secs)@))[q].0
            && snapshot@[q].1@ == rel_items(section_views(old(secs)@))[q].1 && snapshot@[q].0 < old(secs)@.len(),
    ensures
        match fixed_all(
            section_views(old(secs)@),
            Seq::empty(),
            rel_items(section_views(old(secs)@)),
            SpliceCtx { rodata: rodata@, offsets: offsets@, initial_sh_info, ..arbitrary_ctx() },
            local as nat,
        ) {
            None => r is Err,
            Some((a, b)) => r matches Ok(p) && section_views(final(secs)@) == a && section_views(p@) == b,
        },
{
    let ghost ctx = SpliceCtx { rodata: rodata@, offsets: offsets@, initial_sh_info, ..arbitrary_ctx() };
    let ghost w0 = section_views(secs@);
    let ghost items = rel_items(w0);
    let mut pending: Vec<Section> = Vec::new();
    let n = snapshot.len();
    let mut k: usize = 0;
    assert(items.subrange(0, 0) =~= Seq::<(int, SectionView)>::empty());
    assert(section_views(pending@) =~= Seq::<SectionView>::empty());
    while k < n
        invariant
            k <= n,
            n == snapshot@.len(),
            n == items.len(),
            w0 == section_views(old(secs)@),
            items == rel_items(w0),
            forall|q: int| 0 <= q < n ==> (#[trigger] snapshot@[q]).0 == items[q].0 && snapshot@[q].1@ == items[q].1 && snapshot@[q].0 < w0.len(),
            secs@.len() == w0.len(),
            offsets@.len() == rodata@.len(),
            ctx == (SpliceCtx { rodata: rodata@, offsets: offsets@, initial_sh_info, ..arbitrary_ctx() }),
            fixed_all(w0, Seq::empty(), items.subrange(0, k as int), ctx, local as nat) == Some(
                (section_views(secs@), section_views(pending@)),
            ),
        decreases n - k,
    {
        let ghost next = items.subrange(0, k + 1);
        let ghost cur_secs = section_views(secs@);
        let ghost cur_pending = section_views(pending@);
        assert(next.drop_last() =~= items.subrange(0, k as int));
        assert(next.last() == items[k as int]);
        let idx = snapshot[k].0;
        match fix_section(secs, &mut pending, idx, &snapshot[k].1, rodata, offsets, initial_sh_info, local) {
            Err(e) => {
                proof {
                    assert(fixed_all(w0, Seq::empty(), next, ctx, local as nat) is None);
                    lemma_fixed_fail_on(w0, items, k + 1, ctx, local as nat);
                }
                return Err(e);
            },
            Ok(()) => {},
        }
        proof {
            lemma_fixed_section_len(cur_secs, cur_pending, idx as int, snapshot@[k as int].1@, ctx, local as nat);
        }
        k += 1;
    }
    assert(items.subrange(0, n as int) =~= items);
    Ok(pending)
}

/// Appends `news[from..]` one after another (see [`sections_added`]).
#[verifier::spinoff_prover]
fn append_sections(compiled: &mut Elf, news: &Vec<Section>, from: usize, asm_syms: &Vec<Symbol>, local: usize, names: &Vec<String>)
    requires
        from <= news@.len(),
    ensures
        same_frame(*old(compiled), *final(compiled)),
        tables(*final(compiled)) == tables(*old(compiled)),
        splice_state(*final(compiled), asm_syms@, local, names@) == sections_added(
            splice_state(*old(compiled), asm_syms@, local, names@),
            section_views(news@).subrange(from as int, news@.len() as int),
        ),
{
    let ghost st0 = splice_state(*compiled, asm_syms@, local, names@);
    let ghost rest = section_views(news@).subrange(from as int, news@.len() as int);
    let m = news.len();
    let mut j = from;
    assert(rest.subrange(0, 0) =~= Seq::<SectionView>::empty());
    while j < m
        invariant
            from <= j <= m,
            m == news@.len(),
            rest == section_views(news@).subrange(from as int, m as int),
            st0 == splice_state(*old(compiled), asm_syms@, local, names@),
            same_frame(*old(compiled), *compiled),
            tables(*compiled) == tables(*old(compiled)),
            splice_state(*compiled, asm_syms@, local, names@) == sections_added(st0, rest.subrange(0, j - from)),
        decreases m - j,
    {
        let sec = news[j].clone();
        append_section(compiled, sec, asm_syms, local, names);
        proof {
            let pre = rest.subrange(0, j - from);
            let nxt = rest.subrange(0, j - from + 1);
            assert(nxt.drop_last() =~= pre);
            assert(nxt.last() == news@[j as int]@);
        }
        j += 1;
    }
    assert(rest.subrange(0, m - from) =~= rest);
}

/// Updates the compiled relocation sections after local symbols were brought over
/// (see [`relocations_fixed`]).
pub fn fix_relocations(
    compiled: &mut Elf,
    rodata: &[usize],
    offsets: &[usize],
    initial_sh_info: u32,
    local: usize,
    asm_syms: &Vec<Symbol>,
    names: &Vec<String>,
) -> (r: Result<(), MWError>)
    requires
        offsets@.len() == rodata@.len(),
    ensures
        same_frame(*old(compiled), *final(compiled)),
        tables(*final(compiled)) == tables(*old(compiled)),
        match relocations_fixed(
            splice_state(*old(compiled), asm_syms@, local, names@),
            SpliceCtx { rodata: rodata@, offsets: offsets@, initial_sh_info, ..arbitrary_ctx() },
        ) {
            None => r is Err,
            Some(v) => r is Ok && splice_state(*final(compiled), asm_syms@, local, names@) == v,
        },
{
    reveal(relocations_fixed);
    let ghost w0 = section_views(compiled.sections@);
    let snapshot = compiled.reloc_sections();
    let ghost items = rel_items(w0);
    proof {
        lemma_rel_indices_range(w0, w0.len() as int);
    }
    assert forall|k: int| 0 <= k < snapshot@.len() implies (#[trigger] snapshot@[k]).0 == items[k].0 && snapshot@[k].1@ == items[k].1 && snapshot@[k].0 < compiled.sections@.len() by {
        assert(0 <= rel_indices(w0, w0.len() as int)[k] < w0.len());
        assert(w0[snapshot@[k].0 as int] == compiled.sections@[snapshot@[k].0 as int]@);
    }
    let pending = match fix_all_sections(&mut compiled.sections, &snapshot, rodata, offsets, initial_sh_info, local) {
        Err(e) => {
            return Err(e);
        },
        Ok(p) => p,
    };
    if pending.len() > 0 {
        append_sections(compiled, &pending, 1, asm_syms, local, names);
    } else {
        assert(section_views(pending@) =~= Seq::<SectionView>::empty());
    }
    Ok(())
}


/// The compiled tables after the global symbols among `syms` that no relocation
/// brought over (their names are not in `names`) are added, placed in the code section
/// `text_idx`; nothing is added for an object without code. Fails when the symbol
/// table is full.
pub open spec fn globals_added(t: TablesView, syms: Seq<SymbolView>, has_text: bool, text_idx: usize, names: Seq<Seq<char>>) -> Option<TablesView>
    decreases syms.len(),
{
    if syms.len() == 0 {
        Some(t)
    } else {
        match globals_added(t, syms.drop_last(), has_text, text_idx, names) {
            None => None,
            Some(prev) => {
                let s = syms.last();
                if s.st_name == 0 || spec_bind(s.st_info) == 0 || !has_text || names.contains(s.name) {
                    Some(prev)
                } else if prev.symbols.len() >= u32::MAX {
                    None
                } else {
                    Some(spec_add_symbol(prev, SymbolView { st_shndx: text_idx as u16, ..s }, false).0)
                }
            },
        }
    }
}

proof fn lemma_globals_fail_on(t: TablesView, syms: Seq<SymbolView>, j: int, has_text: bool, text_idx: usize, names: Seq<Seq<char>>)
    requires
        0 <= j <= syms.len(),
        globals_added(t, syms.subrange(0, j), has_text, text_idx, names) is None,
    ensures
        globals_added(t, syms, has_text, text_idx, names) is None,
    decreases syms.len() - j,
{
    if j < syms.len() {
        assert(syms.subrange(0, j + 1).drop_last() =~= syms.subrange(0, j));
        lemma_globals_fail_on(t, syms, j + 1, has_text, text_idx, names);
    } else {
        assert(syms.subrange(0, j) =~= syms);
    }
}

/// Adding the assembled object's globals loses no name of the compiled table, and
/// leaves it naming every named global symbol (binding above local) of the assembled
/// object that no moved relocation named, when the object has code.
pub proof fn lemma_globals_added_present(
    t: TablesView,
    syms: Seq<SymbolView>,
    has_text: bool,
    text_idx: usize,
    names: Seq<Seq<char>>,
)
    requires
        globals_added(t, syms, has_text, text_idx, names) is Some,
    ensures
        forall|n: Seq<char>| crate::elf::symbol_names(t.symbols).contains(n) ==> #[trigger] crate::elf::symbol_names(
            globals_added(t, syms, has_text, text_idx, names).unwrap().symbols,
        ).contains(n),
        forall|k: int|
            0 <= k < syms.len() && (#[trigger] syms[k]).st_name != 0 && syms[k].st_info >= 16 && has_text
                && !names.contains(syms[k].name) ==> crate::elf::symbol_names(
                globals_added(t, syms, has_text, text_idx, names).unwrap().symbols,
            ).contains(syms[k].name),
    decreases syms.len(),
{
    if syms.len() > 0 {
        let init = syms.drop_last();
        assert(globals_added(t, init, has_text, text_idx, names) is Some);
        lemma_globals_added_present(t, init, has_text, text_idx, names);
        let prev = globals_added(t, init, has_text, text_idx, names).unwrap();
        let s = syms.last();
        let out = globals_added(t, syms, has_text, text_idx, names).unwrap();
        let added = !(s.st_name == 0 || spec_bind(s.st_info) == 0 || !has_text || names.contains(s.name));
        if added {
            crate::elf::lemma_add_keeps_names(prev, SymbolView { st_shndx: text_idx as u16, ..s }, false);
        }
        assert(spec_bind(s.st_info) == 0 <==> s.st_info < 16);
        assert forall|n: Seq<char>| crate::elf::symbol_names(prev.symbols).contains(n) implies #[trigger] crate::elf::symbol_names(
            out.symbols,
        ).contains(n) by {}
        assert forall|k: int|
            0 <= k < syms.len() && (#[trigger] syms[k]).st_name != 0 && syms[k].st_info >= 16 && has_text
                && !names.contains(syms[k].name) implies crate::elf::symbol_names(out.symbols).contains(syms[k].name) by {
            if k < init.len() {
                assert(init[k] == syms[k]);
                assert(crate::elf::symbol_names(prev.symbols).contains(syms[k].name));
            }
        }
    }
}

/// Adds the global symbols of the assembled object that no relocation brought over
/// (see [`globals_added`]).
#[verifier::spinoff_prover]
pub fn add_globals(compiled: &mut Elf, syms: &Vec<Symbol>, has_text: bool, text_idx: usize, names: &Vec<String>) -> (r: Result<(), MWError>)
    ensures
        same_but_tables(*old(compiled), *final(compiled)),
        match globals_added(tables(*old(compiled)), symbol_views(syms@), has_text, text_idx, string_views(names@)) {
            None => r is Err,
            Some(t) => r is Ok && tables(*final(compiled)) == t,
        },
{
    let ghost views = symbol_views(syms@);
    let ghost nv = string_views(names@);
    let ghost t0 = tables(*compiled);
    let n = syms.len();
    let mut i: usize = 0;
    assert(views.subrange(0, 0) =~= Seq::<SymbolView>::empty());
    while i < n
        invariant
            i <= n,
            n == syms@.len(),
            views == symbol_views(syms@),
            nv == string_views(names@),
            t0 == tables(*old(compiled)),
            same_but_tables(*old(compiled), *compiled),
            globals_added(t0, views.subrange(0, i as int), has_text, text_idx, nv) == Some(tables(*compiled)),
        decreases n - i,
    {
        let ghost next = views.subrange(0, i + 1);
        assert(next.drop_last() =~= views.subrange(0, i as int));
        assert(next.last() == syms@[i as int]@);
        let sym = &syms[i];
        if sym.st_name != 0 && sym.bind() != 0 && has_text {
            let known = crate::splice::contains_name(names, sym.name.as_str());
            assert(known == nv.contains(sym.name@)) by {
                if known {
                    let k = choose|k: int| 0 <= k < names@.len() && (#[trigger] names@[k])@ == sym.name@;
                    assert(nv[k] == sym.name@);
                }
                if nv.contains(sym.name@) {
                    let k = choose|k: int| 0 <= k < nv.len() && nv[k] == sym.name@;
                    assert(names@[k]@ == sym.name@);
                }
            }
            if !known {
                if compiled.symtab.symbols.len() >= 0xFFFF_FFFF {
                    proof {
                        lemma_globals_fail_on(t0, views, i + 1, has_text, text_idx, nv);
                    }
                    return Err(MWError::Internal("the symbol table is full"));
                }
                let mut moved = sym.clone();
                #[verifier::truncate]
                let shndx = text_idx as u16;
                moved.st_shndx = shndx;
                compiled.add_symbol(moved);
            }
        }
        i += 1;
    }
    assert(views.subrange(0, n as int) =~= views);
    Ok(())
}


/// The code of an assembled object: the bytes of its first `.text` section (none
/// when it has no such section). Fails when its function sections cannot be listed
/// or when it has more than one.
pub open spec fn asm_text_of(secs: Seq<SectionView>, syms: Seq<SymbolView>) -> Option<Seq<u8>> {
    let texts = text_indices(secs, secs.len() as int);
    let fnames = function_names_of(syms);
    if !(fnames.len() == 0 || texts.len() <= fnames.len()) || texts.len() > 1 {
        None
    } else if texts.len() == 0 {
        Some(Seq::empty())
    } else {
        Some(secs[texts[0]].data)
    }
}

/// The code of an assembled object (see [`asm_text_of`]).
pub fn asm_text(elf: &Elf) -> (r: Result<Vec<u8>, MWError>)
    ensures
        match asm_text_of(section_views(elf.sections@), symbol_views(elf.symtab.symbols@)) {
            None => r is Err,
            Some(t) => r matches Ok(v) && v@ == t,
        },
{
    match elf.try_get_functions() {
        None => Err(MWError::Internal("cannot list the functions of an assembled object")),
        Some(fs) => {
            if fs.len() > 1 {
                Err(MWError::Internal("an assembled object holds more than one function"))
            } else if fs.len() == 0 {
                Ok(Vec::new())
            } else {
                let ghost texts = text_indices(section_views(elf.sections@), elf.sections@.len() as int);
                proof {
                    crate::elf::lemma_text_indices_range(section_views(elf.sections@), elf.sections@.len() as int);
                }
                assert(section_views(elf.sections@)[texts[0]] == elf.sections@[texts[0]]@);
                Ok(crate::elf::section::copy_bytes(&fs[0].section.data))
            }
        },
    }
}

/// Where an object's code and data go in the compiled object, and the compiled
/// sections after its code was transplanted.
pub struct Placement {
    pub text_idx: usize,
    pub rodata: Seq<usize>,
    pub secs: Seq<SectionView>,
}

/// Places an object whose code is `asm_text` and which has `num` data symbols. With
/// code: its section is the `.text` section paired with the function `main` (see
/// [`Elf::text_section_by_name`]), its data goes to the first `num` `.rodata` sections
/// after it, and the code is transplanted (see [`transplanted_data`]). Without code:
/// it must have exactly one data symbol, which goes to the section of the last
/// compiled symbol named `main`. Fails when any of these cannot be found.
pub open spec fn placed(st: SpliceState, asm_text: Seq<u8>, main: Seq<char>, num: nat, snapshot: Seq<SymbolView>) -> Option<Placement> {
    if asm_text.len() > 0 {
        let texts = function_text_indices(st.secs, st.secs.len() as int);
        let fnames = function_names_of(st.t.symbols);
        if !exists|f: int| is_first_function_text(texts, fnames, main, f) {
            None
        } else {
            let text_idx = texts[choose|f: int| is_first_function_text(texts, fnames, main, f)];
            let all = rodata_from(st.secs, text_idx + 1);
            if num > 0 && all.len() < num {
                None
            } else if asm_text.len() < st.secs[text_idx].data.len() {
                None
            } else {
                Some(
                    Placement {
                        text_idx: text_idx as usize,
                        rodata: all.take(num as int).map_values(|i: int| i as usize),
                        secs: st.secs.update(
                            text_idx,
                            SectionView {
                                data: transplanted_data(st.secs[text_idx].data, st.secs[text_idx].sh_size, asm_text),
                                ..st.secs[text_idx]
                            },
                        ),
                    },
                )
            }
        }
    } else if num != 1 {
        None
    } else {
        match last_section_of(snapshot, main) {
            None => None,
            Some(idx) => Some(Placement { text_idx: 0xFFFF_FFFF, rodata: seq![idx as usize], secs: st.secs }),
        }
    }
}

/// Places an object and transplants its code (see [`placed`]).
#[verifier::spinoff_prover]
pub fn place_object(compiled: &mut Elf, asm_text: &Vec<u8>, main: &str, num: usize, snapshot: &Vec<Symbol>) -> (r: Result<(usize, Vec<usize>), MWError>)
    ensures
        same_but_sections(*old(compiled), *final(compiled)),
        match placed(
            splice_state(*old(compiled), Seq::empty(), 0, Seq::empty()),
            asm_text@,
            main@,
            num as nat,
            symbol_views(snapshot@),
        ) {
            None => r is Err,
            Some(p) => r matches Ok((t, v)) && t == p.text_idx && v@ == p.rodata && section_views(final(compiled).sections@) == p.secs,
        },
        r matches Ok((_, v)) ==> forall|q: int, l: int| 0 <= q < l < v@.len() ==> #[trigger] v@[q] != #[trigger] v@[l],
{
    let ghost st = splice_state(*compiled, Seq::empty(), 0, Seq::empty());
    if asm_text.len() > 0 {
        let text_idx = match compiled.find_function_text(main) {
            None => {
                return Err(MWError::Internal("no compiled function for the assembled code"));
            },
            Some(i) => i,
        };
        let ghost texts = function_text_indices(st.secs, st.secs.len() as int);
        let ghost fnames = function_names_of(st.t.symbols);
        proof {
            let f = choose|f: int| is_first_function_text(texts, fnames, main@, f);
            let g = choose|g: int| is_first_function_text(texts, fnames, main@, g) && text_idx == texts[g];
            if f < g {
                assert(fnames[f] != main@);
            }
            if g < f {
                assert(fnames[g] != main@);
            }
            crate::elf::lemma_function_text_indices_range(st.secs, st.secs.len() as int);
        }
        let rodata = if num > 0 {
            match rodata_sections_after(&compiled.sections, text_idx, num) {
                None => {
                    return Err(MWError::Internal(".rodata section count mismatch"));
                },
                Some(v) => v,
            }
        } else {
            Vec::new()
        };
        let ghost all = rodata_from(st.secs, text_idx + 1);
        proof {
            lemma_rodata_from_range(st.secs, text_idx + 1);
        }
        assert(rodata@ =~= all.take(num as int).map_values(|i: int| i as usize));
        assert forall|q: int, l: int| 0 <= q < l < rodata@.len() implies #[trigger] rodata@[q] != #[trigger] rodata@[l] by {
            assert(all[q] < all[l]);
            assert(all[l] < st.secs.len());
        }
        let ghost old_sec = compiled.sections@[text_idx as int]@;
        let mut section = compiled.sections[text_idx].clone();
        match transplant_text(&mut section, asm_text.as_slice()) {
            Err(e) => {
                return Err(e);
            },
            Ok(()) => {},
        }
        compiled.sections.set(text_idx, section);
        assert(section_views(compiled.sections@) =~= st.secs.update(
            text_idx as int,
            SectionView { data: transplanted_data(old_sec.data, old_sec.sh_size, asm_text@), ..old_sec },
        ));
        Ok((text_idx, rodata))
    } else {
        if num != 1 {
            return Err(MWError::Internal("a data-only object must hold exactly one data symbol"));
        }
        match symbol_section(snapshot, main) {
            None => Err(MWError::Internal("no compiled symbol for the assembled data")),
            Some(idx) => {
                let mut v: Vec<usize> = Vec::new();
                v.push(idx as usize);
                assert(v@ =~= seq![idx as usize]);
                Ok((0xFFFF_FFFF, v))
            },
        }
    }
}

/// Whether the compiled object kept everything but its sections.
pub open spec fn same_but_sections(a: Elf, b: Elf) -> bool {
    &&& a.header == b.header
    &&& a.shstrtab_idx == b.shstrtab_idx
    &&& a.strtab_idx == b.strtab_idx
    &&& a.symtab_idx == b.symtab_idx
    &&& a.shstrtab == b.shstrtab
    &&& a.strtab == b.strtab
    &&& a.symtab == b.symtab
}


/// The sections after the first `k` `.rodata` sections `idxs` were filled one after
/// another from `data` (see [`filled_rodata`] and [`piece_end`]).
pub open spec fn filled_upto(secs: Seq<SectionView>, idxs: Seq<usize>, data: Seq<u8>, k: int) -> Seq<SectionView>
    decreases k,
{
    if k <= 0 {
        secs
    } else {
        filled_upto(secs, idxs, data, k - 1).update(
            idxs[k - 1] as int,
            filled_rodata(secs[idxs[k - 1] as int], data.subrange(piece_end(secs, idxs, k - 1), piece_end(secs, idxs, k))),
        )
    }
}

proof fn lemma_filled_upto(secs: Seq<SectionView>, idxs: Seq<usize>, data: Seq<u8>, k: int)
    requires
        0 <= k <= idxs.len(),
        forall|q: int| 0 <= q < idxs.len() ==> #[trigger] idxs[q] < secs.len(),
        forall|q: int, l: int| 0 <= q < l < idxs.len() ==> #[trigger] idxs[q] != #[trigger] idxs[l],
    ensures
        filled_upto(secs, idxs, data, k).len() == secs.len(),
        forall|q: int| 0 <= q < k ==> #[trigger] filled_upto(secs, idxs, data, k)[idxs[q] as int] == filled_rodata(
            secs[idxs[q] as int],
            data.subrange(piece_end(secs, idxs, q), piece_end(secs, idxs, q + 1)),
        ),
        forall|j: int| 0 <= j < secs.len() && (forall|q: int| 0 <= q < k ==> #[trigger] idxs[q] != j)
            ==> #[trigger] filled_upto(secs, idxs, data, k)[j] == secs[j],
    decreases k,
{
    if k > 0 {
        lemma_filled_upto(secs, idxs, data, k - 1);
        let prev = filled_upto(secs, idxs, data, k - 1);
        let cur = filled_upto(secs, idxs, data, k);
        assert forall|q: int| 0 <= q < k implies #[trigger] cur[idxs[q] as int] == filled_rodata(
            secs[idxs[q] as int],
            data.subrange(piece_end(secs, idxs, q), piece_end(secs, idxs, q + 1)),
        ) by {
            if q < k - 1 {
                assert(idxs[q] != idxs[k - 1]);
            }
        }
        assert forall|j: int| 0 <= j < secs.len() && (forall|q: int| 0 <= q < k ==> #[trigger] idxs[q] != j)
            implies #[trigger] cur[j] == secs[j] by {
            assert(idxs[k - 1] != j);
            assert forall|q: int| 0 <= q < k - 1 implies #[trigger] idxs[q] != j by {
                assert(idxs[q] != j);
            }
        }
    }
}

/// The compiled object after its `.rodata` sections took in the object's data.
pub struct Filled {
    pub secs: Seq<SectionView>,
    pub shstrtab: SectionView,
    pub offsets: Seq<usize>,
    pub rel_rodata: u32,
}

/// `.rel.rodata`
pub open spec fn rel_rodata_name() -> Seq<char> {
    seq!['.', 'r', 'e', 'l', '.', 'r', 'o', 'd', 'a', 't', 'a']
}

/// Fills the compiled `.rodata` sections `rodata` from the single `.rodata` section of
/// the assembled object (see [`filled_upto`]) and names a `.rel.rodata` section; with
/// no data sections nothing changes. Fails when the assembled object does not have
/// exactly one `.rodata` section, when a section index lies out of range, or when the
/// assembled data is too short.
#[verifier::opaque]
pub open spec fn rodata_filled(secs: Seq<SectionView>, shstrtab: SectionView, rodata: Seq<usize>, asm_secs: Seq<SectionView>) -> Option<Filled> {
    if rodata.len() == 0 {
        Some(Filled { secs, shstrtab, offsets: Seq::empty(), rel_rodata: 0xFFFF_FFFF })
    } else {
        let ri = rodata_indices(asm_secs, asm_secs.len() as int);
        if ri.len() != 1 || exists|k: int| 0 <= k < rodata.len() && #[trigger] rodata[k] >= secs.len() {
            None
        } else {
            let data = asm_secs[ri[0]].data;
            if piece_end(secs, rodata, rodata.len() as int) > data.len() {
                None
            } else {
                Some(
                    Filled {
                        secs: filled_upto(secs, rodata, data, rodata.len() as int),
                        shstrtab: strtab_after_add(shstrtab, rel_rodata_name()),
                        offsets: Seq::new(rodata.len(), |k: int| piece_end(secs, rodata, k + 1) as usize),
                        rel_rodata: spec_add_name(shstrtab.data, rel_rodata_name()).1 as u32,
                    },
                )
            }
        }
    }
}

proof fn lemma_fill_equal(w: Seq<SectionView>, before: Seq<Section>, after: Seq<Section>, idxs: Seq<usize>, data: Seq<u8>)
    requires
        w == section_views(before),
        after.len() == before.len(),
        forall|q: int| 0 <= q < idxs.len() ==> #[trigger] idxs[q] < before.len(),
        forall|q: int, l: int| 0 <= q < l < idxs.len() ==> #[trigger] idxs[q] != #[trigger] idxs[l],
        forall|k: int| 0 <= k < idxs.len() ==> (#[trigger] after[idxs[k] as int])@ == filled_rodata(
            before[idxs[k] as int]@,
            data.subrange(piece_end(w, idxs, k), piece_end(w, idxs, k + 1)),
        ),
        forall|j: int| 0 <= j < before.len() && (forall|k: int| 0 <= k < idxs.len() ==> #[trigger] idxs[k] != j)
            ==> #[trigger] after[j] == before[j],
    ensures
        section_views(after) == filled_upto(w, idxs, data, idxs.len() as int),
{
    let n = idxs.len() as int;
    lemma_filled_upto(w, idxs, data, n);
    assert forall|j: int| 0 <= j < w.len() implies section_views(after)[j] == filled_upto(w, idxs, data, n)[j] by {
        if exists|q: int| 0 <= q < n && idxs[q] == j {
            let q = choose|q: int| 0 <= q < n && idxs[q] == j;
            assert(after[idxs[q] as int]@ == filled_rodata(
                before[idxs[q] as int]@,
                data.subrange(piece_end(w, idxs, q), piece_end(w, idxs, q + 1)),
            ));
        } else {
            assert(after[j] == before[j]);
        }
    }
    assert(section_views(after) =~= filled_upto(w, idxs, data, n));
}

/// Fills the compiled `.rodata` sections with the assembled data (see
/// [`rodata_filled`]); returns where each piece ends and the name index of
/// `.rel.rodata`.
#[verifier::spinoff_prover]
pub fn fill_rodata(compiled: &mut Elf, rodata: &Vec<usize>, asm_elf: &Elf) -> (r: Result<(Vec<usize>, u32), MWError>)
    requires
        forall|q: int, l: int| 0 <= q < l < rodata@.len() ==> #[trigger] rodata@[q] != #[trigger] rodata@[l],
    ensures
        same_frame(*old(compiled), *final(compiled)),
        final(compiled).strtab == old(compiled).strtab,
        final(compiled).symtab == old(compiled).symtab,
        match rodata_filled(
            section_views(old(compiled).sections@),
            old(compiled).shstrtab.section@,
            rodata@,
            section_views(asm_elf.sections@),
        ) {
            None => r is Err,
            Some(f) => r matches Ok((ends, name)) && ends@ == f.offsets && name == f.rel_rodata
                && section_views(final(compiled).sections@) == f.secs && final(compiled).shstrtab.section@ == f.shstrtab,
        },
        r matches Ok((ends, _)) ==> ends@.len() == rodata@.len(),
{
    let ghost w = section_views(compiled.sections@);
    let ghost sh = compiled.shstrtab.section@;
    let ghost asm_w = section_views(asm_elf.sections@);
    if rodata.len() == 0 {
        let v: Vec<usize> = Vec::new();
        assert(v@ =~= Seq::<usize>::empty());
        assert(rodata_filled(w, sh, rodata@, asm_w) == Some(
            Filled { secs: w, shstrtab: sh, offsets: Seq::empty(), rel_rodata: 0xFFFF_FFFF },
        )) by {
            reveal(rodata_filled);
        }
        return Ok((v, 0xFFFF_FFFF));
    }
    let rs = asm_elf.rodata_sections();
    if rs.len() != 1 {
        assert(rodata_filled(w, sh, rodata@, asm_w) is None) by {
            reveal(rodata_filled);
        }
        return Err(MWError::Internal("an assembled object must hold exactly one .rodata section"));
    }
    let n = rodata.len();
    let mut k: usize = 0;
    while k < n
        invariant
            k <= n,
            n == rodata@.len(),
            n > 0,
            *compiled == *old(compiled),
            w == section_views(old(compiled).sections@),
            sh == old(compiled).shstrtab.section@,
            asm_w == section_views(asm_elf.sections@),
            rodata_indices(asm_w, asm_w.len() as int).len() == 1,
            compiled.sections@.len() == w.len(),
            forall|q: int| 0 <= q < k ==> #[trigger] rodata@[q] < compiled.sections@.len(),
        decreases n - k,
    {
        if rodata[k] >= compiled.sections.len() {
            assert(rodata_filled(w, sh, rodata@, asm_w) is None) by {
                reveal(rodata_filled);
                assert(rodata@[k as int] >= w.len());
            }
            return Err(MWError::Internal("a .rodata section index lies out of range"));
        }
        k += 1;
    }
    let ghost ri = rodata_indices(asm_w, asm_elf.sections@.len() as int);
    proof {
        crate::elf::lemma_rodata_indices_range(asm_w, asm_elf.sections@.len() as int);
    }
    assert(asm_w[ri[0]] == asm_elf.sections@[ri[0]]@);
    let ghost data = rs@[0].data@;
    let ghost before = compiled.sections@;
    let ends = match copy_rodata(&mut compiled.sections, rodata.as_slice(), rs[0].data.as_slice()) {
        Err(e) => {
            assert(rodata_filled(w, sh, rodata@, asm_w) is None) by {
                reveal(rodata_filled);
            }
            return Err(e);
        },
        Ok(e) => e,
    };
    proof {
        lemma_fill_equal(w, before, compiled.sections@, rodata@, data);
        assert(ends@ =~= Seq::new(n as nat, |q: int| piece_end(w, rodata@, q + 1) as usize));
    }
    proof {
        reveal_strlit(".rel.rodata");
    }
    let name = ".rel.rodata";
    assert(name@ =~= rel_rodata_name());
    let idx = compiled.add_sh_symbol(name);
    assert(rodata_filled(w, sh, rodata@, asm_w) == Some(
        Filled {
            secs: filled_upto(w, rodata@, data, n as int),
            shstrtab: strtab_after_add(sh, rel_rodata_name()),
            offsets: Seq::new(n as nat, |q: int| piece_end(w, rodata@, q + 1) as usize),
            rel_rodata: spec_add_name(sh.data, rel_rodata_name()).1 as u32,
        },
    )) by {
        reveal(rodata_filled);
    }
    Ok((ends, idx))
}


/// The context in which relocation records are brought over.
pub open spec fn records_ctx(has_text: bool, text_idx: usize, rodata: Seq<usize>, rel_text: u32, rel_rodata: u32, symtab_idx: usize) -> SpliceCtx {
    SpliceCtx { has_text, text_idx, rodata, offsets: Seq::empty(), rel_text, rel_rodata, symtab_idx, initial_sh_info: 0 }
}

/// The context in which relocation sections are updated.
pub open spec fn fix_ctx(rodata: Seq<usize>, offsets: Seq<usize>, initial_sh_info: u32) -> SpliceCtx {
    SpliceCtx { rodata, offsets, initial_sh_info, ..arbitrary_ctx() }
}

/// The relocation records of an assembled object.
pub open spec fn asm_records(asm_secs: Seq<SectionView>) -> Seq<SectionView> {
    rel_indices(asm_secs, asm_secs.len() as int).map_values(|i: int| asm_secs[i])
}

/// Splices one assembled object into the compiled object. An object whose code is not
/// that of a stub function is left out. Otherwise its code and data are placed (see
/// [`placed`]) and filled in (see [`rodata_filled`]); its relocation records (at
/// most two) are brought over (see [`records_transferred`]); when local symbols came
/// with them, the compiled relocation sections are updated (see
/// [`relocations_fixed`]); and its remaining global symbols are added (see
/// [`globals_added`]). `st` holds the compiled object and the assembled symbols.
#[verifier::opaque]
pub open spec fn object_spliced(
    st: SpliceState,
    asm_secs: Seq<SectionView>,
    main: Seq<char>,
    num: nat,
    stubs: Seq<Seq<char>>,
    snapshot: Seq<SymbolView>,
    rel_text: u32,
    symtab_idx: usize,
) -> Option<SpliceState> {
    match asm_text_of(asm_secs, st.asm_syms) {
        None => None,
        Some(text) => if text.len() > 0 && !stubs.contains(main) {
            Some(st)
        } else {
            match placed(st, text, main, num, snapshot) {
                None => None,
                Some(p) => match rodata_filled(p.secs, st.shstrtab, p.rodata, asm_secs) {
                    None => None,
                    Some(f) => if asm_records(asm_secs).len() >= 3 {
                        None
                    } else {
                        let has_text = text.len() > 0;
                        match records_transferred(
                            SpliceState { secs: f.secs, shstrtab: f.shstrtab, ..st },
                            asm_records(asm_secs),
                            records_ctx(has_text, p.text_idx, p.rodata, rel_text, f.rel_rodata, symtab_idx),
                        ) {
                            None => None,
                            Some(s3) => match (if s3.local > 0 {
                                relocations_fixed(s3, fix_ctx(p.rodata, f.offsets, st.t.symtab.sh_info))
                            } else {
                                Some(s3)
                            }) {
                                None => None,
                                Some(s4) => match globals_added(s4.t, s4.asm_syms, has_text, p.text_idx, s4.names) {
                                    None => None,
                                    Some(t) => Some(SpliceState { t, ..s4 }),
                                },
                            },
                        }
                    },
                },
            }
        },
    }
}

/// Splices one assembled object into the compiled object (see [`object_spliced`]).
/// `stubs` are the names of the stub functions and `snapshot` the compiled symbols
/// before any object was spliced; `rel_text` names the code relocation sections.
#[verifier::spinoff_prover]
#[verifier::rlimit(40)]
pub fn splice_object(compiled: &mut Elf, obj: &mut AsmObject, stubs: &Vec<String>, snapshot: &Vec<Symbol>, rel_text: u32) -> (r: Result<(), MWError>)
    ensures
        same_frame(*old(compiled), *final(compiled)),
        final(obj).path == old(obj).path,
        final(obj).main_symbol == old(obj).main_symbol,
        final(obj).all_symbols == old(obj).all_symbols,
        final(obj).elf.sections == old(obj).elf.sections,
        match object_spliced(
            splice_state(*old(compiled), old(obj).elf.symtab.symbols@, 0, Seq::empty()),
            section_views(old(obj).elf.sections@),
            old(obj).main_symbol@,
            old(obj).all_symbols@.len(),
            string_views(stubs@),
            symbol_views(snapshot@),
            rel_text,
            old(compiled).symtab_idx,
        ) {
            None => r is Err,
            Some(v) => r is Ok && section_views(final(compiled).sections@) == v.secs
                && final(compiled).shstrtab.section@ == v.shstrtab && tables(*final(compiled)) == v.t
                && symbol_views(final(obj).elf.symtab.symbols@) == v.asm_syms,
        },
{
    reveal(object_spliced);
    let ghost st = splice_state(*compiled, obj.elf.symtab.symbols@, 0, Seq::<String>::empty());
    let ghost asm_w = section_views(obj.elf.sections@);
    let text = match asm_text(&obj.elf) {
        Err(e) => {
            return Err(e);
        },
        Ok(t) => t,
    };
    let has_text = text.len() > 0;
    if has_text {
        let known = contains_name(stubs, obj.main_symbol.as_str());
        assert(known == string_views(stubs@).contains(obj.main_symbol@)) by {
            if known {
                let k = choose|k: int| 0 <= k < stubs@.len() && (#[trigger] stubs@[k])@ == obj.main_symbol@;
                assert(string_views(stubs@)[k] == obj.main_symbol@);
            }
            if string_views(stubs@).contains(obj.main_symbol@) {
                let k = choose|k: int| 0 <= k < string_views(stubs@).len() && string_views(stubs@)[k] == obj.main_symbol@;
                assert(stubs@[k]@ == obj.main_symbol@);
            }
        }
        if !known {
            return Ok(());
        }
    }
    let num = obj.all_symbols.len();
    let (text_idx, rodata) = match place_object(compiled, &text, obj.main_symbol.as_str(), num, snapshot) {
        Err(e) => {
            return Err(e);
        },
        Ok(p) => p,
    };
    let ghost p_secs = section_views(compiled.sections@);
    let (offsets, rel_rodata) = match fill_rodata(compiled, &rodata, &obj.elf) {
        Err(e) => {
            return Err(e);
        },
        Ok(f) => f,
    };
    let recs = obj.elf.reloc_sections();
    proof {
        lemma_rel_indices_range(asm_w, asm_w.len() as int);
        assert(indexed_sections(recs@) =~= asm_records(asm_w)) by {
            assert forall|k: int| 0 <= k < recs@.len() implies indexed_sections(recs@)[k] == asm_records(asm_w)[k] by {
                assert(asm_w[recs@[k].0 as int] == obj.elf.sections@[recs@[k].0 as int]@);
            }
        }
    }
    if recs.len() >= 3 {
        return Err(MWError::Internal("an assembled object holds too many relocation records"));
    }
    let initial_sh_info = compiled.symtab.section.sh_info;
    let mut local: usize = 0;
    let mut names: Vec<String> = Vec::new();
    assert(string_views(names@) =~= Seq::<Seq<char>>::empty());
    match transfer_records(compiled, &mut obj.elf.symtab.symbols, &recs, has_text, text_idx, rodata.as_slice(), rel_text, rel_rodata, &mut local, &mut names) {
        Err(e) => {
            return Err(e);
        },
        Ok(()) => {},
    }
    if local > 0 {
        match fix_relocations(compiled, rodata.as_slice(), offsets.as_slice(), initial_sh_info, local, &obj.elf.symtab.symbols, &names) {
            Err(e) => {
                return Err(e);
            },
            Ok(()) => {},
        }
    }
    match add_globals(compiled, &obj.elf.symtab.symbols, has_text, text_idx, &names) {
        Err(e) => {
            return Err(e);
        },
        Ok(()) => {},
    }
    Ok(())
}


/// The assembled objects `objs` spliced one after another into the compiled object
/// (see [`object_spliced`]); `st` holds the compiled object.
pub open spec fn objects_spliced(
    st: SpliceState,
    objs: Seq<AsmObject>,
    stubs: Seq<Seq<char>>,
    snapshot: Seq<SymbolView>,
    rel_text: u32,
    symtab_idx: usize,
) -> Option<SpliceState>
    decreases objs.len(),
{
    if objs.len() == 0 {
        Some(st)
    } else {
        match objects_spliced(st, objs.drop_last(), stubs, snapshot, rel_text, symtab_idx) {
            None => None,
            Some(c) => {
                let o = objs.last();
                object_spliced(
                    SpliceState { asm_syms: symbol_views(o.elf.symtab.symbols@), local: 0, names: Seq::empty(), ..c },
                    section_views(o.elf.sections@),
                    o.main_symbol@,
                    o.all_symbols@.len(),
                    stubs,
                    snapshot,
                    rel_text,
                    symtab_idx,
                )
            },
        }
    }
}

/// Whether the symbols of the compiled object can be tidied (see
/// [`Elf::symbol_cleanup`]): moving any `st_name` past the stub prefix stays within
/// 32 bits, and the table is not huge.
pub open spec fn cleanup_allowed(e: Elf) -> bool {
    &&& forall|i: int| 0 <= i < e.symtab.symbols@.len() ==> #[trigger] e.symtab.symbols@[i].st_name + 8 <= u32::MAX
    &&& e.symtab.symbols@.len() < 0x3fff_ffff
}

fn check_cleanup(e: &Elf) -> (r: bool)
    ensures
        r == cleanup_allowed(*e),
{
    let n = e.symtab.symbols.len();
    if n >= 0x3fff_ffff {
        return false;
    }
    let mut i: usize = 0;
    while i < n
        invariant
            i <= n,
            n == e.symtab.symbols@.len(),
            forall|k: int| 0 <= k < i ==> #[trigger] e.symtab.symbols@[k].st_name + 8 <= u32::MAX,
        decreases n - i,
    {
        if e.symtab.symbols[i].st_name > 0xFFFF_FFFF - 8 {
            return false;
        }
        i += 1;
    }
    true
}

/// The compiled object with the name of the code relocation sections added, its stub
/// names read off, and its symbols tidied (see [`Elf::symbol_cleanup`]); then, unless
/// `skip_asm` is set, the assembled objects are spliced in (see [`objects_spliced`]),
/// the symbols as they were after tidying telling where data-only objects go. Fails
/// when the symbols cannot be tidied or an object cannot be spliced.
pub open spec fn program_spliced(st: SpliceState, objs: Seq<AsmObject>, skip_asm: bool, symtab_idx: usize) -> Option<SpliceState> {
    let rel_text = spec_add_name(st.shstrtab.data, seq!['.', 'r', 'e', 'l', '.', 't', 'e', 'x', 't']).1 as u32;
    let stubs = stub_names(function_names_of(st.t.symbols));
    let st1 = SpliceState {
        shstrtab: strtab_after_add(st.shstrtab, seq!['.', 'r', 'e', 'l', '.', 't', 'e', 'x', 't']),
        t: cleaned_tables(st.t),
        ..st
    };
    if skip_asm {
        Some(st1)
    } else {
        objects_spliced(st1, objs, stubs, st1.t.symbols, rel_text, symtab_idx)
    }
}

/// Splices the assembled objects one after another (see [`objects_spliced`]).
#[verifier::spinoff_prover]
fn splice_each(compiled: &mut Elf, objects: &mut Vec<AsmObject>, stubs: &Vec<String>, snapshot: &Vec<Symbol>, rel_text: u32) -> (r: Result<(), MWError>)
    ensures
        same_frame(*old(compiled), *final(compiled)),
        match objects_spliced(
            splice_state(*old(compiled), Seq::empty(), 0, Seq::empty()),
            old(objects)@,
            string_views(stubs@),
            symbol_views(snapshot@),
            rel_text,
            old(compiled).symtab_idx,
        ) {
            None => r is Err,
            Some(v) => r is Ok && section_views(final(compiled).sections@) == v.secs
                && final(compiled).shstrtab.section@ == v.shstrtab && tables(*final(compiled)) == v.t,
        },
{
    let ghost st1 = splice_state(*compiled, Seq::empty(), 0, Seq::<String>::empty());
    let ghost objs = old(objects)@;
    let ghost sv = string_views(stubs@);
    let ghost snap = symbol_views(snapshot@);
    assert(string_views(Seq::<String>::empty()) =~= Seq::<Seq<char>>::empty());
    let n = objects.len();
    let mut i: usize = 0;
    assert(objs.subrange(0, 0) =~= Seq::<AsmObject>::empty());
    assert(objects@ =~= objs.subrange(0, n as int));
    while i < n
        invariant
            i <= n,
            n == objs.len(),
            objects@ == objs.subrange(i as int, n as int),
            objs == old(objects)@,
            same_frame(*old(compiled), *compiled),
            st1 == splice_state(*old(compiled), Seq::empty(), 0, Seq::<String>::empty()),
            sv == string_views(stubs@),
            snap == symbol_views(snapshot@),
            string_views(Seq::<String>::empty()) == Seq::<Seq<char>>::empty(),
            objects_spliced(st1, objs.subrange(0, i as int), sv, snap, rel_text, old(compiled).symtab_idx) matches Some(c)
                && c.secs == section_views(compiled.sections@) && c.shstrtab == compiled.shstrtab.section@
                && c.t == tables(*compiled),
        decreases n - i,
    {
        assert(objects@[0] == objs[i as int]);
        let mut obj = objects.remove(0);
        let ghost o = obj;
        let ghost next = objs.subrange(0, i + 1);
        assert(next.drop_last() =~= objs.subrange(0, i as int));
        assert(next.last() == o);
        assert(objects@ =~= objs.subrange(i + 1, n as int));
        let ghost c = objects_spliced(st1, objs.subrange(0, i as int), sv, snap, rel_text, old(compiled).symtab_idx).unwrap();
        assert(SpliceState { asm_syms: symbol_views(o.elf.symtab.symbols@), local: 0, names: Seq::empty(), ..c }
            == splice_state(*compiled, o.elf.symtab.symbols@, 0, Seq::<String>::empty()));
        match splice_object(compiled, &mut obj, stubs, snapshot, rel_text) {
            Err(e) => {
                proof {
                    assert(objects_spliced(st1, next, sv, snap, rel_text, old(compiled).symtab_idx) is None);
                    lemma_objects_fail_on(st1, objs, i + 1, sv, snap, rel_text, old(compiled).symtab_idx);
                    assert(objects_spliced(splice_state(*old(compiled), Seq::empty(), 0, Seq::empty()), objs, sv, snap, rel_text, old(compiled).symtab_idx) is None);
                }
                return Err(e);
            },
            Ok(()) => {},
        }
        i += 1;
    }
    assert(objs.subrange(0, n as int) =~= objs);
    Ok(())
}

/// Splices the assembled objects into the object compiled from the stub source (see
/// [`program_spliced`]).
#[verifier::spinoff_prover]
#[verifier::rlimit(40)]
pub fn splice_objects(compiled: &mut Elf, objects: &mut Vec<AsmObject>, skip_asm: bool) -> (r: Result<(), MWError>)
    ensures
        same_frame(*old(compiled), *final(compiled)),
        !cleanup_allowed(*old(compiled)) ==> r is Err,
        cleanup_allowed(*old(compiled)) ==> match program_spliced(
            splice_state(*old(compiled), Seq::empty(), 0, Seq::empty()),
            old(objects)@,
            skip_asm,
            old(compiled).symtab_idx,
        ) {
            None => r is Err,
            Some(v) => r is Ok && section_views(final(compiled).sections@) == v.secs
                && final(compiled).shstrtab.section@ == v.shstrtab && tables(*final(compiled)) == v.t,
        },
{
    let ghost st0 = splice_state(*compiled, Seq::empty(), 0, Seq::<String>::empty());
    if !check_cleanup(compiled) {
        return Err(MWError::Internal("the compiled symbols cannot be tidied"));
    }
    proof {
        reveal_strlit(".rel.text");
    }
    let rel_name = ".rel.text";
    assert(rel_name@ =~= seq!['.', 'r', 'e', 'l', '.', 't', 'e', 'x', 't']);
    let stubs = stub_function_names(compiled);
    assert(string_views(stubs@) =~= stub_names(function_names_of(st0.t.symbols)));
    let rel_text = compiled.add_sh_symbol(rel_name);
    compiled.symbol_cleanup();
    if skip_asm {
        return Ok(());
    }
    let snapshot = crate::elf::clone_symbols(&compiled.symtab.symbols);
    splice_each(compiled, objects, &stubs, &snapshot, rel_text)
}

proof fn lemma_objects_fail_on(st: SpliceState, objs: Seq<AsmObject>, j: int, stubs: Seq<Seq<char>>, snapshot: Seq<SymbolView>, rel_text: u32, symtab_idx: usize)
    requires
        0 <= j <= objs.len(),
        objects_spliced(st, objs.subrange(0, j), stubs, snapshot, rel_text, symtab_idx) is None,
    ensures
        objects_spliced(st, objs, stubs, snapshot, rel_text, symtab_idx) is None,
    decreases objs.len() - j,
{
    if j < objs.len() {
        assert(objs.subrange(0, j + 1).drop_last() =~= objs.subrange(0, j));
        lemma_objects_fail_on(st, objs, j + 1, stubs, snapshot, rel_text, symtab_idx);
    } else {
        assert(objs.subrange(0, j) =~= objs);
    }
}

} // verus!
