//! A string table: NUL-terminated names packed into a section's payload.
use vstd::prelude::*;
use vstd::string::*;
use vstd::utf8::*;

use super::section::{section_header_bytes, Section, SectionView};
use crate::text::{lemma_encode_utf8_nonzero, lemma_from_utf8_chars, str_from_utf8};

verus! {

/// Whether `needle` occurs in `hay` at index `i`.
pub open spec fn occurs_at(hay: Seq<u8>, needle: Seq<u8>, i: int) -> bool {
    0 <= i && i + needle.len() <= hay.len() && hay.subrange(i, i + needle.len()) == needle
}

/// Calls `memchr::memmem::find`, which returns the index of the first occurrence of
/// `needle` in `haystack`, or `None` when there is none (an empty needle occurs at 0).
#[verifier::external_body]
pub(crate) fn memmem_find(haystack: &[u8], needle: &[u8]) -> (r: Option<usize>)
    ensures
        match r {
            Some(i) => occurs_at(haystack@, needle@, i as int) && forall|j: int|
                0 <= j < i ==> !#[trigger] occurs_at(haystack@, needle@, j),
            None => forall|j: int| !#[trigger] occurs_at(haystack@, needle@, j),
        },
{
    memchr::memmem::find(haystack, needle)
}

/// The bytes from `i` up to (not including) the first NUL at or after `i`, or to the end.
pub open spec fn str_at(b: Seq<u8>, i: int) -> Seq<u8>
    decreases b.len() - i,
{
    if i < 0 || i >= b.len() || b[i] == 0 {
        Seq::empty()
    } else {
        seq![b[i]] + str_at(b, i + 1)
    }
}

/// The characters of the name stored at `i`: its bytes decoded when they are
/// valid UTF-8, and the empty text otherwise.
pub open spec fn name_at(b: Seq<u8>, i: int) -> Seq<char> {
    if valid_utf8(str_at(b, i)) {
        decode_utf8(str_at(b, i))
    } else {
        Seq::empty()
    }
}

/// Whether `needle` followed by a NUL is stored at `i` in `b`.
pub open spec fn terminated_at(b: Seq<u8>, needle: Seq<u8>, i: int) -> bool {
    occurs_at(b, needle, i) && i + needle.len() < b.len() && b[i + needle.len()] == 0
}

/// The first index at which `needle` followed by a NUL is stored in `b`.
pub open spec fn first_terminated(b: Seq<u8>, needle: Seq<u8>) -> int {
    choose|i: int| terminated_at(b, needle, i) && forall|j: int| 0 <= j < i ==> !terminated_at(b, needle, j)
}

/// The data of a string table after adding `name`, and the index returned for it.
pub open spec fn spec_add_name(b: Seq<u8>, name: Seq<char>) -> (Seq<u8>, int) {
    let needle = encode_utf8(name);
    if needle.len() == 0 {
        (if b.len() == 0 { seq![0u8] } else { b }, 0)
    } else if exists|i: int| terminated_at(b, needle, i) {
        (b, first_terminated(b, needle))
    } else {
        (b + needle + seq![0u8], b.len() as int)
    }
}

/// The string table section after [`StrTab::add_symbol`] with `name`.
pub open spec fn strtab_after_add(s: SectionView, name: Seq<char>) -> SectionView {
    let data = spec_add_name(s.data, name).0;
    SectionView {
        data,
        sh_size: if data == s.data {
            s.sh_size
        } else {
            data.len() as u32
        },
        ..s
    }
}

/// Where a name ends: the scan of `str_at` stops at the first NUL.
proof fn lemma_str_at_prefix(b: Seq<u8>, i: int, n: Seq<u8>)
    requires
        0 <= i,
        i + n.len() < b.len(),
        b.subrange(i, i + n.len()) == n,
        b[i + n.len()] == 0,
        forall|k: int| 0 <= k < n.len() ==> #[trigger] n[k] != 0,
    ensures
        str_at(b, i) == n,
    decreases n.len(),
{
    if n.len() == 0 {
    } else {
        assert(b[i] == n[0]);
        let rest = n.drop_first();
        assert(b.subrange(i + 1, i + 1 + rest.len()) =~= rest);
        lemma_str_at_prefix(b, i + 1, rest);
        assert(str_at(b, i) =~= seq![b[i]] + rest);
    }
}

/// Scanning up to the first NUL from `i` stays inside the bytes and stops at a NUL or the end.
proof fn lemma_str_at_bounds(b: Seq<u8>, i: int)
    requires
        0 <= i <= b.len(),
    ensures
        i + str_at(b, i).len() <= b.len(),
        b.subrange(i, i + str_at(b, i).len()) == str_at(b, i),
        i + str_at(b, i).len() == b.len() || b[i + str_at(b, i).len()] == 0,
        forall|k: int| i <= k < i + str_at(b, i).len() ==> b[k] != 0,
    decreases b.len() - i,
{
    if i < b.len() && b[i] != 0 {
        lemma_str_at_bounds(b, i + 1);
        assert(b.subrange(i, i + str_at(b, i).len()) =~= str_at(b, i));
    }
}

/// The first index at which `needle` followed by a NUL is stored in `data`.
fn find_terminated(data: &[u8], needle: &[u8]) -> (r: Option<usize>)
    requires
        needle@.len() > 0,
    ensures
        match r {
            Some(i) => terminated_at(data@, needle@, i as int) && forall|j: int|
                0 <= j < i ==> !#[trigger] terminated_at(data@, needle@, j),
            None => forall|j: int| !#[trigger] terminated_at(data@, needle@, j),
        },
{
    let ghost b0 = data@;
    let ghost nb = needle@;
    let len = data.len();
    let mut search_offset: usize = 0;
    while search_offset <= len
        invariant
            len == data@.len(),
            b0 == data@,
            nb == needle@,
            nb.len() > 0,
            forall|j: int| 0 <= j < search_offset ==> !#[trigger] terminated_at(b0, nb, j),
        decreases len + 1 - search_offset,
    {
        let sub = vstd::slice::slice_subrange(data, search_offset, len);
        match memmem_find(sub, needle) {
            None => {
                assert forall|j: int| search_offset <= j implies !#[trigger] terminated_at(b0, nb, j) by {
                    if terminated_at(b0, nb, j) {
                        assert(sub@.subrange(j - search_offset, j - search_offset + nb.len()) =~= nb);
                        assert(occurs_at(sub@, nb, j - search_offset));
                    }
                }
                return None;
            },
            Some(found_idx) => {
                let actual_idx = search_offset + found_idx;
                let end_idx = actual_idx + needle.len();
                assert(sub@.subrange(found_idx as int, found_idx + nb.len()) =~= b0.subrange(
                    actual_idx as int,
                    actual_idx + nb.len(),
                ));
                assert forall|j: int| search_offset <= j < actual_idx implies !#[trigger] terminated_at(b0, nb, j) by {
                    if terminated_at(b0, nb, j) {
                        assert(sub@.subrange(j - search_offset, j - search_offset + nb.len()) =~= nb);
                        assert(occurs_at(sub@, nb, j - search_offset));
                    }
                }
                if end_idx < len && data[end_idx] == 0 {
                    return Some(actual_idx);
                }
                search_offset = actual_idx + 1;
            },
        }
    }
    assert forall|j: int| !#[trigger] terminated_at(b0, nb, j) by {
        if terminated_at(b0, nb, j) && j >= search_offset {
            assert(j + nb.len() < b0.len());
        }
    }
    None
}

/// A string table section.
#[derive(Debug, Default, PartialEq)]
pub struct StrTab {
    pub section: Section,
}

impl Clone for StrTab {
    fn clone(&self) -> (r: Self)
        ensures
            r.section@ == self.section@,
    {
        StrTab { section: self.section.clone() }
    }
}

impl StrTab {
    /// Wraps `section`; its payload is used as it is.
    pub fn new(section: Section) -> (t: Self)
        ensures
            t.section@ == section@,
    {
        Self { section }
    }

    /// The payload, which is always kept up to date.
    pub fn pack_data(&mut self) -> (r: &[u8])
        ensures
            final(self).section@ == old(self).section@,
            r@ == old(self).section.data@,
    {
        self.section.data.as_slice()
    }

    /// The name stored at `index`: the bytes up to the next NUL, or the empty
    /// string when they are not valid UTF-8.
    pub fn get_str(&self, index: usize) -> (r: &str)
        requires
            index <= self.section.data@.len(),
        ensures
            r@ == name_at(self.section.data@, index as int),
    {
        let data = self.section.data.as_slice();
        let len = data.len();
        let mut end = index;
        while end < len && data[end] != 0
            invariant
                index <= end <= len,
                len == data@.len(),
                data@ == self.section.data@,
                forall|k: int| index <= k < end ==> data@[k] != 0,
            decreases len - end,
        {
            end += 1;
        }
        proof {
            lemma_str_at_bounds(data@, index as int);
            let n = str_at(data@, index as int);
            if index + n.len() < end {
                assert(data@[index + n.len()] != 0);
            }
            if end < index + n.len() {
                assert(data@[end as int] == n[end - index]);
            }
            assert(end == index + n.len());
        }
        let bytes = vstd::slice::slice_subrange(data, index, end);
        match str_from_utf8(bytes) {
            Some(s) => {
                proof {
                    lemma_from_utf8_chars(s, bytes@);
                }
                s
            },
            None => {
                let e = "";
                proof {
                    reveal_strlit("");
                }
                e
            },
        }
    }

    /// The name stored at `index`, as an owned string.
    pub fn get_string(&self, index: usize) -> (r: String)
        requires
            index <= self.section.data@.len(),
        ensures
            r@ == name_at(self.section.data@, index as int),
    {
        self.get_str(index).to_owned()
    }

    /// The index of `symbol_name` in the table. An existing NUL-terminated occurrence
    /// is reused (the first one); otherwise the name and a NUL are appended.
    /// The empty name is always at index 0.
    pub fn add_symbol(&mut self, symbol_name: &str) -> (idx: u32)
        ensures
            final(self).section@ == strtab_after_add(old(self).section@, symbol_name@),
            idx == spec_add_name(old(self).section.data@, symbol_name@).1 as u32,
    {
        let needle = symbol_name.as_bytes();
        let ghost nb = needle@;
        let ghost b0 = self.section.data@;
        if needle.len() == 0 {
            if self.section.data.len() == 0 {
                self.section.data.push(0);
                self.section.sh_size = 1;
                assert(self.section.data@ =~= seq![0u8]);
            }
            return 0;
        }
        match find_terminated(self.section.data.as_slice(), needle) {
            Some(i) => {
                proof {
                    lemma_first_terminated(b0, nb, i as int);
                    let c = first_terminated(b0, nb);
                    if c < i {
                        assert(!terminated_at(b0, nb, c));
                    }
                    if c > i {
                        assert(!terminated_at(b0, nb, i as int));
                    }
                }
                #[verifier::truncate]
                let r = i as u32;
                return r;
            },
            None => {},
        }
        let idx = self.section.data.len();
        self.section.data.extend_from_slice(needle);
        self.section.data.push(0);
        assert(self.section.data@ =~= b0 + nb + seq![0u8]);
        #[verifier::truncate]
        let size = self.section.data.len() as u32;
        self.section.sh_size = size;
        #[verifier::truncate]
        let r = idx as u32;
        r
    }

    /// The packed header and a copy of the payload.
    pub fn pack(&mut self) -> (r: (Vec<u8>, Vec<u8>))
        ensures
            final(self).section@ == old(self).section@,
            r.0@ == section_header_bytes(old(self).section@),
            r.1@ == old(self).section.data@,
    {
        let data = self.section.pack_data();
        (self.section.pack_header(), data)
    }
}

/// A name added to a string table reads back unchanged at the index returned,
/// provided it holds no NUL character. The empty name is given index 0, so it reads
/// back only where the table is empty or starts with a NUL, as ELF string tables do.
pub proof fn lemma_add_name_reads_back(b: Seq<u8>, name: Seq<char>)
    requires
        !name.contains('\0'),
        name.len() > 0 || b.len() == 0 || b[0] == 0,
    ensures
        spec_add_name(b, name).1 < spec_add_name(b, name).0.len(),
        name_at(spec_add_name(b, name).0, spec_add_name(b, name).1) == name,
{
    let needle = encode_utf8(name);
    encode_utf8_decode_utf8(name);
    encode_utf8_valid_utf8(name);
    lemma_encode_utf8_nonzero(name);
    if needle.len() == 0 {
        assert(name.len() == 0) by {
            if name.len() > 0 {
                assert(encode_utf8(name) == encode_scalar(name[0] as u32) + encode_utf8(name.drop_first()));
            }
        }
        let nb = spec_add_name(b, name).0;
        assert(str_at(nb, 0) =~= Seq::<u8>::empty());
        assert(name =~= Seq::<char>::empty());
    } else if exists|i: int| terminated_at(b, needle, i) {
        let k = choose|i: int| terminated_at(b, needle, i);
        lemma_first_terminated(b, needle, k);
        let i = first_terminated(b, needle);
        lemma_str_at_prefix(b, i, needle);
    } else {
        let nb = b + needle + seq![0u8];
        assert(nb.subrange(b.len() as int, b.len() + needle.len() as int) =~= needle);
        lemma_str_at_prefix(nb, b.len() as int, needle);
    }
}

/// Adding a name never disturbs the names already stored: the old bytes stay a prefix.
pub proof fn lemma_add_name_keeps_prefix(b: Seq<u8>, name: Seq<char>)
    ensures
        b.len() <= spec_add_name(b, name).0.len(),
        spec_add_name(b, name).0.subrange(0, b.len() as int) == b,
{
    let (nb, i) = spec_add_name(b, name);
    assert(nb.subrange(0, b.len() as int) =~= b);
}

/// Adding the same name twice changes nothing the second time and returns the
/// same index, provided the name holds no NUL character.
pub proof fn lemma_add_name_idempotent(b: Seq<u8>, name: Seq<char>)
    requires
        !name.contains('\0'),
    ensures
        spec_add_name(spec_add_name(b, name).0, name) == spec_add_name(b, name),
{
    let needle = encode_utf8(name);
    let (nb, i) = spec_add_name(b, name);
    if needle.len() == 0 {
    } else if exists|i: int| terminated_at(b, needle, i) {
    } else {
        lemma_encode_utf8_nonzero(name);
        let k = b.len() as int;
        assert(nb.subrange(k, k + needle.len()) =~= needle);
        assert(terminated_at(nb, needle, k));
        lemma_first_terminated(nb, needle, k);
        let c = first_terminated(nb, needle);
        if c < k {
            if c + needle.len() < k {
                assert(b.subrange(c, c + needle.len()) =~= nb.subrange(c, c + needle.len()));
                assert(terminated_at(b, needle, c));
            } else {
                let t = c + needle.len();
                assert(nb[t] == needle[t - k]);
            }
        }
        if c > k {
            assert(!terminated_at(nb, needle, k));
        }
        assert(c == k);
    }
}

/// What [`StrTab::add_symbol`] does to its section, read back: the name added (free of
/// NUL characters, and non-empty unless the table is empty or starts with a NUL) is
/// stored at the index returned, and adding it again leaves the section as it is and
/// returns the same index.
pub proof fn lemma_strtab_add_reads_back(s: SectionView, name: Seq<char>)
    requires
        !name.contains('\0'),
        name.len() > 0 || s.data.len() == 0 || s.data[0] == 0,
    ensures
        spec_add_name(s.data, name).1 < strtab_after_add(s, name).data.len(),
        name_at(strtab_after_add(s, name).data, spec_add_name(s.data, name).1) == name,
        strtab_after_add(strtab_after_add(s, name), name) == strtab_after_add(s, name),
        spec_add_name(strtab_after_add(s, name).data, name).1 == spec_add_name(s.data, name).1,
{
    lemma_add_name_reads_back(s.data, name);
    lemma_add_name_idempotent(s.data, name);
    let s2 = strtab_after_add(s, name);
    assert(s2.data == spec_add_name(s.data, name).0);
    assert(strtab_after_add(s2, name) =~= s2) by {
        assert(spec_add_name(s2.data, name).0 == s2.data);
    }
}

/// Some occurrence is the first one.
proof fn lemma_first_terminated(b: Seq<u8>, needle: Seq<u8>, k: int)
    requires
        terminated_at(b, needle, k),
    ensures
        exists|i: int| terminated_at(b, needle, i) && forall|j: int| 0 <= j < i ==> !terminated_at(b, needle, j),
    decreases k,
{
    if exists|j: int| 0 <= j < k && terminated_at(b, needle, j) {
        let j = choose|j: int| 0 <= j < k && terminated_at(b, needle, j);
        lemma_first_terminated(b, needle, j);
    }
}

} // verus!
