//! Finds `INCLUDE_ASM` / `INCLUDE_RODATA` macros in C source bytes and writes the
//! C stubs that stand in for assembled code while the file is compiled.
use vstd::prelude::*;
use vstd::string::*;
use vstd::utf8::*;

use crate::elf::strtab::{memmem_find, occurs_at};
use crate::constants::{function_prefix, lemma_constants, FUNCTION_PREFIX};
use crate::text::{chars_of, concat, str_from_utf8, to_string};
use crate::{escape_symbol, spec_escape};

verus! {

/// ASCII whitespace as `u8::is_ascii_whitespace` defines it: space, tab, line feed,
/// form feed and carriage return.
pub open spec fn is_ws(b: u8) -> bool {
    b == 0x20 || b == 0x09 || b == 0x0A || b == 0x0C || b == 0x0D
}

/// The identifier bytes of macro arguments: `[a-zA-Z0-9$_]`.
pub open spec fn spec_is_ident_byte(b: u8) -> bool {
    (0x30 <= b <= 0x39) || (0x41 <= b <= 0x5A) || (0x61 <= b <= 0x7A) || b == 0x24 || b == 0x5F
}

/// The first position at or after `pos` holding no whitespace (or the end).
pub open spec fn spec_skip_ws(c: Seq<u8>, pos: int) -> int
    decreases c.len() - pos,
{
    if pos < 0 || pos >= c.len() || !is_ws(c[pos]) {
        pos
    } else {
        spec_skip_ws(c, pos + 1)
    }
}

/// The first position at or after `pos` holding a double quote (or the end).
pub open spec fn spec_find_quote(c: Seq<u8>, pos: int) -> int
    decreases c.len() - pos,
{
    if pos < 0 || pos >= c.len() || c[pos] == 0x22 {
        pos
    } else {
        spec_find_quote(c, pos + 1)
    }
}

/// The first position at or after `pos` holding no identifier byte (or the end).
pub open spec fn spec_ident_end(c: Seq<u8>, pos: int) -> int
    decreases c.len() - pos,
{
    if pos < 0 || pos >= c.len() || !spec_is_ident_byte(c[pos]) {
        pos
    } else {
        spec_ident_end(c, pos + 1)
    }
}

/// A double-quoted string at `pos`: the position after the closing quote and the
/// bytes between the quotes.
pub open spec fn spec_scan_quoted(c: Seq<u8>, pos: int) -> Option<(int, Seq<u8>)> {
    if pos < 0 || pos >= c.len() || c[pos] != 0x22 {
        None
    } else {
        let end = spec_find_quote(c, pos + 1);
        if end >= c.len() {
            None
        } else {
            Some((end + 1, c.subrange(pos + 1, end)))
        }
    }
}

/// A non-empty run of identifier bytes at `pos`: where it ends and its bytes.
pub open spec fn spec_scan_identifier(c: Seq<u8>, pos: int) -> Option<(int, Seq<u8>)> {
    let end = spec_ident_end(c, pos);
    if end == pos || pos < 0 {
        None
    } else {
        Some((end, c.subrange(pos, end)))
    }
}

/// Whether every byte of `s` may appear in a function name given to a macro.
pub open spec fn all_ident_bytes(s: Seq<u8>) -> bool {
    forall|k: int| 0 <= k < s.len() ==> spec_is_ident_byte(#[trigger] s[k])
}

/// Whether the bytes at `pos` are `w`.
pub open spec fn bytes_at(c: Seq<u8>, pos: int, w: Seq<u8>) -> bool {
    0 <= pos && pos + w.len() <= c.len() && c.subrange(pos, pos + w.len()) == w
}

/// `ASM`
pub open spec fn asm_word() -> Seq<u8> {
    seq![0x41u8, 0x53, 0x4D]
}

/// `RODATA`
pub open spec fn rodata_word() -> Seq<u8> {
    seq![0x52u8, 0x4F, 0x44, 0x41, 0x54, 0x41]
}

/// `INCLUDE_`
pub open spec fn include_word() -> Seq<u8> {
    seq![0x49u8, 0x4E, 0x43, 0x4C, 0x55, 0x44, 0x45, 0x5F]
}

/// A macro call whose `INCLUDE_` starts at `start` (those eight bytes are not
/// looked at): `ASM` or `RODATA`, `(`, a quoted directory, `,`, an identifier and
/// `)`, with whitespace allowed around the arguments. Gives the position after the
/// `)`, the directory and the identifier.
pub open spec fn spec_parse_macro(c: Seq<u8>, start: int) -> Option<(int, Seq<u8>, Seq<u8>)> {
    let p0 = start + 8;
    let p1 = if bytes_at(c, p0, asm_word()) {
        p0 + 3
    } else if bytes_at(c, p0, rodata_word()) {
        p0 + 6
    } else {
        -1
    };
    if p1 < 0 || !(0 <= p1 < c.len() && c[p1] == 0x28) {
        None
    } else {
        match spec_scan_quoted(c, spec_skip_ws(c, p1 + 1)) {
            None => None,
            Some((q, dir)) => {
                let p2 = spec_skip_ws(c, q);
                if !(0 <= p2 < c.len() && c[p2] == 0x2C) {
                    None
                } else {
                    match spec_scan_identifier(c, spec_skip_ws(c, p2 + 1)) {
                        None => None,
                        Some((r, name)) => {
                            let p3 = spec_skip_ws(c, r);
                            if !(0 <= p3 < c.len() && c[p3] == 0x29) {
                                None
                            } else {
                                Some((p3 + 1, dir, name))
                            }
                        },
                    }
                }
            },
        }
    }
}

/// Advances `pos` past any ASCII whitespace.
pub fn skip_whitespace(content: &[u8], pos: usize) -> (r: usize)
    ensures
        r == spec_skip_ws(content@, pos as int),
        pos <= r,
        pos <= content@.len() ==> r <= content@.len(),
{
    let len = content.len();
    let mut i = pos;
    while i < len && is_ascii_ws(content[i])
        invariant
            pos <= i,
            pos <= len ==> i <= len,
            len == content@.len(),
            spec_skip_ws(content@, i as int) == spec_skip_ws(content@, pos as int),
        decreases len - i,
    {
        i += 1;
    }
    i
}

/// Whether `b` is ASCII whitespace.
fn is_ascii_ws(b: u8) -> (r: bool)
    ensures
        r == is_ws(b),
{
    b == 0x20 || b == 0x09 || b == 0x0A || b == 0x0C || b == 0x0D
}

/// If `content[pos]` is `"`, the position after the closing quote and the bytes
/// between the quotes; `None` when there is no opening or no closing quote.
pub fn scan_quoted_string(content: &[u8], pos: usize) -> (r: Option<(usize, &[u8])>)
    ensures
        match spec_scan_quoted(content@, pos as int) {
            None => r is None,
            Some((e, s)) => r matches Some((e2, s2)) && e2 == e && s2@ == s,
        },
        r matches Some((e, _)) ==> pos < e <= content@.len(),
{
    let len = content.len();
    if pos >= len || content[pos] != 0x22 {
        return None;
    }
    let start = pos + 1;
    let mut i = start;
    while i < len && content[i] != 0x22
        invariant
            start <= i,
            start <= len,
            len == content@.len(),
            spec_find_quote(content@, i as int) == spec_find_quote(content@, start as int),
        decreases len - i,
    {
        i += 1;
    }
    if i >= len {
        return None;
    }
    Some((i + 1, vstd::slice::slice_subrange(content, start, i)))
}

/// Whether `b` may appear in a function name given to a macro: `[a-zA-Z0-9$_]`.
pub fn is_ident_byte(b: u8) -> (r: bool)
    ensures
        r == spec_is_ident_byte(b),
{
    (0x30 <= b && b <= 0x39) || (0x41 <= b && b <= 0x5A) || (0x61 <= b && b <= 0x7A) || b == 0x24
        || b == 0x5F
}

/// A non-empty run of identifier bytes starting at `pos`: where it ends and its bytes.
pub fn scan_identifier(content: &[u8], pos: usize) -> (r: Option<(usize, &[u8])>)
    ensures
        match spec_scan_identifier(content@, pos as int) {
            None => r is None,
            Some((e, s)) => r matches Some((e2, s2)) && e2 == e && s2@ == s,
        },
        r matches Some((e, s)) ==> pos < e <= content@.len() && all_ident_bytes(s@),
{
    let len = content.len();
    if pos >= len {
        return None;
    }
    let mut i = pos;
    while i < len && is_ident_byte(content[i])
        invariant
            pos <= i <= len,
            len == content@.len(),
            forall|j: int| pos <= j < i ==> spec_is_ident_byte(#[trigger] content@[j]),
            spec_ident_end(content@, i as int) == spec_ident_end(content@, pos as int),
        decreases len - i,
    {
        i += 1;
    }
    if i == pos {
        return None;
    }
    let name = vstd::slice::slice_subrange(content, pos, i);
    assert forall|k: int| 0 <= k < name@.len() implies spec_is_ident_byte(#[trigger] name@[k]) by {
        assert(name@[k] == content@[pos + k]);
    }
    Some((i, name))
}

/// Whether the bytes at `pos` are those of `w`.
fn matches_at(content: &[u8], pos: usize, w: &[u8]) -> (r: bool)
    ensures
        r == bytes_at(content@, pos as int, w@),
{
    let len = content.len();
    let n = w.len();
    if pos > len || len - pos < n {
        return false;
    }
    let mut k: usize = 0;
    while k < n
        invariant
            n == w@.len(),
            pos + n <= len,
            len == content@.len(),
            k <= n,
            forall|j: int| 0 <= j < k ==> content@[pos + j] == w@[j],
        decreases n - k,
    {
        if content[pos + k] != w[k] {
            assert(content@.subrange(pos as int, pos + n)[k as int] != w@[k as int]);
            return false;
        }
        k += 1;
    }
    assert(content@.subrange(pos as int, pos + n) =~= w@);
    true
}

/// Parses an `INCLUDE_ASM(…)` or `INCLUDE_RODATA(…)` call whose `INCLUDE_` starts at
/// `macro_start`: the position after the closing `)`, the directory and the function name.
pub fn try_parse_macro(content: &[u8], macro_start: usize) -> (r: Option<(usize, &[u8], &[u8])>)
    ensures
        match spec_parse_macro(content@, macro_start as int) {
            None => r is None,
            Some((e, d, f)) => r matches Some((e2, d2, f2)) && e2 == e && d2@ == d && f2@ == f,
        },
        r matches Some((e, _, f)) ==> macro_start + 8 < e <= content@.len() && all_ident_bytes(f@),
{
    let asm_tag: [u8; 3] = [0x41, 0x53, 0x4D];
    let rodata: [u8; 6] = [0x52, 0x4F, 0x44, 0x41, 0x54, 0x41];
    assert(asm_tag@ =~= asm_word());
    assert(rodata@ =~= rodata_word());
    if macro_start > content.len() || content.len() - macro_start < 8 {
        return None;
    }
    let mut pos = macro_start + 8;
    if matches_at(content, pos, asm_tag.as_slice()) {
        pos += 3;
    } else if matches_at(content, pos, rodata.as_slice()) {
        pos += 6;
    } else {
        return None;
    }
    if pos >= content.len() || content[pos] != 0x28 {
        return None;
    }
    pos += 1;
    pos = skip_whitespace(content, pos);
    let (new_pos, asm_dir) = match scan_quoted_string(content, pos) {
        Some(x) => x,
        None => {
            return None;
        },
    };
    pos = skip_whitespace(content, new_pos);
    if pos >= content.len() || content[pos] != 0x2C {
        return None;
    }
    pos += 1;
    pos = skip_whitespace(content, pos);
    let (new_pos, func_name) = match scan_identifier(content, pos) {
        Some(x) => x,
        None => {
            return None;
        },
    };
    pos = skip_whitespace(content, new_pos);
    if pos >= content.len() || content[pos] != 0x29 {
        return None;
    }
    pos += 1;
    Some((pos, asm_dir, func_name))
}


/// `base` joined with `rest` as POSIX paths are joined: an absolute `rest` replaces
/// `base`; otherwise a `/` goes between them unless `base` is empty or ends in one.
pub open spec fn spec_join_path(base: Seq<char>, rest: Seq<char>) -> Seq<char> {
    if rest.len() > 0 && rest[0] == '/' {
        rest
    } else if base.len() == 0 || base.last() == '/' {
        base + rest
    } else {
        base + seq!['/'] + rest
    }
}

/// Joins `rest` onto `base` as a POSIX path (see [`spec_join_path`]).
pub fn join_path(base: &str, rest: &str) -> (r: String)
    ensures
        r@ == spec_join_path(base@, rest@),
{
    let rc = chars_of(rest);
    if rc.len() > 0 && rc[0] == '/' {
        return to_string(rest);
    }
    let bc = chars_of(base);
    if bc.len() == 0 || bc[bc.len() - 1] == '/' {
        return concat(base, rest);
    }
    let sep = "/";
    proof {
        reveal_strlit("/");
    }
    assert(sep@ =~= seq!['/']);
    let with_sep = concat(base, sep);
    concat(with_sep.as_str(), rest)
}


/// The first position at or after `from` where the bytes `INCLUDE_` start, if any.
pub open spec fn next_include(c: Seq<u8>, from: int) -> Option<int>
    decreases c.len() - from,
{
    if from < 0 || from + 8 > c.len() {
        None
    } else if bytes_at(c, from, include_word()) {
        Some(from)
    } else {
        next_include(c, from + 1)
    }
}

/// The macro calls found by scanning `c` from `from`, in order: for each, where its
/// `INCLUDE_` starts, the position after its `)`, the directory and the function
/// name. Each `INCLUDE_` that does not begin a well-formed call is stepped over.
pub open spec fn macro_calls(c: Seq<u8>, from: int) -> Seq<(int, int, Seq<u8>, Seq<u8>)>
    decreases c.len() - from,
{
    match next_include(c, from) {
        None => Seq::empty(),
        Some(m) => if m < from || m + 8 > c.len() {
            Seq::empty()
        } else {
            match spec_parse_macro(c, m) {
                Some((end, dir, name)) => if m + 8 < end <= c.len() {
                    seq![(m, end, dir, name)] + macro_calls(c, end)
                } else {
                    Seq::empty()
                },
                None => macro_calls(c, m + 8),
            }
        },
    }
}

/// Where the `i`-th segment of text between macro calls starts.
pub open spec fn segment_start(calls: Seq<(int, int, Seq<u8>, Seq<u8>)>, i: int) -> int {
    if i == 0 {
        0
    } else {
        calls[i - 1].1
    }
}

/// Where the `i`-th segment of text between macro calls ends (`len` for the last).
pub open spec fn segment_end(calls: Seq<(int, int, Seq<u8>, Seq<u8>)>, i: int, len: int) -> int {
    if i < calls.len() {
        calls[i].0
    } else {
        len
    }
}

/// The text from `from` on, rebuilt from the segments and the macro calls `calls`.
pub open spec fn interleave(c: Seq<u8>, calls: Seq<(int, int, Seq<u8>, Seq<u8>)>, from: int) -> Seq<
    u8,
>
    decreases calls.len(),
{
    if calls.len() == 0 {
        c.subrange(from, c.len() as int)
    } else {
        c.subrange(from, calls[0].0) + c.subrange(calls[0].0, calls[0].1) + interleave(
            c,
            calls.drop_first(),
            calls[0].1,
        )
    }
}

proof fn lemma_next_include_at(c: Seq<u8>, from: int, i: int)
    requires
        0 <= from <= i,
        bytes_at(c, i, include_word()),
        forall|j: int| from <= j < i ==> !#[trigger] bytes_at(c, j, include_word()),
    ensures
        next_include(c, from) == Some(i),
    decreases i - from,
{
    if from < i {
        lemma_next_include_at(c, from + 1, i);
    }
}

proof fn lemma_next_include_none(c: Seq<u8>, from: int)
    requires
        0 <= from,
        forall|j: int| from <= j ==> !#[trigger] bytes_at(c, j, include_word()),
    ensures
        next_include(c, from) is None,
    decreases c.len() - from,
{
    if from + 8 <= c.len() {
        lemma_next_include_none(c, from + 1);
    }
}

/// The first `INCLUDE_` at or after `from` is where a search of the rest of `c` finds it.
proof fn lemma_next_include_search(c: Seq<u8>, from: int, r: Option<usize>)
    requires
        0 <= from <= c.len(),
        match r {
            Some(i) => occurs_at(c.subrange(from, c.len() as int), include_word(), i as int)
                && forall|j: int|
                0 <= j < i ==> !#[trigger] occurs_at(
                    c.subrange(from, c.len() as int),
                    include_word(),
                    j,
                ),
            None => forall|j: int|
                !#[trigger] occurs_at(c.subrange(from, c.len() as int), include_word(), j),
        },
    ensures
        match r {
            Some(i) => next_include(c, from) == Some(from + i) && from + i + 8 <= c.len(),
            None => next_include(c, from) is None,
        },
{
    let h = c.subrange(from, c.len() as int);
    let w = include_word();
    match r {
        Some(i) => {
            assert forall|j: int| from <= j < from + i implies !#[trigger] bytes_at(c, j, w) by {
                assert(!occurs_at(h, w, j - from));
                if j + 8 <= c.len() {
                    assert(h.subrange(j - from, j - from + 8) =~= c.subrange(j, j + 8));
                }
            }
            assert(h.subrange(i as int, i + 8) =~= c.subrange(from + i, from + i + 8));
            assert(bytes_at(c, from + i, w));
            lemma_next_include_at(c, from, from + i);
        },
        None => {
            assert forall|j: int| from <= j implies !#[trigger] bytes_at(c, j, w) by {
                assert(!occurs_at(h, w, j - from));
                if j + 8 <= c.len() {
                    assert(h.subrange(j - from, j - from + 8) =~= c.subrange(j, j + 8));
                }
            }
            lemma_next_include_none(c, from);
        },
    }
}

/// Bytes below 0x80 are valid UTF-8.
proof fn lemma_ascii_valid_utf8(b: Seq<u8>)
    requires
        forall|k: int| 0 <= k < b.len() ==> #[trigger] b[k] < 0x80,
    ensures
        valid_utf8(b),
{
    assert(b.subrange(0, 0) =~= Seq::<u8>::empty());
    assert(partial_valid_utf8(b, 0));
    assert forall|i: int| 0 <= 0 <= i < b.len() <= b.len() implies #[trigger] is_leading_byte_width_1(b[i]) by {}
    partial_valid_utf8_extend_ascii_block(b, 0, b.len() as int);
    assert(b.subrange(0, b.len() as int) =~= b);
}

/// Every call found from `from` starts at or after `from`.
proof fn lemma_macro_calls_after(c: Seq<u8>, from: int)
    requires
        0 <= from <= c.len(),
    ensures
        macro_calls(c, from).len() > 0 ==> macro_calls(c, from)[0].0 >= from,
    decreases c.len() - from,
{
    match next_include(c, from) {
        None => {},
        Some(m) => {
            if m >= from && m + 8 <= c.len() {
                match spec_parse_macro(c, m) {
                    Some(_) => {},
                    None => lemma_macro_calls_after(c, m + 8),
                }
            }
        },
    }
}

/// Rebuilding from `a` is the text from `a` to `b` followed by rebuilding from `b`,
/// when `b` comes before the first call.
proof fn lemma_interleave_shift(c: Seq<u8>, calls: Seq<(int, int, Seq<u8>, Seq<u8>)>, a: int, b: int)
    requires
        0 <= a <= b <= c.len(),
        calls.len() > 0 ==> b <= calls[0].0 <= calls[0].1 <= c.len(),
    ensures
        interleave(c, calls, a) == c.subrange(a, b) + interleave(c, calls, b),
{
    if calls.len() == 0 {
        assert(c.subrange(a, c.len() as int) =~= c.subrange(a, b) + c.subrange(b, c.len() as int));
    } else {
        assert(c.subrange(a, calls[0].0) =~= c.subrange(a, b) + c.subrange(b, calls[0].0));
    }
}

/// The segments around the macro calls, put back together with the text of the calls,
/// give back the text that was scanned.
pub proof fn lemma_segments_rebuild(c: Seq<u8>, from: int)
    requires
        0 <= from <= c.len(),
    ensures
        interleave(c, macro_calls(c, from), from) == c.subrange(from, c.len() as int),
    decreases c.len() - from,
{
    match next_include(c, from) {
        None => {},
        Some(m) => {
            if m >= from && m + 8 <= c.len() {
                match spec_parse_macro(c, m) {
                    Some((end, dir, name)) => {
                        if m + 8 < end <= c.len() {
                            let calls = macro_calls(c, from);
                            lemma_segments_rebuild(c, end);
                            assert(calls.drop_first() =~= macro_calls(c, end));
                            assert(c.subrange(from, c.len() as int) =~= c.subrange(from, m)
                                + c.subrange(m, end) + c.subrange(end, c.len() as int));
                        }
                    },
                    None => {
                        let calls = macro_calls(c, m + 8);
                        lemma_segments_rebuild(c, m + 8);
                        lemma_macro_calls_after(c, m + 8);
                        if calls.len() > 0 {
                            lemma_macro_calls_order(c, m + 8);
                        }
                        lemma_interleave_shift(c, calls, from, m + 8);
                        assert(c.subrange(from, c.len() as int) =~= c.subrange(from, m + 8)
                            + c.subrange(m + 8, c.len() as int));
                    },
                }
            }
        },
    }
}

/// Each call found from `from` ends after it starts and within the text.
proof fn lemma_macro_calls_order(c: Seq<u8>, from: int)
    requires
        0 <= from <= c.len(),
    ensures
        forall|i: int|
            0 <= i < macro_calls(c, from).len() ==> from <= (#[trigger] macro_calls(c, from)[i]).0
                < macro_calls(c, from)[i].1 <= c.len(),
    decreases c.len() - from,
{
    match next_include(c, from) {
        None => {},
        Some(m) => {
            if m >= from && m + 8 <= c.len() {
                match spec_parse_macro(c, m) {
                    Some((end, dir, name)) => {
                        if m + 8 < end <= c.len() {
                            lemma_macro_calls_order(c, end);
                            let calls = macro_calls(c, from);
                            assert(calls == seq![(m, end, dir, name)] + macro_calls(c, end));
                            assert forall|i: int| 0 <= i < calls.len() implies from <= (
                            #[trigger] calls[i]).0 < calls[i].1 <= c.len() by {
                                if i > 0 {
                                    assert(calls[i] == macro_calls(c, end)[i - 1]);
                                }
                            }
                        }
                    },
                    None => {
                        lemma_macro_calls_order(c, m + 8);
                        assert(macro_calls(c, from) == macro_calls(c, m + 8));
                    },
                }
            }
        },
    }
}

/// The path of the assembly file named by a macro call, given the directory prefix
/// of the preprocessor: `<prefix>/<dir>/<name>.s`.
pub open spec fn asm_path_of(prefix: Option<Seq<char>>, dir: Seq<char>, name: Seq<char>) -> Seq<
    char,
> {
    let rel = spec_join_path(dir, name + seq!['.', 's']);
    match prefix {
        Some(p) => spec_join_path(p, rel),
        None => rel,
    }
}

/// Finds the `INCLUDE_ASM` / `INCLUDE_RODATA` calls of C source and names the assembly
/// files they refer to.
#[derive(Debug)]
pub struct Preprocessor {
    pub asm_dir_prefix: Option<String>,
}

impl Preprocessor {
    /// The directory prefix as text.
    pub open spec fn prefix_view(&self) -> Option<Seq<char>> {
        match self.asm_dir_prefix {
            Some(p) => Some(p@),
            None => None,
        }
    }

    /// A preprocessor that puts `asm_dir_prefix` before every assembly path.
    pub fn new(asm_dir_prefix: Option<String>) -> (r: Self)
        ensures
            r.asm_dir_prefix == asm_dir_prefix,
    {
        Preprocessor { asm_dir_prefix }
    }

    /// The path of `<dir>/<name>.s`, under the directory prefix when there is one.
    fn resolve_asm_path(&self, asm_dir: &str, func_name: &str) -> (r: String)
        ensures
            r@ == asm_path_of(self.prefix_view(), asm_dir@, func_name@),
    {
        let ext = ".s";
        proof {
            reveal_strlit(".s");
        }
        assert(ext@ =~= seq!['.', 's']);
        let file = concat(func_name, ext);
        let rel = join_path(asm_dir, file.as_str());
        match &self.asm_dir_prefix {
            Some(prefix) => join_path(prefix.as_str(), rel.as_str()),
            None => rel,
        }
    }

    /// Splits `content` around its `INCLUDE_ASM` / `INCLUDE_RODATA` calls: the segments
    /// of text before, between and after the calls (one more than there are calls), and
    /// for each call the path of its assembly file and its function name. Every call
    /// must name its directory in valid UTF-8 (see [`Preprocessor::try_find_macro_refs`]).
    pub fn find_macro_refs<'a>(&self, content: &'a [u8]) -> (r: (Vec<&'a [u8]>, Vec<(String, &'a str)>))
        requires
            forall|i: int|
                0 <= i < macro_calls(content@, 0).len() ==> valid_utf8(
                    #[trigger] macro_calls(content@, 0)[i].2,
                ),
        ensures
            r.1.len() == macro_calls(content@, 0).len(),
            r.0.len() == r.1.len() + 1,
            forall|i: int|
                0 <= i < r.0.len() ==> #[trigger] r.0[i]@ == content@.subrange(
                    segment_start(macro_calls(content@, 0), i),
                    segment_end(macro_calls(content@, 0), i, content@.len() as int),
                ),
            forall|i: int|
                0 <= i < r.1.len() ==> (#[trigger] r.1[i]).1.spec_bytes() == macro_calls(
                    content@,
                    0,
                )[i].3 && r.1[i].0@ == asm_path_of(
                    self.prefix_view(),
                    decode_utf8(macro_calls(content@, 0)[i].2),
                    decode_utf8(macro_calls(content@, 0)[i].3),
                ),
    {
        match self.try_find_macro_refs(content) {
            Some(r) => r,
            None => {
                assert(false);
                (Vec::new(), Vec::new())
            },
        }
    }

    /// [`Preprocessor::find_macro_refs`], or `None` when a call names its directory in
    /// bytes that are not UTF-8.
    pub fn try_find_macro_refs<'a>(&self, content: &'a [u8]) -> (r: Option<(Vec<&'a [u8]>, Vec<(String, &'a str)>)>)
        ensures
            r is Some <==> forall|i: int|
                0 <= i < macro_calls(content@, 0).len() ==> valid_utf8(
                    #[trigger] macro_calls(content@, 0)[i].2,
                ),
            r matches Some(r) ==> {
                &&& r.1.len() == macro_calls(content@, 0).len()
                &&& r.0.len() == r.1.len() + 1
                &&& forall|i: int|
                    0 <= i < r.0.len() ==> #[trigger] r.0[i]@ == content@.subrange(
                        segment_start(macro_calls(content@, 0), i),
                        segment_end(macro_calls(content@, 0), i, content@.len() as int),
                    )
                &&& forall|i: int|
                    0 <= i < r.1.len() ==> (#[trigger] r.1[i]).1.spec_bytes() == macro_calls(
                        content@,
                        0,
                    )[i].3 && r.1[i].0@ == asm_path_of(
                        self.prefix_view(),
                        decode_utf8(macro_calls(content@, 0)[i].2),
                        decode_utf8(macro_calls(content@, 0)[i].3),
                    )
            },
    {
        let anchor: [u8; 8] = [0x49, 0x4E, 0x43, 0x4C, 0x55, 0x44, 0x45, 0x5F];
        assert(anchor@ =~= include_word());
        let len = content.len();
        let mut segments: Vec<&'a [u8]> = Vec::new();
        let mut refs: Vec<(String, &'a str)> = Vec::new();
        let mut last_match: usize = 0;
        let mut search_from: usize = 0;
        let ghost all = macro_calls(content@, 0);
        let ghost mut found: Seq<(int, int, Seq<u8>, Seq<u8>)> = Seq::empty();
        assert(all =~= found + all);
        loop
            invariant
                len == content@.len(),
                anchor@ == include_word(),
                last_match <= search_from <= len,
                all == macro_calls(content@, 0),
                all == found + macro_calls(content@, search_from as int),
                forall|i: int| 0 <= i < found.len() ==> valid_utf8(#[trigger] found[i].2),
                segments.len() == found.len(),
                refs.len() == found.len(),
                last_match == (if found.len() == 0 {
                    0
                } else {
                    found.last().1
                }),
                forall|i: int|
                    0 <= i < found.len() ==> #[trigger] segments[i]@ == content@.subrange(
                        segment_start(found, i),
                        found[i].0,
                    ),
                forall|i: int|
                    0 <= i < found.len() ==> (#[trigger] refs[i]).1.spec_bytes() == found[i].3
                        && refs[i].0@ == asm_path_of(
                        self.prefix_view(),
                        decode_utf8(found[i].2),
                        decode_utf8(found[i].3),
                    ),
            ensures
                all == found,
                forall|i: int| 0 <= i < found.len() ==> valid_utf8(#[trigger] found[i].2),
                segments.len() == found.len(),
                refs.len() == found.len(),
                last_match <= len,
                last_match == (if found.len() == 0 {
                    0
                } else {
                    found.last().1
                }),
                forall|i: int|
                    0 <= i < found.len() ==> #[trigger] segments[i]@ == content@.subrange(
                        segment_start(found, i),
                        found[i].0,
                    ),
                forall|i: int|
                    0 <= i < found.len() ==> (#[trigger] refs[i]).1.spec_bytes() == found[i].3
                        && refs[i].0@ == asm_path_of(
                        self.prefix_view(),
                        decode_utf8(found[i].2),
                        decode_utf8(found[i].3),
                    ),
            decreases len - search_from,
        {
            let hay = vstd::slice::slice_subrange(content, search_from, len);
            let hit = memmem_find(hay, anchor.as_slice());
            proof {
                lemma_next_include_search(content@, search_from as int, hit);
            }
            match hit {
                None => {
                    assert(macro_calls(content@, search_from as int) =~= Seq::<
                        (int, int, Seq<u8>, Seq<u8>),
                    >::empty());
                    assert(all =~= found);
                    break ;
                },
                Some(offset) => {
                    let macro_start = search_from + offset;
                    match try_parse_macro(content, macro_start) {
                        Some((end, asm_dir, func_name)) => {
                            let ghost call = (macro_start as int, end as int, asm_dir@, func_name@);
                            assert(macro_calls(content@, search_from as int) == seq![call]
                                + macro_calls(content@, end as int));
                            assert(all[found.len() as int] == call) by {
                                assert((found + macro_calls(content@, search_from as int))[found.len() as int] == call);
                            }
                            assert(all[found.len() as int].2 == asm_dir@);
                            let dir_str = match str_from_utf8(asm_dir) {
                                Some(d) => d,
                                None => {
                                    assert(!valid_utf8(all[found.len() as int].2));
                                    return None;
                                },
                            };
                            let segment = vstd::slice::slice_subrange(content, last_match, macro_start);
                            segments.push(segment);
                            proof {
                                assert forall|k: int| 0 <= k < func_name@.len() implies #[trigger] func_name@[k] < 0x80 by {
                                    assert(spec_is_ident_byte(func_name@[k]));
                                }
                                lemma_ascii_valid_utf8(func_name@);
                            }
                            let name_str = match str_from_utf8(func_name) {
                                Some(n) => n,
                                None => {
                                    assert(false);
                                    ""
                                },
                            };
                            proof {
                                crate::text::lemma_from_utf8_chars(dir_str, asm_dir@);
                                crate::text::lemma_from_utf8_chars(name_str, func_name@);
                            }
                            let path = self.resolve_asm_path(dir_str, name_str);
                            refs.push((path, name_str));
                            proof {
                                let old_found = found;
                                found = found.push(call);
                                assert(all =~= found + macro_calls(content@, end as int));
                                assert forall|i: int| 0 <= i < found.len() implies #[trigger] segments[i]@
                                    == content@.subrange(segment_start(found, i), found[i].0) by {
                                    if i < old_found.len() {
                                        assert(found[i] == old_found[i]);
                                        if i > 0 {
                                            assert(found[i - 1] == old_found[i - 1]);
                                        }
                                    }
                                }
                                assert forall|i: int| 0 <= i < found.len() implies valid_utf8(#[trigger] found[i].2) by {
                                    if i < old_found.len() {
                                        assert(found[i] == old_found[i]);
                                    }
                                }
                                assert forall|i: int| 0 <= i < found.len() implies (#[trigger] refs[i]).1.spec_bytes() == found[i].3
                                    && refs[i].0@ == asm_path_of(
                                    self.prefix_view(),
                                    decode_utf8(found[i].2),
                                    decode_utf8(found[i].3),
                                ) by {
                                    if i < old_found.len() {
                                        assert(found[i] == old_found[i]);
                                    }
                                }
                            }
                            last_match = end;
                            search_from = end;
                        },
                        None => {
                            assert(macro_calls(content@, search_from as int) == macro_calls(
                                content@,
                                macro_start + 8,
                            ));
                            search_from = macro_start + 8;
                        },
                    }
                },
            }
        }
        let tail = vstd::slice::slice_subrange(content, last_match, len);
        segments.push(tail);
        proof {
            assert forall|i: int| 0 <= i < segments.len() implies #[trigger] segments[i]@
                == content@.subrange(
                segment_start(all, i),
                segment_end(all, i, len as int),
            ) by {}
        }
        Some((segments, refs))
    }
}


/// `s` repeated `n` times.
pub open spec fn repeat_chars(s: Seq<char>, n: nat) -> Seq<char>
    decreases n,
{
    if n == 0 {
        Seq::empty()
    } else {
        repeat_chars(s, (n - 1) as nat) + s
    }
}

/// The decimal digit for `d < 10`.
pub open spec fn digit_char(d: nat) -> char {
    if d == 0 {
        '0'
    } else if d == 1 {
        '1'
    } else if d == 2 {
        '2'
    } else if d == 3 {
        '3'
    } else if d == 4 {
        '4'
    } else if d == 5 {
        '5'
    } else if d == 6 {
        '6'
    } else if d == 7 {
        '7'
    } else if d == 8 {
        '8'
    } else {
        '9'
    }
}

/// The decimal spelling of `n`, without leading zeros.
pub open spec fn decimal(n: nat) -> Seq<char>
    decreases n,
{
    if n < 10 {
        seq![digit_char(n)]
    } else {
        decimal(n / 10).push(digit_char(n % 10))
    }
}

/// The one-character text of the decimal digit `d`.
fn digit_str(d: usize) -> (r: &'static str)
    requires
        d < 10,
    ensures
        r@ == seq![digit_char(d as nat)],
{
    proof {
        reveal_strlit("0");
        reveal_strlit("1");
        reveal_strlit("2");
        reveal_strlit("3");
        reveal_strlit("4");
        reveal_strlit("5");
        reveal_strlit("6");
        reveal_strlit("7");
        reveal_strlit("8");
        reveal_strlit("9");
    }
    let r = if d == 0 {
        "0"
    } else if d == 1 {
        "1"
    } else if d == 2 {
        "2"
    } else if d == 3 {
        "3"
    } else if d == 4 {
        "4"
    } else if d == 5 {
        "5"
    } else if d == 6 {
        "6"
    } else if d == 7 {
        "7"
    } else if d == 8 {
        "8"
    } else {
        "9"
    };
    assert(r@ =~= seq![digit_char(d as nat)]);
    r
}

/// The value of a decimal digit character.
pub open spec fn digit_value(c: char) -> int {
    (c as u32) as int - ('0' as u32) as int
}

/// The number a string of decimal digits spells, most significant first.
pub open spec fn digits_value(s: Seq<char>) -> int
    decreases s.len(),
{
    if s.len() == 0 {
        0
    } else {
        digits_value(s.drop_last()) * 10 + digit_value(s.last())
    }
}

/// A digit character has the value it stands for.
proof fn lemma_digit_value(m: nat)
    requires
        m < 10,
    ensures
        digit_value(digit_char(m)) == m,
        '0' <= digit_char(m) <= '9',
        m > 0 ==> digit_char(m) != '0',
{
}

/// The decimal spelling of `n` is made of the digits `0`-`9`, starts with a non-zero
/// digit unless `n` is 0, and spells `n`.
pub proof fn lemma_decimal_spells(n: nat)
    ensures
        decimal(n).len() > 0,
        forall|i: int| 0 <= i < decimal(n).len() ==> '0' <= #[trigger] decimal(n)[i] <= '9',
        n > 0 ==> decimal(n)[0] != '0',
        digits_value(decimal(n)) == n,
    decreases n,
{
    lemma_digit_value(n % 10);
    if n < 10 {
        assert(n % 10 == n);
        let d = decimal(n);
        assert(d.drop_last() =~= Seq::<char>::empty());
        assert(d.last() == digit_char(n));
        assert(digits_value(d) == digits_value(d.drop_last()) * 10 + digit_value(d.last()));
    } else {
        lemma_decimal_spells(n / 10);
        assert((n / 10) * 10 + n % 10 == n);
        let d = decimal(n);
        let p = decimal(n / 10);
        assert(d == p.push(digit_char(n % 10)));
        assert(d.drop_last() =~= p);
        assert(d.last() == digit_char(n % 10));
        assert(digits_value(d) == digits_value(p) * 10 + digit_value(digit_char(n % 10)));
        assert(d[0] == p[0]);
        assert forall|i: int| 0 <= i < d.len() implies '0' <= #[trigger] d[i] <= '9' by {
            if i < p.len() {
                assert(d[i] == p[i]);
            }
        }
    }
}

/// The decimal spelling of `n`.
pub fn decimal_string(n: usize) -> (r: String)
    ensures
        r@ == decimal(n as nat),
    decreases n,
{
    if n < 10 {
        to_string(digit_str(n))
    } else {
        let mut s = decimal_string(n / 10);
        s.append(digit_str(n % 10));
        assert(s@ =~= decimal((n / 10) as nat).push(digit_char((n % 10) as nat)));
        s
    }
}


/// The text of one nop line of a stub function.
pub open spec fn nop_line() -> Seq<char> {
    seq![' ', ' ', 'n', 'o', 'p', '\n']
}

/// The stub function standing in for `text_byte_count` bytes of assembled code: an
/// `asm` function named with the stub prefix, holding one `nop` per four bytes; no
/// text at all when there are no bytes.
pub open spec fn text_stub(func_name: Seq<char>, text_byte_count: nat) -> Seq<char> {
    if text_byte_count == 0 {
        Seq::empty()
    } else {
        seq!['a', 's', 'm', ' ', 'v', 'o', 'i', 'd', ' '] + function_prefix() + func_name + seq![
            '(',
            ')',
            ' ',
            '{',
            '\n',
        ] + repeat_chars(nop_line(), text_byte_count / 4) + seq!['}', '\n']
    }
}

/// The declaration standing in for one data symbol: a zeroed `const unsigned char`
/// array of its size, `static` for a local symbol, under its escaped name.
pub open spec fn rodata_decl(name: Seq<char>, size: nat, is_local: bool) -> Seq<char> {
    (if is_local {
        seq!['s', 't', 'a', 't', 'i', 'c', ' ']
    } else {
        Seq::empty()
    }) + seq![
        'c',
        'o',
        'n',
        's',
        't',
        ' ',
        'u',
        'n',
        's',
        'i',
        'g',
        'n',
        'e',
        'd',
        ' ',
        'c',
        'h',
        'a',
        'r',
        ' ',
    ] + spec_escape(name) + seq!['['] + decimal(size) + seq![']', ' ', '=', ' ', '{', '0', '}', ';', '\n']
}

/// The declarations standing in for the data symbols `syms`, in order.
pub open spec fn rodata_stub(syms: Seq<(String, usize, bool)>) -> Seq<char>
    decreases syms.len(),
{
    if syms.len() == 0 {
        Seq::empty()
    } else {
        rodata_stub(syms.drop_last()) + rodata_decl(
            syms.last().0@,
            syms.last().1 as nat,
            syms.last().2,
        )
    }
}

/// `s` repeated `n` times.
fn repeat_str(s: &str, n: usize) -> (r: String)
    ensures
        r@ == repeat_chars(s@, n as nat),
{
    let mut out = String::new();
    let mut i: usize = 0;
    while i < n
        invariant
            i <= n,
            out@ == repeat_chars(s@, i as nat),
        decreases n - i,
    {
        out.append(s);
        i += 1;
        assert(out@ == repeat_chars(s@, i as nat));
    }
    out
}

impl Preprocessor {
    /// The C text standing in for one assembled file: the stub function for its
    /// `text_byte_count` bytes of code, then a declaration for each data symbol
    /// `(name, size in bytes, is local)` of `rodata_syms`, in order, as UTF-8 bytes.
    pub fn stub_for(func_name: &str, text_byte_count: usize, rodata_syms: &[(String, usize, bool)]) -> (r: Vec<u8>)
        ensures
            r@ == encode_utf8(
                text_stub(func_name@, text_byte_count as nat) + rodata_stub(rodata_syms@),
            ),
    {
        let mut out = Self::generate_text_stub(func_name, text_byte_count);
        let data = Self::generate_rodata_stub(rodata_syms);
        out.append(data.as_str());
        vstd::slice::slice_to_vec(out.as_str().as_bytes())
    }

    /// The stub function for `text_byte_count` bytes of assembled code.
    fn generate_text_stub(func_name: &str, text_byte_count: usize) -> (r: String)
        ensures
            r@ == text_stub(func_name@, text_byte_count as nat),
    {
        let mut out = String::new();
        if text_byte_count > 0 {
            proof {
                lemma_constants();
                reveal_strlit("asm void ");
                reveal_strlit("() {\n");
                reveal_strlit("  nop\n");
                reveal_strlit("}\n");
            }
            let head = "asm void ";
            let open = "() {\n";
            let nop = "  nop\n";
            let close = "}\n";
            assert(head@ =~= seq!['a', 's', 'm', ' ', 'v', 'o', 'i', 'd', ' ']);
            assert(open@ =~= seq!['(', ')', ' ', '{', '\n']);
            assert(nop@ =~= nop_line());
            assert(close@ =~= seq!['}', '\n']);
            out.append(head);
            out.append(FUNCTION_PREFIX);
            out.append(func_name);
            out.append(open);
            let nops = repeat_str(nop, text_byte_count / 4);
            out.append(nops.as_str());
            out.append(close);
        }
        out
    }

    /// The declarations for the data symbols `rodata_syms`, in order.
    fn generate_rodata_stub(rodata_syms: &[(String, usize, bool)]) -> (r: String)
        ensures
            r@ == rodata_stub(rodata_syms@),
    {
        proof {
            reveal_strlit("static ");
            reveal_strlit("const unsigned char ");
            reveal_strlit("[");
            reveal_strlit("] = {0};\n");
        }
        let is_static = "static ";
        let decl = "const unsigned char ";
        let open = "[";
        let close = "] = {0};\n";
        assert(is_static@ =~= seq!['s', 't', 'a', 't', 'i', 'c', ' ']);
        assert(decl@ =~= seq![
            'c',
            'o',
            'n',
            's',
            't',
            ' ',
            'u',
            'n',
            's',
            'i',
            'g',
            'n',
            'e',
            'd',
            ' ',
            'c',
            'h',
            'a',
            'r',
            ' ',
        ]);
        assert(open@ =~= seq!['[']);
        assert(close@ =~= seq![']', ' ', '=', ' ', '{', '0', '}', ';', '\n']);
        let mut out = String::new();
        let n = rodata_syms.len();
        let mut i: usize = 0;
        while i < n
            invariant
                i <= n,
                n == rodata_syms@.len(),
                out@ == rodata_stub(rodata_syms@.subrange(0, i as int)),
                is_static@ == seq!['s', 't', 'a', 't', 'i', 'c', ' '],
                open@ == seq!['['],
                close@ == seq![']', ' ', '=', ' ', '{', '0', '}', ';', '\n'],
                decl@ == seq![
                    'c',
                    'o',
                    'n',
                    's',
                    't',
                    ' ',
                    'u',
                    'n',
                    's',
                    'i',
                    'g',
                    'n',
                    'e',
                    'd',
                    ' ',
                    'c',
                    'h',
                    'a',
                    'r',
                    ' ',
                ],
            decreases n - i,
        {
            let (name, size, is_local) = (&rodata_syms[i].0, rodata_syms[i].1, rodata_syms[i].2);
            let ghost before = out@;
            if is_local {
                out.append(is_static);
            }
            out.append(decl);
            let c_name = escape_symbol(name.as_str());
            out.append(c_name.as_str());
            out.append(open);
            let digits = decimal_string(size);
            out.append(digits.as_str());
            out.append(close);
            proof {
                let next = rodata_syms@.subrange(0, i + 1);
                assert(next.drop_last() =~= rodata_syms@.subrange(0, i as int));
                assert(next.last() == rodata_syms@[i as int]);
                assert(out@ =~= before + rodata_decl(name@, size as nat, is_local));
            }
            i += 1;
        }
        assert(rodata_syms@.subrange(0, n as int) =~= rodata_syms@);
        out
    }
}

} // verus!
