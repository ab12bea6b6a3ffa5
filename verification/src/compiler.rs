//! Settings of the Metrowerks C compiler run and the rewriting of its diagnostics.
use vstd::prelude::*;

use crate::assembler::string_views;
use crate::makerule::{path_from_wibo, spec_path_from_wibo};
use crate::text::{
    chars_occur_at, concat, replace_str, skip_chars, spec_replace, spec_trim_end, starts_with,
    str_eq, to_string, trim_end,
};

verus! {

/// `-gccdep`
pub open spec fn flag_gccdep() -> Seq<char> {
    seq!['-', 'g', 'c', 'c', 'd', 'e', 'p']
}

/// `-gccdepends`
pub open spec fn flag_gccdepends() -> Seq<char> {
    flag_gccdep() + seq!['e', 'n', 'd', 's']
}

/// `-nogccdep`
pub open spec fn flag_nogccdep() -> Seq<char> {
    seq!['-', 'n', 'o', 'g', 'c', 'c', 'd', 'e', 'p']
}

/// `-nogccdepends`
pub open spec fn flag_nogccdepends() -> Seq<char> {
    flag_nogccdep() + seq!['e', 'n', 'd', 's']
}

/// Whether the compiler writes gcc-style dependency files after the flags `flags`:
/// the last of `-gccdep`, `-gccdepends`, `-nogccdep` and `-nogccdepends` decides, and
/// without any of them it does not.
pub open spec fn gcc_deps_after(flags: Seq<String>) -> bool
    decreases flags.len(),
{
    if flags.len() == 0 {
        false
    } else {
        let f = flags.last()@;
        if f == flag_nogccdep() || f == flag_nogccdepends() {
            false
        } else if f == flag_gccdep() || f == flag_gccdepends() {
            true
        } else {
            gcc_deps_after(flags.drop_last())
        }
    }
}

/// How to run the Metrowerks C compiler.
pub struct Compiler {
    pub c_flags: Vec<String>,
    pub mwcc_path: String,
    pub use_wibo: bool,
    pub wibo_path: String,
    pub gcc_deps: bool,
}

impl Compiler {
    /// A compiler run with `c_flags`; it writes gcc-style dependency files when the
    /// flags say so (see [`gcc_deps_after`]).
    pub fn new(c_flags: Vec<String>, mwcc_path: String, use_wibo: bool, wibo_path: String) -> (r:
        Self)
        ensures
            r.c_flags@ == c_flags@,
            r.mwcc_path@ == mwcc_path@,
            r.use_wibo == use_wibo,
            r.wibo_path@ == wibo_path@,
            r.gcc_deps == gcc_deps_after(c_flags@),
    {
        proof {
            reveal_strlit("-gccdep");
            reveal_strlit("-gccdepends");
            reveal_strlit("-nogccdep");
            reveal_strlit("-nogccdepends");
        }
        let on1 = "-gccdep";
        let on2 = "-gccdepends";
        let off1 = "-nogccdep";
        let off2 = "-nogccdepends";
        assert(on1@ =~= flag_gccdep());
        assert(on2@ =~= flag_gccdepends());
        assert(off1@ =~= flag_nogccdep());
        assert(off2@ =~= flag_nogccdepends());
        let mut gcc_deps = false;
        let n = c_flags.len();
        let mut i: usize = 0;
        while i < n
            invariant
                i <= n,
                n == c_flags@.len(),
                gcc_deps == gcc_deps_after(c_flags@.subrange(0, i as int)),
                on1@ == flag_gccdep(),
                on2@ == flag_gccdepends(),
                off1@ == flag_nogccdep(),
                off2@ == flag_nogccdepends(),
            decreases n - i,
        {
            let flag = c_flags[i].as_str();
            if str_eq(flag, on1) || str_eq(flag, on2) {
                gcc_deps = true;
            }
            if str_eq(flag, off1) || str_eq(flag, off2) {
                gcc_deps = false;
            }
            proof {
                let next = c_flags@.subrange(0, i + 1);
                assert(next.drop_last() =~= c_flags@.subrange(0, i as int));
                assert(next.last() == c_flags@[i as int]);
            }
            i += 1;
        }
        assert(c_flags@.subrange(0, n as int) =~= c_flags@);
        Compiler { c_flags, mwcc_path, use_wibo, wibo_path, gcc_deps }
    }
}

/// The arguments of one compiler run: `-c`, the flags, then `-o`, the object file
/// and the C file.
pub open spec fn spec_compile_args(flags: Seq<Seq<char>>, o_file: Seq<char>, c_file: Seq<char>) -> Seq<Seq<char>> {
    seq![seq!['-', 'c']] + flags + seq![seq!['-', 'o'], o_file, c_file]
}

/// Whether one of `flags` is `-MD` or `-MMD`.
pub open spec fn asks_make_deps(flags: Seq<String>) -> bool {
    exists|i: int| 0 <= i < flags.len() && (flags[i]@ == seq!['-', 'M', 'D'] || flags[i]@ == seq!['-', 'M', 'M', 'D'])
}

impl Compiler {
    /// The arguments to compile `c_file` into `o_file` with.
    pub fn compile_args(&self, o_file: &str, c_file: &str) -> (r: Vec<String>)
        ensures
            string_views(r@) == spec_compile_args(string_views(self.c_flags@), o_file@, c_file@),
    {
        proof {
            reveal_strlit("-c");
            reveal_strlit("-o");
        }
        let c = "-c";
        let o = "-o";
        assert(c@ =~= seq!['-', 'c']);
        assert(o@ =~= seq!['-', 'o']);
        let mut r: Vec<String> = Vec::new();
        r.push(to_string(c));
        let n = self.c_flags.len();
        let mut i: usize = 0;
        while i < n
            invariant
                i <= n,
                n == self.c_flags@.len(),
                string_views(r@) == seq![seq!['-', 'c']] + string_views(self.c_flags@.subrange(0, i as int)),
            decreases n - i,
        {
            let ghost before = r@;
            let flag = self.c_flags[i].clone();
            r.push(flag);
            proof {
                assert(r@ == before.push(flag));
                assert(string_views(r@) =~= string_views(before).push(flag@));
                assert(string_views(self.c_flags@.subrange(0, i + 1)) =~= string_views(
                    self.c_flags@.subrange(0, i as int),
                ).push(self.c_flags@[i as int]@));
            }
            i += 1;
        }
        assert(self.c_flags@.subrange(0, n as int) =~= self.c_flags@);
        let ghost mid = r@;
        r.push(to_string(o));
        r.push(to_string(o_file));
        r.push(to_string(c_file));
        assert(string_views(r@) =~= string_views(mid) + seq![seq!['-', 'o'], o_file@, c_file@]);
        r
    }

    /// Whether the flags ask the compiler for a make dependency file (`-MD` or `-MMD`).
    pub fn wants_make_deps(&self) -> (r: bool)
        ensures
            r == asks_make_deps(self.c_flags@),
    {
        proof {
            reveal_strlit("-MD");
            reveal_strlit("-MMD");
        }
        let md = "-MD";
        let mmd = "-MMD";
        assert(md@ =~= seq!['-', 'M', 'D']);
        assert(mmd@ =~= seq!['-', 'M', 'M', 'D']);
        let n = self.c_flags.len();
        let mut i: usize = 0;
        while i < n
            invariant
                i <= n,
                n == self.c_flags@.len(),
                md@ == seq!['-', 'M', 'D'],
                mmd@ == seq!['-', 'M', 'M', 'D'],
                forall|j: int| 0 <= j < i ==> !(#[trigger] self.c_flags@[j]@ == seq!['-', 'M', 'D']
                    || self.c_flags@[j]@ == seq!['-', 'M', 'M', 'D']),
            decreases n - i,
        {
            if str_eq(self.c_flags[i].as_str(), md) || str_eq(self.c_flags[i].as_str(), mmd) {
                return true;
            }
            i += 1;
        }
        false
    }
}

/// The name of the dependency file the compiler writes for a C file named
/// `c_file_name`: every `.c` in the name becomes `.d`.
pub fn dependency_file_name(c_file_name: &str) -> (r: String)
    ensures
        r@ == spec_replace(c_file_name@, seq!['.', 'c'], seq!['.', 'd']),
{
    proof {
        reveal_strlit(".c");
        reveal_strlit(".d");
    }
    let c = ".c";
    let d = ".d";
    assert(c@ =~= seq!['.', 'c']);
    assert(d@ =~= seq!['.', 'd']);
    replace_str(c_file_name, c, d)
}

/// `#      In: `
pub open spec fn tag_in() -> Seq<char> {
    seq!['#', ' ', ' ', ' ', ' ', ' ', ' ', 'I', 'n', ':', ' ']
}

/// `#    From: `
pub open spec fn tag_from() -> Seq<char> {
    seq!['#', ' ', ' ', ' ', ' ', 'F', 'r', 'o', 'm', ':', ' ']
}

/// `#    File: `
pub open spec fn tag_file() -> Seq<char> {
    seq!['#', ' ', ' ', ' ', ' ', 'F', 'i', 'l', 'e', ':', ' ']
}

/// The path after a `From:` or `File:` tag as it is shown: the name the user knows the
/// source by when it names the file handed to the compiler (`same_file` tells whether
/// both name one file on disk), and otherwise the path itself in POSIX form.
pub open spec fn shown_path(rest: Seq<char>, temp_path: Seq<char>, display_name: Seq<char>, same_file: bool) -> Seq<char> {
    let posix = spec_path_from_wibo(spec_trim_end(rest));
    if same_file || posix == temp_path {
        display_name
    } else {
        posix
    }
}

/// A line of compiler output as it is passed on: the path of an `In:` line in POSIX
/// form, that of a `From:` or `File:` line as [`shown_path`] gives it, and any other
/// line unchanged.
pub open spec fn spec_filter_line(line: Seq<char>, temp_path: Seq<char>, display_name: Seq<char>, same_file: bool) -> Seq<char> {
    if chars_occur_at(line, tag_in(), 0) {
        tag_in() + spec_path_from_wibo(spec_trim_end(line.skip(11)))
    } else if chars_occur_at(line, tag_from(), 0) {
        tag_from() + shown_path(line.skip(11), temp_path, display_name, same_file)
    } else if chars_occur_at(line, tag_file(), 0) {
        tag_file() + shown_path(line.skip(11), temp_path, display_name, same_file)
    } else {
        line
    }
}

/// Calls `std::path::Path::canonicalize`, which reads the file system: the absolute
/// path with every link resolved, as bytes, or `None` when it fails (as it does for a
/// file that does not exist). Nothing is stated of the result, which depends on the
/// disk.
#[verifier::external_body]
fn canonical_path(path: &str) -> (r: Option<Vec<u8>>) {
    match std::path::Path::new(path).canonicalize() {
        Ok(p) => Some(p.into_os_string().into_encoded_bytes()),
        Err(_) => None,
    }
}

/// Whether two byte strings are equal.
fn bytes_equal(a: &[u8], b: &[u8]) -> (r: bool)
    ensures
        r == (a@ == b@),
{
    if a.len() != b.len() {
        return false;
    }
    let n = a.len();
    let mut i: usize = 0;
    while i < n
        invariant
            i <= n,
            n == a@.len(),
            n == b@.len(),
            forall|j: int| 0 <= j < i ==> a@[j] == b@[j],
        decreases n - i,
    {
        if a[i] != b[i] {
            return false;
        }
        i += 1;
    }
    assert(a@ =~= b@);
    true
}

/// Whether two resolved paths name one file: both resolved, and to the same bytes.
pub fn same_resolved(a: Option<Vec<u8>>, b: Option<Vec<u8>>) -> (r: bool)
    ensures
        r == (a matches Some(x) && b matches Some(y) && x@ == y@),
{
    match (a, b) {
        (Some(x), Some(y)) => bytes_equal(x.as_slice(), y.as_slice()),
        _ => false,
    }
}

/// Whether `a` and `b` name one file on disk: both resolve and to the same path (see
/// [`same_resolved`]). What the two `canonicalize` calls answer depends on the file
/// system, so nothing is stated of the result beyond what `same_resolved` makes of it.
fn same_file_on_disk(a: &str, b: &str) -> bool {
    same_resolved(canonical_path(a), canonical_path(b))
}

/// Rewrites one line of compiler output (see [`spec_filter_line`]), given whether the
/// path it reports and `temp_path` name one file on disk.
pub fn rewrite_diagnostic_line(line: &str, temp_path: &str, display_name: &str, same_file: bool) -> (r: String)
    ensures
        r@ == spec_filter_line(line@, temp_path@, display_name@, same_file),
{
    proof {
        reveal_strlit("#      In: ");
        reveal_strlit("#    From: ");
        reveal_strlit("#    File: ");
    }
    let t_in = "#      In: ";
    let t_from = "#    From: ";
    let t_file = "#    File: ";
    assert(t_in@ =~= tag_in());
    assert(t_from@ =~= tag_from());
    assert(t_file@ =~= tag_file());
    let tag = if starts_with(line, t_in) {
        t_in
    } else if starts_with(line, t_from) {
        t_from
    } else if starts_with(line, t_file) {
        t_file
    } else {
        return to_string(line);
    };
    let rest = skip_chars(line, 11);
    let trimmed = trim_end(rest.as_str());
    let posix = path_from_wibo(trimmed.as_str());
    if starts_with(line, t_in) {
        concat(tag, posix.as_str())
    } else if same_file || str_eq(posix.as_str(), temp_path) {
        concat(tag, display_name)
    } else {
        concat(tag, posix.as_str())
    }
}

/// Rewrites one line of compiler output (see [`spec_filter_line`]): for a `From:` or
/// `File:` line it asks the file system whether the reported path and `temp_path`
/// name one file; whatever it answers, the line is rewritten as the spec says for
/// that answer.
pub fn filter_diagnostic_line(line: &str, temp_path: &str, display_name: &str) -> (r: String)
    ensures
        exists|same_file: bool| r@ == spec_filter_line(line@, temp_path@, display_name@, same_file),
{
    proof {
        reveal_strlit("#    From: ");
        reveal_strlit("#    File: ");
    }
    let t_from = "#    From: ";
    let t_file = "#    File: ";
    assert(t_from@ =~= tag_from());
    assert(t_file@ =~= tag_file());
    let same_file = if starts_with(line, t_from) || starts_with(line, t_file) {
        let rest = skip_chars(line, 11);
        let trimmed = trim_end(rest.as_str());
        let posix = path_from_wibo(trimmed.as_str());
        same_file_on_disk(temp_path, posix.as_str())
    } else {
        false
    };
    let r = rewrite_diagnostic_line(line, temp_path, display_name, same_file);
    assert(r@ == spec_filter_line(line@, temp_path@, display_name@, same_file));
    r
}

} // verus!
