//! Splices assembled objects into objects compiled by the Metrowerks C compiler.
pub mod assembler;
pub mod compiler;
pub mod constants;
pub mod elf;
pub mod error;
pub mod le;
pub mod makerule;
pub mod preprocessor;
pub mod splice;
pub mod text;
pub mod workspace;

use vstd::prelude::*;

use crate::constants::{lemma_constants, symbol_at, symbol_dollar, SYMBOL_AT, SYMBOL_DOLLAR};
use crate::elf::section::{relocation_views, RelocationView};
use crate::elf::symbol::spec_bind;
use crate::elf::symtab::symbol_views;
use crate::elf::{
    insert_by_shndx, section_views, sort_by_shndx, Elf, Relocation, SectionView, Symbol,
    SymbolView, STB_LOCAL,
};
use crate::text::{
    chars_occur_at, concat, lemma_replace_char_concat, lemma_replace_no_match_prefix, replace_str,
    spec_replace, str_eq, to_string,
};
use crate::workspace::TempMode;

verus! {

/// A symbol name with `.` and `$` spelled out so that it is a valid C identifier.
pub open spec fn spec_escape(name: Seq<char>) -> Seq<char> {
    spec_replace(spec_replace(name, seq!['.'], symbol_at()), seq!['$'], symbol_dollar())
}

/// A C identifier with the spellings of `.` and `$` turned back into those characters.
pub open spec fn spec_unescape(name: Seq<char>) -> Seq<char> {
    spec_replace(spec_replace(name, symbol_at(), seq!['.']), symbol_dollar(), seq!['$'])
}

/// Replaces `.` with `__at__` and `$` with `__dollar__`.
pub fn escape_symbol(name: &str) -> (r: String)
    ensures
        r@ == spec_escape(name@),
{
    proof {
        lemma_constants();
        reveal_strlit(".");
        reveal_strlit("$");
    }
    let dot = ".";
    let dollar = "$";
    assert(dot@ =~= seq!['.']);
    assert(dollar@ =~= seq!['$']);
    let step = replace_str(name, dot, SYMBOL_AT);
    replace_str(step.as_str(), dollar, SYMBOL_DOLLAR)
}

/// Replaces `__at__` with `.` and `__dollar__` with `$`.
pub fn unescape_symbol(name: &str) -> (r: String)
    ensures
        r@ == spec_unescape(name@),
{
    proof {
        lemma_constants();
        reveal_strlit(".");
        reveal_strlit("$");
    }
    let dot = ".";
    let dollar = "$";
    assert(dot@ =~= seq!['.']);
    assert(dollar@ =~= seq!['$']);
    let step = replace_str(name, SYMBOL_AT, dot);
    replace_str(step.as_str(), SYMBOL_DOLLAR, dollar)
}


/// The spelling of one character in an escaped name.
pub open spec fn escaped_char(c: char) -> Seq<char> {
    if c == '.' {
        symbol_at()
    } else if c == '$' {
        symbol_dollar()
    } else {
        seq![c]
    }
}

/// A name with every character spelled as in an escaped name.
pub open spec fn escaped_chars(s: Seq<char>) -> Seq<char>
    decreases s.len(),
{
    if s.len() == 0 {
        Seq::empty()
    } else {
        escaped_char(s[0]) + escaped_chars(s.drop_first())
    }
}

/// A name with only its `$` characters spelled out.
pub open spec fn dollars_escaped(s: Seq<char>) -> Seq<char>
    decreases s.len(),
{
    if s.len() == 0 {
        Seq::empty()
    } else {
        (if s[0] == '$' {
            symbol_dollar()
        } else {
            seq![s[0]]
        }) + dollars_escaped(s.drop_first())
    }
}

/// A name with only its `.` characters spelled out.
pub open spec fn dots_escaped(s: Seq<char>) -> Seq<char>
    decreases s.len(),
{
    if s.len() == 0 {
        Seq::empty()
    } else {
        (if s[0] == '.' {
            symbol_at()
        } else {
            seq![s[0]]
        }) + dots_escaped(s.drop_first())
    }
}

proof fn lemma_replace_char_front(s: Seq<char>, c: char, rep: Seq<char>)
    requires
        s.len() > 0,
    ensures
        spec_replace(s, seq![c], rep) == (if s[0] == c {
            rep
        } else {
            seq![s[0]]
        }) + spec_replace(s.drop_first(), seq![c], rep),
{
    assert(s.skip(1) =~= s.drop_first());
    assert(s.subrange(0, 1) =~= seq![s[0]]);
    if s[0] != c {
        assert(s.subrange(0, 1) != seq![c]) by {
            assert(s.subrange(0, 1)[0] != seq![c][0]);
        }
    }
}

proof fn lemma_dots(s: Seq<char>)
    ensures
        spec_replace(s, seq!['.'], symbol_at()) == dots_escaped(s),
    decreases s.len(),
{
    if s.len() > 0 {
        lemma_replace_char_front(s, '.', symbol_at());
        lemma_dots(s.drop_first());
    }
}

proof fn lemma_dollars_after_dots(s: Seq<char>)
    ensures
        spec_replace(dots_escaped(s), seq!['$'], symbol_dollar()) == escaped_chars(s),
    decreases s.len(),
{
    if s.len() > 0 {
        let head = if s[0] == '.' {
            symbol_at()
        } else {
            seq![s[0]]
        };
        lemma_replace_char_concat(head, dots_escaped(s.drop_first()), '$', symbol_dollar());
        lemma_dollars_after_dots(s.drop_first());
        if s[0] == '.' {
            let h = symbol_at();
            assert forall|k: int| 0 <= k < 6 implies !#[trigger] chars_occur_at(h, seq!['$'], k) by {
                if chars_occur_at(h, seq!['$'], k) {
                    assert(h.subrange(k, k + 1)[0] == h[k]);
                }
            }
            lemma_replace_no_match_prefix(h, seq!['$'], symbol_dollar(), 6);
            assert(h.skip(6) =~= Seq::<char>::empty());
            assert(h.subrange(0, 6) =~= h);
        } else {
            lemma_replace_char_front(head, '$', symbol_dollar());
            assert(head.drop_first() =~= Seq::<char>::empty());
        }
    }
}

/// What escaping does, character by character.
proof fn lemma_escape_chars(s: Seq<char>)
    ensures
        spec_escape(s) == escaped_chars(s),
{
    lemma_dots(s);
    lemma_dollars_after_dots(s);
}

/// Whether `s` holds, at `i`, a `$` then `at` then a `.` or `$`: the escaped text
/// `__dollar__at__` then holds an `__at__` that is no escaped `.`.
pub open spec fn dollar_at_escape(s: Seq<char>, i: int) -> bool {
    &&& s[i] == '$'
    &&& s[i + 1] == 'a'
    &&& s[i + 2] == 't'
    &&& (s[i + 3] == '.' || s[i + 3] == '$')
}

/// Whether a name without `_` comes back from escaping: it holds no `$at.` and no
/// `$at$`.
pub open spec fn escapes_back(s: Seq<char>) -> bool {
    &&& !s.contains('_')
    &&& forall|i: int| 0 <= i < s.len() - 3 ==> !#[trigger] dollar_at_escape(s, i)
}

proof fn lemma_escapes_back_rest(s: Seq<char>)
    requires
        s.len() > 0,
        escapes_back(s),
    ensures
        escapes_back(s.drop_first()),
{
    let r = s.drop_first();
    assert forall|i: int| 0 <= i < r.len() - 3 implies !#[trigger] dollar_at_escape(r, i) by {
        assert(r[i] == s[i + 1] && r[i + 1] == s[i + 2] && r[i + 2] == s[i + 3] && r[i + 3]
            == s[i + 4]);
        assert(!dollar_at_escape(s, i + 1));
    }
    if r.contains('_') {
        let k = choose|k: int| 0 <= k < r.len() && r[k] == '_';
        assert(s[k + 1] == '_');
    }
}

/// The first characters of an escaped name without `_`.
proof fn lemma_escaped_front(s: Seq<char>)
    requires
        s.len() > 0,
        !s.contains('_'),
    ensures
        escaped_chars(s).len() > 0,
        s[0] != '.' && s[0] != '$' ==> escaped_chars(s)[0] == s[0] && s[0] != '_',
        s[0] == '.' || s[0] == '$' ==> escaped_chars(s).len() >= 2 && escaped_chars(s)[0] == '_' && escaped_chars(s)[1] == '_',
        s.len() >= 2 && s[0] != '.' && s[0] != '$' && escaped_chars(s)[1] == 't' ==> s[1] == 't',
        s.len() >= 2 && s[0] != '.' && s[0] != '$' && escaped_chars(s)[1] == '_' ==> s[1] == '.'
            || s[1] == '$',
{
    assert(s[0] != '_') by {
        if s[0] == '_' {
            assert(s.contains('_'));
        }
    }
    let e = escaped_chars(s);
    assert(e == escaped_char(s[0]) + escaped_chars(s.drop_first()));
    if s.len() >= 2 && s[0] != '.' && s[0] != '$' {
        let r = s.drop_first();
        assert(escaped_chars(r) == escaped_char(r[0]) + escaped_chars(r.drop_first()));
        assert(e[1] == escaped_chars(r)[0]);
        if r[0] == '.' || r[0] == '$' {
            assert(escaped_chars(r)[0] == '_');
        } else {
            assert(escaped_chars(r)[0] == r[0]);
            assert(r[0] != '_') by {
                if r[0] == '_' {
                    assert(s[1] == '_');
                    assert(s.contains('_'));
                }
            }
        }
    }
}

/// Undoing `.` on an escaped name leaves the `$` spellings in place.
proof fn lemma_unescape_dots(s: Seq<char>)
    requires
        escapes_back(s),
    ensures
        spec_replace(escaped_chars(s), symbol_at(), seq!['.']) == dollars_escaped(s),
    decreases s.len(),
{
    if s.len() > 0 {
        let r = s.drop_first();
        let e = escaped_chars(r);
        lemma_escapes_back_rest(s);
        lemma_unescape_dots(r);
        let t = escaped_chars(s);
        assert(t == escaped_char(s[0]) + e);
        assert(s[0] != '_') by {
            if s[0] == '_' {
                assert(s.contains('_'));
            }
        }
        if s[0] == '.' {
            assert(t.subrange(0, 6) =~= symbol_at());
            assert(t.skip(6) =~= e);
        } else if s[0] == '$' {
            let d = symbol_dollar();
            assert forall|k: int| 0 <= k < 10 implies !#[trigger] chars_occur_at(t, symbol_at(), k) by {
                if chars_occur_at(t, symbol_at(), k) {
                    let w = t.subrange(k, k + 6);
                    assert(w[0] == t[k] && w[1] == t[k + 1] && w[2] == t[k + 2] && w[3] == t[k + 3]);
                    if k <= 7 {
                        assert(t[k] == d[k]);
                        if k <= 8 {
                            assert(t[k + 1] == d[k + 1]);
                        }
                        if k <= 7 {
                            assert(t[k + 2] == d[k + 2]);
                        }
                    } else if k == 8 {
                        assert(t[10] == e[0] && t[11] == e[1]);
                        lemma_escaped_front(r);
                        if r[0] == '.' || r[0] == '$' {
                            assert(e[0] == '_');
                        } else {
                            assert(r[0] == 'a');
                            if r.len() == 1 {
                                assert(escaped_chars(r.drop_first()) =~= Seq::<char>::empty());
                                assert(e =~= seq![r[0]]);
                            }
                            assert(r.len() >= 2);
                            assert(r[1] == 't');
                            let r1 = r.drop_first();
                            assert(escaped_chars(r) == escaped_char(r[0]) + escaped_chars(r1));
                            if r1.len() == 1 {
                                assert(escaped_chars(r1.drop_first()) =~= Seq::<char>::empty());
                                assert(escaped_chars(r1) =~= seq![r1[0]]);
                            }
                            assert(r1.len() >= 2);
                            assert(t[12] == e[2] && e[2] == escaped_chars(r1)[1]);
                            assert(w[4] == t[k + 4]);
                            lemma_escaped_front(r1);
                            assert(s[1] == 'a' && s[2] == 't' && s[3] == r1[1]);
                            assert(dollar_at_escape(s, 0));
                        }
                    } else {
                        assert(t[10] == e[0] && t[11] == e[1]);
                        lemma_escaped_front(r);
                    }
                }
            }
            lemma_replace_no_match_prefix(t, symbol_at(), seq!['.'], 10);
            assert(t.subrange(0, 10) =~= d);
            assert(t.skip(10) =~= e);
        } else {
            assert(!chars_occur_at(t, symbol_at(), 0)) by {
                if chars_occur_at(t, symbol_at(), 0) {
                    assert(t.subrange(0, 6)[0] == t[0]);
                }
            }
            if t.len() >= 1 {
                lemma_replace_no_match_prefix(t, symbol_at(), seq!['.'], 1);
                assert(t.subrange(0, 1) =~= seq![s[0]]);
                assert(t.skip(1) =~= e);
            }
        }
    }
}

/// Undoing `$` gives the name back.
proof fn lemma_unescape_dollars(s: Seq<char>)
    requires
        !s.contains('_'),
    ensures
        spec_replace(dollars_escaped(s), symbol_dollar(), seq!['$']) == s,
    decreases s.len(),
{
    if s.len() > 0 {
        let r = s.drop_first();
        assert(!r.contains('_')) by {
            if r.contains('_') {
                let k = choose|k: int| 0 <= k < r.len() && r[k] == '_';
                assert(s[k + 1] == '_');
            }
        }
        lemma_unescape_dollars(r);
        let t = dollars_escaped(s);
        let h = dollars_escaped(r);
        assert(s[0] != '_') by {
            if s[0] == '_' {
                assert(s.contains('_'));
            }
        }
        if s[0] == '$' {
            assert(t.subrange(0, 10) =~= symbol_dollar());
            assert(t.skip(10) =~= h);
        } else {
            assert(!chars_occur_at(t, symbol_dollar(), 0)) by {
                if chars_occur_at(t, symbol_dollar(), 0) {
                    assert(t.subrange(0, 10)[0] == t[0]);
                }
            }
            lemma_replace_no_match_prefix(t, symbol_dollar(), seq!['$'], 1);
            assert(t.subrange(0, 1) =~= seq![s[0]]);
            assert(t.skip(1) =~= h);
        }
        assert(s =~= seq![s[0]] + r);
    }
}

/// Escaping a name without `_` and unescaping the result gives the name back, unless it
/// holds `$at.` or `$at$` (`$at.` escapes to `__dollar__at__at__`, which unescapes to
/// `__dollar.at__`).
pub proof fn lemma_escape_roundtrip(name: Seq<char>)
    requires
        escapes_back(name),
    ensures
        spec_unescape(spec_escape(name)) == name,
{
    lemma_escape_chars(name);
    lemma_unescape_dots(name);
    lemma_unescape_dollars(name);
}

/// An escaped name holds no `.` and no `$`.
pub proof fn lemma_escape_is_identifier(name: Seq<char>)
    ensures
        !spec_escape(name).contains('.'),
        !spec_escape(name).contains('$'),
{
    lemma_escape_chars(name);
    lemma_escaped_chars_plain(name);
}

proof fn lemma_escaped_chars_plain(s: Seq<char>)
    ensures
        !escaped_chars(s).contains('.'),
        !escaped_chars(s).contains('$'),
    decreases s.len(),
{
    if s.len() > 0 {
        lemma_escaped_chars_plain(s.drop_first());
        let h = escaped_char(s[0]);
        let e = escaped_chars(s.drop_first());
        let t = h + e;
        assert(escaped_chars(s) == t);
        assert forall|k: int| 0 <= k < t.len() implies t[k] != '.' && t[k] != '$' by {
            if k < h.len() {
                assert(t[k] == h[k]);
            } else {
                assert(t[k] == e[k - h.len()]);
                if e[k - h.len()] == '.' {
                    assert(e.contains('.'));
                }
                if e[k - h.len()] == '$' {
                    assert(e.contains('$'));
                }
            }
        }
    }
}

/// Where C source comes from.
pub enum SourceType {
    StdIn,
    Path(String),
}

/// `<stdin>`
pub open spec fn stdin_name() -> Seq<char> {
    seq!['<', 's', 't', 'd', 'i', 'n', '>']
}

impl SourceType {
    /// The name the user knows the source by.
    pub open spec fn name_view(&self) -> Seq<char> {
        match self {
            SourceType::StdIn => stdin_name(),
            SourceType::Path(p) => p@,
        }
    }

    /// The name the user knows the source by: `<stdin>` or the path.
    pub fn name(&self) -> (r: String)
        ensures
            r@ == self.name_view(),
    {
        match self {
            SourceType::StdIn => {
                proof {
                    reveal_strlit("<stdin>");
                }
                let n = "<stdin>";
                assert(n@ =~= stdin_name());
                to_string(n)
            },
            SourceType::Path(p) => p.clone(),
        }
    }
}

/// C source: where it came from, its bytes, and the directory its scratch copy goes to.
pub struct NamedSource {
    pub source: SourceType,
    pub content: Vec<u8>,
    pub src_dir: String,
}

/// The text of the path that `std::path::Path::with_extension` makes of `path` and `ext`.
pub uninterp spec fn path_with_extension(path: Seq<char>, ext: Seq<char>) -> Seq<char>;

/// The text of the extension that `std::path::Path::extension` finds in `path`, empty
/// when it finds none.
pub uninterp spec fn path_extension(path: Seq<char>) -> Seq<char>;

/// `std::path::Path::with_extension`: `path` with its extension replaced by `ext`.
/// Its result is a function of the two texts, named [`path_with_extension`]; a path
/// made of text converts back to text without loss. It panics on an extension holding
/// a path separator, which is ruled out.
#[verifier::external_body]
fn with_extension(path: &str, ext: &str) -> (r: String)
    requires
        !ext@.contains('/'),
    ensures
        r@ == path_with_extension(path@, ext@),
{
    std::path::Path::new(path).with_extension(ext).to_string_lossy().into_owned()
}

/// `std::path::Path::extension`: the extension of `path`, empty when it has none. Its
/// result is a function of the text, named [`path_extension`]; taken from the last
/// component's name, it holds no path separator.
#[verifier::external_body]
fn extension(path: &str) -> (r: String)
    ensures
        r@ == path_extension(path@),
        !r@.contains('/'),
{
    std::path::Path::new(path).extension().unwrap_or_default().to_string_lossy().into_owned()
}

/// The path of the dependency file: in gcc mode the object's path with `.d` after its
/// extension (`main.o` gives `main.o.d`), beside the object; otherwise the source's path
/// with the extension `d`, beside the source.
pub open spec fn spec_dependency_file_path(o_file: Seq<char>, source_name: Seq<char>, gcc_deps: bool) -> Seq<char> {
    if gcc_deps {
        path_with_extension(o_file, path_extension(o_file) + seq!['.', 'd'])
    } else {
        path_with_extension(source_name, seq!['d'])
    }
}

/// Where the dependency file of a compilation goes (see [`spec_dependency_file_path`]).
pub fn dependency_file_path(o_file: &str, source_name: &str, gcc_deps: bool) -> (r: String)
    ensures
        r@ == spec_dependency_file_path(o_file@, source_name@, gcc_deps),
{
    proof {
        reveal_strlit(".d");
        reveal_strlit("d");
    }
    if gcc_deps {
        let dot_d = ".d";
        assert(dot_d@ =~= seq!['.', 'd']);
        let old_ext = extension(o_file);
        let ext = concat(old_ext.as_str(), dot_d);
        assert(!ext@.contains('/')) by {
            if ext@.contains('/') {
                let k = choose|k: int| 0 <= k < ext@.len() && ext@[k] == '/';
                if k < old_ext@.len() {
                    assert(old_ext@[k] == '/');
                } else {
                    assert(dot_d@[k - old_ext@.len()] == '/');
                }
            }
        }
        with_extension(o_file, ext.as_str())
    } else {
        let d = "d";
        assert(d@ =~= seq!['d']);
        assert(!d@.contains('/')) by {
            if d@.contains('/') {
                let k = choose|k: int| 0 <= k < d@.len() && d@[k] == '/';
                assert(d@[k] == 'd');
            }
        }
        with_extension(source_name, d)
    }
}

/// The source a dependency file names: none for standard input, whose path build
/// systems know from their own rules; for a file, its path only when run from a
/// terminal, as build systems know it too.
pub fn dependency_source(source: &SourceType, interactive: bool) -> (r: Option<String>)
    ensures
        r == match source {
            SourceType::Path(p) => if interactive {
                Some(*p)
            } else {
                None
            },
            SourceType::StdIn => None,
        },
        r matches Some(n) ==> n@ == source.name_view(),
{
    match source {
        SourceType::StdIn => None,
        SourceType::Path(p) => if interactive {
            Some(p.clone())
        } else {
            None
        },
    }
}

/// The command line of the wrapper.
pub struct Args {
    pub output: String,
    pub mwcc_path: String,
    pub as_path: String,
    pub as_march: String,
    pub as_mabi: String,
    pub use_wibo: bool,
    pub wibo_path: String,
    pub asm_dir: Option<String>,
    pub macro_inc_path: Option<String>,
    pub src_dir: Option<String>,
    pub target_encoding: Option<String>,
    pub skip_asm: bool,
    pub debug_keep_temp_files_on_failure: Option<String>,
    pub rest: Vec<String>,
}

/// Why a command line cannot be run.
#[derive(Debug, PartialEq, Eq)]
pub enum ArgsError {
    /// `--target-encoding` was given, with this value; it is no longer supported.
    TargetEncoding(String),
    /// No input file was named.
    MissingInput,
    /// The named input file does not exist.
    InputNotFound(String),
}

/// The input a command line names, given whether its last argument names a file:
/// refused when `--target-encoding` is given, when there are no trailing arguments,
/// or when the last one is neither `-` (standard input) nor a file.
pub open spec fn spec_plan_input(
    target_encoding: Option<Seq<char>>,
    rest: Seq<Seq<char>>,
    last_is_file: bool,
) -> Result<Seq<char>, ()> {
    if target_encoding is Some || rest.len() == 0 {
        Err(())
    } else if rest.last() == seq!['-'] || last_is_file {
        Ok(rest.last())
    } else {
        Err(())
    }
}

impl Args {
    /// The input file the command line names (`-` for standard input), where
    /// `last_is_file` tells whether its last trailing argument names a file.
    pub fn input_file(&self, last_is_file: bool) -> (r: Result<String, ArgsError>)
        ensures
            match r {
                Ok(f) => self.target_encoding is None && self.rest@.len() > 0 && f@
                    == self.rest@.last()@ && (f@ == seq!['-'] || last_is_file),
                Err(ArgsError::TargetEncoding(e)) => self.target_encoding matches Some(t) && e@
                    == t@,
                Err(ArgsError::MissingInput) => self.target_encoding is None && self.rest@.len()
                    == 0,
                Err(ArgsError::InputNotFound(f)) => self.target_encoding is None
                    && self.rest@.len() > 0 && f@ == self.rest@.last()@ && f@ != seq!['-']
                    && !last_is_file,
            },
    {
        if let Some(e) = &self.target_encoding {
            return Err(ArgsError::TargetEncoding(e.clone()));
        }
        let n = self.rest.len();
        if n == 0 {
            return Err(ArgsError::MissingInput);
        }
        let last = &self.rest[n - 1];
        proof {
            reveal_strlit("-");
        }
        let dash = "-";
        assert(dash@ =~= seq!['-']);
        if str_eq(last.as_str(), dash) || last_is_file {
            Ok(last.clone())
        } else {
            Err(ArgsError::InputNotFound(last.clone()))
        }
    }

    /// The scratch-directory mode the command line asks for.
    pub fn temp_mode(&self) -> (r: TempMode)
        ensures
            r == crate::workspace::spec_temp_mode(
                match self.debug_keep_temp_files_on_failure {
                    Some(v) => Some(v@),
                    None => None,
                },
            ),
    {
        match &self.debug_keep_temp_files_on_failure {
            Some(v) => TempMode::from_option(Some(v.as_str())),
            None => TempMode::from_option(None),
        }
    }
}

/// `.rodata`
pub open spec fn rodata_name() -> Seq<char> {
    seq!['.', 'r', 'o', 'd', 'a', 't', 'a']
}

/// Whether `s` is a data symbol of a `.rodata` section: it has a name and a size, and
/// its section exists and is named `.rodata`.
pub open spec fn is_rodata_data_symbol(s: SymbolView, secs: Seq<SectionView>) -> bool {
    s.st_name != 0 && s.st_size > 0 && s.st_shndx < secs.len() && secs[s.st_shndx as int].name
        == rodata_name()
}

/// The data symbols of `.rodata` sections among `syms`, in table order.
pub open spec fn rodata_data_symbols(syms: Seq<SymbolView>, secs: Seq<SectionView>) -> Seq<
    SymbolView,
>
    decreases syms.len(),
{
    if syms.len() == 0 {
        Seq::empty()
    } else if is_rodata_data_symbol(syms.last(), secs) {
        rodata_data_symbols(syms.drop_last(), secs).push(syms.last())
    } else {
        rodata_data_symbols(syms.drop_last(), secs)
    }
}

/// `(name, size, is local)` of the `.rodata` data symbols of an object, ordered by
/// section index (ties keep table order). Each data label of an assembly file gets a
/// `.rodata` section of its own, so this is source order.
pub open spec fn rodata_entries(e: Elf) -> Seq<(Seq<char>, usize, bool)> {
    sort_by_shndx(
        rodata_data_symbols(symbol_views(e.symtab.symbols@), section_views(e.sections@)),
    ).map_values(
        |s: SymbolView| (s.name, s.st_size as usize, spec_bind(s.st_info) == STB_LOCAL),
    )
}

/// Whether section `shndx` exists and is named `.rodata`.
fn in_rodata_section(secs: &Vec<crate::elf::Section>, shndx: u16) -> (r: bool)
    ensures
        r == (shndx < secs@.len() && section_views(secs@)[shndx as int].name == rodata_name()),
{
    proof {
        reveal_strlit(".rodata");
    }
    let rodata = ".rodata";
    assert(rodata@ =~= rodata_name());
    let i = shndx as usize;
    if i < secs.len() {
        assert(section_views(secs@)[i as int] == secs@[i as int]@);
        str_eq(secs[i].name.as_str(), rodata)
    } else {
        false
    }
}

/// Inserting into a sorted list adds the item and keeps the others.
proof fn lemma_insert_elements(sorted: Seq<SymbolView>, x: SymbolView)
    ensures
        insert_by_shndx(sorted, x).len() == sorted.len() + 1,
        forall|k: int| 0 <= k < insert_by_shndx(sorted, x).len() ==> #[trigger] insert_by_shndx(sorted, x)[k] == x
            || sorted.contains(insert_by_shndx(sorted, x)[k]),
    decreases sorted.len(),
{
    let r = insert_by_shndx(sorted, x);
    if sorted.len() == 0 || sorted.last().st_shndx <= x.st_shndx {
        assert forall|k: int| 0 <= k < r.len() implies #[trigger] r[k] == x || sorted.contains(r[k]) by {
            if k < sorted.len() {
                assert(r[k] == sorted[k]);
            }
        }
    } else {
        let init = sorted.drop_last();
        lemma_insert_elements(init, x);
        assert forall|k: int| 0 <= k < r.len() implies #[trigger] r[k] == x || sorted.contains(r[k]) by {
            if k < r.len() - 1 {
                let y = insert_by_shndx(init, x)[k];
                assert(r[k] == y);
                if y != x {
                    let j = choose|j: int| 0 <= j < init.len() && init[j] == y;
                    assert(sorted[j] == y);
                }
            } else {
                assert(sorted[sorted.len() - 1] == r[k]);
            }
        }
    }
}

/// Sorting by section index keeps the count and takes every item from the input.
proof fn lemma_sort_elements(s: Seq<SymbolView>)
    ensures
        sort_by_shndx(s).len() == s.len(),
        forall|k: int| 0 <= k < s.len() ==> s.contains(#[trigger] sort_by_shndx(s)[k]),
    decreases s.len(),
{
    if s.len() > 0 {
        let init = s.drop_last();
        lemma_sort_elements(init);
        lemma_insert_elements(sort_by_shndx(init), s.last());
        let r = sort_by_shndx(s);
        assert forall|k: int| 0 <= k < s.len() implies s.contains(#[trigger] r[k]) by {
            if r[k] == s.last() {
                assert(s[s.len() - 1] == r[k]);
            } else {
                let j = choose|j: int| 0 <= j < sort_by_shndx(init).len() && sort_by_shndx(init)[j] == r[k];
                let i = choose|i: int| 0 <= i < init.len() && init[i] == sort_by_shndx(init)[j];
                assert(s[i] == r[k]);
            }
        }
    }
}

/// The `.rodata` data symbols are symbols of the table that are such symbols.
proof fn lemma_rodata_data_elements(syms: Seq<SymbolView>, secs: Seq<SectionView>)
    ensures
        rodata_data_symbols(syms, secs).len() <= syms.len(),
        forall|k: int| 0 <= k < rodata_data_symbols(syms, secs).len() ==> syms.contains(
            #[trigger] rodata_data_symbols(syms, secs)[k],
        ) && is_rodata_data_symbol(rodata_data_symbols(syms, secs)[k], secs),
    decreases syms.len(),
{
    if syms.len() > 0 {
        let init = syms.drop_last();
        lemma_rodata_data_elements(init, secs);
        let r = rodata_data_symbols(syms, secs);
        let ri = rodata_data_symbols(init, secs);
        assert forall|k: int| 0 <= k < r.len() implies syms.contains(#[trigger] r[k])
            && is_rodata_data_symbol(r[k], secs) by {
            if k < ri.len() {
                assert(r[k] == ri[k]);
                assert(init.contains(ri[k]));
                let j = choose|j: int| 0 <= j < init.len() && init[j] == ri[k];
                assert(syms[j] == init[j]);
            } else {
                assert(is_rodata_data_symbol(syms.last(), secs));
                assert(syms[syms.len() - 1] == r[k]);
            }
        }
    }
}

/// Whether `entry` describes symbol `s` as a `.rodata` entry: `s` is named, sized and in
/// a section named `.rodata`, the entry holds its name and size, and the entry says
/// local exactly when the binding of `s` (the high nibble of `st_info`) is zero.
pub open spec fn describes(entry: (Seq<char>, usize, bool), s: SymbolView, secs: Seq<SectionView>) -> bool {
    &&& s.st_name != 0
    &&& s.st_size > 0
    &&& s.st_shndx < secs.len()
    &&& secs[s.st_shndx as int].name == rodata_name()
    &&& entry.0 == s.name
    &&& entry.1 == s.st_size as usize
    &&& (entry.2 <==> s.st_info < 16)
}

/// Each `.rodata` entry of an object describes one of its symbols (see [`describes`]).
pub proof fn lemma_rodata_entries_from_symbols(e: Elf)
    ensures
        forall|k: int| 0 <= k < rodata_entries(e).len() ==> exists|j: int|
            0 <= j < e.symtab.symbols@.len() && describes(
                #[trigger] rodata_entries(e)[k],
                #[trigger] symbol_views(e.symtab.symbols@)[j],
                section_views(e.sections@),
            ),
{
    let syms = symbol_views(e.symtab.symbols@);
    let secs = section_views(e.sections@);
    let ds = rodata_data_symbols(syms, secs);
    lemma_rodata_data_elements(syms, secs);
    lemma_sort_elements(ds);
    let sorted = sort_by_shndx(ds);
    assert forall|k: int| 0 <= k < rodata_entries(e).len() implies exists|j: int|
        0 <= j < e.symtab.symbols@.len() && describes(
            #[trigger] rodata_entries(e)[k],
            #[trigger] symbol_views(e.symtab.symbols@)[j],
            section_views(e.sections@),
        ) by {
        let x = sorted[k];
        assert(ds.contains(x));
        let m = choose|m: int| 0 <= m < ds.len() && ds[m] == x;
        assert(syms.contains(ds[m]) && is_rodata_data_symbol(ds[m], secs));
        let j = choose|j: int| 0 <= j < syms.len() && syms[j] == ds[m];
        assert(rodata_entries(e)[k] == (x.name, x.st_size as usize, spec_bind(x.st_info) == STB_LOCAL));
        assert(spec_bind(x.st_info) == 0 <==> x.st_info < 16);
        assert(syms[j] == x);
        assert(describes(rodata_entries(e)[k], syms[j], secs));
    }
}

/// `(name, size in bytes, is local)` of each data symbol in a `.rodata` section of an
/// assembled object, in source order (see [`rodata_entries`]).
pub fn rodata_symbols_from_elf(elf: &Elf) -> (r: Vec<(String, usize, bool)>)
    ensures
        r@.len() == rodata_entries(*elf).len(),
        forall|k: int|
            0 <= k < r@.len() ==> (#[trigger] r@[k]).0@ == rodata_entries(*elf)[k].0 && r@[k].1
                == rodata_entries(*elf)[k].1 && r@[k].2 == rodata_entries(*elf)[k].2,
        forall|k: int| 0 <= k < r@.len() ==> exists|j: int|
            0 <= j < elf.symtab.symbols@.len() && describes(
                (#[trigger] r@[k].0@, r@[k].1, r@[k].2),
                #[trigger] symbol_views(elf.symtab.symbols@)[j],
                section_views(elf.sections@),
            ),
{
    let syms = elf.get_symbols();
    let ghost views = symbol_views(syms@);
    let ghost secs = section_views(elf.sections@);
    let n = syms.len();
    let mut sorted: Vec<&Symbol> = Vec::new();
    let mut i: usize = 0;
    while i < n
        invariant
            n == syms@.len(),
            *syms == elf.symtab.symbols,
            views == symbol_views(syms@),
            secs == section_views(elf.sections@),
            i <= n,
            sorted@.len() == sort_by_shndx(rodata_data_symbols(views.subrange(0, i as int), secs)).len(),
            forall|k: int|
                0 <= k < sorted@.len() ==> (#[trigger] sorted@[k])@ == sort_by_shndx(
                    rodata_data_symbols(views.subrange(0, i as int), secs),
                )[k],
        decreases n - i,
    {
        let ghost pre = views.subrange(0, i as int);
        let ghost next = views.subrange(0, i + 1);
        assert(next.drop_last() =~= pre);
        assert(next.last() == syms@[i as int]@);
        let x = &syms[i];
        if x.st_name != 0 && x.st_size > 0 && in_rodata_section(&elf.sections, x.st_shndx) {
            let ghost old_sorted = sort_by_shndx(rodata_data_symbols(pre, secs));
            let mut p = sorted.len();
            while p > 0 && sorted[p - 1].st_shndx > x.st_shndx
                invariant
                    p <= sorted@.len(),
                    sorted@.len() == old_sorted.len(),
                    forall|k: int| 0 <= k < sorted@.len() ==> (#[trigger] sorted@[k])@ == old_sorted[k],
                    forall|q: int| p <= q < old_sorted.len() ==> #[trigger] old_sorted[q].st_shndx > x.st_shndx,
                decreases p,
            {
                assert(sorted@[p - 1]@ == old_sorted[p - 1]);
                p -= 1;
            }
            proof {
                if p > 0 {
                    assert(sorted@[p - 1]@ == old_sorted[p - 1]);
                }
                crate::elf::lemma_insert_by_shndx_at(old_sorted, x@, p as int);
                assert(rodata_data_symbols(next, secs) == rodata_data_symbols(pre, secs).push(x@));
                assert(sort_by_shndx(rodata_data_symbols(next, secs)) == insert_by_shndx(old_sorted, x@)) by {
                    assert(rodata_data_symbols(next, secs).drop_last() =~= rodata_data_symbols(pre, secs));
                }
            }
            let ghost before = sorted@;
            sorted.insert(p, x);
            proof {
                assert forall|k: int| 0 <= k < sorted@.len() implies (#[trigger] sorted@[k])@
                    == sort_by_shndx(rodata_data_symbols(next, secs))[k] by {
                    assert(sorted@ == before.insert(p as int, x));
                    if k < p {
                        assert(sorted@[k] == before[k]);
                    } else if k > p {
                        assert(sorted@[k] == before[k - 1]);
                    }
                }
            }
        } else {
            assert(rodata_data_symbols(next, secs) == rodata_data_symbols(pre, secs));
        }
        i += 1;
    }
    assert(views.subrange(0, n as int) =~= views);
    let m = sorted.len();
    let mut r: Vec<(String, usize, bool)> = Vec::with_capacity(m);
    let mut k: usize = 0;
    while k < m
        invariant
            m == sorted@.len(),
            k <= m,
            r@.len() == k,
            m == rodata_entries(*elf).len(),
            forall|j: int| 0 <= j < m ==> (#[trigger] sorted@[j])@ == sort_by_shndx(rodata_data_symbols(views, secs))[j],
            views == symbol_views(elf.symtab.symbols@),
            secs == section_views(elf.sections@),
            forall|j: int|
                0 <= j < k ==> (#[trigger] r@[j]).0@ == rodata_entries(*elf)[j].0 && r@[j].1
                    == rodata_entries(*elf)[j].1 && r@[j].2 == rodata_entries(*elf)[j].2,
        decreases m - k,
    {
        let s = sorted[k];
        let local = s.bind() == STB_LOCAL;
        r.push((s.name.clone(), s.st_size as usize, local));
        k += 1;
    }
    proof {
        lemma_rodata_entries_from_symbols(*elf);
        assert forall|k: int| 0 <= k < r@.len() implies exists|j: int|
            0 <= j < elf.symtab.symbols@.len() && describes(
                (#[trigger] r@[k].0@, r@[k].1, r@[k].2),
                #[trigger] symbol_views(elf.symtab.symbols@)[j],
                section_views(elf.sections@),
            ) by {
            assert((r@[k].0@, r@[k].1, r@[k].2) == rodata_entries(*elf)[k]);
            let j = choose|j: int| 0 <= j < elf.symtab.symbols@.len() && describes(
                rodata_entries(*elf)[k],
                symbol_views(elf.symtab.symbols@)[j],
                section_views(elf.sections@),
            );
            assert(describes((r@[k].0@, r@[k].1, r@[k].2), symbol_views(elf.symtab.symbols@)[j], section_views(elf.sections@)));
        }
    }
    r
}


/// The first `.rodata` piece, from `i` on, whose end offset (taken as 32 bits) lies
/// beyond `r_offset`: the piece that a relocation at `r_offset` falls in, if any.
pub open spec fn bucket_from(offsets: Seq<usize>, r_offset: u32, i: int) -> Option<int>
    decreases offsets.len() - i,
{
    if i < 0 || i >= offsets.len() {
        None
    } else if r_offset < (offsets[i] as u32) {
        Some(i)
    } else {
        bucket_from(offsets, r_offset, i + 1)
    }
}

/// The piece a relocation at `r_offset` falls in, given the end offsets of the pieces.
pub fn rodata_section_for_offset(offsets: &[usize], r_offset: u32) -> (r: Option<usize>)
    ensures
        r == match bucket_from(offsets@, r_offset, 0) {
            Some(i) => Some(i as usize),
            None => None::<usize>,
        },
        r matches Some(i) ==> i < offsets@.len() && r_offset < (offsets@[i as int] as u32)
            && forall|j: int| 0 <= j < i ==> r_offset >= (#[trigger] offsets@[j] as u32),
{
    let n = offsets.len();
    let mut i: usize = 0;
    while i < n
        invariant
            i <= n,
            n == offsets@.len(),
            bucket_from(offsets@, r_offset, i as int) == bucket_from(offsets@, r_offset, 0),
            forall|j: int| 0 <= j < i ==> r_offset >= (#[trigger] offsets@[j] as u32),
        decreases n - i,
    {
        if r_offset < offsets[i] as u32 {
            return Some(i);
        }
        i += 1;
    }
    None
}

/// A relocation moved into piece `i`: its offset made relative to the start of the
/// piece, which is the end of piece `i - 1`.
pub open spec fn moved_into(r: RelocationView, offsets: Seq<usize>, i: int) -> RelocationView {
    if i > 0 {
        RelocationView { r_offset: (r.r_offset - (offsets[i - 1] as u32)) as u32, ..r }
    } else {
        r
    }
}

/// The relocations of a `.rodata` section split into one list per piece of it, the
/// pieces ending at `offsets`: each goes to the piece it falls in, with its offset
/// made relative to that piece, in order; one beyond every piece is dropped.
pub open spec fn split_spec(relocs: Seq<RelocationView>, offsets: Seq<usize>) -> Seq<
    Seq<RelocationView>,
>
    decreases relocs.len(),
{
    if relocs.len() == 0 {
        Seq::new(offsets.len(), |i: int| Seq::<RelocationView>::empty())
    } else {
        let prev = split_spec(relocs.drop_last(), offsets);
        let r = relocs.last();
        match bucket_from(offsets, r.r_offset, 0) {
            None => prev,
            Some(i) => prev.update(i, prev[i].push(moved_into(r, offsets, i))),
        }
    }
}

/// The piece found from `i` is the first from `i` whose end lies beyond the offset.
proof fn lemma_bucket_from(offsets: Seq<usize>, r_offset: u32, i: int)
    requires
        0 <= i,
    ensures
        bucket_from(offsets, r_offset, i) matches Some(j) ==> i <= j < offsets.len() && r_offset
            < (offsets[j] as u32) && forall|k: int| i <= k < j ==> r_offset >= (
        #[trigger] offsets[k] as u32),
    decreases offsets.len() - i,
{
    if i < offsets.len() && !(r_offset < (offsets[i] as u32)) {
        lemma_bucket_from(offsets, r_offset, i + 1);
    }
}

pub(crate) proof fn lemma_split_len(relocs: Seq<RelocationView>, offsets: Seq<usize>)
    ensures
        split_spec(relocs, offsets).len() == offsets.len(),
    decreases relocs.len(),
{
    if relocs.len() > 0 {
        lemma_split_len(relocs.drop_last(), offsets);
        lemma_bucket_from(offsets, relocs.last().r_offset, 0);
    }
}

/// Splits the relocations of a `.rodata` section over the pieces it was cut into,
/// the pieces ending at `offsets` (see [`split_spec`]).
pub fn split_relocations(relocs: &[Relocation], offsets: &[usize]) -> (r: Vec<Vec<Relocation>>)
    ensures
        r@.len() == offsets@.len(),
        forall|i: int|
            0 <= i < r@.len() ==> relocation_views((#[trigger] r@[i])@) == split_spec(
                relocation_views(relocs@),
                offsets@,
            )[i],
{
    let n = offsets.len();
    let mut out: Vec<Vec<Relocation>> = Vec::new();
    let mut b: usize = 0;
    while b < n
        invariant
            b <= n,
            n == offsets@.len(),
            out@.len() == b,
            forall|i: int| 0 <= i < b ==> (#[trigger] out@[i])@.len() == 0,
        decreases n - b,
    {
        out.push(Vec::new());
        b += 1;
    }
    let m = relocs.len();
    let mut k: usize = 0;
    let ghost views = relocation_views(relocs@);
    assert(views.subrange(0, 0) =~= Seq::<RelocationView>::empty());
    while k < m
        invariant
            k <= m,
            m == relocs@.len(),
            n == offsets@.len(),
            views == relocation_views(relocs@),
            out@.len() == n,
            split_spec(views.subrange(0, k as int), offsets@).len() == n,
            forall|i: int|
                0 <= i < n ==> relocation_views((#[trigger] out@[i])@) == split_spec(
                    views.subrange(0, k as int),
                    offsets@,
                )[i],
        decreases m - k,
    {
        let ghost pre = views.subrange(0, k as int);
        let ghost next = views.subrange(0, k + 1);
        assert(next.drop_last() =~= pre);
        assert(next.last() == relocs@[k as int]@);
        proof {
            lemma_split_len(next, offsets@);
        }
        let mut rel = relocs[k].clone();
        match rodata_section_for_offset(offsets, rel.r_offset) {
            Some(i) => {
                if i > 0 {
                    #[verifier::truncate]
                    let start = offsets[i - 1] as u32;
                    rel.r_offset = rel.r_offset - start;
                }
                proof {
                    lemma_bucket_from(offsets@, relocs@[k as int].r_offset, 0);
                }
                assert(rel@ == moved_into(relocs@[k as int]@, offsets@, i as int));
                let ghost before = out@;
                let mut bucket: Vec<Relocation> = Vec::new();
                std::mem::swap(&mut bucket, &mut out[i]);
                bucket.push(rel);
                out.set(i, bucket);
                proof {
                    assert forall|j: int| 0 <= j < n implies relocation_views((#[trigger] out@[j])@)
                        == split_spec(next, offsets@)[j] by {
                        if j == i {
                            assert(relocation_views(out@[j]@) =~= relocation_views(before[j]@).push(rel@));
                        } else {
                            assert(out@[j] == before[j]);
                        }
                    }
                }
            },
            None => {},
        }
        k += 1;
    }
    assert(views.subrange(0, m as int) =~= views);
    out
}

/// Whether `q`, placed in piece `i`, comes from input relocation `r`: `r` lies in the
/// piece's range (below its end, at or after the previous piece's end), and `q` is `r`
/// with its type and symbol kept and its offset made relative to the piece's start.
pub open spec fn placed_from(q: RelocationView, r: RelocationView, offsets: Seq<usize>, i: int) -> bool {
    &&& q.r_info == r.r_info
    &&& r.r_offset < offsets[i]
    &&& i == 0 ==> q.r_offset == r.r_offset
    &&& i > 0 ==> offsets[i - 1] <= r.r_offset && q.r_offset + offsets[i - 1] == r.r_offset
}

/// Every relocation put in a piece comes from an input relocation in that piece's range
/// (see [`placed_from`]).
pub proof fn lemma_split_pieces_from_input(relocs: Seq<RelocationView>, offsets: Seq<usize>)
    requires
        forall|i: int| 0 <= i < offsets.len() ==> #[trigger] offsets[i] <= u32::MAX,
    ensures
        forall|i: int, k: int|
            0 <= i < offsets.len() && 0 <= k < split_spec(relocs, offsets)[i].len() ==> exists|m: int|
                0 <= m < relocs.len() && placed_from(
                    #[trigger] split_spec(relocs, offsets)[i][k],
                    #[trigger] relocs[m],
                    offsets,
                    i,
                ),
    decreases relocs.len(),
{
    lemma_split_len(relocs, offsets);
    let cur = split_spec(relocs, offsets);
    if relocs.len() > 0 {
        let init = relocs.drop_last();
        let prev = split_spec(init, offsets);
        lemma_split_pieces_from_input(init, offsets);
        lemma_split_len(init, offsets);
        let r = relocs.last();
        lemma_bucket_from(offsets, r.r_offset, 0);
        assert forall|i: int, k: int| 0 <= i < offsets.len() && 0 <= k < cur[i].len() implies exists|m: int|
            0 <= m < relocs.len() && placed_from(#[trigger] cur[i][k], #[trigger] relocs[m], offsets, i) by {
            let fresh = match bucket_from(offsets, r.r_offset, 0) {
                Some(b) => i == b && k == prev[b].len(),
                None => false,
            };
            match bucket_from(offsets, r.r_offset, 0) {
                Some(b) => {
                    assert(cur == prev.update(b, prev[b].push(moved_into(r, offsets, b))));
                },
                None => {},
            }
            if fresh {
                assert(cur[i][k] == moved_into(r, offsets, i));
                assert((offsets[i] as u32) == offsets[i]);
                if i > 0 {
                    assert(r.r_offset >= (offsets[i - 1] as u32));
                    assert((offsets[i - 1] as u32) == offsets[i - 1]);
                }
                let m = relocs.len() - 1;
                assert(relocs[m] == r);
                assert(placed_from(cur[i][k], relocs[m], offsets, i));
            } else {
                assert(cur[i][k] == prev[i][k]);
                let m = choose|m: int| 0 <= m < init.len() && placed_from(prev[i][k], init[m], offsets, i);
                assert(relocs[m] == init[m]);
                assert(placed_from(cur[i][k], relocs[m], offsets, i));
            }
        }
    } else {
        assert forall|i: int| 0 <= i < offsets.len() implies #[trigger] cur[i].len() == 0 by {}
    }
}

/// Every relocation put in a piece lies within it: its offset, made relative to the
/// piece, is below the piece's size (the piece ends fitting in 32 bits).
pub proof fn lemma_split_within_pieces(relocs: Seq<RelocationView>, offsets: Seq<usize>)
    requires
        forall|i: int| 0 <= i < offsets.len() ==> #[trigger] offsets[i] <= u32::MAX,
    ensures
        forall|i: int, k: int|
            0 <= i < offsets.len() && 0 <= k < split_spec(relocs, offsets)[i].len() ==> (#[trigger] split_spec(
                relocs,
                offsets,
            )[i][k]).r_offset < offsets[i] - (if i > 0 {
                offsets[i - 1] as int
            } else {
                0
            }),
    decreases relocs.len(),
{
    lemma_split_len(relocs, offsets);
    if relocs.len() > 0 {
        let prev = split_spec(relocs.drop_last(), offsets);
        lemma_split_within_pieces(relocs.drop_last(), offsets);
        lemma_split_len(relocs.drop_last(), offsets);
        let r = relocs.last();
        lemma_bucket_from(offsets, r.r_offset, 0);
        match bucket_from(offsets, r.r_offset, 0) {
            None => {},
            Some(b) => {
                let cur = split_spec(relocs, offsets);
                assert(cur == prev.update(b, prev[b].push(moved_into(r, offsets, b))));
                if b > 0 {
                    assert(r.r_offset >= (offsets[b - 1] as u32));
                    assert((offsets[b - 1] as u32) == offsets[b - 1]);
                }
                assert((offsets[b] as u32) == offsets[b]);
                assert forall|i: int, k: int|
                    0 <= i < offsets.len() && 0 <= k < cur[i].len() implies (#[trigger] cur[i][k]).r_offset
                        < offsets[i] - (if i > 0 {
                        offsets[i - 1] as int
                    } else {
                        0
                    }) by {
                    if i != b || k < prev[b].len() {
                        assert(cur[i][k] == prev[i][k]);
                    }
                }
            },
        }
    }
}

/// How many relocations the pieces hold together.
pub open spec fn pieces_total(parts: Seq<Seq<RelocationView>>) -> nat
    decreases parts.len(),
{
    if parts.len() == 0 {
        0
    } else {
        pieces_total(parts.drop_last()) + parts.last().len()
    }
}

proof fn lemma_pieces_total_push(parts: Seq<Seq<RelocationView>>, b: int, x: RelocationView)
    requires
        0 <= b < parts.len(),
    ensures
        pieces_total(parts.update(b, parts[b].push(x))) == pieces_total(parts) + 1,
    decreases parts.len(),
{
    let q = parts.update(b, parts[b].push(x));
    if b == parts.len() - 1 {
        assert(q.drop_last() =~= parts.drop_last());
    } else {
        lemma_pieces_total_push(parts.drop_last(), b, x);
        assert(q.drop_last() =~= parts.drop_last().update(b, parts[b].push(x)));
    }
}

proof fn lemma_pieces_total_empty(n: nat)
    ensures
        pieces_total(Seq::new(n, |i: int| Seq::<RelocationView>::empty())) == 0,
    decreases n,
{
    if n > 0 {
        lemma_pieces_total_empty((n - 1) as nat);
        assert(Seq::new(n, |i: int| Seq::<RelocationView>::empty()).drop_last() =~= Seq::new(
            (n - 1) as nat,
            |i: int| Seq::<RelocationView>::empty(),
        ));
    }
}

/// Splitting never makes relocations up: the pieces hold at most as many as there were.
pub proof fn lemma_split_keeps_count(relocs: Seq<RelocationView>, offsets: Seq<usize>)
    ensures
        pieces_total(split_spec(relocs, offsets)) <= relocs.len(),
    decreases relocs.len(),
{
    if relocs.len() == 0 {
        lemma_pieces_total_empty(offsets.len());
    } else {
        lemma_split_keeps_count(relocs.drop_last(), offsets);
        lemma_split_len(relocs.drop_last(), offsets);
        lemma_bucket_from(offsets, relocs.last().r_offset, 0);
        match bucket_from(offsets, relocs.last().r_offset, 0) {
            None => {},
            Some(b) => {
                let prev = split_spec(relocs.drop_last(), offsets);
                lemma_pieces_total_push(prev, b, moved_into(relocs.last(), offsets, b));
            },
        }
    }
}

/// A symbol index after `delta` symbols were inserted at `threshold`: indices from
/// `threshold` on move up by `delta`, smaller ones stay.
pub fn shifted_symbol_index(index: usize, threshold: usize, delta: usize) -> (r: usize)
    requires
        index >= threshold ==> index + delta <= usize::MAX,
    ensures
        index >= threshold ==> r == index + delta,
        index < threshold ==> r == index,
{
    if index >= threshold {
        index + delta
    } else {
        index
    }
}

} // verus!
