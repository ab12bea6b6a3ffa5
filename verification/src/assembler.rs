//! How the GNU assembler is run.
use vstd::prelude::*;

use crate::text::{concat, to_string};

verus! {

/// How to run the GNU assembler on one assembly file.
pub struct Assembler {
    pub as_path: String,
    pub as_march: String,
    pub as_mabi: String,
    pub as_flags: Vec<String>,
    pub macro_inc_path: Option<String>,
}

/// The arguments of the assembler: little-endian, the architecture and ABI, the
/// object file to write, the extra flags, and the include directory when there is one.
pub open spec fn spec_assembler_args(
    march: Seq<char>,
    mabi: Seq<char>,
    o_path: Seq<char>,
    flags: Seq<Seq<char>>,
    include_dir: Option<Seq<char>>,
) -> Seq<Seq<char>> {
    let head = seq![
        seq!['-', 'E', 'L'],
        seq!['-', 'm', 'a', 'r', 'c', 'h', '='] + march,
        seq!['-', 'm', 'a', 'b', 'i', '='] + mabi,
        seq!['-', 'o'],
        o_path,
    ] + flags;
    match include_dir {
        Some(d) => head.push(seq!['-', 'I'] + d),
        None => head,
    }
}

/// The texts of a vector of strings.
pub open spec fn string_views(v: Seq<String>) -> Seq<Seq<char>> {
    v.map_values(|s: String| s@)
}

impl Assembler {
    /// The arguments to run the assembler with, writing the object to `o_path`;
    /// `include_dir` is the directory of the macro file when it has one.
    pub fn command_args(&self, o_path: &str, include_dir: Option<&str>) -> (r: Vec<String>)
        ensures
            string_views(r@) == spec_assembler_args(
                self.as_march@,
                self.as_mabi@,
                o_path@,
                string_views(self.as_flags@),
                match include_dir {
                    Some(d) => Some(d@),
                    None => None,
                },
            ),
    {
        proof {
            reveal_strlit("-EL");
            reveal_strlit("-march=");
            reveal_strlit("-mabi=");
            reveal_strlit("-o");
            reveal_strlit("-I");
        }
        let el = "-EL";
        let march = "-march=";
        let mabi = "-mabi=";
        let o = "-o";
        let inc = "-I";
        assert(el@ =~= seq!['-', 'E', 'L']);
        assert(march@ =~= seq!['-', 'm', 'a', 'r', 'c', 'h', '=']);
        assert(mabi@ =~= seq!['-', 'm', 'a', 'b', 'i', '=']);
        assert(o@ =~= seq!['-', 'o']);
        assert(inc@ =~= seq!['-', 'I']);
        let mut r: Vec<String> = Vec::new();
        r.push(to_string(el));
        r.push(concat(march, self.as_march.as_str()));
        r.push(concat(mabi, self.as_mabi.as_str()));
        r.push(to_string(o));
        r.push(to_string(o_path));
        let ghost head = string_views(r@);
        let n = self.as_flags.len();
        let mut i: usize = 0;
        while i < n
            invariant
                i <= n,
                n == self.as_flags@.len(),
                head.len() == 5,
                string_views(r@) == head + string_views(self.as_flags@.subrange(0, i as int)),
            decreases n - i,
        {
            let ghost before = r@;
            let flag = self.as_flags[i].clone();
            r.push(flag);
            proof {
                assert(r@ == before.push(flag));
                assert(string_views(r@) =~= string_views(before).push(flag@));
                assert(string_views(self.as_flags@.subrange(0, i + 1)) =~= string_views(
                    self.as_flags@.subrange(0, i as int),
                ).push(self.as_flags@[i as int]@));
                assert(string_views(r@) =~= head + string_views(self.as_flags@.subrange(0, i + 1)));
            }
            i += 1;
        }
        assert(self.as_flags@.subrange(0, n as int) =~= self.as_flags@);
        assert(head =~= seq![
            seq!['-', 'E', 'L'],
            seq!['-', 'm', 'a', 'r', 'c', 'h', '='] + self.as_march@,
            seq!['-', 'm', 'a', 'b', 'i', '='] + self.as_mabi@,
            seq!['-', 'o'],
            o_path@,
        ]);
        match include_dir {
            Some(d) => {
                r.push(concat(inc, d));
                assert(string_views(r@) =~= (head + string_views(self.as_flags@)).push(seq!['-', 'I'] + d@));
            },
            None => {},
        }
        r
    }
}

/// The text of the parent that `std::path::Path::parent` finds for `path`, if any.
pub uninterp spec fn path_parent(path: Seq<char>) -> Option<Seq<char>>;

/// `std::path::Path::parent`: the path without its last component, `None` for a root
/// or the empty path. Its result is a function of the text, named [`path_parent`]; a
/// path made of text converts back to text without loss.
#[verifier::external_body]
fn parent(path: &str) -> (r: Option<String>)
    ensures
        r matches Some(p) ==> path_parent(path@) == Some(p@),
        r is None ==> path_parent(path@) is None,
{
    match std::path::Path::new(path).parent() {
        Some(p) => Some(p.to_string_lossy().into_owned()),
        None => None,
    }
}

/// The include directory for the assembler: the directory of the macro file, when there
/// is a macro file and its directory is not empty.
pub open spec fn spec_include_dir(macro_inc_path: Option<Seq<char>>) -> Option<Seq<char>> {
    match macro_inc_path {
        Some(m) => match path_parent(m) {
            Some(d) => if d.len() > 0 {
                Some(d)
            } else {
                None
            },
            None => None,
        },
        None => None,
    }
}

/// The include directory for the assembler (see [`spec_include_dir`]).
pub fn include_dir(macro_inc_path: Option<&str>) -> (r: Option<String>)
    ensures
        match r {
            Some(d) => spec_include_dir(
                match macro_inc_path {
                    Some(m) => Some(m@),
                    None => None,
                },
            ) == Some(d@),
            None => spec_include_dir(
                match macro_inc_path {
                    Some(m) => Some(m@),
                    None => None,
                },
            ) is None,
        },
{
    match macro_inc_path {
        Some(m) => match parent(m) {
            Some(d) => if d.as_str().unicode_len() > 0 {
                Some(d)
            } else {
                None
            },
            None => None,
        },
        None => None,
    }
}

} // verus!
