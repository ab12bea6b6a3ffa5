//! Make rules that the compiler writes as dependency files, and the paths in them.
use vstd::prelude::*;
use vstd::utf8::*;

use crate::assembler::string_views;
use crate::text::{
    chars_of, chars_occur_at, concat, lemma_from_utf8_chars, replace_str, skip_chars,
    spec_replace, str_eq, str_from_utf8, substring, to_string,
};

verus! {

/// Whether `c` is an ASCII letter, as a drive letter is.
pub open spec fn is_drive_letter(c: char) -> bool {
    ('A' <= c && c <= 'Z') || ('a' <= c && c <= 'z')
}

/// A path reported by the compiler run under wibo, in POSIX form: backslashes become
/// slashes, then a leading `//?/` and a leading drive (`X:`) are dropped, so that
/// `Z:\home\a.c` reads `/home/a.c`.
pub open spec fn spec_path_from_wibo(p: Seq<char>) -> Seq<char> {
    let s = spec_replace(p, seq!['\\'], seq!['/']);
    let t = if chars_occur_at(s, seq!['/', '/', '?', '/'], 0) {
        s.skip(4)
    } else {
        s
    };
    if t.len() >= 2 && is_drive_letter(t[0]) && t[1] == ':' {
        t.skip(2)
    } else {
        t
    }
}

/// Replacing a character by text that does not hold it leaves no such character.
proof fn lemma_replace_char_gone(s: Seq<char>, c: char, rep: Seq<char>)
    requires
        !rep.contains(c),
    ensures
        !spec_replace(s, seq![c], rep).contains(c),
    decreases s.len(),
{
    if s.len() >= 1 {
        let r = spec_replace(s, seq![c], rep);
        if s.subrange(0, 1) == seq![c] {
            lemma_replace_char_gone(s.skip(1), c, rep);
            let t = spec_replace(s.skip(1), seq![c], rep);
            assert(r == rep + t);
            if r.contains(c) {
                let k = choose|k: int| 0 <= k < r.len() && r[k] == c;
                if k < rep.len() {
                    assert(rep[k] == c);
                } else {
                    assert(t[k - rep.len()] == c);
                }
            }
        } else {
            assert(s[0] != c) by {
                if s[0] == c {
                    assert(s.subrange(0, 1) =~= seq![c]);
                }
            }
            lemma_replace_char_gone(s.drop_first(), c, rep);
            let t = spec_replace(s.drop_first(), seq![c], rep);
            assert(r == seq![s[0]] + t);
            if r.contains(c) {
                let k = choose|k: int| 0 <= k < r.len() && r[k] == c;
                if k > 0 {
                    assert(t[k - 1] == c);
                }
            }
        }
    }
}

/// A path made POSIX holds no backslash.
pub proof fn lemma_path_from_wibo_posix(p: Seq<char>)
    ensures
        !spec_path_from_wibo(p).contains('\\'),
{
    let s = spec_replace(p, seq!['\\'], seq!['/']);
    assert(!seq!['/'].contains('\\')) by {
        if seq!['/'].contains('\\') {
            let k = choose|k: int| 0 <= k < 1 && seq!['/'][k] == '\\';
        }
    }
    lemma_replace_char_gone(p, '\\', seq!['/']);
    let t = if chars_occur_at(s, seq!['/', '/', '?', '/'], 0) { s.skip(4) } else { s };
    assert(!t.contains('\\')) by {
        if t.contains('\\') {
            let k = choose|k: int| 0 <= k < t.len() && t[k] == '\\';
            if chars_occur_at(s, seq!['/', '/', '?', '/'], 0) {
                assert(s[k + 4] == '\\');
            }
        }
    }
    let u = spec_path_from_wibo(p);
    if u.contains('\\') {
        let k = choose|k: int| 0 <= k < u.len() && u[k] == '\\';
        if t.len() >= 2 && is_drive_letter(t[0]) && t[1] == ':' {
            assert(t[k + 2] == '\\');
        } else {
            assert(t[k] == '\\');
        }
    }
}

/// Turns a path reported by the compiler run under wibo into POSIX form (see
/// [`spec_path_from_wibo`]).
pub fn path_from_wibo(path: &str) -> (r: String)
    ensures
        r@ == spec_path_from_wibo(path@),
{
    proof {
        reveal_strlit("\\");
        reveal_strlit("/");
    }
    let back = "\\";
    let fwd = "/";
    assert(back@ =~= seq!['\\']);
    assert(fwd@ =~= seq!['/']);
    let s = replace_str(path, back, fwd);
    let sc = chars_of(s.as_str());
    let verbatim = sc.len() >= 4 && sc[0] == '/' && sc[1] == '/' && sc[2] == '?' && sc[3] == '/';
    assert(verbatim == chars_occur_at(s@, seq!['/', '/', '?', '/'], 0)) by {
        if sc@.len() >= 4 {
            if verbatim {
                assert(s@.subrange(0, 4) =~= seq!['/', '/', '?', '/']);
            } else {
                assert(s@.subrange(0, 4) != seq!['/', '/', '?', '/'] ) by {
                    if s@.subrange(0, 4) == seq!['/', '/', '?', '/'] {
                        assert(s@.subrange(0, 4)[0] == s@[0]);
                        assert(s@.subrange(0, 4)[1] == s@[1]);
                        assert(s@.subrange(0, 4)[2] == s@[2]);
                        assert(s@.subrange(0, 4)[3] == s@[3]);
                    }
                }
            }
        }
    }
    let t = if verbatim {
        skip_chars(s.as_str(), 4)
    } else {
        s
    };
    let tc = chars_of(t.as_str());
    if tc.len() >= 2 && (('A' <= tc[0] && tc[0] <= 'Z') || ('a' <= tc[0] && tc[0] <= 'z'))
        && tc[1] == ':' {
        skip_chars(t.as_str(), 2)
    } else {
        t
    }
}


/// Whether `c` separates words of a make rule: a space, tab, line feed, form feed or
/// carriage return.
pub open spec fn is_space(c: char) -> bool {
    c == ' ' || c == '\t' || c == '\n' || c == '\x0C' || c == '\r'
}

/// Scanning `c` for words: the ranges of the words ended so far and where the word
/// being read started (`-1` between words).
pub open spec fn scan_words(c: Seq<char>) -> (Seq<(int, int)>, int)
    decreases c.len(),
{
    if c.len() == 0 {
        (Seq::empty(), -1)
    } else {
        let (done, start) = scan_words(c.drop_last());
        let i = c.len() - 1;
        if is_space(c[i]) {
            if start < 0 {
                (done, -1)
            } else {
                (done.push((start, i)), -1)
            }
        } else if start < 0 {
            (done, i)
        } else {
            (done, start)
        }
    }
}

/// The ranges of the words of `c`: its longest runs of characters other than spaces.
pub open spec fn word_ranges(c: Seq<char>) -> Seq<(int, int)> {
    let (done, start) = scan_words(c);
    if start < 0 {
        done
    } else {
        done.push((start, c.len() as int))
    }
}

/// The words of `c` other than line continuations (`\`).
pub open spec fn rule_words(c: Seq<char>) -> Seq<Seq<char>> {
    keep_words(word_ranges(c).map_values(|r: (int, int)| c.subrange(r.0, r.1)))
}

/// `ws` without the line continuations (`\`).
pub open spec fn keep_words(ws: Seq<Seq<char>>) -> Seq<Seq<char>>
    decreases ws.len(),
{
    if ws.len() == 0 {
        Seq::empty()
    } else if ws.last() == seq!['\\'] {
        keep_words(ws.drop_last())
    } else {
        keep_words(ws.drop_last()).push(ws.last())
    }
}

/// The dependencies among the words after the target: every word but a lone `:`,
/// in POSIX form when the compiler ran under wibo.
pub open spec fn rule_dependencies(ws: Seq<Seq<char>>, use_wibo: bool) -> Seq<Seq<char>>
    decreases ws.len(),
{
    if ws.len() == 0 {
        Seq::empty()
    } else if ws.last() == seq![':'] {
        rule_dependencies(ws.drop_last(), use_wibo)
    } else {
        rule_dependencies(ws.drop_last(), use_wibo).push(
            if use_wibo {
                spec_path_from_wibo(ws.last())
            } else {
                ws.last()
            },
        )
    }
}

/// The target named by the first word of a rule: the word without its closing `:`.
pub open spec fn rule_target(w: Seq<char>) -> Seq<char> {
    if w.len() > 0 && w.last() == ':' {
        w.drop_last()
    } else {
        w
    }
}

/// A make rule: the file it builds, the source it names first when there is one, and
/// the files it depends on.
pub struct MakeRule {
    pub target: String,
    pub source: Option<String>,
    pub dependencies: Vec<String>,
}

/// The ranges of the words of `c` (see [`word_ranges`]).
fn find_word_ranges(c: &Vec<char>) -> (r: Vec<(usize, usize)>)
    ensures
        r@.len() == word_ranges(c@).len(),
        forall|k: int| 0 <= k < r@.len() ==> (#[trigger] r@[k]).0 == word_ranges(c@)[k].0 && r@[k].1 == word_ranges(c@)[k].1,
        forall|k: int| 0 <= k < r@.len() ==> (#[trigger] r@[k]).0 <= r@[k].1 <= c@.len(),
{
    let n = c.len();
    let mut done: Vec<(usize, usize)> = Vec::new();
    let mut start: Option<usize> = None;
    let mut i: usize = 0;
    assert(c@.take(0) =~= Seq::<char>::empty());
    while i < n
        invariant
            i <= n,
            n == c@.len(),
            done@.len() == scan_words(c@.take(i as int)).0.len(),
            forall|k: int| 0 <= k < done@.len() ==> (#[trigger] done@[k]).0 == scan_words(c@.take(i as int)).0[k].0 && done@[k].1 == scan_words(c@.take(i as int)).0[k].1,
            forall|k: int| 0 <= k < done@.len() ==> (#[trigger] done@[k]).0 <= done@[k].1 <= i,
            match start {
                None => scan_words(c@.take(i as int)).1 == -1,
                Some(s) => scan_words(c@.take(i as int)).1 == s && s < i,
            },
        decreases n - i,
    {
        let ghost t = c@.take(i + 1);
        assert(t.drop_last() =~= c@.take(i as int));
        assert(t[i as int] == c@[i as int]);
        let ch = c[i];
        let space = ch == ' ' || ch == '\t' || ch == '\n' || ch == '\x0C' || ch == '\r';
        if space {
            match start {
                Some(s) => {
                    done.push((s, i));
                },
                None => {},
            }
            start = None;
        } else {
            match start {
                None => {
                    start = Some(i);
                },
                Some(_) => {},
            }
        }
        i += 1;
    }
    assert(c@.take(n as int) =~= c@);
    match start {
        Some(s) => {
            done.push((s, n));
        },
        None => {},
    }
    done
}

impl MakeRule {
    /// Reads a make rule from the compiler's dependency file: its words (runs of
    /// characters other than spaces, line continuations left out) are the target,
    /// written with a closing `:`, then the dependencies, turned into POSIX paths when
    /// the compiler ran under wibo. `None` when the bytes are not UTF-8 or hold no word.
    pub fn new(data: &[u8], use_wibo: bool) -> (r: Option<MakeRule>)
        ensures
            r is Some <==> valid_utf8(data@) && rule_words(decode_utf8(data@)).len() > 0,
            r matches Some(m) ==> {
                let ws = rule_words(decode_utf8(data@));
                &&& m.target@ == rule_target(ws[0])
                &&& m.source is None
                &&& string_views(m.dependencies@) == rule_dependencies(ws.drop_first(), use_wibo)
            },
    {
        let text = match str_from_utf8(data) {
            None => {
                return None;
            },
            Some(t) => t,
        };
        proof {
            lemma_from_utf8_chars(text, data@);
        }
        let c = chars_of(text);
        let ranges = find_word_ranges(&c);
        let ghost all = word_ranges(c@).map_values(|r: (int, int)| c@.subrange(r.0, r.1));
        proof {
            reveal_strlit("\\");
            reveal_strlit(":");
        }
        let cont = "\\";
        let colon = ":";
        assert(cont@ =~= seq!['\\']);
        assert(colon@ =~= seq![':']);
        let mut words: Vec<String> = Vec::new();
        let m = ranges.len();
        let mut k: usize = 0;
        assert(all.take(0) =~= Seq::<Seq<char>>::empty());
        while k < m
            invariant
                k <= m,
                m == ranges@.len(),
                m == all.len(),
                c@ == text@,
                all == word_ranges(c@).map_values(|r: (int, int)| c@.subrange(r.0, r.1)),
                forall|q: int| 0 <= q < m ==> (#[trigger] ranges@[q]).0 == word_ranges(c@)[q].0 && ranges@[q].1 == word_ranges(c@)[q].1,
                forall|q: int| 0 <= q < m ==> (#[trigger] ranges@[q]).0 <= ranges@[q].1 <= c@.len(),
                cont@ == seq!['\\'],
                string_views(words@) == keep_words(all.take(k as int)),
            decreases m - k,
        {
            let (a, b) = ranges[k];
            let w = substring(text, a, b);
            let ghost t = all.take(k + 1);
            assert(t.drop_last() =~= all.take(k as int));
            assert(t.last() == w@);
            if !str_eq(w.as_str(), cont) {
                let ghost before = words@;
                words.push(w);
                assert(string_views(words@) =~= string_views(before).push(w@));
            }
            k += 1;
        }
        assert(all.take(m as int) =~= all);
        let ghost ws = rule_words(decode_utf8(data@));
        assert(string_views(words@) == ws);
        if words.len() == 0 {
            return None;
        }
        let first = &words[0];
        let fc = chars_of(first.as_str());
        let target = if fc.len() > 0 && fc[fc.len() - 1] == ':' {
            assert(first@.drop_last() =~= first@.subrange(0, fc.len() - 1));
            substring(first.as_str(), 0, fc.len() - 1)
        } else {
            first.clone()
        };
        let mut deps: Vec<String> = Vec::new();
        let n = words.len();
        let mut j: usize = 1;
        assert(ws.drop_first().take(0) =~= Seq::<Seq<char>>::empty());
        while j < n
            invariant
                1 <= j <= n,
                n == words@.len(),
                string_views(words@) == ws,
                colon@ == seq![':'],
                string_views(deps@) == rule_dependencies(ws.drop_first().take(j - 1), use_wibo),
            decreases n - j,
        {
            let ghost t = ws.drop_first().take(j as int);
            assert(t.drop_last() =~= ws.drop_first().take(j - 1));
            assert(t.last() == words@[j as int]@);
            if !str_eq(words[j].as_str(), colon) {
                let d = if use_wibo {
                    path_from_wibo(words[j].as_str())
                } else {
                    words[j].clone()
                };
                let ghost before = deps@;
                deps.push(d);
                assert(string_views(deps@) =~= string_views(before).push(d@));
            }
            j += 1;
        }
        assert(ws.drop_first().take(n - 1) =~= ws.drop_first());
        Some(MakeRule { target, source: None, dependencies: deps })
    }

    /// The rule as text: the target and `:`, the source when there is one, then the
    /// dependencies, separated by spaces and ended by a line feed.
    pub fn as_str(&self) -> (r: String)
        ensures
            r@ == rule_text(self.target@, match self.source {
                Some(s) => Some(s@),
                None => None,
            }, string_views(self.dependencies@)),
    {
        proof {
            reveal_strlit(":");
            reveal_strlit(" ");
            reveal_strlit("\n");
        }
        let colon = ":";
        let space = " ";
        let nl = "\n";
        assert(colon@ =~= seq![':']);
        assert(space@ =~= seq![' ']);
        assert(nl@ =~= seq!['\n']);
        let mut out = concat(self.target.as_str(), colon);
        match &self.source {
            Some(s) => {
                out.append(space);
                out.append(s.as_str());
            },
            None => {},
        }
        let ghost head = out@;
        let n = self.dependencies.len();
        let mut i: usize = 0;
        assert(string_views(self.dependencies@).take(0) =~= Seq::<Seq<char>>::empty());
        while i < n
            invariant
                i <= n,
                n == self.dependencies@.len(),
                space@ == seq![' '],
                out@ == head + joined(string_views(self.dependencies@).take(i as int)),
            decreases n - i,
        {
            let ghost t = string_views(self.dependencies@).take(i + 1);
            assert(t.drop_last() =~= string_views(self.dependencies@).take(i as int));
            out.append(space);
            out.append(self.dependencies[i].as_str());
            i += 1;
        }
        assert(string_views(self.dependencies@).take(n as int) =~= string_views(self.dependencies@));
        out.append(nl);
        out
    }
}

/// The words `ws`, each after a space.
pub open spec fn joined(ws: Seq<Seq<char>>) -> Seq<char>
    decreases ws.len(),
{
    if ws.len() == 0 {
        Seq::empty()
    } else {
        joined(ws.drop_last()) + seq![' '] + ws.last()
    }
}

/// A make rule as text (see [`MakeRule::as_str`]).
pub open spec fn rule_text(target: Seq<char>, source: Option<Seq<char>>, deps: Seq<Seq<char>>) -> Seq<char> {
    target + seq![':'] + match source {
        Some(s) => seq![' '] + s,
        None => Seq::empty(),
    } + joined(deps) + seq!['\n']
}

/// The text of a rule begins with its target, so the dependency file written for an
/// object begins with the object's path.
pub proof fn lemma_rule_text_starts_with_target(
    target: Seq<char>,
    source: Option<Seq<char>>,
    deps: Seq<Seq<char>>,
)
    ensures
        rule_text(target, source, deps).subrange(0, target.len() as int) == target,
{
    assert(rule_text(target, source, deps).subrange(0, target.len() as int) =~= target);
}

} // verus!
