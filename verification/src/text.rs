//! Text helpers: UTF-8 decoding of byte strings and character-level string operations.
use vstd::prelude::*;
use vstd::string::*;
use vstd::utf8::*;

verus! {

/// Calls `std::str::from_utf8`. Its documentation promises that it succeeds exactly on
/// valid UTF-8, and that the string slice it returns is made of the very bytes given.
#[verifier::external_body]
pub(crate) fn str_from_utf8(v: &[u8]) -> (r: Option<&str>)
    ensures
        r is Some <==> valid_utf8(v@),
        r matches Some(s) ==> s.spec_bytes() == v@,
{
    std::str::from_utf8(v).ok()
}

/// The characters of valid UTF-8 bytes, as read back by `from_utf8`.
pub proof fn lemma_from_utf8_chars(s: &str, v: Seq<u8>)
    requires
        s.spec_bytes() == v,
    ensures
        s@ == decode_utf8(v),
{
    encode_utf8_decode_utf8(s@);
}

/// No byte of the UTF-8 encoding of a character other than NUL is zero.
pub proof fn lemma_encode_scalar_nonzero(c: char)
    requires
        c != '\0',
    ensures
        forall|k: int| 0 <= k < encode_scalar(c as u32).len() ==> #[trigger] encode_scalar(
            c as u32,
        )[k] != 0,
{
    let s = c as u32;
    char_is_scalar(c);
    assert(s != 0);
    if has_width_1_encoding(s) {
        assert(leading_byte_width_1(s) != 0) by (bit_vector)
            requires
                0 < s <= 0x7F,
        ;
    } else if has_width_2_encoding(s) {
        assert(leading_byte_width_2(s) != 0 && last_continuation_byte(s) != 0) by (bit_vector);
    } else if has_width_3_encoding(s) {
        assert(leading_byte_width_3(s) != 0 && second_last_continuation_byte(s) != 0
            && last_continuation_byte(s) != 0) by (bit_vector);
    } else {
        assert(leading_byte_width_4(s) != 0 && third_last_continuation_byte(s) != 0
            && second_last_continuation_byte(s) != 0 && last_continuation_byte(s) != 0)
            by (bit_vector);
    }
}

/// No byte of the UTF-8 encoding of a text without NUL characters is zero.
pub proof fn lemma_encode_utf8_nonzero(chars: Seq<char>)
    requires
        !chars.contains('\0'),
    ensures
        forall|k: int| 0 <= k < encode_utf8(chars).len() ==> #[trigger] encode_utf8(chars)[k] != 0,
    decreases chars.len(),
{
    if chars.len() > 0 {
        let rest = chars.drop_first();
        assert forall|c: char| rest.contains(c) implies chars.contains(c) by {
            let k = choose|k: int| 0 <= k < rest.len() && rest[k] == c;
            assert(chars[k + 1] == c);
        }
        lemma_encode_utf8_nonzero(rest);
        assert(chars[0] != '\0') by {
            if chars[0] == '\0' {
                assert(chars.contains('\0'));
            }
        }
        lemma_encode_scalar_nonzero(chars[0]);
        let e = encode_scalar(chars[0] as u32);
        assert(encode_utf8(chars) == e + encode_utf8(rest));
        assert forall|k: int| 0 <= k < encode_utf8(chars).len() implies #[trigger] encode_utf8(
            chars,
        )[k] != 0 by {
            if k < e.len() {
                assert(encode_utf8(chars)[k] == e[k]);
            } else {
                assert(encode_utf8(chars)[k] == encode_utf8(rest)[k - e.len()]);
            }
        }
    }
}


/// The characters of `s`, in order.
pub fn chars_of(s: &str) -> (v: Vec<char>)
    ensures
        v@ == s@,
{
    let mut v: Vec<char> = Vec::new();
    for c in it: s.chars()
        invariant
            v@ == it.seq().subrange(0, it.index() as int),
            it.seq() == s@,
    {
        v.push(c);
        assert(v@ =~= it.seq().subrange(0, it.index() + 1));
    }
    assert(v@ =~= s@);
    v
}

/// Whether `pat` occurs in `s` at index `i`.
pub open spec fn chars_occur_at(s: Seq<char>, pat: Seq<char>, i: int) -> bool {
    0 <= i && i + pat.len() <= s.len() && s.subrange(i, i + pat.len()) == pat
}

/// Whether `s[i..i + pat.len()]` equals `pat`, for `i + pat.len() <= s.len()`.
fn chars_match_at(s: &Vec<char>, pat: &Vec<char>, i: usize) -> (b: bool)
    requires
        i + pat@.len() <= s@.len(),
    ensures
        b == chars_occur_at(s@, pat@, i as int),
{
    let n = pat.len();
    let sl = s.len();
    let mut k: usize = 0;
    while k < n
        invariant
            n == pat@.len(),
            sl == s@.len(),
            i + n <= s@.len(),
            k <= n,
            forall|j: int| 0 <= j < k ==> s@[i + j] == pat@[j],
        decreases n - k,
    {
        if s[i + k] != pat[k] {
            assert(s@.subrange(i as int, i + n)[k as int] != pat@[k as int]);
            return false;
        }
        k += 1;
    }
    assert(s@.subrange(i as int, i + n) =~= pat@);
    true
}

/// Whether `s` begins with `prefix`.
pub fn starts_with(s: &str, prefix: &str) -> (b: bool)
    ensures
        b == chars_occur_at(s@, prefix@, 0),
{
    let sc = chars_of(s);
    let pc = chars_of(prefix);
    if pc.len() > sc.len() {
        return false;
    }
    chars_match_at(&sc, &pc, 0)
}

/// Whether the texts of `a` and `b` are equal.
pub fn str_eq(a: &str, b: &str) -> (r: bool)
    ensures
        r == (a@ == b@),
{
    let ac = chars_of(a);
    let bc = chars_of(b);
    if ac.len() != bc.len() {
        return false;
    }
    let r = chars_match_at(&ac, &bc, 0);
    assert(ac@.subrange(0, bc@.len() as int) =~= ac@);
    r
}

/// Whether `pat` occurs somewhere in `s`.
pub open spec fn chars_contain(s: Seq<char>, pat: Seq<char>) -> bool {
    exists|i: int| chars_occur_at(s, pat, i)
}

/// Whether `pat` occurs somewhere in `s`.
pub fn contains_str(s: &str, pat: &str) -> (b: bool)
    ensures
        b == chars_contain(s@, pat@),
{
    let sc = chars_of(s);
    let pc = chars_of(pat);
    if pc.len() > sc.len() {
        assert forall|i: int| !chars_occur_at(s@, pat@, i) by {}
        return false;
    }
    if pc.len() == 0 {
        assert(s@.subrange(0, 0) =~= pat@);
        assert(chars_occur_at(s@, pat@, 0));
        return true;
    }
    let last = sc.len() - pc.len();
    let n = sc.len();
    let mut i: usize = 0;
    while i < n
        invariant
            last + pc@.len() == sc@.len(),
            n == sc@.len(),
            sc@ == s@,
            pc@ == pat@,
            forall|j: int| 0 <= j < i ==> !#[trigger] chars_occur_at(s@, pat@, j),
        decreases n - i,
    {
        if i <= last && chars_match_at(&sc, &pc, i) {
            return true;
        }
        i += 1;
    }
    assert forall|j: int| !#[trigger] chars_occur_at(s@, pat@, j) by {
        if j > last as int && chars_occur_at(s@, pat@, j) {
        }
    }
    false
}

/// `s` with every occurrence of `pat` replaced by `rep`, scanning from the left
/// and never letting two occurrences overlap (as `str::replace` does).
pub open spec fn spec_replace(s: Seq<char>, pat: Seq<char>, rep: Seq<char>) -> Seq<char>
    decreases s.len(),
{
    if pat.len() == 0 || s.len() < pat.len() {
        s
    } else if s.subrange(0, pat.len() as int) == pat {
        rep + spec_replace(s.skip(pat.len() as int), pat, rep)
    } else {
        seq![s[0]] + spec_replace(s.drop_first(), pat, rep)
    }
}

/// An owned copy of the text.
pub fn to_string(s: &str) -> (r: String)
    ensures
        r@ == s@,
{
    s.to_owned()
}

/// The concatenation of `a` and `b`.
pub fn concat(a: &str, b: &str) -> (r: String)
    ensures
        r@ == a@ + b@,
{
    let mut r = a.to_owned();
    r.append(b);
    r
}

/// The characters of `s` from `from` (inclusive) to `to` (exclusive).
pub fn substring(s: &str, from: usize, to: usize) -> (r: String)
    requires
        from <= to <= s@.len(),
    ensures
        r@ == s@.subrange(from as int, to as int),
{
    s.substring_char(from, to).to_owned()
}

/// `s` with every occurrence of `pat` replaced by `rep`, leftmost first.
pub fn replace_str(s: &str, pat: &str, rep: &str) -> (r: String)
    requires
        pat@.len() > 0,
    ensures
        r@ == spec_replace(s@, pat@, rep@),
{
    let sc = chars_of(s);
    let pc = chars_of(pat);
    let n = sc.len();
    let p = pc.len();
    let mut out = String::new();
    let mut last: usize = 0;
    let mut i: usize = 0;
    assert(s@.skip(0) =~= s@);
    assert(out@ + s@.subrange(0, 0) =~= Seq::<char>::empty());
    while i < n
        invariant
            sc@ == s@,
            pc@ == pat@,
            n == s@.len(),
            p == pat@.len(),
            p > 0,
            last <= i <= n,
            out@ + s@.subrange(last as int, i as int) + spec_replace(s@.skip(i as int), pat@, rep@)
                == spec_replace(s@, pat@, rep@),
        decreases n - i,
    {
        let ghost t = s@.skip(i as int);
        if p <= n - i && chars_match_at(&sc, &pc, i) {
            assert(t.subrange(0, p as int) =~= s@.subrange(i as int, i + p));
            assert(t.skip(p as int) =~= s@.skip(i + p));
            let piece = s.substring_char(last, i);
            out.append(piece);
            out.append(rep);
            i = i + p;
            last = i;
            assert(s@.subrange(last as int, i as int) =~= Seq::<char>::empty());
        } else {
            proof {
                assert(t.drop_first() =~= s@.skip(i + 1));
                if t.len() >= p {
                    assert(t.subrange(0, p as int) =~= s@.subrange(i as int, i + p));
                }
            }
            assert(s@.subrange(last as int, i + 1) =~= s@.subrange(last as int, i as int) + seq![t[0]]);
            i = i + 1;
        }
    }
    assert(s@.skip(n as int) =~= Seq::<char>::empty());
    let piece = s.substring_char(last, n);
    out.append(piece);
    out
}


/// Whether `c` has the Unicode `White_Space` property, as `char::is_whitespace` tests:
/// U+0009 to U+000D, U+0020, U+0085, U+00A0, U+1680, U+2000 to U+200A, U+2028,
/// U+2029, U+202F, U+205F and U+3000.
pub open spec fn is_whitespace_char(c: char) -> bool {
    let u = c as u32;
    (0x09 <= u <= 0x0D) || u == 0x20 || u == 0x85 || u == 0xA0 || u == 0x1680 || (0x2000 <= u
        <= 0x200A) || u == 0x2028 || u == 0x2029 || u == 0x202F || u == 0x205F || u == 0x3000
}

/// `s` without its trailing whitespace.
pub open spec fn spec_trim_end(s: Seq<char>) -> Seq<char>
    decreases s.len(),
{
    if s.len() > 0 && is_whitespace_char(s.last()) {
        spec_trim_end(s.drop_last())
    } else {
        s
    }
}

/// Whether `c` is whitespace (see [`is_whitespace_char`]).
fn is_whitespace(c: char) -> (r: bool)
    ensures
        r == is_whitespace_char(c),
{
    let u = c as u32;
    (0x09 <= u && u <= 0x0D) || u == 0x20 || u == 0x85 || u == 0xA0 || u == 0x1680 || (0x2000 <= u
        && u <= 0x200A) || u == 0x2028 || u == 0x2029 || u == 0x202F || u == 0x205F || u == 0x3000
}

/// `s` without its trailing whitespace.
pub fn trim_end(s: &str) -> (r: String)
    ensures
        r@ == spec_trim_end(s@),
{
    let sc = chars_of(s);
    let mut end = sc.len();
    assert(s@.subrange(0, end as int) =~= s@);
    while end > 0 && is_whitespace(sc[end - 1])
        invariant
            end <= sc@.len(),
            sc@ == s@,
            spec_trim_end(s@.subrange(0, end as int)) == spec_trim_end(s@),
        decreases end,
    {
        assert(s@.subrange(0, end as int).drop_last() =~= s@.subrange(0, end - 1));
        end -= 1;
    }
    assert(s@.subrange(0, sc@.len() as int) =~= s@);
    substring(s, 0, end)
}

/// The characters of `s` after its first `n`.
pub fn skip_chars(s: &str, n: usize) -> (r: String)
    requires
        n <= s@.len(),
    ensures
        r@ == s@.skip(n as int),
{
    let len = s.unicode_len();
    assert(s@.skip(n as int) =~= s@.subrange(n as int, s@.len() as int));
    substring(s, n, len)
}


/// Replacing with a one-character pattern works character by character: on a
/// concatenation it is the concatenation of the replacements.
pub proof fn lemma_replace_char_concat(a: Seq<char>, b: Seq<char>, c: char, rep: Seq<char>)
    ensures
        spec_replace(a + b, seq![c], rep) == spec_replace(a, seq![c], rep) + spec_replace(b, seq![c], rep),
    decreases a.len(),
{
    if a.len() == 0 {
        assert(a + b =~= b);
    } else {
        let ab = a + b;
        lemma_replace_char_concat(a.drop_first(), b, c, rep);
        assert(ab.drop_first() =~= a.drop_first() + b);
        assert(ab.skip(1) =~= ab.drop_first());
        assert(a.skip(1) =~= a.drop_first());
        assert(ab.subrange(0, 1) =~= seq![ab[0]]);
        assert(a.subrange(0, 1) =~= seq![a[0]]);
        if a[0] == c {
            assert(ab.subrange(0, 1) =~= seq![c]);
            assert(a.subrange(0, 1) =~= seq![c]);
        } else {
            assert(ab.subrange(0, 1) != seq![c]) by {
                assert(ab.subrange(0, 1)[0] != seq![c][0]);
            }
            assert(a.subrange(0, 1) != seq![c]) by {
                assert(a.subrange(0, 1)[0] != seq![c][0]);
            }
        }
        assert(rep + spec_replace(a.drop_first(), seq![c], rep) + spec_replace(b, seq![c], rep) =~= rep + (spec_replace(a.drop_first(), seq![c], rep) + spec_replace(b, seq![c], rep)));
        assert(seq![a[0]] + spec_replace(a.drop_first(), seq![c], rep) + spec_replace(b, seq![c], rep) =~= seq![a[0]] + (spec_replace(a.drop_first(), seq![c], rep) + spec_replace(b, seq![c], rep)));
    }
}

/// Where `pat` occurs at none of the first `p` positions of `t`, replacing leaves those
/// `p` characters as they are.
pub proof fn lemma_replace_no_match_prefix(t: Seq<char>, pat: Seq<char>, rep: Seq<char>, p: int)
    requires
        pat.len() > 0,
        0 <= p <= t.len(),
        forall|k: int| 0 <= k < p ==> !#[trigger] chars_occur_at(t, pat, k),
    ensures
        spec_replace(t, pat, rep) == t.subrange(0, p) + spec_replace(t.skip(p), pat, rep),
    decreases p,
{
    if p == 0 {
        assert(t.skip(0) =~= t);
        assert(t.subrange(0, 0) + t =~= t);
    } else if t.len() < pat.len() {
        assert(t.skip(p).len() < pat.len());
        assert(t.subrange(0, p) + t.skip(p) =~= t);
    } else {
        assert(!chars_occur_at(t, pat, 0));
        assert(t.subrange(0, pat.len() as int) != pat);
        let u = t.drop_first();
        assert forall|k: int| 0 <= k < p - 1 implies !#[trigger] chars_occur_at(u, pat, k) by {
            assert(!chars_occur_at(t, pat, k + 1));
            if chars_occur_at(u, pat, k) {
                assert(u.subrange(k, k + pat.len()) =~= t.subrange(k + 1, k + 1 + pat.len()));
            }
        }
        lemma_replace_no_match_prefix(u, pat, rep, p - 1);
        assert(u.skip(p - 1) =~= t.skip(p));
        assert(t.subrange(0, p) =~= seq![t[0]] + u.subrange(0, p - 1));
        assert(seq![t[0]] + (u.subrange(0, p - 1) + spec_replace(t.skip(p), pat, rep)) =~= t.subrange(0, p) + spec_replace(t.skip(p), pat, rep));
    }
}

} // verus!
