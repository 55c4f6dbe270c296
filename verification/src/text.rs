//! Character-level text primitives with their specifications.
//!
//! Strings are modelled by their character sequences (`Seq<char>`); byte
//! offsets are related to characters through the UTF-8 width of each char.

use vstd::prelude::*;

verus! {

/// `String::push` appends one character to the end of the string.
pub assume_specification[ String::push ](s: &mut String, ch: char)
    ensures
        final(s)@ == old(s)@.push(ch),
;

/// Number of bytes that the UTF-8 encoding of `c` takes.
pub open spec fn char_width(c: char) -> nat {
    if (c as u32) < 0x80 {
        1
    } else if (c as u32) < 0x800 {
        2
    } else if (c as u32) < 0x10000 {
        3
    } else {
        4
    }
}

/// Number of bytes of the UTF-8 encoding of a character sequence.
pub open spec fn byte_len(s: Seq<char>) -> nat
    decreases s.len(),
{
    if s.len() == 0 {
        0
    } else {
        char_width(s[0]) + byte_len(s.drop_first())
    }
}

/// The byte length of a concatenation is the sum of the byte lengths.
pub proof fn lemma_byte_len_concat(a: Seq<char>, b: Seq<char>)
    ensures
        byte_len(a + b) == byte_len(a) + byte_len(b),
    decreases a.len(),
{
    if a.len() == 0 {
        assert(a + b =~= b);
    } else {
        assert((a + b).drop_first() =~= a.drop_first() + b);
        lemma_byte_len_concat(a.drop_first(), b);
    }
}

/// Appending one character adds its width.
pub proof fn lemma_byte_len_push(a: Seq<char>, c: char)
    ensures
        byte_len(a.push(c)) == byte_len(a) + char_width(c),
{
    reveal_with_fuel(byte_len, 2);
    lemma_byte_len_concat(a, seq![c]);
    assert(a.push(c) =~= a + seq![c]);
    assert(seq![c].drop_first() =~= Seq::<char>::empty());
}

/// `byte_len` agrees with the length of vstd's UTF-8 encoding.
pub proof fn lemma_byte_len_encode(s: Seq<char>)
    ensures
        byte_len(s) == vstd::utf8::encode_utf8(s).len(),
    decreases s.len(),
{
    if s.len() > 0 {
        vstd::utf8::char_is_scalar(s[0]);
        lemma_byte_len_encode(s.drop_first());
    }
}

/// `str::len`: the length of a string slice in bytes, that is the length of
/// its UTF-8 encoding. The contract states that length exactly (vstd states it
/// only modulo the width of `usize`); a string held in memory always fits.
#[verifier::external_body]
pub(crate) fn str_byte_len(s: &str) -> (n: usize)
    ensures
        n == byte_len(s@),
{
    s.len()
}

/// UTF-8 width of a character, as `char::len_utf8` computes it.
pub fn char_len_utf8(c: char) -> (n: usize)
    ensures
        n == char_width(c),
{
    let v = c as u32;
    if v < 0x80 {
        1
    } else if v < 0x800 {
        2
    } else if v < 0x10000 {
        3
    } else {
        4
    }
}

/// The characters of a string slice, in order.
pub fn chars_of(s: &str) -> (v: Vec<char>)
    ensures
        v@ == s@,
{
    let mut v: Vec<char> = Vec::new();
    for c in it: s.chars()
        invariant
            v@ == it.seq().take(it.index() as int),
    {
        v.push(c);
    }
    v
}

/// A string made of the given characters.
pub fn string_of(cs: &[char]) -> (s: String)
    ensures
        s@ == cs@,
{
    let mut s = String::new();
    let mut i: usize = 0;
    while i < cs.len()
        invariant
            i <= cs.len(),
            s@ == cs@.take(i as int),
        decreases cs.len() - i,
    {
        s.push(cs[i]);
        assert(cs@.take(i + 1) =~= cs@.take(i as int).push(cs@[i as int]));
        i += 1;
    }
    assert(cs@.take(cs.len() as int) =~= cs@);
    s
}


// ---------------------------------------------------------------------------
// Unicode properties that std computes from its tables
// ---------------------------------------------------------------------------

/// Whether a character has the Unicode `White_Space` property: the ASCII
/// tab, line feed, vertical tab, form feed, carriage return and space, the
/// next line and no-break space controls, the Ogham space mark, the spaces
/// from en quad to hair space, the line and paragraph separators, the narrow
/// no-break space, the medium mathematical space and the ideographic space.
pub open spec fn is_white_space(c: char) -> bool {
    ('\u{9}' <= c <= '\u{d}')
        || c == ' '
        || c == '\u{85}'
        || c == '\u{a0}'
        || c == '\u{1680}'
        || ('\u{2000}' <= c <= '\u{200a}')
        || c == '\u{2028}'
        || c == '\u{2029}'
        || c == '\u{202f}'
        || c == '\u{205f}'
        || c == '\u{3000}'
}

/// Whether a character is alphabetic or numeric in Unicode, as
/// `char::is_alphanumeric` decides it.
pub uninterp spec fn is_alnum(c: char) -> bool;

/// The lowercase mapping of a whole string, as `str::to_lowercase` computes it.
pub uninterp spec fn lowercase(s: Seq<char>) -> Seq<char>;

/// `char::is_whitespace`, which its documentation defines as Unicode's
/// `White_Space` property: the answer is `is_white_space` of the char.
#[verifier::external_body]
pub(crate) fn char_is_whitespace(c: char) -> (b: bool)
    ensures
        b == is_white_space(c),
{
    c.is_whitespace()
}

/// `char::is_alphanumeric`; the answer is the name `is_alnum` of the char.
#[verifier::external_body]
pub(crate) fn char_is_alphanumeric(c: char) -> (b: bool)
    ensures
        b == is_alnum(c),
{
    c.is_alphanumeric()
}

/// `str::to_lowercase`; the result is the name `lowercase` of the input's
/// characters. Unicode case mapping (which may change lengths) is not stated.
#[verifier::external_body]
pub(crate) fn str_to_lowercase(s: &str) -> (r: String)
    ensures
        r@ == lowercase(s@),
{
    s.to_lowercase()
}

// ---------------------------------------------------------------------------
// Character classes, spans and scans
// ---------------------------------------------------------------------------

/// Classes of characters that the library trims, splits or searches by.
#[derive(Clone, Copy, PartialEq, Eq, Debug)]
pub enum CharClass {
    Whitespace,
    Newline,
    Underscore,
    NewlineOrDash,
    Space,
    NotSpace,
    Slash,
}

/// The predicate that a character class stands for.
pub open spec fn class_pred(k: CharClass) -> spec_fn(char) -> bool {
    match k {
        CharClass::Whitespace => |c: char| is_white_space(c),
        CharClass::Newline => |c: char| c == '\n',
        CharClass::Underscore => |c: char| c == '_',
        CharClass::NewlineOrDash => |c: char| c == '\n' || c == '-',
        CharClass::Space => |c: char| c == ' ',
        CharClass::NotSpace => |c: char| c != ' ',
        CharClass::Slash => |c: char| c == '/',
    }
}

/// Whether `c` belongs to class `k`.
pub fn in_class(k: CharClass, c: char) -> (b: bool)
    ensures
        b == class_pred(k)(c),
{
    match k {
        CharClass::Whitespace => char_is_whitespace(c),
        CharClass::Newline => c == '\n',
        CharClass::Underscore => c == '_',
        CharClass::NewlineOrDash => c == '\n' || c == '-',
        CharClass::Space => c == ' ',
        CharClass::NotSpace => c != ' ',
        CharClass::Slash => c == '/',
    }
}

/// Number of leading characters of `s` that satisfy `p`.
pub open spec fn span(s: Seq<char>, p: spec_fn(char) -> bool) -> nat
    decreases s.len(),
{
    if s.len() == 0 {
        0
    } else if p(s[0]) {
        1 + span(s.drop_first(), p)
    } else {
        0
    }
}

/// Number of trailing characters of `s` that satisfy `p`.
pub open spec fn rspan(s: Seq<char>, p: spec_fn(char) -> bool) -> nat
    decreases s.len(),
{
    if s.len() == 0 {
        0
    } else if p(s.last()) {
        1 + rspan(s.drop_last(), p)
    } else {
        0
    }
}

pub proof fn lemma_rspan_le(s: Seq<char>, p: spec_fn(char) -> bool)
    ensures
        rspan(s, p) <= s.len(),
        rspan(s, p) < s.len() ==> !p(s[s.len() - 1 - rspan(s, p)]),
    decreases s.len(),
{
    if s.len() > 0 && p(s.last()) {
        lemma_rspan_le(s.drop_last(), p);
    }
}

pub proof fn lemma_span_le(s: Seq<char>, p: spec_fn(char) -> bool)
    ensures
        span(s, p) <= s.len(),
        span(s, p) < s.len() ==> !p(s[span(s, p) as int]),
    decreases s.len(),
{
    if s.len() > 0 && p(s[0]) {
        lemma_span_le(s.drop_first(), p);
    }
}

/// Index of the first character of `s` that satisfies `p`, or `s.len()`.
pub open spec fn scan(s: Seq<char>, p: spec_fn(char) -> bool) -> nat
    decreases s.len(),
{
    if s.len() == 0 {
        0
    } else if p(s[0]) {
        0
    } else {
        1 + scan(s.drop_first(), p)
    }
}

/// `s` without its leading characters that satisfy `p`.
pub open spec fn trim_start_by(s: Seq<char>, p: spec_fn(char) -> bool) -> Seq<char> {
    s.skip(span(s, p) as int)
}

/// `s` without its trailing characters that satisfy `p`.
pub open spec fn trim_end_by(s: Seq<char>, p: spec_fn(char) -> bool) -> Seq<char> {
    s.take(s.len() - rspan(s, p))
}

/// `s` without leading and trailing characters that satisfy `p`.
pub open spec fn trim_by(s: Seq<char>, p: spec_fn(char) -> bool) -> Seq<char> {
    trim_end_by(trim_start_by(s, p), p)
}

/// `str::trim`: no leading or trailing white space.
pub open spec fn trim(s: Seq<char>) -> Seq<char> {
    trim_by(s, class_pred(CharClass::Whitespace))
}

pub proof fn lemma_span(s: Seq<char>, p: spec_fn(char) -> bool, i: int)
    requires
        0 <= i <= s.len(),
        forall|k: int| 0 <= k < i ==> p(#[trigger] s[k]),
        i == s.len() || !p(s[i]),
    ensures
        span(s, p) == i,
    decreases i,
{
    if i > 0 {
        let t = s.drop_first();
        assert forall|k: int| 0 <= k < i - 1 implies p(#[trigger] t[k]) by {
            assert(t[k] == s[k + 1]);
        }
        if i < s.len() {
            assert(t[i - 1] == s[i]);
        }
        lemma_span(t, p, i - 1);
    }
}

pub proof fn lemma_scan(s: Seq<char>, p: spec_fn(char) -> bool, i: int)
    requires
        0 <= i <= s.len(),
        forall|k: int| 0 <= k < i ==> !p(#[trigger] s[k]),
        i == s.len() || p(s[i]),
    ensures
        scan(s, p) == i,
    decreases i,
{
    if i > 0 {
        let t = s.drop_first();
        assert forall|k: int| 0 <= k < i - 1 implies !p(#[trigger] t[k]) by {
            assert(t[k] == s[k + 1]);
        }
        if i < s.len() {
            assert(t[i - 1] == s[i]);
        }
        lemma_scan(t, p, i - 1);
    }
}

pub proof fn lemma_rspan(s: Seq<char>, p: spec_fn(char) -> bool, j: int)
    requires
        0 <= j <= s.len(),
        forall|k: int| j <= k < s.len() ==> p(#[trigger] s[k]),
        j == 0 || !p(s[j - 1]),
    ensures
        rspan(s, p) == s.len() - j,
    decreases s.len() - j,
{
    if j < s.len() {
        let t = s.drop_last();
        assert forall|k: int| j <= k < t.len() implies p(#[trigger] t[k]) by {
            assert(t[k] == s[k]);
        }
        if j > 0 {
            assert(t[j - 1] == s[j - 1]);
        }
        lemma_rspan(t, p, j);
    }
}

/// Characters `lo..` of `v` up to the first one in class `k` (or `hi`).
pub fn scan_in(v: &[char], lo: usize, hi: usize, k: CharClass) -> (i: usize)
    requires
        lo <= hi <= v@.len(),
    ensures
        lo <= i <= hi,
        i - lo == scan(v@.subrange(lo as int, hi as int), class_pred(k)),
{
    let mut i = lo;
    while i < hi && !in_class(k, v[i])
        invariant
            lo <= i <= hi <= v@.len(),
            forall|q: int| lo <= q < i ==> !class_pred(k)(#[trigger] v@[q]),
        decreases hi - i,
    {
        i += 1;
    }
    proof {
        let s = v@.subrange(lo as int, hi as int);
        assert forall|q: int| 0 <= q < i - lo implies !class_pred(k)(#[trigger] s[q]) by {
            assert(s[q] == v@[lo + q]);
        }
        lemma_scan(s, class_pred(k), i - lo);
    }
    i
}

/// Number of leading characters of `v[lo..hi]` in class `k`.
pub fn span_in(v: &[char], lo: usize, hi: usize, k: CharClass) -> (n: usize)
    requires
        lo <= hi <= v@.len(),
    ensures
        lo + n <= hi,
        n == span(v@.subrange(lo as int, hi as int), class_pred(k)),
{
    let mut i = lo;
    while i < hi && in_class(k, v[i])
        invariant
            lo <= i <= hi <= v@.len(),
            forall|q: int| lo <= q < i ==> class_pred(k)(#[trigger] v@[q]),
        decreases hi - i,
    {
        i += 1;
    }
    proof {
        let s = v@.subrange(lo as int, hi as int);
        assert forall|q: int| 0 <= q < i - lo implies class_pred(k)(#[trigger] s[q]) by {
            assert(s[q] == v@[lo + q]);
        }
        lemma_span(s, class_pred(k), i - lo);
    }
    i - lo
}

/// Number of trailing characters of `v[lo..hi]` in class `k`.
pub fn rspan_in(v: &[char], lo: usize, hi: usize, k: CharClass) -> (n: usize)
    requires
        lo <= hi <= v@.len(),
    ensures
        lo + n <= hi,
        n == rspan(v@.subrange(lo as int, hi as int), class_pred(k)),
{
    let mut j = hi;
    while j > lo && in_class(k, v[j - 1])
        invariant
            lo <= j <= hi <= v@.len(),
            forall|q: int| j <= q < hi ==> class_pred(k)(#[trigger] v@[q]),
        decreases j - lo,
    {
        j -= 1;
    }
    proof {
        let s = v@.subrange(lo as int, hi as int);
        assert forall|q: int| j - lo <= q < s.len() implies class_pred(k)(#[trigger] s[q]) by {
            assert(s[q] == v@[lo + q]);
        }
        if j > lo {
            assert(s[j - lo - 1] == v@[j - 1]);
        }
        lemma_rspan(s, class_pred(k), j - lo);
    }
    hi - j
}

/// Bounds of `v[lo..hi]` with leading and trailing class-`k` characters removed.
pub fn trim_range(v: &[char], lo: usize, hi: usize, k: CharClass) -> (r: (usize, usize))
    requires
        lo <= hi <= v@.len(),
    ensures
        lo <= r.0 <= r.1 <= hi,
        v@.subrange(r.0 as int, r.1 as int) == trim_by(v@.subrange(lo as int, hi as int), class_pred(k)),
{
    let a = lo + span_in(v, lo, hi, k);
    let n = rspan_in(v, a, hi, k);
    let b = hi - n;
    proof {
        let s = v@.subrange(lo as int, hi as int);
        assert(trim_start_by(s, class_pred(k)) =~= v@.subrange(a as int, hi as int));
        assert(v@.subrange(a as int, hi as int).take(hi - a - n) =~= v@.subrange(a as int, b as int));
    }
    (a, b)
}

/// `str::trim` on a string.
pub fn trim_str(s: &str) -> (r: String)
    ensures
        r@ == trim(s@),
{
    let v = chars_of(s);
    let (a, b) = trim_range(v.as_slice(), 0, v.len(), CharClass::Whitespace);
    assert(v@.subrange(0, v@.len() as int) =~= v@);
    string_of(slice_range(v.as_slice(), a, b))
}

/// The characters `lo..hi` of a slice.
pub fn slice_range(v: &[char], lo: usize, hi: usize) -> (r: &[char])
    requires
        lo <= hi <= v@.len(),
    ensures
        r@ == v@.subrange(lo as int, hi as int),
{
    let (left, _) = v.split_at(hi);
    let (_, mid) = left.split_at(lo);
    mid
}


// ---------------------------------------------------------------------------
// Lines and words
// ---------------------------------------------------------------------------

/// A line without the carriage return that may end it.
pub open spec fn strip_cr(l: Seq<char>) -> Seq<char> {
    if l.len() > 0 && l.last() == '\r' {
        l.drop_last()
    } else {
        l
    }
}

pub proof fn lemma_scan_le(s: Seq<char>, p: spec_fn(char) -> bool)
    ensures
        scan(s, p) <= s.len(),
        scan(s, p) < s.len() ==> p(s[scan(s, p) as int]),
        forall|k: int| 0 <= k < scan(s, p) ==> !p(#[trigger] s[k]),
    decreases s.len(),
{
    if s.len() > 0 && !p(s[0]) {
        lemma_scan_le(s.drop_first(), p);
        let t = s.drop_first();
        assert forall|k: int| 0 <= k < scan(s, p) implies !p(#[trigger] s[k]) by {
            if k > 0 {
                assert(s[k] == t[k - 1]);
            }
        }
    }
}

/// `str::lines`: the text split at each `\n`, each line without its `\n`
/// and without a `\r` just before it; a final `\n` opens no further line.
pub open spec fn lines(s: Seq<char>) -> Seq<Seq<char>>
    decreases s.len(),
{
    if s.len() == 0 {
        seq![]
    } else {
        let i = scan(s, class_pred(CharClass::Newline));
        if i < s.len() {
            seq![strip_cr(s.take(i as int))] + lines(s.skip(i + 1 as int))
        } else {
            seq![s]
        }
    }
}

/// `str::split_whitespace`: the maximal runs of characters that are not
/// white space.
pub open spec fn words(s: Seq<char>) -> Seq<Seq<char>>
    decreases s.len(),
{
    if s.len() == 0 {
        seq![]
    } else if is_white_space(s[0]) {
        words(s.drop_first())
    } else {
        let i = scan(s, class_pred(CharClass::Whitespace));
        if 0 < i <= s.len() {
            seq![s.take(i as int)] + words(s.skip(i as int))
        } else {
            seq![s]
        }
    }
}

/// Bounds `(start, end, next)` of each line of `v`: the line's characters are
/// `v[start..end]` and the following line starts at `next`.
pub fn line_bounds(v: &[char]) -> (r: Vec<(usize, usize, usize)>)
    ensures
        r@.len() == lines(v@).len(),
        forall|k: int|
            0 <= k < r@.len() ==> {
                &&& (#[trigger] r@[k]).0 <= r@[k].1 <= r@[k].2 <= v@.len()
                &&& v@.subrange(r@[k].0 as int, r@[k].1 as int) == lines(v@)[k]
            },
{
    let mut r: Vec<(usize, usize, usize)> = Vec::new();
    let mut pos: usize = 0;
    let n = v.len();
    let ghost full = lines(v@);
    assert(v@.skip(0) =~= v@);
    assert(r@.map_values(|b: (usize, usize, usize)| v@.subrange(b.0 as int, b.1 as int)) =~= Seq::<Seq<char>>::empty());
    while pos < n
        invariant
            n == v@.len(),
            pos <= n,
            full == lines(v@),
            full == r@.map_values(|b: (usize, usize, usize)| v@.subrange(b.0 as int, b.1 as int))
                + lines(v@.skip(pos as int)),
            forall|k: int|
                0 <= k < r@.len() ==> (#[trigger] r@[k]).0 <= r@[k].1 <= r@[k].2 <= pos,
        decreases n - pos,
    {
        let i = scan_in(v, pos, n, CharClass::Newline);
        let ghost rest = v@.skip(pos as int);
        assert(v@.subrange(pos as int, n as int) =~= rest);
        if i < n {
            let mut end = i;
            if end > pos && v[end - 1] == '\r' {
                end = end - 1;
            }
            proof {
                assert(rest.take(i - pos) =~= v@.subrange(pos as int, i as int));
                assert(strip_cr(rest.take(i - pos)) =~= v@.subrange(pos as int, end as int));
                assert(rest.skip(i - pos + 1) =~= v@.skip(i + 1));
            }
            let ghost old_r = r@;
            r.push((pos, end, i + 1));
            proof {
                assert(r@.map_values(|b: (usize, usize, usize)| v@.subrange(b.0 as int, b.1 as int))
                    =~= old_r.map_values(|b: (usize, usize, usize)| v@.subrange(b.0 as int, b.1 as int))
                        + seq![v@.subrange(pos as int, end as int)]);
            }
            pos = i + 1;
        } else {
            let ghost old_r = r@;
            r.push((pos, n, n));
            proof {
                assert(v@.subrange(pos as int, n as int) =~= rest);
                assert(r@.map_values(|b: (usize, usize, usize)| v@.subrange(b.0 as int, b.1 as int))
                    =~= old_r.map_values(|b: (usize, usize, usize)| v@.subrange(b.0 as int, b.1 as int))
                        + seq![rest]);
                assert(v@.skip(n as int) =~= Seq::<char>::empty());
            }
            pos = n;
        }
    }
    proof {
        assert(v@.skip(pos as int) =~= Seq::<char>::empty());
        assert(lines(v@.skip(pos as int)) =~= Seq::<Seq<char>>::empty());
        assert forall|k: int| 0 <= k < r@.len() implies
            v@.subrange((#[trigger] r@[k]).0 as int, r@[k].1 as int) == lines(v@)[k] by {
            assert(full[k] == r@.map_values(|b: (usize, usize, usize)| v@.subrange(b.0 as int, b.1 as int))[k]);
        }
    }
    r
}

/// Bounds `(start, end)` of each word (`str::split_whitespace`) of `v`.
pub fn word_bounds(v: &[char]) -> (r: Vec<(usize, usize)>)
    ensures
        r@.len() == words(v@).len(),
        forall|k: int|
            0 <= k < r@.len() ==> {
                &&& (#[trigger] r@[k]).0 <= r@[k].1 <= v@.len()
                &&& v@.subrange(r@[k].0 as int, r@[k].1 as int) == words(v@)[k]
            },
{
    let mut r: Vec<(usize, usize)> = Vec::new();
    let mut pos: usize = 0;
    let n = v.len();
    let ghost full = words(v@);
    assert(v@.skip(0) =~= v@);
    assert(r@.map_values(|b: (usize, usize)| v@.subrange(b.0 as int, b.1 as int)) =~= Seq::<Seq<char>>::empty());
    while pos < n
        invariant
            n == v@.len(),
            pos <= n,
            full == words(v@),
            full == r@.map_values(|b: (usize, usize)| v@.subrange(b.0 as int, b.1 as int))
                + words(v@.skip(pos as int)),
            forall|k: int| 0 <= k < r@.len() ==> (#[trigger] r@[k]).0 <= r@[k].1 <= pos,
        decreases n - pos,
    {
        let ghost rest = v@.skip(pos as int);
        if char_is_whitespace(v[pos]) {
            assert(rest.drop_first() =~= v@.skip(pos + 1));
            pos += 1;
        } else {
            let i = scan_in(v, pos, n, CharClass::Whitespace);
            proof {
                assert(v@.subrange(pos as int, n as int) =~= rest);
                lemma_scan_le(rest, class_pred(CharClass::Whitespace));
                assert(rest.take(i - pos) =~= v@.subrange(pos as int, i as int));
                assert(rest.skip(i - pos) =~= v@.skip(i as int));
            }
            let ghost old_r = r@;
            r.push((pos, i));
            proof {
                assert(r@.map_values(|b: (usize, usize)| v@.subrange(b.0 as int, b.1 as int))
                    =~= old_r.map_values(|b: (usize, usize)| v@.subrange(b.0 as int, b.1 as int))
                        + seq![v@.subrange(pos as int, i as int)]);
            }
            pos = i;
        }
    }
    proof {
        assert(v@.skip(pos as int) =~= Seq::<char>::empty());
        assert(words(v@.skip(pos as int)) =~= Seq::<Seq<char>>::empty());
        assert forall|k: int| 0 <= k < r@.len() implies
            v@.subrange((#[trigger] r@[k]).0 as int, r@[k].1 as int) == words(v@)[k] by {
            assert(full[k] == r@.map_values(|b: (usize, usize)| v@.subrange(b.0 as int, b.1 as int))[k]);
        }
    }
    r
}

// ---------------------------------------------------------------------------
// Searching for a pattern
// ---------------------------------------------------------------------------

/// `p` occurs in `s` at index `i`.
pub open spec fn matches_at(s: Seq<char>, p: Seq<char>, i: int) -> bool {
    0 <= i && i + p.len() <= s.len() && s.subrange(i, i + p.len()) == p
}

/// Index of the first occurrence of `p` in `s` at or after `i`, or -1.
pub open spec fn find_from(s: Seq<char>, p: Seq<char>, i: int) -> int
    decreases s.len() - i,
{
    if i < 0 || i >= s.len() || i + p.len() > s.len() {
        -1
    } else if matches_at(s, p, i) {
        i
    } else {
        find_from(s, p, i + 1)
    }
}

/// Index of the first occurrence of `p` in `s`, or -1 (`str::find`).
pub open spec fn find(s: Seq<char>, p: Seq<char>) -> int {
    find_from(s, p, 0)
}

/// `p` occurs somewhere in `s` (`str::contains`).
pub open spec fn contains(s: Seq<char>, p: Seq<char>) -> bool {
    find(s, p) >= 0
}

/// `s` begins with `p` (`str::starts_with`).
pub open spec fn starts_with(s: Seq<char>, p: Seq<char>) -> bool {
    p.len() <= s.len() && s.take(p.len() as int) == p
}

/// `s` ends with `p` (`str::ends_with`).
pub open spec fn ends_with(s: Seq<char>, p: Seq<char>) -> bool {
    p.len() <= s.len() && s.skip(s.len() - p.len()) == p
}

pub proof fn lemma_find_from_range(s: Seq<char>, p: Seq<char>, i: int)
    ensures
        find_from(s, p, i) == -1 || (i <= find_from(s, p, i) && matches_at(s, p, find_from(s, p, i))),
        find_from(s, p, i) >= 0 ==> forall|k: int| i <= k < find_from(s, p, i) ==> !matches_at(s, p, k),
    decreases s.len() - i,
{
    if !(i < 0 || i >= s.len() || i + p.len() > s.len()) && !matches_at(s, p, i) {
        lemma_find_from_range(s, p, i + 1);
    }
}

/// Whether `p` occurs in `v` at index `i`.
pub fn matches_at_exec(v: &[char], p: &[char], i: usize) -> (b: bool)
    ensures
        b == matches_at(v@, p@, i as int),
{
    if i > v.len() || p.len() > v.len() - i {
        return false;
    }
    let mut j: usize = 0;
    while j < p.len()
        invariant
            i + p@.len() <= v@.len(),
            v@.len() == v.len(),
            j <= p@.len(),
            forall|q: int| 0 <= q < j ==> v@[i + q] == p@[q],
        decreases p.len() - j,
    {
        if v[i + j] != p[j] {
            proof {
                assert(v@.subrange(i as int, i + p@.len())[j as int] == v@[i + j]);
            }
            return false;
        }
        j += 1;
    }
    assert(v@.subrange(i as int, i + p@.len()) =~= p@);
    true
}

/// First index at or after `from` where `p` occurs in `v`.
pub fn find_from_exec(v: &[char], p: &[char], from: usize) -> (r: Option<usize>)
    ensures
        match r {
            Some(i) => find_from(v@, p@, from as int) == i as int,
            None => find_from(v@, p@, from as int) == -1,
        },
{
    let mut i = from;
    while i < v.len() && p.len() <= v.len() - i
        invariant
            from <= i,
            find_from(v@, p@, from as int) == find_from(v@, p@, i as int),
        decreases v.len() - i,
    {
        if matches_at_exec(v, p, i) {
            return Some(i);
        }
        i += 1;
    }
    None
}

/// `str::contains` on character slices.
pub fn contains_exec(v: &[char], p: &[char]) -> (b: bool)
    ensures
        b == contains(v@, p@),
{
    find_from_exec(v, p, 0).is_some()
}

/// `str::starts_with` on character slices.
pub fn starts_with_exec(v: &[char], p: &[char]) -> (b: bool)
    ensures
        b == starts_with(v@, p@),
{
    if p.len() > v.len() {
        return false;
    }
    let b = matches_at_exec(v, p, 0);
    assert(v@.subrange(0, p@.len() as int) =~= v@.take(p@.len() as int));
    b
}

/// `str::ends_with` on character slices.
pub fn ends_with_exec(v: &[char], p: &[char]) -> (b: bool)
    ensures
        b == ends_with(v@, p@),
{
    if p.len() > v.len() {
        return false;
    }
    let b = matches_at_exec(v, p, v.len() - p.len());
    assert(v@.subrange(v@.len() - p@.len(), v@.len() as int) =~= v@.skip(v@.len() - p@.len()));
    b
}

/// `str::split` by a non-empty pattern: the pieces between the
/// non-overlapping occurrences of `p`, found from the left.
pub open spec fn split_pat(s: Seq<char>, p: Seq<char>) -> Seq<Seq<char>>
    decreases s.len(),
{
    if p.len() == 0 {
        seq![s]
    } else {
        let i = find(s, p);
        if 0 <= i && i + p.len() <= s.len() {
            seq![s.take(i)] + split_pat(s.skip(i + p.len()), p)
        } else {
            seq![s]
        }
    }
}

/// Bounds `(start, end)` of the pieces of `v` split by the non-empty `p`.
pub fn split_bounds(v: &[char], p: &[char]) -> (r: Vec<(usize, usize)>)
    requires
        p@.len() > 0,
    ensures
        r@.len() == split_pat(v@, p@).len(),
        forall|k: int|
            0 <= k < r@.len() ==> {
                &&& (#[trigger] r@[k]).0 <= r@[k].1 <= v@.len()
                &&& v@.subrange(r@[k].0 as int, r@[k].1 as int) == split_pat(v@, p@)[k]
            },
{
    let mut r: Vec<(usize, usize)> = Vec::new();
    let mut pos: usize = 0;
    let n = v.len();
    let ghost full = split_pat(v@, p@);
    assert(v@.skip(0) =~= v@);
    assert(r@.map_values(|b: (usize, usize)| v@.subrange(b.0 as int, b.1 as int)) =~= Seq::<Seq<char>>::empty());
    loop
        invariant
            n == v@.len(),
            p@.len() > 0,
            pos <= n,
            full == split_pat(v@, p@),
            full == r@.map_values(|b: (usize, usize)| v@.subrange(b.0 as int, b.1 as int))
                + split_pat(v@.skip(pos as int), p@),
            forall|k: int| 0 <= k < r@.len() ==> (#[trigger] r@[k]).0 <= r@[k].1 <= pos,
        decreases n - pos,
    {
        let ghost rest = v@.skip(pos as int);
        let f = find_from_exec(v, p, pos);
        proof {
            lemma_find_shift(v@, p@, pos as int);
        }
        match f {
            Some(i) => {
                proof {
                    lemma_find_from_range(v@, p@, pos as int);
                    assert(rest.take(i - pos) =~= v@.subrange(pos as int, i as int));
                    assert(rest.skip(i - pos + p@.len()) =~= v@.skip(i + p@.len()));
                }
                let ghost old_r = r@;
                r.push((pos, i));
                proof {
                    assert(r@.map_values(|b: (usize, usize)| v@.subrange(b.0 as int, b.1 as int))
                        =~= old_r.map_values(|b: (usize, usize)| v@.subrange(b.0 as int, b.1 as int))
                            + seq![v@.subrange(pos as int, i as int)]);
                }
                pos = i + p.len();
            },
            None => {
                let ghost old_r = r@;
                r.push((pos, n));
                proof {
                    assert(v@.subrange(pos as int, n as int) =~= rest);
                    assert(r@.map_values(|b: (usize, usize)| v@.subrange(b.0 as int, b.1 as int))
                        =~= old_r.map_values(|b: (usize, usize)| v@.subrange(b.0 as int, b.1 as int))
                            + seq![rest]);
                    assert forall|k: int| 0 <= k < r@.len() implies
                        v@.subrange((#[trigger] r@[k]).0 as int, r@[k].1 as int) == split_pat(v@, p@)[k] by {
                        assert(full[k] == r@.map_values(|b: (usize, usize)| v@.subrange(b.0 as int, b.1 as int))[k]);
                    }
                }
                return r;
            },
        }
    }
}

/// Searching a suffix is searching the whole text from the suffix's start.
pub proof fn lemma_find_shift(s: Seq<char>, p: Seq<char>, pos: int)
    requires
        0 <= pos <= s.len(),
    ensures
        find(s.skip(pos), p) == if find_from(s, p, pos) < 0 { -1 } else { find_from(s, p, pos) - pos },
    decreases s.len() - pos,
{
    lemma_find_shift_from(s, p, pos, 0);
}

proof fn lemma_find_shift_from(s: Seq<char>, p: Seq<char>, pos: int, j: int)
    requires
        0 <= pos <= s.len(),
        0 <= j,
    ensures
        find_from(s.skip(pos), p, j) == if find_from(s, p, pos + j) < 0 { -1 } else { find_from(s, p, pos + j) - pos },
    decreases s.len() - pos - j,
{
    let t = s.skip(pos);
    if j >= t.len() || j + p.len() > t.len() {
    } else {
        assert(t.subrange(j, j + p.len()) =~= s.subrange(pos + j, pos + j + p.len()));
        if !matches_at(t, p, j) {
            lemma_find_shift_from(s, p, pos, j + 1);
        }
    }
}


// ---------------------------------------------------------------------------
// Byte offsets
// ---------------------------------------------------------------------------

pub proof fn lemma_byte_len_take(s: Seq<char>, k: int)
    requires
        0 <= k < s.len(),
    ensures
        byte_len(s.take(k + 1)) == byte_len(s.take(k)) + char_width(s[k]),
        byte_len(s.take(k)) < byte_len(s.take(k + 1)),
{
    assert(s.take(k + 1) =~= s.take(k).push(s[k]));
    lemma_byte_len_push(s.take(k), s[k]);
}

pub proof fn lemma_byte_len_take_mono(s: Seq<char>, j: int, k: int)
    requires
        0 <= j <= k <= s.len(),
    ensures
        byte_len(s.take(j)) <= byte_len(s.take(k)),
        j < k ==> byte_len(s.take(j)) < byte_len(s.take(k)),
    decreases k - j,
{
    if j < k {
        lemma_byte_len_take(s, k - 1);
        lemma_byte_len_take_mono(s, j, k - 1);
    }
}

/// Byte offset `b` falls between two characters of `s` (or at either end).
pub open spec fn char_boundary(s: Seq<char>, b: int) -> bool {
    exists|k: int| 0 <= k <= s.len() && byte_len(s.take(k)) == b
}

/// Number of characters that the first `b` bytes of `s` hold, when `b` is a
/// character boundary.
pub open spec fn chars_in_bytes(s: Seq<char>, b: int) -> int {
    choose|k: int| 0 <= k <= s.len() && byte_len(s.take(k)) == b
}

/// The text of the first `b` bytes of `s` (`&s[..b]`).
pub open spec fn byte_prefix(s: Seq<char>, b: int) -> Seq<char> {
    s.take(chars_in_bytes(s, b))
}

/// The text after the first `b` bytes of `s` (`&s[b..]`).
pub open spec fn byte_suffix(s: Seq<char>, b: int) -> Seq<char> {
    s.skip(chars_in_bytes(s, b))
}

pub proof fn lemma_chars_in_bytes(s: Seq<char>, k: int)
    requires
        0 <= k <= s.len(),
    ensures
        char_boundary(s, byte_len(s.take(k)) as int),
        chars_in_bytes(s, byte_len(s.take(k)) as int) == k,
{
    let b = byte_len(s.take(k)) as int;
    assert(0 <= k <= s.len() && byte_len(s.take(k)) == b);
    let c = chars_in_bytes(s, b);
    if c < k {
        lemma_byte_len_take_mono(s, c, k);
    } else if c > k {
        lemma_byte_len_take_mono(s, k, c);
    }
}

/// Number of characters of `v` that fill exactly `nbytes` bytes, if
/// `nbytes` is a character boundary of `v`.
pub fn chars_for_bytes(v: &[char], nbytes: usize) -> (r: Option<usize>)
    ensures
        match r {
            Some(k) => k <= v@.len() && byte_len(v@.take(k as int)) == nbytes
                && char_boundary(v@, nbytes as int) && chars_in_bytes(v@, nbytes as int) == k,
            None => !char_boundary(v@, nbytes as int),
        },
{
    let mut k: usize = 0;
    let mut acc: usize = 0;
    assert(v@.take(0) =~= Seq::<char>::empty());
    while k < v.len() && acc < nbytes
        invariant
            k <= v@.len(),
            acc == byte_len(v@.take(k as int)),
            acc <= nbytes + 3,
            forall|j: int| 0 <= j < k ==> byte_len(#[trigger] v@.take(j)) < nbytes,
        decreases v@.len() - k,
    {
        let w = char_len_utf8(v[k]);
        proof {
            lemma_byte_len_take(v@, k as int);
        }
        if w > nbytes - acc {
            proof {
                assert forall|j: int| 0 <= j <= v@.len() implies byte_len(#[trigger] v@.take(j)) != nbytes by {
                    if j <= k {
                        if j < k {
                            assert(byte_len(v@.take(j)) < nbytes);
                        }
                    } else {
                        lemma_byte_len_take_mono(v@, k + 1, j);
                    }
                }
            }
            return None;
        }
        acc = acc + w;
        k = k + 1;
    }
    if acc == nbytes {
        proof {
            lemma_chars_in_bytes(v@, k as int);
        }
        Some(k)
    } else {
        proof {
            assert forall|j: int| 0 <= j <= v@.len() implies byte_len(#[trigger] v@.take(j)) != nbytes by {
                if j < k {
                } else if j == k {
                } else {
                    lemma_byte_len_take_mono(v@, k as int, j);
                }
            }
        }
        None
    }
}

// ---------------------------------------------------------------------------
// Decimal numbers
// ---------------------------------------------------------------------------

/// The ASCII digit for `d < 10`.
pub open spec fn digit_char(d: nat) -> char {
    if d == 0 { '0' } else if d == 1 { '1' } else if d == 2 { '2' } else if d == 3 { '3' }
    else if d == 4 { '4' } else if d == 5 { '5' } else if d == 6 { '6' } else if d == 7 { '7' }
    else if d == 8 { '8' } else { '9' }
}

/// Decimal representation of `n` without leading zeros (`format!("{}", n)`).
pub open spec fn decimal(n: nat) -> Seq<char>
    decreases n,
{
    if n < 10 {
        seq![digit_char(n)]
    } else {
        decimal(n / 10).push(digit_char(n % 10))
    }
}

/// `decimal(n)` left-padded with zeros to at least `width` characters
/// (`format!("{:0width$}", n)`).
pub open spec fn zero_padded(n: nat, width: nat) -> Seq<char> {
    let d = decimal(n);
    if d.len() >= width {
        d
    } else {
        Seq::new((width - d.len()) as nat, |i: int| '0') + d
    }
}

fn digit_exec(d: u64) -> (c: char)
    requires
        d < 10,
    ensures
        c == digit_char(d as nat),
{
    if d == 0 { '0' } else if d == 1 { '1' } else if d == 2 { '2' } else if d == 3 { '3' }
    else if d == 4 { '4' } else if d == 5 { '5' } else if d == 6 { '6' } else if d == 7 { '7' }
    else if d == 8 { '8' } else { '9' }
}

/// `format!("{}", n)` for an unsigned integer.
pub fn decimal_string(n: u64) -> (s: String)
    ensures
        s@ == decimal(n as nat),
{
    let mut rev: Vec<char> = Vec::new();
    let mut m = n;
    while m >= 10
        invariant
            decimal(n as nat) == decimal(m as nat) + rev@.reverse(),
        decreases m,
    {
        let ghost old_rev = rev@;
        rev.push(digit_exec(m % 10));
        proof {
            assert(rev@.reverse() =~= seq![digit_char((m % 10) as nat)] + old_rev.reverse());
            assert(decimal(m as nat) == decimal((m / 10) as nat).push(digit_char((m % 10) as nat)));
            assert(decimal((m / 10) as nat).push(digit_char((m % 10) as nat)) + old_rev.reverse()
                =~= decimal((m / 10) as nat) + rev@.reverse());
        }
        m = m / 10;
    }
    let ghost old_rev = rev@;
    rev.push(digit_exec(m));
    proof {
        assert(rev@.reverse() =~= seq![digit_char(m as nat)] + old_rev.reverse());
    }
    let mut s = String::new();
    let mut i = rev.len();
    while i > 0
        invariant
            i <= rev@.len(),
            s@ == rev@.reverse().take(rev@.len() - i),
        decreases i,
    {
        i -= 1;
        s.push(rev[i]);
        assert(rev@.reverse().take(rev@.len() - i) =~= rev@.reverse().take(rev@.len() - i - 1).push(rev@[i as int]));
    }
    assert(rev@.reverse().take(rev@.len() as int) =~= rev@.reverse());
    s
}

/// `format!("{:0width$}", n)` for an unsigned integer.
pub fn zero_padded_string(n: u64, width: usize) -> (s: String)
    ensures
        s@ == zero_padded(n as nat, width as nat),
{
    let d = decimal_string(n);
    let dv = chars_of(d.as_str());
    if dv.len() >= width {
        return d;
    }
    let mut s = String::new();
    let mut i: usize = 0;
    let pad = width - dv.len();
    while i < pad
        invariant
            i <= pad,
            s@ == Seq::new(i as nat, |j: int| '0'),
        decreases pad - i,
    {
        s.push('0');
        assert(s@ =~= Seq::new((i + 1) as nat, |j: int| '0'));
        i += 1;
    }
    s.append(d.as_str());
    s
}

/// The value of a sequence of ASCII digits.
pub open spec fn digits_value(s: Seq<char>) -> nat
    decreases s.len(),
{
    if s.len() == 0 {
        0
    } else {
        digits_value(s.drop_last()) * 10 + ((s.last() as u32) - 48) as nat
    }
}

/// All characters are ASCII digits.
pub open spec fn all_digits(s: Seq<char>) -> bool {
    forall|i: int| 0 <= i < s.len() ==> '0' <= #[trigger] s[i] <= '9'
}

/// `str::parse::<u64>`: an optional `+`, then one or more ASCII digits whose
/// value fits in a `u64`.
pub open spec fn parse_u64(s: Seq<char>) -> Option<u64> {
    let d = if s.len() > 0 && s[0] == '+' { s.drop_first() } else { s };
    if d.len() > 0 && all_digits(d) && digits_value(d) <= u64::MAX {
        Some(digits_value(d) as u64)
    } else {
        None
    }
}

/// `str::parse::<u64>` on a character slice.
pub fn parse_u64_exec(v: &[char]) -> (r: Option<u64>)
    ensures
        r == parse_u64(v@),
{
    let mut start: usize = 0;
    if v.len() > 0 && v[0] == '+' {
        start = 1;
    }
    let ghost d = if v@.len() > 0 && v@[0] == '+' { v@.drop_first() } else { v@ };
    assert(d =~= v@.skip(start as int));
    if start == v.len() {
        return None;
    }
    let mut acc: u64 = 0;
    let mut i = start;
    assert(v@.subrange(start as int, start as int) =~= Seq::<char>::empty());
    while i < v.len()
        invariant
            start <= i <= v@.len(),
            d =~= v@.skip(start as int),
            d == (if v@.len() > 0 && v@[0] == '+' { v@.drop_first() } else { v@ }),
            acc as nat == digits_value(v@.subrange(start as int, i as int)),
            all_digits(v@.subrange(start as int, i as int)),
        decreases v@.len() - i,
    {
        let c = v[i];
        let ghost pre = v@.subrange(start as int, i as int);
        let ghost next = v@.subrange(start as int, i + 1);
        assert(next.drop_last() =~= pre);
        assert(d[i - start] == v@[i as int]);
        if c < '0' || c > '9' {
            proof {
                assert(d[i - start] == c);
                assert(!all_digits(d));
            }
            return None;
        }
        let dg = (c as u32 - 48) as u64;
        if acc > (u64::MAX - dg) / 10 {
            proof {
                assert(all_digits(next));
                assert(digits_value(next) == acc * 10 + dg);
                assert(digits_value(next) > u64::MAX) by (nonlinear_arith)
                    requires acc > (u64::MAX - dg) / 10, dg < 10, digits_value(next) == acc * 10 + dg;
                if all_digits(d) {
                    lemma_digits_prefix_bound(d, (i + 1 - start) as int);
                    assert(d.take((i + 1 - start) as int) =~= next);
                }
            }
            return None;
        }
        acc = acc * 10 + dg;
        i += 1;
    }
    assert(v@.subrange(start as int, v@.len() as int) =~= d);
    Some(acc)
}

/// A digit string's value is at least the value of any of its prefixes.
pub proof fn lemma_digits_prefix_bound(s: Seq<char>, k: int)
    requires
        all_digits(s),
        0 <= k <= s.len(),
    ensures
        digits_value(s) >= digits_value(s.take(k)),
    decreases s.len() - k,
{
    if k < s.len() {
        lemma_digits_prefix_bound(s.drop_last(), if k <= s.len() - 1 { k } else { s.len() - 1 });
        assert(s.drop_last().take(k) =~= s.take(k));
        assert(s.drop_last().take(s.len() - 1) =~= s.drop_last());
    } else {
        assert(s.take(k) =~= s);
    }
}

/// Parsing the decimal representation gives the number back.
pub proof fn lemma_parse_decimal(n: u64)
    ensures
        parse_u64(decimal(n as nat)) == Some(n),
{
    lemma_decimal_digits(n as nat);
    assert(decimal(n as nat)[0] != '+');
}

pub proof fn lemma_decimal_digits(n: nat)
    ensures
        all_digits(decimal(n)),
        digits_value(decimal(n)) == n,
        decimal(n).len() > 0,
        decimal(n)[0] != '+',
    decreases n,
{
    if n < 10 {
        assert(digits_value(Seq::<char>::empty()) == 0);
        let x = digit_char(n);
        assert((x as u32) - 48 == n);
        assert(decimal(n).drop_last() =~= Seq::<char>::empty());
    }
    if n >= 10 {
        lemma_decimal_digits(n / 10);
        let d = decimal(n / 10);
        assert(decimal(n) == d.push(digit_char(n % 10)));
        assert(d.push(digit_char(n % 10)).drop_last() =~= d);
        assert(decimal(n)[0] == d[0]);
        let x = digit_char(n % 10);
        assert((x as u32) - 48 == n % 10);
        assert(digits_value(decimal(n)) == digits_value(d) * 10 + ((x as u32) - 48) as nat);
        assert(n == (n / 10) * 10 + n % 10);
    }
}

// ---------------------------------------------------------------------------
// Ordering of strings
// ---------------------------------------------------------------------------

/// `a <= b` in the order of `String`'s `Ord` (lexicographic by code point,
/// which is the order of the UTF-8 bytes).
pub open spec fn text_le(a: Seq<char>, b: Seq<char>) -> bool
    decreases a.len(),
{
    if a.len() == 0 {
        true
    } else if b.len() == 0 {
        false
    } else if (a[0] as u32) < (b[0] as u32) {
        true
    } else if a[0] == b[0] {
        text_le(a.drop_first(), b.drop_first())
    } else {
        false
    }
}

/// Whether `a <= b` in the order of `String`.
pub fn text_le_exec(a: &[char], b: &[char]) -> (r: bool)
    ensures
        r == text_le(a@, b@),
{
    let mut i: usize = 0;
    assert(a@.skip(0) =~= a@);
    assert(b@.skip(0) =~= b@);
    while i < a.len() && i < b.len()
        invariant
            i <= a@.len(),
            i <= b@.len(),
            text_le(a@, b@) == text_le(a@.skip(i as int), b@.skip(i as int)),
        decreases a@.len() - i,
    {
        let x = a[i] as u32;
        let y = b[i] as u32;
        assert(a@.skip(i as int)[0] == a@[i as int]);
        assert(b@.skip(i as int)[0] == b@[i as int]);
        if x < y {
            return true;
        }
        if x > y {
            return false;
        }
        proof {
            vstd::utf8::char_u32_cast(a@[i as int], x);
            vstd::utf8::char_u32_cast(b@[i as int], y);
            assert(a@.skip(i as int).drop_first() =~= a@.skip(i + 1));
            assert(b@.skip(i as int).drop_first() =~= b@.skip(i + 1));
        }
        i += 1;
    }
    i == a.len()
}

pub proof fn lemma_text_le_total(a: Seq<char>, b: Seq<char>)
    ensures
        text_le(a, b) || text_le(b, a),
    decreases a.len(),
{
    if a.len() > 0 && b.len() > 0 {
        if a[0] == b[0] {
            lemma_text_le_total(a.drop_first(), b.drop_first());
        } else if (a[0] as u32) == (b[0] as u32) {
            vstd::utf8::char_u32_cast(a[0], a[0] as u32);
            vstd::utf8::char_u32_cast(b[0], b[0] as u32);
        }
    }
}

pub proof fn lemma_text_le_trans(a: Seq<char>, b: Seq<char>, c: Seq<char>)
    requires
        text_le(a, b),
        text_le(b, c),
    ensures
        text_le(a, c),
    decreases a.len(),
{
    if a.len() > 0 && b.len() > 0 && c.len() > 0 {
        if a[0] == b[0] && b[0] == c[0] {
            lemma_text_le_trans(a.drop_first(), b.drop_first(), c.drop_first());
        }
    }
}


// ---------------------------------------------------------------------------
// Line offsets and byte slices
// ---------------------------------------------------------------------------

/// Byte offset at which line `k` of `s` begins when every line is counted
/// as its own bytes plus one byte for its line ending.
pub open spec fn line_offset(s: Seq<char>, k: nat) -> nat
    decreases k,
{
    if k == 0 {
        0
    } else {
        line_offset(s, (k - 1) as nat) + byte_len(lines(s)[k - 1]) + 1
    }
}

/// The text between byte offsets `a` and `b` of `s` (`&s[a..b]`).
pub open spec fn byte_slice(s: Seq<char>, a: int, b: int) -> Seq<char> {
    s.subrange(chars_in_bytes(s, a), chars_in_bytes(s, b))
}

/// What follows the first `\n` of `t`, or nothing when there is none
/// (`t.split_once('\n').map(|(_, rest)| rest).unwrap_or("")`).
pub open spec fn after_newline(t: Seq<char>) -> Seq<char> {
    let i = scan(t, class_pred(CharClass::Newline));
    if i < t.len() {
        t.skip(i + 1 as int)
    } else {
        Seq::empty()
    }
}

pub proof fn lemma_strip_cr_byte_len(l: Seq<char>)
    ensures
        byte_len(strip_cr(l)) <= byte_len(l),
{
    if l.len() > 0 && l.last() == '\r' {
        assert(l =~= l.drop_last().push('\r'));
        lemma_byte_len_push(l.drop_last(), '\r');
    }
}

/// The lines of a text, counted with one byte each for their endings, take
/// at most one byte more than the text.
pub proof fn lemma_lines_bytes(s: Seq<char>)
    ensures
        line_offset(s, lines(s).len()) <= byte_len(s) + 1,
        forall|k: nat| k <= lines(s).len() ==> #[trigger] line_offset(s, k) <= line_offset(s, lines(s).len()),
        forall|k: nat| k < lines(s).len() ==> #[trigger] line_offset(s, k) <= byte_len(s),
    decreases s.len(),
{
    let n = lines(s).len();
    assert forall|k: nat| k <= n implies #[trigger] line_offset(s, k) <= line_offset(s, n) by {
        lemma_line_offset_mono(s, k, n);
    }
    if s.len() > 0 {
        let i = scan(s, class_pred(CharClass::Newline));
        lemma_scan_le(s, class_pred(CharClass::Newline));
        if i < s.len() {
            let t = s.skip(i + 1 as int);
            lemma_lines_bytes(t);
            let head = strip_cr(s.take(i as int));
            assert(lines(s) == seq![head] + lines(t));
            lemma_strip_cr_byte_len(s.take(i as int));
            assert(s =~= s.take(i as int).push('\n') + t);
            lemma_byte_len_concat(s.take(i as int).push('\n'), t);
            lemma_byte_len_push(s.take(i as int), '\n');
            lemma_line_offset_shift(s, t, head, lines(t).len());
        } else {
            assert(lines(s) == seq![s]);
            assert(line_offset(s, 0) == 0);
        }
    }
    assert forall|k: nat| k < n implies #[trigger] line_offset(s, k) <= byte_len(s) by {
        assert(line_offset(s, k + 1) <= line_offset(s, n)) by {
            lemma_line_offset_mono(s, k + 1, n);
        }
    }
}

pub proof fn lemma_line_offset_mono(s: Seq<char>, j: nat, k: nat)
    requires
        j <= k,
    ensures
        line_offset(s, j) <= line_offset(s, k),
    decreases k - j,
{
    if j < k {
        lemma_line_offset_mono(s, j, (k - 1) as nat);
    }
}

proof fn lemma_line_offset_shift(s: Seq<char>, t: Seq<char>, head: Seq<char>, k: nat)
    requires
        lines(s) == seq![head] + lines(t),
        k <= lines(t).len(),
    ensures
        line_offset(s, k + 1) == byte_len(head) + 1 + line_offset(t, k),
    decreases k,
{
    if k > 0 {
        lemma_line_offset_shift(s, t, head, (k - 1) as nat);
        assert(lines(s)[k as int] == lines(t)[k - 1]);
    } else {
        assert(lines(s)[0] == head);
        assert(line_offset(s, 0) == 0);
        assert(line_offset(t, 0) == 0);
    }
}


/// Bytes of the characters `lo..hi` of `v`.
pub fn byte_len_range(v: &[char], lo: usize, hi: usize) -> (n: usize)
    requires
        lo <= hi <= v@.len(),
        byte_len(v@.subrange(lo as int, hi as int)) <= usize::MAX,
    ensures
        n == byte_len(v@.subrange(lo as int, hi as int)),
{
    let ghost s = v@.subrange(lo as int, hi as int);
    let mut acc: usize = 0;
    let mut i = lo;
    assert(s.take(0) =~= Seq::<char>::empty());
    while i < hi
        invariant
            lo <= i <= hi <= v@.len(),
            s == v@.subrange(lo as int, hi as int),
            byte_len(s) <= usize::MAX,
            acc == byte_len(s.take(i - lo)),
        decreases hi - i,
    {
        proof {
            lemma_byte_len_take(s, i - lo);
            lemma_byte_len_take_mono(s, i - lo + 1, s.len() as int);
            assert(s.take(s.len() as int) =~= s);
            assert(s[i - lo] == v@[i as int]);
        }
        acc = acc + char_len_utf8(v[i]);
        i += 1;
    }
    assert(s.take(hi - lo) =~= s);
    acc
}

/// Character counts of byte offsets grow with the offsets.
pub proof fn lemma_chars_in_bytes_mono(s: Seq<char>, a: int, b: int)
    requires
        char_boundary(s, a),
        char_boundary(s, b),
        a <= b,
    ensures
        chars_in_bytes(s, a) <= chars_in_bytes(s, b),
        0 <= chars_in_bytes(s, a) <= s.len(),
        0 <= chars_in_bytes(s, b) <= s.len(),
        byte_len(s.take(chars_in_bytes(s, a))) == a,
        byte_len(s.take(chars_in_bytes(s, b))) == b,
{
    let ka = chars_in_bytes(s, a);
    let kb = chars_in_bytes(s, b);
    if ka > kb {
        lemma_byte_len_take_mono(s, kb, ka);
    }
}


/// Whether the characters `lo..hi` of `v` take more than `limit` bytes.
pub fn byte_len_exceeds(v: &[char], lo: usize, hi: usize, limit: usize) -> (b: bool)
    requires
        lo <= hi <= v@.len(),
        limit <= usize::MAX - 4,
    ensures
        b == (byte_len(v@.subrange(lo as int, hi as int)) > limit),
{
    let ghost s = v@.subrange(lo as int, hi as int);
    let mut acc: usize = 0;
    let mut i = lo;
    assert(s.take(0) =~= Seq::<char>::empty());
    while i < hi
        invariant
            lo <= i <= hi <= v@.len(),
            s == v@.subrange(lo as int, hi as int),
            limit <= usize::MAX - 4,
            acc == byte_len(s.take(i - lo)),
            acc <= limit,
        decreases hi - i,
    {
        proof {
            lemma_byte_len_take(s, i - lo);
            assert(s[i - lo] == v@[i as int]);
        }
        acc = acc + char_len_utf8(v[i]);
        i += 1;
        if acc > limit {
            proof {
                lemma_byte_len_take_mono(s, i - lo, s.len() as int);
                assert(s.take(s.len() as int) =~= s);
            }
            return true;
        }
    }
    assert(s.take(hi - lo) =~= s);
    false
}


/// The pieces of `ts` joined without separator (`ts.join("")`).
pub open spec fn concat(ts: Seq<Seq<char>>) -> Seq<char>
    decreases ts.len(),
{
    if ts.len() == 0 {
        seq![]
    } else {
        concat(ts.drop_last()) + ts.last()
    }
}

/// Total bytes of the pieces of `ts`.
pub open spec fn sum_bytes(ts: Seq<Seq<char>>) -> nat
    decreases ts.len(),
{
    if ts.len() == 0 {
        0
    } else {
        byte_len(ts[0]) + sum_bytes(ts.drop_first())
    }
}

pub proof fn lemma_concat_push(ts: Seq<Seq<char>>, x: Seq<char>)
    ensures
        concat(ts.push(x)) == concat(ts) + x,
{
    assert(ts.push(x).drop_last() =~= ts);
}

pub proof fn lemma_concat_bytes(ts: Seq<Seq<char>>)
    ensures
        byte_len(concat(ts)) == sum_bytes(ts),
    decreases ts.len(),
{
    if ts.len() > 0 {
        lemma_concat_bytes(ts.drop_first());
        lemma_concat_front(ts);
        lemma_byte_len_concat(ts[0], concat(ts.drop_first()));
    }
}

pub proof fn lemma_concat_front(ts: Seq<Seq<char>>)
    requires
        ts.len() > 0,
    ensures
        concat(ts) == ts[0] + concat(ts.drop_first()),
    decreases ts.len(),
{
    if ts.len() == 1 {
        assert(ts.drop_first() =~= Seq::<Seq<char>>::empty());
        assert(ts.drop_last() =~= Seq::<Seq<char>>::empty());
        assert(concat(ts.drop_last()) =~= Seq::<char>::empty());
        assert(concat(ts) =~= ts[0]);
        assert(ts[0] + Seq::<char>::empty() =~= ts[0]);
    } else {
        lemma_concat_front(ts.drop_last());
        assert(ts.drop_last().drop_first() =~= ts.drop_first().drop_last());
        assert(ts.drop_first().last() == ts.last());
        assert(ts.drop_last()[0] == ts[0]);
        assert(concat(ts) =~= ts[0] + concat(ts.drop_first()));
    }
}


/// Index of the character whose encoding holds byte `b` of `s`.
pub open spec fn char_at_byte(s: Seq<char>, b: int) -> int
    decreases s.len(),
{
    if s.len() == 0 {
        0
    } else if b < char_width(s[0]) {
        0
    } else {
        1 + char_at_byte(s.drop_first(), b - char_width(s[0]))
    }
}

pub proof fn lemma_take_front(s: Seq<char>, j: int)
    requires
        0 <= j < s.len(),
    ensures
        byte_len(s.take(j + 1)) == char_width(s[0]) + byte_len(s.drop_first().take(j)),
{
    assert(s.take(j + 1) =~= seq![s[0]] + s.drop_first().take(j));
    lemma_byte_len_concat(seq![s[0]], s.drop_first().take(j));
    reveal_with_fuel(byte_len, 2);
    assert(seq![s[0]].drop_first() =~= Seq::<char>::empty());
}

pub proof fn lemma_char_at_byte(s: Seq<char>, b: int)
    requires
        0 <= b < byte_len(s),
    ensures
        0 <= char_at_byte(s, b) < s.len(),
        byte_len(s.take(char_at_byte(s, b))) <= b < byte_len(s.take(char_at_byte(s, b) + 1)),
    decreases s.len(),
{
    assert(s.take(0) =~= Seq::<char>::empty());
    if b < char_width(s[0]) {
        lemma_take_front(s, 0);
        assert(s.drop_first().take(0) =~= Seq::<char>::empty());
    } else {
        let t = s.drop_first();
        lemma_char_at_byte(t, b - char_width(s[0]));
        let k = char_at_byte(t, b - char_width(s[0]));
        lemma_take_front(s, k);
        lemma_take_front(s, k + 1 - 1);
        if k + 1 < s.len() {
            lemma_take_front(s, k + 1);
        }
        assert(s.take(k + 2) =~= seq![s[0]] + t.take(k + 1));
        lemma_byte_len_concat(seq![s[0]], t.take(k + 1));
        reveal_with_fuel(byte_len, 2);
        assert(seq![s[0]].drop_first() =~= Seq::<char>::empty());
    }
}

/// The character holding byte `b` is the only one whose bytes surround `b`.
pub proof fn lemma_char_at_byte_unique(s: Seq<char>, b: int, k: int)
    requires
        0 <= b < byte_len(s),
        0 <= k < s.len(),
        byte_len(s.take(k)) <= b < byte_len(s.take(k + 1)),
    ensures
        char_at_byte(s, b) == k,
{
    lemma_char_at_byte(s, b);
    let c = char_at_byte(s, b);
    if c < k {
        lemma_byte_len_take_mono(s, c + 1, k);
    } else if c > k {
        lemma_byte_len_take_mono(s, k + 1, c);
    }
}

/// Index of the character of `v` whose encoding holds byte `b`, and the
/// byte offset at which that character starts.
pub fn char_index_at_byte(v: &[char], b: usize) -> (r: (usize, usize))
    requires
        b < byte_len(v@),
    ensures
        r.0 == char_at_byte(v@, b as int),
        r.0 < v@.len(),
        r.1 == byte_len(v@.take(r.0 as int)),
        r.1 <= b < byte_len(v@.take(r.0 + 1)),
{
    proof {
        lemma_char_at_byte(v@, b as int);
    }
    let ghost target = char_at_byte(v@, b as int);
    let mut k: usize = 0;
    let mut acc: usize = 0;
    assert(v@.take(0) =~= Seq::<char>::empty());
    loop
        invariant
            0 <= target < v@.len(),
            b < byte_len(v@),
            byte_len(v@.take(target)) <= b < byte_len(v@.take(target + 1)),
            k <= target,
            acc == byte_len(v@.take(k as int)),
            acc <= b,
        decreases target - k,
    {
        proof {
            lemma_byte_len_take(v@, k as int);
        }
        let w = char_len_utf8(v[k]);
        if w > b - acc {
            proof {
                lemma_char_at_byte_unique(v@, b as int, k as int);
            }
            return (k, acc);
        }
        proof {
            if k == target {
                assert(false);
            }
        }
        acc = acc + w;
        k = k + 1;
    }
}


/// The pieces of `ts` joined with `sep` between them (`ts.join(sep)`).
pub open spec fn join(ts: Seq<Seq<char>>, sep: Seq<char>) -> Seq<char>
    decreases ts.len(),
{
    if ts.len() == 0 {
        seq![]
    } else if ts.len() == 1 {
        ts[0]
    } else {
        join(ts.drop_last(), sep) + sep + ts.last()
    }
}

/// `ts.join("\n")` for strings.
pub fn join_lines(ts: &[String]) -> (r: String)
    ensures
        r@ == join(ts@.map_values(|s: String| s@), "\n"@),
{
    let ghost tv = ts@.map_values(|s: String| s@);
    let mut r = String::new();
    let mut i: usize = 0;
    assert(tv.take(0) =~= Seq::<Seq<char>>::empty());
    while i < ts.len()
        invariant
            i <= ts@.len(),
            tv == ts@.map_values(|s: String| s@),
            r@ == join(tv.take(i as int), "\n"@),
        decreases ts@.len() - i,
    {
        proof {
            assert(tv.take(i + 1).drop_last() =~= tv.take(i as int));
            assert(tv.take(i + 1).last() == ts@[i as int]@);
        }
        if i > 0 {
            r.append("\n");
        } else {
            assert(tv.take(1) =~= seq![ts@[0]@]);
        }
        r.append(ts[i].as_str());
        i += 1;
    }
    assert(tv.take(ts@.len() as int) =~= tv);
    r
}

/// The lines of a string, as strings (`s.lines()`).
pub fn lines_of(s: &str) -> (r: Vec<String>)
    ensures
        r@.map_values(|x: String| x@) == lines(s@),
{
    let v = chars_of(s);
    let lb = line_bounds(v.as_slice());
    let mut r: Vec<String> = Vec::new();
    let mut k: usize = 0;
    while k < lb.len()
        invariant
            lb@.len() == lines(v@).len(),
            forall|q: int|
                0 <= q < lb@.len() ==> {
                    &&& (#[trigger] lb@[q]).0 <= lb@[q].1 <= lb@[q].2 <= v@.len()
                    &&& v@.subrange(lb@[q].0 as int, lb@[q].1 as int) == lines(v@)[q]
                },
            k <= lb@.len(),
            r@.len() == k,
            forall|q: int| 0 <= q < k ==> (#[trigger] r@[q])@ == lines(v@)[q],
        decreases lb@.len() - k,
    {
        let (a, b, _) = lb[k];
        r.push(string_of(slice_range(v.as_slice(), a, b)));
        k += 1;
    }
    assert(r@.map_values(|x: String| x@) =~= lines(v@));
    r
}


/// `&s[..b]`: the text of the first `b` bytes, `b` being a character
/// boundary.
pub fn prefix_bytes(s: &str, b: usize) -> (r: String)
    requires
        char_boundary(s@, b as int),
    ensures
        r@ == byte_prefix(s@, b as int),
{
    let v = chars_of(s);
    match chars_for_bytes(v.as_slice(), b) {
        Some(k) => {
            assert(v@.subrange(0, k as int) =~= v@.take(k as int));
            string_of(slice_range(v.as_slice(), 0, k))
        },
        None => {
            proof {
                assert(false);
            }
            String::new()
        },
    }
}

/// `str::is_char_boundary`.
pub fn is_char_boundary_exec(s: &str, b: usize) -> (r: bool)
    ensures
        r == char_boundary(s@, b as int),
{
    let v = chars_of(s);
    chars_for_bytes(v.as_slice(), b).is_some()
}

} // verus!
