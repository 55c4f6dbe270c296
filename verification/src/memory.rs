//! Long-term memory: topic blocks of `memory.md`, keyword search over them,
//! size limiting, session transcripts and the summarization request.

use vstd::prelude::*;
use crate::text::{
    after_newline, byte_len, byte_len_range, byte_slice, char_boundary, chars_for_bytes, chars_of,
    class_pred, lemma_byte_len_take_mono, lemma_chars_in_bytes, lemma_chars_in_bytes_mono,
    lemma_line_offset_mono, lemma_lines_bytes, line_bounds, line_offset, lines, rspan_in, scan_in,
    slice_range, starts_with, starts_with_exec, str_byte_len, string_of, trim, trim_end_by,
    trim_range, CharClass, str_to_lowercase, lowercase, words, word_bounds, byte_len_exceeds,
    is_alnum, char_is_alphanumeric, contains, contains_exec, find, find_from_exec, split_pat,
    split_bounds, concat, sum_bytes, lemma_concat_push, lemma_concat_bytes, decimal, decimal_string,
    lemma_find_from_range, matches_at, ends_with, ends_with_exec, parse_u64, parse_u64_exec,
    all_digits, lemma_decimal_digits, lemma_parse_decimal, lemma_byte_len_concat,
};

verus! {

/// One `## Topic:` block of the memory document.
pub struct TopicBlock {
    pub title: String,
    pub content: String,
    pub start_byte: usize,
    pub end_byte: usize,
}

/// The line prefix that opens a topic block.
pub open spec fn topic_marker() -> Seq<char> {
    "## Topic:"@
}

/// Indices, among the first `k` lines of `s`, of the lines that open a topic.
pub open spec fn header_lines(s: Seq<char>, k: nat) -> Seq<nat>
    decreases k,
{
    if k == 0 {
        seq![]
    } else {
        let prev = header_lines(s, (k - 1) as nat);
        if starts_with(lines(s)[k - 1], topic_marker()) {
            prev.push((k - 1) as nat)
        } else {
            prev
        }
    }
}

/// Indices of all the lines of `s` that open a topic.
pub open spec fn topic_headers(s: Seq<char>) -> Seq<nat> {
    header_lines(s, lines(s).len())
}

/// Byte offset at which topic `j` starts.
pub open spec fn topic_start(s: Seq<char>, j: int) -> nat {
    line_offset(s, topic_headers(s)[j])
}

/// Byte offset at which topic `j` ends: where the next one starts, or the
/// end of the document.
pub open spec fn topic_end(s: Seq<char>, j: int) -> nat {
    if j + 1 < topic_headers(s).len() {
        topic_start(s, j + 1)
    } else {
        byte_len(s)
    }
}

/// Title of topic `j`: its header line after the marker, trimmed.
pub open spec fn topic_title(s: Seq<char>, j: int) -> Seq<char> {
    trim(lines(s)[topic_headers(s)[j] as int].skip(topic_marker().len() as int))
}

/// Content of topic `j`: its text after the header line, without trailing
/// newlines and dashes, trimmed.
pub open spec fn topic_content(s: Seq<char>, j: int) -> Seq<char> {
    trim(
        trim_end_by(
            after_newline(byte_slice(s, topic_start(s, j) as int, topic_end(s, j) as int)),
            class_pred(CharClass::NewlineOrDash),
        ),
    )
}

/// Every topic starts at a character boundary of the document, so that the
/// document can be sliced there. (Offsets count each line ending as one
/// byte; with `\r\n` endings they fall behind the real positions.)
pub open spec fn topic_offsets_valid(s: Seq<char>) -> bool {
    forall|j: int| 0 <= j < topic_headers(s).len() ==> char_boundary(s, #[trigger] topic_start(s, j) as int)
}

/// The block `b` is topic `j` of the document `s`.
pub open spec fn is_topic_block(s: Seq<char>, j: int, b: TopicBlock) -> bool {
    &&& b.title@ == topic_title(s, j)
    &&& b.content@ == topic_content(s, j)
    &&& b.start_byte == topic_start(s, j)
    &&& b.end_byte == topic_end(s, j)
}

proof fn lemma_header_lines(s: Seq<char>, k: nat)
    ensures
        forall|j: int| 0 <= j < header_lines(s, k).len() ==> #[trigger] header_lines(s, k)[j] < k,
        forall|i: int, j: int| 0 <= i < j < header_lines(s, k).len() ==> header_lines(s, k)[i] < header_lines(s, k)[j],
        forall|j: int| 0 <= j < header_lines(s, k).len() ==> starts_with(lines(s)[#[trigger] header_lines(s, k)[j] as int], topic_marker()),
    decreases k,
{
    if k > 0 {
        lemma_header_lines(s, (k - 1) as nat);
        let prev = header_lines(s, (k - 1) as nat);
        if starts_with(lines(s)[k - 1], topic_marker()) {
            assert(header_lines(s, k) == prev.push((k - 1) as nat));
            assert forall|j: int| 0 <= j < prev.len() implies #[trigger] prev.push((k - 1) as nat)[j] == prev[j] by {}
        } else {
            assert(header_lines(s, k) == prev);
        }
    }
}

/// Topic starts never decrease.
proof fn lemma_topic_order(s: Seq<char>, j: int)
    requires
        0 <= j,
        j + 1 < topic_headers(s).len(),
    ensures
        topic_start(s, j) <= topic_start(s, j + 1),
{
    lemma_header_lines(s, lines(s).len());
    lemma_line_offset_mono(s, topic_headers(s)[j], topic_headers(s)[j + 1]);
}

/// Whether every topic of the document starts at a character boundary.
pub fn topic_offsets_ok(markdown: &str) -> (b: bool)
    ensures
        b == topic_offsets_valid(markdown@),
{
    let v = chars_of(markdown);
    let n = str_byte_len(markdown);
    let heads = topic_heads(v.as_slice(), n);
    let mut j: usize = 0;
    while j < heads.len()
        invariant
            v@ == markdown@,
            j <= heads@.len(),
            heads@.len() == topic_headers(v@).len(),
            forall|q: int| 0 <= q < heads@.len() ==> (#[trigger] heads@[q]).1 == topic_start(v@, q),
            forall|q: int| 0 <= q < j ==> char_boundary(v@, #[trigger] topic_start(v@, q) as int),
        decreases heads@.len() - j,
    {
        if chars_for_bytes(v.as_slice(), heads[j].1).is_none() {
            proof {
                assert(!char_boundary(v@, topic_start(v@, j as int) as int));
                assert(!topic_offsets_valid(v@));
            }
            return false;
        }
        j += 1;
    }
    true
}

/// Line index, byte offset and line bounds of each topic header of `v`.
fn topic_heads(v: &[char], nbytes: usize) -> (r: Vec<(usize, usize, usize, usize)>)
    requires
        nbytes == byte_len(v@),
    ensures
        r@.len() == topic_headers(v@).len(),
        forall|q: int|
            0 <= q < r@.len() ==> {
                &&& (#[trigger] r@[q]).0 == topic_headers(v@)[q]
                &&& r@[q].1 == topic_start(v@, q)
                &&& r@[q].2 <= r@[q].3 <= v@.len()
                &&& v@.subrange(r@[q].2 as int, r@[q].3 as int) == lines(v@)[r@[q].0 as int]
            },
{
    let lb = line_bounds(v);
    let marker = chars_of("## Topic:");
    let mut heads: Vec<(usize, usize, usize, usize)> = Vec::new();
    let mut pos: usize = 0;
    let mut k: usize = 0;
    proof {
        lemma_lines_bytes(v@);
        lemma_byte_len_take_mono(v@, v@.len() as int, v@.len() as int);
    }
    while k < lb.len()
        invariant
            lb@.len() == lines(v@).len(),
            forall|q: int|
                0 <= q < lb@.len() ==> {
                    &&& (#[trigger] lb@[q]).0 <= lb@[q].1 <= lb@[q].2 <= v@.len()
                    &&& v@.subrange(lb@[q].0 as int, lb@[q].1 as int) == lines(v@)[q]
                },
            marker@ == topic_marker(),
            nbytes == byte_len(v@),
            k <= lb@.len(),
            k < lb@.len() ==> pos == line_offset(v@, k as nat),
            forall|q: nat| q < lines(v@).len() ==> #[trigger] line_offset(v@, q) <= byte_len(v@),
            heads@.len() == header_lines(v@, k as nat).len(),
            forall|q: int|
                0 <= q < heads@.len() ==> {
                    &&& (#[trigger] heads@[q]).0 == header_lines(v@, k as nat)[q]
                    &&& heads@[q].1 == line_offset(v@, heads@[q].0 as nat)
                    &&& heads@[q].2 <= heads@[q].3 <= v@.len()
                    &&& v@.subrange(heads@[q].2 as int, heads@[q].3 as int) == lines(v@)[heads@[q].0 as int]
                },
        decreases lb@.len() - k,
    {
        let (a, b, _) = lb[k];
        let line = slice_range(v, a, b);
        let ghost old_heads = heads@;
        if starts_with_exec(line, marker.as_slice()) {
            heads.push((k, pos, a, b));
        }
        proof {
            assert(header_lines(v@, (k + 1) as nat) == if starts_with(lines(v@)[k as int], topic_marker()) {
                header_lines(v@, k as nat).push(k as nat)
            } else {
                header_lines(v@, k as nat)
            });
        }
        if k + 1 < lb.len() {
            proof {
                assert(line_offset(v@, (k + 1) as nat) == line_offset(v@, k as nat) + byte_len(lines(v@)[k as int]) + 1);
                assert(line_offset(v@, (k + 1) as nat) <= byte_len(v@));
            }
            let w = byte_len_range(v, a, b);
            pos = pos + w + 1;
        }
        k += 1;
    }
    heads
}

/// `parse_topic_blocks`: the `## Topic:` blocks of a memory document, in
/// order, with titles, contents and byte ranges.
pub fn parse_topic_blocks(markdown: &str) -> (blocks: Vec<TopicBlock>)
    requires
        topic_offsets_valid(markdown@),
    ensures
        blocks@.len() == topic_headers(markdown@).len(),
        forall|j: int| 0 <= j < blocks@.len() ==> is_topic_block(markdown@, j, #[trigger] blocks@[j]),
{
    let v = chars_of(markdown);
    let n = str_byte_len(markdown);
    let heads = topic_heads(v.as_slice(), n);
    let marker_len: usize = 9;
    proof {
        reveal_strlit("## Topic:");
        lemma_chars_in_bytes(v@, v@.len() as int);
        assert(v@.take(v@.len() as int) =~= v@);
    }
    let mut blocks: Vec<TopicBlock> = Vec::new();
    let mut j: usize = 0;
    while j < heads.len()
        invariant
            v@ == markdown@,
            n == byte_len(v@),
            char_boundary(v@, n as int),
            topic_offsets_valid(v@),
            marker_len == topic_marker().len(),
            heads@.len() == topic_headers(v@).len(),
            forall|q: int|
                0 <= q < heads@.len() ==> {
                    &&& (#[trigger] heads@[q]).0 == topic_headers(v@)[q]
                    &&& heads@[q].1 == topic_start(v@, q)
                    &&& heads@[q].2 <= heads@[q].3 <= v@.len()
                    &&& v@.subrange(heads@[q].2 as int, heads@[q].3 as int) == lines(v@)[heads@[q].0 as int]
                },
            j <= heads@.len(),
            blocks@.len() == j,
            forall|q: int| 0 <= q < j ==> is_topic_block(v@, q, #[trigger] blocks@[q]),
        decreases heads@.len() - j,
    {
        let (_, start, la, lbnd) = heads[j];
        let end = if j + 1 < heads.len() { heads[j + 1].1 } else { n };
        proof {
            lemma_header_lines(v@, lines(v@).len());
            assert(starts_with(lines(v@)[heads@[j as int].0 as int], topic_marker()));
            assert(char_boundary(v@, topic_start(v@, j as int) as int));
            if j + 1 < heads@.len() {
                lemma_topic_order(v@, j as int);
                assert(char_boundary(v@, topic_start(v@, j + 1) as int));
            } else {
                lemma_line_offset_mono(v@, topic_headers(v@)[j as int], lines(v@).len());
                lemma_lines_bytes(v@);
            }
        }
        // Title: the header line after the marker, trimmed.
        let (ta, tb) = trim_range(v.as_slice(), la + marker_len, lbnd, CharClass::Whitespace);
        proof {
            assert(lines(v@)[heads@[j as int].0 as int].skip(marker_len as int)
                =~= v@.subrange(la + marker_len, lbnd as int));
        }
        let title = string_of(slice_range(v.as_slice(), ta, tb));
        // Content: the bytes start..end, after the first newline.
        let ca = match chars_for_bytes(v.as_slice(), start) {
            Some(k) => k,
            None => {
                proof {
                    assert(false);
                }
                0
            },
        };
        let cb = match chars_for_bytes(v.as_slice(), end) {
            Some(k) => k,
            None => {
                proof {
                    assert(false);
                }
                0
            },
        };
        proof {
            lemma_chars_in_bytes_mono(v@, start as int, end as int);
        }
        let i = scan_in(v.as_slice(), ca, cb, CharClass::Newline);
        let (r0, r1) = if i < cb { (i + 1, cb) } else { (cb, cb) };
        proof {
            let t = v@.subrange(ca as int, cb as int);
            assert(byte_slice(v@, start as int, end as int) == t);
            if i < cb {
                assert(after_newline(t) =~= v@.subrange(r0 as int, r1 as int));
            } else {
                assert(after_newline(t) =~= v@.subrange(r0 as int, r1 as int));
            }
        }
        let nd = rspan_in(v.as_slice(), r0, r1, CharClass::NewlineOrDash);
        proof {
            let u = v@.subrange(r0 as int, r1 as int);
            assert(trim_end_by(u, class_pred(CharClass::NewlineOrDash)) =~= v@.subrange(r0 as int, (r1 - nd) as int));
        }
        let (c0, c1) = trim_range(v.as_slice(), r0, r1 - nd, CharClass::Whitespace);
        let content = string_of(slice_range(v.as_slice(), c0, c1));
        blocks.push(TopicBlock { title, content, start_byte: start, end_byte: end });
        j += 1;
    }
    blocks
}


// ---------------------------------------------------------------------------
// Keywords and relevance
// ---------------------------------------------------------------------------

/// The alphanumeric characters of `w`, in order.
pub open spec fn alnum_only(w: Seq<char>) -> Seq<char>
    decreases w.len(),
{
    if w.len() == 0 {
        seq![]
    } else {
        let p = alnum_only(w.drop_last());
        if is_alnum(w.last()) {
            p.push(w.last())
        } else {
            p
        }
    }
}

/// Keywords drawn from the first `k` words of `ws`: each word longer than
/// two bytes, stripped to its alphanumeric characters, kept when still
/// longer than two bytes and not already kept.
pub open spec fn keywords_upto(ws: Seq<Seq<char>>, k: nat) -> Seq<Seq<char>>
    decreases k,
{
    if k == 0 {
        seq![]
    } else {
        let prev = keywords_upto(ws, (k - 1) as nat);
        let w = ws[k - 1];
        let c = alnum_only(w);
        if byte_len(w) > 2 && byte_len(c) > 2 && !prev.contains(c) {
            prev.push(c)
        } else {
            prev
        }
    }
}

/// The keywords of a query: its lowercased words, cleaned and deduplicated.
pub open spec fn query_keywords(q: Seq<char>) -> Seq<Seq<char>> {
    keywords_upto(words(lowercase(q)), words(lowercase(q)).len())
}

/// The alphanumeric characters of `v[lo..hi]`.
fn alnum_chars(v: &[char], lo: usize, hi: usize) -> (r: Vec<char>)
    requires
        lo <= hi <= v@.len(),
    ensures
        r@ == alnum_only(v@.subrange(lo as int, hi as int)),
{
    let mut r: Vec<char> = Vec::new();
    let mut i = lo;
    assert(v@.subrange(lo as int, lo as int) =~= Seq::<char>::empty());
    while i < hi
        invariant
            lo <= i <= hi <= v@.len(),
            r@ == alnum_only(v@.subrange(lo as int, i as int)),
        decreases hi - i,
    {
        let c = v[i];
        assert(v@.subrange(lo as int, i + 1).drop_last() =~= v@.subrange(lo as int, i as int));
        if char_is_alphanumeric(c) {
            r.push(c);
        }
        i += 1;
    }
    r
}

/// `extract_keywords`: the distinct keywords of a search query.
pub fn extract_keywords(query: &str) -> (kws: Vec<String>)
    ensures
        kws@.map_values(|s: String| s@) == query_keywords(query@),
        forall|i: int| 0 <= i < kws@.len() ==> byte_len(#[trigger] kws@[i]@) > 2,
        forall|i: int, j: int| 0 <= i < j < kws@.len() ==> kws@[i]@ != kws@[j]@,
{
    let lower = str_to_lowercase(query);
    let v = chars_of(lower.as_str());
    let wb = word_bounds(v.as_slice());
    let ghost ws = words(v@);
    let mut kws: Vec<String> = Vec::new();
    let mut k: usize = 0;
    while k < wb.len()
        invariant
            ws == words(v@),
            wb@.len() == ws.len(),
            forall|q: int|
                0 <= q < wb@.len() ==> {
                    &&& (#[trigger] wb@[q]).0 <= wb@[q].1 <= v@.len()
                    &&& v@.subrange(wb@[q].0 as int, wb@[q].1 as int) == ws[q]
                },
            k <= wb@.len(),
            kws@.map_values(|s: String| s@) == keywords_upto(ws, k as nat),
            forall|i: int| 0 <= i < kws@.len() ==> byte_len(#[trigger] kws@[i]@) > 2,
            forall|i: int, j: int| 0 <= i < j < kws@.len() ==> kws@[i]@ != kws@[j]@,
        decreases wb@.len() - k,
    {
        let (a, b) = wb[k];
        let ghost w = ws[k as int];
        let ghost prev = keywords_upto(ws, k as nat);
        assert(v@.subrange(a as int, b as int) == w);
        assert(keywords_upto(ws, (k + 1) as nat) == if byte_len(w) > 2 && byte_len(alnum_only(w)) > 2
            && !prev.contains(alnum_only(w)) {
            prev.push(alnum_only(w))
        } else {
            prev
        });
        if byte_len_exceeds(v.as_slice(), a, b, 2) {
            let cleaned = alnum_chars(v.as_slice(), a, b);
            assert(cleaned@.subrange(0, cleaned@.len() as int) =~= cleaned@);
            if byte_len_exceeds(cleaned.as_slice(), 0, cleaned.len(), 2) {
                let cs = string_of(cleaned.as_slice());
                let mut seen = false;
                let mut i: usize = 0;
                while i < kws.len()
                    invariant
                        i <= kws@.len(),
                        seen == exists|q: int| 0 <= q < i && kws@[q]@ == cs@,
                    decreases kws@.len() - i,
                {
                    if kws[i] == cs {
                        seen = true;
                    }
                    i += 1;
                }
                proof {
                    let m = kws@.map_values(|s: String| s@);
                    if seen {
                        let q = choose|q: int| 0 <= q < kws@.len() && kws@[q]@ == cs@;
                        assert(m[q] == cs@);
                        assert(prev.contains(alnum_only(w)));
                    } else {
                        assert forall|q: int| 0 <= q < m.len() implies m[q] != alnum_only(w) by {
                            assert(m[q] == kws@[q]@);
                        }
                        assert(!prev.contains(alnum_only(w)));
                    }
                }
                if !seen {
                    let ghost old_kws = kws@;
                    kws.push(cs);
                    proof {
                        assert(kws@.map_values(|s: String| s@) =~= old_kws.map_values(|s: String| s@).push(cleaned@));
                        assert forall|i: int, j: int| 0 <= i < j < kws@.len() implies kws@[i]@ != kws@[j]@ by {
                            if j == kws@.len() - 1 {
                                assert(kws@[i] == old_kws[i]);
                            } else {
                                assert(kws@[i] == old_kws[i]);
                                assert(kws@[j] == old_kws[j]);
                            }
                        }
                    }
                }
            }
        }
        k += 1;
    }
    assert(v@ == lowercase(query@));
    kws
}


/// Points that the first `k` keywords give a block: two for a keyword in
/// the lowercased title, otherwise one for a keyword in the lowercased
/// content.
pub open spec fn points_upto(title: Seq<char>, content: Seq<char>, kws: Seq<Seq<char>>, k: nat) -> nat
    decreases k,
{
    if k == 0 {
        0
    } else {
        points_upto(title, content, kws, (k - 1) as nat) + if contains(lowercase(title), kws[k - 1]) {
            2nat
        } else if contains(lowercase(content), kws[k - 1]) {
            1nat
        } else {
            0nat
        }
    }
}

/// Relevance of a block to the keywords, in points; the score of the block
/// is `points / (2 * kws.len())`.
pub open spec fn relevance(title: Seq<char>, content: Seq<char>, kws: Seq<Seq<char>>) -> nat {
    points_upto(title, content, kws, kws.len())
}

proof fn lemma_points_bound(title: Seq<char>, content: Seq<char>, kws: Seq<Seq<char>>, k: nat)
    ensures
        points_upto(title, content, kws, k) <= 2 * k,
    decreases k,
{
    if k > 0 {
        lemma_points_bound(title, content, kws, (k - 1) as nat);
    }
}

proof fn lemma_points_count(title: Seq<char>, content: Seq<char>, kws: Seq<Seq<char>>, k: nat)
    requires
        k <= kws.len(),
    ensures
        points_upto(title, content, kws, k)
            == 2 * kws.take(k as int).filter(|w: Seq<char>| contains(lowercase(title), w)).len()
            + kws.take(k as int).filter(|w: Seq<char>| !contains(lowercase(title), w) && contains(lowercase(content), w)).len(),
    decreases k,
{
    let in_title = |w: Seq<char>| contains(lowercase(title), w);
    let only_content = |w: Seq<char>| !contains(lowercase(title), w) && contains(lowercase(content), w);
    reveal(Seq::filter);
    if k == 0 {
        assert(kws.take(0) =~= Seq::<Seq<char>>::empty());
    } else {
        lemma_points_count(title, content, kws, (k - 1) as nat);
        let t = kws.take(k as int);
        assert(t.drop_last() =~= kws.take(k - 1));
        assert(t.last() == kws[k - 1]);
        assert(t.filter(in_title) == if in_title(t.last()) { t.drop_last().filter(in_title).push(t.last()) } else { t.drop_last().filter(in_title) });
        assert(t.filter(only_content) == if only_content(t.last()) { t.drop_last().filter(only_content).push(t.last()) } else { t.drop_last().filter(only_content) });
    }
}

/// Each keyword found in the lowercased title earns a block two points,
/// whether or not its content has the keyword too; a keyword found only in
/// the lowercased content earns one point, and any other keyword none. So a
/// block earns at least two points for each keyword in its title.
pub proof fn title_matches_count_double(title: Seq<char>, content: Seq<char>, kws: Seq<Seq<char>>)
    ensures
        relevance(title, content, kws)
            == 2 * kws.filter(|w: Seq<char>| contains(lowercase(title), w)).len()
            + kws.filter(|w: Seq<char>| !contains(lowercase(title), w) && contains(lowercase(content), w)).len(),
        relevance(title, content, kws) >= 2 * kws.filter(|w: Seq<char>| contains(lowercase(title), w)).len(),
{
    lemma_points_count(title, content, kws, kws.len());
    assert(kws.take(kws.len() as int) =~= kws);
}

/// `score_relevance` in points: how well a topic block matches the keywords.
/// The score of the block is these points divided by twice the number of
/// keywords.
pub fn relevance_points(block: &TopicBlock, keywords: &Vec<String>) -> (p: u128)
    ensures
        p == relevance(block.title@, block.content@, keywords@.map_values(|s: String| s@)),
        p <= 2 * keywords@.len(),
{
    let ghost kws = keywords@.map_values(|s: String| s@);
    let tl = str_to_lowercase(block.title.as_str());
    let cl = str_to_lowercase(block.content.as_str());
    let tv = chars_of(tl.as_str());
    let cv = chars_of(cl.as_str());
    let mut p: u128 = 0;
    let mut k: usize = 0;
    while k < keywords.len()
        invariant
            kws == keywords@.map_values(|s: String| s@),
            tv@ == lowercase(block.title@),
            cv@ == lowercase(block.content@),
            k <= keywords@.len(),
            p == points_upto(block.title@, block.content@, kws, k as nat),
            p <= 2 * k,
        decreases keywords@.len() - k,
    {
        let kv = chars_of(keywords[k].as_str());
        assert(kv@ == kws[k as int]);
        if contains_exec(tv.as_slice(), kv.as_slice()) {
            p = p + 2;
        } else if contains_exec(cv.as_slice(), kv.as_slice()) {
            p = p + 1;
        }
        k += 1;
    }
    p
}

/// A block with `points` out of `2 * n` is relevant when its score is at
/// least one tenth.
pub open spec fn is_relevant(points: nat, n: nat) -> bool {
    10 * points >= 2 * n
}

/// Indices among the first `k` whose points equal `p`, in order.
pub open spec fn with_points(pts: Seq<nat>, p: nat, k: nat) -> Seq<nat>
    decreases k,
{
    if k == 0 {
        seq![]
    } else {
        let prev = with_points(pts, p, (k - 1) as nat);
        if pts[k - 1] == p {
            prev.push((k - 1) as nat)
        } else {
            prev
        }
    }
}

/// Indices whose points lie between `lo` and `hi`, highest points first and,
/// among equal points, in the order they come (a stable sort by points,
/// descending).
pub open spec fn ranked(pts: Seq<nat>, hi: int, lo: int) -> Seq<nat>
    decreases hi - lo + 1,
{
    if hi < lo || hi < 0 {
        seq![]
    } else {
        with_points(pts, hi as nat, pts.len()) + ranked(pts, hi - 1, lo)
    }
}

/// One block of a memory excerpt.
pub open spec fn excerpt_entry(title: Seq<char>, content: Seq<char>) -> Seq<char> {
    "## Topic: "@ + title + "\n"@ + content + "\n\n"@
}

/// The excerpt entries for the topics `idx` of document `md`, in order.
pub open spec fn excerpts(md: Seq<char>, idx: Seq<nat>) -> Seq<char>
    decreases idx.len(),
{
    if idx.len() == 0 {
        seq![]
    } else {
        excerpts(md, idx.drop_last()) + excerpt_entry(
            topic_title(md, idx.last() as int),
            topic_content(md, idx.last() as int),
        )
    }
}

/// Points of each topic of `md` for the keywords of `q`.
pub open spec fn topic_points(md: Seq<char>, q: Seq<char>) -> Seq<nat> {
    Seq::new(
        topic_headers(md).len(),
        |j: int| relevance(topic_title(md, j), topic_content(md, j), query_keywords(q)),
    )
}

/// What a memory search answers: the five most relevant topics of the
/// document for the query, most relevant first, or nothing when the
/// document has no topics, the query no keywords, or no topic is relevant.
pub open spec fn memory_search(md: Seq<char>, q: Seq<char>) -> Option<Seq<char>> {
    let n = query_keywords(q).len();
    let idx = ranked(topic_points(md, q), 2 * n as int, (n + 4) as int / 5);
    if topic_headers(md).len() == 0 || n == 0 || idx.len() == 0 {
        None
    } else {
        Some("[Relevant memory from past sessions:]\n\n"@ + excerpts(md, idx.take(if idx.len() < 5 { idx.len() as int } else { 5 })))
    }
}


proof fn lemma_with_points(pts: Seq<nat>, p: nat, k: nat)
    requires
        k <= pts.len(),
    ensures
        forall|i: int| 0 <= i < with_points(pts, p, k).len() ==> {
            &&& (#[trigger] with_points(pts, p, k)[i]) < k
            &&& pts[with_points(pts, p, k)[i] as int] == p
        },
    decreases k,
{
    if k > 0 {
        lemma_with_points(pts, p, (k - 1) as nat);
        let prev = with_points(pts, p, (k - 1) as nat);
        if pts[k - 1] == p {
            assert forall|i: int| 0 <= i < prev.len() implies #[trigger] prev.push((k - 1) as nat)[i] == prev[i] by {}
        }
    }
}

/// The ranking puts topics with more points first and keeps only topics
/// whose points lie between the bounds.
pub proof fn ranked_by_points(pts: Seq<nat>, hi: int, lo: int)
    ensures
        forall|i: int| 0 <= i < ranked(pts, hi, lo).len() ==> {
            &&& (#[trigger] ranked(pts, hi, lo)[i]) < pts.len()
            &&& lo <= pts[ranked(pts, hi, lo)[i] as int] <= hi
        },
        forall|i: int, j: int| 0 <= i < j < ranked(pts, hi, lo).len()
            ==> pts[ranked(pts, hi, lo)[i] as int] >= pts[ranked(pts, hi, lo)[j] as int],
    decreases hi - lo + 1,
{
    if !(hi < lo || hi < 0) {
        ranked_by_points(pts, hi - 1, lo);
        lemma_with_points(pts, hi as nat, pts.len());
        let w = with_points(pts, hi as nat, pts.len());
        let r = ranked(pts, hi - 1, lo);
        assert(ranked(pts, hi, lo) == w + r);
        assert forall|i: int| 0 <= i < ranked(pts, hi, lo).len() implies {
            &&& (#[trigger] ranked(pts, hi, lo)[i]) < pts.len()
            &&& lo <= pts[ranked(pts, hi, lo)[i] as int] <= hi
        } by {
            if i >= w.len() {
                assert(ranked(pts, hi, lo)[i] == r[i - w.len()]);
            } else {
                assert(ranked(pts, hi, lo)[i] == w[i]);
            }
        }
        assert forall|i: int, j: int| 0 <= i < j < ranked(pts, hi, lo).len()
            implies pts[ranked(pts, hi, lo)[i] as int] >= pts[ranked(pts, hi, lo)[j] as int] by {
            if j < w.len() {
                assert(ranked(pts, hi, lo)[i] == w[i]);
                assert(ranked(pts, hi, lo)[j] == w[j]);
            } else if i < w.len() {
                assert(ranked(pts, hi, lo)[i] == w[i]);
                assert(ranked(pts, hi, lo)[j] == r[j - w.len()]);
            } else {
                assert(ranked(pts, hi, lo)[i] == r[i - w.len()]);
                assert(ranked(pts, hi, lo)[j] == r[j - w.len()]);
            }
        }
    }
}

/// Every topic that a search shows is relevant: its score, points over
/// twice the number of keywords, is at least one tenth.
pub proof fn search_shows_relevant_topics(md: Seq<char>, q: Seq<char>)
    ensures
        ({
            let n = query_keywords(q).len();
            let idx = ranked(topic_points(md, q), 2 * n as int, (n + 4) as int / 5);
            forall|i: int| 0 <= i < idx.len() ==> is_relevant(#[trigger] topic_points(md, q)[idx[i] as int], n)
        }),
{
    let n = query_keywords(q).len();
    ranked_by_points(topic_points(md, q), 2 * n as int, (n + 4) as int / 5);
}

proof fn lemma_with_points_exact(pts: Seq<nat>, p: nat, k: nat)
    requires
        k <= pts.len(),
    ensures
        forall|i: int, j: int| 0 <= i < j < with_points(pts, p, k).len()
            ==> with_points(pts, p, k)[i] < with_points(pts, p, k)[j],
        forall|j: nat| j < k && pts[j as int] == p ==> #[trigger] with_points(pts, p, k).contains(j),
    decreases k,
{
    lemma_with_points(pts, p, k);
    if k > 0 {
        lemma_with_points_exact(pts, p, (k - 1) as nat);
        lemma_with_points(pts, p, (k - 1) as nat);
        let prev = with_points(pts, p, (k - 1) as nat);
        if pts[k - 1] == p {
            let w = prev.push((k - 1) as nat);
            assert forall|i: int, j: int| 0 <= i < j < w.len() implies w[i] < w[j] by {
                if j < prev.len() {
                    assert(w[i] == prev[i] && w[j] == prev[j]);
                } else {
                    assert(w[i] == prev[i]);
                }
            }
            assert forall|j: nat| j < k && pts[j as int] == p implies #[trigger] w.contains(j) by {
                if j == k - 1 {
                    assert(w[prev.len() as int] == j);
                } else {
                    assert(prev.contains(j));
                    let i = choose|i: int| 0 <= i < prev.len() && prev[i] == j;
                    assert(w[i] == j);
                }
            }
        }
    }
}

proof fn lemma_ranked_exact(pts: Seq<nat>, hi: int, lo: int)
    requires
        lo >= 0,
    ensures
        ranked(pts, hi, lo).no_duplicates(),
        forall|j: nat| j < pts.len() && lo <= pts[j as int] <= hi ==> #[trigger] ranked(pts, hi, lo).contains(j),
        forall|i: int, j: int| 0 <= i < j < ranked(pts, hi, lo).len()
            && pts[ranked(pts, hi, lo)[i] as int] == pts[ranked(pts, hi, lo)[j] as int]
            ==> ranked(pts, hi, lo)[i] < ranked(pts, hi, lo)[j],
    decreases hi - lo + 1,
{
    if !(hi < lo || hi < 0) {
        lemma_ranked_exact(pts, hi - 1, lo);
        ranked_by_points(pts, hi - 1, lo);
        lemma_with_points(pts, hi as nat, pts.len());
        lemma_with_points_exact(pts, hi as nat, pts.len());
        let w = with_points(pts, hi as nat, pts.len());
        let r = ranked(pts, hi - 1, lo);
        let all = ranked(pts, hi, lo);
        assert(all == w + r);
        assert forall|i: int, j: int| 0 <= i < all.len() && 0 <= j < all.len() && i != j implies all[i] != all[j] by {
            if i < w.len() && j < w.len() {
                assert(all[i] == w[i] && all[j] == w[j]);
                if i < j {
                    assert(w[i] < w[j]);
                } else {
                    assert(w[j] < w[i]);
                }
            } else if i < w.len() {
                assert(all[i] == w[i] && all[j] == r[j - w.len()]);
                assert(pts[w[i] as int] == hi);
                assert(pts[r[j - w.len()] as int] <= hi - 1);
            } else if j < w.len() {
                assert(all[j] == w[j] && all[i] == r[i - w.len()]);
                assert(pts[w[j] as int] == hi);
                assert(pts[r[i - w.len()] as int] <= hi - 1);
            } else {
                assert(all[i] == r[i - w.len()] && all[j] == r[j - w.len()]);
            }
        }
        assert forall|i: int, j: int| 0 <= i < j < all.len() && pts[all[i] as int] == pts[all[j] as int]
            implies all[i] < all[j] by {
            if j < w.len() {
                assert(all[i] == w[i] && all[j] == w[j]);
            } else if i < w.len() {
                assert(all[i] == w[i] && all[j] == r[j - w.len()]);
                assert(pts[r[j - w.len()] as int] <= hi - 1);
            } else {
                assert(all[i] == r[i - w.len()] && all[j] == r[j - w.len()]);
            }
        }
        assert forall|j: nat| j < pts.len() && lo <= pts[j as int] <= hi implies #[trigger] all.contains(j) by {
            if pts[j as int] == hi {
                assert(w.contains(j));
                let i = choose|i: int| 0 <= i < w.len() && w[i] == j;
                assert(all[i] == j);
            } else {
                assert(r.contains(j));
                let i = choose|i: int| 0 <= i < r.len() && r[i] == j;
                assert(all[w.len() + i] == j);
            }
        }
    }
}

/// The topics of a memory document that are relevant to a query: those
/// whose score, points over twice the number of keywords, is at least one
/// tenth.
pub open spec fn relevant_topics(md: Seq<char>, q: Seq<char>) -> Set<nat> {
    Set::new(|j: nat| j < topic_headers(md).len() && 10 * topic_points(md, q)[j as int] >= 2 * query_keywords(q).len())
}

/// A search shows the five most relevant topics, or every relevant topic
/// when fewer than five are: each shown topic is relevant and shown once,
/// those with more points first and, among equal points, in the order of
/// the document; no relevant topic that is left out has more points than
/// one that is shown, or as many and an earlier place. When the document has topics and
/// the query keywords, the search answers nothing exactly when no topic is
/// relevant.
pub proof fn search_shows_five_most_relevant(md: Seq<char>, q: Seq<char>)
    requires
        topic_headers(md).len() > 0,
        query_keywords(q).len() > 0,
    ensures
        relevant_topics(md, q).finite(),
        memory_search(md, q) is None <==> relevant_topics(md, q).len() == 0,
        relevant_topics(md, q).len() > 0 ==> exists|s: Seq<nat>| {
            &&& memory_search(md, q) == Some("[Relevant memory from past sessions:]\n\n"@ + #[trigger] excerpts(md, s))
            &&& s.len() == if relevant_topics(md, q).len() < 5 { relevant_topics(md, q).len() } else { 5 }
            &&& s.no_duplicates()
            &&& forall|i: int| 0 <= i < s.len() ==> relevant_topics(md, q).contains(#[trigger] s[i])
            &&& forall|i: int, j: int| 0 <= i < j < s.len()
                ==> topic_points(md, q)[s[i] as int] > topic_points(md, q)[s[j] as int]
                    || (topic_points(md, q)[s[i] as int] == topic_points(md, q)[s[j] as int] && s[i] < s[j])
            &&& forall|t: nat, i: int| #![trigger relevant_topics(md, q).contains(t), s[i]]
                relevant_topics(md, q).contains(t) && !s.contains(t) && 0 <= i < s.len()
                ==> topic_points(md, q)[t as int] < topic_points(md, q)[s[i] as int]
                    || (topic_points(md, q)[t as int] == topic_points(md, q)[s[i] as int] && s[i] < t)
        },
{
    let n = query_keywords(q).len();
    let pts = topic_points(md, q);
    let lo = (n + 4) as int / 5;
    let hi = 2 * n as int;
    let idx = ranked(pts, hi, lo);
    let rel = relevant_topics(md, q);
    ranked_by_points(pts, hi, lo);
    lemma_ranked_exact(pts, hi, lo);
    assert forall|j: nat| rel.contains(j) <==> idx.to_set().contains(j) by {
        if rel.contains(j) {
            lemma_points_bound(topic_title(md, j as int), topic_content(md, j as int), query_keywords(q), n);
            assert(pts[j as int] <= hi);
            assert(lo <= pts[j as int]);
            assert(idx.contains(j));
        }
        if idx.to_set().contains(j) {
            let i = choose|i: int| 0 <= i < idx.len() && idx[i] == j;
            assert(lo <= pts[idx[i] as int]);
            assert(is_relevant(pts[j as int], n));
        }
    }
    assert(rel =~= idx.to_set());
    idx.unique_seq_to_set();
    if idx.len() > 0 {
        let k: int = if idx.len() < 5 { idx.len() as int } else { 5 };
        let s = idx.take(k);
        assert(memory_search(md, q) == Some("[Relevant memory from past sessions:]\n\n"@ + excerpts(md, s)));
        assert forall|i: int| 0 <= i < s.len() implies rel.contains(#[trigger] s[i]) by {
            assert(s[i] == idx[i]);
            assert(idx.to_set().contains(idx[i]));
        }
        assert forall|i: int, j: int| 0 <= i < j < s.len() implies pts[s[i] as int] > pts[s[j] as int]
            || (pts[s[i] as int] == pts[s[j] as int] && s[i] < s[j]) by {
            assert(s[i] == idx[i] && s[j] == idx[j]);
        }
        assert forall|t: nat, i: int| rel.contains(t) && !s.contains(t) && 0 <= i < s.len()
            implies pts[t as int] < pts[s[i] as int] || (pts[t as int] == pts[s[i] as int] && s[i] < t) by {
            assert(idx.to_set().contains(t));
            let m = choose|m: int| 0 <= m < idx.len() && idx[m] == t;
            if m < k {
                assert(s[m] == t);
            }
            assert(s[i] == idx[i]);
        }
        assert(s.no_duplicates());
    }
}

proof fn lemma_excerpts_push(md: Seq<char>, idx: Seq<nat>, j: nat)
    ensures
        excerpts(md, idx.push(j)) == excerpts(md, idx) + excerpt_entry(topic_title(md, j as int), topic_content(md, j as int)),
{
    assert(idx.push(j).drop_last() =~= idx);
}

/// `search_memory`: the most relevant topics of a memory document (when
/// there is one) for a query, formatted as an excerpt for the prompt.
pub fn search_memory(memory_md: Option<&str>, query: &str) -> (r: Option<String>)
    requires
        memory_md matches Some(md) ==> topic_offsets_valid(md@),
    ensures
        match memory_md {
            None => r is None,
            Some(md) => match memory_search(md@, query@) {
                None => r is None,
                Some(text) => r matches Some(s) && s@ == text,
            },
        },
{
    let md = match memory_md {
        None => return None,
        Some(m) => m,
    };
    let blocks = parse_topic_blocks(md);
    let kws = extract_keywords(query);
    let ghost kv = query_keywords(query@);
    let ghost pts = topic_points(md@, query@);
    // Points of every block.
    let mut points: Vec<u128> = Vec::new();
    let mut j: usize = 0;
    while j < blocks.len()
        invariant
            j <= blocks@.len(),
            blocks@.len() == topic_headers(md@).len(),
            forall|q: int| 0 <= q < blocks@.len() ==> is_topic_block(md@, q, #[trigger] blocks@[q]),
            kws@.map_values(|s: String| s@) == kv,
            kv == query_keywords(query@),
            pts == topic_points(md@, query@),
            points@.len() == j,
            forall|q: int| 0 <= q < j ==> #[trigger] points@[q] == pts[q],
        decreases blocks@.len() - j,
    {
        let p = relevance_points(&blocks[j], &kws);
        assert(is_topic_block(md@, j as int, blocks@[j as int]));
        assert(pts[j as int] == relevance(topic_title(md@, j as int), topic_content(md@, j as int), kv));
        points.push(p);
        j += 1;
    }
    if blocks.len() == 0 || kws.len() == 0 {
        return None;
    }
    // Stable ranking by points, highest first, down to the threshold.
    let n: u128 = kws.len() as u128;
    let lo: u128 = (n + 4) / 5;
    let mut idx: Vec<usize> = Vec::new();
    let mut p: u128 = 2 * n;
    assert(pts.len() == blocks@.len());
    assert(idx@.map_values(|i: usize| i as nat) =~= Seq::<nat>::empty());
    while p >= lo
        invariant
            n == kv.len(),
            lo == (n + 4) / 5,
            1 <= lo <= p + 1,
            p <= 2 * n,
            points@.len() == pts.len(),
            forall|q: int| 0 <= q < points@.len() ==> #[trigger] points@[q] == pts[q],
            forall|q: int| 0 <= q < idx@.len() ==> #[trigger] idx@[q] < points@.len(),
            ranked(pts, 2 * n as int, lo as int) == idx@.map_values(|i: usize| i as nat) + ranked(pts, p as int, lo as int),
        decreases p + 1 - lo,
    {
        let ghost before = idx@;
        let mut q: usize = 0;
        assert(with_points(pts, p as nat, 0) =~= Seq::<nat>::empty());
        assert(before.map_values(|i: usize| i as nat) + with_points(pts, p as nat, 0) =~= before.map_values(|i: usize| i as nat));
        while q < points.len()
            invariant
                q <= points@.len(),
                points@.len() == pts.len(),
                forall|r: int| 0 <= r < points@.len() ==> #[trigger] points@[r] == pts[r],
                forall|r: int| 0 <= r < idx@.len() ==> #[trigger] idx@[r] < points@.len(),
                idx@.map_values(|i: usize| i as nat) == before.map_values(|i: usize| i as nat) + with_points(pts, p as nat, q as nat),
            decreases points@.len() - q,
        {
            let ghost old_idx = idx@;
            if points[q] == p {
                idx.push(q);
                assert(idx@.map_values(|i: usize| i as nat) =~= old_idx.map_values(|i: usize| i as nat).push(q as nat));
            }
            q += 1;
        }
        proof {
            assert(ranked(pts, p as int, lo as int) == with_points(pts, p as nat, pts.len()) + ranked(pts, p - 1, lo as int));
            assert(idx@.map_values(|i: usize| i as nat) + ranked(pts, p - 1, lo as int)
                =~= before.map_values(|i: usize| i as nat) + ranked(pts, p as int, lo as int));
        }
        p = p - 1;
    }
    proof {
        assert(ranked(pts, p as int, lo as int) =~= Seq::<nat>::empty());
        assert(idx@.map_values(|i: usize| i as nat) + ranked(pts, p as int, lo as int) =~= idx@.map_values(|i: usize| i as nat));
    }
    let ghost ridx = idx@.map_values(|i: usize| i as nat);
    assert(ridx == ranked(pts, 2 * kv.len() as int, (kv.len() + 4) as int / 5));
    if idx.len() == 0 {
        return None;
    }
    let take = if idx.len() < 5 { idx.len() } else { 5 };
    let mut out = String::new();
    out.append("[Relevant memory from past sessions:]\n\n");
    let mut k: usize = 0;
    assert(ridx.take(0) =~= Seq::<nat>::empty());
    while k < take
        invariant
            k <= take <= idx@.len(),
            ridx == idx@.map_values(|i: usize| i as nat),
            forall|q: int| 0 <= q < idx@.len() ==> #[trigger] idx@[q] < blocks@.len(),
            blocks@.len() == topic_headers(md@).len(),
            forall|q: int| 0 <= q < blocks@.len() ==> is_topic_block(md@, q, #[trigger] blocks@[q]),
            out@ == "[Relevant memory from past sessions:]\n\n"@ + excerpts(md@, ridx.take(k as int)),
        decreases take - k,
    {
        let b = &blocks[idx[k]];
        assert(is_topic_block(md@, idx@[k as int] as int, blocks@[idx@[k as int] as int]));
        out.append("## Topic: ");
        out.append(b.title.as_str());
        out.append("\n");
        out.append(b.content.as_str());
        out.append("\n\n");
        proof {
            assert(ridx.take(k + 1) =~= ridx.take(k as int).push(ridx[k as int]));
            lemma_excerpts_push(md@, ridx.take(k as int), ridx[k as int]);
        }
        k += 1;
    }
    Some(out)
}


// ---------------------------------------------------------------------------
// Size limit
// ---------------------------------------------------------------------------

/// Topic blocks among the first `k` pieces: each piece that holds more than
/// white space, with the marker put back in front.
pub open spec fn topics_upto(pieces: Seq<Seq<char>>, k: nat) -> Seq<Seq<char>>
    decreases k,
{
    if k == 0 {
        seq![]
    } else {
        let prev = topics_upto(pieces, (k - 1) as nat);
        if trim(pieces[k - 1]).len() > 0 {
            prev.push(topic_marker() + pieces[k - 1])
        } else {
            prev
        }
    }
}

/// The text before the first topic marker.
pub open spec fn frontmatter(c: Seq<char>) -> Seq<char> {
    c.take(find(c, topic_marker()))
}

/// The topic blocks of a memory document, oldest first, as the size limit
/// sees them: the text after the first marker split at every marker.
pub open spec fn memory_topics(c: Seq<char>) -> Seq<Seq<char>> {
    let pieces = split_pat(c.skip(find(c, topic_marker()) + topic_marker().len()), topic_marker());
    topics_upto(pieces, pieces.len())
}

/// Number of oldest topics to drop, starting from `r`, until the
/// frontmatter and the remaining topics fit in `limit` bytes.
pub open spec fn drop_count(fb: nat, topics: Seq<Seq<char>>, limit: nat, r: nat) -> nat
    decreases topics.len() - r,
{
    if r >= topics.len() {
        topics.len()
    } else if fb + sum_bytes(topics.skip(r as int)) <= limit {
        r
    } else {
        drop_count(fb, topics, limit, r + 1)
    }
}

/// The notice put in front of the kept topics.
pub open spec fn truncation_notice(max_bytes: nat, removed: nat) -> Seq<char> {
    "<!-- WARNING: Truncated to stay under "@ + decimal(max_bytes / 1048576) + "MB. "@ + decimal(removed)
        + " oldest topic(s) removed. -->\n\n"@
}

/// The limit that the kept topics must meet: the maximum less 100 bytes
/// kept for the notice (or zero).
pub open spec fn effective_limit(max_bytes: nat) -> nat {
    if max_bytes >= 100 { (max_bytes - 100) as nat } else { 0 }
}

/// What the size limit makes of a memory document: `None` when it stays as
/// it is (small enough, no topics, or nothing to drop), otherwise the
/// frontmatter, a notice and the newest topics that fit.
pub open spec fn truncated_memory(c: Seq<char>, max_bytes: nat) -> Option<Seq<char>> {
    let topics = memory_topics(c);
    let fb = byte_len(frontmatter(c));
    let removed = drop_count(fb, topics, effective_limit(max_bytes), 0);
    if byte_len(c) <= max_bytes || find(c, topic_marker()) < 0 || topics.len() == 0 || removed == 0 {
        None
    } else {
        Some(frontmatter(c) + truncation_notice(max_bytes, removed) + concat(topics.skip(removed as int)))
    }
}

proof fn lemma_sum_bytes_skip(ts: Seq<Seq<char>>, r: int)
    requires
        0 <= r < ts.len(),
    ensures
        sum_bytes(ts.skip(r)) == byte_len(ts[r]) + sum_bytes(ts.skip(r + 1)),
{
    assert(ts.skip(r).drop_first() =~= ts.skip(r + 1));
}

proof fn lemma_drop_count_fits(fb: nat, topics: Seq<Seq<char>>, limit: nat, r: nat)
    requires
        fb <= limit,
    ensures
        drop_count(fb, topics, limit, r) <= topics.len() || r > topics.len(),
        fb + sum_bytes(topics.skip(drop_count(fb, topics, limit, r) as int)) <= limit,
    decreases topics.len() - r,
{
    if r >= topics.len() {
        assert(topics.skip(topics.len() as int) =~= Seq::<Seq<char>>::empty());
    } else if fb + sum_bytes(topics.skip(r as int)) <= limit {
    } else {
        lemma_drop_count_fits(fb, topics, limit, r + 1);
    }
}

/// The size limit keeps its promise: when the text before the first topic
/// fits within the limit less the 100 bytes kept for the notice, and the
/// notice takes no more than those, the shortened document is no larger
/// than the limit.
pub proof fn truncated_memory_fits(c: Seq<char>, max_bytes: nat)
    requires
        truncated_memory(c, max_bytes) is Some,
        max_bytes >= 100,
        byte_len(frontmatter(c)) <= effective_limit(max_bytes),
        byte_len(truncation_notice(max_bytes, drop_count(
            byte_len(frontmatter(c)),
            memory_topics(c),
            effective_limit(max_bytes),
            0,
        ))) <= 100,
    ensures
        byte_len(truncated_memory(c, max_bytes)->0) <= max_bytes,
{
    let topics = memory_topics(c);
    let fb = byte_len(frontmatter(c));
    let limit = effective_limit(max_bytes);
    let removed = drop_count(fb, topics, limit, 0);
    lemma_drop_count_fits(fb, topics, limit, 0);
    let kept = topics.skip(removed as int);
    lemma_concat_bytes(kept);
    let notice = truncation_notice(max_bytes, removed);
    lemma_byte_len_concat(frontmatter(c), notice);
    lemma_byte_len_concat(frontmatter(c) + notice, concat(kept));
}

/// `enforce_size_limit` on the text of `memory.md`: the new text when the
/// oldest topics must go to stay under `max_bytes`, or `None` when the file
/// stays as it is.
pub fn truncate_memory(content: &str, max_bytes: u64) -> (r: Option<String>)
    ensures
        match truncated_memory(content@, max_bytes as nat) {
            None => r is None,
            Some(t) => r matches Some(s) && s@ == t,
        },
{
    let v = chars_of(content);
    let total = str_byte_len(content);
    if total as u64 <= max_bytes {
        return None;
    }
    let marker = chars_of("## Topic:");
    proof {
        reveal_strlit("## Topic:");
    }
    let i = match find_from_exec(v.as_slice(), marker.as_slice(), 0) {
        None => return None,
        Some(i) => i,
    };
    proof {
        lemma_find_from_range(v@, marker@, 0);
        assert(matches_at(v@, marker@, i as int));
    }
    let front = string_of(slice_range(v.as_slice(), 0, i));
    assert(front@ =~= frontmatter(v@));
    let ml = marker.len();
    let vl = v.len();
    assert(i + ml <= vl);
    let rest = slice_range(v.as_slice(), i + ml, vl);
    assert(rest@ =~= v@.skip(find(v@, topic_marker()) + topic_marker().len()));
    let pieces = split_bounds(rest, marker.as_slice());
    let ghost ps = split_pat(rest@, topic_marker());
    let mut topics: Vec<String> = Vec::new();
    let mut k: usize = 0;
    while k < pieces.len()
        invariant
            marker@ == topic_marker(),
            ps == split_pat(rest@, topic_marker()),
            pieces@.len() == ps.len(),
            forall|q: int|
                0 <= q < pieces@.len() ==> {
                    &&& (#[trigger] pieces@[q]).0 <= pieces@[q].1 <= rest@.len()
                    &&& rest@.subrange(pieces@[q].0 as int, pieces@[q].1 as int) == ps[q]
                },
            k <= pieces@.len(),
            topics@.map_values(|s: String| s@) == topics_upto(ps, k as nat),
        decreases pieces@.len() - k,
    {
        let (a, b) = pieces[k];
        let (ta, tb) = trim_range(rest, a, b, CharClass::Whitespace);
        let ghost old_t = topics@;
        if ta < tb {
            let mut s = string_of(marker.as_slice());
            let piece = string_of(slice_range(rest, a, b));
            s.append(piece.as_str());
            topics.push(s);
            assert(topics@.map_values(|s: String| s@) =~= old_t.map_values(|s: String| s@).push(topic_marker() + ps[k as int]));
        }
        k += 1;
    }
    let ghost ts = topics@.map_values(|s: String| s@);
    assert(ts == memory_topics(v@));
    if topics.len() == 0 {
        return None;
    }
    // Bytes of the frontmatter and of all topics.
    let fb = str_byte_len(front.as_str()) as u128;
    let mut suffix: u128 = 0;
    let mut q = topics.len();
    assert(ts.skip(ts.len() as int) =~= Seq::<Seq<char>>::empty());
    while q > 0
        invariant
            q <= topics@.len(),
            ts == topics@.map_values(|s: String| s@),
            suffix == sum_bytes(ts.skip(q as int)),
            suffix <= (topics@.len() - q) * 0xFFFF_FFFF_FFFF_FFFFnat,
            topics@.len() <= 0xFFFF_FFFF_FFFF_FFFFnat,
        decreases q,
    {
        q -= 1;
        let w = str_byte_len(topics[q].as_str());
        proof {
            lemma_sum_bytes_skip(ts, q as int);
            let m = (topics@.len() - q - 1) as nat;
            assert(m * 0xFFFF_FFFF_FFFF_FFFFnat + 0xFFFF_FFFF_FFFF_FFFFnat == (m + 1) * 0xFFFF_FFFF_FFFF_FFFFnat) by (nonlinear_arith);
            assert((m + 1) * 0xFFFF_FFFF_FFFF_FFFFnat <= 0xFFFF_FFFF_FFFF_FFFFnat * 0xFFFF_FFFF_FFFF_FFFFnat) by (nonlinear_arith)
                requires m + 1 <= 0xFFFF_FFFF_FFFF_FFFFnat;
        }
        suffix = suffix + w as u128;
    }
    proof {
        assert(suffix <= 0xFFFF_FFFF_FFFF_FFFFnat * 0xFFFF_FFFF_FFFF_FFFFnat) by (nonlinear_arith)
            requires suffix <= topics@.len() * 0xFFFF_FFFF_FFFF_FFFFnat, topics@.len() <= 0xFFFF_FFFF_FFFF_FFFFnat;
    }
    let limit: u128 = if max_bytes >= 100 { (max_bytes - 100) as u128 } else { 0 };
    let mut removed: usize = 0;
    assert(ts.skip(0) =~= ts);
    while removed < topics.len() && fb + suffix > limit
        invariant
            removed <= topics@.len(),
            ts == topics@.map_values(|s: String| s@),
            suffix == sum_bytes(ts.skip(removed as int)),
            suffix <= 0xFFFF_FFFF_FFFF_FFFFnat * 0xFFFF_FFFF_FFFF_FFFFnat,
            fb <= 0xFFFF_FFFF_FFFF_FFFFnat,
            fb == byte_len(frontmatter(v@)),
            limit == effective_limit(max_bytes as nat),
            drop_count(fb as nat, ts, limit as nat, 0) == drop_count(fb as nat, ts, limit as nat, removed as nat),
        decreases topics@.len() - removed,
    {
        let w = str_byte_len(topics[removed].as_str());
        proof {
            lemma_sum_bytes_skip(ts, removed as int);
        }
        suffix = suffix - w as u128;
        removed += 1;
    }
    assert(removed == drop_count(fb as nat, ts, limit as nat, 0));
    if removed == 0 {
        return None;
    }
    let mut out = front;
    out.append("<!-- WARNING: Truncated to stay under ");
    let mb = decimal_string(max_bytes / 1048576);
    out.append(mb.as_str());
    out.append("MB. ");
    let rs = decimal_string(removed as u64);
    out.append(rs.as_str());
    out.append(" oldest topic(s) removed. -->\n\n");
    let ghost head = out@;
    let mut j = removed;
    assert(ts.skip(removed as int).take(0) =~= Seq::<Seq<char>>::empty());
    while j < topics.len()
        invariant
            removed <= j <= topics@.len(),
            ts == topics@.map_values(|s: String| s@),
            out@ == head + concat(ts.skip(removed as int).take(j - removed)),
        decreases topics@.len() - j,
    {
        out.append(topics[j].as_str());
        proof {
            let kept = ts.skip(removed as int);
            assert(kept.take(j + 1 - removed) =~= kept.take(j - removed).push(ts[j as int]));
            lemma_concat_push(kept.take(j - removed), ts[j as int]);
        }
        j += 1;
    }
    assert(ts.skip(removed as int).take(topics@.len() - removed) =~= ts.skip(removed as int));
    Some(out)
}



// ---------------------------------------------------------------------------
// Session expiry
// ---------------------------------------------------------------------------

/// The text after the last `c` in `s`, or all of `s` when `c` does not
/// occur: the first piece that `str::rsplit` yields.
pub open spec fn after_last(s: Seq<char>, c: char) -> Seq<char>
    decreases s.len(),
{
    if s.len() == 0 {
        s
    } else if s.last() == c {
        seq![]
    } else {
        after_last(s.drop_last(), c).push(s.last())
    }
}

/// The Unix time that a session file name `<name>_<ts>.json` records: the
/// number after the last `_` of the name without `.json`, if it is one.
pub open spec fn session_file_time(fname: Seq<char>) -> Option<u64> {
    if ends_with(fname, ".json"@) {
        parse_u64(after_last(fname.take(fname.len() - 5), '_'))
    } else {
        None
    }
}

/// Sessions saved before this time are expired: `max_age_days` days before
/// `now`, or the epoch when that lies earlier.
pub open spec fn expiry_cutoff(now: u64, max_age_days: u64) -> int {
    if now >= max_age_days * 86400 {
        now - max_age_days * 86400
    } else {
        0
    }
}

/// A session file saved before `cutoff`.
pub open spec fn is_expired(fname: Seq<char>, cutoff: int) -> bool {
    session_file_time(fname) matches Some(ts) && ts < cutoff
}

/// The expired ones among the file names, in their order.
pub open spec fn expired_names(names: Seq<Seq<char>>, cutoff: int) -> Seq<Seq<char>>
    decreases names.len(),
{
    if names.len() == 0 {
        seq![]
    } else {
        let prev = expired_names(names.drop_last(), cutoff);
        if is_expired(names.last(), cutoff) { prev.push(names.last()) } else { prev }
    }
}

proof fn lemma_after_last_suffix(a: Seq<char>, c: char, d: Seq<char>)
    requires
        forall|i: int| 0 <= i < d.len() ==> d[i] != c,
    ensures
        after_last(a.push(c) + d, c) == d,
    decreases d.len(),
{
    let s = a.push(c) + d;
    if d.len() == 0 {
        assert(s =~= a.push(c));
    } else {
        assert(s.drop_last() =~= a.push(c) + d.drop_last());
        lemma_after_last_suffix(a, c, d.drop_last());
        assert(d.drop_last().push(d.last()) =~= d);
    }
}

/// The time recorded in a session file name is the time it was saved at:
/// the expiry check reads back what `make_session_filename` wrote.
pub proof fn session_time_round_trip(name: Seq<char>, ts: u64)
    ensures
        session_file_time(name + "_"@ + decimal(ts as nat) + ".json"@) == Some(ts),
{
    reveal_strlit("_");
    reveal_strlit(".json");
    let d = decimal(ts as nat);
    let f = name + "_"@ + d + ".json"@;
    lemma_decimal_digits(ts as nat);
    lemma_parse_decimal(ts);
    assert(ends_with(f, ".json"@)) by {
        assert(f.skip(f.len() - 5) =~= ".json"@);
    }
    assert(f.take(f.len() - 5) =~= name.push('_') + d);
    assert forall|i: int| 0 <= i < d.len() implies d[i] != '_' by {
        assert('0' <= d[i] <= '9');
    }
    lemma_after_last_suffix(name, '_', d);
}

/// Index in `v` after its last `c`, or 0 when there is none.
fn after_last_start(v: &[char], c: char) -> (i: usize)
    ensures
        i <= v@.len(),
        v@.skip(i as int) == after_last(v@, c),
{
    let mut i = v.len();
    assert(v@.skip(i as int) =~= Seq::<char>::empty());
    while i > 0 && v[i - 1] != c
        invariant
            i <= v@.len(),
            forall|j: int| i <= j < v@.len() ==> v@[j] != c,
        decreases i,
    {
        i -= 1;
    }
    proof {
        lemma_after_last_tail(v@, c, i as int);
    }
    i
}

proof fn lemma_after_last_tail(s: Seq<char>, c: char, i: int)
    requires
        0 <= i <= s.len(),
        i == 0 || s[i - 1] == c,
        forall|j: int| i <= j < s.len() ==> s[j] != c,
    ensures
        after_last(s, c) == s.skip(i),
    decreases s.len(),
{
    if s.len() > i {
        lemma_after_last_tail(s.drop_last(), c, i);
        assert(s.drop_last().skip(i).push(s.last()) =~= s.skip(i));
    } else if s.len() > 0 {
        assert(s.skip(i) =~= Seq::<char>::empty());
    }
}

/// The Unix time that a session file name records, if it records one.
pub fn session_file_time_exec(fname: &str) -> (r: Option<u64>)
    ensures
        r == session_file_time(fname@),
{
    let v = chars_of(fname);
    let suffix = chars_of(".json");
    proof {
        reveal_strlit(".json");
    }
    if !ends_with_exec(v.as_slice(), suffix.as_slice()) {
        return None;
    }
    let vl = v.len();
    let stem = slice_range(v.as_slice(), 0, vl - 5);
    assert(stem@ =~= v@.take(v@.len() - 5));
    let i = after_last_start(stem, '_');
    let sl = stem.len();
    let piece = slice_range(stem, i, sl);
    assert(piece@ =~= stem@.skip(i as int));
    parse_u64_exec(piece)
}

/// `check_expired_sessions` on the names of the files in a project's
/// sessions directory: whether any session is older than `max_age_days`
/// days at time `now`, and the names of those that are.
pub fn expired_sessions(file_names: &[String], now: u64, max_age_days: u64) -> (r: (bool, Vec<String>))
    requires
        max_age_days * 86400 <= u64::MAX,
    ensures
        r.1@.map_values(|s: String| s@) == expired_names(file_names@.map_values(|s: String| s@), expiry_cutoff(now, max_age_days)),
        r.0 == (r.1@.len() > 0),
{
    let cutoff = now.saturating_sub(max_age_days * 86400);
    let ghost names = file_names@.map_values(|s: String| s@);
    let ghost cut = expiry_cutoff(now, max_age_days);
    assert(cutoff == cut);
    let mut expired: Vec<String> = Vec::new();
    let mut k: usize = 0;
    assert(names.take(0) =~= Seq::<Seq<char>>::empty());
    while k < file_names.len()
        invariant
            k <= file_names@.len(),
            names == file_names@.map_values(|s: String| s@),
            cutoff == cut,
            expired@.map_values(|s: String| s@) == expired_names(names.take(k as int), cut),
        decreases file_names@.len() - k,
    {
        let ghost before = expired@;
        assert(names.take(k + 1).drop_last() =~= names.take(k as int));
        assert(names.take(k + 1).last() == file_names@[k as int]@);
        match session_file_time_exec(file_names[k].as_str()) {
            Some(ts) => {
                if ts < cutoff {
                    expired.push(file_names[k].clone());
                    assert(expired@.map_values(|s: String| s@) =~= before.map_values(|s: String| s@).push(file_names@[k as int]@));
                }
            },
            None => {},
        }
        k += 1;
    }
    assert(names.take(file_names@.len() as int) =~= names);
    let any = expired.len() > 0;
    (any, expired)
}

} // verus!
