//! Preparing shader sources for the exported blob: every `#include "path"` directive of a
//! source is found, the included file is processed in its turn (reading it is the caller's
//! part), and the directive is rewritten to name the included source by its slot in the table
//! of processed sources, `#include "3"`. A source met twice gets one slot; a slot is reserved
//! before the source's includes are processed, so that sources that include each other are
//! processed once each.
//!
//! A directive is what the pattern `#include\s*"(.*)"` matches, searching from the start of the
//! source and going on after each match: the keyword, any white space (in the Unicode sense),
//! a double quote, then the path, which runs up to the last double quote before the end of the
//! line.
use vstd::prelude::*;

verus! {

/// The bytes of `#include`.
pub open spec fn include_keyword() -> Seq<u8> {
    seq![35u8, 105u8, 110u8, 99u8, 108u8, 117u8, 100u8, 101u8]
}

/// The double quote.
pub open spec fn quote() -> u8 {
    34u8
}

/// The line feed.
pub open spec fn line_feed() -> u8 {
    10u8
}

/// The length of the UTF-8 encoding of a white space character (Unicode's White_Space) that
/// starts at `i`, or 0 when none starts there.
pub open spec fn space_width(s: Seq<u8>, i: int) -> int {
    if 0 <= i < s.len() {
        let b = s[i];
        if b == 32 || (9 <= b && b <= 13) {
            1
        } else if b == 0xC2 && i + 1 < s.len() && (s[i + 1] == 0x85 || s[i + 1] == 0xA0) {
            2
        } else if i + 2 < s.len() && ((b == 0xE1 && s[i + 1] == 0x9A && s[i + 2] == 0x80) || (b == 0xE2
            && s[i + 1] == 0x80 && ((0x80 <= s[i + 2] && s[i + 2] <= 0x8A) || s[i + 2] == 0xA8 || s[i
            + 2] == 0xA9 || s[i + 2] == 0xAF)) || (b == 0xE2 && s[i + 1] == 0x81 && s[i + 2] == 0x9F)
            || (b == 0xE3 && s[i + 1] == 0x80 && s[i + 2] == 0x80)) {
            3
        } else {
            0
        }
    } else {
        0
    }
}

/// Where the run of white space that starts at `i` ends.
pub open spec fn spaces_end(s: Seq<u8>, i: int) -> int
    decreases s.len() - i,
{
    if 0 <= i < s.len() && space_width(s, i) > 0 {
        spaces_end(s, i + space_width(s, i))
    } else {
        i
    }
}

/// The first line feed at or after `i`, or the end of `s`.
pub open spec fn line_end(s: Seq<u8>, i: int) -> int
    decreases s.len() - i,
{
    if 0 <= i < s.len() && s[i] != line_feed() {
        line_end(s, i + 1)
    } else {
        i
    }
}

/// The last double quote among the positions `lo .. hi`, or -1 when there is none.
pub open spec fn last_quote(s: Seq<u8>, lo: int, hi: int) -> int
    decreases hi - lo,
{
    if lo < hi {
        if s[hi - 1] == quote() {
            hi - 1
        } else {
            last_quote(s, lo, hi - 1)
        }
    } else {
        -1
    }
}

pub proof fn lemma_spaces_end_bounds(s: Seq<u8>, i: int)
    requires
        0 <= i <= s.len(),
    ensures
        i <= spaces_end(s, i) <= s.len(),
    decreases s.len() - i,
{
    if i < s.len() && space_width(s, i) > 0 {
        lemma_spaces_end_bounds(s, i + space_width(s, i));
    }
}

pub proof fn lemma_line_end_bounds(s: Seq<u8>, i: int)
    requires
        0 <= i <= s.len(),
    ensures
        i <= line_end(s, i) <= s.len(),
    decreases s.len() - i,
{
    if i < s.len() && s[i] != line_feed() {
        lemma_line_end_bounds(s, i + 1);
    }
}

pub proof fn lemma_last_quote_bounds(s: Seq<u8>, lo: int, hi: int)
    ensures
        last_quote(s, lo, hi) == -1 || (lo <= last_quote(s, lo, hi) < hi && s[last_quote(s, lo, hi)]
            == quote()),
    decreases hi - lo,
{
    if lo < hi && s[hi - 1] != quote() {
        lemma_last_quote_bounds(s, lo, hi - 1);
    }
}

/// The directive that starts at `i`, if one does: the position where its path starts and the
/// position of its closing quote.
pub open spec fn directive_at(s: Seq<u8>, i: int) -> Option<(int, int)> {
    if 0 <= i && i + 8 <= s.len() && s.subrange(i, i + 8) == include_keyword() {
        let w = spaces_end(s, i + 8);
        if w < s.len() && s[w] == quote() {
            let q = last_quote(s, w + 1, line_end(s, w + 1));
            if q >= 0 {
                Some((w + 1, q))
            } else {
                None
            }
        } else {
            None
        }
    } else {
        None
    }
}

pub proof fn lemma_directive_at_bounds(s: Seq<u8>, i: int)
    ensures
        directive_at(s, i) matches Some((p, q)) ==> i + 8 < p <= q < s.len() && s[q] == quote(),
{
    if 0 <= i && i + 8 <= s.len() && s.subrange(i, i + 8) == include_keyword() {
        lemma_spaces_end_bounds(s, i + 8);
        let w = spaces_end(s, i + 8);
        if w < s.len() && s[w] == quote() {
            lemma_line_end_bounds(s, w + 1);
            lemma_last_quote_bounds(s, w + 1, line_end(s, w + 1));
        }
    }
}

/// The directives of `s` found by searching from `i` on: for each, where it starts, where its
/// path starts and where its closing quote stands.
pub open spec fn directives_from(s: Seq<u8>, i: int) -> Seq<(int, int, int)>
    decreases s.len() - i,
{
    if 0 <= i < s.len() {
        proof {
            lemma_directive_at_bounds(s, i);
        }
        match directive_at(s, i) {
            Some((p, q)) => seq![(i, p, q)] + directives_from(s, q + 1),
            None => directives_from(s, i + 1),
        }
    } else {
        Seq::empty()
    }
}

/// What `include_spans` hands out for the directives `d` of `s`: the span of each directive,
/// from its first byte to just after its closing quote, and its path.
pub open spec fn spans_of(s: Seq<u8>, d: Seq<(int, int, int)>) -> Seq<(usize, usize, Seq<u8>)> {
    d.map_values(|x: (int, int, int)| (x.0 as usize, (x.2 + 1) as usize, s.subrange(x.1, x.2)))
}

/// The view of spans as handed out.
pub open spec fn spans_view(spans: Seq<(usize, usize, Vec<u8>)>) -> Seq<(usize, usize, Seq<u8>)> {
    spans.map_values(|x: (usize, usize, Vec<u8>)| (x.0, x.1, x.2@))
}

/// The directives found from `i` on start at or after `i`, lie within `s`, and follow each
/// other without overlapping.
proof fn lemma_directives_ordered(s: Seq<u8>, i: int)
    requires
        0 <= i,
    ensures
        forall|k: int|
            0 <= k < directives_from(s, i).len() ==> i <= (#[trigger] directives_from(s, i)[k]).0 && directives_from(
                s,
                i,
            )[k].0 < directives_from(s, i)[k].1 <= directives_from(s, i)[k].2 < s.len(),
        forall|k: int|
            0 <= k < directives_from(s, i).len() - 1 ==> (#[trigger] directives_from(s, i)[k]).2 + 1
                <= directives_from(s, i)[k + 1].0,
    decreases s.len() - i,
{
    if i < s.len() {
        lemma_directive_at_bounds(s, i);
        match directive_at(s, i) {
            Some((p, q)) => {
                lemma_directives_ordered(s, q + 1);
                let rest = directives_from(s, q + 1);
                let d = directives_from(s, i);
                assert(d == seq![(i, p, q)] + rest);
                assert forall|k: int| 0 <= k < d.len() implies i <= (#[trigger] d[k]).0 && d[k].0 < d[k].1
                    <= d[k].2 < s.len() by {
                    if k > 0 {
                        assert(d[k] == rest[k - 1]);
                    }
                }
                assert forall|k: int| 0 <= k < d.len() - 1 implies (#[trigger] d[k]).2 + 1 <= d[k + 1].0 by {
                    assert(d[k + 1] == rest[k]);
                    if k > 0 {
                        assert(d[k] == rest[k - 1]);
                    }
                }
            },
            None => {
                lemma_directives_ordered(s, i + 1);
                assert(directives_from(s, i) == directives_from(s, i + 1));
            },
        }
    } else {
        assert(directives_from(s, i).len() == 0);
    }
}

/// The spans that `include_spans` finds stand in order, one after the other, within the
/// source: they can be handed to `rewrite_includes` as they are.
pub proof fn law_found_spans_in_order(source: Seq<u8>, spans: Seq<(usize, usize, Vec<u8>)>)
    requires
        spans_view(spans) == spans_of(source, directives_from(source, 0)),
        source.len() <= usize::MAX,
    ensures
        spans_in_order(spans, source.len() as int),
{
    let d = directives_from(source, 0);
    lemma_directives_ordered(source, 0);
    assert forall|k: int| 0 <= k < spans.len() implies gap_start(spans, k) <= (#[trigger] spans[k]).0 <= spans[k].1
        <= source.len() by {
        assert(spans_view(spans).len() == spans.len());
        assert(0 <= d[k].0 < d[k].1 <= d[k].2 < source.len());
        assert(spans_view(spans)[k] == (spans[k].0, spans[k].1, spans[k].2@));
        assert(spans_view(spans)[k] == spans_of(source, d)[k]);
        assert(spans[k].0 == d[k].0 && spans[k].1 == d[k].2 + 1);
        if k > 0 {
            assert(0 <= d[k - 1].0 < d[k - 1].1 <= d[k - 1].2 < source.len());
            assert(d[k - 1].2 + 1 <= d[k].0);
            assert(spans_view(spans)[k - 1] == (spans[k - 1].0, spans[k - 1].1, spans[k - 1].2@));
            assert(spans_view(spans)[k - 1] == spans_of(source, d)[k - 1]);
            assert(spans[k - 1].1 == d[k - 1].2 + 1);
        }
    }
}

/// Whether a white space character starts at `i`, and how long it is (see `space_width`).
fn exec_space_width(s: &[u8], i: usize) -> (w: usize)
    requires
        i < s@.len(),
    ensures
        w == space_width(s@, i as int),
{
    let n = s.len();
    let b = s[i];
    if b == 32 || (9 <= b && b <= 13) {
        1
    } else if b == 0xC2 && n - i > 1 && (s[i + 1] == 0x85 || s[i + 1] == 0xA0) {
        2
    } else if n - i > 2 {
        let b1 = s[i + 1];
        let b2 = s[i + 2];
        if (b == 0xE1 && b1 == 0x9A && b2 == 0x80) || (b == 0xE2 && b1 == 0x80 && ((0x80 <= b2 && b2
            <= 0x8A) || b2 == 0xA8 || b2 == 0xA9 || b2 == 0xAF)) || (b == 0xE2 && b1 == 0x81 && b2
            == 0x9F) || (b == 0xE3 && b1 == 0x80 && b2 == 0x80) {
            3
        } else {
            0
        }
    } else {
        0
    }
}

/// Whether `#include` starts at `i`.
fn keyword_at(s: &[u8], i: usize) -> (r: bool)
    requires
        i <= s@.len(),
    ensures
        r == (i + 8 <= s@.len() && s@.subrange(i as int, i + 8) == include_keyword()),
{
    if s.len() - i < 8 {
        return false;
    }
    let r = s[i] == 35 && s[i + 1] == 105 && s[i + 2] == 110 && s[i + 3] == 99 && s[i + 4] == 108
        && s[i + 5] == 117 && s[i + 6] == 100 && s[i + 7] == 101;
    proof {
        if r {
            assert(s@.subrange(i as int, i + 8) =~= include_keyword());
        } else {
            if s@.subrange(i as int, i + 8) == include_keyword() {
                assert(s@.subrange(i as int, i + 8)[0] == s@[i as int]);
                assert(s@.subrange(i as int, i + 8)[1] == s@[i + 1]);
                assert(s@.subrange(i as int, i + 8)[2] == s@[i + 2]);
                assert(s@.subrange(i as int, i + 8)[3] == s@[i + 3]);
                assert(s@.subrange(i as int, i + 8)[4] == s@[i + 4]);
                assert(s@.subrange(i as int, i + 8)[5] == s@[i + 5]);
                assert(s@.subrange(i as int, i + 8)[6] == s@[i + 6]);
                assert(s@.subrange(i as int, i + 8)[7] == s@[i + 7]);
            }
        }
    }
    r
}

/// The directive that starts at `i`, if one does (see `directive_at`).
fn exec_directive_at(s: &[u8], i: usize) -> (r: Option<(usize, usize)>)
    requires
        i < s@.len(),
    ensures
        match r {
            Some((p, q)) => directive_at(s@, i as int) == Some((p as int, q as int)),
            None => directive_at(s@, i as int) is None,
        },
{
    if !keyword_at(s, i) {
        return None;
    }
    let n = s.len();
    let mut w = i + 8;
    while w < n && exec_space_width(s, w) > 0
        invariant
            i + 8 <= w <= n,
            n == s@.len(),
            spaces_end(s@, w as int) == spaces_end(s@, i + 8),
        decreases n - w,
    {
        w = w + exec_space_width(s, w);
    }
    if w >= n || s[w] != 34 {
        return None;
    }
    let mut e = w + 1;
    while e < n && s[e] != 10
        invariant
            w + 1 <= e <= n,
            n == s@.len(),
            line_end(s@, e as int) == line_end(s@, w + 1),
        decreases n - e,
    {
        e = e + 1;
    }
    let mut h = e;
    while h > w + 1 && s[h - 1] != 34
        invariant
            w + 1 <= h <= e <= n,
            n == s@.len(),
            e == line_end(s@, w + 1),
            last_quote(s@, w + 1, h as int) == last_quote(s@, w + 1, e as int),
        decreases h,
    {
        h = h - 1;
    }
    if h > w + 1 {
        Some((w + 1, h - 1))
    } else {
        None
    }
}

/// Finds the include directives of a shader source, in order: for each, the span it covers
/// (from its first byte to just after its closing quote) and the path it names.
pub fn include_spans(source: &[u8]) -> (spans: Vec<(usize, usize, Vec<u8>)>)
    ensures
        spans_view(spans@) == spans_of(source@, directives_from(source@, 0)),
{
    let n = source.len();
    let ghost s = source@;
    let mut spans: Vec<(usize, usize, Vec<u8>)> = Vec::new();
    let mut i: usize = 0;
    while i < n
        invariant
            n == s.len(),
            s == source@,
            i <= n,
            spans_view(spans@) + spans_of(s, directives_from(s, i as int)) == spans_of(
                s,
                directives_from(s, 0),
            ),
        decreases n - i,
    {
        proof {
            lemma_directive_at_bounds(s, i as int);
        }
        match exec_directive_at(source, i) {
            Some((p, q)) => {
                let path = slice_to_vec(source, p, q);
                let ghost rest = directives_from(s, q + 1);
                proof {
                    assert(directives_from(s, i as int) == seq![(i as int, p as int, q as int)] + rest);
                    assert(spans_of(s, seq![(i as int, p as int, q as int)] + rest) =~= seq![
                        (i, (q + 1) as usize, s.subrange(p as int, q as int)),
                    ] + spans_of(s, rest));
                }
                let ghost before = spans@;
                spans.push((i, q + 1, path));
                proof {
                    assert(spans_view(spans@) =~= spans_view(before).push(
                        (i, (q + 1) as usize, s.subrange(p as int, q as int)),
                    ));
                    assert(spans_view(spans@) + spans_of(s, rest) =~= spans_view(before) + (seq![
                        (i, (q + 1) as usize, s.subrange(p as int, q as int)),
                    ] + spans_of(s, rest)));
                }
                i = q + 1;
            },
            None => {
                i = i + 1;
            },
        }
    }
    assert(spans_of(s, directives_from(s, i as int)) =~= Seq::<(usize, usize, Seq<u8>)>::empty());
    assert(spans_view(spans@) + Seq::<(usize, usize, Seq<u8>)>::empty() =~= spans_view(spans@));
    spans
}

/// The bytes of `s` from `lo` up to `hi`.
fn slice_to_vec(s: &[u8], lo: usize, hi: usize) -> (v: Vec<u8>)
    requires
        lo <= hi <= s@.len(),
    ensures
        v@ == s@.subrange(lo as int, hi as int),
{
    let mut v: Vec<u8> = Vec::new();
    let mut k = lo;
    while k < hi
        invariant
            lo <= k <= hi <= s@.len(),
            v@ == s@.subrange(lo as int, k as int),
        decreases hi - k,
    {
        v.push(s[k]);
        assert(s@.subrange(lo as int, k + 1) =~= s@.subrange(lo as int, k as int).push(s@[k as int]));
        k = k + 1;
    }
    v
}

/// The decimal digits of `n`, without leading zeros.
pub open spec fn decimal(n: nat) -> Seq<u8>
    decreases n,
{
    if n < 10 {
        seq![(48 + n) as u8]
    } else {
        decimal(n / 10).push((48 + n % 10) as u8)
    }
}

/// The directive that names the source in slot `index`: `#include "index"`.
pub open spec fn directive_text(index: nat) -> Seq<u8> {
    include_keyword() + seq![32u8, quote()] + decimal(index) + seq![quote()]
}

/// Where the text before span `k` starts: just after span `k - 1`, or at 0.
pub open spec fn gap_start(spans: Seq<(usize, usize, Vec<u8>)>, k: int) -> int {
    if k <= 0 {
        0
    } else {
        spans[k - 1].1 as int
    }
}

/// Spans that stand in order, one after the other, within a text of `len` bytes.
pub open spec fn spans_in_order(spans: Seq<(usize, usize, Vec<u8>)>, len: int) -> bool {
    forall|k: int| 0 <= k < spans.len() ==> gap_start(spans, k) <= (#[trigger] spans[k]).0 <= spans[k].1 <= len
}

/// The text of `s` up to the end of span `k - 1`, each of the first `k` spans replaced by the
/// directive that names slot `indices[j]`.
pub open spec fn rewritten_prefix(
    s: Seq<u8>,
    spans: Seq<(usize, usize, Vec<u8>)>,
    indices: Seq<usize>,
    k: int,
) -> Seq<u8>
    decreases k,
{
    if k <= 0 {
        Seq::empty()
    } else {
        rewritten_prefix(s, spans, indices, k - 1) + s.subrange(gap_start(spans, k - 1), spans[k - 1].0 as int)
            + directive_text(indices[k - 1] as nat)
    }
}

/// `s` with each span replaced by the directive that names the corresponding slot.
pub open spec fn rewritten(s: Seq<u8>, spans: Seq<(usize, usize, Vec<u8>)>, indices: Seq<usize>) -> Seq<u8> {
    rewritten_prefix(s, spans, indices, spans.len() as int) + s.subrange(
        gap_start(spans, spans.len() as int),
        s.len() as int,
    )
}

/// Appends the decimal digits of `n`.
fn push_decimal(out: &mut Vec<u8>, n: usize)
    ensures
        final(out)@ == old(out)@ + decimal(n as nat),
    decreases n,
{
    if n >= 10 {
        push_decimal(out, n / 10);
    }
    out.push((48 + n % 10) as u8);
    assert(n < 10 ==> n % 10 == n);
}

/// Appends the bytes of `s` from `lo` up to `hi`.
fn push_range(out: &mut Vec<u8>, s: &[u8], lo: usize, hi: usize)
    requires
        lo <= hi <= s@.len(),
    ensures
        final(out)@ == old(out)@ + s@.subrange(lo as int, hi as int),
{
    let mut k = lo;
    while k < hi
        invariant
            lo <= k <= hi <= s@.len(),
            out@ == old(out)@ + s@.subrange(lo as int, k as int),
        decreases hi - k,
    {
        out.push(s[k]);
        assert(s@.subrange(lo as int, k + 1) =~= s@.subrange(lo as int, k as int).push(s@[k as int]));
        k = k + 1;
    }
}

/// Rewrites each directive of a source (the `spans`, as `include_spans` finds them) to name
/// the slot of the source it includes, `indices[k]` for span `k`: the text between the spans
/// stays as it is.
pub fn rewrite_includes(source: &[u8], spans: &Vec<(usize, usize, Vec<u8>)>, indices: &Vec<usize>) -> (out: Vec<u8>)
    requires
        spans_in_order(spans@, source@.len() as int),
        indices@.len() == spans@.len(),
    ensures
        out@ == rewritten(source@, spans@, indices@),
{
    let mut out: Vec<u8> = Vec::new();
    let mut pos: usize = 0;
    let mut k: usize = 0;
    while k < spans.len()
        invariant
            spans_in_order(spans@, source@.len() as int),
            indices@.len() == spans@.len(),
            k <= spans@.len(),
            pos == gap_start(spans@, k as int),
            out@ == rewritten_prefix(source@, spans@, indices@, k as int),
        decreases spans@.len() - k,
    {
        let start = spans[k].0;
        proof {
            assert(gap_start(spans@, k as int) <= spans@[k as int].0 <= spans@[k as int].1 <= source@.len());
        }
        let ghost before = out@;
        push_range(&mut out, source, pos, start);
        let ghost mid = out@;
        out.push(35);
        out.push(105);
        out.push(110);
        out.push(99);
        out.push(108);
        out.push(117);
        out.push(100);
        out.push(101);
        out.push(32);
        out.push(34);
        let ghost head = out@;
        push_decimal(&mut out, indices[k]);
        out.push(34);
        proof {
            assert(head =~= mid + (include_keyword() + seq![32u8, quote()]));
            assert(out@ =~= mid + directive_text(indices@[k as int] as nat));
            assert(out@ =~= rewritten_prefix(source@, spans@, indices@, k + 1));
        }
        pos = spans[k].1;
        k = k + 1;
    }
    push_range(&mut out, source, pos, source.len());
    out
}

/// Turns each forward slash of an included path into a backslash, the separator the paths are
/// resolved with.
pub fn fix_separators(path: &[u8]) -> (fixed: Vec<u8>)
    ensures
        fixed@ == path@.map_values(|b: u8| if b == 47 { 92u8 } else { b }),
{
    let mut fixed: Vec<u8> = Vec::new();
    let mut k: usize = 0;
    while k < path.len()
        invariant
            k <= path@.len(),
            fixed@ == path@.take(k as int).map_values(|b: u8| if b == 47 { 92u8 } else { b }),
        decreases path@.len() - k,
    {
        let b = path[k];
        fixed.push(if b == 47 { 92 } else { b });
        assert(path@.take(k + 1) =~= path@.take(k as int).push(b));
        assert(fixed@ =~= path@.take(k + 1).map_values(|b: u8| if b == 47 { 92u8 } else { b }));
        k = k + 1;
    }
    assert(path@.take(k as int) =~= path@);
    fixed
}

/// The processed sources of an export, by slot, and for each slot the source it was reserved
/// for (which tells whether a source already has a slot).
pub struct ShaderStrings {
    pub strings: Vec<Vec<u8>>,
    pub sources: Vec<Vec<u8>>,
}

/// The sources, by slot.
pub open spec fn bytes_view(v: Seq<Vec<u8>>) -> Seq<Seq<u8>> {
    v.map_values(|x: Vec<u8>| x@)
}

impl ShaderStrings {
    /// One source per slot, and no source in two slots.
    pub open spec fn wf(&self) -> bool {
        &&& self.sources@.len() == self.strings@.len()
        &&& bytes_view(self.sources@).no_duplicates()
    }

    /// The slot of `source`, if it has one.
    pub open spec fn slot_of(&self, source: Seq<u8>) -> Option<int> {
        if bytes_view(self.sources@).contains(source) {
            Some(bytes_view(self.sources@).index_of(source))
        } else {
            None
        }
    }

    /// No slots.
    pub fn new() -> (t: Self)
        ensures
            t.strings@.len() == 0,
            t.sources@.len() == 0,
            t.wf(),
    {
        ShaderStrings { strings: Vec::new(), sources: Vec::new() }
    }
}

/// Whether two byte strings are equal.
fn same_bytes(a: &Vec<u8>, b: &Vec<u8>) -> (r: bool)
    ensures
        r == (a@ == b@),
{
    if a.len() != b.len() {
        return false;
    }
    let mut k: usize = 0;
    while k < a.len()
        invariant
            a@.len() == b@.len(),
            k <= a@.len(),
            a@.take(k as int) == b@.take(k as int),
        decreases a@.len() - k,
    {
        if a[k] != b[k] {
            assert(a@.take(k + 1)[k as int] != b@.take(k + 1)[k as int]);
            assert(a@ != b@ || a@.take(k + 1) == b@.take(k + 1));
            return false;
        }
        assert(a@.take(k + 1) =~= a@.take(k as int).push(a@[k as int]));
        assert(b@.take(k + 1) =~= b@.take(k as int).push(b@[k as int]));
        k = k + 1;
    }
    assert(a@.take(k as int) =~= a@);
    assert(b@.take(k as int) =~= b@);
    true
}

/// Gives `source` a slot unless it has one: `Err(i)` when it already has slot `i`, nothing
/// changed; else `Ok(n)`, `n` the number of slots before, where slot `n` is now reserved for
/// `source` and empty until `fill_shader` fills it.
pub fn reserve_shader(strings: &mut ShaderStrings, source: &Vec<u8>) -> (r: Result<usize, usize>)
    requires
        old(strings).wf(),
    ensures
        final(strings).wf(),
        match r {
            Err(i) => old(strings).slot_of(source@) == Some(i as int) && *final(strings) == *old(strings),
            Ok(n) => {
                &&& old(strings).slot_of(source@) is None
                &&& n == old(strings).strings@.len()
                &&& bytes_view(final(strings).sources@) == bytes_view(old(strings).sources@).push(source@)
                &&& bytes_view(final(strings).strings@) == bytes_view(old(strings).strings@).push(Seq::empty())
                &&& final(strings).slot_of(source@) == Some(n as int)
            },
        },
{
    let ghost srcs = bytes_view(strings.sources@);
    let mut k: usize = 0;
    while k < strings.sources.len()
        invariant
            k <= strings.sources@.len(),
            srcs == bytes_view(strings.sources@),
            strings.wf(),
            forall|j: int| 0 <= j < k ==> srcs[j] != source@,
        decreases strings.sources@.len() - k,
    {
        if same_bytes(&strings.sources[k], source) {
            proof {
                assert(srcs[k as int] == source@);
                assert(srcs.contains(source@));
                let c = srcs.index_of(source@);
                assert(0 <= c < srcs.len() && srcs[c] == source@);
                assert(c == k as int);
            }
            return Err(k);
        }
        k = k + 1;
    }
    let n = strings.strings.len();
    let ghost old_strings = bytes_view(strings.strings@);
    strings.sources.push(source.clone());
    strings.strings.push(Vec::new());
    proof {
        assert(!srcs.contains(source@));
        assert(bytes_view(strings.sources@) =~= srcs.push(source@));
        assert(bytes_view(strings.strings@) =~= old_strings.push(Seq::empty()));
        let v = srcs.push(source@);
        assert forall|a: int, b: int| 0 <= a < v.len() && 0 <= b < v.len() && a != b implies v[a] != v[b] by {
            if a < srcs.len() && b < srcs.len() {
            } else if a == srcs.len() {
                assert(srcs[b] != source@);
            } else {
                assert(srcs[a] != source@);
            }
        }
        assert(v[n as int] == source@);
        assert(v.contains(source@));
        assert(v.index_of(source@) == n as int);
    }
    Ok(n)
}

/// Fills slot `slot` with its processed source; the other slots stay as they are.
pub fn fill_shader(strings: &mut ShaderStrings, slot: usize, processed: Vec<u8>)
    requires
        old(strings).wf(),
        slot < old(strings).strings@.len(),
    ensures
        final(strings).wf(),
        bytes_view(final(strings).strings@) == bytes_view(old(strings).strings@).update(slot as int, processed@),
        final(strings).sources@ == old(strings).sources@,
{
    let ghost before = bytes_view(strings.strings@);
    strings.strings.set(slot, processed);
    assert(bytes_view(strings.strings@) =~= before.update(slot as int, processed@));
}

} // verus!
