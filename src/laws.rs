//! Properties of the scanner, the renderer and the splicer.

use vstd::prelude::*;
use vstd::utf8::{encode_scalar, encode_utf8};

use crate::anchor::anchor_spec;
use crate::splice::{
    block_end, block_end_from, entries_ok, first_h2, has_toc, insertion_point, is_ascii_ws,
    is_blank, is_line_start, is_toc_line, lemma_block_end_shift, lemma_entries_scan,
    lemma_h2_from_bounds, lemma_h2_from_exact, lemma_line_end, lemma_line_end_at,
    lemma_line_end_prefix, lemma_line_end_shift, lemma_span_bounds, line_end, span_end, spliced,
    starts_h2, toc_heading_bytes,
};
use crate::toc::{
    fence_after, hash_run, hashes_from, indent, is_fence, line_heading, render, render_body,
    render_line, scan, skip_ws_from, toc_header, toc_heading, toc_text, HeadingModel,
};

verus! {

/// The table of contents is a function of the document's lines and the
/// maximum depth: the same input always renders the same text.
pub proof fn lemma_toc_deterministic(a: Seq<Seq<char>>, b: Seq<Seq<char>>, d: nat)
    requires
        a == b,
    ensures
        toc_text(a, d) == toc_text(b, d),
{
}

/// A splice keeps every byte before the insertion point and every byte after
/// the replaced span, and puts the table exactly between them.
pub proof fn lemma_splice_preserves(doc: Seq<u8>, toc: Seq<u8>)
    ensures
        ({
            let p = insertion_point(doc);
            let e = span_end(doc);
            let r = spliced(doc, toc);
            &&& r.len() == doc.len() - (e - p) + toc.len()
            &&& r.subrange(0, p) == doc.subrange(0, p)
            &&& r.subrange(p, p + toc.len()) == toc
            &&& r.subrange(p + toc.len(), r.len() as int) == doc.subrange(e, doc.len() as int)
        }),
{
    lemma_span_bounds(doc);
    let p = insertion_point(doc);
    let e = span_end(doc);
    let r = spliced(doc, toc);
    assert(r.subrange(0, p) =~= doc.subrange(0, p));
    assert(r.subrange(p, p + toc.len()) =~= toc);
    assert(r.subrange(p + toc.len(), r.len() as int) =~= doc.subrange(e, doc.len() as int));
}

/// Two prefixes that leave the same code-block flag and the same headings
/// behave alike on everything that follows.
pub proof fn lemma_scan_same_suffix(a: Seq<Seq<char>>, b: Seq<Seq<char>>, post: Seq<Seq<char>>, d: nat)
    requires
        fence_after(a) == fence_after(b),
        scan(a, d) == scan(b, d),
    ensures
        fence_after(a + post) == fence_after(b + post),
        scan(a + post, d) == scan(b + post, d),
    decreases post.len(),
{
    if post.len() == 0 {
        assert(a + post =~= a);
        assert(b + post =~= b);
    } else {
        lemma_scan_same_suffix(a, b, post.drop_last(), d);
        assert((a + post).drop_last() =~= a + post.drop_last());
        assert((b + post).drop_last() =~= b + post.drop_last());
        assert((a + post).last() == post.last());
        assert((b + post).last() == post.last());
    }
}

/// After an opening fence line, lines without a fence stay inside the code
/// block and add no heading.
pub proof fn lemma_open_fence_skipped(pre: Seq<Seq<char>>, f: Seq<char>, rest: Seq<Seq<char>>, d: nat)
    requires
        !fence_after(pre),
        is_fence(f),
        forall|k: int| 0 <= k < rest.len() ==> !is_fence(#[trigger] rest[k]),
    ensures
        fence_after(pre.push(f) + rest),
        scan(pre.push(f) + rest, d) == scan(pre, d),
    decreases rest.len(),
{
    if rest.len() == 0 {
        assert(pre.push(f) + rest =~= pre.push(f));
        assert(pre.push(f).drop_last() =~= pre);
    } else {
        lemma_open_fence_skipped(pre, f, rest.drop_last(), d);
        assert((pre.push(f) + rest).drop_last() =~= pre.push(f) + rest.drop_last());
        assert((pre.push(f) + rest).last() == rest[rest.len() - 1]);
    }
}

/// A heading-shaped line inside a fenced code block, closed or not, is not a
/// heading: a block that is opened and never closed adds nothing, and a block
/// that is closed adds nothing either, the scan going on after it as if the
/// block were not there.
pub proof fn lemma_fenced_block_skipped(
    pre: Seq<Seq<char>>,
    f: Seq<char>,
    mid: Seq<Seq<char>>,
    g: Seq<char>,
    post: Seq<Seq<char>>,
    d: nat,
)
    requires
        !fence_after(pre),
        is_fence(f),
        is_fence(g),
        forall|k: int| 0 <= k < mid.len() ==> !is_fence(#[trigger] mid[k]),
    ensures
        scan(pre.push(f) + mid, d) == scan(pre, d),
        scan(pre.push(f) + mid.push(g) + post, d) == scan(pre + post, d),
        toc_text(pre.push(f) + mid, d) == toc_text(pre, d),
        toc_text(pre.push(f) + mid.push(g) + post, d) == toc_text(pre + post, d),
{
    lemma_open_fence_skipped(pre, f, mid, d);
    let a = pre.push(f) + mid.push(g);
    assert(a.drop_last() =~= pre.push(f) + mid);
    assert(a.last() == g);
    assert(hashes_from(g, 0) == 0);
    assert(!fence_after(a));
    assert(scan(a, d) == scan(pre, d));
    lemma_scan_same_suffix(a, pre, post, d);
}

/// Every heading that the scanner keeps has a level from one to the maximum
/// depth: deeper headings are absent from the table.
pub proof fn lemma_scan_levels(lines: Seq<Seq<char>>, d: nat)
    ensures
        forall|k: int| 0 <= k < scan(lines, d).len() ==> 1 <= (#[trigger] scan(lines, d)[k]).0 <= d,
    decreases lines.len(),
{
    if lines.len() > 0 {
        lemma_scan_levels(lines.drop_last(), d);
        let prev = scan(lines.drop_last(), d);
        if !fence_after(lines) {
            if let Some(h) = line_heading(lines.last(), d) {
                assert(scan(lines, d) == prev.push(h));
                assert forall|k: int| 0 <= k < scan(lines, d).len() implies 1 <= (#[trigger] scan(
                    lines,
                    d,
                )[k]).0 <= d by {
                    if k < prev.len() {
                        assert(scan(lines, d)[k] == prev[k]);
                    }
                }
            }
        }
    }
}

/// A line at level `d + 1` adds nothing to the scan for depth `d`, while a
/// well-formed heading line at level `d` outside a code block adds exactly
/// its heading, at level `d`.
pub proof fn lemma_depth_filter(lines: Seq<Seq<char>>, l: Seq<char>, d: nat)
    ensures
        hash_run(l) == d + 1 ==> scan(lines.push(l), d) == scan(lines, d),
        (hash_run(l) == d && d >= 1 && !fence_after(lines.push(l)) && d < l.len() && l[d as int]
            == ' ' && skip_ws_from(l, d as int) < l.len() && l != toc_heading()) ==> scan(
            lines.push(l),
            d,
        ) == scan(lines, d).push((d, l.subrange(skip_ws_from(l, d as int), l.len() as int))),
        hash_run(l) == d + 1 ==> toc_text(lines.push(l), d) == toc_text(lines, d),
        (hash_run(l) == d && d >= 1 && !fence_after(lines.push(l)) && d < l.len() && l[d as int]
            == ' ' && skip_ws_from(l, d as int) < l.len() && l != toc_heading()) ==> toc_text(
            lines.push(l),
            d,
        ) == (toc_header() + render_body(scan(lines, d)) + render_line(
            (d, l.subrange(skip_ws_from(l, d as int), l.len() as int)),
        )).drop_last(),
{
    assert(lines.push(l).drop_last() =~= lines);
    let h = (d, l.subrange(skip_ws_from(l, d as int), l.len() as int));
    let hs = scan(lines, d);
    assert(hs.push(h).drop_last() =~= hs);
    assert(toc_header() + (render_body(hs) + render_line(h)) =~= toc_header() + render_body(hs)
        + render_line(h));
}

/// The rendered lines of two heading sequences, one after the other.
proof fn lemma_render_body_concat(a: Seq<HeadingModel>, b: Seq<HeadingModel>)
    ensures
        render_body(a + b) == render_body(a) + render_body(b),
    decreases b.len(),
{
    if b.len() == 0 {
        assert(a + b =~= a);
        assert(render_body(a) + render_body(b) =~= render_body(a));
    } else {
        lemma_render_body_concat(a, b.drop_last());
        assert((a + b).drop_last() =~= a + b.drop_last());
        assert((a + b).last() == b.last());
        assert(render_body(a + b) =~= render_body(a) + render_body(b));
    }
}

/// The table lists every heading of the scan in document order, each on a
/// line of its own: `2 * (level - 1)` spaces, then `- [text](#anchor)`, with
/// the level from one to the maximum depth. With its final line break put
/// back, the table text is the header, the lines of the headings before the
/// `k`-th, the `k`-th heading's line, and the lines of those after it.
pub proof fn lemma_toc_entry(lines: Seq<Seq<char>>, d: nat, k: int)
    requires
        0 <= k < scan(lines, d).len(),
    ensures
        ({
            let hs = scan(lines, d);
            let h = hs[k];
            &&& 1 <= h.0 <= d
            &&& toc_text(lines, d).push('\n') == toc_header() + render_body(hs.subrange(0, k))
                + render_line(h) + render_body(hs.subrange(k + 1, hs.len() as int))
            &&& render_line(h) == indent((h.0 - 1) as nat) + seq!['-', ' ', '['] + h.1 + seq![
                ']',
                '(',
                '#',
            ] + anchor_spec(h.1) + seq![')', '\n']
        }),
{
    let hs = scan(lines, d);
    lemma_scan_levels(lines, d);
    let a = hs.subrange(0, k);
    let c = hs.subrange(k + 1, hs.len() as int);
    assert(hs =~= a.push(hs[k]) + c);
    lemma_render_body_concat(a.push(hs[k]), c);
    assert(a.push(hs[k]).drop_last() =~= a);
    let body = render_body(hs);
    assert(body == render_body(a) + render_line(hs[k]) + render_body(c));
    // The body ends with the last heading's line break.
    assert(body.len() > 0 && body.last() == '\n') by {
        assert(hs.drop_last().push(hs.last()) =~= hs);
        assert(body == render_body(hs.drop_last()) + render_line(hs.last()));
    }
    let t = toc_header() + body;
    assert(t.drop_last().push('\n') =~= t);
    assert(t =~= toc_header() + render_body(a) + render_line(hs[k]) + render_body(c));
}


/// The bytes that open every rendered table: a blank line, the heading line
/// `## Table of contents` and another blank line.
pub open spec fn table_header_bytes() -> Seq<u8> {
    seq![10u8, 10u8] + toc_heading_bytes() + seq![10u8, 10u8]
}

/// A table text with at least one entry, in the form the renderer writes:
/// the header, then entry lines that neither start with `#` nor are blank,
/// without a final line break.
pub open spec fn is_table_text(toc: Seq<u8>) -> bool {
    &&& toc.len() > 24
    &&& toc.subrange(0, 24) == table_header_bytes()
    &&& entries_ok(toc.subrange(24, toc.len() as int))
}

/// What follows a spliced-in table lets a later update end the block right
/// after the table: either nothing, or a line break followed by blank lines
/// (of any length and line terminator) up to the next line that starts with `#`.
pub open spec fn settled_tail(r: Seq<u8>) -> bool {
    r.len() == 0 || (r[0] == 10u8 && block_end_from(r, 1, 1) == 0)
}

/// The opening of every table, up to and including the heading's line break.
pub open spec fn table_opening_bytes() -> Seq<u8> {
    seq![10u8, 10u8] + toc_heading_bytes() + seq![10u8]
}

/// After a splice of a text that opens like a table, the result's first
/// second-level heading is that table's heading, two bytes after the
/// insertion point, and a later update finds it there.
proof fn lemma_table_found(doc: Seq<u8>, toc: Seq<u8>)
    requires
        toc.len() >= 23,
        toc.subrange(0, 23) == table_opening_bytes(),
    ensures
        first_h2(spliced(doc, toc)) == insertion_point(doc) + 2,
        line_end(spliced(doc, toc), insertion_point(doc) + 2) == insertion_point(doc) + 23,
        has_toc(spliced(doc, toc)),
        insertion_point(spliced(doc, toc)) == insertion_point(doc),
        block_end(spliced(doc, toc)) == block_end_from(spliced(doc, toc), insertion_point(doc) + 23, 0),
{
    lemma_span_bounds(doc);
    lemma_h2_from_bounds(doc, 0);
    let p = insertion_point(doc);
    let e = span_end(doc);
    let pre = doc.subrange(0, p);
    let r = doc.subrange(e, doc.len() as int);
    let d1 = spliced(doc, toc);
    let hdr = table_opening_bytes();
    assert(d1 =~= pre + toc + r);
    assert(p <= first_h2(doc));
    assert forall|j: int| 0 <= j < 23 implies d1[p + j] == #[trigger] hdr[j] by {
        assert(d1[p + j] == toc[j]);
        assert(toc[j] == toc.subrange(0, 23)[j]);
    }
    assert(d1[p] == 10u8 && d1[p + 1] == 10u8) by {
        assert(hdr[0] == 10u8 && hdr[1] == 10u8);
        assert(d1[p + 0] == hdr[0]);
    }
    // No second-level heading line starts before the table's.
    assert forall|k: int| 0 <= k < p + 2 implies !(is_line_start(d1, k) && starts_h2(d1, k)) by {
        if k + 2 < p {
            assert(d1[k] == doc[k] && d1[k + 1] == doc[k + 1] && d1[k + 2] == doc[k + 2]);
            if k > 0 {
                assert(d1[k - 1] == doc[k - 1]);
            }
            assert(!(is_line_start(doc, k) && starts_h2(doc, k)));
        } else if k + 2 == p {
            assert(d1[k + 2] == 10u8);
        } else if k + 1 == p {
            assert(d1[k + 1] == 10u8);
        } else {
            assert(d1[k] == 10u8);
        }
    }
    assert(is_line_start(d1, p + 2) && starts_h2(d1, p + 2)) by {
        assert(hdr[2] == 35u8 && hdr[3] == 35u8 && hdr[4] == 32u8);
    }
    lemma_h2_from_exact(d1, 0, p + 2);
    // Its line is the table heading with a line break.
    assert forall|k: int| p + 2 <= k < p + 22 implies d1[k] != 10u8 by {
        assert(d1[p + (k - p)] == hdr[k - p]);
    }
    assert(d1[p + 22] == 10u8) by {
        assert(hdr[22] == 10u8);
    }
    lemma_line_end_at(d1, p + 2, p + 22);
    assert(d1.subrange(p + 2, p + 23) =~= toc_heading_bytes().push(10u8)) by {
        assert forall|j: int| 0 <= j < 21 implies d1.subrange(p + 2, p + 23)[j]
            == #[trigger] toc_heading_bytes().push(10u8)[j] by {
            assert(d1[p + (j + 2)] == hdr[j + 2]);
        }
    }
    assert(is_toc_line(d1, p + 2, line_end(d1, p + 2)));
}

/// Splicing a table into a document, then updating the result with the same
/// table, gives the first result back: the update finds the table just put
/// in, and replaces exactly it. This holds whenever the bytes that follow the
/// replaced span are settled, e.g. when a blank line precedes the first
/// second-level heading of a document without a table.
pub proof fn lemma_update_idempotent(doc: Seq<u8>, toc: Seq<u8>)
    requires
        is_table_text(toc),
        settled_tail(doc.subrange(span_end(doc), doc.len() as int)),
    ensures
        has_toc(spliced(doc, toc)),
        insertion_point(spliced(doc, toc)) == insertion_point(doc),
        span_end(spliced(doc, toc)) == insertion_point(doc) + toc.len(),
        spliced(spliced(doc, toc), toc) == spliced(doc, toc),
{
    lemma_span_bounds(doc);
    let p = insertion_point(doc);
    let e = span_end(doc);
    let pre = doc.subrange(0, p);
    let r = doc.subrange(e, doc.len() as int);
    let d1 = spliced(doc, toc);
    let hdr = table_header_bytes();
    let b = toc.subrange(24, toc.len() as int);
    assert(toc =~= hdr + b);
    assert(toc.subrange(0, 23) =~= table_opening_bytes()) by {
        assert forall|j: int| 0 <= j < 23 implies toc.subrange(0, 23)[j]
            == #[trigger] table_opening_bytes()[j] by {
            assert(toc[j] == toc.subrange(0, 24)[j]);
        }
    }
    lemma_table_found(doc, toc);
    assert(d1 =~= pre + toc + r);
    // The block of the result ends right after the table.
    assert(d1[p + 23] == 10u8) by {
        assert(d1[p + 23] == toc[23]);
        assert(toc[23] == toc.subrange(0, 24)[23]);
    }
    lemma_line_end_at(d1, p + 23, p + 23);
    assert(block_end_from(d1, p + 23, 0) == block_end_from(d1, p + 24, 1));
    assert(d1 =~= (pre + hdr) + b + r);
    lemma_entries_scan(pre + hdr, b, r, 0, 1);
    if r.len() == 0 {
        assert(block_end_from(d1, p + 24 + b.len() + line_end(r, 0), 1) == d1.len());
    } else {
        lemma_line_end_at(r, 0, 0);
        assert(d1 =~= (pre + toc) + r);
        lemma_block_end_shift(pre + toc, r, 1, 1);
    }
    assert(block_end(d1) == p + toc.len());
    assert(spliced(d1, toc) =~= d1);
}

/// The same for a table without entries, whose text ends with the heading's
/// line break: the update gives the first result back whenever the lines
/// after the replaced span, up to the next line that starts with `#`, are
/// all blank.
pub proof fn lemma_empty_update_idempotent(doc: Seq<u8>)
    requires
        block_end_from(doc.subrange(span_end(doc), doc.len() as int), 0, 0) == 0,
    ensures
        has_toc(spliced(doc, table_opening_bytes())),
        spliced(spliced(doc, table_opening_bytes()), table_opening_bytes()) == spliced(
            doc,
            table_opening_bytes(),
        ),
{
    lemma_span_bounds(doc);
    let toc = table_opening_bytes();
    let p = insertion_point(doc);
    let e = span_end(doc);
    let pre = doc.subrange(0, p);
    let r = doc.subrange(e, doc.len() as int);
    let d1 = spliced(doc, toc);
    assert(toc.subrange(0, 23) =~= toc);
    lemma_table_found(doc, toc);
    assert(d1 =~= (pre + toc) + r);
    lemma_block_end_shift(pre + toc, r, 0, 0);
    assert(block_end(d1) == p + toc.len());
    assert(spliced(d1, toc) =~= d1);
}

/// UTF-8 encoding distributes over concatenation.
proof fn lemma_encode_concat(a: Seq<char>, b: Seq<char>)
    ensures
        encode_utf8(a + b) == encode_utf8(a) + encode_utf8(b),
    decreases a.len(),
{
    if a.len() == 0 {
        assert(a + b =~= b);
        assert(encode_utf8(a) + encode_utf8(b) =~= encode_utf8(b));
    } else {
        assert((a + b).drop_first() =~= a.drop_first() + b);
        assert((a + b)[0] == a[0]);
        lemma_encode_concat(a.drop_first(), b);
        assert(encode_utf8(a + b) =~= encode_utf8(a) + encode_utf8(b));
    }
}

/// An ASCII character encodes as its own byte; any other character encodes
/// as bytes of `0x80` and above.
proof fn lemma_encode_scalar_bytes(c: char)
    ensures
        (c as u32) < 128 ==> encode_scalar(c as u32) == seq![(c as u32) as u8],
        (c as u32) >= 128 ==> forall|k: int|
            0 <= k < encode_scalar(c as u32).len() ==> #[trigger] encode_scalar(c as u32)[k] >= 128,
        encode_scalar(c as u32).len() >= 1,
{
    let v = c as u32;
    if v < 128 {
        assert(((v & 0x7F) as u8) == (v as u8)) by (bit_vector)
            requires
                v < 128u32,
        ;
        assert(encode_scalar(v) =~= seq![v as u8]);
    } else {
        let x1 = ((v >> 6) & 0x1F) as u8;
        let x2 = ((v >> 12) & 0x0F) as u8;
        let x3 = ((v >> 18) & 0x7) as u8;
        let y0 = (v & 0x3F) as u8;
        let y1 = ((v >> 6) & 0x3F) as u8;
        let y2 = ((v >> 12) & 0x3F) as u8;
        assert(0xC0u8 | x1 >= 128u8) by (bit_vector);
        assert(0xE0u8 | x2 >= 128u8) by (bit_vector);
        assert(0xF0u8 | x3 >= 128u8) by (bit_vector);
        assert(0x80u8 | y0 >= 128u8) by (bit_vector);
        assert(0x80u8 | y1 >= 128u8) by (bit_vector);
        assert(0x80u8 | y2 >= 128u8) by (bit_vector);
    }
}

/// A character sequence without a line break encodes without the byte 10.
proof fn lemma_encode_no_newline(s: Seq<char>)
    requires
        forall|k: int| 0 <= k < s.len() ==> s[k] != '\n',
    ensures
        forall|k: int| 0 <= k < encode_utf8(s).len() ==> #[trigger] encode_utf8(s)[k] != 10u8,
    decreases s.len(),
{
    if s.len() > 0 {
        lemma_encode_no_newline(s.drop_first());
        lemma_encode_scalar_bytes(s[0]);
        let a = encode_scalar(s[0] as u32);
        assert(encode_utf8(s) == a + encode_utf8(s.drop_first()));
        assert(s[0] != '\n');
        assert forall|k: int| 0 <= k < encode_utf8(s).len() implies #[trigger] encode_utf8(s)[k]
            != 10u8 by {
            if k < a.len() {
                assert(encode_utf8(s)[k] == a[k]);
                if (s[0] as u32) < 128 {
                    assert(a[k] == (s[0] as u32) as u8);
                    if (s[0] as u32) == 10u32 {
                        vstd::utf8::char_u32_cast(s[0], 10u32);
                        assert(('\n' as u32) == 10u32);
                        vstd::utf8::char_u32_cast('\n', 10u32);
                    }
                }
            } else {
                assert(encode_utf8(s)[k] == encode_utf8(s.drop_first())[k - a.len()]);
            }
        }
    }
}

/// The encoding of a sequence that starts with an ASCII character starts
/// with that character's byte, and is not empty.
proof fn lemma_encode_first(s: Seq<char>)
    requires
        s.len() > 0,
        (s[0] as u32) < 128,
    ensures
        encode_utf8(s).len() > 0,
        encode_utf8(s)[0] == (s[0] as u32) as u8,
{
    lemma_encode_scalar_bytes(s[0]);
}

/// The lines of an entry list, one more line added after a line break.
proof fn lemma_entries_extend(x: Seq<u8>, y: Seq<u8>)
    requires
        entries_ok(x),
        entries_ok(y),
        forall|k: int| 0 <= k < y.len() ==> y[k] != 10u8,
    ensures
        entries_ok(x + seq![10u8] + y),
{
    let nl = seq![10u8];
    let z = x + nl + y;
    assert(z =~= x + (nl + y));
    assert(z =~= (x + nl) + y);
    assert forall|i: int| 0 <= i < z.len() && #[trigger] is_line_start(z, i) implies z[i] != 35u8
        && !is_blank(z, i, line_end(z, i)) by {
        if i < x.len() {
            assert(z[i] == x[i]);
            if i > 0 {
                assert(z[i - 1] == x[i - 1]);
            }
            assert(is_line_start(x, i));
            lemma_line_end(x, i);
            lemma_line_end_prefix(x, nl + y, i);
            let le = line_end(x, i);
            assert(!is_blank(x, i, le));
            let k = choose|k: int| i <= k < le && !is_ascii_ws(#[trigger] x[k]);
            assert(z[k] == x[k]);
            if le == x.len() {
                lemma_line_end_at(nl + y, 0, 0);
            }
        } else if i == x.len() {
            assert(z[i - 1] == x[x.len() - 1]);
        } else if i == x.len() + 1 {
            assert(z[i] == y[0]);
            assert(is_line_start(y, 0));
            lemma_line_end(y, 0);
            lemma_line_end_shift(x + nl, y, 0);
            assert(!is_blank(y, 0, line_end(y, 0)));
            let k = choose|k: int| 0 <= k < line_end(y, 0) && !is_ascii_ws(#[trigger] y[k]);
            assert(z[x.len() + 1 + k] == y[k]);
        } else {
            assert(z[i - 1] == y[i - 1 - x.len() - 1]);
        }
    }
    assert(z.last() == y.last());
    assert(z.len() > 0);
    assert(z.last() != 10u8);
    assert(entries_ok(z));
}

/// Neither the text nor the anchor of a heading holds a line break.
pub open spec fn one_line(h: HeadingModel) -> bool {
    &&& forall|k: int| 0 <= k < h.1.len() ==> h.1[k] != '\n'
    &&& forall|k: int| 0 <= k < anchor_spec(h.1).len() ==> anchor_spec(h.1)[k] != '\n'
}

/// One rendered line without its line break, as bytes, is a one-line entry list.
proof fn lemma_line_entries(h: HeadingModel)
    requires
        h.0 >= 1,
        one_line(h),
    ensures
        entries_ok(encode_utf8(render_line(h).drop_last())),
        forall|k: int|
            0 <= k < encode_utf8(render_line(h).drop_last()).len() ==> #[trigger] encode_utf8(
                render_line(h).drop_last(),
            )[k] != 10u8,
        encode_utf8(render_line(h)) == encode_utf8(render_line(h).drop_last()) + seq![10u8],
{
    let l = render_line(h);
    let lp = l.drop_last();
    let ind = indent((h.0 - 1) as nat);
    let rest = seq!['-', ' ', '['] + h.1 + seq![']', '(', '#'] + anchor_spec(h.1) + seq![')'];
    assert(lp =~= ind + rest);
    assert(l =~= lp + seq!['\n']);
    assert forall|k: int| 0 <= k < lp.len() implies lp[k] != '\n' by {
        if k < ind.len() {
        } else if k < ind.len() + 3 {
        } else if k < ind.len() + 3 + h.1.len() {
            assert(lp[k] == h.1[k - ind.len() - 3]);
        } else if k < ind.len() + 6 + h.1.len() {
        } else if k < ind.len() + 6 + h.1.len() + anchor_spec(h.1).len() {
            assert(lp[k] == anchor_spec(h.1)[k - ind.len() - 6 - h.1.len()]);
        }
    }
    lemma_encode_no_newline(lp);
    lemma_encode_concat(lp, seq!['\n']);
    lemma_encode_scalar_bytes('\n');
    assert(encode_utf8(seq!['\n']) =~= seq![10u8]) by {
        let nl = seq!['\n'];
        assert(nl.drop_first() =~= Seq::<char>::empty());
        assert(encode_utf8(nl) == encode_scalar(nl[0] as u32) + encode_utf8(nl.drop_first()));
        assert(nl[0] as u32 == 10u32);
        assert(encode_utf8(nl.drop_first()) =~= Seq::<u8>::empty());
    }
    // The line holds a `-`, which is no whitespace.
    lemma_encode_concat(ind, rest);
    lemma_encode_first(rest);
    let y = encode_utf8(lp);
    assert(y[encode_utf8(ind).len() as int] == 45u8);
    // It starts with a space or a `-`.
    lemma_encode_first(lp);
    assert(y[0] != 35u8);
    assert(entries_ok(y)) by {
        assert forall|i: int| 0 <= i < y.len() && is_line_start(y, i) implies y[i] != 35u8 && !is_blank(
            y,
            i,
            #[trigger] line_end(y, i),
        ) by {
            if i > 0 {
                assert(y[i - 1] != 10u8);
            } else {
                lemma_line_end(y, 0);
                if line_end(y, 0) < y.len() {
                    assert(y[line_end(y, 0) - 1] == 10u8);
                }
                assert(!is_ascii_ws(y[encode_utf8(ind).len() as int]));
            }
        }
    }
}

/// The rendered lines of a non-empty heading sequence, as bytes and without
/// the final line break, form an entry list.
proof fn lemma_body_entries(hs: Seq<HeadingModel>)
    requires
        hs.len() >= 1,
        forall|j: int| 0 <= j < hs.len() ==> #[trigger] hs[j].0 >= 1 && one_line(hs[j]),
    ensures
        encode_utf8(render_body(hs)) == encode_utf8(render_body(hs).drop_last()) + seq![10u8],
        entries_ok(encode_utf8(render_body(hs).drop_last())),
    decreases hs.len(),
{
    let h = hs.last();
    assert(hs[hs.len() - 1].0 >= 1 && one_line(hs[hs.len() - 1]));
    lemma_line_entries(h);
    let pre = render_body(hs.drop_last());
    let l = render_line(h);
    assert(render_body(hs) == pre + l);
    lemma_encode_concat(pre, l);
    assert(l.len() > 0 && l.last() == '\n');
    if hs.len() == 1 {
        assert(pre =~= Seq::<char>::empty());
        assert(render_body(hs) =~= l);
        assert(render_body(hs).drop_last() =~= l.drop_last());
    } else {
        assert forall|j: int| 0 <= j < hs.drop_last().len() implies #[trigger] hs.drop_last()[j].0 >= 1
            && one_line(hs.drop_last()[j]) by {
            assert(hs.drop_last()[j] == hs[j]);
        }
        lemma_body_entries(hs.drop_last());
        assert(render_body(hs).drop_last() =~= pre + l.drop_last());
        lemma_encode_concat(pre, l.drop_last());
        let x = encode_utf8(pre.drop_last());
        let y = encode_utf8(l.drop_last());
        lemma_entries_extend(x, y);
        assert(encode_utf8(render_body(hs).drop_last()) =~= x + seq![10u8] + y);
        assert(encode_utf8(render_body(hs)) =~= x + seq![10u8] + y + seq![10u8]);
    }
}

/// A rendered table with at least one entry, as bytes, has the table form,
/// provided no heading text or anchor holds a line break.
pub proof fn lemma_rendered_is_table_text(hs: Seq<HeadingModel>)
    requires
        hs.len() >= 1,
        forall|j: int| 0 <= j < hs.len() ==> #[trigger] hs[j].0 >= 1 && one_line(hs[j]),
    ensures
        is_table_text(encode_utf8(render(hs))),
{
    lemma_body_entries(hs);
    let b = render_body(hs);
    assert(b.len() > 0) by {
        if b.len() == 0 {
            assert(encode_utf8(b) =~= Seq::<u8>::empty());
        }
    }
    assert(render(hs) =~= toc_header() + b.drop_last());
    lemma_encode_concat(toc_header(), b.drop_last());
    assert(encode_utf8(toc_header()) =~= table_header_bytes()) by {
        vstd::utf8::is_ascii_chars_encode_utf8(toc_header());
    }
    let t = encode_utf8(render(hs));
    assert(t.subrange(0, 24) =~= table_header_bytes());
    assert(t.subrange(24, t.len() as int) =~= encode_utf8(b.drop_last()));
}


/// Splicing the rendered table of a document's lines into a document, then
/// updating the result with the same table, gives the first result back. No
/// heading text or anchor may hold a line break, and the bytes after the
/// replaced span must let the update's block end right after the table.
pub proof fn lemma_rendered_update_idempotent(doc: Seq<u8>, lines: Seq<Seq<char>>, d: nat)
    requires
        forall|j: int| 0 <= j < scan(lines, d).len() ==> one_line(#[trigger] scan(lines, d)[j]),
        scan(lines, d).len() >= 1 ==> settled_tail(doc.subrange(span_end(doc), doc.len() as int)),
        scan(lines, d).len() == 0 ==> block_end_from(
            doc.subrange(span_end(doc), doc.len() as int),
            0,
            0,
        ) == 0,
    ensures
        has_toc(spliced(doc, encode_utf8(toc_text(lines, d)))),
        spliced(spliced(doc, encode_utf8(toc_text(lines, d))), encode_utf8(toc_text(lines, d)))
            == spliced(doc, encode_utf8(toc_text(lines, d))),
{
    let hs = scan(lines, d);
    if hs.len() == 0 {
        assert(encode_utf8(toc_text(lines, d)) =~= table_opening_bytes()) by {
            assert(render_body(hs) =~= Seq::<char>::empty());
            assert(render(hs) =~= seq!['\n', '\n'] + toc_heading() + seq!['\n']);
            vstd::utf8::is_ascii_chars_encode_utf8(render(hs));
        }
        lemma_empty_update_idempotent(doc);
    } else {
        lemma_scan_levels(lines, d);
        assert forall|j: int| 0 <= j < hs.len() implies #[trigger] hs[j].0 >= 1 && one_line(hs[j]) by {
            assert(1 <= scan(lines, d)[j].0);
        }
        lemma_rendered_is_table_text(hs);
        lemma_update_idempotent(doc, encode_utf8(toc_text(lines, d)));
    }
}

} // verus!
