//! Locating the table of contents in a document's bytes and splicing a new
//! one in, leaving every other byte as it was.

use vstd::prelude::*;
use vstd::string::*;

verus! {

/// The bytes of `## Table of contents`.
pub open spec fn toc_heading_bytes() -> Seq<u8> {
    seq![35u8, 35, 32, 84, 97, 98, 108, 101, 32, 111, 102, 32, 99, 111, 110, 116, 101, 110, 116, 115]
}

/// The end of the line that holds position `i`: just past its `\n`, or the
/// end of the document.
pub open spec fn line_end(doc: Seq<u8>, i: int) -> int
    decreases doc.len() - i,
{
    if i < 0 || i >= doc.len() {
        doc.len() as int
    } else if doc[i] == 10u8 {
        i + 1
    } else {
        line_end(doc, i + 1)
    }
}

/// Whether position `i` begins a line.
pub open spec fn is_line_start(doc: Seq<u8>, i: int) -> bool {
    i == 0 || (0 < i <= doc.len() && doc[i - 1] == 10u8)
}

/// Whether the bytes at `i` are `## `.
pub open spec fn starts_h2(doc: Seq<u8>, i: int) -> bool {
    0 <= i && i + 3 <= doc.len() && doc[i] == 35u8 && doc[i + 1] == 35u8 && doc[i + 2] == 32u8
}

/// The start of the first line at or after `i` that begins with `## `, or the
/// document's length.
pub open spec fn h2_from(doc: Seq<u8>, i: int) -> int
    decreases doc.len() - i,
{
    if i < 0 || i >= doc.len() {
        doc.len() as int
    } else if is_line_start(doc, i) && starts_h2(doc, i) {
        i
    } else {
        h2_from(doc, i + 1)
    }
}

/// The start of the document's first second-level heading line, or its length.
pub open spec fn first_h2(doc: Seq<u8>) -> int {
    h2_from(doc, 0)
}

/// Whether the line `doc[s..e]` is the table's heading line, with no line
/// terminator, with `\n`, or with `\r\n`.
pub open spec fn is_toc_line(doc: Seq<u8>, s: int, e: int) -> bool {
    let l = doc.subrange(s, e);
    l == toc_heading_bytes() || l == toc_heading_bytes().push(10u8) || l
        == toc_heading_bytes().push(13u8).push(10u8)
}

/// Whether the first second-level heading of the document is the table's heading.
pub open spec fn has_toc(doc: Seq<u8>) -> bool {
    let h = first_h2(doc);
    h < doc.len() && is_toc_line(doc, h, line_end(doc, h))
}

/// Where a table goes: two bytes before the first second-level heading line
/// (the start of the document if that line is closer), or the end of the
/// document if there is no such line.
pub open spec fn insertion_point(doc: Seq<u8>) -> int {
    let h = first_h2(doc);
    if h < doc.len() {
        if h >= 2 {
            h - 2
        } else {
            0
        }
    } else {
        doc.len() as int
    }
}

/// ASCII whitespace, as `u8::is_ascii_whitespace` has it.
pub open spec fn is_ascii_ws(b: u8) -> bool {
    b == 32u8 || b == 9u8 || b == 10u8 || b == 12u8 || b == 13u8
}

/// Whether `doc[s..e]` holds ASCII whitespace only.
pub open spec fn is_blank(doc: Seq<u8>, s: int, e: int) -> bool {
    forall|k: int| s <= k < e ==> is_ascii_ws(#[trigger] doc[k])
}

/// The end of an existing table's block, scanning the lines that start at `i`
/// with `nb` bytes of blank lines counted so far: the start of the next line
/// that begins with `#`, moved back by the length of every blank line passed
/// (terminator included); or the document's end when no such line follows.
pub open spec fn block_end_from(doc: Seq<u8>, i: int, nb: int) -> int
    decreases doc.len() - i,
    via block_end_from_decreases
{
    if i < 0 || i >= doc.len() {
        doc.len() as int
    } else if doc[i] == 35u8 {
        i - nb
    } else {
        block_end_from(
            doc,
            line_end(doc, i),
            nb + if is_blank(doc, i, line_end(doc, i)) {
                line_end(doc, i) - i
            } else {
                0int
            },
        )
    }
}

#[via_fn]
proof fn block_end_from_decreases(doc: Seq<u8>, i: int, nb: int) {
    if 0 <= i < doc.len() {
        lemma_line_end(doc, i);
    }
}

/// A line ends after its start and no later than the document.
pub proof fn lemma_line_end(doc: Seq<u8>, i: int)
    requires
        0 <= i < doc.len(),
    ensures
        i < line_end(doc, i) <= doc.len(),
        forall|k: int| i <= k < line_end(doc, i) && doc[k] == 10u8 ==> k == line_end(doc, i) - 1,
        line_end(doc, i) < doc.len() ==> doc[line_end(doc, i) - 1] == 10u8,
    decreases doc.len() - i,
{
    if doc[i] != 10u8 {
        if i + 1 < doc.len() {
            lemma_line_end(doc, i + 1);
        } else {
            assert(line_end(doc, i + 1) == doc.len());
        }
    }
}

/// The end of the block that an update replaces.
pub open spec fn block_end(doc: Seq<u8>) -> int {
    block_end_from(doc, line_end(doc, first_h2(doc)), 0)
}

/// The span `[start, end)` that a splice replaces: the existing table's block,
/// or the empty span at the insertion point.
pub open spec fn span_end(doc: Seq<u8>) -> int {
    if has_toc(doc) {
        block_end(doc)
    } else {
        insertion_point(doc)
    }
}

/// The document with `doc[start..end]` replaced by `toc`.
pub open spec fn spliced(doc: Seq<u8>, toc: Seq<u8>) -> Seq<u8> {
    doc.subrange(0, insertion_point(doc)) + toc + doc.subrange(span_end(doc), doc.len() as int)
}


/// The block end lies between the scan's start, less the blank-line bytes
/// already counted, and the document's end.
pub proof fn lemma_block_end_bounds(doc: Seq<u8>, i: int, nb: int, m: int)
    requires
        0 <= i <= doc.len(),
        0 <= nb,
        m <= i - nb,
    ensures
        m <= block_end_from(doc, i, nb) <= doc.len(),
    decreases doc.len() - i,
{
    if i < doc.len() && doc[i] != 35u8 {
        let e = line_end(doc, i);
        lemma_line_end(doc, i);
        let nb2 = nb + if is_blank(doc, i, e) {
            e - i
        } else {
            0int
        };
        lemma_block_end_bounds(doc, e, nb2, m);
    }
}

/// The replaced span lies inside the document and starts at the insertion point.
pub proof fn lemma_span_bounds(doc: Seq<u8>)
    ensures
        0 <= insertion_point(doc) <= span_end(doc) <= doc.len(),
{
    lemma_h2_from_bounds(doc, 0);
    let h = first_h2(doc);
    if has_toc(doc) {
        lemma_line_end(doc, h);
        lemma_block_end_bounds(doc, line_end(doc, h), 0, line_end(doc, h));
    }
}

/// The first second-level heading is found at or after the scan's start.
pub proof fn lemma_h2_from_bounds(doc: Seq<u8>, i: int)
    requires
        0 <= i,
    ensures
        i <= h2_from(doc, i) <= doc.len() || (i > doc.len() && h2_from(doc, i) == doc.len()),
        h2_from(doc, i) < doc.len() ==> is_line_start(doc, h2_from(doc, i)) && starts_h2(
            doc,
            h2_from(doc, i),
        ),
        forall|k: int| i <= k < h2_from(doc, i) ==> !(is_line_start(doc, k) && starts_h2(doc, k)),
    decreases doc.len() - i,
{
    if i < doc.len() && !(is_line_start(doc, i) && starts_h2(doc, i)) {
        lemma_h2_from_bounds(doc, i + 1);
    }
}

/// Why a splice was refused.
pub enum TabocError {
    /// The document's first second-level heading is already a table of
    /// contents, and no update was asked for.
    AlreadyPresent,
}

impl TabocError {
    /// A description of the error for people.
    pub fn message(&self) -> (r: String)
        ensures
            r@ == "There's already a table of contents in the first heading of the second level of this file."@,
    {
        String::from_str(
            "There's already a table of contents in the first heading of the second level of this file.",
        )
    }
}

/// The end of the line that holds position `i`.
fn find_line_end(doc: &[u8], i: usize) -> (r: usize)
    requires
        i <= doc@.len(),
    ensures
        r == line_end(doc@, i as int),
        i <= r <= doc@.len(),
        i < doc@.len() ==> i < r,
{
    let mut j: usize = i;
    while j < doc.len() && doc[j] != 10u8
        invariant
            i <= j <= doc@.len(),
            line_end(doc@, i as int) == line_end(doc@, j as int),
        decreases doc@.len() - j,
    {
        j = j + 1;
    }
    if j < doc.len() {
        j + 1
    } else {
        j
    }
}

/// The start of the first line that begins with `## `, or the length.
fn find_first_h2(doc: &[u8]) -> (r: usize)
    ensures
        r == first_h2(doc@),
{
    let mut i: usize = 0;
    while i < doc.len()
        invariant
            i <= doc@.len(),
            first_h2(doc@) == h2_from(doc@, i as int),
        decreases doc@.len() - i,
    {
        let line_start = i == 0 || doc[i - 1] == 10u8;
        if line_start && doc.len() - i >= 3 && doc[i] == 35u8 && doc[i + 1] == 35u8 && doc[i + 2]
            == 32u8 {
            return i;
        }
        i = i + 1;
    }
    i
}

/// Whether `doc[s..e]` is the table's heading line, with or without a terminator.
fn is_toc_line_at(doc: &[u8], s: usize, e: usize) -> (r: bool)
    requires
        s <= e <= doc@.len(),
    ensures
        r == is_toc_line(doc@, s as int, e as int),
{
    let n = e - s;
    let body: usize = if n >= 2 && doc[e - 2] == 13u8 && doc[e - 1] == 10u8 {
        n - 2
    } else if n >= 1 && doc[e - 1] == 10u8 {
        n - 1
    } else {
        n
    };
    if body != 20 {
        proof {
            let l = doc@.subrange(s as int, e as int);
            let x = toc_heading_bytes();
            if l == x.push(13u8).push(10u8) {
                assert(l.len() == 22);
                assert(x.push(13u8).push(10u8)[20] == 13u8);
                assert(x.push(13u8).push(10u8)[21] == 10u8);
                assert(doc@[e - 2] == l[20] && doc@[e - 1] == l[21]);
            }
            if l == x.push(10u8) {
                assert(l.len() == 21);
                assert(x.push(10u8)[20] == 10u8);
                assert(x.push(10u8)[19] == 115u8);
                assert(doc@[e - 2] == l[19] && doc@[e - 1] == l[20]);
            }
            if l == x {
                assert(l.len() == 20);
                assert(doc@[e - 1] == l[19]);
            }
        }
        return false;
    }
    let expected: [u8; 20] = [35, 35, 32, 84, 97, 98, 108, 101, 32, 111, 102, 32, 99, 111, 110, 116, 101, 110, 116, 115];
    assert(expected@ =~= toc_heading_bytes());
    let mut k: usize = 0;
    while k < 20
        invariant
            k <= 20,
            s + 20 <= e,
            e <= doc@.len(),
            expected@ == toc_heading_bytes(),
            forall|j: int| 0 <= j < k ==> doc@[s + j] == toc_heading_bytes()[j],
        decreases 20 - k,
    {
        if doc[s + k] != expected[k] {
            proof {
                let l = doc@.subrange(s as int, e as int);
                assert(l[k as int] != toc_heading_bytes()[k as int]);
                assert(l != toc_heading_bytes());
                assert(l != toc_heading_bytes().push(10u8) && l != toc_heading_bytes().push(13u8).push(10u8)) by {
                    assert(toc_heading_bytes().push(10u8)[k as int] == toc_heading_bytes()[k as int]);
                    assert(toc_heading_bytes().push(13u8).push(10u8)[k as int] == toc_heading_bytes()[k as int]);
                }
            }
            return false;
        }
        k = k + 1;
    }
    proof {
        let l = doc@.subrange(s as int, e as int);
        if n == 20 {
            assert(l =~= toc_heading_bytes());
        } else if n == 21 {
            assert(l =~= toc_heading_bytes().push(10u8));
        } else {
            assert(l =~= toc_heading_bytes().push(13u8).push(10u8));
        }
    }
    true
}

/// Whether `doc[s..e]` holds ASCII whitespace only.
fn is_blank_at(doc: &[u8], s: usize, e: usize) -> (r: bool)
    requires
        s <= e <= doc@.len(),
    ensures
        r == is_blank(doc@, s as int, e as int),
{
    let mut k: usize = s;
    while k < e
        invariant
            s <= k <= e,
            e <= doc@.len(),
            is_blank(doc@, s as int, k as int),
        decreases e - k,
    {
        let b = doc[k];
        if !(b == 32u8 || b == 9u8 || b == 10u8 || b == 12u8 || b == 13u8) {
            return false;
        }
        k = k + 1;
    }
    true
}

/// The end of an existing table's block, whose lines start at `start`.
fn find_block_end(doc: &[u8], start: usize) -> (r: usize)
    requires
        start <= doc@.len(),
    ensures
        r == block_end_from(doc@, start as int, 0),
        start <= r <= doc@.len(),
{
    let mut i: usize = start;
    let mut nb: usize = 0;
    while i < doc.len() && doc[i] != 35u8
        invariant
            start <= i <= doc@.len(),
            nb <= i - start,
            block_end_from(doc@, start as int, 0) == block_end_from(doc@, i as int, nb as int),
        decreases doc@.len() - i,
    {
        let e = find_line_end(doc, i);
        if is_blank_at(doc, i, e) {
            nb = nb + (e - i);
        }
        i = e;
    }
    if i >= doc.len() {
        doc.len()
    } else {
        i - nb
    }
}

/// Finds the span `[start, end)` that a new table replaces: the existing
/// table's block when the document's first second-level heading is a table
/// of contents, else the empty span at the insertion point. An existing table
/// is an error unless `update_existing` is set.
pub fn locate(doc: &[u8], update_existing: bool) -> (r: Result<(usize, usize), TabocError>)
    ensures
        r is Err <==> (has_toc(doc@) && !update_existing),
        r matches Ok((s, e)) ==> s == insertion_point(doc@) && e == span_end(doc@) && s <= e
            <= doc@.len(),
{
    proof {
        lemma_span_bounds(doc@);
    }
    let h = find_first_h2(doc);
    if h >= doc.len() {
        return Ok((doc.len(), doc.len()));
    }
    let pos: usize = if h >= 2 {
        h - 2
    } else {
        0
    };
    let le = find_line_end(doc, h);
    if !is_toc_line_at(doc, h, le) {
        return Ok((pos, pos));
    }
    if !update_existing {
        return Err(TabocError::AlreadyPresent);
    }
    let end = find_block_end(doc, le);
    Ok((pos, end))
}

/// Appends `src[a..b]`.
fn append_range(out: &mut Vec<u8>, src: &[u8], a: usize, b: usize)
    requires
        a <= b <= src@.len(),
    ensures
        final(out)@ == old(out)@ + src@.subrange(a as int, b as int),
{
    let mut k: usize = a;
    while k < b
        invariant
            a <= k <= b,
            b <= src@.len(),
            out@ == old(out)@ + src@.subrange(a as int, k as int),
        decreases b - k,
    {
        out.push(src[k]);
        assert(out@ =~= old(out)@ + src@.subrange(a as int, k + 1));
        k = k + 1;
    }
}

/// The document with the new table put in place: inserted before the first
/// second-level heading, or replacing the existing table when
/// `update_existing` is set. Every byte outside the replaced span is kept.
pub fn splice(doc: &[u8], toc: &[u8], update_existing: bool) -> (r: Result<Vec<u8>, TabocError>)
    ensures
        r is Err <==> (has_toc(doc@) && !update_existing),
        r matches Ok(v) ==> v@ == spliced(doc@, toc@),
{
    match locate(doc, update_existing) {
        Err(e) => Err(e),
        Ok((s, e)) => {
            let mut out: Vec<u8> = Vec::new();
            append_range(&mut out, doc, 0, s);
            append_range(&mut out, toc, 0, toc.len());
            append_range(&mut out, doc, e, doc.len());
            assert(toc@.subrange(0, toc@.len() as int) =~= toc@);
            Ok(out)
        },
    }
}


/// Line ends are found the same way after a prefix.
pub proof fn lemma_line_end_shift(x: Seq<u8>, y: Seq<u8>, i: int)
    requires
        0 <= i <= y.len(),
    ensures
        line_end(x + y, x.len() + i) == x.len() + line_end(y, i),
    decreases y.len() - i,
{
    if i < y.len() {
        assert((x + y)[x.len() + i] == y[i]);
        if y[i] != 10u8 {
            lemma_line_end_shift(x, y, i + 1);
        }
    }
}

/// A line that starts in `x` ends in `x`, or runs on to the end of the first
/// line of `y`.
pub proof fn lemma_line_end_prefix(x: Seq<u8>, y: Seq<u8>, i: int)
    requires
        0 <= i < x.len(),
    ensures
        line_end(x, i) < x.len() || x.last() == 10u8 ==> line_end(x + y, i) == line_end(x, i),
        line_end(x, i) == x.len() && x.last() != 10u8 ==> line_end(x + y, i) == x.len()
            + line_end(y, 0),
    decreases x.len() - i,
{
    assert((x + y)[i] == x[i]);
    if x[i] != 10u8 {
        if i + 1 < x.len() {
            lemma_line_end_prefix(x, y, i + 1);
        } else {
            lemma_line_end_shift(x, y, 0);
            assert(line_end(x, i + 1) == x.len());
        }
    }
}

/// A line end found by its newline.
pub proof fn lemma_line_end_at(d: Seq<u8>, i: int, j: int)
    requires
        0 <= i <= j < d.len(),
        d[j] == 10u8,
        forall|k: int| i <= k < j ==> d[k] != 10u8,
    ensures
        line_end(d, i) == j + 1,
    decreases j - i,
{
    if i < j {
        lemma_line_end_at(d, i + 1, j);
    }
}

/// The block scan is found the same way after a prefix.
pub proof fn lemma_block_end_shift(x: Seq<u8>, y: Seq<u8>, i: int, nb: int)
    requires
        0 <= i <= y.len(),
    ensures
        block_end_from(x + y, x.len() + i, nb) == x.len() + block_end_from(y, i, nb),
    decreases y.len() - i,
{
    if i < y.len() {
        assert((x + y)[x.len() + i] == y[i]);
        if y[i] != 35u8 {
            lemma_line_end(y, i);
            lemma_line_end_shift(x, y, i);
            let e = line_end(y, i);
            assert(is_blank(x + y, x.len() + i, x.len() + e) == is_blank(y, i, e)) by {
                if is_blank(y, i, e) {
                    assert forall|k: int| x.len() + i <= k < x.len() + e implies is_ascii_ws(
                        #[trigger] (x + y)[k],
                    ) by {
                        assert((x + y)[k] == y[k - x.len()]);
                    }
                } else {
                    let k = choose|k: int| i <= k < e && !is_ascii_ws(#[trigger] y[k]);
                    assert((x + y)[x.len() + k] == y[k]);
                }
            }
            let nb2 = nb + if is_blank(y, i, e) {
                e - i
            } else {
                0int
            };
            lemma_block_end_shift(x, y, e, nb2);
        }
    }
}

/// The lines of a table's entry list: each begins with something other
/// than `#` and holds a byte that is not whitespace; the last has no line
/// break.
pub open spec fn entries_ok(b: Seq<u8>) -> bool {
    &&& b.len() > 0
    &&& b.last() != 10u8
    &&& forall|i: int|
        0 <= i < b.len() && is_line_start(b, i) ==> b[i] != 35u8 && !is_blank(
            b,
            i,
            #[trigger] line_end(b, i),
        )
}

/// The block scan passes over a table's entry lines without counting a
/// blank line, up to the end of the first line that follows them.
pub proof fn lemma_entries_scan(x: Seq<u8>, b: Seq<u8>, r: Seq<u8>, i: int, nb: int)
    requires
        entries_ok(b),
        0 <= i < b.len(),
        is_line_start(b, i),
    ensures
        block_end_from(x + b + r, x.len() + i, nb) == block_end_from(
            x + b + r,
            x.len() + b.len() + line_end(r, 0),
            nb,
        ),
    decreases b.len() - i,
{
    let d = x + b + r;
    assert(d =~= x + (b + r));
    lemma_line_end(b, i);
    lemma_line_end_shift(x, b + r, i);
    lemma_line_end_prefix(b, r, i);
    let le = line_end(b, i);
    assert(d[x.len() + i] == b[i]);
    assert(!is_blank(b, i, le));
    let k = choose|k: int| i <= k < le && !is_ascii_ws(#[trigger] b[k]);
    assert(d[x.len() + k] == b[k]);
    if le < b.len() {
        assert(line_end(d, x.len() + i) == x.len() + le);
        assert(!is_blank(d, x.len() + i, x.len() + le));
        lemma_entries_scan(x, b, r, le, nb);
    } else {
        assert(line_end(r, 0) >= 0) by {
            if r.len() > 0 {
                lemma_line_end(r, 0);
            }
        }
        assert(line_end(d, x.len() + i) == x.len() + b.len() + line_end(r, 0));
        assert(!is_blank(d, x.len() + i, x.len() + b.len() + line_end(r, 0)));
    }
}

/// `h2_from` finds the first heading line when nothing before it qualifies.
pub proof fn lemma_h2_from_exact(d: Seq<u8>, i: int, j: int)
    requires
        0 <= i <= j < d.len(),
        is_line_start(d, j) && starts_h2(d, j),
        forall|k: int| i <= k < j ==> !(is_line_start(d, k) && starts_h2(d, k)),
    ensures
        h2_from(d, i) == j,
    decreases j - i,
{
    if i < j {
        lemma_h2_from_exact(d, i + 1, j);
    }
}

} // verus!
