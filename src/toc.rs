//! The heading scanner and the table-of-contents renderer.

use vstd::prelude::*;
use vstd::string::*;

use crate::anchor::{anchor_spec, chars_of, make_link, push_char};

verus! {

/// `## Table of contents`, the heading line that opens a rendered table.
pub open spec fn toc_heading() -> Seq<char> {
    seq!['#', '#', ' ', 'T', 'a', 'b', 'l', 'e', ' ', 'o', 'f', ' ', 'c', 'o', 'n', 't', 'e', 'n', 't', 's']
}

/// The text that starts every rendered table: a blank line, the heading line
/// and another blank line.
pub open spec fn toc_header() -> Seq<char> {
    seq!['\n', '\n'] + toc_heading() + seq!['\n', '\n']
}

/// Unicode `White_Space`, the property behind `char::is_whitespace`.
pub open spec fn is_ws(c: char) -> bool {
    let u = c as u32;
    (9 <= u && u <= 13) || u == 32 || u == 0x85 || u == 0xA0 || u == 0x1680 || (0x2000 <= u
        && u <= 0x200A) || u == 0x2028 || u == 0x2029 || u == 0x202F || u == 0x205F || u
        == 0x3000
}

/// Whether a line opens or closes a fenced code block.
pub open spec fn is_fence(l: Seq<char>) -> bool {
    l.len() >= 3 && l[0] == '`' && l[1] == '`' && l[2] == '`'
}

/// The number of `#` characters at position `i` and after it, up to the first other one.
pub open spec fn hashes_from(l: Seq<char>, i: int) -> nat
    decreases l.len() - i,
{
    if 0 <= i < l.len() && l[i] == '#' {
        1 + hashes_from(l, i + 1)
    } else {
        0
    }
}

/// The number of leading `#` characters of a line.
pub open spec fn hash_run(l: Seq<char>) -> nat {
    hashes_from(l, 0)
}

/// The position of the first non-whitespace character at or after `i`, or the length.
pub open spec fn skip_ws_from(l: Seq<char>, i: int) -> int
    decreases l.len() - i,
{
    if 0 <= i < l.len() && is_ws(l[i]) {
        skip_ws_from(l, i + 1)
    } else if i < 0 {
        0
    } else {
        i
    }
}

/// A heading: its level and its text.
pub type HeadingModel = (nat, Seq<char>);

/// The heading that a line outside a code block stands for, if any: it opens
/// with one to `d` `#` characters and a space, has text after that, and is not
/// the table's own heading line. The text is what follows the `#` run and the
/// whitespace after it.
pub open spec fn line_heading(l: Seq<char>, d: nat) -> Option<HeadingModel> {
    let n = hash_run(l);
    if 1 <= n <= d && n < l.len() && l[n as int] == ' ' && skip_ws_from(l, n as int) < l.len()
        && l != toc_heading() {
        Some((n, l.subrange(skip_ws_from(l, n as int), l.len() as int)))
    } else {
        None
    }
}

/// Whether the code-block flag is set after the given lines: each fence line flips it.
pub open spec fn fence_after(lines: Seq<Seq<char>>) -> bool
    decreases lines.len(),
{
    if lines.len() == 0 {
        false
    } else {
        fence_after(lines.drop_last()) != is_fence(lines.last())
    }
}

/// The headings of a document, in order. A line counts only when the
/// code-block flag, taken after that line's own toggle, is clear.
pub open spec fn scan(lines: Seq<Seq<char>>, d: nat) -> Seq<HeadingModel>
    decreases lines.len(),
{
    if lines.len() == 0 {
        Seq::empty()
    } else {
        let prev = scan(lines.drop_last(), d);
        if fence_after(lines) {
            prev
        } else {
            match line_heading(lines.last(), d) {
                Some(h) => prev.push(h),
                None => prev,
            }
        }
    }
}

/// `n` indentation units of two spaces each.
pub open spec fn indent(n: nat) -> Seq<char> {
    Seq::new(2 * n, |i: int| ' ')
}

/// One rendered table line: `- [text](#anchor)` indented by the level, with a line break.
pub open spec fn render_line(h: HeadingModel) -> Seq<char> {
    indent((h.0 - 1) as nat) + seq!['-', ' ', '['] + h.1 + seq![']', '(', '#'] + anchor_spec(h.1)
        + seq![')', '\n']
}

/// The rendered lines of a heading sequence, in order.
pub open spec fn render_body(hs: Seq<HeadingModel>) -> Seq<char>
    decreases hs.len(),
{
    if hs.len() == 0 {
        Seq::empty()
    } else {
        render_body(hs.drop_last()) + render_line(hs.last())
    }
}

/// The full table text: the header, then the rendered lines, without the
/// final line break.
pub open spec fn render(hs: Seq<HeadingModel>) -> Seq<char> {
    (toc_header() + render_body(hs)).drop_last()
}

/// The table of contents of a document's lines for a maximum depth.
pub open spec fn toc_text(lines: Seq<Seq<char>>, d: nat) -> Seq<char> {
    render(scan(lines, d))
}

/// A heading found by the scanner.
pub struct Heading {
    pub level: usize,
    pub text: String,
}

impl View for Heading {
    type V = HeadingModel;

    open spec fn view(&self) -> HeadingModel {
        (self.level as nat, self.text@)
    }
}

/// Appends `n` indentation units.
fn push_indent(s: &mut String, n: usize)
    ensures
        final(s)@ == old(s)@ + indent(n as nat),
{
    let mut i: usize = 0;
    while i < n
        invariant
            i <= n,
            s@ == old(s)@ + indent(i as nat),
        decreases n - i,
    {
        push_char(s, ' ');
        push_char(s, ' ');
        assert(old(s)@ + indent(i as nat) + seq![' ', ' '] =~= old(s)@ + indent((i + 1) as nat));
        i = i + 1;
    }
}

/// Renders one table line for a heading of the given level and text.
pub fn make_line(heading_level: usize, line: &str) -> (r: String)
    requires
        heading_level >= 1,
    ensures
        r@ == render_line((heading_level as nat, line@)),
{
    let mut r = String::new();
    push_indent(&mut r, heading_level - 1);
    push_char(&mut r, '-');
    push_char(&mut r, ' ');
    push_char(&mut r, '[');
    r.append(line);
    push_char(&mut r, ']');
    push_char(&mut r, '(');
    push_char(&mut r, '#');
    let link = make_link(line);
    r.append(link.as_str());
    push_char(&mut r, ')');
    push_char(&mut r, '\n');
    assert(r@ =~= render_line((heading_level as nat, line@)));
    r
}


fn is_whitespace(c: char) -> (r: bool)
    ensures
        r == is_ws(c),
{
    let u = c as u32;
    (9 <= u && u <= 13) || u == 32 || u == 0x85 || u == 0xA0 || u == 0x1680 || (0x2000 <= u
        && u <= 0x200A) || u == 0x2028 || u == 0x2029 || u == 0x202F || u == 0x205F || u
        == 0x3000
}

/// The number of leading `#` characters.
fn heading_count(cs: &Vec<char>) -> (r: usize)
    ensures
        r == hash_run(cs@),
        r <= cs@.len(),
        forall|k: int| 0 <= k < r ==> cs@[k] == '#',
{
    let mut i: usize = 0;
    while i < cs.len() && cs[i] == '#'
        invariant
            i <= cs@.len(),
            hash_run(cs@) == i + hashes_from(cs@, i as int),
            forall|k: int| 0 <= k < i ==> cs@[k] == '#',
        decreases cs@.len() - i,
    {
        i = i + 1;
    }
    i
}

/// The first position at or after `i` that holds no whitespace, or the length.
fn skip_whitespace(cs: &Vec<char>, i: usize) -> (r: usize)
    requires
        i <= cs@.len(),
    ensures
        r == skip_ws_from(cs@, i as int),
        i <= r <= cs@.len(),
{
    let mut j: usize = i;
    while j < cs.len() && is_whitespace(cs[j])
        invariant
            i <= j <= cs@.len(),
            skip_ws_from(cs@, i as int) == skip_ws_from(cs@, j as int),
        decreases cs@.len() - j,
    {
        j = j + 1;
    }
    j
}

/// Whether a line is exactly the table's own heading line.
fn is_toc_heading(cs: &Vec<char>) -> (r: bool)
    ensures
        r == (cs@ == toc_heading()),
{
    let h = chars_of("## Table of contents");
    proof {
        reveal_strlit("## Table of contents");
        assert(h@ =~= toc_heading());
    }
    if cs.len() != h.len() {
        return false;
    }
    let mut i: usize = 0;
    while i < h.len()
        invariant
            i <= h@.len(),
            h@.len() == cs@.len(),
            h@ == toc_heading(),
            forall|k: int| 0 <= k < i ==> cs@[k] == h@[k],
        decreases h@.len() - i,
    {
        if cs[i] != h[i] {
            return false;
        }
        i = i + 1;
    }
    assert(cs@ =~= h@);
    true
}

/// The characters of `cs` from `i` on, as a string.
fn tail_string(cs: &Vec<char>, i: usize) -> (r: String)
    requires
        i <= cs@.len(),
    ensures
        r@ == cs@.subrange(i as int, cs@.len() as int),
{
    let mut r = String::new();
    let mut j: usize = i;
    while j < cs.len()
        invariant
            i <= j <= cs@.len(),
            r@ == cs@.subrange(i as int, j as int),
        decreases cs@.len() - j,
    {
        push_char(&mut r, cs[j]);
        assert(r@ =~= cs@.subrange(i as int, j + 1));
        j = j + 1;
    }
    r
}

/// Whether a line with `heading_level` leading `#` characters is a heading
/// within the depth: the level is from one to `max_depth`, a space follows
/// the `#` run, and text other than whitespace follows that space.
fn valid_heading(cs: &Vec<char>, heading_level: usize, max_depth: usize) -> (r: bool)
    requires
        heading_level <= cs@.len(),
    ensures
        r == (1 <= heading_level <= max_depth && heading_level < cs@.len() && cs@[heading_level as int]
            == ' ' && skip_ws_from(cs@, heading_level as int) < cs@.len()),
{
    if !(1 <= heading_level && heading_level <= max_depth) {
        return false;
    }
    if heading_level >= cs.len() || cs[heading_level] != ' ' {
        return false;
    }
    skip_whitespace(cs, heading_level) < cs.len()
}

/// Classifies one line outside a code block: the heading it stands for, if
/// it is a valid heading of level at most `max_depth` other than the table's
/// own heading line.
pub fn classify(line: &str, max_depth: usize) -> (r: Option<Heading>)
    ensures
        r matches Some(h) ==> line_heading(line@, max_depth as nat) == Some(h@),
        r is None ==> line_heading(line@, max_depth as nat) is None,
{
    let cs = chars_of(line);
    let n = heading_count(&cs);
    if !valid_heading(&cs, n, max_depth) || is_toc_heading(&cs) {
        return None;
    }
    let start = skip_whitespace(&cs, n);
    let text = tail_string(&cs, start);
    Some(Heading { level: n, text })
}


/// The string without its last character.
fn without_last(s: &str) -> (r: String)
    requires
        s@.len() >= 1,
    ensures
        r@ == s@.drop_last(),
{
    let cs = chars_of(s);
    let mut r = String::new();
    let mut i: usize = 0;
    while i < cs.len() - 1
        invariant
            cs@ == s@,
            cs@.len() >= 1,
            i <= cs@.len() - 1,
            r@ == cs@.subrange(0, i as int),
        decreases cs@.len() - i,
    {
        push_char(&mut r, cs[i]);
        assert(r@ =~= cs@.subrange(0, i + 1));
        i = i + 1;
    }
    assert(r@ =~= cs@.drop_last());
    r
}

/// The headings of a document's lines, in order: lines inside fenced code
/// blocks are skipped, and the others are classified for the depth.
pub fn scan_lines(lines: &Vec<String>, max_depth: usize) -> (r: Vec<Heading>)
    ensures
        r@.map_values(|h: Heading| h@) == scan(lines@.map_values(|l: String| l@), max_depth as nat),
{
    let ghost ls = lines@.map_values(|l: String| l@);
    let mut code_block = false;
    let mut r: Vec<Heading> = Vec::new();
    let mut i: usize = 0;
    while i < lines.len()
        invariant
            i <= lines@.len(),
            ls == lines@.map_values(|l: String| l@),
            code_block == fence_after(ls.subrange(0, i as int)),
            r@.map_values(|h: Heading| h@) == scan(ls.subrange(0, i as int), max_depth as nat),
        decreases lines@.len() - i,
    {
        let line = lines[i].as_str();
        let cs = chars_of(line);
        let ghost prefix = ls.subrange(0, i + 1);
        assert(prefix.drop_last() =~= ls.subrange(0, i as int));
        assert(prefix.last() == line@);
        if cs.len() >= 3 && cs[0] == '`' && cs[1] == '`' && cs[2] == '`' {
            code_block = !code_block;
        }
        if !code_block {
            match classify(line, max_depth) {
                Some(h) => {
                    let ghost before = r@;
                    r.push(h);
                    assert(r@.map_values(|h: Heading| h@) =~= before.map_values(|h: Heading| h@).push(
                        r@[r@.len() - 1]@,
                    ));
                },
                None => {},
            }
        }
        i = i + 1;
    }
    assert(ls.subrange(0, lines@.len() as int) =~= ls);
    r
}

/// Renders a heading sequence: the header, then one line per heading in
/// order, without the final line break.
pub fn render_toc(headings: &Vec<Heading>) -> (r: String)
    requires
        forall|k: int| 0 <= k < headings@.len() ==> #[trigger] headings@[k].level >= 1,
    ensures
        r@ == render(headings@.map_values(|h: Heading| h@)),
{
    let ghost hs = headings@.map_values(|h: Heading| h@);
    let mut toc = String::from_str("\n\n## Table of contents\n\n");
    proof {
        reveal_strlit("\n\n## Table of contents\n\n");
        assert(hs.subrange(0, 0) =~= Seq::<HeadingModel>::empty());
    }
    let mut i: usize = 0;
    while i < headings.len()
        invariant
            i <= headings@.len(),
            hs == headings@.map_values(|h: Heading| h@),
            forall|k: int| 0 <= k < headings@.len() ==> #[trigger] headings@[k].level >= 1,
            toc@ == toc_header() + render_body(hs.subrange(0, i as int)),
        decreases headings@.len() - i,
    {
        let line = make_line(headings[i].level, headings[i].text.as_str());
        toc.append(line.as_str());
        proof {
            let sub = hs.subrange(0, i + 1);
            assert(sub.drop_last() =~= hs.subrange(0, i as int));
            assert(sub.last() == headings@[i as int]@);
            assert(toc@ =~= toc_header() + render_body(sub));
        }
        i = i + 1;
    }
    assert(hs.subrange(0, headings@.len() as int) =~= hs);
    without_last(toc.as_str())
}

/// The table-of-contents builder. Lines are handed to it one at a time; it
/// keeps the code-block flag and the text rendered so far.
pub struct Taboc {
    max_depth: usize,
    code_block: bool,
    toc: String,
    seen: Ghost<Seq<Seq<char>>>,
}

impl Taboc {
    /// The lines handed to the builder so far.
    pub closed spec fn lines(&self) -> Seq<Seq<char>> {
        self.seen@
    }

    /// The maximum heading level that the builder keeps.
    pub closed spec fn depth(&self) -> nat {
        self.max_depth as nat
    }

    /// The flag and the text agree with the lines seen.
    pub closed spec fn wf(&self) -> bool {
        &&& self.code_block == fence_after(self.seen@)
        &&& self.toc@ == toc_header() + render_body(scan(self.seen@, self.max_depth as nat))
    }

    /// A builder that has seen no line yet.
    pub fn new(max_depth: usize) -> (r: Taboc)
        ensures
            r.wf(),
            r.lines() == Seq::<Seq<char>>::empty(),
            r.depth() == max_depth as nat,
    {
        let toc = String::from_str("\n\n## Table of contents\n\n");
        proof {
            reveal_strlit("\n\n## Table of contents\n\n");
            assert(toc@ =~= toc_header() + render_body(scan(Seq::empty(), max_depth as nat)));
        }
        Taboc { max_depth, code_block: false, toc, seen: Ghost(Seq::empty()) }
    }

    /// Flips the code-block flag on a fence line, then reports whether the
    /// line lies inside a code block.
    fn is_in_code_block(&mut self, line: &Vec<char>) -> (r: bool)
        ensures
            final(self).code_block == (old(self).code_block != is_fence(line@)),
            r == final(self).code_block,
            final(self).max_depth == old(self).max_depth,
            final(self).toc == old(self).toc,
            final(self).seen == old(self).seen,
    {
        if line.len() >= 3 && line[0] == '`' && line[1] == '`' && line[2] == '`' {
            self.code_block = !self.code_block;
        }
        self.code_block
    }

    /// Takes the next line of the document (without its line terminator).
    pub fn push_line(&mut self, line: &str)
        requires
            old(self).wf(),
        ensures
            final(self).wf(),
            final(self).lines() == old(self).lines().push(line@),
            final(self).depth() == old(self).depth(),
    {
        let ghost lines = self.seen@.push(line@);
        let cs = chars_of(line);
        let inside = self.is_in_code_block(&cs);
        assert(lines.drop_last() =~= self.seen@);
        if !inside {
            match classify(line, self.max_depth) {
                Some(h) => {
                    let rendered = make_line(h.level, h.text.as_str());
                    self.toc.append(rendered.as_str());
                    proof {
                        let hs = scan(lines, self.max_depth as nat);
                        assert(hs.drop_last() =~= scan(self.seen@, self.max_depth as nat));
                        assert(self.toc@ =~= toc_header() + render_body(hs));
                    }
                },
                None => {},
            }
        }
        self.seen = Ghost(lines);
    }

    /// The table of contents of the lines seen so far: the header and one
    /// line per heading, without the final line break.
    pub fn finish(&self) -> (r: String)
        requires
            self.wf(),
        ensures
            r@ == toc_text(self.lines(), self.depth()),
    {
        proof {
            reveal_strlit("\n\n## Table of contents\n\n");
        }
        without_last(self.toc.as_str())
    }

    /// Takes every line of `lines`, in order, and returns the table of contents
    /// of all lines seen.
    pub fn parse(self, lines: &Vec<String>) -> (r: String)
        requires
            self.wf(),
        ensures
            r@ == toc_text(self.lines() + lines@.map_values(|l: String| l@), self.depth()),
    {
        let mut t = self;
        let ghost start = t.lines();
        let ghost depth = t.max_depth;
        let mut i: usize = 0;
        while i < lines.len()
            invariant
                i <= lines@.len(),
                t.wf(),
                t.max_depth == depth,
                t.lines() == start + lines@.subrange(0, i as int).map_values(|l: String| l@),
            decreases lines@.len() - i,
        {
            t.push_line(lines[i].as_str());
            assert(start + lines@.subrange(0, i + 1).map_values(|l: String| l@) =~= (start
                + lines@.subrange(0, i as int).map_values(|l: String| l@)).push(lines@[i as int]@));
            i = i + 1;
        }
        assert(lines@.subrange(0, lines@.len() as int) =~= lines@);
        t.finish()
    }
}

} // verus!
