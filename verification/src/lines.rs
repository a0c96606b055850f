//! The line segmenter: cuts a two-way hunk stream into per-line records
//! with independent line numbers on each side.

use vstd::prelude::*;
use vstd::slice::slice_subrange;
use std::collections::VecDeque;
use crate::align::{
    align, aligned, aligned_parts_fit, aligned_reconstructs, content_of, content_of_concat, content_of_one,
    parts_fit, side,
};
use crate::hunk::{DiffHunk, HunkView, NEWLINE, hunk_views, bytes_of, line_end, line_end_from, line_end_bounds};

verus! {

/// One line of a rendered two-way comparison.
///
/// The line numbers are 1-based and count each side on its own. `hunks`
/// holds the fragments that make up the line: a `Matching` fragment stands
/// on both sides, a `Different` one on the left (its second part is empty)
/// or on the right (its first part is empty).
#[derive(PartialEq, Eq, Clone, Debug)]
pub struct DiffLine<'a> {
    pub left_line_number: u32,
    pub right_line_number: u32,
    pub has_left_content: bool,
    pub has_right_content: bool,
    pub hunks: Vec<DiffHunk<'a>>,
}

/// The mathematical value of a `DiffLine`.
pub struct DiffLineView {
    pub left_line_number: int,
    pub right_line_number: int,
    pub has_left_content: bool,
    pub has_right_content: bool,
    pub hunks: Seq<HunkView>,
}

impl<'a> View for DiffLine<'a> {
    type V = DiffLineView;

    open spec fn view(&self) -> DiffLineView {
        DiffLineView {
            left_line_number: self.left_line_number as int,
            right_line_number: self.right_line_number as int,
            has_left_content: self.has_left_content,
            has_right_content: self.has_right_content,
            hunks: hunk_views(self.hunks@),
        }
    }
}

/// The values of a list of lines.
pub open spec fn line_views(lines: Seq<DiffLine>) -> Seq<DiffLineView> {
    lines.map_values(|l: DiffLine| l@)
}

/// The side of a comparison on which a fragment stands.
#[derive(Clone, Copy, Debug)]
pub enum Side {
    Both,
    Left,
    Right,
}

/// A fragment of one line, with the side on which it stands. A fragment is
/// never empty and holds at most one newline, at its end.
pub struct Piece {
    pub side: Side,
    pub text: Seq<u8>,
}

/// The newline-inclusive fragments of `s` from position `p` on.
pub open spec fn side_pieces(on: Side, s: Seq<u8>, p: int) -> Seq<Piece>
    decreases s.len() - p,
{
    let e = line_end_from(s, p);
    if 0 <= p < e <= s.len() {
        seq![Piece { side: on, text: s.subrange(p, e) }] + side_pieces(on, s, e)
    } else {
        Seq::empty()
    }
}

/// The fragments of one hunk: those of a matching hunk stand on both sides;
/// of a divergent hunk, those of its left part come before those of its
/// right part.
pub open spec fn pieces_of(hunk: HunkView) -> Seq<Piece> {
    match hunk {
        HunkView::Matching(content) => side_pieces(Side::Both, content, 0),
        HunkView::Different(parts) => side_pieces(Side::Left, parts[0], 0) + side_pieces(Side::Right, parts[1], 0),
    }
}

/// The fragments of a hunk stream, in order.
pub open spec fn pieces(hunks: Seq<HunkView>) -> Seq<Piece>
    decreases hunks.len(),
{
    if hunks.len() == 0 {
        Seq::empty()
    } else {
        pieces_of(hunks[0]) + pieces(hunks.skip(1))
    }
}

/// The hunk that records a fragment on a line.
pub open spec fn entry(piece: Piece) -> HunkView {
    match piece.side {
        Side::Both => HunkView::Matching(piece.text),
        Side::Left => HunkView::Different(seq![piece.text, Seq::empty()]),
        Side::Right => HunkView::Different(seq![Seq::empty(), piece.text]),
    }
}

/// The fragment ends its line.
pub open spec fn ends_line(text: Seq<u8>) -> bool {
    text.len() > 0 && text.last() == NEWLINE
}

/// The line with one more fragment on it.
pub open spec fn with_piece(line: DiffLineView, piece: Piece) -> DiffLineView {
    DiffLineView {
        left_line_number: line.left_line_number,
        right_line_number: line.right_line_number,
        has_left_content: line.has_left_content || !(piece.side is Right),
        has_right_content: line.has_right_content || !(piece.side is Left),
        hunks: line.hunks.push(entry(piece)),
    }
}

/// The empty line that follows `line` once a fragment on side `on` has
/// ended it: only the counters of that side advance.
pub open spec fn line_after(line: DiffLineView, on: Side) -> DiffLineView {
    DiffLineView {
        left_line_number: if on is Right { line.left_line_number } else { line.left_line_number + 1 },
        right_line_number: if on is Left { line.right_line_number } else { line.right_line_number + 1 },
        has_left_content: false,
        has_right_content: false,
        hunks: Seq::empty(),
    }
}

/// The lines that come out when `pieces` are added, in order, to the line
/// `line` under construction: a line is complete when a fragment ends in a
/// newline, and what is under construction at the end comes last, unless it
/// is empty.
pub open spec fn lines_from(line: DiffLineView, pieces: Seq<Piece>) -> Seq<DiffLineView>
    decreases pieces.len(),
{
    if pieces.len() == 0 {
        if line.hunks.len() > 0 {
            seq![line]
        } else {
            Seq::empty()
        }
    } else {
        let grown = with_piece(line, pieces[0]);
        if ends_line(pieces[0].text) {
            seq![grown] + lines_from(line_after(grown, pieces[0].side), pieces.skip(1))
        } else {
            lines_from(grown, pieces.skip(1))
        }
    }
}

/// The line under construction once all of `pieces` have been added.
pub open spec fn closing_line(line: DiffLineView, pieces: Seq<Piece>) -> DiffLineView
    decreases pieces.len(),
{
    if pieces.len() == 0 {
        line
    } else {
        let grown = with_piece(line, pieces[0]);
        if ends_line(pieces[0].text) {
            closing_line(line_after(grown, pieces[0].side), pieces.skip(1))
        } else {
            closing_line(grown, pieces.skip(1))
        }
    }
}

/// The empty first line: number 1 on both sides.
pub open spec fn first_line() -> DiffLineView {
    DiffLineView {
        left_line_number: 1,
        right_line_number: 1,
        has_left_content: false,
        has_right_content: false,
        hunks: Seq::empty(),
    }
}

/// The lines of a two-way hunk stream.
pub open spec fn diff_lines(hunks: Seq<HunkView>) -> Seq<DiffLineView> {
    lines_from(first_line(), pieces(hunks))
}

/// Both line counters fit the 32 bits that a `DiffLine` has for them.
pub open spec fn counters_fit(line: DiffLineView) -> bool {
    line.left_line_number <= u32::MAX && line.right_line_number <= u32::MAX
}

/// The line counters of a hunk stream fit: each side holds fewer than
/// `u32::MAX` newlines.
pub open spec fn numbers_fit(hunks: Seq<HunkView>) -> bool {
    counters_fit(closing_line(first_line(), pieces(hunks)))
}

/// The hunks of a list of lines, in order.
pub open spec fn line_hunks(lines: Seq<DiffLineView>) -> Seq<HunkView>
    decreases lines.len(),
{
    if lines.len() == 0 {
        Seq::empty()
    } else {
        lines[0].hunks + line_hunks(lines.skip(1))
    }
}

/// The line counters never go back.
pub proof fn counters_grow(line: DiffLineView, pieces: Seq<Piece>)
    ensures
        line.left_line_number <= closing_line(line, pieces).left_line_number,
        line.right_line_number <= closing_line(line, pieces).right_line_number,
    decreases pieces.len(),
{
    if pieces.len() > 0 {
        let grown = with_piece(line, pieces[0]);
        if ends_line(pieces[0].text) {
            counters_grow(line_after(grown, pieces[0].side), pieces.skip(1));
        } else {
            counters_grow(grown, pieces.skip(1));
        }
    }
}

impl<'a> DiffLine<'a> {
    /// Empties the line; the line numbers stay.
    fn reset_line(&mut self)
        ensures
            final(self).left_line_number == old(self).left_line_number,
            final(self).right_line_number == old(self).right_line_number,
            !final(self).has_left_content,
            !final(self).has_right_content,
            final(self).hunks@.len() == 0,
    {
        self.has_left_content = false;
        self.has_right_content = false;
        self.hunks.clear();
    }

    /// Whether the line is the same on both sides: every fragment on it is
    /// a matching one.
    pub fn is_unmodified(&self) -> (same: bool)
        ensures
            same == forall|i: int| 0 <= i < self@.hunks.len() ==> #[trigger] self@.hunks[i] is Matching,
    {
        let mut i: usize = 0;
        while i < self.hunks.len()
            invariant
                i <= self.hunks@.len(),
                forall|j: int| 0 <= j < i ==> #[trigger] self@.hunks[j] is Matching,
            decreases self.hunks@.len() - i,
        {
            match &self.hunks[i] {
                DiffHunk::Matching(_) => {},
                DiffHunk::Different(_) => {
                    assert(!(self@.hunks[i as int] is Matching));
                    return false;
                },
            }
            i += 1;
        }
        true
    }
}

/// Adds the fragments of `text`, which stand on side `on`, to the line under
/// construction, and queues each line that one of them completes.
fn feed<'a>(
    line: &mut DiffLine<'a>,
    queue: &mut VecDeque<DiffLine<'a>>,
    text: &'a [u8],
    on: Side,
    Ghost(later): Ghost<Seq<Piece>>,
)
    requires
        counters_fit(closing_line(old(line)@, side_pieces(on, text@, 0) + later)),
    ensures
        line_views(final(queue)@) + lines_from(final(line)@, later) == line_views(old(queue)@) + lines_from(
            old(line)@,
            side_pieces(on, text@, 0) + later,
        ),
        closing_line(final(line)@, later) == closing_line(old(line)@, side_pieces(on, text@, 0) + later),
{
    let ghost all_lines = line_views(queue@) + lines_from(line@, side_pieces(on, text@, 0) + later);
    let ghost closing = closing_line(line@, side_pieces(on, text@, 0) + later);
    let mut p: usize = 0;
    while p < text.len()
        invariant
            p <= text@.len(),
            line_views(queue@) + lines_from(line@, side_pieces(on, text@, p as int) + later) == all_lines,
            closing_line(line@, side_pieces(on, text@, p as int) + later) == closing,
            counters_fit(closing),
        decreases text@.len() - p,
    {
        let e = line_end(text, p);
        let fragment = slice_subrange(text, p, e);
        let ghost piece = Piece { side: on, text: fragment@ };
        let ghost todo = side_pieces(on, text@, p as int) + later;
        let ghost rest = side_pieces(on, text@, e as int) + later;
        let ghost before = line@;
        let ghost queued = line_views(queue@);
        proof {
            assert(todo[0] == piece);
            assert(todo.skip(1) =~= rest);
        }
        let ghost old_hunks = hunk_views(line.hunks@);
        match on {
            Side::Both => {
                line.has_left_content = true;
                line.has_right_content = true;
                line.hunks.push(DiffHunk::Matching(fragment));
            },
            Side::Left => {
                line.has_left_content = true;
                let mut parts: Vec<&'a [u8]> = Vec::new();
                let nothing = slice_subrange(text, 0, 0);
                assert(nothing@ =~= Seq::<u8>::empty());
                parts.push(fragment);
                parts.push(nothing);
                assert(bytes_of(parts@) =~= seq![fragment@, Seq::empty()]);
                line.hunks.push(DiffHunk::Different(parts));
            },
            Side::Right => {
                line.has_right_content = true;
                let mut parts: Vec<&'a [u8]> = Vec::new();
                let nothing = slice_subrange(text, 0, 0);
                assert(nothing@ =~= Seq::<u8>::empty());
                parts.push(nothing);
                parts.push(fragment);
                assert(bytes_of(parts@) =~= seq![Seq::empty(), fragment@]);
                line.hunks.push(DiffHunk::Different(parts));
            },
        }
        assert(hunk_views(line.hunks@) =~= old_hunks.push(entry(piece)));
        assert(line@ == with_piece(before, piece));
        if fragment[fragment.len() - 1] == NEWLINE {
            proof {
                assert(ends_line(piece.text));
                counters_grow(line_after(line@, on), rest);
            }
            let ghost grown = line@;
            let mut taken: Vec<DiffHunk<'a>> = Vec::new();
            std::mem::swap(&mut line.hunks, &mut taken);
            let done = DiffLine {
                left_line_number: line.left_line_number,
                right_line_number: line.right_line_number,
                has_left_content: line.has_left_content,
                has_right_content: line.has_right_content,
                hunks: taken,
            };
            assert(done@ == grown);
            queue.push_back(done);
            match on {
                Side::Both => {
                    line.left_line_number = line.left_line_number + 1;
                    line.right_line_number = line.right_line_number + 1;
                },
                Side::Left => {
                    line.left_line_number = line.left_line_number + 1;
                },
                Side::Right => {
                    line.right_line_number = line.right_line_number + 1;
                },
            }
            line.reset_line();
            proof {
                assert(hunk_views(line.hunks@) =~= Seq::empty());
                assert(line@ == line_after(grown, on));
                assert(line_views(queue@) =~= queued.push(grown));
                assert(queued + (seq![grown] + lines_from(line@, rest)) =~= queued.push(grown) + lines_from(line@, rest));
            }
        } else {
            assert(!ends_line(piece.text));
        }
        p = e;
    }
    assert(side_pieces(on, text@, p as int) + later =~= later);
}

/// The lines of a two-way hunk stream, handed out one at a time.
pub struct DiffLineIterator<'a> {
    diff_hunks: Vec<DiffHunk<'a>>,
    current_pos: usize,
    current_line: DiffLine<'a>,
    queued_lines: VecDeque<DiffLine<'a>>,
}

impl<'a> DiffLineIterator<'a> {
    /// The hunks not yet taken up.
    pub closed spec fn pending(&self) -> Seq<HunkView> {
        hunk_views(self.diff_hunks@).skip(self.current_pos as int)
    }

    /// The state is consistent and the line counters will fit to the end.
    pub closed spec fn wf(&self) -> bool {
        &&& self.current_pos <= self.diff_hunks@.len()
        &&& parts_fit(hunk_views(self.diff_hunks@), 2)
        &&& counters_fit(closing_line(self.current_line@, pieces(self.pending())))
    }

    /// The lines that are still to come, in order.
    pub closed spec fn remaining(&self) -> Seq<DiffLineView> {
        line_views(self.queued_lines@) + lines_from(self.current_line@, pieces(self.pending()))
    }

    /// Starts at line 1 on both sides, before the first hunk.
    pub fn new(diff_hunks: Vec<DiffHunk<'a>>) -> (lines: Self)
        requires
            parts_fit(hunk_views(diff_hunks@), 2),
            numbers_fit(hunk_views(diff_hunks@)),
        ensures
            lines.wf(),
            lines.remaining() == diff_lines(hunk_views(diff_hunks@)),
    {
        let current_line = DiffLine {
            left_line_number: 1,
            right_line_number: 1,
            has_left_content: false,
            has_right_content: false,
            hunks: Vec::new(),
        };
        let lines = DiffLineIterator {
            diff_hunks,
            current_pos: 0,
            current_line,
            queued_lines: VecDeque::new(),
        };
        proof {
            assert(hunk_views(lines.current_line.hunks@) =~= Seq::empty());
            assert(lines.current_line@ == first_line());
            assert(lines.pending() =~= hunk_views(diff_hunks@));
            assert(line_views(lines.queued_lines@) =~= Seq::empty());
            assert(lines.remaining() =~= diff_lines(hunk_views(diff_hunks@)));
        }
        lines
    }

    /// Hands out the next line, or `None` once all lines are out.
    pub fn next(&mut self) -> (line: Option<DiffLine<'a>>)
        requires
            old(self).wf(),
        ensures
            final(self).wf(),
            match line {
                Some(l) => {
                    &&& old(self).remaining().len() > 0
                    &&& l@ == old(self).remaining()[0]
                    &&& final(self).remaining() == old(self).remaining().skip(1)
                },
                None => old(self).remaining().len() == 0 && final(self).remaining().len() == 0,
            },
    {
        let ghost views = hunk_views(self.diff_hunks@);
        let ghost target = self.remaining();
        while self.current_pos < self.diff_hunks.len() && self.queued_lines.len() == 0
            invariant
                self.wf(),
                self.remaining() == target,
                views == hunk_views(self.diff_hunks@),
            decreases self.diff_hunks@.len() - self.current_pos,
        {
            let ghost pos = self.current_pos as int;
            let ghost later = pieces(views.skip(pos + 1));
            proof {
                assert(views.skip(pos)[0] == views[pos]);
                assert(views.skip(pos).skip(1) =~= views.skip(pos + 1));
                assert(pieces(views.skip(pos)) == pieces_of(views[pos]) + later);
                assert(views[pos] == self.diff_hunks@[pos]@);
            }
            match &self.diff_hunks[self.current_pos] {
                DiffHunk::Matching(content) => {
                    let text: &'a [u8] = *content;
                    feed(&mut self.current_line, &mut self.queued_lines, text, Side::Both, Ghost(later));
                },
                DiffHunk::Different(parts) => {
                    assert(parts@.len() == 2) by {
                        assert(views[pos] matches HunkView::Different(p) && p.len() == 2);
                    }
                    let left: &'a [u8] = parts[0];
                    let right: &'a [u8] = parts[1];
                    let ghost right_pieces = side_pieces(Side::Right, right@, 0);
                    proof {
                        assert(bytes_of(parts@)[0] == left@);
                        assert(bytes_of(parts@)[1] == right@);
                        assert((side_pieces(Side::Left, left@, 0) + right_pieces) + later =~= side_pieces(
                            Side::Left,
                            left@,
                            0,
                        ) + (right_pieces + later));
                    }
                    feed(
                        &mut self.current_line,
                        &mut self.queued_lines,
                        left,
                        Side::Left,
                        Ghost(right_pieces + later),
                    );
                    feed(&mut self.current_line, &mut self.queued_lines, right, Side::Right, Ghost(later));
                },
            }
            self.current_pos = self.current_pos + 1;
        }
        match self.queued_lines.pop_front() {
            Some(line) => {
                proof {
                    assert(self.remaining() =~= target.skip(1));
                }
                Some(line)
            },
            None => {
                proof {
                    assert(self.pending() =~= Seq::empty());
                    assert(line_views(self.queued_lines@) =~= Seq::empty());
                }
                if self.current_line.hunks.len() > 0 {
                    let mut taken: Vec<DiffHunk<'a>> = Vec::new();
                    std::mem::swap(&mut self.current_line.hunks, &mut taken);
                    let line = DiffLine {
                        left_line_number: self.current_line.left_line_number,
                        right_line_number: self.current_line.right_line_number,
                        has_left_content: self.current_line.has_left_content,
                        has_right_content: self.current_line.has_right_content,
                        hunks: taken,
                    };
                    self.current_line.reset_line();
                    proof {
                        assert(hunk_views(self.current_line.hunks@) =~= Seq::empty());
                        assert(target =~= seq![line@]);
                        assert(self.remaining() =~= target.skip(1));
                    }
                    Some(line)
                } else {
                    proof {
                        assert(hunk_views(self.current_line.hunks@) =~= Seq::empty());
                        assert(target =~= Seq::empty());
                    }
                    None
                }
            },
        }
    }

    /// Hands out all lines that are still to come.
    pub fn into_vec(self) -> (lines: Vec<DiffLine<'a>>)
        requires
            self.wf(),
        ensures
            line_views(lines@) == self.remaining(),
    {
        let mut source = self;
        let mut lines: Vec<DiffLine<'a>> = Vec::new();
        assert(line_views(lines@) + source.remaining() =~= self.remaining());
        loop
            invariant
                source.wf(),
                line_views(lines@) + source.remaining() == self.remaining(),
            decreases source.remaining().len(),
        {
            let ghost before = line_views(lines@);
            let ghost ahead = source.remaining();
            match source.next() {
                Some(line) => {
                    lines.push(line);
                    assert(line_views(lines@) =~= before.push(ahead[0]));
                    assert(before.push(ahead[0]) + ahead.skip(1) =~= before + ahead);
                },
                None => {
                    assert(before + ahead =~= before);
                    return lines;
                },
            }
        }
    }
}

/// Compares two buffers line by line.
///
/// The buffers are aligned by lines and the hunks cut into lines as
/// `DiffLineIterator` does.
pub fn diff<'a>(left: &'a [u8], right: &'a [u8]) -> (lines: DiffLineIterator<'a>)
    requires
        numbers_fit(aligned(seq![left@, right@])),
    ensures
        lines.wf(),
        lines.remaining() == diff_lines(aligned(seq![left@, right@])),
{
    let mut inputs: Vec<&'a [u8]> = Vec::new();
    inputs.push(left);
    inputs.push(right);
    assert(bytes_of(inputs@) =~= seq![left@, right@]);
    let diff_hunks = align(inputs.as_slice());
    proof {
        aligned_parts_fit(seq![left@, right@]);
    }
    DiffLineIterator::new(diff_hunks)
}

/// The hunks that record a list of fragments.
pub open spec fn entries(pieces: Seq<Piece>) -> Seq<HunkView> {
    pieces.map_values(|p: Piece| entry(p))
}

/// A fragment on side `on` is part of the content of input `i`.
pub open spec fn covers(on: Side, i: int) -> bool {
    (i == 0 && !(on is Right)) || (i == 1 && !(on is Left))
}

/// The fragments of a text hold the text, on the sides on which they stand.
pub proof fn side_pieces_content(on: Side, s: Seq<u8>, p: int, i: int)
    requires
        0 <= p <= s.len(),
        i == 0 || i == 1,
    ensures
        content_of(entries(side_pieces(on, s, p)), i) == if covers(on, i) {
            s.skip(p)
        } else {
            Seq::empty()
        },
    decreases s.len() - p,
{
    let found = entries(side_pieces(on, s, p));
    if p == s.len() {
        assert(found =~= Seq::empty());
        assert(s.skip(p) =~= Seq::empty());
    } else {
        line_end_bounds(s, p);
        let e = line_end_from(s, p);
        let piece = Piece { side: on, text: s.subrange(p, e) };
        assert(found[0] == entry(piece));
        assert(found.skip(1) =~= entries(side_pieces(on, s, e)));
        side_pieces_content(on, s, e, i);
        if covers(on, i) {
            assert(side(entry(piece), i) == s.subrange(p, e));
            assert(s.subrange(p, e) + s.skip(e) =~= s.skip(p));
        } else {
            assert(side(entry(piece), i) =~= Seq::<u8>::empty());
            assert(side(entry(piece), i) + Seq::<u8>::empty() =~= Seq::<u8>::empty());
        }
    }
}

/// The fragments of a hunk hold what the hunk holds of each side.
pub proof fn pieces_of_content(hunk: HunkView, i: int)
    requires
        hunk matches HunkView::Different(parts) ==> parts.len() == 2,
        i == 0 || i == 1,
    ensures
        content_of(entries(pieces_of(hunk)), i) == side(hunk, i),
{
    match hunk {
        HunkView::Matching(content) => {
            side_pieces_content(Side::Both, content, 0, i);
            assert(content.skip(0) =~= content);
        },
        HunkView::Different(parts) => {
            let l = side_pieces(Side::Left, parts[0], 0);
            let r = side_pieces(Side::Right, parts[1], 0);
            assert(entries(l + r) =~= entries(l) + entries(r));
            content_of_concat(entries(l), entries(r), i);
            side_pieces_content(Side::Left, parts[0], 0, i);
            side_pieces_content(Side::Right, parts[1], 0, i);
            assert(parts[0].skip(0) =~= parts[0]);
            assert(parts[1].skip(0) =~= parts[1]);
            assert(parts[0] + Seq::<u8>::empty() =~= parts[0]);
            assert(Seq::<u8>::empty() + parts[1] =~= parts[1]);
        },
    }
}

/// The fragments of a two-way hunk stream hold what the stream holds of
/// each side.
pub proof fn pieces_content(hunks: Seq<HunkView>, i: int)
    requires
        parts_fit(hunks, 2),
        i == 0 || i == 1,
    ensures
        content_of(entries(pieces(hunks)), i) == content_of(hunks, i),
    decreases hunks.len(),
{
    if hunks.len() == 0 {
        assert(entries(pieces(hunks)) =~= Seq::empty());
    } else {
        let rest = hunks.skip(1);
        assert forall|j: int| 0 <= j < rest.len() implies (#[trigger] rest[j] matches HunkView::Different(parts)
            ==> parts.len() == 2) by {
            assert(rest[j] == hunks[j + 1]);
        }
        pieces_content(rest, i);
        pieces_of_content(hunks[0], i);
        assert(entries(pieces_of(hunks[0]) + pieces(rest)) =~= entries(pieces_of(hunks[0])) + entries(pieces(rest)));
        content_of_concat(entries(pieces_of(hunks[0])), entries(pieces(rest)), i);
    }
}

/// The lines made from fragments hold, in order, what the line under
/// construction held and then the fragments.
pub proof fn lines_from_content(line: DiffLineView, pieces: Seq<Piece>, i: int)
    ensures
        content_of(line_hunks(lines_from(line, pieces)), i) == content_of(line.hunks, i) + content_of(
            entries(pieces),
            i,
        ),
    decreases pieces.len(),
{
    let none = Seq::<DiffLineView>::empty();
    if pieces.len() == 0 {
        assert(entries(pieces) =~= Seq::empty());
        assert(content_of(line.hunks, i) + Seq::<u8>::empty() =~= content_of(line.hunks, i));
        if line.hunks.len() > 0 {
            assert(seq![line].skip(1) =~= none);
            assert(line.hunks + line_hunks(none) =~= line.hunks);
        }
    } else {
        let first = entry(pieces[0]);
        let rest = pieces.skip(1);
        let grown = with_piece(line, pieces[0]);
        assert(entries(pieces)[0] == first);
        assert(entries(pieces).skip(1) =~= entries(rest));
        assert(grown.hunks =~= line.hunks + seq![first]);
        content_of_concat(line.hunks, seq![first], i);
        content_of_one(first, i);
        let tail = content_of(entries(rest), i);
        assert((content_of(line.hunks, i) + side(first, i)) + tail =~= content_of(line.hunks, i) + (side(first, i)
            + tail));
        if ends_line(pieces[0].text) {
            let next = line_after(grown, pieces[0].side);
            let following = lines_from(next, rest);
            lines_from_content(next, rest, i);
            assert((seq![grown] + following)[0] == grown);
            assert((seq![grown] + following).skip(1) =~= following);
            content_of_concat(grown.hunks, line_hunks(following), i);
            assert(content_of(next.hunks, i) + tail =~= tail);
        } else {
            lines_from_content(grown, rest, i);
        }
    }
}

/// The lines of a two-way hunk stream hold each side whole: the left
/// content of the hunks on all lines, in order, is the left content of the
/// stream (`i` is 0), and the same holds of the right (`i` is 1).
pub proof fn lines_keep_content(hunks: Seq<HunkView>, i: int)
    requires
        parts_fit(hunks, 2),
        i == 0 || i == 1,
    ensures
        content_of(line_hunks(diff_lines(hunks)), i) == content_of(hunks, i),
{
    lines_from_content(first_line(), pieces(hunks), i);
    pieces_content(hunks, i);
    assert(content_of(first_line().hunks, i) + content_of(hunks, i) =~= content_of(hunks, i));
}

/// The lines of a comparison of `left` and `right` hold `left` on their
/// left and `right` on their right.
pub proof fn diff_keeps_content(left: Seq<u8>, right: Seq<u8>)
    ensures
        content_of(line_hunks(diff_lines(aligned(seq![left, right]))), 0) == left,
        content_of(line_hunks(diff_lines(aligned(seq![left, right]))), 1) == right,
{
    let inputs = seq![left, right];
    aligned_parts_fit(inputs);
    aligned_reconstructs(inputs, 0);
    aligned_reconstructs(inputs, 1);
    lines_keep_content(aligned(inputs), 0);
    lines_keep_content(aligned(inputs), 1);
}

/// A line counter advances by no more than the bytes that the fragments
/// hold of its side.
pub proof fn counters_bounded(line: DiffLineView, pieces: Seq<Piece>)
    ensures
        closing_line(line, pieces).left_line_number <= line.left_line_number + content_of(entries(pieces), 0).len(),
        closing_line(line, pieces).right_line_number <= line.right_line_number + content_of(
            entries(pieces),
            1,
        ).len(),
    decreases pieces.len(),
{
    if pieces.len() > 0 {
        let first = entry(pieces[0]);
        let rest = pieces.skip(1);
        let grown = with_piece(line, pieces[0]);
        assert(entries(pieces)[0] == first);
        assert(entries(pieces).skip(1) =~= entries(rest));
        if ends_line(pieces[0].text) {
            counters_bounded(line_after(grown, pieces[0].side), rest);
        } else {
            counters_bounded(grown, rest);
        }
    }
}

/// The line counters fit where each side of the stream holds fewer than
/// `u32::MAX` bytes.
pub proof fn short_sides_fit(hunks: Seq<HunkView>)
    requires
        parts_fit(hunks, 2),
        content_of(hunks, 0).len() < u32::MAX,
        content_of(hunks, 1).len() < u32::MAX,
    ensures
        numbers_fit(hunks),
{
    counters_bounded(first_line(), pieces(hunks));
    pieces_content(hunks, 0);
    pieces_content(hunks, 1);
}

/// The line counters of a comparison fit where both buffers are shorter
/// than `u32::MAX` bytes.
pub proof fn short_buffers_fit(left: Seq<u8>, right: Seq<u8>)
    requires
        left.len() < u32::MAX,
        right.len() < u32::MAX,
    ensures
        numbers_fit(aligned(seq![left, right])),
{
    let inputs = seq![left, right];
    aligned_parts_fit(inputs);
    aligned_reconstructs(inputs, 0);
    aligned_reconstructs(inputs, 1);
    short_sides_fit(aligned(inputs));
}

/// Neither counter of `later` is behind that of `start`.
pub open spec fn not_before(start: DiffLineView, later: DiffLineView) -> bool {
    start.left_line_number <= later.left_line_number && start.right_line_number <= later.right_line_number
}

/// Neither counter of `later` is behind that of `earlier`, and one of them
/// is ahead.
pub open spec fn precedes(earlier: DiffLineView, later: DiffLineView) -> bool {
    not_before(earlier, later) && (earlier.left_line_number < later.left_line_number
        || earlier.right_line_number < later.right_line_number)
}

/// The lines made from fragments hold at least one hunk each, are numbered
/// from the line under construction on, and each comes before the next.
pub proof fn lines_from_are_numbered(line: DiffLineView, pieces: Seq<Piece>)
    ensures
        forall|i: int|
            0 <= i < lines_from(line, pieces).len() ==> not_before(line, #[trigger] lines_from(line, pieces)[i])
                && lines_from(line, pieces)[i].hunks.len() > 0,
        forall|i: int, j: int|
            0 <= i < j < lines_from(line, pieces).len() ==> precedes(
                #[trigger] lines_from(line, pieces)[i],
                #[trigger] lines_from(line, pieces)[j],
            ),
    decreases pieces.len(),
{
    if pieces.len() > 0 {
        let grown = with_piece(line, pieces[0]);
        let rest = pieces.skip(1);
        if ends_line(pieces[0].text) {
            let next = line_after(grown, pieces[0].side);
            let tail = lines_from(next, rest);
            let lines = lines_from(line, pieces);
            lines_from_are_numbered(next, rest);
            assert(lines == seq![grown] + tail);
            assert forall|i: int| 0 <= i < lines.len() implies not_before(line, #[trigger] lines[i])
                && lines[i].hunks.len() > 0 by {
                if i > 0 {
                    assert(lines[i] == tail[i - 1]);
                }
            }
            assert forall|i: int, j: int| 0 <= i < j < lines.len() implies precedes(
                #[trigger] lines[i],
                #[trigger] lines[j],
            ) by {
                assert(lines[j] == tail[j - 1]);
                if i > 0 {
                    assert(lines[i] == tail[i - 1]);
                }
            }
        } else {
            lines_from_are_numbered(grown, rest);
            let lines = lines_from(line, pieces);
            assert(lines == lines_from(grown, rest));
            assert forall|i: int| 0 <= i < lines.len() implies not_before(line, #[trigger] lines[i])
                && lines[i].hunks.len() > 0 by {
                assert(not_before(grown, lines_from(grown, rest)[i]));
            }
        }
    } else {
        let lines = lines_from(line, pieces);
        assert forall|i: int| 0 <= i < lines.len() implies not_before(line, #[trigger] lines[i])
            && lines[i].hunks.len() > 0 by {
            assert(lines[i] == line);
        }
    }
}

/// The lines of a hunk stream are numbered from 1 on each side, hold at
/// least one hunk each, and from one line to any later one neither number
/// falls and one of them rises.
pub proof fn diff_lines_are_numbered(hunks: Seq<HunkView>)
    ensures
        forall|i: int|
            0 <= i < diff_lines(hunks).len() ==> (#[trigger] diff_lines(hunks)[i]).left_line_number >= 1
                && diff_lines(hunks)[i].right_line_number >= 1 && diff_lines(hunks)[i].hunks.len() > 0,
        forall|i: int, j: int|
            0 <= i < j < diff_lines(hunks).len() ==> precedes(
                #[trigger] diff_lines(hunks)[i],
                #[trigger] diff_lines(hunks)[j],
            ),
{
    lines_from_are_numbered(first_line(), pieces(hunks));
    assert forall|i: int| 0 <= i < diff_lines(hunks).len() implies (#[trigger] diff_lines(hunks)[i]).left_line_number
        >= 1 && diff_lines(hunks)[i].right_line_number >= 1 && diff_lines(hunks)[i].hunks.len() > 0 by {
        assert(not_before(first_line(), lines_from(first_line(), pieces(hunks))[i]));
    }
}

} // verus!
