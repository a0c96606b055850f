//! The line aligner: cuts N inputs into the whole lines that all of them
//! share at their start, the whole lines that all of them share at their
//! end, and the region between.

use vstd::prelude::*;
use vstd::slice::slice_subrange;
use crate::hunk::{DiffHunk, HunkView, NEWLINE, bytes_of, hunk_views, bytes_eq, line_end};

verus! {

/// Every input has at least `n` bytes and starts with the first `n` bytes of
/// the first input.
pub open spec fn agree_upto(inputs: Seq<Seq<u8>>, n: int) -> bool {
    forall|i: int| 0 <= i < inputs.len() ==> (#[trigger] inputs[i]).len() >= n && inputs[i].take(n) == inputs[0].take(n)
}

/// Every input has exactly `n` bytes.
pub open spec fn all_end_at(inputs: Seq<Seq<u8>>, n: int) -> bool {
    forall|i: int| 0 <= i < inputs.len() ==> (#[trigger] inputs[i]).len() == n
}

/// The first `n` bytes are shared by all inputs and end on a line boundary
/// of each: at the start, behind a newline, or at the end of every input.
pub open spec fn shared_boundary(inputs: Seq<Seq<u8>>, n: int) -> bool {
    &&& inputs.len() > 0
    &&& 0 <= n
    &&& agree_upto(inputs, n)
    &&& (n == 0 || inputs[0][n - 1] == NEWLINE || all_end_at(inputs, n))
}

/// `n` is the last shared boundary.
pub open spec fn longest_shared(inputs: Seq<Seq<u8>>, n: int) -> bool {
    shared_boundary(inputs, n) && forall|m: int| n < m ==> !shared_boundary(inputs, m)
}

/// The length of the longest run of whole lines with which all inputs start.
pub open spec fn shared_len(inputs: Seq<Seq<u8>>) -> int {
    choose|n: int| longest_shared(inputs, n)
}

/// One of the parts is not empty.
pub open spec fn any_content(parts: Seq<Seq<u8>>) -> bool {
    exists|i: int| 0 <= i < parts.len() && (#[trigger] parts[i]).len() > 0
}

/// Behind its first `n` bytes, `other` ends with the last `s` bytes of
/// `base`, and they begin on a line boundary of `other`: at position `n` or
/// behind a newline.
pub open spec fn tail_agrees(other: Seq<u8>, base: Seq<u8>, n: int, s: int) -> bool {
    &&& other.len() - n >= s
    &&& other.skip(other.len() - s) == base.skip(base.len() - s)
    &&& (s == 0 || other.len() - s == n || other[other.len() - s - 1] == NEWLINE)
}

/// The last `s` bytes are shared by all inputs, do not reach into the first
/// `n`, and begin on a line boundary of each input.
pub open spec fn shared_tail(inputs: Seq<Seq<u8>>, n: int, s: int) -> bool {
    &&& inputs.len() > 0
    &&& 0 <= s
    &&& forall|i: int| 0 <= i < inputs.len() ==> tail_agrees(#[trigger] inputs[i], inputs[0], n, s)
}

/// `s` is the longest shared tail behind the first `n` bytes.
pub open spec fn longest_tail(inputs: Seq<Seq<u8>>, n: int, s: int) -> bool {
    shared_tail(inputs, n, s) && forall|m: int| s < m ==> !shared_tail(inputs, n, m)
}

/// The length of the longest run of whole lines with which all inputs end
/// behind their first `n` bytes.
pub open spec fn tail_len(inputs: Seq<Seq<u8>>, n: int) -> int {
    choose|s: int| longest_tail(inputs, n, s)
}

/// What each input holds between its first `n` and its last `s` bytes.
pub open spec fn middles(inputs: Seq<Seq<u8>>, n: int, s: int) -> Seq<Seq<u8>> {
    inputs.map_values(|t: Seq<u8>| t.subrange(n, t.len() - s))
}

/// The hunks for a cut of the inputs into their first `n` bytes, their last
/// `s` bytes and what lies between: the shared ends are matching hunks,
/// left out where they are empty, and the middles are one divergent hunk,
/// left out where all of them are empty.
pub open spec fn cut(inputs: Seq<Seq<u8>>, n: int, s: int) -> Seq<HunkView> {
    let head = if n > 0 {
        seq![HunkView::Matching(inputs[0].take(n))]
    } else {
        Seq::empty()
    };
    let middle = if any_content(middles(inputs, n, s)) {
        seq![HunkView::Different(middles(inputs, n, s))]
    } else {
        Seq::empty()
    };
    let tail = if s > 0 {
        seq![HunkView::Matching(inputs[0].skip(inputs[0].len() - s))]
    } else {
        Seq::empty()
    };
    head + (middle + tail)
}

/// The hunks of an alignment: the inputs are cut behind the whole lines
/// with which all of them start and before the whole lines with which all
/// of them then end. No inputs give no hunks.
pub open spec fn aligned(inputs: Seq<Seq<u8>>) -> Seq<HunkView> {
    if inputs.len() == 0 {
        Seq::empty()
    } else {
        let n = shared_len(inputs);
        cut(inputs, n, tail_len(inputs, n))
    }
}

/// Every divergent hunk has one part per input.
pub open spec fn parts_fit(hunks: Seq<HunkView>, inputs: int) -> bool {
    forall|i: int| 0 <= i < hunks.len() ==> (#[trigger] hunks[i] matches HunkView::Different(parts) ==> parts.len() == inputs)
}

/// What a hunk holds of input `i`.
pub open spec fn side(hunk: HunkView, i: int) -> Seq<u8> {
    match hunk {
        HunkView::Matching(content) => content,
        HunkView::Different(parts) => parts[i],
    }
}

/// What a hunk stream holds of input `i`: the sides of its hunks, in order.
pub open spec fn content_of(hunks: Seq<HunkView>, i: int) -> Seq<u8>
    decreases hunks.len(),
{
    if hunks.len() == 0 {
        Seq::empty()
    } else {
        side(hunks[0], i) + content_of(hunks.skip(1), i)
    }
}

/// The line of `base` that starts at `p` ends at `e`, and `other` holds the
/// same line at the same place.
pub open spec fn line_agrees(other: Seq<u8>, base: Seq<u8>, p: int, e: int) -> bool {
    &&& other.len() >= e
    &&& other.subrange(p, e) == base.subrange(p, e)
    &&& (base[e - 1] == NEWLINE || other.len() == e)
}

/// Whether every input holds the line `[p, e)` of the first one.
fn line_shared(inputs: &[&[u8]], p: usize, e: usize) -> (ok: bool)
    requires
        inputs@.len() > 0,
        p < e <= inputs@[0]@.len(),
    ensures
        ok == forall|i: int| 0 <= i < inputs@.len() ==> line_agrees(
            #[trigger] bytes_of(inputs@)[i],
            inputs@[0]@,
            p as int,
            e as int,
        ),
{
    let base = inputs[0];
    let closed = base[e - 1] == NEWLINE;
    let mut i: usize = 0;
    while i < inputs.len()
        invariant
            i <= inputs@.len(),
            inputs@.len() > 0,
            base@ == inputs@[0]@,
            p < e <= base@.len(),
            closed == (base@[e - 1] == NEWLINE),
            forall|j: int| 0 <= j < i ==> line_agrees(#[trigger] bytes_of(inputs@)[j], base@, p as int, e as int),
        decreases inputs@.len() - i,
    {
        let other = inputs[i];
        assert(bytes_of(inputs@)[i as int] == other@);
        if other.len() < e {
            return false;
        }
        if !closed && other.len() != e {
            return false;
        }
        if !bytes_eq(slice_subrange(other, p, e), slice_subrange(base, p, e)) {
            return false;
        }
        i += 1;
    }
    true
}

/// The length of the longest run of whole lines with which all inputs start.
fn shared_prefix_len(inputs: &[&[u8]]) -> (n: usize)
    requires
        inputs@.len() > 0,
    ensures
        longest_shared(bytes_of(inputs@), n as int),
        n == shared_len(bytes_of(inputs@)),
{
    let ghost all = bytes_of(inputs@);
    let base = inputs[0];
    assert(all[0] == base@);
    let mut p: usize = 0;
    assert(shared_boundary(all, 0)) by {
        assert forall|i: int| 0 <= i < all.len() implies (#[trigger] all[i]).len() >= 0 && all[i].take(0) == all[0].take(0) by {
            assert(all[i].take(0) =~= all[0].take(0));
        }
    }
    while p < base.len()
        invariant
            inputs@.len() > 0,
            all == bytes_of(inputs@),
            base@ == all[0],
            base@ == inputs@[0]@,
            p <= base@.len(),
            shared_boundary(all, p as int),
        decreases base@.len() - p,
    {
        let e = line_end(base, p);
        if !line_shared(inputs, p, e) {
            assert forall|m: int| p < m implies !shared_boundary(all, m) by {
                if shared_boundary(all, m) {
                    let i = choose|i: int| 0 <= i < inputs@.len() && !line_agrees(#[trigger] bytes_of(inputs@)[i], base@, p as int, e as int);
                    assert(all[0].len() >= m);
                    assert(all[i].len() >= m && all[i].take(m) == all[0].take(m));
                    if m < e {
                        assert(base@[m - 1] != NEWLINE);
                        assert(all[0].len() == m);
                    } else {
                        assert(all[i].subrange(p as int, e as int) =~= base@.subrange(p as int, e as int)) by {
                            assert forall|k: int| p <= k < e implies all[i][k] == base@[k] by {
                                assert(all[i].take(m)[k] == all[0].take(m)[k]);
                            }
                        }
                        assert(base@[e - 1] != NEWLINE);
                        assert(e == base@.len());
                        assert(m == e);
                        assert(all[i].len() == m);
                    }
                }
            }
            proof {
                shared_len_is_longest(all, p as int);
            }
            return p;
        }
        proof {
            assert forall|i: int| 0 <= i < all.len() implies (#[trigger] all[i]).len() >= e && all[i].take(e as int) == all[0].take(e as int) by {
                assert(line_agrees(bytes_of(inputs@)[i], base@, p as int, e as int));
                assert(all[i].take(p as int) == all[0].take(p as int));
                assert forall|k: int| 0 <= k < e implies all[i][k] == all[0][k] by {
                    if k < p {
                        assert(all[i].take(p as int)[k] == all[0].take(p as int)[k]);
                    } else {
                        assert(all[i].subrange(p as int, e as int)[k - p] == base@.subrange(p as int, e as int)[k - p]);
                    }
                }
                assert(all[i].take(e as int) =~= all[0].take(e as int));
            }
            if base@[e - 1] != NEWLINE {
                assert forall|i: int| 0 <= i < all.len() implies (#[trigger] all[i]).len() == e by {
                    assert(line_agrees(bytes_of(inputs@)[i], base@, p as int, e as int));
                }
            }
        }
        p = e;
    }
    proof {
        assert forall|m: int| p < m implies !shared_boundary(all, m) by {
            if shared_boundary(all, m) {
                assert(all[0].len() >= m);
            }
        }
        shared_len_is_longest(all, p as int);
    }
    p
}

/// There is one longest shared boundary only, so it is `shared_len`.
pub proof fn shared_len_is_longest(inputs: Seq<Seq<u8>>, n: int)
    requires
        longest_shared(inputs, n),
    ensures
        shared_len(inputs) == n,
{
    let c = shared_len(inputs);
    assert(longest_shared(inputs, c));
    if c < n {
        assert(!shared_boundary(inputs, n));
    }
    if n < c {
        assert(!shared_boundary(inputs, c));
    }
}

/// Any non-empty list of inputs has a longest shared boundary, at or behind
/// a given one.
pub proof fn longest_shared_exists(inputs: Seq<Seq<u8>>, n: int)
    requires
        shared_boundary(inputs, n),
    ensures
        longest_shared(inputs, shared_len(inputs)),
    decreases inputs[0].len() - n,
{
    assert(inputs[0].len() >= n);
    if exists|m: int| n < m && shared_boundary(inputs, m) {
        let m = choose|m: int| n < m && shared_boundary(inputs, m);
        assert(inputs[0].len() >= m);
        longest_shared_exists(inputs, m);
    } else {
        assert(longest_shared(inputs, n));
    }
}

/// Whether every input ends, behind its first `n` bytes, with the last `c`
/// bytes of the first input, begun on a line boundary. The last `s` bytes
/// are known to be shared; only the bytes before them are compared.
fn tail_shared(inputs: &[&[u8]], n: usize, s: usize, c: usize) -> (ok: bool)
    requires
        inputs@.len() > 0,
        agree_upto(bytes_of(inputs@), n as int),
        shared_tail(bytes_of(inputs@), n as int, s as int),
        s < c <= inputs@[0]@.len() - n,
    ensures
        ok == forall|i: int| 0 <= i < inputs@.len() ==> tail_agrees(
            #[trigger] bytes_of(inputs@)[i],
            inputs@[0]@,
            n as int,
            c as int,
        ),
{
    let base = inputs[0];
    let mut i: usize = 0;
    while i < inputs.len()
        invariant
            i <= inputs@.len(),
            inputs@.len() > 0,
            base@ == inputs@[0]@,
            base@ == bytes_of(inputs@)[0],
            agree_upto(bytes_of(inputs@), n as int),
            shared_tail(bytes_of(inputs@), n as int, s as int),
            s < c <= base@.len() - n,
            forall|j: int| 0 <= j < i ==> tail_agrees(#[trigger] bytes_of(inputs@)[j], base@, n as int, c as int),
        decreases inputs@.len() - i,
    {
        let other = inputs[i];
        assert(bytes_of(inputs@)[i as int] == other@);
        assert(other@.len() >= n);
        assert(tail_agrees(other@, base@, n as int, s as int));
        if other.len() - n < c {
            return false;
        }
        let start = other.len() - c;
        if start != n && other[start - 1] != NEWLINE {
            return false;
        }
        let ours = slice_subrange(other, start, other.len() - s);
        let theirs = slice_subrange(base, base.len() - c, base.len() - s);
        let ghost our_tail = other@.skip(other@.len() - c);
        let ghost their_tail = base@.skip(base@.len() - c);
        assert(ours@ =~= our_tail.take(c - s));
        assert(theirs@ =~= their_tail.take(c - s));
        if !bytes_eq(ours, theirs) {
            return false;
        }
        assert(our_tail =~= their_tail) by {
            assert forall|k: int| 0 <= k < c implies #[trigger] our_tail[k] == their_tail[k] by {
                if k < c - s {
                    assert(ours@[k] == theirs@[k]);
                } else {
                    assert(other@.skip(other@.len() - s)[k - (c - s)] == base@.skip(base@.len() - s)[k - (c - s)]);
                }
            }
        }
        i += 1;
    }
    true
}

/// The length of the longest run of whole lines with which all inputs end
/// behind their first `n` bytes.
fn shared_suffix_len(inputs: &[&[u8]], n: usize) -> (s: usize)
    requires
        inputs@.len() > 0,
        agree_upto(bytes_of(inputs@), n as int),
    ensures
        longest_tail(bytes_of(inputs@), n as int, s as int),
        s == tail_len(bytes_of(inputs@), n as int),
{
    let ghost all = bytes_of(inputs@);
    let base = inputs[0];
    assert(all[0] == base@);
    assert(base@.len() >= n);
    let mut s: usize = 0;
    proof {
        empty_tail_is_shared(all, n as int);
    }
    while s < base.len() - n
        invariant
            inputs@.len() > 0,
            all == bytes_of(inputs@),
            base@ == all[0],
            base@ == inputs@[0]@,
            agree_upto(all, n as int),
            n <= base@.len(),
            s <= base@.len() - n,
            shared_tail(all, n as int, s as int),
        decreases base@.len() - n - s,
    {
        let end = base.len() - s;
        let mut t: usize = end - 1;
        while t > n && base[t - 1] != NEWLINE
            invariant
                n <= t < end,
                end <= base@.len(),
                forall|k: int| t <= k < end - 1 ==> base@[k] != NEWLINE,
            decreases t,
        {
            t -= 1;
        }
        let c = base.len() - t;
        if !tail_shared(inputs, n, s, c) {
            assert forall|m: int| s < m implies !shared_tail(all, n as int, m) by {
                if shared_tail(all, n as int, m) {
                    let i = choose|i: int| 0 <= i < inputs@.len() && !tail_agrees(#[trigger] bytes_of(inputs@)[i], base@, n as int, c as int);
                    let other = all[i];
                    assert(tail_agrees(all[0], base@, n as int, m));
                    assert(tail_agrees(other, base@, n as int, m));
                    let b = base@.len() - m;
                    assert(b <= t) by {
                        if b > t {
                            assert(base@[b - 1] != NEWLINE);
                        }
                    }
                    assert(m >= c);
                    assert forall|k: int| 0 <= k < c implies #[trigger] other.skip(other.len() - c)[k] == base@.skip(
                        base@.len() - c,
                    )[k] by {
                        assert(other.skip(other.len() - m)[m - c + k] == base@.skip(base@.len() - m)[m - c + k]);
                    }
                    assert(other.skip(other.len() - c) =~= base@.skip(base@.len() - c));
                    if m > c {
                        assert(other.skip(other.len() - m)[m - c - 1] == base@.skip(base@.len() - m)[m - c - 1]);
                        assert(other[other.len() - c - 1] == base@[t - 1]);
                        assert(base@[t - 1] == NEWLINE);
                    }
                    assert(tail_agrees(other, base@, n as int, c as int));
                }
            }
            proof {
                tail_len_is_longest(all, n as int, s as int);
            }
            return s;
        }
        s = c;
    }
    proof {
        assert forall|m: int| s < m implies !shared_tail(all, n as int, m) by {
            if shared_tail(all, n as int, m) {
                assert(tail_agrees(all[0], base@, n as int, m));
            }
        }
        tail_len_is_longest(all, n as int, s as int);
    }
    s
}

/// The empty tail is shared by inputs that all have `n` bytes or more.
pub proof fn empty_tail_is_shared(inputs: Seq<Seq<u8>>, n: int)
    requires
        inputs.len() > 0,
        agree_upto(inputs, n),
    ensures
        shared_tail(inputs, n, 0),
{
    assert forall|i: int| 0 <= i < inputs.len() implies tail_agrees(#[trigger] inputs[i], inputs[0], n, 0) by {
        assert(inputs[i].skip(inputs[i].len() - 0) =~= inputs[0].skip(inputs[0].len() - 0));
    }
}

/// There is one longest shared tail only, so it is `tail_len`.
pub proof fn tail_len_is_longest(inputs: Seq<Seq<u8>>, n: int, s: int)
    requires
        longest_tail(inputs, n, s),
    ensures
        tail_len(inputs, n) == s,
{
    let c = tail_len(inputs, n);
    assert(longest_tail(inputs, n, c));
    if c < s {
        assert(!shared_tail(inputs, n, s));
    }
    if s < c {
        assert(!shared_tail(inputs, n, c));
    }
}

/// Inputs that share a tail have a longest shared tail, at or above it.
pub proof fn longest_tail_exists(inputs: Seq<Seq<u8>>, n: int, s: int)
    requires
        shared_tail(inputs, n, s),
    ensures
        longest_tail(inputs, n, tail_len(inputs, n)),
    decreases inputs[0].len() - n - s,
{
    assert(tail_agrees(inputs[0], inputs[0], n, s));
    if exists|m: int| s < m && shared_tail(inputs, n, m) {
        let m = choose|m: int| s < m && shared_tail(inputs, n, m);
        assert(tail_agrees(inputs[0], inputs[0], n, m));
        longest_tail_exists(inputs, n, m);
    } else {
        assert(longest_tail(inputs, n, s));
    }
}

/// Aligns the inputs by the whole lines with which all of them start and
/// the whole lines with which all of them end.
///
/// The result holds, in this order, one matching hunk with the shared
/// leading lines, one divergent hunk with what each input holds between the
/// shared ends, and one matching hunk with the shared trailing lines; a
/// matching hunk is left out where it would be empty, and the divergent one
/// where all of its parts would be.
pub fn align<'a>(inputs: &[&'a [u8]]) -> (hunks: Vec<DiffHunk<'a>>)
    ensures
        hunk_views(hunks@) == aligned(bytes_of(inputs@)),
{
    let ghost all = bytes_of(inputs@);
    let mut hunks: Vec<DiffHunk<'a>> = Vec::new();
    if inputs.len() == 0 {
        assert(hunk_views(hunks@) =~= Seq::empty());
        return hunks;
    }
    let n = shared_prefix_len(inputs);
    let s = shared_suffix_len(inputs, n);
    let base = inputs[0];
    assert(all[0] == base@);
    assert(tail_agrees(all[0], all[0], n as int, s as int));
    if n > 0 {
        hunks.push(DiffHunk::Matching(slice_subrange(base, 0, n)));
    }
    let ghost head = hunk_views(hunks@);
    assert(head =~= if n > 0 {
        seq![HunkView::Matching(all[0].take(n as int))]
    } else {
        Seq::empty()
    });
    let mut rest: Vec<&'a [u8]> = Vec::new();
    let mut any = false;
    let mut i: usize = 0;
    while i < inputs.len()
        invariant
            i <= inputs@.len(),
            all == bytes_of(inputs@),
            shared_tail(all, n as int, s as int),
            bytes_of(rest@) == middles(all, n as int, s as int).take(i as int),
            any == any_content(bytes_of(rest@)),
        decreases inputs@.len() - i,
    {
        let input = inputs[i];
        assert(all[i as int] == input@);
        assert(tail_agrees(all[i as int], all[0], n as int, s as int));
        let ghost before = bytes_of(rest@);
        let piece = slice_subrange(input, n, input.len() - s);
        rest.push(piece);
        assert(bytes_of(rest@) =~= before.push(piece@));
        assert(bytes_of(rest@) =~= middles(all, n as int, s as int).take(i + 1));
        proof {
            if piece@.len() > 0 {
                assert(bytes_of(rest@)[i as int].len() > 0);
            } else if any {
                let w = choose|w: int| 0 <= w < before.len() && (#[trigger] before[w]).len() > 0;
                assert(bytes_of(rest@)[w].len() > 0);
            } else {
                assert forall|w: int| 0 <= w < bytes_of(rest@).len() implies (#[trigger] bytes_of(rest@)[w]).len() == 0 by {
                    if w < i {
                        assert(before[w] == bytes_of(rest@)[w]);
                    }
                }
            }
        }
        if piece.len() > 0 {
            any = true;
        }
        i += 1;
    }
    assert(middles(all, n as int, s as int).take(inputs@.len() as int) =~= middles(all, n as int, s as int));
    let ghost middle = if any {
        seq![HunkView::Different(middles(all, n as int, s as int))]
    } else {
        Seq::empty()
    };
    if any {
        let ghost before = hunk_views(hunks@);
        hunks.push(DiffHunk::Different(rest));
        assert(hunk_views(hunks@) =~= before.push(HunkView::Different(middles(all, n as int, s as int))));
    }
    assert(hunk_views(hunks@) =~= head + middle);
    if s > 0 {
        let ghost before = hunk_views(hunks@);
        let shared = slice_subrange(base, base.len() - s, base.len());
        assert(shared@ =~= all[0].skip(all[0].len() - s));
        hunks.push(DiffHunk::Matching(shared));
        assert(hunk_views(hunks@) =~= before.push(HunkView::Matching(all[0].skip(all[0].len() - s))));
    }
    assert(hunk_views(hunks@) =~= cut(all, n as int, s as int));
    hunks
}

/// Every divergent hunk of an alignment has one part per input.
pub proof fn aligned_parts_fit(inputs: Seq<Seq<u8>>)
    ensures
        parts_fit(aligned(inputs), inputs.len() as int),
{
}

/// The content of two hunk streams in a row is the content of the first
/// followed by that of the second.
pub proof fn content_of_concat(a: Seq<HunkView>, b: Seq<HunkView>, i: int)
    ensures
        content_of(a + b, i) == content_of(a, i) + content_of(b, i),
    decreases a.len(),
{
    if a.len() == 0 {
        assert(a + b =~= b);
        assert(content_of(a, i) + content_of(b, i) =~= content_of(b, i));
    } else {
        assert((a + b)[0] == a[0]);
        assert((a + b).skip(1) =~= a.skip(1) + b);
        content_of_concat(a.skip(1), b, i);
        assert(side(a[0], i) + (content_of(a.skip(1), i) + content_of(b, i)) =~= (side(a[0], i) + content_of(
            a.skip(1),
            i,
        )) + content_of(b, i));
    }
}

/// A stream of one hunk holds what the hunk holds.
pub proof fn content_of_one(hunk: HunkView, i: int)
    ensures
        content_of(seq![hunk], i) == side(hunk, i),
{
    assert(seq![hunk].skip(1) =~= Seq::<HunkView>::empty());
    assert(content_of(Seq::<HunkView>::empty(), i) =~= Seq::<u8>::empty());
    assert(seq![hunk][0] == hunk);
    assert(side(hunk, i) + Seq::<u8>::empty() =~= side(hunk, i));
}

/// The hunks of an alignment hold each input whole: the sides of input `i`,
/// in order, make up input `i`.
pub proof fn aligned_reconstructs(inputs: Seq<Seq<u8>>, i: int)
    requires
        0 <= i < inputs.len(),
    ensures
        content_of(aligned(inputs), i) == inputs[i],
{
    assert(shared_boundary(inputs, 0)) by {
        assert forall|j: int| 0 <= j < inputs.len() implies (#[trigger] inputs[j]).len() >= 0 && inputs[j].take(0) == inputs[0].take(0) by {
            assert(inputs[j].take(0) =~= inputs[0].take(0));
        }
    }
    longest_shared_exists(inputs, 0);
    let n = shared_len(inputs);
    empty_tail_is_shared(inputs, n);
    longest_tail_exists(inputs, n, 0);
    let s = tail_len(inputs, n);
    let input = inputs[i];
    assert(input.len() >= n && input.take(n) == inputs[0].take(n));
    assert(tail_agrees(input, inputs[0], n, s));
    let parts = middles(inputs, n, s);
    let first = HunkView::Matching(inputs[0].take(n));
    let between = HunkView::Different(parts);
    let last = HunkView::Matching(inputs[0].skip(inputs[0].len() - s));
    let head = if n > 0 { seq![first] } else { Seq::empty() };
    let middle = if any_content(parts) { seq![between] } else { Seq::empty() };
    let tail = if s > 0 { seq![last] } else { Seq::empty() };
    content_of_concat(head, middle + tail, i);
    content_of_concat(middle, tail, i);
    content_of_one(first, i);
    content_of_one(between, i);
    content_of_one(last, i);
    assert(content_of(Seq::<HunkView>::empty(), i) =~= Seq::<u8>::empty());
    assert(content_of(head, i) =~= input.take(n));
    assert(content_of(middle, i) =~= input.subrange(n, input.len() - s)) by {
        assert(parts[i] == input.subrange(n, input.len() - s));
        if !any_content(parts) {
            assert(parts[i].len() == 0);
        }
    }
    assert(content_of(tail, i) =~= input.skip(input.len() - s));
    assert(input.take(n) + (input.subrange(n, input.len() - s) + input.skip(input.len() - s)) =~= input);
}

} // verus!
