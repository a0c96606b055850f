//! The n-way conflict merger.

use vstd::prelude::*;
use crate::align::{align, aligned, aligned_parts_fit, parts_fit};
use crate::hunk::{DiffHunk, HunkView, bytes_of, hunk_views, bytes_eq, append_bytes, copy_bytes};

verus! {

/// One segment of a conflicted merge.
///
/// A `Conflict` carries the parts of the divergent region as the inputs had
/// them, one per input and in the inputs' order.
#[derive(PartialEq, Eq, Clone, Debug)]
pub enum MergeHunk {
    Resolved(Vec<u8>),
    Conflict { removes: Vec<Vec<u8>>, adds: Vec<Vec<u8>> },
}

/// The outcome of a merge: one buffer, or segments of which at least one is
/// a conflict.
#[derive(PartialEq, Eq, Clone, Debug)]
pub enum MergeResult {
    Resolved(Vec<u8>),
    Conflict(Vec<MergeHunk>),
}

/// The mathematical value of a `MergeHunk`.
pub enum MergeHunkView {
    Resolved(Seq<u8>),
    Conflict { removes: Seq<Seq<u8>>, adds: Seq<Seq<u8>> },
}

/// The mathematical value of a `MergeResult`.
pub enum MergeResultView {
    Resolved(Seq<u8>),
    Conflict(Seq<MergeHunkView>),
}

/// The contents of a list of owned buffers.
pub open spec fn buffers_of(list: Seq<Vec<u8>>) -> Seq<Seq<u8>> {
    list.map_values(|b: Vec<u8>| b@)
}

impl View for MergeHunk {
    type V = MergeHunkView;

    open spec fn view(&self) -> MergeHunkView {
        match self {
            MergeHunk::Resolved(content) => MergeHunkView::Resolved(content@),
            MergeHunk::Conflict { removes, adds } => MergeHunkView::Conflict {
                removes: buffers_of(removes@),
                adds: buffers_of(adds@),
            },
        }
    }
}

/// The values of a list of merge hunks.
pub open spec fn merge_hunk_views(hunks: Seq<MergeHunk>) -> Seq<MergeHunkView> {
    hunks.map_values(|h: MergeHunk| h@)
}

impl View for MergeResult {
    type V = MergeResultView;

    open spec fn view(&self) -> MergeResultView {
        match self {
            MergeResult::Resolved(content) => MergeResultView::Resolved(content@),
            MergeResult::Conflict(hunks) => MergeResultView::Conflict(merge_hunk_views(hunks@)),
        }
    }
}

impl MergeResult {
    /// A conflicted result lists at least one segment, and at least one of
    /// its segments is a conflict.
    pub open spec fn well_formed(&self) -> bool {
        self@ matches MergeResultView::Conflict(segments) ==> segments.len() > 0 && holds_conflict(segments)
    }
}

/// The index of the first element of `list` at or after `from` that equals
/// `part`, or the length of `list` where there is none.
pub open spec fn first_match(list: Seq<Seq<u8>>, part: Seq<u8>, from: int) -> int
    decreases list.len() - from,
{
    if from >= list.len() {
        list.len() as int
    } else if list[from] == part {
        from
    } else {
        first_match(list, part, from + 1)
    }
}

/// What is left of the removed and the added parts once each added part, in
/// order, has cancelled the first removed part that it equals.
pub open spec fn cancel(removed: Seq<Seq<u8>>, added: Seq<Seq<u8>>) -> (Seq<Seq<u8>>, Seq<Seq<u8>>)
    decreases added.len(),
{
    if added.len() == 0 {
        (removed, added)
    } else {
        let j = first_match(removed, added[0], 0);
        if j < removed.len() {
            cancel(removed.remove(j), added.skip(1))
        } else {
            let rest = cancel(removed, added.skip(1));
            (rest.0, seq![added[0]] + rest.1)
        }
    }
}

/// The list is not empty and holds one content only.
pub open spec fn uniform(list: Seq<Seq<u8>>) -> bool {
    list.len() > 0 && forall|i: int| 0 <= i < list.len() ==> #[trigger] list[i] == list.first()
}

/// What a divergent region contributes, given the parts that survived
/// cancellation: the bytes to append, or `None` for a conflict.
pub open spec fn settle(removed: Seq<Seq<u8>>, added: Seq<Seq<u8>>) -> Option<Seq<u8>> {
    if removed.len() == 0 && added.len() == 0 {
        Some(Seq::empty())
    } else if removed.len() == 0 && uniform(added) {
        Some(added[0])
    } else if uniform(removed) && added.len() == 0 {
        Some(Seq::empty())
    } else if uniform(removed) && uniform(added) && added.len() == removed.len() + 1 {
        Some(added[0])
    } else {
        None
    }
}

/// The merger's state between two hunks: the resolved bytes not yet flushed
/// and the segments emitted so far.
pub struct MergeState {
    pub resolved: Seq<u8>,
    pub hunks: Seq<MergeHunkView>,
}

/// The segments with the pending resolved bytes, if any, flushed behind them.
pub open spec fn flushed(st: MergeState) -> Seq<MergeHunkView> {
    if st.resolved.len() > 0 {
        st.hunks.push(MergeHunkView::Resolved(st.resolved))
    } else {
        st.hunks
    }
}

/// The state after one more hunk. `num_removes` says how many of a divergent
/// hunk's parts belong to bases; `sides_outnumber` says whether there are
/// more sides than bases.
pub open spec fn step(num_removes: int, sides_outnumber: bool, st: MergeState, hunk: HunkView) -> MergeState {
    match hunk {
        HunkView::Matching(content) => if sides_outnumber {
            MergeState { resolved: st.resolved + content, hunks: st.hunks }
        } else {
            st
        },
        HunkView::Different(parts) => {
            let removes = parts.take(num_removes);
            let adds = parts.skip(num_removes);
            let left = cancel(removes, adds);
            match settle(left.0, left.1) {
                Some(content) => MergeState { resolved: st.resolved + content, hunks: st.hunks },
                None => MergeState {
                    resolved: Seq::empty(),
                    hunks: flushed(st).push(MergeHunkView::Conflict { removes, adds }),
                },
            }
        },
    }
}

/// The state after all of `hunks`, taken in order from the empty state.
pub open spec fn reduce(num_removes: int, sides_outnumber: bool, hunks: Seq<HunkView>) -> MergeState
    decreases hunks.len(),
{
    if hunks.len() == 0 {
        MergeState { resolved: Seq::empty(), hunks: Seq::empty() }
    } else {
        step(num_removes, sides_outnumber, reduce(num_removes, sides_outnumber, hunks.drop_last()), hunks.last())
    }
}

/// The result that a final state stands for.
pub open spec fn conclude(st: MergeState) -> MergeResultView {
    if st.hunks.len() == 0 {
        MergeResultView::Resolved(st.resolved)
    } else {
        MergeResultView::Conflict(flushed(st))
    }
}

/// The merge of an aligned hunk stream.
pub open spec fn merged(num_removes: int, sides_outnumber: bool, hunks: Seq<HunkView>) -> MergeResultView {
    conclude(reduce(num_removes, sides_outnumber, hunks))
}

/// Searches `list` for the first slice equal to `part`.
fn find_first(list: &Vec<&[u8]>, part: &[u8]) -> (j: usize)
    ensures
        j == first_match(bytes_of(list@), part@, 0),
{
    let mut j: usize = 0;
    while j < list.len()
        invariant
            j <= list@.len(),
            first_match(bytes_of(list@), part@, 0) == first_match(bytes_of(list@), part@, j as int),
        decreases list@.len() - j,
    {
        if bytes_eq(list[j], part) {
            return j;
        }
        j += 1;
    }
    j
}

/// Whether the list is non-empty and all of its slices hold the same bytes.
fn is_uniform(list: &Vec<&[u8]>) -> (one: bool)
    ensures
        one == uniform(bytes_of(list@)),
{
    if list.len() == 0 {
        return false;
    }
    let mut i: usize = 1;
    while i < list.len()
        invariant
            1 <= i <= list@.len(),
            forall|j: int| 0 <= j < i ==> #[trigger] bytes_of(list@)[j] == bytes_of(list@).first(),
        decreases list@.len() - i,
    {
        if !bytes_eq(list[i], list[0]) {
            assert(bytes_of(list@)[i as int] != bytes_of(list@).first());
            return false;
        }
        i += 1;
    }
    true
}

/// Owned copies of `parts[from..to]`.
fn copy_parts(parts: &Vec<&[u8]>, from: usize, to: usize) -> (out: Vec<Vec<u8>>)
    requires
        from <= to <= parts@.len(),
    ensures
        buffers_of(out@) == bytes_of(parts@).subrange(from as int, to as int),
{
    let mut out: Vec<Vec<u8>> = Vec::new();
    let mut i: usize = from;
    while i < to
        invariant
            from <= i <= to <= parts@.len(),
            buffers_of(out@) == bytes_of(parts@).subrange(from as int, i as int),
        decreases to - i,
    {
        let ghost before = buffers_of(out@);
        let piece = copy_bytes(parts[i]);
        out.push(piece);
        assert(buffers_of(out@) =~= before.push(bytes_of(parts@)[i as int]));
        assert(buffers_of(out@) =~= bytes_of(parts@).subrange(from as int, i + 1));
        i += 1;
    }
    out
}

/// Runs the cancellation pass on the parts of one divergent hunk and returns
/// the surviving removed and added parts.
fn cancel_parts<'a>(parts: &Vec<&'a [u8]>, num_removes: usize) -> (left: (Vec<&'a [u8]>, Vec<&'a [u8]>))
    requires
        num_removes <= parts@.len(),
    ensures
        (bytes_of(left.0@), bytes_of(left.1@)) == cancel(
            bytes_of(parts@).take(num_removes as int),
            bytes_of(parts@).skip(num_removes as int),
        ),
{
    let ghost all = bytes_of(parts@);
    let ghost adds = all.skip(num_removes as int);
    let mut removed: Vec<&'a [u8]> = Vec::new();
    let mut i: usize = 0;
    while i < num_removes
        invariant
            i <= num_removes <= parts@.len(),
            all == bytes_of(parts@),
            bytes_of(removed@) == all.take(i as int),
        decreases num_removes - i,
    {
        let ghost before = bytes_of(removed@);
        removed.push(parts[i]);
        assert(bytes_of(removed@) =~= before.push(all[i as int]));
        assert(bytes_of(removed@) =~= all.take(i + 1));
        i += 1;
    }
    let mut kept: Vec<&'a [u8]> = Vec::new();
    let mut a: usize = num_removes;
    assert(adds.skip(0) =~= adds);
    assert(bytes_of(kept@) + cancel(bytes_of(removed@), adds).1 =~= cancel(bytes_of(removed@), adds).1);
    while a < parts.len()
        invariant
            num_removes <= a <= parts@.len(),
            all == bytes_of(parts@),
            adds == all.skip(num_removes as int),
            cancel(all.take(num_removes as int), adds) == (
                cancel(bytes_of(removed@), adds.skip(a - num_removes)).0,
                bytes_of(kept@) + cancel(bytes_of(removed@), adds.skip(a - num_removes)).1,
            ),
        decreases parts@.len() - a,
    {
        let part = parts[a];
        let ghost rest = adds.skip(a - num_removes);
        let ghost before_removed = bytes_of(removed@);
        let ghost before_kept = bytes_of(kept@);
        assert(rest.len() > 0 && rest[0] == part@);
        assert(rest.skip(1) =~= adds.skip(a + 1 - num_removes));
        let j = find_first(&removed, part);
        if j < removed.len() {
            removed.remove(j);
            assert(bytes_of(removed@) =~= before_removed.remove(j as int));
        } else {
            kept.push(part);
            assert(bytes_of(kept@) =~= before_kept.push(part@));
            let ghost tail = cancel(before_removed, rest.skip(1));
            assert(before_kept + (seq![part@] + tail.1) =~= before_kept.push(part@) + tail.1);
        }
        a += 1;
    }
    (removed, kept)
}

/// Reduces an aligned hunk stream over `num_removes` bases and `num_adds`
/// sides to a merge result.
///
/// Content shared by all inputs is kept only where the sides outnumber the
/// bases. A divergent region is resolved where, after cancellation, nothing
/// is left, all surviving sides add the same content, all surviving bases
/// lose the same content, or one surviving edit was applied uniformly with
/// one side more than bases; otherwise it becomes a conflict that carries
/// the region's parts as the inputs had them.
pub fn resolve(num_removes: usize, num_adds: usize, hunks: &Vec<DiffHunk>) -> (result: MergeResult)
    requires
        parts_fit(hunk_views(hunks@), num_removes + num_adds),
    ensures
        result@ == merged(num_removes as int, num_adds > num_removes, hunk_views(hunks@)),
        result.well_formed(),
{
    let ghost views = hunk_views(hunks@);
    let sides_outnumber = num_adds > num_removes;
    let mut resolved: Vec<u8> = Vec::new();
    let mut merge_hunks: Vec<MergeHunk> = Vec::new();
    let mut i: usize = 0;
    assert(views.take(0) =~= Seq::empty());
    assert(merge_hunk_views(merge_hunks@) =~= Seq::empty());
    while i < hunks.len()
        invariant
            i <= hunks@.len(),
            views == hunk_views(hunks@),
            parts_fit(views, num_removes + num_adds),
            sides_outnumber == (num_adds > num_removes),
            resolved@ == reduce(num_removes as int, sides_outnumber, views.take(i as int)).resolved,
            merge_hunk_views(merge_hunks@) == reduce(
                num_removes as int,
                sides_outnumber,
                views.take(i as int),
            ).hunks,
        decreases hunks@.len() - i,
    {
        let ghost before = MergeState { resolved: resolved@, hunks: merge_hunk_views(merge_hunks@) };
        assert(views.take(i + 1).drop_last() =~= views.take(i as int));
        assert(views.take(i + 1).last() == views[i as int]);
        assert(views[i as int] == hunks@[i as int]@);
        match &hunks[i] {
            DiffHunk::Matching(content) => {
                if sides_outnumber {
                    append_bytes(&mut resolved, content);
                }
            },
            DiffHunk::Different(parts) => {
                assert(parts@.len() == num_removes + num_adds) by {
                    assert(views[i as int] matches HunkView::Different(p) && p.len() == num_removes + num_adds);
                }
                let (removed, added) = cancel_parts(parts, num_removes);
                let take_first = if removed.len() == 0 && added.len() == 0 {
                    Some(false)
                } else if removed.len() == 0 && is_uniform(&added) {
                    Some(true)
                } else if is_uniform(&removed) && added.len() == 0 {
                    Some(false)
                } else if is_uniform(&removed) && is_uniform(&added) && added.len() - 1 == removed.len() {
                    Some(true)
                } else {
                    None
                };
                match take_first {
                    Some(true) => {
                        append_bytes(&mut resolved, added[0]);
                    },
                    Some(false) => {
                        assert(resolved@ + Seq::<u8>::empty() =~= resolved@);
                    },
                    None => {
                        if resolved.len() > 0 {
                            merge_hunks.push(MergeHunk::Resolved(resolved));
                            resolved = Vec::new();
                        }
                        let removes = copy_parts(parts, 0, num_removes);
                        let adds = copy_parts(parts, num_removes, parts.len());
                        merge_hunks.push(MergeHunk::Conflict { removes, adds });
                        assert(merge_hunk_views(merge_hunks@) =~= flushed(before).push(
                            MergeHunkView::Conflict {
                                removes: bytes_of(parts@).take(num_removes as int),
                                adds: bytes_of(parts@).skip(num_removes as int),
                            },
                        ));
                    },
                }
            },
        }
        i += 1;
    }
    assert(views.take(views.len() as int) =~= views);
    proof {
        conflict_result_holds_conflict(num_removes as int, sides_outnumber, views);
    }
    if merge_hunks.len() == 0 {
        MergeResult::Resolved(resolved)
    } else {
        let ghost before = MergeState { resolved: resolved@, hunks: merge_hunk_views(merge_hunks@) };
        if resolved.len() > 0 {
            merge_hunks.push(MergeHunk::Resolved(resolved));
        }
        assert(merge_hunk_views(merge_hunks@) =~= flushed(before));
        MergeResult::Conflict(merge_hunks)
    }
}

/// Merges the base versions `removes` and the side versions `adds` of a text.
///
/// The inputs, bases first, are aligned by lines and the hunks reduced as
/// `resolve` does. Any number of bases and sides is accepted, none included.
pub fn merge<'a>(removes: &[&'a [u8]], adds: &[&'a [u8]]) -> (result: MergeResult)
    ensures
        result@ == merged(
            removes@.len() as int,
            adds@.len() > removes@.len(),
            aligned(bytes_of(removes@) + bytes_of(adds@)),
        ),
        result.well_formed(),
{
    let mut inputs: Vec<&'a [u8]> = Vec::new();
    let mut i: usize = 0;
    while i < removes.len()
        invariant
            i <= removes@.len(),
            bytes_of(inputs@) == bytes_of(removes@).take(i as int),
        decreases removes@.len() - i,
    {
        let ghost before = bytes_of(inputs@);
        inputs.push(removes[i]);
        assert(bytes_of(inputs@) =~= before.push(bytes_of(removes@)[i as int]));
        assert(bytes_of(inputs@) =~= bytes_of(removes@).take(i + 1));
        i += 1;
    }
    assert(bytes_of(removes@).take(removes@.len() as int) =~= bytes_of(removes@));
    let mut j: usize = 0;
    assert(bytes_of(inputs@) =~= bytes_of(removes@) + bytes_of(adds@).take(0));
    while j < adds.len()
        invariant
            j <= adds@.len(),
            bytes_of(inputs@) == bytes_of(removes@) + bytes_of(adds@).take(j as int),
        decreases adds@.len() - j,
    {
        let ghost before = bytes_of(inputs@);
        inputs.push(adds[j]);
        assert(bytes_of(inputs@) =~= before.push(bytes_of(adds@)[j as int]));
        assert(bytes_of(inputs@) =~= bytes_of(removes@) + bytes_of(adds@).take(j + 1));
        j += 1;
    }
    assert(bytes_of(adds@).take(adds@.len() as int) =~= bytes_of(adds@));
    let hunks = align(inputs.as_slice());
    proof {
        aligned_parts_fit(bytes_of(inputs@));
    }
    resolve(removes.len(), adds.len(), &hunks)
}

/// The list of segments is not empty and at least one of them is a conflict.
pub open spec fn holds_conflict(segments: Seq<MergeHunkView>) -> bool {
    exists|j: int| 0 <= j < segments.len() && segments[j] is Conflict
}

/// In every state that the merger reaches, segments were emitted only if one
/// of them is a conflict.
pub proof fn reduce_keeps_conflict(num_removes: int, sides_outnumber: bool, hunks: Seq<HunkView>)
    ensures
        reduce(num_removes, sides_outnumber, hunks).hunks.len() > 0 ==> holds_conflict(
            reduce(num_removes, sides_outnumber, hunks).hunks,
        ),
    decreases hunks.len(),
{
    if hunks.len() > 0 {
        let before = reduce(num_removes, sides_outnumber, hunks.drop_last());
        let after = reduce(num_removes, sides_outnumber, hunks);
        reduce_keeps_conflict(num_removes, sides_outnumber, hunks.drop_last());
        if after.hunks != before.hunks {
            assert(after.hunks.last() is Conflict);
        }
    }
}

/// A merge that ends in a conflict lists at least one segment, and at least
/// one of its segments is a conflict.
pub proof fn conflict_result_holds_conflict(num_removes: int, sides_outnumber: bool, hunks: Seq<HunkView>)
    ensures
        merged(num_removes, sides_outnumber, hunks) matches MergeResultView::Conflict(segments)
            ==> segments.len() > 0 && holds_conflict(segments),
{
    reduce_keeps_conflict(num_removes, sides_outnumber, hunks);
    let st = reduce(num_removes, sides_outnumber, hunks);
    if st.hunks.len() > 0 {
        let j = choose|j: int| 0 <= j < st.hunks.len() && st.hunks[j] is Conflict;
        assert(flushed(st)[j] is Conflict);
    }
}

} // verus!
