//! Hunks of aligned inputs and small helpers on byte slices.

use vstd::prelude::*;

verus! {

/// The newline byte, the only byte with structural meaning.
pub const NEWLINE: u8 = 10u8;

/// One aligned region of the compared inputs.
///
/// `Matching` holds content that every input shares. `Different` holds one
/// part per input, in the order of the inputs; any part may be empty.
#[derive(PartialEq, Eq, Clone, Debug)]
pub enum DiffHunk<'a> {
    Matching(&'a [u8]),
    Different(Vec<&'a [u8]>),
}

/// The mathematical value of a `DiffHunk`.
pub enum HunkView {
    Matching(Seq<u8>),
    Different(Seq<Seq<u8>>),
}

/// The contents of a list of borrowed byte slices.
pub open spec fn bytes_of(parts: Seq<&[u8]>) -> Seq<Seq<u8>> {
    parts.map_values(|p: &[u8]| p@)
}

impl<'a> View for DiffHunk<'a> {
    type V = HunkView;

    open spec fn view(&self) -> HunkView {
        match self {
            DiffHunk::Matching(content) => HunkView::Matching(content@),
            DiffHunk::Different(parts) => HunkView::Different(bytes_of(parts@)),
        }
    }
}

/// The values of a list of hunks.
pub open spec fn hunk_views(hunks: Seq<DiffHunk>) -> Seq<HunkView> {
    hunks.map_values(|h: DiffHunk| h@)
}

/// The end of the line of `s` that starts at `p`: the position behind the
/// first newline at or after `p`, or the end of `s` where there is none.
pub open spec fn line_end_from(s: Seq<u8>, p: int) -> int
    decreases s.len() - p,
{
    if p >= s.len() {
        s.len() as int
    } else if s[p] == NEWLINE {
        p + 1
    } else {
        line_end_from(s, p + 1)
    }
}

/// A line that starts inside `s` is not empty and ends inside `s`.
pub proof fn line_end_bounds(s: Seq<u8>, p: int)
    requires
        0 <= p < s.len(),
    ensures
        p < line_end_from(s, p) <= s.len(),
    decreases s.len() - p,
{
    if s[p] != NEWLINE {
        if p + 1 < s.len() {
            line_end_bounds(s, p + 1);
        } else {
            assert(line_end_from(s, p + 1) == s.len());
        }
    }
}

/// The end of the line that starts at `p`: the position behind its newline,
/// or the end of `s` where the line has none.
pub(crate) fn line_end(s: &[u8], p: usize) -> (e: usize)
    requires
        p < s@.len(),
    ensures
        e == line_end_from(s@, p as int),
        p < e <= s@.len(),
        forall|k: int| p <= k < e - 1 ==> s@[k] != NEWLINE,
        e == s@.len() || s@[e - 1] == NEWLINE,
{
    let mut k: usize = p;
    while k < s.len()
        invariant
            p <= k <= s@.len(),
            forall|j: int| p <= j < k ==> s@[j] != NEWLINE,
            line_end_from(s@, p as int) == line_end_from(s@, k as int),
        decreases s@.len() - k,
    {
        if s[k] == NEWLINE {
            return k + 1;
        }
        k += 1;
    }
    k
}

/// Byte-for-byte equality of two slices.
pub fn bytes_eq(a: &[u8], b: &[u8]) -> (same: bool)
    ensures
        same == (a@ == b@),
{
    if a.len() != b.len() {
        return false;
    }
    let mut i: usize = 0;
    while i < a.len()
        invariant
            a@.len() == b@.len(),
            i <= a@.len(),
            forall|j: int| 0 <= j < i ==> a@[j] == b@[j],
        decreases a@.len() - i,
    {
        if a[i] != b[i] {
            return false;
        }
        i += 1;
    }
    assert(a@ =~= b@);
    true
}

/// Appends the bytes of `tail` to `buf`.
pub fn append_bytes(buf: &mut Vec<u8>, tail: &[u8])
    ensures
        final(buf)@ == old(buf)@ + tail@,
{
    let ghost before = buf@;
    let mut i: usize = 0;
    while i < tail.len()
        invariant
            i <= tail@.len(),
            buf@ == before + tail@.take(i as int),
        decreases tail@.len() - i,
    {
        buf.push(tail[i]);
        assert(buf@ =~= before + tail@.take(i + 1));
        i += 1;
    }
    assert(tail@.take(tail@.len() as int) =~= tail@);
}

/// An owned copy of a byte slice.
pub fn copy_bytes(src: &[u8]) -> (out: Vec<u8>)
    ensures
        out@ == src@,
{
    let mut out: Vec<u8> = Vec::new();
    append_bytes(&mut out, src);
    assert(Seq::<u8>::empty() + src@ =~= src@);
    out
}

} // verus!
