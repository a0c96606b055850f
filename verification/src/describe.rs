//! Merge results as text for debugging, with their bytes read as UTF-8.

use vstd::prelude::*;
use vstd::string::*;
use crate::merge::{MergeHunk, MergeHunkView, MergeResult, MergeResultView, buffers_of, merge_hunk_views};

verus! {

/// The text that `String::from_utf8_lossy` reads from bytes: the bytes as
/// UTF-8, with the replacement character for what is not.
pub uninterp spec fn lossy_text(bytes: Seq<u8>) -> Seq<char>;

/// A string as `Debug` writes it: in double quotes, with escapes.
pub uninterp spec fn debug_quoted(text: Seq<char>) -> Seq<char>;

/// Calls `String::from_utf8_lossy` and takes the text as an owned string.
/// The contract claims only that the text is a function of the bytes, which
/// it names `lossy_text`.
#[verifier::external_body]
fn lossy(bytes: &[u8]) -> (text: String)
    ensures
        text@ == lossy_text(bytes@),
{
    String::from_utf8_lossy(bytes).into_owned()
}

/// Formats a string with `Debug`. The contract claims only that the outcome
/// is a function of the string, which it names `debug_quoted`.
#[verifier::external_body]
fn quoted(text: &str) -> (out: String)
    ensures
        out@ == debug_quoted(text@),
{
    format!("{:?}", text)
}

/// Bytes as a quoted string.
pub open spec fn quoted_bytes(bytes: Seq<u8>) -> Seq<char> {
    debug_quoted(lossy_text(bytes))
}

/// The parts as quoted strings, with a comma and a blank between them.
pub open spec fn listed_parts(parts: Seq<Seq<u8>>) -> Seq<char>
    decreases parts.len(),
{
    if parts.len() == 0 {
        Seq::empty()
    } else if parts.len() == 1 {
        quoted_bytes(parts[0])
    } else {
        listed_parts(parts.drop_last()) + ", "@ + quoted_bytes(parts.last())
    }
}

/// The text of one segment.
pub open spec fn hunk_text(hunk: MergeHunkView) -> Seq<char> {
    match hunk {
        MergeHunkView::Resolved(content) => "Resolved("@ + quoted_bytes(content) + ")"@,
        MergeHunkView::Conflict { removes, adds } => "Conflict { removes: ["@ + listed_parts(removes) + "], adds: ["@
            + listed_parts(adds) + "] }"@,
    }
}

/// The texts of the segments, with a comma and a blank between them.
pub open spec fn listed_hunks(hunks: Seq<MergeHunkView>) -> Seq<char>
    decreases hunks.len(),
{
    if hunks.len() == 0 {
        Seq::empty()
    } else if hunks.len() == 1 {
        hunk_text(hunks[0])
    } else {
        listed_hunks(hunks.drop_last()) + ", "@ + hunk_text(hunks.last())
    }
}

/// The text of a merge result.
pub open spec fn result_text(result: MergeResultView) -> Seq<char> {
    match result {
        MergeResultView::Resolved(content) => "Resolved("@ + quoted_bytes(content) + ")"@,
        MergeResultView::Conflict(hunks) => "Conflict(["@ + listed_hunks(hunks) + "])"@,
    }
}

/// Appends the parts as quoted strings, separated by a comma and a blank.
fn append_parts(out: &mut String, parts: &Vec<Vec<u8>>)
    ensures
        final(out)@ == old(out)@ + listed_parts(buffers_of(parts@)),
{
    let ghost before = out@;
    let ghost all = buffers_of(parts@);
    let mut i: usize = 0;
    assert(all.take(0) =~= Seq::empty());
    assert(before + listed_parts(all.take(0)) =~= before);
    while i < parts.len()
        invariant
            i <= parts@.len(),
            all == buffers_of(parts@),
            out@ == before + listed_parts(all.take(i as int)),
        decreases parts@.len() - i,
    {
        let ghost so_far = listed_parts(all.take(i as int));
        let ghost item = quoted_bytes(all[i as int]);
        assert(all.take(i + 1).drop_last() =~= all.take(i as int));
        assert(all.take(i + 1).last() == parts@[i as int]@);
        if i > 0 {
            out.append(", ");
        }
        let text = quoted(lossy(parts[i].as_slice()).as_str());
        out.append(text.as_str());
        proof {
            if i == 0 {
                assert(so_far =~= Seq::empty());
                assert(all.take(1)[0] == all[0]);
                assert(out@ =~= before + listed_parts(all.take(1)));
            } else {
                assert(out@ =~= before + (so_far + ", "@ + item));
            }
        }
        i += 1;
    }
    assert(all.take(parts@.len() as int) =~= all);
}

impl MergeHunk {
    /// The segment as text: its name and its contents as quoted strings.
    pub fn debug_string(&self) -> (text: String)
        ensures
            text@ == hunk_text(self@),
    {
        let mut out = String::new();
        match self {
            MergeHunk::Resolved(content) => {
                out.append("Resolved(");
                let inner = quoted(lossy(content.as_slice()).as_str());
                out.append(inner.as_str());
                out.append(")");
                assert(out@ =~= hunk_text(self@));
            },
            MergeHunk::Conflict { removes, adds } => {
                out.append("Conflict { removes: [");
                append_parts(&mut out, removes);
                out.append("], adds: [");
                append_parts(&mut out, adds);
                out.append("] }");
                assert(out@ =~= hunk_text(self@));
            },
        }
        out
    }
}

impl MergeResult {
    /// The result as text: its name and, in brackets, its content as a
    /// quoted string or its segments.
    pub fn debug_string(&self) -> (text: String)
        ensures
            text@ == result_text(self@),
    {
        let mut out = String::new();
        match self {
            MergeResult::Resolved(content) => {
                out.append("Resolved(");
                let inner = quoted(lossy(content.as_slice()).as_str());
                out.append(inner.as_str());
                out.append(")");
                assert(out@ =~= result_text(self@));
            },
            MergeResult::Conflict(hunks) => {
                out.append("Conflict([");
                let ghost before = out@;
                let ghost all = merge_hunk_views(hunks@);
                let mut i: usize = 0;
                assert(all.take(0) =~= Seq::empty());
                assert(before + listed_hunks(all.take(0)) =~= before);
                while i < hunks.len()
                    invariant
                        i <= hunks@.len(),
                        all == merge_hunk_views(hunks@),
                        out@ == before + listed_hunks(all.take(i as int)),
                    decreases hunks@.len() - i,
                {
                    let ghost so_far = listed_hunks(all.take(i as int));
                    assert(all.take(i + 1).drop_last() =~= all.take(i as int));
                    assert(all.take(i + 1).last() == hunks@[i as int]@);
                    if i > 0 {
                        out.append(", ");
                    }
                    let text = hunks[i].debug_string();
                    out.append(text.as_str());
                    proof {
                        if i == 0 {
                            assert(so_far =~= Seq::empty());
                            assert(all.take(1)[0] == all[0]);
                            assert(out@ =~= before + listed_hunks(all.take(1)));
                        } else {
                            assert(out@ =~= before + (so_far + ", "@ + text@));
                        }
                    }
                    i += 1;
                }
                assert(all.take(hunks@.len() as int) =~= all);
                out.append("])");
                assert(out@ =~= result_text(self@));
            },
        }
        out
    }
}

} // verus!
