use linemerge::hunk::DiffHunk;
use linemerge::merge::{merge, resolve, MergeHunk, MergeResult};

#[test]
fn shared_content_is_kept_only_where_sides_outnumber_bases() {
    let hunks = vec![DiffHunk::Matching(b"x\n")];
    assert_eq!(resolve(1, 2, &hunks), MergeResult::Resolved(b"x\n".to_vec()));
    assert_eq!(resolve(1, 1, &hunks), MergeResult::Resolved(b"".to_vec()));
    assert_eq!(resolve(2, 1, &hunks), MergeResult::Resolved(b"".to_vec()));
}

#[test]
fn resolved_content_surrounds_a_conflict() {
    let hunks = vec![
        DiffHunk::Matching(b"x\n"),
        DiffHunk::Different(vec![b"a", b"b", b"c"]),
        DiffHunk::Matching(b"y\n"),
    ];
    assert_eq!(
        resolve(1, 2, &hunks),
        MergeResult::Conflict(vec![
            MergeHunk::Resolved(b"x\n".to_vec()),
            MergeHunk::Conflict {
                removes: vec![b"a".to_vec()],
                adds: vec![b"b".to_vec(), b"c".to_vec()]
            },
            MergeHunk::Resolved(b"y\n".to_vec()),
        ])
    );
}

#[test]
fn regions_resolve_one_by_one() {
    let hunks = vec![
        DiffHunk::Different(vec![b"a\n", b"a\n", b"b\n"]),
        DiffHunk::Matching(b"m\n"),
        DiffHunk::Different(vec![b"c\n", b"", b"c\n"]),
        DiffHunk::Different(vec![b"", b"z\n", b"z\n"]),
    ];
    assert_eq!(
        resolve(1, 2, &hunks),
        MergeResult::Resolved(b"b\nm\nz\n".to_vec())
    );
}

#[test]
fn a_conflict_carries_the_parts_before_cancellation() {
    let hunks = vec![DiffHunk::Different(vec![b"a", b"b", b"a", b"c", b"d"])];
    assert_eq!(
        resolve(2, 3, &hunks),
        MergeResult::Conflict(vec![MergeHunk::Conflict {
            removes: vec![b"a".to_vec(), b"b".to_vec()],
            adds: vec![b"a".to_vec(), b"c".to_vec(), b"d".to_vec()]
        }])
    );
}

#[test]
fn cancellation_takes_the_first_equal_base() {
    // The two sides cancel both bases; nothing is left.
    let hunks = vec![DiffHunk::Different(vec![b"a", b"a", b"a", b"a"])];
    assert_eq!(resolve(2, 2, &hunks), MergeResult::Resolved(b"".to_vec()));
    // One side cancels one of two equal bases; the other base is removed.
    let hunks = vec![DiffHunk::Different(vec![b"a", b"a", b"a"])];
    assert_eq!(resolve(2, 1, &hunks), MergeResult::Resolved(b"".to_vec()));
}

#[test]
fn the_uniform_edit_needs_one_side_more_than_bases() {
    let hunks = vec![DiffHunk::Different(vec![b"a", b"a", b"b", b"b", b"b"])];
    assert_eq!(resolve(2, 3, &hunks), MergeResult::Resolved(b"b".to_vec()));
    let hunks = vec![DiffHunk::Different(vec![b"a", b"a", b"b", b"b"])];
    assert_eq!(
        resolve(2, 2, &hunks),
        MergeResult::Conflict(vec![MergeHunk::Conflict {
            removes: vec![b"a".to_vec(), b"a".to_vec()],
            adds: vec![b"b".to_vec(), b"b".to_vec()]
        }])
    );
}

#[test]
fn no_hunks_resolve_to_nothing() {
    assert_eq!(resolve(0, 0, &vec![]), MergeResult::Resolved(vec![]));
    assert_eq!(merge(&[], &[]), MergeResult::Resolved(vec![]));
}

#[test]
fn merge_accepts_any_number_of_inputs() {
    assert_eq!(merge(&[b"a"], &[]), MergeResult::Resolved(b"".to_vec()));
    assert_eq!(merge(&[], &[b"a"]), MergeResult::Resolved(b"a".to_vec()));
    assert_eq!(
        merge(&[b"a", b"b"], &[]),
        MergeResult::Conflict(vec![MergeHunk::Conflict {
            removes: vec![b"a".to_vec(), b"b".to_vec()],
            adds: vec![]
        }])
    );
}

#[test]
fn a_conflicted_merge_holds_a_conflict() {
    let cases: Vec<MergeResult> = vec![
        merge(&[b"a\n"], &[b"a\nb\n", b"a\nc\n"]),
        merge(&[b"a"], &[b"b", b"c"]),
        merge(&[b"k\nl\n"], &[b"k\nm\n", b"k\n"]),
    ];
    for result in cases {
        match result {
            MergeResult::Conflict(hunks) => {
                assert!(!hunks.is_empty());
                assert!(hunks
                    .iter()
                    .any(|h| matches!(h, MergeHunk::Conflict { .. })));
            }
            MergeResult::Resolved(_) => panic!("a conflict was expected"),
        }
    }
}

#[test]
fn merge_keeps_what_the_sides_share_before_a_conflict() {
    assert_eq!(
        merge(&[b"k\nl\n"], &[b"k\nm\n", b"k\n"]),
        MergeResult::Conflict(vec![
            MergeHunk::Resolved(b"k\n".to_vec()),
            MergeHunk::Conflict {
                removes: vec![b"l\n".to_vec()],
                adds: vec![b"m\n".to_vec(), b"".to_vec()]
            }
        ])
    );
}

#[test]
fn one_changed_line_merges_between_shared_ends() {
    assert_eq!(
        merge(&[b"a\nb\nc\n"], &[b"a\nX\nc\n", b"a\nb\nc\n"]),
        MergeResult::Resolved(b"a\nX\nc\n".to_vec())
    );
    assert_eq!(
        merge(&[b"a\nb\nc\n"], &[b"a\nX\nc\n", b"a\nY\nc\n"]),
        MergeResult::Conflict(vec![
            MergeHunk::Resolved(b"a\n".to_vec()),
            MergeHunk::Conflict {
                removes: vec![b"b\n".to_vec()],
                adds: vec![b"X\n".to_vec(), b"Y\n".to_vec()]
            },
            MergeHunk::Resolved(b"c\n".to_vec()),
        ])
    );
}

#[test]
fn edits_at_both_ends_are_one_region() {
    assert_eq!(
        merge(&[b"a\nb\nc\n"], &[b"A\nb\nc\n", b"a\nb\nC\n"]),
        MergeResult::Conflict(vec![MergeHunk::Conflict {
            removes: vec![b"a\nb\nc\n".to_vec()],
            adds: vec![b"A\nb\nc\n".to_vec(), b"a\nb\nC\n".to_vec()]
        }])
    );
}

#[test]
fn results_are_described_with_their_bytes_as_text() {
    assert_eq!(
        MergeResult::Resolved(b"a\n".to_vec()).debug_string(),
        "Resolved(\"a\\n\")"
    );
    assert_eq!(
        MergeHunk::Resolved(b"say \"hi\"".to_vec()).debug_string(),
        "Resolved(\"say \\\"hi\\\"\")"
    );
    assert_eq!(
        MergeHunk::Conflict {
            removes: vec![],
            adds: vec![b"x".to_vec()]
        }
        .debug_string(),
        "Conflict { removes: [], adds: [\"x\"] }"
    );
    assert_eq!(
        merge(&[b"a\n"], &[b"a\nb\n", b"a\nc\n"]).debug_string(),
        "Conflict([Resolved(\"a\\n\"), Conflict { removes: [\"\"], adds: [\"b\\n\", \"c\\n\"] }])"
    );
}

#[test]
fn bytes_that_are_not_text_are_replaced() {
    assert_eq!(
        MergeResult::Resolved(vec![b'a', 0xff, b'b']).debug_string(),
        "Resolved(\"a\u{fffd}b\")"
    );
}
