use linemerge::align::align;
use linemerge::hunk::DiffHunk;
use linemerge::lines::{diff, DiffLine, DiffLineIterator};

fn drain<'a>(mut lines: DiffLineIterator<'a>) -> Vec<DiffLine<'a>> {
    let mut out = Vec::new();
    while let Some(line) = lines.next() {
        out.push(line);
    }
    assert!(lines.next().is_none());
    out
}

fn side_content(lines: &[DiffLine<'_>], side: usize) -> Vec<u8> {
    let mut out = Vec::new();
    for line in lines {
        for hunk in &line.hunks {
            match hunk {
                DiffHunk::Matching(content) => out.extend_from_slice(content),
                DiffHunk::Different(parts) => out.extend_from_slice(parts[side]),
            }
        }
    }
    out
}

#[test]
fn diff_of_changed_second_line() {
    let lines = drain(diff(b"a\nb\n", b"a\nc\n"));
    assert_eq!(
        lines,
        vec![
            DiffLine {
                left_line_number: 1,
                right_line_number: 1,
                has_left_content: true,
                has_right_content: true,
                hunks: vec![DiffHunk::Matching(b"a\n")],
            },
            DiffLine {
                left_line_number: 2,
                right_line_number: 2,
                has_left_content: true,
                has_right_content: false,
                hunks: vec![DiffHunk::Different(vec![b"b\n", b""])],
            },
            DiffLine {
                left_line_number: 3,
                right_line_number: 2,
                has_left_content: false,
                has_right_content: true,
                hunks: vec![DiffHunk::Different(vec![b"", b"c\n"])],
            },
        ]
    );
}

#[test]
fn diff_of_empty_buffers_has_no_lines() {
    assert!(drain(diff(b"", b"")).is_empty());
}

#[test]
fn diff_of_equal_buffers_is_unmodified() {
    let lines = drain(diff(b"one\ntwo\nthree", b"one\ntwo\nthree"));
    assert_eq!(lines.len(), 3);
    for (i, line) in lines.iter().enumerate() {
        assert!(line.is_unmodified());
        assert_eq!(line.left_line_number, i as u32 + 1);
        assert_eq!(line.right_line_number, i as u32 + 1);
        assert!(line.has_left_content && line.has_right_content);
    }
    assert_eq!(lines[2].hunks, vec![DiffHunk::Matching(b"three")]);
}

#[test]
fn hunks_are_cut_at_newlines_left_before_right() {
    let hunks = vec![
        DiffHunk::Matching(b"a\nb"),
        DiffHunk::Different(vec![b"c\nd", b"e"]),
        DiffHunk::Matching(b"\nf"),
    ];
    let lines = drain(DiffLineIterator::new(hunks));
    assert_eq!(
        lines,
        vec![
            DiffLine {
                left_line_number: 1,
                right_line_number: 1,
                has_left_content: true,
                has_right_content: true,
                hunks: vec![DiffHunk::Matching(b"a\n")],
            },
            DiffLine {
                left_line_number: 2,
                right_line_number: 2,
                has_left_content: true,
                has_right_content: true,
                hunks: vec![
                    DiffHunk::Matching(b"b"),
                    DiffHunk::Different(vec![b"c\n", b""])
                ],
            },
            DiffLine {
                left_line_number: 3,
                right_line_number: 2,
                has_left_content: true,
                has_right_content: true,
                hunks: vec![
                    DiffHunk::Different(vec![b"d", b""]),
                    DiffHunk::Different(vec![b"", b"e"]),
                    DiffHunk::Matching(b"\n"),
                ],
            },
            DiffLine {
                left_line_number: 4,
                right_line_number: 3,
                has_left_content: true,
                has_right_content: true,
                hunks: vec![DiffHunk::Matching(b"f")],
            },
        ]
    );
    assert!(lines[0].is_unmodified());
    assert!(!lines[1].is_unmodified());
    assert!(!lines[2].is_unmodified());
    assert!(lines[3].is_unmodified());
}

#[test]
fn one_hunk_closes_several_lines() {
    let hunks = vec![DiffHunk::Different(vec![b"a\nb\n", b"x\ny\nz\n"])];
    let lines = drain(DiffLineIterator::new(hunks));
    let numbers: Vec<(u32, u32, bool, bool)> = lines
        .iter()
        .map(|l| {
            (
                l.left_line_number,
                l.right_line_number,
                l.has_left_content,
                l.has_right_content,
            )
        })
        .collect();
    assert_eq!(
        numbers,
        vec![
            (1, 1, true, false),
            (2, 1, true, false),
            (3, 1, false, true),
            (3, 2, false, true),
            (3, 3, false, true),
        ]
    );
}

#[test]
fn lines_hold_both_sides_whole() {
    let hunks = vec![
        DiffHunk::Matching(b"head\nmid"),
        DiffHunk::Different(vec![b"dle\nleft\nl", b"night\n"]),
        DiffHunk::Matching(b"tail"),
        DiffHunk::Different(vec![b"", b"\nmore"]),
    ];
    let lines = drain(DiffLineIterator::new(hunks));
    assert_eq!(side_content(&lines, 0), b"head\nmiddle\nleft\nltail".to_vec());
    assert_eq!(
        side_content(&lines, 1),
        b"head\nmidnight\ntail\nmore".to_vec()
    );
    let left = b"a\nb\nc\nd";
    let right = b"a\nb\nx\n";
    let lines = drain(diff(left, right));
    assert_eq!(side_content(&lines, 0), left.to_vec());
    assert_eq!(side_content(&lines, 1), right.to_vec());
}

#[test]
fn a_line_without_hunks_is_unmodified() {
    let line = DiffLine {
        left_line_number: 1,
        right_line_number: 1,
        has_left_content: false,
        has_right_content: false,
        hunks: vec![],
    };
    assert!(line.is_unmodified());
}

#[test]
fn align_takes_the_shared_leading_lines() {
    let inputs: [&[u8]; 2] = [b"a\nb\nc", b"a\nb\nd"];
    assert_eq!(
        align(&inputs),
        vec![
            DiffHunk::Matching(b"a\nb\n"),
            DiffHunk::Different(vec![b"c", b"d"])
        ]
    );
}

#[test]
fn align_does_not_match_an_open_line_with_a_closed_one() {
    let inputs: [&[u8]; 2] = [b"a\nb", b"a\nb\n"];
    assert_eq!(
        align(&inputs),
        vec![
            DiffHunk::Matching(b"a\n"),
            DiffHunk::Different(vec![b"b", b"b\n"])
        ]
    );
}

#[test]
fn align_of_equal_inputs_is_one_matching_hunk() {
    let inputs: [&[u8]; 3] = [b"x\ny", b"x\ny", b"x\ny"];
    assert_eq!(align(&inputs), vec![DiffHunk::Matching(b"x\ny")]);
    let one: [&[u8]; 1] = [b"x"];
    assert_eq!(align(&one), vec![DiffHunk::Matching(b"x")]);
}

#[test]
fn align_of_nothing_is_empty() {
    let none: [&[u8]; 0] = [];
    assert!(align(&none).is_empty());
    let empties: [&[u8]; 2] = [b"", b""];
    assert!(align(&empties).is_empty());
}

#[test]
fn align_keeps_one_part_per_input() {
    let inputs: [&[u8]; 3] = [b"a\n", b"a\nb\n", b""];
    assert_eq!(
        align(&inputs),
        vec![DiffHunk::Different(vec![b"a\n", b"a\nb\n", b""])]
    );
}

#[test]
fn align_takes_the_shared_trailing_lines() {
    let inputs: [&[u8]; 2] = [b"a\nb\nc\n", b"a\nX\nc\n"];
    assert_eq!(
        align(&inputs),
        vec![
            DiffHunk::Matching(b"a\n"),
            DiffHunk::Different(vec![b"b\n", b"X\n"]),
            DiffHunk::Matching(b"c\n"),
        ]
    );
    let inputs: [&[u8]; 3] = [b"x\nend", b"y\nz\nend", b"end"];
    assert_eq!(
        align(&inputs),
        vec![
            DiffHunk::Different(vec![b"x\n", b"y\nz\n", b""]),
            DiffHunk::Matching(b"end"),
        ]
    );
}

#[test]
fn align_matches_a_tail_only_on_line_boundaries() {
    let inputs: [&[u8]; 2] = [b"ab\n", b"b\n"];
    assert_eq!(
        align(&inputs),
        vec![DiffHunk::Different(vec![b"ab\n", b"b\n"])]
    );
    let inputs: [&[u8]; 2] = [b"a\nb\n", b"b\n"];
    assert_eq!(
        align(&inputs),
        vec![
            DiffHunk::Different(vec![b"a\n", b""]),
            DiffHunk::Matching(b"b\n"),
        ]
    );
}

#[test]
fn align_does_not_use_a_line_twice() {
    let inputs: [&[u8]; 2] = [b"a\n", b"a\na\n"];
    assert_eq!(
        align(&inputs),
        vec![
            DiffHunk::Matching(b"a\n"),
            DiffHunk::Different(vec![b"", b"a\n"]),
        ]
    );
}

#[test]
fn diff_of_a_changed_middle_line() {
    let lines = drain(diff(b"a\nb\nc\n", b"a\nX\nc\n"));
    assert_eq!(
        lines,
        vec![
            DiffLine {
                left_line_number: 1,
                right_line_number: 1,
                has_left_content: true,
                has_right_content: true,
                hunks: vec![DiffHunk::Matching(b"a\n")],
            },
            DiffLine {
                left_line_number: 2,
                right_line_number: 2,
                has_left_content: true,
                has_right_content: false,
                hunks: vec![DiffHunk::Different(vec![b"b\n", b""])],
            },
            DiffLine {
                left_line_number: 3,
                right_line_number: 2,
                has_left_content: false,
                has_right_content: true,
                hunks: vec![DiffHunk::Different(vec![b"", b"X\n"])],
            },
            DiffLine {
                left_line_number: 3,
                right_line_number: 3,
                has_left_content: true,
                has_right_content: true,
                hunks: vec![DiffHunk::Matching(b"c\n")],
            },
        ]
    );
}

#[test]
fn into_vec_hands_out_the_lines_that_are_left() {
    let mut lines = diff(b"a\nb\nc\n", b"a\nX\nc\n");
    let first = lines.next().unwrap();
    assert_eq!(first.left_line_number, 1);
    let rest = lines.into_vec();
    assert_eq!(rest.len(), 3);
    assert_eq!(rest[0].hunks, vec![DiffHunk::Different(vec![b"b\n", b""])]);
    assert_eq!(rest[2].hunks, vec![DiffHunk::Matching(b"c\n")]);
    assert_eq!(
        drain(diff(b"p\nq", b"p\nr")),
        diff(b"p\nq", b"p\nr").into_vec()
    );
}

#[test]
fn line_numbers_start_at_one_and_never_fall() {
    let lines = diff(b"a\nb\nc\nd\ne", b"a\nx\ny\ne").into_vec();
    assert!(!lines.is_empty());
    assert_eq!(lines[0].left_line_number, 1);
    assert_eq!(lines[0].right_line_number, 1);
    for pair in lines.windows(2) {
        assert!(pair[0].left_line_number <= pair[1].left_line_number);
        assert!(pair[0].right_line_number <= pair[1].right_line_number);
        assert!(
            pair[0].left_line_number < pair[1].left_line_number
                || pair[0].right_line_number < pair[1].right_line_number
        );
    }
    for line in &lines {
        assert!(!line.hunks.is_empty());
    }
    let last = lines.last().unwrap();
    assert_eq!((last.left_line_number, last.right_line_number), (5, 4));
}
