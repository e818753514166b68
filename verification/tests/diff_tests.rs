use pubky_wiki::diff::{
    align, compute_diff, detect_modifications, lcs_length, line_similarity, similar_lines,
    DiffLine,
};

fn s(t: &str) -> String {
    t.to_string()
}

#[test]
fn identity_diff_is_all_unchanged() {
    let d = compute_diff("alpha\nbeta\ngamma", "alpha\nbeta\ngamma");
    assert_eq!(
        d,
        vec![
            DiffLine::Unchanged(s("alpha")),
            DiffLine::Unchanged(s("beta")),
            DiffLine::Unchanged(s("gamma")),
        ]
    );
}

#[test]
fn both_empty_gives_empty_diff() {
    assert_eq!(align("", ""), vec![]);
    assert_eq!(compute_diff("", ""), vec![]);
}

#[test]
fn empty_second_input_gives_all_removed() {
    assert_eq!(
        align("a\nb", ""),
        vec![DiffLine::Removed(s("a")), DiffLine::Removed(s("b"))]
    );
}

#[test]
fn empty_first_input_gives_all_added() {
    assert_eq!(
        align("", "a\nb"),
        vec![DiffLine::Added(s("a")), DiffLine::Added(s("b"))]
    );
}

#[test]
fn pure_insertion_is_reported_in_place() {
    assert_eq!(
        align("a\nb\nc", "a\nx\nb\nc"),
        vec![
            DiffLine::Unchanged(s("a")),
            DiffLine::Added(s("x")),
            DiffLine::Unchanged(s("b")),
            DiffLine::Unchanged(s("c")),
        ]
    );
}

#[test]
fn pure_deletion_is_reported_in_place() {
    assert_eq!(
        align("a\nx\nb\nc", "a\nb\nc"),
        vec![
            DiffLine::Unchanged(s("a")),
            DiffLine::Removed(s("x")),
            DiffLine::Unchanged(s("b")),
            DiffLine::Unchanged(s("c")),
        ]
    );
}

#[test]
fn similarity_is_word_overlap_over_max() {
    assert_eq!(line_similarity("the quick fox", "the quick dog"), (2, 3));
    assert_eq!(line_similarity("hello world", "goodbye moon"), (0, 2));
}

#[test]
fn similarity_of_blank_lines_is_one() {
    assert_eq!(line_similarity("", ""), (1, 1));
    assert_eq!(line_similarity("   ", "\t"), (1, 1));
    assert_eq!(line_similarity("", "word"), (0, 1));
    assert_eq!(line_similarity("word", "   "), (0, 1));
}

#[test]
fn similarity_counts_duplicates_by_membership() {
    assert_eq!(line_similarity("a a b", "a c"), (2, 3));
}

#[test]
fn similar_pair_collapses_to_modified() {
    let d = compute_diff("the quick fox", "the quick dog");
    assert_eq!(
        d,
        vec![DiffLine::Modified {
            old: s("the quick fox"),
            new: s("the quick dog"),
        }]
    );
}

#[test]
fn dissimilar_pair_stays_removed_and_added() {
    let d = compute_diff("hello world", "goodbye moon");
    assert_eq!(
        d,
        vec![DiffLine::Removed(s("hello world")), DiffLine::Added(s("goodbye moon"))]
    );
}

#[test]
fn similarity_exactly_at_threshold_does_not_merge() {
    // 3 of the 10 words of the old line appear in the new one: exactly 3/10.
    let old_line = "t1 t2 t3 u1 u2 u3 u4 u5 u6 u7";
    let new_line = "t1 t2 t3";
    assert_eq!(line_similarity(old_line, new_line), (3, 10));
    assert!(!similar_lines(old_line, new_line));
    let d = compute_diff(old_line, new_line);
    assert_eq!(
        d,
        vec![DiffLine::Removed(s(old_line)), DiffLine::Added(s(new_line))]
    );
}

#[test]
fn similarity_just_above_threshold_merges() {
    // 4 of the 10 words of the old line appear in the new one: 4/10 > 3/10.
    let old_line = "t1 t2 t3 t4 u1 u2 u3 u4 u5 u6";
    let new_line = "t1 t2 t3 t4";
    assert_eq!(line_similarity(old_line, new_line), (4, 10));
    assert!(similar_lines(old_line, new_line));
    let d = compute_diff(old_line, new_line);
    assert_eq!(
        d,
        vec![DiffLine::Modified { old: s(old_line), new: s(new_line) }]
    );
}

#[test]
fn blank_removed_and_added_pair_merges() {
    let raw = vec![DiffLine::Removed(s("")), DiffLine::Added(s(""))];
    assert_eq!(
        detect_modifications(&raw),
        vec![DiffLine::Modified { old: s(""), new: s("") }]
    );
}

#[test]
fn detector_is_greedy_and_non_overlapping() {
    let raw = vec![
        DiffLine::Removed(s("one two three")),
        DiffLine::Added(s("one two four")),
        DiffLine::Added(s("one two five")),
    ];
    assert_eq!(
        detect_modifications(&raw),
        vec![
            DiffLine::Modified { old: s("one two three"), new: s("one two four") },
            DiffLine::Added(s("one two five")),
        ]
    );
}

#[test]
fn detector_twice_is_detector_once() {
    let raw = vec![
        DiffLine::Unchanged(s("head")),
        DiffLine::Removed(s("one two three")),
        DiffLine::Added(s("one two four")),
        DiffLine::Removed(s("alpha")),
        DiffLine::Added(s("omega")),
        DiffLine::Removed(s("tail")),
    ];
    let once = detect_modifications(&raw);
    let twice = detect_modifications(&once);
    assert_eq!(once, twice);
}

#[test]
fn diff_accounts_for_every_line_of_both_inputs() {
    let text1 = "a\nb\nc\nd one two three";
    let text2 = "a\nx\nc\nd one two four\ne";
    let d = compute_diff(text1, text2);
    let mut from_first = 0;
    let mut from_second = 0;
    for op in &d {
        match op {
            DiffLine::Unchanged(_) => {
                from_first += 1;
                from_second += 1;
            }
            DiffLine::Added(_) => from_second += 1,
            DiffLine::Removed(_) => from_first += 1,
            DiffLine::Modified { .. } => {
                from_first += 1;
                from_second += 1;
            }
        }
    }
    assert_eq!(from_first, 4);
    assert_eq!(from_second, 5);
}

#[test]
fn lcs_table_has_prefix_lengths() {
    let a = vec![s("a"), s("b")];
    let b = vec![s("a")];
    let dp = lcs_length(&a, &b);
    assert_eq!(dp, vec![vec![0, 0], vec![0, 1], vec![0, 1]]);
}

#[test]
fn reordered_lines_pin_the_tie_break() {
    // Keeping "a" or keeping "b" both preserve the common subsequence; the
    // back-track resolves the tie by favoring the insertion move.
    let d = align("a\nb", "b\na");
    assert_eq!(
        d,
        vec![
            DiffLine::Removed(s("a")),
            DiffLine::Unchanged(s("b")),
            DiffLine::Added(s("a")),
        ]
    );
}

#[test]
fn trailing_newline_adds_no_line() {
    assert_eq!(
        compute_diff("a\nb\n", "a\nb"),
        vec![DiffLine::Unchanged(s("a")), DiffLine::Unchanged(s("b"))]
    );
}

#[test]
fn crlf_line_endings_compare_equal_to_lf() {
    assert_eq!(
        compute_diff("a\r\nb\r\n", "a\nb"),
        vec![DiffLine::Unchanged(s("a")), DiffLine::Unchanged(s("b"))]
    );
}

#[test]
fn modification_is_detected_inside_a_larger_diff() {
    let d = compute_diff(
        "intro\nthe quick fox\noutro",
        "intro\nthe quick dog\noutro",
    );
    assert_eq!(
        d,
        vec![
            DiffLine::Unchanged(s("intro")),
            DiffLine::Modified { old: s("the quick fox"), new: s("the quick dog") },
            DiffLine::Unchanged(s("outro")),
        ]
    );
}

#[test]
fn whitespace_only_lines_are_ordinary_lines() {
    let d = compute_diff("a\n  \nb", "a\n  \nb");
    assert_eq!(
        d,
        vec![
            DiffLine::Unchanged(s("a")),
            DiffLine::Unchanged(s("  ")),
            DiffLine::Unchanged(s("b")),
        ]
    );
}
