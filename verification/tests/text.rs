use erisharness::tools::edits::{apply_prepared, Prepared};
use erisharness::tools::text::{
    apply_edits, detect_line_ending, fold_normalized, format_size, normalize_for_fuzzy_match, normalize_to_lf,
    restore_line_endings, split_bom, split_lines_for_counting, truncate_head, truncate_tail, Edit, TruncatedBy,
};

fn edit(old: &str, new: &str) -> Edit {
    Edit { old_text: old.into(), new_text: new.into() }
}

#[test]
fn head_truncation_keeps_whole_lines_within_limits() {
    let t = truncate_head("a\nb\nc\n", 2, 100);
    assert_eq!(t.content, "a\nb");
    assert_eq!(t.truncated_by, Some(TruncatedBy::Lines));
    assert_eq!((t.total_lines, t.output_lines), (3, 2));

    let t = truncate_head("aaaa\nbbbb\ncccc", 10, 9);
    assert_eq!(t.content, "aaaa\nbbbb");
    assert_eq!(t.truncated_by, Some(TruncatedBy::Bytes));

    let t = truncate_head("x".repeat(20).as_str(), 10, 5);
    assert!(t.first_line_exceeds_limit);
    assert_eq!(t.content, "");

    assert!(!truncate_head("a\nb\n", 2, 100).truncated());
}

#[test]
fn tail_truncation_keeps_the_end_and_can_split_a_huge_last_line() {
    let t = truncate_tail("a\nb\nc", 2, 100);
    assert_eq!(t.content, "b\nc");
    assert_eq!(t.truncated_by, Some(TruncatedBy::Lines));

    let t = truncate_tail("short\n0123456789", 10, 4);
    assert_eq!(t.content, "6789");
    assert!(t.last_line_partial);

    let t = truncate_tail("é".repeat(4).as_str(), 10, 3);
    assert_eq!(t.content, "é");
}

#[test]
fn sizes_format_like_pi() {
    assert_eq!(format_size(512), "512B");
    assert_eq!(format_size(50 * 1024), "50.0KB");
    assert_eq!(format_size(3 * 1024 * 1024 / 2), "1.5MB");
}

#[test]
fn sizes_round_as_floats_do() {
    for bytes in [0usize, 1, 1023, 1024, 1075, 1076, 1126, 10187, 51201, 1048575, 1048576, 1101005, 5000000, usize::MAX] {
        let expected = if bytes < 1024 {
            format!("{bytes}B")
        } else if bytes < 1024 * 1024 {
            format!("{:.1}KB", bytes as f64 / 1024.0)
        } else {
            format!("{:.1}MB", bytes as f64 / (1024.0 * 1024.0))
        };
        assert_eq!(format_size(bytes), expected);
    }
}

#[test]
fn line_endings_and_bom_are_detected() {
    assert_eq!(detect_line_ending("a\r\nb\n"), "\r\n");
    assert_eq!(detect_line_ending("a\nb\r\n"), "\n");
    assert_eq!(normalize_to_lf("a\r\nb\rc"), "a\nb\nc");
    assert_eq!(restore_line_endings("a\nb", "\r\n"), "a\r\nb");
    assert_eq!(split_bom("\u{FEFF}x"), ("\u{FEFF}", "x"));
}

#[test]
fn exact_edits_apply_against_the_original() {
    let (_, new) = apply_edits("one\ntwo\nthree\n", &[edit("one", "1"), edit("three", "3")], "f").unwrap();
    assert_eq!(new, "1\ntwo\n3\n");
}

#[test]
fn edit_errors_use_pi_wording() {
    let err = apply_edits("abc", &[edit("zzz", "y")], "f.txt").unwrap_err();
    assert_eq!(
        err,
        "Could not find the exact text in f.txt. The old text must match exactly including all whitespace and newlines."
    );
    let err = apply_edits("a a", &[edit("a", "b")], "f.txt").unwrap_err();
    assert_eq!(
        err,
        "Found 2 occurrences of the text in f.txt. The text must be unique. Please provide more context to make it unique."
    );
    let err = apply_edits("abcdef", &[edit("abcd", "x"), edit("cdef", "y")], "f").unwrap_err();
    assert_eq!(err, "edits[0] and edits[1] overlap in f. Merge them into one edit or target disjoint regions.");
    let err = apply_edits("abc", &[edit("", "y")], "f").unwrap_err();
    assert_eq!(err, "oldText must not be empty in f.");
    let err = apply_edits("abc", &[edit("b", "b")], "f").unwrap_err();
    assert!(err.starts_with("No changes made to f."));
    let err = apply_edits("abc", &[edit("q", "x"), edit("b", "y")], "f").unwrap_err();
    assert!(err.starts_with("Could not find edits[0] in f."));
}

#[test]
fn fuzzy_edits_rewrite_only_touched_lines() {
    let original = "keep   \nsay \u{201C}hi\u{201D}  \nalso keep   \n";
    let (_, new) = apply_edits(original, &[edit("say \"hi\"", "say \"bye\"")], "f").unwrap();
    assert_eq!(new, "keep   \nsay \"bye\"\nalso keep   \n");
}

#[test]
fn errors_of_several_edits_name_the_edit() {
    let err = apply_edits("abc", &[edit("a", "x"), edit("", "y")], "f").unwrap_err();
    assert_eq!(err, "edits[1].oldText must not be empty in f.");
    let err = apply_edits("a b b", &[edit("a", "x"), edit("b", "y")], "f").unwrap_err();
    assert_eq!(
        err,
        "Found 2 occurrences of edits[1] in f. Each oldText must be unique. Please provide more context to make it unique."
    );
    let err = apply_edits("ab", &[edit("a", "a"), edit("b", "b")], "f").unwrap_err();
    assert_eq!(err, "No changes made to f. The replacements produced identical content.");
    let err = apply_edits("abc", &[edit("b", "b")], "f").unwrap_err();
    assert_eq!(
        err,
        "No changes made to f. The replacement produced identical content. This might indicate an issue with special characters or the text not existing as expected."
    );
}

#[test]
fn edits_are_applied_by_place_and_not_by_order() {
    let (base, new) = apply_edits("one two three", &[edit("three", "3"), edit("one", "1")], "f").unwrap();
    assert_eq!(base, "one two three");
    assert_eq!(new, "1 two 3");
    let err = apply_edits("abcdef", &[edit("cdef", "y"), edit("abcd", "x")], "f").unwrap_err();
    assert_eq!(err, "edits[1] and edits[0] overlap in f. Merge them into one edit or target disjoint regions.");
}

#[test]
fn edits_in_other_line_endings_match() {
    let (_, new) = apply_edits("a\nb\nc", &[edit("a\r\nb", "x\r\ny")], "f").unwrap();
    assert_eq!(new, "x\ny\nc");
}

#[test]
fn an_old_text_of_spaces_is_found_everywhere() {
    let err = apply_edits("a b", &[edit(" ", "-")], "f").unwrap_err();
    assert!(err.starts_with("Found 4 occurrences of the text in f."), "{err}");
}

#[test]
fn several_fuzzy_edits_share_and_part_lines() {
    let original = "\u{2018}a\u{2019} \u{2018}b\u{2019}  \nkeep  \n\u{2018}c\u{2019}\n";
    let edits = [edit("'a'", "A"), edit("'b'", "B"), edit("'c'", "C")];
    let (_, new) = apply_edits(original, &edits, "f").unwrap();
    assert_eq!(new, "A B\nkeep  \nC\n");
}

#[test]
fn fuzzy_text_is_compatibility_normalized() {
    // The first ligature and the full-width letter are changed by form KC alone.
    assert_eq!(normalize_for_fuzzy_match("\u{FB01}x \u{FF21}  \n\u{2014}\u{00A0}b\t"), "fix A\n- b");
    assert_eq!(fold_normalized("\u{201C}q\u{201D} \n \u{2212}1"), "\"q\"\n -1");
}

#[test]
fn edits_take_the_fuzzy_forms_they_are_given() {
    let edits =
        vec![Prepared { old_text: "X".into(), new_text: "Y".into(), fuzzy: "x".into() }];
    assert_eq!(apply_prepared("a b", "a x", "a x", &edits, "f").unwrap().1, "a Y");
    let err = apply_prepared("a\nb", "x", "x", &edits, "f").unwrap_err();
    assert_eq!(err, "Cannot preserve unchanged lines because the base content has a different line count.");
    let err = apply_prepared("a", "x", "zzzzx", &edits, "f").unwrap_err();
    assert_eq!(err, "Replacement range is outside the base content.");
}

#[test]
fn uniform_line_endings_survive_a_round() {
    for text in ["a\r\nb\r\n", "a\nb\n", "no ending", "\r\n", ""] {
        let lf = normalize_to_lf(text);
        assert_eq!(restore_line_endings(&lf, detect_line_ending(text)), text);
        assert_eq!(normalize_to_lf(&lf), lf);
    }
}

#[test]
fn kept_text_is_within_limits_and_part_of_the_text() {
    let text = "alpha\nbeta\n\ngamma delta\nε\n";
    for lines in 0..6 {
        for bytes in 0..30 {
            let head = truncate_head(text, lines, bytes);
            assert!(head.output_lines <= lines && head.output_bytes <= bytes);
            assert!(text.starts_with(&head.content));
            let tail = truncate_tail(text, lines, bytes);
            assert!(tail.output_lines <= lines && tail.output_bytes <= bytes);
            assert!(text.ends_with(&tail.content) || text.ends_with(&format!("{}\n", tail.content)));
        }
    }
}

#[test]
fn a_final_newline_starts_no_line() {
    assert_eq!(split_lines_for_counting("a\nb\n"), vec!["a", "b"]);
    assert_eq!(split_lines_for_counting("a\n\n"), vec!["a", ""]);
    assert_eq!(split_lines_for_counting(""), Vec::<&str>::new());
}

#[test]
fn a_head_needs_only_the_beginning() {
    let part = truncate_head("a\nb\nc\nd", 2, 100);
    let whole = truncate_head("a\nb\nc\nd\ne\nf", 2, 100);
    assert_eq!(part.content, whole.content);
    assert_eq!((part.output_lines, part.truncated_by), (whole.output_lines, whole.truncated_by));
    let part = truncate_head(&format!("a\n{}", "x".repeat(12)), 10, 10);
    let whole = truncate_head(&format!("a\n{}\nmore", "x".repeat(99)), 10, 10);
    assert_eq!((part.content.as_str(), whole.content.as_str()), ("a", "a"));
}

#[test]
fn a_tail_needs_only_the_end() {
    let whole = truncate_tail("one\ntwo\nthree\nfour\nfive", 10, 10);
    let part = truncate_tail("three\nfour\nfive", 10, 10);
    assert_eq!(whole.content, "four\nfive");
    assert_eq!(part.content, whole.content);
    assert_eq!((part.output_lines, part.last_line_partial), (whole.output_lines, whole.last_line_partial));
}

#[test]
fn text_around_an_edit_stays() {
    let (base, new) = apply_edits("head  \nold\ntail \u{2014}\n", &[edit("old", "new")], "f").unwrap();
    assert_eq!(base, "head  \nold\ntail \u{2014}\n");
    assert_eq!(new, "head  \nnew\ntail \u{2014}\n");
}

#[test]
fn edits_may_be_listed_in_any_order() {
    let text = "one\ntwo\nthree \u{2014}\n";
    let (a, b, c) = (edit("one", "1"), edit("two", "2"), edit("three -", "3"));
    let (_, first) = apply_edits(text, &[a.clone(), b.clone(), c.clone()], "f").unwrap();
    let (_, second) = apply_edits(text, &[c, a, b], "f").unwrap();
    assert_eq!(first, "1\n2\n3\n");
    assert_eq!(first, second);
}

#[test]
fn folded_text_is_plain_and_stays_so() {
    let plain = fold_normalized("\u{201C}a\u{201D} \u{2014}b\u{3000}\n c\u{2009}d\t \n");
    assert_eq!(plain, "\"a\" -b\n c d\n");
    assert_eq!(fold_normalized(&plain), plain);
    assert_eq!(normalize_for_fuzzy_match("x \n\ty  \n"), "x\n\ty\n");
}

#[test]
fn fuzzy_forms_keep_their_lines_and_what_is_no_space() {
    assert_eq!(normalize_for_fuzzy_match("\u{A8}\n\u{3000}\n\u{FB01}x"), " \u{308}\n\nfix");
    assert_eq!(normalize_for_fuzzy_match("\n"), "\n");
    assert_eq!(normalize_for_fuzzy_match(" \u{2003} "), "");
    for sample in ["\u{FC5E}", "\u{FE70}", "\u{3164}", "\u{2028}x", "e\u{301}"] {
        assert!(!normalize_for_fuzzy_match(sample).is_empty());
    }
}
