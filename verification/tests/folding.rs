use css_folding::folding::get_folding_ranges;
use css_folding::folding::FoldingRangeKind;
use css_folding::line_index::LineIndex;

#[test]
fn test_get_folding_ranges_empty() {
    let code = "";
    let folding_ranges = get_folding_ranges(code);

    assert!(
        folding_ranges.is_empty(),
        "No folding ranges should be returned for empty input"
    );
}

#[test]
fn test_get_folding_ranges_single_rule() {
    let code = "body {\n    margin: 0;\n    padding: 0;\n}\n";
    let folding_ranges = get_folding_ranges(code);

    assert_eq!(folding_ranges.len(), 1, "Expected one folding range");
    let range = &folding_ranges[0];
    assert_eq!(range.start_line, 0, "Folding should start at line 0");
    assert_eq!(range.end_line, 3, "Folding should end at line 3");
}

#[test]
fn test_get_folding_ranges_multiple_rules() {
    let code = "body {\n    margin: 0;\n}\n\nh1 {\n    color: red;\n}\n";
    let mut folding_ranges = get_folding_ranges(code);

    assert_eq!(folding_ranges.len(), 2, "Expected two folding ranges");

    folding_ranges.sort_by_key(|fr| fr.start_line);

    let range1 = &folding_ranges[0];
    assert_eq!(range1.start_line, 0, "First folding should start at line 0");
    assert_eq!(range1.end_line, 2, "First folding should end at line 2");

    let range2 = &folding_ranges[1];
    assert_eq!(
        range2.start_line, 4,
        "Second folding should start at line 4"
    );
    assert_eq!(range2.end_line, 6, "Second folding should end at line 6");
}

#[test]
fn test_get_folding_ranges_nested_rules() {
    let code = "@media screen {\n    body {\n        margin: 0;\n    }\n}\n";
    let mut folding_ranges = get_folding_ranges(code);

    assert_eq!(folding_ranges.len(), 2, "Expected two folding ranges");

    // Sort folding ranges by start_line
    folding_ranges.sort_by_key(|fr| fr.start_line);

    let outer_range = &folding_ranges[0];
    assert_eq!(
        outer_range.start_line, 0,
        "Outer folding should start at line 0"
    );
    assert_eq!(
        outer_range.end_line, 4,
        "Outer folding should end at line 4"
    );

    let inner_range = &folding_ranges[1];
    assert_eq!(
        inner_range.start_line, 1,
        "Inner folding should start at line 1"
    );
    assert_eq!(
        inner_range.end_line, 3,
        "Inner folding should end at line 3"
    );
}

#[test]
fn test_get_folding_ranges_single_line_rule() {
    let code = "h1 { color: blue; }\n";
    let folding_ranges = get_folding_ranges(code);

    // Since the rule is on a single line, there should be no folding range
    assert!(
        folding_ranges.is_empty(),
        "No folding ranges expected for single-line rules"
    );
}

#[test]
fn test_get_folding_ranges_unmatched_braces() {
    let code = "body {\n    margin: 0;\n    padding: 0;\n\n";
    let folding_ranges = get_folding_ranges(code);

    // The opening brace does not have a matching closing brace
    // So the folding range should not be added
    assert!(
        folding_ranges.is_empty(),
        "No folding ranges expected when braces are unmatched"
    );
}

#[test]
fn test_get_folding_ranges_with_comments() {
    let code = "/* Comment block\nspanning multiple lines\n*/\nbody {\n    margin: 0;\n}\n";
    let folding_ranges = get_folding_ranges(code);

    assert_eq!(folding_ranges.len(), 1, "Expected one folding range");

    let range = &folding_ranges[0];
    assert_eq!(range.start_line, 3, "Folding should start at line 3");
    assert_eq!(range.end_line, 5, "Folding should end at line 5");
}

#[test]
fn test_get_folding_ranges_complex() {
    let code = "@media screen {\n    @supports (display: grid) {\n        .container {\n            display: grid;\n        }\n    }\n}\n";
    let mut folding_ranges = get_folding_ranges(code);

    assert_eq!(folding_ranges.len(), 3, "Expected three folding ranges");

    // Sort folding ranges by start_line
    folding_ranges.sort_by_key(|fr| fr.start_line);

    let range1 = &folding_ranges[0];
    assert_eq!(range1.start_line, 0, "First folding should start at line 0");
    assert_eq!(range1.end_line, 6, "First folding should end at line 6");

    let range2 = &folding_ranges[1];
    assert_eq!(
        range2.start_line, 1,
        "Second folding should start at line 1"
    );
    assert_eq!(range2.end_line, 5, "Second folding should end at line 5");

    let range3 = &folding_ranges[2];
    assert_eq!(range3.start_line, 2, "Third folding should start at line 2");
    assert_eq!(range3.end_line, 4, "Third folding should end at line 4");
}

#[test]
fn test_every_range_spans_more_than_one_line() {
    let code = "a{}\nb {\n}\nc { x } d {\ny\n}\n{\n{\n}\n}\n";
    let folding_ranges = get_folding_ranges(code);

    assert!(!folding_ranges.is_empty());
    for range in &folding_ranges {
        assert!(range.end_line > range.start_line);
    }
}

#[test]
fn test_range_count_bounded_by_brace_counts() {
    let code = "}}a{\nb}{\n}{{\n}\n";
    let folding_ranges = get_folding_ranges(code);

    let opens = code.chars().filter(|c| *c == '{').count();
    let closes = code.chars().filter(|c| *c == '}').count();
    assert!(folding_ranges.len() <= opens);
    assert!(folding_ranges.len() <= closes);
}

#[test]
fn test_scanning_twice_agrees() {
    let code = "@media screen {\n    body {\n        margin: 0;\n    }\n}\n";
    let first = get_folding_ranges(code);
    let second = get_folding_ranges(code);

    assert_eq!(first.len(), second.len());
    for (a, b) in first.iter().zip(second.iter()) {
        assert_eq!(a.start_line, b.start_line);
        assert_eq!(a.end_line, b.end_line);
    }
}

#[test]
fn test_inner_range_contained_in_outer() {
    let code = "a {\n  b {\n    c {\n      x\n    }\n  }\n}\n";
    let folding_ranges = get_folding_ranges(code);

    assert_eq!(folding_ranges.len(), 3);
    // Emitted in closing order: innermost first, outermost last.
    for w in folding_ranges.windows(2) {
        assert!(w[1].start_line <= w[0].start_line);
        assert!(w[0].end_line <= w[1].end_line);
    }
}

#[test]
fn test_brace_inside_string_still_counts() {
    // The scan is lexically unaware: the quoted `}` closes the block.
    let code = "p {\n  content: '}';\n}\n";
    let folding_ranges = get_folding_ranges(code);

    assert_eq!(folding_ranges.len(), 1);
    assert_eq!(folding_ranges[0].start_line, 0);
    assert_eq!(folding_ranges[0].end_line, 1);
}

#[test]
fn test_unmatched_close_brace_ignored() {
    let code = "}\na {\n}\n";
    let folding_ranges = get_folding_ranges(code);

    assert_eq!(folding_ranges.len(), 1);
    assert_eq!(folding_ranges[0].start_line, 1);
    assert_eq!(folding_ranges[0].end_line, 2);
}

#[test]
fn test_optional_fields_left_unset() {
    let code = "a {\nx\n}\n";
    let folding_ranges = get_folding_ranges(code);

    assert_eq!(folding_ranges.len(), 1);
    let range = &folding_ranges[0];
    assert!(range.start_character.is_none());
    assert!(range.end_character.is_none());
    assert!(range.kind.is_none());
    assert!(range.collapsed_text.is_none());
}

#[test]
fn test_kind_labels() {
    assert_eq!(FoldingRangeKind::Comment.label(), "comment");
    assert_eq!(FoldingRangeKind::Imports.label(), "imports");
    assert_eq!(FoldingRangeKind::Region.label(), "region");
}

#[test]
fn test_line_index_lookup() {
    let chars: Vec<char> = "ab\ncd\n\ne".chars().collect();
    let index = LineIndex::new(&chars);

    assert_eq!(index.line_of_offset(0), 0);
    assert_eq!(index.line_of_offset(2), 0);
    assert_eq!(index.line_of_offset(3), 1);
    assert_eq!(index.line_of_offset(5), 1);
    assert_eq!(index.line_of_offset(6), 2);
    assert_eq!(index.line_of_offset(7), 3);
}

#[test]
fn test_line_index_multibyte_offsets() {
    // Offsets count decoded characters, not bytes.
    let chars: Vec<char> = "é\nλλ\nx".chars().collect();
    let index = LineIndex::new(&chars);

    assert_eq!(index.line_of_offset(0), 0);
    assert_eq!(index.line_of_offset(2), 1);
    assert_eq!(index.line_of_offset(4), 1);
    assert_eq!(index.line_of_offset(5), 2);
}
