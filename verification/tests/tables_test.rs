use ascii_fmt::tables::{detect_table_groups, format_table_group, parse_table_group};

#[test]
fn test_detect_table_groups_simple_2col() {
    let lines = vec![
        "┌───┬───┐".to_string(),
        "│ A │ B │".to_string(),
        "└───┴───┘".to_string(),
    ];

    let groups = detect_table_groups(&lines);
    assert_eq!(groups.len(), 1);
    assert_eq!(groups[0].start_line, 0);
    assert_eq!(groups[0].end_line, 3);
    assert_eq!(groups[0].marker_count, 3);
}

#[test]
fn test_detect_table_groups_simple_box_is_not_table() {
    let lines = vec![
        "┌───┐".to_string(),
        "│ A │".to_string(),
        "└───┘".to_string(),
    ];
    let groups = detect_table_groups(&lines);
    assert!(groups.is_empty());
}

#[test]
fn test_parse_table_group_detects_header() {
    let lines = vec![
        "┌───┬────┐".to_string(),
        "│ H │ HH │".to_string(),
        "├───┼────┤".to_string(),
        "│ A │ BB │".to_string(),
        "└───┴────┘".to_string(),
    ];

    let parsed = parse_table_group(&lines, 3).expect("table should parse");
    assert_eq!(parsed.header_line, Some(1));
}

#[test]
fn test_format_table_group_stretches_columns_and_centers_header() {
    let mut lines = vec![
        "│  ┌──┬──┐   │".to_string(),
        "│  │ H│HH│   │".to_string(),
        "│  ├──┼──┤   │".to_string(),
        "│  │ a│bb│   │".to_string(),
        "│  └──┴──┘   │".to_string(),
    ];

    // 7 markers: outer │, inner ┌/│/├/└, inner ┬/│/┼/┴, inner │, inner ┐/│/┤/┘, outer │
    // (For this simplified example, markers count will be 5, but we call via detection.
    // Keep the test focused on behavior, not exact marker count.)
    let groups = detect_table_groups(&lines);
    assert_eq!(groups.len(), 1);
    format_table_group(
        &mut lines[groups[0].start_line..groups[0].end_line],
        groups[0].marker_count,
    );

    // Header line should still contain H/HH and be padded.
    assert!(lines[1].contains("H"));
    assert!(lines[1].contains("HH"));
}
