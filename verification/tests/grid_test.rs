use ascii_fmt::display_width::display_width;
use ascii_fmt::grid::{align_to_grid, analyze_grid, find_horizontal_positions, find_vertical_positions, normalize_whitespace, GridMetrics};
use ascii_fmt::parser::ParsedDiagram;

#[test]
fn test_grid_metrics_default() {
    let metrics = GridMetrics {
        column_width: 0,
        row_height: 0,
        columns: vec![],
        rows: vec![],
    };
    assert_eq!(metrics.column_width, 0);
    assert_eq!(metrics.row_height, 0);
    assert!(metrics.columns.is_empty());
    assert!(metrics.rows.is_empty());
}

#[test]
fn test_grid_metrics_clone() {
    let metrics = GridMetrics {
        column_width: 2,
        row_height: 1,
        columns: vec![1, 2, 3],
        rows: vec![4, 5, 6],
    };

    let metrics_clone = metrics.clone();
    assert_eq!(metrics_clone.column_width, 2);
    assert_eq!(metrics_clone.row_height, 1);
    assert_eq!(metrics_clone.columns.len(), 3);
    assert_eq!(metrics_clone.rows.len(), 3);
}

#[test]
fn test_analyze_grid_simple_box() {
    let lines = vec![
        "\u{250c}\u{2500}\u{2500}\u{2500}\u{2510}".to_string(),
        "\u{2502}   \u{2502}".to_string(),
        "\u{2514}\u{2500}\u{2500}\u{2500}\u{2518}".to_string(),
    ];

    let result = analyze_grid(&lines).unwrap();
    assert_eq!(result.column_width, 4);
    assert_eq!(result.row_height, 1);
}

#[test]
fn test_analyze_grid_multiple_columns() {
    let lines = vec![
        "\u{250c}\u{2500}\u{2500}\u{2500}\u{252c}\u{2500}\u{2500}\u{2500}\u{2510}".to_string(),
        "\u{2502} A \u{2502} B \u{2502}".to_string(),
        "\u{251c}\u{2500}\u{2500}\u{2500}\u{253c}\u{2500}\u{2500}\u{2500}\u{2524}".to_string(),
        "\u{2502} C \u{2502} D \u{2502}".to_string(),
        "\u{2514}\u{2500}\u{2500}\u{2500}\u{2534}\u{2500}\u{2500}\u{2500}\u{2518}".to_string(),
    ];

    let result = analyze_grid(&lines).unwrap();
    assert_eq!(result.column_width, 4);
}

#[test]
fn test_analyze_grid_empty_lines() {
    let lines: Vec<String> = vec![];
    let result = analyze_grid(&lines);
    assert!(result.is_ok());
    assert_eq!(result.unwrap().column_width, 2);
}

#[test]
fn test_analyze_grid_text_only() {
    let lines = vec!["Hello World".to_string(), "Test Data".to_string()];

    let result = analyze_grid(&lines).unwrap();
    assert_eq!(result.column_width, 2);
}

#[test]
fn test_analyze_grid_single_vertical_line() {
    let lines = vec![
        "\u{2502}".to_string(),
        "\u{2502}".to_string(),
        "\u{2502}".to_string(),
    ];

    let result = analyze_grid(&lines).unwrap();
    assert!(result.columns.contains(&0));
}

#[test]
fn test_analyze_grid_with_mixed_lines() {
    let lines = vec![
        "\u{250c}\u{2500}\u{2500}\u{2500}\u{2510}".to_string(),
        "\u{2502}   \u{2502}".to_string(),
        "text".to_string(),
        "\u{2514}\u{2500}\u{2500}\u{2500}\u{2518}".to_string(),
    ];

    let result = analyze_grid(&lines).unwrap();
    assert_eq!(result.row_height, 1);
}

#[test]
fn test_find_vertical_positions_basic() {
    let lines = vec![
        "\u{2502}   \u{2502}".to_string(),
        "\u{2502}   \u{2502}".to_string(),
        "\u{2502}   \u{2502}".to_string(),
    ];

    let positions = find_vertical_positions(&lines);
    assert!(positions.contains(&0));
    assert!(positions.contains(&4));
}

#[test]
fn test_find_vertical_positions_threshold() {
    let lines = vec![
        "\u{2502}   \u{2502}".to_string(),
        "\u{2502}   \u{2502}".to_string(),
        "     ".to_string(),
        "\u{2502}   \u{2502}".to_string(),
    ];

    let positions = find_vertical_positions(&lines);
    assert!(positions.contains(&0));
    assert!(positions.contains(&4));
}

#[test]
fn test_find_vertical_positions_no_verticals() {
    let lines = vec!["\u{2500}".repeat(5), "\u{2500}".repeat(5)];

    let positions = find_vertical_positions(&lines);
    assert!(positions.is_empty());
}

#[test]
fn test_find_vertical_positions_duplicates() {
    let lines = vec![
        "\u{2502}".to_string(),
        "\u{2502}".to_string(),
        "\u{2502}".to_string(),
    ];

    let positions = find_vertical_positions(&lines);
    assert_eq!(positions.len(), 1);
    assert_eq!(positions[0], 0);
}

#[test]
fn test_find_horizontal_positions_basic() {
    let lines = vec![
        "\u{2500}".repeat(5),
        "     ".to_string(),
        "\u{2500}".repeat(5),
    ];

    let positions = find_horizontal_positions(&lines);
    assert_eq!(positions.len(), 2);
    assert!(positions.contains(&0));
    assert!(positions.contains(&2));
}

#[test]
fn test_find_horizontal_positions_with_tee() {
    let lines = vec![
        "\u{250c}\u{2500}\u{2500}\u{2500}\u{2510}".to_string(),
        "\u{2502}   \u{2502}".to_string(),
        "\u{2514}\u{2500}\u{2500}\u{2500}\u{2518}".to_string(),
    ];

    let positions = find_horizontal_positions(&lines);
    assert!(positions.contains(&0));
}

#[test]
fn test_find_horizontal_positions_no_horizontals() {
    let lines = vec![
        "\u{2502}".to_string(),
        "\u{2502}".to_string(),
        "\u{2502}".to_string(),
    ];

    let positions = find_horizontal_positions(&lines);
    assert!(positions.is_empty());
}

#[test]
fn test_normalize_whitespace_basic() {
    let mut diagram = ParsedDiagram {
        lines: vec!["hello  ".to_string(), "world ".to_string()],
        diagram_type: ascii_fmt::patterns::DiagramType::Unknown,
    };

    let metrics = GridMetrics {
        column_width: 2,
        row_height: 1,
        columns: vec![],
        rows: vec![],
    };

    let result = normalize_whitespace(&mut diagram, &metrics);
    assert!(result.is_ok());
    assert_eq!(diagram.lines[0].trim_end(), "hello");
    assert_eq!(diagram.lines[1].trim_end(), "world");
}

#[test]
fn test_normalize_whitespace_align_to_grid() {
    let mut diagram = ParsedDiagram {
        lines: vec!["hi".to_string()],
        diagram_type: ascii_fmt::patterns::DiagramType::Unknown,
    };

    let metrics = GridMetrics {
        column_width: 4,
        row_height: 1,
        columns: vec![],
        rows: vec![],
    };

    let result = normalize_whitespace(&mut diagram, &metrics);
    assert!(result.is_ok());
    assert_eq!(display_width(diagram.lines[0].as_str()), 4);
}

#[test]
fn test_normalize_whitespace_empty_lines() {
    let mut diagram = ParsedDiagram {
        lines: vec!["".to_string(), "".to_string()],
        diagram_type: ascii_fmt::patterns::DiagramType::Unknown,
    };

    let metrics = GridMetrics {
        column_width: 2,
        row_height: 1,
        columns: vec![],
        rows: vec![],
    };

    let result = normalize_whitespace(&mut diagram, &metrics);
    assert!(result.is_ok());
    assert_eq!(diagram.lines[0], "");
    assert_eq!(diagram.lines[1], "");
}

#[test]
fn test_normalize_whitespace_unicode() {
    let mut diagram = ParsedDiagram {
        lines: vec!["你好".to_string()],
        diagram_type: ascii_fmt::patterns::DiagramType::Unknown,
    };

    let metrics = GridMetrics {
        column_width: 4,
        row_height: 1,
        columns: vec![],
        rows: vec![],
    };

    let result = normalize_whitespace(&mut diagram, &metrics);
    assert!(result.is_ok());
    assert_eq!(display_width(diagram.lines[0].as_str()), 4);
}

#[test]
fn test_align_to_grid_zero_grid_size() {
    assert_eq!(align_to_grid(10, 0), 10);
    assert_eq!(align_to_grid(0, 0), 0);
}

#[test]
fn grid_test_align_to_grid_basic() {
    assert_eq!(align_to_grid(5, 2), 6);
    assert_eq!(align_to_grid(6, 2), 6);
    assert_eq!(align_to_grid(7, 2), 8);
}

#[test]
fn test_align_to_grid_larger_values() {
    assert_eq!(align_to_grid(10, 5), 10);
    assert_eq!(align_to_grid(11, 5), 15);
    assert_eq!(align_to_grid(14, 5), 15);
    assert_eq!(align_to_grid(15, 5), 15);
}

#[test]
fn test_analyze_grid_with_multiple_vertical_positions() {
    let lines = vec![
        "\u{2502} \u{2502} \u{2502}".to_string(),
        "\u{2502} \u{2502} \u{2502}".to_string(),
        "\u{2502} \u{2502} \u{2502}".to_string(),
    ];

    let result = analyze_grid(&lines).unwrap();
    assert!(result.columns.len() >= 3);
}

#[test]
fn test_find_vertical_positions_sorted() {
    let lines = vec![
        "  \u{2502}".to_string(),
        "\u{2502}".to_string(),
        "   \u{2502}".to_string(),
    ];

    let positions = find_vertical_positions(&lines);
    for i in 1..positions.len() {
        assert!(positions[i] > positions[i - 1]);
    }
}

#[test]
fn test_analyze_grid_returns_correct_column_width() {
    let lines = vec![
        "\u{2502}   \u{2502}".to_string(),
        "\u{2502}   \u{2502}".to_string(),
        "\u{2502}   \u{2502}".to_string(),
    ];

    let result = analyze_grid(&lines).unwrap();
    assert!(result.column_width > 0);
}

#[test]
fn test_normalize_whitespace_longer_than_grid() {
    let mut diagram = ParsedDiagram {
        lines: vec!["this is a very long string that exceeds grid".to_string()],
        diagram_type: ascii_fmt::patterns::DiagramType::Unknown,
    };

    let metrics = GridMetrics {
        column_width: 4,
        row_height: 1,
        columns: vec![],
        rows: vec![],
    };

    let result = normalize_whitespace(&mut diagram, &metrics);
    assert!(result.is_ok());
}

#[test]
fn test_analyze_grid_with_crosses() {
    let lines = vec![
        "\u{251c}\u{2500}\u{2500}\u{2500}\u{2524}".to_string(),
        "\u{2502}   \u{2502}".to_string(),
        "\u{2514}\u{2500}\u{2500}\u{2500}\u{2518}".to_string(),
    ];

    let result = analyze_grid(&lines).unwrap();
    assert!(result.columns.len() >= 2);
}

#[test]
fn test_find_horizontal_positions_all_lines() {
    let lines = vec![
        "\u{2500}".repeat(5),
        "\u{2500}".repeat(5),
        "\u{2500}".repeat(5),
    ];

    let positions = find_horizontal_positions(&lines);
    assert_eq!(positions.len(), 3);
}

#[test]
fn test_analyze_grid_preserves_column_positions() {
    let lines = vec![
        "\u{2502}   \u{2502}".to_string(),
        "\u{2502}   \u{2502}".to_string(),
    ];

    let result = analyze_grid(&lines).unwrap();
    assert!(result.columns.contains(&0));
    assert!(result.columns.contains(&4));
}
