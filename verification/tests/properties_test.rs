use ascii_fmt::box_align_expand_temp::{expand_content_line, expand_horizontal_line};
use ascii_fmt::box_drawing::fix_box_drawing_symbols;
use ascii_fmt::cli::Options;
use ascii_fmt::display_width::{
    center_to_width, display_width, display_width_char, pad_center, pad_left, pad_right,
};
use ascii_fmt::formatter::{format_ascii, format_ascii_checked, is_formattable, render};
use ascii_fmt::grid::{align_box_borders, analyze_grid, shrink_overflowing_box_lines};
use ascii_fmt::parser::{parse, ParsedDiagram};
use ascii_fmt::patterns::DiagramType;
use ascii_fmt::tables::{detect_table_groups, format_table_group, format_tables};
use ascii_fmt::text_align::{align_text_content, is_alignable, Style};
use ascii_fmt::utils::{align_to_grid, most_common};

fn options(style: Style) -> Options {
    Options {
        width: 2,
        style,
        fix_box_drawing: true,
        fix_whitespace: true,
        preserve_empty_lines: true,
        dry_run: false,
        verbose: false,
    }
}

fn diagram(lines: &[&str]) -> ParsedDiagram {
    ParsedDiagram {
        lines: lines.iter().map(|l| l.to_string()).collect(),
        diagram_type: DiagramType::Unknown,
    }
}

#[test]
fn test_display_width_counts_wide_characters() {
    assert_eq!(display_width("日本"), 4);
    assert_eq!(display_width("a日"), 3);
    assert_eq!(display_width_char('日'), 2);
    assert_eq!(display_width_char('a'), 1);
}

#[test]
fn test_center_to_width_wide_characters() {
    assert_eq!(center_to_width("日", 5), " 日  ");
}

#[test]
fn test_parse_then_render_gives_back_the_input() {
    let input = "┌─┐\n│a│\n└─┘";
    let d = parse(input).unwrap();
    assert_eq!(render(&d).unwrap(), input);
}

#[test]
fn test_align_to_grid_is_idempotent() {
    for v in 0..40usize {
        for g in 0..7usize {
            let once = align_to_grid(v, g);
            assert_eq!(align_to_grid(once, g), once);
            assert!(once >= v);
        }
    }
}

#[test]
fn test_most_common_first_maximum_wins() {
    assert_eq!(most_common(&[3, 1, 1, 3]), Some(3));
    assert_eq!(most_common(&[4, 2, 2]), Some(2));
}

#[test]
fn test_fix_keeps_shape_and_words() {
    let mut d = diagram(&["+--+ foo-bar", "|  | v1 x_y", "+--+ a/b"]);
    let before: Vec<usize> = d.lines.iter().map(|l| l.chars().count()).collect();
    fix_box_drawing_symbols(&mut d).unwrap();
    let after: Vec<usize> = d.lines.iter().map(|l| l.chars().count()).collect();
    assert_eq!(before, after);
    assert!(d.lines[0].contains("foo-bar"));
    assert!(d.lines[1].contains("v1"));
    assert!(d.lines[1].contains("x_y"));
    assert!(d.lines[2].contains("a/b"));
    assert!(d.lines[0].starts_with("┌──┐"));
}

#[test]
fn test_fix_keeps_non_ascii_word_characters() {
    let mut d = diagram(&["é-é", "ж_ж"]);
    fix_box_drawing_symbols(&mut d).unwrap();
    assert_eq!(d.lines[0], "é-é");
    assert_eq!(d.lines[1], "ж_ж");
}

#[test]
fn test_align_keeps_frame_lines_and_indent() {
    let mut d = diagram(&["┌────┐", "   x    ", "└────┘"]);
    let metrics = analyze_grid(&d.lines).unwrap();
    align_text_content(&mut d, &metrics, Style::Standard).unwrap();
    assert_eq!(d.lines[0], "┌────┐");
    assert_eq!(d.lines[2], "└────┘");
    assert!(d.lines[1].starts_with("   x"));
}

#[test]
fn test_lone_border_line_is_not_alignable() {
    let lines = vec!["|".to_string()];
    assert!(!is_alignable(&lines, Style::Standard));
    assert!(is_alignable(&lines, Style::Minimal));
    let mut o = options(Style::Standard);
    o.fix_box_drawing = false;
    o.fix_whitespace = false;
    assert!(!is_formattable("|", &o));
    assert!(format_ascii_checked("|", &o).is_none());
    o.style = Style::Minimal;
    assert!(is_formattable("|", &o));
    assert_eq!(format_ascii_checked("|", &o).unwrap().unwrap(), "|");
}

#[test]
fn test_format_ascii_checked_reports_empty_input() {
    let o = options(Style::Standard);
    match format_ascii_checked("", &o) {
        Some(Err(ascii_fmt::error::Error::InvalidInput(msg))) => assert_eq!(msg, "Empty input"),
        _ => panic!("expected an error"),
    }
}

#[test]
fn test_format_keeps_line_count() {
    let o = options(Style::Standard);
    let out = format_ascii("a\n\n  \nb", &o).unwrap();
    assert_eq!(out.split('\n').count(), 4);
}

#[test]
fn test_format_drops_blank_lines_when_asked() {
    let mut o = options(Style::Standard);
    o.preserve_empty_lines = false;
    let out = format_ascii("a\n\n  \nb", &o).unwrap();
    assert_eq!(out, "a\nb");
}

#[test]
fn test_format_width_override_pads_to_grid() {
    let mut o = options(Style::Minimal);
    o.fix_box_drawing = false;
    o.width = 4;
    let out = format_ascii("ab\nabcde", &o).unwrap();
    assert_eq!(out, "ab  \nabcde   ");
}

#[test]
fn test_shrink_removes_padding_before_border() {
    let mut d = diagram(&["+----+", "| ab   |", "+----+"]);
    shrink_overflowing_box_lines(&mut d).unwrap();
    assert_eq!(d.lines[1], "| ab |");
}

#[test]
fn test_table_group_bounds() {
    let lines: Vec<String> = vec![
        "text".to_string(),
        "┌───┬───┐".to_string(),
        "│ A │ B │".to_string(),
        "└───┴───┘".to_string(),
    ];
    let groups = detect_table_groups(&lines);
    assert_eq!(groups.len(), 1);
    assert_eq!(groups[0].start_line, 1);
    assert_eq!(groups[0].end_line, 4);
    assert_eq!(groups[0].marker_count, 3);
}

#[test]
fn test_format_tables_keeps_other_lines_and_fills_width() {
    let mut d = diagram(&[
        "title",
        "┌──────┬──┐",
        "│ A│B │",
        "├──────┼──┤",
        "│ a│ bb │",
        "└──────┴──┘",
    ]);
    format_tables(&mut d).unwrap();
    assert_eq!(d.lines.len(), 6);
    assert_eq!(d.lines[0], "title");
    let w = display_width(&d.lines[1]);
    for l in &d.lines[1..] {
        assert_eq!(display_width(l), w);
    }
}

#[test]
fn test_format_table_group_exact_layout() {
    let mut lines = vec![
        "┌──────┬──┐".to_string(),
        "│ H│I │".to_string(),
        "├──────┼──┤".to_string(),
        "│ a│b │".to_string(),
        "└──────┴──┘".to_string(),
    ];
    format_table_group(&mut lines, 3);
    // Border lines of a table framed by vertical bars get junctions at the ends.
    assert_eq!(lines[0], "├────┬────┤");
    assert_eq!(lines[1], "│ H  │ I  │");
    assert_eq!(lines[2], "├────┼────┤");
    assert_eq!(lines[3], "│ a  │ b  │");
    assert_eq!(lines[4], "├────┴────┤");
}

#[test]
fn test_format_table_group_leaves_mismatched_groups() {
    let mut lines = vec!["┌──┬──┐".to_string(), "│ a │".to_string()];
    let before = lines.clone();
    format_table_group(&mut lines, 3);
    assert_eq!(lines, before);
}

#[test]
fn test_expand_content_line_inserts_before_right_border() {
    let mut lines = vec!["│ab│".to_string()];
    expand_content_line(&mut lines, 0, 0, 4, 2);
    assert_eq!(lines[0], "│ab  │");
    let mut lines = vec!["┌──┐".to_string()];
    expand_horizontal_line(&mut lines, 0, 0, 4, 3, '─');
    assert_eq!(lines[0], "┌─────┐");
}

#[test]
fn test_expand_outside_the_line_changes_nothing() {
    let mut lines = vec!["ab".to_string()];
    expand_content_line(&mut lines, 1, 0, 2, 2);
    assert_eq!(lines[0], "ab");
    expand_content_line(&mut lines, 0, 5, 2, 2);
    assert_eq!(lines[0], "ab");
}

#[test]
fn test_padding_with_a_given_width() {
    assert_eq!(pad_center(&['a'], 1, 4), vec![' ', 'a', ' ', ' ']);
    assert_eq!(pad_center(&['a', 'b'], 2, 2), vec!['a', 'b']);
    assert_eq!(pad_right(&['a'], 2, 4), vec!['a', ' ', ' ']);
    assert_eq!(pad_left(&['a'], 1, 3), vec![' ', ' ', 'a']);
    assert_eq!(pad_left(&['a'], 5, 3), vec!['a']);
}

#[test]
fn test_shrink_keeps_indentation_and_text() {
    let mut d = diagram(&["  +---+", "  | a   |", "  +---+"]);
    shrink_overflowing_box_lines(&mut d).unwrap();
    assert_eq!(d.lines[1], "  | a |");
    assert_eq!(d.lines[0], "  +---+");
}

#[test]
fn test_align_box_borders_pads_inside_the_right_border() {
    let mut d = diagram(&["+----+", "| a |", "text", "  |x|"]);
    align_box_borders(&mut d).unwrap();
    assert_eq!(d.lines[0], "+----+");
    assert_eq!(d.lines[1], "| a  |");
    assert_eq!(d.lines[2], "text");
    assert_eq!(d.lines[3], "  |x|");
}

#[test]
fn test_detect_table_groups_splits_runs_by_marker_count() {
    let lines: Vec<String> = vec![
        "┌───┬───┐".to_string(),
        "│ A │ B │".to_string(),
        "└───┴───┘".to_string(),
        "┌─┬─┬─┐".to_string(),
        "│a│b│c│".to_string(),
        "└─┴─┴─┘".to_string(),
    ];
    let groups = detect_table_groups(&lines);
    assert_eq!(groups.len(), 2);
    assert_eq!((groups[0].start_line, groups[0].end_line, groups[0].marker_count), (0, 3, 3));
    assert_eq!((groups[1].start_line, groups[1].end_line, groups[1].marker_count), (3, 6, 4));
}

#[test]
fn test_most_common_on_strings() {
    assert_eq!(most_common(&["x", "y", "y", "x", "y"]), Some("y"));
    assert_eq!(most_common::<&str>(&[]), None);
}

#[test]
fn test_display_width_of_ascii_is_its_length() {
    assert_eq!(display_width("hello, world ~"), 14);
}

#[test]
fn test_minimal_output_lines_are_multiples_of_width() {
    let mut o = options(Style::Minimal);
    o.fix_box_drawing = false;
    o.width = 4;
    assert_eq!(format_ascii("abc", &o).unwrap(), "abc ");
    let out = format_ascii("+--+\n| ab   |\n+--+\n  x  y", &o).unwrap();
    for l in out.split('\n') {
        assert_eq!(display_width(l) % 4, 0);
    }
}

#[test]
fn test_minimal_alignment_keeps_line_widths() {
    let lines = ["  a   b   ", "\tword  ", "x"];
    let mut d = diagram(&lines);
    let m = analyze_grid(&d.lines).unwrap();
    align_text_content(&mut d, &m, Style::Minimal).unwrap();
    for (l, before) in d.lines.iter().zip(lines.iter()) {
        assert_eq!(display_width(l), display_width(before));
    }
}

fn column_widths(line: &str) -> Vec<usize> {
    let chars: Vec<char> = line.chars().collect();
    let marks: Vec<usize> = chars
        .iter()
        .enumerate()
        .filter(|(_, c)| "│┌┐└┘├┤┬┴┼".contains(**c))
        .map(|(i, _)| i)
        .collect();
    marks.windows(2).map(|w| w[1] - w[0] - 1).collect()
}

#[test]
fn test_table_columns_have_one_width_on_every_line() {
    let mut lines = vec![
        "┌──────────┬──────────────────┬──────┐".to_string(),
        "│ Name │ Value │ x │".to_string(),
        "├─┼────────┼──┤".to_string(),
        "│ a │ longer text │ yy │".to_string(),
        "└─┴────────┴──┘".to_string(),
    ];
    let before = lines.clone();
    format_table_group(&mut lines, 4);
    assert_ne!(lines, before);
    let first = column_widths(&lines[0]);
    assert_eq!(first.len(), 3);
    for l in &lines {
        assert_eq!(column_widths(l), first);
    }
}

#[test]
fn test_align_box_borders_twice_changes_nothing_more() {
    let mut d = diagram(&["+------+", "| a |", "| bb  |", "+----+"]);
    align_box_borders(&mut d).unwrap();
    let once = d.lines.clone();
    let w = display_width(&once[0]);
    for l in &once {
        assert_eq!(display_width(l), w);
    }
    align_box_borders(&mut d).unwrap();
    assert_eq!(d.lines, once);
}

#[test]
fn test_shrunk_line_lands_at_the_common_width() {
    let mut d = diagram(&["+---+", "| a     |", "+---+", "| b |"]);
    shrink_overflowing_box_lines(&mut d).unwrap();
    assert_eq!(d.lines[1], "| a |");
    assert_eq!(display_width(&d.lines[1]), 5);
}
