use pastel::controls::{bar_percent, canvas_click, parse_size, tool_named, ClickStep, Tool};

#[test]
fn size_from_the_command_line() {
    assert_eq!(parse_size("640x480"), Some((640, 480)));
    assert_eq!(parse_size("1x2x3"), Some((1, 2)));
    assert_eq!(parse_size("640"), None);
    assert_eq!(parse_size("ax480"), None);
    assert_eq!(parse_size("640x-1"), None);
    assert_eq!(parse_size("4294967296x1"), None);
}

#[test]
fn slider_percentages_round_toward_zero() {
    assert_eq!(bar_percent(128, 256), 50);
    assert_eq!(bar_percent(255, 256), 99);
    assert_eq!(bar_percent(0, 256), 0);
    assert_eq!(bar_percent(-3, 256), -1);
}

#[test]
fn tool_names() {
    assert!(matches!(tool_named("pen"), Tool::Pen));
    assert!(matches!(tool_named("marquee"), Tool::Marquee));
    assert!(matches!(tool_named("Pen"), Tool::Other));
}

#[test]
fn first_click_of_a_line_starts_a_stroke() {
    let p = canvas_click(Tool::Line, None, (3, 4));
    assert!(matches!(p.step, ClickStep::Nothing));
    assert_eq!(p.line_from, None);
    assert!(p.save_after);
    assert!(!p.save_before);
    assert_eq!(p.remember, (3, 4));
    let q = canvas_click(Tool::Line, Some((3, 4)), (9, 9));
    assert_eq!(q.line_from, Some((3, 4)));
    assert!(!q.save_after);
    assert_eq!(q.remember, (9, 9));
}

#[test]
fn dragging_tools_save_before() {
    let p = canvas_click(Tool::Circle, Some((1, 1)), (2, 2));
    assert!(p.save_before);
    assert!(matches!(p.step, ClickStep::DragCircle));
    assert_eq!(p.line_from, None);
    let f = canvas_click(Tool::Fill, None, (0, 0));
    assert!(!f.save_before && !f.save_after);
    assert!(matches!(f.step, ClickStep::Fill));
    let pen = canvas_click(Tool::Pen, None, (0, 0));
    assert!(matches!(pen.step, ClickStep::Pixel));
    assert!(pen.save_after);
}
