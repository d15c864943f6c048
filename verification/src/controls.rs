//! The editor's controls: the canvas size given on the command line, the
//! percentage a slider is set to, and what a click on the canvas does with
//! the current tool.
use vstd::prelude::*;
use crate::text::{split_on, split_at_char, strings_view, parse_u32, parse_u32_spec};

verus! {

/// The size written as `WIDTHxHEIGHT`: the first two pieces between `x`
/// characters, each read as a `u32`.
pub open spec fn size_of_text(text: Seq<char>) -> Option<(u32, u32)> {
    let k = split_on(text, 'x');
    if k.len() >= 2 {
        match (parse_u32_spec(k[0]), parse_u32_spec(k[1])) {
            (Some(w), Some(h)) => Some((w, h)),
            _ => None,
        }
    } else {
        None
    }
}

/// Reads a canvas size written as `WIDTHxHEIGHT`; `None` when the text has
/// no `x` or a piece is not a number.
pub fn parse_size(text: &str) -> (r: Option<(u32, u32)>)
    ensures
        r == size_of_text(text@),
{
    let k = split_at_char(text, 'x');
    let ghost kv = strings_view(k@);
    if k.len() < 2 {
        return None;
    }
    assert(kv[0] == k@[0]@ && kv[1] == k@[1]@);
    match (parse_u32(k[0].as_str()), parse_u32(k[1].as_str())) {
        (Some(w), Some(h)) => Some((w, h)),
        _ => None,
    }
}

/// Rust's integer division, rounding toward zero.
pub open spec fn div_toward_zero(a: int, b: int) -> int {
    if a >= 0 {
        a / b
    } else {
        -((-a) / b)
    }
}

/// The percentage a click at `x` sets a slider `width` wide to: `x` times
/// 100 divided by the width, rounded toward zero.
pub fn bar_percent(x: i32, width: u32) -> (p: i32)
    requires
        0 < width <= i32::MAX,
        i32::MIN <= x * 100 <= i32::MAX,
    ensures
        p == div_toward_zero(x * 100, width as int),
{
    let v: i64 = (x as i64) * 100;
    let w: i64 = width as i64;
    if v >= 0 {
        (v / w) as i32
    } else {
        let q = (-v) / w;
        (-q) as i32
    }
}

/// The tools of the editor.
#[derive(Clone, Copy, Debug)]
pub enum Tool {
    Pen,
    Line,
    Polyline,
    Brush,
    Fill,
    Rectangle,
    Circle,
    Copy,
    Marquee,
    Paste,
    Other,
}

/// The tool called `name`.
pub fn tool_named(name: &str) -> (t: Tool)
    ensures
        t == if name@ == "pen"@ {
            Tool::Pen
        } else if name@ == "line"@ {
            Tool::Line
        } else if name@ == "polyline"@ {
            Tool::Polyline
        } else if name@ == "brush"@ {
            Tool::Brush
        } else if name@ == "fill"@ {
            Tool::Fill
        } else if name@ == "rectangle"@ {
            Tool::Rectangle
        } else if name@ == "circle"@ {
            Tool::Circle
        } else if name@ == "copy"@ {
            Tool::Copy
        } else if name@ == "marquee"@ {
            Tool::Marquee
        } else if name@ == "paste"@ {
            Tool::Paste
        } else {
            Tool::Other
        },
{
    let n = name.to_owned();
    if n == "pen".to_owned() {
        Tool::Pen
    } else if n == "line".to_owned() {
        Tool::Line
    } else if n == "polyline".to_owned() {
        Tool::Polyline
    } else if n == "brush".to_owned() {
        Tool::Brush
    } else if n == "fill".to_owned() {
        Tool::Fill
    } else if n == "rectangle".to_owned() {
        Tool::Rectangle
    } else if n == "circle".to_owned() {
        Tool::Circle
    } else if n == "copy".to_owned() {
        Tool::Copy
    } else if n == "marquee".to_owned() {
        Tool::Marquee
    } else if n == "paste".to_owned() {
        Tool::Paste
    } else {
        Tool::Other
    }
}

/// What a click does at once with a tool.
#[derive(Clone, Copy, Debug)]
pub enum ClickStep {
    /// Draw the color at the point.
    Pixel,
    /// Stamp the brush's shape at the point.
    Stamp,
    /// Flood fill from the point.
    Fill,
    /// Let the user drag a rectangle, a line or a circle from the point.
    DragRect,
    DragLine,
    DragCircle,
    /// Let the user select an area from the point and copy it.
    CopyArea,
    /// Let the user select an area from the point and keep it as the
    /// selection.
    SelectArea,
    /// Paste the copy buffer at the point.
    PasteBuffer,
    Nothing,
}

/// What a click on the canvas does: save the image for undo first (or
/// not), the step of the tool, a line from the previous click when the
/// tool draws lines, saving for undo after the first click of a stroke, and
/// the click remembered for the next one.
#[derive(Clone, Copy, Debug)]
pub struct ClickPlan {
    pub save_before: bool,
    pub step: ClickStep,
    pub line_from: Option<(i32, i32)>,
    pub save_after: bool,
    pub remember: (i32, i32),
}

/// The plan of a click at `point` with `tool`, `prev` being the click
/// before it in the same stroke (if any).
pub open spec fn click_plan(tool: Tool, prev: Option<(i32, i32)>, point: (i32, i32)) -> ClickPlan {
    ClickPlan {
        save_before: tool is Rectangle || tool is Polyline || tool is Marquee || tool is Circle,
        step: match tool {
            Tool::Pen => ClickStep::Pixel,
            Tool::Brush => ClickStep::Stamp,
            Tool::Fill => ClickStep::Fill,
            Tool::Rectangle => ClickStep::DragRect,
            Tool::Polyline => ClickStep::DragLine,
            Tool::Copy => ClickStep::CopyArea,
            Tool::Marquee => ClickStep::SelectArea,
            Tool::Paste => ClickStep::PasteBuffer,
            Tool::Circle => ClickStep::DragCircle,
            _ => ClickStep::Nothing,
        },
        line_from: match prev {
            Some(p) => if tool is Line { Some(p) } else { None },
            None => None,
        },
        save_after: prev is None && (tool is Line || tool is Pen || tool is Brush),
        remember: point,
    }
}

/// Plans a click on the canvas.
pub fn canvas_click(tool: Tool, prev: Option<(i32, i32)>, point: (i32, i32)) -> (plan: ClickPlan)
    ensures
        plan == click_plan(tool, prev, point),
{
    let save_before = match tool {
        Tool::Rectangle | Tool::Polyline | Tool::Marquee | Tool::Circle => true,
        _ => false,
    };
    let step = match tool {
        Tool::Pen => ClickStep::Pixel,
        Tool::Brush => ClickStep::Stamp,
        Tool::Fill => ClickStep::Fill,
        Tool::Rectangle => ClickStep::DragRect,
        Tool::Polyline => ClickStep::DragLine,
        Tool::Copy => ClickStep::CopyArea,
        Tool::Marquee => ClickStep::SelectArea,
        Tool::Paste => ClickStep::PasteBuffer,
        Tool::Circle => ClickStep::DragCircle,
        _ => ClickStep::Nothing,
    };
    let draws_lines = match tool {
        Tool::Line => true,
        _ => false,
    };
    let starts_stroke = match tool {
        Tool::Line | Tool::Pen | Tool::Brush => true,
        _ => false,
    };
    match prev {
        Some(p) => ClickPlan {
            save_before,
            step,
            line_from: if draws_lines { Some(p) } else { None },
            save_after: false,
            remember: point,
        },
        None => ClickPlan { save_before, step, line_from: None, save_after: starts_stroke, remember: point },
    }
}

} // verus!

verus! {

/// The tools that act on a click at once or start a drag from it.
pub open spec fn acts_on_click(t: Tool) -> bool {
    !(t is Line || t is Other)
}

/// What a click does with each tool: the pen draws one pixel, the brush
/// stamps its shape, the fill floods the region, the rectangle, polyline
/// and circle tools start a drag, the copy and marquee tools start a
/// selection, and the paste tool pastes the copy buffer; the line tool only
/// joins the click to the one before it. No two of the acting tools do the
/// same thing, and every click is remembered for the next one.
pub proof fn lemma_click_steps(prev: Option<(i32, i32)>, point: (i32, i32))
    ensures
        click_plan(Tool::Pen, prev, point).step == ClickStep::Pixel,
        click_plan(Tool::Brush, prev, point).step == ClickStep::Stamp,
        click_plan(Tool::Fill, prev, point).step == ClickStep::Fill,
        click_plan(Tool::Rectangle, prev, point).step == ClickStep::DragRect,
        click_plan(Tool::Polyline, prev, point).step == ClickStep::DragLine,
        click_plan(Tool::Circle, prev, point).step == ClickStep::DragCircle,
        click_plan(Tool::Copy, prev, point).step == ClickStep::CopyArea,
        click_plan(Tool::Marquee, prev, point).step == ClickStep::SelectArea,
        click_plan(Tool::Paste, prev, point).step == ClickStep::PasteBuffer,
        click_plan(Tool::Line, prev, point).step == ClickStep::Nothing,
        forall|t1: Tool, t2: Tool|
            acts_on_click(t1) && acts_on_click(t2) && t1 != t2
                ==> #[trigger] click_plan(t1, prev, point).step != #[trigger] click_plan(t2, prev, point).step,
        forall|t: Tool| acts_on_click(t) ==> !(#[trigger] click_plan(t, prev, point).step is Nothing),
        forall|t: Tool| #[trigger] click_plan(t, prev, point).remember == point,
        forall|t: Tool| (#[trigger] click_plan(t, prev, point).line_from is Some) <==> (t is Line && prev is Some),
{
}

} // verus!
