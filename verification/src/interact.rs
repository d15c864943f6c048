//! The decisions of the interactive tools: dragging a selection rectangle,
//! a line or a circle, and placing a pasted image. Each tool is a state
//! machine fed with the window's events; it answers with what to draw over
//! the window and whether the interaction goes on, was cancelled or is
//! done.
use vstd::prelude::*;
use crate::canvas::Rect;
use crate::color::{Color, rgba_word};

verus! {

/// How far below the window's top edge the canvas starts.
pub const CANVASOFFSET: i32 = 200;

/// What the window reports while a tool is active.
#[derive(Clone, Copy, Debug)]
pub enum WindowEvent {
    Key,
    Quit,
    Scroll,
    /// The mouse moved to (x, y), in window coordinates.
    Mouse { x: i32, y: i32 },
    /// A mouse button changed.
    Button { left: bool, right: bool },
    Other,
}

/// A line or rectangle given by two corners: (x1, y1, x2, y2).
pub type Corners = (i32, i32, i32, i32);

/// The gray the helper marks are drawn with; its alpha is 0 so that the
/// marks only invert color bits.
pub open spec fn guide_word() -> u32 {
    rgba_word(100, 100, 100, 0)
}

/// The guide color.
pub fn guide_color() -> (c: Color)
    ensures
        c.data == guide_word(),
{
    Color::rgba(100, 100, 100, 0)
}

/// What a dragging tool asks for after an event.
#[derive(Clone, Copy, Debug)]
pub enum DragAction {
    /// Nothing to do; wait for the next event.
    Wait,
    /// The interaction ends with no result.
    Cancel,
    /// Take away the mark drawn last (when there is one), draw the new
    /// one, and show the window.
    Redraw { erase: Option<Corners>, draw: Corners },
}

// ---------------------------------------------------------------------
// Selection rectangle

/// A selection being dragged from the corner (x, y) of the canvas to the
/// mouse.
#[derive(Clone, Copy, Debug)]
pub struct RectSelect {
    pub x: i32,
    pub y: i32,
    pub lx: i32,
    pub ly: i32,
    pub drawn: bool,
    /// The color and dash style the marquee is drawn with (a dash style
    /// `s` leaves `s` points alone after each dash).
    pub color: Color,
    pub style: i32,
}

/// What the selection asks for after an event.
#[derive(Clone, Copy, Debug)]
pub enum SelectAction {
    Drag(DragAction),
    /// The selection is made.
    Done(Rect),
}

/// The rectangle spanned by (x, y) and (lx, ly), whatever their order.
pub open spec fn spanned(x: int, y: int, lx: int, ly: int) -> Rect {
    let (x0, x1) = if lx < x { (lx, x) } else { (x, lx) };
    let (y0, y1) = if ly < y { (ly, y) } else { (y, ly) };
    Rect { x: x0 as i32, y: y0 as i32, width: (x1 - x0) as u32, height: (y1 - y0) as u32 }
}

impl RectSelect {
    /// The free corner's window coordinates stay within `i32`.
    pub open spec fn wf(&self) -> bool {
        self.ly + CANVASOFFSET <= i32::MAX
    }

    /// The marquee on the window now, in window coordinates.
    pub open spec fn shown(&self) -> Option<Corners> {
        if self.drawn {
            Some((self.x, (self.y + CANVASOFFSET) as i32, self.lx, (self.ly + CANVASOFFSET) as i32))
        } else {
            None
        }
    }

    /// A selection from (x, y), drawn in `color` with the dash `pattern`:
    /// 1 draws a continuous line, 2 every other point, 3 every third point,
    /// and so on.
    pub fn new_select_rect(x: i32, y: i32, color: Color, pattern: i32) -> (s: RectSelect)
        ensures
            s == (RectSelect { x, y, lx: 0, ly: 0, drawn: false, color, style: if pattern > 0 { (pattern - 1) as i32 } else { 0 } }),
            s.wf(),
            s.shown() is None,
    {
        let style = if pattern > 0 { pattern - 1 } else { 0 };
        RectSelect { x, y, lx: 0, ly: 0, drawn: false, color, style }
    }

    /// A selection from (x, y), drawn in the guide gray with dash pattern
    /// 3: every third point.
    pub fn select_rect(x: i32, y: i32) -> (s: RectSelect)
        ensures
            s == (RectSelect { x, y, lx: 0, ly: 0, drawn: false, color: Color { data: guide_word() }, style: 2 }),
            s.wf(),
    {
        Self::new_select_rect(x, y, guide_color(), 3)
    }

    /// Takes one event. A key or quit cancels; a mouse move above the
    /// canvas cancels, one over it moves the marquee's free corner there;
    /// a left click makes the selection spanned by the corners, a right
    /// click cancels.
    pub fn step(&mut self, ev: WindowEvent) -> (a: SelectAction)
        requires
            old(self).wf(),
            ev matches WindowEvent::Mouse { x: mx, y: my } ==> my < CANVASOFFSET || old(self).y + CANVASOFFSET <= i32::MAX,
        ensures
            final(self).wf(),
            match ev {
                WindowEvent::Mouse { x: mx, y: my } => if my < CANVASOFFSET {
                    a == SelectAction::Drag(DragAction::Cancel) && *final(self) == *old(self)
                } else {
                    &&& a == SelectAction::Drag(DragAction::Redraw {
                        erase: old(self).shown(),
                        draw: (old(self).x, (old(self).y + CANVASOFFSET) as i32, mx, my),
                    })
                    &&& *final(self) == (RectSelect { lx: mx, ly: (my - CANVASOFFSET) as i32, drawn: true, ..*old(self) })
                },
                WindowEvent::Button { left, right } => *final(self) == *old(self) && if left {
                    a == SelectAction::Done(spanned(old(self).x as int, old(self).y as int, old(self).lx as int, old(self).ly as int))
                } else if right {
                    a == SelectAction::Drag(DragAction::Cancel)
                } else {
                    a == SelectAction::Drag(DragAction::Wait)
                },
                WindowEvent::Key | WindowEvent::Quit => a == SelectAction::Drag(DragAction::Cancel) && *final(self) == *old(self),
                _ => a == SelectAction::Drag(DragAction::Wait) && *final(self) == *old(self),
            },
            // a new marquee always takes away the one shown before it
            a matches SelectAction::Drag(DragAction::Redraw { erase, draw }) ==> erase == old(self).shown()
                && final(self).shown() == Some(draw),
    {
        match ev {
            WindowEvent::Key | WindowEvent::Quit => SelectAction::Drag(DragAction::Cancel),
            WindowEvent::Mouse { x: mx, y: my } => {
                if my < CANVASOFFSET {
                    return SelectAction::Drag(DragAction::Cancel);
                }
                let erase = if self.drawn {
                    Some((self.x, self.y + CANVASOFFSET, self.lx, self.ly + CANVASOFFSET))
                } else {
                    None
                };
                self.drawn = true;
                let draw = (self.x, self.y + CANVASOFFSET, mx, my);
                self.lx = mx;
                self.ly = my - CANVASOFFSET;
                SelectAction::Drag(DragAction::Redraw { erase, draw })
            },
            WindowEvent::Button { left, right } => {
                if left {
                    let (x0, x1) = if self.lx < self.x { (self.lx, self.x) } else { (self.x, self.lx) };
                    let (y0, y1) = if self.ly < self.y { (self.ly, self.y) } else { (self.y, self.ly) };
                    let w = (x1 as i64 - x0 as i64) as u32;
                    let h = (y1 as i64 - y0 as i64) as u32;
                    SelectAction::Done(Rect::new(x0, y0, w, h))
                } else if right {
                    SelectAction::Drag(DragAction::Cancel)
                } else {
                    SelectAction::Drag(DragAction::Wait)
                }
            },
            _ => SelectAction::Drag(DragAction::Wait),
        }
    }
}

// ---------------------------------------------------------------------
// Line

/// A line being dragged from (ox, oy) on the canvas to the mouse.
#[derive(Clone, Copy, Debug)]
pub struct LineDraw {
    pub ox: i32,
    pub oy: i32,
    pub lx: i32,
    pub ly: i32,
    pub drawn: bool,
}

/// What the line tool asks for after an event.
#[derive(Clone, Copy, Debug)]
pub enum LineAction {
    Drag(DragAction),
    /// The line is chosen: draw `preview` on the window in the line's
    /// color, and the line on the canvas is `line`.
    Done { preview: Corners, line: Corners },
}

impl LineDraw {
    /// The free end's window coordinates stay within `i32`.
    pub open spec fn wf(&self) -> bool {
        self.ly + CANVASOFFSET <= i32::MAX
    }

    /// The guide line on the window now, in window coordinates.
    pub open spec fn shown(&self) -> Option<Corners> {
        if self.drawn {
            Some((self.ox, (self.oy + CANVASOFFSET) as i32, self.lx, (self.ly + CANVASOFFSET) as i32))
        } else {
            None
        }
    }

    /// A line from (x, y).
    pub fn interact_line(x: i32, y: i32) -> (s: LineDraw)
        ensures
            s == (LineDraw { ox: x, oy: y, lx: 0, ly: 0, drawn: false }),
            s.wf(),
    {
        LineDraw { ox: x, oy: y, lx: 0, ly: 0, drawn: false }
    }

    /// Takes one event. A key or quit cancels; a mouse move above the
    /// canvas cancels, one over it moves the guide line's end there; a left
    /// click chooses the line from the start to the last mouse position, a
    /// right click cancels.
    pub fn step(&mut self, ev: WindowEvent) -> (a: LineAction)
        requires
            old(self).wf(),
            ev matches WindowEvent::Mouse { x: mx, y: my } ==> my < CANVASOFFSET || old(self).oy + CANVASOFFSET <= i32::MAX,
            ev matches WindowEvent::Button { left, right } ==> !left || old(self).oy + CANVASOFFSET <= i32::MAX,
        ensures
            final(self).wf(),
            match ev {
                WindowEvent::Mouse { x: mx, y: my } => if my < CANVASOFFSET {
                    a == LineAction::Drag(DragAction::Cancel) && *final(self) == *old(self)
                } else {
                    &&& a == LineAction::Drag(DragAction::Redraw {
                        erase: old(self).shown(),
                        draw: (old(self).ox, (old(self).oy + CANVASOFFSET) as i32, mx, my),
                    })
                    &&& *final(self) == (LineDraw { lx: mx, ly: (my - CANVASOFFSET) as i32, drawn: true, ..*old(self) })
                },
                WindowEvent::Button { left, right } => *final(self) == *old(self) && if left {
                    a == (LineAction::Done {
                        preview: (old(self).ox, (old(self).oy + CANVASOFFSET) as i32, old(self).lx, (old(self).ly + CANVASOFFSET) as i32),
                        line: (old(self).ox, old(self).oy, old(self).lx, old(self).ly),
                    })
                } else if right {
                    a == LineAction::Drag(DragAction::Cancel)
                } else {
                    a == LineAction::Drag(DragAction::Wait)
                },
                WindowEvent::Key | WindowEvent::Quit => a == LineAction::Drag(DragAction::Cancel) && *final(self) == *old(self),
                _ => a == LineAction::Drag(DragAction::Wait) && *final(self) == *old(self),
            },
            a matches LineAction::Drag(DragAction::Redraw { erase, draw }) ==> erase == old(self).shown()
                && final(self).shown() == Some(draw),
    {
        match ev {
            WindowEvent::Key | WindowEvent::Quit => LineAction::Drag(DragAction::Cancel),
            WindowEvent::Mouse { x: mx, y: my } => {
                if my < CANVASOFFSET {
                    return LineAction::Drag(DragAction::Cancel);
                }
                let erase = if self.drawn {
                    Some((self.ox, self.oy + CANVASOFFSET, self.lx, self.ly + CANVASOFFSET))
                } else {
                    None
                };
                self.drawn = true;
                self.lx = mx;
                self.ly = my - CANVASOFFSET;
                let draw = (self.ox, self.oy + CANVASOFFSET, mx, my);
                LineAction::Drag(DragAction::Redraw { erase, draw })
            },
            WindowEvent::Button { left, right } => {
                if left {
                    LineAction::Done {
                        preview: (self.ox, self.oy + CANVASOFFSET, self.lx, self.ly + CANVASOFFSET),
                        line: (self.ox, self.oy, self.lx, self.ly),
                    }
                } else if right {
                    LineAction::Drag(DragAction::Cancel)
                } else {
                    LineAction::Drag(DragAction::Wait)
                }
            },
            _ => LineAction::Drag(DragAction::Wait),
        }
    }
}

// ---------------------------------------------------------------------
// Circle

/// The whole part of the square root of `n`.
pub open spec fn is_isqrt(n: int, r: int) -> bool {
    0 <= r && r * r <= n < (r + 1) * (r + 1)
}

/// Computes the whole part of the square root of `n`.
pub fn isqrt(n: u32) -> (r: u32)
    ensures
        is_isqrt(n as int, r as int),
{
    let mut lo: u64 = 0;
    let mut hi: u64 = 0x1_0000;
    assert(hi * hi == 0x1_0000_0000) by (nonlinear_arith)
        requires
            hi == 0x1_0000,
    ;
    while hi - lo > 1
        invariant
            lo < hi <= 0x1_0000,
            lo * lo <= n,
            n < hi * hi,
        decreases hi - lo,
    {
        let mid = lo + (hi - lo) / 2;
        assert(mid * mid <= 0x1_0000_0000) by (nonlinear_arith)
            requires
                mid <= 0x1_0000,
        ;
        if mid * mid <= n as u64 {
            lo = mid;
        } else {
            hi = mid;
        }
    }
    assert(lo < 0x1_0000) by (nonlinear_arith)
        requires
            lo < hi <= 0x1_0000,
    ;
    lo as u32
}

/// A circle being dragged around (x, y) on the canvas: its radius is the
/// distance from the center to the mouse.
#[derive(Clone, Copy, Debug)]
pub struct CircleDraw {
    pub x: i32,
    pub y: i32,
    pub dx: i32,
    pub dy: i32,
    pub r: i32,
    pub r_old: i32,
    pub drawn: bool,
}

/// What the circle tool asks for after an event.
#[derive(Clone, Copy, Debug)]
pub enum CircleAction {
    Wait,
    Cancel,
    /// Take away the circle marquee of radius `erase` (when there is one),
    /// draw one of radius `draw` around `center`, and show the window.
    Redraw { center: (i32, i32), erase: Option<i32>, draw: i32 },
    /// The circle is chosen: its radius, and the horizontal offset of the
    /// mouse from the center, from which the angle is taken.
    Done { radius: i32, dx: i32 },
}

impl CircleDraw {
    /// The center on the window.
    pub open spec fn center(&self) -> (i32, i32) {
        (self.x, (self.y + CANVASOFFSET) as i32)
    }

    /// The radius of the circle marquee on the window now.
    pub open spec fn shown(&self) -> Option<i32> {
        if self.drawn { Some(self.r_old) } else { None }
    }

    /// A circle around (x, y).
    pub fn interact_circle(x: i32, y: i32) -> (s: CircleDraw)
        ensures
            s == (CircleDraw { x, y, dx: 0, dy: 0, r: 0, r_old: 0, drawn: false }),
    {
        CircleDraw { x, y, dx: 0, dy: 0, r: 0, r_old: 0, drawn: false }
    }

    /// Takes one event. A key or quit cancels; a mouse move above the
    /// canvas cancels; one over it records the mouse's offset from the
    /// center and redraws the marquee with the radius of that offset (the
    /// integer square root of its squared length); a left click chooses the
    /// circle, a right click cancels.
    pub fn step(&mut self, ev: WindowEvent) -> (a: CircleAction)
        requires
            ev matches WindowEvent::Mouse { x: mx, y: my } ==> my < CANVASOFFSET || ({
                &&& old(self).y + CANVASOFFSET <= i32::MAX
                &&& i32::MIN <= mx - old(self).x <= i32::MAX
                &&& my - old(self).y <= i32::MAX
                &&& i32::MIN <= my - old(self).y - CANVASOFFSET
                &&& (mx - old(self).x) * (mx - old(self).x) + (my - old(self).y - CANVASOFFSET) * (my - old(self).y
                    - CANVASOFFSET) <= i32::MAX
            }),
        ensures
            match ev {
                WindowEvent::Mouse { x: mx, y: my } => if my < CANVASOFFSET {
                    a == CircleAction::Cancel && *final(self) == *old(self)
                } else {
                    let r = final(self).r;
                    let dx = mx - old(self).x;
                    let dy = my - old(self).y - CANVASOFFSET;
                    &&& is_isqrt(dx * dx + dy * dy, r as int)
                    &&& a == (CircleAction::Redraw { center: old(self).center(), erase: old(self).shown(), draw: r })
                    &&& *final(self) == (CircleDraw {
                        dx: dx as i32,
                        dy: dy as i32,
                        r,
                        r_old: r,
                        drawn: true,
                        ..*old(self)
                    })
                },
                WindowEvent::Button { left, right } => *final(self) == *old(self) && if left {
                    a == (CircleAction::Done { radius: old(self).r, dx: old(self).dx })
                } else if right {
                    a == CircleAction::Cancel
                } else {
                    a == CircleAction::Wait
                },
                WindowEvent::Key | WindowEvent::Quit => a == CircleAction::Cancel && *final(self) == *old(self),
                _ => a == CircleAction::Wait && *final(self) == *old(self),
            },
            a matches CircleAction::Redraw { center, erase, draw } ==> erase == old(self).shown()
                && center == final(self).center() && final(self).shown() == Some(draw),
    {
        match ev {
            WindowEvent::Key | WindowEvent::Quit => CircleAction::Cancel,
            WindowEvent::Mouse { x: mx, y: my } => {
                if my < CANVASOFFSET {
                    return CircleAction::Cancel;
                }
                let erase = if self.drawn { Some(self.r_old) } else { None };
                self.drawn = true;
                let center = (self.x, self.y + CANVASOFFSET);
                self.dx = mx - self.x;
                self.dy = my - self.y - CANVASOFFSET;
                proof {
                    assert(0 <= self.dx * self.dx) by (nonlinear_arith);
                    assert(0 <= self.dy * self.dy) by (nonlinear_arith);
                }
                let sq = self.dx * self.dx + self.dy * self.dy;
                let r = isqrt(sq as u32);
                proof {
                    assert(r <= sq) by (nonlinear_arith)
                        requires
                            r * r <= sq,
                            0 <= r,
                    {
                        if r > sq {
                            assert(r * r > sq * 1);
                        }
                    }
                }
                self.r = r as i32;
                self.r_old = self.r;
                CircleAction::Redraw { center, erase, draw: self.r }
            },
            WindowEvent::Button { left, right } => {
                if left {
                    CircleAction::Done { radius: self.r, dx: self.dx }
                } else if right {
                    CircleAction::Cancel
                } else {
                    CircleAction::Wait
                }
            },
            _ => CircleAction::Wait,
        }
    }
}

// ---------------------------------------------------------------------
// Paste

/// What placing a pasted image asks for after an event.
#[derive(Clone, Copy, Debug)]
pub enum PasteAction {
    Wait,
    Cancel,
    /// Paste at the point where the preview was drawn.
    Done,
}

/// Where the preview of an image pasted at (x, y) of the canvas has its top
/// left corner on the window: the paste starts at (x, y), so the preview
/// does too.
pub fn paste_preview_origin(x: i32, y: i32) -> (p: (i32, i32))
    requires
        y + CANVASOFFSET <= i32::MAX,
    ensures
        p == (x, (y + CANVASOFFSET) as i32),
{
    (x, y + CANVASOFFSET)
}

/// Takes one event while a pasted image waits to be placed: a left click
/// places it; a right click, a key, quitting or any mouse move cancels.
pub fn paste_step(ev: WindowEvent) -> (a: PasteAction)
    ensures
        a == match ev {
            WindowEvent::Button { left, right } => if left {
                PasteAction::Done
            } else if right {
                PasteAction::Cancel
            } else {
                PasteAction::Wait
            },
            WindowEvent::Key | WindowEvent::Quit | WindowEvent::Mouse { .. } => PasteAction::Cancel,
            _ => PasteAction::Wait,
        },
{
    match ev {
        WindowEvent::Key | WindowEvent::Quit => PasteAction::Cancel,
        WindowEvent::Mouse { .. } => PasteAction::Cancel,
        WindowEvent::Button { left, right } => {
            if left {
                PasteAction::Done
            } else if right {
                PasteAction::Cancel
            } else {
                PasteAction::Wait
            }
        },
        _ => PasteAction::Wait,
    }
}

} // verus!
