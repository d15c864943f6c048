use pastel::color::Color;
use pastel::image::Image;
use pastel::interact::{
    guide_color, isqrt, paste_preview_origin, paste_step, CircleAction, CircleDraw, DragAction, LineAction, LineDraw,
    PasteAction, RectSelect, SelectAction, WindowEvent, CANVASOFFSET,
};

fn words(img: &Image) -> Vec<u32> {
    img.data().iter().map(|c| c.data).collect()
}

#[test]
fn select_rect_drags_and_normalizes() {
    let mut s = RectSelect::select_rect(10, 20);
    match s.step(WindowEvent::Mouse { x: 30, y: 250 }) {
        SelectAction::Drag(DragAction::Redraw { erase, draw }) => {
            assert_eq!(erase, None);
            assert_eq!(draw, (10, 20 + CANVASOFFSET, 30, 250));
        }
        _ => panic!("expected a redraw"),
    }
    match s.step(WindowEvent::Mouse { x: 5, y: 230 }) {
        SelectAction::Drag(DragAction::Redraw { erase, draw }) => {
            // the new marquee takes away the one drawn before
            assert_eq!(erase, Some((10, 220, 30, 250)));
            assert_eq!(draw, (10, 220, 5, 230));
        }
        _ => panic!("expected a redraw"),
    }
    assert!(matches!(s.step(WindowEvent::Scroll), SelectAction::Drag(DragAction::Wait)));
    match s.step(WindowEvent::Button { left: true, right: false }) {
        SelectAction::Done(r) => assert_eq!((r.x, r.y, r.width, r.height), (5, 20, 5, 10)),
        _ => panic!("expected a selection"),
    }
}

#[test]
fn select_rect_cancels() {
    let mut s = RectSelect::new_select_rect(0, 0, Color::rgb(1, 2, 3), 1);
    assert_eq!(s.style, 0);
    assert!(matches!(s.step(WindowEvent::Mouse { x: 3, y: 199 }), SelectAction::Drag(DragAction::Cancel)));
    assert!(matches!(s.step(WindowEvent::Key), SelectAction::Drag(DragAction::Cancel)));
    assert!(matches!(s.step(WindowEvent::Quit), SelectAction::Drag(DragAction::Cancel)));
    assert!(matches!(s.step(WindowEvent::Button { left: false, right: true }), SelectAction::Drag(DragAction::Cancel)));
    assert!(matches!(s.step(WindowEvent::Button { left: false, right: false }), SelectAction::Drag(DragAction::Wait)));
    assert!(!s.drawn);
}

#[test]
fn select_rect_without_a_move_spans_to_the_origin() {
    let mut s = RectSelect::select_rect(3, 4);
    match s.step(WindowEvent::Button { left: true, right: true }) {
        SelectAction::Done(r) => assert_eq!((r.x, r.y, r.width, r.height), (0, 0, 3, 4)),
        _ => panic!("expected a selection"),
    }
}

#[test]
fn line_tool_previews_and_finishes() {
    let mut l = LineDraw::interact_line(1, 2);
    match l.step(WindowEvent::Mouse { x: 50, y: 260 }) {
        LineAction::Drag(DragAction::Redraw { erase, draw }) => {
            assert_eq!(erase, None);
            assert_eq!(draw, (1, 202, 50, 260));
        }
        _ => panic!("expected a redraw"),
    }
    match l.step(WindowEvent::Button { left: true, right: false }) {
        LineAction::Done { preview, line } => {
            assert_eq!(preview, (1, 202, 50, 260));
            assert_eq!(line, (1, 2, 50, 60));
        }
        _ => panic!("expected a line"),
    }
    assert!(matches!(l.step(WindowEvent::Other), LineAction::Drag(DragAction::Wait)));
    assert!(matches!(l.step(WindowEvent::Mouse { x: 0, y: 0 }), LineAction::Drag(DragAction::Cancel)));
}

#[test]
fn circle_tool_radius_lags_one_move() {
    let mut c = CircleDraw::interact_circle(100, 50);
    match c.step(WindowEvent::Mouse { x: 103, y: 254 }) {
        CircleAction::Redraw { center, erase, draw } => {
            assert_eq!(center, (100, 250));
            assert_eq!(erase, None);
            // the radius to the mouse: offset (3, 4)
            assert_eq!(draw, 5);
        }
        _ => panic!("expected a redraw"),
    }
    match c.step(WindowEvent::Mouse { x: 110, y: 250 }) {
        CircleAction::Redraw { erase, draw, .. } => {
            assert_eq!(erase, Some(5));
            assert_eq!(draw, 10);
        }
        _ => panic!("expected a redraw"),
    }
    match c.step(WindowEvent::Button { left: true, right: false }) {
        CircleAction::Done { radius, dx } => {
            assert_eq!(radius, 10);
            assert_eq!(dx, 10);
        }
        _ => panic!("expected a circle"),
    }
    assert!(matches!(c.step(WindowEvent::Button { left: false, right: true }), CircleAction::Cancel));
}

#[test]
fn integer_square_roots() {
    assert_eq!(isqrt(0), 0);
    assert_eq!(isqrt(24), 4);
    assert_eq!(isqrt(25), 5);
    assert_eq!(isqrt(26), 5);
    assert_eq!(isqrt(u32::MAX), 65535);
    assert_eq!(isqrt(2147483647), 46340);
}

#[test]
fn paste_steps_and_preview_origin() {
    assert!(matches!(paste_step(WindowEvent::Button { left: true, right: false }), PasteAction::Done));
    assert!(matches!(paste_step(WindowEvent::Button { left: false, right: true }), PasteAction::Cancel));
    assert!(matches!(paste_step(WindowEvent::Mouse { x: 300, y: 300 }), PasteAction::Cancel));
    assert!(matches!(paste_step(WindowEvent::Scroll), PasteAction::Wait));
    assert_eq!(paste_preview_origin(10, 10), (10, 210));
}

#[test]
fn dashed_line_inverts_every_other_point() {
    let base = Color::rgb(10, 20, 30);
    let mut img = Image::from_color(5, 3, base);
    img.ant_line(0, 0, 4, 2, guide_color(), 1);
    // points (0,0) (1,0) (2,1) (3,1) (4,2): every second one is inverted
    assert_eq!(img.pixraw(0, 0), 0xFF6E_707A);
    assert_eq!(img.pixraw(1, 0), base.data);
    assert_eq!(img.pixraw(2, 1), 0xFF6E_707A);
    assert_eq!(img.pixraw(3, 1), base.data);
    assert_eq!(img.pixraw(4, 2), 0xFF6E_707A);
}

#[test]
fn dashed_line_drawn_twice_goes_away() {
    let mut img = Image::from_color(6, 6, Color::rgb(10, 20, 30));
    img.pixel(2, 3, Color::rgb(200, 0, 9));
    let before = words(&img);
    img.ant_line(0, 5, 5, 1, Color::rgba(100, 100, 100, 77), 0);
    assert_ne!(words(&img), before);
    img.ant_line(0, 5, 5, 1, Color::rgba(100, 100, 100, 77), 0);
    assert_eq!(words(&img), before);
}

#[test]
fn marquees_drawn_twice_go_away() {
    let mut img = Image::from_color(8, 8, Color::rgb(1, 2, 3));
    let before = words(&img);
    img.rect_marquee(1, 1, 6, 5, guide_color(), 3);
    assert_ne!(words(&img), before);
    img.rect_marquee(1, 1, 6, 5, guide_color(), 3);
    assert_eq!(words(&img), before);
    img.circle_marquee(4, 4, 3, guide_color());
    assert_ne!(words(&img), before);
    img.circle_marquee(4, 4, -3, guide_color());
    assert_eq!(words(&img), before);
}

#[test]
fn hollow_rect_draws_the_outline() {
    let mut img = Image::new(4, 4);
    let white = Color::rgb(255, 255, 255);
    img.rect_hollow(0, 0, 3, 3, white);
    assert_eq!(img.pixraw(0, 0), white.data);
    assert_eq!(img.pixraw(3, 2), white.data);
    assert_eq!(img.pixraw(1, 3), white.data);
    assert_eq!(img.pixraw(1, 1), 0xFF00_0000);
}

#[test]
fn selection_dash_patterns() {
    assert_eq!(RectSelect::new_select_rect(0, 0, Color::rgb(0, 0, 0), 1).style, 0);
    assert_eq!(RectSelect::new_select_rect(0, 0, Color::rgb(0, 0, 0), 3).style, 2);
    assert_eq!(RectSelect::new_select_rect(0, 0, Color::rgb(0, 0, 0), 0).style, 0);
    assert_eq!(RectSelect::select_rect(0, 0).style, 2);
}

#[test]
fn pattern_two_marquee_dashes_every_other_point() {
    let base = Color::rgb(10, 20, 30);
    let mut img = Image::from_color(6, 1, base);
    let s = RectSelect::new_select_rect(0, 0, guide_color(), 2);
    img.ant_line(0, 0, 5, 0, s.color, s.style);
    let changed: Vec<bool> = (0..6).map(|x| img.pixraw(x, 0) != base.data).collect();
    assert_eq!(changed, vec![true, false, true, false, true, false]);
}

#[test]
fn plain_circles_on_a_bare_image() {
    let white = Color::rgb(255, 255, 255);
    let black = Color::rgb(0, 0, 0);
    let mut ring = Image::from_color(5, 3, white);
    ring.circle(2, 1, 1, black);
    for (x, y) in [(1, 1), (3, 1), (2, 2), (2, 0)] {
        assert_eq!(ring.pixraw(x, y), black.data);
    }
    assert_eq!(ring.pixraw(2, 1), white.data);
    let mut dot = Image::from_color(3, 3, white);
    dot.circle(1, 1, 0, black);
    assert_eq!(dot.pixraw(1, 1), black.data);
    assert_eq!(dot.pixraw(0, 1), white.data);
}

#[test]
fn filled_circle_rows_are_clamped_into_the_image() {
    // the rows of a filled circle are filled rectangles, which a row below
    // the image clamps onto its last row
    let white = Color::rgb(255, 255, 255);
    let black = Color::rgb(0, 0, 0);
    let mut img = Image::from_color(5, 3, white);
    img.circle(2, 3, -1, black);
    let last: Vec<bool> = (0..5).map(|x| img.pixraw(x, 2) == black.data).collect();
    assert_eq!(last, vec![false, true, true, true, false]);
    assert_eq!(img.pixraw(2, 1), white.data);
}

#[test]
fn plain_line_on_a_bare_image() {
    let mut img = Image::new(4, 2);
    img.line(0, 0, 3, 1, Color::rgb(255, 255, 255));
    let lit: Vec<(i32, i32)> = (0..2)
        .flat_map(|y| (0..4).map(move |x| (x, y)))
        .filter(|&(x, y)| img.pixraw(x, y) == 0xFFFF_FFFF)
        .collect();
    assert_eq!(lit, vec![(0, 0), (1, 0), (2, 1), (3, 1)]);
}
