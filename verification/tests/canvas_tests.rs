use pastel::canvas::{Canvas, Rect, WidgetEvent, UNDODEPTH};
use pastel::color::Color;
use pastel::image::Image;
use pastel::transform::Transform;

fn words(c: &Canvas) -> Vec<u32> {
    c.image.data().iter().map(|p| p.data).collect()
}

#[test]
fn new_canvas_is_black_with_its_rect() {
    let c = Canvas::new(3, 2);
    assert_eq!(c.width(), 3);
    assert_eq!(c.height(), 2);
    assert_eq!((c.rect.x, c.rect.y, c.rect.width, c.rect.height), (0, 0, 3, 2));
    assert!(words(&c).iter().all(|w| *w == 0xFF00_0000));
    assert!(!c.mask_flag());
}

#[test]
fn undo_brings_back_the_saved_image() {
    let mut c = Canvas::from_color(2, 2, Color::rgb(10, 10, 10));
    let before = words(&c);
    c.undo_save();
    c.pixel(0, 0, Color::rgb(200, 0, 0));
    assert_ne!(words(&c), before);
    c.undo();
    assert_eq!(words(&c), before);
}

#[test]
fn undo_on_the_first_image_does_nothing() {
    let mut c = Canvas::from_color(2, 2, Color::rgb(10, 10, 10));
    let before = words(&c);
    c.undo();
    assert_eq!(words(&c), before);
}

#[test]
fn undo_stack_keeps_at_most_undodepth_images() {
    let mut c = Canvas::from_color(1, 1, Color::rgb(0, 0, 1));
    for k in 0..(UNDODEPTH as u8 + 5) {
        c.undo_save();
        c.pixel(0, 0, Color::rgb(0, 0, k + 2));
    }
    let mut undone = 0;
    loop {
        let before = words(&c);
        c.undo();
        if words(&c) == before {
            break;
        }
        undone += 1;
    }
    assert_eq!(undone, UNDODEPTH - 1);
}

#[test]
fn clear_paints_white_and_saves_for_undo() {
    let mut c = Canvas::new(2, 1);
    c.clear();
    assert!(words(&c).iter().all(|w| *w == 0xFFFF_FFFF));
    c.undo();
    assert!(words(&c).iter().all(|w| *w == 0xFF00_0000));
}

#[test]
fn drawing_primitives_through_the_canvas() {
    let mut c = Canvas::new(5, 5);
    let white = Color::rgb(255, 255, 255);
    c.line(0, 0, 4, 0, white);
    assert!((0..5).all(|x| c.image.pixraw(x, 0) == white.data));
    c.circle(2, 2, 1, white);
    assert_eq!(c.image.pixraw(1, 2), white.data);
    assert_eq!(c.image.pixraw(2, 2), 0xFF00_0000);
    c.rect(0, 3, 2, 1, white);
    assert_eq!(c.image.pixraw(2, 4), white.data);
    c.brush_line(4, 4, 4, 4, 0, white);
    assert_eq!(c.image.pixraw(4, 4), white.data);
    let mut d = Canvas::new(6, 6);
    d.rect_line(0, 0, 1, 0, 1, 1, white);
    assert_eq!(d.image.pixraw(2, 1), white.data);
}

#[test]
fn mask_cuts_the_alpha_of_painting() {
    let mut c = Canvas::from_color(2, 1, Color::rgb(0, 0, 255));
    // paint a black spot on the mask
    c.paint_on_mask();
    assert!(c.mask_flag());
    c.pixel(0, 0, Color::rgb(0, 0, 0));
    c.paint_on_mask();
    assert!(!c.mask_flag());
    // the image is back, and the mask now applies
    assert_eq!(c.image.pixraw(0, 0), Color::rgb(0, 0, 255).data);
    c.pixel(0, 0, Color::rgb(255, 255, 255));
    c.pixel(1, 0, Color::rgb(255, 255, 255));
    assert_eq!(c.image.pixraw(0, 0), Color::rgb(0, 0, 255).data);
    assert_eq!(c.image.pixraw(1, 0), 0xFFFF_FFFF);
    c.enable_mask(false);
    c.pixel(0, 0, Color::rgb(255, 255, 255));
    assert_eq!(c.image.pixraw(0, 0), 0xFFFF_FFFF);
}

#[test]
fn clear_mask_paints_the_mask_red() {
    let mut c = Canvas::new(1, 1);
    c.paint_on_mask();
    c.pixel(0, 0, Color::rgb(0, 0, 0));
    c.clear_mask();
    assert_eq!(c.image.pixraw(0, 0), Color::rgba(255, 0, 0, 50).data);
}

#[test]
fn fill_and_fill_mask_without_a_mask_agree() {
    let mut a = Canvas::from_color(3, 3, Color::rgb(255, 255, 255));
    a.pixel(1, 0, Color::rgb(0, 0, 0));
    a.pixel(1, 1, Color::rgb(0, 0, 0));
    a.pixel(1, 2, Color::rgb(0, 0, 0));
    let mut b = Canvas::from_color(3, 3, Color::rgb(255, 255, 255));
    b.pixel(1, 0, Color::rgb(0, 0, 0));
    b.pixel(1, 1, Color::rgb(0, 0, 0));
    b.pixel(1, 2, Color::rgb(0, 0, 0));
    a.fill(0, 0, Color::rgb(0, 255, 0));
    b.fill_mask(0, 0, Color::rgb(0, 255, 0));
    assert_eq!(words(&a), words(&b));
    assert_eq!(a.image.pixraw(0, 2), Color::rgb(0, 255, 0).data);
    assert_eq!(a.image.pixraw(2, 2), 0xFFFF_FFFF);
    a.undo();
    assert_eq!(a.image.pixraw(0, 2), 0xFFFF_FFFF);
}

#[test]
fn fill_mask_through_a_half_mask() {
    // a mask whose red is 128 keeps the bit 128 of an alpha of 255: the
    // fill paints with alpha 128
    let mut c = Canvas::from_color(2, 1, Color::rgb(255, 255, 255));
    c.paint_on_mask();
    c.pixel(0, 0, Color::rgb(128, 0, 0));
    c.pixel(1, 0, Color::rgb(128, 0, 0));
    c.paint_on_mask();
    c.fill_mask(0, 0, Color::rgb(0, 0, 0));
    let expect = pastel::color::blend(0xFFFF_FFFF, Color::rgba(0, 0, 0, 128).data);
    assert_eq!(c.image.pixraw(0, 0), expect);
    assert_eq!(c.image.pixraw(1, 0), expect);
}

#[test]
fn paste_selection_and_paste_buffer() {
    let mut c = Canvas::new(3, 3);
    let img = Image::from_data(1, 1, vec![Color::rgb(9, 9, 9)]).unwrap();
    c.paste_selection(1, 1, 255, img);
    assert_eq!(c.image.pixraw(1, 1), Color::rgb(9, 9, 9).data);
    c.copy_buffer = Image::from_data(1, 1, vec![Color::rgb(7, 7, 7)]).unwrap();
    c.paste_buffer(0, 0, 255);
    assert_eq!(c.image.pixraw(0, 0), Color::rgb(7, 7, 7).data);
}

#[test]
fn rect_contains_its_corner_not_its_far_edge() {
    let r = Rect::new(2, 3, 4, 5);
    assert!(r.contains(2, 3));
    assert!(r.contains(5, 7));
    assert!(!r.contains(6, 3));
    assert!(!r.contains(2, 8));
    assert!(!r.contains(1, 3));
}

#[test]
fn canvas_event_reports_clicks_relative_to_its_rect() {
    let mut c = Canvas::new(4, 4);
    c.rect = Rect::new(10, 20, 4, 4);
    let r = c.event(WidgetEvent::Mouse { x: 11, y: 22, left: true, right: false, middle: false });
    assert_eq!(r.click, Some((1, 2)));
    assert_eq!(r.right_click, None);
    assert!(r.redraw);
    let r = c.event(WidgetEvent::Mouse { x: 11, y: 22, left: false, right: false, middle: false });
    assert!(r.clear_click);
    assert!(!r.redraw);
    let r = c.event(WidgetEvent::Mouse { x: 0, y: 0, left: true, right: true, middle: false });
    assert_eq!(r.click, None);
    assert!(!r.redraw);
}

#[test]
fn canvas_event_undo_and_shortcuts() {
    let mut c = Canvas::new(1, 1);
    c.undo_save();
    c.pixel(0, 0, Color::rgb(1, 2, 3));
    let r = c.event(WidgetEvent::Text { c: 'z' });
    assert!(r.redraw);
    assert_eq!(r.shortcut, None);
    assert_eq!(c.image.pixraw(0, 0), 0xFF00_0000);
    let r = c.event(WidgetEvent::Text { c: 'v' });
    assert_eq!(r.shortcut, Some('v'));
    assert!(!r.redraw);
    let r = c.event(WidgetEvent::Text { c: 'a' });
    assert_eq!(r.shortcut, None);
}

#[test]
fn transformation_flips_the_canvas() {
    let mut c = Canvas::new(2, 1);
    c.pixel(0, 0, Color::rgb(1, 1, 1));
    c.pixel(1, 0, Color::rgb(2, 2, 2));
    c.transformation(Transform::FlipHorizontal);
    assert_eq!(c.image.pixraw(0, 0), Color::rgb(2, 2, 2).data);
    assert_eq!(c.image.pixraw(1, 0), Color::rgb(1, 1, 1).data);
    c.undo();
    assert_eq!(c.image.pixraw(0, 0), Color::rgb(1, 1, 1).data);
}

#[test]
fn quarter_turn_clears_first() {
    let mut c = Canvas::from_color(2, 1, Color::rgb(255, 255, 255));
    c.pixel(0, 0, Color::rgb(1, 1, 1));
    c.transformation(Transform::Rotate90);
    assert_eq!(c.image.pixraw(0, 0), Color::rgb(1, 1, 1).data);
    assert_eq!(c.image.pixraw(1, 0), 0xFF00_0000);
}

#[test]
fn trans_selection_inverts_a_block() {
    let mut c = Canvas::from_color(3, 1, Color::rgb(10, 20, 30));
    c.trans_selection(Rect::new(1, 0, 2, 1), Transform::Invert);
    assert_eq!(c.image.pixraw(0, 0), Color::rgb(10, 20, 30).data);
    assert_eq!(c.image.pixraw(1, 0), Color::rgb(245, 235, 225).data);
    assert_eq!(c.image.pixraw(2, 0), Color::rgb(245, 235, 225).data);
}

#[test]
fn trans_selection_resizes_a_block() {
    let mut c = Canvas::from_color(4, 2, Color::rgb(255, 255, 255));
    c.pixel(0, 0, Color::rgb(5, 6, 7));
    c.trans_selection(Rect::new(0, 0, 1, 1), Transform::Resize { width: 2, height: 2 });
    assert_eq!(c.image.pixraw(0, 0), Color::rgb(5, 6, 7).data);
    assert_eq!(c.image.pixraw(1, 0), Color::rgb(5, 6, 7).data);
    assert_eq!(c.image.pixraw(0, 1), Color::rgb(5, 6, 7).data);
    assert_eq!(c.image.pixraw(1, 1), Color::rgb(5, 6, 7).data);
    assert_eq!(c.image.pixraw(2, 0), Color::rgb(255, 255, 255).data);
}

#[test]
fn save_buffer_gives_rgba_bytes() {
    let mut c = Canvas::new(2, 1);
    c.pixel(0, 0, Color::rgba(1, 2, 3, 255));
    let (w, h, bytes) = c.save_buffer();
    assert_eq!((w, h), (2, 1));
    assert_eq!(bytes, vec![1, 2, 3, 255, 0, 0, 0, 255]);
}

#[test]
fn fill_mask_searches_the_rows_above_and_below() {
    let mut c = Canvas::from_color(3, 3, Color::rgb(255, 255, 255));
    c.paint_on_mask();
    for y in 0..3 {
        for x in 0..3 {
            c.pixel(x, y, Color::rgb(128, 0, 0));
        }
    }
    c.paint_on_mask();
    c.fill_mask(1, 1, Color::rgb(0, 0, 0));
    let expect = pastel::color::blend(0xFFFF_FFFF, Color::rgba(0, 0, 0, 128).data);
    assert!(words(&c).iter().all(|w| *w == expect));
}

#[test]
fn brush_of_radius_zero_draws_the_line() {
    let mut a = Canvas::from_color(5, 4, Color::rgb(255, 255, 255));
    let mut b = Canvas::from_color(5, 4, Color::rgb(255, 255, 255));
    a.brush_line(0, 0, 4, 3, 0, Color::rgb(1, 2, 3));
    b.line(0, 0, 4, 3, Color::rgb(1, 2, 3));
    assert_eq!(words(&a), words(&b));
}
