use pastel::color::{blend, Color};
use pastel::image::Image;

#[test]
fn color_components_pack_and_unpack() {
    let c = Color::rgba(1, 2, 3, 4);
    assert_eq!(c.data, 0x0401_0203);
    assert_eq!((c.r(), c.g(), c.b(), c.a()), (1, 2, 3, 4));
    assert_eq!(Color::rgb(10, 20, 30).data, 0xFF0A_141E);
}

#[test]
fn blend_opaque_transparent_and_half() {
    assert_eq!(blend(0xFF00_0000, 0xFF12_3456), 0xFF12_3456);
    assert_eq!(blend(0xFF00_0000, 0x0012_3456), 0xFF00_0000);
    assert_eq!(blend(0xFF00_0000, 0x80FF_FFFF), 0xFE7F_7F7F);
}

#[test]
fn new_image_is_opaque_black() {
    let img = Image::new(3, 2);
    assert_eq!(img.width(), 3);
    assert_eq!(img.height(), 2);
    assert_eq!(img.data().len(), 6);
    assert!(img.data().iter().all(|c| c.data == 0xFF00_0000));
}

#[test]
fn from_data_checks_the_length() {
    let three = vec![Color::rgb(1, 1, 1); 3];
    assert!(Image::from_data(2, 2, three).is_err());
    let four = vec![Color::rgb(1, 1, 1); 4];
    let img = Image::from_data(2, 2, four).unwrap();
    assert_eq!(img.data()[3].data, Color::rgb(1, 1, 1).data);
}

#[test]
fn pixcol_reads_safely_inside_the_picture_only() {
    let mut img = Image::new(2, 2);
    img.pixel(0, 1, Color::rgb(9, 9, 9));
    // (2, 0) lies past the row end: off the picture, not the pixel (0, 1)
    assert_eq!(img.pixcol(2, 0).data, 0);
    assert_eq!(img.pixcol(-1, 0).data, 0);
    assert_eq!(img.pixcol(0, 5).data, 0);
    assert_eq!(img.pixraw(0, 1), Color::rgb(9, 9, 9).data);
}

#[test]
fn pixel_outside_changes_nothing() {
    let mut img = Image::new(2, 2);
    img.pixel(2, 0, Color::rgb(9, 9, 9));
    img.pixel(-1, 1, Color::rgb(9, 9, 9));
    assert!(img.data().iter().all(|c| c.data == 0xFF00_0000));
}

#[test]
fn pixel_blends_translucent_colors() {
    let mut img = Image::new(1, 1);
    img.pixel(0, 0, Color::rgba(255, 255, 255, 128));
    assert_eq!(img.pixraw(0, 0), 0xFE7F_7F7F);
}

#[test]
fn copy_selection_turns_white_transparent() {
    let mut img = Image::from_color(3, 3, Color::rgb(255, 255, 255));
    img.pixel(1, 1, Color::rgb(1, 2, 3));
    let sel = img.copy_selection(1, 0, 2, 2);
    assert_eq!(sel.width(), 2);
    assert_eq!(sel.height(), 2);
    let d: Vec<u32> = sel.data().iter().map(|c| c.data).collect();
    assert_eq!(d, vec![0, 0, Color::rgb(1, 2, 3).data, 0]);
}

#[test]
fn paste_selection_starts_at_corner_and_sets_opacity() {
    let mut img = Image::from_color(3, 3, Color::rgb(0, 0, 0));
    let buf = Image::from_data(1, 1, vec![Color::rgb(200, 100, 50)]).unwrap();
    img.paste_selection(1, 1, 255, buf);
    assert_eq!(img.pixraw(1, 1), Color::rgb(200, 100, 50).data);
    let white = Color::rgb(255, 255, 255);
    let red = Color::rgba(255, 0, 0, 255);
    let mut w = Image::from_color(3, 3, white);
    let block = Image::from_data(2, 2, vec![Color::rgba(255, 0, 0, 10); 4]).unwrap();
    w.paste_selection(1, 1, 255, block);
    let d: Vec<u32> = w.data().iter().map(|c| c.data).collect();
    assert_eq!(d, vec![white.data, white.data, white.data, white.data, red.data, red.data, white.data, red.data, red.data]);
    let clear = Image::from_data(1, 1, vec![Color::rgba(200, 100, 50, 0)]).unwrap();
    img.paste_selection(0, 0, 255, clear);
    assert_eq!(img.pixraw(0, 0), Color::rgb(0, 0, 0).data);
}

#[test]
fn colorize_keeps_alpha() {
    let img = Image::from_data(2, 1, vec![Color::rgba(1, 1, 1, 10), Color::rgba(2, 2, 2, 200)]).unwrap();
    let c = img.colorize(Color::rgb(7, 8, 9), 50);
    assert_eq!(c.data()[0].data, Color::rgba(7, 8, 9, 10).data);
    assert_eq!(c.data()[1].data, Color::rgba(7, 8, 9, 200).data);
}

#[test]
fn image_blit_clips_and_skips_outside_corner() {
    let mut img = Image::new(3, 2);
    let block = vec![Color::rgb(1, 1, 1), Color::rgb(2, 2, 2), Color::rgb(3, 3, 3), Color::rgb(4, 4, 4)];
    img.image(2, 0, 2, 2, &block);
    assert_eq!(img.pixraw(2, 0), Color::rgb(1, 1, 1).data);
    assert_eq!(img.pixraw(2, 1), Color::rgb(3, 3, 3).data);
    assert_eq!(img.pixraw(1, 0), 0xFF00_0000);
    let mut img2 = Image::new(2, 2);
    img2.image(-1, 0, 2, 2, &block);
    assert!(img2.data().iter().all(|c| c.data == 0xFF00_0000));
}

#[test]
fn filled_rect_is_clamped() {
    let mut img = Image::new(3, 3);
    img.rect(1, 1, 5, 1, Color::rgb(255, 255, 255));
    let d: Vec<u32> = img.data().iter().map(|c| c.data).collect();
    let (b, w) = (0xFF00_0000u32, 0xFFFF_FFFFu32);
    assert_eq!(d, vec![b, b, b, b, w, w, b, b, b]);
    // a rectangle starting right of the image still covers the last column
    let mut img2 = Image::new(2, 1);
    img2.rect(5, 0, 1, 1, Color::rgb(255, 255, 255));
    assert_eq!(img2.pixraw(1, 0), w);
    assert_eq!(img2.pixraw(0, 0), b);
}

#[test]
fn pixels_off_the_picture_read_transparent_black() {
    let img = Image::from_data(2, 2, vec![Color::rgb(1, 1, 1), Color::rgb(2, 2, 2), Color::rgb(3, 3, 3), Color::rgb(4, 4, 4)]).unwrap();
    assert_eq!(img.pixraw(2, 0), 0);
    assert_eq!(img.pixraw(-1, 1), 0);
    assert_eq!(img.pixraw(0, 2), 0);
    assert_eq!(img.pixraw(1, 1), Color::rgb(4, 4, 4).data);
}

#[test]
fn copy_then_paste_at_the_corner_restores() {
    let mut img = Image::from_data(
        3,
        2,
        vec![
            Color::rgb(1, 2, 3),
            Color::rgb(255, 255, 255),
            Color::rgba(9, 9, 9, 0),
            Color::rgb(4, 5, 6),
            Color::rgb(7, 8, 9),
            Color::rgb(10, 11, 12),
        ],
    )
    .unwrap();
    let before: Vec<u32> = img.data().iter().map(|c| c.data).collect();
    let buf = img.copy_selection(0, 0, 3, 2);
    img.paste_selection(0, 0, 255, buf);
    let after: Vec<u32> = img.data().iter().map(|c| c.data).collect();
    assert_eq!(after, before);
}

#[test]
fn a_second_opaque_fill_changes_nothing() {
    let mut img = Image::from_data(2, 1, vec![Color::rgb(0, 0, 0), Color::rgb(9, 9, 9)]).unwrap();
    img.fill(0, 0, Color::rgb(200, 0, 0));
    let once: Vec<u32> = img.data().iter().map(|c| c.data).collect();
    img.fill(0, 0, Color::rgb(200, 0, 0));
    let twice: Vec<u32> = img.data().iter().map(|c| c.data).collect();
    assert_eq!(once, twice);
    assert_eq!(img.pixraw(0, 0), Color::rgb(200, 0, 0).data);
}
