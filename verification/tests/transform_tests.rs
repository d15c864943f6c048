use pastel::color::Color;
use pastel::transform::{
    bytes_to_colors, colors_to_bytes, rgba_bytes, trans_from_slice, transform_code, Transform, TransformCode,
};

fn words(v: &[Color]) -> Vec<u32> {
    v.iter().map(|c| c.data).collect()
}

fn grid() -> Vec<Color> {
    // 3 wide, 2 high: a b c / d e f
    (1..=6u8).map(|k| Color::rgb(k, 10 * k, 100 + k)).collect()
}

#[test]
fn bytes_lie_in_memory_order() {
    let c = [Color::rgba(1, 2, 3, 4)];
    assert_eq!(colors_to_bytes(&c), vec![3, 2, 1, 4]);
    assert_eq!(rgba_bytes(&c), vec![1, 2, 3, 4]);
    assert_eq!(words(&bytes_to_colors(&[3, 2, 1, 4])), vec![Color::rgba(1, 2, 3, 4).data]);
}

#[test]
fn bytes_round_trip() {
    let g = grid();
    assert_eq!(words(&bytes_to_colors(&colors_to_bytes(&g))), words(&g));
}

#[test]
fn trailing_bytes_are_ignored() {
    assert_eq!(bytes_to_colors(&[3, 2, 1, 4, 9, 9]).len(), 1);
}

#[test]
fn flips_and_quarter_turn() {
    let g = grid();
    let w = words(&g);
    let v = words(&trans_from_slice(&g, 3, 2, Transform::FlipVertical));
    assert_eq!(v, vec![w[3], w[4], w[5], w[0], w[1], w[2]]);
    let h = words(&trans_from_slice(&g, 3, 2, Transform::FlipHorizontal));
    assert_eq!(h, vec![w[2], w[1], w[0], w[5], w[4], w[3]]);
    // a quarter turn clockwise: 2 wide, 3 high: d a / e b / f c
    let r = words(&trans_from_slice(&g, 3, 2, Transform::Rotate90));
    assert_eq!(r, vec![w[3], w[0], w[4], w[1], w[5], w[2]]);
}

#[test]
fn invert_brighten_darken() {
    let g = [Color::rgba(250, 5, 0, 77)];
    assert_eq!(words(&trans_from_slice(&g, 1, 1, Transform::Invert)), vec![Color::rgba(5, 250, 255, 77).data]);
    assert_eq!(words(&trans_from_slice(&g, 1, 1, Transform::Brighten)), vec![Color::rgba(255, 15, 10, 77).data]);
    assert_eq!(words(&trans_from_slice(&g, 1, 1, Transform::Darken)), vec![Color::rgba(240, 0, 0, 77).data]);
}

#[test]
fn resize_and_keep() {
    let g = [Color::rgb(9, 8, 7)];
    let r = trans_from_slice(&g, 1, 1, Transform::Resize { width: 2, height: 3 });
    assert_eq!(words(&r), vec![Color::rgb(9, 8, 7).data; 6]);
    let k = trans_from_slice(&grid(), 3, 2, Transform::Keep);
    assert_eq!(words(&k), words(&grid()));
}

#[test]
fn codes_name_transformations() {
    assert!(matches!(transform_code("flip_vertical", 0, 0), TransformCode::Plain(Transform::FlipVertical)));
    assert!(matches!(transform_code("rotate90", 0, 0), TransformCode::Plain(Transform::Rotate90)));
    assert!(matches!(transform_code("blur", 0, 0), TransformCode::Blur));
    assert!(matches!(transform_code("grayscale", 0, 0), TransformCode::Grayscale));
    assert!(matches!(
        transform_code("resize", 7, -1),
        TransformCode::Plain(Transform::Resize { width: 7, height: u32::MAX })
    ));
    assert!(matches!(transform_code("nothing", 0, 0), TransformCode::Plain(Transform::Keep)));
}

#[test]
fn inverting_twice_gives_the_picture_back() {
    let g = grid();
    let once = trans_from_slice(&g, 3, 2, Transform::Invert);
    let twice = trans_from_slice(&once, 3, 2, Transform::Invert);
    assert_eq!(words(&twice), words(&g));
}
