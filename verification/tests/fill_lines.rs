use pastel::color::Color;
use pastel::image::Image;
use pastel::lines::line_points_of;
use pastel::shapes::{circle_points_of, rect_points_of};

fn words(img: &Image) -> Vec<u32> {
    img.data().iter().map(|c| c.data).collect()
}

/// A 4 by 3 white image with a black wall in column 2.
fn walled() -> Image {
    let mut img = Image::from_color(4, 3, Color::rgb(255, 255, 255));
    for y in 0..3 {
        img.pixel(2, y, Color::rgb(0, 0, 0));
    }
    img
}

#[test]
fn scanline_fill_stops_at_the_wall() {
    let mut img = walled();
    let red = Color::rgb(255, 0, 0).data;
    let white = Color::rgb(255, 255, 255).data;
    let black = Color::rgb(0, 0, 0).data;
    img.flood_fill_scanline(0, 0, red, white);
    assert_eq!(
        words(&img),
        vec![red, red, black, white, red, red, black, white, red, red, black, white]
    );
}

#[test]
fn fill_takes_the_start_color() {
    let mut img = walled();
    img.fill(3, 1, Color::rgb(0, 255, 0));
    let green = Color::rgb(0, 255, 0).data;
    assert_eq!(img.pixraw(3, 0), green);
    assert_eq!(img.pixraw(3, 2), green);
    assert_eq!(img.pixraw(0, 0), Color::rgb(255, 255, 255).data);
}

#[test]
fn fill_with_the_same_color_changes_nothing() {
    let mut img = walled();
    let before = words(&img);
    img.fill(0, 0, Color::rgb(255, 255, 255));
    assert_eq!(words(&img), before);
}

#[test]
fn scanline_fill_from_other_color_changes_nothing() {
    let mut img = walled();
    let before = words(&img);
    img.flood_fill_scanline(2, 0, Color::rgb(1, 1, 1).data, Color::rgb(255, 255, 255).data);
    assert_eq!(words(&img), before);
}

#[test]
fn four_way_fill_matches_scanline_fill() {
    let mut a = walled();
    let mut b = walled();
    let red = Color::rgb(255, 0, 0).data;
    let white = Color::rgb(255, 255, 255).data;
    a.flood_fill4(1, 2, red, white);
    b.flood_fill_scanline(1, 2, red, white);
    assert_eq!(words(&a), words(&b));
}

#[test]
fn line_fill_skips_column_zero_start() {
    let mut img = walled();
    let before = words(&img);
    let red = Color::rgb(255, 0, 0).data;
    img.flood_fill_line(0, 1, red, Color::rgb(255, 255, 255).data);
    assert_eq!(words(&img), before);
    img.flood_fill_line(1, 1, red, Color::rgb(255, 255, 255).data);
    assert_eq!(img.pixraw(0, 0), red);
    assert_eq!(img.pixraw(1, 2), red);
    assert_eq!(img.pixraw(3, 1), Color::rgb(255, 255, 255).data);
}

#[test]
fn line_points_follow_bresenham() {
    assert_eq!(line_points_of(0, 0, 3, 1), vec![(0, 0), (1, 0), (2, 1), (3, 1)]);
    assert_eq!(line_points_of(2, 2, 0, 0), vec![(2, 2), (2, 1), (1, 1), (1, 0), (0, 0)]);
    assert_eq!(line_points_of(5, 5, 5, 5), vec![(5, 5)]);
}

#[test]
fn line_points_start_and_end_at_the_ends() {
    let p = line_points_of(-3, 7, 10, -2);
    assert_eq!(p[0], (-3, 7));
    assert_eq!(*p.last().unwrap(), (10, -2));
    for w in p.windows(2) {
        assert!((w[0].0 - w[1].0).abs() <= 1 && (w[0].1 - w[1].1).abs() <= 1);
    }
}

#[test]
fn circle_points_of_radius_one() {
    let p = circle_points_of(0, 0, 1);
    assert_eq!(p, vec![(-1, 0), (1, 0), (0, 1), (0, 1), (-1, 0), (1, 0), (0, -1), (0, -1)]);
    assert_eq!(circle_points_of(4, 4, 0), vec![(4, 4)]);
}

#[test]
fn filled_circle_covers_its_center_row() {
    let p = circle_points_of(0, 0, -2);
    for x in -2..=2 {
        assert!(p.contains(&(x, 0)));
    }
}

#[test]
fn rect_points_cover_the_outline() {
    let p = rect_points_of(0, 0, 2, 1);
    for q in [(0, 0), (1, 0), (2, 0), (0, 1), (1, 1), (2, 1)] {
        assert!(p.contains(&q));
    }
}

#[test]
fn scanline_fill_covers_a_winding_region() {
    // a white path winding between black walls
    let b = Color::rgb(0, 0, 0);
    let mut img = Image::from_color(5, 5, Color::rgb(255, 255, 255));
    for (x, y) in [(1, 0), (1, 1), (1, 2), (1, 3), (3, 1), (3, 2), (3, 3), (3, 4)] {
        img.pixel(x, y, b);
    }
    let red = Color::rgb(255, 0, 0).data;
    img.flood_fill_scanline(0, 0, red, Color::rgb(255, 255, 255).data);
    for (x, y) in [(0, 0), (0, 4), (1, 4), (2, 4), (2, 0), (3, 0), (4, 0), (4, 4)] {
        assert_eq!(img.pixraw(x, y), red, "pixel ({}, {})", x, y);
    }
    assert_eq!(img.pixraw(1, 0), b.data);
}

#[test]
fn scanline_fill_passes_along_pixels_of_the_result_color() {
    let white = Color::rgb(255, 255, 255).data;
    let red = Color::rgb(255, 0, 0);
    let black = Color::rgb(0, 0, 0);
    let row0 = [black, black, black, Color { data: white }];
    let row1 = [Color { data: white }, Color { data: white }, red, red];
    let data: Vec<Color> = row0.iter().chain(row1.iter()).copied().collect();
    let mut scan = Image::from_data(4, 2, data.clone()).unwrap();
    scan.flood_fill_scanline(0, 1, red.data, white);
    // the top right pixel is reached along the red pixels of the row below
    assert_eq!(scan.pixraw(3, 0), red.data);
    let mut four = Image::from_data(4, 2, data).unwrap();
    four.flood_fill4(0, 1, red.data, white);
    assert_eq!(four.pixraw(3, 0), white);
    assert_eq!(four.pixraw(1, 1), red.data);
}

#[test]
fn scanline_fill_keeps_to_the_start_region() {
    let w = Color::rgb(255, 255, 255);
    let b = Color::rgb(0, 0, 0);
    let r = Color::rgb(255, 0, 0);
    let mut img = Image::from_data(3, 3, vec![w, b, w, w, b, b, w, w, b]).unwrap();
    img.flood_fill_scanline(1, 2, r.data, w.data);
    let d: Vec<u32> = img.data().iter().map(|c| c.data).collect();
    assert_eq!(d, vec![r.data, b.data, w.data, r.data, b.data, b.data, r.data, r.data, b.data]);
}

#[test]
fn fills_with_a_transparent_color_change_nothing() {
    let w = Color::rgb(255, 255, 255);
    let clear = Color::rgba(255, 0, 0, 0);
    let mut img = Image::from_color(3, 2, w);
    img.flood_fill_scanline(1, 0, clear.data, w.data);
    img.flood_fill4(1, 0, clear.data, w.data);
    img.flood_fill_line(1, 0, clear.data, w.data);
    img.fill(0, 1, clear);
    assert!(img.data().iter().all(|c| c.data == w.data));
}
