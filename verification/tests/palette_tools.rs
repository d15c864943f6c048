use pastel::color::Color;
use pastel::palette::{Palette, SWATCH_MAX, SWATCH_SIZE};
use pastel::text::split_commas;
use pastel::tools::{property_get, property_set, IntProperty, MyTrait, Property, Tools};

fn prepared() -> Palette {
    let mut p = Palette::new(0, 10, 480, 48);
    let positions = p.prepare();
    assert_eq!(positions.len(), 16 + SWATCH_MAX);
    assert_eq!(positions[3], (3 * SWATCH_SIZE, 10));
    p
}

#[test]
fn prepare_adds_fixed_and_white_swatches() {
    let p = prepared();
    assert_eq!(p.count(), 82);
    assert_eq!(p.swatches[3].data, Color::rgb(255, 0, 0).data);
    assert_eq!(p.swatches[16].data, Color::rgb(255, 255, 255).data);
    assert_eq!(p.order, 16);
}

#[test]
fn draw_places_swatches_in_a_row() {
    let p = prepared();
    let placed = p.draw();
    assert_eq!(placed.len(), 82);
    assert_eq!((placed[2].0, placed[2].1), (48, 10));
    assert_eq!(placed[2].2.data, Color::rgb(128, 128, 128).data);
}

#[test]
fn add_wraps_to_the_second_row() {
    let mut p = Palette::new(0, 0, 48, 48);
    assert_eq!(p.add(Color::rgb(1, 1, 1)), (0, 0));
    assert_eq!(p.add(Color::rgb(1, 1, 1)), (24, 0));
    assert_eq!(p.add(Color::rgb(1, 1, 1)), (24, 24));
    assert_eq!(p.count(), 3);
}

#[test]
fn next_counts_up_to_the_last_swatch() {
    let mut p = Palette::new(0, 0, 10, 10);
    assert_eq!(p.next(), 16);
    assert_eq!(p.next(), 17);
    p.order = SWATCH_MAX;
    assert_eq!(p.next(), SWATCH_MAX);
    assert_eq!(p.order, SWATCH_MAX);
}

#[test]
fn save_writes_custom_swatches_comma_separated() {
    let mut p = prepared();
    p.change(16, Color::rgb(1, 2, 3));
    let text = p.save();
    assert!(text.starts_with("1,2,3,255,255,255,"));
    assert!(!text.ends_with(','));
    assert_eq!(text.split(',').count(), 3 * (16 + SWATCH_MAX - 16));
}

#[test]
fn save_then_load_restores_the_swatches() {
    let mut p = prepared();
    p.change(16, Color::rgb(1, 2, 3));
    p.change(20, Color::rgb(40, 50, 60));
    let text = p.save();
    let mut q = prepared();
    q.load(&text);
    assert_eq!(q.swatches[16].data, Color::rgb(1, 2, 3).data);
    assert_eq!(q.swatches[20].data, Color::rgb(40, 50, 60).data);
    assert_eq!(q.swatches[21].data, Color::rgb(255, 255, 255).data);
    assert_eq!(q.order, 17);
}

#[test]
fn reset_whitens_custom_swatches() {
    let mut p = prepared();
    p.change(16, Color::rgb(1, 2, 3));
    p.change(2, Color::rgb(9, 9, 9));
    p.reset();
    assert_eq!(p.swatches[16].data, Color::rgb(255, 255, 255).data);
    assert_eq!(p.swatches[2].data, Color::rgb(9, 9, 9).data);
    assert_eq!(p.order, 16);
    assert_eq!(p.next(), 16);
}

#[test]
fn loadold_reads_numbers_or_refuses() {
    let p = Palette::new(0, 0, 1, 1);
    assert_eq!(p.loadold("1,2,3"), Some(vec![1, 2, 3]));
    assert_eq!(p.loadold("+7"), Some(vec![7]));
    assert_eq!(p.loadold("1,x,3"), None);
    assert_eq!(p.loadold("256"), None);
    assert_eq!(p.loadold("1,,3"), None);
    assert_eq!(p.loadold(""), None);
}

#[test]
fn split_commas_keeps_empty_pieces() {
    assert_eq!(split_commas("a,,b"), vec!["a".to_string(), String::new(), "b".to_string()]);
    assert_eq!(split_commas(""), vec![String::new()]);
    assert_eq!(split_commas("x,"), vec!["x".to_string(), String::new()]);
}

fn tools() -> Tools {
    let mut t = Tools::new();
    t.insert("pen", vec![Property::new("size", "3"), Property::new("opacity", "100")]);
    t.insert("tool", vec![Property::new("Current", "pen")]);
    t
}

#[test]
fn tool_properties_read_as_numbers_and_text() {
    let t = tools();
    assert_eq!(t.get("pen", "size"), Some(3));
    assert_eq!(t.get("pen", "shape"), None);
    assert_eq!(t.get_str("pen", "opacity"), Some("100".to_string()));
    assert_eq!(t.current(), "pen".to_string());
}

#[test]
fn setting_a_property_then_reading_it_back() {
    let mut t = tools();
    t.set("pen", "size", 12);
    assert_eq!(t.get("pen", "size"), Some(12));
    t.set("pen", "size", -4);
    assert_eq!(t.get_str("pen", "size"), Some("-4".to_string()));
    t.set("pen", "opacity", "55");
    assert_eq!(t.get("pen", "opacity"), Some(55));
    t.set("pen", "missing", 1);
    assert_eq!(t.get("pen", "missing"), None);
}

#[test]
fn select_changes_the_current_tool() {
    let mut t = tools();
    t.select("fill");
    assert_eq!(t.current(), "fill".to_string());
}

#[test]
fn insert_replaces_a_tool_of_the_same_name() {
    let mut t = tools();
    t.insert("pen", vec![Property::new("size", "8")]);
    assert_eq!(t.get("pen", "size"), Some(8));
    assert_eq!(t.get("pen", "opacity"), None);
}

#[test]
fn property_setters() {
    let mut p = Property::new("a", "1");
    p.name("b");
    p.value("2");
    assert_eq!(p.get_name(), "b");
    assert_eq!(p.get_value(), "2");
}

#[test]
fn values_as_text() {
    assert_eq!(5i32.to_text(), "5");
    assert_eq!((-120i32).to_text(), "-120");
    assert_eq!(i32::MIN.to_text(), "-2147483648");
    assert_eq!("abc".to_text(), "abc");
    assert_eq!(String::from("xy").to_text(), "xy");
}

#[test]
fn int_properties_get_and_set() {
    let mut ps = vec![IntProperty::new("size", 3), IntProperty::new("size", 4), IntProperty::new("alpha", 9)];
    assert_eq!(property_get(&ps, "size"), Some(3));
    assert_eq!(property_get(&ps, "none"), None);
    property_set(&mut ps, "size", 7);
    assert_eq!(property_get(&ps, "size"), Some(7));
    assert_eq!(property_get(&ps, "alpha"), Some(9));
    let mut q = IntProperty::new("x", 1);
    q.name("y");
    q.value(2);
    let qs = vec![q];
    assert_eq!(property_get(&qs, "y"), Some(2));
}
