use dialer::label::{auto_size_from_rect_height, label_string, width};
use dialer::number_dialer::slot_shades;
use dialer::{
    create_val_string, get_new_state, get_new_value, val_string_len, value_glyph_slot_width,
    ButtonState, Decimal, Element, Labelable, LabelContext, MouseState, NumberDialerContext, Point,
    SlotShade, State,
};
use std::cmp::Ordering;

fn dec(mantissa: i64, scale: u8) -> Decimal {
    Decimal { mantissa, scale }
}

fn digits(val: Decimal, max: Decimal, precision: u8) -> String {
    create_val_string(val, val_string_len(max, precision), precision)
}

fn mouse(x: i64, y: i64, left: ButtonState) -> MouseState {
    MouseState { pos: Point::new(x, y), left }
}

#[test]
fn formats_three_with_two_places() {
    let max = dec(9999, 2);
    assert_eq!(val_string_len(max, 2), 5);
    assert_eq!(digits(dec(30, 1), max, 2), "03.00");
    assert_eq!(digits(dec(3, 0), max, 2), "03.00");
}

#[test]
fn drag_up_and_down_on_units_digit() {
    let (min, max) = (dec(0, 0), dec(9999, 2));
    let s = digits(dec(30, 1), max, 2);
    let up = get_new_value(dec(30, 1), min, max, 1, Ordering::Less, &s);
    assert!(up.eq_value(&dec(4, 0)));
    let s2 = digits(up, max, 2);
    assert_eq!(s2, "04.00");
    let down = get_new_value(up, min, max, 1, Ordering::Greater, &s2);
    assert_eq!(digits(down, max, 2), "03.00");
}

#[test]
fn drag_up_on_first_fraction_digit() {
    let (min, max) = (dec(0, 0), dec(9999, 2));
    let s = digits(dec(30, 1), max, 2);
    let up = get_new_value(dec(30, 1), min, max, 3, Ordering::Less, &s);
    assert_eq!(digits(up, max, 2), "03.10");
}

#[test]
fn drag_up_at_max_stays_at_max() {
    let (min, max) = (dec(0, 0), dec(9999, 2));
    let s = digits(max, max, 2);
    assert_eq!(s, "99.99");
    for idx in 0..5 {
        let up = get_new_value(max, min, max, idx, Ordering::Less, &s);
        assert_eq!(digits(up, max, 2), "99.99");
    }
}

#[test]
fn equal_move_keeps_value() {
    let s = String::from("05.00");
    let v = get_new_value(dec(5, 0), dec(0, 0), dec(9999, 2), 0, Ordering::Equal, &s);
    assert_eq!(v, dec(5, 0));
}

#[test]
fn drag_down_at_min_stays_at_min() {
    let (min, max) = (dec(0, 0), dec(99, 0));
    let s = digits(dec(3, 0), max, 0);
    assert_eq!(s, "03");
    let down = get_new_value(dec(3, 0), min, max, 0, Ordering::Greater, &s);
    assert_eq!(down, min);
    let units_up = get_new_value(dec(3, 0), min, max, 1, Ordering::Less, &s);
    assert_eq!(units_up, dec(4, 0));
}

#[test]
fn point_slot_counts_as_tenths() {
    let (min, max) = (dec(0, 0), dec(9999, 2));
    let s = digits(dec(3, 0), max, 2);
    let up = get_new_value(dec(3, 0), min, max, 2, Ordering::Less, &s);
    assert_eq!(digits(up, max, 2), "03.10");
    let up = get_new_value(dec(3, 0), min, max, 4, Ordering::Less, &s);
    assert_eq!(digits(up, max, 2), "03.01");
}

#[test]
fn fraction_is_cut_or_filled() {
    assert_eq!(create_val_string(dec(31415, 4), 0, 2), "3.14");
    assert_eq!(create_val_string(dec(31415, 4), 0, 0), "3");
    assert_eq!(create_val_string(dec(31, 1), 0, 3), "3.100");
    assert_eq!(create_val_string(dec(31, 0), 0, 0), "31");
    assert_eq!(create_val_string(dec(5, 3), 6, 3), "00.005");
    assert_eq!(create_val_string(dec(-25, 1), 6, 1), "00-2.5");
    assert_eq!(create_val_string(dec(12345, 0), 3, 0), "12345");
}

#[test]
fn slot_width_is_three_quarters() {
    assert_eq!(value_glyph_slot_width(24), 18);
    assert_eq!(value_glyph_slot_width(10), 7);
}

#[test]
fn state_transitions() {
    let up = mouse(0, 10, ButtonState::Up);
    let down = mouse(0, 12, ButtonState::Down);
    let g = Element::ValueGlyph(2, 5);
    assert_eq!(get_new_state(Some(g), State::Normal, up), State::Highlighted(g));
    assert_eq!(get_new_state(Some(g), State::Normal, down), State::Normal);
    assert_eq!(get_new_state(Some(Element::Rect), State::Highlighted(g), down), State::Clicked(Element::Rect));
    assert_eq!(get_new_state(Some(Element::Rect), State::Clicked(g), down), State::Clicked(Element::ValueGlyph(2, 12)));
    assert_eq!(get_new_state(None, State::Clicked(g), down), State::Clicked(Element::ValueGlyph(2, 12)));
    assert_eq!(get_new_state(None, State::Clicked(Element::LabelGlyphs), down), State::Clicked(Element::LabelGlyphs));
    assert_eq!(get_new_state(None, State::Clicked(g), up), State::Normal);
    assert_eq!(get_new_state(Some(Element::Rect), State::Clicked(g), up), State::Highlighted(Element::Rect));
    assert_eq!(get_new_state(None, State::Highlighted(g), down), State::Normal);
}

#[test]
fn slot_shades_follow_state() {
    let g = Element::ValueGlyph(1, 0);
    assert_eq!(
        slot_shades(State::Clicked(g), 3),
        vec![SlotShade::Plain, SlotShade::Clicked, SlotShade::Plain]
    );
    assert_eq!(slot_shades(State::Highlighted(g), 2), vec![SlotShade::Plain, SlotShade::Highlighted]);
    assert_eq!(slot_shades(State::Normal, 2), vec![SlotShade::Hidden, SlotShade::Hidden]);
}

#[test]
fn labels() {
    assert_eq!(label_string("Speed"), "Speed: ");
    assert_eq!(width(&vec![7, 8, 9]), 24);
    assert_eq!(width(&vec![]), 0);
    assert_eq!(auto_size_from_rect_height(852), 20);
    assert_eq!(auto_size_from_rect_height(853), 20);
    let l = LabelContext::new("x").size(12);
    assert_eq!(l.size, 12);
    assert_eq!(l.text, "x");
}

#[test]
fn new_clamps_value() {
    let d = NumberDialerContext::new(1, dec(150, 0), dec(0, 0), dec(9999, 2), 2);
    assert_eq!(d.value, dec(9999, 2));
    let d = NumberDialerContext::new(1, dec(-1, 1), dec(0, 0), dec(9999, 2), 2);
    assert_eq!(d.value, dec(0, 0));
    assert_eq!((d.width, d.height), (128, 48));
}

#[test]
fn frames_of_a_drag() {
    // 128 x 48 at the origin; five slots of 18 pixels, centred: x from 19 to 109.
    let d = NumberDialerContext::new(7, dec(3, 0), dec(0, 0), dec(9999, 2), 2);
    let f = d.update(State::Normal, mouse(0, 0, ButtonState::Up), 0);
    assert_eq!(f.hit, Some(Element::Rect));
    assert_eq!(f.label_pos, Point::new(19, 12));
    assert_eq!(f.val_string, "03.00");
    assert_eq!(f.state, State::Highlighted(Element::Rect));
    assert!(f.call_callback == false);

    let f = d.update(State::Normal, mouse(40, 20, ButtonState::Up), 0);
    assert_eq!(f.hit, Some(Element::ValueGlyph(1, 20)));
    assert_eq!(f.state, State::Highlighted(Element::ValueGlyph(1, 20)));
    assert_eq!(f.shades[1], SlotShade::Highlighted);

    let f = d.update(f.state, mouse(40, 20, ButtonState::Down), 0);
    assert_eq!(f.state, State::Clicked(Element::ValueGlyph(1, 20)));
    assert!(f.call_callback);
    assert_eq!(f.value, dec(3, 0));

    let f = d.update(f.state, mouse(40, 15, ButtonState::Down), 0);
    assert_eq!(f.state, State::Clicked(Element::ValueGlyph(1, 15)));
    assert_eq!(f.val_string, "04.00");
    assert!(f.call_callback);

    let f = d.update(State::Clicked(Element::ValueGlyph(1, 15)), mouse(500, 30, ButtonState::Down), 0);
    assert_eq!(f.hit, None);
    assert_eq!(f.val_string, "02.00");

    let f = d.update(State::Clicked(Element::ValueGlyph(1, 15)), mouse(500, 30, ButtonState::Up), 0);
    assert_eq!(f.state, State::Normal);
    assert_eq!(f.value, dec(3, 0));
}

#[test]
fn frame_with_label() {
    let d = NumberDialerContext::new(7, dec(3, 0), dec(0, 0), dec(9, 0), 0).label("n", 20);
    // one slot of 15 pixels after a 20 pixel label: x from 46 to 81.
    let f = d.update(State::Normal, mouse(50, 15, ButtonState::Up), 20);
    assert_eq!(f.label_pos, Point::new(46, 12));
    assert_eq!(f.hit, Some(Element::LabelGlyphs));
    assert_eq!(f.val_string_pos, Point::new(66, 12));
    let f = d.update(State::Normal, mouse(70, 15, ButtonState::Up), 20);
    assert_eq!(f.hit, Some(Element::ValueGlyph(0, 15)));
}
