use dialer::number_dialer::{create_val_string, get_new_value, is_over, val_string_len, HitLayout};
use dialer::{ButtonState, Decimal, Element, MouseState, NumberDialerContext, Point, State};
use std::cmp::Ordering;

fn dec(mantissa: i64, scale: u8) -> Decimal {
    Decimal { mantissa, scale }
}

#[test]
fn parse_reads_numbers() {
    assert_eq!(Decimal::parse("03.00"), Some(dec(300, 2)));
    assert_eq!(Decimal::parse("-2.5"), Some(dec(-25, 1)));
    assert_eq!(Decimal::parse("42"), Some(dec(42, 0)));
    assert_eq!(Decimal::parse("9223372036854775807"), Some(dec(i64::MAX, 0)));
    assert_eq!(Decimal::parse("-9223372036854775808"), Some(dec(i64::MIN, 0)));
    assert_eq!(Decimal::parse("9223372036854775808"), None);
    assert_eq!(Decimal::parse(""), None);
    assert_eq!(Decimal::parse("."), None);
    assert_eq!(Decimal::parse("3."), None);
    assert_eq!(Decimal::parse(".5"), None);
    assert_eq!(Decimal::parse("1.2.3"), None);
    assert_eq!(Decimal::parse("1a"), None);
    assert_eq!(Decimal::parse("0.1234567890123456789"), None);
}

#[test]
fn text_of_numbers() {
    let s = |d: Decimal| d.text_chars().into_iter().collect::<String>();
    assert_eq!(s(dec(300, 2)), "3.00");
    assert_eq!(s(dec(5, 3)), "0.005");
    assert_eq!(s(dec(-25, 1)), "-2.5");
    assert_eq!(s(dec(0, 0)), "0");
    assert_eq!(s(dec(i64::MIN, 0)), "-9223372036854775808");
}

#[test]
fn format_parse_format_is_stable() {
    let max = dec(9999, 2);
    for (v, p) in [(dec(3, 0), 2u8), (dec(31415, 4), 2), (dec(9999, 2), 0), (dec(7, 1), 3), (dec(0, 0), 1)] {
        let len = val_string_len(max, p);
        let f = create_val_string(v, len, p);
        let back = Decimal::parse(&f).unwrap();
        assert_eq!(create_val_string(back, len, p), f);
    }
}

#[test]
fn formatted_length_is_fixed() {
    let max = dec(99999, 3);
    for v in [dec(0, 0), dec(5, 1), dec(99999, 3), dec(12, 0), dec(1234567, 5)] {
        for p in 0..4u8 {
            let f = create_val_string(v, val_string_len(max, p), p);
            assert_eq!(f.len(), val_string_len(max, p));
            match f.find('.') {
                Some(i) => assert_eq!(f.len() - i - 1, p as usize),
                None => assert_eq!(p, 0),
            }
        }
    }
}

#[test]
fn adjust_stays_in_bounds() {
    let (min, max) = (dec(-15, 1), dec(25, 1));
    let s = String::from("-1.5");
    for idx in 0..4 {
        for ord in [Ordering::Less, Ordering::Greater] {
            for v in [min, max, dec(0, 0), dec(1, 1)] {
                let r = get_new_value(v, min, max, idx, ord, &s);
                assert!(min.le_value(&r) && r.le_value(&max));
            }
        }
    }
    let huge = String::from("0000000000000000000000000000000000000000000");
    assert_eq!(get_new_value(dec(0, 0), min, max, 0, Ordering::Less, &huge), max);
    assert_eq!(get_new_value(dec(0, 0), min, max, 0, Ordering::Greater, &huge), min);
}

#[test]
fn adjust_keeps_value_beyond_scale_or_mantissa() {
    let s = String::from("0.0000000000000000000");
    let v = get_new_value(dec(0, 0), dec(0, 0), dec(1, 0), 20, Ordering::Less, &s);
    assert_eq!(v, dec(0, 0));
    let s = String::from("9223372036854775807.0");
    let big = dec(i64::MAX, 0);
    let v = get_new_value(big, dec(0, 0), big, 20, Ordering::Greater, &s);
    assert_eq!(v, big);
}

#[test]
fn hit_regions_are_exclusive() {
    // 100 x 40 at (10, 10); value "5.0" in 18 pixel slots centred: x from 33 to 87.
    let d = NumberDialerContext::new(1, dec(5, 0), dec(0, 0), dec(9, 0), 1)
        .position(10, 10)
        .dimensions(100, 40)
        .frame(2);
    let hit = |x: i64, y: i64| d.update(State::Normal, MouseState { pos: Point::new(x, y), left: ButtonState::Up }, 0).hit;
    assert_eq!(hit(9, 20), None);
    assert_eq!(hit(110, 20), None);
    assert_eq!(hit(12, 20), Some(Element::Rect));
    assert_eq!(hit(33, 20), Some(Element::ValueGlyph(0, 20)));
    assert_eq!(hit(50, 20), Some(Element::ValueGlyph(0, 20)));
    assert_eq!(hit(51, 20), Some(Element::ValueGlyph(1, 20)));
    assert_eq!(hit(86, 20), Some(Element::ValueGlyph(2, 20)));
    assert_eq!(hit(87, 20), Some(Element::Rect));
    assert_eq!(hit(50, 11), Some(Element::Rect));
    assert_eq!(hit(50, 12), Some(Element::ValueGlyph(0, 12)));
    assert_eq!(hit(50, 47), Some(Element::ValueGlyph(0, 47)));
    assert_eq!(hit(50, 48), Some(Element::Rect));
}

#[test]
fn fine_scale_bounds_do_not_cap_the_value() {
    let min = dec(0, 18);
    let s = String::from("000");
    let r = get_new_value(dec(0, 18), min, dec(100, 0), 1, Ordering::Less, &s);
    assert!(r.eq_value(&dec(10, 0)));
    assert_eq!(r, dec(1_000_000_000_000_000_000, 17));
    let s = String::from("000.0");
    let r = get_new_value(dec(0, 18), min, dec(1000, 0), 0, Ordering::Less, &s);
    assert!(r.eq_value(&dec(100, 0)));
    let r = get_new_value(dec(0, 18), min, dec(1000, 0), 2, Ordering::Less, &s);
    assert!(r.eq_value(&dec(1, 0)));
}

#[test]
fn equal_move_ignores_the_slot_index() {
    let s = String::from("12");
    let v = get_new_value(dec(12, 0), dec(0, 0), dec(99, 0), 99, Ordering::Equal, &s);
    assert_eq!(v, dec(12, 0));
}

#[test]
fn tiny_step_clamps_at_the_bounds() {
    let s = String::from("0.0000000000000000000");
    let (min, max) = (dec(1, 0), dec(2, 0));
    assert_eq!(get_new_value(max, min, max, 20, Ordering::Less, &s), max);
    assert_eq!(get_new_value(dec(5, 0), min, max, 20, Ordering::Less, &s), max);
    assert_eq!(get_new_value(dec(0, 0), min, max, 20, Ordering::Less, &s), min);
    assert_eq!(get_new_value(min, min, max, 20, Ordering::Greater, &s), min);
}

#[test]
fn value_row_of_any_length() {
    assert_eq!(dialer::val_string_dimensions(24, None, 1000), (18000, 24));
    assert_eq!(dialer::val_string_dimensions(24, Some(12), 3), (27, 12));
}

#[test]
fn hit_test_reports_one_part() {
    let l = HitLayout {
        pos: Point::new(0, 0),
        frame_w: 1,
        rect_w: 100,
        rect_h: 30,
        l_pos: Point::new(10, 5),
        label_w: 20,
        label_h: 20,
        val_string_w: 36,
        val_string_h: 24,
        val_string_len: 2,
    };
    assert_eq!(is_over(&l, Point::new(100, 10)), None);
    assert_eq!(is_over(&l, Point::new(15, 10)), Some(Element::LabelGlyphs));
    assert_eq!(is_over(&l, Point::new(30, 10)), Some(Element::ValueGlyph(0, 10)));
    assert_eq!(is_over(&l, Point::new(48, 10)), Some(Element::ValueGlyph(1, 10)));
    assert_eq!(is_over(&l, Point::new(66, 10)), Some(Element::Rect));
    assert_eq!(is_over(&l, Point::new(5, 10)), Some(Element::Rect));
}
