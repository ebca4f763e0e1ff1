//! The number dialer: value formatting, hit testing, the per-frame state
//! machine and digit-wise value adjustment.
use vstd::prelude::*;
use std::cmp::Ordering;
use crate::label::{FontSize, Labelable};
use crate::mouse_state::{ButtonState, MouseState};
use crate::point::Point;
use crate::rectangle::{contains, is_over as rect_is_over};
use crate::decimal::{
    Decimal, decimal_text, find_point, int_part_text, is_number_char, lemma_text_shape, point_index,
    push_range, push_zeros, zero_pad, zeros, chars_to_string, MAX_SCALE, units, units_at, pow10,
    pow10_i128, lemma_units_bound, lemma_units_rescale, shortest, shortest_decimal, lemma_shortest, lt, writes,
    signed, is_digit, frac_part_text, lemma_whole_part_mono,
    lemma_int_part_text, lemma_nat_text_len_mono, str_point, digits_value, parse_text,
    lemma_digits_value_zeros, lemma_digits_round_trip, lemma_nat_text_digits, nat_text,
    all_digits, digit_string, lemma_parse_digits, lemma_text_of_digits, clamp, clamp_value, lemma_pow10_mono, lemma_pow10_38, lemma_point_index, lemma_pow10_pos, le, lemma_le_at,
};

verus! {

/// The parts of a number dialer that the pointer can be over.
#[derive(Clone, Copy, Debug, PartialEq, Eq)]
pub enum Element {
    Rect,
    LabelGlyphs,
    /// A value glyph slot at an index, with the pointer's last `y` while the
    /// slot was clicked: the reference for the next vertical move.
    ValueGlyph(usize, i64),
}

/// The state of a number dialer.
#[derive(Clone, Copy, Debug, PartialEq, Eq)]
pub enum State {
    Normal,
    Highlighted(Element),
    Clicked(Element),
}

/// The width of a value glyph slot for font size `size`: three quarters of
/// it, rounded down.
pub open spec fn slot_width(size: FontSize) -> int {
    (size as int * 3) / 4
}

/// Return the width of a value glyph slot.
pub fn value_glyph_slot_width(size: FontSize) -> (r: u32)
    ensures
        r == slot_width(size),
{
    ((size as u64 * 3) / 4) as u32
}

/// The width and height of the value glyphs: `len` slots in the label's font
/// size if there is a label, else in `font_size`.
pub fn val_string_dimensions(font_size: FontSize, label_size: Option<FontSize>, len: usize) -> (r: (
    i64,
    FontSize,
))
    requires
        slot_width(match label_size {
            Some(s) => s,
            None => font_size,
        }) * len <= i64::MAX,
    ensures
        r.1 == match label_size {
            Some(s) => s,
            None => font_size,
        },
        r.0 == slot_width(r.1) * len,
{
    let size = match label_size {
        Some(s) => s,
        None => font_size,
    };
    let slot_w = value_glyph_slot_width(size);
    ((slot_w as i128 * len as i128) as i64, size)
}

/// Where the parts of a number dialer lie on the screen.
#[derive(Clone, Copy, Debug, PartialEq, Eq)]
pub struct HitLayout {
    /// The top left corner of the whole widget.
    pub pos: Point,
    pub frame_w: i64,
    pub rect_w: i64,
    pub rect_h: i64,
    /// The top left corner of the label.
    pub l_pos: Point,
    pub label_w: i64,
    pub label_h: i64,
    /// The width of the row of value glyph slots.
    pub val_string_w: i64,
    /// The font size of the value glyphs.
    pub val_string_h: FontSize,
    /// The number of value glyph slots.
    pub val_string_len: usize,
}

impl HitLayout {
    pub open spec fn over_rect(self, m: Point) -> bool {
        contains(self.pos, m, self.rect_w as int, self.rect_h as int)
    }

    pub open spec fn over_label(self, m: Point) -> bool {
        contains(self.l_pos, m, self.label_w as int, self.label_h as int)
    }

    /// Whether `m` lies in the row of value glyph slots, which starts right
    /// of the label and is inset vertically by the frame.
    pub open spec fn over_slots(self, m: Point) -> bool {
        let x0 = self.l_pos.x + self.label_w;
        let y0 = self.pos.y + self.frame_w;
        x0 <= m.x < x0 + self.val_string_w && y0 <= m.y < y0 + self.rect_h - 2 * self.frame_w
    }

    /// Whether `m` lies in slot `i`, on the row of slots.
    pub open spec fn in_slot(self, m: Point, i: int) -> bool {
        let sw = slot_width(self.val_string_h);
        let x0 = self.l_pos.x + self.label_w + i * sw;
        let y0 = self.pos.y + self.frame_w;
        x0 <= m.x < x0 + sw && y0 <= m.y < y0 + self.rect_h
    }

    /// The pointer is over value glyph slot `i`.
    pub open spec fn over_glyph(self, m: Point, i: int) -> bool {
        &&& self.over_rect(m)
        &&& !self.over_label(m)
        &&& self.over_slots(m)
        &&& 0 <= i < self.val_string_len
        &&& self.in_slot(m, i)
    }

    /// The pointer is over the body of the widget and over no other part.
    pub open spec fn over_body_only(self, m: Point) -> bool {
        &&& self.over_rect(m)
        &&& !self.over_label(m)
        &&& forall|i: int| !#[trigger] self.over_glyph(m, i)
    }

    /// What the hit test reports for the pointer at `m`.
    pub open spec fn hit_matches(self, m: Point, r: Option<Element>) -> bool {
        match r {
            None => !self.over_rect(m),
            Some(Element::LabelGlyphs) => self.over_rect(m) && self.over_label(m),
            Some(Element::Rect) => self.over_body_only(m),
            Some(Element::ValueGlyph(i, y)) => y == m.y && self.over_glyph(m, i as int),
        }
    }
}

/// The pointer is over exactly one of: nothing, the label, the body alone, or
/// a single value glyph slot; and the hit test reports that one.
pub proof fn lemma_hit_partition(l: HitLayout, m: Point, r: Option<Element>)
    requires
        l.hit_matches(m, r),
    ensures
        !l.over_rect(m) ==> r is None,
        l.over_rect(m) && l.over_label(m) ==> r == Some(Element::LabelGlyphs),
        l.over_body_only(m) ==> r == Some(Element::Rect),
        forall|i: int| #[trigger] l.over_glyph(m, i) ==> r == Some(Element::ValueGlyph(i as usize, m.y)),
        forall|i: int, j: int| #[trigger] l.over_glyph(m, i) && #[trigger] l.over_glyph(m, j) ==> i == j,
        !l.over_rect(m) || (l.over_rect(m) && l.over_label(m)) || l.over_body_only(m) || exists|i: int|
            #[trigger] l.over_glyph(m, i),
{
    let sw = slot_width(l.val_string_h);
    assert(sw >= 0);
    assert forall|i: int, j: int| #[trigger] l.over_glyph(m, i) && #[trigger] l.over_glyph(m, j) implies i == j by {
        if i < j {
            assert(i * sw + sw <= j * sw) by (nonlinear_arith)
                requires
                    i < j,
                    sw >= 0,
            ;
        }
        if j < i {
            assert(j * sw + sw <= i * sw) by (nonlinear_arith)
                requires
                    j < i,
                    sw >= 0,
            ;
        }
    }
}

/// Determine if the cursor is over the number dialer and if so, which
/// element: nothing outside the widget, the label over its region, a value
/// glyph slot over the slot it lies in, and the body anywhere else.
pub fn is_over(l: &HitLayout, mouse_pos: Point) -> (r: Option<Element>)
    ensures
        l.hit_matches(mouse_pos, r),
        r is None <==> !l.over_rect(mouse_pos),
        r == Some(Element::LabelGlyphs) <==> l.over_rect(mouse_pos) && l.over_label(mouse_pos),
        r == Some(Element::Rect) <==> l.over_body_only(mouse_pos),
        forall|i: int|
            0 <= i < l.val_string_len ==> (#[trigger] l.over_glyph(mouse_pos, i) <==> r == Some(
                Element::ValueGlyph(i as usize, mouse_pos.y),
            )),
        r matches Some(Element::ValueGlyph(i, y)) ==> i < l.val_string_len && y == mouse_pos.y,
{
    let r = scan_hit(l, mouse_pos);
    proof {
        lemma_hit_partition(*l, mouse_pos, r);
    }
    r
}

fn scan_hit(l: &HitLayout, mouse_pos: Point) -> (r: Option<Element>)
    ensures
        l.hit_matches(mouse_pos, r),
{
    if !rect_is_over(l.pos, mouse_pos, l.rect_w, l.rect_h) {
        return None;
    }
    if rect_is_over(l.l_pos, mouse_pos, l.label_w, l.label_h) {
        return Some(Element::LabelGlyphs);
    }
    let sx = l.l_pos.x as i128 + l.label_w as i128;
    let sy = l.pos.y as i128 + l.frame_w as i128;
    let mx = mouse_pos.x as i128;
    let my = mouse_pos.y as i128;
    let over_slots = sx <= mx && mx < sx + l.val_string_w as i128 && sy <= my && my < sy
        + l.rect_h as i128 - 2 * l.frame_w as i128;
    if !over_slots {
        return Some(Element::Rect);
    }
    let slot_w = value_glyph_slot_width(l.val_string_h) as i128;
    let mut x = sx;
    let mut i: usize = 0;
    while i < l.val_string_len
        invariant
            i <= l.val_string_len,
            slot_w == slot_width(l.val_string_h),
            x == sx + i * slot_w,
            sx == l.l_pos.x + l.label_w,
            sy == l.pos.y + l.frame_w,
            mx == mouse_pos.x,
            my == mouse_pos.y,
            -0x1_0000_0000_0000_0000 <= sx <= 0x1_0000_0000_0000_0000,
            0 <= slot_w < 0x1_0000_0000,
            l.over_rect(mouse_pos),
            !l.over_label(mouse_pos),
            l.over_slots(mouse_pos),
            forall|j: int| 0 <= j < i ==> !l.in_slot(mouse_pos, j),
        decreases l.val_string_len - i,
    {
        if x <= mx && mx < x + slot_w && sy <= my && my < sy + l.rect_h as i128 {
            return Some(Element::ValueGlyph(i, mouse_pos.y));
        }
        proof {
            assert(i * slot_w + slot_w == (i + 1) * slot_w) by (nonlinear_arith);
            assert((i + 1) * slot_w <= 0x1_0000_0000_0000_0000 * 0x1_0000_0000) by (nonlinear_arith)
                requires
                    i + 1 <= 0x1_0000_0000_0000_0000,
                    0 <= slot_w < 0x1_0000_0000,
            ;
        }
        x = x + slot_w;
        i = i + 1;
    }
    assert forall|j: int| !#[trigger] l.over_glyph(mouse_pos, j) by {}
    Some(Element::Rect)
}

/// The state after a frame: `hit` is what the pointer is over, `prev` the
/// state of the frame before.
pub open spec fn next_state(hit: Option<Element>, prev: State, mouse: MouseState) -> State {
    match (hit, prev, mouse.left) {
        (Some(_), State::Normal, ButtonState::Down) => State::Normal,
        (Some(e), _, ButtonState::Up) => State::Highlighted(e),
        (Some(e), State::Highlighted(_), ButtonState::Down) => State::Clicked(e),
        (_, State::Clicked(p), ButtonState::Down) => match p {
            Element::ValueGlyph(idx, _) => State::Clicked(Element::ValueGlyph(idx, mouse.pos.y)),
            _ => State::Clicked(p),
        },
        _ => State::Normal,
    }
}

/// Check and return the current state of the number dialer.
pub fn get_new_state(is_over_elem: Option<Element>, prev: State, mouse: MouseState) -> (r: State)
    ensures
        r == next_state(is_over_elem, prev, mouse),
{
    match (is_over_elem, prev, mouse.left) {
        (Some(_), State::Normal, ButtonState::Down) => State::Normal,
        (Some(elem), _, ButtonState::Up) => State::Highlighted(elem),
        (Some(elem), State::Highlighted(_), ButtonState::Down) => State::Clicked(elem),
        (_, State::Clicked(p_elem), ButtonState::Down) => match p_elem {
            Element::ValueGlyph(idx, _) => State::Clicked(Element::ValueGlyph(idx, mouse.pos.y)),
            _ => State::Clicked(p_elem),
        },
        _ => State::Normal,
    }
}

/// From `Normal`, a hit with the button up highlights the element hit; from
/// `Highlighted`, a hit with the button down clicks the element hit; and with
/// the button up no `Clicked` state stays clicked.
pub proof fn lemma_state_transitions(
    e: Element,
    hit: Option<Element>,
    prev: State,
    mouse: MouseState,
)
    ensures
        prev == State::Normal && mouse.left == ButtonState::Up ==> next_state(Some(e), prev, mouse)
            == State::Highlighted(e),
        prev is Highlighted && mouse.left == ButtonState::Down ==> next_state(Some(e), prev, mouse)
            == State::Clicked(e),
        prev is Clicked && mouse.left == ButtonState::Up ==> (next_state(hit, prev, mouse) is Highlighted
            || next_state(hit, prev, mouse) is Normal),
{
}

/// `t` with exactly `precision` fractional digits: the fraction is cut or
/// filled with zeros, and a point is added or removed as needed.
pub open spec fn fix_fraction(t: Seq<char>, precision: nat) -> Seq<char> {
    match point_index(t) {
        None => if precision == 0 {
            t
        } else {
            t + seq!['.'] + zeros(precision)
        },
        Some(i) => if precision == 0 {
            t.subrange(0, i as int)
        } else {
            let want = i + precision + 1;
            if t.len() > want {
                t.subrange(0, want as int)
            } else {
                t + zeros((want - t.len()) as nat)
            }
        },
    }
}

/// The digit string of `val`: its text with `precision` fractional digits,
/// left-padded with zeros to at least `len` characters.
pub open spec fn formatted(val: Decimal, len: nat, precision: nat) -> Seq<char> {
    zero_pad(fix_fraction(decimal_text(val), precision), len)
}

/// The length of the digit string of a dialer whose maximum is `max`: the
/// integer part of `max`, then the point and `precision` digits.
pub open spec fn total_length(max: Decimal, precision: nat) -> nat {
    int_part_text(max).len() + if precision > 0 {
        precision + 1
    } else {
        0
    }
}

/// With `precision` fractional digits, the text of `val` is its integer part,
/// then, when `precision` is positive, a point and `precision` digits.
pub proof fn lemma_fix_fraction_shape(val: Decimal, precision: nat)
    ensures
        ({
            let f = fix_fraction(decimal_text(val), precision);
            let ip = int_part_text(val);
            &&& f.len() == ip.len() + if precision > 0 {
                precision + 1
            } else {
                0
            }
            &&& f.subrange(0, ip.len() as int) == ip
            &&& precision > 0 ==> f[ip.len() as int] == '.'
            &&& forall|j: int| ip.len() < j < f.len() ==> is_digit(#[trigger] f[j])
        }),
{
    lemma_text_shape(val);
    let t = decimal_text(val);
    let f = fix_fraction(t, precision);
    let ip = int_part_text(val);
    let fp = frac_part_text(val);
    if val.scale == 0 {
        assert(t == ip);
        if precision == 0 {
            assert(f.subrange(0, ip.len() as int) =~= ip);
        } else {
            assert(f.subrange(0, ip.len() as int) =~= ip);
            assert forall|j: int| ip.len() < j < f.len() implies is_digit(#[trigger] f[j]) by {
                assert(f[j] == '0');
            }
        }
    } else {
        assert(t == ip + seq!['.'] + fp);
        assert(f.subrange(0, ip.len() as int) =~= ip);
        if precision > 0 {
            assert forall|j: int| ip.len() < j < f.len() implies is_digit(#[trigger] f[j]) by {
                if j < t.len() {
                    assert(f[j] == t[j]);
                    assert(t[j] == fp[j - ip.len() - 1]);
                } else {
                    assert(f[j] == '0');
                }
            }
        }
    }
}

/// For a non-negative value in `[min, max]`, the digit string is exactly
/// `total_length(max, precision)` characters long, and holds a point exactly
/// when `precision` is positive, followed by `precision` digits.
pub proof fn lemma_format_length(val: Decimal, min: Decimal, max: Decimal, precision: nat)
    requires
        val.wf(),
        min.wf(),
        max.wf(),
        le(min, val),
        le(val, max),
        val.mantissa >= 0,
    ensures
        ({
            let f = formatted(val, total_length(max, precision), precision);
            &&& f.len() == total_length(max, precision)
            &&& precision == 0 ==> point_index(f) is None
            &&& precision > 0 ==> point_index(f) == Some((f.len() - precision - 1) as nat)
            &&& forall|j: int| f.len() - precision <= j < f.len() ==> is_digit(#[trigger] f[j])
        }),
{
    lemma_whole_part_mono(val, max);
    lemma_int_part_text(val);
    lemma_int_part_text(max);
    let pv = pow10(val.scale as nat);
    let pm = pow10(max.scale as nat);
    lemma_pow10_pos(val.scale as nat);
    lemma_pow10_pos(max.scale as nat);
    let mv = val.mantissa as int;
    let mm = max.mantissa as int;
    assert(mv / pv >= 0 && mm / pm >= 0) by (nonlinear_arith)
        requires
            mv >= 0,
            mm >= 0,
            pv >= 1,
            pm >= 1,
    ;
    lemma_nat_text_len_mono(
        (val.mantissa as int / pow10(val.scale as nat)) as nat,
        (max.mantissa as int / pow10(max.scale as nat)) as nat,
    );
    lemma_fix_fraction_shape(val, precision);
    lemma_text_shape(val);
    let len = total_length(max, precision);
    let g = fix_fraction(decimal_text(val), precision);
    let f = formatted(val, len, precision);
    let ip = int_part_text(val);
    let z = len - g.len();
    assert(f == zeros(z as nat) + g);
    assert forall|j: int| 0 <= j < z + ip.len() implies f[j] != '.' by {
        if j >= z {
            assert(f[j] == g[j - z]);
            assert(g[j - z] == g.subrange(0, ip.len() as int)[j - z]);
        }
    }
    lemma_point_index(f, z + ip.len());
    assert forall|j: int| f.len() - precision <= j < f.len() implies is_digit(#[trigger] f[j]) by {
        assert(f[j] == g[j - z]);
    }
}

/// `s` without its first point.
pub open spec fn drop_point(s: Seq<char>) -> Seq<char> {
    match point_index(s) {
        None => s,
        Some(i) => s.subrange(0, i as int) + s.subrange((i + 1) as int, s.len() as int),
    }
}

/// Formatting a non-negative value, parsing the digit string back and
/// formatting the result again gives the same digit string, wherever its
/// digits, read as one integer, fit a mantissa.
pub proof fn lemma_format_parse_round_trip(val: Decimal, len: nat, precision: nat)
    requires
        val.wf(),
        val.mantissa >= 0,
        precision <= MAX_SCALE,
        digits_value(drop_point(formatted(val, len, precision))) <= i64::MAX,
    ensures
        parse_text(formatted(val, len, precision)) is Some,
        formatted(parse_text(formatted(val, len, precision)).unwrap(), len, precision) == formatted(
            val,
            len,
            precision,
        ),
{
    let p = precision;
    let f = formatted(val, len, p);
    let g = fix_fraction(decimal_text(val), p);
    let ip = int_part_text(val);
    lemma_fix_fraction_shape(val, p);
    lemma_text_shape(val);
    lemma_int_part_text(val);
    lemma_pow10_pos(val.scale as nat);
    let q = val.mantissa as int / pow10(val.scale as nat);
    let pv = pow10(val.scale as nat);
    let mv = val.mantissa as int;
    assert(q >= 0) by (nonlinear_arith)
        requires
            q == mv / pv,
            mv >= 0,
            pv >= 1,
    ;
    lemma_nat_text_digits(q as nat);
    assert(ip.len() == 1 || ip[0] != '0');
    let fr = if p > 0 {
        g.subrange((ip.len() + 1) as int, g.len() as int)
    } else {
        Seq::empty()
    };
    if p > 0 {
        assert(g =~= ip + seq!['.'] + fr) by {
            assert forall|j: int| 0 <= j < ip.len() implies g[j] == ip[j] by {
                assert(g[j] == g.subrange(0, ip.len() as int)[j]);
            }
        }
    } else {
        assert(g =~= ip) by {
            assert forall|j: int| 0 <= j < ip.len() implies g[j] == ip[j] by {
                assert(g[j] == g.subrange(0, ip.len() as int)[j]);
            }
        }
    }
    assert(all_digits(fr)) by {
        assert forall|j: int| 0 <= j < fr.len() implies is_digit(#[trigger] fr[j]) by {
            assert(fr[j] == g[ip.len() + 1 + j]);
        }
    }
    let z: nat = if g.len() < len {
        (len - g.len()) as nat
    } else {
        0
    };
    assert(f =~= zeros(z) + g);
    assert(fr.len() == p);
    if p > 0 {
        assert(f =~= digit_string(z, ip, fr));
        assert(g =~= digit_string(0, ip, fr));
    } else {
        assert(fr =~= Seq::<char>::empty());
        assert(f =~= digit_string(z, ip, fr));
        assert(g =~= digit_string(0, ip, fr));
    }
    let zl = z as int;
    let e = ip + fr;
    assert forall|j: int| 0 <= j < zl + ip.len() implies f[j] != '.' by {
        if j >= zl {
            assert(f[j] == ip[j - zl]);
        }
    }
    lemma_point_index(f, zl + ip.len());
    assert(drop_point(f) =~= zeros(z) + e);
    lemma_digits_value_zeros(z, e);
    lemma_parse_digits(z, ip, fr);
    lemma_text_of_digits(ip, fr);
    if p > 0 {
        lemma_point_index(g, ip.len() as int);
        assert(fix_fraction(g, p) =~= g);
    } else {
        assert forall|j: int| 0 <= j < g.len() implies g[j] != '.' by {
            assert(g[j] == ip[j]);
        }
        lemma_point_index(g, g.len() as int);
    }
}

/// Create the string to be drawn from the given value, length and precision.
pub fn create_val_string(val: Decimal, len: usize, precision: u8) -> (r: String)
    ensures
        r@ == formatted(val, len as nat, precision as nat),
{
    let t = val.text_chars();
    let mut v: Vec<char> = Vec::new();
    let tl = t.len();
    assert(t@.subrange(0, t@.len() as int) =~= t@);
    match find_point(&t) {
        None => {
            push_range(&mut v, &t, 0, tl);
            if precision > 0 {
                v.push('.');
                push_zeros(&mut v, precision as usize);
            }
            assert(v@ =~= fix_fraction(t@, precision as nat));
        },
        Some(idx) => {
            if precision == 0 {
                push_range(&mut v, &t, 0, idx);
            } else {
                let want = idx + precision as usize + 1;
                if tl > want {
                    push_range(&mut v, &t, 0, want);
                } else {
                    push_range(&mut v, &t, 0, tl);
                    push_zeros(&mut v, want - tl);
                }
            }
            assert(v@ =~= fix_fraction(t@, precision as nat));
        },
    }
    assert(v@ =~= fix_fraction(t@, precision as nat));
    let mut out: Vec<char> = Vec::new();
    if v.len() < len {
        push_zeros(&mut out, len - v.len());
    }
    let vl = v.len();
    push_range(&mut out, &v, 0, vl);
    assert(v@.subrange(0, vl as int) =~= v@);
    assert(out@ =~= formatted(val, len as nat, precision as nat));
    assert forall|i: int| 0 <= i < out@.len() implies is_number_char(#[trigger] out@[i]) by {
        let z = (out@.len() - v@.len()) as int;
        if i >= z {
            assert(out@[i] == v@[i - z]);
            let k = i - z;
            if k >= t@.len() {
                if k > t@.len() {
                    assert(v@[k] == '0');
                }
            } else {
                assert(v@[k] == t@[k]);
            }
        }
    }
    chars_to_string(&out)
}

/// The length of the digit string for `max` and `precision`.
pub fn val_string_len(max: Decimal, precision: u8) -> (r: usize)
    ensures
        r == total_length(max, precision as nat),
{
    let t = max.text_chars();
    proof {
        lemma_text_shape(max);
    }
    let ip = match find_point(&t) {
        Some(i) => i,
        None => t.len(),
    };
    if precision == 0 {
        ip
    } else {
        ip + precision as usize + 1
    }
}

/// The decimal exponent of the place that slot `idx` of `s` stands for. The
/// point's own slot and the slot just after it both count as tenths.
pub open spec fn place_power(s: Seq<char>, idx: int) -> int {
    match point_index(s) {
        None => s.len() - idx - 1,
        Some(d) => {
            let p = d - idx - 1;
            if p < -1 {
                p + 1
            } else {
                p
            }
        },
    }
}

pub open spec fn max_int(a: int, b: int) -> int {
    if a >= b {
        a
    } else {
        b
    }
}

/// The finest scale among the operands of a move and its step `10^power`.
pub open spec fn adjust_scale(val: Decimal, min: Decimal, max: Decimal, power: int) -> int {
    max_int(max_int(val.scale as int, min.scale as int), max_int(max.scale as int, -power))
}

/// `val ± 10^power` at scale `t`: up (`Less`) adds, down subtracts.
pub open spec fn adjust_target(val: Decimal, power: int, ord: Ordering, t: int) -> int {
    let step = pow10((power + t) as nat);
    if ord == Ordering::Less {
        units(val, t as nat) + step
    } else {
        units(val, t as nat) - step
    }
}

/// The value after a vertical move `ord` over the digit of exponent `power`:
/// `val + 10^power` when the pointer moved up (`Less`), `val - 10^power` when
/// it moved down (`Greater`), clamped into `[min, max]`, and written at the
/// finest scale whose mantissa fits. Where no `Decimal` writes that number
/// (it needs more than `MAX_SCALE` fractional digits, or more mantissa digits
/// than an `i64` holds), `val` is kept.
pub open spec fn adjusted(val: Decimal, min: Decimal, max: Decimal, power: int, ord: Ordering) -> Decimal {
    match ord {
        Ordering::Equal => val,
        _ => {
            let t = adjust_scale(val, min, max, power);
            if t > MAX_SCALE {
                // The step is finer than any scale: only a clamp is written.
                if ord == Ordering::Less {
                    if lt(val, min) {
                        min
                    } else if le(max, val) {
                        max
                    } else {
                        val
                    }
                } else {
                    if le(val, min) {
                        min
                    } else if lt(max, val) {
                        max
                    } else {
                        val
                    }
                }
            } else {
                let target = adjust_target(val, power, ord, t);
                if target < units(min, t as nat) {
                    min
                } else if target > units(max, t as nat) {
                    max
                } else {
                    match shortest(target < 0, (if target < 0 {
                        -target
                    } else {
                        target
                    }) as nat, t as nat) {
                        Some(d) => d,
                        None => val,
                    }
                }
            }
        },
    }
}

/// Return the new value after a vertical move `y_ord` over the digit slot
/// `idx` of the digit string `val_string`.
pub fn get_new_value(
    val: Decimal,
    min: Decimal,
    max: Decimal,
    idx: usize,
    y_ord: Ordering,
    val_string: &String,
) -> (r: Decimal)
    requires
        val.wf(),
        min.wf(),
        max.wf(),
        y_ord != Ordering::Equal ==> (point_index(val_string@) is Some || idx < val_string@.len()),
    ensures
        r == adjusted(val, min, max, place_power(val_string@, idx as int), y_ord),
        r.wf(),
{
    if let Ordering::Equal = y_ord {
        return val;
    }
    let power: i128 = match str_point(val_string.as_str()) {
        None => val_string.as_str().unicode_len() as i128 - idx as i128 - 1,
        Some(d) => {
            let p = d as i128 - idx as i128 - 1;
            if p < -1 {
                p + 1
            } else {
                p
            }
        },
    };
    adjust_by_power(val, min, max, power, y_ord)
}

/// The value after a move `y_ord` over the digit of exponent `power`.
fn adjust_by_power(val: Decimal, min: Decimal, max: Decimal, power: i128, y_ord: Ordering) -> (r: Decimal)
    requires
        val.wf(),
        min.wf(),
        max.wf(),
        y_ord != Ordering::Equal,
        -0x1_0000_0000_0000_0002 <= power <= 0x1_0000_0000_0000_0002,
    ensures
        r == adjusted(val, min, max, power as int, y_ord),
        r.wf(),
{
    let up = match y_ord {
        Ordering::Less => true,
        _ => false,
    };
    let mut t: i128 = val.scale as i128;
    if min.scale as i128 > t {
        t = min.scale as i128;
    }
    if max.scale as i128 > t {
        t = max.scale as i128;
    }
    if -power > t {
        t = -power;
    }
    if t > MAX_SCALE as i128 {
        return clamp_fine_step(val, min, max, y_ord);
    }
    let tu = t as u8;
    let vu = units_at(val, tu);
    let lu = units_at(min, tu);
    let hu = units_at(max, tu);
    let e = power + t;
    if e >= 38 {
        proof {
            lemma_units_bound(val, t as nat);
            lemma_units_bound(min, t as nat);
            lemma_units_bound(max, t as nat);
            lemma_pow10_mono(38, e as nat);
            lemma_pow10_38();
        }
        if up {
            return max;
        } else {
            return min;
        }
    }
    let step = pow10_i128(e as u32);
    proof {
        lemma_units_bound(val, t as nat);
        lemma_pow10_mono(e as nat, 37);
        lemma_pow10_38();
        lemma_pow10_pos(e as nat);
        assert((e as u32) as nat == e as nat);
        assert(0 < step <= 10000000000000000000000000000000000000);
        assert(-9223372036854775808000000000000000000 <= vu <= 9223372036854775807000000000000000000);
    }
    let target = if up {
        vu + step
    } else {
        vu - step
    };
    proof {
        lemma_units_bound(min, t as nat);
    }
    clamp_target(val, min, max, target, lu, hu, tu)
}

/// A move whose step is finer than `MAX_SCALE`: only a clamp is written.
fn clamp_fine_step(val: Decimal, min: Decimal, max: Decimal, y_ord: Ordering) -> (r: Decimal)
    requires
        val.wf(),
        min.wf(),
        max.wf(),
        y_ord != Ordering::Equal,
    ensures
        r == (if y_ord == Ordering::Less {
            if lt(val, min) {
                min
            } else if le(max, val) {
                max
            } else {
                val
            }
        } else {
            if le(val, min) {
                min
            } else if lt(max, val) {
                max
            } else {
                val
            }
        }),
{
    match y_ord {
        Ordering::Less => if !min.le_value(&val) {
            min
        } else if max.le_value(&val) {
            max
        } else {
            val
        },
        _ => if val.le_value(&min) {
            min
        } else if !val.le_value(&max) {
            max
        } else {
            val
        },
    }
}

/// `target` at scale `t`, clamped between `lu` and `hu` (`min` and `max` at
/// that scale) and written at the finest scale whose mantissa fits.
fn clamp_target(
    val: Decimal,
    min: Decimal,
    max: Decimal,
    target: i128,
    lu: i128,
    hu: i128,
    t: u8,
) -> (r: Decimal)
    requires
        val.wf(),
        min.wf(),
        max.wf(),
        t <= MAX_SCALE,
        lu > i128::MIN,
    ensures
        r == (if target < lu {
            min
        } else if target > hu {
            max
        } else {
            match shortest(target < 0, (if target < 0 {
                -target
            } else {
                target as int
            }) as nat, t as nat) {
                Some(d) => d,
                None => val,
            }
        }),
        r.wf(),
{
    if target < lu {
        min
    } else if target > hu {
        max
    } else {
        let neg = target < 0;
        let mag: u128 = if neg {
            (0 - target) as u128
        } else {
            target as u128
        };
        proof {
            lemma_shortest(neg, mag as nat, t as nat);
        }
        match shortest_decimal(neg, mag, t) {
            Some(d) => d,
            None => val,
        }
    }
}

/// When the stepped value lies in `[min, max]`, adjusting gives a number
/// equal to every well-formed `Decimal` that writes the stepped value, and
/// keeps `val` only where no such `Decimal` exists.
pub proof fn lemma_adjust_written_exactly(
    val: Decimal,
    min: Decimal,
    max: Decimal,
    power: int,
    ord: Ordering,
)
    requires
        val.wf(),
        min.wf(),
        max.wf(),
        ord != Ordering::Equal,
        adjust_scale(val, min, max, power) <= MAX_SCALE,
        units(min, adjust_scale(val, min, max, power) as nat) <= adjust_target(
            val,
            power,
            ord,
            adjust_scale(val, min, max, power),
        ) <= units(max, adjust_scale(val, min, max, power) as nat),
    ensures
        forall|d: Decimal|
            d.wf() && #[trigger] writes(
                d,
                adjust_target(val, power, ord, adjust_scale(val, min, max, power)),
                adjust_scale(val, min, max, power) as nat,
            ) ==> le(adjusted(val, min, max, power, ord), d) && le(
                d,
                adjusted(val, min, max, power, ord),
            ),
        (forall|d: Decimal|
            d.wf() ==> !#[trigger] writes(
                d,
                adjust_target(val, power, ord, adjust_scale(val, min, max, power)),
                adjust_scale(val, min, max, power) as nat,
            )) ==> adjusted(val, min, max, power, ord) == val,
{
    let t = adjust_scale(val, min, max, power);
    let tn = t as nat;
    let target = adjust_target(val, power, ord, t);
    let neg = target < 0;
    let m = (if neg {
        -target
    } else {
        target
    }) as nat;
    assert(signed(neg, m) == target);
    lemma_shortest(neg, m, tn);
    let r = adjusted(val, min, max, power, ord);
    if let Some(e) = shortest(neg, m, tn) {
        assert(r == e);
        assert(writes(e, target, tn));
        assert forall|d: Decimal| d.wf() && #[trigger] writes(d, target, tn) implies le(r, d) && le(
            d,
            r,
        ) by {
            if d.scale <= tn {
                lemma_le_at(r, d, tn);
                lemma_le_at(d, r, tn);
            } else {
                let u = d.scale as nat;
                lemma_units_rescale(r, tn, u);
                assert((u - d.scale) as nat == 0);
                assert(pow10(0) == 1);
                assert(units(d, u) == d.mantissa * 1);
                lemma_le_at(r, d, u);
                lemma_le_at(d, r, u);
            }
        }
    }
}

/// Adjusting a value that lies in `[min, max]` gives a value in `[min, max]`,
/// whatever the direction of the move and the size of the step.
pub proof fn lemma_adjust_stays_in_bounds(
    val: Decimal,
    min: Decimal,
    max: Decimal,
    power: int,
    ord: Ordering,
)
    requires
        val.wf(),
        min.wf(),
        max.wf(),
        le(min, val),
        le(val, max),
    ensures
        le(min, adjusted(val, min, max, power, ord)),
        le(adjusted(val, min, max, power, ord), max),
        adjusted(val, min, max, power, ord).wf(),
{
    let u = max_int(max_int(val.scale as int, min.scale as int), max.scale as int) as nat;
    lemma_le_at(min, val, u);
    lemma_le_at(val, max, u);
    lemma_le_at(min, max, u);
    lemma_le_at(min, min, u);
    lemma_le_at(max, max, u);
    let t = adjust_scale(val, min, max, power);
    if ord != Ordering::Equal && t <= MAX_SCALE {
        let target = adjust_target(val, power, ord, t);
        if units(min, t as nat) <= target <= units(max, t as nat) {
            let neg = target < 0;
            let m = (if neg {
                -target
            } else {
                target
            }) as nat;
            lemma_shortest(neg, m, t as nat);
            if let Some(d) = shortest(neg, m, t as nat) {
                lemma_le_at(min, d, t as nat);
                lemma_le_at(d, max, t as nat);
            }
        }
    }
}

/// How the slot behind a value glyph is drawn.
#[derive(Clone, Copy, Debug, PartialEq, Eq)]
pub enum SlotShade {
    /// No slot is drawn.
    Hidden,
    Plain,
    Highlighted,
    Clicked,
}

/// The shade of slot `i` in state `state`: while a value glyph is highlighted
/// or clicked every slot is drawn, that glyph's own in the matching shade.
pub open spec fn slot_shade(state: State, i: int) -> SlotShade {
    match state {
        State::Highlighted(Element::ValueGlyph(idx, _)) => if idx == i {
            SlotShade::Highlighted
        } else {
            SlotShade::Plain
        },
        State::Clicked(Element::ValueGlyph(idx, _)) => if idx == i {
            SlotShade::Clicked
        } else {
            SlotShade::Plain
        },
        _ => SlotShade::Hidden,
    }
}

/// The shades of the `n` value glyph slots in state `state`.
pub fn slot_shades(state: State, n: usize) -> (r: Vec<SlotShade>)
    ensures
        r@.len() == n,
        forall|i: int| 0 <= i < n ==> #[trigger] r@[i] == slot_shade(state, i),
{
    let mut r: Vec<SlotShade> = Vec::new();
    let mut i: usize = 0;
    while i < n
        invariant
            i <= n,
            r@.len() == i,
            forall|j: int| 0 <= j < i ==> #[trigger] r@[j] == slot_shade(state, j),
        decreases n - i,
    {
        let shade = match state {
            State::Highlighted(Element::ValueGlyph(idx, _)) => if idx == i {
                SlotShade::Highlighted
            } else {
                SlotShade::Plain
            },
            State::Clicked(Element::ValueGlyph(idx, _)) => if idx == i {
                SlotShade::Clicked
            } else {
                SlotShade::Plain
            },
            _ => SlotShade::Hidden,
        };
        r.push(shade);
        i = i + 1;
    }
    r
}

/// The font size of the value glyphs when no label sets it.
pub const DEFAULT_FONT_SIZE: u32 = 24;

/// The pixel bound within which every coordinate and size of a widget lies.
pub const SCREEN_LIMIT: i64 = 0x8000_0000;

pub open spec fn on_screen(v: int) -> bool {
    -SCREEN_LIMIT <= v < SCREEN_LIMIT
}

/// A number dialer's parameters for one frame.
pub struct NumberDialerContext {
    pub ui_id: u64,
    pub value: Decimal,
    pub min: Decimal,
    pub max: Decimal,
    pub pos: Point,
    pub width: i64,
    pub height: i64,
    pub precision: u8,
    /// The frame's thickness, if the widget has a frame.
    pub maybe_frame: Option<i64>,
    /// The label's text and font size, if the widget has a label.
    pub maybe_label: Option<(String, FontSize)>,
}

/// What one frame of a number dialer decides.
pub struct Frame {
    /// What the pointer is over.
    pub hit: Option<Element>,
    /// The state to keep for the next frame.
    pub state: State,
    /// The value after this frame.
    pub value: Decimal,
    /// The digit string to draw.
    pub val_string: String,
    /// Whether the value-change callback is called with `value`.
    pub call_callback: bool,
    /// The top left corner of the label; the value glyphs follow it.
    pub label_pos: Point,
    /// The top left corner of the value glyphs.
    pub val_string_pos: Point,
    /// The font size of the value glyphs.
    pub val_string_size: FontSize,
    /// The width of a value glyph slot.
    pub slot_w: u32,
    /// The height of the widget inside its frame.
    pub pad_h: i64,
    /// The top of the value glyph slots.
    pub slot_y: i64,
    /// How the slot behind each value glyph is drawn.
    pub shades: Vec<SlotShade>,
}

/// The value that a frame commits, from the states before and after it.
pub open spec fn frame_value(
    value: Decimal,
    min: Decimal,
    max: Decimal,
    prev: State,
    next: State,
    val_string: Seq<char>,
) -> Decimal {
    match (prev, next) {
        (
            State::Clicked(Element::ValueGlyph(idx, y)),
            State::Clicked(Element::ValueGlyph(_, new_y)),
        ) => if point_index(val_string) is Some || idx < val_string.len() {
            adjusted(value, min, max, place_power(val_string, idx as int), compare_ys(new_y, y))
        } else {
            value
        },
        _ => value,
    }
}

/// The order of two vertical positions.
pub open spec fn compare_ys(a: i64, b: i64) -> Ordering {
    if a < b {
        Ordering::Less
    } else if a > b {
        Ordering::Greater
    } else {
        Ordering::Equal
    }
}

fn compare_y(a: i64, b: i64) -> (r: Ordering)
    ensures
        r == compare_ys(a, b),
{
    if a < b {
        Ordering::Less
    } else if a > b {
        Ordering::Greater
    } else {
        Ordering::Equal
    }
}

/// `n / 2`, rounded down.
fn half_floor(n: i128) -> (r: i128)
    requires
        -0x1_0000_0000_0000_0000 <= n <= 0x1_0000_0000_0000_0000,
    ensures
        r == n / 2,
{
    if n >= 0 {
        n / 2
    } else {
        -((1 - n) / 2)
    }
}

/// A press or a release on the widget: between `Highlighted` and `Clicked`.
pub open spec fn press_edge(prev: State, next: State) -> bool {
    (prev is Highlighted && next is Clicked) || (prev is Clicked && next is Highlighted)
}

impl NumberDialerContext {
    /// A number dialer for `value`, clamped into `[min, max]`, at the origin,
    /// 128 by 48 pixels, with no frame and no label.
    pub fn new(ui_id: u64, value: Decimal, min: Decimal, max: Decimal, precision: u8) -> (r: Self)
        requires
            value.wf(),
            min.wf(),
            max.wf(),
        ensures
            r.ui_id == ui_id,
            r.value == clamp(value, min, max),
            r.min == min,
            r.max == max,
            r.precision == precision,
            r.pos == (Point { x: 0, y: 0 }),
            r.width == 128,
            r.height == 48,
            r.maybe_frame is None,
            r.maybe_label is None,
    {
        NumberDialerContext {
            ui_id,
            value: clamp_value(value, min, max),
            min,
            max,
            pos: Point { x: 0, y: 0 },
            width: 128,
            height: 48,
            precision,
            maybe_frame: None,
            maybe_label: None,
        }
    }

    /// The same dialer with its top left corner at `(x, y)`.
    pub fn position(self, x: i64, y: i64) -> (r: Self)
        ensures
            r.pos == (Point { x, y }),
            r.value == self.value && r.min == self.min && r.max == self.max,
            r.width == self.width && r.height == self.height,
            r.precision == self.precision && r.ui_id == self.ui_id,
            r.maybe_frame == self.maybe_frame,
    {
        NumberDialerContext { pos: Point { x, y }, ..self }
    }

    /// The same dialer, `width` by `height` pixels.
    pub fn dimensions(self, width: i64, height: i64) -> (r: Self)
        ensures
            r.width == width && r.height == height,
            r.value == self.value && r.min == self.min && r.max == self.max,
            r.pos == self.pos && r.precision == self.precision && r.ui_id == self.ui_id,
            r.maybe_frame == self.maybe_frame,
    {
        NumberDialerContext { width, height, ..self }
    }

    /// The same dialer with a frame `width` pixels thick.
    pub fn frame(self, width: i64) -> (r: Self)
        ensures
            r.maybe_frame == Some(width),
            r.value == self.value && r.min == self.min && r.max == self.max,
            r.pos == self.pos && r.width == self.width && r.height == self.height,
            r.precision == self.precision && r.ui_id == self.ui_id,
    {
        NumberDialerContext { maybe_frame: Some(width), ..self }
    }

    /// The values are well formed and the geometry lies on the screen.
    pub open spec fn wf(&self) -> bool {
        &&& self.value.wf()
        &&& self.min.wf()
        &&& self.max.wf()
        &&& on_screen(self.pos.x as int)
        &&& on_screen(self.pos.y as int)
        &&& on_screen(self.width as int)
        &&& on_screen(self.height as int)
        &&& self.maybe_frame matches Some(f) ==> on_screen(f as int)
    }

    pub open spec fn frame_w(&self) -> int {
        match self.maybe_frame {
            Some(f) => f as int,
            None => 0,
        }
    }

    /// The font size of the value glyphs: the label's, or the default.
    pub open spec fn val_string_size(&self) -> FontSize {
        match self.maybe_label {
            Some((_, size)) => size,
            None => DEFAULT_FONT_SIZE,
        }
    }

    pub open spec fn label_h(&self) -> int {
        match self.maybe_label {
            Some((_, size)) => size as int,
            None => 0,
        }
    }

    /// The layout of the widget when its label is `label_w` pixels wide. The
    /// label and the value glyphs are centred together horizontally; the label
    /// is centred vertically for the default font size.
    pub open spec fn layout(&self, label_w: int) -> HitLayout {
        let lw = if self.maybe_label is Some {
            label_w
        } else {
            0
        };
        let n = total_length(self.max, self.precision as nat);
        let vw = slot_width(self.val_string_size()) * n;
        HitLayout {
            pos: self.pos,
            frame_w: self.frame_w() as i64,
            rect_w: self.width,
            rect_h: self.height,
            l_pos: Point {
                x: (self.pos.x + (self.width - (lw + vw)) / 2) as i64,
                y: (self.pos.y + (self.height - DEFAULT_FONT_SIZE) / 2) as i64,
            },
            label_w: lw as i64,
            label_h: self.label_h() as i64,
            val_string_w: vw as i64,
            val_string_h: self.val_string_size(),
            val_string_len: n as usize,
        }
    }

    /// Run one frame: find what the pointer is over, advance the state from
    /// `state`, adjust the value while a digit is dragged, and say what to
    /// draw. `label_w` is the measured width of the label string.
    pub fn update(&self, state: State, mouse: MouseState, label_w: u32) -> (r: Frame)
        requires
            self.wf(),
        ensures
            self.layout(label_w as int).hit_matches(mouse.pos, r.hit),
            r.state == next_state(r.hit, state, mouse),
            r.value == frame_value(
                self.value,
                self.min,
                self.max,
                state,
                r.state,
                formatted(
                    self.value,
                    total_length(self.max, self.precision as nat),
                    self.precision as nat,
                ),
            ),
            r.val_string@ == formatted(
                r.value,
                total_length(self.max, self.precision as nat),
                self.precision as nat,
            ),
            r.call_callback == (!(le(self.value, r.value) && le(r.value, self.value)) || press_edge(
                state,
                r.state,
            )),
            r.label_pos == self.layout(label_w as int).l_pos,
            r.val_string_pos == (Point {
                x: (r.label_pos.x + self.layout(label_w as int).label_w) as i64,
                y: r.label_pos.y,
            }),
            r.val_string_size == self.val_string_size(),
            r.slot_w == slot_width(self.val_string_size()),
            r.pad_h == self.height - 2 * self.frame_w(),
            r.slot_y == self.pos.y + self.frame_w(),
            r.shades@.len() == r.val_string@.len(),
            forall|i: int|
                0 <= i < r.shades@.len() ==> #[trigger] r.shades@[i] == slot_shade(r.state, i),
    {
        let frame_w: i64 = match self.maybe_frame {
            Some(f) => f,
            None => 0,
        };
        let pad_h = self.height - 2 * frame_w;
        let (lw, label_h, label_size): (i64, i64, Option<FontSize>) = match &self.maybe_label {
            Some((_, s)) => (label_w as i64, *s as i64, Some(*s)),
            None => (0, 0, None),
        };
        let len = val_string_len(self.max, self.precision);
        proof {
            lemma_text_shape(self.max);
        }
        let val_string = create_val_string(self.value, len, self.precision);
        proof {
            let sw = slot_width(match label_size {
                Some(s) => s,
                None => DEFAULT_FONT_SIZE,
            });
            assert(0 <= sw <= 0xFFFF_FFFF);
            assert(sw * len <= 0xFFFF_FFFF * 300) by (nonlinear_arith)
                requires
                    len <= 300,
                    0 <= sw <= 0xFFFF_FFFF,
            ;
        }
        let (val_string_w, size) = val_string_dimensions(DEFAULT_FONT_SIZE, label_size, len);
        let slot_w = value_glyph_slot_width(size);
        let label_x = self.pos.x as i128 + half_floor(
            self.width as i128 - (lw as i128 + val_string_w as i128),
        );
        let label_y = self.pos.y as i128 + half_floor(self.height as i128 - DEFAULT_FONT_SIZE as i128);
        let l_pos = Point { x: label_x as i64, y: label_y as i64 };
        let layout = HitLayout {
            pos: self.pos,
            frame_w,
            rect_w: self.width,
            rect_h: self.height,
            l_pos,
            label_w: lw,
            label_h,
            val_string_w,
            val_string_h: size,
            val_string_len: len,
        };
        assert(layout == self.layout(label_w as int));
        let hit = is_over(&layout, mouse.pos);
        let new_state = get_new_state(hit, state, mouse);
        let new_val = match (state, new_state) {
            (
                State::Clicked(Element::ValueGlyph(idx, y)),
                State::Clicked(Element::ValueGlyph(_, new_y)),
            ) => {
                let has_point = str_point(val_string.as_str()).is_some();
                if has_point || idx < val_string.as_str().unicode_len() {
                    get_new_value(
                        self.value,
                        self.min,
                        self.max,
                        idx,
                        compare_y(new_y, y),
                        &val_string,
                    )
                } else {
                    self.value
                }
            },
            _ => self.value,
        };
        let changed = !self.value.eq_value(&new_val);
        let new_string = create_val_string(new_val, len, self.precision);
        let edge = match (state, new_state) {
            (State::Highlighted(_), State::Clicked(_)) => true,
            (State::Clicked(_), State::Highlighted(_)) => true,
            _ => false,
        };
        let n = new_string.as_str().unicode_len();
        let shades = slot_shades(new_state, n);
        Frame {
            hit,
            state: new_state,
            value: new_val,
            val_string: new_string,
            call_callback: changed || edge,
            label_pos: l_pos,
            val_string_pos: Point { x: l_pos.x + lw, y: l_pos.y },
            val_string_size: size,
            slot_w,
            pad_h,
            slot_y: self.pos.y + frame_w,
            shades,
        }
    }
}

impl Labelable for NumberDialerContext {
    /// The same dialer with a label of `text` in font size `size`.
    fn label(self, text: &str, size: FontSize) -> Self {
        NumberDialerContext { maybe_label: Some((String::from_str(text), size)), ..self }
    }
}

} // verus!
