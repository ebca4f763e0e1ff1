//! Text labels: their strings and sizes.
use vstd::prelude::*;
use crate::point::Point;

verus! {

pub type FontSize = u32;

/// Label information passed in widget arguments.
#[derive(Debug, PartialEq, Eq)]
pub enum Labeling {
    Label(String, FontSize),
    NoLabel,
}

/// The sum of the glyph advances `a`.
pub open spec fn advance_sum(a: Seq<u32>) -> int
    decreases a.len(),
{
    if a.len() == 0 {
        0
    } else {
        advance_sum(a.drop_last()) + a.last()
    }
}

/// The pixel width of a text whose glyphs advance by `advances`, in order.
pub fn width(advances: &Vec<u32>) -> (r: u64)
    requires
        advance_sum(advances@) <= u64::MAX,
    ensures
        r == advance_sum(advances@),
{
    let mut total: u64 = 0;
    let mut k: usize = 0;
    while k < advances.len()
        invariant
            k <= advances@.len(),
            advance_sum(advances@) <= u64::MAX,
            total == advance_sum(advances@.subrange(0, k as int)),
        decreases advances@.len() - k,
    {
        proof {
            lemma_advance_sum_prefix(advances@, k as int + 1);
            assert(advances@.subrange(0, k as int + 1).drop_last() =~= advances@.subrange(
                0,
                k as int,
            ));
        }
        total = total + advances[k] as u64;
        k = k + 1;
    }
    assert(advances@.subrange(0, k as int) =~= advances@);
    total
}

proof fn lemma_advance_sum_prefix(a: Seq<u32>, k: int)
    requires
        0 <= k <= a.len(),
    ensures
        advance_sum(a.subrange(0, k)) <= advance_sum(a),
    decreases a.len(),
{
    if k < a.len() {
        lemma_advance_sum_prefix(a.drop_last(), k);
        assert(a.drop_last().subrange(0, k) =~= a.subrange(0, k));
    } else {
        assert(a.subrange(0, k) =~= a);
    }
}

/// An even font size for a rectangle of height `rect_height`: the height less
/// 832, rounded down to an even number.
pub fn auto_size_from_rect_height(rect_height: u32) -> (r: FontSize)
    requires
        rect_height >= 832,
    ensures
        r == (rect_height - 832) - (rect_height - 832) % 2,
{
    let size = rect_height - 832;
    if size % 2 == 0 {
        size
    } else {
        size - 1
    }
}

/// The text drawn for a label: the label followed by a colon and a space.
pub fn label_string(text: &str) -> (r: String)
    ensures
        r@ == text@ + ": "@,
{
    let mut s = String::from_str(text);
    s.append(": ");
    s
}

/// Widgets that take a label.
pub trait Labelable: Sized {
    fn label(self, text: &str, size: FontSize) -> Self;
}

/// A label to be drawn at a position with a font size.
pub struct LabelContext {
    pub text: String,
    pub pos: Point,
    pub size: FontSize,
}

impl LabelContext {
    /// A label of `text` at the origin, in the default font size 24.
    pub fn new(text: &str) -> (r: LabelContext)
        ensures
            r.text@ == text@,
            r.pos == (Point { x: 0, y: 0 }),
            r.size == 24,
    {
        LabelContext { text: String::from_str(text), pos: Point { x: 0, y: 0 }, size: 24 }
    }

    /// The same label in font size `size`.
    pub fn size(self, size: FontSize) -> (r: LabelContext)
        ensures
            r.text@ == self.text@,
            r.pos == self.pos,
            r.size == size,
    {
        LabelContext { size, ..self }
    }
}

} // verus!
