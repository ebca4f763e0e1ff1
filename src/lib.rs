//! The interactive logic of a numeric dialer widget: a fixed-width,
//! fixed-precision value drawn as digit glyphs, where dragging vertically
//! over a digit changes the value by that digit's place value.

pub mod decimal;
pub mod label;
pub mod mouse_state;
pub mod number_dialer;
pub mod point;
pub mod rectangle;

pub use decimal::Decimal;
pub use label::{FontSize, LabelContext, Labelable, Labeling};
pub use mouse_state::{ButtonState, MouseState};
pub use number_dialer::{
    create_val_string, get_new_state, get_new_value, val_string_dimensions, val_string_len,
    value_glyph_slot_width, Element, Frame, NumberDialerContext, SlotShade, State,
};
pub use point::Point;
