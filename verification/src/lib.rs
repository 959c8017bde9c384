//! Compact widget identifiers: a path of child indices packed into a 64-bit
//! word where it fits, with a shared heap array as fallback, plus a few small
//! value types used alongside them (draw-pass identifiers, shared constants).

pub mod class;
pub mod draw;
pub mod encoding;
pub mod shared_data;
pub mod widget_id;

pub use class::{Align, Class};
pub use draw::{PassId, PassType};
pub use encoding::{block_len, encode, next_from_bits, BitsIter};
pub use shared_data::SharedConst;
pub use widget_id::{PathIter, WidgetId};
