//! Delta-encoded animation reels: frame diffing, reconstruction and the
//! hybrid hex/binary wire format.

pub mod color;
pub mod cursor;
pub mod error;
pub mod frame;
pub mod pixels;
pub mod reel;

pub use color::{Rgb, decode_rgb, pxdiff};
pub use cursor::{ByteCursor, TakeRef, vec_to_u32_ne};
pub use error::FormatError;
pub use frame::{
    BruhDelta, DeltaConfig, Frame, KEYFRAME_PERCENT, OVERWRITE_DISTANCE, build, decode_ops,
};
pub use pixels::Bruh;
pub use reel::Bruhs;
