//! Measuring, slicing, padding, truncating, wrapping and repairing text that
//! holds terminal style escape sequences, which count as zero-width tokens.

pub mod codes;
pub mod layout;
pub mod repair;
pub mod scan;
pub mod text;

pub use codes::{ansi_pair, background_str, color_str, style_str, TextAlign, TextBackground, TextColor, TextStyle};
pub use layout::{pad_str, slice_str, trucate_str, wrap_str};
pub use repair::repaire_str;
pub use scan::{clean_str, match_indices, size_str, ANSI_REGEX};
