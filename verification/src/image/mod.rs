//! Rasters, patterns and the template matcher.

pub mod decode;
pub mod finder;
pub mod flatten_array;
pub mod gray_image;
pub mod lanes;
pub mod matching;
pub mod luma_matrix;
pub mod packed;
pub mod pattern;
pub mod raster;
pub mod score;
pub mod screenshot;

pub use decode::{decoded_luma8, decoded_png_rgba8};
pub use finder::Finder;
pub use matching::{find_in, located, Direction};
pub use flatten_array::FlattenArray;
pub use gray_image::{chosen_factor, compress, gray_of, CompressedGrayImage, GrayImage};
pub use lanes::lanes;
pub use luma_matrix::LumaMatrix;
pub use packed::{PackedGrayImage, RedundantPackedGrayImage};
pub use pattern::Pattern;
pub use raster::Raster;
pub use score::{integer_sqrt, match_score, score_of, EPS, SCORE_SCALE, THRESHOLD};
pub use screenshot::{luma_of, swap_r_and_b, Frame, Pixel, Screenshot};
