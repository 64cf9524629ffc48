use vstd::prelude::*;

pub mod text;
pub mod validation;
pub mod labels;
pub mod segmentation;
pub mod status;
pub mod playback;
pub mod canvas;
pub mod reconstruction;
pub mod names;
pub mod ini;
pub mod ini_values;
pub mod ini_write;
pub mod memory;
pub mod panel_layout;
pub mod fft_csv;

verus! {
} // verus!
