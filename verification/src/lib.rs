use vstd::prelude::*;

pub mod angles;
pub mod arith;
pub mod color;
pub mod convert;
pub mod generator;
pub mod matcher;
pub mod mixer;
pub mod palette;
pub mod reference;
pub mod rng;
pub mod text;

pub use color::Color;
pub use generator::{generate, generate_seeded};
pub use matcher::{closest_order, get_matching_absolute_color, ColorNameWeight};
pub use mixer::mix;
pub use palette::{Palette, PaletteOption, ParseError};
pub use reference::{ColorNames, Reference};

verus! {

} // verus!
