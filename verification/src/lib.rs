//! Watershed transforms of greyscale images.
//!
//! Water rises from seeds in an image, level by level. At each level it floods the
//! pixels that it can get to, and the sizes of the lakes are counted. A merging
//! transform makes one lake of those that touch, a segmenting transform keeps them
//! apart.
//!
//! [`builder`] configures a [`transform`], whose steps are [`flooding`], [`merging`] and
//! the counting of [`lakes`], over the arrays of [`grid`]. What holds of them together
//! is stated in [`laws`], [`rise_laws`], [`water_laws`] and [`lake_laws`]. What each of
//! them does is stated once more, in the words of [`plain`] alone, in [`step_laws`],
//! [`spread_laws`] and [`outcome_laws`].

pub mod builder;
pub mod colour_map;
pub mod decimal;
pub mod flooding;
pub mod grid;
pub mod lake_laws;
pub mod lakes;
pub mod laws;
pub mod levels;
pub mod merging;
pub mod neighbours;
pub mod outcome_laws;
pub mod plain;
pub mod prelude;
pub mod random;
pub mod relation;
pub mod rise_laws;
pub mod sorted;
pub mod spread_laws;
pub mod step_laws;
pub mod transform;
pub mod water_laws;
pub mod window;
