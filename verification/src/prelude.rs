//! What most users of the library need.

pub use crate::builder::TransformBuilder;
pub use crate::grid::Image;
pub use crate::levels::WatershedUtils;
pub use crate::transform::{MergingWatershed, Watershed};
