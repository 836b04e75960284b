//! Configuring a transform.

use crate::decimal::{append_decimal, decimal};
use crate::levels::NORMAL_MAX;
use crate::transform::{MergingWatershed, SegmentingWatershed, Watershed};
use vstd::prelude::*;
use vstd::string::StringExecFns;

verus! {

/// What is said where there is no folder for the plots.
pub const NO_PLOT_FOLDER: &'static str =
    "Cannot configure watershed transform to plot without specifying an output path for the plots. Please disable the `plots` feature or specify an output path.";

/// What is said where there is no colour map for the plots.
pub const NO_COLOUR_MAP: &'static str =
    "No colour map to be used for plotting of watershed transform was specified. This is a library bug.";

/// Why a transform that plots its canvases cannot be built.
#[derive(Debug, Clone, Copy, PartialEq, Eq, Structural)]
pub enum BuildError {
    /// The water level is above [`NORMAL_MAX`].
    WaterLevelTooHigh(u8),
    /// There is no folder for the plots.
    NoPlotFolder,
    /// There is no colour map for the plots.
    NoColourMap,
}

impl BuildError {
    /// What the error says to a reader.
    pub open spec fn text(self) -> Seq<char> {
        match self {
            BuildError::WaterLevelTooHigh(lvl) => "Max water level was set at "@ + decimal(
                lvl as nat,
            ) + ", which is higher than the allowed maximum ("@ + decimal(NORMAL_MAX as nat)
                + ")."@,
            BuildError::NoPlotFolder => NO_PLOT_FOLDER@,
            BuildError::NoColourMap => NO_COLOUR_MAP@,
        }
    }

    /// What the error says to a reader.
    pub fn message(self) -> (res: String)
        ensures
            res@ == self.text(),
    {
        match self {
            BuildError::WaterLevelTooHigh(lvl) => {
                let mut message = "Max water level was set at ".to_owned();
                append_decimal(&mut message, lvl);
                message.append(", which is higher than the allowed maximum (");
                append_decimal(&mut message, NORMAL_MAX);
                message.append(").");
                message
            },
            BuildError::NoPlotFolder => NO_PLOT_FOLDER.to_owned(),
            BuildError::NoColourMap => NO_COLOUR_MAP.to_owned(),
        }
    }
}

/// Configures a transform and builds it.
#[derive(Debug)]
pub struct TransformBuilder {
    segmenting: bool,
    max_water_level: u8,
}

impl Clone for TransformBuilder {
    fn clone(&self) -> (res: Self)
        ensures
            res == *self,
    {
        TransformBuilder { segmenting: self.segmenting, max_water_level: self.max_water_level }
    }
}

impl Default for TransformBuilder {
    /// A builder of a merging transform without any level.
    fn default() -> (res: Self)
        ensures
            !res.is_segmenting(),
            res.water_limit() == 0,
    {
        TransformBuilder { segmenting: false, max_water_level: 0 }
    }
}

impl TransformBuilder {
    /// Whether the transform keeps lakes apart when they touch.
    pub closed spec fn is_segmenting(self) -> bool {
        self.segmenting
    }

    /// The water rises to the levels below this one.
    pub closed spec fn water_limit(self) -> u8 {
        self.max_water_level
    }

    /// Whether the transform merges lakes when they touch.
    pub fn merges_lakes(&self) -> (res: bool)
        ensures
            res == !self.is_segmenting(),
    {
        !self.segmenting
    }

    /// The level that the water stays below.
    pub fn max_water_level(&self) -> (res: u8)
        ensures
            res == self.water_limit(),
    {
        self.max_water_level
    }

    /// A builder of a transform that keeps lakes apart.
    pub fn new_segmenting() -> (res: Self)
        ensures
            res.is_segmenting(),
            res.water_limit() == NORMAL_MAX,
    {
        TransformBuilder { segmenting: true, max_water_level: NORMAL_MAX }
    }

    /// A builder of a transform that merges lakes.
    pub fn new_merging() -> (res: Self)
        ensures
            !res.is_segmenting(),
            res.water_limit() == NORMAL_MAX,
    {
        TransformBuilder { segmenting: false, max_water_level: NORMAL_MAX }
    }

    /// Lets the water rise to the levels below `max_water_lvl`.
    pub fn set_max_water_lvl(self, max_water_lvl: u8) -> (res: Self)
        ensures
            res.is_segmenting() == self.is_segmenting(),
            res.water_limit() == max_water_lvl,
    {
        let mut builder = self;
        builder.max_water_level = max_water_lvl;
        builder
    }

    /// The transform.
    pub fn build(self) -> (res: Result<Box<dyn Watershed>, String>)
        ensures
            res is Ok,
            res->Ok_0.is_merging() == !self.is_segmenting(),
            res->Ok_0.water_limit() == self.water_limit(),
    {
        if self.segmenting {
            Ok(Box::new(SegmentingWatershed::new(self.max_water_level)))
        } else {
            Ok(Box::new(MergingWatershed::new(self.max_water_level)))
        }
    }

    /// The transform, for plotting its canvases: the water level may not be above
    /// [`NORMAL_MAX`], and there has to be a folder for the plots and a colour map.
    pub fn build_plotting(self, has_folder: bool, has_colour_map: bool) -> (res: Result<
        Box<dyn Watershed>,
        BuildError,
    >)
        ensures
            match res {
                Ok(transform) => {
                    &&& self.water_limit() <= NORMAL_MAX
                    &&& has_folder
                    &&& has_colour_map
                    &&& transform.is_merging() == !self.is_segmenting()
                    &&& transform.water_limit() == self.water_limit()
                },
                Err(BuildError::WaterLevelTooHigh(lvl)) => self.water_limit() > NORMAL_MAX && lvl
                    == self.water_limit(),
                Err(BuildError::NoPlotFolder) => self.water_limit() <= NORMAL_MAX && !has_folder,
                Err(BuildError::NoColourMap) => self.water_limit() <= NORMAL_MAX && has_folder
                    && !has_colour_map,
            },
    {
        if self.max_water_level > NORMAL_MAX {
            Err(BuildError::WaterLevelTooHigh(self.max_water_level))
        } else if !has_folder {
            Err(BuildError::NoPlotFolder)
        } else if !has_colour_map {
            Err(BuildError::NoColourMap)
        } else if self.segmenting {
            Ok(Box::new(SegmentingWatershed::new(self.max_water_level)))
        } else {
            Ok(Box::new(MergingWatershed::new(self.max_water_level)))
        }
    }
}

} // verus!
