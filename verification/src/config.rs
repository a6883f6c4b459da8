//! The parameters of a run, checked before any frame is read.

use vstd::prelude::*;

use crate::color::{Threshold, THRESHOLD_SCALE};
use crate::error::PaletteError;

verus! {

/// The parameters of a run: the height to which frames are sampled down,
/// the two thresholds of the pixel filter, and the number of clusters.
#[derive(Clone, Copy, Debug)]
pub struct Config {
    resize_height: i32,
    saturation: Threshold,
    luminance: Threshold,
    color_clusters: usize,
}

/// The parameters are in their domains: a positive sample height, both
/// thresholds between 0.0 and 1.0 in millionths, and at least one cluster.
pub open spec fn is_valid_configuration(
    resize_height: i32,
    saturation: u32,
    luminance: u32,
    color_clusters: usize,
) -> bool {
    &&& resize_height > 0
    &&& saturation <= THRESHOLD_SCALE
    &&& luminance <= THRESHOLD_SCALE
    &&& color_clusters > 0
}

impl Config {
    #[verifier::type_invariant]
    spec fn in_domain(self) -> bool {
        self.resize_height > 0 && self.color_clusters > 0
    }

    /// The height to which frames are sampled down.
    pub closed spec fn sample_height(self) -> int {
        self.resize_height as int
    }

    /// The threshold that the saturation of a kept pixel reaches.
    pub closed spec fn saturation_threshold(self) -> Threshold {
        self.saturation
    }

    /// The threshold that the value of a kept pixel reaches.
    pub closed spec fn luminance_threshold(self) -> Threshold {
        self.luminance
    }

    /// The number of clusters.
    pub closed spec fn num_clusters(self) -> int {
        self.color_clusters as int
    }

    /// The parameters of a run, with both thresholds in millionths.
    /// Parameters outside their domains give `InvalidConfiguration`.
    pub fn new(resize_height: i32, saturation: u32, luminance: u32, color_clusters: usize) -> (result:
        Result<Config, PaletteError>)
        ensures
            is_valid_configuration(resize_height, saturation, luminance, color_clusters) ==> {
                &&& result is Ok
                &&& result->Ok_0.sample_height() == resize_height
                &&& result->Ok_0.saturation_threshold().value() == saturation
                &&& result->Ok_0.luminance_threshold().value() == luminance
                &&& result->Ok_0.num_clusters() == color_clusters
            },
            !is_valid_configuration(resize_height, saturation, luminance, color_clusters)
                ==> result == Err::<Config, PaletteError>(PaletteError::InvalidConfiguration),
    {
        if resize_height <= 0 || color_clusters == 0 {
            return Err(PaletteError::InvalidConfiguration);
        }
        let saturation = match Threshold::new(saturation) {
            Ok(threshold) => threshold,
            Err(e) => {
                return Err(e);
            },
        };
        let luminance = match Threshold::new(luminance) {
            Ok(threshold) => threshold,
            Err(e) => {
                return Err(e);
            },
        };
        Ok(Config { resize_height, saturation, luminance, color_clusters })
    }

    pub fn resize_height(&self) -> (height: i32)
        ensures
            height == self.sample_height(),
            height > 0,
    {
        proof {
            use_type_invariant(self);
        }
        self.resize_height
    }

    pub fn saturation(&self) -> (threshold: Threshold)
        ensures
            threshold == self.saturation_threshold(),
    {
        self.saturation
    }

    pub fn luminance(&self) -> (threshold: Threshold)
        ensures
            threshold == self.luminance_threshold(),
    {
        self.luminance
    }

    pub fn color_clusters(&self) -> (clusters: usize)
        ensures
            clusters == self.num_clusters(),
            clusters > 0,
    {
        proof {
            use_type_invariant(self);
        }
        self.color_clusters
    }
}

} // verus!
