//! What a render is asked to do, and the check that it can be done.

use vstd::prelude::*;
use crate::binary64::Binary64;

verus! {

/// The reason a set of render parameters is refused.
#[derive(Clone, Copy, Debug, PartialEq, Eq, Structural)]
pub enum ConfigError {
    /// The canvas has no columns.
    ZeroWidth,
    /// The canvas has no rows.
    ZeroHeight,
    /// The sampling resolution has no columns.
    ZeroCaptureWidth,
    /// The sampling resolution has no rows.
    ZeroCaptureHeight,
    /// No iteration is allowed.
    ZeroIterations,
    /// The scale is not a number greater than zero.
    ScaleNotPositive,
    /// The zoom is not a number greater than zero.
    ZoomNotPositive,
    /// The pool that is to do the work has no worker.
    NoWorkers,
}

/// The parameters of one render. Every value of this type that the crate
/// hands out satisfies [`RenderConfig::wf`].
#[derive(Clone, Copy, Debug, PartialEq, Eq, Structural)]
pub struct RenderConfig {
    /// Columns of the output canvas.
    pub width: u32,
    /// Rows of the output canvas.
    pub height: u32,
    /// Columns of the sampling resolution.
    pub capture_width: u32,
    /// Rows of the sampling resolution.
    pub capture_height: u32,
    /// The most iterations spent on one point.
    pub max_iterations: u32,
    /// The extent of the sampled region of the plane.
    pub scale: Binary64,
    /// The magnification.
    pub zoom: Binary64,
}

/// The first fault of a set of parameters, in the order in which the
/// parameters are given, or `None` where there is none.
pub open spec fn first_fault(
    width: u32,
    height: u32,
    capture_width: u32,
    capture_height: u32,
    max_iterations: u32,
    scale: Binary64,
    zoom: Binary64,
) -> Option<ConfigError> {
    if width == 0 {
        Some(ConfigError::ZeroWidth)
    } else if height == 0 {
        Some(ConfigError::ZeroHeight)
    } else if capture_width == 0 {
        Some(ConfigError::ZeroCaptureWidth)
    } else if capture_height == 0 {
        Some(ConfigError::ZeroCaptureHeight)
    } else if max_iterations == 0 {
        Some(ConfigError::ZeroIterations)
    } else if !scale.spec_is_positive() {
        Some(ConfigError::ScaleNotPositive)
    } else if !zoom.spec_is_positive() {
        Some(ConfigError::ZoomNotPositive)
    } else {
        None
    }
}

impl RenderConfig {
    /// The encoding of one: the zoom that magnifies nothing.
    pub const UNIT_ZOOM: u64 = 0x3ff0_0000_0000_0000;

    /// Every dimension and the iteration budget are at least one, and scale
    /// and zoom are greater than zero.
    pub open spec fn wf(self) -> bool {
        &&& self.width > 0
        &&& self.height > 0
        &&& self.capture_width > 0
        &&& self.capture_height > 0
        &&& self.max_iterations > 0
        &&& self.scale.spec_is_positive()
        &&& self.zoom.spec_is_positive()
    }

    /// The fault that [`RenderConfig::validate`] reports for these values.
    pub open spec fn fault(self) -> Option<ConfigError> {
        first_fault(
            self.width,
            self.height,
            self.capture_width,
            self.capture_height,
            self.max_iterations,
            self.scale,
            self.zoom,
        )
    }

    /// Checks the parameters and, where all are in order, makes a
    /// configuration of them. Otherwise reports the first that is not.
    pub fn new(
        width: u32,
        height: u32,
        capture_width: u32,
        capture_height: u32,
        max_iterations: u32,
        scale: Binary64,
        zoom: Binary64,
    ) -> (made: Result<RenderConfig, ConfigError>)
        ensures
            match made {
                Ok(config) => {
                    &&& config.wf()
                    &&& first_fault(
                        width,
                        height,
                        capture_width,
                        capture_height,
                        max_iterations,
                        scale,
                        zoom,
                    ) is None
                    &&& config == (RenderConfig {
                        width,
                        height,
                        capture_width,
                        capture_height,
                        max_iterations,
                        scale,
                        zoom,
                    })
                },
                Err(e) => first_fault(
                    width,
                    height,
                    capture_width,
                    capture_height,
                    max_iterations,
                    scale,
                    zoom,
                ) == Some(e),
            },
    {
        let config = RenderConfig {
            width,
            height,
            capture_width,
            capture_height,
            max_iterations,
            scale,
            zoom,
        };
        match config.validate() {
            Ok(()) => Ok(config),
            Err(e) => Err(e),
        }
    }

    /// The same as [`RenderConfig::new`] with a zoom of one.
    pub fn with_unit_zoom(
        width: u32,
        height: u32,
        capture_width: u32,
        capture_height: u32,
        max_iterations: u32,
        scale: Binary64,
    ) -> (made: Result<RenderConfig, ConfigError>)
        ensures
            match made {
                Ok(config) => {
                    &&& config.wf()
                    &&& config == (RenderConfig {
                        width,
                        height,
                        capture_width,
                        capture_height,
                        max_iterations,
                        scale,
                        zoom: Binary64 { bits: RenderConfig::UNIT_ZOOM },
                    })
                },
                Err(e) => first_fault(
                    width,
                    height,
                    capture_width,
                    capture_height,
                    max_iterations,
                    scale,
                    Binary64 { bits: RenderConfig::UNIT_ZOOM },
                ) == Some(e),
            },
            made is Ok <==> first_fault(
                width,
                height,
                capture_width,
                capture_height,
                max_iterations,
                scale,
                Binary64 { bits: RenderConfig::UNIT_ZOOM },
            ) is None,
    {
        RenderConfig::new(
            width,
            height,
            capture_width,
            capture_height,
            max_iterations,
            scale,
            Binary64::from_bits(RenderConfig::UNIT_ZOOM),
        )
    }

    /// Checks a configuration whose fields were set by hand.
    pub fn validate(&self) -> (checked: Result<(), ConfigError>)
        ensures
            checked is Ok <==> self.wf(),
            match checked {
                Ok(()) => self.fault() is None,
                Err(e) => self.fault() == Some(e),
            },
    {
        if self.width == 0 {
            Err(ConfigError::ZeroWidth)
        } else if self.height == 0 {
            Err(ConfigError::ZeroHeight)
        } else if self.capture_width == 0 {
            Err(ConfigError::ZeroCaptureWidth)
        } else if self.capture_height == 0 {
            Err(ConfigError::ZeroCaptureHeight)
        } else if self.max_iterations == 0 {
            Err(ConfigError::ZeroIterations)
        } else if !self.scale.is_positive() {
            Err(ConfigError::ScaleNotPositive)
        } else if !self.zoom.is_positive() {
            Err(ConfigError::ZoomNotPositive)
        } else {
            Ok(())
        }
    }
}

/// A configuration is in order exactly where no fault is found in it.
pub proof fn lemma_wf_iff_no_fault(config: RenderConfig)
    ensures
        config.wf() <==> config.fault() is None,
{
}

} // verus!
