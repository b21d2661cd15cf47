//! The run configuration, fixed before the simulation starts.
use vstd::prelude::*;
use crate::color::{channel_ok, CHANNEL_MAX};

verus! {

/// Settings of one run. Channel values are fixed-point, `ONE` being 1.0.
#[derive(Clone, Copy, Debug, PartialEq, Eq, Structural)]
pub struct Configuration {
    pub width: u32,
    pub height: u32,
    pub generations: u32,
    pub clamp_min: i32,
    pub clamp_max: i32,
    /// Length below which an input pixel is dropped to the zero color.
    pub threshold: i32,
}

/// Why a configuration was refused.
#[derive(Clone, Copy, Debug, PartialEq, Eq, Structural)]
pub enum ConfigError {
    /// `clamp_min` exceeds `clamp_max`.
    EmptyClampRange,
    /// A clamp bound lies outside the channel range.
    ClampOutOfRange,
    /// `width * height` cells cannot be held in memory.
    GridTooLarge,
}

impl Configuration {
    pub open spec fn wf(&self) -> bool {
        &&& self.clamp_min <= self.clamp_max
        &&& channel_ok(self.clamp_min as int)
        &&& channel_ok(self.clamp_max as int)
        &&& self.width * self.height <= usize::MAX
    }

    /// The configuration with these settings, once they are checked.
    pub fn new(
        width: u32,
        height: u32,
        generations: u32,
        clamp_min: i32,
        clamp_max: i32,
        threshold: i32,
    ) -> (r: Result<Configuration, ConfigError>)
        ensures
            clamp_min > clamp_max ==> r == Err::<Configuration, ConfigError>(
                ConfigError::EmptyClampRange,
            ),
            clamp_min <= clamp_max && !(channel_ok(clamp_min as int) && channel_ok(
                clamp_max as int,
            )) ==> r == Err::<Configuration, ConfigError>(ConfigError::ClampOutOfRange),
            clamp_min <= clamp_max && channel_ok(clamp_min as int) && channel_ok(clamp_max as int)
                && width * height > usize::MAX ==> r == Err::<Configuration, ConfigError>(
                ConfigError::GridTooLarge,
            ),
            r.is_ok() <==> (Configuration {
                width,
                height,
                generations,
                clamp_min,
                clamp_max,
                threshold,
            }).wf(),
            r.is_ok() ==> r == Ok::<Configuration, ConfigError>(
                (Configuration { width, height, generations, clamp_min, clamp_max, threshold }),
            ),
    {
        if clamp_min > clamp_max {
            return Err(ConfigError::EmptyClampRange);
        }
        if clamp_min < -CHANNEL_MAX || clamp_max > CHANNEL_MAX {
            return Err(ConfigError::ClampOutOfRange);
        }
        assert(width * height <= 0xffff_ffff * 0xffff_ffff) by (nonlinear_arith)
            requires
                width <= 0xffff_ffff,
                height <= 0xffff_ffff,
        ;
        let cells: u64 = (width as u64) * (height as u64);
        if cells > usize::MAX as u64 {
            return Err(ConfigError::GridTooLarge);
        }
        Ok(Configuration { width, height, generations, clamp_min, clamp_max, threshold })
    }
}

} // verus!
