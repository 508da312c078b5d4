//! The configuration of a run, and its validation.

use vstd::prelude::*;

verus! {

/// The configuration of one puzzle run.
#[derive(Debug, Clone)]
pub struct Settings {
    pub grid_size: usize,
    pub min_solutions: usize,
    pub side_types: u8,
}

/// A rectangle cut out of an edge image when a solution is drawn.
pub struct ImageCrop {
    pub x: u32,
    pub y: u32,
    pub width: u32,
    pub height: u32,
}

/// Edge values are stored in an `i8`, so at most this many shapes exist.
pub const MAX_SIDE_TYPES: u8 = 127;

/// Why a configuration cannot be used.
#[derive(Debug, Clone, Copy, PartialEq, Eq, Structural)]
pub enum SettingsError {
    ZeroGridSize,
    ZeroMinSolutions,
    ZeroSideTypes,
    TooManySideTypes,
    GridTooLarge,
}

impl Settings {
    /// The configurations that generation and search accept.
    pub open spec fn is_valid(&self) -> bool {
        &&& self.grid_size >= 1
        &&& self.min_solutions >= 1
        &&& 1 <= self.side_types <= MAX_SIDE_TYPES
        &&& self.grid_size * self.grid_size <= usize::MAX
    }

    /// Checks the configuration before any generation or search happens.
    pub fn validate(&self) -> (r: Result<(), SettingsError>)
        ensures
            r is Ok <==> self.is_valid(),
            r == Err::<(), SettingsError>(SettingsError::ZeroGridSize) <==> self.grid_size == 0,
            r == Err::<(), SettingsError>(SettingsError::ZeroMinSolutions) <==> (
                self.grid_size != 0 && self.min_solutions == 0),
            r == Err::<(), SettingsError>(SettingsError::ZeroSideTypes) <==> (
                self.grid_size != 0 && self.min_solutions != 0 && self.side_types == 0),
            r == Err::<(), SettingsError>(SettingsError::TooManySideTypes) <==> (
                self.grid_size != 0 && self.min_solutions != 0 && self.side_types
                    > MAX_SIDE_TYPES),
            r == Err::<(), SettingsError>(SettingsError::GridTooLarge) <==> (
                self.grid_size != 0 && self.min_solutions != 0 && 1 <= self.side_types
                    <= MAX_SIDE_TYPES && self.grid_size * self.grid_size > usize::MAX),
    {
        if self.grid_size == 0 {
            return Err(SettingsError::ZeroGridSize);
        }
        if self.min_solutions == 0 {
            return Err(SettingsError::ZeroMinSolutions);
        }
        if self.side_types == 0 {
            return Err(SettingsError::ZeroSideTypes);
        }
        if self.side_types > MAX_SIDE_TYPES {
            return Err(SettingsError::TooManySideTypes);
        }
        if self.grid_size.checked_mul(self.grid_size).is_none() {
            return Err(SettingsError::GridTooLarge);
        }
        Ok(())
    }
}

} // verus!
