//! The settings that Vulkan data structures are created with.
//!
//! Present modes are carried as the raw values of `VkPresentModeKHR`.
use vstd::prelude::*;

use crate::result::{Result, VoxelarError};

verus! {

/// How the swapchain's present mode is chosen among the modes that the surface supports.
#[derive(Debug, PartialEq, Eq, Clone, Copy)]
pub enum PresentModeInitMode {
    /// The wanted mode, or an error where it is not supported.
    Find(i32),
    /// The wanted mode, or the fallback where it is not supported.
    FindOrFallback { wanted_mode: i32, fallback: i32 },
}

/// The settings for creating the engine's data structures.
#[derive(Debug, PartialEq, Eq, Clone, Copy)]
pub struct DataStructureCreationInfo {
    pub swapchain_present_mode: PresentModeInitMode,
    pub frame_overlap: usize,
}

impl PresentModeInitMode {
    /// Chooses the present mode among the supported `present_modes`.
    pub fn find_present_mode(&self, present_modes: Vec<i32>) -> (r: Result<i32>)
        ensures
            match *self {
                PresentModeInitMode::Find(wanted_mode) => if present_modes@.contains(wanted_mode) {
                    r == Ok::<i32, VoxelarError>(wanted_mode)
                } else {
                    r == Err::<i32, VoxelarError>(
                        VoxelarError::PresentModeNotSupported { mode: wanted_mode },
                    )
                },
                PresentModeInitMode::FindOrFallback { wanted_mode, fallback } => r == Ok::<
                    i32,
                    VoxelarError,
                >(if present_modes@.contains(wanted_mode) {
                    wanted_mode
                } else {
                    fallback
                }),
            },
    {
        let wanted_mode = match *self {
            PresentModeInitMode::Find(wanted_mode) => wanted_mode,
            PresentModeInitMode::FindOrFallback { wanted_mode, .. } => wanted_mode,
        };
        let mut i: usize = 0;
        let mut found = false;
        while i < present_modes.len()
            invariant
                0 <= i <= present_modes@.len(),
                found == exists|k: int| 0 <= k < i && present_modes@[k] == wanted_mode,
            decreases present_modes@.len() - i,
        {
            if present_modes[i] == wanted_mode {
                found = true;
            }
            i = i + 1;
        }
        proof {
            if found {
                assert(present_modes@.contains(wanted_mode));
            }
        }
        match *self {
            PresentModeInitMode::Find(wanted_mode) => {
                if found {
                    Ok(wanted_mode)
                } else {
                    Err(VoxelarError::PresentModeNotSupported { mode: wanted_mode })
                }
            },
            PresentModeInitMode::FindOrFallback { wanted_mode, fallback } => {
                if found {
                    Ok(wanted_mode)
                } else {
                    Ok(fallback)
                }
            },
        }
    }
}

} // verus!
