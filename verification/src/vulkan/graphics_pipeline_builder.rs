//! Reading the optional pieces of state that a graphics pipeline is built from, and checking
//! that all of them were set.
use vstd::prelude::*;

use crate::result::{Result, VoxelarError};

verus! {

/// Returns a reference to the value of `opt`, or fails naming `state_name` where it is not set.
pub fn get_safe_ref<'member, T>(opt: &'member Option<T>, state_name: &str) -> (r: Result<
    &'member T,
>)
    ensures
        match opt {
            Some(v) => r == Ok::<&T, VoxelarError>(v),
            None => r matches Err(VoxelarError::StateNotSet(name)) && name@ == state_name@,
        },
{
    match opt {
        Some(v) => Ok(v),
        None => Err(VoxelarError::StateNotSet(state_name.to_owned())),
    }
}

/// Returns the value of `opt`, or fails naming `state_name` where it is not set.
pub fn get_safe_copy<T: Copy>(opt: Option<T>, state_name: &str) -> (r: Result<T>)
    ensures
        match opt {
            Some(v) => r == Ok::<T, VoxelarError>(v),
            None => r matches Err(VoxelarError::StateNotSet(name)) && name@ == state_name@,
        },
{
    match opt {
        Some(v) => Ok(v),
        None => Err(VoxelarError::StateNotSet(state_name.to_owned())),
    }
}

/// Which of the pieces of state that a graphics pipeline is built from were set.
#[derive(Debug, Clone, Copy, PartialEq, Eq)]
pub struct PipelineStateFlags {
    pub viewport: bool,
    pub scissor: bool,
    pub color_blend_attachment: bool,
    pub vertex_input: bool,
    pub input_assembly: bool,
    pub rasterization: bool,
    pub multisample: bool,
    pub depth_stencil: bool,
}

/// The error that names the piece of state `state_name` as not set.
fn not_set(state_name: &str) -> (e: VoxelarError)
    ensures
        e matches VoxelarError::StateNotSet(name) && name@ == state_name@,
{
    VoxelarError::StateNotSet(state_name.to_owned())
}

/// `r` is the error that names `state_name` as not set.
pub open spec fn reports_not_set(r: Result<()>, state_name: &str) -> bool {
    r matches Err(VoxelarError::StateNotSet(name)) && name@ == state_name@
}

/// Checks that every piece of state of a graphics pipeline was set, or fails naming the first
/// one that was not, in the order in which building the pipeline reads them: the viewport, the
/// scissors, the color blend attachment, the vertex input, input assembly, rasterization,
/// multisample and depth stencil states.
pub fn check_pipeline_state(flags: &PipelineStateFlags) -> (r: Result<()>)
    ensures
        !flags.viewport ==> reports_not_set(r, "viewport"),
        flags.viewport && !flags.scissor ==> reports_not_set(r, "scissors"),
        flags.viewport && flags.scissor && !flags.color_blend_attachment ==> reports_not_set(
            r,
            "color blend attachment",
        ),
        flags.viewport && flags.scissor && flags.color_blend_attachment && !flags.vertex_input
            ==> reports_not_set(r, "vertex input state"),
        flags.viewport && flags.scissor && flags.color_blend_attachment && flags.vertex_input
            && !flags.input_assembly ==> reports_not_set(r, "input assembly state"),
        flags.viewport && flags.scissor && flags.color_blend_attachment && flags.vertex_input
            && flags.input_assembly && !flags.rasterization ==> reports_not_set(
            r,
            "rasterization state",
        ),
        flags.viewport && flags.scissor && flags.color_blend_attachment && flags.vertex_input
            && flags.input_assembly && flags.rasterization && !flags.multisample
            ==> reports_not_set(r, "multisample state"),
        flags.viewport && flags.scissor && flags.color_blend_attachment && flags.vertex_input
            && flags.input_assembly && flags.rasterization && flags.multisample
            && !flags.depth_stencil ==> reports_not_set(r, "depth stencil state"),
        flags.viewport && flags.scissor && flags.color_blend_attachment && flags.vertex_input
            && flags.input_assembly && flags.rasterization && flags.multisample
            && flags.depth_stencil ==> r is Ok,
{
    if !flags.viewport {
        return Err(not_set("viewport"));
    }
    if !flags.scissor {
        return Err(not_set("scissors"));
    }
    if !flags.color_blend_attachment {
        return Err(not_set("color blend attachment"));
    }
    if !flags.vertex_input {
        return Err(not_set("vertex input state"));
    }
    if !flags.input_assembly {
        return Err(not_set("input assembly state"));
    }
    if !flags.rasterization {
        return Err(not_set("rasterization state"));
    }
    if !flags.multisample {
        return Err(not_set("multisample state"));
    }
    if !flags.depth_stencil {
        return Err(not_set("depth stencil state"));
    }
    Ok(())
}

} // verus!
