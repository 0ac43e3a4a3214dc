//! The Vulkan side of the engine that is plain bookkeeping: memory ranges and the pool allocator.
pub mod allocator;
pub mod creation_info;
pub mod dedicated_pool_allocator;
pub mod graphics_pipeline_builder;
pub mod memory_range;
pub mod physical_device;
