# voxelar

The bookkeeping of a small voxel engine, verified with Verus.

- `src/` is the library. Every function of it is verified but one small trusted wrapper of
  `std::time::Instant::now`, of whose result nothing is promised:
  - `voxel`: a dense voxel grid and its coordinate arithmetic;
  - `receivable_events`: the set of window events a window listens to;
  - `vulkan::memory_range`: the free offsets of a block of device memory;
  - `vulkan::dedicated_pool_allocator`: a pool allocator for device memory, built on the free
    ranges, that tells its caller which blocks of device memory to create and to free;
  - `vulkan::creation_info`, `vulkan::physical_device`, `vulkan::graphics_pipeline_builder`:
    the choices made while setting up Vulkan objects;
  - `result`: the library's error type.
- `app/` holds what talks to the driver, the window system and the clock: OpenGL and Vulkan
  objects, cameras and frame timing, and the error type with its messages.
- `tests/` runs the library on concrete values.
