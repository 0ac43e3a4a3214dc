use voxelar::result::Context;
use voxelar::vulkan::graphics_pipeline_builder::{
    check_pipeline_state, get_safe_copy, get_safe_ref, PipelineStateFlags,
};
use voxelar::vulkan::creation_info::PresentModeInitMode;
use voxelar::vulkan::physical_device::find_memory_type_index;
use voxelar::{Voxelar, VoxelarError};

#[test]
fn a_voxelar_context_can_always_be_created() {
    let ctx = Voxelar::new();
    assert!(ctx.is_ok());
    let start = ctx.unwrap().start_time();
    assert!(start.elapsed().as_secs() < 60);
}

#[test]
fn missing_state_is_reported_by_name() {
    assert_eq!(Ok(3), get_safe_copy(Some(3), "viewport"));
    assert_eq!(
        Err(VoxelarError::StateNotSet("viewport".to_string())),
        get_safe_copy::<u32>(None, "viewport")
    );
    let set = Some(5u8);
    assert_eq!(Ok(&5u8), get_safe_ref(&set, "scissors"));
    let unset: Option<u8> = None;
    assert_eq!(
        Err(VoxelarError::StateNotSet("scissors".to_string())),
        get_safe_ref(&unset, "scissors")
    );
}

#[test]
fn context_turns_none_into_a_custom_error() {
    assert_eq!(Ok(4), Some(4).context("missing".to_string()));
    assert_eq!(
        Err(VoxelarError::Custom("missing".to_string())),
        None::<i32>.context("missing".to_string())
    );
}

#[test]
fn the_first_allowed_memory_type_with_the_required_flags_is_chosen() {
    let flags = vec![0b001, 0b011, 0b110, 0b111];
    assert_eq!(Some(1), find_memory_type_index(0b1111, 0b010, &flags));
    assert_eq!(Some(3), find_memory_type_index(0b1001, 0b010, &flags));
    assert_eq!(Some(0), find_memory_type_index(0b0001, 0, &flags));
    assert_eq!(None, find_memory_type_index(0b0001, 0b100, &flags));
    assert_eq!(None, find_memory_type_index(0, 0, &flags));
}

#[test]
fn a_present_mode_is_found_or_replaced_by_its_fallback() {
    let supported = vec![0, 2];
    assert_eq!(Ok(2), PresentModeInitMode::Find(2).find_present_mode(supported.clone()));
    assert_eq!(
        Err(VoxelarError::PresentModeNotSupported { mode: 1 }),
        PresentModeInitMode::Find(1).find_present_mode(supported.clone())
    );
    assert_eq!(
        Ok(0),
        PresentModeInitMode::FindOrFallback { wanted_mode: 1, fallback: 0 }
            .find_present_mode(supported.clone())
    );
    assert_eq!(
        Ok(2),
        PresentModeInitMode::FindOrFallback { wanted_mode: 2, fallback: 0 }
            .find_present_mode(supported)
    );
}

#[test]
fn the_first_missing_pipeline_state_is_reported() {
    let all = PipelineStateFlags {
        viewport: true,
        scissor: true,
        color_blend_attachment: true,
        vertex_input: true,
        input_assembly: true,
        rasterization: true,
        multisample: true,
        depth_stencil: true,
    };
    assert_eq!(Ok(()), check_pipeline_state(&all));
    let missing = |name: &str| Err(VoxelarError::StateNotSet(name.to_string()));
    assert_eq!(missing("viewport"), check_pipeline_state(&PipelineStateFlags { viewport: false, depth_stencil: false, ..all }));
    assert_eq!(missing("scissors"), check_pipeline_state(&PipelineStateFlags { scissor: false, multisample: false, ..all }));
    assert_eq!(
        missing("color blend attachment"),
        check_pipeline_state(&PipelineStateFlags { color_blend_attachment: false, ..all })
    );
    assert_eq!(missing("vertex input state"), check_pipeline_state(&PipelineStateFlags { vertex_input: false, ..all }));
    assert_eq!(
        missing("input assembly state"),
        check_pipeline_state(&PipelineStateFlags { input_assembly: false, rasterization: false, ..all })
    );
    assert_eq!(missing("rasterization state"), check_pipeline_state(&PipelineStateFlags { rasterization: false, ..all }));
    assert_eq!(missing("multisample state"), check_pipeline_state(&PipelineStateFlags { multisample: false, ..all }));
    assert_eq!(missing("depth stencil state"), check_pipeline_state(&PipelineStateFlags { depth_stencil: false, ..all }));
}
