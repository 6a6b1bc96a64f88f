use silk_engine::gfx::gpu_alloc::{find_mem_type_idx, find_off_mem_block};
use silk_engine::vulkan::{
    best_by_score, enabled_extensions, plan_swapchain, SurfaceCaps, SwapchainPlan, format_size, supported_names, best_physical_device_for, best_queue_family_for, device_score_exec, samples_u32_to_vk,
    DeviceLimits, PhysicalDeviceUse, QueueFamilyUse,
};

#[test]
fn best_score_takes_last_of_equals() {
    assert_eq!(best_by_score(&[Some(3), None, Some(5), Some(5), Some(1)]), Some(3));
    assert_eq!(best_by_score(&[None, None]), None);
    assert_eq!(best_by_score(&[]), None);
}

#[test]
fn queue_family_needs_every_flag() {
    // graphics+compute+transfer with 2 queues, transfer only with 8, compute+transfer with 4
    let fams = [(0x7, 2), (0x4, 8), (0x6, 4)];
    assert_eq!(best_queue_family_for(&fams, QueueFamilyUse::General), Some(0));
    assert_eq!(best_queue_family_for(&fams, QueueFamilyUse::Transfer), Some(1));
    assert_eq!(best_queue_family_for(&fams, QueueFamilyUse::Compute), Some(2));
    assert_eq!(best_queue_family_for(&fams, QueueFamilyUse::VideoDecode), None);
}

#[test]
fn device_score_prefers_discrete() {
    let integrated = DeviceLimits {
        discrete: false,
        max_image_dimension2_d: 16384,
        max_uniform_buffer_range: 65536,
        max_push_constants_size: 256,
        max_compute_shared_memory_size: 32768,
        max_compute_work_group_invocations: 1024,
    };
    let discrete = DeviceLimits { discrete: true, ..integrated };
    assert_eq!(device_score_exec(&integrated), Some(16384 + 1024 + 64 + 2048 + 1024));
    assert_eq!(device_score_exec(&discrete), Some(1_000_000 + 16384 + 1024 + 64 + 2048 + 1024));
    assert_eq!(best_physical_device_for(&[discrete, integrated], PhysicalDeviceUse::General), Some(0));
    let huge = DeviceLimits { max_image_dimension2_d: u32::MAX, ..discrete };
    assert_eq!(device_score_exec(&huge), None);
}

#[test]
fn sample_counts() {
    assert_eq!(samples_u32_to_vk(8), 8);
    assert_eq!(samples_u32_to_vk(64), 64);
    assert_eq!(samples_u32_to_vk(3), 1);
}

#[test]
fn mem_block_by_offset() {
    let offs = [0u64, 1 << 20, 3 << 20];
    assert_eq!(find_off_mem_block(&offs, 5), 0);
    assert_eq!(find_off_mem_block(&offs, 1 << 20), 1);
    assert_eq!(find_off_mem_block(&offs, (3 << 20) + 7), 2);
    assert_eq!(find_off_mem_block(&[0], 99), 0);
}

#[test]
fn mem_type_by_score() {
    // device local; host visible + coherent; device local + host visible + coherent
    let flags = [0x1, 0x6, 0x7];
    assert_eq!(find_mem_type_idx(0b111, &flags, 0x1), Some(0));
    assert_eq!(find_mem_type_idx(0b111, &flags, 0x6), Some(1));
    assert_eq!(find_mem_type_idx(0b110, &flags, 0x1), Some(2));
    assert_eq!(find_mem_type_idx(0b011, &flags, 0x8), None);
}

#[test]
fn format_size_of_common_formats() {
    assert_eq!(format_size(0), 0);
    assert_eq!(format_size(1), 1);
    assert_eq!(format_size(4), 2);
    assert_eq!(format_size(9), 1);
    assert_eq!(format_size(22), 2);
    assert_eq!(format_size(36), 3);
    assert_eq!(format_size(37), 4);
    assert_eq!(format_size(43), 4);
    assert_eq!(format_size(50), 4);
    assert_eq!(format_size(69), 4);
    assert_eq!(format_size(76), 2);
    assert_eq!(format_size(83), 4);
    assert_eq!(format_size(90), 6);
    assert_eq!(format_size(97), 8);
    assert_eq!(format_size(100), 4);
    assert_eq!(format_size(103), 8);
    assert_eq!(format_size(106), 12);
    assert_eq!(format_size(109), 16);
    assert_eq!(format_size(112), 8);
    assert_eq!(format_size(115), 16);
    assert_eq!(format_size(118), 24);
    assert_eq!(format_size(121), 32);
    assert_eq!(format_size(122), 4);
    assert_eq!(format_size(124), 2);
    assert_eq!(format_size(126), 4);
    assert_eq!(format_size(127), 1);
    assert_eq!(format_size(128), 3);
    assert_eq!(format_size(129), 4);
    assert_eq!(format_size(130), 5);
    assert_eq!(format_size(131), 0);
    assert_eq!(format_size(-1), 0);
}

fn names(v: &[&str]) -> Vec<Vec<u8>> {
    v.iter().map(|s| s.as_bytes().to_vec()).collect()
}

#[test]
fn extensions_required_then_supported_preferred() {
    let available = names(&["VK_KHR_surface", "VK_KHR_xcb_surface", "VK_EXT_debug_utils"]);
    let required = names(&["VK_KHR_surface", "VK_KHR_xcb_surface"]);
    let preferred = names(&["VK_KHR_portability_enumeration", "VK_EXT_debug_utils"]);
    assert_eq!(
        enabled_extensions(&required, &preferred, &available),
        Ok(names(&["VK_KHR_surface", "VK_KHR_xcb_surface", "VK_EXT_debug_utils"]))
    );
}

#[test]
fn extensions_missing_required_is_refused() {
    let available = names(&["VK_KHR_surface"]);
    let required = names(&["VK_KHR_surface", "VK_KHR_win32_surface", "VK_KHR_xcb_surface"]);
    assert_eq!(enabled_extensions(&required, &names(&[]), &available), Err(1));
}

#[test]
fn layers_keep_the_available_in_order() {
    let available = names(&["VK_LAYER_KHRONOS_validation"]);
    let wanted = names(&["VK_LAYER_LUNARG_monitor", "VK_LAYER_KHRONOS_validation"]);
    assert_eq!(supported_names(&wanted, &available), names(&["VK_LAYER_KHRONOS_validation"]));
    assert!(supported_names(&wanted, &names(&[])).is_empty());
}

fn caps(w: u32, h: u32, min: u32, max: u32, supported: u32) -> SurfaceCaps {
    SurfaceCaps {
        current_width: w,
        current_height: h,
        supported_transforms: supported,
        current_transform: 0x4,
        min_image_count: min,
        max_image_count: max,
    }
}

#[test]
fn swapchain_plan_takes_the_surface_extent_mailbox_and_one_more_image() {
    assert_eq!(
        plan_swapchain(&caps(800, 600, 2, 8, 0x1 | 0x4), (640, 480), &[2, 1, 0]),
        Some(SwapchainPlan { width: 800, height: 600, pre_transform: 1, present_mode: 1, image_count: 3 })
    );
}

#[test]
fn swapchain_plan_falls_back_to_fifo_current_transform_and_the_most_images() {
    assert_eq!(
        plan_swapchain(&caps(800, 600, 3, 3, 0x4), (640, 480), &[0, 2]),
        Some(SwapchainPlan { width: 800, height: 600, pre_transform: 4, present_mode: 2, image_count: 3 })
    );
}

#[test]
fn swapchain_plan_keeps_nothing_to_do() {
    assert_eq!(plan_swapchain(&caps(640, 480, 2, 0, 1), (640, 480), &[1]), None);
    assert_eq!(plan_swapchain(&caps(0, 480, 2, 0, 1), (640, 480), &[1]), None);
    assert_eq!(plan_swapchain(&caps(u32::MAX, u32::MAX, 2, 0, 1), (640, 480), &[1]), None);
    assert_eq!(plan_swapchain(&caps(u32::MAX, u32::MAX, 2, 0, 1), (0, 0), &[1]), None);
}
