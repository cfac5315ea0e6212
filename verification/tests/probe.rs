//! What the probe reports.

use super_gemma::probe::{
    copy_ranges, DeviceFacts, DeviceReport, FeatureReport, HeapReport, MatrixConfig, ReadLoop,
    VulkanReport,
};

fn facts(matrix: bool) -> DeviceFacts {
    DeviceFacts {
        name: "Radeon".to_owned(),
        device_type: "IntegratedGpu".to_owned(),
        api_version: (1, 4, 305),
        driver_name: Some("radv".to_owned()),
        driver_info: None,
        subgroup_size: Some(64),
        subgroup_operations: None,
        max_storage_buffer_range: u32::MAX,
        max_push_constants_size: 256,
        max_compute_work_group_invocations: 1024,
        features: FeatureReport {
            shader_float16: true,
            storage_buffer16_bit_access: true,
            uniform_and_storage_buffer16_bit_access: false,
            timeline_semaphore: true,
            cooperative_matrix: matrix,
            shader_int8: true,
        },
        khr_cooperative_matrix: matrix,
        memory_heaps: vec![HeapReport {
            size_bytes: 1 << 36,
            flags: "DEVICE_LOCAL".to_owned(),
        }],
    }
}

#[test]
fn a_device_is_reported_in_words() {
    let r = DeviceReport::of(facts(true), vec!["line".to_owned()]);
    assert_eq!(r.api_version, "1.4.305");
    assert_eq!(r.driver, "radv ()");
    assert_eq!(r.cooperative_matrix_configs, ["line"]);
    assert_eq!(r.memory_heaps[0].size_bytes, 1 << 36);
    let all = VulkanReport { devices: vec![r] };
    assert_eq!(all.devices[0].name, "Radeon");
    let r = DeviceReport::of(facts(false), vec!["line".to_owned()]);
    assert!(r.cooperative_matrix_configs.is_empty());
}

#[test]
fn a_matrix_shape_is_one_line() {
    let c = MatrixConfig {
        m: 16,
        n: 8,
        k: 32,
        a: "FLOAT16".to_owned(),
        b: "FLOAT16".to_owned(),
        c: "FLOAT32".to_owned(),
        result: "FLOAT32".to_owned(),
        saturating: false,
        scope: "SUBGROUP".to_owned(),
    };
    assert_eq!(
        c.line(),
        "M16xN8xK32 A=FLOAT16 B=FLOAT16 C=FLOAT32 Result=FLOAT32 saturating=false scope=SUBGROUP"
    );
}

#[test]
fn threads_share_every_byte() {
    assert_eq!(copy_ranges(10, 4), [(0, 3), (3, 6), (6, 9), (9, 10)]);
    assert_eq!(copy_ranges(8, 4), [(0, 2), (2, 4), (4, 6), (6, 8)]);
    assert_eq!(copy_ranges(3, 8), [(0, 1), (1, 2), (2, 3)]);
    assert_eq!(copy_ranges(9, 4), [(0, 3), (3, 6), (6, 9)]);
    assert_eq!(copy_ranges(5, 1), [(0, 5)]);
}

#[test]
fn reading_ends_at_the_limit_or_the_end() {
    let mut r = ReadLoop::new(10);
    assert!(r.reads_on());
    r.took(6);
    assert!(r.reads_on());
    r.took(6);
    assert!(!r.reads_on());
    assert_eq!(r.bytes_read(), 12);
    let mut r = ReadLoop::new(10);
    r.took(4);
    r.took(0);
    assert!(!r.reads_on());
    assert_eq!(r.bytes_read(), 4);
    assert!(!ReadLoop::new(0).reads_on());
}
