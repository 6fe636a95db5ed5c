use manga_eroico::hardware::{free_disk_mib, sysinfo_components_gpus, GpuInfo, HardwareInfo, HardwareReport, Tier};

fn hw(ram_mib: u64, gpus: Vec<GpuInfo>) -> HardwareInfo {
    HardwareInfo { cpu_cores: 8, total_ram_mib: ram_mib, gpus, free_disk_mib: 50 * 1024 }
}

#[test]
fn no_gpu_is_lite() {
    let h = hw(16 * 1024, vec![]);
    assert_eq!(h.decide_tier(), Tier::Lite);
}

#[test]
fn small_vram_is_lite() {
    let h = hw(16 * 1024, vec![GpuInfo { name: "RTX 3050".into(), vram_mib: Some(3 * 1024) }]);
    assert_eq!(h.decide_tier(), Tier::Lite);
}

#[test]
fn mid_vram_is_standard() {
    let h = hw(32 * 1024, vec![GpuInfo { name: "RTX 4070".into(), vram_mib: Some(8 * 1024) }]);
    assert_eq!(h.decide_tier(), Tier::Standard);
}

#[test]
fn big_vram_is_pro() {
    let h = hw(64 * 1024, vec![GpuInfo { name: "RTX 4090".into(), vram_mib: Some(24 * 1024) }]);
    assert_eq!(h.decide_tier(), Tier::Pro);
}

#[test]
fn max_vram_across_gpus() {
    let h = hw(
        64 * 1024,
        vec![
            GpuInfo { name: "iGPU".into(), vram_mib: Some(512) },
            GpuInfo { name: "dGPU".into(), vram_mib: Some(8 * 1024) },
        ],
    );
    assert_eq!(h.max_vram_mib(), Some(8 * 1024));
    assert_eq!(h.decide_tier(), Tier::Standard);
}

#[test]
fn tier_boundaries_are_exact() {
    let at = |v: u64| hw(1024, vec![GpuInfo { name: "g".into(), vram_mib: Some(v) }]).decide_tier();
    assert_eq!(at(4 * 1024 - 1), Tier::Lite);
    assert_eq!(at(4 * 1024), Tier::Standard);
    assert_eq!(at(12 * 1024 - 1), Tier::Standard);
    assert_eq!(at(12 * 1024), Tier::Pro);
}

#[test]
fn gpus_without_vram_figure_are_ignored() {
    let h = hw(1024, vec![GpuInfo { name: "a".into(), vram_mib: None }, GpuInfo { name: "b".into(), vram_mib: Some(6 * 1024) }]);
    assert_eq!(h.max_vram_mib(), Some(6 * 1024));
    let h = hw(1024, vec![GpuInfo { name: "a".into(), vram_mib: None }]);
    assert_eq!(h.max_vram_mib(), None);
    assert_eq!(h.decide_tier(), Tier::Lite);
}

#[test]
fn report_carries_the_decided_tier() {
    let r = HardwareReport::from_info(hw(1024, vec![GpuInfo { name: "g".into(), vram_mib: Some(16 * 1024) }]));
    assert_eq!(r.tier, Tier::Pro);
    assert_eq!(r.info.total_ram_mib, 1024);
    assert!(sysinfo_components_gpus().is_empty());
    assert_eq!(free_disk_mib(), 0);
}

#[test]
fn snapshot_from_readings() {
    let h = HardwareInfo::from_readings(Some(12), 16 * 1024 * 1024 * 1024 + 123);
    assert_eq!(h.cpu_cores, 12);
    assert_eq!(h.total_ram_mib, 16 * 1024);
    assert!(h.gpus.is_empty());
    assert_eq!(h.free_disk_mib, 0);
    assert_eq!(h.decide_tier(), Tier::Lite);
    let unknown = HardwareInfo::from_readings(None, 0);
    assert_eq!(unknown.cpu_cores, 1);
    assert_eq!(unknown.total_ram_mib, 0);
}

#[test]
fn adding_a_gpu_never_lowers_the_tier() {
    let base = vec![GpuInfo { name: "dGPU".into(), vram_mib: Some(8 * 1024) }];
    let before = hw(16 * 1024, base).decide_tier();
    for extra in [None, Some(512), Some(4 * 1024), Some(16 * 1024)] {
        let gpus = vec![
            GpuInfo { name: "dGPU".into(), vram_mib: Some(8 * 1024) },
            GpuInfo { name: "extra".into(), vram_mib: extra },
        ];
        let after = hw(16 * 1024, gpus).decide_tier();
        assert!(after >= before, "{:?} -> {:?}", before, after);
    }
    assert_eq!(hw(0, vec![GpuInfo { name: "x".into(), vram_mib: Some(4095) }]).decide_tier(), Tier::Lite);
    assert_eq!(hw(0, vec![GpuInfo { name: "x".into(), vram_mib: Some(4096) }]).decide_tier(), Tier::Standard);
    assert_eq!(hw(0, vec![GpuInfo { name: "x".into(), vram_mib: Some(12287) }]).decide_tier(), Tier::Standard);
    assert_eq!(hw(0, vec![GpuInfo { name: "x".into(), vram_mib: Some(12288) }]).decide_tier(), Tier::Pro);
}
