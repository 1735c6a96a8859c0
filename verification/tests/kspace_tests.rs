use tg_rcore_tutorial::kspace::{kernel_space, Region, RegionKind};

#[test]
fn kernel_space_maps_sections_heap_portal_and_devices() {
    let regions = [
        Region { kind: RegionKind::Text, start: 0x8020_0000, end: 0x8020_2800 },
        Region { kind: RegionKind::Rodata, start: 0x8020_3000, end: 0x8020_4000 },
        Region { kind: RegionKind::Data, start: 0x8020_4000, end: 0x8020_5001 },
        Region { kind: RegionKind::Boot, start: 0x8020_6000, end: 0x8020_7000 },
    ];
    let mmio = [(0x1000_1000usize, 0x1000usize), (0x1000_2000, 0x800)];
    let maps = kernel_space(&regions, 0x8020_0000, 0x8020_7000, 48 << 20, 0x7ff_ffff, 0x8030_0, &mmio);
    assert_eq!(maps.len(), 4 + 2 + 2);
    let summary: Vec<(usize, usize, usize, &[u8])> =
        maps.iter().map(|m| (m.first_page, m.end_page, m.first_frame, m.flags.as_slice())).collect();
    assert_eq!(summary[0], (0x80200, 0x80203, 0x80200, &b"X_RV"[..]));
    assert_eq!(summary[1], (0x80203, 0x80204, 0x80203, &b"__RV"[..]));
    assert_eq!(summary[2], (0x80204, 0x80206, 0x80204, &b"_WRV"[..]));
    assert_eq!(summary[3], (0x80206, 0x80207, 0x80206, &b"_WRV"[..]));
    assert_eq!(summary[4], (0x80207, 0x83200, 0x80207, &b"_WRV"[..]));
    assert_eq!(summary[5], (0x7ff_ffff, 0x800_0000, 0x8030_0, &b"__G_XWRV"[..]));
    assert_eq!(summary[6], (0x10001, 0x10002, 0x10001, &b"_WRV"[..]));
    assert_eq!(summary[7], (0x10002, 0x10003, 0x10002, &b"_WRV"[..]));
}
