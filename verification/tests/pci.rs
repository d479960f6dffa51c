use cxl_os::drivers::pci::{
    is_ivshmem, bar32, bar64, bar_needs_probe, decode_bars, ecam_addr, is_cxl_type3, is_multifunction, PciDevice,
    PciScan, RawFunction, ECAM_BASE,
};

fn raw(id_reg: u32, class_reg: u32, header_reg: u32) -> RawFunction {
    RawFunction { id_reg, class_reg, header_reg, bar_raw: [0; 6], bar_mask: [0; 6] }
}

#[test]
fn ecam_addresses() {
    assert_eq!(ecam_addr(0, 0, 0, 0), ECAM_BASE);
    assert_eq!(ecam_addr(1, 2, 3, 0x10), 0x3000_0000 + 0x10_0000 + 2 * 0x8000 + 3 * 0x1000 + 0x10);
    assert_eq!(ecam_addr(12, 31, 7, 0xFC), 0x30CF_F0FC);
}

#[test]
fn bar_sizes() {
    // 32-bit memory BAR of 1 MiB at 0xfe00_0000, prefetchable
    assert_eq!(bar32(0xFE00_0008, 0xFFF0_0008), (0xFE00_0000, 0x10_0000));
    // I/O BAR of 256 bytes at 0xc000
    assert_eq!(bar32(0xC001, 0xFFFF_FF01), (0xC000, 0x100));
    // a mask of all zeros after masking decodes as size 0
    assert_eq!(bar32(0x10, 0x0000_000F), (0x10, 0));
    // 64-bit memory BAR of 4 GiB at 0x1_0000_0000
    assert_eq!(bar64(0x0000_000C, 0x0000_000C, 0x1, 0xFFFF_FFFF), (0x1_0000_0000, 0x1_0000_0000));
}

#[test]
fn bar_table_decoding() {
    let raws = [0xFE00_0000u32, 0x0000_000C, 0x2, 0, 0xC001, 0];
    let masks = [0xFFFF_F000u32, 0xFFFF_0000, 0xFFFF_FFFF, 0, 0xFFFF_FFF1, 0];
    let bars = decode_bars(&raws, &masks);
    assert_eq!(bars[0], Some((0xFE00_0000, 0x1000)));
    assert_eq!(bars[1], Some((0x2_0000_0000, 0x1_0000)));
    // the upper half is then looked at as a register of its own
    assert_eq!(bars[2], Some((0x0, 0x10)));
    assert_eq!(bars[3], None);
    assert_eq!(bars[4], Some((0xC000, 0x10)));
    assert_eq!(bars[5], None);
}

#[test]
fn upper_half_with_zero_value_keeps_its_mark() {
    let raws = [0x4, 0, 0, 0, 0, 0];
    let masks = [0xFFFF_0004u32, 0xFFFF_FFFF, 0, 0, 0, 0];
    let bars = decode_bars(&raws, &masks);
    assert_eq!(bars[0], Some((0, 0x1_0000)));
    assert_eq!(bars[1], Some((0, 0)));
}

#[test]
fn last_slot_64_bit_bar_is_read_as_32_bit() {
    let raws = [0, 0, 0, 0, 0, 0xF000_0004u32];
    let masks = [0, 0, 0, 0, 0, 0xFFFF_F004u32];
    let bars = decode_bars(&raws, &masks);
    assert_eq!(bars[5], Some((0xF000_0000, 0x1000)));
}

#[test]
fn probe_plan() {
    let raws = [0x4u32, 0, 0, 0xC001, 0, 0];
    assert!(bar_needs_probe(&raws, 0));
    assert!(bar_needs_probe(&raws, 1));
    assert!(!bar_needs_probe(&raws, 2));
    assert!(bar_needs_probe(&raws, 3));
    assert!(!bar_needs_probe(&raws, 4));
}

#[test]
fn device_fields_and_cxl_class() {
    assert!(PciDevice::try_new(0, 1, 0, &raw(0xFFFF_FFFF, 0, 0)).is_none());
    assert!(!PciDevice::is_present(0x1234_FFFF));
    assert!(PciDevice::is_present(0x1110_1AF4));
    let d = PciDevice::try_new(0, 3, 1, &raw(0x0D93_8086, 0x0502_1001, 0)).unwrap();
    assert_eq!((d.bus, d.dev, d.func), (0, 3, 1));
    assert_eq!(d.vendor_id, 0x8086);
    assert_eq!(d.device_id, 0x0D93);
    assert_eq!(d.class_code, 0x05);
    assert_eq!(d.subclass, 0x02);
    assert_eq!(d.prog_if, 0x10);
    assert_eq!(d.rev, 0x01);
    assert!(is_cxl_type3(&d));
    let n = PciDevice::try_new(0, 4, 0, &raw(0x1110_1AF4, 0x0500_0001, 0)).unwrap();
    assert!(!is_cxl_type3(&n));
}

#[test]
fn header_type_multifunction_bit() {
    assert!(is_multifunction(0x0080_0000));
    assert!(is_multifunction(0x00FF_0000));
    assert!(!is_multifunction(0x007F_FFFF));
    assert!(!is_multifunction(0xFF00_FFFF));
}

#[test]
fn scan_visits_every_function_and_skips_single_function_devices() {
    let mut s = PciScan::new();
    let mut visited = 0usize;
    while let Some((b, d, f)) = s.next_probe() {
        visited += 1;
        let cfg = if b == 0 && d == 0 {
            // single-function device: functions 1..7 alias function 0
            Some(raw(0x0008_1B36, 0x0600_0000, 0))
        } else if b == 0 && d == 2 && f <= 1 {
            Some(raw(0x1110_1AF4, 0x0500_0001, 0x0080_0000))
        } else if b == 12 && d == 31 && f == 7 {
            Some(raw(0x0D93_8086, 0x0502_1001, 0x0080_0000))
        } else {
            None
        };
        s.advance(cfg);
    }
    // 13 buses × 32 devices × 8 functions, less the seven skipped functions of 0:0
    assert_eq!(visited, 13 * 32 * 8 - 7);
    let devs = s.into_devices();
    let ids: Vec<(u8, u8, u8)> = devs.iter().map(|d| (d.bus, d.dev, d.func)).collect();
    assert_eq!(ids, vec![(0, 0, 0), (0, 2, 0), (0, 2, 1), (12, 31, 7)]);
    assert!(is_cxl_type3(&devs[3]));
}

#[test]
fn ivshmem_is_recognised() {
    let d = PciDevice::try_new(0, 4, 0, &raw(0x1110_1AF4, 0x0500_0001, 0)).unwrap();
    assert!(is_ivshmem(&d));
    let e = PciDevice::try_new(0, 5, 0, &raw(0x1111_1AF4, 0x0500_0001, 0)).unwrap();
    assert!(!is_ivshmem(&e));
}
