use lukes_os::pci::{
    bar_offset, config_address, dword_to_u16, dword_to_u8, merge_u16, merge_u8, PciDevice, PciScanner, ScanAction,
};

#[test]
fn config_address_packs_the_fields() {
    assert_eq!(config_address(0, 0, 0, 0), 0x8000_0000);
    assert_eq!(config_address(1, 2, 3, 0x0B), 0x8001_1308);
    assert_eq!(config_address(0xFF, 31, 7, 0xFF), 0x80FF_FFFC);
}

#[test]
fn registers_are_taken_from_the_dword() {
    let dword = 0x1234_5678u32;
    assert_eq!(dword_to_u16(dword, 0), 0x5678);
    assert_eq!(dword_to_u16(dword, 2), 0x1234);
    assert_eq!(dword_to_u8(dword, 0x08), 0x78);
    assert_eq!(dword_to_u8(dword, 0x09), 0x56);
    assert_eq!(dword_to_u8(dword, 0x0A), 0x34);
    assert_eq!(dword_to_u8(dword, 0x0B), 0x12);
}

#[test]
fn merges_replace_one_register() {
    assert_eq!(merge_u16(0x1234_5678, 0, 0xABCD), 0x1234_ABCD);
    assert_eq!(merge_u16(0x1234_5678, 2, 0xABCD), 0xABCD_5678);
    assert_eq!(merge_u8(0x1234_5678, 0, 0xAA), 0x1234_56AA);
    assert_eq!(merge_u8(0x1234_5678, 1, 0xAA), 0x1234_AA78);
    assert_eq!(merge_u8(0x1234_5678, 2, 0xAA), 0x12AA_5678);
    assert_eq!(merge_u8(0x1234_5678, 3, 0xAA), 0xAA34_5678);
    assert_eq!(dword_to_u8(merge_u8(0xFFFF_FFFF, 0x0E, 0x01), 0x0E), 0x01);
    assert_eq!(dword_to_u16(merge_u16(0, 0x06, 0xBEEF), 0x06), 0xBEEF);
}

#[test]
fn bar_offsets() {
    assert_eq!(bar_offset(0), 0x10);
    assert_eq!(bar_offset(5), 0x24);
}

/// A configuration space with a single-function device in slot 1, a multi-function
/// device in slot 3 (functions 0 and 2), and nothing elsewhere.
fn config_dword(address: u32) -> u32 {
    let device = (address >> 11) & 0x1F;
    let function = (address >> 8) & 0x7;
    let register = address & 0xFC;
    let present = matches!((device, function), (1, 0) | (3, 0) | (3, 2));
    if !present {
        return 0xFFFF_FFFF;
    }
    match register {
        0x00 => 0x1001_1AF4 + function,
        0x08 => 0x0102_0000 | (device << 8),
        0x0C => {
            if device == 3 && function == 0 {
                0x0080_0000
            } else {
                0
            }
        }
        _ => 0,
    }
}

fn run_scan() -> (Vec<PciDevice>, usize) {
    let mut scanner = PciScanner::new();
    let mut reads = 0;
    loop {
        match scanner.next_action() {
            ScanAction::Read { bus, device, function, offset } => {
                let dword = config_dword(config_address(bus, device, function, offset));
                scanner.feed(dword);
                reads += 1;
            }
            ScanAction::Done => break,
        }
    }
    assert!(scanner.is_done());
    (scanner.into_devices(), reads)
}

#[test]
fn scan_finds_single_and_multi_function_devices() {
    let (devices, reads) = run_scan();
    assert_eq!(devices.len(), 3);
    assert_eq!(
        devices[0],
        PciDevice {
            bus: 0,
            device: 1,
            function: 0,
            vendor_id: 0x1AF4,
            device_id: 0x1001,
            class_id: 0x01,
            subclass_id: 0x02,
            prog_if: 0x01,
            header_type: 0x00,
        }
    );
    assert_eq!((devices[1].device, devices[1].function, devices[1].header_type), (3, 0, 0x80));
    assert_eq!((devices[2].device, devices[2].function, devices[2].vendor_id), (3, 2, 0x1AF6));
    // Each present function takes six reads, an absent one a single read: 30 empty
    // slots, slot 1, slot 3 function 0, slot 3 function 2, six absent functions of slot 3.
    assert_eq!(reads, 30 + 6 + 6 + 6 + 6);
}

#[test]
fn scan_of_an_empty_bus_finds_nothing() {
    let mut scanner = PciScanner::new();
    let mut reads = 0;
    while let ScanAction::Read { .. } = scanner.next_action() {
        scanner.feed(0xFFFF_FFFF);
        reads += 1;
    }
    assert_eq!(reads, 32);
    assert!(scanner.into_devices().is_empty());
}
