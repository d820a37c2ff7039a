use lukes_os::pci::PciDevice;
use lukes_os::virtio::{virtio_candidates, VIRTIO_BLOCK_SIZE, VIRTIO_VENDOR_ID};

fn dev(device: u8, vendor_id: u16) -> PciDevice {
    PciDevice {
        bus: 0,
        device,
        function: 0,
        vendor_id,
        device_id: 0x1001,
        class_id: 1,
        subclass_id: 0,
        prog_if: 0,
        header_type: 0,
    }
}

#[test]
fn candidates_are_the_virtio_functions_in_scan_order() {
    let devices = vec![dev(0, 0x8086), dev(1, 0x1AF4), dev(2, 0x1234), dev(3, 0x1AF4)];
    let c = virtio_candidates(&devices);
    assert_eq!(c, vec![dev(1, 0x1AF4), dev(3, 0x1AF4)]);
    assert!(virtio_candidates(&vec![dev(0, 0x8086)]).is_empty());
    assert_eq!(VIRTIO_VENDOR_ID, 0x1AF4);
    assert_eq!(VIRTIO_BLOCK_SIZE, 512);
}
