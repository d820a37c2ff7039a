use vstd::prelude::*;
use crate::pci::PciDevice;

verus! {

/// PCI vendor id of VirtIO devices.
pub const VIRTIO_VENDOR_ID: u16 = 0x1AF4;

/// Block size of a VirtIO block device, in bytes.
pub const VIRTIO_BLOCK_SIZE: usize = 512;

pub open spec fn is_virtio(d: PciDevice) -> bool {
    d.vendor_id == VIRTIO_VENDOR_ID
}

/// The VirtIO functions among those a bus scan found, in scan order: the ones to try,
/// in turn, as block device.
pub fn virtio_candidates(devices: &Vec<PciDevice>) -> (r: Vec<PciDevice>)
    ensures
        r@ == devices@.filter(|d: PciDevice| is_virtio(d)),
        r@ == devices@.filter(|d: PciDevice| d.vendor_id == 0x1AF4),
{
    let mut r: Vec<PciDevice> = Vec::new();
    let mut i: usize = 0;
    proof {
        reveal(Seq::filter);
        assert(devices@.take(0) =~= Seq::<PciDevice>::empty());
    }
    while i < devices.len()
        invariant
            i <= devices@.len(),
            r@ == devices@.take(i as int).filter(|d: PciDevice| is_virtio(d)),
        decreases devices.len() - i,
    {
        let d = devices[i];
        proof {
            assert(devices@.take(i as int + 1) =~= devices@.take(i as int).push(d));
            devices@.take(i as int).lemma_filter_push(d, |d: PciDevice| is_virtio(d));
        }
        if d.vendor_id == VIRTIO_VENDOR_ID {
            r.push(d);
        }
        i = i + 1;
    }
    proof {
        assert(devices@.take(i as int) =~= devices@);
        lemma_virtio_is_vendor(devices@);
    }
    r
}

/// The VirtIO functions among `devices`, in their order.
pub open spec fn virtio_functions(devices: Seq<PciDevice>) -> Seq<PciDevice> {
    devices.filter(|d: PciDevice| is_virtio(d))
}

/// The VirtIO functions are exactly those with vendor id 0x1AF4, whatever their device
/// id: each of them is a candidate, and every candidate is one of them.
pub proof fn lemma_virtio_is_vendor(devices: Seq<PciDevice>)
    ensures
        virtio_functions(devices) == devices.filter(|d: PciDevice| d.vendor_id == 0x1AF4),
        forall|i: int|
            0 <= i < devices.len() && devices[i].vendor_id == 0x1AF4 ==> virtio_functions(devices).contains(
                #[trigger] devices[i],
            ),
        forall|j: int|
            0 <= j < virtio_functions(devices).len() ==> (#[trigger] virtio_functions(devices)[j]).vendor_id == 0x1AF4,
{
    let p1 = |d: PciDevice| is_virtio(d);
    let p2 = |d: PciDevice| d.vendor_id == 0x1AF4;
    assert(p1 =~= p2);
    assert forall|i: int| 0 <= i < devices.len() && devices[i].vendor_id == 0x1AF4 implies virtio_functions(
        devices,
    ).contains(#[trigger] devices[i]) by {
        devices.lemma_filter_contains(p1, i);
    }
    assert forall|j: int| 0 <= j < virtio_functions(devices).len() implies (#[trigger] virtio_functions(
        devices,
    )[j]).vendor_id == 0x1AF4 by {
        devices.lemma_filter_pred(p1, j);
    }
}

} // verus!
