use vstd::prelude::*;

verus! {

/// I/O port of the PCI configuration address register.
pub const CONFIG_ADDRESS: u16 = 0xCF8;

/// I/O port of the PCI configuration data register.
pub const CONFIG_DATA: u16 = 0xCFC;

/// A function found on the PCI bus, with the identification fields of its
/// configuration header.
#[derive(Debug, Clone, Copy, PartialEq, Eq, Structural)]
pub struct PciDevice {
    pub bus: u8,
    pub device: u8,
    pub function: u8,
    pub vendor_id: u16,
    pub device_id: u16,
    pub class_id: u8,
    pub subclass_id: u8,
    pub prog_if: u8,
    pub header_type: u8,
}

/// The configuration address of a register: enable bit 31, bus in bits 16..24,
/// device from bit 11, function from bit 8, and the register's dword offset.
pub open spec fn config_address_spec(bus: u8, device: u8, func: u8, offset: u8) -> u32 {
    0x8000_0000u32 | ((bus as u32) << 16u32) | ((device as u32) << 11u32) | ((func as u32) << 8u32) | ((offset as u32)
        & 0xFCu32)
}

/// The 16-bit register at `offset` within the dword read at `offset & 0xFC`: its upper
/// half when bit 1 of the offset is set, else its lower half.
pub open spec fn config_u16(dword: u32, offset: u8) -> u16 {
    if offset % 4 >= 2 {
        (dword / 0x10000) as u16
    } else {
        (dword % 0x10000) as u16
    }
}

/// Byte `k` (0 the lowest) of a dword.
pub open spec fn dword_byte(dword: u32, k: u8) -> u8 {
    if k == 0 {
        (dword % 0x100) as u8
    } else if k == 1 {
        ((dword / 0x100) % 0x100) as u8
    } else if k == 2 {
        ((dword / 0x10000) % 0x100) as u8
    } else {
        (dword / 0x100_0000) as u8
    }
}

/// The 8-bit register at `offset` within the dword read at `offset & 0xFC`.
pub open spec fn config_u8(dword: u32, offset: u8) -> u8 {
    dword_byte(dword, offset % 4)
}

/// The configuration address is the enable bit plus the bus, device, function and
/// dword-aligned register offset each in its own field, and nothing else.
pub proof fn lemma_config_address_fields(bus: u8, device: u8, func: u8, offset: u8)
    requires
        device < 32,
        func < 8,
    ensures
        config_address_spec(bus, device, func, offset) as int == 0x8000_0000 + bus as int * 0x10000 + device as int
            * 0x800 + func as int * 0x100 + (offset as int - offset as int % 4),
        config_address_spec(bus, device, func, offset) & 0x7F00_0000u32 == 0,
{
    let b = bus as u32;
    let d = device as u32;
    let f = func as u32;
    let o = offset as u32;
    let r = config_address_spec(bus, device, func, offset);
    assert(r == 0x8000_0000u32 | (b << 16u32) | (d << 11u32) | (f << 8u32) | (o & 0xFCu32));
    assert(r == 0x8000_0000u32 + b * 0x10000u32 + d * 0x800u32 + f * 0x100u32 + (o - o % 4u32) && r & 0x7F00_0000u32 == 0)
        by (bit_vector)
        requires
            r == 0x8000_0000u32 | (b << 16u32) | (d << 11u32) | (f << 8u32) | (o & 0xFCu32),
            b < 256,
            d < 32,
            f < 8,
            o < 256,
    ;
}

/// The address written to `CONFIG_ADDRESS` to reach a configuration register.
pub fn config_address(bus: u8, device: u8, func: u8, offset: u8) -> (r: u32)
    ensures
        r == config_address_spec(bus, device, func, offset),
        r & 0x8000_0000u32 != 0,
        r & 0xFFu32 == (offset as u32) & 0xFCu32,
        device < 32 && func < 8 ==> {
            &&& (r >> 16u32) & 0xFFu32 == bus as u32
            &&& (r >> 11u32) & 0x1Fu32 == device as u32
            &&& (r >> 8u32) & 0x7u32 == func as u32
        },
{
    let r = (1u32 << 31u32) | ((bus as u32) << 16u32) | ((device as u32) << 11u32) | ((func as u32) << 8u32) | ((
    offset as u32) & 0xFCu32);
    let b = bus as u32;
    let d = device as u32;
    let f = func as u32;
    let o = offset as u32;
    proof {
        assert(r & 0x8000_0000u32 != 0 && r & 0xFFu32 == o & 0xFCu32) by (bit_vector)
            requires
                r == (1u32 << 31u32) | (b << 16u32) | (d << 11u32) | (f << 8u32) | (o & 0xFCu32),
                b < 256,
                d < 256,
                f < 256,
                o < 256,
        ;
        assert(d < 32 && f < 8 ==> ((r >> 16u32) & 0xFFu32 == b && (r >> 11u32) & 0x1Fu32 == d && (r >> 8u32)
            & 0x7u32 == f)) by (bit_vector)
            requires
                r == (1u32 << 31u32) | (b << 16u32) | (d << 11u32) | (f << 8u32) | (o & 0xFCu32),
                b < 256,
                d < 256,
                f < 256,
                o < 256,
        ;
        assert((1u32 << 31u32) == 0x8000_0000u32) by (bit_vector);
    }
    r
}

/// The 16-bit register at `offset`, taken out of the dword read at `offset & 0xFC`.
pub fn dword_to_u16(dword: u32, offset: u8) -> (r: u16)
    ensures
        r == config_u16(dword, offset),
{
    let o = offset;
    if (offset & 2) != 0 {
        proof {
            assert((o & 2u8) != 0 ==> o % 4 >= 2) by (bit_vector);
            assert((dword >> 16u32) == dword / 0x10000) by (bit_vector);
        }
        (dword >> 16u32) as u16
    } else {
        proof {
            assert((o & 2u8) == 0 ==> o % 4 < 2) by (bit_vector);
            assert((dword & 0xFFFFu32) == dword % 0x10000) by (bit_vector);
        }
        (dword & 0xFFFFu32) as u16
    }
}

/// The 8-bit register at `offset`, taken out of the dword read at `offset & 0xFC`.
pub fn dword_to_u8(dword: u32, offset: u8) -> (r: u8)
    ensures
        r == config_u8(dword, offset),
{
    proof {
        assert(offset & 3u8 <= 3u8) by (bit_vector);
    }
    let shift = (offset & 3u8) * 8u8;
    let r = ((dword >> (shift as u32)) & 0xFFu32) as u8;
    let o = offset;
    let s = shift as u32;
    proof {
        assert(s == (o & 3u8) as u32 * 8u32) by (bit_vector)
            requires
                shift == (o & 3u8) * 8u8,
                s == shift as u32,
        ;
        assert(((dword >> s) & 0xFFu32) == (dword_byte(dword, o % 4) as u32)) by (bit_vector)
            requires
                s == (o & 3u8) as u32 * 8u32,
        ;
    }
    r
}

/// The dword to write back when the 16-bit register at `offset` is set to `value`:
/// `current` with that half replaced.
pub fn merge_u16(current: u32, offset: u8, value: u16) -> (r: u32)
    ensures
        offset % 4 >= 2 ==> r == value as u32 * 0x10000 + current % 0x10000,
        offset % 4 < 2 ==> r == (current / 0x10000) * 0x10000 + value as u32,
        config_u16(r, offset) == value,
{
    proof {
        assert(offset & 2u8 <= 2u8) by (bit_vector);
    }
    let shift = (offset & 2u8) * 8u8;
    let mask: u32 = 0xFFFFu32 << (shift as u32);
    let mut r = current;
    r = r & !mask;
    r = r | ((value as u32) << (shift as u32));
    let o = offset;
    let v = value as u32;
    let s = shift as u32;
    proof {
        assert(s == (o & 2u8) as u32 * 8u32) by (bit_vector)
            requires
                shift == (o & 2u8) * 8u8,
                s == shift as u32,
        ;
        assert((o % 4 >= 2 ==> ((current & !(0xFFFFu32 << s)) | (v << s)) == v * 0x10000 + current % 0x10000)
            && (o % 4 < 2 ==> ((current & !(0xFFFFu32 << s)) | (v << s)) == (current / 0x10000) * 0x10000 + v))
            by (bit_vector)
            requires
                s == (o & 2u8) as u32 * 8u32,
                v < 0x10000,
        ;
    }
    r
}

/// The dword to write back when the byte register at `offset` is set to `value`:
/// `current` with that byte replaced.
pub fn merge_u8(current: u32, offset: u8, value: u8) -> (r: u32)
    ensures
        forall|k: u8| k < 4 ==> #[trigger] dword_byte(r, k) == if k == offset % 4 { value } else { dword_byte(current, k) },
        config_u8(r, offset) == value,
{
    proof {
        assert(offset & 3u8 <= 3u8) by (bit_vector);
    }
    let shift = (offset & 3u8) * 8u8;
    let mask: u32 = 0xFFu32 << (shift as u32);
    let mut r = current;
    r = r & !mask;
    r = r | ((value as u32) << (shift as u32));
    let o = offset;
    let v = value as u32;
    let s = shift as u32;
    proof {
        assert(s == (o & 3u8) as u32 * 8u32) by (bit_vector)
            requires
                shift == (o & 3u8) * 8u8,
                s == shift as u32,
        ;
        assert(forall|k: u8| k < 4 ==> #[trigger] dword_byte((current & !(0xFFu32 << s)) | (v << s), k) == if k == o % 4 {
            v as u8
        } else {
            dword_byte(current, k)
        }) by (bit_vector)
            requires
                s == (o & 3u8) as u32 * 8u32,
                v < 0x100,
        ;
    }
    r
}

/// Offset of base address register `index` in the configuration header.
pub fn bar_offset(index: u8) -> (r: u8)
    requires
        index <= 59,
    ensures
        r == 0x10 + 4 * index,
{
    0x10u8 + index * 4u8
}

// ---------------------------------------------------------------------------
// Bus scan
// ---------------------------------------------------------------------------

/// What the bus scan asks for next: the configuration dword that holds the register at
/// `offset` of a function, or nothing more.
#[derive(Debug, Clone, Copy, PartialEq, Eq, Structural)]
pub enum ScanAction {
    Read { bus: u8, device: u8, function: u8, offset: u8 },
    Done,
}

/// The registers a probe of a function reads, in order: vendor id, device id, class,
/// subclass, programming interface, header type.
pub open spec fn probe_offset(step: u8) -> u8 {
    if step == 0 {
        0x00
    } else if step == 1 {
        0x02
    } else if step == 2 {
        0x0B
    } else if step == 3 {
        0x0A
    } else if step == 4 {
        0x09
    } else {
        0x0E
    }
}

/// State of a bus scan: the function being probed, how many of its registers have been
/// read, the fields read so far, and the functions found.
pub struct ScanState {
    pub device: u8,
    pub function: u8,
    pub step: u8,
    pub partial: PciDevice,
    pub devices: Seq<PciDevice>,
}

/// The scan has gone through all 32 device slots of bus 0.
pub open spec fn scan_done(s: ScanState) -> bool {
    s.device >= 32
}

/// The action a scan state asks for.
pub open spec fn scan_action(s: ScanState) -> ScanAction {
    if scan_done(s) {
        ScanAction::Done
    } else {
        ScanAction::Read { bus: 0, device: s.device, function: s.function, offset: probe_offset(s.step) }
    }
}

/// After a probe of the current function with outcome `found`: record the function, then
/// go on to the next function of a multi-function device, or to the next device slot.
pub open spec fn scan_advance(s: ScanState, found: Option<PciDevice>) -> ScanState {
    let devices = match found {
        Some(d) => s.devices.push(d),
        None => s.devices,
    };
    if s.function == 0 && (found matches Some(d) && d.header_type & 0x80 != 0) {
        ScanState { function: 1, step: 0, devices, ..s }
    } else if s.function != 0 && s.function + 1 < 8 {
        ScanState { function: (s.function + 1) as u8, step: 0, devices, ..s }
    } else {
        ScanState { device: (s.device + 1) as u8, function: 0, step: 0, devices, ..s }
    }
}

/// The scan state after the dword asked for has been read as `dword`.
pub open spec fn scan_feed(s: ScanState, dword: u32) -> ScanState {
    let offset = probe_offset(s.step);
    let p = s.partial;
    if s.step == 0 {
        let vendor = config_u16(dword, offset);
        if vendor == 0xFFFF {
            scan_advance(s, None)
        } else {
            ScanState {
                step: 1,
                partial: PciDevice { bus: 0, device: s.device, function: s.function, vendor_id: vendor, ..p },
                ..s
            }
        }
    } else if s.step == 1 {
        ScanState { step: 2, partial: PciDevice { device_id: config_u16(dword, offset), ..p }, ..s }
    } else if s.step == 2 {
        ScanState { step: 3, partial: PciDevice { class_id: config_u8(dword, offset), ..p }, ..s }
    } else if s.step == 3 {
        ScanState { step: 4, partial: PciDevice { subclass_id: config_u8(dword, offset), ..p }, ..s }
    } else if s.step == 4 {
        ScanState { step: 5, partial: PciDevice { prog_if: config_u8(dword, offset), ..p }, ..s }
    } else {
        scan_advance(s, Some(PciDevice { header_type: config_u8(dword, offset), ..p }))
    }
}

/// Shape of a reachable scan state.
pub open spec fn scan_wf(s: ScanState) -> bool {
    &&& s.device <= 32
    &&& s.function < 8
    &&& s.step < 6
    &&& scan_done(s) ==> s.function == 0 && s.step == 0
}

/// Scan of PCI bus 0, driven from outside: it says which configuration dword to read
/// next (`next_action`) and is handed the value read (`feed`).
pub struct PciScanner {
    device: u8,
    function: u8,
    step: u8,
    partial: PciDevice,
    devices: Vec<PciDevice>,
}

impl View for PciScanner {
    type V = ScanState;

    closed spec fn view(&self) -> ScanState {
        ScanState {
            device: self.device,
            function: self.function,
            step: self.step,
            partial: self.partial,
            devices: self.devices@,
        }
    }
}

impl PciScanner {
    pub open spec fn wf(&self) -> bool {
        scan_wf(self@)
    }

    /// A scan that starts at device 0, function 0 of bus 0 and has found nothing yet.
    pub fn new() -> (s: PciScanner)
        ensures
            s.wf(),
            s@.device == 0,
            s@.function == 0,
            s@.step == 0,
            s@.devices == Seq::<PciDevice>::empty(),
            s@.partial == (PciDevice {
                bus: 0,
                device: 0,
                function: 0,
                vendor_id: 0,
                device_id: 0,
                class_id: 0,
                subclass_id: 0,
                prog_if: 0,
                header_type: 0,
            }),
    {
        PciScanner {
            device: 0,
            function: 0,
            step: 0,
            partial: PciDevice {
                bus: 0,
                device: 0,
                function: 0,
                vendor_id: 0,
                device_id: 0,
                class_id: 0,
                subclass_id: 0,
                prog_if: 0,
                header_type: 0,
            },
            devices: Vec::new(),
        }
    }

    /// The read the scan needs next, or `Done`.
    pub fn next_action(&self) -> (a: ScanAction)
        requires
            self.wf(),
        ensures
            a == scan_action(self@),
    {
        if self.device >= 32 {
            return ScanAction::Done;
        }
        let offset: u8 = if self.step == 0 {
            0x00
        } else if self.step == 1 {
            0x02
        } else if self.step == 2 {
            0x0B
        } else if self.step == 3 {
            0x0A
        } else if self.step == 4 {
            0x09
        } else {
            0x0E
        };
        ScanAction::Read { bus: 0, device: self.device, function: self.function, offset }
    }

    /// Records the probe outcome of the current function and moves on.
    fn advance(&mut self, found: Option<PciDevice>)
        requires
            old(self).wf(),
            !scan_done(old(self)@),
        ensures
            final(self).wf(),
            final(self)@ == scan_advance(old(self)@, found),
    {
        let mut multi = false;
        match found {
            Some(d) => {
                self.devices.push(d);
                multi = (d.header_type & 0x80u8) != 0;
            },
            None => {},
        }
        if self.function == 0 && multi {
            self.function = 1;
        } else if self.function != 0 && self.function + 1 < 8 {
            self.function = self.function + 1;
        } else {
            self.device = self.device + 1;
            self.function = 0;
        }
        self.step = 0;
    }

    /// Takes the dword read for the action `next_action` asked for.
    pub fn feed(&mut self, dword: u32)
        requires
            old(self).wf(),
            !scan_done(old(self)@),
        ensures
            final(self).wf(),
            final(self)@ == scan_feed(old(self)@, dword),
    {
        if self.step == 0 {
            let vendor = dword_to_u16(dword, 0x00);
            if vendor == 0xFFFFu16 {
                self.advance(None);
            } else {
                self.partial = PciDevice {
                    bus: 0,
                    device: self.device,
                    function: self.function,
                    vendor_id: vendor,
                    ..self.partial
                };
                self.step = 1;
            }
        } else if self.step == 1 {
            self.partial = PciDevice { device_id: dword_to_u16(dword, 0x02), ..self.partial };
            self.step = 2;
        } else if self.step == 2 {
            self.partial = PciDevice { class_id: dword_to_u8(dword, 0x0B), ..self.partial };
            self.step = 3;
        } else if self.step == 3 {
            self.partial = PciDevice { subclass_id: dword_to_u8(dword, 0x0A), ..self.partial };
            self.step = 4;
        } else if self.step == 4 {
            self.partial = PciDevice { prog_if: dword_to_u8(dword, 0x09), ..self.partial };
            self.step = 5;
        } else {
            let d = PciDevice { header_type: dword_to_u8(dword, 0x0E), ..self.partial };
            self.advance(Some(d));
        }
    }

    /// Whether the scan has gone through every device slot.
    pub fn is_done(&self) -> (r: bool)
        requires
            self.wf(),
        ensures
            r == scan_done(self@),
    {
        self.device >= 32
    }

    /// The functions found, in the order they were found.
    pub fn into_devices(self) -> (v: Vec<PciDevice>)
        ensures
            v@ == self@.devices,
    {
        self.devices
    }
}

// ---------------------------------------------------------------------------
// What a whole scan finds
// ---------------------------------------------------------------------------

/// The dword that configuration space `cfg` (a value for each configuration address)
/// holds for the read a scan state asks for.
pub open spec fn scan_read(cfg: spec_fn(u32) -> u32, s: ScanState) -> u32 {
    match scan_action(s) {
        ScanAction::Read { bus, device, function, offset } => cfg(config_address_spec(bus, device, function, offset)),
        ScanAction::Done => 0,
    }
}

/// The state after at most `fuel` reads, each answered from `cfg`.
pub open spec fn scan_run(cfg: spec_fn(u32) -> u32, s: ScanState, fuel: nat) -> ScanState
    decreases fuel,
{
    if fuel == 0 || scan_done(s) {
        s
    } else {
        scan_run(cfg, scan_feed(s, scan_read(cfg, s)), (fuel - 1) as nat)
    }
}

/// The function at `device`/`function` of bus 0 as its configuration registers show it,
/// or `None` where its vendor id reads as all ones.
pub open spec fn probe(cfg: spec_fn(u32) -> u32, device: u8, function: u8) -> Option<PciDevice> {
    let vendor = config_u16(cfg(config_address_spec(0, device, function, 0x00)), 0x00);
    if vendor == 0xFFFF {
        None
    } else {
        Some(
            PciDevice {
                bus: 0,
                device,
                function,
                vendor_id: vendor,
                device_id: config_u16(cfg(config_address_spec(0, device, function, 0x02)), 0x02),
                class_id: config_u8(cfg(config_address_spec(0, device, function, 0x0B)), 0x0B),
                subclass_id: config_u8(cfg(config_address_spec(0, device, function, 0x0A)), 0x0A),
                prog_if: config_u8(cfg(config_address_spec(0, device, function, 0x09)), 0x09),
                header_type: config_u8(cfg(config_address_spec(0, device, function, 0x0E)), 0x0E),
            },
        )
    }
}

pub open spec fn found(p: Option<PciDevice>) -> Seq<PciDevice> {
    match p {
        Some(d) => seq![d],
        None => seq![],
    }
}

/// The functions present among `function..8` of a device.
pub open spec fn later_functions(cfg: spec_fn(u32) -> u32, device: u8, function: u8) -> Seq<PciDevice>
    decreases 8 - function,
{
    if function >= 8 {
        seq![]
    } else {
        found(probe(cfg, device, function)) + later_functions(cfg, device, (function + 1) as u8)
    }
}

/// The functions of a device slot: function 0 if present, then, where its header type
/// marks a multi-function device, the other functions that are present.
pub open spec fn slot_functions(cfg: spec_fn(u32) -> u32, device: u8) -> Seq<PciDevice> {
    match probe(cfg, device, 0) {
        None => seq![],
        Some(d) => seq![d] + if d.header_type & 0x80 != 0 {
            later_functions(cfg, device, 1)
        } else {
            seq![]
        },
    }
}

/// The functions of the device slots `device..32` of bus 0, slot by slot.
pub open spec fn bus_functions(cfg: spec_fn(u32) -> u32, device: u8) -> Seq<PciDevice>
    decreases 32 - device,
{
    if device >= 32 {
        seq![]
    } else {
        slot_functions(cfg, device) + bus_functions(cfg, (device + 1) as u8)
    }
}

/// Two scan states at the same point of the scan, with the same functions found.
pub open spec fn same_position(a: ScanState, b: ScanState) -> bool {
    &&& a.device == b.device
    &&& a.function == b.function
    &&& a.step == b.step
    &&& a.devices == b.devices
}

proof fn lemma_run_compose(cfg: spec_fn(u32) -> u32, s: ScanState, a: nat, b: nat)
    ensures
        scan_run(cfg, s, a + b) == scan_run(cfg, scan_run(cfg, s, a), b),
    decreases a,
{
    if a == 0 {
    } else if scan_done(s) {
        assert(scan_run(cfg, s, b) == s) by {
            if b > 0 {
            }
        }
    } else {
        lemma_run_compose(cfg, scan_feed(s, scan_read(cfg, s)), (a - 1) as nat, b);
        assert((a + b - 1) as nat == (a - 1) as nat + b);
    }
}

/// Probing one function takes one read when it is absent and six when present.
proof fn lemma_probe(cfg: spec_fn(u32) -> u32, s: ScanState) -> (n: nat)
    requires
        scan_wf(s),
        !scan_done(s),
        s.step == 0,
    ensures
        same_position(scan_run(cfg, s, n), scan_advance(s, probe(cfg, s.device, s.function))),
{
    let s1 = scan_feed(s, scan_read(cfg, s));
    if probe(cfg, s.device, s.function) is None {
        assert(scan_run(cfg, s1, 0) == s1);
        1
    } else {
        let s2 = scan_feed(s1, scan_read(cfg, s1));
        let s3 = scan_feed(s2, scan_read(cfg, s2));
        let s4 = scan_feed(s3, scan_read(cfg, s3));
        let s5 = scan_feed(s4, scan_read(cfg, s4));
        let s6 = scan_feed(s5, scan_read(cfg, s5));
        let d = probe(cfg, s.device, s.function)->Some_0;
        assert(s1.step == 1 && s1.device == s.device && s1.function == s.function && s1.devices == s.devices);
        assert(s1.partial.bus == 0 && s1.partial.device == s.device && s1.partial.function == s.function);
        assert(s1.partial.vendor_id == d.vendor_id);
        assert(s2.step == 2 && s2.device == s.device && s2.function == s.function && s2.devices == s.devices);
        assert(s2.partial.device_id == d.device_id);
        assert(s3.step == 3 && s3.device == s.device && s3.function == s.function && s3.devices == s.devices);
        assert(s3.partial.class_id == d.class_id);
        assert(s4.step == 4 && s4.device == s.device && s4.function == s.function && s4.devices == s.devices);
        assert(s4.partial.subclass_id == d.subclass_id);
        assert(s5.step == 5 && s5.device == s.device && s5.function == s.function && s5.devices == s.devices);
        assert(s5.partial.prog_if == d.prog_if);
        assert(s5.partial == PciDevice { header_type: s5.partial.header_type, ..d });
        assert(same_position(s6, scan_advance(s, probe(cfg, s.device, s.function))));
        assert(scan_run(cfg, s6, 0) == s6);
        assert(scan_run(cfg, s5, 1) == s6);
        assert(scan_run(cfg, s4, 2) == s6);
        assert(scan_run(cfg, s3, 3) == s6);
        assert(scan_run(cfg, s2, 4) == s6);
        assert(scan_run(cfg, s1, 5) == s6);
        6
    }
}

proof fn lemma_later(cfg: spec_fn(u32) -> u32, s: ScanState) -> (n: nat)
    requires
        scan_wf(s),
        !scan_done(s),
        s.step == 0,
        s.function >= 1,
    ensures
        ({
            let t = scan_run(cfg, s, n);
            &&& t.device == s.device + 1
            &&& t.function == 0
            &&& t.step == 0
            &&& t.devices == s.devices + later_functions(cfg, s.device, s.function)
        }),
    decreases 8 - s.function,
{
    let n1 = lemma_probe(cfg, s);
    let s1 = scan_run(cfg, s, n1);
    let rest = later_functions(cfg, s.device, (s.function + 1) as u8);
    if s.function + 1 < 8 {
        let n2 = lemma_later(cfg, s1);
        lemma_run_compose(cfg, s, n1, n2);
        assert(s.devices + found(probe(cfg, s.device, s.function)) + rest =~= s.devices + later_functions(
            cfg,
            s.device,
            s.function,
        ));
        n1 + n2
    } else {
        assert(rest == Seq::<PciDevice>::empty());
        assert(s1.devices =~= s.devices + later_functions(cfg, s.device, s.function));
        n1
    }
}

proof fn lemma_slot(cfg: spec_fn(u32) -> u32, s: ScanState) -> (n: nat)
    requires
        scan_wf(s),
        !scan_done(s),
        s.step == 0,
        s.function == 0,
    ensures
        ({
            let t = scan_run(cfg, s, n);
            &&& t.device == s.device + 1
            &&& t.function == 0
            &&& t.step == 0
            &&& t.devices == s.devices + slot_functions(cfg, s.device)
        }),
{
    let n1 = lemma_probe(cfg, s);
    let s1 = scan_run(cfg, s, n1);
    match probe(cfg, s.device, 0) {
        None => {
            assert(s1.devices =~= s.devices + slot_functions(cfg, s.device));
            n1
        },
        Some(d) => {
            if d.header_type & 0x80 != 0 {
                let n2 = lemma_later(cfg, s1);
                lemma_run_compose(cfg, s, n1, n2);
                assert(s.devices.push(d) + later_functions(cfg, s.device, 1) =~= s.devices + slot_functions(
                    cfg,
                    s.device,
                ));
                n1 + n2
            } else {
                assert(s1.devices =~= s.devices + slot_functions(cfg, s.device));
                n1
            }
        },
    }
}

proof fn lemma_bus(cfg: spec_fn(u32) -> u32, s: ScanState) -> (n: nat)
    requires
        scan_wf(s),
        s.step == 0,
        s.function == 0,
    ensures
        ({
            let t = scan_run(cfg, s, n);
            &&& scan_done(t)
            &&& t.devices == s.devices + bus_functions(cfg, s.device)
        }),
    decreases 32 - s.device,
{
    if scan_done(s) {
        assert(s.devices + bus_functions(cfg, s.device) =~= s.devices);
        assert(scan_run(cfg, s, 0) == s);
        0
    } else {
        let n1 = lemma_slot(cfg, s);
        let s1 = scan_run(cfg, s, n1);
        let n2 = lemma_bus(cfg, s1);
        lemma_run_compose(cfg, s, n1, n2);
        assert(s.devices + slot_functions(cfg, s.device) + bus_functions(cfg, (s.device + 1) as u8) =~= s.devices
            + bus_functions(cfg, s.device));
        n1 + n2
    }
}

/// A scan started afresh, with every read answered from one configuration space,
/// comes to an end having found exactly the functions of bus 0 in slot order: for each
/// device slot function 0 if present, followed, for a multi-function device, by the
/// other functions present in increasing order.
pub proof fn lemma_scan_finds_bus_functions(cfg: spec_fn(u32) -> u32, s: ScanState)
    requires
        scan_wf(s),
        s.device == 0,
        s.function == 0,
        s.step == 0,
        s.devices == Seq::<PciDevice>::empty(),
    ensures
        exists|n: nat| #![trigger scan_run(cfg, s, n)]
            scan_done(scan_run(cfg, s, n)) && scan_run(cfg, s, n).devices == bus_functions(cfg, 0),
{
    let n = lemma_bus(cfg, s);
    assert(s.devices + bus_functions(cfg, 0) =~= bus_functions(cfg, 0));
    assert(scan_done(scan_run(cfg, s, n)) && scan_run(cfg, s, n).devices == bus_functions(cfg, 0));
}

} // verus!
