//! PCI configuration space: ECAM addressing, decoding a function's
//! registers into a `PciDevice` (including BAR sizing) and the order in
//! which a bus scan visits functions. Reading and writing the registers is
//! the caller's part: it asks `PciScan` which function to probe next and
//! hands back what it read.

use vstd::prelude::*;

verus! {

/// Physical base of the ECAM window.
pub const ECAM_BASE: usize = 0x3000_0000;
/// Last bus that a scan visits.
pub const PCI_LAST_BUS: u8 = 12;
/// Last device number on a bus.
pub const PCI_LAST_DEV: u8 = 31;
/// Last function number of a device.
pub const PCI_LAST_FUNC: u8 = 7;
/// Vendor id read from an empty slot.
pub const PCI_NO_VENDOR: u16 = 0xFFFF;

/// A function found on the bus.
#[derive(Debug, Clone, Copy)]
pub struct PciDevice {
    pub bus: u8,
    pub dev: u8,
    pub func: u8,
    pub vendor_id: u16,
    pub device_id: u16,
    pub class_code: u8,
    pub subclass: u8,
    pub prog_if: u8,
    pub rev: u8,
    /// Base and size of each BAR; the upper half of a 64-bit BAR reads
    /// `(0, 0)` unless it decodes as a BAR of its own.
    pub bars: [Option<(u64, u64)>; 6],
}

/// The registers of one function, as read from configuration space.
#[derive(Debug, Clone, Copy)]
pub struct RawFunction {
    /// Offset 0x00: vendor id (low half) and device id (high half).
    pub id_reg: u32,
    /// Offset 0x08: revision, programming interface, subclass, class.
    pub class_reg: u32,
    /// Offset 0x0C of function 0 of the device: header type in bits 16..24.
    pub header_reg: u32,
    /// The six BAR registers as found.
    pub bar_raw: [u32; 6],
    /// What each BAR register reads back after all ones were written to it
    /// (0 where it was not probed).
    pub bar_mask: [u32; 6],
}

/// Address of register `offset` of function `func` of device `dev` on `bus`.
pub open spec fn ecam_spec(bus: u8, dev: u8, func: u8, offset: u8) -> int {
    ECAM_BASE + bus * 0x10_0000 + dev * 0x8000 + func * 0x1000 + offset
}

/// `x` with the bits below `a` (a power of two) cleared.
pub open spec fn clear_low(x: int, a: int) -> int {
    x - x % a
}

/// Two's-complement negation modulo `m`: the size encoded by a BAR mask.
pub open spec fn neg_mod(x: int, m: int) -> int {
    (m - x) % m
}

/// Bit 0 set: an I/O BAR.
pub open spec fn is_io_bar(raw: u32) -> bool {
    raw % 2 == 1
}

/// A memory BAR of type 64-bit (bits 1..3 equal 2).
pub open spec fn is_mem64_bar(raw: u32) -> bool {
    raw % 2 == 0 && (raw / 2) % 4 == 2
}

/// Base and size of a 32-bit memory or I/O BAR.
pub open spec fn bar32_spec(raw: u32, mask: u32) -> (u64, u64) {
    if is_io_bar(raw) {
        (clear_low(raw as int, 4) as u64, neg_mod(clear_low(mask as int, 4), 0x1_0000_0000) as u64)
    } else {
        (clear_low(raw as int, 16) as u64, neg_mod(clear_low(mask as int, 16), 0x1_0000_0000) as u64)
    }
}

/// Base and size of a 64-bit memory BAR whose upper register holds `high`
/// and reads back `mask_high`.
pub open spec fn bar64_spec(raw: u32, mask: u32, high: u32, mask_high: u32) -> (u64, u64) {
    (
        (high * 0x1_0000_0000 + clear_low(raw as int, 16)) as u64,
        neg_mod(mask_high * 0x1_0000_0000 + clear_low(mask as int, 16), 0x1_0000_0000_0000_0000) as u64,
    )
}

/// The BAR table after BAR register `i` has been looked at.
pub open spec fn bars_step(bars: Seq<Option<(u64, u64)>>, raw: Seq<u32>, mask: Seq<u32>, i: int) -> Seq<
    Option<(u64, u64)>,
> {
    if raw[i] == 0 || mask[i] == 0 {
        bars
    } else if is_mem64_bar(raw[i]) && i < 5 {
        bars.update(i, Some(bar64_spec(raw[i], mask[i], raw[i + 1], mask[i + 1]))).update(
            i + 1,
            Some((0u64, 0u64)),
        )
    } else {
        bars.update(i, Some(bar32_spec(raw[i], mask[i])))
    }
}

/// The BAR table after the first `n` BAR registers, in order.
pub open spec fn bars_upto(raw: Seq<u32>, mask: Seq<u32>, n: nat) -> Seq<Option<(u64, u64)>>
    decreases n,
{
    if n == 0 {
        Seq::new(6, |k: int| None)
    } else {
        bars_step(bars_upto(raw, mask, (n - 1) as nat), raw, mask, n - 1)
    }
}

/// Whether the header type in `header_reg` marks a multi-function device.
pub open spec fn is_multifunction_spec(header_reg: u32) -> bool {
    (header_reg / 0x10000) % 0x100 >= 0x80
}

/// Whether `cfg` describes a function at all (the slot is not empty).
pub open spec fn present_spec(id_reg: u32) -> bool {
    id_reg % 0x10000 != PCI_NO_VENDOR
}

/// `d` is the device that `cfg` describes at `bus:dev.func`: the ids and
/// class bytes are the register fields and the BARs are decoded in order.
pub open spec fn decodes_to(d: PciDevice, bus: u8, dev: u8, func: u8, cfg: RawFunction) -> bool {
    &&& d.bus == bus
    &&& d.dev == dev
    &&& d.func == func
    &&& d.vendor_id == cfg.id_reg % 0x10000
    &&& d.device_id == cfg.id_reg / 0x10000
    &&& d.class_code == cfg.class_reg / 0x100_0000
    &&& d.subclass == (cfg.class_reg / 0x1_0000) % 0x100
    &&& d.prog_if == (cfg.class_reg / 0x100) % 0x100
    &&& d.rev == cfg.class_reg % 0x100
    &&& d.bars@ == bars_upto(cfg.bar_raw@, cfg.bar_mask@, 6)
}

proof fn lemma_ecam_bits(b: usize, d: usize, f: usize, o: usize)
    requires
        b < 0x100,
        d < 0x20,
        f < 0x8,
        o < 0x100,
    ensures
        0x3000_0000usize | (b << 20usize) | (d << 15usize) | (f << 12usize) | o == 0x3000_0000usize + b
            * 0x10_0000 + d * 0x8000 + f * 0x1000 + o,
{
    assert(0x3000_0000usize | (b << 20usize) | (d << 15usize) | (f << 12usize) | o == 0x3000_0000usize + b
        * 0x10_0000 + d * 0x8000 + f * 0x1000 + o) by (bit_vector)
        requires
            b < 0x100,
            d < 0x20,
            f < 0x8,
            o < 0x100,
    ;
}

/// ECAM address of register `offset` of `bus:dev.func`.
pub fn ecam_addr(bus: u8, dev: u8, func: u8, offset: u8) -> (a: usize)
    requires
        dev <= PCI_LAST_DEV,
        func <= PCI_LAST_FUNC,
    ensures
        a == ecam_spec(bus, dev, func, offset),
{
    proof {
        lemma_ecam_bits(bus as usize, dev as usize, func as usize, offset as usize);
    }
    ECAM_BASE | ((bus as usize) << 20usize) | ((dev as usize) << 15usize) | ((func as usize) << 12usize) | (
    offset as usize)
}

proof fn lemma_u32_fields(x: u32)
    ensures
        (x as u16) as int == x % 0x10000,
        ((x >> 16u32) as u16) as int == x / 0x10000,
        (x as u8) as int == x % 0x100,
        ((x >> 8u32) as u8) as int == (x / 0x100) % 0x100,
        ((x >> 16u32) as u8) as int == (x / 0x1_0000) % 0x100,
        ((x >> 24u32) as u8) as int == x / 0x100_0000,
        x & 1 == x % 2,
        (x >> 1u32) & 3 == (x / 2) % 4,
        x & !0xFu32 == x - x % 16,
        x & !0x3u32 == x - x % 4,
        !x == 0xFFFF_FFFFu32 - x,
{
    assert((x as u16) == x % 0x10000) by (bit_vector);
    assert((x >> 16u32) as u16 == x / 0x10000) by (bit_vector);
    assert((x as u8) == x % 0x100) by (bit_vector);
    assert(((x >> 8u32) as u8) == (x / 0x100) % 0x100) by (bit_vector);
    assert(((x >> 16u32) as u8) == (x / 0x1_0000) % 0x100) by (bit_vector);
    assert(((x >> 24u32) as u8) == x / 0x100_0000) by (bit_vector);
    assert(x & 1 == x % 2) by (bit_vector);
    assert((x >> 1u32) & 3 == (x / 2) % 4) by (bit_vector);
    assert(x & !0xFu32 == x - x % 16) by (bit_vector);
    assert(x & !0x3u32 == x - x % 4) by (bit_vector);
    assert(!x == 0xFFFF_FFFFu32 - x) by (bit_vector);
}

proof fn lemma_u32_low_bits(x: u32)
    ensures
        x & 1 == x % 2,
        x & !0xFu32 == x - x % 16,
        x & !0x3u32 == x - x % 4,
{
    assert(x & 1 == x % 2) by (bit_vector);
    assert(x & !0xFu32 == x - x % 16) by (bit_vector);
    assert(x & !0x3u32 == x - x % 4) by (bit_vector);
}

proof fn lemma_u32_not(x: u32)
    ensures
        !x == 0xFFFF_FFFFu32 - x,
{
    assert(!x == 0xFFFF_FFFFu32 - x) by (bit_vector);
}

proof fn lemma_u64_join(h: u32, l: u32)
    ensures
        ((h as u64) << 32u64) | (l as u64) == h * 0x1_0000_0000 + l,
{
    assert(((h as u64) << 32u64) | (l as u64) == (h as u64) * 0x1_0000_0000u64 + (l as u64)) by (bit_vector);
}

proof fn lemma_u64_not(y: u64)
    ensures
        !y == 0xFFFF_FFFF_FFFF_FFFFu64 - y,
{
    assert(!y == 0xFFFF_FFFF_FFFF_FFFFu64 - y) by (bit_vector);
}

/// A 32-bit BAR's base keeps every address bit of the register above the
/// type bits (bits 0 and 1 for an I/O BAR, bits 0 to 3 for a memory BAR)
/// and clears those; its size added to the read-back with the type bits
/// cleared is 0 modulo 2^32 (the two's complement of the mask).
pub proof fn lemma_bar32_decoding(raw: u32, mask: u32)
    ensures
        is_io_bar(raw) ==> {
            let (base, size) = bar32_spec(raw, mask);
            &&& base % 4 == 0 && base / 4 == raw / 4
            &&& size < 0x1_0000_0000 && (size + (mask / 4) * 4) % 0x1_0000_0000 == 0
        },
        !is_io_bar(raw) ==> {
            let (base, size) = bar32_spec(raw, mask);
            &&& base % 16 == 0 && base / 16 == raw / 16
            &&& size < 0x1_0000_0000 && (size + (mask / 16) * 16) % 0x1_0000_0000 == 0
        },
{
}

/// A 64-bit memory BAR's base is the two registers joined (upper one
/// high) with bits 0 to 3 cleared, and its size added to the joined
/// read-back with those bits cleared is 0 modulo 2^64.
pub proof fn lemma_bar64_decoding(raw: u32, mask: u32, high: u32, mask_high: u32)
    ensures
        bar64_spec(raw, mask, high, mask_high).0 % 16 == 0,
        bar64_spec(raw, mask, high, mask_high).0 / 16 == (high * 0x1_0000_0000 + raw) / 16,
        (bar64_spec(raw, mask, high, mask_high).1 + mask_high * 0x1_0000_0000 + (mask / 16) * 16)
            % 0x1_0000_0000_0000_0000 == 0,
{
    let j = high * 0x1_0000_0000 + raw;
    assert(high * 0x1_0000_0000 + clear_low(raw as int, 16) == j - j % 16) by {
        assert((high * 0x1_0000_0000) % 16 == 0) by (nonlinear_arith);
        assert(j % 16 == raw % 16) by (nonlinear_arith)
            requires
                j == high * 0x1_0000_0000 + raw,
                (high * 0x1_0000_0000) % 16 == 0;
    }
    assert(high * 0x1_0000_0000 + raw < 0x1_0000_0000_0000_0000) by (nonlinear_arith)
        requires
            high < 0x1_0000_0000,
            raw < 0x1_0000_0000;
}

/// Base and size of a 32-bit memory or I/O BAR from its value and its
/// all-ones read-back.
pub fn bar32(raw: u32, mask: u32) -> (r: (u64, u64))
    ensures
        r == bar32_spec(raw, mask),
        raw % 2 == 1 ==> r.0 % 4 == 0 && r.0 / 4 == raw / 4 && (r.1 + (mask / 4) * 4) % 0x1_0000_0000 == 0,
        raw % 2 == 0 ==> r.0 % 16 == 0 && r.0 / 16 == raw / 16 && (r.1 + (mask / 16) * 16) % 0x1_0000_0000 == 0,
{
    proof {
        lemma_bar32_decoding(raw, mask);
        lemma_u32_low_bits(raw);
        lemma_u32_low_bits(mask);
        lemma_u32_not(mask & !0xFu32);
        lemma_u32_not(mask & !0x3u32);
    }
    if raw & 1 == 0 {
        let base = (raw & !0xFu32) as u64;
        let size = (!(mask & !0xFu32)).wrapping_add(1) as u64;
        (base, size)
    } else {
        let base = (raw & !0x3u32) as u64;
        let size = (!(mask & !0x3u32)).wrapping_add(1) as u64;
        (base, size)
    }
}

/// Base and size of a 64-bit memory BAR: `raw`/`mask` for its lower
/// register, `high`/`mask_high` for its upper one.
pub fn bar64(raw: u32, mask: u32, high: u32, mask_high: u32) -> (r: (u64, u64))
    ensures
        r == bar64_spec(raw, mask, high, mask_high),
{
    proof {
        lemma_u32_low_bits(raw);
        lemma_u32_low_bits(mask);
        lemma_u64_join(high, raw & !0xFu32);
        lemma_u64_join(mask_high, mask & !0xFu32);
    }
    let base = ((high as u64) << 32u64) | ((raw & !0xFu32) as u64);
    let joined = ((mask_high as u64) << 32u64) | ((mask & !0xFu32) as u64);
    proof {
        lemma_u64_not(joined);
    }
    let size = (!joined).wrapping_add(1);
    (base, size)
}

/// Decodes the six BAR registers in order, as the probe met them: an
/// empty register or one that reads back 0 is skipped; a 64-bit memory BAR
/// below the last slot takes the next register as its upper half and marks
/// that slot `(0, 0)` (the next register is still looked at in turn).
pub fn decode_bars(raw: &[u32; 6], mask: &[u32; 6]) -> (bars: [Option<(u64, u64)>; 6])
    ensures
        bars@ == bars_upto(raw@, mask@, 6),
{
    let mut bars: [Option<(u64, u64)>; 6] = [None, None, None, None, None, None];
    assert(bars@ =~= bars_upto(raw@, mask@, 0));
    let mut i: usize = 0;
    while i < 6
        invariant
            i <= 6,
            bars@ == bars_upto(raw@, mask@, i as nat),
        decreases 6 - i,
    {
        let r = raw[i];
        let m = mask[i];
        proof {
            lemma_u32_fields(r);
        }
        let ghost before = bars@;
        if r != 0 && m != 0 {
            if r & 1 == 0 && (r >> 1u32) & 3 == 2 && i < 5 {
                let v = bar64(r, m, raw[i + 1], mask[i + 1]);
                bars[i] = Some(v);
                bars[i + 1] = Some((0u64, 0u64));
            } else {
                let v = bar32(r, m);
                bars[i] = Some(v);
            }
        }
        assert(bars@ =~= bars_step(before, raw@, mask@, i as int));
        i += 1;
    }
    bars
}

/// Whether BAR register `i` has to be sized (all ones written and read
/// back): it holds a BAR, or it is the upper half of a 64-bit one.
pub fn bar_needs_probe(raw: &[u32; 6], i: usize) -> (b: bool)
    requires
        i < 6,
    ensures
        b == (raw@[i as int] != 0 || (i > 0 && raw@[i - 1] != 0 && is_mem64_bar(raw@[i - 1]))),
{
    if raw[i] != 0 {
        return true;
    }
    if i == 0 {
        return false;
    }
    let p = raw[i - 1];
    proof {
        lemma_u32_fields(p);
    }
    p != 0 && p & 1 == 0 && (p >> 1u32) & 3 == 2
}

impl PciDevice {
    /// Whether the vendor id in `id_reg` names a function (not an empty slot).
    pub fn is_present(id_reg: u32) -> (b: bool)
        ensures
            b == present_spec(id_reg),
    {
        proof {
            lemma_u32_fields(id_reg);
        }
        (id_reg as u16) != PCI_NO_VENDOR
    }

    /// The device that `cfg` describes at `bus:dev.func`, `None` for an
    /// empty slot.
    pub fn try_new(bus: u8, dev: u8, func: u8, cfg: &RawFunction) -> (r: Option<Self>)
        ensures
            r is None <==> !present_spec(cfg.id_reg),
            r matches Some(d) ==> decodes_to(d, bus, dev, func, *cfg),
            r is None <==> cfg.id_reg % 0x10000 == 0xFFFF,
            r matches Some(d) ==> d.vendor_id != 0xFFFF && d.vendor_id as int + 0x10000 * d.device_id == cfg.id_reg
                && d.rev as int + 0x100 * d.prog_if + 0x1_0000 * d.subclass + 0x100_0000 * d.class_code
                == cfg.class_reg,
    {
        proof {
            lemma_u32_fields(cfg.id_reg);
            lemma_u32_fields(cfg.class_reg);
        }
        let vendor_id = cfg.id_reg as u16;
        if vendor_id == PCI_NO_VENDOR {
            return None;
        }
        let device_id = (cfg.id_reg >> 16u32) as u16;
        let rev = cfg.class_reg as u8;
        let prog_if = (cfg.class_reg >> 8u32) as u8;
        let subclass = (cfg.class_reg >> 16u32) as u8;
        let class_code = (cfg.class_reg >> 24u32) as u8;
        let bars = decode_bars(&cfg.bar_raw, &cfg.bar_mask);
        Some(PciDevice { bus, dev, func, vendor_id, device_id, class_code, subclass, prog_if, rev, bars })
    }
}

/// Whether the header type in `header_reg` (offset 0x0C) marks a
/// multi-function device.
pub fn is_multifunction(header_reg: u32) -> (b: bool)
    ensures
        b == is_multifunction_spec(header_reg),
        b == ((header_reg / 0x80_0000) % 2 == 1),
{
    proof {
        lemma_u32_fields(header_reg);
        let h = (header_reg >> 16u32) as u8;
        assert(h & 0x80 == 0 <==> h < 0x80) by (bit_vector);
    }
    let header_type = (header_reg >> 16u32) as u8;
    header_type & 0x80 != 0
}

/// A CXL type-3 memory device: class 0x05 (memory controller), subclass
/// 0x02 (CXL).
pub fn is_cxl_type3(device: &PciDevice) -> (b: bool)
    ensures
        b == (device.class_code == 0x05 && device.subclass == 0x02),
{
    device.class_code == 0x05 && device.subclass == 0x02
}

/// Vendor id of the ivshmem device (Red Hat, Qumranet range).
pub const IVSHMEM_VENDOR: u16 = 0x1AF4;
/// Device id of the ivshmem device.
pub const IVSHMEM_DEVICE: u16 = 0x1110;

/// The inter-VM shared memory device.
pub fn is_ivshmem(device: &PciDevice) -> (b: bool)
    ensures
        b == (device.vendor_id == IVSHMEM_VENDOR && device.device_id == IVSHMEM_DEVICE),
{
    device.vendor_id == IVSHMEM_VENDOR && device.device_id == IVSHMEM_DEVICE
}

/// The function after `bus:dev.func` in scan order.
pub open spec fn after_function(bus: int, dev: int, func: int) -> Option<(int, int, int)> {
    if func < PCI_LAST_FUNC {
        Some((bus, dev, func + 1))
    } else {
        after_device(bus, dev)
    }
}

/// Function 0 of the device after `bus:dev` in scan order.
pub open spec fn after_device(bus: int, dev: int) -> Option<(int, int, int)> {
    if dev < PCI_LAST_DEV {
        Some((bus, dev + 1, 0))
    } else if bus < PCI_LAST_BUS {
        Some((bus + 1, 0, 0))
    } else {
        None
    }
}

/// A bus scan in progress: buses 0..=12, devices 0..=31, functions 0..=7
/// in order; functions 1..=7 of a device are skipped when its function 0
/// is present and not multi-function.
pub struct PciScan {
    bus: u8,
    dev: u8,
    func: u8,
    done: bool,
    devices: Vec<PciDevice>,
}

impl PciScan {
    /// The function to probe next, `None` once the scan is over.
    pub closed spec fn at(&self) -> Option<(int, int, int)> {
        if self.done {
            None
        } else {
            Some((self.bus as int, self.dev as int, self.func as int))
        }
    }

    /// The devices found so far, in scan order.
    pub closed spec fn found(&self) -> Seq<PciDevice> {
        self.devices@
    }

    pub closed spec fn wf(&self) -> bool {
        self.bus <= PCI_LAST_BUS && self.dev <= PCI_LAST_DEV && self.func <= PCI_LAST_FUNC
    }

    /// A scan at `0:0.0` with nothing found.
    pub fn new() -> (s: Self)
        ensures
            s.wf(),
            s.at() == Some((0int, 0int, 0int)),
            s.found() == Seq::<PciDevice>::empty(),
    {
        PciScan { bus: 0, dev: 0, func: 0, done: false, devices: Vec::new() }
    }

    /// The function to probe next as `(bus, dev, func)`.
    pub fn next_probe(&self) -> (p: Option<(u8, u8, u8)>)
        requires
            self.wf(),
        ensures
            p is None <==> self.at() is None,
            p matches Some(t) ==> self.at() == Some((t.0 as int, t.1 as int, t.2 as int)) && t.1
                <= PCI_LAST_DEV && t.2 <= PCI_LAST_FUNC,
    {
        if self.done {
            None
        } else {
            Some((self.bus, self.dev, self.func))
        }
    }

    /// Records what probing the current function gave (`None`: nothing
    /// answered) and moves to the next function to probe.
    pub fn advance(&mut self, cfg: Option<RawFunction>)
        requires
            old(self).wf(),
            old(self).at() is Some,
        ensures
            final(self).wf(),
            ({
                let (b, d, f) = old(self).at()->0;
                let dev = match cfg {
                    Some(c) => present_spec(c.id_reg),
                    None => false,
                };
                &&& dev ==> final(self).found().len() == old(self).found().len() + 1 && final(self).found().drop_last()
                    == old(self).found() && decodes_to(
                    final(self).found().last(),
                    b as u8,
                    d as u8,
                    f as u8,
                    cfg->0,
                )
                &&& !dev ==> final(self).found() == old(self).found()
                &&& final(self).at() == if dev && f == 0 && !is_multifunction_spec(cfg->0.header_reg) {
                    after_device(b, d)
                } else {
                    after_function(b, d, f)
                }
            }),
    {
        let mut skip_rest = false;
        if let Some(c) = cfg {
            if let Some(d) = PciDevice::try_new(self.bus, self.dev, self.func, &c) {
                self.devices.push(d);
                if self.func == 0 && !is_multifunction(c.header_reg) {
                    skip_rest = true;
                }
            }
        }
        if !skip_rest && self.func < PCI_LAST_FUNC {
            self.func = self.func + 1;
        } else if self.dev < PCI_LAST_DEV {
            self.dev = self.dev + 1;
            self.func = 0;
        } else if self.bus < PCI_LAST_BUS {
            self.bus = self.bus + 1;
            self.dev = 0;
            self.func = 0;
        } else {
            self.done = true;
        }
    }

    /// The devices found, in scan order.
    pub fn into_devices(self) -> (v: Vec<PciDevice>)
        ensures
            v@ == self.found(),
    {
        self.devices
    }
}


/// Position of `bus:dev.func` in scan order.
pub open spec fn scan_index(p: (int, int, int)) -> int {
    (p.0 * 32 + p.1) * 8 + p.2
}

/// A function that exists on the buses scanned.
pub open spec fn valid_position(p: (int, int, int)) -> bool {
    0 <= p.0 <= PCI_LAST_BUS && 0 <= p.1 <= PCI_LAST_DEV && 0 <= p.2 <= PCI_LAST_FUNC
}

/// Where `advance` goes after probing `p`: past the rest of the device
/// when `skip` (function 0 answered and is not multi-function), to the
/// next function otherwise.
pub open spec fn scan_next(p: (int, int, int), skip: bool) -> Option<(int, int, int)> {
    if skip {
        after_device(p.0, p.1)
    } else {
        after_function(p.0, p.1, p.2)
    }
}

/// A run of probes as `advance` makes them: it starts at `0:0.0`, each
/// probe follows the one before as `scan_next` says, and the rest of a
/// device is skipped only after its function 0.
#[verifier::opaque]
pub open spec fn scan_run(ps: Seq<(int, int, int)>, skips: Seq<bool>) -> bool {
    &&& ps.len() >= 1
    &&& skips.len() == ps.len()
    &&& ps[0] == (0int, 0int, 0int)
    &&& forall|i: int| 0 <= i < ps.len() ==> #[trigger] skips[i] ==> ps[i].2 == 0
    &&& forall|i: int| 0 <= i < ps.len() - 1 ==> scan_next(#[trigger] ps[i], skips[i]) == Some(ps[i + 1])
}

proof fn lemma_scan_step(p: (int, int, int), skip: bool)
    requires
        valid_position(p),
        skip ==> p.2 == 0,
    ensures
        scan_next(p, skip) is None ==> p.0 == PCI_LAST_BUS && p.1 == PCI_LAST_DEV,
        scan_next(p, skip) matches Some(q) ==> valid_position(q) && scan_index(p) < scan_index(q) && forall|r: (int, int, int)|
            #![trigger scan_index(r)]
            valid_position(r) && scan_index(p) < scan_index(r) < scan_index(q) ==> skip && r.0 == p.0 && r.1 == p.1
                && r.2 > 0,
{
    assert forall|r: (int, int, int)| #![trigger scan_index(r)]
        valid_position(r) && scan_next(p, skip) is Some && scan_index(p) < scan_index(r) < scan_index(
            scan_next(p, skip)->0,
        ) implies skip && r.0 == p.0 && r.1 == p.1 && r.2 > 0 by {
        if r.0 < p.0 || (r.0 == p.0 && r.1 < p.1) {
            assert(scan_index(r) < scan_index(p));
        }
        if r.0 > p.0 || (r.0 == p.0 && r.1 > p.1) {
            assert(scan_index(r) >= scan_index(scan_next(p, skip)->0));
        }
    }
}

proof fn lemma_scan_run_prefix(ps: Seq<(int, int, int)>, skips: Seq<bool>)
    requires
        scan_run(ps, skips),
        ps.len() > 1,
    ensures
        scan_run(ps.drop_last(), skips.drop_last()),
{
    reveal(scan_run);
    let ps0 = ps.drop_last();
    let sk0 = skips.drop_last();
    assert forall|i: int| 0 <= i < ps0.len() - 1 implies scan_next(#[trigger] ps0[i], sk0[i]) == Some(ps0[i + 1]) by {
        assert(scan_next(ps[i], skips[i]) == Some(ps[i + 1]));
    }
    assert forall|i: int| 0 <= i < ps0.len() && #[trigger] sk0[i] implies ps0[i].2 == 0 by {
        assert(skips[i]);
    }
}

proof fn lemma_scan_run_at(ps: Seq<(int, int, int)>, skips: Seq<bool>, i: int)
    requires
        scan_run(ps, skips),
        0 <= i,
    ensures
        ps.len() >= 1,
        skips.len() == ps.len(),
        ps[0] == (0int, 0int, 0int),
        i < ps.len() && skips[i] ==> ps[i].2 == 0,
        i < ps.len() - 1 ==> scan_next(ps[i], skips[i]) == Some(ps[i + 1]),
{
    reveal(scan_run);
}

proof fn lemma_scan_increasing(ps: Seq<(int, int, int)>, skips: Seq<bool>)
    requires
        scan_run(ps, skips),
    ensures
        forall|i: int| 0 <= i < ps.len() ==> valid_position(#[trigger] ps[i]),
        forall|i: int, j: int| 0 <= i < j < ps.len() ==> scan_index(#[trigger] ps[i]) < scan_index(#[trigger] ps[j]),
    decreases ps.len(),
{
    let n = ps.len();
    lemma_scan_run_at(ps, skips, 0);
    if n > 1 {
        let ps0 = ps.drop_last();
        lemma_scan_run_prefix(ps, skips);
        lemma_scan_increasing(ps0, skips.drop_last());
        let p = ps[n - 2];
        assert(ps0[n - 2] == p);
        lemma_scan_run_at(ps, skips, n - 2);
        lemma_scan_step(p, skips[n - 2]);
        assert forall|i: int| 0 <= i < n implies valid_position(#[trigger] ps[i]) by {
            if i < n - 1 {
                assert(ps[i] == ps0[i]);
            }
        }
        assert forall|i: int, j: int| 0 <= i < j < n implies scan_index(#[trigger] ps[i]) < scan_index(
            #[trigger] ps[j],
        ) by {
            assert(ps[i] == ps0[i]);
            if j < n - 1 {
                assert(ps[j] == ps0[j]);
            } else if i < n - 2 {
                assert(scan_index(ps0[i]) < scan_index(ps0[n - 2]));
            }
        }
    }
}

/// Every valid function up to `ps`'s last probe was probed, or is a
/// function above 0 of a device whose function 0 was probed and skipped
/// the rest.
#[verifier::opaque]
pub open spec fn scan_covered(ps: Seq<(int, int, int)>, skips: Seq<bool>) -> bool {
    forall|q: (int, int, int)|
        valid_position(q) && scan_index(q) <= scan_index(ps.last()) ==> (exists|i: int|
            0 <= i < ps.len() && #[trigger] ps[i] == q) || (q.2 > 0 && exists|i: int|
            0 <= i < ps.len() && ps[i] == (q.0, q.1, 0int) && #[trigger] skips[i])
}

proof fn lemma_cover_one(ps: Seq<(int, int, int)>, skips: Seq<bool>, q: (int, int, int))
    requires
        ps.len() > 1,
        skips.len() == ps.len(),
        scan_covered(ps.drop_last(), skips.drop_last()),
        valid_position(ps[ps.len() - 2]),
        skips[ps.len() - 2] ==> ps[ps.len() - 2].2 == 0,
        scan_next(ps[ps.len() - 2], skips[ps.len() - 2]) == Some(ps[ps.len() - 1]),
        valid_position(q),
        scan_index(q) <= scan_index(ps.last()),
    ensures
        (exists|i: int| 0 <= i < ps.len() && #[trigger] ps[i] == q) || (q.2 > 0 && exists|i: int|
            0 <= i < ps.len() && ps[i] == (q.0, q.1, 0int) && #[trigger] skips[i]),
{
    reveal(scan_covered);
    let n = ps.len();
    let ps0 = ps.drop_last();
    let sk0 = skips.drop_last();
    let p = ps[n - 2];
    let q1 = ps[n - 1];
    assert(ps0.last() == p);
    lemma_scan_step(p, skips[n - 2]);
    if q == q1 {
        assert(ps[n - 1] == q);
    } else if scan_index(q) <= scan_index(p) {
        if exists|i: int| 0 <= i < ps0.len() && #[trigger] ps0[i] == q {
            let i = choose|i: int| 0 <= i < ps0.len() && #[trigger] ps0[i] == q;
            assert(ps[i] == q);
        } else {
            let i = choose|i: int| 0 <= i < ps0.len() && ps0[i] == (q.0, q.1, 0int) && #[trigger] sk0[i];
            assert(ps[i] == ps0[i] && skips[i] == sk0[i]);
        }
    } else {
        // q lies strictly between p and the next probe: only a skip leaves
        // such a gap, inside p's device.
        assert(scan_index(p) < scan_index(q) < scan_index(q1));
        assert(ps[n - 2] == (q.0, q.1, 0int) && skips[n - 2]);
    }
}

proof fn lemma_scan_covered(ps: Seq<(int, int, int)>, skips: Seq<bool>)
    requires
        scan_run(ps, skips),
    ensures
        scan_covered(ps, skips),
    decreases ps.len(),
{
    let n = ps.len();
    lemma_scan_run_at(ps, skips, 0);
    if n == 1 {
        reveal(scan_covered);
        assert forall|q: (int, int, int)| valid_position(q) && scan_index(q) <= scan_index(ps.last()) implies (exists|i: int|
            0 <= i < ps.len() && #[trigger] ps[i] == q) || (q.2 > 0 && exists|i: int|
            0 <= i < ps.len() && ps[i] == (q.0, q.1, 0int) && #[trigger] skips[i]) by {
            assert(ps[0] == q);
        }
    } else {
        lemma_scan_run_prefix(ps, skips);
        lemma_scan_covered(ps.drop_last(), skips.drop_last());
        lemma_scan_increasing(ps.drop_last(), skips.drop_last());
        lemma_scan_run_at(ps, skips, n - 2);
        assert(valid_position(ps.drop_last()[n - 2]));
        assert forall|q: (int, int, int)| valid_position(q) && scan_index(q) <= scan_index(ps.last()) implies (exists|i: int|
            0 <= i < ps.len() && #[trigger] ps[i] == q) || (q.2 > 0 && exists|i: int|
            0 <= i < ps.len() && ps[i] == (q.0, q.1, 0int) && #[trigger] skips[i]) by {
            lemma_cover_one(ps, skips, q);
        }
        reveal(scan_covered);
    }
}

/// Over any run of the scan, functions are probed in strictly increasing
/// order, every function up to the last probed was probed unless it is a
/// function above 0 of a single-function device whose function 0
/// answered, and the scan ends only after the last device of the last
/// bus.
pub proof fn lemma_scan_order_and_coverage(ps: Seq<(int, int, int)>, skips: Seq<bool>)
    requires
        scan_run(ps, skips),
    ensures
        forall|i: int| 0 <= i < ps.len() ==> valid_position(#[trigger] ps[i]),
        forall|i: int, j: int| 0 <= i < j < ps.len() ==> scan_index(#[trigger] ps[i]) < scan_index(#[trigger] ps[j]),
        scan_covered(ps, skips),
        scan_next(ps.last(), skips.last()) is None ==> ps.last().0 == PCI_LAST_BUS && ps.last().1 == PCI_LAST_DEV,
{
    lemma_scan_increasing(ps, skips);
    lemma_scan_covered(ps, skips);
    lemma_scan_run_at(ps, skips, 0);
    lemma_scan_run_at(ps, skips, ps.len() - 1);
    assert(valid_position(ps[ps.len() - 1]));
    lemma_scan_step(ps.last(), skips.last());
}

} // verus!
