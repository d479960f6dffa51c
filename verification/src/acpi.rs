//! ACPI tables: locating the RSDP in a window of physical memory, checking
//! table checksums, listing the XSDT's entries, finding the CEDT and
//! decoding the packed little-endian layouts of the RSDP, of a system
//! description table header and of a CXL fixed memory window structure.
//! Fetching the bytes from memory is the caller's part.

use vstd::prelude::*;

verus! {

/// Where the RSDP search starts (the firmware's area).
pub const RSDP_SEARCH_START: usize = 0x8000_0000;
/// Alignment of RSDP candidates.
pub const RSDP_ALIGN: usize = 16;
/// Bytes covered by the RSDP's first checksum.
pub const RSDP_CHECKSUM_LEN: usize = 20;
/// Size of the packed RSDP.
pub const RSDP_SIZE: usize = 33;
/// Size of a system description table header.
pub const SDT_HEADER_SIZE: usize = 36;
/// Size of the packed CXL fixed memory window structure (without its
/// host-bridge list).
pub const CFMWS_SIZE: usize = 66;
/// Size of one XSDT entry (a 64-bit physical address).
pub const XSDT_ENTRY_SIZE: usize = 8;

/// The root system description pointer.
#[derive(Debug, Clone, Copy)]
pub struct Rsdp {
    pub signature: [u8; 8],
    pub checksum: u8,
    pub oem_id: [u8; 6],
    pub revision: u8,
    /// RSDT physical address (legacy).
    pub rsdt_addr: u32,
    pub length: u32,
    /// XSDT physical address (ACPI 2.0 and later).
    pub xsdt_addr: u64,
    pub ext_checksum: u8,
}

/// A system description table header.
#[derive(Debug, Clone, Copy)]
pub struct SdtHeader {
    pub signature: [u8; 4],
    pub length: u32,
    pub revision: u8,
    pub checksum: u8,
    pub oem_id: [u8; 6],
    pub oem_table_id: [u8; 8],
    pub oem_revision: u32,
    pub creator_id: u32,
    pub creator_revision: u32,
}

/// A CXL fixed memory window.
#[derive(Debug, Clone, Copy)]
pub struct Cfmws {
    pub header: SdtHeader,
    pub reserved: [u8; 4],
    /// Base host physical address of the window.
    pub base_hpa: u64,
    pub window_size: u64,
    /// Interleave granularity (log2).
    pub interleave_gran: u32,
    pub interleave_ways: u16,
    pub interleave_id: u16,
    pub host_bridge_count: u16,
}

/// `"RSD PTR "`.
pub open spec fn rsdp_signature() -> Seq<u8> {
    seq![0x52u8, 0x53u8, 0x44u8, 0x20u8, 0x50u8, 0x54u8, 0x52u8, 0x20u8]
}

/// `"CEDT"`.
pub open spec fn cedt_signature() -> Seq<u8> {
    seq![0x43u8, 0x45u8, 0x44u8, 0x54u8]
}

/// The sum of the bytes of `s`.
pub open spec fn byte_sum(s: Seq<u8>) -> int
    decreases s.len(),
{
    if s.len() == 0 {
        0
    } else {
        byte_sum(s.drop_last()) + s.last()
    }
}

/// Little-endian 16-bit value at `o`.
pub open spec fn le16(s: Seq<u8>, o: int) -> int {
    s[o] + s[o + 1] * 0x100
}

/// Little-endian 32-bit value at `o`.
pub open spec fn le32(s: Seq<u8>, o: int) -> int {
    le16(s, o) + le16(s, o + 2) * 0x1_0000
}

/// Little-endian 64-bit value at `o`.
pub open spec fn le64(s: Seq<u8>, o: int) -> int {
    le32(s, o) + le32(s, o + 4) * 0x1_0000_0000
}

/// An RSDP starts at `off` of `mem`: its signature is there and its first
/// 20 bytes sum to 0 modulo 256.
pub open spec fn rsdp_at(mem: Seq<u8>, off: int) -> bool {
    &&& off + RSDP_CHECKSUM_LEN <= mem.len()
    &&& mem.subrange(off, off + 8) == rsdp_signature()
    &&& byte_sum(mem.subrange(off, off + RSDP_CHECKSUM_LEN)) % 256 == 0
}

/// The offsets that the search looks at: 16-byte aligned, with 16 bytes
/// left in the window.
pub open spec fn rsdp_candidate(len: int, off: int) -> bool {
    0 <= off && off % (RSDP_ALIGN as int) == 0 && off + RSDP_ALIGN <= len
}

/// The table's length field.
pub open spec fn sdt_length(s: Seq<u8>) -> int {
    le32(s, 4)
}

/// The table is complete and its `length` bytes sum to 0 modulo 256.
pub open spec fn sdt_valid(s: Seq<u8>) -> bool {
    &&& s.len() >= SDT_HEADER_SIZE
    &&& sdt_length(s) <= s.len()
    &&& byte_sum(s.take(sdt_length(s))) % 256 == 0
}

/// `h` is the header laid out at the start of `s`.
pub open spec fn header_at(s: Seq<u8>, h: SdtHeader) -> bool {
    &&& h.signature@ == s.subrange(0, 4)
    &&& h.length == le32(s, 4)
    &&& h.revision == s[8]
    &&& h.checksum == s[9]
    &&& h.oem_id@ == s.subrange(10, 16)
    &&& h.oem_table_id@ == s.subrange(16, 24)
    &&& h.oem_revision == le32(s, 24)
    &&& h.creator_id == le32(s, 28)
    &&& h.creator_revision == le32(s, 32)
}

/// `r` is the RSDP laid out at the start of `s`.
pub open spec fn rsdp_fields(s: Seq<u8>, r: Rsdp) -> bool {
    &&& r.signature@ == s.subrange(0, 8)
    &&& r.checksum == s[8]
    &&& r.oem_id@ == s.subrange(9, 15)
    &&& r.revision == s[15]
    &&& r.rsdt_addr == le32(s, 16)
    &&& r.length == le32(s, 20)
    &&& r.xsdt_addr == le64(s, 24)
    &&& r.ext_checksum == s[32]
}

/// `c` is the window structure laid out at the start of `s`.
pub open spec fn cfmws_fields(s: Seq<u8>, c: Cfmws) -> bool {
    &&& header_at(s, c.header)
    &&& c.reserved@ == s.subrange(36, 40)
    &&& c.base_hpa == le64(s, 40)
    &&& c.window_size == le64(s, 48)
    &&& c.interleave_gran == le32(s, 56)
    &&& c.interleave_ways == le16(s, 60)
    &&& c.interleave_id == le16(s, 62)
    &&& c.host_bridge_count == le16(s, 64)
}

fn read_le16(b: &[u8], o: usize) -> (v: u16)
    requires
        o + 2 <= b.len(),
    ensures
        v == le16(b@, o as int),
{
    (b[o] as u16) + (b[o + 1] as u16) * 0x100
}

fn read_le32(b: &[u8], o: usize) -> (v: u32)
    requires
        o + 4 <= b.len(),
    ensures
        v == le32(b@, o as int),
{
    let lo = read_le16(b, o);
    let hi = read_le16(b, o + 2);
    (lo as u32) + (hi as u32) * 0x1_0000
}

fn read_le64(b: &[u8], o: usize) -> (v: u64)
    requires
        o + 8 <= b.len(),
    ensures
        v == le64(b@, o as int),
{
    let lo = read_le32(b, o);
    let hi = read_le32(b, o + 4);
    (lo as u64) + (hi as u64) * 0x1_0000_0000
}

fn read_array4(b: &[u8], o: usize) -> (a: [u8; 4])
    requires
        o + 4 <= b.len(),
    ensures
        a@ == b@.subrange(o as int, o + 4),
{
    let a = [b[o], b[o + 1], b[o + 2], b[o + 3]];
    assert(a@ =~= b@.subrange(o as int, o + 4));
    a
}

fn read_array6(b: &[u8], o: usize) -> (a: [u8; 6])
    requires
        o + 6 <= b.len(),
    ensures
        a@ == b@.subrange(o as int, o + 6),
{
    let a = [b[o], b[o + 1], b[o + 2], b[o + 3], b[o + 4], b[o + 5]];
    assert(a@ =~= b@.subrange(o as int, o + 6));
    a
}

fn read_array8(b: &[u8], o: usize) -> (a: [u8; 8])
    requires
        o + 8 <= b.len(),
    ensures
        a@ == b@.subrange(o as int, o + 8),
{
    let a = [b[o], b[o + 1], b[o + 2], b[o + 3], b[o + 4], b[o + 5], b[o + 6], b[o + 7]];
    assert(a@ =~= b@.subrange(o as int, o + 8));
    a
}

proof fn lemma_byte_sum_step(s: Seq<u8>, start: int, i: int)
    requires
        0 <= start <= i < s.len(),
    ensures
        byte_sum(s.subrange(start, i + 1)) == byte_sum(s.subrange(start, i)) + s[i],
{
    assert(s.subrange(start, i + 1).drop_last() =~= s.subrange(start, i));
}

/// Whether `len` bytes of `b` from `start` sum to 0 modulo 256.
fn sums_to_zero(b: &[u8], start: usize, len: usize) -> (ok: bool)
    requires
        start + len <= b@.len(),
    ensures
        ok == (byte_sum(b@.subrange(start as int, start + len)) % 256 == 0),
{
    let mut sum: u8 = 0;
    let mut i: usize = start;
    assert(b@.subrange(start as int, start as int) =~= Seq::<u8>::empty());
    while i < start + len
        invariant
            start <= i <= start + len,
            start + len <= b.len(),
            sum == byte_sum(b@.subrange(start as int, i as int)) % 256,
        decreases start + len - i,
    {
        proof {
            lemma_byte_sum_step(b@, start as int, i as int);
        }
        sum = sum.wrapping_add(b[i]);
        i += 1;
    }
    sum == 0
}

/// Whether an RSDP starts at `off` of `mem`.
fn is_rsdp_at(mem: &[u8], off: usize) -> (b: bool)
    ensures
        b == rsdp_at(mem@, off as int),
{
    if off > mem.len() || mem.len() - off < RSDP_CHECKSUM_LEN {
        return false;
    }
    let sig: [u8; 8] = [0x52u8, 0x53u8, 0x44u8, 0x20u8, 0x50u8, 0x54u8, 0x52u8, 0x20u8];
    let mut k: usize = 0;
    while k < 8
        invariant
            k <= 8,
            off + RSDP_CHECKSUM_LEN <= mem.len(),
            sig@ == rsdp_signature(),
            forall|j: int| 0 <= j < k ==> mem@[off + j] == rsdp_signature()[j],
        decreases 8 - k,
    {
        if mem[off + k] != sig[k] {
            assert(mem@.subrange(off as int, off + 8)[k as int] != rsdp_signature()[k as int]);
            return false;
        }
        k += 1;
    }
    assert(mem@.subrange(off as int, off + 8) =~= rsdp_signature());
    sums_to_zero(mem, off, RSDP_CHECKSUM_LEN)
}

/// Searches `mem`, the bytes of physical memory from address `base`, for
/// the RSDP: 16-byte aligned offsets with 16 bytes left in the window are
/// tried in increasing order, and the first one holding the signature whose
/// first 20 bytes sum to 0 is returned as an address.
pub fn rsdp_search(mem: &[u8], base: usize) -> (r: Option<usize>)
    requires
        base + mem@.len() <= usize::MAX,
    ensures
        r matches Some(a) ==> a >= base && rsdp_candidate(mem@.len() as int, a - base) && rsdp_at(
            mem@,
            a - base,
        ) && forall|o: int| rsdp_candidate(mem@.len() as int, o) && o < a - base ==> !rsdp_at(mem@, o),
        r is None ==> forall|o: int| rsdp_candidate(mem@.len() as int, o) ==> !rsdp_at(mem@, o),
{
    let mut off: usize = 0;
    while off <= mem.len() && mem.len() - off >= RSDP_ALIGN
        invariant
            off % RSDP_ALIGN == 0,
            base + mem@.len() <= usize::MAX,
            forall|o: int| rsdp_candidate(mem@.len() as int, o) && o < off ==> !rsdp_at(mem@, o),
        decreases mem@.len() - off,
    {
        if is_rsdp_at(mem, off) {
            return Some(base + off);
        }
        off += RSDP_ALIGN;
    }
    assert forall|o: int| rsdp_candidate(mem@.len() as int, o) implies !rsdp_at(mem@, o) by {
        assert(o < off);
    }
    None
}

/// Whether `table` holds a complete system description table whose
/// `length` bytes sum to 0 modulo 256.
pub fn sdt_verify(table: &[u8]) -> (ok: bool)
    ensures
        ok == sdt_valid(table@),
{
    if table.len() < SDT_HEADER_SIZE {
        return false;
    }
    let len = read_le32(table, 4) as usize;
    if len > table.len() {
        return false;
    }
    assert(table@.subrange(0, len as int) =~= table@.take(len as int));
    sums_to_zero(table, 0, len)
}

impl Rsdp {
    /// The RSDP laid out at the start of `bytes`, `None` when fewer than 33
    /// bytes are given.
    pub fn parse(bytes: &[u8]) -> (r: Option<Self>)
        ensures
            r is None <==> bytes@.len() < RSDP_SIZE,
            r matches Some(p) ==> rsdp_fields(bytes@, p),
    {
        if bytes.len() < RSDP_SIZE {
            return None;
        }
        Some(
            Rsdp {
                signature: read_array8(bytes, 0),
                checksum: bytes[8],
                oem_id: read_array6(bytes, 9),
                revision: bytes[15],
                rsdt_addr: read_le32(bytes, 16),
                length: read_le32(bytes, 20),
                xsdt_addr: read_le64(bytes, 24),
                ext_checksum: bytes[32],
            },
        )
    }
}

impl SdtHeader {
    /// The header laid out at the start of `bytes`, `None` when fewer than
    /// 36 bytes are given.
    pub fn parse(bytes: &[u8]) -> (r: Option<Self>)
        ensures
            r is None <==> bytes@.len() < SDT_HEADER_SIZE,
            r matches Some(h) ==> header_at(bytes@, h),
    {
        if bytes.len() < SDT_HEADER_SIZE {
            return None;
        }
        Some(
            SdtHeader {
                signature: read_array4(bytes, 0),
                length: read_le32(bytes, 4),
                revision: bytes[8],
                checksum: bytes[9],
                oem_id: read_array6(bytes, 10),
                oem_table_id: read_array8(bytes, 16),
                oem_revision: read_le32(bytes, 24),
                creator_id: read_le32(bytes, 28),
                creator_revision: read_le32(bytes, 32),
            },
        )
    }
}

impl Cfmws {
    /// The window structure laid out at the start of `bytes`, `None` when
    /// fewer than 66 bytes are given.
    pub fn parse(bytes: &[u8]) -> (r: Option<Self>)
        ensures
            r is None <==> bytes@.len() < CFMWS_SIZE,
            r matches Some(c) ==> cfmws_fields(bytes@, c),
    {
        if bytes.len() < CFMWS_SIZE {
            return None;
        }
        let header = match SdtHeader::parse(bytes) {
            Some(h) => h,
            None => {
                return None;
            },
        };
        Some(
            Cfmws {
                header,
                reserved: read_array4(bytes, 36),
                base_hpa: read_le64(bytes, 40),
                window_size: read_le64(bytes, 48),
                interleave_gran: read_le32(bytes, 56),
                interleave_ways: read_le16(bytes, 60),
                interleave_id: read_le16(bytes, 62),
                host_bridge_count: read_le16(bytes, 64),
            },
        )
    }
}

/// The physical addresses listed by the XSDT in `xsdt`: as many 8-byte
/// entries as fit in its `length` after the header.
pub fn xsdt_entries(xsdt: &[u8]) -> (v: Vec<u64>)
    requires
        xsdt@.len() >= SDT_HEADER_SIZE,
        SDT_HEADER_SIZE <= sdt_length(xsdt@) <= xsdt@.len(),
    ensures
        v@.len() == (sdt_length(xsdt@) - SDT_HEADER_SIZE) / (XSDT_ENTRY_SIZE as int),
        forall|i: int|
            0 <= i < v@.len() ==> #[trigger] v@[i] == le64(xsdt@, SDT_HEADER_SIZE + i * XSDT_ENTRY_SIZE),
{
    let len = read_le32(xsdt, 4) as usize;
    let count = (len - SDT_HEADER_SIZE) / XSDT_ENTRY_SIZE;
    let mut v: Vec<u64> = Vec::new();
    let mut i: usize = 0;
    while i < count
        invariant
            i <= count,
            count == (sdt_length(xsdt@) - SDT_HEADER_SIZE) / (XSDT_ENTRY_SIZE as int),
            SDT_HEADER_SIZE <= len <= xsdt@.len(),
            len == sdt_length(xsdt@),
            v@.len() == i,
            forall|j: int| 0 <= j < i ==> #[trigger] v@[j] == le64(xsdt@, SDT_HEADER_SIZE + j * XSDT_ENTRY_SIZE),
        decreases count - i,
    {
        assert(SDT_HEADER_SIZE + i * XSDT_ENTRY_SIZE + 8 <= len) by (nonlinear_arith)
            requires
                i < count,
                count == (len - SDT_HEADER_SIZE) / (XSDT_ENTRY_SIZE as int),
                XSDT_ENTRY_SIZE == 8,
                SDT_HEADER_SIZE <= len,
        ;
        let e = read_le64(xsdt, SDT_HEADER_SIZE + i * XSDT_ENTRY_SIZE);
        v.push(e);
        i += 1;
    }
    v
}

/// Whether `table` is a CEDT whose checksum holds.
pub fn is_cedt(table: &[u8]) -> (b: bool)
    ensures
        b == (table@.len() >= 4 && table@.subrange(0, 4) == cedt_signature() && sdt_valid(table@)),
{
    if table.len() < 4 {
        return false;
    }
    let sig = read_array4(table, 0);
    if !(sig[0] == 0x43u8 && sig[1] == 0x45u8 && sig[2] == 0x44u8 && sig[3] == 0x54u8) {
        assert(table@.subrange(0, 4) != cedt_signature()) by {
            if table@.subrange(0, 4) == cedt_signature() {
                assert(sig@[0] == 0x43u8 && sig@[1] == 0x45u8 && sig@[2] == 0x44u8 && sig@[3] == 0x54u8);
            }
        }
        return false;
    }
    assert(table@.subrange(0, 4) =~= cedt_signature());
    sdt_verify(table)
}

/// The index of the first of `tables` (the tables that the XSDT lists, in
/// its order) that is a CEDT with a valid checksum.
pub fn find_cedt(tables: &Vec<Vec<u8>>) -> (r: Option<usize>)
    ensures
        r matches Some(i) ==> i < tables@.len() && is_cedt_spec(tables@[i as int]@) && forall|j: int|
            0 <= j < i ==> !is_cedt_spec(#[trigger] tables@[j]@),
        r is None ==> forall|j: int| 0 <= j < tables@.len() ==> !is_cedt_spec(#[trigger] tables@[j]@),
{
    let mut i: usize = 0;
    while i < tables.len()
        invariant
            i <= tables@.len(),
            forall|j: int| 0 <= j < i ==> !is_cedt_spec(#[trigger] tables@[j]@),
        decreases tables@.len() - i,
    {
        if is_cedt(tables[i].as_slice()) {
            return Some(i);
        }
        i += 1;
    }
    None
}

/// A CEDT with a valid checksum.
pub open spec fn is_cedt_spec(s: Seq<u8>) -> bool {
    s.len() >= 4 && s.subrange(0, 4) == cedt_signature() && sdt_valid(s)
}

} // verus!
