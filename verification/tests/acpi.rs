use cxl_os::acpi::{
    find_cedt, is_cedt, rsdp_search, sdt_verify, xsdt_entries, Cfmws, Rsdp, SdtHeader, CFMWS_SIZE,
    RSDP_SEARCH_START, SDT_HEADER_SIZE,
};

fn fix_checksum(bytes: &mut [u8], len: usize, at: usize) {
    bytes[at] = 0;
    let sum = bytes[..len].iter().fold(0u8, |a, b| a.wrapping_add(*b));
    bytes[at] = 0u8.wrapping_sub(sum);
}

fn table(sig: &[u8; 4], body: &[u8]) -> Vec<u8> {
    let len = SDT_HEADER_SIZE + body.len();
    let mut t = vec![0u8; len];
    t[0..4].copy_from_slice(sig);
    t[4..8].copy_from_slice(&(len as u32).to_le_bytes());
    t[8] = 1;
    t[10..16].copy_from_slice(b"BOCHS ");
    t[16..24].copy_from_slice(b"BXPC    ");
    t[24..28].copy_from_slice(&1u32.to_le_bytes());
    t[28..32].copy_from_slice(&0x4350_4258u32.to_le_bytes());
    t[32..36].copy_from_slice(&1u32.to_le_bytes());
    t[SDT_HEADER_SIZE..].copy_from_slice(body);
    fix_checksum(&mut t, len, 9);
    t
}

fn rsdp_bytes(xsdt: u64) -> Vec<u8> {
    let mut r = vec![0u8; 36];
    r[0..8].copy_from_slice(b"RSD PTR ");
    r[9..15].copy_from_slice(b"BOCHS ");
    r[15] = 2;
    r[16..20].copy_from_slice(&0x1234u32.to_le_bytes());
    r[20..24].copy_from_slice(&36u32.to_le_bytes());
    r[24..32].copy_from_slice(&xsdt.to_le_bytes());
    fix_checksum(&mut r, 20, 8);
    r
}

#[test]
fn rsdp_found_at_first_aligned_valid_spot() {
    let mut mem = vec![0u8; 0x200];
    // a signature with a bad checksum is passed over
    mem[0x40..0x48].copy_from_slice(b"RSD PTR ");
    mem[0x48] = 1;
    let r = rsdp_bytes(0x8010_0000);
    mem[0x100..0x100 + 36].copy_from_slice(&r);
    assert_eq!(rsdp_search(&mem, RSDP_SEARCH_START), Some(RSDP_SEARCH_START + 0x100));
    let p = Rsdp::parse(&mem[0x100..]).unwrap();
    assert_eq!(p.xsdt_addr, 0x8010_0000);
    assert_eq!(p.rsdt_addr, 0x1234);
    assert_eq!(p.revision, 2);
    assert_eq!(&p.signature, b"RSD PTR ");
    assert_eq!(&p.oem_id, b"BOCHS ");
}

#[test]
fn rsdp_not_found_unaligned_or_absent() {
    let mut mem = vec![0u8; 0x100];
    assert_eq!(rsdp_search(&mem, 0x8000_0000), None);
    let r = rsdp_bytes(1);
    mem[0x08..0x08 + 36].copy_from_slice(&r);
    assert_eq!(rsdp_search(&mem, 0x8000_0000), None);
    assert!(Rsdp::parse(&mem[..32]).is_none());
}

#[test]
fn table_checksums() {
    let t = table(b"CEDT", &[1, 2, 3, 4]);
    assert!(sdt_verify(&t));
    let mut bad = t.clone();
    bad[SDT_HEADER_SIZE] ^= 0xFF;
    assert!(!sdt_verify(&bad));
    // a table shorter than its length field cannot be checked
    assert!(!sdt_verify(&t[..t.len() - 1]));
    assert!(!sdt_verify(&t[..10]));
}

#[test]
fn header_decoding() {
    let t = table(b"XSDT", &[]);
    let h = SdtHeader::parse(&t).unwrap();
    assert_eq!(&h.signature, b"XSDT");
    assert_eq!(h.length, 36);
    assert_eq!(h.revision, 1);
    assert_eq!(&h.oem_id, b"BOCHS ");
    assert_eq!(&h.oem_table_id, b"BXPC    ");
    assert_eq!(h.oem_revision, 1);
    assert_eq!(h.creator_id, 0x4350_4258);
    assert_eq!(h.creator_revision, 1);
    assert!(SdtHeader::parse(&t[..35]).is_none());
}

#[test]
fn xsdt_lists_its_entries() {
    let mut body = Vec::new();
    for a in [0x8000_1000u64, 0x8000_2000, 0x1_0000_3000] {
        body.extend_from_slice(&a.to_le_bytes());
    }
    let t = table(b"XSDT", &body);
    assert_eq!(xsdt_entries(&t), vec![0x8000_1000, 0x8000_2000, 0x1_0000_3000]);
    let empty = table(b"XSDT", &[]);
    assert_eq!(xsdt_entries(&empty), Vec::<u64>::new());
}

#[test]
fn cedt_is_found_among_tables() {
    let facp = table(b"FACP", &[0; 8]);
    let mut broken = table(b"CEDT", &[0; 8]);
    broken[40] = 9;
    let cedt = table(b"CEDT", &[7; 8]);
    assert!(!is_cedt(&facp));
    assert!(!is_cedt(&broken));
    assert!(is_cedt(&cedt));
    assert_eq!(find_cedt(&vec![facp.clone(), broken.clone(), cedt.clone()]), Some(2));
    assert_eq!(find_cedt(&vec![facp, broken]), None);
    assert!(!is_cedt(b"CED"));
}

#[test]
fn fixed_memory_window_decoding() {
    let mut b = vec![0u8; CFMWS_SIZE];
    b[0..36].copy_from_slice(&table(b"CFMW", &[])[..36]);
    b[36..40].copy_from_slice(&[1, 2, 3, 4]);
    b[40..48].copy_from_slice(&0x100_0000_0000u64.to_le_bytes());
    b[48..56].copy_from_slice(&0x4000_0000u64.to_le_bytes());
    b[56..60].copy_from_slice(&8u32.to_le_bytes());
    b[60..62].copy_from_slice(&1u16.to_le_bytes());
    b[62..64].copy_from_slice(&0xABCDu16.to_le_bytes());
    b[64..66].copy_from_slice(&1u16.to_le_bytes());
    let c = Cfmws::parse(&b).unwrap();
    assert_eq!(&c.header.signature, b"CFMW");
    assert_eq!(c.reserved, [1, 2, 3, 4]);
    assert_eq!(c.base_hpa, 0x100_0000_0000);
    assert_eq!(c.window_size, 0x4000_0000);
    assert_eq!(c.interleave_gran, 8);
    assert_eq!(c.interleave_ways, 1);
    assert_eq!(c.interleave_id, 0xABCD);
    assert_eq!(c.host_bridge_count, 1);
    assert!(Cfmws::parse(&b[..65]).is_none());
}

