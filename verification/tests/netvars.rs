//! Walker behaviour against synthetic reflection-table images.

use hazedumper::batch::{scan_netvars, NetvarRequest};
use hazedumper::memory::{read_cstr, Memory};
use hazedumper::types::{Bitness, ScanError};
use hazedumper::walker::WalkerIndex;

fn put32(buf: &mut Vec<u8>, base: u64, addr: u64, v: u32) {
    let o = (addr - base) as usize;
    buf[o..o + 4].copy_from_slice(&v.to_le_bytes());
}

fn put64(buf: &mut Vec<u8>, base: u64, addr: u64, v: u64) {
    let o = (addr - base) as usize;
    buf[o..o + 8].copy_from_slice(&v.to_le_bytes());
}

fn put_str(buf: &mut Vec<u8>, base: u64, addr: u64, s: &[u8]) {
    let o = (addr - base) as usize;
    buf[o..o + s.len()].copy_from_slice(s);
    buf[o + s.len()] = 0;
}

/// 32-bit image: one class "CPlayer" whose table "DT_Player" has two leaf
/// properties, m_health at 0x100 and m_armor at 0x104.
fn player_image() -> (Memory, u64) {
    let base = 0x10000u64;
    let mut buf = vec![0u8; 0x1000];

    put_str(&mut buf, base, base + 0x900, b"CPlayer");
    put_str(&mut buf, base, base + 0x910, b"DT_Player");
    put_str(&mut buf, base, base + 0x920, b"m_health");
    put_str(&mut buf, base, base + 0x930, b"m_armor");

    // property array: two entries of 12 bytes each
    put32(&mut buf, base, base + 0x100, (base + 0x920) as u32);
    put32(&mut buf, base, base + 0x104, 0x100);
    put32(&mut buf, base, base + 0x108, 0);
    put32(&mut buf, base, base + 0x10C, (base + 0x930) as u32);
    put32(&mut buf, base, base + 0x110, 0x104);
    put32(&mut buf, base, base + 0x114, 0);

    // table
    put32(&mut buf, base, base + 0x200, (base + 0x910) as u32);
    put32(&mut buf, base, base + 0x204, (base + 0x100) as u32);
    put32(&mut buf, base, base + 0x208, 2);

    // class node
    put32(&mut buf, base, base + 0x300, (base + 0x900) as u32);
    put32(&mut buf, base, base + 0x304, (base + 0x200) as u32);
    put32(&mut buf, base, base + 0x308, 0);

    let mut mem = Memory::new();
    mem.add_region(base, buf);
    (mem, base + 0x300)
}

/// 32-bit image with a nested chain: DT_A.b (0x10) -> DT_B.c (0x20) ->
/// DT_C.leaf (0x30).
fn nested_image() -> (Memory, u64) {
    let base = 0x20000u64;
    let mut buf = vec![0u8; 0x1000];

    put_str(&mut buf, base, base + 0x900, b"CA");
    put_str(&mut buf, base, base + 0x910, b"DT_A");
    put_str(&mut buf, base, base + 0x918, b"DT_B");
    put_str(&mut buf, base, base + 0x920, b"DT_C");
    put_str(&mut buf, base, base + 0x928, b"b");
    put_str(&mut buf, base, base + 0x930, b"c");
    put_str(&mut buf, base, base + 0x938, b"leaf");

    // table C at 0x400, its single leaf prop at 0x180
    put32(&mut buf, base, base + 0x180, (base + 0x938) as u32);
    put32(&mut buf, base, base + 0x184, 0x30);
    put32(&mut buf, base, base + 0x188, 0);
    put32(&mut buf, base, base + 0x400, (base + 0x920) as u32);
    put32(&mut buf, base, base + 0x404, (base + 0x180) as u32);
    put32(&mut buf, base, base + 0x408, 1);

    // table B at 0x380, its nested prop "c" at 0x140 pointing at C
    put32(&mut buf, base, base + 0x140, (base + 0x930) as u32);
    put32(&mut buf, base, base + 0x144, 0x20);
    put32(&mut buf, base, base + 0x148, (base + 0x400) as u32);
    put32(&mut buf, base, base + 0x380, (base + 0x918) as u32);
    put32(&mut buf, base, base + 0x384, (base + 0x140) as u32);
    put32(&mut buf, base, base + 0x388, 1);

    // table A at 0x200, its nested prop "b" at 0x100 pointing at B
    put32(&mut buf, base, base + 0x100, (base + 0x928) as u32);
    put32(&mut buf, base, base + 0x104, 0x10);
    put32(&mut buf, base, base + 0x108, (base + 0x380) as u32);
    put32(&mut buf, base, base + 0x200, (base + 0x910) as u32);
    put32(&mut buf, base, base + 0x204, (base + 0x100) as u32);
    put32(&mut buf, base, base + 0x208, 1);

    // class node for A only; B and C are reached through the nesting
    put32(&mut buf, base, base + 0x300, (base + 0x900) as u32);
    put32(&mut buf, base, base + 0x304, (base + 0x200) as u32);
    put32(&mut buf, base, base + 0x308, 0);

    let mut mem = Memory::new();
    mem.add_region(base, buf);
    (mem, base + 0x300)
}

/// 32-bit image with a cycle: DT_A's nested property "self" points back at
/// DT_A's own table.
fn cyclic_image() -> (Memory, u64) {
    let base = 0x30000u64;
    let mut buf = vec![0u8; 0x1000];

    put_str(&mut buf, base, base + 0x900, b"CA");
    put_str(&mut buf, base, base + 0x910, b"DT_A");
    put_str(&mut buf, base, base + 0x920, b"self");

    put32(&mut buf, base, base + 0x100, (base + 0x920) as u32);
    put32(&mut buf, base, base + 0x104, 0x8);
    put32(&mut buf, base, base + 0x108, (base + 0x200) as u32); // back at DT_A

    put32(&mut buf, base, base + 0x200, (base + 0x910) as u32);
    put32(&mut buf, base, base + 0x204, (base + 0x100) as u32);
    put32(&mut buf, base, base + 0x208, 1);

    put32(&mut buf, base, base + 0x300, (base + 0x900) as u32);
    put32(&mut buf, base, base + 0x304, (base + 0x200) as u32);
    put32(&mut buf, base, base + 0x308, 0);

    let mut mem = Memory::new();
    mem.add_region(base, buf);
    (mem, base + 0x300)
}

#[test]
fn lookup_simple_offsets() {
    let (mem, root) = player_image();
    let ix = WalkerIndex::build(&mem, root, Bitness::X86);
    assert_eq!(ix.get_offset(b"DT_Player", b"m_health"), Some(0x100));
    assert_eq!(ix.get_offset(b"DT_Player", b"m_armor"), Some(0x104));
    assert_eq!(ix.get_offset(b"DT_Player", b"m_shield"), None);
}

#[test]
fn repeated_lookup_deterministic() {
    let (mem, root) = player_image();
    let ix = WalkerIndex::build(&mem, root, Bitness::X86);
    let first = ix.get_offset(b"DT_Player", b"m_health");
    let second = ix.get_offset(b"DT_Player", b"m_health");
    assert_eq!(first, second);
    assert_eq!(first, Some(0x100));
}

#[test]
fn nested_offsets_accumulate() {
    let (mem, root) = nested_image();
    let ix = WalkerIndex::build(&mem, root, Bitness::X86);
    assert_eq!(ix.get_offset(b"DT_A", b"b.c.leaf"), Some(0x10 + 0x20 + 0x30));
    // partial paths mismatch the structure
    assert_eq!(ix.get_offset(b"DT_A", b"b"), None); // table where leaf expected
    assert_eq!(ix.get_offset(b"DT_A", b"b.c.leaf.deeper"), None); // leaf where table expected
    // nested tables are materialized and addressable by name too
    assert_eq!(ix.get_offset(b"DT_B", b"c.leaf"), Some(0x20 + 0x30));
    assert_eq!(ix.get_offset(b"DT_C", b"leaf"), Some(0x30));
}

#[test]
fn cyclic_graph_terminates_with_none() {
    let (mem, root) = cyclic_image();
    let ix = WalkerIndex::build(&mem, root, Bitness::X86);
    assert_eq!(ix.get_offset(b"DT_A", b"self.self"), None);
    assert_eq!(ix.get_offset(b"DT_A", b"self.self.self"), None);
}

#[test]
fn unknown_requests_do_not_affect_others() {
    let (mem, root) = player_image();
    let ix = WalkerIndex::build(&mem, root, Bitness::X86);
    assert_eq!(ix.get_offset(b"DT_Nothing", b"m_health"), None);
    assert_eq!(ix.get_offset(b"DT_Player", b"m_missing"), None);
    // the same index still answers the valid request
    assert_eq!(ix.get_offset(b"DT_Player", b"m_health"), Some(0x100));
}

#[test]
fn netvar_batch_and_missing_root() {
    let (mem, root) = player_image();
    let sigs_map = vec![(b"dwGetAllClasses".to_vec(), root)];
    let reqs = vec![
        NetvarRequest {
            name: b"health".to_vec(),
            table: b"DT_Player".to_vec(),
            prop: b"m_health".to_vec(),
        },
        NetvarRequest {
            name: b"missing".to_vec(),
            table: b"DT_Player".to_vec(),
            prop: b"m_shield".to_vec(),
        },
    ];
    let res = scan_netvars(&sigs_map, b"dwGetAllClasses", &reqs, &mem, Bitness::X86).unwrap();
    assert_eq!(res.len(), 1);
    assert_eq!(res[0].0, b"health".to_vec());
    assert_eq!(res[0].1, 0x100);

    // without the root signature the whole phase is skipped
    let empty: Vec<(Vec<u8>, u64)> = Vec::new();
    assert!(scan_netvars(&empty, b"dwGetAllClasses", &reqs, &mem, Bitness::X86).is_none());
}

#[test]
fn sixty_four_bit_layout() {
    let base = 0x40000u64;
    let mut buf = vec![0u8; 0x1000];

    put_str(&mut buf, base, base + 0x900, b"CThing");
    put_str(&mut buf, base, base + 0x910, b"DT_Thing");
    put_str(&mut buf, base, base + 0x920, b"m_value");

    // property: name at +0 (8 bytes), offset at +8 (4 bytes), child at +12
    put64(&mut buf, base, base + 0x100, base + 0x920);
    put32(&mut buf, base, base + 0x108, 0x44);
    put64(&mut buf, base, base + 0x10C, 0);

    // table: name at +0, props at +8, count at +16
    put64(&mut buf, base, base + 0x200, base + 0x910);
    put64(&mut buf, base, base + 0x208, base + 0x100);
    put32(&mut buf, base, base + 0x210, 1);

    // class node: name at +0, table at +8, next at +16
    put64(&mut buf, base, base + 0x300, base + 0x900);
    put64(&mut buf, base, base + 0x308, base + 0x200);
    put64(&mut buf, base, base + 0x310, 0);

    let mut mem = Memory::new();
    mem.add_region(base, buf);
    let ix = WalkerIndex::build(&mem, base + 0x300, Bitness::X64);
    assert_eq!(ix.get_offset(b"DT_Thing", b"m_value"), Some(0x44));
}

#[test]
fn unterminated_name_is_corrupt() {
    let mut mem = Memory::new();
    mem.add_region(0x100, vec![0x41; 80]);
    assert_eq!(read_cstr(&mem, 0x100, 64), Err(ScanError::CorruptStructure));
    assert_eq!(read_cstr(&mem, 0x5000, 64), Err(ScanError::ReadFailed));

    let mut mem2 = Memory::new();
    mem2.add_region(0x100, vec![0x41, 0x42, 0x00]);
    assert_eq!(read_cstr(&mem2, 0x100, 64), Ok(vec![0x41, 0x42]));
}

#[test]
fn corrupt_branch_is_local() {
    // two classes: the first one's table has an unterminated name, the
    // second is sound; the bad branch is abandoned and the rest stands
    let base = 0x50000u64;
    let mut buf = vec![0u8; 0x1000];

    // unterminated string region right at the end of the buffer
    let bad_name = base + 0xFF0;
    for k in 0..0x10u64 {
        buf[(bad_name - base + k) as usize] = 0x41;
    }
    put_str(&mut buf, base, base + 0x900, b"CBad");
    put_str(&mut buf, base, base + 0x908, b"CGood");
    put_str(&mut buf, base, base + 0x910, b"DT_Good");
    put_str(&mut buf, base, base + 0x920, b"m_ok");

    // bad table: its name never terminates
    put32(&mut buf, base, base + 0x200, bad_name as u32);
    put32(&mut buf, base, base + 0x204, (base + 0x100) as u32);
    put32(&mut buf, base, base + 0x208, 1);

    // good property and table
    put32(&mut buf, base, base + 0x140, (base + 0x920) as u32);
    put32(&mut buf, base, base + 0x144, 0x7C);
    put32(&mut buf, base, base + 0x148, 0);
    put32(&mut buf, base, base + 0x240, (base + 0x910) as u32);
    put32(&mut buf, base, base + 0x244, (base + 0x140) as u32);
    put32(&mut buf, base, base + 0x248, 1);

    // class list: bad node first, good node second
    put32(&mut buf, base, base + 0x300, (base + 0x900) as u32);
    put32(&mut buf, base, base + 0x304, (base + 0x200) as u32);
    put32(&mut buf, base, base + 0x308, (base + 0x320) as u32);
    put32(&mut buf, base, base + 0x320, (base + 0x908) as u32);
    put32(&mut buf, base, base + 0x324, (base + 0x240) as u32);
    put32(&mut buf, base, base + 0x328, 0);

    let mut mem = Memory::new();
    mem.add_region(base, buf);
    let ix = WalkerIndex::build(&mem, base + 0x300, Bitness::X86);
    assert_eq!(ix.get_offset(b"DT_Good", b"m_ok"), Some(0x7C));
}
