use data_recovery::device::{BlockDevice, MemoryDevice};
use data_recovery::fat32::{
    parse_directory_bytes, parse_volume, read_root_entries, short_name_checksum, DirectoryEntry, LfnAssembler, DELETED,
    DIR_ENTRY_SIZE, LFN_ATTR, LFN_CHARS_PER_ENTRY, LFN_LAST_MASK, LFN_MAX_ORDER,
};
use data_recovery::range::ByteRange;

const LFN_CHAR_RANGES: [(usize, usize); 3] = [(1, 11), (14, 26), (28, 32)];

fn image_bytes() -> Vec<u8> {
    let sectors = 66_000usize;
    let mut b = vec![0u8; 512 * sectors];
    b[11..13].copy_from_slice(&512u16.to_le_bytes());
    b[13] = 1;
    b[14..16].copy_from_slice(&32u16.to_le_bytes());
    b[16] = 2;
    b[32..36].copy_from_slice(&(sectors as u32).to_le_bytes());
    b[36..40].copy_from_slice(&600u32.to_le_bytes());
    b[44..48].copy_from_slice(&2u32.to_le_bytes());
    b[510] = 0x55;
    b[511] = 0xAA;
    let fat = 32 * 512;
    b[fat + 8..fat + 12].copy_from_slice(&3u32.to_le_bytes());
    b[fat + 12..fat + 16].copy_from_slice(&0x0FFF_FFFFu32.to_le_bytes());
    let root = (32 + 2 * 600) * 512;
    b[root..root + 8].copy_from_slice(b"HELLO   ");
    b[root + 8..root + 11].copy_from_slice(b"TXT");
    b[root + 11] = 0x20;
    b[root + 26..root + 28].copy_from_slice(&5u16.to_le_bytes());
    b[root + 28..root + 32].copy_from_slice(&12u32.to_le_bytes());
    for offset in (root + DIR_ENTRY_SIZE..root + 512).step_by(DIR_ENTRY_SIZE) {
        b[offset] = DELETED;
    }
    let root2 = root + 512;
    b[root2..root2 + 8].copy_from_slice(b"WORLD   ");
    b[root2 + 8..root2 + 11].copy_from_slice(b"BIN");
    b[root2 + 11] = 0x20;
    b[root2 + 26..root2 + 28].copy_from_slice(&6u16.to_le_bytes());
    b[root2 + 28..root2 + 32].copy_from_slice(&8u32.to_le_bytes());
    b
}

fn lfn_entry(order: u8, last: bool, checksum: u8, chars: &[u16]) -> [u8; 32] {
    let mut e = [0u8; 32];
    e[0] = if last { order | LFN_LAST_MASK } else { order };
    e[11] = LFN_ATTR;
    e[13] = checksum;
    let mut units = chars.to_vec();
    while units.len() < LFN_CHARS_PER_ENTRY {
        units.push(0xFFFF);
    }
    if chars.len() < LFN_CHARS_PER_ENTRY {
        units[chars.len()] = 0x0000;
    }
    let mut i = 0;
    for (start, end) in LFN_CHAR_RANGES {
        let mut at = start;
        while at < end {
            e[at..at + 2].copy_from_slice(&units[i].to_le_bytes());
            i += 1;
            at += 2;
        }
    }
    e
}

fn short_entry(name: &[u8; 11]) -> [u8; 32] {
    let mut e = [0u8; 32];
    e[0..11].copy_from_slice(name);
    e[11] = 0x20;
    e
}

fn utf16(s: &str) -> Vec<u16> {
    s.encode_utf16().collect()
}

fn parse(data: &[u8]) -> Vec<DirectoryEntry> {
    let mut out = Vec::new();
    parse_directory_bytes(data, true, &mut out);
    out
}

#[test]
fn parses_geometry() {
    let m = MemoryDevice::new(image_bytes());
    let v = parse_volume(&m, ByteRange::new(0, m.capacity()).unwrap()).unwrap();
    assert_eq!(v.root_cluster, 2);
    assert_eq!(v.cluster_size().unwrap(), 512);
}

#[test]
fn follows_root_cluster_chain() {
    let m = MemoryDevice::new(image_bytes());
    let e = read_root_entries(&m, ByteRange::new(0, m.capacity()).unwrap(), false).unwrap();
    assert_eq!(e.len(), 2);
    assert_eq!(e[0].short_name, "HELLO.TXT");
    assert_eq!(e[1].short_name, "WORLD.BIN");
}

#[test]
fn detects_chain_loop() {
    let mut bytes = image_bytes();
    let fat = 32 * 512;
    bytes[fat + 12..fat + 16].copy_from_slice(&2u32.to_le_bytes());
    let m = MemoryDevice::new(bytes);
    let v = parse_volume(&m, ByteRange::new(0, m.capacity()).unwrap()).unwrap();
    assert!(v.cluster_chain(&m, ByteRange::new(0, m.capacity()).unwrap(), 2).is_err());
}

#[test]
fn follows_a_chain_to_its_end() {
    let m = MemoryDevice::new(image_bytes());
    let range = ByteRange::new(0, m.capacity()).unwrap();
    let v = parse_volume(&m, range).unwrap();
    assert_eq!(v.cluster_chain(&m, range, 2).unwrap(), vec![2, 3]);
    assert_eq!(v.next_cluster(&m, range, 2).unwrap(), Some(3));
    assert_eq!(v.next_cluster(&m, range, 3).unwrap(), None);
}

#[test]
fn assembles_single_fragment_long_name() {
    let name = b"HELLO~1 TXT";
    let sum = short_name_checksum(&short_entry(name));
    let mut d = Vec::new();
    let full = "Hello Wrld.tx";
    assert_eq!(utf16(full).len(), LFN_CHARS_PER_ENTRY);
    d.extend_from_slice(&lfn_entry(1, true, sum, &utf16(full)));
    d.extend_from_slice(&short_entry(name));
    let e = parse(&d);
    assert_eq!(e.len(), 1);
    assert_eq!(e[0].long_name.as_deref(), Some(full));
}

#[test]
fn assembles_multi_fragment_long_name() {
    let name = b"LONGNA~1TXT";
    let sum = short_name_checksum(&short_entry(name));
    let full = "A Very Long File Name.txt";
    let u = utf16(full);
    let mut d = Vec::new();
    d.extend_from_slice(&lfn_entry(2, true, sum, &u[13..]));
    d.extend_from_slice(&lfn_entry(1, false, sum, &u[..13]));
    d.extend_from_slice(&short_entry(name));
    let e = parse(&d);
    assert_eq!(e[0].long_name.as_deref(), Some(full));
    assert_eq!(e[0].name(), full);
}

#[test]
fn rejects_checksum_mismatch() {
    let name = b"HELLO~1 TXT";
    let sum = short_name_checksum(&short_entry(name));
    let mut d = Vec::new();
    d.extend_from_slice(&lfn_entry(1, true, sum ^ 0xFF, &utf16("Hello.txt")));
    d.extend_from_slice(&short_entry(name));
    let e = parse(&d);
    assert_eq!(e[0].long_name, None);
    assert_eq!(e[0].name(), "HELLO~1.TXT");
}

#[test]
fn rejects_missing_fragment() {
    let name = b"LONGNA~1TXT";
    let sum = short_name_checksum(&short_entry(name));
    let u = utf16("A Very Long File Name.txt");
    let mut d = Vec::new();
    d.extend_from_slice(&lfn_entry(2, true, sum, &u[13..]));
    d.extend_from_slice(&short_entry(name));
    assert_eq!(parse(&d)[0].long_name, None);
}

#[test]
fn rejects_non_contiguous_order() {
    let name = b"LONGNA~1TXT";
    let sum = short_name_checksum(&short_entry(name));
    let u = utf16("A Very Long File Name.txt");
    let mut d = Vec::new();
    d.extend_from_slice(&lfn_entry(3, true, sum, &u[13..]));
    d.extend_from_slice(&lfn_entry(1, false, sum, &u[..13]));
    d.extend_from_slice(&short_entry(name));
    assert_eq!(parse(&d)[0].long_name, None);
}

#[test]
fn rejects_zero_and_oversized_order() {
    let name = b"HELLO~1 TXT";
    let sum = short_name_checksum(&short_entry(name));
    for bad in [0u8, LFN_MAX_ORDER + 1] {
        let mut d = Vec::new();
        d.extend_from_slice(&lfn_entry(bad, true, sum, &utf16("Hello.txt")));
        d.extend_from_slice(&short_entry(name));
        assert_eq!(parse(&d)[0].long_name, None, "order {bad} must be rejected");
    }
}

#[test]
fn orphan_lfn_does_not_attach_to_later_entry() {
    let first = b"AAAAAAAATXT";
    let second = b"BBBBBBBBTXT";
    let sum = short_name_checksum(&short_entry(first));
    let mut d = Vec::new();
    d.extend_from_slice(&lfn_entry(1, true, sum, &utf16("Orphan.txt")));
    d.extend_from_slice(&short_entry(second));
    let e = parse(&d);
    assert_eq!(e[0].long_name, None);
    assert_eq!(e[0].short_name, "BBBBBBBB.TXT");
}

#[test]
fn deleted_lfn_fragments_are_discarded() {
    let name = b"HELLO~1 TXT";
    let sum = short_name_checksum(&short_entry(name));
    let mut frag = lfn_entry(1, true, sum, &utf16("Hello.txt"));
    frag[0] = DELETED;
    let mut short = short_entry(name);
    short[0] = DELETED;
    let mut d = Vec::new();
    d.extend_from_slice(&frag);
    d.extend_from_slice(&short);
    let e = parse(&d);
    assert!(e[0].deleted);
    assert_eq!(e[0].long_name, None);
}

#[test]
fn volume_label_resets_pending_fragments() {
    let name = b"HELLO~1 TXT";
    let sum = short_name_checksum(&short_entry(name));
    let mut label = short_entry(b"VOLUMENAME ");
    label[11] = 0x08;
    let mut d = Vec::new();
    d.extend_from_slice(&lfn_entry(1, true, sum, &utf16("Hello.txt")));
    d.extend_from_slice(&label);
    d.extend_from_slice(&short_entry(name));
    let e = parse(&d);
    assert_eq!(e.len(), 1);
    assert_eq!(e[0].long_name, None);
}

#[test]
fn rejects_unpaired_surrogate() {
    let name = b"HELLO~1 TXT";
    let sum = short_name_checksum(&short_entry(name));
    let mut d = Vec::new();
    d.extend_from_slice(&lfn_entry(1, true, sum, &[0xD800, 0x0041]));
    d.extend_from_slice(&short_entry(name));
    assert_eq!(parse(&d)[0].long_name, None);
}

#[test]
fn assembles_non_ascii_name() {
    let name = b"CAFE~1  TXT";
    let sum = short_name_checksum(&short_entry(name));
    let full = "café-\u{6f22}\u{5b57}.txt";
    let mut d = Vec::new();
    d.extend_from_slice(&lfn_entry(1, true, sum, &utf16(full)));
    d.extend_from_slice(&short_entry(name));
    assert_eq!(parse(&d)[0].long_name.as_deref(), Some(full));
}

#[test]
fn short_name_checksum_of_a_known_name() {
    // The rotate-and-add sum over the eleven name bytes of "A          ".
    let mut sum: u8 = 0;
    for &byte in b"A          " {
        sum = ((sum & 1) << 7).wrapping_add(sum >> 1).wrapping_add(byte);
    }
    assert_eq!(short_name_checksum(&short_entry(b"A          ")), sum);
}

#[test]
fn the_assembler_can_be_reused_after_a_reset() {
    let name = b"HELLO~1 TXT";
    let short = short_entry(name);
    let sum = short_name_checksum(&short);
    let mut assembler = LfnAssembler::new();
    assembler.push(&lfn_entry(1, true, sum, &utf16("Hello.txt")));
    assert_eq!(assembler.assemble(&short).as_deref(), Some("Hello.txt"));
    assembler.reset();
    assert_eq!(assembler.take(&short), None);
}
