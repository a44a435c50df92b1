use unicorn::config::{DriverEntry, Manifest};
use unicorn::errors::Error;
use unicorn::gpt::{GPTHeader, GPTPartition};
use unicorn::hooks::{HookTable, HookTarget};
use unicorn::logic::{LogicDeviceDesc, LogicDeviceService, LogicDeviceType, PartitionMetadata};
use unicorn::mbr::MBR;
use unicorn::partition::{
    classify_first_sector, gpt_table_sectors, partitions_from_gpt, partitions_from_mbr,
    whole_device_desc, FirstSectorKind,
};

fn meta(parent: u64, start: u64, num: u64, bs: u64) -> PartitionMetadata {
    PartitionMetadata { parent, start_lba: start, num_blocks: num, block_size: bs }
}

fn sector_with_entry(part_type: u8, start_lba: u32, sectors: u32, bootable: bool) -> Vec<u8> {
    let mut s = vec![0u8; 512];
    s[510] = 0x55;
    s[511] = 0xAA;
    let off = 0x1BE;
    s[off] = if bootable { 0x80 } else { 0x00 };
    s[off + 4] = part_type;
    s[off + 8..off + 12].copy_from_slice(&start_lba.to_le_bytes());
    s[off + 12..off + 16].copy_from_slice(&sectors.to_le_bytes());
    s
}

#[test]
fn mbr_parse_reads_one_entry() {
    let s = sector_with_entry(0x83, 2048, 409600, true);
    let m = MBR::parse(&s).expect("valid sector");
    let p = m.partitions[0].expect("entry present");
    assert_eq!(p.part_type, 0x83);
    assert_eq!(p.start_lba, 2048);
    assert_eq!(p.sectors_count, 409600);
    assert!(p.is_bootable);
    assert!(m.partitions[1].is_none());
    assert!(!m.is_protective_gpt());
}

#[test]
fn mbr_parse_rejects_short_or_unsigned_sectors() {
    assert!(MBR::parse(&[0u8; 100]).is_none());
    let mut s = vec![0u8; 512];
    s[510] = 0x55;
    s[511] = 0xAB;
    assert!(MBR::parse(&s).is_none());
}

#[test]
fn mbr_detects_protective_gpt() {
    let s = sector_with_entry(0xEE, 1, 0xFFFF_FFFF, false);
    let m = MBR::parse(&s).expect("valid sector");
    assert!(m.is_protective_gpt());
}

fn gpt_header_sector() -> Vec<u8> {
    let mut s = vec![0u8; 512];
    s[0..8].copy_from_slice(b"EFI PART");
    s[24..32].copy_from_slice(&1u64.to_le_bytes());
    s[32..40].copy_from_slice(&4095u64.to_le_bytes());
    s[40..48].copy_from_slice(&34u64.to_le_bytes());
    s[48..56].copy_from_slice(&4062u64.to_le_bytes());
    s[72..80].copy_from_slice(&2u64.to_le_bytes());
    s[80..84].copy_from_slice(&128u32.to_le_bytes());
    s[84..88].copy_from_slice(&128u32.to_le_bytes());
    s
}

#[test]
fn gpt_header_parse_reads_fields() {
    let s = gpt_header_sector();
    let h = GPTHeader::parse(&s).expect("valid header");
    assert_eq!(h.current_lba, 1);
    assert_eq!(h.backup_lba, 4095);
    assert_eq!(h.first_usable_lba, 34);
    assert_eq!(h.last_usable_lba, 4062);
    assert_eq!(h.partition_entry_lba, 2);
    assert_eq!(h.num_partition_entries, 128);
    assert_eq!(h.partition_entry_size, 128);
    assert!(GPTHeader::parse(&s[..50]).is_none());
    let mut bad = s.clone();
    bad[0] = 0x46;
    assert!(GPTHeader::parse(&bad).is_none());
}

#[test]
fn gpt_entries_parse_used_slots_and_names() {
    // two slots of 128 bytes; only the first is used
    let mut t = vec![0u8; 256];
    t[0] = 0xAF; // type identifier not all zero
    t[16] = 0x01;
    t[32..40].copy_from_slice(&34u64.to_le_bytes());
    t[40..48].copy_from_slice(&2081u64.to_le_bytes());
    t[48..56].copy_from_slice(&4u64.to_le_bytes());
    // name "boot" in little-endian 16-bit units
    let name: Vec<u16> = "boot".encode_utf16().collect();
    for (i, u) in name.iter().enumerate() {
        t[56 + 2 * i..58 + 2 * i].copy_from_slice(&u.to_le_bytes());
    }
    let parts = GPTPartition::parse_entries(&t, 2, 128);
    assert_eq!(parts.len(), 1);
    assert_eq!(parts[0].first_lba, 34);
    assert_eq!(parts[0].last_lba, 2081);
    assert_eq!(parts[0].attributes, 4);
    assert_eq!(parts[0].name, "boot");
    assert_eq!(parts[0].type_guid[0], 0xAF);
    assert_eq!(parts[0].unique_guid[0], 0x01);
}

#[test]
fn gpt_entries_stop_at_buffer_end() {
    let mut t = vec![0u8; 200]; // second slot is cut off
    t[0] = 1;
    t[128] = 1;
    let parts = GPTPartition::parse_entries(&t, 2, 128);
    assert_eq!(parts.len(), 1);
}

#[test]
fn first_sector_classification() {
    let mut initrd = vec![0u8; 512];
    initrd[0..4].copy_from_slice(&0x99999999u32.to_le_bytes());
    assert_eq!(classify_first_sector(&initrd), FirstSectorKind::Initrd);

    let prot = sector_with_entry(0xEE, 1, 100, false);
    assert_eq!(classify_first_sector(&prot), FirstSectorKind::ProtectiveGpt);

    let real = sector_with_entry(0x83, 2048, 100, false);
    assert_eq!(classify_first_sector(&real), FirstSectorKind::MbrTable);

    let blank = vec![0u8; 512];
    assert_eq!(classify_first_sector(&blank), FirstSectorKind::Unformatted);
}

#[test]
fn mbr_partitions_become_block_descriptors() {
    let s = sector_with_entry(0x83, 2048, 409600, false);
    let m = MBR::parse(&s).unwrap();
    let descs = partitions_from_mbr(&m, &String::from("disk0"), 77, 512);
    assert_eq!(descs.len(), 1);
    assert_eq!(descs[0].parent_name, "disk0");
    assert_eq!(descs[0].badge, None);
    assert!(matches!(
        descs[0].dev_type,
        LogicDeviceType::Block(m) if m == meta(77, 2048, 409600, 512)
    ));
}

#[test]
fn gpt_partitions_become_block_descriptors() {
    let mut t = vec![0u8; 128];
    t[0] = 1;
    t[32..40].copy_from_slice(&34u64.to_le_bytes());
    t[40..48].copy_from_slice(&133u64.to_le_bytes());
    let parts = GPTPartition::parse_entries(&t, 1, 128);
    let descs = partitions_from_gpt(&parts, &String::from("disk0"), 5, 512);
    assert_eq!(descs.len(), 1);
    assert!(matches!(
        descs[0].dev_type,
        LogicDeviceType::Block(m) if m == meta(5, 34, 100, 512)
    ));
}

#[test]
fn gpt_table_sector_count_rounds_up() {
    let mut s = gpt_header_sector();
    let h = GPTHeader::parse(&s).unwrap();
    assert_eq!(gpt_table_sectors(&h, 512), 32); // 128 * 128 / 512
    s[80..84].copy_from_slice(&3u32.to_le_bytes());
    let h2 = GPTHeader::parse(&s).unwrap();
    assert_eq!(gpt_table_sectors(&h2, 512), 1); // 384 bytes round up to one block
}

#[test]
fn whole_device_fallback_covers_all_blocks() {
    let d = whole_device_desc(&String::from("disk0"), 3, 8192, 512);
    assert_eq!(d.parent_name, "disk0");
    assert!(matches!(d.dev_type, LogicDeviceType::Block(m) if m == meta(3, 0, 8192, 512)));
}

#[test]
fn match_driver_first_entry_wins() {
    let m = Manifest {
        drivers: vec![
            DriverEntry {
                name: String::from("platd"),
                compatible: vec![String::from("acpi")],
            },
            DriverEntry {
                name: String::from("vnetd"),
                compatible: vec![String::from("virtio-net")],
            },
            DriverEntry {
                name: String::from("vnetd-alt"),
                compatible: vec![String::from("virtio-net")],
            },
        ],
    };
    assert_eq!(
        m.match_driver(&String::from("acpi"), &Vec::new()),
        Some(String::from("platd"))
    );
    assert_eq!(
        m.match_driver(&String::from("virtio0"), &vec![String::from("virtio-net")]),
        Some(String::from("vnetd"))
    );
    assert_eq!(m.match_driver(&String::from("unknown"), &Vec::new()), None);
}

#[test]
fn hook_replayed_twice_notifies_twice_per_device() {
    let mut reg = LogicDeviceService::new();
    reg.register(
        LogicDeviceDesc {
            parent_name: String::from("disk0"),
            dev_type: LogicDeviceType::Block(meta(1, 0, 100, 512)),
            badge: None,
        },
        10,
    );
    reg.register(
        LogicDeviceDesc {
            parent_name: String::from("virtio1"),
            dev_type: LogicDeviceType::Net,
            badge: None,
        },
        11,
    );
    let mut hooks = HookTable::new();
    let target = HookTarget::Type(LogicDeviceType::Block(meta(0, 0, 0, 0)));
    let first = hooks.hook(target, 50, &reg);
    let second = hooks.hook(target, 50, &reg);
    let block_id = 1u64;
    let count = first.iter().chain(second.iter()).filter(|n| n.logic_id == block_id).count();
    assert_eq!(count, 2);
    let net_count =
        first.iter().chain(second.iter()).filter(|n| n.logic_id == 2).count();
    assert_eq!(net_count, 0);
}

#[test]
fn error_codes_are_stable() {
    assert_eq!(Error::InvalidArgs.code(), 1);
    assert_eq!(Error::NotFound.code(), 2);
    assert_eq!(Error::InvalidMethod.code(), 8);
}

#[test]
fn line_manifest_parses_stanzas() {
    let text = b"[[driver]]\ncompatible = \"virtio-net\"\nbinary = \"vnetd\"\n[[driver]]\n  compatible=\"acpi\"\r\n  binary = \"platd\"\n\0garbage after nul";
    let m = unicorn::manifest::Manifest::parse(text);
    assert_eq!(m.drivers.len(), 2);
    assert_eq!(m.drivers[0].compatible, "virtio-net");
    assert_eq!(m.drivers[0].binary, "vnetd");
    assert_eq!(m.drivers[1].compatible, "acpi");
    assert_eq!(m.drivers[1].binary, "platd");
    assert_eq!(m.find_binary("acpi"), Some("platd"));
    assert_eq!(m.find_binary("pci"), None);
}

#[test]
fn line_manifest_skips_incomplete_stanzas() {
    let text = b"[[driver]]\ncompatible = \"x\"\n[[driver]]\ncompatible = \"y\"\nbinary = \"yd\"\n";
    let m = unicorn::manifest::Manifest::parse(text);
    assert_eq!(m.drivers.len(), 1);
    assert_eq!(m.drivers[0].compatible, "y");
}

#[test]
fn parse_value_requires_one_equals_and_quotes() {
    assert_eq!(unicorn::manifest::parse_value("binary = \"platd\""), Some(String::from("platd")));
    assert_eq!(unicorn::manifest::parse_value("binary = platd"), None);
    assert_eq!(unicorn::manifest::parse_value("binary = \"a=b\""), None);
    assert_eq!(unicorn::manifest::parse_value("no separator"), None);
    assert_eq!(unicorn::manifest::parse_value("k = \"\""), Some(String::new()));
}
