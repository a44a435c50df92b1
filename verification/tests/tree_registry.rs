use unicorn::device::{DeviceDesc, DeviceDescNode, DeviceId, DeviceState, MMIORegion};
use unicorn::errors::Error;
use unicorn::logic::{
    DeviceQuery, LogicDeviceDesc, LogicDeviceService, LogicDeviceType, PartitionMetadata,
};
use unicorn::namegen::u64_to_dec;
use unicorn::tree::DeviceTree;

fn desc(name: &str, compatible: &[&str], mmio: &[(u64, u64)], irq: &[u64]) -> DeviceDesc {
    DeviceDesc {
        name: String::from(name),
        compatible: compatible.iter().map(|c| String::from(*c)).collect(),
        mmio: mmio
            .iter()
            .map(|(b, s)| MMIORegion { base_addr: *b, size: *s })
            .collect(),
        irq: irq.to_vec(),
    }
}

fn meta(parent: u64, start: u64, num: u64, bs: u64) -> PartitionMetadata {
    PartitionMetadata { parent, start_lba: start, num_blocks: num, block_size: bs }
}

#[test]
fn insert_then_get_returns_inserted_node() {
    let mut t = DeviceTree::new();
    let id = t.insert(None, desc("acpi", &[], &[(0x1000, 0x1000)], &[])).unwrap();
    let n = t.get_node(id).expect("fresh handle must resolve");
    assert_eq!(n.id, id);
    assert_eq!(n.desc.name, "acpi");
    assert_eq!(n.state, DeviceState::Ready);
    assert!(n.parent.is_none());
    assert_eq!(t.root, Some(id));
}

#[test]
fn insert_dangling_parent_is_invalid_args() {
    let mut t = DeviceTree::new();
    let dangling = DeviceId { index: 5, generation: 0 };
    assert_eq!(t.insert(Some(dangling), desc("x", &[], &[], &[])), Err(Error::InvalidArgs));
}

#[test]
fn parent_children_contains_child_once() {
    let mut t = DeviceTree::new();
    let root = t.insert(None, desc("acpi", &[], &[], &[])).unwrap();
    let child = t.insert(Some(root), desc("uart0", &[], &[], &[])).unwrap();
    let rn = t.get_node(root).unwrap();
    assert_eq!(rn.children.iter().filter(|c| **c == child).count(), 1);
    let cn = t.get_node(child).unwrap();
    assert_eq!(cn.parent, Some(root));
}

#[test]
fn mount_subtree_forward_reference_is_invalid_args() {
    let mut t = DeviceTree::new();
    let root = t.insert(None, desc("acpi", &[], &[], &[])).unwrap();
    let nodes = vec![
        DeviceDescNode { parent: 1, desc: desc("a", &[], &[], &[]) },
        DeviceDescNode { parent: usize::MAX, desc: desc("b", &[], &[], &[]) },
    ];
    assert_eq!(t.mount_subtree(root, nodes), Err(Error::InvalidArgs));
}

#[test]
fn mount_subtree_then_find_desc_round_trips() {
    let mut t = DeviceTree::new();
    let root = t.insert(None, desc("acpi", &[], &[], &[])).unwrap();
    let nodes = vec![
        DeviceDescNode {
            parent: usize::MAX,
            desc: desc("pci0", &["pci"], &[(0x3000_0000, 0x100_0000)], &[]),
        },
        DeviceDescNode {
            parent: 0,
            desc: desc("virtio0", &["virtio-net"], &[(0x3001_0000, 0x1000)], &[32]),
        },
    ];
    assert!(t.mount_subtree(root, nodes).is_ok());
    let d = t.find_desc(&String::from("virtio0")).expect("mounted node must be found");
    assert_eq!(d.name, "virtio0");
    assert_eq!(d.compatible, vec![String::from("virtio-net")]);
    assert_eq!(d.mmio.len(), 1);
    assert_eq!(d.mmio[0].base_addr, 0x3001_0000);
    assert_eq!(d.mmio[0].size, 0x1000);
    assert_eq!(d.irq, vec![32]);
    assert!(t.find_desc(&String::from("missing")).is_none());
}

#[test]
fn decimal_rendering_is_exact() {
    assert_eq!(u64_to_dec(0), "0");
    assert_eq!(u64_to_dec(7), "7");
    assert_eq!(u64_to_dec(42), "42");
    assert_eq!(u64_to_dec(1000), "1000");
    assert_eq!(u64_to_dec(u64::MAX), "18446744073709551615");
}

#[test]
fn register_assigns_counter_names() {
    let mut reg = LogicDeviceService::new();
    let (id1, n1) = reg.register(
        LogicDeviceDesc {
            parent_name: String::from("virtio0"),
            dev_type: LogicDeviceType::RawBlock(meta(1, 0, 100, 512)),
            badge: None,
        },
        10,
    );
    assert_eq!((id1, n1.as_str()), (1, "disk0"));
    let (id2, n2) = reg.register(
        LogicDeviceDesc {
            parent_name: String::from("virtio1"),
            dev_type: LogicDeviceType::RawBlock(meta(2, 0, 100, 512)),
            badge: None,
        },
        11,
    );
    assert_eq!((id2, n2.as_str()), (2, "disk1"));
    let (_, n3) = reg.register(
        LogicDeviceDesc {
            parent_name: String::from("virtio2"),
            dev_type: LogicDeviceType::Net,
            badge: None,
        },
        12,
    );
    assert_eq!(n3, "net0");
    let (_, n4) = reg.register(
        LogicDeviceDesc {
            parent_name: String::from("fw"),
            dev_type: LogicDeviceType::Platform,
            badge: None,
        },
        13,
    );
    assert_eq!(n4, "platform");
}

#[test]
fn register_block_names_follow_parent_and_count() {
    let mut reg = LogicDeviceService::new();
    reg.register(
        LogicDeviceDesc {
            parent_name: String::from("virtio0"),
            dev_type: LogicDeviceType::RawBlock(meta(1, 0, 100, 512)),
            badge: None,
        },
        10,
    );
    let (_, p1) = reg.register(
        LogicDeviceDesc {
            parent_name: String::from("disk0"),
            dev_type: LogicDeviceType::Block(meta(1, 2048, 100, 512)),
            badge: None,
        },
        11,
    );
    assert_eq!(p1, "disk0p1");
    let (_, p2) = reg.register(
        LogicDeviceDesc {
            parent_name: String::from("disk0"),
            dev_type: LogicDeviceType::Block(meta(1, 4096, 100, 512)),
            badge: None,
        },
        12,
    );
    assert_eq!(p2, "disk0p2");
}

#[test]
fn alloc_logic_matches_kind_and_exact_name() {
    let mut reg = LogicDeviceService::new();
    reg.register(
        LogicDeviceDesc {
            parent_name: String::from("virtio0"),
            dev_type: LogicDeviceType::RawBlock(meta(1, 0, 100, 512)),
            badge: None,
        },
        10,
    );
    assert_eq!(reg.alloc_logic(1, &String::from("disk0")), Some((1, 10)));
    assert_eq!(reg.alloc_logic(3, &String::from("disk0")), None);
    assert_eq!(reg.alloc_logic(1, &String::from("disk1")), None);
}

#[test]
fn query_filters_are_conjunctive() {
    let mut reg = LogicDeviceService::new();
    reg.register(
        LogicDeviceDesc {
            parent_name: String::from("virtio0"),
            dev_type: LogicDeviceType::RawBlock(meta(1, 0, 100, 512)),
            badge: None,
        },
        10,
    );
    reg.register(
        LogicDeviceDesc {
            parent_name: String::from("disk0"),
            dev_type: LogicDeviceType::Block(meta(1, 2048, 100, 512)),
            badge: None,
        },
        11,
    );
    reg.register(
        LogicDeviceDesc {
            parent_name: String::from("virtio1"),
            dev_type: LogicDeviceType::Net,
            badge: None,
        },
        12,
    );

    let by_type = reg.query(
        &DeviceQuery {
            name: None,
            compatible: Vec::new(),
            dev_type: Some(LogicDeviceType::Block(meta(0, 0, 0, 0))),
        },
    );
    assert_eq!(by_type, vec![String::from("disk0p1")]);

    let by_name = reg.query(
        &DeviceQuery { name: Some(String::from("disk")), compatible: Vec::new(), dev_type: None },
    );
    assert_eq!(by_name, vec![String::from("disk0"), String::from("disk0p1")]);

    let by_compat = reg.query(
        &DeviceQuery { name: None, compatible: vec![String::from("net0")], dev_type: None },
    );
    assert_eq!(by_compat, vec![String::from("net0")]);
}

#[test]
fn get_desc_is_exact_name_match() {
    let mut reg = LogicDeviceService::new();
    reg.register(
        LogicDeviceDesc {
            parent_name: String::from("virtio0"),
            dev_type: LogicDeviceType::RawBlock(meta(1, 7, 100, 512)),
            badge: Some(9),
        },
        10,
    );
    let (id, d) = reg.get_desc(&String::from("disk0")).expect("registered name");
    assert_eq!(id, 1);
    assert_eq!(d.parent_name, "virtio0");
    assert_eq!(d.badge, Some(9));
    assert!(matches!(d.dev_type, LogicDeviceType::RawBlock(m) if m.start_lba == 7));
    assert!(reg.get_desc(&String::from("disk")).is_none());
}

#[test]
fn names_stay_unique_across_kinds() {
    let mut reg = LogicDeviceService::new();
    let kinds = [
        LogicDeviceType::RawBlock(meta(1, 0, 10, 512)),
        LogicDeviceType::RawBlock(meta(2, 0, 10, 512)),
        LogicDeviceType::Net,
        LogicDeviceType::Fb,
        LogicDeviceType::Uart,
        LogicDeviceType::Input,
        LogicDeviceType::Gpio,
        LogicDeviceType::Thermal,
        LogicDeviceType::Battery,
        LogicDeviceType::Timer,
        LogicDeviceType::Platform,
        LogicDeviceType::Block(meta(1, 0, 5, 512)),
    ];
    let mut names = Vec::new();
    for (i, k) in kinds.iter().enumerate() {
        let (_, name) = reg.register(
            LogicDeviceDesc {
                parent_name: String::from(if i == 11 { "disk0" } else { "dev" }),
                dev_type: *k,
                badge: None,
            },
            i as u64,
        );
        names.push(name);
    }
    for a in 0..names.len() {
        for b in 0..names.len() {
            if a != b {
                assert_ne!(names[a], names[b], "names must stay pairwise distinct");
            }
        }
    }
    assert_eq!(names[10], "platform");
    assert_eq!(names[11], "disk0p1");
}

#[test]
fn query_compatible_matches_parent_name_too() {
    let mut reg = LogicDeviceService::new();
    reg.register(
        LogicDeviceDesc {
            parent_name: String::from("virtio0"),
            dev_type: LogicDeviceType::Net,
            badge: None,
        },
        3,
    );
    let r = reg.query(&DeviceQuery {
        name: None,
        compatible: vec![String::from("virtio0")],
        dev_type: None,
    });
    assert_eq!(r, vec![String::from("net0")]);
    let none = reg.query(&DeviceQuery {
        name: None,
        compatible: vec![String::from("other")],
        dev_type: None,
    });
    assert!(none.is_empty());
}
