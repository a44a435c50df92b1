use unicorn::config::{DriverEntry, Manifest};
use unicorn::device::{DeviceDesc, DeviceDescNode, DeviceState, MMIORegion};
use unicorn::errors::Error;
use unicorn::hooks::HookTarget;
use unicorn::logic::{DeviceQuery, LogicDeviceDesc, LogicDeviceType, PartitionMetadata};
use unicorn::server::{
    BootInfo, CapAction, PlatformType, Reply, Request, UnicornManager,
};

fn manifest(entries: &[(&str, &[&str])]) -> Manifest {
    Manifest {
        drivers: entries
            .iter()
            .map(|(n, cs)| DriverEntry {
                name: String::from(*n),
                compatible: cs.iter().map(|c| String::from(*c)).collect(),
            })
            .collect(),
    }
}

fn meta(parent: u64, start: u64, num: u64, bs: u64) -> PartitionMetadata {
    PartitionMetadata { parent, start_lba: start, num_blocks: num, block_size: bs }
}

fn boot_acpi() -> BootInfo {
    BootInfo {
        platform_type: PlatformType::ACPI,
        addr: 0x1000,
        size: 0x1000,
        initrd_paddr: 0,
        initrd_size: 0,
        cpus: 1,
    }
}

/// Boots a manager whose root platform driver has spawned under `badge`.
fn booted(badge: u64) -> UnicornManager {
    let mut m = UnicornManager::new(manifest(&[
        ("platd", &["acpi"]),
        ("vnetd", &["virtio-net"]),
    ]));
    let acts = m.init_root_platform(&boot_acpi());
    assert_eq!(acts, vec![CapAction::SetIrqThreshold { cpu: 0 }]);
    m.scan_platform();
    let id = m.take_spawn().expect("root platform node queued");
    let bin = m.prepare_spawn(id).expect("manifest matches the root platform");
    assert_eq!(bin, "platd");
    m.commit_spawn(id, badge);
    assert!(m.take_spawn().is_none());
    m
}

#[test]
fn boot_seeds_and_spawns_root_platform() {
    let m = booted(42);
    let root = m.tree.root.expect("root set");
    let n = m.tree.get_node(root).unwrap();
    assert_eq!(n.desc.name, "acpi");
    assert_eq!(n.desc.mmio.len(), 1);
    assert_eq!(n.desc.mmio[0].base_addr, 0x1000);
    assert_eq!(n.desc.mmio[0].size, 0x1000);
    assert_eq!(n.state, DeviceState::Running);
    assert_eq!(m.pids.get(42), Some(root));
}

#[test]
fn initrd_device_registered_under_root() {
    let mut m = UnicornManager::new(manifest(&[("platd", &["acpi"])]));
    m.init_root_platform(&boot_acpi());
    let bi = BootInfo { initrd_paddr: 0x8000_0000, initrd_size: 0x2000, ..boot_acpi() };
    m.init_initrd_device(&bi);
    let d = m.tree.find_desc(&String::from("ramdisk")).expect("ramdisk node");
    assert_eq!(d.compatible, vec![String::from("ramdisk")]);
    assert_eq!(d.mmio[0].base_addr, 0x8000_0000);
    assert_eq!(d.mmio[0].size, 0x2000);
}

fn report_pci_subtree(m: &mut UnicornManager, badge: u64) {
    let nodes = vec![
        DeviceDescNode {
            parent: usize::MAX,
            desc: DeviceDesc {
                name: String::from("pci0"),
                compatible: vec![String::from("pci")],
                mmio: vec![MMIORegion { base_addr: 0x3000_0000, size: 0x100_0000 }],
                irq: Vec::new(),
            },
        },
        DeviceDescNode {
            parent: 0,
            desc: DeviceDesc {
                name: String::from("virtio0"),
                compatible: vec![String::from("virtio-net")],
                mmio: vec![MMIORegion { base_addr: 0x3001_0000, size: 0x1000 }],
                irq: vec![32],
            },
        },
    ];
    let (reply, acts) = m.dispatch(Request::Report { badge, nodes });
    assert!(matches!(reply, Reply::Done));
    assert!(acts.is_empty());
}

#[test]
fn report_mounts_subtree_and_queues_spawns_in_order() {
    let mut m = booted(42);
    report_pci_subtree(&mut m, 42);

    // both reported nodes are queued, in report order
    let first = m.take_spawn().expect("pci0 queued");
    let second = m.take_spawn().expect("virtio0 queued");
    assert_eq!(m.tree.get_node(first).unwrap().desc.name, "pci0");
    assert_eq!(m.tree.get_node(second).unwrap().desc.name, "virtio0");

    // pci0 matches no driver; virtio0 spawns on the next loop turn
    assert!(m.prepare_spawn(first).is_none());
    let bin = m.prepare_spawn(second).expect("virtio-net driver in manifest");
    assert_eq!(bin, "vnetd");
    m.commit_spawn(second, 100);
    assert_eq!(m.tree.get_node(second).unwrap().state, DeviceState::Running);
}

#[test]
fn report_from_unknown_badge_is_invalid_args() {
    let mut m = booted(42);
    let (reply, _) = m.dispatch(Request::Report { badge: 7, nodes: Vec::new() });
    assert!(matches!(reply, Reply::Failure { err: Error::InvalidArgs }));
}

/// Builds a manager where badge 100 drives the `virtio0` node.
fn with_virtio_driver() -> UnicornManager {
    let mut m = booted(42);
    report_pci_subtree(&mut m, 42);
    let first = m.take_spawn().unwrap();
    assert!(m.prepare_spawn(first).is_none());
    let second = m.take_spawn().unwrap();
    m.commit_spawn(second, 100);
    m
}

#[test]
fn get_mmio_caches_the_first_grant() {
    let mut m = with_virtio_driver();

    let (r1, a1) = m.dispatch(Request::GetMmio { badge: 100, region_index: 0 });
    let slot1 = match r1 {
        Reply::Mmio { paddr, size, frame_slot } => {
            assert_eq!(paddr, 0x3001_0000);
            assert_eq!(size, 0x1000);
            frame_slot
        },
        other => panic!("expected an MMIO grant, got {:?}", other),
    };
    assert_eq!(
        a1,
        vec![CapAction::RetypeMmio { base_addr: 0x3001_0000, pages: 1, dst: slot1 }]
    );

    // the second request is served from the cache: same slot, no kernel call
    let (r2, a2) = m.dispatch(Request::GetMmio { badge: 100, region_index: 0 });
    match r2 {
        Reply::Mmio { frame_slot, .. } => assert_eq!(frame_slot, slot1),
        other => panic!("expected an MMIO grant, got {:?}", other),
    }
    assert!(a2.is_empty());
}

#[test]
fn get_mmio_out_of_range_index_is_invalid_args() {
    let mut m = with_virtio_driver();
    let (reply, _) = m.dispatch(Request::GetMmio { badge: 100, region_index: 1 });
    assert!(matches!(reply, Reply::Failure { err: Error::InvalidArgs }));
    let (reply2, _) = m.dispatch(Request::GetMmio { badge: 999, region_index: 0 });
    assert!(matches!(reply2, Reply::Failure { err: Error::InvalidArgs }));
}

#[test]
fn get_irq_enables_once_and_caches() {
    let mut m = with_virtio_driver();
    let (r1, a1) = m.dispatch(Request::GetIrq { badge: 100, irq_index: 0 });
    let slot1 = match r1 {
        Reply::Irq { handler_slot } => handler_slot,
        other => panic!("expected an IRQ grant, got {:?}", other),
    };
    assert_eq!(
        a1,
        vec![
            CapAction::GetIrqCap { irq: 32, dst: slot1 },
            CapAction::EnableIrq { irq: 32 },
        ]
    );
    let (r2, a2) = m.dispatch(Request::GetIrq { badge: 100, irq_index: 0 });
    match r2 {
        Reply::Irq { handler_slot } => assert_eq!(handler_slot, slot1),
        other => panic!("expected an IRQ grant, got {:?}", other),
    }
    assert!(a2.is_empty());

    // a cached line is acknowledged on notify
    let (r3, a3) = m.dispatch(Request::KernelNotify { badge: 32 });
    assert!(matches!(r3, Reply::NoReply));
    assert_eq!(a3, vec![CapAction::AckIrq { slot: slot1 }]);
}

#[test]
fn unknown_irq_notify_is_ignored_without_reply() {
    let mut m = booted(42);
    let (reply, acts) = m.dispatch(Request::KernelNotify { badge: 99 });
    assert!(matches!(reply, Reply::NoReply));
    assert!(acts.is_empty());
}

#[test]
fn unknown_method_is_invalid_method() {
    let mut m = booted(42);
    let (reply, acts) = m.dispatch(Request::Unknown { proto: 9, method: 17 });
    assert!(matches!(reply, Reply::Failure { err: Error::InvalidMethod }));
    assert!(acts.is_empty());
}

#[test]
fn unhook_is_not_implemented() {
    let mut m = booted(42);
    let (reply, _) = m.dispatch(Request::Unhook { badge: 42 });
    assert!(matches!(reply, Reply::Failure { err: Error::NotImplemented }));
}

#[test]
fn register_logic_accepts_unregistered_badges() {
    let mut m = booted(42);
    let desc = LogicDeviceDesc {
        parent_name: String::from("nodev"),
        dev_type: LogicDeviceType::Net,
        badge: None,
    };
    // badge 999 is not in the pid table: the registration is still accepted
    let (reply, acts) = m.dispatch(Request::RegisterLogic {
        badge: 999,
        desc,
        has_endpoint: true,
    });
    assert!(matches!(reply, Reply::Done));
    assert!(matches!(acts[0], CapAction::MoveFromRecv { .. }));
    let (id, _) = m.logic.get_desc(&String::from("net0")).expect("registered as net0");
    assert_eq!(id, 1);
}

#[test]
fn register_logic_without_endpoint_is_invalid_args() {
    let mut m = booted(42);
    let desc = LogicDeviceDesc {
        parent_name: String::from("x"),
        dev_type: LogicDeviceType::Net,
        badge: None,
    };
    let (reply, _) = m.dispatch(Request::RegisterLogic { badge: 1, desc, has_endpoint: false });
    assert!(matches!(reply, Reply::Failure { err: Error::InvalidArgs }));
}

#[test]
fn hook_then_register_notifies_before_reply() {
    let mut m = booted(42);

    // register disk0 first, so the block registration lands under it
    let (reply, _) = m.dispatch(Request::RegisterLogic {
        badge: 100,
        desc: LogicDeviceDesc {
            parent_name: String::from("virtio0"),
            dev_type: LogicDeviceType::RawBlock(meta(1, 0, 8192, 512)),
            badge: None,
        },
        has_endpoint: true,
    });
    assert!(matches!(reply, Reply::Done));

    // subscribe to Block registrations
    let (hr, hacts) = m.dispatch(Request::Hook {
        badge: 7,
        target: HookTarget::Type(LogicDeviceType::Block(meta(0, 0, 0, 0))),
        has_endpoint: true,
    });
    assert!(matches!(hr, Reply::Done));
    // no Block device exists yet: only the endpoint move, no replay
    assert_eq!(hacts.len(), 1);
    let sub_slot = match hacts[0] {
        CapAction::MoveFromRecv { dst } => dst,
        other => panic!("expected the endpoint move, got {:?}", other),
    };

    // a Block registration fires exactly one notification, before the reply
    let (rr, racts) = m.dispatch(Request::RegisterLogic {
        badge: 100,
        desc: LogicDeviceDesc {
            parent_name: String::from("disk0"),
            dev_type: LogicDeviceType::Block(meta(1, 2048, 4096, 512)),
            badge: None,
        },
        has_endpoint: true,
    });
    assert!(matches!(rr, Reply::Done));
    assert_eq!(racts.len(), 2);
    assert!(matches!(racts[0], CapAction::MoveFromRecv { .. }));
    assert!(matches!(racts[1], CapAction::Notify { slot, .. } if slot == sub_slot));

    // and it got the expected name
    let (_, d) = m.logic.get_desc(&String::from("disk0p1")).expect("named disk0p1");
    assert_eq!(d.parent_name, "disk0");
}

#[test]
fn alloc_logic_mints_for_the_caller() {
    let mut m = booted(42);
    m.dispatch(Request::RegisterLogic {
        badge: 100,
        desc: LogicDeviceDesc {
            parent_name: String::from("virtio0"),
            dev_type: LogicDeviceType::RawBlock(meta(1, 0, 8192, 512)),
            badge: None,
        },
        has_endpoint: true,
    });
    let (reply, acts) = m.dispatch(Request::AllocLogic {
        badge: 55,
        dev_type: 1,
        criteria: String::from("disk0"),
    });
    let slot = match reply {
        Reply::Endpoint { endpoint_slot } => endpoint_slot,
        other => panic!("expected an endpoint, got {:?}", other),
    };
    assert!(matches!(acts[0], CapAction::MintEndpoint { dst, badge: 55, .. } if dst == slot));

    let (r2, _) = m.dispatch(Request::AllocLogic {
        badge: 55,
        dev_type: 2,
        criteria: String::from("disk0"),
    });
    assert!(matches!(r2, Reply::Failure { err: Error::NotFound }));
}

#[test]
fn query_and_get_desc_through_dispatch() {
    let mut m = with_virtio_driver();
    m.dispatch(Request::RegisterLogic {
        badge: 100,
        desc: LogicDeviceDesc {
            parent_name: String::from("virtio0"),
            dev_type: LogicDeviceType::RawBlock(meta(1, 0, 8192, 512)),
            badge: None,
        },
        has_endpoint: true,
    });
    let (qr, _) = m.dispatch(Request::Query {
        badge: 1,
        query: DeviceQuery {
            name: Some(String::from("disk")),
            compatible: Vec::new(),
            dev_type: None,
        },
    });
    match qr {
        Reply::Names { names } => assert_eq!(names, vec![String::from("disk0")]),
        other => panic!("expected names, got {:?}", other),
    }

    let (dr, _) = m.dispatch(Request::GetDesc { badge: 1, name: String::from("virtio0") });
    match dr {
        Reply::Desc { desc } => assert_eq!(desc.name, "virtio0"),
        other => panic!("expected a descriptor, got {:?}", other),
    }
    let (nr, _) = m.dispatch(Request::GetDesc { badge: 1, name: String::from("absent") });
    assert!(matches!(nr, Reply::Failure { err: Error::NotFound }));

    let (lr, _) = m.dispatch(Request::GetLogicDesc { badge: 1, name: String::from("disk0") });
    match lr {
        Reply::LogicDesc { id, ldesc } => {
            assert_eq!(id, 1);
            assert_eq!(ldesc.parent_name, "virtio0");
        },
        other => panic!("expected a logic descriptor, got {:?}", other),
    }
}

#[test]
fn update_rebinds_and_rescans() {
    let mut m = with_virtio_driver();
    // the virtio driver reports a more specific identity and steps aside
    let (reply, _) = m.dispatch(Request::Update {
        badge: 100,
        compatible: vec![String::from("virtio-net")],
    });
    assert!(matches!(reply, Reply::Done));
    // the badge is unbound now
    let (r2, _) = m.dispatch(Request::GetMmio { badge: 100, region_index: 0 });
    assert!(matches!(r2, Reply::Failure { err: Error::InvalidArgs }));
    // the node went back to Ready and is queued again
    let id = m.take_spawn().expect("rescan queued the node");
    assert_eq!(m.tree.get_node(id).unwrap().desc.name, "virtio0");
    assert_eq!(m.tree.get_node(id).unwrap().state, DeviceState::Ready);
    assert_eq!(m.prepare_spawn(id), Some(String::from("vnetd")));
}

#[test]
fn scan_platform_twice_spawns_nothing_new() {
    let mut m = booted(42);
    // first scan after boot: the root is Running, nothing Ready remains
    m.dispatch(Request::ScanPlatform { badge: 0 });
    while let Some(id) = m.take_spawn() {
        assert!(m.prepare_spawn(id).is_none());
    }
    // a second scan with no tree changes queues no spawnable node either
    m.dispatch(Request::ScanPlatform { badge: 0 });
    while let Some(id) = m.take_spawn() {
        assert!(m.prepare_spawn(id).is_none());
    }
}

#[test]
fn dtb_boot_names_the_root_dtb() {
    let mut m = UnicornManager::new(manifest(&[("platd", &["dtb"])]));
    let bi = BootInfo { platform_type: PlatformType::DTB, ..boot_acpi() };
    m.init_root_platform(&bi);
    let root = m.tree.root.expect("root set");
    assert_eq!(m.tree.get_node(root).unwrap().desc.name, "dtb");

    // an unknown platform type seeds nothing
    let mut m2 = UnicornManager::new(manifest(&[]));
    let bi2 = BootInfo { platform_type: PlatformType::Unknown, ..boot_acpi() };
    let acts = m2.init_root_platform(&bi2);
    assert!(acts.is_empty());
    assert!(m2.tree.root.is_none());
}

#[test]
fn dma_allocation_is_not_supported() {
    let mut dma = unicorn::dma::DmaManager::new();
    assert_eq!(dma.alloc_dma(4096), Err(Error::NotSupported));
    dma.free_dma(0x1000, 4096);
}

#[test]
fn pci_config_addresses_are_ecam_shaped() {
    let pci = unicorn::pci::PciManager::new(0x4000_0000);
    assert_eq!(pci.get_addr(0, 0, 0, 0), 0x4000_0000);
    assert_eq!(pci.get_addr(1, 2, 3, 0x10), 0x4000_0000 + 0x100000 + 2 * 0x8000 + 3 * 0x1000 + 0x10);
}

#[test]
fn every_error_code_is_distinct() {
    let all = [
        Error::InvalidArgs,
        Error::NotFound,
        Error::PermissionDenied,
        Error::InvalidConfig,
        Error::OutOfMemory,
        Error::NotImplemented,
        Error::NotSupported,
        Error::InvalidMethod,
    ];
    for (i, a) in all.iter().enumerate() {
        for (j, b) in all.iter().enumerate() {
            if i != j {
                assert_ne!(a.code(), b.code());
            }
        }
    }
}

#[test]
fn second_platform_device_reuses_the_fixed_name() {
    // the fixed `platform` name is why the uniqueness law leaves a second
    // Platform registration out
    let mut m = booted(42);
    for _ in 0..2 {
        let (reply, _) = m.dispatch(Request::RegisterLogic {
            badge: 1,
            desc: LogicDeviceDesc {
                parent_name: String::from("fw"),
                dev_type: LogicDeviceType::Platform,
                badge: None,
            },
            has_endpoint: true,
        });
        assert!(matches!(reply, Reply::Done));
    }
    let names = m.logic.query(&DeviceQuery {
        name: Some(String::from("platform")),
        compatible: Vec::new(),
        dev_type: None,
    });
    assert_eq!(names, vec![String::from("platform"), String::from("platform")]);
}
