//! Deciding what a raw block device holds: the pure steps of the partition
//! probe. The host shell reads the sectors (over the block driver's
//! endpoint) and feeds them to these functions; every partition found
//! becomes a `Block` logic-device descriptor to register.

use vstd::prelude::*;

use crate::gpt::{GPTHeader, GPTPartition};
use crate::logic::{LogicDeviceDesc, LogicDeviceType, PartitionMetadata};
use crate::mbr::{spec_le32, spec_mbr_valid, MBRPartition, MBR};

verus! {

/// What the first sector of a block device announces.
#[derive(Clone, Copy, Debug, PartialEq, Eq, Structural)]
pub enum FirstSectorKind {
    /// The boot ramdisk magic: treat the whole device as one partition.
    Initrd,
    /// A protective record: the real table is a GPT at the next block.
    ProtectiveGpt,
    /// A real partition table in the boot record itself.
    MbrTable,
    /// No recognizable table: fall back to the whole device.
    Unformatted,
}

/// The ramdisk image magic in the first four bytes.
pub open spec fn spec_initrd_magic(b: Seq<u8>) -> bool {
    spec_le32(b, 0) == 0x99999999u32
}

/// Classifies the first sector: the ramdisk magic wins, then a valid boot
/// record is either protective (the table is a GPT) or real, and anything
/// else is unformatted.
pub fn classify_first_sector(sector: &[u8]) -> (r: FirstSectorKind)
    requires
        sector@.len() >= 4,
    ensures
        r == (if spec_initrd_magic(sector@) {
            FirstSectorKind::Initrd
        } else if !spec_mbr_valid(sector@) {
            FirstSectorKind::Unformatted
        } else if exists|i: int|
            0 <= i < 4 && ((#[trigger] spec_mbr_entry_of(sector@, i)) matches Some(p)
                && p.part_type == 0xEE) {
            FirstSectorKind::ProtectiveGpt
        } else {
            FirstSectorKind::MbrTable
        }),
{
    let magic = crate::mbr::read_le32(sector, 0);
    if magic == 0x99999999 {
        return FirstSectorKind::Initrd;
    }
    match MBR::parse(sector) {
        Some(m) => {
            let prot = m.is_protective_gpt();
            proof {
                assert(forall|i: int|
                    0 <= i < 4 ==> #[trigger] m.partitions@[i] == spec_mbr_entry_of(sector@, i));
                if prot {
                    let i = choose|i: int|
                        0 <= i < 4 && ((#[trigger] m.partitions@[i]) matches Some(p)
                            && p.part_type == 0xEE);
                    assert((spec_mbr_entry_of(sector@, i) matches Some(p) && p.part_type
                        == 0xEE));
                } else {
                    assert forall|i: int|
                        0 <= i < 4 implies !((#[trigger] spec_mbr_entry_of(sector@, i))
                        matches Some(p) && p.part_type == 0xEE) by {
                        assert(m.partitions@[i] == spec_mbr_entry_of(sector@, i));
                    }
                }
            }
            if prot {
                FirstSectorKind::ProtectiveGpt
            } else {
                FirstSectorKind::MbrTable
            }
        },
        None => FirstSectorKind::Unformatted,
    }
}

/// The boot-record entry at slot `i` (shorthand over the parser's spec).
pub open spec fn spec_mbr_entry_of(b: Seq<u8>, i: int) -> Option<MBRPartition> {
    crate::mbr::spec_mbr_entry(b, i)
}

/// The used slots of a boot record's table, in order.
pub open spec fn spec_used_mbr_slots(parts: Seq<Option<MBRPartition>>, i: int) -> Seq<int>
    decreases 4 - i,
{
    if i < 0 || i >= 4 {
        Seq::empty()
    } else if parts[i] is Some {
        seq![i] + spec_used_mbr_slots(parts, i + 1)
    } else {
        spec_used_mbr_slots(parts, i + 1)
    }
}

/// The descriptor registered for one partition.
pub open spec fn spec_partition_desc(
    d: LogicDeviceDesc,
    parent_name: Seq<char>,
    parent: u64,
    start_lba: u64,
    num_blocks: u64,
    block_size: u64,
) -> bool {
    &&& d.parent_name@ == parent_name
    &&& d.badge is None
    &&& d.dev_type == LogicDeviceType::Block(
        PartitionMetadata { parent, start_lba, num_blocks, block_size },
    )
}

/// One `Block` descriptor per used slot of a real boot-record table, in
/// table order.
pub fn partitions_from_mbr(
    m: &MBR,
    parent_name: &String,
    parent: u64,
    block_size: u64,
) -> (r: Vec<LogicDeviceDesc>)
    ensures
        r@.len() == spec_used_mbr_slots(m.partitions@, 0).len(),
        forall|k: int|
            0 <= k < r@.len() ==> {
                let p = m.partitions@[spec_used_mbr_slots(m.partitions@, 0)[k]]->0;
                spec_partition_desc(
                    #[trigger] r@[k],
                    parent_name@,
                    parent,
                    p.start_lba as u64,
                    p.sectors_count as u64,
                    block_size,
                )
            },
{
    let ghost slots = spec_used_mbr_slots(m.partitions@, 0);
    let mut out: Vec<LogicDeviceDesc> = Vec::new();
    let mut i: usize = 0;
    while i < 4
        invariant
            i <= 4,
            slots == spec_used_mbr_slots(m.partitions@, 0),
            out@.len() <= slots.len(),
            slots.take(out@.len() as int) + spec_used_mbr_slots(m.partitions@, i as int)
                =~= slots,
            forall|k: int|
                0 <= k < out@.len() ==> {
                    let p = m.partitions@[slots[k]]->0;
                    spec_partition_desc(
                        #[trigger] out@[k],
                        parent_name@,
                        parent,
                        p.start_lba as u64,
                        p.sectors_count as u64,
                        block_size,
                    )
                },
        decreases 4 - i,
    {
        match &m.partitions[i] {
            Some(p) => {
                let d = LogicDeviceDesc {
                    parent_name: parent_name.clone(),
                    dev_type: LogicDeviceType::Block(
                        PartitionMetadata {
                            parent,
                            start_lba: p.start_lba as u64,
                            num_blocks: p.sectors_count as u64,
                            block_size,
                        },
                    ),
                    badge: None,
                };
                out.push(d);
                proof {
                    assert(spec_used_mbr_slots(m.partitions@, i as int) == seq![i as int]
                        + spec_used_mbr_slots(m.partitions@, i + 1));
                    assert(slots.take(out@.len() as int) + spec_used_mbr_slots(
                        m.partitions@,
                        i + 1,
                    ) =~= slots);
                    assert(slots[out@.len() - 1] == i as int);
                }
            },
            None => {
                proof {
                    assert(spec_used_mbr_slots(m.partitions@, i as int) == spec_used_mbr_slots(
                        m.partitions@,
                        i + 1,
                    ));
                }
            },
        }
        i = i + 1;
    }
    proof {
        assert(spec_used_mbr_slots(m.partitions@, 4) =~= Seq::<int>::empty());
        assert(slots.take(out@.len() as int) =~= slots);
    }
    out
}

/// How many blocks the partition entry array spans: the entry bytes,
/// rounded up to whole blocks.
pub fn gpt_table_sectors(h: &GPTHeader, block_size: u64) -> (r: u64)
    requires
        block_size >= 1,
    ensures
        r == ((h.num_partition_entries as int) * (h.partition_entry_size as int) + block_size - 1)
            / (block_size as int),
{
    proof {
        assert((h.num_partition_entries as int) * (h.partition_entry_size as int)
            <= 0xFFFF_FFFFu64 * 0xFFFF_FFFFu64) by (nonlinear_arith)
            requires
                0 <= h.num_partition_entries as int <= 0xFFFF_FFFFu64,
                0 <= h.partition_entry_size as int <= 0xFFFF_FFFFu64,
        {}
    }
    let total: u64 = (h.num_partition_entries as u64) * (h.partition_entry_size as u64);
    let q = total / block_size;
    let rem = total % block_size;
    proof {
        vstd::arithmetic::div_mod::lemma_fundamental_div_mod(total as int, block_size as int);
        if rem == 0 {
            assert((total + block_size - 1) / (block_size as int) == q) by (nonlinear_arith)
                requires
                    block_size >= 1,
                    total == (block_size as int) * (q as int),
                    q <= total <= 0xFFFF_FFFF_FFFF_FFFFu64,
            {}
        } else {
            assert((total + block_size - 1) / (block_size as int) == q + 1) by (nonlinear_arith)
                requires
                    block_size >= 1,
                    total as int == (block_size as int) * (q as int) + rem,
                    0 < rem < block_size,
                    q <= total <= 0xFFFF_FFFF_FFFF_FFFFu64,
            {}
        }
    }
    if rem == 0 {
        q
    } else {
        q + 1
    }
}

/// The number of blocks a table entry covers: inclusive of both ends,
/// saturating, and zero for a backwards range.
pub open spec fn spec_entry_blocks(p: GPTPartition) -> u64 {
    if p.last_lba >= p.first_lba {
        if p.last_lba - p.first_lba == u64::MAX {
            u64::MAX
        } else {
            (p.last_lba - p.first_lba + 1) as u64
        }
    } else {
        0
    }
}

/// One `Block` descriptor per parsed table entry, in table order.
pub fn partitions_from_gpt(
    parts: &Vec<GPTPartition>,
    parent_name: &String,
    parent: u64,
    block_size: u64,
) -> (r: Vec<LogicDeviceDesc>)
    ensures
        r@.len() == parts@.len(),
        forall|k: int|
            0 <= k < r@.len() ==> spec_partition_desc(
                #[trigger] r@[k],
                parent_name@,
                parent,
                parts@[k].first_lba,
                spec_entry_blocks(parts@[k]),
                block_size,
            ),
{
    let mut out: Vec<LogicDeviceDesc> = Vec::new();
    let mut i: usize = 0;
    while i < parts.len()
        invariant
            i <= parts@.len(),
            out@.len() == i,
            forall|k: int|
                0 <= k < i ==> spec_partition_desc(
                    #[trigger] out@[k],
                    parent_name@,
                    parent,
                    parts@[k].first_lba,
                    spec_entry_blocks(parts@[k]),
                    block_size,
                ),
        decreases parts@.len() - i,
    {
        let p = &parts[i];
        let num_blocks: u64 = if p.last_lba >= p.first_lba {
            let d = p.last_lba - p.first_lba;
            if d == u64::MAX {
                u64::MAX
            } else {
                d + 1
            }
        } else {
            0
        };
        let d = LogicDeviceDesc {
            parent_name: parent_name.clone(),
            dev_type: LogicDeviceType::Block(
                PartitionMetadata { parent, start_lba: p.first_lba, num_blocks, block_size },
            ),
            badge: None,
        };
        out.push(d);
        i = i + 1;
    }
    out
}

/// The fallback descriptor: the whole device as one partition, used for
/// ramdisk images and devices without a table.
pub fn whole_device_desc(
    parent_name: &String,
    parent: u64,
    capacity: u64,
    block_size: u64,
) -> (r: LogicDeviceDesc)
    ensures
        spec_partition_desc(r, parent_name@, parent, 0, capacity, block_size),
{
    LogicDeviceDesc {
        parent_name: parent_name.clone(),
        dev_type: LogicDeviceType::Block(
            PartitionMetadata { parent, start_lba: 0, num_blocks: capacity, block_size },
        ),
        badge: None,
    }
}

} // verus!
