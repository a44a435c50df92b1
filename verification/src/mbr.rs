//! Parsing the classic master boot record out of a device's first sector.

use vstd::prelude::*;

verus! {

/// The little-endian 32-bit value at `off`.
pub open spec fn spec_le32(s: Seq<u8>, off: int) -> u32 {
    (s[off] + s[off + 1] * 0x100 + s[off + 2] * 0x10000 + s[off + 3] * 0x1000000) as u32
}

/// Reads a little-endian 32-bit value.
pub fn read_le32(b: &[u8], off: usize) -> (r: u32)
    requires
        off + 4 <= b@.len(),
    ensures
        r == spec_le32(b@, off as int),
{
    (b[off] as u32) + (b[off + 1] as u32) * 0x100 + (b[off + 2] as u32) * 0x10000 + (b[off
        + 3] as u32) * 0x1000000
}

/// One primary partition table entry.
#[derive(Clone, Copy, Debug, PartialEq, Eq, Structural)]
pub struct MBRPartition {
    pub part_type: u8,
    pub start_lba: u32,
    pub sectors_count: u32,
    pub is_bootable: bool,
}

/// The four primary partition slots of a master boot record.
pub struct MBR {
    pub partitions: [Option<MBRPartition>; 4],
}

/// A sector holds a master boot record: at least 512 bytes ending in the
/// boot signature.
pub open spec fn spec_mbr_valid(b: Seq<u8>) -> bool {
    &&& b.len() >= 512
    &&& b[510] == 0x55
    &&& b[511] == 0xAA
}

/// The table entry at index `i`: an all-zero partition type means the slot
/// is unused.
pub open spec fn spec_mbr_entry(b: Seq<u8>, i: int) -> Option<MBRPartition> {
    let off = 0x1BE + i * 16;
    if b[off + 4] == 0 {
        None
    } else {
        Some(
            MBRPartition {
                part_type: b[off + 4],
                start_lba: spec_le32(b, off + 8),
                sectors_count: spec_le32(b, off + 12),
                is_bootable: b[off] & 0x80 != 0,
            },
        )
    }
}

/// Parses one of the four table entries.
fn parse_entry(buf: &[u8], i: usize) -> (r: Option<MBRPartition>)
    requires
        buf@.len() >= 512,
        i < 4,
    ensures
        r == spec_mbr_entry(buf@, i as int),
{
    let off = 0x1BE + i * 16;
    let status = buf[off];
    let part_type = buf[off + 4];
    if part_type == 0 {
        None
    } else {
        Some(
            MBRPartition {
                part_type,
                start_lba: read_le32(buf, off + 8),
                sectors_count: read_le32(buf, off + 12),
                is_bootable: (status & 0x80) != 0,
            },
        )
    }
}

impl MBR {
    /// Parses a boot sector. `None` exactly when the buffer is shorter than
    /// a sector or the boot signature is missing; otherwise each slot holds
    /// its table entry.
    pub fn parse(buf: &[u8]) -> (r: Option<MBR>)
        ensures
            match r {
                Some(m) => spec_mbr_valid(buf@) && forall|i: int|
                    0 <= i < 4 ==> #[trigger] m.partitions@[i] == spec_mbr_entry(buf@, i),
                None => !spec_mbr_valid(buf@),
            },
    {
        if buf.len() < 512 {
            return None;
        }
        if buf[510] != 0x55 || buf[511] != 0xAA {
            return None;
        }
        let partitions = [
            parse_entry(buf, 0),
            parse_entry(buf, 1),
            parse_entry(buf, 2),
            parse_entry(buf, 3),
        ];
        Some(MBR { partitions })
    }

    /// Whether any entry carries the protective-GPT partition type, meaning
    /// the real table is a GPT behind this record.
    pub fn is_protective_gpt(&self) -> (r: bool)
        ensures
            r == exists|i: int|
                0 <= i < 4 && ((#[trigger] self.partitions@[i]) matches Some(p) && p.part_type
                    == 0xEE),
    {
        let mut i: usize = 0;
        while i < 4
            invariant
                i <= 4,
                forall|j: int|
                    0 <= j < i ==> !((#[trigger] self.partitions@[j]) matches Some(p)
                        && p.part_type == 0xEE),
            decreases 4 - i,
        {
            match &self.partitions[i] {
                Some(p) => {
                    if p.part_type == 0xEE {
                        return true;
                    }
                },
                None => {},
            }
            i = i + 1;
        }
        false
    }
}

} // verus!
