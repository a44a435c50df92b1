//! Parsing the GUID partition table: the header at the second sector and
//! the partition entry array it points at.

use vstd::prelude::*;

use crate::strutil::{char_from_u32, string_push_char};

verus! {

/// The little-endian 16-bit value at `off`.
pub open spec fn spec_le16(s: Seq<u8>, off: int) -> u16 {
    (s[off] + s[off + 1] * 0x100) as u16
}

/// The little-endian 64-bit value at `off`.
pub open spec fn spec_le64(s: Seq<u8>, off: int) -> u64 {
    (s[off] + s[off + 1] * 0x100 + s[off + 2] * 0x10000 + s[off + 3] * 0x1000000 + s[off + 4]
        * 0x100000000 + s[off + 5] * 0x10000000000 + s[off + 6] * 0x1000000000000 + s[off + 7]
        * 0x100000000000000) as u64
}

fn read_le16(b: &[u8], off: usize) -> (r: u16)
    requires
        off + 2 <= b@.len(),
    ensures
        r == spec_le16(b@, off as int),
{
    (b[off] as u16) + (b[off + 1] as u16) * 0x100
}

/// Reads a little-endian 64-bit value.
pub fn read_le64(b: &[u8], off: usize) -> (r: u64)
    requires
        off + 8 <= b@.len(),
    ensures
        r == spec_le64(b@, off as int),
{
    (b[off] as u64) + (b[off + 1] as u64) * 0x100 + (b[off + 2] as u64) * 0x10000 + (b[off
        + 3] as u64) * 0x1000000 + (b[off + 4] as u64) * 0x100000000 + (b[off + 5] as u64)
        * 0x10000000000 + (b[off + 6] as u64) * 0x1000000000000 + (b[off + 7] as u64)
        * 0x100000000000000
}

/// The fields of a GUID partition table header.
#[derive(Clone, Copy, Debug, PartialEq, Eq, Structural)]
pub struct GPTHeader {
    pub current_lba: u64,
    pub backup_lba: u64,
    pub first_usable_lba: u64,
    pub last_usable_lba: u64,
    pub partition_entry_lba: u64,
    pub num_partition_entries: u32,
    pub partition_entry_size: u32,
}

/// A buffer opens with a GUID partition table header: the eight signature
/// bytes and at least the fixed header length.
pub open spec fn spec_gpt_valid(b: Seq<u8>) -> bool {
    &&& b.len() >= 92
    &&& b[0] == 0x45
    &&& b[1] == 0x46
    &&& b[2] == 0x49
    &&& b[3] == 0x20
    &&& b[4] == 0x50
    &&& b[5] == 0x41
    &&& b[6] == 0x52
    &&& b[7] == 0x54
}

impl GPTHeader {
    /// Parses the header sector. `None` exactly when the buffer is too
    /// short or the signature is missing; otherwise every field is the
    /// little-endian value at its documented offset.
    pub fn parse(buf: &[u8]) -> (r: Option<GPTHeader>)
        ensures
            match r {
                Some(h) => {
                    &&& spec_gpt_valid(buf@)
                    &&& h.current_lba == spec_le64(buf@, 24)
                    &&& h.backup_lba == spec_le64(buf@, 32)
                    &&& h.first_usable_lba == spec_le64(buf@, 40)
                    &&& h.last_usable_lba == spec_le64(buf@, 48)
                    &&& h.partition_entry_lba == spec_le64(buf@, 72)
                    &&& h.num_partition_entries == crate::mbr::spec_le32(buf@, 80)
                    &&& h.partition_entry_size == crate::mbr::spec_le32(buf@, 84)
                },
                None => !spec_gpt_valid(buf@),
            },
    {
        if buf.len() < 92 {
            return None;
        }
        if buf[0] != 0x45 || buf[1] != 0x46 || buf[2] != 0x49 || buf[3] != 0x20 || buf[4] != 0x50
            || buf[5] != 0x41 || buf[6] != 0x52 || buf[7] != 0x54 {
            return None;
        }
        Some(
            GPTHeader {
                current_lba: read_le64(buf, 24),
                backup_lba: read_le64(buf, 32),
                first_usable_lba: read_le64(buf, 40),
                last_usable_lba: read_le64(buf, 48),
                partition_entry_lba: read_le64(buf, 72),
                num_partition_entries: crate::mbr::read_le32(buf, 80),
                partition_entry_size: crate::mbr::read_le32(buf, 84),
            },
        )
    }
}

/// One partition entry of the table.
#[derive(Debug)]
pub struct GPTPartition {
    pub type_guid: [u8; 16],
    pub unique_guid: [u8; 16],
    pub first_lba: u64,
    pub last_lba: u64,
    pub attributes: u64,
    /// The UTF-16 partition name, decoded up to the first zero unit;
    /// surrogate units are skipped.
    pub name: String,
}

/// An entry is in use when its type identifier is not all zeroes.
pub open spec fn spec_entry_used(b: Seq<u8>, off: int) -> bool {
    exists|j: int| 0 <= j < 16 && #[trigger] b[off + j] != 0
}

/// The decoded name of the entry at `off`, from slot `i` on: one character
/// per 16-bit unit up to the first zero, skipping invalid units.
pub open spec fn spec_gpt_name(b: Seq<u8>, off: int, i: int) -> Seq<char>
    decreases 36 - i,
{
    if i < 0 || i >= 36 {
        Seq::empty()
    } else {
        let c = spec_le16(b, off + 56 + 2 * i);
        if c == 0 {
            Seq::empty()
        } else {
            (if c < 0xD800 || c >= 0xE000 {
                seq![(c as u32) as char]
            } else {
                Seq::empty()
            }) + spec_gpt_name(b, off, i + 1)
        }
    }
}

/// The parsed entry corresponds byte for byte to the table slice at `off`.
pub open spec fn gpt_entry_matches(p: GPTPartition, b: Seq<u8>, off: int) -> bool {
    &&& p.type_guid@ == b.subrange(off, off + 16)
    &&& p.unique_guid@ == b.subrange(off + 16, off + 32)
    &&& p.first_lba == spec_le64(b, off + 32)
    &&& p.last_lba == spec_le64(b, off + 40)
    &&& p.attributes == spec_le64(b, off + 48)
    &&& p.name@ == spec_gpt_name(b, off, 0)
}

/// The offsets of the used entries among slots `i..num`, in order; the scan
/// stops at the first slot that runs off the buffer.
pub open spec fn spec_used_offsets(b: Seq<u8>, num: int, size: int, i: int) -> Seq<int>
    decreases num - i,
{
    if i < 0 || i >= num || size <= 0 {
        Seq::empty()
    } else {
        let off = i * size;
        if off + size > b.len() {
            Seq::empty()
        } else if spec_entry_used(b, off) {
            seq![off] + spec_used_offsets(b, num, size, i + 1)
        } else {
            spec_used_offsets(b, num, size, i + 1)
        }
    }
}

/// Copies sixteen bytes.
fn read_guid(b: &[u8], off: usize) -> (r: [u8; 16])
    requires
        off + 16 <= b@.len(),
    ensures
        r@ == b@.subrange(off as int, off + 16),
{
    let r = [
        b[off],
        b[off + 1],
        b[off + 2],
        b[off + 3],
        b[off + 4],
        b[off + 5],
        b[off + 6],
        b[off + 7],
        b[off + 8],
        b[off + 9],
        b[off + 10],
        b[off + 11],
        b[off + 12],
        b[off + 13],
        b[off + 14],
        b[off + 15],
    ];
    proof {
        assert(r@ =~= b@.subrange(off as int, off + 16));
    }
    r
}

/// Decodes the UTF-16 name field of the entry at `off`.
fn read_name(b: &[u8], off: usize) -> (r: String)
    requires
        off + 128 <= b@.len(),
        b@.len() <= usize::MAX,
    ensures
        r@ == spec_gpt_name(b@, off as int, 0),
{
    let mut name = String::new();
    let mut i: usize = 0;
    while i < 36
        invariant
            i <= 36,
            off + 128 <= b@.len() <= usize::MAX,
            forall|t: int| 0 <= t < i ==> #[trigger] spec_le16(b@, off + 56 + 2 * t) != 0,
            spec_gpt_name(b@, off as int, 0) == name@ + spec_gpt_name(b@, off as int, i as int),
        decreases 36 - i,
    {
        let c = read_le16(b, off + 56 + 2 * i);
        if c == 0 {
            proof {
                assert(spec_gpt_name(b@, off as int, i as int) =~= Seq::<char>::empty());
                assert(name@ =~= name@ + Seq::<char>::empty());
            }
            return name;
        }
        let ghost pre_name = name@;
        match char_from_u32(c as u32) {
            Some(ch) => {
                string_push_char(&mut name, ch);
                proof {
                    assert(c < 0xD800 || c >= 0xE000);
                    assert(ch == ((c as u32) as char));
                    assert(name@ =~= pre_name + seq![(c as u32) as char]);
                    assert(spec_gpt_name(b@, off as int, i as int) == seq![(c as u32) as char]
                        + spec_gpt_name(b@, off as int, i + 1));
                    assert(spec_gpt_name(b@, off as int, 0) =~= name@ + spec_gpt_name(
                        b@,
                        off as int,
                        i + 1,
                    ));
                }
            },
            None => {
                proof {
                    assert(!(c < 0xD800 || c >= 0xE000));
                    assert(spec_gpt_name(b@, off as int, i as int) =~= spec_gpt_name(
                        b@,
                        off as int,
                        i + 1,
                    ));
                }
            },
        }
        i = i + 1;
    }
    proof {
        assert(spec_gpt_name(b@, off as int, 36) =~= Seq::<char>::empty());
        assert(name@ =~= name@ + Seq::<char>::empty());
    }
    name
}

/// Whether the entry at `off` is in use.
fn entry_used(b: &[u8], off: usize) -> (r: bool)
    requires
        off + 16 <= b@.len(),
        b@.len() <= usize::MAX,
    ensures
        r == spec_entry_used(b@, off as int),
{
    let mut j: usize = 0;
    while j < 16
        invariant
            j <= 16,
            off + 16 <= b@.len(),
            b@.len() <= usize::MAX,
            forall|t: int| 0 <= t < j ==> #[trigger] b@[off + t] == 0,
        decreases 16 - j,
    {
        if b[off + j] != 0 {
            return true;
        }
        j = j + 1;
    }
    false
}

impl GPTPartition {
    /// Parses the used entries of a partition entry array: one parsed
    /// record per used slot, in table order; unused slots are skipped and
    /// the scan stops at the first slot extending past the buffer. The
    /// entry size must cover the documented 128-byte layout.
    pub fn parse_entries(buf: &[u8], num: u32, size: u32) -> (r: Vec<GPTPartition>)
        requires
            size >= 128,
        ensures
            r@.len() == spec_used_offsets(buf@, num as int, size as int, 0).len(),
            forall|k: int|
                0 <= k < r@.len() ==> gpt_entry_matches(
                    #[trigger] r@[k],
                    buf@,
                    spec_used_offsets(buf@, num as int, size as int, 0)[k],
                ),
    {
        let ghost offs = spec_used_offsets(buf@, num as int, size as int, 0);
        let blen: usize = buf.len();
        proof {
            assert(buf@.len() == blen as int);
        }
        let mut out: Vec<GPTPartition> = Vec::new();
        let mut i: u32 = 0;
        while i < num
            invariant
                i <= num,
                size >= 128,
                buf@.len() <= usize::MAX,
                offs == spec_used_offsets(buf@, num as int, size as int, 0),
                offs =~= out@.map_values(|p: GPTPartition| 0int).take(0) + offs,
                out@.len() <= offs.len(),
                offs.take(out@.len() as int) + spec_used_offsets(
                    buf@,
                    num as int,
                    size as int,
                    i as int,
                ) =~= offs,
                forall|k: int|
                    0 <= k < out@.len() ==> gpt_entry_matches(#[trigger] out@[k], buf@, offs[k]),
            decreases num - i,
        {
            proof {
                assert((i as int) * (size as int) <= 0xFFFF_FFFEu64 * 0xFFFF_FFFFu64) by (nonlinear_arith)
                    requires
                        0 <= i as int <= 0xFFFF_FFFEu64,
                        0 <= size as int <= 0xFFFF_FFFFu64,
                {}
            }
            let off64: u64 = (i as u64) * (size as u64);
            let end64: u64 = off64 + (size as u64);
            if end64 > buf.len() as u64 {
                proof {
                    assert(spec_used_offsets(buf@, num as int, size as int, i as int)
                        =~= Seq::<int>::empty());
                    assert(offs.take(out@.len() as int) =~= offs);
                }
                return out;
            }
            let off = off64 as usize;
            proof {
                assert(off + size <= buf@.len());
                assert(off as int == i as int * size as int);
            }
            if entry_used(buf, off) {
                let p = GPTPartition {
                    type_guid: read_guid(buf, off),
                    unique_guid: read_guid(buf, off + 16),
                    first_lba: read_le64(buf, off + 32),
                    last_lba: read_le64(buf, off + 40),
                    attributes: read_le64(buf, off + 48),
                    name: read_name(buf, off),
                };
                out.push(p);
                proof {
                    assert(spec_used_offsets(buf@, num as int, size as int, i as int) == seq![
                        off as int,
                    ] + spec_used_offsets(buf@, num as int, size as int, i + 1));
                    assert(offs.take(out@.len() as int) + spec_used_offsets(
                        buf@,
                        num as int,
                        size as int,
                        i + 1,
                    ) =~= offs);
                    assert(offs[out@.len() - 1] == off as int);
                }
            } else {
                proof {
                    assert(spec_used_offsets(buf@, num as int, size as int, i as int)
                        == spec_used_offsets(buf@, num as int, size as int, i + 1));
                }
            }
            i = i + 1;
        }
        proof {
            assert(spec_used_offsets(buf@, num as int, size as int, num as int)
                =~= Seq::<int>::empty());
            assert(offs.take(out@.len() as int) =~= offs);
        }
        out
    }
}

} // verus!
