//! The decision core of the reflink substrate: labelling a filesystem from
//! its statistics magic and comparing device identities. The system calls
//! themselves - file statistics and the range-clone request - are the
//! caller's to make; they hand plain values in and take plain values back.

use vstd::prelude::*;

verus! {

/// The outcome of a range-clone attempt: performed by the kernel, not
/// supported by the filesystem, or failed outright. Neither of the last two
/// is fatal; the caller falls back to a plain byte copy.
#[derive(Clone, Copy, Debug, PartialEq, Eq, Structural)]
pub enum CloneOutcome {
    Cloned,
    Unsupported,
    Failed,
}

/// The label of a filesystem-statistics magic number: the known magics by
/// name, anything else "unknown".
pub open spec fn spec_filesystem_type_name(magic: int) -> Seq<u8> {
    if magic == 0xEF53 {
        seq![0x65u8, 0x78u8, 0x74u8, 0x34u8]
    } else if magic == 0x58465342 {
        seq![0x78u8, 0x66u8, 0x73u8]
    } else if magic == 0x9123683E {
        seq![0x62u8, 0x74u8, 0x72u8, 0x66u8, 0x73u8]
    } else if magic == 0x6969 {
        seq![0x6eu8, 0x66u8, 0x73u8]
    } else if magic == 0x01021994 {
        seq![0x74u8, 0x6du8, 0x70u8, 0x66u8, 0x73u8]
    } else {
        seq![0x75u8, 0x6eu8, 0x6bu8, 0x6eu8, 0x6fu8, 0x77u8, 0x6eu8]
    }
}

/// Label a filesystem from its statistics magic: "ext4", "xfs", "btrfs",
/// "nfs" or "tmpfs" by their magic numbers, anything else "unknown".
pub fn get_filesystem_type(magic: i64) -> (r: Vec<u8>)
    ensures
        r@ == spec_filesystem_type_name(magic as int),
{
    let mut r: Vec<u8> = Vec::new();
    if magic == 0xEF53 {
        r.push(0x65);
        r.push(0x78);
        r.push(0x74);
        r.push(0x34);
        proof {
            assert(r@ =~= spec_filesystem_type_name(magic as int));
        }
    } else if magic == 0x58465342 {
        r.push(0x78);
        r.push(0x66);
        r.push(0x73);
        proof {
            assert(r@ =~= spec_filesystem_type_name(magic as int));
        }
    } else if magic == 0x9123683E {
        r.push(0x62);
        r.push(0x74);
        r.push(0x72);
        r.push(0x66);
        r.push(0x73);
        proof {
            assert(r@ =~= spec_filesystem_type_name(magic as int));
        }
    } else if magic == 0x6969 {
        r.push(0x6e);
        r.push(0x66);
        r.push(0x73);
        proof {
            assert(r@ =~= spec_filesystem_type_name(magic as int));
        }
    } else if magic == 0x01021994 {
        r.push(0x74);
        r.push(0x6d);
        r.push(0x70);
        r.push(0x66);
        r.push(0x73);
        proof {
            assert(r@ =~= spec_filesystem_type_name(magic as int));
        }
    } else {
        r.push(0x75);
        r.push(0x6e);
        r.push(0x6b);
        r.push(0x6e);
        r.push(0x6f);
        r.push(0x77);
        r.push(0x6e);
        proof {
            assert(r@ =~= spec_filesystem_type_name(magic as int));
        }
    }
    r
}

/// Two files lie on the same filesystem exactly when the device ids the
/// operating system reports for them are equal.
pub fn same_filesystem(device_a: u64, device_b: u64) -> (r: bool)
    ensures
        r == (device_a == device_b),
{
    device_a == device_b
}

} // verus!
