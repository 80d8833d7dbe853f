//! Starting a sandbox init: it is created directly in its namespaces and its cgroup, so no
//! moment exists where it runs unconfined, and waits for its id mapping before it executes
//! anything.

use crate::bootstrap::ID_COUNT;
use crate::strings;
use crate::strings::number;
use vstd::prelude::*;

verus! {

pub const CLONE_NEWNS: u64 = 0x2_0000;

pub const CLONE_NEWCGROUP: u64 = 0x200_0000;

pub const CLONE_NEWUTS: u64 = 0x400_0000;

pub const CLONE_NEWIPC: u64 = 0x800_0000;

pub const CLONE_NEWUSER: u64 = 0x1000_0000;

pub const CLONE_NEWPID: u64 = 0x2000_0000;

pub const CLONE_NEWNET: u64 = 0x4000_0000;

pub const CLONE_NEWTIME: u64 = 0x80;

pub const CLONE_PIDFD: u64 = 0x1000;

pub const CLONE_INTO_CGROUP: u64 = 0x2_0000_0000;

/// The flags that an init is cloned with.
pub fn clone_flags() -> (flags: u64)
    ensures
        flags == CLONE_NEWUSER | CLONE_NEWNS | CLONE_NEWPID | CLONE_NEWNET | CLONE_NEWIPC
            | CLONE_NEWUTS | CLONE_NEWCGROUP | CLONE_PIDFD | CLONE_INTO_CGROUP,
        flags == 0x2_7E02_1000,
{
    assert(0x1000_0000u64 | 0x2_0000 | 0x2000_0000 | 0x4000_0000 | 0x800_0000 | 0x400_0000
        | 0x200_0000 | 0x1000 | 0x2_0000_0000 == 0x2_7E02_1000) by (bit_vector);
    CLONE_NEWUSER | CLONE_NEWNS | CLONE_NEWPID | CLONE_NEWNET | CLONE_NEWIPC | CLONE_NEWUTS
        | CLONE_NEWCGROUP | CLONE_PIDFD | CLONE_INTO_CGROUP
}

/// The id map of a sandbox. One extent per extent of the harness map (root, then the
/// subordinate range): the kernel rejects an extent that spans two parent extents.
pub fn id_map() -> (map: String)
    ensures
        map@ == "0 0 1\n1 1 "@ + strings::decimal((ID_COUNT - 1) as nat) + "\n"@,
        map@ == "0 0 1\n1 1 65536\n"@,
{
    proof {
        reveal_with_fuel(strings::decimal, 5);
        reveal_strlit("0 0 1\n1 1 65536\n");
        reveal_strlit("0 0 1\n1 1 ");
        reveal_strlit("\n");
        assert("0 0 1\n1 1 "@ + strings::decimal(65536) + "\n"@ =~= "0 0 1\n1 1 65536\n"@);
    }
    let mut map = "0 0 1\n1 1 ".to_owned();
    map.append(number((ID_COUNT - 1) as u128).as_str());
    map.append("\n");
    map
}

} // verus!
