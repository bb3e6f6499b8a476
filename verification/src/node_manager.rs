//! Administrative changes to a node's RAM and storage allocations.

use vstd::prelude::*;
use crate::node::{LimitError, Node};

verus! {

/// Administrative operations on single nodes.
pub struct NodeManager;

/// What stays allocated of `allocated` when four fifths of it are given
/// up: the four fifths are rounded down.
pub open spec fn idle_remainder(allocated: u64) -> int {
    allocated - allocated * 8 / 10
}

impl NodeManager {
    /// Overrides the RAM and storage allocations. A limit above the
    /// capacity is rejected, and then neither allocation changes.
    pub fn set_resource_limits(node: &mut Node, ram_limit: u64, storage_limit: u64) -> (r: Result<
        (),
        LimitError,
    >)
        ensures
            ram_limit > old(node).available_ram ==> r == Err::<(), LimitError>(
                LimitError::RamLimitExceedsCapacity,
            ),
            ram_limit <= old(node).available_ram && storage_limit > old(node).available_storage
                ==> r == Err::<(), LimitError>(LimitError::StorageLimitExceedsCapacity),
            ram_limit <= old(node).available_ram && storage_limit <= old(node).available_storage
                ==> r is Ok,
            r is Err ==> *final(node) == *old(node),
            r is Ok ==> *final(node) == (Node {
                allocated_ram: ram_limit,
                allocated_storage: storage_limit,
                ..*old(node)
            }),
            old(node).within_capacity() ==> final(node).within_capacity(),
    {
        if ram_limit > node.available_ram {
            return Err(LimitError::RamLimitExceedsCapacity);
        }
        if storage_limit > node.available_storage {
            return Err(LimitError::StorageLimitExceedsCapacity);
        }
        node.allocated_ram = ram_limit;
        node.allocated_storage = storage_limit;
        Ok(())
    }

    /// Gives up four fifths of the RAM allocation of an idle node.
    pub fn release_idle_resources(node: &mut Node)
        ensures
            *final(node) == (Node {
                allocated_ram: idle_remainder(old(node).allocated_ram) as u64,
                ..*old(node)
            }),
            0 <= idle_remainder(old(node).allocated_ram) <= old(node).allocated_ram,
            old(node).within_capacity() ==> final(node).within_capacity(),
    {
        let given_up: u128 = node.allocated_ram as u128 * 8 / 10;
        assert(given_up <= node.allocated_ram) by (nonlinear_arith)
            requires
                given_up == node.allocated_ram as u128 * 8 / 10,
        ;
        node.allocated_ram = node.allocated_ram - given_up as u64;
    }
}

} // verus!
