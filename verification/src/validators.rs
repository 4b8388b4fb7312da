use crate::block::Block;
use crate::game::Inventory;
use crate::text::{decimal, push_decimal};
use std::collections::HashSet;
use vstd::prelude::*;
use vstd::string::StringExecFns;

verus! {

/// The outcome of a check: passed, or failed with the reason in words.
#[derive(Debug, PartialEq)]
pub enum Valid {
    Valid,
    Invalid(String),
}

/// The ids of the pieces of an inventory, in its order.
pub open spec fn ids_of(inventory: Seq<Block>) -> Seq<usize> {
    Seq::new(inventory.len(), |i: int| inventory[i].id())
}

/// The id at `i` is zero, or an earlier piece has it too.
pub open spec fn faulty(ids: Seq<usize>, i: int) -> bool {
    ids[i] == 0 || exists|j: int| 0 <= j < i && ids[j] == ids[i]
}

/// No id is zero and no two pieces share one.
pub open spec fn inventory_ok(inventory: Seq<Block>) -> bool {
    &&& forall|i: int| 0 <= i < inventory.len() ==> (#[trigger] inventory[i]).id() != 0
    &&& forall|i: int, j: int|
        0 <= i < j < inventory.len() ==> (#[trigger] inventory[i]).id() != (
        #[trigger] inventory[j]).id()
}

/// What is said of a faulty id.
pub open spec fn fault_reason(id: usize) -> Seq<char> {
    if id == 0 {
        "Id 0 not allowed"@
    } else {
        "Duplicate id "@ + decimal(id as nat) + " found"@
    }
}

/// Checks that no piece has id 0 and that no two pieces share an id. The
/// reason given is that of the first piece at fault.
pub fn valid_inventory(inventory: &Inventory) -> (verdict: Valid)
    ensures
        verdict is Valid <==> inventory_ok(inventory@),
        verdict matches Valid::Invalid(reason) ==> exists|i: int|
            {
                &&& 0 <= i < inventory@.len()
                &&& #[trigger] faulty(ids_of(inventory@), i)
                &&& forall|j: int| 0 <= j < i ==> !faulty(ids_of(inventory@), j)
                &&& reason@ == fault_reason(inventory@[i].id())
            },
{
    broadcast use vstd::std_specs::hash::group_hash_axioms;

    let ghost ids = ids_of(inventory@);
    let mut unique_ids: HashSet<usize> = HashSet::new();
    let mut k: usize = 0;
    while k < inventory.len()
        invariant
            k <= inventory@.len(),
            ids == ids_of(inventory@),
            forall|j: int| 0 <= j < k ==> !faulty(ids, j),
            forall|id: usize|
                unique_ids@.contains(id) <==> exists|j: int| 0 <= j < k && #[trigger] ids[j] == id,
        decreases inventory@.len() - k,
    {
        let id = inventory[k].get_block_id();
        assert(ids[k as int] == id);
        if id == 0 {
            let reason = String::from_str("Id 0 not allowed");
            assert(faulty(ids, k as int));
            return Valid::Invalid(reason);
        }
        if unique_ids.contains(&id) {
            let mut reason = String::from_str("Duplicate id ");
            push_decimal(&mut reason, id);
            reason.append(" found");
            assert(faulty(ids, k as int));
            return Valid::Invalid(reason);
        }
        unique_ids.insert(id);
        k += 1;
    }
    proof {
        assert forall|i: int| 0 <= i < inventory@.len() implies (#[trigger] inventory@[i]).id()
            != 0 by {
            assert(!faulty(ids, i));
        }
        assert forall|i: int, j: int| 0 <= i < j < inventory@.len() implies (
        #[trigger] inventory@[i]).id() != (#[trigger] inventory@[j]).id() by {
            assert(!faulty(ids, j));
            assert(ids[i] == inventory@[i].id());
        }
    }
    Valid::Valid
}

/// Whether `pos` lies on a board `W` cells wide and `H` cells high.
pub fn valid_pos<const W: usize, const H: usize>(pos: (i32, i32)) -> (verdict: Valid)
    ensures
        verdict is Valid <==> 0 <= pos.0 < W && 0 <= pos.1 < H,
        verdict matches Valid::Invalid(reason) ==> reason@ == "Not in range"@,
{
    if 0 <= pos.0 && (pos.0 as usize) < W && 0 <= pos.1 && (pos.1 as usize) < H {
        Valid::Valid
    } else {
        Valid::Invalid(String::from_str("Not in range"))
    }
}

} // verus!
