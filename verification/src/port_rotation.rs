use vstd::prelude::*;
use crate::arith::{
    lemma_rotation_step, lemma_rotation_covers, slot_of, rotation_slots, lemma_rotation_slots,
    lemma_rotation_each_once, occurrences,
};

verus! {

/// The next backend port in turn: `index` counts the requests forwarded so
/// far (wrapping around), and the port is the one at that count modulo the
/// number of ports.
pub fn get_next_backend_port(index: &mut usize, ports: &Vec<u16>) -> (port: u16)
    requires
        ports@.len() > 0,
    ensures
        port == ports@[*old(index) as int % ports@.len() as int],
        *final(index) == (*old(index)).wrapping_add(1),
{
    let current = *index;
    *index = current.wrapping_add(1);
    ports[current % ports.len()]
}


/// The ports come in turn: without wrapping, the next port is the one after
/// the last (cyclically), and any run of as many requests as there are ports
/// reaches every port, `slot` among them.
pub proof fn lemma_ports_rotate(index: usize, n: nat, slot: int)
    requires
        n > 0,
        index < usize::MAX,
        0 <= slot < n,
    ensures
        slot_of(index + 1, n as int) == (slot_of(index as int, n as int) + 1) % n as int,
        exists|k: int| 0 <= k < n && #[trigger] slot_of(index + k, n as int) == slot,
{
    lemma_rotation_step(index as int, n as int);
    lemma_rotation_covers(index as int, n as int, slot);
}

/// The ports that `k` calls of `get_next_backend_port` in a row give from
/// `index`.
pub open spec fn ports_in_turn(ports: Seq<u16>, index: usize, k: nat) -> Seq<u16> {
    rotation_slots(index, ports.len(), k).map_values(|s: int| ports[s])
}

/// A run of calls gives first the port that one call returns, then the run
/// from the index that call leaves; as many calls as there are ports, with
/// the index not wrapping, give call `j` the port at the index plus `j`
/// (cyclically), each position once: every port is served once per round.
pub proof fn lemma_ports_in_turn(ports: Seq<u16>, index: usize, k: nat, slot: int)
    requires
        ports.len() > 0,
        index + ports.len() <= usize::MAX,
        0 <= slot < ports.len(),
    ensures
        ports_in_turn(ports, index, k + 1) == seq![ports[index as int % ports.len() as int]] + ports_in_turn(
            ports,
            index.wrapping_add(1),
            k,
        ),
        ports_in_turn(ports, index, ports.len()).len() == ports.len(),
        forall|j: int|
            0 <= j < ports.len() ==> #[trigger] ports_in_turn(ports, index, ports.len())[j] == ports[(index
                + j) % ports.len() as int],
        occurrences(rotation_slots(index, ports.len(), ports.len()), slot) == 1,
{
    let n = ports.len();
    assert(ports_in_turn(ports, index, k + 1) =~= seq![ports[index as int % n as int]] + ports_in_turn(
        ports,
        index.wrapping_add(1),
        k,
    ));
    lemma_rotation_slots(index, n, n);
    lemma_rotation_each_once(index, n, slot);
}

} // verus!
