use vstd::prelude::*;

pub mod server;
pub mod balancer;
pub mod arith;
pub mod algos;
pub mod port_rotation;
pub mod text;
pub mod uri;
pub mod csv_input;
pub mod config;
pub mod dispatch;
pub mod command;

verus! {

/// The number of servers the interactive shell reports as connected; the
/// shell is not connected to any.
pub fn con_servers() -> (n: u32)
    ensures
        n == 0,
{
    0
}

} // verus!
pub mod weighted_load_balancer;
pub mod pick_share;
