use vstd::prelude::*;
use crate::server::Server;

verus! {

/// The servers behind a slice of references, as values.
pub open spec fn deref_servers(servers: Seq<&Server>) -> Seq<Server> {
    servers.map_values(|s: &Server| *s)
}

/// A rule that picks one server out of the servers currently available.
pub trait Loadbalancer: Sized {
    /// The inputs on which `get_index` is defined (it would panic or never
    /// return on the others).
    spec fn accepts(&self, servers: Seq<Server>) -> bool;

    /// The position that `get_index` gives for `servers` in this state.
    spec fn choice(&self, servers: Seq<Server>) -> Option<int>;

    /// The state that `get_index` leaves on `servers`.
    spec fn after(&self, servers: Seq<Server>) -> Self;

    /// Whether `get_index` may be called on `servers` in the current state.
    fn can_select(&self, servers: &[&Server]) -> (b: bool)
        ensures
            b == self.accepts(deref_servers(servers@)),
    ;

    /// Index into `servers` of the server that gets the next request.
    fn get_index(&mut self, servers: &[&Server]) -> (r: Option<usize>)
        requires
            old(self).accepts(deref_servers(servers@)),
        ensures
            r matches Some(i) ==> i < servers@.len() && old(self).choice(deref_servers(servers@)) == Some(
                i as int,
            ),
            r is None ==> old(self).choice(deref_servers(servers@)) is None,
            *final(self) == old(self).after(deref_servers(servers@)),
            servers@.len() > 0 <==> r is Some,
    ;
}

/// The choices of `k` calls of `get_index` in a row with the same servers,
/// from state `b`.
pub open spec fn choices_in_turn<T: Loadbalancer>(b: T, servers: Seq<Server>, k: nat) -> Seq<Option<int>>
    decreases k,
{
    if k == 0 {
        Seq::empty()
    } else {
        seq![b.choice(servers)] + choices_in_turn(b.after(servers), servers, (k - 1) as nat)
    }
}

} // verus!
