use vstd::prelude::*;
use vstd::string::StringSliceAdditionalSpecFns;

verus! {

/// The 32-bit murmur3 hash of `data` with seed `seed`, as the `murmur3` crate
/// computes it.
pub uninterp spec fn murmur3_32_of(data: Seq<u8>, seed: u32) -> u32;

/// Hashes `data` with `murmur3::murmur3_32`, reading it through an in-memory
/// cursor. The contract claims that the result is the murmur3 hash of the
/// bytes, and that the call returns: reading from a cursor over a slice never
/// fails, and the crate only panics when the byte count overflows a `u32`,
/// which `requires` rules out.
#[verifier::external_body]
fn murmur3_32_bytes(data: &[u8], seed: u32) -> (h: u32)
    requires
        data@.len() <= u32::MAX,
    ensures
        h == murmur3_32_of(data@, seed),
{
    murmur3::murmur3_32(&mut std::io::Cursor::new(data), seed).unwrap()
}

/// Sends every client to the backend picked by the hash of its address, so
/// that one client keeps reaching the same backend.
pub struct IpHash {
    backends: Vec<String>,
}

/// The backend that a client address maps to.
pub open spec fn ip_hash_choice(backends: Seq<String>, client_ip: Seq<u8>) -> int {
    murmur3_32_of(client_ip, 0) as int % backends.len() as int
}

impl IpHash {
    /// A balancer over `backends`.
    pub fn new(backends: Vec<String>) -> (r: IpHash)
        ensures
            r.backends() == backends@,
    {
        IpHash { backends }
    }

    /// The backends, in order.
    pub closed spec fn backends(&self) -> Seq<String> {
        self.backends@
    }

    /// The murmur3 hash (seed 0) of the bytes of a client address.
    pub fn hash_ip(ip: &str) -> (h: u32)
        requires
            ip.spec_bytes().len() <= u32::MAX,
        ensures
            h == murmur3_32_of(ip.spec_bytes(), 0),
    {
        murmur3_32_bytes(ip.as_bytes(), 0)
    }

    /// The backend at the position given by the hash of `client_ip` modulo
    /// the number of backends.
    pub fn get_server(&mut self, client_ip: &str) -> (r: String)
        requires
            old(self).backends().len() > 0,
            client_ip.spec_bytes().len() <= u32::MAX,
        ensures
            *final(self) == *old(self),
            r == old(self).backends()[ip_hash_choice(old(self).backends(), client_ip.spec_bytes())],
    {
        let hash = IpHash::hash_ip(client_ip);
        let index = (hash as usize) % self.backends.len();
        self.backends[index].clone()
    }
}


/// The backend a client maps to is one of the backends.
pub proof fn lemma_ip_hash_in_range(backends: Seq<String>, client_ip: Seq<u8>)
    requires
        backends.len() > 0,
    ensures
        0 <= ip_hash_choice(backends, client_ip) < backends.len(),
{
    vstd::arithmetic::div_mod::lemma_mod_bound(murmur3_32_of(client_ip, 0) as int, backends.len() as int);
}

/// One client keeps reaching the same backend: `get_server` leaves the
/// balancer as it was, and a balancer with the same backends maps the same
/// address to the same backend, one of them.
pub proof fn lemma_ip_hash_sticky(first: IpHash, later: IpHash, client_ip: Seq<u8>)
    requires
        first.backends().len() > 0,
        later.backends() == first.backends(),
    ensures
        ip_hash_choice(later.backends(), client_ip) == ip_hash_choice(first.backends(), client_ip),
        0 <= ip_hash_choice(later.backends(), client_ip) < later.backends().len(),
{
    lemma_ip_hash_in_range(first.backends(), client_ip);
}

} // verus!
