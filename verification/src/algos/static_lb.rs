use vstd::prelude::*;

verus! {

/// Always points at one fixed server, set by `update`.
pub struct StaticLB {
    index: u32,
}

impl StaticLB {
    /// Points at the first server.
    pub fn new() -> (r: StaticLB)
        ensures
            r.index() == 0,
    {
        StaticLB { index: 0 }
    }

    /// The server this balancer points at.
    pub closed spec fn index(&self) -> u32 {
        self.index
    }

    /// Points the balancer at server `index`.
    pub fn update(&mut self, index: u32)
        ensures
            final(self).index() == index,
    {
        self.index = index;
    }

    /// The server this balancer points at.
    pub fn get_server(&self) -> (r: Option<u32>)
        ensures
            r == Some(self.index()),
    {
        Some(self.index)
    }
}

} // verus!
