use vstd::prelude::*;

pub mod text;
pub mod sorted;
pub mod surface;
pub mod dmabuf;
pub mod frame;
pub mod agent;
pub mod session;
pub mod overlay;
pub mod fonts;
pub mod config;
pub mod signing;
pub mod input;
pub mod remotes;
pub mod bsp;
pub mod grid;
pub mod server_args;
pub mod transport;
pub mod dashboard;
pub mod demo;
pub mod dsl;
pub mod interactive;
pub mod ansi;
pub mod gateway;
pub mod actions;
pub mod tracker;
pub mod mouse;
pub mod book;
pub mod forwarder;

verus! {

/// Compares two byte strings for equality, looking at every byte pair
/// whenever the lengths agree.
pub fn constant_time_eq(a: &[u8], b: &[u8]) -> (r: bool)
    ensures
        r == (a@ == b@),
{
    if a.len() != b.len() {
        return false;
    }
    let mut diff: u8 = 0;
    let mut i: usize = 0;
    while i < a.len()
        invariant
            a.len() == b.len(),
            i <= a.len(),
            (diff == 0) == (forall|j: int| 0 <= j < i ==> a@[j] == b@[j]),
        decreases a.len() - i,
    {
        let x = a[i];
        let y = b[i];
        let d = x ^ y;
        assert((diff | d) == 0 <==> (diff == 0 && x == y)) by (bit_vector)
            requires d == x ^ y;
        diff = diff | d;
        i += 1;
    }
    proof {
        if diff == 0 {
            assert(a@ =~= b@);
        }
    }
    diff == 0
}

} // verus!
