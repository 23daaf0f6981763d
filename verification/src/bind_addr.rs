//! Selecting the local addresses to bind from the host's discovered
//! interface addresses.

use vstd::prelude::*;

use crate::net::Ipv4Address;

verus! {

/// One discovered interface address: the address and whether its interface
/// is up.
#[derive(Clone, Copy, PartialEq, Eq, Structural, Debug)]
pub struct CandidateAddr {
    pub addr: Ipv4Address,
    pub up: bool,
}

/// A candidate is selected when its interface is up and it is not a
/// loopback address — unless loopback binding was asked for.
pub open spec fn keep_candidate(c: CandidateAddr, bind_loopback: bool) -> bool {
    c.up && (bind_loopback || !c.addr.spec_is_loopback())
}

/// The selected addresses, in discovery order.
pub open spec fn spec_selected(cs: Seq<CandidateAddr>, bind_loopback: bool) -> Seq<Ipv4Address>
    decreases cs.len(),
{
    if cs.len() == 0 {
        Seq::empty()
    } else if keep_candidate(cs[0], bind_loopback) {
        seq![cs[0].addr] + spec_selected(cs.skip(1), bind_loopback)
    } else {
        spec_selected(cs.skip(1), bind_loopback)
    }
}

/// Filters the discovered interface addresses down to the bind addresses,
/// mirroring [`spec_selected`].
pub fn select_bind_addresses(cands: &Vec<CandidateAddr>, bind_loopback: bool) -> (r: Vec<
    Ipv4Address,
>)
    ensures
        r@ == spec_selected(cands@, bind_loopback),
{
    let ghost cs = cands@;
    let mut out: Vec<Ipv4Address> = Vec::new();
    let mut i: usize = 0;
    proof {
        assert(cs.skip(0) =~= cs);
        assert(out@ + spec_selected(cs, bind_loopback) =~= spec_selected(cs, bind_loopback));
    }
    while i < cands.len()
        invariant
            i <= cands@.len(),
            cs == cands@,
            spec_selected(cs, bind_loopback) == out@ + spec_selected(cs.skip(i as int),
                bind_loopback),
        decreases cands@.len() - i,
    {
        let c = cands[i];
        proof {
            assert(cs.skip(i as int)[0] == c);
            assert(cs.skip(i as int).skip(1) =~= cs.skip(i + 1));
        }
        if c.up && (bind_loopback || !c.addr.is_loopback()) {
            let ghost old_out = out@;
            out.push(c.addr);
            proof {
                assert(out@ + spec_selected(cs.skip(i + 1), bind_loopback) =~= old_out
                    + spec_selected(cs.skip(i as int), bind_loopback));
            }
        }
        i += 1;
    }
    proof {
        assert(cs.skip(cs.len() as int) =~= Seq::<CandidateAddr>::empty());
        assert(out@ + spec_selected(cs.skip(cs.len() as int), bind_loopback) =~= out@);
    }
    out
}

} // verus!
