use vstd::prelude::*;
use crate::net::{IpAddress, IpNet};
use crate::peer::Peer;

verus! {

/// One dynamic-neighbor rule: a prefix whose addresses may connect.
#[derive(Debug)]
pub struct DynamicPeer {
    pub prefix: IpNet,
}

/// A named group: an AS number and its dynamic-neighbor prefixes.
#[derive(Debug)]
pub struct PeerGroup {
    pub as_number: u32,
    pub dynamic_peers: Vec<DynamicPeer>,
}

/// The process-wide registry: the local AS and router id, the configured
/// peers (keyed by their address) and the peer groups (keyed by name).
#[derive(Debug)]
pub struct Global {
    pub as_number: u32,
    pub id: u32,
    pub peers: Vec<Peer>,
    pub peer_group: Vec<(String, PeerGroup)>,
}

pub open spec fn group_prefixes_distinct(g: PeerGroup) -> bool {
    forall|i: int, j: int| #![trigger g.dynamic_peers@[i], g.dynamic_peers@[j]]
        0 <= i < j < g.dynamic_peers@.len() ==> g.dynamic_peers@[i].prefix
        != g.dynamic_peers@[j].prefix
}

impl Global {
    /// Peer addresses distinct, group names distinct, prefixes distinct
    /// within each group, prefixes well formed, peer records well formed.
    pub open spec fn wf(self) -> bool {
        &&& forall|i: int, j: int| #![trigger self.peers@[i], self.peers@[j]]
            0 <= i < j < self.peers@.len() ==> self.peers@[i].address != self.peers@[j].address
        &&& forall|i: int| 0 <= i < self.peers@.len() ==> (#[trigger] self.peers@[i]).wf()
        &&& forall|i: int, j: int| #![trigger self.peer_group@[i], self.peer_group@[j]]
            0 <= i < j < self.peer_group@.len() ==> self.peer_group@[i].0@
            != self.peer_group@[j].0@
        &&& forall|i: int|
            0 <= i < self.peer_group@.len() ==> group_prefixes_distinct(
                (#[trigger] self.peer_group@[i]).1,
            )
        &&& forall|i: int, j: int| #![trigger self.peer_group@[i].1.dynamic_peers@[j]]
            0 <= i < self.peer_group@.len() && 0 <= j
                < self.peer_group@[i].1.dynamic_peers@.len()
                ==> self.peer_group@[i].1.dynamic_peers@[j].prefix.wf()
    }

    pub fn new(asn: u32, id: u32) -> (r: Global)
        ensures
            r.as_number == asn,
            r.id == id,
            r.peers@.len() == 0,
            r.peer_group@.len() == 0,
            r.wf(),
    {
        Global { as_number: asn, id, peers: Vec::new(), peer_group: Vec::new() }
    }

    pub open spec fn has_peer_at(self, addr: IpAddress) -> bool {
        exists|i: int| 0 <= i < self.peers@.len() && (#[trigger] self.peers@[i]).address == addr
    }

    pub open spec fn peer_at(self, addr: IpAddress) -> int {
        choose|i: int| 0 <= i < self.peers@.len() && (#[trigger] self.peers@[i]).address == addr
    }

    /// The index of the peer record for `addr`, if one is configured.
    pub fn find_peer(&self, addr: IpAddress) -> (r: Option<usize>)
        requires
            self.wf(),
        ensures
            match r {
                Some(i) => i < self.peers@.len() && self.peers@[i as int].address == addr
                    && self.has_peer_at(addr) && self.peer_at(addr) == i as int,
                None => !self.has_peer_at(addr),
            },
    {
        let n = self.peers.len();
        let mut i: usize = 0;
        while i < n
            invariant
                i <= n,
                n == self.peers@.len(),
                self.wf(),
                forall|j: int| 0 <= j < i ==> (#[trigger] self.peers@[j]).address != addr,
            decreases n - i,
        {
            if self.peers[i].address == addr {
                proof {
                    assert(self.has_peer_at(addr));
                    let ci = self.peer_at(addr);
                    if ci != i as int {
                        if ci < i as int {
                            assert(self.peers@[ci].address != self.peers@[i as int].address);
                        } else {
                            assert(self.peers@[i as int].address != self.peers@[ci].address);
                        }
                    }
                }
                return Some(i);
            }
            i = i + 1;
        }
        None
    }

    pub open spec fn has_group(self, name: Seq<char>) -> bool {
        exists|i: int|
            0 <= i < self.peer_group@.len() && (#[trigger] self.peer_group@[i]).0@ == name
    }

    pub open spec fn group_at(self, name: Seq<char>) -> int {
        choose|i: int|
            0 <= i < self.peer_group@.len() && (#[trigger] self.peer_group@[i]).0@ == name
    }

    pub fn find_group(&self, name: &String) -> (r: Option<usize>)
        requires
            self.wf(),
        ensures
            match r {
                Some(i) => i < self.peer_group@.len() && self.peer_group@[i as int].0@ == name@
                    && self.has_group(name@) && self.group_at(name@) == i as int,
                None => !self.has_group(name@),
            },
    {
        let n = self.peer_group.len();
        let mut i: usize = 0;
        while i < n
            invariant
                i <= n,
                n == self.peer_group@.len(),
                self.wf(),
                forall|j: int| 0 <= j < i ==> (#[trigger] self.peer_group@[j]).0@ != name@,
            decreases n - i,
        {
            if self.peer_group[i].0.eq(name) {
                proof {
                    assert(self.has_group(name@));
                    let ci = self.group_at(name@);
                    if ci != i as int {
                        if ci < i as int {
                            assert(self.peer_group@[ci].0@ != self.peer_group@[i as int].0@);
                        } else {
                            assert(self.peer_group@[i as int].0@ != self.peer_group@[ci].0@);
                        }
                    }
                }
                return Some(i);
            }
            i = i + 1;
        }
        None
    }

    /// Whether some group's dynamic-neighbor prefix contains `addr`.
    pub open spec fn spec_matches_dynamic(self, addr: IpAddress) -> bool {
        exists|i: int, j: int|
            {
                &&& 0 <= i < self.peer_group@.len()
                &&& 0 <= j < self.peer_group@[i].1.dynamic_peers@.len()
                &&& (#[trigger] self.peer_group@[i].1.dynamic_peers@[j]).prefix.spec_contains(
                    addr,
                )
            }
    }

    /// Whether an unconfigured connecting address falls inside some
    /// group's dynamic-neighbor prefix.
    pub fn matches_dynamic(&self, addr: IpAddress) -> (r: bool)
        requires
            self.wf(),
        ensures
            r == self.spec_matches_dynamic(addr),
    {
        let ng = self.peer_group.len();
        let mut i: usize = 0;
        while i < ng
            invariant
                i <= ng,
                ng == self.peer_group@.len(),
                self.wf(),
                forall|i2: int, j2: int|
                    0 <= i2 < i && 0 <= j2 < self.peer_group@[i2].1.dynamic_peers@.len() ==> !(
                    #[trigger] self.peer_group@[i2].1.dynamic_peers@[j2]).prefix.spec_contains(
                        addr,
                    ),
            decreases ng - i,
        {
            let nd = self.peer_group[i].1.dynamic_peers.len();
            let mut j: usize = 0;
            while j < nd
                invariant
                    j <= nd,
                    i < ng,
                    ng == self.peer_group@.len(),
                    nd == self.peer_group@[i as int].1.dynamic_peers@.len(),
                    self.wf(),
                    forall|j2: int|
                        0 <= j2 < j ==> !(
                        #[trigger] self.peer_group@[i as int].1.dynamic_peers@[j2]).prefix.spec_contains(
                            addr,
                        ),
                decreases nd - j,
            {
                if self.peer_group[i].1.dynamic_peers[j].prefix.contains(addr) {
                    return true;
                }
                j = j + 1;
            }
            i = i + 1;
        }
        false
    }

    /// Removes the peer record for `addr`, if any; used when a dynamic
    /// peer's session ends.
    pub fn remove_peer(&mut self, addr: IpAddress)
        requires
            old(self).wf(),
        ensures
            final(self).wf(),
            !final(self).has_peer_at(addr),
            final(self).as_number == old(self).as_number,
            final(self).id == old(self).id,
            final(self).peer_group@ == old(self).peer_group@,
            old(self).has_peer_at(addr) ==> final(self).peers@ == old(self).peers@.remove(
                old(self).peer_at(addr),
            ),
            !old(self).has_peer_at(addr) ==> final(self).peers@ == old(self).peers@,
    {
        let ghost t0 = *old(self);
        let found = self.find_peer(addr);
        if let Some(i) = found {
            let ghost p0 = self.peers@;
            self.peers.remove(i);
            proof {
                assert forall|p: int| 0 <= p < self.peers@.len() implies (
                #[trigger] self.peers@[p]).address != addr by {
                    assert(self.peers@[p] == if p < i as int {
                        p0[p]
                    } else {
                        p0[p + 1]
                    });
                }
                assert forall|p: int, q: int|
                    #![trigger self.peers@[p], self.peers@[q]]
                    0 <= p < q < self.peers@.len() implies self.peers@[p].address
                    != self.peers@[q].address by {
                    assert(self.peers@[p] == if p < i as int {
                        p0[p]
                    } else {
                        p0[p + 1]
                    });
                    assert(self.peers@[q] == if q < i as int {
                        p0[q]
                    } else {
                        p0[q + 1]
                    });
                }
                assert forall|p: int| 0 <= p < self.peers@.len() implies (
                #[trigger] self.peers@[p]).wf() by {
                    assert(self.peers@[p] == if p < i as int {
                        p0[p]
                    } else {
                        p0[p + 1]
                    });
                }
            }
        }
    }
}

} // verus!
