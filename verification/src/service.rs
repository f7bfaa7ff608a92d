use vstd::prelude::*;
use crate::net::{IpAddress, IpNet};
use crate::family::Family;
use crate::attr::{Attribute, Nlri, PathAttr, pattr_eq};
use crate::peer::Peer;
use crate::global::{Global, PeerGroup, DynamicPeer, group_prefixes_distinct};
use crate::rib::{
    Table, TableUpdate, Source, insert_post, remove_post, table_has_dest, table_entry, has_dst,
    lemma_fam_idx, lemma_dst_idx,
};
use crate::session::attrs_within_bounds;

verus! {

/// The errors the control interface reports.
#[derive(Clone, Copy, PartialEq, Eq, Structural, Debug)]
pub enum ApiError {
    AlreadyStarted,
    InvalidAs,
    InvalidRouterId,
    AlreadyExists,
    NotFound,
    InvalidArgument,
    InvalidPrefix,
    Unimplemented,
}

/// Sets the global AS number and router id once: a second start, a zero
/// AS and a missing router id are each refused.
pub fn start_bgp(global: &mut Global, asn: u32, router_id: Option<u32>) -> (r: Result<
    (),
    ApiError,
>)
    requires
        old(global).wf(),
    ensures
        final(global).wf(),
        final(global).peers@ == old(global).peers@,
        final(global).peer_group@ == old(global).peer_group@,
        (if old(global).as_number != 0 {
            r == Err::<(), ApiError>(ApiError::AlreadyStarted) && *final(global) == *old(global)
        } else if asn == 0 {
            r == Err::<(), ApiError>(ApiError::InvalidAs) && *final(global) == *old(global)
        } else {
            match router_id {
                Some(id) => {
                    &&& r == Ok::<(), ApiError>(())
                    &&& final(global).as_number == asn
                    &&& final(global).id == id
                }
                None => r == Err::<(), ApiError>(ApiError::InvalidRouterId) && *final(global)
                    == *old(global),
            }
        }),
{
    if global.as_number != 0 {
        return Err(ApiError::AlreadyStarted);
    }
    if asn == 0 {
        return Err(ApiError::InvalidAs);
    }
    match router_id {
        Some(id) => {
            global.as_number = asn;
            global.id = id;
            Ok(())
        }
        None => Err(ApiError::InvalidRouterId),
    }
}

/// Adds a configured peer; the address must be new. Returns whether the
/// caller should queue an outbound connection attempt (the peer is not
/// passive).
pub fn add_peer(global: &mut Global, peer: Peer) -> (r: Result<bool, ApiError>)
    requires
        old(global).wf(),
        peer.wf(),
    ensures
        final(global).wf(),
        final(global).as_number == old(global).as_number,
        final(global).id == old(global).id,
        final(global).peer_group@ == old(global).peer_group@,
        (if old(global).has_peer_at(peer.address) {
            r == Err::<bool, ApiError>(ApiError::AlreadyExists) && final(global).peers@ == old(global).peers@
        } else {
            &&& r == Ok::<bool, ApiError>(!peer.passive)
            &&& final(global).peers@ == old(global).peers@.push(peer)
        }),
{
    let found = global.find_peer(peer.address);
    if found.is_some() {
        return Err(ApiError::AlreadyExists);
    }
    let ghost p0 = global.peers@;
    let passive = peer.passive;
    global.peers.push(peer);
    proof {
        assert forall|p: int, q: int|
            #![trigger global.peers@[p], global.peers@[q]]
            0 <= p < q < global.peers@.len() implies global.peers@[p].address
            != global.peers@[q].address by {
            assert(global.peers@[p] == p0[p]);
            if q < p0.len() {
                assert(global.peers@[q] == p0[q]);
            }
        }
        assert forall|p: int| 0 <= p < global.peers@.len() implies (
        #[trigger] global.peers@[p]).wf() by {
            if p < p0.len() {
                assert(global.peers@[p] == p0[p]);
            }
        }
    }
    Ok(!passive)
}

/// The local AS a new peer is configured with: the requested one, or the
/// global AS number when the request left it at zero.
pub fn effective_local_as(global_as: u32, requested: u32) -> (r: u32)
    ensures
        r == (if requested == 0 {
            global_as
        } else {
            requested
        }),
{
    if requested == 0 {
        global_as
    } else {
        requested
    }
}

/// The number of peers among the first `i` that pass the optional address
/// filter.
pub open spec fn listed_count(peers: Seq<Peer>, addr: Option<IpAddress>, i: int) -> int
    decreases i,
{
    if i <= 0 || i > peers.len() {
        0
    } else {
        listed_count(peers, addr, i - 1) + (if listed(peers[i - 1], addr) {
            1int
        } else {
            0int
        })
    }
}

pub open spec fn listed(p: Peer, addr: Option<IpAddress>) -> bool {
    match addr {
        Some(a) => p.address == a,
        None => true,
    }
}

proof fn lemma_listed_count_nonneg(peers: Seq<Peer>, addr: Option<IpAddress>, i: int)
    ensures
        listed_count(peers, addr, i) >= 0,
    decreases i,
{
    if 0 < i <= peers.len() {
        lemma_listed_count_nonneg(peers, addr, i - 1);
    }
}

proof fn lemma_listed_count_mono(peers: Seq<Peer>, addr: Option<IpAddress>, k: int, i: int)
    requires
        0 <= k < i <= peers.len(),
    ensures
        listed_count(peers, addr, k + 1) <= listed_count(peers, addr, i),
        listed(peers[k], addr) ==> listed_count(peers, addr, k) < listed_count(peers, addr, i),
    decreases i - k,
{
    if k + 1 < i {
        lemma_listed_count_mono(peers, addr, k + 1, i);
    }
}

/// Lists the peers as shown on the control interface, every one or only
/// the one at the given address, in stored order.
pub fn list_peer(global: &Global, addr: Option<IpAddress>) -> (r: Vec<
    crate::api::ApiPeerStatus,
>)
    ensures
        r@.len() == listed_count(global.peers@, addr, global.peers@.len() as int),
        forall|k: int|
            0 <= k < global.peers@.len() && listed(#[trigger] global.peers@[k], addr)
                ==> crate::api::peer_status_matches(
                global.peers@[k],
                r@[listed_count(global.peers@, addr, k)],
            ),
{
    let mut out: Vec<crate::api::ApiPeerStatus> = Vec::new();
    let n = global.peers.len();
    let mut i: usize = 0;
    while i < n
        invariant
            i <= n,
            n == global.peers@.len(),
            out@.len() == listed_count(global.peers@, addr, i as int),
            forall|k: int|
                0 <= k < i && listed(#[trigger] global.peers@[k], addr)
                    ==> crate::api::peer_status_matches(
                    global.peers@[k],
                    out@[listed_count(global.peers@, addr, k)],
                ),
        decreases n - i,
    {
        let ghost o0 = out@;
        let pass = match addr {
            Some(a) => global.peers[i].address == a,
            None => true,
        };
        if pass {
            out.push(global.peers[i].to_api());
        }
        proof {
            assert forall|k: int|
                0 <= k < i + 1 && listed(#[trigger] global.peers@[k], addr)
                    implies crate::api::peer_status_matches(
                global.peers@[k],
                out@[listed_count(global.peers@, addr, k)],
            ) by {
                if k < i as int {
                    lemma_listed_count_mono(global.peers@, addr, k, i as int);
                    lemma_listed_count_nonneg(global.peers@, addr, k);
                    assert(out@[listed_count(global.peers@, addr, k)] == o0[listed_count(
                        global.peers@,
                        addr,
                        k,
                    )]);
                }
            }
        }
        i = i + 1;
    }
    out
}

/// Adds a named peer group; the name must be new.
pub fn add_peer_group(global: &mut Global, name: String, as_number: u32) -> (r: Result<
    (),
    ApiError,
>)
    requires
        old(global).wf(),
    ensures
        final(global).wf(),
        final(global).as_number == old(global).as_number,
        final(global).id == old(global).id,
        final(global).peers@ == old(global).peers@,
        (if old(global).has_group(name@) {
            r == Err::<(), ApiError>(ApiError::AlreadyExists) && final(global).peer_group@ == old(global).peer_group@
        } else {
            &&& r == Ok::<(), ApiError>(())
            &&& final(global).peer_group@.len() == old(global).peer_group@.len() + 1
            &&& forall|k: int|
                0 <= k < old(global).peer_group@.len() ==> #[trigger] final(global).peer_group@[k] == old(global).peer_group@[k]
            &&& final(global).peer_group@[old(global).peer_group@.len() as int].0@ == name@
            &&& final(global).peer_group@[old(global).peer_group@.len() as int].1.as_number
                == as_number
            &&& final(global).peer_group@[old(global).peer_group@.len() as int].1.dynamic_peers@.len() == 0
        }),
{
    let found = global.find_group(&name);
    if found.is_some() {
        return Err(ApiError::AlreadyExists);
    }
    let ghost g0 = global.peer_group@;
    let ghost nv = name@;
    global.peer_group.push((name, PeerGroup { as_number, dynamic_peers: Vec::new() }));
    proof {
        let g1 = global.peer_group@;
        assert forall|p: int, q: int|
            #![trigger g1[p], g1[q]]
            0 <= p < q < g1.len() implies g1[p].0@ != g1[q].0@ by {
            assert(g1[p] == g0[p]);
            if q < g0.len() {
                assert(g1[q] == g0[q]);
            } else {
                assert(g1[q].0@ == nv);
                assert(g0[p].0@ != nv);
            }
        }
        assert forall|p: int| 0 <= p < g1.len() implies group_prefixes_distinct(
            (#[trigger] g1[p]).1,
        ) by {
            if p < g0.len() {
                assert(g1[p] == g0[p]);
            }
        }
        assert forall|p: int, q: int|
            #![trigger g1[p].1.dynamic_peers@[q]]
            0 <= p < g1.len() && 0 <= q < g1[p].1.dynamic_peers@.len() implies g1[
            p].1.dynamic_peers@[q].prefix.wf() by {
            if p < g0.len() {
                assert(g1[p] == g0[p]);
                assert(g0[p].1.dynamic_peers@[q].prefix.wf());
            }
        }
    }
    Ok(())
}

/// Adds a dynamic-neighbor prefix to a named group: the group must exist,
/// the prefix must be well formed and new to the group.
pub fn add_dynamic_neighbor(global: &mut Global, name: &String, prefix: IpNet) -> (r: Result<
    (),
    ApiError,
>)
    requires
        old(global).wf(),
    ensures
        final(global).wf(),
        final(global).as_number == old(global).as_number,
        final(global).id == old(global).id,
        final(global).peers@ == old(global).peers@,
        !prefix.wf() ==> r == Err::<(), ApiError>(ApiError::InvalidPrefix) && final(global).peer_group@ == old(global).peer_group@,
        prefix.wf() && !old(global).has_group(name@) ==> r == Err::<(), ApiError>(
            ApiError::NotFound,
        ) && final(global).peer_group@ == old(global).peer_group@,
        (prefix.wf() && old(global).has_group(name@)) ==> {
            let gi = old(global).group_at(name@);
            let d0 = old(global).peer_group@[gi].1.dynamic_peers@;
            if exists|k: int| 0 <= k < d0.len() && (#[trigger] d0[k]).prefix == prefix {
                r == Err::<(), ApiError>(ApiError::AlreadyExists) && final(global).peer_group@
                    == old(global).peer_group@
            } else {
                &&& r == Ok::<(), ApiError>(())
                &&& final(global).peer_group@.len() == old(global).peer_group@.len()
                &&& forall|k: int|
                    0 <= k < old(global).peer_group@.len() && k != gi ==> #[trigger] final(global).peer_group@[k] == old(global).peer_group@[k]
                &&& final(global).peer_group@[gi].0@ == name@
                &&& final(global).peer_group@[gi].1.as_number == old(global).peer_group@[gi].1.as_number
                &&& final(global).peer_group@[gi].1.dynamic_peers@.len() == d0.len() + 1
                &&& forall|k: int|
                    0 <= k < d0.len() ==> #[trigger] final(global).peer_group@[gi].1.dynamic_peers@[k] == d0[k]
                &&& final(global).peer_group@[gi].1.dynamic_peers@[d0.len() as int].prefix
                    == prefix
            }
        },
{
    if !check_prefix(&prefix) {
        return Err(ApiError::InvalidPrefix);
    }
    let found = global.find_group(name);
    let gi = match found {
        Some(gi) => gi,
        None => {
            return Err(ApiError::NotFound);
        }
    };
    let ghost g0 = global.peer_group@;
    let nd = global.peer_group[gi].1.dynamic_peers.len();
    let mut k: usize = 0;
    while k < nd
        invariant
            k <= nd,
            gi < g0.len(),
            *global == *old(global),
            global.wf(),
            prefix.wf(),
            old(global).has_group(name@),
            gi as int == old(global).group_at(name@),
            g0 == global.peer_group@,
            nd == g0[gi as int].1.dynamic_peers@.len(),
            forall|j: int|
                0 <= j < k ==> (#[trigger] g0[gi as int].1.dynamic_peers@[j]).prefix != prefix,
        decreases nd - k,
    {
        if global.peer_group[gi].1.dynamic_peers[k].prefix == prefix {
            proof {
                let d0 = old(global).peer_group@[gi as int].1.dynamic_peers@;
                assert(d0[k as int].prefix == prefix);
            }
            return Err(ApiError::AlreadyExists);
        }
        k = k + 1;
    }
    // take the group out, extend it, put it back
    let mut entry = (String::new(), PeerGroup { as_number: 0, dynamic_peers: Vec::new() });
    vstd::pervasive::VecAdditionalExecFns::set_and_swap(&mut global.peer_group, gi, &mut entry);
    entry.1.dynamic_peers.push(DynamicPeer { prefix });
    let ghost ekept = entry;
    vstd::pervasive::VecAdditionalExecFns::set_and_swap(&mut global.peer_group, gi, &mut entry);
    proof {
        let g1 = global.peer_group@;
        assert(g1[gi as int] == ekept);
        assert(g1[gi as int].0@ == name@);
        assert forall|p: int, q: int|
            #![trigger g1[p], g1[q]]
            0 <= p < q < g1.len() implies g1[p].0@ != g1[q].0@ by {
            if p != gi as int {
                assert(g1[p] == g0[p]);
            }
            if q != gi as int {
                assert(g1[q] == g0[q]);
            }
        }
        assert forall|p: int| 0 <= p < g1.len() implies group_prefixes_distinct(
            (#[trigger] g1[p]).1,
        ) by {
            if p != gi as int {
                assert(g1[p] == g0[p]);
            } else {
                let d0 = g0[gi as int].1.dynamic_peers@;
                let d1 = g1[gi as int].1.dynamic_peers@;
                assert forall|x: int, y: int|
                    #![trigger d1[x], d1[y]]
                    0 <= x < y < d1.len() implies d1[x].prefix != d1[y].prefix by {
                    assert(d1[x] == d0[x]);
                    if y < d0.len() {
                        assert(d1[y] == d0[y]);
                        assert(group_prefixes_distinct(g0[gi as int].1));
                    } else {
                        assert(d1[y].prefix == prefix);
                        assert(d0[x].prefix != prefix);
                    }
                }
            }
        }
        assert forall|p: int, q: int|
            #![trigger g1[p].1.dynamic_peers@[q]]
            0 <= p < g1.len() && 0 <= q < g1[p].1.dynamic_peers@.len() implies g1[
        p].1.dynamic_peers@[q].prefix.wf() by {
            if p != gi as int {
                assert(g1[p] == g0[p]);
                assert(g0[p].1.dynamic_peers@[q].prefix.wf());
            } else {
                if q < g0[gi as int].1.dynamic_peers@.len() {
                    assert(g1[p].1.dynamic_peers@[q] == g0[gi as int].1.dynamic_peers@[q]);
                    assert(g0[gi as int].1.dynamic_peers@[q].prefix.wf());
                }
            }
        }
    }
    Ok(())
}

/// Whether the prefix's mask length fits its address family.
fn check_prefix(p: &IpNet) -> (r: bool)
    ensures
        r == p.wf(),
{
    match p.addr {
        IpAddress::V4(_) => p.mask <= 32,
        IpAddress::V6(_) => p.mask <= 128,
    }
}

/// Inserts a locally originated path (the local source) and returns the
/// updates to fan out. An attribute bag whose AS path overflows the
/// selection counter is refused.
pub fn add_path(
    table: &mut Table,
    family: Family,
    nlri: Nlri,
    nexthop: IpAddress,
    attrs: Vec<Attribute>,
    timestamp: u64,
) -> (r: Result<Vec<TableUpdate>, ApiError>)
    requires
        old(table).wf(),
    ensures
        final(table).wf(),
        (if !crate::attr::all_aspaths_bounded(attrs@) {
            r == Err::<Vec<TableUpdate>, ApiError>(ApiError::InvalidArgument) && *final(table)
                == *old(table)
        } else {
            match r {
                Ok(us) => exists|ret: (Option<TableUpdate>, bool)|
                    {
                        &&& #[trigger] insert_post(
                            *old(table),
                            family,
                            nlri,
                            old(table).local_source,
                            nexthop,
                            (PathAttr { entry: attrs }),
                            timestamp,
                            *final(table),
                            ret,
                        )
                        &&& (match ret.0 {
                            Some(u) => us@.len() == 1,
                            None => us@.len() == 0,
                        })
                    },
                Err(_) => false,
            }
        }),
{
    if !attrs_within_bounds(&attrs) {
        return Err(ApiError::InvalidArgument);
    }
    proof {
        crate::attr::lemma_bounded_as_len(attrs@, 0);
    }
    let pa = PathAttr { entry: attrs };
    let source = table.local_source;
    let (u, added) = table.insert(family, nlri, source, nexthop, pa, timestamp);
    let ghost ret = (u, added);
    let mut us: Vec<TableUpdate> = Vec::new();
    if let Some(u) = u {
        us.push(u);
    }
    proof {
        assert(insert_post(
            *old(table),
            family,
            nlri,
            old(table).local_source,
            nexthop,
            (PathAttr { entry: attrs }),
            timestamp,
            *table,
            ret,
        ));
    }
    Ok(us)
}

/// Removes a locally originated path and returns the updates to fan out.
pub fn delete_path(table: &mut Table, family: Family, nlri: Nlri) -> (r: Vec<TableUpdate>)
    requires
        old(table).wf(),
    ensures
        final(table).wf(),
        exists|ret: (Option<TableUpdate>, bool)|
            {
                &&& #[trigger] remove_post(
                    *old(table),
                    family,
                    nlri,
                    old(table).local_source,
                    *final(table),
                    ret,
                )
                &&& (match ret.0 {
                    Some(u) => r@.len() == 1,
                    None => r@.len() == 0,
                })
            },
{
    let source = table.local_source;
    let (u, removed) = table.remove(family, nlri, source);
    let ghost ret = (u, removed);
    let mut us: Vec<TableUpdate> = Vec::new();
    if let Some(u) = u {
        us.push(u);
    }
    proof {
        assert(remove_post(
            *old(table),
            family,
            nlri,
            old(table).local_source,
            *table,
            ret,
        ));
    }
    us
}

/// The view a path listing is taken from.
#[derive(Clone, Copy, PartialEq, Eq, Structural, Debug)]
pub enum TableType {
    Global,
    Local,
    Vrf,
    AdjIn,
    AdjOut,
}

/// One path of a listing.
pub struct ListedPath {
    pub source_addr: IpAddress,
    pub nexthop: IpAddress,
    pub attrs: PathAttr,
    pub best: bool,
}

/// One destination of a listing.
pub struct ListedDestination {
    pub net: Nlri,
    pub paths: Vec<ListedPath>,
}

/// Whether the destination passes the prefix filter: an empty filter
/// passes everything.
pub open spec fn passes_prefix_filter(net: Nlri, prefixes: Seq<IpNet>) -> bool {
    prefixes.len() == 0 || exists|k: int| 0 <= k < prefixes.len() && #[trigger] prefixes[k]
        == net.spec_net()
}

/// Whether a stored path is shown by the view: everything for `Global`;
/// only the peer's own paths for `AdjIn`; for `AdjOut` only paths the
/// peer would be advertised (not its own, and not IBGP-to-IBGP).
pub open spec fn view_shows(
    ty: TableType,
    peer: Option<IpAddress>,
    peer_src: Option<Source>,
    p: crate::rib::Path,
) -> bool {
    match ty {
        TableType::AdjIn => peer == Some(p.source.address),
        TableType::AdjOut => {
            match peer_src {
                Some(s) => !(s.ibgp && p.source.ibgp) && peer != Some(p.source.address),
                None => false,
            }
        }
        _ => true,
    }
}

/// The `Source` an outbound listing rewrites for: the peer's fan-out
/// registration, when it has one.
pub open spec fn view_source(t: Table, ty: TableType, peer: Option<IpAddress>) -> Option<Source> {
    if ty == TableType::AdjOut {
        match peer {
            Some(a) => if t.has_peer(a) {
                Some(t.active_peers@[t.peer_idx(a)].source)
            } else {
                None
            },
            None => None,
        }
    } else {
        None
    }
}

/// The number of paths among the first `i` that the view shows.
pub open spec fn shown_count(
    ty: TableType,
    peer: Option<IpAddress>,
    psrc: Option<Source>,
    e: Seq<crate::rib::Path>,
    i: int,
) -> int
    decreases i,
{
    if i <= 0 || i > e.len() {
        0
    } else {
        shown_count(ty, peer, psrc, e, i - 1) + (if view_shows(ty, peer, psrc, e[i - 1]) {
            1int
        } else {
            0int
        })
    }
}

proof fn lemma_shown_count_nonneg(
    ty: TableType,
    peer: Option<IpAddress>,
    psrc: Option<Source>,
    e: Seq<crate::rib::Path>,
    i: int,
)
    ensures
        shown_count(ty, peer, psrc, e, i) >= 0,
    decreases i,
{
    if 0 < i <= e.len() {
        lemma_shown_count_nonneg(ty, peer, psrc, e, i - 1);
    }
}

proof fn lemma_shown_count_mono(
    ty: TableType,
    peer: Option<IpAddress>,
    psrc: Option<Source>,
    e: Seq<crate::rib::Path>,
    k: int,
    i: int,
)
    requires
        0 <= k < i <= e.len(),
    ensures
        shown_count(ty, peer, psrc, e, k + 1) <= shown_count(ty, peer, psrc, e, i),
        view_shows(ty, peer, psrc, e[k]) ==> shown_count(ty, peer, psrc, e, k) < shown_count(
            ty,
            peer,
            psrc,
            e,
            i,
        ),
    decreases i - k,
{
    if k + 1 < i {
        lemma_shown_count_mono(ty, peer, psrc, e, k + 1, i);
    }
}

/// The count is positive exactly when some path is shown.
proof fn lemma_shown_count_pos(
    ty: TableType,
    peer: Option<IpAddress>,
    psrc: Option<Source>,
    e: Seq<crate::rib::Path>,
    i: int,
)
    requires
        0 <= i <= e.len(),
    ensures
        (shown_count(ty, peer, psrc, e, i) > 0) == (exists|j: int|
            0 <= j < i && view_shows(ty, peer, psrc, #[trigger] e[j])),
    decreases i,
{
    lemma_shown_count_nonneg(ty, peer, psrc, e, i);
    if i > 0 {
        lemma_shown_count_pos(ty, peer, psrc, e, i - 1);
        lemma_shown_count_nonneg(ty, peer, psrc, e, i - 1);
        if view_shows(ty, peer, psrc, e[i - 1]) {
            assert(exists|j: int| 0 <= j < i && view_shows(ty, peer, psrc, #[trigger] e[j])) by {
                assert(view_shows(ty, peer, psrc, e[i - 1]));
            }
        } else {
            if shown_count(ty, peer, psrc, e, i) > 0 {
                let w = choose|j: int|
                    0 <= j < i - 1 && view_shows(ty, peer, psrc, #[trigger] e[j]);
                assert(0 <= w < i && view_shows(ty, peer, psrc, e[w]));
            }
            if exists|j: int| 0 <= j < i && view_shows(ty, peer, psrc, #[trigger] e[j]) {
                let j = choose|j: int| 0 <= j < i && view_shows(ty, peer, psrc, #[trigger] e[j]);
                assert(j < i - 1);
                assert(exists|j2: int|
                    0 <= j2 < i - 1 && view_shows(ty, peer, psrc, #[trigger] e[j2])) by {
                    assert(view_shows(ty, peer, psrc, e[j]));
                }
            }
        }
    }
}

/// Whether a destination is listed: it passes the prefix filter and the
/// view shows at least one of its paths.
pub open spec fn dest_listed(
    ty: TableType,
    peer: Option<IpAddress>,
    psrc: Option<Source>,
    d: crate::rib::Destination,
    prefixes: Seq<IpNet>,
) -> bool {
    passes_prefix_filter(d.net, prefixes) && exists|j: int|
        0 <= j < d.entry@.len() && view_shows(ty, peer, psrc, #[trigger] d.entry@[j])
}

/// The prefixes of the listed destinations, in stored order.
pub open spec fn listed_nets(
    ty: TableType,
    peer: Option<IpAddress>,
    psrc: Option<Source>,
    d: Seq<crate::rib::Destination>,
    prefixes: Seq<IpNet>,
) -> Seq<Nlri>
    decreases d.len(),
{
    if d.len() == 0 {
        Seq::empty()
    } else {
        (if dest_listed(ty, peer, psrc, d[0], prefixes) {
            seq![d[0].net]
        } else {
            Seq::<Nlri>::empty()
        }) + listed_nets(ty, peer, psrc, d.drop_first(), prefixes)
    }
}

proof fn lemma_listed_nets_snoc(
    ty: TableType,
    peer: Option<IpAddress>,
    psrc: Option<Source>,
    d: Seq<crate::rib::Destination>,
    x: crate::rib::Destination,
    prefixes: Seq<IpNet>,
)
    ensures
        listed_nets(ty, peer, psrc, d.push(x), prefixes) == listed_nets(
            ty,
            peer,
            psrc,
            d,
            prefixes,
        ) + (if dest_listed(ty, peer, psrc, x, prefixes) {
            seq![x.net]
        } else {
            Seq::<Nlri>::empty()
        }),
    decreases d.len(),
{
    let q = d.push(x);
    if d.len() == 0 {
        assert(q[0] == x);
        assert(q.drop_first() =~= Seq::<crate::rib::Destination>::empty());
        assert(listed_nets(ty, peer, psrc, q, prefixes) == (if dest_listed(
            ty,
            peer,
            psrc,
            x,
            prefixes,
        ) {
            seq![x.net]
        } else {
            Seq::<Nlri>::empty()
        }) + listed_nets(ty, peer, psrc, q.drop_first(), prefixes));
        assert(listed_nets(ty, peer, psrc, q.drop_first(), prefixes) == Seq::<Nlri>::empty());
        assert(listed_nets(ty, peer, psrc, d, prefixes) == Seq::<Nlri>::empty());
        assert(listed_nets(ty, peer, psrc, q, prefixes) =~= listed_nets(
            ty,
            peer,
            psrc,
            d,
            prefixes,
        ) + (if dest_listed(ty, peer, psrc, x, prefixes) {
            seq![x.net]
        } else {
            Seq::<Nlri>::empty()
        }));
    } else {
        assert(q[0] == d[0]);
        assert(q.drop_first() =~= d.drop_first().push(x));
        lemma_listed_nets_snoc(ty, peer, psrc, d.drop_first(), x, prefixes);
        assert(listed_nets(ty, peer, psrc, q, prefixes) == (if dest_listed(
            ty,
            peer,
            psrc,
            d[0],
            prefixes,
        ) {
            seq![d[0].net]
        } else {
            Seq::<Nlri>::empty()
        }) + listed_nets(ty, peer, psrc, q.drop_first(), prefixes));
        assert(listed_nets(ty, peer, psrc, d, prefixes) == (if dest_listed(
            ty,
            peer,
            psrc,
            d[0],
            prefixes,
        ) {
            seq![d[0].net]
        } else {
            Seq::<Nlri>::empty()
        }) + listed_nets(ty, peer, psrc, d.drop_first(), prefixes));
        assert(listed_nets(ty, peer, psrc, q, prefixes) =~= listed_nets(
            ty,
            peer,
            psrc,
            d,
            prefixes,
        ) + (if dest_listed(ty, peer, psrc, x, prefixes) {
            seq![x.net]
        } else {
            Seq::<Nlri>::empty()
        }));
    }
}

/// How one shown path appears in the listing: the stored values for the
/// inbound and whole-table views; for the outbound view the nexthop and
/// attributes rewritten for the peer, sorted by type code.
pub open spec fn path_view_ok(
    ty: TableType,
    psrc: Option<Source>,
    net: Nlri,
    p: crate::rib::Path,
    lp: ListedPath,
) -> bool {
    &&& lp.source_addr == p.source.address
    &&& (match (ty, psrc) {
        (TableType::AdjOut, Some(my)) => {
            &&& lp.nexthop == (if my.ibgp {
                p.nexthop
            } else {
                my.local_addr
            })
            &&& crate::rewrite::sorted_by_code(lp.attrs.entry@)
            &&& exists|kept: Seq<Attribute>, ap: Seq<Attribute>|
                {
                    &&& crate::attr::attrs_eq(
                        kept,
                        crate::rewrite::spec_kept(p.attrs.entry@, my.ibgp),
                    )
                    &&& crate::rewrite::appended_rel(
                        p.attrs.entry@,
                        my.ibgp,
                        !net.is_v4(),
                        my.local_as,
                        net,
                        p.nexthop,
                        my.local_addr,
                        ap,
                    )
                    &&& lp.attrs.entry@.to_multiset() == #[trigger] (kept + ap).to_multiset()
                }
        }
        _ => {
            &&& lp.nexthop == p.nexthop
            &&& pattr_eq(p.attrs, lp.attrs)
        }
    })
}

/// Lists the destinations of one family from the requested view, in
/// stored order: exactly those that pass the prefix filter and have a
/// path the view shows, each once, with its shown paths in stored order
/// and the first marked best. For `AdjIn` and `AdjOut` a peer address is
/// required; `Local` and `Vrf` are not implemented.
#[verifier::rlimit(100)]
pub fn list_path(
    table: &Table,
    table_type: TableType,
    family: Family,
    prefixes: &Vec<IpNet>,
    peer: Option<IpAddress>,
) -> (r: Result<Vec<ListedDestination>, ApiError>)
    requires
        table.wf(),
        forall|k: int| 0 <= k < prefixes@.len() ==> (#[trigger] prefixes@[k]).wf(),
    ensures
        (table_type == TableType::Local || table_type == TableType::Vrf) ==> r == Err::<
            Vec<ListedDestination>,
            ApiError,
        >(ApiError::Unimplemented),
        ((table_type == TableType::AdjIn || table_type == TableType::AdjOut) && peer is None)
            ==> r == Err::<Vec<ListedDestination>, ApiError>(ApiError::InvalidArgument),
        match r {
            Ok(ds) => {
                let psrc = view_source(*table, table_type, peer);
                &&& ds@.map_values(|d: ListedDestination| d.net) == (if table.has_fam(family) {
                    listed_nets(
                        table_type,
                        peer,
                        psrc,
                        table.master@[table.fam_idx(family)].dests@,
                        prefixes@,
                    )
                } else {
                    Seq::<Nlri>::empty()
                })
                &&& forall|k: int|
                    0 <= k < ds@.len() ==> {
                        let dd = #[trigger] ds@[k];
                        &&& table_has_dest(*table, family, dd.net)
                        &&& passes_prefix_filter(dd.net, prefixes@)
                        &&& {
                            let e = table_entry(*table, family, dd.net);
                            &&& dd.paths@.len() == shown_count(
                                table_type,
                                peer,
                                psrc,
                                e,
                                e.len() as int,
                            )
                            &&& dd.paths@.len() > 0
                            &&& dd.paths@[0].best == true
                            &&& forall|j: int|
                                0 < j < dd.paths@.len() ==> (#[trigger] dd.paths@[j]).best
                                    == false
                            &&& forall|j: int|
                                0 <= j < e.len() && view_shows(
                                    table_type,
                                    peer,
                                    psrc,
                                    #[trigger] e[j],
                                ) ==> path_view_ok(
                                    table_type,
                                    psrc,
                                    dd.net,
                                    e[j],
                                    dd.paths@[shown_count(table_type, peer, psrc, e, j)],
                                )
                        }
                    }
            }
            Err(_) => true,
        },
{
    match table_type {
        TableType::Local | TableType::Vrf => {
            return Err(ApiError::Unimplemented);
        }
        TableType::AdjIn | TableType::AdjOut => {
            if peer.is_none() {
                return Err(ApiError::InvalidArgument);
            }
        }
        _ => {}
    }
    // the peer's fan-out registration, for the outbound view
    let peer_entry: Option<Source> = match (table_type, peer) {
        (TableType::AdjOut, Some(a)) => {
            let n = table.active_peers.len();
            let mut i: usize = 0;
            let mut found: Option<Source> = None;
            while found.is_none() && i < n
                invariant
                    i <= n,
                    n == table.active_peers@.len(),
                    table.wf(),
                    match found {
                        Some(s) => table.has_peer(a) && s == table.active_peers@[table.peer_idx(
                            a,
                        )].source,
                        None => forall|j: int|
                            0 <= j < i ==> (#[trigger] table.active_peers@[j]).address != a,
                    },
                decreases n - i, (if found.is_none() {
                    1int
                } else {
                    0int
                }),
            {
                if table.active_peers[i].address == a {
                    proof {
                        assert(table.active_peers@[i as int].address == a);
                        assert(table.has_peer(a));
                        let ci = table.peer_idx(a);
                        if ci < i as int {
                            assert(table.active_peers@[ci].address
                                != table.active_peers@[i as int].address);
                        } else if ci > i as int {
                            assert(table.active_peers@[i as int].address
                                != table.active_peers@[ci].address);
                        }
                        assert(ci == i as int);
                    }
                    found = Some(table.active_peers[i].source);
                }
                i = i + 1;
            }
            proof {
                if found is None {
                    if table.has_peer(a) {
                        let ci = table.peer_idx(a);
                        assert(table.active_peers@[ci].address == a);
                    }
                }
            }
            found
        }
        _ => None,
    };
    let ghost psrc = view_source(*table, table_type, peer);
    proof {
        assert(peer_entry == psrc);
    }
    let mut out: Vec<ListedDestination> = Vec::new();
    let fam_found = {
        let nf = table.master.len();
        let mut fi: usize = 0;
        let mut found: Option<usize> = None;
        while found.is_none() && fi < nf
            invariant
                fi <= nf,
                nf == table.master@.len(),
                match found {
                    Some(k) => k < nf && table.master@[k as int].family == family,
                    None => forall|j: int|
                        0 <= j < fi ==> (#[trigger] table.master@[j]).family != family,
                },
            decreases nf - fi, (if found.is_none() {
                1int
            } else {
                0int
            }),
        {
            if table.master[fi].family == family {
                found = Some(fi);
            }
            fi = fi + 1;
        }
        found
    };
    let fi = match fam_found {
        Some(fi) => fi,
        None => {
            proof {
                assert(!table.has_fam(family));
            }
            return Ok(out);
        }
    };
    proof {
        assert(table.has_fam(family));
        lemma_fam_idx(*table, family);
        assert(table.fam_idx(family) == fi as int);
        assert(table.master@[fi as int].wf());
        assert(out@.map_values(|d: ListedDestination| d.net) =~= listed_nets(
            table_type,
            peer,
            psrc,
            table.master@[fi as int].dests@.take(0),
            prefixes@,
        ));
    }
    let nd = table.master[fi].dests.len();
    let mut di: usize = 0;
    while di < nd
        invariant
            di <= nd,
            fi < table.master@.len(),
            nd == table.master@[fi as int].dests@.len(),
            table.wf(),
            table.master@[fi as int].family == family,
            table.fam_idx(family) == fi as int,
            peer_entry == psrc,
            psrc == view_source(*table, table_type, peer),
            (table_type == TableType::AdjIn || table_type == TableType::AdjOut) ==> peer
                is Some,
            forall|k: int| 0 <= k < prefixes@.len() ==> (#[trigger] prefixes@[k]).wf(),
            out@.map_values(|d: ListedDestination| d.net) == listed_nets(
                table_type,
                peer,
                psrc,
                table.master@[fi as int].dests@.take(di as int),
                prefixes@,
            ),
            forall|k: int|
                0 <= k < out@.len() ==> {
                    let dd = #[trigger] out@[k];
                    &&& table_has_dest(*table, family, dd.net)
                    &&& passes_prefix_filter(dd.net, prefixes@)
                    &&& {
                        let e = table_entry(*table, family, dd.net);
                        &&& dd.paths@.len() == shown_count(
                            table_type,
                            peer,
                            psrc,
                            e,
                            e.len() as int,
                        )
                        &&& dd.paths@.len() > 0
                        &&& dd.paths@[0].best == true
                        &&& forall|j: int|
                            0 < j < dd.paths@.len() ==> (#[trigger] dd.paths@[j]).best == false
                        &&& forall|j: int|
                            0 <= j < e.len() && view_shows(
                                table_type,
                                peer,
                                psrc,
                                #[trigger] e[j],
                            ) ==> path_view_ok(
                                table_type,
                                psrc,
                                dd.net,
                                e[j],
                                dd.paths@[shown_count(table_type, peer, psrc, e, j)],
                            )
                    }
                },
        decreases nd - di,
    {
        let dest = &table.master[fi].dests[di];
        proof {
            assert(has_dst(table.master@[fi as int].dests@, dest.net));
            lemma_dst_idx(table.master@[fi as int].dests@, dest.net);
            assert(table_has_dest(*table, family, dest.net));
            assert(table_entry(*table, family, dest.net)
                == table.master@[fi as int].dests@[di as int].entry@);
            assert(table.master@[fi as int].dests@[di as int].wf());
            let d = table.master@[fi as int].dests@;
            assert(d.take(di + 1) =~= d.take(di as int).push(d[di as int]));
            lemma_listed_nets_snoc(
                table_type,
                peer,
                psrc,
                d.take(di as int),
                d[di as int],
                prefixes@,
            );
        }
        // the prefix filter
        let mut passes = prefixes.len() == 0;
        let np = prefixes.len();
        let mut pk: usize = 0;
        while !passes && pk < np
            invariant
                pk <= np,
                np == prefixes@.len(),
                di < nd,
                fi < table.master@.len(),
                nd == table.master@[fi as int].dests@.len(),
                dest == &table.master@[fi as int].dests@[di as int],
                passes ==> passes_prefix_filter(dest.net, prefixes@),
                !passes ==> np > 0 && forall|k: int|
                    0 <= k < pk ==> #[trigger] prefixes@[k] != dest.net.spec_net(),
            decreases np - pk, (if passes {
                0int
            } else {
                1int
            }),
        {
            let matched = match dest.net {
                Nlri::Ip(n) => {
                    let p = prefixes[pk];
                    p == n
                }
            };
            if matched {
                proof {
                    assert(prefixes@[pk as int] == dest.net.spec_net());
                }
                passes = true;
            }
            pk = pk + 1;
        }
        proof {
            assert(passes == passes_prefix_filter(dest.net, prefixes@));
        }
        if passes {
            let ghost e = dest.entry@;
            let mut paths: Vec<ListedPath> = Vec::new();
            let ne = dest.entry.len();
            let mut ei: usize = 0;
            while ei < ne
                invariant
                    ei <= ne,
                    di < nd,
                    fi < table.master@.len(),
                    nd == table.master@[fi as int].dests@.len(),
                    dest == &table.master@[fi as int].dests@[di as int],
                    ne == e.len(),
                    e == dest.entry@,
                    table.master@[fi as int].dests@[di as int].wf(),
                    peer_entry == psrc,
                    (table_type == TableType::AdjIn || table_type == TableType::AdjOut) ==> peer
                        is Some,
                    paths@.len() == shown_count(table_type, peer, psrc, e, ei as int),
                    forall|j: int|
                        0 <= j < paths@.len() ==> (#[trigger] paths@[j]).best == (j == 0),
                    forall|j: int|
                        0 <= j < ei && view_shows(table_type, peer, psrc, #[trigger] e[j])
                            ==> path_view_ok(
                            table_type,
                            psrc,
                            dest.net,
                            e[j],
                            paths@[shown_count(table_type, peer, psrc, e, j)],
                        ),
                decreases ne - ei,
            {
                let ghost p0 = paths@;
                let p = &dest.entry[ei];
                let shown = match table_type {
                    TableType::AdjIn => {
                        match peer {
                            Some(a) => p.source.address == a,
                            None => false,
                        }
                    }
                    TableType::AdjOut => {
                        match (&peer_entry, peer) {
                            (Some(s), Some(a)) => !(s.ibgp && p.source.ibgp)
                                && !(p.source.address == a),
                            _ => false,
                        }
                    }
                    _ => true,
                };
                proof {
                    assert(shown == view_shows(table_type, peer, psrc, e[ei as int]));
                }
                if shown {
                    let lp = match (table_type, &peer_entry) {
                        (TableType::AdjOut, Some(my)) => {
                            let is_mp = !dest.net.net_is_v4();
                            let (mut kept, mut appended) = crate::rewrite::update_attrs(
                                my.ibgp,
                                is_mp,
                                my.local_as,
                                dest.net,
                                p.nexthop,
                                my.local_addr,
                                &p.attrs.entry,
                            );
                            let ghost keptv = kept@;
                            let ghost apv = appended@;
                            kept.append(&mut appended);
                            proof {
                                assert(kept@ == keptv + apv);
                            }
                            let all = crate::rewrite::sort_by_code(kept);
                            ListedPath {
                                source_addr: p.source.address,
                                nexthop: if my.ibgp {
                                    p.nexthop
                                } else {
                                    my.local_addr
                                },
                                attrs: PathAttr { entry: all },
                                best: paths.len() == 0,
                            }
                        }
                        _ => ListedPath {
                            source_addr: p.source.address,
                            nexthop: p.nexthop,
                            attrs: p.attrs.duplicate(),
                            best: paths.len() == 0,
                        },
                    };
                    proof {
                        assert(path_view_ok(table_type, psrc, dest.net, e[ei as int], lp));
                        lemma_shown_count_nonneg(table_type, peer, psrc, e, ei as int);
                    }
                    paths.push(lp);
                    proof {
                        assert forall|j: int|
                            0 <= j < ei + 1 && view_shows(
                                table_type,
                                peer,
                                psrc,
                                #[trigger] e[j],
                            ) implies path_view_ok(
                            table_type,
                            psrc,
                            dest.net,
                            e[j],
                            paths@[shown_count(table_type, peer, psrc, e, j)],
                        ) by {
                            if j < ei as int {
                                lemma_shown_count_mono(table_type, peer, psrc, e, j, ei as int);
                                lemma_shown_count_nonneg(table_type, peer, psrc, e, j);
                                assert(paths@[shown_count(table_type, peer, psrc, e, j)]
                                    == p0[shown_count(table_type, peer, psrc, e, j)]);
                            }
                        }
                    }
                }
                ei = ei + 1;
            }
            if paths.len() > 0 {
                proof {
                    lemma_shown_count_pos(table_type, peer, psrc, e, ne as int);
                    assert(dest_listed(
                        table_type,
                        peer,
                        psrc,
                        table.master@[fi as int].dests@[di as int],
                        prefixes@,
                    ));
                }
                let ghost outprev = out@;
                out.push(ListedDestination { net: dest.net, paths });
                proof {
                    assert(out@.map_values(|d: ListedDestination| d.net)
                        =~= outprev.map_values(|d: ListedDestination| d.net).push(dest.net));
                    assert(out@.map_values(|d: ListedDestination| d.net) =~= listed_nets(
                        table_type,
                        peer,
                        psrc,
                        table.master@[fi as int].dests@.take(di + 1),
                        prefixes@,
                    ));
                }
            } else {
                proof {
                    lemma_shown_count_pos(table_type, peer, psrc, e, ne as int);
                    assert(!dest_listed(
                        table_type,
                        peer,
                        psrc,
                        table.master@[fi as int].dests@[di as int],
                        prefixes@,
                    ));
                    assert(out@.map_values(|d: ListedDestination| d.net) =~= listed_nets(
                        table_type,
                        peer,
                        psrc,
                        table.master@[fi as int].dests@.take(di + 1),
                        prefixes@,
                    ));
                }
            }
        } else {
            proof {
                assert(!dest_listed(
                    table_type,
                    peer,
                    psrc,
                    table.master@[fi as int].dests@[di as int],
                    prefixes@,
                ));
                assert(out@.map_values(|d: ListedDestination| d.net) =~= listed_nets(
                    table_type,
                    peer,
                    psrc,
                    table.master@[fi as int].dests@.take(di + 1),
                    prefixes@,
                ));
            }
        }
        di = di + 1;
    }
    proof {
        assert(table.master@[fi as int].dests@.take(nd as int)
            =~= table.master@[fi as int].dests@);
    }
    Ok(out)
}


/// Tears a session down: the peer stops receiving fan-out, every path it
/// announced leaves the table (the returned updates are fanned out to the
/// others), and its record is removed when the peer was dynamic, or reset
/// to `Idle` otherwise. The second component asks the caller to queue a
/// reconnection attempt (a configured, non-passive peer).
pub fn teardown(
    global: &mut Global,
    table: &mut Table,
    addr: IpAddress,
    source: Source,
    is_dynamic: bool,
    now: u64,
) -> (r: (Vec<TableUpdate>, bool))
    requires
        old(global).wf(),
        old(table).wf(),
    ensures
        final(global).wf(),
        final(table).wf(),
        !final(table).has_peer(addr),
        final(table).local_source == old(table).local_source,
        final(table).disable_best_path_selection == old(table).disable_best_path_selection,
        crate::rib::same_families(*old(table), *final(table)),
        forall|f: Family, n: Nlri| #![trigger table_has_dest(*old(table), f, n)]
            table_has_dest(*old(table), f, n) ==> crate::rib::clear_net_rel(
                *old(table),
                f,
                n,
                source.address,
                *final(table),
            ),
        forall|f: Family, n: Nlri| #![trigger table_has_dest(*final(table), f, n)]
            table_has_dest(*final(table), f, n) ==> table_has_dest(*old(table), f, n),
        forall|k: int|
            0 <= k < r.0@.len() ==> crate::rib::clear_update_ok(
                *old(table),
                source,
                #[trigger] r.0@[k],
            ),
        is_dynamic ==> !final(global).has_peer_at(addr) && r.1 == false,
        (!is_dynamic && !old(global).has_peer_at(addr)) ==> final(global).peers@ == old(
            global,
        ).peers@ && r.1 == false,
        (!is_dynamic && old(global).has_peer_at(addr)) ==> {
            let i = old(global).peer_at(addr);
            let p0 = old(global).peers@[i];
            &&& final(global).peers@.len() == old(global).peers@.len()
            &&& forall|k: int|
                0 <= k < old(global).peers@.len() && k != i ==> #[trigger] final(global).peers@[k] == old(global).peers@[k]
            &&& final(global).peers@[i].state == crate::peer::State::Idle
            &&& final(global).peers@[i].downtime == now
            &&& final(global).peers@[i].accepted@.len() == 0
            &&& final(global).peers@[i].remote_cap@.len() == 0
            &&& final(global).peers@[i].address == p0.address
            &&& final(global).peers@[i].passive == p0.passive
            &&& r.1 == !p0.passive
        },
        final(global).peer_group@ == old(global).peer_group@,
        final(global).as_number == old(global).as_number,
        final(global).id == old(global).id,
{
    let ghost t0 = *old(table);
    table.deactivate_peer(addr);
    let ghost tmid = *table;
    let ups = table.clear(source);
    proof {
        let t2 = *table;
        assert(tmid.master@ == t0.master@);
        assert(crate::rib::same_families(t0, t2)) by {
            assert forall|k: int|
                0 <= k < t0.master@.len() implies (#[trigger] t2.master@[k]).family == (
            #[trigger] t0.master@[k]).family by {
                assert(tmid.master@[k].family == t0.master@[k].family);
            }
        }
        assert forall|f: Family, n: Nlri| #![trigger table_has_dest(t0, f, n)]
            table_has_dest(t0, f, n) implies crate::rib::clear_net_rel(
            t0,
            f,
            n,
            source.address,
            t2,
        ) by {
            crate::rib::lemma_same_master(t0, tmid, f, n);
            assert(table_has_dest(tmid, f, n));
            assert(crate::rib::clear_net_rel(tmid, f, n, source.address, t2));
            assert(table_entry(tmid, f, n) == table_entry(t0, f, n));
        }
        assert forall|f: Family, n: Nlri| #![trigger table_has_dest(t2, f, n)]
            table_has_dest(t2, f, n) implies table_has_dest(t0, f, n) by {
            assert(table_has_dest(tmid, f, n));
            crate::rib::lemma_same_master(t0, tmid, f, n);
        }
        assert forall|k: int|
            0 <= k < ups@.len() implies crate::rib::clear_update_ok(
            t0,
            source,
            #[trigger] ups@[k],
        ) by {
            assert(crate::rib::clear_update_ok(tmid, source, ups@[k]));
            match ups@[k] {
                TableUpdate::Withdrawn(n, _) => {
                    let f = choose|f: Family|
                        {
                            &&& #[trigger] table_has_dest(tmid, f, n)
                            &&& crate::rib::has_source(table_entry(tmid, f, n), source.address)
                            &&& table_entry(tmid, f, n).len() == 1
                        };
                    crate::rib::lemma_same_master(t0, tmid, f, n);
                    assert(table_has_dest(t0, f, n));
                }
                TableUpdate::NewBest(n, _, _, _) => {
                    let f = choose|f: Family|
                        {
                            &&& #[trigger] table_has_dest(tmid, f, n)
                            &&& crate::rib::has_source(table_entry(tmid, f, n), source.address)
                            &&& table_entry(tmid, f, n).len() > 1
                            &&& crate::rib::first_source_idx(
                                table_entry(tmid, f, n),
                                source.address,
                            ) == 0
                            &&& ups@[k] matches TableUpdate::NewBest(n2, nh2, a2, s2) && n2 == n
                                && nh2 == table_entry(tmid, f, n).remove(0)[0].nexthop
                                && pattr_eq(table_entry(tmid, f, n).remove(0)[0].attrs, a2)
                                && s2 == table_entry(tmid, f, n).remove(0)[0].source
                        };
                    crate::rib::lemma_same_master(t0, tmid, f, n);
                    assert(table_has_dest(t0, f, n));
                }
            }
        }
    }
    let mut reconnect = false;
    if is_dynamic {
        global.remove_peer(addr);
    } else {
        let found = global.find_peer(addr);
        if let Some(i) = found {
            let ghost p0 = global.peers@;
            let mut p = Peer::new(addr, 0);
            vstd::pervasive::VecAdditionalExecFns::set_and_swap(&mut global.peers, i, &mut p);
            p.reset(now);
            reconnect = !p.passive;
            let ghost pkept = p;
            vstd::pervasive::VecAdditionalExecFns::set_and_swap(&mut global.peers, i, &mut p);
            proof {
                let p1 = global.peers@;
                assert(p1[i as int] == pkept);
                assert(pkept.address == p0[i as int].address);
                assert forall|x: int, y: int|
                    #![trigger p1[x], p1[y]]
                    0 <= x < y < p1.len() implies p1[x].address != p1[y].address by {
                    if x != i as int {
                        assert(p1[x] == p0[x]);
                    }
                    if y != i as int {
                        assert(p1[y] == p0[y]);
                    }
                }
                assert forall|x: int| 0 <= x < p1.len() implies (#[trigger] p1[x]).wf() by {
                    if x != i as int {
                        assert(p1[x] == p0[x]);
                    }
                }
            }
        }
    }
    (ups, reconnect)
}

/// The number of paths of the destinations from index `i` on.
pub open spec fn paths_from(dests: Seq<crate::rib::Destination>, i: int) -> nat
    decreases dests.len() - i,
{
    if i < 0 || i >= dests.len() {
        0
    } else {
        dests[i].entry@.len() + paths_from(dests, i + 1)
    }
}

/// The table counts of one family: destinations and total paths.
pub fn get_table(table: &Table, family: Family) -> (r: (u64, u64))
    requires
        table.wf(),
    ensures
        (if table.has_fam(family) {
            let dests = table.master@[table.fam_idx(family)].dests@;
            &&& r.0 == dests.len() || r.0 == u64::MAX
            &&& r.1 == paths_from(dests, 0) || r.1 == u64::MAX
            &&& (dests.len() <= u64::MAX ==> r.0 == dests.len())
            &&& (paths_from(dests, 0) <= u64::MAX ==> r.1 == paths_from(dests, 0))
        } else {
            r == (0u64, 0u64)
        }),
{
    let nf = table.master.len();
    let mut fi: usize = 0;
    while fi < nf
        invariant
            fi <= nf,
            nf == table.master@.len(),
            table.wf(),
            forall|j: int| 0 <= j < fi ==> (#[trigger] table.master@[j]).family != family,
        decreases nf - fi,
    {
        if table.master[fi].family == family {
            proof {
                assert(table.has_fam(family));
                lemma_fam_idx(*table, family);
                assert(table.fam_idx(family) == fi as int);
            }
            let dests = &table.master[fi].dests;
            let nd = dests.len();
            let mut paths: u64 = 0;
            let mut di: usize = 0;
            while di < nd
                invariant
                    di <= nd,
                    fi < nf,
                    nf == table.master@.len(),
                    nd == table.master@[fi as int].dests@.len(),
                    paths + paths_from(table.master@[fi as int].dests@, di as int) <= paths_from(
                        table.master@[fi as int].dests@,
                        0,
                    ),
                    paths != u64::MAX ==> paths + paths_from(
                        table.master@[fi as int].dests@,
                        di as int,
                    ) == paths_from(table.master@[fi as int].dests@, 0),
                decreases nd - di,
            {
                let l = table.master[fi].dests[di].entry.len() as u64;
                proof {
                    assert(paths_from(table.master@[fi as int].dests@, di as int)
                        == table.master@[fi as int].dests@[di as int].entry@.len() + paths_from(
                        table.master@[fi as int].dests@,
                        di + 1,
                    ));
                }
                if l > u64::MAX - paths {
                    paths = u64::MAX;
                } else {
                    paths = paths + l;
                }
                di = di + 1;
            }
            let nr_dst: u64 = if nd as u64 as usize == nd {
                nd as u64
            } else {
                u64::MAX
            };
            return (nr_dst, paths);
        }
        fi = fi + 1;
    }
    (0, 0)
}

} // verus!
