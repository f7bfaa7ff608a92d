use vstd::prelude::*;
use crate::net::IpAddress;
use crate::family::Family;
use crate::attr::{Attribute, Nlri, PathAttr, attrs_eq, spec_as_len, seg_count, as_len_from};
use crate::message::{
    Capability, OpenParam, OpenMessage, UpdateMessage, MpRoute, cap_eq, is_mp_for,
    DEFAULT_HOLDTIME,
};
use crate::peer::{Peer, State, accepted_of};
use crate::rib::{Table, TableUpdate, Source, table_has_dest, table_entry};
use crate::rewrite::{update_attrs, sort_by_code, sorted_by_code, spec_kept, appended_rel};

verus! {

/// Whether `f` occurs in a family list.
pub open spec fn family_in(fs: Seq<Family>, f: Family) -> bool {
    exists|i: int| 0 <= i < fs.len() && #[trigger] fs[i] == f
}

/// Whether some capability announces multiprotocol support for `f`.
pub open spec fn mp_family_in(caps: Seq<Capability>, f: Family) -> bool {
    exists|i: int| 0 <= i < caps.len() && is_mp_for(#[trigger] caps[i], f)
}

/// Equality of capability lists by contents.
pub open spec fn caps_eq(a: Seq<Capability>, b: Seq<Capability>) -> bool {
    a.len() == b.len() && forall|i: int| 0 <= i < a.len() ==> cap_eq(#[trigger] a[i], b[i])
}

/// The capabilities carried by the first `i` OPEN parameters, in order.
pub open spec fn caps_upto(params: Seq<OpenParam>, i: int) -> Seq<Capability>
    decreases i,
{
    if i <= 0 || i > params.len() {
        Seq::empty()
    } else {
        let rest = caps_upto(params, i - 1);
        match params[i - 1] {
            OpenParam::CapabilityParam(c) => rest.push(c),
            _ => rest,
        }
    }
}

pub open spec fn spec_caps_of(params: Seq<OpenParam>) -> Seq<Capability> {
    caps_upto(params, params.len() as int)
}

/// The verified state of one peer session: its machine state, keepalive
/// period and the negotiated families. The socket, timer and channel live
/// with the caller.
pub struct Session {
    pub state: State,
    pub keepalive_interval: u64,
    pub families: Vec<Family>,
}

impl Session {
    pub open spec fn wf(self) -> bool {
        forall|i: int, j: int| #![trigger self.families@[i], self.families@[j]]
            0 <= i < j < self.families@.len() ==> self.families@[i] != self.families@[j]
    }

    /// A session that has just sent its OPEN: the keepalive period starts
    /// at a third of the default hold time.
    pub fn new() -> (r: Session)
        ensures
            r.state == State::OpenSent,
            r.keepalive_interval == DEFAULT_HOLDTIME as u64 / 3,
            r.families@.len() == 0,
            r.wf(),
    {
        Session {
            state: State::OpenSent,
            keepalive_interval: (DEFAULT_HOLDTIME as u64) / 3,
            families: Vec::new(),
        }
    }

    pub open spec fn family_enabled(self, is_mp: bool) -> bool {
        if is_mp {
            family_in(self.families@, Family::Ipv6Uc)
        } else {
            family_in(self.families@, Family::Ipv4Uc)
        }
    }

    /// Whether updates of this kind go to the peer: the matching family
    /// must have been negotiated.
    pub fn is_family_enabled(&self, is_mp: bool) -> (r: bool)
        ensures
            r == self.family_enabled(is_mp),
    {
        let f = if is_mp {
            Family::Ipv6Uc
        } else {
            Family::Ipv4Uc
        };
        vec_has_family(&self.families, f)
    }
}

fn vec_has_family(v: &Vec<Family>, f: Family) -> (r: bool)
    ensures
        r == family_in(v@, f),
{
    let mut i: usize = 0;
    while i < v.len()
        invariant
            i <= v@.len(),
            forall|j: int| 0 <= j < i ==> #[trigger] v@[j] != f,
        decreases v@.len() - i,
    {
        if v[i] == f {
            return true;
        }
        i = i + 1;
    }
    false
}

fn caps_have_mp(caps: &Vec<Capability>, f: Family) -> (r: bool)
    ensures
        r == mp_family_in(caps@, f),
{
    let mut i: usize = 0;
    while i < caps.len()
        invariant
            i <= caps@.len(),
            forall|j: int| 0 <= j < i ==> !is_mp_for(#[trigger] caps@[j], f),
        decreases caps@.len() - i,
    {
        if let Capability::MultiProtocol { family } = &caps[i] {
            if *family == f {
                proof {
                    assert(is_mp_for(caps@[i as int], f));
                }
                return true;
            }
        }
        i = i + 1;
    }
    false
}

/// What the session decides on an incoming OPEN.
#[derive(Clone, Copy, PartialEq, Eq, Structural, Debug)]
pub enum OpenOutcome {
    /// The advertised AS contradicts the configured one: a
    /// `OpenMessageBadPeerAs` NOTIFICATION goes out and the session ends.
    BadPeerAs,
    /// The OPEN is taken: a KEEPALIVE goes out and the hold timer is
    /// rescheduled to the (possibly shrunk) keepalive period.
    Accepted,
}

/// Takes an incoming OPEN: records the router id; rejects a wrong AS;
/// otherwise stores the peer's capabilities, negotiates the family set,
/// shrinks the keepalive period to a third of the advertised hold time if
/// smaller, and moves to `OpenConfirm`.
pub fn handle_open(peer: &mut Peer, session: &mut Session, open: &OpenMessage) -> (r: OpenOutcome)
    requires
        old(peer).wf(),
        old(session).wf(),
    ensures
        final(peer).wf(),
        final(session).wf(),
        final(peer).router_id == open.router_id,
        (if old(peer).remote_as != 0 && old(peer).remote_as != open.spec_as_number() {
            &&& r == OpenOutcome::BadPeerAs
            &&& final(peer).state == State::Idle
            &&& *final(session) == *old(session)
            &&& *final(peer) == (Peer {
                router_id: open.router_id,
                state: State::Idle,
                ..*old(peer)
            })
        } else {
            &&& r == OpenOutcome::Accepted
            &&& final(peer).remote_as == open.spec_as_number()
            &&& caps_eq(final(peer).remote_cap@, spec_caps_of(open.params@))
            &&& final(peer).state == State::OpenConfirm
            &&& final(session).state == State::OpenConfirm
            &&& final(session).keepalive_interval == (if (open.holdtime as u64) / 3 < old(
                session,
            ).keepalive_interval {
                (open.holdtime as u64) / 3
            } else {
                old(session).keepalive_interval
            })
            &&& (forall|f: Family|
                #[trigger] family_in(final(session).families@, f) <==> (mp_family_in(
                    old(peer).local_cap@,
                    f,
                ) && mp_family_in(final(peer).remote_cap@, f)))
            &&& *final(peer) == (Peer {
                router_id: open.router_id,
                remote_as: final(peer).remote_as,
                remote_cap: final(peer).remote_cap,
                state: State::OpenConfirm,
                ..*old(peer)
            })
        }),
{
    peer.router_id = open.router_id;
    let remote_as = open.get_as_number();
    if peer.remote_as != 0 && peer.remote_as != remote_as {
        peer.state = State::Idle;
        return OpenOutcome::BadPeerAs;
    }
    peer.remote_as = remote_as;
    // collect the peer's capabilities
    let mut rcap: Vec<Capability> = Vec::new();
    let np = open.params.len();
    let mut i: usize = 0;
    while i < np
        invariant
            i <= np,
            np == open.params@.len(),
            caps_eq(rcap@, caps_upto(open.params@, i as int)),
        decreases np - i,
    {
        if let OpenParam::CapabilityParam(c) = &open.params[i] {
            rcap.push(c.duplicate());
        }
        i = i + 1;
    }
    peer.remote_cap = rcap;
    // negotiate the family set
    let mut fams: Vec<Family> = Vec::new();
    let nl = peer.local_cap.len();
    let mut i: usize = 0;
    while i < nl
        invariant
            i <= nl,
            nl == peer.local_cap@.len(),
            forall|p: int, q: int| #![trigger fams@[p], fams@[q]]
                0 <= p < q < fams@.len() ==> fams@[p] != fams@[q],
            forall|f: Family|
                #[trigger] family_in(fams@, f) <==> (mp_in_prefix(peer.local_cap@, i as int, f)
                    && mp_family_in(peer.remote_cap@, f)),
        decreases nl - i,
    {
        let ghost fams0 = fams@;
        if let Capability::MultiProtocol { family } = &peer.local_cap[i] {
            let f = *family;
            proof {
                assert(is_mp_for(peer.local_cap@[i as int], f));
            }
            if caps_have_mp(&peer.remote_cap, f) && !vec_has_family(&fams, f) {
                fams.push(f);
                proof {
                    assert(fams@ == fams0.push(f));
                    assert(family_in(fams@, f)) by {
                        assert(fams@[fams0.len() as int] == f);
                    }
                    assert forall|f2: Family| #[trigger]
                        family_in(fams@, f2) implies (mp_in_prefix(
                        peer.local_cap@,
                        i + 1,
                        f2,
                    ) && mp_family_in(peer.remote_cap@, f2)) by {
                        let w = choose|w: int| 0 <= w < fams@.len() && fams@[w] == f2;
                        if w < fams0.len() {
                            assert(family_in(fams0, f2)) by {
                                assert(fams0[w] == f2);
                            }
                            assert(mp_in_prefix(peer.local_cap@, i as int, f2));
                            lemma_mp_prefix_grow(peer.local_cap@, i as int, f2);
                        } else {
                            assert(f2 == f);
                            assert(is_mp_for(peer.local_cap@[i as int], f2));
                        }
                    }
                    assert forall|f2: Family|
                        (mp_in_prefix(peer.local_cap@, i + 1, f2) && mp_family_in(
                            peer.remote_cap@,
                            f2,
                        )) implies #[trigger] family_in(fams@, f2) by {
                        let w = choose|w: int|
                            0 <= w < i + 1 && is_mp_for(#[trigger] peer.local_cap@[w], f2);
                        if w < i as int {
                            assert(mp_in_prefix(peer.local_cap@, i as int, f2));
                            assert(family_in(fams0, f2));
                            let v = choose|v: int| 0 <= v < fams0.len() && fams0[v] == f2;
                            assert(fams@[v] == f2);
                        } else {
                            assert(f2 == f);
                            assert(fams@[fams0.len() as int] == f2);
                        }
                    }
                }
            } else {
                proof {
                    lemma_mp_prefix_step(peer.local_cap@, i as int, fams@, peer.remote_cap@);
                }
            }
        } else {
            proof {
                assert forall|f2: Family|
                    mp_in_prefix(peer.local_cap@, i + 1, f2) implies mp_in_prefix(
                    peer.local_cap@,
                    i as int,
                    f2,
                ) by {
                    let w = choose|w: int|
                        0 <= w < i + 1 && is_mp_for(#[trigger] peer.local_cap@[w], f2);
                    assert(w < i as int || !is_mp_for(peer.local_cap@[i as int], f2));
                }
                assert forall|f2: Family|
                    mp_in_prefix(peer.local_cap@, i as int, f2) implies mp_in_prefix(
                    peer.local_cap@,
                    i + 1,
                    f2,
                ) by {
                    lemma_mp_prefix_grow(peer.local_cap@, i as int, f2);
                }
            }
        }
        i = i + 1;
    }
    proof {
        assert forall|f2: Family|
            mp_in_prefix(peer.local_cap@, nl as int, f2) == mp_family_in(
            peer.local_cap@,
            f2,
        ) by {}
    }
    session.families = fams;
    let interval = (open.holdtime as u64) / 3;
    if interval < session.keepalive_interval {
        session.keepalive_interval = interval;
    }
    session.state = State::OpenConfirm;
    peer.state = State::OpenConfirm;
    OpenOutcome::Accepted
}

/// The first KEEPALIVE confirms the session: the peer enters
/// `Established`, its up time is stamped, the session's `Source` is
/// minted (IBGP when the AS numbers agree), the peer starts receiving
/// fan-out, and it is handed the initial snapshot of every negotiated
/// family.
pub fn establish(
    peer: &mut Peer,
    session: &mut Session,
    table: &mut Table,
    addr: IpAddress,
    local_addr: IpAddress,
    now: u64,
) -> (r: (Source, Vec<TableUpdate>))
    requires
        old(peer).wf(),
        old(session).wf(),
        old(table).wf(),
    ensures
        final(peer).wf(),
        final(session).wf(),
        final(table).wf(),
        r.0 == (Source {
            address: addr,
            ibgp: old(peer).local_as == old(peer).remote_as,
            local_as: old(peer).local_as,
            local_addr,
        }),
        *final(peer) == (Peer { state: State::Established, uptime: now, ..*old(peer) }),
        final(session).state == State::Established,
        final(session).keepalive_interval == old(session).keepalive_interval,
        final(session).families@ == old(session).families@,
        final(table).local_source == old(table).local_source,
        final(table).disable_best_path_selection == old(table).disable_best_path_selection,
        final(table).master@ == old(table).master@,
        final(table).has_peer(addr),
        final(table).active_peers@ == (if old(table).has_peer(addr) {
            old(table).active_peers@.remove(old(table).peer_idx(addr))
        } else {
            old(table).active_peers@
        }).push(crate::rib::ActivePeer { address: addr, source: r.0 }),
        old(table).disable_best_path_selection ==> r.1@.len() == 0,
        forall|k: int|
            0 <= k < r.1@.len() ==> crate::rib::dump_item_ok(
                *old(table),
                old(session).families@,
                r.0,
                #[trigger] r.1@[k],
            ),
        !old(table).disable_best_path_selection ==> forall|kf: int, n: Nlri|
            #![trigger table_has_dest(*old(table), old(session).families@[kf], n)]
            0 <= kf < old(session).families@.len() && table_has_dest(
                *old(table),
                old(session).families@[kf],
                n,
            ) ==> crate::rib::has_dump_for(r.1@, n),
{
    let source = Source {
        address: addr,
        ibgp: peer.local_as == peer.remote_as,
        local_as: peer.local_as,
        local_addr,
    };
    peer.state = State::Established;
    peer.uptime = now;
    session.state = State::Established;
    let dump = table.initial_dump(&session.families, source);
    table.activate_peer(addr, source);
    (source, dump)
}

/// Whether the hold-timer tick sends a KEEPALIVE: only an established
/// session is kept alive this way; the timer is rescheduled either way.
pub fn keepalive_due(state: State) -> (r: bool)
    ensures
        r == (state == State::Established),
{
    state == State::Established
}

/// Builds the outbound UPDATE for one table update, or nothing when the
/// update's family was not negotiated. A `NewBest` carries the stored
/// attributes rewritten for this peer (concatenated and sorted by type
/// code); a `Withdrawn` carries the prefix alone, as a withdrawn route
/// for IPv4 and as an `MpUnreach` attribute otherwise.
pub fn build_update(my: Source, session: &Session, update: &TableUpdate) -> (r: Option<
    UpdateMessage,
>)
    ensures
        match update {
            TableUpdate::NewBest(nlri, nexthop, attrs, _) => {
                let is_mp = !nlri.is_v4();
                if !session.family_enabled(is_mp) {
                    r is None
                } else {
                    match r {
                        Some(m) => {
                            &&& m.withdrawns@.len() == 0
                            &&& m.routes@ == (if is_mp {
                                Seq::<Nlri>::empty()
                            } else {
                                seq![*nlri]
                            })
                            &&& sorted_by_code(m.attrs@)
                            &&& exists|kept: Seq<Attribute>, ap: Seq<Attribute>|
                                {
                                    &&& attrs_eq(kept, spec_kept(attrs.entry@, my.ibgp))
                                    &&& appended_rel(
                                        attrs.entry@,
                                        my.ibgp,
                                        is_mp,
                                        my.local_as,
                                        *nlri,
                                        *nexthop,
                                        my.local_addr,
                                        ap,
                                    )
                                    &&& m.attrs@.to_multiset() == #[trigger] (kept
                                        + ap).to_multiset()
                                }
                        }
                        None => false,
                    }
                }
            }
            TableUpdate::Withdrawn(nlri, _) => {
                let is_mp = !nlri.is_v4();
                if !session.family_enabled(is_mp) {
                    r is None
                } else {
                    match r {
                        Some(m) => {
                            &&& m.routes@.len() == 0
                            &&& (if is_mp {
                                &&& m.withdrawns@.len() == 0
                                &&& m.attrs@.len() == 1
                                &&& (match m.attrs@[0] {
                                    Attribute::MpUnreach { family, nlri: l } => family
                                        == Family::Ipv6Uc && l@ == seq![*nlri],
                                    _ => false,
                                })
                            } else {
                                &&& m.withdrawns@ == seq![*nlri]
                                &&& m.attrs@.len() == 0
                            })
                        }
                        None => false,
                    }
                }
            }
        },
{
    match update {
        TableUpdate::NewBest(nlri, nexthop, attrs, _source) => {
            let is_mp = !nlri.net_is_v4();
            if !session.is_family_enabled(is_mp) {
                return None;
            }
            let (mut kept, mut appended) = update_attrs(
                my.ibgp,
                is_mp,
                my.local_as,
                *nlri,
                *nexthop,
                my.local_addr,
                &attrs.entry,
            );
            let ghost keptv = kept@;
            let ghost apv = appended@;
            kept.append(&mut appended);
            proof {
                assert(kept@ == keptv + apv);
            }
            let all = sort_by_code(kept);
            let mut routes: Vec<Nlri> = Vec::new();
            if !is_mp {
                routes.push(*nlri);
                proof {
                    assert(routes@ =~= seq![*nlri]);
                }
            }
            let m = UpdateMessage {
                withdrawns: Vec::new(),
                attrs: all,
                routes,
                nexthop: if my.ibgp {
                    *nexthop
                } else {
                    my.local_addr
                },
                mp_routes: Vec::new(),
            };
            proof {
                assert(m.attrs@.to_multiset() == (keptv + apv).to_multiset());
            }
            Some(m)
        }
        TableUpdate::Withdrawn(nlri, _source) => {
            let is_mp = !nlri.net_is_v4();
            if !session.is_family_enabled(is_mp) {
                return None;
            }
            if is_mp {
                let mut l: Vec<Nlri> = Vec::new();
                l.push(*nlri);
                proof {
                    assert(l@ =~= seq![*nlri]);
                }
                let mut attrs: Vec<Attribute> = Vec::new();
                attrs.push(Attribute::MpUnreach { family: Family::Ipv6Uc, nlri: l });
                Some(UpdateMessage {
                    withdrawns: Vec::new(),
                    attrs,
                    routes: Vec::new(),
                    nexthop: IpAddress::V4(0),
                    mp_routes: Vec::new(),
                })
            } else {
                let mut w: Vec<Nlri> = Vec::new();
                w.push(*nlri);
                proof {
                    assert(w@ =~= seq![*nlri]);
                }
                Some(UpdateMessage {
                    withdrawns: w,
                    attrs: Vec::new(),
                    routes: Vec::new(),
                    nexthop: IpAddress::V4(0),
                    mp_routes: Vec::new(),
                })
            }
        }
    }
}

/// Whether every AS path in the bag stays within the 32-bit counter the
/// selection uses, wherever it stands.
pub fn attrs_within_bounds(v: &Vec<Attribute>) -> (r: bool)
    ensures
        r == crate::attr::all_aspaths_bounded(v@),
{
    let n = v.len();
    let mut i: usize = 0;
    while i < n
        invariant
            i <= n,
            n == v@.len(),
            forall|k: int|
                0 <= k < i ==> match #[trigger] v@[k] {
                    Attribute::AsPath { segments } => seg_count(segments@) <= u32::MAX,
                    _ => true,
                },
        decreases n - i,
    {
        if let Attribute::AsPath { segments } = &v[i] {
            proof {
                assert(v@[i as int] == (Attribute::AsPath { segments: *segments }));
            }
            let m = segments.len();
            let mut acc: u128 = 0;
            let mut j: usize = 0;
            while j < m
                invariant
                    j <= m,
                    m == segments@.len(),
                    acc <= u32::MAX,
                    acc + crate::attr::seg_count_from(segments@, j as int) == seg_count(
                        segments@,
                    ),
                    i < n,
                    n == v@.len(),
                    v@[i as int] == (Attribute::AsPath { segments: *segments }),
                decreases m - j,
            {
                let l = segments[j].as_len();
                if l as u128 > u32::MAX as u128 - acc {
                    proof {
                        assert(crate::attr::seg_count_from(segments@, j as int)
                            >= segments@[j as int].number@.len());
                        assert(seg_count(segments@) > u32::MAX);
                        assert(!crate::attr::all_aspaths_bounded(v@)) by {
                            assert(match v@[i as int] {
                                Attribute::AsPath { segments: s2 } => seg_count(s2@) > u32::MAX,
                                _ => false,
                            });
                        }
                    }
                    return false;
                }
                acc = acc + l as u128;
                j = j + 1;
            }
            proof {
                assert(seg_count(segments@) <= u32::MAX);
            }
        }
        i = i + 1;
    }
    true
}

/// Whether the table holds a path from `a` for `n` in family `f`.
pub open spec fn table_has_source(t: Table, f: Family, n: Nlri, a: IpAddress) -> bool {
    table_has_dest(t, f, n) && crate::rib::has_source(table_entry(t, f, n), a)
}

/// The multiprotocol route groups flattened to `(prefix, nexthop)` pairs,
/// in order.
pub open spec fn mp_flat(mp: Seq<MpRoute>) -> Seq<(Nlri, IpAddress)>
    decreases mp.len(),
{
    if mp.len() == 0 {
        Seq::empty()
    } else {
        mp[0].nlri@.map_values(|x: Nlri| (x, mp[0].nexthop)) + mp_flat(mp.drop_first())
    }
}

pub proof fn lemma_mp_flat_snoc(mp: Seq<MpRoute>, x: MpRoute)
    ensures
        mp_flat(mp.push(x)) == mp_flat(mp) + x.nlri@.map_values(|n: Nlri| (n, x.nexthop)),
    decreases mp.len(),
{
    let q = mp.push(x);
    if mp.len() == 0 {
        assert(q[0] == x);
        assert(q.drop_first() =~= Seq::<MpRoute>::empty());
        assert(mp_flat(q.drop_first()) == Seq::<(Nlri, IpAddress)>::empty());
        assert(mp_flat(q) =~= mp_flat(mp) + x.nlri@.map_values(|n: Nlri| (n, x.nexthop)));
    } else {
        assert(q[0] == mp[0]);
        assert(q.drop_first() =~= mp.drop_first().push(x));
        lemma_mp_flat_snoc(mp.drop_first(), x);
        assert(mp_flat(q) == q[0].nlri@.map_values(|n: Nlri| (n, q[0].nexthop)) + mp_flat(
            q.drop_first(),
        ));
        assert(mp_flat(mp) == mp[0].nlri@.map_values(|n: Nlri| (n, mp[0].nexthop)) + mp_flat(
            mp.drop_first(),
        ));
        assert(mp_flat(q) =~= mp_flat(mp) + x.nlri@.map_values(|n: Nlri| (n, x.nexthop)));
    }
}

/// The total number of multiprotocol prefixes.
pub open spec fn mp_total(mp: Seq<MpRoute>) -> int {
    mp_flat(mp).len() as int
}

/// The prefixes of the flattened pairs.
pub open spec fn flat_nets(fl: Seq<(Nlri, IpAddress)>) -> Seq<Nlri> {
    fl.map_values(|p: (Nlri, IpAddress)| p.0)
}

/// How many of the first `i` prefixes the peer gains a path for: those it
/// had none for, counting a repeated prefix once.
pub open spec fn added_count(t0: Table, f: Family, rs: Seq<Nlri>, a: IpAddress, i: int) -> int
    decreases i,
{
    if i <= 0 || i > rs.len() {
        0
    } else {
        added_count(t0, f, rs, a, i - 1) + (if !table_has_source(t0, f, rs[i - 1], a)
            && !crate::rib::nlri_in(rs.take(i - 1), rs[i - 1]) {
            1int
        } else {
            0int
        })
    }
}

proof fn lemma_added_count_bounds(t0: Table, f: Family, rs: Seq<Nlri>, a: IpAddress, i: int)
    requires
        0 <= i <= rs.len(),
    ensures
        0 <= added_count(t0, f, rs, a, i) <= i,
    decreases i,
{
    if i > 0 {
        lemma_added_count_bounds(t0, f, rs, a, i - 1);
    }
}

/// Whether a prefix was announced by the update's body, in the family its
/// address places it in.
pub open spec fn announced_here(u: UpdateMessage, announced: bool, w: Nlri) -> bool {
    announced && (if w.is_v4() {
        crate::rib::nlri_in(u.routes@, w)
    } else {
        crate::rib::nlri_in(flat_nets(mp_flat(u.mp_routes@)), w)
    })
}

/// Whether the peer holds a path for `w` when its withdrawal is
/// processed: it had one before the update or this update announced one,
/// and no earlier withdrawal of this update took it.
pub open spec fn withdraw_hits(
    t0: Table,
    u: UpdateMessage,
    announced: bool,
    a: IpAddress,
    k: int,
) -> bool {
    let w = u.withdrawns@[k];
    &&& (table_has_source(t0, withdraw_family(w), w, a) || announced_here(u, announced, w))
    &&& !crate::rib::nlri_in(u.withdrawns@.take(k), w)
}

/// How many of the first `i` withdrawals of family `f` remove a path.
pub open spec fn removed_count(
    t0: Table,
    u: UpdateMessage,
    announced: bool,
    a: IpAddress,
    f: Family,
    i: int,
) -> int
    decreases i,
{
    if i <= 0 || i > u.withdrawns@.len() {
        0
    } else {
        removed_count(t0, u, announced, a, f, i - 1) + (if withdraw_family(u.withdrawns@[i - 1])
            == f && withdraw_hits(t0, u, announced, a, i - 1) {
            1int
        } else {
            0int
        })
    }
}

proof fn lemma_removed_count_bounds(
    t0: Table,
    u: UpdateMessage,
    announced: bool,
    a: IpAddress,
    f: Family,
    i: int,
)
    requires
        0 <= i <= u.withdrawns@.len(),
    ensures
        0 <= removed_count(t0, u, announced, a, f, i) <= i,
    decreases i,
{
    if i > 0 {
        lemma_removed_count_bounds(t0, u, announced, a, f, i - 1);
    }
}

/// The per-family change of the accepted counter an UPDATE causes:
/// prefixes gained minus prefixes withdrawn.
pub open spec fn accepted_delta(t0: Table, u: UpdateMessage, a: IpAddress, f: Family) -> int {
    let announced = u.attrs@.len() > 0 && crate::attr::all_aspaths_bounded(u.attrs@);
    (if f == Family::Ipv4Uc && announced {
        added_count(t0, f, u.routes@, a, u.routes@.len() as int)
    } else if f == Family::Ipv6Uc && announced {
        added_count(t0, f, flat_nets(mp_flat(u.mp_routes@)), a, mp_total(u.mp_routes@))
    } else {
        0int
    }) - removed_count(t0, u, announced, a, f, u.withdrawns@.len() as int)
}

/// Whether the update's counts fit the accepted counters' arithmetic; a
/// caller checks this before `apply_update`.
pub fn update_within_counter_limits(u: &UpdateMessage) -> (r: bool)
    ensures
        r == (u.routes@.len() < i64::MAX && u.withdrawns@.len() < i64::MAX && mp_total(
            u.mp_routes@,
        ) < i64::MAX),
{
    if !((u.routes.len() as u128) < i64::MAX as u128) {
        return false;
    }
    if !((u.withdrawns.len() as u128) < i64::MAX as u128) {
        return false;
    }
    let nm = u.mp_routes.len();
    let mut acc: u128 = 0;
    let mut g: usize = 0;
    while g < nm
        invariant
            g <= nm,
            nm == u.mp_routes@.len(),
            acc < i64::MAX as u128,
            acc == mp_total(u.mp_routes@.take(g as int)),
        decreases nm - g,
    {
        proof {
            assert(u.mp_routes@.take(g + 1) =~= u.mp_routes@.take(g as int).push(
                u.mp_routes@[g as int],
            ));
            lemma_mp_flat_snoc(u.mp_routes@.take(g as int), u.mp_routes@[g as int]);
        }
        let l = u.mp_routes[g].nlri.len();
        if l as u128 >= i64::MAX as u128 - acc {
            proof {
                lemma_mp_flat_len_mono(u.mp_routes@, g + 1);
            }
            return false;
        }
        acc = acc + l as u128;
        g = g + 1;
    }
    proof {
        assert(u.mp_routes@.take(nm as int) =~= u.mp_routes@);
    }
    true
}

/// The flattened length grows with the prefix walked.
proof fn lemma_mp_flat_len_mono(mp: Seq<MpRoute>, i: int)
    requires
        0 <= i <= mp.len(),
    ensures
        mp_total(mp.take(i)) <= mp_total(mp),
    decreases mp.len() - i,
{
    if i < mp.len() {
        assert(mp.take(i + 1) =~= mp.take(i).push(mp[i]));
        lemma_mp_flat_snoc(mp.take(i), mp[i]);
        lemma_mp_flat_len_mono(mp, i + 1);
    } else {
        assert(mp.take(i) =~= mp);
    }
}

/// Applies one incoming UPDATE from a peer: its announcements replace the
/// peer's paths in the table (when every AS path in the bag is within
/// bounds), its withdrawals remove them, and each family's accepted
/// counter moves by the number of prefixes gained minus the number
/// withdrawn, clamped at zero. Afterwards every announced prefix that was
/// not also withdrawn holds a path from the peer, and no withdrawn prefix
/// does. Returns the table updates the caller must fan out, in order.
#[verifier::rlimit(100)]
pub fn apply_update(
    table: &mut Table,
    peer: &mut Peer,
    source: Source,
    update: &UpdateMessage,
    now: u64,
) -> (r: Vec<TableUpdate>)
    requires
        old(table).wf(),
        old(peer).wf(),
        update.routes@.len() < i64::MAX,
        update.withdrawns@.len() < i64::MAX,
        mp_total(update.mp_routes@) < i64::MAX,
    ensures
        final(table).wf(),
        final(peer).wf(),
        final(table).local_source == old(table).local_source,
        final(table).disable_best_path_selection == old(table).disable_best_path_selection,
        final(table).active_peers@ == old(table).active_peers@,
        *final(peer) == (Peer { accepted: final(peer).accepted, ..*old(peer) }),
        forall|f: Family|
            f != Family::Ipv4Uc && f != Family::Ipv6Uc ==> #[trigger] accepted_of(
                final(peer).accepted@,
                f,
            ) == accepted_of(old(peer).accepted@, f),
        accepted_of(final(peer).accepted@, Family::Ipv4Uc) == spec_accepted_after(
            accepted_of(old(peer).accepted@, Family::Ipv4Uc),
            accepted_delta(*old(table), *update, source.address, Family::Ipv4Uc),
        ),
        accepted_of(final(peer).accepted@, Family::Ipv6Uc) == spec_accepted_after(
            accepted_of(old(peer).accepted@, Family::Ipv6Uc),
            accepted_delta(*old(table), *update, source.address, Family::Ipv6Uc),
        ),
        (update.attrs@.len() > 0 && crate::attr::all_aspaths_bounded(update.attrs@))
            ==> forall|j: int|
            #![trigger update.routes@[j]]
            0 <= j < update.routes@.len() && !crate::rib::nlri_in(
                update.withdrawns@,
                update.routes@[j],
            ) ==> table_has_dest(*final(table), Family::Ipv4Uc, update.routes@[j])
                && crate::rib::has_source(
                table_entry(*final(table), Family::Ipv4Uc, update.routes@[j]),
                source.address,
            ),
        forall|j: int|
            #![trigger update.withdrawns@[j]]
            0 <= j < update.withdrawns@.len() ==> (table_has_dest(
                *final(table),
                withdraw_family(update.withdrawns@[j]),
                update.withdrawns@[j],
            ) ==> !crate::rib::has_source(
                table_entry(
                    *final(table),
                    withdraw_family(update.withdrawns@[j]),
                    update.withdrawns@[j],
                ),
                source.address,
            )),
{
    let ghost t0 = *old(table);
    let ghost addr = source.address;
    let ghost announced = update.attrs@.len() > 0 && crate::attr::all_aspaths_bounded(
        update.attrs@,
    );
    let mut out: Vec<TableUpdate> = Vec::new();
    let mut accept_v4: i64 = 0;
    let mut accept_v6: i64 = 0;
    let ghost fl = mp_flat(update.mp_routes@);
    if update.attrs.len() > 0 {
        let dup = crate::attr::duplicate_attributes(&update.attrs);
        let ghost dupv = dup@;
        let sorted = sort_by_code(dup);
        let ok = attrs_within_bounds(&sorted);
        proof {
            if crate::attr::all_aspaths_bounded(update.attrs@) {
                crate::attr::lemma_bounded_congruence(update.attrs@, dupv);
                crate::attr::lemma_bounded_multiset(dupv, sorted@);
            }
            if ok {
                crate::attr::lemma_bounded_multiset(sorted@, dupv);
                assert forall|i: int|
                    0 <= i < update.attrs@.len() implies match #[trigger] update.attrs@[i] {
                    Attribute::AsPath { segments } => seg_count(segments@) <= u32::MAX,
                    _ => true,
                } by {
                    assert(crate::attr::attr_eq(update.attrs@[i], dupv[i]));
                    match (update.attrs@[i], dupv[i]) {
                        (
                            Attribute::AsPath { segments: sx },
                            Attribute::AsPath { segments: sy },
                        ) => {
                            crate::attr::lemma_seg_count_congruence(sy@, sx@, 0);
                        }
                        _ => {}
                    }
                }
                assert(announced);
            }
        }
        if ok {
            proof {
                crate::attr::lemma_bounded_as_len(sorted@, 0);
            }
            let nr = update.routes.len();
            let mut i: usize = 0;
            while i < nr
                invariant
                    i <= nr,
                    nr == update.routes@.len(),
                    nr < i64::MAX,
                    addr == source.address,
                    table.wf(),
                    table.local_source == t0.local_source,
                    table.disable_best_path_selection == t0.disable_best_path_selection,
                    table.active_peers@ == t0.active_peers@,
                    spec_as_len(sorted@) <= u32::MAX,
                    crate::attr::all_aspaths_bounded(sorted@),
                    accept_v4 == added_count(t0, Family::Ipv4Uc, update.routes@, addr, i as int),
                    0 <= accept_v4 <= i,
                    forall|n: Nlri|
                        #[trigger] table_has_source(*table, Family::Ipv4Uc, n, addr) == (
                        table_has_source(t0, Family::Ipv4Uc, n, addr) || crate::rib::nlri_in(
                            update.routes@.take(i as int),
                            n,
                        )),
                    forall|n: Nlri|
                        #[trigger] table_has_source(*table, Family::Ipv6Uc, n, addr)
                            == table_has_source(t0, Family::Ipv6Uc, n, addr),
                decreases nr - i,
            {
                let pa = PathAttr { entry: crate::attr::duplicate_attributes(&sorted) };
                proof {
                    crate::attr::lemma_attrs_eq_keys(sorted@, pa.entry@, 0);
                }
                let ghost tc = *table;
                let (u, added) = table.insert(
                    Family::Ipv4Uc,
                    update.routes[i],
                    source,
                    update.nexthop,
                    pa,
                    now,
                );
                let ghost rg = (u, added);
                if let Some(u) = u {
                    out.push(u);
                }
                if added {
                    accept_v4 = accept_v4 + 1;
                }
                proof {
                    let tn = *table;
                    let net = update.routes@[i as int];
                    crate::rib::lemma_insert_keeps_source(
                        if table_has_dest(tc, Family::Ipv4Uc, net) {
                            table_entry(tc, Family::Ipv4Uc, net)
                        } else {
                            Seq::<crate::rib::Path>::empty()
                        },
                        source,
                        update.nexthop,
                        pa,
                        now,
                        tc.disable_best_path_selection,
                    );
                    assert(added == !table_has_source(tc, Family::Ipv4Uc, net, addr));
                    assert(update.routes@.take(i + 1) =~= update.routes@.take(i as int).push(
                        net,
                    ));
                    assert forall|n: Nlri|
                        #[trigger] table_has_source(tn, Family::Ipv4Uc, n, addr) == (
                    table_has_source(t0, Family::Ipv4Uc, n, addr) || crate::rib::nlri_in(
                        update.routes@.take(i + 1),
                        n,
                    )) by {
                        if n == net {
                            assert(table_has_source(tn, Family::Ipv4Uc, n, addr));
                            assert(update.routes@.take(i + 1)[i as int] == n);
                            assert(crate::rib::nlri_in(update.routes@.take(i + 1), n));
                        } else {
                            crate::laws::lemma_insert_frame(
                                tc,
                                Family::Ipv4Uc,
                                net,
                                source,
                                update.nexthop,
                                pa,
                                now,
                                tn,
                                rg,
                                Family::Ipv4Uc,
                                n,
                            );
                            assert(table_has_source(tn, Family::Ipv4Uc, n, addr)
                                == table_has_source(tc, Family::Ipv4Uc, n, addr));
                            assert(crate::rib::nlri_in(update.routes@.take(i + 1), n)
                                == crate::rib::nlri_in(update.routes@.take(i as int), n)) by {
                                if crate::rib::nlri_in(update.routes@.take(i as int), n) {
                                    let w = choose|w: int|
                                        0 <= w < i && #[trigger] update.routes@.take(
                                            i as int,
                                        )[w] == n;
                                    assert(update.routes@.take(i + 1)[w] == n);
                                }
                                if crate::rib::nlri_in(update.routes@.take(i + 1), n) {
                                    let w = choose|w: int|
                                        0 <= w < i + 1 && #[trigger] update.routes@.take(
                                            i + 1,
                                        )[w] == n;
                                    assert(w < i as int);
                                    assert(update.routes@.take(i as int)[w] == n);
                                }
                            }
                        }
                    }
                    assert forall|n: Nlri|
                        #[trigger] table_has_source(tn, Family::Ipv6Uc, n, addr)
                            == table_has_source(t0, Family::Ipv6Uc, n, addr) by {
                        crate::laws::lemma_insert_frame(
                            tc,
                            Family::Ipv4Uc,
                            net,
                            source,
                            update.nexthop,
                            pa,
                            now,
                            tn,
                            rg,
                            Family::Ipv6Uc,
                            n,
                        );
                        assert(table_has_source(tn, Family::Ipv6Uc, n, addr)
                            == table_has_source(tc, Family::Ipv6Uc, n, addr));
                    }
                }
                i = i + 1;
            }
            proof {
                assert(update.routes@.take(nr as int) =~= update.routes@);
            }
            // the multiprotocol groups, flattened to (prefix, nexthop)
            let mut flat: Vec<(Nlri, IpAddress)> = Vec::new();
            let nm = update.mp_routes.len();
            let mut g: usize = 0;
            proof {
                assert(flat@ =~= mp_flat(update.mp_routes@.take(0)));
            }
            while g < nm
                invariant
                    g <= nm,
                    nm == update.mp_routes@.len(),
                    flat@ == mp_flat(update.mp_routes@.take(g as int)),
                decreases nm - g,
            {
                proof {
                    assert(update.mp_routes@.take(g + 1) =~= update.mp_routes@.take(
                        g as int,
                    ).push(update.mp_routes@[g as int]));
                    lemma_mp_flat_snoc(
                        update.mp_routes@.take(g as int),
                        update.mp_routes@[g as int],
                    );
                }
                let nn = update.mp_routes[g].nlri.len();
                let nh6 = update.mp_routes[g].nexthop;
                let mut k: usize = 0;
                while k < nn
                    invariant
                        k <= nn,
                        g < nm,
                        nm == update.mp_routes@.len(),
                        nn == update.mp_routes@[g as int].nlri@.len(),
                        nh6 == update.mp_routes@[g as int].nexthop,
                        flat@ == mp_flat(update.mp_routes@.take(g as int))
                            + update.mp_routes@[g as int].nlri@.map_values(
                            |n: Nlri| (n, update.mp_routes@[g as int].nexthop),
                        ).take(k as int),
                    decreases nn - k,
                {
                    flat.push((update.mp_routes[g].nlri[k], nh6));
                    proof {
                        assert(flat@ =~= mp_flat(update.mp_routes@.take(g as int))
                            + update.mp_routes@[g as int].nlri@.map_values(
                            |n: Nlri| (n, update.mp_routes@[g as int].nexthop),
                        ).take(k + 1));
                    }
                    k = k + 1;
                }
                proof {
                    assert(update.mp_routes@[g as int].nlri@.map_values(
                        |n: Nlri| (n, update.mp_routes@[g as int].nexthop),
                    ).take(nn as int) =~= update.mp_routes@[g as int].nlri@.map_values(
                        |n: Nlri| (n, update.mp_routes@[g as int].nexthop),
                    ));
                    assert(flat@ =~= mp_flat(update.mp_routes@.take(g + 1)));
                }
                g = g + 1;
            }
            proof {
                assert(update.mp_routes@.take(nm as int) =~= update.mp_routes@);
                assert(flat@ == fl);
            }
            let nf = flat.len();
            let mut q: usize = 0;
            while q < nf
                invariant
                    q <= nf,
                    nf == fl.len(),
                    flat@ == fl,
                    fl == mp_flat(update.mp_routes@),
                    nf < i64::MAX,
                    addr == source.address,
                    table.wf(),
                    table.local_source == t0.local_source,
                    table.disable_best_path_selection == t0.disable_best_path_selection,
                    table.active_peers@ == t0.active_peers@,
                    spec_as_len(sorted@) <= u32::MAX,
                    crate::attr::all_aspaths_bounded(sorted@),
                    accept_v6 == added_count(t0, Family::Ipv6Uc, flat_nets(fl), addr, q as int),
                    0 <= accept_v6 <= q,
                    forall|n: Nlri|
                        #[trigger] table_has_source(*table, Family::Ipv4Uc, n, addr) == (
                        table_has_source(t0, Family::Ipv4Uc, n, addr) || crate::rib::nlri_in(
                            update.routes@,
                            n,
                        )),
                    forall|n: Nlri|
                        #[trigger] table_has_source(*table, Family::Ipv6Uc, n, addr) == (
                        table_has_source(t0, Family::Ipv6Uc, n, addr) || crate::rib::nlri_in(
                            flat_nets(fl).take(q as int),
                            n,
                        )),
                decreases nf - q,
            {
                let pa = PathAttr { entry: crate::attr::duplicate_attributes(&sorted) };
                proof {
                    crate::attr::lemma_attrs_eq_keys(sorted@, pa.entry@, 0);
                }
                let ghost tc = *table;
                let (n6, nh) = flat[q];
                proof {
                    assert(flat_nets(fl)[q as int] == n6);
                }
                let (u, added) = table.insert(Family::Ipv6Uc, n6, source, nh, pa, now);
                let ghost rg = (u, added);
                if let Some(u) = u {
                    out.push(u);
                }
                if added {
                    accept_v6 = accept_v6 + 1;
                }
                proof {
                    let tn = *table;
                    crate::rib::lemma_insert_keeps_source(
                        if table_has_dest(tc, Family::Ipv6Uc, n6) {
                            table_entry(tc, Family::Ipv6Uc, n6)
                        } else {
                            Seq::<crate::rib::Path>::empty()
                        },
                        source,
                        nh,
                        pa,
                        now,
                        tc.disable_best_path_selection,
                    );
                    assert(added == !table_has_source(tc, Family::Ipv6Uc, n6, addr));
                    assert(flat_nets(fl).take(q + 1) =~= flat_nets(fl).take(q as int).push(n6));
                    assert forall|n: Nlri|
                        #[trigger] table_has_source(tn, Family::Ipv6Uc, n, addr) == (
                    table_has_source(t0, Family::Ipv6Uc, n, addr) || crate::rib::nlri_in(
                        flat_nets(fl).take(q + 1),
                        n,
                    )) by {
                        if n == n6 {
                            assert(table_has_source(tn, Family::Ipv6Uc, n, addr));
                            assert(flat_nets(fl).take(q + 1)[q as int] == n);
                            assert(crate::rib::nlri_in(flat_nets(fl).take(q + 1), n));
                        } else {
                            crate::laws::lemma_insert_frame(
                                tc,
                                Family::Ipv6Uc,
                                n6,
                                source,
                                nh,
                                pa,
                                now,
                                tn,
                                rg,
                                Family::Ipv6Uc,
                                n,
                            );
                            assert(table_has_source(tn, Family::Ipv6Uc, n, addr)
                                == table_has_source(tc, Family::Ipv6Uc, n, addr));
                            assert(crate::rib::nlri_in(flat_nets(fl).take(q + 1), n)
                                == crate::rib::nlri_in(flat_nets(fl).take(q as int), n)) by {
                                if crate::rib::nlri_in(flat_nets(fl).take(q as int), n) {
                                    let w = choose|w: int|
                                        0 <= w < q && #[trigger] flat_nets(fl).take(
                                            q as int,
                                        )[w] == n;
                                    assert(flat_nets(fl).take(q + 1)[w] == n);
                                }
                                if crate::rib::nlri_in(flat_nets(fl).take(q + 1), n) {
                                    let w = choose|w: int|
                                        0 <= w < q + 1 && #[trigger] flat_nets(fl).take(
                                            q + 1,
                                        )[w] == n;
                                    assert(w < q as int);
                                    assert(flat_nets(fl).take(q as int)[w] == n);
                                }
                            }
                        }
                    }
                    assert forall|n: Nlri|
                        #[trigger] table_has_source(tn, Family::Ipv4Uc, n, addr) == (
                    table_has_source(t0, Family::Ipv4Uc, n, addr) || crate::rib::nlri_in(
                        update.routes@,
                        n,
                    )) by {
                        crate::laws::lemma_insert_frame(
                            tc,
                            Family::Ipv6Uc,
                            n6,
                            source,
                            nh,
                            pa,
                            now,
                            tn,
                            rg,
                            Family::Ipv4Uc,
                            n,
                        );
                        assert(table_has_source(tn, Family::Ipv4Uc, n, addr)
                            == table_has_source(tc, Family::Ipv4Uc, n, addr));
                    }
                }
                q = q + 1;
            }
            proof {
                assert(update.routes@.take(nr as int) =~= update.routes@);
                assert(flat_nets(fl).take(nf as int) =~= flat_nets(fl));
            }
        } else {
            proof {
                assert(!announced);
            }
        }
    }
    proof {
        if !announced {
            assert(accept_v4 == added_count(t0, Family::Ipv4Uc, update.routes@, addr, 0));
            assert(accept_v6 == added_count(t0, Family::Ipv6Uc, flat_nets(fl), addr, 0));
            assert forall|n: Nlri|
                #[trigger] table_has_source(*table, Family::Ipv4Uc, n, addr)
                    == table_has_source(t0, Family::Ipv4Uc, n, addr) by {}
            assert forall|n: Nlri|
                #[trigger] table_has_source(*table, Family::Ipv6Uc, n, addr)
                    == table_has_source(t0, Family::Ipv6Uc, n, addr) by {}
        }
    }
    let ghost a4total = accept_v4 as int;
    let ghost a6total = accept_v6 as int;
    let nw = update.withdrawns.len();
    let mut i: usize = 0;
    while i < nw
        invariant
            i <= nw,
            nw == update.withdrawns@.len(),
            nw < i64::MAX,
            addr == source.address,
            announced == (update.attrs@.len() > 0 && crate::attr::all_aspaths_bounded(
                update.attrs@,
            )),
            fl == mp_flat(update.mp_routes@),
            table.wf(),
            table.local_source == t0.local_source,
            table.disable_best_path_selection == t0.disable_best_path_selection,
            table.active_peers@ == t0.active_peers@,
            a4total == (if announced {
                added_count(
                    t0,
                    Family::Ipv4Uc,
                    update.routes@,
                    addr,
                    update.routes@.len() as int,
                )
            } else {
                0int
            }),
            a6total == (if announced {
                added_count(t0, Family::Ipv6Uc, flat_nets(fl), addr, fl.len() as int)
            } else {
                0int
            }),
            0 <= a4total < i64::MAX,
            0 <= a6total < i64::MAX,
            accept_v4 == a4total - removed_count(t0, *update, announced, addr, Family::Ipv4Uc, i as int),
            accept_v6 == a6total - removed_count(t0, *update, announced, addr, Family::Ipv6Uc, i as int),
            forall|n: Nlri|
                #[trigger] table_has_source(*table, Family::Ipv4Uc, n, addr) == ((
                table_has_source(t0, Family::Ipv4Uc, n, addr) || (announced
                    && crate::rib::nlri_in(update.routes@, n))) && !(n.is_v4()
                    && crate::rib::nlri_in(update.withdrawns@.take(i as int), n))),
            forall|n: Nlri|
                #[trigger] table_has_source(*table, Family::Ipv6Uc, n, addr) == ((
                table_has_source(t0, Family::Ipv6Uc, n, addr) || (announced
                    && crate::rib::nlri_in(flat_nets(fl), n))) && !(!n.is_v4()
                    && crate::rib::nlri_in(update.withdrawns@.take(i as int), n))),
        decreases nw - i,
    {
        proof {
            lemma_removed_count_bounds(t0, *update, announced, addr, Family::Ipv4Uc, i as int);
            lemma_removed_count_bounds(t0, *update, announced, addr, Family::Ipv6Uc, i as int);
        }
        let net = update.withdrawns[i];
        let family = if net.net_is_v4() {
            Family::Ipv4Uc
        } else {
            Family::Ipv6Uc
        };
        let ghost tc = *table;
        let (u, deleted) = table.remove(family, net, source);
        let ghost rg = (u, deleted);
        if let Some(u) = u {
            out.push(u);
        }
        if deleted {
            if net.net_is_v4() {
                accept_v4 = accept_v4 - 1;
            } else {
                accept_v6 = accept_v6 - 1;
            }
        }
        proof {
            let tn = *table;
            assert(family == withdraw_family(net));
            assert(deleted == table_has_source(tc, family, net, addr));
            assert(update.withdrawns@.take(i + 1) =~= update.withdrawns@.take(i as int).push(
                net,
            ));
            assert forall|n: Nlri|
                crate::rib::nlri_in(update.withdrawns@.take(i + 1), n) == (crate::rib::nlri_in(
                update.withdrawns@.take(i as int),
                n,
            ) || n == net) by {
                if crate::rib::nlri_in(update.withdrawns@.take(i as int), n) {
                    let w = choose|w: int|
                        0 <= w < i && #[trigger] update.withdrawns@.take(i as int)[w] == n;
                    assert(update.withdrawns@.take(i + 1)[w] == n);
                }
                if n == net {
                    assert(update.withdrawns@.take(i + 1)[i as int] == n);
                }
                if crate::rib::nlri_in(update.withdrawns@.take(i + 1), n) && n != net {
                    let w = choose|w: int|
                        0 <= w < i + 1 && #[trigger] update.withdrawns@.take(i + 1)[w] == n;
                    assert(w < i as int);
                    assert(update.withdrawns@.take(i as int)[w] == n);
                }
            }
            // the removal's outcome matches the counted hit
            assert(deleted == (withdraw_family(net) == family && withdraw_hits(
                t0,
                *update,
                announced,
                addr,
                i as int,
            )));
            // presence after this removal
            assert forall|n: Nlri|
                #[trigger] table_has_source(tn, Family::Ipv4Uc, n, addr) == ((table_has_source(
                t0,
                Family::Ipv4Uc,
                n,
                addr,
            ) || (announced && crate::rib::nlri_in(update.routes@, n))) && !(n.is_v4()
                && crate::rib::nlri_in(update.withdrawns@.take(i + 1), n))) by {
                if n == net && family == Family::Ipv4Uc {
                    if table_has_dest(tc, family, net) {
                        crate::rib::lemma_remove_clears_source(tc, family, net, source, tn, rg);
                    } else {
                        assert(tn == tc);
                    }
                    assert(!table_has_source(tn, Family::Ipv4Uc, n, addr));
                } else {
                    crate::rib::lemma_remove_frame(tc, family, net, source, tn, rg, Family::Ipv4Uc, n);
                    assert(table_has_source(tn, Family::Ipv4Uc, n, addr) == table_has_source(
                        tc,
                        Family::Ipv4Uc,
                        n,
                        addr,
                    ));
                }
            }
            assert forall|n: Nlri|
                #[trigger] table_has_source(tn, Family::Ipv6Uc, n, addr) == ((table_has_source(
                t0,
                Family::Ipv6Uc,
                n,
                addr,
            ) || (announced && crate::rib::nlri_in(flat_nets(fl), n))) && !(!n.is_v4()
                && crate::rib::nlri_in(update.withdrawns@.take(i + 1), n))) by {
                if n == net && family == Family::Ipv6Uc {
                    if table_has_dest(tc, family, net) {
                        crate::rib::lemma_remove_clears_source(tc, family, net, source, tn, rg);
                    } else {
                        assert(tn == tc);
                    }
                    assert(!table_has_source(tn, Family::Ipv6Uc, n, addr));
                } else {
                    crate::rib::lemma_remove_frame(tc, family, net, source, tn, rg, Family::Ipv6Uc, n);
                    assert(table_has_source(tn, Family::Ipv6Uc, n, addr) == table_has_source(
                        tc,
                        Family::Ipv6Uc,
                        n,
                        addr,
                    ));
                }
            }
        }
        i = i + 1;
    }
    proof {
        assert(update.withdrawns@.take(nw as int) =~= update.withdrawns@);
        assert(accept_v4 == accepted_delta(t0, *update, addr, Family::Ipv4Uc));
        assert(accept_v6 == accepted_delta(t0, *update, addr, Family::Ipv6Uc));
        lemma_removed_count_bounds(t0, *update, announced, addr, Family::Ipv4Uc, nw as int);
        lemma_removed_count_bounds(t0, *update, announced, addr, Family::Ipv6Uc, nw as int);
        let tn = *table;
        if announced {
            assert forall|j: int|
                #![trigger update.routes@[j]]
                0 <= j < update.routes@.len() && !crate::rib::nlri_in(
                    update.withdrawns@,
                    update.routes@[j],
                ) implies table_has_dest(tn, Family::Ipv4Uc, update.routes@[j])
                && crate::rib::has_source(
                table_entry(tn, Family::Ipv4Uc, update.routes@[j]),
                addr,
            ) by {
                let n = update.routes@[j];
                assert(crate::rib::nlri_in(update.routes@, n)) by {
                    assert(update.routes@[j] == n);
                }
                assert(table_has_source(tn, Family::Ipv4Uc, n, addr));
            }
        }
        assert forall|j: int|
            #![trigger update.withdrawns@[j]]
            0 <= j < update.withdrawns@.len() implies (table_has_dest(
            tn,
            withdraw_family(update.withdrawns@[j]),
            update.withdrawns@[j],
        ) ==> !crate::rib::has_source(
            table_entry(tn, withdraw_family(update.withdrawns@[j]), update.withdrawns@[j]),
            addr,
        )) by {
            let w = update.withdrawns@[j];
            assert(crate::rib::nlri_in(update.withdrawns@, w)) by {
                assert(update.withdrawns@[j] == w);
            }
            if w.is_v4() {
                assert(!table_has_source(tn, Family::Ipv4Uc, w, addr));
            } else {
                assert(!table_has_source(tn, Family::Ipv6Uc, w, addr));
            }
        }
    }
    let ghost pold = *peer;
    peer.update_accepted(Family::Ipv4Uc, accept_v4);
    let ghost pmid = *peer;
    peer.update_accepted(Family::Ipv6Uc, accept_v6);
    proof {
        let d4 = accept_v4 as int;
        let d6 = accept_v6 as int;
        // the second call leaves the first family's count alone
        assert(accepted_of(peer.accepted@, Family::Ipv4Uc) == accepted_of(
            pmid.accepted@,
            Family::Ipv4Uc,
        ));
        match accepted_of(pold.accepted@, Family::Ipv4Uc) {
            Some(v) => {}
            None => {
                if d4 > 0 {
                    crate::peer::lemma_accepted_of_push_same(
                        pold.accepted@,
                        Family::Ipv4Uc,
                        accept_v4 as u64,
                    );
                    assert(accepted_of(pold.accepted@, Family::Ipv4Uc) is None);
                    assert forall|k: int|
                        0 <= k < pold.accepted@.len() implies (
                    #[trigger] pold.accepted@[k]).0 != Family::Ipv4Uc by {
                        if pold.accepted@[k].0 == Family::Ipv4Uc {
                            assert(accepted_of(pold.accepted@, Family::Ipv4Uc) is Some);
                        }
                    }
                }
            }
        }
        assert(accepted_of(pmid.accepted@, Family::Ipv6Uc) == accepted_of(
            pold.accepted@,
            Family::Ipv6Uc,
        ));
        match accepted_of(pmid.accepted@, Family::Ipv6Uc) {
            Some(v) => {}
            None => {
                if d6 > 0 {
                    crate::peer::lemma_accepted_of_push_same(
                        pmid.accepted@,
                        Family::Ipv6Uc,
                        accept_v6 as u64,
                    );
                    assert forall|k: int|
                        0 <= k < pmid.accepted@.len() implies (
                    #[trigger] pmid.accepted@[k]).0 != Family::Ipv6Uc by {
                        if pmid.accepted@[k].0 == Family::Ipv6Uc {
                            assert(accepted_of(pmid.accepted@, Family::Ipv6Uc) is Some);
                        }
                    }
                }
            }
        }
    }
    out
}

/// The accepted counter after a delta: adjusted and clamped when the
/// family was tracked, freshly tracked on a positive delta otherwise.
pub open spec fn spec_accepted_after(before: Option<u64>, delta: int) -> Option<u64> {
    match before {
        Some(v) => Some(crate::peer::clamped(v + delta)),
        None => if delta > 0 {
            Some(delta as u64)
        } else {
            None
        },
    }
}

/// The family a withdrawn prefix belongs to, read off its address.
pub open spec fn withdraw_family(n: Nlri) -> Family {
    if n.is_v4() {
        Family::Ipv4Uc
    } else {
        Family::Ipv6Uc
    }
}

/// Multiprotocol support for `f` among the first `i` capabilities.
pub open spec fn mp_in_prefix(caps: Seq<Capability>, i: int, f: Family) -> bool {
    exists|k: int| 0 <= k < i && is_mp_for(#[trigger] caps[k], f)
}

proof fn lemma_mp_prefix_grow(caps: Seq<Capability>, i: int, f: Family)
    requires
        mp_in_prefix(caps, i, f),
    ensures
        mp_in_prefix(caps, i + 1, f),
{
    let w = choose|w: int| 0 <= w < i && is_mp_for(#[trigger] caps[w], f);
    assert(0 <= w < i + 1 && is_mp_for(caps[w], f));
}

proof fn lemma_mp_prefix_step(
    caps: Seq<Capability>,
    i: int,
    fams: Seq<Family>,
    rcaps: Seq<Capability>,
)
    requires
        0 <= i < caps.len(),
        forall|f: Family|
            #[trigger] family_in(fams, f) <==> (mp_in_prefix(caps, i, f) && mp_family_in(
                rcaps,
                f,
            )),
        forall|f: Family|
            is_mp_for(caps[i], f) ==> !(mp_family_in(rcaps, f) && !family_in(fams, f)),
    ensures
        forall|f: Family|
            #[trigger] family_in(fams, f) <==> (mp_in_prefix(caps, i + 1, f) && mp_family_in(
                rcaps,
                f,
            )),
{
    assert forall|f: Family|
        #[trigger] family_in(fams, f) == (mp_in_prefix(caps, i + 1, f) && mp_family_in(
        rcaps,
        f,
    )) by {
        if family_in(fams, f) {
            assert(mp_in_prefix(caps, i, f));
            lemma_mp_prefix_grow(caps, i, f);
        } else {
            if mp_in_prefix(caps, i + 1, f) && mp_family_in(rcaps, f) {
                let w = choose|w: int| 0 <= w < i + 1 && is_mp_for(#[trigger] caps[w], f);
                if w < i {
                    assert(mp_in_prefix(caps, i, f)) by {
                        assert(is_mp_for(caps[w], f));
                    }
                } else {
                    assert(is_mp_for(caps[i], f));
                }
                assert(false);
            }
        }
    }
}

} // verus!
