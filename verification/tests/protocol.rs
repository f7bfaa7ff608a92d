use rustybgp::attr::{Attribute, Nlri, PathAttr, Segment, ATTR_AS_PATH};
use rustybgp::family::Family;
use rustybgp::message::{
    Capability, Message, MpRoute, NotificationCode, NotificationMessage, OpenMessage,
    UpdateMessage,
};
use rustybgp::net::{IpAddress, IpNet};
use rustybgp::peer::{MessageCounter, Peer, State};
use rustybgp::rib::{Source, Table, TableUpdate};
use rustybgp::rewrite::{sort_by_code, update_attrs};
use rustybgp::session::{apply_update, build_update, establish, handle_open, OpenOutcome, Session};

fn v4(a: u32) -> IpAddress {
    IpAddress::V4(a)
}

fn net4(a: u32, mask: u8) -> Nlri {
    Nlri::Ip(IpNet { addr: IpAddress::V4(a), mask })
}

fn src(addr: u32, ibgp: bool) -> Source {
    Source { address: v4(addr), ibgp, local_as: 64512, local_addr: v4(0x0a000001) }
}

fn seg(numbers: Vec<u32>) -> Segment {
    Segment { segment_type: 2, number: numbers }
}

fn find_aspath(attrs: &[Attribute]) -> &Attribute {
    attrs.iter().find(|a| a.attr() == ATTR_AS_PATH).expect("an AS path")
}

#[test]
fn prepend_extends_a_sequence_of_254() {
    let stored = Attribute::AsPath { segments: vec![seg((0..254).collect())] };
    let (_, appended) = update_attrs(
        false,
        false,
        64512,
        net4(0x0a000000, 24),
        v4(9),
        v4(1),
        &vec![stored],
    );
    match find_aspath(&appended) {
        Attribute::AsPath { segments } => {
            assert_eq!(segments.len(), 1);
            assert_eq!(segments[0].number.len(), 255);
            assert_eq!(segments[0].number[0], 64512);
        }
        _ => unreachable!(),
    }
}

#[test]
fn prepend_at_255_opens_a_new_segment() {
    let stored = Attribute::AsPath { segments: vec![seg((0..255).collect())] };
    let (_, appended) = update_attrs(
        false,
        false,
        64512,
        net4(0x0a000000, 24),
        v4(9),
        v4(1),
        &vec![stored],
    );
    match find_aspath(&appended) {
        Attribute::AsPath { segments } => {
            assert_eq!(segments.len(), 2);
            assert_eq!(segments[0].number, vec![64512]);
            assert_eq!(segments[0].segment_type, 2);
            assert_eq!(segments[1].number.len(), 255);
        }
        _ => unreachable!(),
    }
}

#[test]
fn prepend_on_empty_path_makes_one_sequence() {
    let stored = Attribute::AsPath { segments: vec![] };
    let (_, appended) = update_attrs(
        false,
        false,
        64512,
        net4(0x0a000000, 24),
        v4(9),
        v4(1),
        &vec![stored],
    );
    match find_aspath(&appended) {
        Attribute::AsPath { segments } => {
            assert_eq!(segments.len(), 1);
            assert_eq!(segments[0].number, vec![64512]);
        }
        _ => unreachable!(),
    }
}

#[test]
fn ebgp_drops_med_and_rewrites_nexthop() {
    let stored = vec![
        Attribute::AsPath { segments: vec![seg(vec![65001])] },
        Attribute::MultiExitDesc { descriptor: 50 },
        Attribute::Origin { origin: 0 },
    ];
    let (kept, appended) = update_attrs(
        false,
        false,
        64512,
        net4(0x0a000000, 24),
        v4(0xc0000201),
        v4(0x0a000001),
        &stored,
    );
    // kept holds the origin alone: the AS path moved, the discriminator left
    assert_eq!(kept.len(), 1);
    assert!(matches!(kept[0], Attribute::Origin { origin: 0 }));
    assert!(appended
        .iter()
        .any(|a| matches!(a, Attribute::Nexthop { nexthop } if *nexthop == v4(0x0a000001))));
    assert!(!appended.iter().any(|a| matches!(a, Attribute::MultiExitDesc { .. })));
}

#[test]
fn ibgp_keeps_nexthop_and_adds_default_preference() {
    let stored = vec![Attribute::AsPath { segments: vec![seg(vec![65001])] }];
    let (_, appended) = update_attrs(
        true,
        false,
        64512,
        net4(0x0a000000, 24),
        v4(0xc0000201),
        v4(0x0a000001),
        &stored,
    );
    assert!(appended
        .iter()
        .any(|a| matches!(a, Attribute::Nexthop { nexthop } if *nexthop == v4(0xc0000201))));
    assert!(appended
        .iter()
        .any(|a| matches!(a, Attribute::LocalPref { preference: 100 })));
}

#[test]
fn sort_by_code_orders_attributes() {
    let v = vec![
        Attribute::LocalPref { preference: 1 },
        Attribute::Origin { origin: 0 },
        Attribute::Nexthop { nexthop: v4(1) },
    ];
    let s = sort_by_code(v);
    assert_eq!(s.len(), 3);
    assert!(s[0].attr() <= s[1].attr() && s[1].attr() <= s[2].attr());
    assert_eq!(s[0].attr(), 1);
    assert_eq!(s[1].attr(), 3);
    assert_eq!(s[2].attr(), 5);
}

fn open_with(as_number: u32, families: &[Family]) -> OpenMessage {
    let mut caps = vec![
        Capability::RouteRefresh,
        Capability::FourOctetAsNumber { as_number },
    ];
    for f in families {
        caps.push(Capability::MultiProtocol { family: *f });
    }
    OpenMessage::new(0x0a0a0a0a, as_number, caps)
}

#[test]
fn open_as_mismatch_sends_notification_and_reconnects() {
    // configured remote AS 65001; the OPEN advertises 65002
    let mut peer = Peer::new(v4(7), 64512).remote_as(65001);
    let mut session = Session::new();
    let open = open_with(65002, &[Family::Ipv4Uc]);
    let r = handle_open(&mut peer, &mut session, &open);
    assert_eq!(r, OpenOutcome::BadPeerAs);
    assert_eq!(peer.state, State::Idle);
    let n = NotificationMessage::new(NotificationCode::OpenMessageBadPeerAs);
    assert_eq!(n.code, 2);
    assert_eq!(n.subcode, 2);
    // teardown of the configured, non-passive peer queues a reconnection
    let mut global = rustybgp::global::Global::new(64512, 0x0a0a0a0a);
    rustybgp::service::add_peer(&mut global, peer).unwrap();
    let mut table = Table::new();
    let (_, reconnect) = rustybgp::service::teardown(
        &mut global,
        &mut table,
        v4(7),
        src(7, false),
        false,
        42,
    );
    assert!(reconnect);
    assert_eq!(global.peers[0].state, State::Idle);
    assert_eq!(global.peers[0].downtime, 42);
}

#[test]
fn open_negotiates_families_and_keepalive() {
    let mut peer = Peer::new(v4(7), 64512).families(vec![Family::Ipv4Uc, Family::Ipv6Uc]);
    let mut session = Session::new();
    assert_eq!(session.keepalive_interval, 30);
    let open = open_with(65001, &[Family::Ipv4Uc]);
    let r = handle_open(&mut peer, &mut session, &open);
    assert_eq!(r, OpenOutcome::Accepted);
    assert_eq!(peer.state, State::OpenConfirm);
    assert_eq!(peer.remote_as, 65001);
    assert_eq!(session.state, State::OpenConfirm);
    // only the common family survives
    assert_eq!(session.families, vec![Family::Ipv4Uc]);
    assert!(session.is_family_enabled(false));
    assert!(!session.is_family_enabled(true));
    // the advertised hold time of 90 shrinks nothing (90 / 3 == 30)
    assert_eq!(session.keepalive_interval, 30);
}

#[test]
fn open_shrinks_keepalive_to_a_third_of_remote_hold() {
    let mut peer = Peer::new(v4(7), 64512);
    let mut session = Session::new();
    let mut open = open_with(65001, &[]);
    open.holdtime = 30;
    handle_open(&mut peer, &mut session, &open);
    assert_eq!(session.keepalive_interval, 10);
}

/// Two established EBGP peers; A announces and B's outbound update carries
/// the rewritten attributes.
#[test]
fn two_peer_propagation() {
    let mut table = Table::new();
    // peer A, AS 65001
    let mut peer_a = Peer::new(v4(0xc0000201), 64512).remote_as(65001).families(vec![
        Family::Ipv4Uc,
    ]);
    let mut sess_a = Session::new();
    assert_eq!(
        handle_open(&mut peer_a, &mut sess_a, &open_with(65001, &[Family::Ipv4Uc])),
        OpenOutcome::Accepted
    );
    let (src_a, dump_a) = establish(
        &mut peer_a,
        &mut sess_a,
        &mut table,
        v4(0xc0000201),
        v4(0x0a000001),
        1000,
    );
    assert!(dump_a.is_empty());
    assert!(!src_a.ibgp);
    // peer B, AS 65002
    let mut peer_b = Peer::new(v4(0xc0000202), 64512).remote_as(65002).families(vec![
        Family::Ipv4Uc,
    ]);
    let mut sess_b = Session::new();
    assert_eq!(
        handle_open(&mut peer_b, &mut sess_b, &open_with(65002, &[Family::Ipv4Uc])),
        OpenOutcome::Accepted
    );
    let (src_b, _) = establish(
        &mut peer_b,
        &mut sess_b,
        &mut table,
        v4(0xc0000202),
        v4(0x0a000002),
        1001,
    );
    // A announces 10.0.0.0/24 with nexthop 192.0.2.1, path [65001]
    let upd = UpdateMessage {
        withdrawns: vec![],
        attrs: vec![
            Attribute::Origin { origin: 0 },
            Attribute::AsPath { segments: vec![seg(vec![65001])] },
            Attribute::MultiExitDesc { descriptor: 5 },
        ],
        routes: vec![net4(0x0a000000, 24)],
        nexthop: v4(0xc0000201),
        mp_routes: vec![],
    };
    let fanout = apply_update(&mut table, &mut peer_a, src_a, &upd, 1002);
    assert_eq!(fanout.len(), 1);
    let recipients = table.broadcast(src_a, &fanout[0]);
    assert_eq!(recipients, vec![v4(0xc0000202)]);
    // B's outbound update: nexthop rewritten, local AS prepended, MED gone
    let m = build_update(src_b, &sess_b, &fanout[0]).expect("an update for the peer");
    assert_eq!(m.routes, vec![net4(0x0a000000, 24)]);
    assert!(m.withdrawns.is_empty());
    match find_aspath(&m.attrs) {
        Attribute::AsPath { segments } => {
            assert_eq!(segments[0].number, vec![64512, 65001]);
        }
        _ => unreachable!(),
    }
    assert!(m
        .attrs
        .iter()
        .any(|a| matches!(a, Attribute::Nexthop { nexthop } if *nexthop == src_b.local_addr)));
    assert!(!m.attrs.iter().any(|a| matches!(a, Attribute::MultiExitDesc { .. })));
    // the attributes come out sorted by type code
    for w in m.attrs.windows(2) {
        assert!(w[0].attr() <= w[1].attr());
    }
    // the peer's accepted counter moved
    assert_eq!(peer_a.accepted, vec![(Family::Ipv4Uc, 1)]);
}

/// Peers in the local AS hear nothing of each other's routes.
#[test]
fn ibgp_fanout_suppression() {
    let mut table = Table::new();
    let a = src(0xc0000201, true);
    let b = src(0xc0000202, true);
    table.activate_peer(a.address, a);
    table.activate_peer(b.address, b);
    let (u, _) = table.insert(
        Family::Ipv4Uc,
        net4(0xcb007100, 24),
        a,
        v4(0xc0000201),
        PathAttr { entry: vec![Attribute::Origin { origin: 0 }] },
        0,
    );
    let recipients = table.broadcast(a, &u.unwrap());
    assert!(recipients.is_empty());
}

/// A better IBGP path displaces the best; an EBGP peer learns the change,
/// and the withdraw cascades back.
#[test]
fn best_path_replacement_and_withdraw_cascade() {
    let mut table = Table::new();
    let a = src(0xc0000201, false);
    let c = src(0xc0000203, true);
    let b = src(0xc0000202, false);
    table.activate_peer(b.address, b);
    let n = net4(0x0a000000, 24);
    table.insert(
        Family::Ipv4Uc,
        n,
        a,
        v4(0xc0000201),
        PathAttr { entry: vec![Attribute::LocalPref { preference: 100 }] },
        0,
    );
    let (u, _) = table.insert(
        Family::Ipv4Uc,
        n,
        c,
        v4(0xc0000203),
        PathAttr { entry: vec![Attribute::LocalPref { preference: 200 }] },
        0,
    );
    // C's path is now the head
    assert_eq!(table.master[0].dests[0].entry[0].source.address, c.address);
    let u = u.expect("a new best");
    let sess_b = Session {
        state: State::Established,
        keepalive_interval: 30,
        families: vec![Family::Ipv4Uc],
    };
    let m = build_update(b, &sess_b, &u).unwrap();
    match find_aspath(&m.attrs) {
        Attribute::AsPath { segments } => assert_eq!(segments[0].number, vec![64512]),
        _ => unreachable!(),
    }
    // C withdraws; A's path is best again and B hears of it
    let (u2, removed) = table.remove(Family::Ipv4Uc, n, c);
    assert!(removed);
    match u2.as_ref().unwrap() {
        TableUpdate::NewBest(n2, nh, _, s2) => {
            assert_eq!(*n2, n);
            assert_eq!(*nh, v4(0xc0000201));
            assert_eq!(s2.address, a.address);
        }
        _ => panic!("expected a new best"),
    }
    let recipients = table.broadcast(c, u2.as_ref().unwrap());
    assert_eq!(recipients, vec![b.address]);
}

/// A connecting address with no configuration is taken in through the
/// catch-all group and its record vanishes at teardown.
#[test]
fn dynamic_peer_lifecycle() {
    let mut global = rustybgp::global::Global::new(64512, 0x0a0a0a0a);
    rustybgp::service::add_peer_group(&mut global, "any".to_string(), 0).unwrap();
    rustybgp::service::add_dynamic_neighbor(
        &mut global,
        &"any".to_string(),
        IpNet { addr: v4(0), mask: 0 },
    )
    .unwrap();
    let addr = v4(0xc6336407);
    assert!(global.find_peer(addr).is_none());
    assert!(global.matches_dynamic(addr));
    // the orchestrator synthesizes a record
    let peer = Peer::new(addr, global.as_number).families(vec![Family::Ipv4Uc]);
    global.peers.push(peer);
    assert!(global.find_peer(addr).is_some());
    // teardown of a dynamic peer removes the record entirely
    let mut table = Table::new();
    let (_, reconnect) = rustybgp::service::teardown(
        &mut global,
        &mut table,
        addr,
        src(0xc6336407, false),
        true,
        7,
    );
    assert!(!reconnect);
    assert!(global.find_peer(addr).is_none());
}

#[test]
fn establish_dumps_the_current_bests() {
    let mut table = Table::new();
    let n = net4(0x0a000000, 24);
    table.insert(
        Family::Ipv4Uc,
        n,
        src(1, false),
        v4(9),
        PathAttr { entry: vec![Attribute::LocalPref { preference: 100 }] },
        7,
    );
    let mut peer = Peer::new(v4(7), 64512).remote_as(65001).families(vec![Family::Ipv4Uc]);
    let mut session = Session::new();
    handle_open(&mut peer, &mut session, &open_with(65001, &[Family::Ipv4Uc]));
    let (source, dump) = establish(&mut peer, &mut session, &mut table, v4(7), v4(2), 5);
    assert_eq!(peer.state, State::Established);
    assert_eq!(peer.uptime, 5);
    assert_eq!(dump.len(), 1);
    match &dump[0] {
        TableUpdate::NewBest(n2, nh, a, s) => {
            assert_eq!(*n2, n);
            assert_eq!(*nh, v4(9));
            assert_eq!(s.address, source.address);
            // the dumped attributes are the stored head's; the outbound
            // form below is what the rewriter makes of them
            assert_eq!(a.entry.len(), 1);
        }
        _ => panic!("expected a new best"),
    }
    // the dump encodes through the same rewriter as any other update
    let m = build_update(source, &session, &dump[0]).unwrap();
    let head = &table.master[0].dests[0].entry[0];
    let (kept, appended) = update_attrs(
        source.ibgp,
        false,
        source.local_as,
        n,
        head.nexthop,
        source.local_addr,
        &head.attrs.entry,
    );
    let mut want = kept;
    want.extend(appended);
    let want = sort_by_code(want);
    assert_eq!(m.attrs.len(), want.len());
    for k in 0..want.len() {
        assert_eq!(m.attrs[k].attr(), want[k].attr());
    }
}

#[test]
fn accepted_counters_track_and_clamp() {
    let mut peer = Peer::new(v4(7), 64512);
    peer.update_accepted(Family::Ipv4Uc, 3);
    assert_eq!(peer.accepted, vec![(Family::Ipv4Uc, 3)]);
    peer.update_accepted(Family::Ipv4Uc, -1);
    assert_eq!(peer.accepted, vec![(Family::Ipv4Uc, 2)]);
    // a withdrawal below zero clamps
    peer.update_accepted(Family::Ipv4Uc, -10);
    assert_eq!(peer.accepted, vec![(Family::Ipv4Uc, 0)]);
    // a withdrawal for a family the peer never announced is ignored
    peer.update_accepted(Family::Ipv6Uc, -4);
    assert_eq!(peer.accepted, vec![(Family::Ipv4Uc, 0)]);
}

#[test]
fn apply_update_counts_received_minus_withdrawn() {
    let mut table = Table::new();
    let mut peer = Peer::new(v4(7), 64512);
    let s = src(7, false);
    let upd = UpdateMessage {
        withdrawns: vec![],
        attrs: vec![Attribute::Origin { origin: 0 }],
        routes: vec![net4(0x0a000000, 24), net4(0x0a000100, 24)],
        nexthop: v4(9),
        mp_routes: vec![MpRoute { nlri: vec![Nlri::Ip(IpNet { addr: IpAddress::V6(1), mask: 64 })], nexthop: IpAddress::V6(9) }],
    };
    apply_update(&mut table, &mut peer, s, &upd, 50);
    assert_eq!(peer.accepted, vec![(Family::Ipv4Uc, 2), (Family::Ipv6Uc, 1)]);
    let upd2 = UpdateMessage {
        withdrawns: vec![net4(0x0a000000, 24)],
        attrs: vec![],
        routes: vec![],
        nexthop: v4(0),
        mp_routes: vec![],
    };
    apply_update(&mut table, &mut peer, s, &upd2, 51);
    assert_eq!(peer.accepted, vec![(Family::Ipv4Uc, 1), (Family::Ipv6Uc, 1)]);
}

#[test]
fn message_counter_counts_kinds_and_withdraws() {
    let mut c = MessageCounter::default();
    c.sync(&Message::Keepalive);
    c.sync(&Message::Keepalive);
    c.sync(&Message::Open(open_with(65001, &[])));
    c.sync(&Message::Update(UpdateMessage {
        withdrawns: vec![net4(0x0a000000, 24), net4(0x0b000000, 24)],
        attrs: vec![],
        routes: vec![],
        nexthop: v4(0),
        mp_routes: vec![],
    }));
    assert_eq!(c.keepalive, 2);
    assert_eq!(c.open, 1);
    assert_eq!(c.update, 1);
    assert_eq!(c.withdraw_update, 1);
    assert_eq!(c.withdraw_prefix, 2);
    assert_eq!(c.total, 4);
}
