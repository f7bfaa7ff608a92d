use rustybgp::api::{
    to_native_attrs, ApiAttr, ApiFamily, ApiPeer, ApiPeerConf, ApiSegment, ApiTimers,
    ApiTimersConfig, ApiTransport,
};
use rustybgp::attr::{Attribute, Nlri, PathAttr, Segment};
use rustybgp::codec::{decode, encode, CodecError};
use rustybgp::family::Family;
use rustybgp::message::{
    Capability, Message, NotificationCode, NotificationMessage, OpenMessage, OpenParam,
    UpdateMessage,
};
use rustybgp::net::{IpAddress, IpNet};
use rustybgp::service::{
    add_dynamic_neighbor, add_path, add_peer, add_peer_group, delete_path, get_table, list_path,
    start_bgp, ApiError, TableType,
};
use rustybgp::rib::Table;

fn v4(a: u32) -> IpAddress {
    IpAddress::V4(a)
}

fn net4(a: u32, mask: u8) -> Nlri {
    Nlri::Ip(IpNet { addr: IpAddress::V4(a), mask })
}

fn messages_equal(a: &Message, b: &Message) -> bool {
    let ea = encode(a);
    let eb = encode(b);
    match (ea, eb) {
        (Ok(x), Ok(y)) => x == y,
        _ => false,
    }
}

#[test]
fn keepalive_round_trip() {
    let bytes = encode(&Message::Keepalive).unwrap();
    assert_eq!(bytes.len(), 19);
    assert_eq!(&bytes[0..16], &[0xffu8; 16]);
    assert_eq!(bytes[16], 0);
    assert_eq!(bytes[17], 19);
    assert_eq!(bytes[18], 4);
    let (m, n) = decode(&bytes).unwrap();
    assert_eq!(n, 19);
    assert!(matches!(m, Message::Keepalive));
    // the parsed message writes back to the same bytes
    assert_eq!(encode(&m).unwrap(), bytes);
}

#[test]
fn notification_round_trip() {
    let m = Message::Notification(NotificationMessage::new(NotificationCode::OpenMessageBadPeerAs));
    let bytes = encode(&m).unwrap();
    assert_eq!(bytes.len(), 21);
    assert_eq!(bytes[18], 3);
    assert_eq!(bytes[19], 2);
    assert_eq!(bytes[20], 2);
    let (m2, n) = decode(&bytes).unwrap();
    assert_eq!(n, 21);
    match &m2 {
        Message::Notification(nm) => {
            assert_eq!(nm.code, 2);
            assert_eq!(nm.subcode, 2);
            assert!(nm.data.is_empty());
        }
        _ => panic!("expected a notification"),
    }
    assert_eq!(encode(&m2).unwrap(), bytes);
}

#[test]
fn route_refresh_round_trip() {
    let m = Message::RouteRefresh(Family::Ipv6Uc);
    let bytes = encode(&m).unwrap();
    assert_eq!(bytes.len(), 23);
    assert_eq!(&bytes[19..23], &[0, 2, 0, 1]);
    let (m2, n) = decode(&bytes).unwrap();
    assert_eq!(n, 23);
    assert!(matches!(m2, Message::RouteRefresh(Family::Ipv6Uc)));
    assert_eq!(encode(&m2).unwrap(), bytes);
}

#[test]
fn open_round_trip_with_capabilities() {
    let caps = vec![
        Capability::RouteRefresh,
        Capability::FourOctetAsNumber { as_number: 70000 },
        Capability::MultiProtocol { family: Family::Ipv4Uc },
        Capability::MultiProtocol { family: Family::Ipv6Uc },
        Capability::Unknown { code: 99, data: vec![1, 2, 3] },
    ];
    let m = Message::Open(OpenMessage::new(0x0a0b0c0d, 70000, caps));
    let bytes = encode(&m).unwrap();
    // an AS above the 2-byte range goes out as the transition AS
    assert_eq!(bytes[20], (23456u16 >> 8) as u8);
    assert_eq!(bytes[21], (23456u16 & 0xff) as u8);
    let (m2, n) = decode(&bytes).unwrap();
    assert_eq!(n, bytes.len());
    match &m2 {
        Message::Open(o) => {
            assert_eq!(o.version, 4);
            assert_eq!(o.holdtime, 90);
            assert_eq!(o.router_id, 0x0a0b0c0d);
            // the four-octet capability carries the real AS
            assert_eq!(o.get_as_number(), 70000);
            assert_eq!(o.params.len(), 5);
        }
        _ => panic!("expected an open"),
    }
    assert!(messages_equal(&m, &m2));
    assert_eq!(encode(&m2).unwrap(), bytes);
}

#[test]
fn update_round_trip() {
    let m = Message::Update(UpdateMessage {
        withdrawns: vec![net4(0x0b000000, 24)],
        attrs: vec![
            Attribute::Origin { origin: 0 },
            Attribute::AsPath { segments: vec![Segment { segment_type: 2, number: vec![65001, 70000] }] },
            Attribute::Nexthop { nexthop: v4(0xc0000201) },
            Attribute::MultiExitDesc { descriptor: 5 },
            Attribute::LocalPref { preference: 200 },
            Attribute::Community { communities: vec![0xfde80001] },
        ],
        routes: vec![net4(0x0a000000, 24), net4(0x0a010000, 16)],
        nexthop: v4(0xc0000201),
        mp_routes: vec![],
    });
    let bytes = encode(&m).unwrap();
    let (m2, n) = decode(&bytes).unwrap();
    assert_eq!(n, bytes.len());
    match &m2 {
        Message::Update(u) => {
            assert_eq!(u.withdrawns, vec![net4(0x0b000000, 24)]);
            assert_eq!(u.routes, vec![net4(0x0a000000, 24), net4(0x0a010000, 16)]);
            // the nexthop attribute folds into the field
            assert_eq!(u.nexthop, v4(0xc0000201));
            assert_eq!(u.attrs.len(), 5);
            match &u.attrs[1] {
                Attribute::AsPath { segments } => {
                    assert_eq!(segments[0].number, vec![65001, 70000]);
                }
                _ => panic!("expected the AS path"),
            }
        }
        _ => panic!("expected an update"),
    }
}

#[test]
fn decode_asks_for_more_bytes() {
    let bytes = encode(&Message::Keepalive).unwrap();
    let short = bytes[0..10].to_vec();
    assert!(matches!(decode(&short), Err(CodecError::TooShort)));
    let mut truncated = encode(&Message::RouteRefresh(Family::Ipv4Uc)).unwrap();
    truncated.pop();
    assert!(matches!(decode(&truncated), Err(CodecError::TooShort)));
}

#[test]
fn decode_rejects_a_broken_marker() {
    let mut bytes = encode(&Message::Keepalive).unwrap();
    bytes[3] = 0;
    assert!(matches!(decode(&bytes), Err(CodecError::Malformed)));
}

#[test]
fn decode_passes_unknown_message_kinds_through() {
    let mut bytes = encode(&Message::Keepalive).unwrap();
    bytes[18] = 77;
    match decode(&bytes).unwrap() {
        (Message::Unknown { length, code }, n) => {
            assert_eq!(length, 19);
            assert_eq!(code, 77);
            assert_eq!(n, 19);
        }
        _ => panic!("expected an unknown message"),
    }
}

#[test]
fn start_bgp_validates_and_runs_once() {
    let mut g = rustybgp::global::Global::new(0, 0);
    assert_eq!(start_bgp(&mut g, 0, Some(1)), Err(ApiError::InvalidAs));
    assert_eq!(start_bgp(&mut g, 64512, None), Err(ApiError::InvalidRouterId));
    assert_eq!(start_bgp(&mut g, 64512, Some(0x01020304)), Ok(()));
    assert_eq!(g.as_number, 64512);
    assert_eq!(g.id, 0x01020304);
    assert_eq!(start_bgp(&mut g, 64513, Some(5)), Err(ApiError::AlreadyStarted));
}

#[test]
fn registry_refuses_duplicates() {
    let mut g = rustybgp::global::Global::new(64512, 1);
    let p = rustybgp::peer::Peer::new(v4(7), 64512);
    assert_eq!(add_peer(&mut g, p), Ok(true));
    let p2 = rustybgp::peer::Peer::new(v4(7), 64512);
    assert_eq!(add_peer(&mut g, p2), Err(ApiError::AlreadyExists));
    let passive = rustybgp::peer::Peer::new(v4(8), 64512).passive(true);
    assert_eq!(add_peer(&mut g, passive), Ok(false));
    assert_eq!(add_peer_group(&mut g, "g1".to_string(), 65000), Ok(()));
    assert_eq!(
        add_peer_group(&mut g, "g1".to_string(), 65001),
        Err(ApiError::AlreadyExists)
    );
    let pfx = IpNet { addr: v4(0x0a000000), mask: 8 };
    assert_eq!(
        add_dynamic_neighbor(&mut g, &"absent".to_string(), pfx),
        Err(ApiError::NotFound)
    );
    assert_eq!(add_dynamic_neighbor(&mut g, &"g1".to_string(), pfx), Ok(()));
    assert_eq!(
        add_dynamic_neighbor(&mut g, &"g1".to_string(), pfx),
        Err(ApiError::AlreadyExists)
    );
    let broken = IpNet { addr: v4(0), mask: 33 };
    assert_eq!(
        add_dynamic_neighbor(&mut g, &"g1".to_string(), broken),
        Err(ApiError::InvalidPrefix)
    );
}

#[test]
fn add_and_delete_path_fan_out() {
    let mut t = Table::new();
    let n = net4(0x0a000000, 24);
    let us = add_path(&mut t, Family::Ipv4Uc, n, v4(1), vec![Attribute::Origin { origin: 0 }], 9)
        .unwrap();
    assert_eq!(us.len(), 1);
    let (dsts, paths) = get_table(&t, Family::Ipv4Uc);
    assert_eq!((dsts, paths), (1, 1));
    let us2 = delete_path(&mut t, Family::Ipv4Uc, n);
    assert_eq!(us2.len(), 1);
    let (dsts2, paths2) = get_table(&t, Family::Ipv4Uc);
    assert_eq!((dsts2, paths2), (0, 0));
    assert_eq!(get_table(&t, Family::Ipv6Uc), (0, 0));
}

#[test]
fn list_path_views() {
    let mut t = Table::new();
    let n = net4(0x0a000000, 24);
    let s1 = rustybgp::rib::Source { address: v4(1), ibgp: false, local_as: 64512, local_addr: v4(100) };
    let s2 = rustybgp::rib::Source { address: v4(2), ibgp: false, local_as: 64512, local_addr: v4(100) };
    t.insert(Family::Ipv4Uc, n, s1, v4(9), PathAttr { entry: vec![Attribute::LocalPref { preference: 100 }] }, 0);
    t.insert(Family::Ipv4Uc, n, s2, v4(8), PathAttr { entry: vec![Attribute::LocalPref { preference: 200 }] }, 0);
    t.activate_peer(v4(2), s2);
    assert!(matches!(
        list_path(&t, TableType::Local, Family::Ipv4Uc, &vec![], None),
        Err(ApiError::Unimplemented)
    ));
    assert!(matches!(
        list_path(&t, TableType::AdjIn, Family::Ipv4Uc, &vec![], None),
        Err(ApiError::InvalidArgument)
    ));
    let all = list_path(&t, TableType::Global, Family::Ipv4Uc, &vec![], None).unwrap();
    assert_eq!(all.len(), 1);
    assert_eq!(all[0].net, n);
    assert_eq!(all[0].paths.len(), 2);
    assert!(all[0].paths[0].best);
    assert!(!all[0].paths[1].best);
    // the inbound view of peer 1 holds its path alone
    let adj_in = list_path(&t, TableType::AdjIn, Family::Ipv4Uc, &vec![], Some(v4(1))).unwrap();
    assert_eq!(adj_in.len(), 1);
    assert_eq!(adj_in[0].paths.len(), 1);
    assert_eq!(adj_in[0].paths[0].source_addr, v4(1));
    // the outbound view of peer 2 excludes its own path and rewrites
    let adj_out = list_path(&t, TableType::AdjOut, Family::Ipv4Uc, &vec![], Some(v4(2))).unwrap();
    assert_eq!(adj_out.len(), 1);
    assert_eq!(adj_out[0].paths.len(), 1);
    assert_eq!(adj_out[0].paths[0].source_addr, v4(1));
    assert_eq!(adj_out[0].paths[0].nexthop, v4(100));
    // a filter for another prefix hides the destination
    let other = vec![IpNet { addr: v4(0x0b000000), mask: 24 }];
    let filtered = list_path(&t, TableType::Global, Family::Ipv4Uc, &other, None).unwrap();
    assert!(filtered.is_empty());
}

#[test]
fn list_peer_filters_by_address() {
    let mut g = rustybgp::global::Global::new(64512, 1);
    add_peer(&mut g, rustybgp::peer::Peer::new(v4(7), 64512).remote_as(65001)).unwrap();
    add_peer(&mut g, rustybgp::peer::Peer::new(v4(8), 64512).remote_as(65002)).unwrap();
    let all = rustybgp::service::list_peer(&g, None);
    assert_eq!(all.len(), 2);
    assert_eq!(all[0].state.neighbor_address, v4(7));
    assert_eq!(all[1].state.neighbor_address, v4(8));
    let one = rustybgp::service::list_peer(&g, Some(v4(8)));
    assert_eq!(one.len(), 1);
    assert_eq!(one[0].state.peer_as, 65002);
    assert!(rustybgp::service::list_peer(&g, Some(v4(9))).is_empty());
}

#[test]
fn local_as_defaults_to_the_global_one() {
    assert_eq!(rustybgp::service::effective_local_as(64512, 0), 64512);
    assert_eq!(rustybgp::service::effective_local_as(64512, 65001), 65001);
}

#[test]
fn prefix_containment() {
    let p = IpNet { addr: v4(0x0a000000), mask: 8 };
    assert!(p.contains(v4(0x0a123456)));
    assert!(!p.contains(v4(0x0b000000)));
    let any = IpNet { addr: v4(0), mask: 0 };
    assert!(any.contains(v4(0xffffffff)));
    assert!(!any.contains(IpAddress::V6(1)));
    let p6 = IpNet { addr: IpAddress::V6(0x20010db8 << 96), mask: 32 };
    assert!(p6.contains(IpAddress::V6((0x20010db8 << 96) | 0xdead)));
    assert!(!p6.contains(IpAddress::V6(0x20010db9 << 96)));
}

#[test]
fn family_codes_round_trip() {
    assert_eq!(Family::Ipv4Uc.code(), 0x0001_0001);
    assert_eq!(Family::Ipv6Uc.code(), 0x0002_0001);
    assert_eq!(Family::from_code(0x0001_0001), Family::Ipv4Uc);
    assert_eq!(Family::from_code(0x0002_0001), Family::Ipv6Uc);
    assert_eq!(Family::from_code(0x0019_0041), Family::Unknown(0x0019_0041));
    assert_eq!(Family::new(1, 1), Family::Ipv4Uc);
    assert_eq!(Family::new(2, 1), Family::Ipv6Uc);
}

#[test]
fn api_attrs_map_both_ways() {
    let api = vec![
        ApiAttr::Origin { origin: 0 },
        ApiAttr::AsPath { segments: vec![ApiSegment { segment_type: 2, numbers: vec![65001] }] },
        ApiAttr::NextHop { next_hop: v4(9) },
        ApiAttr::LocalPref { local_pref: 300 },
    ];
    let (native, nexthop) = to_native_attrs(&api);
    assert_eq!(nexthop, v4(9));
    assert_eq!(native.len(), 3);
    assert!(matches!(native[0], Attribute::Origin { origin: 0 }));
    match &native[1] {
        Attribute::AsPath { segments } => assert_eq!(segments[0].number, vec![65001]),
        _ => panic!("expected the AS path"),
    }
    assert!(matches!(native[2], Attribute::LocalPref { preference: 300 }));
    // and back out through the path conversion
    let p = rustybgp::rib::Path {
        source: rustybgp::rib::Source { address: v4(1), ibgp: false, local_as: 1, local_addr: v4(2) },
        nexthop,
        timestamp: 77,
        attrs: PathAttr { entry: native },
    };
    let shown = p.to_api(&net4(0x0a000000, 24), nexthop, &p.attrs.entry);
    assert_eq!(shown.family, ApiFamily { afi: 1, safi: 1 });
    assert_eq!(shown.age, 77);
    assert_eq!(shown.pattrs.len(), 4);
    assert!(matches!(shown.pattrs[3], ApiAttr::NextHop { next_hop } if next_hop == v4(9)));
}

#[test]
fn api_peer_getters_read_the_nested_parts() {
    let p = ApiPeer {
        conf: Some(ApiPeerConf { neighbor_address: Some(v4(7)), local_as: 64512, peer_as: 65001 }),
        transport: Some(ApiTransport { passive_mode: true }),
        timers: Some(ApiTimers { config: Some(ApiTimersConfig { connect_retry: 11, hold_time: 77 }) }),
        afi_safis: vec![],
    };
    assert!(p.get_passive_mode());
    assert_eq!(p.get_local_as(), 64512);
    assert_eq!(p.get_remote_as(), 65001);
    assert_eq!(p.get_connect_retry_time(), 11);
    assert_eq!(p.get_hold_time(), 77);
    // with no explicit family, the neighbor address decides
    assert_eq!(p.get_families(), vec![Family::Ipv4Uc]);
    let empty = ApiPeer { conf: None, transport: None, timers: None, afi_safis: vec![] };
    assert!(!empty.get_passive_mode());
    assert_eq!(empty.get_local_as(), 0);
    assert_eq!(empty.get_remote_as(), 0);
    assert_eq!(empty.get_connect_retry_time(), 0);
    assert_eq!(empty.get_hold_time(), 0);
    assert!(empty.get_families().is_empty());
}

#[test]
fn peer_builders_and_status() {
    let p = rustybgp::peer::Peer::new(v4(7), 64512)
        .remote_as(65001)
        .passive(true)
        .hold_time(240)
        .connect_retry_time(9);
    assert_eq!(p.remote_as, 65001);
    assert!(p.passive);
    assert_eq!(p.hold_time, 240);
    assert_eq!(p.connect_retry_time, 9);
    // zero keeps the defaults
    let q = rustybgp::peer::Peer::new(v4(8), 64512).hold_time(0).connect_retry_time(0);
    assert_eq!(q.hold_time, 180);
    assert_eq!(q.connect_retry_time, 3);
    let shown = p.to_api();
    assert_eq!(shown.state.neighbor_address, v4(7));
    assert_eq!(shown.state.peer_as, 65001);
    assert_eq!(shown.state.session_state, 1);
    assert_eq!(shown.state.local_cap.len(), 2);
}

#[test]
fn open_params_echo_the_given_capabilities() {
    let caps = vec![Capability::RouteRefresh, Capability::FourOctetAsNumber { as_number: 1 }];
    let o = OpenMessage::new(5, 1, caps);
    assert_eq!(o.params.len(), 2);
    assert!(matches!(o.params[0], OpenParam::CapabilityParam(Capability::RouteRefresh)));
    assert!(matches!(
        o.params[1],
        OpenParam::CapabilityParam(Capability::FourOctetAsNumber { as_number: 1 })
    ));
    assert_eq!(o.as_number, 1);
}
