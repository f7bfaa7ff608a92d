use rustybgp::attr::{Attribute, Nlri, PathAttr, Segment};
use rustybgp::family::Family;
use rustybgp::net::{IpAddress, IpNet};
use rustybgp::rib::{Source, Table, TableUpdate};

fn v4(a: u32) -> IpAddress {
    IpAddress::V4(a)
}

fn net4(a: u32, mask: u8) -> Nlri {
    Nlri::Ip(IpNet { addr: IpAddress::V4(a), mask })
}

fn src(addr: u32, ibgp: bool) -> Source {
    Source { address: v4(addr), ibgp, local_as: 64512, local_addr: v4(0x0a000001) }
}

fn attrs(entry: Vec<Attribute>) -> PathAttr {
    PathAttr { entry }
}

fn lp(p: u32) -> Attribute {
    Attribute::LocalPref { preference: p }
}

#[test]
fn insert_creates_destination_and_reports_new_best() {
    let mut t = Table::new();
    let (u, added) = t.insert(Family::Ipv4Uc, net4(0x0a000000, 24), src(1, false), v4(9), attrs(vec![lp(100)]), 0);
    assert!(added);
    match u {
        Some(TableUpdate::NewBest(n, nh, a, s)) => {
            assert_eq!(n, net4(0x0a000000, 24));
            assert_eq!(nh, v4(9));
            assert_eq!(a.entry.len(), 1);
            assert_eq!(s.address, v4(1));
        }
        _ => panic!("expected a new best"),
    }
    assert_eq!(t.master.len(), 1);
    assert_eq!(t.master[0].dests.len(), 1);
    assert_eq!(t.master[0].dests[0].entry.len(), 1);
}

#[test]
fn insert_replaces_same_source_without_count() {
    let mut t = Table::new();
    let n = net4(0x0a000000, 24);
    let (_, added1) = t.insert(Family::Ipv4Uc, n, src(1, false), v4(9), attrs(vec![lp(100)]), 0);
    let (_, added2) = t.insert(Family::Ipv4Uc, n, src(1, false), v4(10), attrs(vec![lp(100)]), 0);
    assert!(added1);
    assert!(!added2);
    // the sources within the destination stay distinct (one entry)
    assert_eq!(t.master[0].dests[0].entry.len(), 1);
    assert_eq!(t.master[0].dests[0].entry[0].nexthop, v4(10));
}

#[test]
fn higher_local_pref_becomes_best() {
    let mut t = Table::new();
    let n = net4(0x0a000000, 24);
    t.insert(Family::Ipv4Uc, n, src(1, false), v4(9), attrs(vec![lp(100)]), 0);
    let (u, _) = t.insert(Family::Ipv4Uc, n, src(2, true), v4(10), attrs(vec![lp(200)]), 0);
    assert!(matches!(u, Some(TableUpdate::NewBest(..))));
    let e = &t.master[0].dests[0].entry;
    assert_eq!(e.len(), 2);
    assert_eq!(e[0].source.address, v4(2));
    assert_eq!(e[1].source.address, v4(1));
    // no other entry beats the head on the comparison chain
    assert!(e[0].get_local_preference() >= e[1].get_local_preference());
}

#[test]
fn lower_local_pref_goes_last_and_emits_nothing() {
    let mut t = Table::new();
    let n = net4(0x0a000000, 24);
    t.insert(Family::Ipv4Uc, n, src(1, false), v4(9), attrs(vec![lp(200)]), 0);
    let (u, _) = t.insert(Family::Ipv4Uc, n, src(2, false), v4(10), attrs(vec![lp(100)]), 0);
    assert!(u.is_none());
    let e = &t.master[0].dests[0].entry;
    assert_eq!(e[0].source.address, v4(1));
}

#[test]
fn later_criteria_never_override_preference() {
    // a candidate with lower preference goes last even when a later
    // criterion (here the discriminator) would favor it
    let mut t = Table::new();
    let n = net4(0x0a000000, 24);
    t.insert(
        Family::Ipv4Uc,
        n,
        src(1, false),
        v4(9),
        attrs(vec![lp(200), Attribute::MultiExitDesc { descriptor: 50 }]),
        0,
    );
    let (u, _) = t.insert(
        Family::Ipv4Uc,
        n,
        src(2, false),
        v4(10),
        attrs(vec![lp(100), Attribute::MultiExitDesc { descriptor: 1 }]),
        0,
    );
    assert!(u.is_none());
    let e = &t.master[0].dests[0].entry;
    assert_eq!(e[0].source.address, v4(1));
    assert_eq!(e[1].source.address, v4(2));
}

#[test]
fn replacing_the_head_with_worse_emits_nothing() {
    // the head's peer re-announces with a worse preference: the fresh
    // path lands below the other peer's and no update is returned
    let mut t = Table::new();
    let n = net4(0x0a000000, 24);
    t.insert(Family::Ipv4Uc, n, src(1, false), v4(9), attrs(vec![lp(200)]), 0);
    t.insert(Family::Ipv4Uc, n, src(2, false), v4(8), attrs(vec![lp(150)]), 0);
    let (u, added) = t.insert(Family::Ipv4Uc, n, src(1, false), v4(7), attrs(vec![lp(100)]), 0);
    assert!(u.is_none());
    assert!(!added);
    let e = &t.master[0].dests[0].entry;
    assert_eq!(e[0].source.address, v4(2));
    assert_eq!(e[1].source.address, v4(1));
}

#[test]
fn shorter_as_path_wins() {
    let mut t = Table::new();
    let n = net4(0x0a000000, 24);
    let long = Attribute::AsPath {
        segments: vec![Segment { segment_type: 2, number: vec![65001, 65002] }],
    };
    let short = Attribute::AsPath { segments: vec![Segment { segment_type: 2, number: vec![65001] }] };
    t.insert(Family::Ipv4Uc, n, src(1, false), v4(9), attrs(vec![long]), 0);
    let (u, _) = t.insert(Family::Ipv4Uc, n, src(2, false), v4(10), attrs(vec![short]), 0);
    assert!(matches!(u, Some(TableUpdate::NewBest(..))));
    assert_eq!(t.master[0].dests[0].entry[0].source.address, v4(2));
    assert_eq!(t.master[0].dests[0].entry[0].get_as_len(), 1);
    assert_eq!(t.master[0].dests[0].entry[1].get_as_len(), 2);
}

#[test]
fn withdraw_of_absent_prefix_returns_none_false() {
    let mut t = Table::new();
    let n = net4(0x0a000000, 24);
    t.insert(Family::Ipv4Uc, n, src(1, false), v4(9), attrs(vec![lp(100)]), 0);
    // a different prefix from the same peer
    let (u, removed) = t.remove(Family::Ipv4Uc, net4(0x0b000000, 24), src(1, false));
    assert!(u.is_none());
    assert!(!removed);
    // an unknown family
    let (u2, removed2) = t.remove(Family::Ipv6Uc, n, src(1, false));
    assert!(u2.is_none());
    assert!(!removed2);
    // a source that never announced
    let (u3, removed3) = t.remove(Family::Ipv4Uc, n, src(7, false));
    assert!(u3.is_none());
    assert!(!removed3);
    assert_eq!(t.master[0].dests[0].entry.len(), 1);
}

#[test]
fn withdraw_of_sole_path_removes_destination() {
    let mut t = Table::new();
    let n = net4(0x0a000000, 24);
    t.insert(Family::Ipv4Uc, n, src(1, false), v4(9), attrs(vec![lp(100)]), 0);
    let (u, removed) = t.remove(Family::Ipv4Uc, n, src(1, false));
    assert!(removed);
    match u {
        Some(TableUpdate::Withdrawn(n2, s)) => {
            assert_eq!(n2, n);
            assert_eq!(s.address, v4(1));
        }
        _ => panic!("expected a withdraw"),
    }
    assert_eq!(t.master[0].dests.len(), 0);
}

#[test]
fn withdraw_of_best_promotes_next() {
    let mut t = Table::new();
    let n = net4(0x0a000000, 24);
    t.insert(Family::Ipv4Uc, n, src(1, false), v4(9), attrs(vec![lp(100)]), 0);
    t.insert(Family::Ipv4Uc, n, src(2, true), v4(10), attrs(vec![lp(200)]), 0);
    let (u, removed) = t.remove(Family::Ipv4Uc, n, src(2, true));
    assert!(removed);
    match u {
        Some(TableUpdate::NewBest(n2, nh, _, s)) => {
            assert_eq!(n2, n);
            assert_eq!(nh, v4(9));
            assert_eq!(s.address, v4(1));
        }
        _ => panic!("expected a new best"),
    }
}

#[test]
fn add_then_delete_restores_the_table() {
    let mut t = Table::new();
    let n = net4(0x0a000000, 24);
    t.insert(Family::Ipv4Uc, n, src(1, false), v4(9), attrs(vec![lp(100)]), 0);
    let local = t.local_source;
    // a fresh local path comes and goes
    let other = net4(0x0b000000, 24);
    let (u1, _) = t.insert(Family::Ipv4Uc, other, local, v4(3), attrs(vec![lp(100)]), 0);
    assert!(matches!(u1, Some(TableUpdate::NewBest(..))));
    let (u2, removed) = t.remove(Family::Ipv4Uc, other, local);
    assert!(removed);
    // the destination was created by the insert, so a withdraw comes back
    assert!(matches!(u2, Some(TableUpdate::Withdrawn(..))));
    assert_eq!(t.master.len(), 1);
    assert_eq!(t.master[0].dests.len(), 1);
    assert_eq!(t.master[0].dests[0].entry.len(), 1);
    assert_eq!(t.master[0].dests[0].entry[0].source.address, v4(1));
}

#[test]
fn reinsert_equals_remove_then_insert() {
    let n = net4(0x0a000000, 24);
    // left: two inserts from the same source
    let mut a = Table::new();
    a.insert(Family::Ipv4Uc, n, src(1, false), v4(9), attrs(vec![lp(100)]), 0);
    a.insert(Family::Ipv4Uc, n, src(2, false), v4(7), attrs(vec![lp(50)]), 0);
    a.insert(Family::Ipv4Uc, n, src(1, false), v4(10), attrs(vec![lp(150)]), 0);
    // right: remove, then the second insert
    let mut b = Table::new();
    b.insert(Family::Ipv4Uc, n, src(1, false), v4(9), attrs(vec![lp(100)]), 0);
    b.insert(Family::Ipv4Uc, n, src(2, false), v4(7), attrs(vec![lp(50)]), 0);
    b.remove(Family::Ipv4Uc, n, src(1, false));
    b.insert(Family::Ipv4Uc, n, src(1, false), v4(10), attrs(vec![lp(150)]), 0);
    let ea = &a.master[0].dests[0].entry;
    let eb = &b.master[0].dests[0].entry;
    assert_eq!(ea.len(), eb.len());
    for k in 0..ea.len() {
        assert_eq!(ea[k].source.address, eb[k].source.address);
        assert_eq!(ea[k].nexthop, eb[k].nexthop);
        assert_eq!(ea[k].get_local_preference(), eb[k].get_local_preference());
    }
}

#[test]
fn collector_mode_inserts_first_and_emits_nothing() {
    let mut t = Table::new();
    t.disable_best_path_selection = true;
    let n = net4(0x0a000000, 24);
    let (u1, _) = t.insert(Family::Ipv4Uc, n, src(1, false), v4(9), attrs(vec![lp(200)]), 0);
    let (u2, _) = t.insert(Family::Ipv4Uc, n, src(2, false), v4(10), attrs(vec![lp(100)]), 0);
    assert!(u1.is_none());
    assert!(u2.is_none());
    // the later insertion sits at position 0 despite its lower preference
    assert_eq!(t.master[0].dests[0].entry[0].source.address, v4(2));
}

#[test]
fn broadcast_skips_originator_and_ibgp_pairs() {
    let mut t = Table::new();
    t.activate_peer(v4(1), src(1, false));
    t.activate_peer(v4(2), src(2, true));
    t.activate_peer(v4(3), src(3, true));
    let n = net4(0x0a000000, 24);
    let msg = TableUpdate::Withdrawn(n, src(2, true));
    // from an IBGP peer: the other IBGP peer and the originator get nothing
    let r = t.broadcast(src(2, true), &msg);
    assert_eq!(r.len(), 1);
    assert_eq!(r[0], v4(1));
    // from an EBGP peer: everyone else gets it
    let r2 = t.broadcast(src(1, false), &msg);
    assert_eq!(r2.len(), 2);
    assert!(r2.contains(&v4(2)));
    assert!(r2.contains(&v4(3)));
    assert!(!r2.contains(&v4(1)));
}

#[test]
fn clear_removes_every_path_of_a_source() {
    let mut t = Table::new();
    let n1 = net4(0x0a000000, 24);
    let n2 = net4(0x0b000000, 24);
    t.insert(Family::Ipv4Uc, n1, src(1, false), v4(9), attrs(vec![lp(100)]), 0);
    t.insert(Family::Ipv4Uc, n2, src(1, false), v4(9), attrs(vec![lp(100)]), 0);
    t.insert(Family::Ipv4Uc, n2, src(2, false), v4(8), attrs(vec![lp(200)]), 0);
    let ups = t.clear(src(1, false));
    // one destination vanished, the other lost a path
    assert_eq!(ups.len(), 1);
    assert!(matches!(ups[0], TableUpdate::Withdrawn(..)));
    assert_eq!(t.master[0].dests.len(), 1);
    assert_eq!(t.master[0].dests[0].entry.len(), 1);
    assert_eq!(t.master[0].dests[0].entry[0].source.address, v4(2));
}

#[test]
fn clear_walks_families_then_prefixes_in_order() {
    let mut t = Table::new();
    let n1 = net4(0x0a000000, 24);
    let n2 = net4(0x0b000000, 24);
    let n6 = Nlri::Ip(IpNet { addr: IpAddress::V6(7), mask: 64 });
    t.insert(Family::Ipv4Uc, n1, src(1, false), v4(9), attrs(vec![lp(100)]), 0);
    t.insert(Family::Ipv4Uc, n2, src(1, false), v4(9), attrs(vec![lp(300)]), 0);
    t.insert(Family::Ipv4Uc, n2, src(2, false), v4(8), attrs(vec![lp(200)]), 0);
    t.insert(Family::Ipv6Uc, n6, src(1, false), IpAddress::V6(9), attrs(vec![lp(100)]), 0);
    let ups = t.clear(src(1, false));
    // one update per affected destination, walking families then prefixes
    assert_eq!(ups.len(), 3);
    match &ups[0] {
        TableUpdate::Withdrawn(n, _) => assert_eq!(*n, n1),
        _ => panic!("expected a withdraw first"),
    }
    match &ups[1] {
        TableUpdate::NewBest(n, nh, _, _) => {
            assert_eq!(*n, n2);
            assert_eq!(*nh, v4(8));
        }
        _ => panic!("expected a new best second"),
    }
    match &ups[2] {
        TableUpdate::Withdrawn(n, _) => assert_eq!(*n, n6),
        _ => panic!("expected a withdraw last"),
    }
}

#[test]
fn clear_of_best_emits_new_best() {
    let mut t = Table::new();
    let n = net4(0x0a000000, 24);
    t.insert(Family::Ipv4Uc, n, src(1, false), v4(9), attrs(vec![lp(100)]), 0);
    t.insert(Family::Ipv4Uc, n, src(2, false), v4(8), attrs(vec![lp(200)]), 0);
    let ups = t.clear(src(2, false));
    assert_eq!(ups.len(), 1);
    match &ups[0] {
        TableUpdate::NewBest(n2, nh, _, _) => {
            assert_eq!(*n2, n);
            assert_eq!(*nh, v4(9));
        }
        _ => panic!("expected a new best"),
    }
}

#[test]
fn deactivate_then_broadcast_reaches_nobody() {
    let mut t = Table::new();
    t.activate_peer(v4(1), src(1, false));
    t.deactivate_peer(v4(1));
    let msg = TableUpdate::Withdrawn(net4(0x0a000000, 24), src(2, false));
    let r = t.broadcast(src(2, false), &msg);
    assert!(r.is_empty());
}

#[test]
fn sources_stay_distinct_across_mixed_operations() {
    let mut t = Table::new();
    let n = net4(0x0a000000, 24);
    for round in 0..3u32 {
        for peer in 1..5u32 {
            t.insert(
                Family::Ipv4Uc,
                n,
                src(peer, peer % 2 == 0),
                v4(peer),
                attrs(vec![lp(100 + peer * 10 + round)]),
                0,
            );
        }
    }
    let e = &t.master[0].dests[0].entry;
    assert_eq!(e.len(), 4);
    for i in 0..e.len() {
        assert!(!e.is_empty());
        for j in (i + 1)..e.len() {
            assert_ne!(e[i].source.address, e[j].source.address);
        }
    }
}

#[test]
fn get_as_len_sums_segments() {
    let p = rustybgp::rib::Path {
        source: src(1, false),
        nexthop: v4(9),
        timestamp: 0,
        attrs: attrs(vec![Attribute::AsPath {
            segments: vec![
                Segment { segment_type: 2, number: vec![65001, 65002] },
                Segment { segment_type: 1, number: vec![65003, 65004, 65005] },
            ],
        }]),
    };
    assert_eq!(p.get_as_len(), 5);
    assert_eq!(p.get_local_preference(), 100);
    assert_eq!(p.get_origin(), 0);
    assert_eq!(p.get_med(), 0);
}

#[test]
fn getters_take_first_matching_attribute() {
    let p = rustybgp::rib::Path {
        source: src(1, false),
        nexthop: v4(9),
        timestamp: 0,
        attrs: attrs(vec![
            Attribute::Origin { origin: 2 },
            Attribute::MultiExitDesc { descriptor: 77 },
            Attribute::LocalPref { preference: 333 },
        ]),
    };
    assert_eq!(p.get_origin(), 2);
    assert_eq!(p.get_med(), 77);
    assert_eq!(p.get_local_preference(), 333);
}
