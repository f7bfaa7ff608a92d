use vstd::prelude::*;
use crate::net::IpAddress;
use crate::family::Family;
use crate::attr::{
    Nlri, PathAttr, Attribute, attr_eq, attrs_eq, pattr_eq, spec_local_pref, spec_as_len,
    spec_origin, spec_med,
};
use crate::rewrite::{
    spec_kept, kept_upto, keep_pred, appended_rel, prepended_rel, aspath_segs_from,
};
use crate::rib::{
    Table, TableUpdate, Source, Path, Destination, FamilyTable, insert_post, remove_post,
    table_has_dest, table_entry, has_source, has_dst, dst_idx, first_source_idx, sel_pos, ins_pos,
    entry_after_insert, beats, is_first_source, lemma_fam_idx, lemma_dst_idx,
    lemma_first_source_unique, lemma_first_source, lemma_ins_pos_bounds, is_insert_pos,
    update_entry_frame,
};

verus! {

/// Equality of destinations by contents.
pub open spec fn dest_eq(x: Destination, y: Destination) -> bool {
    x.net == y.net && x.entry@ == y.entry@
}

/// Equality of family tables by contents.
pub open spec fn ft_eq(x: FamilyTable, y: FamilyTable) -> bool {
    &&& x.family == y.family
    &&& x.dests@.len() == y.dests@.len()
    &&& forall|j: int| 0 <= j < x.dests@.len() ==> dest_eq(#[trigger] x.dests@[j], y.dests@[j])
}

/// Equality of tables by contents, down to the order of destinations.
pub open spec fn table_eq(a: Table, b: Table) -> bool {
    &&& a.local_source == b.local_source
    &&& a.disable_best_path_selection == b.disable_best_path_selection
    &&& a.active_peers@ == b.active_peers@
    &&& a.master@.len() == b.master@.len()
    &&& forall|i: int| 0 <= i < a.master@.len() ==> ft_eq(#[trigger] a.master@[i], b.master@[i])
}

pub open spec fn is_withdrawn(u: Option<TableUpdate>) -> bool {
    match u {
        Some(TableUpdate::Withdrawn(_, _)) => true,
        _ => false,
    }
}

/// Inserting a path and removing it again restores the list.
pub proof fn lemma_insert_remove_id(s: Seq<Path>, i: int, x: Path)
    requires
        0 <= i <= s.len(),
    ensures
        s.insert(i, x).remove(i) == s,
{
    assert(s.insert(i, x).remove(i) =~= s);
}

/// A withdraw that matches no stored path returns `(None, false)` and
/// leaves the table exactly as it was.
pub proof fn law_withdraw_absent(
    t0: Table,
    family: Family,
    net: Nlri,
    source: Source,
    t1: Table,
    r: (Option<TableUpdate>, bool),
)
    requires
        remove_post(t0, family, net, source, t1, r),
        !table_has_dest(t0, family, net) || !has_source(
            table_entry(t0, family, net),
            source.address,
        ),
    ensures
        t1 == t0,
        r.0 is None,
        r.1 == false,
{
}

/// In collector mode an insertion lands at position 0 and no update is
/// emitted.
pub proof fn law_collector_mode(
    t0: Table,
    family: Family,
    net: Nlri,
    source: Source,
    nexthop: IpAddress,
    attrs: PathAttr,
    timestamp: u64,
    t1: Table,
    r: (Option<TableUpdate>, bool),
)
    requires
        t0.disable_best_path_selection,
        insert_post(t0, family, net, source, nexthop, attrs, timestamp, t1, r),
    ensures
        r.0 is None,
        table_entry(t1, family, net)[0] == (Path { source, nexthop, attrs, timestamp }),
{
    let e0 = if table_has_dest(t0, family, net) {
        table_entry(t0, family, net)
    } else {
        Seq::<Path>::empty()
    };
    let b = Path { source, nexthop, attrs, timestamp };
    if has_source(e0, source.address) {
        let e1 = e0.remove(first_source_idx(e0, source.address));
        assert(table_entry(t1, family, net) == e1.insert(0, b));
        assert(e1.insert(0, b)[0] == b);
    } else {
        assert(table_entry(t1, family, net) == e0.insert(0, b));
        assert(e0.insert(0, b)[0] == b);
    }
}

/// Inserting a path for a fresh source and then withdrawing it leaves the
/// table in the exact pre-call state, and the withdraw reports `Withdrawn`
/// exactly when the insert had created the destination. The family's
/// partition must already exist: clearing the sole destination keeps the
/// (now empty) partition, which a fresh insert would have created.
pub proof fn law_add_then_delete(
    t0: Table,
    family: Family,
    net: Nlri,
    source: Source,
    nexthop: IpAddress,
    attrs: PathAttr,
    timestamp: u64,
    t1: Table,
    r1: (Option<TableUpdate>, bool),
    t2: Table,
    r2: (Option<TableUpdate>, bool),
)
    requires
        t0.wf(),
        t1.wf(),
        t2.wf(),
        insert_post(t0, family, net, source, nexthop, attrs, timestamp, t1, r1),
        remove_post(t1, family, net, source, t2, r2),
        t0.has_fam(family),
        !table_has_dest(t0, family, net) || !has_source(
            table_entry(t0, family, net),
            source.address,
        ),
    ensures
        table_eq(t2, t0),
        is_withdrawn(r2.0) <==> !table_has_dest(t0, family, net),
{
    let b = Path { source, nexthop, attrs, timestamp };
    let disable = t0.disable_best_path_selection;
    lemma_fam_idx(t0, family);
    let fi = t0.fam_idx(family);
    assert(t0.master@[fi].wf());
    let d0 = t0.master@[fi].dests@;
    // the family keeps its position in t1
    assert(t1.master@[fi].family == family);
    assert(t1.has_fam(family));
    lemma_fam_idx(t1, family);
    assert(t1.fam_idx(family) == fi);
    let d1 = t1.master@[fi].dests@;
    if table_has_dest(t0, family, net) {
        lemma_dst_idx(d0, net);
        let di = dst_idx(d0, net);
        let e0 = table_entry(t0, family, net);
        assert(e0 == d0[di].entry@);
        assert(e0.len() >= 1);
        let ip = sel_pos(e0, b, disable);
        assert(0 <= ip <= e0.len()) by {
            lemma_ins_pos_bounds(e0, b);
        }
        let e1 = e0.insert(ip, b);
        assert(table_entry(t1, family, net) == e1);
        assert(e1.len() == e0.len() + 1);
        // the inserted path is the only one from this source
        assert(e1[ip] == b);
        assert(is_first_source(e1, source.address, ip)) by {
            assert forall|j: int| 0 <= j < ip implies (
            #[trigger] e1[j]).source.address != source.address by {
                assert(e1[j] == e0[j]);
            }
        }
        assert(has_source(e1, source.address));
        lemma_first_source_unique(e1, source.address, ip);
        assert(first_source_idx(e1, source.address) == ip);
        // the withdraw takes the shrink path
        assert(e1.len() >= 2);
        assert(update_entry_frame(t1, family, net, t2, e1.remove(ip)));
        lemma_insert_remove_id(e0, ip, b);
        assert(e1.remove(ip) == e0);
        // positions in t1
        assert(has_dst(d1, net)) by {
            assert(d1[di].net == net);
        }
        assert(t1.master@[fi].wf());
        lemma_dst_idx(d1, net);
        assert(dst_idx(d1, net) == di);
        // assemble equality
        let d2 = t2.master@[t1.fam_idx(family)].dests@;
        assert(t2.master@.len() == t0.master@.len());
        assert forall|i: int| 0 <= i < t0.master@.len() implies ft_eq(
            #[trigger] t2.master@[i],
            t0.master@[i],
        ) by {
            if i != fi {
                assert(t2.master@[i] == t1.master@[i]);
                assert(t1.master@[i] == t0.master@[i]);
            } else {
                assert(d2.len() == d1.len());
                assert(d1.len() == d0.len());
                assert forall|j: int| 0 <= j < d0.len() implies dest_eq(
                    #[trigger] t2.master@[i].dests@[j],
                    t0.master@[i].dests@[j],
                ) by {
                    if j != di {
                        assert(d2[j] == d1[j]);
                        assert(d1[j] == d0[j]);
                    } else {
                        assert(d2[di].net == net);
                        assert(d2[di].entry@ == e0);
                    }
                }
            }
        }
        assert(!is_withdrawn(r2.0));
    } else {
        // the insert created the destination at the end of the family list
        assert(d1.len() == d0.len() + 1);
        let e1 = table_entry(t1, family, net);
        assert(d1[d0.len() as int].entry@ == e1);
        let ip = sel_pos(Seq::<Path>::empty(), b, disable);
        assert(ip == 0);
        assert(e1 == Seq::<Path>::empty().insert(0, b));
        assert(e1.len() == 1);
        assert(e1[0] == b);
        assert(has_source(e1, source.address));
        // the withdraw takes the removal path
        lemma_dst_idx(d1, net);
        assert(t1.master@[fi].wf());
        let di1 = dst_idx(d1, net);
        assert(di1 == d0.len() as int) by {
            assert(d1[d0.len() as int].net == net);
        }
        let d2 = t2.master@[fi].dests@;
        assert(d2 == d1.remove(di1));
        assert(t2.master@.len() == t0.master@.len());
        assert forall|i: int| 0 <= i < t0.master@.len() implies ft_eq(
            #[trigger] t2.master@[i],
            t0.master@[i],
        ) by {
            if i != fi {
                assert(t2.master@[i] == t1.master@[i]);
                assert(t1.master@[i] == t0.master@[i]);
            } else {
                assert(d2.len() == d0.len());
                assert forall|j: int| 0 <= j < d0.len() implies dest_eq(
                    #[trigger] t2.master@[i].dests@[j],
                    t0.master@[i].dests@[j],
                ) by {
                    assert(d2[j] == d1[j]);
                    assert(d1[j] == d0[j]);
                }
            }
        }
        assert(is_withdrawn(r2.0));
    }
}

/// Equality of tables as maps: the same destinations hold the same path
/// lists, regardless of the order destinations are stored in.
pub open spec fn table_same_nets(a: Table, b: Table) -> bool {
    &&& a.local_source == b.local_source
    &&& a.disable_best_path_selection == b.disable_best_path_selection
    &&& a.active_peers@ == b.active_peers@
    &&& forall|f: Family, n: Nlri| #![trigger table_has_dest(a, f, n)]
        table_has_dest(a, f, n) ==> table_has_dest(b, f, n) && table_entry(b, f, n) == table_entry(
            a,
            f,
            n,
        )
    &&& forall|f: Family, n: Nlri| #![trigger table_has_dest(b, f, n)]
        table_has_dest(b, f, n) ==> table_has_dest(a, f, n)
}

/// An insertion at `(family, net)` leaves every other prefix's destination
/// exactly as it was.
pub proof fn lemma_insert_frame(
    t0: Table,
    family: Family,
    net: Nlri,
    source: Source,
    nexthop: IpAddress,
    attrs: PathAttr,
    timestamp: u64,
    t1: Table,
    r: (Option<TableUpdate>, bool),
    f2: Family,
    n2: Nlri,
)
    requires
        t0.wf(),
        t1.wf(),
        insert_post(t0, family, net, source, nexthop, attrs, timestamp, t1, r),
        !(f2 == family && n2 == net),
    ensures
        table_has_dest(t1, f2, n2) == table_has_dest(t0, f2, n2),
        table_has_dest(t0, f2, n2) ==> table_entry(t1, f2, n2) == table_entry(t0, f2, n2),
{
    if t0.has_fam(family) {
        lemma_fam_idx(t0, family);
        let fi = t0.fam_idx(family);
        assert(t0.master@[fi].wf());
        let d0 = t0.master@[fi].dests@;
        let d1 = t1.master@[fi].dests@;
        if f2 != family {
            if t0.has_fam(f2) {
                lemma_fam_idx(t0, f2);
                let fj = t0.fam_idx(f2);
                assert(fj != fi) by {
                    if fj == fi {
                        assert(t0.master@[fi].family == family);
                    }
                }
                assert(t1.master@[fj] == t0.master@[fj]);
                assert(t1.has_fam(f2));
                lemma_fam_idx(t1, f2);
                assert(t1.fam_idx(f2) == fj);
            } else {
                if t1.has_fam(f2) {
                    lemma_fam_idx(t1, f2);
                    let fj = t1.fam_idx(f2);
                    assert(fj != fi) by {
                        if fj == fi {
                            assert(t1.master@[fi].family == family);
                        }
                    }
                    assert(t1.master@[fj] == t0.master@[fj]);
                    assert(t0.has_fam(f2));
                }
            }
        } else {
            assert(t1.master@[fi].family == family);
            assert(t1.has_fam(family));
            lemma_fam_idx(t1, family);
            assert(t1.fam_idx(family) == fi);
            assert(t1.master@[fi].wf());
            if has_dst(d0, net) {
                lemma_dst_idx(d0, net);
                let di = dst_idx(d0, net);
                if has_dst(d0, n2) {
                    lemma_dst_idx(d0, n2);
                    let dj = dst_idx(d0, n2);
                    assert(dj != di) by {
                        if dj == di {
                            assert(d0[di].net == net);
                        }
                    }
                    assert(d1[dj] == d0[dj]);
                    assert(has_dst(d1, n2));
                    lemma_dst_idx(d1, n2);
                    assert(dst_idx(d1, n2) == dj);
                } else {
                    if has_dst(d1, n2) {
                        lemma_dst_idx(d1, n2);
                        let dj1 = dst_idx(d1, n2);
                        assert(dj1 != di) by {
                            if dj1 == di {
                                assert(d1[di].net == net);
                            }
                        }
                        assert(d1[dj1] == d0[dj1]);
                        assert(has_dst(d0, n2));
                    }
                }
            } else {
                // the destination was appended at the end
                if has_dst(d0, n2) {
                    lemma_dst_idx(d0, n2);
                    let dj = dst_idx(d0, n2);
                    assert(d1[dj] == d0[dj]);
                    assert(has_dst(d1, n2));
                    lemma_dst_idx(d1, n2);
                    assert(dst_idx(d1, n2) == dj);
                } else {
                    if has_dst(d1, n2) {
                        lemma_dst_idx(d1, n2);
                        let dj1 = dst_idx(d1, n2);
                        if dj1 < d0.len() {
                            assert(d1[dj1] == d0[dj1]);
                            assert(has_dst(d0, n2));
                        } else {
                            assert(d1[d0.len() as int].net == net);
                        }
                    }
                }
            }
        }
    } else {
        // a new family was appended at the end of the master list
        let m0 = t0.master@.len() as int;
        assert(t1.master@[m0].family == family);
        if f2 != family {
            if t0.has_fam(f2) {
                lemma_fam_idx(t0, f2);
                let fj = t0.fam_idx(f2);
                assert(t1.master@[fj] == t0.master@[fj]);
                assert(t1.has_fam(f2));
                lemma_fam_idx(t1, f2);
                assert(t1.fam_idx(f2) == fj);
            } else {
                if t1.has_fam(f2) {
                    lemma_fam_idx(t1, f2);
                    let fj = t1.fam_idx(f2);
                    assert(fj != m0) by {
                        if fj == m0 {
                            assert(t1.master@[m0].family == family);
                        }
                    }
                    assert(t1.master@[fj] == t0.master@[fj]);
                    assert(t0.has_fam(f2));
                }
            }
        } else {
            // family was absent from t0, so no destination of it existed
            assert(!table_has_dest(t0, f2, n2));
            assert(t1.has_fam(family)) by {
                assert(t1.master@[m0].family == family);
            }
            lemma_fam_idx(t1, family);
            assert(t1.fam_idx(family) == m0);
            let d1 = t1.master@[m0].dests@;
            assert(d1.len() == 1);
            assert(d1[0].net == net);
            if has_dst(d1, n2) {
                assert(t1.master@[m0].wf());
                lemma_dst_idx(d1, n2);
                assert(d1[dst_idx(d1, n2)].net == n2);
                assert(dst_idx(d1, n2) == 0);
            }
            assert(!has_dst(d1, n2));
            assert(!table_has_dest(t1, f2, n2));
        }
    }
}

/// Inserting twice from the same source for the same prefix reaches the
/// same table, as a map of destinations, as removing the source's path and
/// inserting the second one.
pub proof fn law_reinsert(
    t0: Table,
    family: Family,
    net: Nlri,
    source: Source,
    nh1: IpAddress,
    a1: PathAttr,
    ts1: u64,
    t1: Table,
    r1: (Option<TableUpdate>, bool),
    nh2: IpAddress,
    a2: PathAttr,
    ts2: u64,
    t2: Table,
    r2: (Option<TableUpdate>, bool),
    t3: Table,
    r3: (Option<TableUpdate>, bool),
    t4: Table,
    r4: (Option<TableUpdate>, bool),
)
    requires
        t0.wf(),
        t1.wf(),
        t2.wf(),
        t3.wf(),
        t4.wf(),
        insert_post(t0, family, net, source, nh1, a1, ts1, t1, r1),
        insert_post(t1, family, net, source, nh2, a2, ts2, t2, r2),
        remove_post(t0, family, net, source, t3, r3),
        insert_post(t3, family, net, source, nh2, a2, ts2, t4, r4),
    ensures
        table_same_nets(t2, t4),
{
    let b1 = Path { source, nexthop: nh1, attrs: a1, timestamp: ts1 };
    let b2 = Path { source, nexthop: nh2, attrs: a2, timestamp: ts2 };
    let disable = t0.disable_best_path_selection;
    let e0 = if table_has_dest(t0, family, net) {
        table_entry(t0, family, net)
    } else {
        Seq::<Path>::empty()
    };
    // the path list every branch ends at
    let e_base = if has_source(e0, source.address) {
        e0.remove(first_source_idx(e0, source.address))
    } else {
        e0
    };
    let e_fin = e_base.insert(sel_pos(e_base, b2, disable), b2);
    // left side: after the first insert the list holds exactly one path
    // from this source, namely b1 at its selection position
    let ip1 = sel_pos(e_base, b1, disable);
    lemma_ins_pos_bounds(e_base, b1);
    assert(0 <= ip1 <= e_base.len());
    let e1 = e_base.insert(ip1, b1);
    assert(table_entry(t1, family, net) == e1);
    assert(e1[ip1] == b1);
    assert(is_first_source(e1, source.address, ip1)) by {
        if has_source(e0, source.address) {
            let i0 = first_source_idx(e0, source.address);
            lemma_first_source(e0, source.address);
            assert forall|j: int| 0 <= j < ip1 implies (
            #[trigger] e1[j]).source.address != source.address by {
                assert(e1[j] == e_base[j]);
                assert(e_base[j] == if j < i0 {
                    e0[j]
                } else {
                    e0[j + 1]
                });
            }
        } else {
            assert forall|j: int| 0 <= j < ip1 implies (
            #[trigger] e1[j]).source.address != source.address by {
                assert(e1[j] == e_base[j]);
            }
        }
    }
    assert(has_source(e1, source.address));
    lemma_first_source_unique(e1, source.address, ip1);
    lemma_insert_remove_id(e_base, ip1, b1);
    let e2 = table_entry(t2, family, net);
    assert(e2 == e1.remove(ip1).insert(sel_pos(e1.remove(ip1), b2, disable), b2));
    assert(e1.remove(ip1) == e_base);
    assert(e2 == e_fin);
    // right side: the remove brings the list to e_base (or leaves the
    // destination absent), and the second insert lands the same way
    let e4 = table_entry(t4, family, net);
    if !table_has_dest(t0, family, net) || !has_source(e0, source.address) {
        assert(t3 == t0);
        assert(e4 == e_fin);
    } else {
        if e0.len() == 1 {
            // the destination disappeared in t3 and was recreated
            assert(e_base.len() == 0);
            lemma_remove_own_absent(t0, family, net, source, t3, r3);
            assert(!table_has_dest(t3, family, net));
            assert(e4 == Seq::<Path>::empty().insert(sel_pos(Seq::<Path>::empty(), b2, disable), b2));
            assert(e_base =~= Seq::<Path>::empty());
            assert(e4 == e_fin);
        } else {
            assert(table_entry(t3, family, net) == e_base) by {
                crate::rib::lemma_remove_own(t0, family, net, source, t3, r3);
            }
            assert(e4 == e_fin);
        }
    }
    // now compare the two tables prefix by prefix
    assert forall|f: Family, n: Nlri| #![trigger table_has_dest(t2, f, n)]
        table_has_dest(t2, f, n) implies table_has_dest(t4, f, n) && table_entry(t4, f, n)
        == table_entry(t2, f, n) by {
        if f == family && n == net {
            assert(table_entry(t2, f, n) == e_fin);
            assert(table_has_dest(t4, f, n));
            assert(table_entry(t4, f, n) == e_fin);
        } else {
            lemma_insert_frame(t1, family, net, source, nh2, a2, ts2, t2, r2, f, n);
            lemma_insert_frame(t0, family, net, source, nh1, a1, ts1, t1, r1, f, n);
            lemma_insert_frame(t3, family, net, source, nh2, a2, ts2, t4, r4, f, n);
            if table_has_dest(t0, family, net) && has_source(e0, source.address) {
                crate::rib::lemma_remove_frame(t0, family, net, source, t3, r3, f, n);
            }
        }
    }
    assert forall|f: Family, n: Nlri| #![trigger table_has_dest(t4, f, n)]
        table_has_dest(t4, f, n) implies table_has_dest(t2, f, n) by {
        if f == family && n == net {
            assert(table_has_dest(t2, f, n));
        } else {
            lemma_insert_frame(t1, family, net, source, nh2, a2, ts2, t2, r2, f, n);
            lemma_insert_frame(t0, family, net, source, nh1, a1, ts1, t1, r1, f, n);
            lemma_insert_frame(t3, family, net, source, nh2, a2, ts2, t4, r4, f, n);
            if table_has_dest(t0, family, net) && has_source(e0, source.address) {
                crate::rib::lemma_remove_frame(t0, family, net, source, t3, r3, f, n);
            }
        }
    }
}

/// The head of a destination's ordered list is best: with selection
/// enabled, no entry beats `entry[0]` under the comparison chain. This is
/// carried by the table's well-formedness, which every mutation
/// preserves.
pub proof fn law_best_at_head(t: Table, f: Family, n: Nlri)
    requires
        t.wf(),
        !t.disable_best_path_selection,
        table_has_dest(t, f, n),
    ensures
        forall|k: int|
            0 <= k < table_entry(t, f, n).len() ==> !beats(
                #[trigger] table_entry(t, f, n)[k],
                table_entry(t, f, n)[0],
            ),
{
    lemma_fam_idx(t, f);
    let fi = t.fam_idx(f);
    assert(t.master@[fi].wf());
    lemma_dst_idx(t.master@[fi].dests@, n);
    let di = dst_idx(t.master@[fi].dests@, n);
    let e = table_entry(t, f, n);
    assert(crate::rib::sorted_by_pref(t.master@[fi].dests@[di].entry@));
    assert forall|k: int| 0 <= k < e.len() implies !beats(#[trigger] e[k], e[0]) by {
        if k > 0 {
            assert(!beats(e[k], e[0]));
        } else {
            assert(!beats(e[0], e[0]));
        }
    }
}

pub proof fn lemma_attr_eq_trans(a: Attribute, b: Attribute, c: Attribute)
    requires
        attr_eq(a, b),
        attr_eq(b, c),
    ensures
        attr_eq(a, c),
{
}

pub proof fn lemma_attrs_eq_trans(a: Seq<Attribute>, b: Seq<Attribute>, c: Seq<Attribute>)
    requires
        attrs_eq(a, b),
        attrs_eq(b, c),
    ensures
        attrs_eq(a, c),
{
    assert forall|i: int| 0 <= i < a.len() implies attr_eq(#[trigger] a[i], c[i]) by {
        lemma_attr_eq_trans(a[i], b[i], c[i]);
    }
}

/// Attribute lists equal by contents filter to lists equal by contents.
pub proof fn lemma_kept_congruence(x: Seq<Attribute>, y: Seq<Attribute>, is_ibgp: bool, i: int)
    requires
        attrs_eq(x, y),
    ensures
        attrs_eq(kept_upto(x, is_ibgp, i), kept_upto(y, is_ibgp, i)),
    decreases i,
{
    if 0 < i <= x.len() {
        lemma_kept_congruence(x, y, is_ibgp, i - 1);
        crate::attr::lemma_attr_eq_code(x[i - 1], y[i - 1]);
        assert(keep_pred(x[i - 1], is_ibgp) == keep_pred(y[i - 1], is_ibgp));
        if keep_pred(x[i - 1], is_ibgp) {
            let kx = kept_upto(x, is_ibgp, i - 1);
            let ky = kept_upto(y, is_ibgp, i - 1);
            assert forall|k: int|
                0 <= k < kx.push(x[i - 1]).len() implies attr_eq(
                #[trigger] kx.push(x[i - 1])[k],
                ky.push(y[i - 1])[k],
            ) by {
                if k < kx.len() {
                    assert(kx.push(x[i - 1])[k] == kx[k]);
                    assert(ky.push(y[i - 1])[k] == ky[k]);
                }
            }
        }
    }
}

/// Attribute lists equal by contents carry AS paths equal by contents.
pub proof fn lemma_aspath_segs_congruence(x: Seq<Attribute>, y: Seq<Attribute>, i: int)
    requires
        attrs_eq(x, y),
    ensures
        crate::attr::segs_eq(aspath_segs_from(x, i), aspath_segs_from(y, i)),
    decreases x.len() - i,
{
    if 0 <= i < x.len() {
        match (x[i], y[i]) {
            (Attribute::AsPath { segments: sx }, Attribute::AsPath { segments: sy }) => {
                assert(attr_eq(x[i], y[i]));
            }
            _ => {
                lemma_aspath_segs_congruence(x, y, i + 1);
            }
        }
    }
}

/// The prepend relation only reads the segments' contents.
pub proof fn lemma_prepended_rel_congruence(
    a: Seq<crate::attr::Segment>,
    b: Seq<crate::attr::Segment>,
    local_as: u32,
    new_segs: Seq<crate::attr::Segment>,
)
    requires
        crate::attr::segs_eq(a, b),
        prepended_rel(a, local_as, new_segs),
    ensures
        prepended_rel(b, local_as, new_segs),
{
    let m = a.len() as int;
    if m > 0 {
        assert(crate::attr::seg_eq(a[m - 1], b[m - 1]));
        if b[m - 1].segment_type != crate::attr::SEGMENT_TYPE_SEQ || b[m - 1].number@.len()
            == 255 {
            assert forall|k: int| 0 <= k < m implies crate::attr::seg_eq(
                #[trigger] new_segs[k + 1],
                b[m - 1 - k],
            ) by {
                assert(crate::attr::seg_eq(new_segs[k + 1], a[m - 1 - k]));
                assert(crate::attr::seg_eq(a[m - 1 - k], b[m - 1 - k]));
            }
        } else {
            assert(new_segs[0].number@ == seq![local_as] + b[m - 1].number@);
            assert forall|k: int| 1 <= k < m implies crate::attr::seg_eq(
                #[trigger] new_segs[k],
                b[m - 1 - k],
            ) by {
                assert(crate::attr::seg_eq(new_segs[k], a[m - 1 - k]));
                assert(crate::attr::seg_eq(a[m - 1 - k], b[m - 1 - k]));
            }
        }
    }
}

/// The appended list of the rewriter depends only on the contents of the
/// stored attributes.
pub proof fn lemma_appended_rel_congruence(
    x: Seq<Attribute>,
    y: Seq<Attribute>,
    is_ibgp: bool,
    is_mp: bool,
    local_as: u32,
    nlri: Nlri,
    original_nexthop: IpAddress,
    local_addr: IpAddress,
    ap: Seq<Attribute>,
)
    requires
        attrs_eq(x, y),
        appended_rel(x, is_ibgp, is_mp, local_as, nlri, original_nexthop, local_addr, ap),
    ensures
        appended_rel(y, is_ibgp, is_mp, local_as, nlri, original_nexthop, local_addr, ap),
{
    crate::attr::lemma_attrs_eq_codes(x, y, crate::attr::ATTR_AS_PATH);
    crate::attr::lemma_attrs_eq_codes(x, y, crate::attr::ATTR_LOCAL_PREF);
    if !is_ibgp && crate::attr::contains_code(x, crate::attr::ATTR_AS_PATH) {
        lemma_aspath_segs_congruence(x, y, 0);
        match ap[0] {
            Attribute::AsPath { segments } => {
                lemma_prepended_rel_congruence(
                    crate::rewrite::spec_aspath_segs(x),
                    crate::rewrite::spec_aspath_segs(y),
                    local_as,
                    segments@,
                );
            }
            _ => {}
        }
    }
}

/// What a newly established peer is sent for one dumped destination is
/// exactly what the rewriter produces for the destination's current head:
/// the dump carries a copy of the head's attributes, and the kept and
/// appended lists the rewriter derived from that copy are the ones it
/// derives from the stored head itself.
pub proof fn law_initial_dump_rewrite(
    t: Table,
    fams: Seq<Family>,
    source: Source,
    f: Family,
    n: Nlri,
    a: PathAttr,
    is_mp: bool,
    kept: Seq<Attribute>,
    ap: Seq<Attribute>,
)
    requires
        table_has_dest(t, f, n),
        crate::rib::family_in(fams, f),
        table_entry(t, f, n).len() > 0,
        pattr_eq(table_entry(t, f, n)[0].attrs, a),
        attrs_eq(kept, spec_kept(a.entry@, source.ibgp)),
        appended_rel(
            a.entry@,
            source.ibgp,
            is_mp,
            source.local_as,
            n,
            table_entry(t, f, n)[0].nexthop,
            source.local_addr,
            ap,
        ),
    ensures
        attrs_eq(kept, spec_kept(table_entry(t, f, n)[0].attrs.entry@, source.ibgp)),
        appended_rel(
            table_entry(t, f, n)[0].attrs.entry@,
            source.ibgp,
            is_mp,
            source.local_as,
            n,
            table_entry(t, f, n)[0].nexthop,
            source.local_addr,
            ap,
        ),
{
    let e0 = table_entry(t, f, n)[0].attrs.entry@;
    lemma_kept_congruence(a.entry@, e0, source.ibgp, a.entry@.len() as int);
    assert(attrs_eq(a.entry@, e0)) by {
        assert forall|i: int| 0 <= i < a.entry@.len() implies attr_eq(
            #[trigger] a.entry@[i],
            e0[i],
        ) by {
            lemma_attr_eq_sym(e0[i], a.entry@[i]);
        }
    }
    lemma_kept_congruence(a.entry@, e0, source.ibgp, a.entry@.len() as int);
    lemma_attrs_eq_trans(
        kept,
        spec_kept(a.entry@, source.ibgp),
        spec_kept(e0, source.ibgp),
    );
    lemma_appended_rel_congruence(
        a.entry@,
        e0,
        source.ibgp,
        is_mp,
        source.local_as,
        n,
        table_entry(t, f, n)[0].nexthop,
        source.local_addr,
        ap,
    );
}

pub proof fn lemma_attr_eq_sym(a: Attribute, b: Attribute)
    requires
        attr_eq(a, b),
    ensures
        attr_eq(b, a),
{
}

/// A removal that empties a singleton destination leaves no destination
/// for the prefix.
proof fn lemma_remove_own_absent(
    t0: Table,
    family: Family,
    net: Nlri,
    source: Source,
    t1: Table,
    r: (Option<TableUpdate>, bool),
)
    requires
        t0.wf(),
        t1.wf(),
        remove_post(t0, family, net, source, t1, r),
        table_has_dest(t0, family, net),
        has_source(table_entry(t0, family, net), source.address),
        table_entry(t0, family, net).len() == 1,
    ensures
        !table_has_dest(t1, family, net),
{
    crate::rib::lemma_remove_own(t0, family, net, source, t1, r);
}

} // verus!
