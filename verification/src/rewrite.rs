use vstd::prelude::*;
use crate::net::IpAddress;
use crate::family::Family;
use crate::attr::{
    Attribute, Segment, Nlri, seg_eq, attr_eq, attrs_eq, contains_code, ATTR_AS_PATH,
    ATTR_MULTI_EXIT_DESC, ATTR_LOCAL_PREF, DEFAULT_LOCAL_PREF, SEGMENT_TYPE_SEQ,
};

verus! {

/// Whether an attribute stays in the kept list: it must be transitive,
/// and over EBGP the AS path (rewritten separately) and the multi-exit
/// discriminator leave the set.
pub open spec fn keep_pred(a: Attribute, is_ibgp: bool) -> bool {
    a.spec_is_transitive() && (is_ibgp || (a.spec_attr() != ATTR_AS_PATH && a.spec_attr()
        != ATTR_MULTI_EXIT_DESC))
}

/// The first `i` attributes, filtered by `keep_pred`, in order.
pub open spec fn kept_upto(attrs: Seq<Attribute>, is_ibgp: bool, i: int) -> Seq<Attribute>
    decreases i,
{
    if i <= 0 || i > attrs.len() {
        Seq::empty()
    } else {
        let rest = kept_upto(attrs, is_ibgp, i - 1);
        if keep_pred(attrs[i - 1], is_ibgp) {
            rest.push(attrs[i - 1])
        } else {
            rest
        }
    }
}

pub open spec fn spec_kept(attrs: Seq<Attribute>, is_ibgp: bool) -> Seq<Attribute> {
    kept_upto(attrs, is_ibgp, attrs.len() as int)
}

/// The segments of the first AS-path attribute from index `i` on; empty
/// when none is present.
pub open spec fn aspath_segs_from(attrs: Seq<Attribute>, i: int) -> Seq<Segment>
    decreases attrs.len() - i,
{
    if i < 0 || i >= attrs.len() {
        Seq::empty()
    } else {
        match attrs[i] {
            Attribute::AsPath { segments } => segments@,
            _ => aspath_segs_from(attrs, i + 1),
        }
    }
}

pub open spec fn spec_aspath_segs(attrs: Seq<Attribute>) -> Seq<Segment> {
    aspath_segs_from(attrs, 0)
}

/// How the local AS is prepended to an AS path on EBGP egress. The stored
/// segments are reversed while being copied; then, when the leading
/// segment is an AS_SEQUENCE with room (fewer than 255 entries), the
/// local AS joins its front, and otherwise a fresh one-element
/// AS_SEQUENCE is put first.
pub open spec fn prepended_rel(old_segs: Seq<Segment>, local_as: u32, new_segs: Seq<Segment>) -> bool {
    let m = old_segs.len() as int;
    if m == 0 {
        &&& new_segs.len() == 1
        &&& new_segs[0].segment_type == SEGMENT_TYPE_SEQ
        &&& new_segs[0].number@ == seq![local_as]
    } else if old_segs[m - 1].segment_type != SEGMENT_TYPE_SEQ || old_segs[m - 1].number@.len()
        == 255 {
        &&& new_segs.len() == m + 1
        &&& new_segs[0].segment_type == SEGMENT_TYPE_SEQ
        &&& new_segs[0].number@ == seq![local_as]
        &&& forall|k: int| 0 <= k < m ==> seg_eq(#[trigger] new_segs[k + 1], old_segs[m - 1 - k])
    } else {
        &&& new_segs.len() == m
        &&& new_segs[0].segment_type == SEGMENT_TYPE_SEQ
        &&& new_segs[0].number@ == seq![local_as] + old_segs[m - 1].number@
        &&& forall|k: int| 1 <= k < m ==> seg_eq(#[trigger] new_segs[k], old_segs[m - 1 - k])
    }
}

/// The nexthop attribute appended for one outbound route.
pub open spec fn nexthop_attr_ok(a: Attribute, is_mp: bool, nh: IpAddress, nlri: Nlri) -> bool {
    if is_mp {
        match a {
            Attribute::MpReach { family, nexthop, nlri: l } => {
                &&& family == Family::Ipv6Uc
                &&& nexthop == nh
                &&& l@ == seq![nlri]
            }
            _ => false,
        }
    } else {
        a == (Attribute::Nexthop { nexthop: nh })
    }
}

/// The AS-path appended when the stored attributes had none: empty for
/// IBGP, a one-element AS_SEQUENCE of the local AS for EBGP.
pub open spec fn is_default_aspath(a: Attribute, is_ibgp: bool, local_as: u32) -> bool {
    match a {
        Attribute::AsPath { segments } => {
            if is_ibgp {
                segments@.len() == 0
            } else {
                &&& segments@.len() == 1
                &&& segments@[0].segment_type == SEGMENT_TYPE_SEQ
                &&& segments@[0].number@ == seq![local_as]
            }
        }
        _ => false,
    }
}

/// The appended list of the rewriter: the rewritten AS path (EBGP, when
/// one was stored), the nexthop attribute, a default AS path when none
/// was stored, and a default local preference for IBGP when none was
/// stored, in this order.
pub open spec fn appended_rel(
    attrs: Seq<Attribute>,
    is_ibgp: bool,
    is_mp: bool,
    local_as: u32,
    nlri: Nlri,
    original_nexthop: IpAddress,
    local_addr: IpAddress,
    ap: Seq<Attribute>,
) -> bool {
    let has_aspath = contains_code(attrs, ATTR_AS_PATH);
    let has_lp = contains_code(attrs, ATTR_LOCAL_PREF);
    let n_pre: int = if !is_ibgp && has_aspath {
        1
    } else {
        0
    };
    let n_def_as: int = if !has_aspath {
        1
    } else {
        0
    };
    let n_lp: int = if !has_lp && is_ibgp {
        1
    } else {
        0
    };
    let nh = if is_ibgp {
        original_nexthop
    } else {
        local_addr
    };
    &&& ap.len() == n_pre + 1 + n_def_as + n_lp
    &&& (n_pre == 1 ==> match ap[0] {
        Attribute::AsPath { segments } => prepended_rel(spec_aspath_segs(attrs), local_as, segments@),
        _ => false,
    })
    &&& nexthop_attr_ok(ap[n_pre], is_mp, nh, nlri)
    &&& (n_def_as == 1 ==> is_default_aspath(ap[n_pre + 1], is_ibgp, local_as))
    &&& (n_lp == 1 ==> ap[n_pre + 1 + n_def_as] == (Attribute::LocalPref {
        preference: DEFAULT_LOCAL_PREF,
    }))
}

/// Reverses the segments into a fresh list and joins the local AS to its
/// front as `prepended_rel` says.
fn prepend_local_as(segs: &Vec<Segment>, local_as: u32) -> (r: Vec<Segment>)
    ensures
        prepended_rel(segs@, local_as, r@),
{
    let m = segs.len();
    if m == 0 {
        let mut number: Vec<u32> = Vec::new();
        number.push(local_as);
        let mut r: Vec<Segment> = Vec::new();
        r.push(Segment { segment_type: SEGMENT_TYPE_SEQ, number });
        proof {
            assert(r@[0].number@ =~= seq![local_as]);
        }
        return r;
    }
    // copy in reverse order
    let mut rev: Vec<Segment> = Vec::new();
    let mut i: usize = 0;
    while i < m
        invariant
            i <= m,
            m == segs@.len(),
            rev@.len() == i,
            forall|k: int| 0 <= k < i ==> seg_eq(#[trigger] rev@[k], segs@[m - 1 - k]),
        decreases m - i,
    {
        rev.push(segs[m - 1 - i].duplicate());
        i = i + 1;
    }
    let head_is_seq = rev[0].segment_type == SEGMENT_TYPE_SEQ;
    let head_len = rev[0].number.len();
    if !head_is_seq || head_len == 255 {
        let mut number: Vec<u32> = Vec::new();
        number.push(local_as);
        let ghost rv = rev@;
        rev.insert(0, Segment { segment_type: SEGMENT_TYPE_SEQ, number });
        proof {
            assert(rev@[0].number@ =~= seq![local_as]);
            assert forall|k: int| 0 <= k < m implies seg_eq(
                #[trigger] rev@[k + 1],
                segs@[m - 1 - k],
            ) by {
                assert(rev@[k + 1] == rv[k]);
            }
        }
        rev
    } else {
        let ghost rv = rev@;
        let mut head = Segment { segment_type: SEGMENT_TYPE_SEQ, number: Vec::new() };
        rev.set_and_swap(0, &mut head);
        head.number.insert(0, local_as);
        let ghost hn = head.number@;
        let ghost hkept = head;
        rev.set_and_swap(0, &mut head);
        proof {
            assert(rev@[0] == hkept);
            assert(hn == seq![local_as] + rv[0].number@) by {
                assert(hn =~= seq![local_as] + rv[0].number@);
            }
            assert(rv[0].number@ == segs@[m - 1].number@);
            assert(rev@[0].segment_type == SEGMENT_TYPE_SEQ);
            assert(rev@[0].number@ == seq![local_as] + segs@[m - 1].number@);
            assert forall|k: int| 1 <= k < m implies seg_eq(
                #[trigger] rev@[k],
                segs@[m - 1 - k],
            ) by {
                assert(rev@[k] == rv[k]);
            }
        }
        rev
    }
}

/// Derives the outbound attribute set for one route from the stored one,
/// given the peer's stance: `(kept, appended)`, which the caller
/// concatenates and sorts by type code.
pub fn update_attrs(
    is_ibgp: bool,
    is_mp: bool,
    local_as: u32,
    nlri: Nlri,
    original_nexthop: IpAddress,
    local_addr: IpAddress,
    attrs: &Vec<Attribute>,
) -> (r: (Vec<Attribute>, Vec<Attribute>))
    ensures
        attrs_eq(r.0@, spec_kept(attrs@, is_ibgp)),
        appended_rel(
            attrs@,
            is_ibgp,
            is_mp,
            local_as,
            nlri,
            original_nexthop,
            local_addr,
            r.1@,
        ),
{
    let n = attrs.len();
    let mut kept: Vec<Attribute> = Vec::new();
    let mut appended: Vec<Attribute> = Vec::new();
    let mut saw_aspath = false;
    let mut saw_lp = false;
    let mut i: usize = 0;
    while i < n
        invariant
            i <= n,
            n == attrs@.len(),
            attrs_eq(kept@, kept_upto(attrs@, is_ibgp, i as int)),
            saw_aspath == contains_code(attrs@.take(i as int), ATTR_AS_PATH),
            saw_lp == contains_code(attrs@.take(i as int), ATTR_LOCAL_PREF),
            !is_ibgp && contains_code(attrs@.take(i as int), ATTR_AS_PATH) ==> {
                &&& appended@.len() == 1
                &&& match appended@[0] {
                    Attribute::AsPath { segments } => prepended_rel(
                        spec_aspath_segs(attrs@),
                        local_as,
                        segments@,
                    ),
                    _ => false,
                }
            },
            !(!is_ibgp && contains_code(attrs@.take(i as int), ATTR_AS_PATH)) ==> appended@.len()
                == 0,
            contains_code(attrs@.take(i as int), ATTR_AS_PATH)
                ==> spec_aspath_segs(attrs@) == aspath_segs_from(attrs@, 0),
        decreases n - i,
    {
        let a = &attrs[i];
        proof {
            assert(attrs@.take(i + 1) =~= attrs@.take(i as int).push(attrs@[i as int]));
            assert forall|c: u8|
                contains_code(attrs@.take(i + 1), c) == (contains_code(attrs@.take(i as int), c)
                    || attrs@[i as int].spec_attr() == c) by {
                let t1 = attrs@.take(i + 1);
                let t0 = attrs@.take(i as int);
                if contains_code(t1, c) {
                    let w = choose|w: int| 0 <= w < t1.len() && (#[trigger] t1[w]).spec_attr() == c;
                    if w < i as int {
                        assert(t0[w].spec_attr() == c);
                    }
                }
                if contains_code(t0, c) {
                    let w = choose|w: int| 0 <= w < t0.len() && (#[trigger] t0[w]).spec_attr() == c;
                    assert(t1[w].spec_attr() == c);
                }
                if attrs@[i as int].spec_attr() == c {
                    assert(t1[i as int].spec_attr() == c);
                }
            }
        }
        let code = a.attr();
        let is_aspath_attr = matches!(a, Attribute::AsPath { .. });
        proof {
            if is_aspath_attr && !saw_aspath {
                // the first AS path decides `spec_aspath_segs`
                assert forall|j: int|
                    0 <= j <= i as int implies aspath_segs_from(attrs@, j) == aspath_segs_from(
                    attrs@,
                    i as int,
                ) by {
                    assert forall|k: int|
                        0 <= k < i as int implies !((#[trigger] attrs@[k]) is AsPath) by {
                        if attrs@[k] is AsPath {
                            assert(attrs@.take(i as int)[k].spec_attr() == ATTR_AS_PATH);
                        }
                    }
                    lemma_aspath_segs_skip(attrs@, j, i as int);
                }
            }
        }
        if !is_ibgp {
            if let Attribute::AsPath { segments } = a {
                let newsegs = prepend_local_as(segments, local_as);
                if !saw_aspath {
                    appended.push(Attribute::AsPath { segments: newsegs });
                }
                saw_aspath = true;
                i = i + 1;
                continue;
            }
            if matches!(a, Attribute::MultiExitDesc { .. }) {
                i = i + 1;
                continue;
            }
        }
        if is_aspath_attr {
            saw_aspath = true;
        }
        if matches!(a, Attribute::LocalPref { .. }) {
            saw_lp = true;
        }
        if a.is_transitive() {
            kept.push(a.duplicate());
        }
        i = i + 1;
    }
    proof {
        assert(attrs@.take(n as int) =~= attrs@);
        assert(attrs_eq(kept@, spec_kept(attrs@, is_ibgp)));
    }
    let nh = if is_ibgp {
        original_nexthop
    } else {
        local_addr
    };
    if is_mp {
        let mut l: Vec<Nlri> = Vec::new();
        l.push(nlri);
        proof {
            assert(l@ =~= seq![nlri]);
        }
        appended.push(Attribute::MpReach { family: Family::Ipv6Uc, nexthop: nh, nlri: l });
    } else {
        appended.push(Attribute::Nexthop { nexthop: nh });
    }
    if !saw_aspath {
        if is_ibgp {
            appended.push(Attribute::AsPath { segments: Vec::new() });
        } else {
            let mut number: Vec<u32> = Vec::new();
            number.push(local_as);
            let mut segs: Vec<Segment> = Vec::new();
            segs.push(Segment { segment_type: SEGMENT_TYPE_SEQ, number });
            proof {
                assert(segs@[0].number@ =~= seq![local_as]);
            }
            appended.push(Attribute::AsPath { segments: segs });
        }
    }
    if !saw_lp && is_ibgp {
        appended.push(Attribute::LocalPref { preference: DEFAULT_LOCAL_PREF });
    }
    (kept, appended)
}

/// The attributes are ordered by type code.
pub open spec fn sorted_by_code(s: Seq<Attribute>) -> bool {
    forall|i: int, j: int| #![trigger s[i], s[j]]
        0 <= i <= j < s.len() ==> s[i].spec_attr() <= s[j].spec_attr()
}

proof fn lemma_insert_multiset(s: Seq<Attribute>, j: int, x: Attribute)
    requires
        0 <= j <= s.len(),
    ensures
        s.insert(j, x).to_multiset() == s.to_multiset().insert(x),
{
    broadcast use vstd::seq_lib::group_to_multiset_ensures;

    let t = s.insert(j, x);
    assert(t.remove(j) =~= s);
    assert(t.remove(j).to_multiset() =~= t.to_multiset().remove(t[j]));
    assert(t[j] == x);
    assert(t.to_multiset().contains(x)) by {
        assert(t.contains(x)) by {
            assert(t[j] == x);
        }
    }
    assert(t.to_multiset() =~= s.to_multiset().insert(x));
}

/// Sorts the attributes of one outbound update by type code; the result
/// holds the same attributes.
pub fn sort_by_code(v: Vec<Attribute>) -> (r: Vec<Attribute>)
    ensures
        sorted_by_code(r@),
        r@.to_multiset() == v@.to_multiset(),
{
    broadcast use vstd::seq_lib::group_to_multiset_ensures;

    let mut out: Vec<Attribute> = Vec::new();
    let mut rest = v;
    let ghost all = rest@;
    proof {
        assert(out@.to_multiset().add(rest@.to_multiset()) =~= all.to_multiset());
    }
    while rest.len() > 0
        invariant
            sorted_by_code(out@),
            out@.to_multiset().add(rest@.to_multiset()) == all.to_multiset(),
        decreases rest@.len(),
    {
        let ghost rest0 = rest@;
        let ghost out0 = out@;
        let x = rest.pop().unwrap();
        proof {
            broadcast use vstd::seq_lib::group_to_multiset_ensures;

            assert(rest0 =~= rest@.push(x));
            assert(rest@.push(x).to_multiset() =~= rest@.to_multiset().insert(x));
            assert(rest0.to_multiset() == rest@.to_multiset().insert(x));
        }
        let code = x.attr();
        let n = out.len();
        let mut pos: usize = 0;
        while pos < n && out[pos].attr() <= code
            invariant
                pos <= n,
                n == out@.len(),
                out@ == out0,
                forall|k: int| 0 <= k < pos ==> (#[trigger] out@[k]).spec_attr() <= code,
            decreases n - pos,
        {
            pos = pos + 1;
        }
        proof {
            if (pos as int) < out@.len() {
                assert(out@[pos as int].spec_attr() > code);
            }
        }
        out.insert(pos, x);
        proof {
            broadcast use vstd::seq_lib::group_to_multiset_ensures;

            assert forall|i: int, j: int|
                #![trigger out@[i], out@[j]]
                0 <= i <= j < out@.len() implies out@[i].spec_attr() <= out@[j].spec_attr() by {
                assert(out@[i] == if i < pos as int {
                    out0[i]
                } else if i == pos as int {
                    x
                } else {
                    out0[i - 1]
                });
                assert(out@[j] == if j < pos as int {
                    out0[j]
                } else if j == pos as int {
                    x
                } else {
                    out0[j - 1]
                });
                if (pos as int) < out0.len() {
                    assert(out0[pos as int].spec_attr() > code);
                }
            }
            lemma_insert_multiset(out0, pos as int, x);
            assert(out@.to_multiset().add(rest@.to_multiset()) =~= all.to_multiset());
        }
    }
    proof {
        assert(rest@.to_multiset() =~= Seq::<Attribute>::empty().to_multiset());
        assert(out@.to_multiset() =~= all.to_multiset());
    }
    out
}

/// Skipping leading non-AS-path attributes does not change which segments
/// are found.
proof fn lemma_aspath_segs_skip(attrs: Seq<Attribute>, j: int, i: int)
    requires
        0 <= j <= i <= attrs.len(),
        forall|k: int| j <= k < i ==> !((#[trigger] attrs[k]) is AsPath),
    ensures
        aspath_segs_from(attrs, j) == aspath_segs_from(attrs, i),
    decreases i - j,
{
    if j < i {
        lemma_aspath_segs_skip(attrs, j + 1, i);
    }
}

} // verus!
