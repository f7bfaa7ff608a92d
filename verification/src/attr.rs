use vstd::prelude::*;
use crate::net::{IpAddress, IpNet};
use crate::family::Family;

verus! {

/// A destination identifier: for this core, always an IP prefix.
#[derive(Clone, Copy, PartialEq, Eq, Structural, Hash, Debug)]
pub enum Nlri {
    Ip(IpNet),
}

impl Nlri {
    pub open spec fn spec_net(self) -> IpNet {
        match self {
            Nlri::Ip(n) => n,
        }
    }

    pub open spec fn is_v4(self) -> bool {
        self.spec_net().addr.is_v4()
    }

    /// Whether the prefix is an IPv4 one.
    pub fn net_is_v4(&self) -> (r: bool)
        ensures
            r == self.is_v4(),
    {
        match self {
            Nlri::Ip(n) => n.addr.is_ipv4(),
        }
    }
}

/// One segment of an AS path.
#[derive(Clone, Debug)]
pub struct Segment {
    pub segment_type: u8,
    pub number: Vec<u32>,
}

pub const SEGMENT_TYPE_SET: u8 = 1;

pub const SEGMENT_TYPE_SEQ: u8 = 2;

impl Segment {
    /// The number of AS entries the segment contributes to the path length.
    pub fn as_len(&self) -> (r: usize)
        ensures
            r == self.number@.len(),
    {
        self.number.len()
    }
}

/// A BGP path attribute.
#[derive(Clone, Debug)]
pub enum Attribute {
    Origin { origin: u8 },
    AsPath { segments: Vec<Segment> },
    Nexthop { nexthop: IpAddress },
    MultiExitDesc { descriptor: u32 },
    LocalPref { preference: u32 },
    AtomicAggregate,
    Aggregator { four_byte: bool, number: u32, address: IpAddress },
    Community { communities: Vec<u32> },
    OriginatorId { address: IpAddress },
    ClusterList { addresses: Vec<IpAddress> },
    MpReach { family: Family, nexthop: IpAddress, nlri: Vec<Nlri> },
    MpUnreach { family: Family, nlri: Vec<Nlri> },
}

pub const ATTR_ORIGIN: u8 = 1;

pub const ATTR_AS_PATH: u8 = 2;

pub const ATTR_NEXTHOP: u8 = 3;

pub const ATTR_MULTI_EXIT_DESC: u8 = 4;

pub const ATTR_LOCAL_PREF: u8 = 5;

pub const ATTR_ATOMIC_AGGREGATE: u8 = 6;

pub const ATTR_AGGREGATOR: u8 = 7;

pub const ATTR_COMMUNITY: u8 = 8;

pub const ATTR_ORIGINATOR_ID: u8 = 9;

pub const ATTR_CLUSTER_LIST: u8 = 10;

pub const ATTR_MP_REACH: u8 = 14;

pub const ATTR_MP_UNREACH: u8 = 15;

pub const DEFAULT_LOCAL_PREF: u32 = 100;

impl Attribute {
    pub open spec fn spec_attr(self) -> u8 {
        match self {
            Attribute::Origin { .. } => ATTR_ORIGIN,
            Attribute::AsPath { .. } => ATTR_AS_PATH,
            Attribute::Nexthop { .. } => ATTR_NEXTHOP,
            Attribute::MultiExitDesc { .. } => ATTR_MULTI_EXIT_DESC,
            Attribute::LocalPref { .. } => ATTR_LOCAL_PREF,
            Attribute::AtomicAggregate => ATTR_ATOMIC_AGGREGATE,
            Attribute::Aggregator { .. } => ATTR_AGGREGATOR,
            Attribute::Community { .. } => ATTR_COMMUNITY,
            Attribute::OriginatorId { .. } => ATTR_ORIGINATOR_ID,
            Attribute::ClusterList { .. } => ATTR_CLUSTER_LIST,
            Attribute::MpReach { .. } => ATTR_MP_REACH,
            Attribute::MpUnreach { .. } => ATTR_MP_UNREACH,
        }
    }

    /// The attribute-type code.
    pub fn attr(&self) -> (r: u8)
        ensures
            r == self.spec_attr(),
    {
        match self {
            Attribute::Origin { .. } => ATTR_ORIGIN,
            Attribute::AsPath { .. } => ATTR_AS_PATH,
            Attribute::Nexthop { .. } => ATTR_NEXTHOP,
            Attribute::MultiExitDesc { .. } => ATTR_MULTI_EXIT_DESC,
            Attribute::LocalPref { .. } => ATTR_LOCAL_PREF,
            Attribute::AtomicAggregate => ATTR_ATOMIC_AGGREGATE,
            Attribute::Aggregator { .. } => ATTR_AGGREGATOR,
            Attribute::Community { .. } => ATTR_COMMUNITY,
            Attribute::OriginatorId { .. } => ATTR_ORIGINATOR_ID,
            Attribute::ClusterList { .. } => ATTR_CLUSTER_LIST,
            Attribute::MpReach { .. } => ATTR_MP_REACH,
            Attribute::MpUnreach { .. } => ATTR_MP_UNREACH,
        }
    }

    pub open spec fn spec_is_transitive(self) -> bool {
        match self {
            Attribute::Origin { .. } => true,
            Attribute::AsPath { .. } => true,
            Attribute::Nexthop { .. } => true,
            Attribute::MultiExitDesc { .. } => false,
            Attribute::LocalPref { .. } => true,
            Attribute::AtomicAggregate => true,
            Attribute::Aggregator { .. } => true,
            Attribute::Community { .. } => true,
            Attribute::OriginatorId { .. } => false,
            Attribute::ClusterList { .. } => false,
            Attribute::MpReach { .. } => false,
            Attribute::MpUnreach { .. } => false,
        }
    }

    /// Whether the attribute is carried across AS boundaries.
    pub fn is_transitive(&self) -> (r: bool)
        ensures
            r == self.spec_is_transitive(),
    {
        match self {
            Attribute::Origin { .. } => true,
            Attribute::AsPath { .. } => true,
            Attribute::Nexthop { .. } => true,
            Attribute::MultiExitDesc { .. } => false,
            Attribute::LocalPref { .. } => true,
            Attribute::AtomicAggregate => true,
            Attribute::Aggregator { .. } => true,
            Attribute::Community { .. } => true,
            Attribute::OriginatorId { .. } => false,
            Attribute::ClusterList { .. } => false,
            Attribute::MpReach { .. } => false,
            Attribute::MpUnreach { .. } => false,
        }
    }
}

/// An immutable bag of attributes, kept sorted by attribute-type code by
/// its producers.
#[derive(Clone, Debug)]
pub struct PathAttr {
    pub entry: Vec<Attribute>,
}

/// The total number of AS entries in the segments from index `i` on.
pub open spec fn seg_count_from(segs: Seq<Segment>, i: int) -> nat
    decreases segs.len() - i,
{
    if i < 0 || i >= segs.len() {
        0
    } else {
        segs[i].number@.len() + seg_count_from(segs, i + 1)
    }
}

pub open spec fn seg_count(segs: Seq<Segment>) -> nat {
    seg_count_from(segs, 0)
}

/// The local preference carried from index `i` on: the value of the first
/// `LocalPref` attribute, or the default when none is present.
pub open spec fn local_pref_from(attrs: Seq<Attribute>, i: int) -> u32
    decreases attrs.len() - i,
{
    if i < 0 || i >= attrs.len() {
        DEFAULT_LOCAL_PREF
    } else {
        match attrs[i] {
            Attribute::LocalPref { preference } => preference,
            _ => local_pref_from(attrs, i + 1),
        }
    }
}

pub open spec fn spec_local_pref(attrs: Seq<Attribute>) -> u32 {
    local_pref_from(attrs, 0)
}

/// The AS-path length from index `i` on: the total AS count of the first
/// `AsPath` attribute, or 0 when none is present.
pub open spec fn as_len_from(attrs: Seq<Attribute>, i: int) -> nat
    decreases attrs.len() - i,
{
    if i < 0 || i >= attrs.len() {
        0
    } else {
        match attrs[i] {
            Attribute::AsPath { segments } => seg_count(segments@),
            _ => as_len_from(attrs, i + 1),
        }
    }
}

pub open spec fn spec_as_len(attrs: Seq<Attribute>) -> nat {
    as_len_from(attrs, 0)
}

/// The origin from index `i` on: the value of the first `Origin`
/// attribute, or 0 when none is present.
pub open spec fn origin_from(attrs: Seq<Attribute>, i: int) -> u8
    decreases attrs.len() - i,
{
    if i < 0 || i >= attrs.len() {
        0
    } else {
        match attrs[i] {
            Attribute::Origin { origin } => origin,
            _ => origin_from(attrs, i + 1),
        }
    }
}

pub open spec fn spec_origin(attrs: Seq<Attribute>) -> u8 {
    origin_from(attrs, 0)
}

/// The multi-exit discriminator from index `i` on: the value of the first
/// `MultiExitDesc` attribute, or 0 when none is present.
pub open spec fn med_from(attrs: Seq<Attribute>, i: int) -> u32
    decreases attrs.len() - i,
{
    if i < 0 || i >= attrs.len() {
        0
    } else {
        match attrs[i] {
            Attribute::MultiExitDesc { descriptor } => descriptor,
            _ => med_from(attrs, i + 1),
        }
    }
}

pub open spec fn spec_med(attrs: Seq<Attribute>) -> u32 {
    med_from(attrs, 0)
}

/// Whether some attribute with the given type code occurs in the bag.
pub open spec fn contains_code(attrs: Seq<Attribute>, code: u8) -> bool {
    exists|i: int| 0 <= i < attrs.len() && (#[trigger] attrs[i]).spec_attr() == code
}

impl PathAttr {
    /// The AS-path length fits the 32-bit counter the selection uses.
    pub open spec fn wf(self) -> bool {
        spec_as_len(self.entry@) <= u32::MAX
    }
}

/// Every AS-path attribute in the bag, wherever it stands, fits the
/// 32-bit counter.
pub open spec fn all_aspaths_bounded(attrs: Seq<Attribute>) -> bool {
    forall|i: int|
        0 <= i < attrs.len() ==> match #[trigger] attrs[i] {
            Attribute::AsPath { segments } => seg_count(segments@) <= u32::MAX,
            _ => true,
        }
}

/// A bag whose AS paths are all bounded has a bounded path length.
pub proof fn lemma_bounded_as_len(attrs: Seq<Attribute>, i: int)
    requires
        all_aspaths_bounded(attrs),
    ensures
        as_len_from(attrs, i) <= u32::MAX,
    decreases attrs.len() - i,
{
    if 0 <= i < attrs.len() {
        match attrs[i] {
            Attribute::AsPath { .. } => {}
            _ => {
                lemma_bounded_as_len(attrs, i + 1);
            }
        }
    }
}

/// Boundedness only depends on which attributes the bag holds.
pub proof fn lemma_bounded_multiset(a: Seq<Attribute>, b: Seq<Attribute>)
    requires
        a.to_multiset() == b.to_multiset(),
        all_aspaths_bounded(a),
    ensures
        all_aspaths_bounded(b),
{
    broadcast use vstd::seq_lib::group_to_multiset_ensures;

    assert forall|i: int|
        0 <= i < b.len() implies match #[trigger] b[i] {
        Attribute::AsPath { segments } => seg_count(segments@) <= u32::MAX,
        _ => true,
    } by {
        assert(b.contains(b[i])) by {
            assert(b[i] == b[i]);
        }
        assert(b.to_multiset().count(b[i]) > 0);
        assert(a.to_multiset().count(b[i]) > 0);
        assert(a.contains(b[i]));
        let j = choose|j: int| 0 <= j < a.len() && a[j] == b[i];
        assert(match a[j] {
            Attribute::AsPath { segments } => seg_count(segments@) <= u32::MAX,
            _ => true,
        });
    }
}

/// Boundedness carries across bags equal by contents.
pub proof fn lemma_bounded_congruence(a: Seq<Attribute>, b: Seq<Attribute>)
    requires
        attrs_eq(a, b),
        all_aspaths_bounded(a),
    ensures
        all_aspaths_bounded(b),
{
    assert forall|i: int|
        0 <= i < b.len() implies match #[trigger] b[i] {
        Attribute::AsPath { segments } => seg_count(segments@) <= u32::MAX,
        _ => true,
    } by {
        assert(attr_eq(a[i], b[i]));
        match (a[i], b[i]) {
            (Attribute::AsPath { segments: sx }, Attribute::AsPath { segments: sy }) => {
                lemma_seg_count_congruence(sx@, sy@, 0);
            }
            _ => {}
        }
    }
}

/// A copy of a list of plain values.
pub fn copy_vec<T: Copy>(v: &Vec<T>) -> (r: Vec<T>)
    ensures
        r@ == v@,
{
    let mut r: Vec<T> = Vec::new();
    let mut i: usize = 0;
    while i < v.len()
        invariant
            i <= v@.len(),
            r@ =~= v@.subrange(0, i as int),
        decreases v@.len() - i,
    {
        r.push(v[i]);
        proof {
            assert(r@ =~= v@.subrange(0, i + 1));
        }
        i = i + 1;
    }
    proof {
        assert(r@ =~= v@);
    }
    r
}

/// Equality of segments by contents.
pub open spec fn seg_eq(a: Segment, b: Segment) -> bool {
    a.segment_type == b.segment_type && a.number@ == b.number@
}

/// Equality of segment lists by contents.
pub open spec fn segs_eq(a: Seq<Segment>, b: Seq<Segment>) -> bool {
    a.len() == b.len() && forall|i: int| 0 <= i < a.len() ==> seg_eq(#[trigger] a[i], b[i])
}

/// Equality of attributes by contents.
pub open spec fn attr_eq(a: Attribute, b: Attribute) -> bool {
    match (a, b) {
        (Attribute::Origin { origin: x }, Attribute::Origin { origin: y }) => x == y,
        (Attribute::AsPath { segments: x }, Attribute::AsPath { segments: y }) => segs_eq(x@, y@),
        (Attribute::Nexthop { nexthop: x }, Attribute::Nexthop { nexthop: y }) => x == y,
        (
            Attribute::MultiExitDesc { descriptor: x },
            Attribute::MultiExitDesc { descriptor: y },
        ) => x == y,
        (Attribute::LocalPref { preference: x }, Attribute::LocalPref { preference: y }) => x == y,
        (Attribute::AtomicAggregate, Attribute::AtomicAggregate) => true,
        (
            Attribute::Aggregator { four_byte: fx, number: nx, address: ax },
            Attribute::Aggregator { four_byte: fy, number: ny, address: ay },
        ) => fx == fy && nx == ny && ax == ay,
        (Attribute::Community { communities: x }, Attribute::Community { communities: y }) => x@
            == y@,
        (Attribute::OriginatorId { address: x }, Attribute::OriginatorId { address: y }) => x == y,
        (Attribute::ClusterList { addresses: x }, Attribute::ClusterList { addresses: y }) => x@
            == y@,
        (
            Attribute::MpReach { family: fx, nexthop: nx, nlri: lx },
            Attribute::MpReach { family: fy, nexthop: ny, nlri: ly },
        ) => fx == fy && nx == ny && lx@ == ly@,
        (
            Attribute::MpUnreach { family: fx, nlri: lx },
            Attribute::MpUnreach { family: fy, nlri: ly },
        ) => fx == fy && lx@ == ly@,
        _ => false,
    }
}

/// Equality of attribute lists by contents.
pub open spec fn attrs_eq(a: Seq<Attribute>, b: Seq<Attribute>) -> bool {
    a.len() == b.len() && forall|i: int| 0 <= i < a.len() ==> attr_eq(#[trigger] a[i], b[i])
}

/// Equality of attribute bags by contents.
pub open spec fn pattr_eq(a: PathAttr, b: PathAttr) -> bool {
    attrs_eq(a.entry@, b.entry@)
}

/// Attributes equal by contents carry the same type code.
pub proof fn lemma_attr_eq_code(a: Attribute, b: Attribute)
    requires
        attr_eq(a, b),
    ensures
        a.spec_attr() == b.spec_attr(),
        a.spec_is_transitive() == b.spec_is_transitive(),
{
}

pub proof fn lemma_seg_count_congruence(a: Seq<Segment>, b: Seq<Segment>, i: int)
    requires
        segs_eq(a, b),
    ensures
        seg_count_from(a, i) == seg_count_from(b, i),
    decreases a.len() - i,
{
    if 0 <= i < a.len() {
        lemma_seg_count_congruence(a, b, i + 1);
    }
}

/// Attribute lists equal by contents agree on every value the best-path
/// comparison reads, and on which type codes occur.
pub proof fn lemma_attrs_eq_keys(a: Seq<Attribute>, b: Seq<Attribute>, i: int)
    requires
        attrs_eq(a, b),
    ensures
        local_pref_from(a, i) == local_pref_from(b, i),
        as_len_from(a, i) == as_len_from(b, i),
        origin_from(a, i) == origin_from(b, i),
        med_from(a, i) == med_from(b, i),
    decreases a.len() - i,
{
    if 0 <= i < a.len() {
        lemma_attrs_eq_keys(a, b, i + 1);
        match (a[i], b[i]) {
            (Attribute::AsPath { segments: x }, Attribute::AsPath { segments: y }) => {
                lemma_seg_count_congruence(x@, y@, 0);
            }
            _ => {}
        }
    }
}

pub proof fn lemma_attrs_eq_codes(a: Seq<Attribute>, b: Seq<Attribute>, code: u8)
    requires
        attrs_eq(a, b),
    ensures
        contains_code(a, code) == contains_code(b, code),
{
    if contains_code(a, code) {
        let i = choose|i: int| 0 <= i < a.len() && (#[trigger] a[i]).spec_attr() == code;
        lemma_attr_eq_code(a[i], b[i]);
        assert((#[trigger] b[i]).spec_attr() == code);
    }
    if contains_code(b, code) {
        let i = choose|i: int| 0 <= i < b.len() && (#[trigger] b[i]).spec_attr() == code;
        lemma_attr_eq_code(a[i], b[i]);
        assert((#[trigger] a[i]).spec_attr() == code);
    }
}

impl Segment {
    /// A copy of the segment, equal by contents.
    pub fn duplicate(&self) -> (r: Segment)
        ensures
            seg_eq(*self, r),
    {
        let number = self.number.clone();
        proof {
            assert(number@ =~= self.number@);
        }
        Segment { segment_type: self.segment_type, number }
    }
}

/// A copy of a segment list, equal by contents.
pub fn duplicate_segments(segs: &Vec<Segment>) -> (r: Vec<Segment>)
    ensures
        segs_eq(segs@, r@),
{
    let mut r: Vec<Segment> = Vec::new();
    let mut i: usize = 0;
    while i < segs.len()
        invariant
            i <= segs@.len(),
            r@.len() == i,
            forall|j: int| 0 <= j < i ==> seg_eq(#[trigger] segs@[j], r@[j]),
        decreases segs@.len() - i,
    {
        r.push(segs[i].duplicate());
        i = i + 1;
    }
    r
}

impl Attribute {
    /// A copy of the attribute, equal by contents.
    pub fn duplicate(&self) -> (r: Attribute)
        ensures
            attr_eq(*self, r),
    {
        match self {
            Attribute::Origin { origin } => Attribute::Origin { origin: *origin },
            Attribute::AsPath { segments } => Attribute::AsPath {
                segments: duplicate_segments(segments),
            },
            Attribute::Nexthop { nexthop } => Attribute::Nexthop { nexthop: *nexthop },
            Attribute::MultiExitDesc { descriptor } => Attribute::MultiExitDesc {
                descriptor: *descriptor,
            },
            Attribute::LocalPref { preference } => Attribute::LocalPref {
                preference: *preference,
            },
            Attribute::AtomicAggregate => Attribute::AtomicAggregate,
            Attribute::Aggregator { four_byte, number, address } => Attribute::Aggregator {
                four_byte: *four_byte,
                number: *number,
                address: *address,
            },
            Attribute::Community { communities } => {
                let c = communities.clone();
                proof {
                    assert(c@ =~= communities@);
                }
                Attribute::Community { communities: c }
            }
            Attribute::OriginatorId { address } => Attribute::OriginatorId { address: *address },
            Attribute::ClusterList { addresses } => {
                let c = addresses.clone();
                proof {
                    assert(c@ =~= addresses@);
                }
                Attribute::ClusterList { addresses: c }
            }
            Attribute::MpReach { family, nexthop, nlri } => {
                let c = nlri.clone();
                proof {
                    assert(c@ =~= nlri@);
                }
                Attribute::MpReach { family: *family, nexthop: *nexthop, nlri: c }
            }
            Attribute::MpUnreach { family, nlri } => {
                let c = nlri.clone();
                proof {
                    assert(c@ =~= nlri@);
                }
                Attribute::MpUnreach { family: *family, nlri: c }
            }
        }
    }
}

/// A copy of an attribute list, equal by contents.
pub fn duplicate_attributes(attrs: &Vec<Attribute>) -> (r: Vec<Attribute>)
    ensures
        attrs_eq(attrs@, r@),
{
    let mut r: Vec<Attribute> = Vec::new();
    let mut i: usize = 0;
    while i < attrs.len()
        invariant
            i <= attrs@.len(),
            r@.len() == i,
            forall|j: int| 0 <= j < i ==> attr_eq(#[trigger] attrs@[j], r@[j]),
        decreases attrs@.len() - i,
    {
        r.push(attrs[i].duplicate());
        i = i + 1;
    }
    r
}

impl PathAttr {
    /// A copy of the bag, equal by contents.
    pub fn duplicate(&self) -> (r: PathAttr)
        ensures
            pattr_eq(*self, r),
    {
        PathAttr { entry: duplicate_attributes(&self.entry) }
    }
}

} // verus!
