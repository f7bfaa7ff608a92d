use vstd::prelude::*;
use crate::net::IpAddress;
use crate::family::Family;
use crate::attr::{Attribute, Segment, Nlri, copy_vec};
use crate::message::Capability;
use crate::peer::{Peer, State, MessageCounter};
use crate::global::Global;

verus! {

/// An address family on the control interface: plain AFI and SAFI values.
#[derive(Clone, Copy, PartialEq, Eq, Structural, Debug)]
pub struct ApiFamily {
    pub afi: u32,
    pub safi: u32,
}

pub const API_AFI_IP: u32 = 1;

pub const API_AFI_IP6: u32 = 2;

pub const API_SAFI_UNICAST: u32 = 1;

impl Family {
    pub open spec fn spec_to_api(self) -> ApiFamily {
        match self {
            Family::Ipv4Uc => ApiFamily { afi: API_AFI_IP, safi: API_SAFI_UNICAST },
            Family::Ipv6Uc => ApiFamily { afi: API_AFI_IP6, safi: API_SAFI_UNICAST },
            Family::Unknown(v) => ApiFamily { afi: v >> 16u32, safi: v & 0xffu32 },
        }
    }

    /// The family as its AFI/SAFI pair on the control interface.
    pub fn to_api(&self) -> (r: ApiFamily)
        ensures
            r == self.spec_to_api(),
    {
        match self {
            Family::Ipv4Uc => ApiFamily { afi: API_AFI_IP, safi: API_SAFI_UNICAST },
            Family::Ipv6Uc => ApiFamily { afi: API_AFI_IP6, safi: API_SAFI_UNICAST },
            Family::Unknown(v) => ApiFamily { afi: *v >> 16, safi: *v & 0xff },
        }
    }
}

impl ApiFamily {
    pub open spec fn spec_to_proto(self) -> Family {
        if self.safi == API_SAFI_UNICAST && self.afi == API_AFI_IP {
            Family::Ipv4Uc
        } else if self.safi == API_SAFI_UNICAST && self.afi == API_AFI_IP6 {
            Family::Ipv6Uc
        } else {
            Family::Unknown((self.afi << 16u32) | self.safi)
        }
    }

    /// The internal family for an AFI/SAFI pair of the control interface.
    pub fn to_proto(&self) -> (r: Family)
        ensures
            r == self.spec_to_proto(),
    {
        if self.safi == API_SAFI_UNICAST {
            if self.afi == API_AFI_IP {
                return Family::Ipv4Uc;
            } else if self.afi == API_AFI_IP6 {
                return Family::Ipv6Uc;
            }
        }
        Family::Unknown((self.afi << 16) | self.safi)
    }
}

/// One AS-path segment on the control interface.
#[derive(Clone, Debug)]
pub struct ApiSegment {
    pub segment_type: u32,
    pub numbers: Vec<u32>,
}

/// A path attribute on the control interface, as plain values.
#[derive(Clone, Debug)]
pub enum ApiAttr {
    Origin { origin: u32 },
    AsPath { segments: Vec<ApiSegment> },
    NextHop { next_hop: IpAddress },
    MultiExitDisc { med: u32 },
    LocalPref { local_pref: u32 },
    AtomicAggregate,
    Aggregator { as_number: u32, address: IpAddress },
    Communities { communities: Vec<u32> },
    OriginatorId { id: IpAddress },
    ClusterList { ids: Vec<IpAddress> },
}

/// Whether an interface attribute and a stored attribute carry the same
/// values.
pub open spec fn api_attr_matches(a: ApiAttr, b: Attribute) -> bool {
    match (a, b) {
        (ApiAttr::Origin { origin: x }, Attribute::Origin { origin: y }) => x & 0xffu32 == y as u32,
        (ApiAttr::AsPath { segments: xs }, Attribute::AsPath { segments: ys }) => {
            &&& xs@.len() == ys@.len()
            &&& forall|k: int|
                0 <= k < xs@.len() ==> (#[trigger] xs@[k]).segment_type & 0xffu32
                    == ys@[k].segment_type as u32 && xs@[k].numbers@ == ys@[k].number@
        },
        (ApiAttr::MultiExitDisc { med: x }, Attribute::MultiExitDesc { descriptor: y }) => x == y,
        (ApiAttr::LocalPref { local_pref: x }, Attribute::LocalPref { preference: y }) => x == y,
        (ApiAttr::AtomicAggregate, Attribute::AtomicAggregate) => true,
        (
            ApiAttr::Aggregator { as_number: nx, address: ax },
            Attribute::Aggregator { number: ny, address: ay, .. },
        ) => nx == ny && ax == ay,
        (
            ApiAttr::Communities { communities: xs },
            Attribute::Community { communities: ys },
        ) => xs@ == ys@,
        (ApiAttr::OriginatorId { id: x }, Attribute::OriginatorId { address: y }) => x == y,
        (ApiAttr::ClusterList { ids: xs }, Attribute::ClusterList { addresses: ys }) => xs@ == ys@,
        _ => false,
    }
}

/// The number of attributes among the first `i` that turn into stored
/// attributes (everything but the nexthop, which is carried separately).
pub open spec fn native_count(api: Seq<ApiAttr>, i: int) -> int
    decreases i,
{
    if i <= 0 || i > api.len() {
        0
    } else {
        native_count(api, i - 1) + (match api[i - 1] {
            ApiAttr::NextHop { .. } => 0int,
            _ => 1int,
        })
    }
}

/// The nexthop announced by the first `i` attributes: the last `NextHop`
/// value, or the unspecified IPv4 address.
pub open spec fn nexthop_upto(api: Seq<ApiAttr>, i: int) -> IpAddress
    decreases i,
{
    if i <= 0 || i > api.len() {
        IpAddress::V4(0)
    } else {
        match api[i - 1] {
            ApiAttr::NextHop { next_hop } => next_hop,
            _ => nexthop_upto(api, i - 1),
        }
    }
}

/// Turns interface attributes into stored attributes: every attribute but
/// the nexthop maps across in order, and the nexthop is returned apart.
pub fn to_native_attrs(api_attrs: &Vec<ApiAttr>) -> (r: (Vec<Attribute>, IpAddress))
    ensures
        r.0@.len() == native_count(api_attrs@, api_attrs@.len() as int),
        forall|k: int|
            0 <= k < api_attrs@.len() ==> (match #[trigger] api_attrs@[k] {
                ApiAttr::NextHop { .. } => true,
                _ => api_attr_matches(api_attrs@[k], r.0@[native_count(api_attrs@, k)]),
            }),
        r.1 == nexthop_upto(api_attrs@, api_attrs@.len() as int),
{
    let mut v: Vec<Attribute> = Vec::new();
    let mut nexthop = IpAddress::V4(0);
    let n = api_attrs.len();
    let mut i: usize = 0;
    while i < n
        invariant
            i <= n,
            n == api_attrs@.len(),
            v@.len() == native_count(api_attrs@, i as int),
            forall|k: int|
                0 <= k < i ==> (match #[trigger] api_attrs@[k] {
                    ApiAttr::NextHop { .. } => true,
                    _ => api_attr_matches(api_attrs@[k], v@[native_count(api_attrs@, k)]),
                }),
            nexthop == nexthop_upto(api_attrs@, i as int),
        decreases n - i,
    {
        let ghost v0 = v@;
        match &api_attrs[i] {
            ApiAttr::Origin { origin } => {
                let o = *origin;
                v.push(Attribute::Origin { origin: (o & 0xff) as u8 });
                proof {
                    assert(o & 0xffu32 <= 0xffu32) by (bit_vector);
                }
            }
            ApiAttr::AsPath { segments } => {
                let mut segs: Vec<Segment> = Vec::new();
                let m = segments.len();
                let mut j: usize = 0;
                while j < m
                    invariant
                        j <= m,
                        m == segments@.len(),
                        segs@.len() == j,
                        forall|k: int|
                            0 <= k < j ==> (#[trigger] segments@[k]).segment_type & 0xffu32
                                == segs@[k].segment_type as u32 && segments@[k].numbers@
                                == segs@[k].number@,
                    decreases m - j,
                {
                    let st = segments[j].segment_type;
                    proof {
                        assert(st & 0xffu32 <= 0xffu32) by (bit_vector);
                    }
                    segs.push(
                        Segment {
                            segment_type: (st & 0xff) as u8,
                            number: copy_vec(&segments[j].numbers),
                        },
                    );
                    j = j + 1;
                }
                v.push(Attribute::AsPath { segments: segs });
            }
            ApiAttr::NextHop { next_hop } => {
                nexthop = *next_hop;
            }
            ApiAttr::MultiExitDisc { med } => {
                v.push(Attribute::MultiExitDesc { descriptor: *med });
            }
            ApiAttr::LocalPref { local_pref } => {
                v.push(Attribute::LocalPref { preference: *local_pref });
            }
            ApiAttr::AtomicAggregate => {
                v.push(Attribute::AtomicAggregate);
            }
            ApiAttr::Aggregator { as_number, address } => {
                v.push(
                    Attribute::Aggregator {
                        four_byte: true,
                        number: *as_number,
                        address: *address,
                    },
                );
            }
            ApiAttr::Communities { communities } => {
                v.push(Attribute::Community { communities: copy_vec(communities) });
            }
            ApiAttr::OriginatorId { id } => {
                v.push(Attribute::OriginatorId { address: *id });
            }
            ApiAttr::ClusterList { ids } => {
                v.push(Attribute::ClusterList { addresses: copy_vec(ids) });
            }
        }
        proof {
            assert forall|k: int|
                0 <= k < i + 1 implies (match #[trigger] api_attrs@[k] {
                ApiAttr::NextHop { .. } => true,
                _ => api_attr_matches(api_attrs@[k], v@[native_count(api_attrs@, k)]),
            }) by {
                if k < i as int {
                    assert(native_count(api_attrs@, k) < native_count(api_attrs@, i as int) || (
                    match api_attrs@[k] {
                        ApiAttr::NextHop { .. } => true,
                        _ => false,
                    })) by {
                        lemma_native_count_mono(api_attrs@, k, i as int);
                    }
                    lemma_native_count_nonneg(api_attrs@, k);
                    if v0.len() > native_count(api_attrs@, k) {
                        assert(v@[native_count(api_attrs@, k)] == v0[native_count(
                            api_attrs@,
                            k,
                        )]);
                    }
                }
            }
        }
        i = i + 1;
    }
    (v, nexthop)
}

/// A path on the control interface: the prefix as a plain value, its
/// family, and the attributes with the nexthop appended last.
pub struct ApiPath {
    pub nlri: Nlri,
    pub family: ApiFamily,
    pub pattrs: Vec<ApiAttr>,
    pub age: u64,
    pub best: bool,
}

/// The number of stored attributes among the first `i` that are shown on
/// the interface (the nexthop and the multiprotocol attributes are not).
pub open spec fn api_count(attrs: Seq<Attribute>, i: int) -> int
    decreases i,
{
    if i <= 0 || i > attrs.len() {
        0
    } else {
        api_count(attrs, i - 1) + (if api_shown(attrs[i - 1]) {
            1int
        } else {
            0int
        })
    }
}

pub open spec fn api_shown(a: Attribute) -> bool {
    match a {
        Attribute::Nexthop { .. } => false,
        Attribute::MpReach { .. } => false,
        Attribute::MpUnreach { .. } => false,
        _ => true,
    }
}

proof fn lemma_api_count_nonneg(attrs: Seq<Attribute>, i: int)
    ensures
        api_count(attrs, i) >= 0,
    decreases i,
{
    if 0 < i <= attrs.len() {
        lemma_api_count_nonneg(attrs, i - 1);
    }
}

proof fn lemma_api_count_mono(attrs: Seq<Attribute>, k: int, i: int)
    requires
        0 <= k < i <= attrs.len(),
    ensures
        api_count(attrs, k + 1) <= api_count(attrs, i),
        api_shown(attrs[k]) ==> api_count(attrs, k) < api_count(attrs, i),
    decreases i - k,
{
    if k + 1 < i {
        lemma_api_count_mono(attrs, k + 1, i);
    }
}

impl crate::rib::Path {
    /// The path as shown on the control interface: every shown attribute
    /// maps across in order and the given nexthop is appended last.
    pub fn to_api(&self, net: &Nlri, nexthop: IpAddress, pattrs: &Vec<Attribute>) -> (r: ApiPath)
        ensures
            r.nlri == *net,
            r.family == (if net.is_v4() {
                Family::Ipv4Uc.spec_to_api()
            } else {
                Family::Ipv6Uc.spec_to_api()
            }),
            r.age == self.timestamp,
            r.best == false,
            r.pattrs@.len() == api_count(pattrs@, pattrs@.len() as int) + 1,
            forall|k: int|
                0 <= k < pattrs@.len() && api_shown(#[trigger] pattrs@[k]) ==> api_attr_matches(
                    r.pattrs@[api_count(pattrs@, k)],
                    pattrs@[k],
                ),
            r.pattrs@[api_count(pattrs@, pattrs@.len() as int)] == (ApiAttr::NextHop {
                next_hop: nexthop,
            }),
    {
        let family = if net.net_is_v4() {
            Family::Ipv4Uc.to_api()
        } else {
            Family::Ipv6Uc.to_api()
        };
        let mut out: Vec<ApiAttr> = Vec::new();
        let n = pattrs.len();
        let mut i: usize = 0;
        while i < n
            invariant
                i <= n,
                n == pattrs@.len(),
                out@.len() == api_count(pattrs@, i as int),
                forall|k: int|
                    0 <= k < i && api_shown(#[trigger] pattrs@[k]) ==> api_attr_matches(
                        out@[api_count(pattrs@, k)],
                        pattrs@[k],
                    ),
            decreases n - i,
        {
            let ghost o0 = out@;
            match &pattrs[i] {
                Attribute::Origin { origin } => {
                    let o = *origin;
                    out.push(ApiAttr::Origin { origin: o as u32 });
                    proof {
                        assert((o as u32) & 0xffu32 == o as u32) by (bit_vector)
                            requires
                                o <= 0xffu8,
                        ;
                    }
                }
                Attribute::AsPath { segments } => {
                    let mut segs: Vec<ApiSegment> = Vec::new();
                    let m = segments.len();
                    let mut j: usize = 0;
                    while j < m
                        invariant
                            j <= m,
                            m == segments@.len(),
                            segs@.len() == j,
                            forall|k: int|
                                0 <= k < j ==> (#[trigger] segs@[k]).segment_type & 0xffu32
                                    == segments@[k].segment_type as u32 && segs@[k].numbers@
                                    == segments@[k].number@,
                        decreases m - j,
                    {
                        let st = segments[j].segment_type;
                        segs.push(
                            ApiSegment {
                                segment_type: st as u32,
                                numbers: copy_vec(&segments[j].number),
                            },
                        );
                        proof {
                            assert((st as u32) & 0xffu32 == st as u32) by (bit_vector)
                                requires
                                    st <= 0xffu8,
                            ;
                        }
                        j = j + 1;
                    }
                    out.push(ApiAttr::AsPath { segments: segs });
                }
                Attribute::Nexthop { .. } => {}
                Attribute::MultiExitDesc { descriptor } => {
                    out.push(ApiAttr::MultiExitDisc { med: *descriptor });
                }
                Attribute::LocalPref { preference } => {
                    out.push(ApiAttr::LocalPref { local_pref: *preference });
                }
                Attribute::AtomicAggregate => {
                    out.push(ApiAttr::AtomicAggregate);
                }
                Attribute::Aggregator { number, address, .. } => {
                    out.push(ApiAttr::Aggregator { as_number: *number, address: *address });
                }
                Attribute::Community { communities } => {
                    out.push(ApiAttr::Communities { communities: copy_vec(communities) });
                }
                Attribute::OriginatorId { address } => {
                    out.push(ApiAttr::OriginatorId { id: *address });
                }
                Attribute::ClusterList { addresses } => {
                    out.push(ApiAttr::ClusterList { ids: copy_vec(addresses) });
                }
                Attribute::MpReach { .. } => {}
                Attribute::MpUnreach { .. } => {}
            }
            proof {
                assert forall|k: int|
                    0 <= k < i + 1 && api_shown(#[trigger] pattrs@[k]) implies api_attr_matches(
                    out@[api_count(pattrs@, k)],
                    pattrs@[k],
                ) by {
                    if k < i as int {
                        lemma_api_count_mono(pattrs@, k, i as int);
                        lemma_api_count_nonneg(pattrs@, k);
                        assert(out@[api_count(pattrs@, k)] == o0[api_count(pattrs@, k)]);
                    }
                }
            }
            i = i + 1;
        }
        let ghost ofin = out@;
        out.push(ApiAttr::NextHop { next_hop: nexthop });
        proof {
            assert forall|k: int|
                0 <= k < n && api_shown(#[trigger] pattrs@[k]) implies api_attr_matches(
                out@[api_count(pattrs@, k)],
                pattrs@[k],
            ) by {
                lemma_api_count_mono(pattrs@, k, n as int);
                lemma_api_count_nonneg(pattrs@, k);
                assert(out@[api_count(pattrs@, k)] == ofin[api_count(pattrs@, k)]);
            }
        }
        ApiPath { nlri: *net, family, pattrs: out, age: self.timestamp, best: false }
    }
}

/// The counters of one peer on the control interface.
#[derive(Clone, Copy, PartialEq, Eq, Structural, Debug)]
pub struct ApiMessage {
    pub open: u64,
    pub update: u64,
    pub notification: u64,
    pub keepalive: u64,
    pub refresh: u64,
    pub discarded: u64,
    pub total: u64,
    pub withdraw_update: u64,
    pub withdraw_prefix: u64,
}

impl MessageCounter {
    /// The counters, field for field.
    pub fn to_api(&self) -> (r: ApiMessage)
        ensures
            r == (ApiMessage {
                open: self.open,
                update: self.update,
                notification: self.notification,
                keepalive: self.keepalive,
                refresh: self.refresh,
                discarded: self.discarded,
                total: self.total,
                withdraw_update: self.withdraw_update,
                withdraw_prefix: self.withdraw_prefix,
            }),
    {
        ApiMessage {
            open: self.open,
            update: self.update,
            notification: self.notification,
            keepalive: self.keepalive,
            refresh: self.refresh,
            discarded: self.discarded,
            total: self.total,
            withdraw_update: self.withdraw_update,
            withdraw_prefix: self.withdraw_prefix,
        }
    }
}

/// A capability on the control interface, as plain values.
#[derive(Clone, Debug)]
pub enum ApiCapability {
    MultiProtocol { family: ApiFamily },
    RouteRefresh,
    CarryingLabelInfo,
    ExtendedNexthop { tuples: Vec<(ApiFamily, ApiFamily)> },
    GracefulRestart { flags: u32, time: u32, tuples: Vec<(ApiFamily, u32)> },
    FourOctetAsNumber { as_number: u32 },
    AddPath { tuples: Vec<(ApiFamily, u32)> },
    EnhancedRouteRefresh,
    LongLivedGracefulRestart { tuples: Vec<(ApiFamily, u32, u32)> },
    RouteRefreshCisco,
    Empty,
}

/// Whether an interface capability mirrors a stored one.
pub open spec fn cap_api_matches(a: ApiCapability, b: Capability) -> bool {
    match (a, b) {
        (
            ApiCapability::MultiProtocol { family: x },
            Capability::MultiProtocol { family: y },
        ) => x == y.spec_to_api(),
        (ApiCapability::RouteRefresh, Capability::RouteRefresh) => true,
        (ApiCapability::CarryingLabelInfo, Capability::CarryingLabelInfo) => true,
        (
            ApiCapability::ExtendedNexthop { tuples: xs },
            Capability::ExtendedNexthop { values: ys },
        ) => xs@.len() == ys@.len() && forall|k: int|
            0 <= k < xs@.len() ==> #[trigger] xs@[k] == (
            ys@[k].0.spec_to_api(),
            ys@[k].1.spec_to_api(),
            ),
        (
            ApiCapability::GracefulRestart { flags: fx, time: tx, tuples: xs },
            Capability::GracefulRestart { flags: fy, time: ty, values: ys },
        ) => {
            &&& fx == fy as u32
            &&& tx == ty as u32
            &&& xs@.len() == ys@.len()
            &&& forall|k: int|
                0 <= k < xs@.len() ==> #[trigger] xs@[k] == (
                ys@[k].0.spec_to_api(),
                ys@[k].1 as u32,
                )
        },
        (
            ApiCapability::FourOctetAsNumber { as_number: x },
            Capability::FourOctetAsNumber { as_number: y },
        ) => x == y,
        (ApiCapability::AddPath { tuples: xs }, Capability::AddPath { values: ys }) => xs@.len()
            == ys@.len() && forall|k: int|
            0 <= k < xs@.len() ==> #[trigger] xs@[k] == (
            ys@[k].0.spec_to_api(),
            ys@[k].1 as u32,
            ),
        (ApiCapability::EnhancedRouteRefresh, Capability::EnhancedRouteRefresh) => true,
        (
            ApiCapability::LongLivedGracefulRestart { tuples: xs },
            Capability::LongLivedGracefulRestart { values: ys },
        ) => xs@.len() == ys@.len() && forall|k: int|
            0 <= k < xs@.len() ==> #[trigger] xs@[k] == (
            ys@[k].0.spec_to_api(),
            ys@[k].1 as u32,
            ys@[k].2,
            ),
        (ApiCapability::RouteRefreshCisco, Capability::RouteRefreshCisco) => true,
        (ApiCapability::Empty, Capability::Unknown { .. }) => true,
        _ => false,
    }
}

impl Capability {
    /// The capability as shown on the control interface; one this core
    /// does not know is shown empty.
    pub fn to_api(&self) -> (r: ApiCapability)
        ensures
            cap_api_matches(r, *self),
    {
        match self {
            Capability::MultiProtocol { family } => ApiCapability::MultiProtocol {
                family: family.to_api(),
            },
            Capability::RouteRefresh => ApiCapability::RouteRefresh,
            Capability::CarryingLabelInfo => ApiCapability::CarryingLabelInfo,
            Capability::ExtendedNexthop { values } => {
                let mut tuples: Vec<(ApiFamily, ApiFamily)> = Vec::new();
                let m = values.len();
                let mut j: usize = 0;
                while j < m
                    invariant
                        j <= m,
                        m == values@.len(),
                        tuples@.len() == j,
                        forall|k: int|
                            0 <= k < j ==> #[trigger] tuples@[k] == (
                            values@[k].0.spec_to_api(),
                            values@[k].1.spec_to_api(),
                            ),
                    decreases m - j,
                {
                    let (a, b) = values[j];
                    tuples.push((a.to_api(), b.to_api()));
                    j = j + 1;
                }
                ApiCapability::ExtendedNexthop { tuples }
            }
            Capability::GracefulRestart { flags, time, values } => {
                let mut tuples: Vec<(ApiFamily, u32)> = Vec::new();
                let m = values.len();
                let mut j: usize = 0;
                while j < m
                    invariant
                        j <= m,
                        m == values@.len(),
                        tuples@.len() == j,
                        forall|k: int|
                            0 <= k < j ==> #[trigger] tuples@[k] == (
                            values@[k].0.spec_to_api(),
                            values@[k].1 as u32,
                            ),
                    decreases m - j,
                {
                    let (a, b) = values[j];
                    tuples.push((a.to_api(), b as u32));
                    j = j + 1;
                }
                ApiCapability::GracefulRestart {
                    flags: *flags as u32,
                    time: *time as u32,
                    tuples,
                }
            }
            Capability::FourOctetAsNumber { as_number } => ApiCapability::FourOctetAsNumber {
                as_number: *as_number,
            },
            Capability::AddPath { values } => {
                let mut tuples: Vec<(ApiFamily, u32)> = Vec::new();
                let m = values.len();
                let mut j: usize = 0;
                while j < m
                    invariant
                        j <= m,
                        m == values@.len(),
                        tuples@.len() == j,
                        forall|k: int|
                            0 <= k < j ==> #[trigger] tuples@[k] == (
                            values@[k].0.spec_to_api(),
                            values@[k].1 as u32,
                            ),
                    decreases m - j,
                {
                    let (a, b) = values[j];
                    tuples.push((a.to_api(), b as u32));
                    j = j + 1;
                }
                ApiCapability::AddPath { tuples }
            }
            Capability::EnhancedRouteRefresh => ApiCapability::EnhancedRouteRefresh,
            Capability::LongLivedGracefulRestart { values } => {
                let mut tuples: Vec<(ApiFamily, u32, u32)> = Vec::new();
                let m = values.len();
                let mut j: usize = 0;
                while j < m
                    invariant
                        j <= m,
                        m == values@.len(),
                        tuples@.len() == j,
                        forall|k: int|
                            0 <= k < j ==> #[trigger] tuples@[k] == (
                            values@[k].0.spec_to_api(),
                            values@[k].1 as u32,
                            values@[k].2,
                            ),
                    decreases m - j,
                {
                    let (a, b, c) = values[j];
                    tuples.push((a.to_api(), b as u32, c));
                    j = j + 1;
                }
                ApiCapability::LongLivedGracefulRestart { tuples }
            }
            Capability::RouteRefreshCisco => ApiCapability::RouteRefreshCisco,
            Capability::Unknown { .. } => ApiCapability::Empty,
        }
    }
}

/// The session-state values of the control interface.
pub open spec fn spec_session_state(s: State) -> u32 {
    match s {
        State::Idle => 1u32,
        State::Connect => 2u32,
        State::Active => 3u32,
        State::OpenSent => 4u32,
        State::OpenConfirm => 5u32,
        State::Established => 6u32,
    }
}

/// One peer as shown on the control interface.
pub struct ApiPeerState {
    pub neighbor_address: IpAddress,
    pub peer_as: u32,
    pub router_id: u32,
    pub session_state: u32,
    pub messages_received: ApiMessage,
    pub messages_sent: ApiMessage,
    pub remote_cap: Vec<ApiCapability>,
    pub local_cap: Vec<ApiCapability>,
}

pub struct ApiAfiSafiState {
    pub family: ApiFamily,
    pub enabled: bool,
    pub received: u64,
    pub accepted: u64,
}

pub struct ApiPeerStatus {
    pub state: ApiPeerState,
    pub uptime: u64,
    pub downtime: u64,
    pub afi_safis: Vec<ApiAfiSafiState>,
}

/// Whether `r` is the interface form of peer `p`: address, AS numbers,
/// state, counters, capabilities and per-family accepted counts all
/// carried across.
pub open spec fn peer_status_matches(p: Peer, r: ApiPeerStatus) -> bool {
    &&& r.state.neighbor_address == p.address
    &&& r.state.peer_as == p.remote_as
    &&& r.state.router_id == p.router_id
    &&& r.state.session_state == spec_session_state(p.state)
    &&& r.state.messages_received == p.counter_rx.spec_api_mirror()
    &&& r.state.messages_sent == p.counter_tx.spec_api_mirror()
    &&& r.state.remote_cap@.len() == p.remote_cap@.len()
    &&& forall|k: int|
        0 <= k < p.remote_cap@.len() ==> cap_api_matches(
            #[trigger] r.state.remote_cap@[k],
            p.remote_cap@[k],
        )
    &&& r.state.local_cap@.len() == p.local_cap@.len()
    &&& forall|k: int|
        0 <= k < p.local_cap@.len() ==> cap_api_matches(
            #[trigger] r.state.local_cap@[k],
            p.local_cap@[k],
        )
    &&& r.uptime == p.uptime
    &&& r.downtime == p.downtime
    &&& r.afi_safis@.len() == p.accepted@.len()
    &&& forall|k: int|
        0 <= k < p.accepted@.len() ==> #[trigger] r.afi_safis@[k] == (ApiAfiSafiState {
            family: p.accepted@[k].0.spec_to_api(),
            enabled: true,
            received: p.accepted@[k].1,
            accepted: p.accepted@[k].1,
        })
}

impl Peer {
    /// The record as shown on the control interface: address, AS numbers,
    /// state, counters, capabilities and per-family accepted counts.
    pub fn to_api(&self) -> (r: ApiPeerStatus)
        ensures
            peer_status_matches(*self, r),
    {
        let session_state: u32 = match self.state {
            State::Idle => 1,
            State::Connect => 2,
            State::Active => 3,
            State::OpenSent => 4,
            State::OpenConfirm => 5,
            State::Established => 6,
        };
        let mut remote_cap: Vec<ApiCapability> = Vec::new();
        let m = self.remote_cap.len();
        let mut j: usize = 0;
        while j < m
            invariant
                j <= m,
                m == self.remote_cap@.len(),
                remote_cap@.len() == j,
                forall|k: int|
                    0 <= k < j ==> cap_api_matches(
                        #[trigger] remote_cap@[k],
                        self.remote_cap@[k],
                    ),
            decreases m - j,
        {
            remote_cap.push(self.remote_cap[j].to_api());
            j = j + 1;
        }
        let mut local_cap: Vec<ApiCapability> = Vec::new();
        let m2 = self.local_cap.len();
        let mut j2: usize = 0;
        while j2 < m2
            invariant
                j2 <= m2,
                m2 == self.local_cap@.len(),
                local_cap@.len() == j2,
                forall|k: int|
                    0 <= k < j2 ==> cap_api_matches(
                        #[trigger] local_cap@[k],
                        self.local_cap@[k],
                    ),
            decreases m2 - j2,
        {
            local_cap.push(self.local_cap[j2].to_api());
            j2 = j2 + 1;
        }
        let mut afi_safis: Vec<ApiAfiSafiState> = Vec::new();
        let m3 = self.accepted.len();
        let mut j3: usize = 0;
        while j3 < m3
            invariant
                j3 <= m3,
                m3 == self.accepted@.len(),
                afi_safis@.len() == j3,
                forall|k: int|
                    0 <= k < j3 ==> #[trigger] afi_safis@[k] == (ApiAfiSafiState {
                        family: self.accepted@[k].0.spec_to_api(),
                        enabled: true,
                        received: self.accepted@[k].1,
                        accepted: self.accepted@[k].1,
                    }),
            decreases m3 - j3,
        {
            let (f, c) = self.accepted[j3];
            afi_safis.push(
                ApiAfiSafiState { family: f.to_api(), enabled: true, received: c, accepted: c },
            );
            j3 = j3 + 1;
        }
        ApiPeerStatus {
            state: ApiPeerState {
                neighbor_address: self.address,
                peer_as: self.remote_as,
                router_id: self.router_id,
                session_state,
                messages_received: self.counter_rx.to_api(),
                messages_sent: self.counter_tx.to_api(),
                remote_cap,
                local_cap,
            },
            uptime: self.uptime,
            downtime: self.downtime,
            afi_safis,
        }
    }
}

impl MessageCounter {
    pub open spec fn spec_api_mirror(self) -> ApiMessage {
        ApiMessage {
            open: self.open,
            update: self.update,
            notification: self.notification,
            keepalive: self.keepalive,
            refresh: self.refresh,
            discarded: self.discarded,
            total: self.total,
            withdraw_update: self.withdraw_update,
            withdraw_prefix: self.withdraw_prefix,
        }
    }
}

/// The global configuration as shown on the control interface.
#[derive(Clone, Copy, PartialEq, Eq, Structural, Debug)]
pub struct ApiGlobal {
    pub as_number: u32,
    pub router_id: u32,
    pub listen_port: u32,
}

impl Global {
    pub fn to_api(&self) -> (r: ApiGlobal)
        ensures
            r == (ApiGlobal { as_number: self.as_number, router_id: self.id, listen_port: 0u32 }),
    {
        ApiGlobal { as_number: self.as_number, router_id: self.id, listen_port: 0 }
    }
}

/// One destination of a listing on the control interface.
pub struct ApiDestination {
    pub prefix: Nlri,
    pub paths: Vec<ApiPath>,
}

impl crate::rib::Destination {
    /// The destination with the paths already converted by the caller.
    pub fn to_api(&self, paths: Vec<ApiPath>) -> (r: ApiDestination)
        ensures
            r.prefix == self.net,
            r.paths@ == paths@,
    {
        ApiDestination { prefix: self.net, paths }
    }
}

/// The configuration of one peer as it arrives on the control interface.
pub struct ApiPeerConf {
    pub neighbor_address: Option<IpAddress>,
    pub local_as: u32,
    pub peer_as: u32,
}

pub struct ApiTransport {
    pub passive_mode: bool,
}

pub struct ApiTimersConfig {
    pub connect_retry: u64,
    pub hold_time: u64,
}

pub struct ApiTimers {
    pub config: Option<ApiTimersConfig>,
}

pub struct ApiAfiSafiConf {
    pub family: Option<ApiFamily>,
}

/// A peer specification of the control interface, with each part
/// optional as it arrives.
pub struct ApiPeer {
    pub conf: Option<ApiPeerConf>,
    pub transport: Option<ApiTransport>,
    pub timers: Option<ApiTimers>,
    pub afi_safis: Vec<ApiAfiSafiConf>,
}

/// The configured families among the first `i` entries: those that name
/// one of the two supported families.
pub open spec fn conf_family_count(afs: Seq<ApiAfiSafiConf>, i: int) -> int
    decreases i,
{
    if i <= 0 || i > afs.len() {
        0
    } else {
        conf_family_count(afs, i - 1) + (if conf_family_shown(afs[i - 1]) {
            1int
        } else {
            0int
        })
    }
}

pub open spec fn conf_family_shown(a: ApiAfiSafiConf) -> bool {
    match a.family {
        Some(f) => f.spec_to_proto() == Family::Ipv4Uc || f.spec_to_proto() == Family::Ipv6Uc,
        None => false,
    }
}

proof fn lemma_conf_family_count_nonneg(afs: Seq<ApiAfiSafiConf>, i: int)
    ensures
        conf_family_count(afs, i) >= 0,
    decreases i,
{
    if 0 < i <= afs.len() {
        lemma_conf_family_count_nonneg(afs, i - 1);
    }
}

impl ApiPeer {
    /// Whether the specification asks for passive mode.
    pub fn get_passive_mode(&self) -> (r: bool)
        ensures
            r == (match self.transport {
                Some(t) => t.passive_mode,
                None => false,
            }),
    {
        if let Some(t) = &self.transport {
            t.passive_mode
        } else {
            false
        }
    }

    /// The requested local AS, 0 when unset.
    pub fn get_local_as(&self) -> (r: u32)
        ensures
            r == (match self.conf {
                Some(c) => c.local_as,
                None => 0u32,
            }),
    {
        if let Some(c) = &self.conf {
            c.local_as
        } else {
            0
        }
    }

    /// The requested remote AS, 0 when unset.
    pub fn get_remote_as(&self) -> (r: u32)
        ensures
            r == (match self.conf {
                Some(c) => c.peer_as,
                None => 0u32,
            }),
    {
        if let Some(c) = &self.conf {
            c.peer_as
        } else {
            0
        }
    }

    /// The requested connect-retry time, 0 when unset.
    pub fn get_connect_retry_time(&self) -> (r: u64)
        ensures
            r == (match self.timers {
                Some(t) => match t.config {
                    Some(c) => c.connect_retry,
                    None => 0u64,
                },
                None => 0u64,
            }),
    {
        if let Some(t) = &self.timers {
            if let Some(c) = &t.config {
                return c.connect_retry;
            }
        }
        0
    }

    /// The requested hold time, 0 when unset.
    pub fn get_hold_time(&self) -> (r: u64)
        ensures
            r == (match self.timers {
                Some(t) => match t.config {
                    Some(c) => c.hold_time,
                    None => 0u64,
                },
                None => 0u64,
            }),
    {
        if let Some(t) = &self.timers {
            if let Some(c) = &t.config {
                return c.hold_time;
            }
        }
        0
    }

    /// The requested families: those supported among `afi_safis`, in
    /// order; with none given, the family of the neighbor address.
    pub fn get_families(&self) -> (r: Vec<Family>)
        ensures
            (conf_family_count(self.afi_safis@, self.afi_safis@.len() as int) > 0 ==> {
                &&& r@.len() == conf_family_count(self.afi_safis@, self.afi_safis@.len() as int)
                &&& forall|k: int|
                    0 <= k < self.afi_safis@.len() && conf_family_shown(
                        #[trigger] self.afi_safis@[k],
                    ) ==> r@[conf_family_count(self.afi_safis@, k)]
                        == self.afi_safis@[k].family.unwrap().spec_to_proto()
            }),
            (conf_family_count(self.afi_safis@, self.afi_safis@.len() as int) == 0 ==> r@ == (
            match self.conf {
                Some(c) => match c.neighbor_address {
                    Some(a) => if a.is_v4() {
                        seq![Family::Ipv4Uc]
                    } else {
                        seq![Family::Ipv6Uc]
                    },
                    None => Seq::<Family>::empty(),
                },
                None => Seq::<Family>::empty(),
            })),
    {
        let mut v: Vec<Family> = Vec::new();
        let n = self.afi_safis.len();
        let mut i: usize = 0;
        while i < n
            invariant
                i <= n,
                n == self.afi_safis@.len(),
                v@.len() == conf_family_count(self.afi_safis@, i as int),
                forall|k: int|
                    0 <= k < i && conf_family_shown(#[trigger] self.afi_safis@[k]) ==> v@[conf_family_count(self.afi_safis@, k)] == self.afi_safis@[k].family.unwrap().spec_to_proto(),
            decreases n - i,
        {
            let ghost v0 = v@;
            if let Some(fam) = &self.afi_safis[i].family {
                let f = fam.to_proto();
                match f {
                    Family::Ipv4Uc | Family::Ipv6Uc => {
                        v.push(f);
                    }
                    _ => {}
                }
            }
            proof {
                assert forall|k: int|
                    0 <= k < i + 1 && conf_family_shown(#[trigger] self.afi_safis@[k]) implies v@[conf_family_count(self.afi_safis@, k)] == self.afi_safis@[k].family.unwrap().spec_to_proto() by {
                    if k < i as int {
                        lemma_conf_family_count_mono(self.afi_safis@, k, i as int);
                        lemma_conf_family_count_nonneg(self.afi_safis@, k);
                        assert(v@[conf_family_count(self.afi_safis@, k)] == v0[conf_family_count(
                            self.afi_safis@,
                            k,
                        )]);
                    }
                }
            }
            i = i + 1;
        }
        if v.len() == 0 {
            if let Some(c) = &self.conf {
                if let Some(a) = &c.neighbor_address {
                    if a.is_ipv4() {
                        v.push(Family::Ipv4Uc);
                        proof {
                            assert(v@ =~= seq![Family::Ipv4Uc]);
                        }
                    } else {
                        v.push(Family::Ipv6Uc);
                        proof {
                            assert(v@ =~= seq![Family::Ipv6Uc]);
                        }
                    }
                }
            }
        }
        v
    }
}

proof fn lemma_conf_family_count_mono(afs: Seq<ApiAfiSafiConf>, k: int, i: int)
    requires
        0 <= k < i <= afs.len(),
    ensures
        conf_family_count(afs, k + 1) <= conf_family_count(afs, i),
        conf_family_shown(afs[k]) ==> conf_family_count(afs, k) < conf_family_count(afs, i),
    decreases i - k,
{
    if k + 1 < i {
        lemma_conf_family_count_mono(afs, k + 1, i);
    }
}

/// The mapped-count is never negative.
proof fn lemma_native_count_nonneg(api: Seq<ApiAttr>, i: int)
    ensures
        native_count(api, i) >= 0,
    decreases i,
{
    if 0 < i <= api.len() {
        lemma_native_count_nonneg(api, i - 1);
    }
}

/// The mapped-count grows past each mapped attribute.
proof fn lemma_native_count_mono(api: Seq<ApiAttr>, k: int, i: int)
    requires
        0 <= k < i <= api.len(),
    ensures
        native_count(api, k + 1) <= native_count(api, i),
        (match api[k] {
            ApiAttr::NextHop { .. } => true,
            _ => native_count(api, k) < native_count(api, i),
        }),
    decreases i - k,
{
    if k + 1 < i {
        lemma_native_count_mono(api, k + 1, i);
        assert(native_count(api, k + 1) <= native_count(api, i));
    }
}

} // verus!
