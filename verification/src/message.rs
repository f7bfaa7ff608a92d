use vstd::prelude::*;
use crate::net::IpAddress;
use crate::family::Family;
use crate::attr::{Attribute, Nlri};

verus! {

pub const MSG_OPEN: u8 = 1;

pub const MSG_UPDATE: u8 = 2;

pub const MSG_NOTIFICATION: u8 = 3;

pub const MSG_KEEPALIVE: u8 = 4;

pub const MSG_ROUTE_REFRESH: u8 = 5;

pub const AS_TRANS: u16 = 23456;

/// A BGP capability, carried in OPEN optional parameters.
#[derive(Clone, Debug)]
pub enum Capability {
    MultiProtocol { family: Family },
    RouteRefresh,
    CarryingLabelInfo,
    ExtendedNexthop { values: Vec<(Family, Family)> },
    GracefulRestart { flags: u8, time: u16, values: Vec<(Family, u8)> },
    FourOctetAsNumber { as_number: u32 },
    AddPath { values: Vec<(Family, u8)> },
    EnhancedRouteRefresh,
    LongLivedGracefulRestart { values: Vec<(Family, u8, u32)> },
    RouteRefreshCisco,
    Unknown { code: u8, data: Vec<u8> },
}

/// Equality of capabilities by contents.
pub open spec fn cap_eq(a: Capability, b: Capability) -> bool {
    match (a, b) {
        (Capability::MultiProtocol { family: x }, Capability::MultiProtocol { family: y }) => x
            == y,
        (Capability::RouteRefresh, Capability::RouteRefresh) => true,
        (Capability::CarryingLabelInfo, Capability::CarryingLabelInfo) => true,
        (
            Capability::ExtendedNexthop { values: x },
            Capability::ExtendedNexthop { values: y },
        ) => x@ == y@,
        (
            Capability::GracefulRestart { flags: fx, time: tx, values: x },
            Capability::GracefulRestart { flags: fy, time: ty, values: y },
        ) => fx == fy && tx == ty && x@ == y@,
        (
            Capability::FourOctetAsNumber { as_number: x },
            Capability::FourOctetAsNumber { as_number: y },
        ) => x == y,
        (Capability::AddPath { values: x }, Capability::AddPath { values: y }) => x@ == y@,
        (Capability::EnhancedRouteRefresh, Capability::EnhancedRouteRefresh) => true,
        (
            Capability::LongLivedGracefulRestart { values: x },
            Capability::LongLivedGracefulRestart { values: y },
        ) => x@ == y@,
        (Capability::RouteRefreshCisco, Capability::RouteRefreshCisco) => true,
        (
            Capability::Unknown { code: cx, data: dx },
            Capability::Unknown { code: cy, data: dy },
        ) => cx == cy && dx@ == dy@,
        _ => false,
    }
}

/// Whether the capability announces multiprotocol support for `f`.
pub open spec fn is_mp_for(c: Capability, f: Family) -> bool {
    match c {
        Capability::MultiProtocol { family } => family == f,
        _ => false,
    }
}

impl Capability {
    /// A copy of the capability, equal by contents.
    pub fn duplicate(&self) -> (r: Capability)
        ensures
            cap_eq(*self, r),
    {
        match self {
            Capability::MultiProtocol { family } => Capability::MultiProtocol { family: *family },
            Capability::RouteRefresh => Capability::RouteRefresh,
            Capability::CarryingLabelInfo => Capability::CarryingLabelInfo,
            Capability::ExtendedNexthop { values } => Capability::ExtendedNexthop {
                values: crate::attr::copy_vec(values),
            },
            Capability::GracefulRestart { flags, time, values } => Capability::GracefulRestart {
                flags: *flags,
                time: *time,
                values: crate::attr::copy_vec(values),
            },
            Capability::FourOctetAsNumber { as_number } => Capability::FourOctetAsNumber {
                as_number: *as_number,
            },
            Capability::AddPath { values } => Capability::AddPath {
                values: crate::attr::copy_vec(values),
            },
            Capability::EnhancedRouteRefresh => Capability::EnhancedRouteRefresh,
            Capability::LongLivedGracefulRestart { values } => {
                Capability::LongLivedGracefulRestart { values: crate::attr::copy_vec(values) }
            }
            Capability::RouteRefreshCisco => Capability::RouteRefreshCisco,
            Capability::Unknown { code, data } => Capability::Unknown {
                code: *code,
                data: crate::attr::copy_vec(data),
            },
        }
    }
}

/// An optional parameter of an OPEN message.
#[derive(Clone, Debug)]
pub enum OpenParam {
    CapabilityParam(Capability),
    Unknown { param_type: u8, data: Vec<u8> },
}

/// An OPEN message: version, the 2-byte AS field, hold time, router id
/// and optional parameters.
#[derive(Clone, Debug)]
pub struct OpenMessage {
    pub version: u8,
    pub as_number: u16,
    pub holdtime: u16,
    pub router_id: u32,
    pub params: Vec<OpenParam>,
}

pub const DEFAULT_HOLDTIME: u16 = 90;

/// The AS number a capability list announces, when a four-octet AS
/// capability is present: the value of the first one, scanning from `i`.
pub open spec fn four_octet_as_from(params: Seq<OpenParam>, i: int) -> Option<u32>
    decreases params.len() - i,
{
    if i < 0 || i >= params.len() {
        None
    } else {
        match params[i] {
            OpenParam::CapabilityParam(Capability::FourOctetAsNumber { as_number }) => Some(
                as_number,
            ),
            _ => four_octet_as_from(params, i + 1),
        }
    }
}

impl OpenMessage {
    /// The peer's AS number: the four-octet capability when present, else
    /// the 2-byte field.
    pub open spec fn spec_as_number(self) -> u32 {
        match four_octet_as_from(self.params@, 0) {
            Some(a) => a,
            None => self.as_number as u32,
        }
    }

    pub fn get_as_number(&self) -> (r: u32)
        ensures
            r == self.spec_as_number(),
    {
        let n = self.params.len();
        let mut i: usize = 0;
        while i < n
            invariant
                i <= n,
                n == self.params@.len(),
                four_octet_as_from(self.params@, 0) == four_octet_as_from(self.params@, i as int),
            decreases n - i,
        {
            if let OpenParam::CapabilityParam(Capability::FourOctetAsNumber { as_number }) =
                &self.params[i] {
                return *as_number;
            }
            i = i + 1;
        }
        self.as_number as u32
    }

    /// An OPEN carrying the local router id, AS and capabilities, with
    /// the default hold time. An AS that does not fit the 2-byte field is
    /// written as the transition AS.
    pub fn new(router_id: u32, local_as: u32, caps: Vec<Capability>) -> (r: OpenMessage)
        ensures
            r.version == 4u8,
            r.holdtime == DEFAULT_HOLDTIME,
            r.router_id == router_id,
            r.as_number == (if local_as > 0xffff {
                AS_TRANS
            } else {
                local_as as u16
            }),
            r.params@.len() == caps@.len(),
            forall|i: int|
                0 <= i < caps@.len() ==> #[trigger] r.params@[i] == OpenParam::CapabilityParam(
                    caps@[i],
                ),
    {
        let as_number: u16 = if local_as > 0xffff {
            AS_TRANS
        } else {
            local_as as u16
        };
        let mut params: Vec<OpenParam> = Vec::new();
        let n = caps.len();
        let mut caps = caps;
        let ghost cs = caps@;
        let mut i: usize = 0;
        while i < n
            invariant
                i <= n,
                n == cs.len(),
                caps@ == cs.subrange(i as int, n as int),
                params@.len() == i,
                forall|k: int|
                    0 <= k < i ==> #[trigger] params@[k] == OpenParam::CapabilityParam(cs[k]),
            decreases n - i,
        {
            let c = caps.remove(0);
            proof {
                assert(c == cs[i as int]);
                assert(caps@ =~= cs.subrange(i + 1, n as int));
            }
            params.push(OpenParam::CapabilityParam(c));
            i = i + 1;
        }
        OpenMessage { version: 4, as_number, holdtime: DEFAULT_HOLDTIME, router_id, params }
    }
}

/// One multiprotocol route group of an UPDATE: prefixes sharing a
/// nexthop.
#[derive(Clone, Debug)]
pub struct MpRoute {
    pub nlri: Vec<Nlri>,
    pub nexthop: IpAddress,
}

/// An UPDATE message after attribute extraction: withdrawn prefixes, the
/// shared attributes, the IPv4 prefixes with their nexthop, and the
/// multiprotocol route groups.
#[derive(Clone, Debug)]
pub struct UpdateMessage {
    pub withdrawns: Vec<Nlri>,
    pub attrs: Vec<Attribute>,
    pub routes: Vec<Nlri>,
    pub nexthop: IpAddress,
    pub mp_routes: Vec<MpRoute>,
}

/// A NOTIFICATION error code/subcode pair.
#[derive(Clone, Copy, PartialEq, Eq, Structural, Debug)]
pub enum NotificationCode {
    MessageHeaderError,
    OpenMessageBadPeerAs,
    UpdateMessageError,
    HoldTimerExpired,
    FiniteStateMachineError,
    Cease,
}

/// A NOTIFICATION message.
#[derive(Clone, Debug)]
pub struct NotificationMessage {
    pub code: u8,
    pub subcode: u8,
    pub data: Vec<u8>,
}

impl NotificationMessage {
    pub open spec fn spec_codes(c: NotificationCode) -> (u8, u8) {
        match c {
            NotificationCode::MessageHeaderError => (1u8, 0u8),
            NotificationCode::OpenMessageBadPeerAs => (2u8, 2u8),
            NotificationCode::UpdateMessageError => (3u8, 0u8),
            NotificationCode::HoldTimerExpired => (4u8, 0u8),
            NotificationCode::FiniteStateMachineError => (5u8, 0u8),
            NotificationCode::Cease => (6u8, 0u8),
        }
    }

    pub fn new(c: NotificationCode) -> (r: NotificationMessage)
        ensures
            r.code == NotificationMessage::spec_codes(c).0,
            r.subcode == NotificationMessage::spec_codes(c).1,
            r.data@.len() == 0,
    {
        let (code, subcode): (u8, u8) = match c {
            NotificationCode::MessageHeaderError => (1, 0),
            NotificationCode::OpenMessageBadPeerAs => (2, 2),
            NotificationCode::UpdateMessageError => (3, 0),
            NotificationCode::HoldTimerExpired => (4, 0),
            NotificationCode::FiniteStateMachineError => (5, 0),
            NotificationCode::Cease => (6, 0),
        };
        NotificationMessage { code, subcode, data: Vec::new() }
    }
}

/// A BGP message.
#[derive(Clone, Debug)]
pub enum Message {
    Open(OpenMessage),
    Update(UpdateMessage),
    Notification(NotificationMessage),
    Keepalive,
    RouteRefresh(Family),
    Unknown { length: u16, code: u8 },
}

} // verus!
