use vstd::prelude::*;
use crate::net::IpAddress;
use crate::family::Family;
use crate::message::{Capability, Message};

verus! {

/// The BGP session states.
#[derive(Clone, Copy, PartialEq, Eq, Structural, Debug)]
pub enum State {
    Idle,
    Active,
    Connect,
    OpenSent,
    OpenConfirm,
    Established,
}

/// One more, stopping at the counter's ceiling.
pub open spec fn bumped(x: u64) -> u64 {
    if x == u64::MAX {
        x
    } else {
        (x + 1) as u64
    }
}

fn bump(x: u64) -> (r: u64)
    ensures
        r == bumped(x),
{
    if x == u64::MAX {
        x
    } else {
        x + 1
    }
}

/// Per-peer message counters.
#[derive(Debug)]
pub struct MessageCounter {
    pub open: u64,
    pub update: u64,
    pub notification: u64,
    pub keepalive: u64,
    pub refresh: u64,
    pub discarded: u64,
    pub total: u64,
    pub withdraw_update: u64,
    pub withdraw_prefix: u64,
}

impl Default for MessageCounter {
    /// All counters at zero.
    fn default() -> (r: MessageCounter)
        ensures
            r == (MessageCounter {
                open: 0u64,
                update: 0u64,
                notification: 0u64,
                keepalive: 0u64,
                refresh: 0u64,
                discarded: 0u64,
                total: 0u64,
                withdraw_update: 0u64,
                withdraw_prefix: 0u64,
            }),
    {
        MessageCounter {
            open: 0,
            update: 0,
            notification: 0,
            keepalive: 0,
            refresh: 0,
            discarded: 0,
            total: 0,
            withdraw_update: 0,
            withdraw_prefix: 0,
        }
    }
}

impl MessageCounter {
    /// Counts one message: its kind's counter and the total move up; an
    /// UPDATE also adds its withdrawn prefixes.
    pub fn sync(&mut self, msg: &Message)
        ensures
            final(self).total == bumped(old(self).total),
            match msg {
                Message::Open(_) => *final(self) == (MessageCounter {
                    open: bumped(old(self).open),
                    total: final(self).total,
                    ..*old(self)
                }),
                Message::Update(u) => {
                    &&& final(self).update == bumped(old(self).update)
                    &&& final(self).withdraw_prefix == (if old(self).withdraw_prefix as int
                        + u.withdrawns@.len() <= u64::MAX {
                        (old(self).withdraw_prefix + u.withdrawns@.len()) as u64
                    } else {
                        u64::MAX
                    })
                    &&& final(self).withdraw_update == (if u.withdrawns@.len() > 0 {
                        bumped(old(self).withdraw_update)
                    } else {
                        old(self).withdraw_update
                    })
                    &&& final(self).open == old(self).open
                    &&& final(self).notification == old(self).notification
                    &&& final(self).keepalive == old(self).keepalive
                    &&& final(self).refresh == old(self).refresh
                    &&& final(self).discarded == old(self).discarded
                },
                Message::Notification(_) => *final(self) == (MessageCounter {
                    notification: bumped(old(self).notification),
                    total: final(self).total,
                    ..*old(self)
                }),
                Message::Keepalive => *final(self) == (MessageCounter {
                    keepalive: bumped(old(self).keepalive),
                    total: final(self).total,
                    ..*old(self)
                }),
                Message::RouteRefresh(_) => *final(self) == (MessageCounter {
                    refresh: bumped(old(self).refresh),
                    total: final(self).total,
                    ..*old(self)
                }),
                Message::Unknown { .. } => *final(self) == (MessageCounter {
                    discarded: bumped(old(self).discarded),
                    total: final(self).total,
                    ..*old(self)
                }),
            },
    {
        match msg {
            Message::Open(_) => {
                self.open = bump(self.open);
            }
            Message::Update(update) => {
                self.update = bump(self.update);
                let w = update.withdrawns.len() as u64;
                if w <= u64::MAX - self.withdraw_prefix {
                    self.withdraw_prefix = self.withdraw_prefix + w;
                } else {
                    self.withdraw_prefix = u64::MAX;
                }
                if update.withdrawns.len() > 0 {
                    self.withdraw_update = bump(self.withdraw_update);
                }
            }
            Message::Notification(_) => {
                self.notification = bump(self.notification);
            }
            Message::Keepalive => {
                self.keepalive = bump(self.keepalive);
            }
            Message::RouteRefresh(_) => {
                self.refresh = bump(self.refresh);
            }
            Message::Unknown { .. } => {
                self.discarded = bump(self.discarded);
            }
        }
        self.total = bump(self.total);
    }
}

/// A per-neighbor record: configuration, state, counters and negotiated
/// capabilities. Times are seconds handed in by the caller.
#[derive(Debug)]
pub struct Peer {
    pub address: IpAddress,
    pub remote_as: u32,
    pub router_id: u32,
    pub local_as: u32,
    pub peer_type: u8,
    pub passive: bool,
    pub hold_time: u64,
    pub connect_retry_time: u64,
    pub state: State,
    pub uptime: u64,
    pub downtime: u64,
    pub counter_tx: MessageCounter,
    pub counter_rx: MessageCounter,
    pub accepted: Vec<(Family, u64)>,
    pub remote_cap: Vec<Capability>,
    pub local_cap: Vec<Capability>,
}

pub const DEFAULT_HOLD_TIME: u64 = 180;

pub const DEFAULT_CONNECT_RETRY_TIME: u64 = 3;

/// A value forced into the `u64` range.
pub open spec fn clamped(x: int) -> u64 {
    if x < 0 {
        0u64
    } else if x > u64::MAX {
        u64::MAX
    } else {
        x as u64
    }
}

/// The accepted-count of one family, when the family is tracked.
pub open spec fn accepted_of(accepted: Seq<(Family, u64)>, f: Family) -> Option<u64> {
    if exists|i: int| 0 <= i < accepted.len() && (#[trigger] accepted[i]).0 == f {
        Some(accepted[choose|i: int| 0 <= i < accepted.len() && (#[trigger] accepted[i]).0 == f].1)
    } else {
        None
    }
}

impl Peer {
    /// The tracked families are distinct.
    pub open spec fn wf(self) -> bool {
        forall|i: int, j: int| #![trigger self.accepted@[i], self.accepted@[j]]
            0 <= i < j < self.accepted@.len() ==> self.accepted@[i].0 != self.accepted@[j].0
    }

    /// A fresh record in `Idle`, with the default timers and the base
    /// local capabilities: route refresh and the four-octet AS.
    pub fn new(address: IpAddress, as_number: u32) -> (r: Peer)
        ensures
            r.address == address,
            r.remote_as == 0,
            r.router_id == 0,
            r.local_as == as_number,
            r.peer_type == 0,
            r.passive == false,
            r.hold_time == DEFAULT_HOLD_TIME,
            r.connect_retry_time == DEFAULT_CONNECT_RETRY_TIME,
            r.state == State::Idle,
            r.uptime == 0,
            r.downtime == 0,
            r.counter_tx == (MessageCounter {
                open: 0u64,
                update: 0u64,
                notification: 0u64,
                keepalive: 0u64,
                refresh: 0u64,
                discarded: 0u64,
                total: 0u64,
                withdraw_update: 0u64,
                withdraw_prefix: 0u64,
            }),
            r.counter_rx == r.counter_tx,
            r.accepted@.len() == 0,
            r.remote_cap@.len() == 0,
            r.local_cap@.len() == 2,
            r.local_cap@[0] == Capability::RouteRefresh,
            r.local_cap@[1] == (Capability::FourOctetAsNumber { as_number }),
            r.wf(),
    {
        let mut local_cap: Vec<Capability> = Vec::new();
        local_cap.push(Capability::RouteRefresh);
        local_cap.push(Capability::FourOctetAsNumber { as_number });
        Peer {
            address,
            remote_as: 0,
            router_id: 0,
            local_as: as_number,
            peer_type: 0,
            passive: false,
            hold_time: DEFAULT_HOLD_TIME,
            connect_retry_time: DEFAULT_CONNECT_RETRY_TIME,
            state: State::Idle,
            uptime: 0,
            downtime: 0,
            counter_tx: Default::default(),
            counter_rx: Default::default(),
            accepted: Vec::new(),
            remote_cap: Vec::new(),
            local_cap,
        }
    }

    /// Adds a multiprotocol capability per configured family.
    pub fn families(self, families: Vec<Family>) -> (r: Peer)
        ensures
            r.local_cap@.len() == self.local_cap@.len() + families@.len(),
            forall|i: int|
                0 <= i < self.local_cap@.len() ==> #[trigger] r.local_cap@[i]
                    == self.local_cap@[i],
            forall|i: int|
                0 <= i < families@.len()
                    ==> #[trigger] r.local_cap@[self.local_cap@.len() + i]
                    == (Capability::MultiProtocol { family: families@[i] }),
            r == (Peer { local_cap: r.local_cap, ..self }),
    {
        let mut r = self;
        let ghost s0 = r;
        let ghost base = r.local_cap@;
        let n = families.len();
        let mut i: usize = 0;
        while i < n
            invariant
                i <= n,
                n == families@.len(),
                r.local_cap@.len() == base.len() + i,
                forall|k: int| 0 <= k < base.len() ==> #[trigger] r.local_cap@[k] == base[k],
                forall|k: int|
                    0 <= k < i ==> #[trigger] r.local_cap@[base.len() + k]
                        == (Capability::MultiProtocol { family: families@[k] }),
                r == (Peer { local_cap: r.local_cap, ..s0 }),
                s0 == self,
            decreases n - i,
        {
            r.local_cap.push(Capability::MultiProtocol { family: families[i] });
            i = i + 1;
        }
        r
    }

    /// Sets the configured remote AS.
    pub fn remote_as(self, remote_as: u32) -> (r: Peer)
        ensures
            r == (Peer { remote_as, ..self }),
    {
        let mut r = self;
        r.remote_as = remote_as;
        r
    }

    /// Sets passive mode.
    pub fn passive(self, passive: bool) -> (r: Peer)
        ensures
            r == (Peer { passive, ..self }),
    {
        let mut r = self;
        r.passive = passive;
        r
    }

    /// Sets the hold time; 0 keeps the default.
    pub fn hold_time(self, t: u64) -> (r: Peer)
        ensures
            r == (Peer {
                hold_time: if t != 0 {
                    t
                } else {
                    self.hold_time
                },
                ..self
            }),
    {
        let mut r = self;
        if t != 0 {
            r.hold_time = t;
        }
        r
    }

    /// Sets the connect retry time; 0 keeps the default.
    pub fn connect_retry_time(self, t: u64) -> (r: Peer)
        ensures
            r == (Peer {
                connect_retry_time: if t != 0 {
                    t
                } else {
                    self.connect_retry_time
                },
                ..self
            }),
    {
        let mut r = self;
        if t != 0 {
            r.connect_retry_time = t;
        }
        r
    }

    /// Returns the record to `Idle`: the down time is stamped, the
    /// accepted counts and the remote capabilities are cleared.
    pub fn reset(&mut self, downtime: u64)
        ensures
            final(self).state == State::Idle,
            final(self).downtime == downtime,
            final(self).accepted@.len() == 0,
            final(self).remote_cap@.len() == 0,
            *final(self) == (Peer {
                state: State::Idle,
                downtime,
                accepted: final(self).accepted,
                remote_cap: final(self).remote_cap,
                ..*old(self)
            }),
            final(self).wf(),
    {
        self.state = State::Idle;
        self.downtime = downtime;
        self.accepted = Vec::new();
        self.remote_cap = Vec::new();
    }

    /// Adjusts the accepted-path count of a family: a positive delta adds
    /// (creating the family if absent), a negative one subtracts, and a
    /// withdrawal for a family the peer never announced is ignored.
    pub fn update_accepted(&mut self, family: Family, delta: i64)
        requires
            old(self).wf(),
            delta > i64::MIN,
        ensures
            final(self).wf(),
            *final(self) == (Peer { accepted: final(self).accepted, ..*old(self) }),
            (match accepted_of(old(self).accepted@, family) {
                Some(v) => accepted_of(final(self).accepted@, family) == Some(
                    clamped(v + delta),
                ) && final(self).accepted@.len() == old(self).accepted@.len(),
                None => {
                    if delta > 0 {
                        &&& final(self).accepted@ == old(self).accepted@.push(
                            (family, delta as u64),
                        )
                    } else {
                        final(self).accepted@ == old(self).accepted@
                    }
                },
            }),
            forall|f2: Family|
                f2 != family ==> #[trigger] accepted_of(final(self).accepted@, f2) == accepted_of(
                    old(self).accepted@,
                    f2,
                ),
    {
        let ghost a0 = self.accepted@;
        let n = self.accepted.len();
        let mut i: usize = 0;
        while i < n
            invariant
                i <= n,
                n == a0.len(),
                *self == *old(self),
                a0 == old(self).accepted@,
                old(self).wf(),
                delta > i64::MIN,
                forall|j: int| 0 <= j < i ==> (#[trigger] a0[j]).0 != family,
            decreases n - i,
        {
            let (f, v) = self.accepted[i];
            if f == family {
                proof {
                    assert(a0[i as int].0 == family);
                    let ci = choose|k: int| 0 <= k < a0.len() && (#[trigger] a0[k]).0 == family;
                    if ci < i as int {
                        assert(a0[ci].0 != a0[i as int].0);
                    } else if ci > i as int {
                        assert(a0[i as int].0 != a0[ci].0);
                    }
                    assert(ci == i as int);
                    assert(accepted_of(a0, family) == Some(a0[i as int].1));
                }
                let nv: u64 = if delta > 0 {
                    let du = delta as u64;
                    if v <= u64::MAX - du {
                        v + du
                    } else {
                        u64::MAX
                    }
                } else {
                    let du = (-delta) as u64;
                    if v >= du {
                        v - du
                    } else {
                        0
                    }
                };
                self.accepted.set(i, (family, nv));
                proof {
                    let a1 = self.accepted@;
                    assert(a1 == a0.update(i as int, (family, nv)));
                    assert(a1[i as int].0 == family);
                    let ci = choose|k: int| 0 <= k < a1.len() && (#[trigger] a1[k]).0 == family;
                    if ci != i as int {
                        assert(a1[ci] == a0[ci]);
                        if ci < i as int {
                            assert(a0[ci].0 != a0[i as int].0);
                        } else {
                            assert(a0[i as int].0 != a0[ci].0);
                        }
                    }
                    assert(ci == i as int);
                    assert(accepted_of(a1, family) == Some(nv));
                    assert(nv == clamped(a0[i as int].1 + delta));
                    assert forall|p: int, q: int|
                        #![trigger a1[p], a1[q]]
                        0 <= p < q < a1.len() implies a1[p].0 != a1[q].0 by {
                        if p != i as int {
                            assert(a1[p] == a0[p]);
                        }
                        if q != i as int {
                            assert(a1[q] == a0[q]);
                        }
                    }
                    assert forall|f2: Family|
                        f2 != family implies #[trigger] accepted_of(a1, f2) == accepted_of(
                        a0,
                        f2,
                    ) by {
                        lemma_accepted_of_skip(a0, a1, f2, i as int);
                    }
                }
                return ;
            }
            i = i + 1;
        }
        proof {
            if exists|k: int| 0 <= k < a0.len() && (#[trigger] a0[k]).0 == family {
                let k = choose|k: int| 0 <= k < a0.len() && (#[trigger] a0[k]).0 == family;
                assert(a0[k].0 != family);
            }
            assert(accepted_of(a0, family) is None);
        }
        if delta > 0 {
            self.accepted.push((family, delta as u64));
            proof {
                let a1 = self.accepted@;
                let m = a0.len() as int;
                assert(a1 == a0.push((family, delta as u64)));
                assert(a1[m].0 == family);
                let ci = choose|k: int| 0 <= k < a1.len() && (#[trigger] a1[k]).0 == family;
                if ci != m {
                    assert(a1[ci] == a0[ci]);
                }
                assert(ci == m);
                assert(accepted_of(a1, family) == Some(delta as u64));
                assert forall|p: int, q: int|
                    #![trigger a1[p], a1[q]]
                    0 <= p < q < a1.len() implies a1[p].0 != a1[q].0 by {
                    assert(a1[p] == a0[p]);
                    if q != m {
                        assert(a1[q] == a0[q]);
                    }
                }
                assert forall|f2: Family|
                    f2 != family implies #[trigger] accepted_of(a1, f2) == accepted_of(a0, f2) by {
                    lemma_accepted_of_push(a0, family, delta as u64, f2);
                }
            }
        }
    }
}

/// An update at one index keeps the lookups of every other family.
proof fn lemma_accepted_of_skip(a0: Seq<(Family, u64)>, a1: Seq<(Family, u64)>, f2: Family, i: int)
    requires
        a0.len() == a1.len(),
        0 <= i < a0.len(),
        forall|k: int| 0 <= k < a0.len() && k != i ==> #[trigger] a1[k] == a0[k],
        a0[i].0 != f2,
        a1[i].0 != f2,
        forall|p: int, q: int| #![trigger a0[p], a0[q]]
            0 <= p < q < a0.len() ==> a0[p].0 != a0[q].0,
        forall|p: int, q: int| #![trigger a1[p], a1[q]]
            0 <= p < q < a1.len() ==> a1[p].0 != a1[q].0,
    ensures
        accepted_of(a1, f2) == accepted_of(a0, f2),
{
    if exists|k: int| 0 <= k < a0.len() && (#[trigger] a0[k]).0 == f2 {
        let k = choose|k: int| 0 <= k < a0.len() && (#[trigger] a0[k]).0 == f2;
        assert(k != i);
        assert(a1[k].0 == f2);
        let k1 = choose|k: int| 0 <= k < a1.len() && (#[trigger] a1[k]).0 == f2;
        assert(k1 != i);
        assert(a0[k1].0 == f2);
        if k1 < k {
            assert(a1[k1].0 != a1[k].0);
        } else if k < k1 {
            assert(a1[k].0 != a1[k1].0);
        }
        assert(k1 == k);
        assert(a1[k1] == a0[k]);
    } else {
        if exists|k: int| 0 <= k < a1.len() && (#[trigger] a1[k]).0 == f2 {
            let k = choose|k: int| 0 <= k < a1.len() && (#[trigger] a1[k]).0 == f2;
            assert(k != i);
            assert(a0[k].0 == f2);
        }
    }
}

/// A push of a new family is found by its lookup.
pub proof fn lemma_accepted_of_push_same(a0: Seq<(Family, u64)>, f: Family, v: u64)
    requires
        forall|k: int| 0 <= k < a0.len() ==> (#[trigger] a0[k]).0 != f,
    ensures
        accepted_of(a0.push((f, v)), f) == Some(v),
{
    let a1 = a0.push((f, v));
    let m = a0.len() as int;
    assert(a1[m].0 == f);
    let k = choose|k: int| 0 <= k < a1.len() && (#[trigger] a1[k]).0 == f;
    if k != m {
        assert(a1[k] == a0[k]);
    }
    assert(k == m);
}

/// A push of a new family keeps the lookups of every other family.
proof fn lemma_accepted_of_push(a0: Seq<(Family, u64)>, f: Family, v: u64, f2: Family)
    requires
        f2 != f,
        forall|p: int, q: int| #![trigger a0[p], a0[q]]
            0 <= p < q < a0.len() ==> a0[p].0 != a0[q].0,
    ensures
        accepted_of(a0.push((f, v)), f2) == accepted_of(a0, f2),
{
    let a1 = a0.push((f, v));
    let m = a0.len() as int;
    if exists|k: int| 0 <= k < a0.len() && (#[trigger] a0[k]).0 == f2 {
        let k = choose|k: int| 0 <= k < a0.len() && (#[trigger] a0[k]).0 == f2;
        assert(a1[k].0 == f2);
        let k1 = choose|k: int| 0 <= k < a1.len() && (#[trigger] a1[k]).0 == f2;
        assert(k1 != m);
        assert(a0[k1].0 == f2);
        if k1 < k {
            assert(a0[k1].0 != a0[k].0);
        } else if k < k1 {
            assert(a0[k].0 != a0[k1].0);
        }
        assert(k1 == k);
    } else {
        if exists|k: int| 0 <= k < a1.len() && (#[trigger] a1[k]).0 == f2 {
            let k = choose|k: int| 0 <= k < a1.len() && (#[trigger] a1[k]).0 == f2;
            assert(k != m);
            assert(a0[k].0 == f2);
        }
    }
}

} // verus!
