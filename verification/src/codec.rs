use vstd::prelude::*;
use crate::net::IpAddress;
use crate::family::Family;
use crate::message::{
    Message, OpenMessage, OpenParam, Capability, NotificationMessage, MSG_OPEN, MSG_UPDATE,
    MSG_NOTIFICATION, MSG_KEEPALIVE, MSG_ROUTE_REFRESH,
};

verus! {

/// Why a message could not be framed or parsed.
#[derive(Clone, Copy, PartialEq, Eq, Structural, Debug)]
pub enum CodecError {
    /// More bytes must be read before a whole message is present.
    TooShort,
    /// The bytes cannot be a message of the supported forms.
    Malformed,
    /// The message does not fit the wire format's length fields.
    TooLong,
}

pub const HEADER_LEN: usize = 19;

pub open spec fn be16(x: u16) -> Seq<u8> {
    seq![(x >> 8u16) as u8, (x & 0xffu16) as u8]
}

pub open spec fn be32(x: u32) -> Seq<u8> {
    seq![
        ((x >> 24u32) & 0xffu32) as u8,
        ((x >> 16u32) & 0xffu32) as u8,
        ((x >> 8u32) & 0xffu32) as u8,
        (x & 0xffu32) as u8,
    ]
}

/// The 16 marker bytes that start every message.
pub open spec fn marker() -> Seq<u8> {
    Seq::new(16, |i: int| 0xffu8)
}

/// The wire form of one capability; only the forms this speaker sends are
/// written.
pub open spec fn enc_cap(c: Capability) -> Seq<u8> {
    match c {
        Capability::MultiProtocol { family } => seq![1u8, 4u8] + be16(
            (family.spec_code() >> 16u32) as u16,
        ) + seq![0u8, (family.spec_code() & 0xffu32) as u8],
        Capability::RouteRefresh => seq![2u8, 0u8],
        Capability::FourOctetAsNumber { as_number } => seq![65u8, 4u8] + be32(as_number),
        Capability::Unknown { code, data } => seq![code, data@.len() as u8] + data@,
        _ => Seq::empty(),
    }
}

pub open spec fn cap_wf(c: Capability) -> bool {
    match c {
        Capability::MultiProtocol { .. } => true,
        Capability::RouteRefresh => true,
        Capability::FourOctetAsNumber { .. } => true,
        Capability::Unknown { code, data } => data@.len() <= 255,
        _ => false,
    }
}

/// The wire form of one OPEN optional parameter.
pub open spec fn enc_param(p: OpenParam) -> Seq<u8> {
    match p {
        OpenParam::CapabilityParam(c) => seq![2u8, enc_cap(c).len() as u8] + enc_cap(c),
        OpenParam::Unknown { param_type, data } => seq![param_type, data@.len() as u8] + data@,
    }
}

pub open spec fn param_wf(p: OpenParam) -> bool {
    match p {
        OpenParam::CapabilityParam(c) => cap_wf(c) && enc_cap(c).len() <= 253,
        OpenParam::Unknown { param_type, data } => data@.len() <= 253,
    }
}

/// The wire form of a parameter list, in order.
pub open spec fn enc_params(ps: Seq<OpenParam>) -> Seq<u8>
    decreases ps.len(),
{
    if ps.len() == 0 {
        Seq::empty()
    } else {
        enc_param(ps[0]) + enc_params(ps.drop_first())
    }
}

pub proof fn lemma_enc_params_snoc(ps: Seq<OpenParam>, p: OpenParam)
    ensures
        enc_params(ps.push(p)) == enc_params(ps) + enc_param(p),
    decreases ps.len(),
{
    let q = ps.push(p);
    assert(q.len() == ps.len() + 1);
    assert(enc_params(q) == enc_param(q[0]) + enc_params(q.drop_first()));
    if ps.len() == 0 {
        assert(q[0] == p);
        assert(q.drop_first() =~= Seq::<OpenParam>::empty());
        assert(enc_params(q.drop_first()) == Seq::<u8>::empty());
        assert(enc_params(q) =~= enc_params(ps) + enc_param(p));
    } else {
        assert(q[0] == ps[0]);
        assert(q.drop_first() =~= ps.drop_first().push(p));
        lemma_enc_params_snoc(ps.drop_first(), p);
        assert(enc_params(ps) == enc_param(ps[0]) + enc_params(ps.drop_first()));
        assert(enc_params(q) =~= enc_params(ps) + enc_param(p));
    }
}

/// The body of an OPEN: version, AS, hold time, router id and the
/// parameter block.
pub open spec fn enc_open_body(o: OpenMessage) -> Seq<u8> {
    seq![o.version] + be16(o.as_number) + be16(o.holdtime) + be32(o.router_id) + seq![
        enc_params(o.params@).len() as u8,
    ] + enc_params(o.params@)
}

pub open spec fn open_wf(o: OpenMessage) -> bool {
    &&& forall|i: int| 0 <= i < o.params@.len() ==> param_wf(#[trigger] o.params@[i])
    &&& enc_params(o.params@).len() <= 255
}

/// The body of the message kinds the framing identity covers.
pub open spec fn enc_body(m: Message) -> Seq<u8> {
    match m {
        Message::Open(o) => enc_open_body(o),
        Message::Notification(n) => seq![n.code, n.subcode] + n.data@,
        Message::Keepalive => Seq::empty(),
        Message::RouteRefresh(f) => be16((f.spec_code() >> 16u32) as u16) + seq![
            0u8,
            (f.spec_code() & 0xffu32) as u8,
        ],
        _ => Seq::empty(),
    }
}

pub open spec fn msg_type(m: Message) -> u8 {
    match m {
        Message::Open(_) => MSG_OPEN,
        Message::Update(_) => MSG_UPDATE,
        Message::Notification(_) => MSG_NOTIFICATION,
        Message::Keepalive => MSG_KEEPALIVE,
        Message::RouteRefresh(_) => MSG_ROUTE_REFRESH,
        Message::Unknown { code, .. } => code,
    }
}

/// The message kinds whose wire form the re-encode identity covers:
/// everything but UPDATE bodies and unknown messages.
pub open spec fn covered(m: Message) -> bool {
    match m {
        Message::Open(o) => open_wf(o),
        Message::Notification(n) => n.data@.len() <= 4000,
        Message::Keepalive => true,
        Message::RouteRefresh(_) => true,
        _ => false,
    }
}

/// The full wire form of a covered message.
pub open spec fn spec_encode(m: Message) -> Seq<u8> {
    marker() + be16((HEADER_LEN + enc_body(m).len()) as u16) + seq![msg_type(m)] + enc_body(m)
}

fn push_u16(v: &mut Vec<u8>, x: u16)
    ensures
        final(v)@ == old(v)@ + be16(x),
{
    let hi = (x >> 8) as u8;
    let lo = (x & 0xff) as u8;
    v.push(hi);
    v.push(lo);
    proof {
        assert(x >> 8u16 <= 0xffu16) by (bit_vector);
        assert(x & 0xffu16 <= 0xffu16) by (bit_vector);
        assert(v@ =~= old(v)@ + be16(x));
    }
}

fn push_u32(v: &mut Vec<u8>, x: u32)
    ensures
        final(v)@ == old(v)@ + be32(x),
{
    let b0 = ((x >> 24) & 0xff) as u8;
    let b1 = ((x >> 16) & 0xff) as u8;
    let b2 = ((x >> 8) & 0xff) as u8;
    let b3 = (x & 0xff) as u8;
    v.push(b0);
    v.push(b1);
    v.push(b2);
    v.push(b3);
    proof {
        assert((x >> 24u32) & 0xffu32 <= 0xffu32) by (bit_vector);
        assert((x >> 16u32) & 0xffu32 <= 0xffu32) by (bit_vector);
        assert((x >> 8u32) & 0xffu32 <= 0xffu32) by (bit_vector);
        assert(x & 0xffu32 <= 0xffu32) by (bit_vector);
        assert(v@ =~= old(v)@ + be32(x));
    }
}

fn push_bytes(v: &mut Vec<u8>, b: &Vec<u8>)
    ensures
        final(v)@ == old(v)@ + b@,
{
    let n = b.len();
    let mut i: usize = 0;
    while i < n
        invariant
            i <= n,
            n == b@.len(),
            v@ == old(v)@ + b@.subrange(0, i as int),
        decreases n - i,
    {
        v.push(b[i]);
        proof {
            assert(v@ =~= old(v)@ + b@.subrange(0, i + 1));
        }
        i = i + 1;
    }
    proof {
        assert(v@ =~= old(v)@ + b@);
    }
}

/// Writes one capability; callers guarantee `cap_wf`.
fn encode_cap(v: &mut Vec<u8>, c: &Capability)
    requires
        cap_wf(*c),
    ensures
        final(v)@ == old(v)@ + enc_cap(*c),
{
    match c {
        Capability::MultiProtocol { family } => {
            let code = family.code();
            proof {
                assert(code >> 16u32 <= 0xffffu32) by (bit_vector);
                assert(code & 0xffu32 <= 0xffu32) by (bit_vector);
            }
            v.push(1);
            v.push(4);
            push_u16(v, (code >> 16) as u16);
            v.push(0);
            v.push((code & 0xff) as u8);
            proof {
                assert(v@ =~= old(v)@ + enc_cap(*c));
            }
        }
        Capability::RouteRefresh => {
            v.push(2);
            v.push(0);
            proof {
                assert(v@ =~= old(v)@ + enc_cap(*c));
            }
        }
        Capability::FourOctetAsNumber { as_number } => {
            v.push(65);
            v.push(4);
            push_u32(v, *as_number);
            proof {
                assert(v@ =~= old(v)@ + enc_cap(*c));
            }
        }
        Capability::Unknown { code, data } => {
            v.push(*code);
            v.push(data.len() as u8);
            push_bytes(v, data);
            proof {
                assert(v@ =~= old(v)@ + enc_cap(*c));
            }
        }
        _ => {
            proof {
                assert(false);
            }
        }
    }
}

/// The length of one capability's wire form, used for the parameter
/// length byte.
fn cap_len(c: &Capability) -> (r: usize)
    requires
        cap_wf(*c),
    ensures
        r == enc_cap(*c).len(),
{
    match c {
        Capability::MultiProtocol { .. } => 6,
        Capability::RouteRefresh => 2,
        Capability::FourOctetAsNumber { .. } => 6,
        Capability::Unknown { code, data } => 2 + data.len(),
        _ => 0,
    }
}

/// Serializes a message to its wire form. A covered message is written
/// exactly as `spec_encode` says; an UPDATE is written as RFC 4271 lays
/// it out; a message that cannot fit the format's length fields is
/// refused.
pub fn encode(m: &Message) -> (r: Result<Vec<u8>, CodecError>)
    ensures
        covered(*m) ==> (match r {
            Ok(b) => b@ == spec_encode(*m),
            Err(_) => false,
        }),
        (match *m {
            Message::Update(u) => match r {
                Ok(b) => update_wire_ok(u, b@),
                Err(_) => true,
            },
            _ => true,
        }),
{
    let mut v: Vec<u8> = Vec::new();
    let mut i: usize = 0;
    while i < 16
        invariant
            i <= 16,
            v@ =~= marker().subrange(0, i as int),
        decreases 16 - i,
    {
        v.push(0xff);
        proof {
            assert(v@ =~= marker().subrange(0, i + 1));
        }
        i = i + 1;
    }
    proof {
        assert(v@ =~= marker());
    }
    match m {
        Message::Keepalive => {
            push_u16(&mut v, HEADER_LEN as u16);
            v.push(MSG_KEEPALIVE);
            proof {
                assert(v@ =~= spec_encode(*m));
            }
            Ok(v)
        }
        Message::Notification(n) => {
            if n.data.len() > 4000 {
                return Err(CodecError::TooLong);
            }
            push_u16(&mut v, (HEADER_LEN + 2 + n.data.len()) as u16);
            v.push(MSG_NOTIFICATION);
            v.push(n.code);
            v.push(n.subcode);
            push_bytes(&mut v, &n.data);
            proof {
                assert(v@ =~= spec_encode(*m));
            }
            Ok(v)
        }
        Message::RouteRefresh(f) => {
            let code = f.code();
            proof {
                assert(code >> 16u32 <= 0xffffu32) by (bit_vector);
                assert(code & 0xffu32 <= 0xffu32) by (bit_vector);
            }
            push_u16(&mut v, (HEADER_LEN + 4) as u16);
            v.push(MSG_ROUTE_REFRESH);
            push_u16(&mut v, (code >> 16) as u16);
            v.push(0);
            v.push((code & 0xff) as u8);
            proof {
                assert(v@ =~= spec_encode(*m));
            }
            Ok(v)
        }
        Message::Open(o) => {
            // write the parameter block first to learn its length
            let mut pv: Vec<u8> = Vec::new();
            let np = o.params.len();
            let mut pi: usize = 0;
            while pi < np
                invariant
                    pi <= np,
                    np == o.params@.len(),
                    *m == Message::Open(*o),
                    pv@ == enc_params(o.params@.subrange(0, pi as int)),
                    forall|k: int| 0 <= k < pi ==> param_wf(#[trigger] o.params@[k]),
                decreases np - pi,
            {
                let ghost pv0 = pv@;
                match &o.params[pi] {
                    OpenParam::CapabilityParam(c) => {
                        let ok = match c {
                            Capability::MultiProtocol { .. } => true,
                            Capability::RouteRefresh => true,
                            Capability::FourOctetAsNumber { .. } => true,
                            Capability::Unknown { code, data } => data.len() <= 251,
                            _ => false,
                        };
                        if !ok {
                            proof {
                                assert(!param_wf(o.params@[pi as int]));
                            }
                            return Err(CodecError::TooLong);
                        }
                        let cl = cap_len(c);
                        pv.push(2);
                        pv.push(cl as u8);
                        encode_cap(&mut pv, c);
                        proof {
                            assert(o.params@.subrange(0, pi + 1) =~= o.params@.subrange(
                                0,
                                pi as int,
                            ).push(o.params@[pi as int]));
                            lemma_enc_params_snoc(
                                o.params@.subrange(0, pi as int),
                                o.params@[pi as int],
                            );
                            assert(pv@ =~= pv0 + enc_param(o.params@[pi as int]));
                        }
                    }
                    OpenParam::Unknown { param_type, data } => {
                        if data.len() > 253 {
                            proof {
                                assert(!param_wf(o.params@[pi as int]));
                            }
                            return Err(CodecError::TooLong);
                        }
                        pv.push(*param_type);
                        pv.push(data.len() as u8);
                        push_bytes(&mut pv, data);
                        proof {
                            assert(o.params@.subrange(0, pi + 1) =~= o.params@.subrange(
                                0,
                                pi as int,
                            ).push(o.params@[pi as int]));
                            lemma_enc_params_snoc(
                                o.params@.subrange(0, pi as int),
                                o.params@[pi as int],
                            );
                            assert(pv@ =~= pv0 + enc_param(o.params@[pi as int]));
                        }
                    }
                }
                pi = pi + 1;
            }
            proof {
                assert(o.params@.subrange(0, np as int) =~= o.params@);
            }
            if pv.len() > 255 {
                return Err(CodecError::TooLong);
            }
            push_u16(&mut v, (HEADER_LEN + 10 + pv.len()) as u16);
            v.push(MSG_OPEN);
            v.push(o.version);
            push_u16(&mut v, o.as_number);
            push_u16(&mut v, o.holdtime);
            push_u32(&mut v, o.router_id);
            v.push(pv.len() as u8);
            push_bytes(&mut v, &pv);
            proof {
                assert(v@ =~= spec_encode(*m));
            }
            Ok(v)
        }
        Message::Update(u) => encode_update(u, v),
        Message::Unknown { .. } => Err(CodecError::Malformed),
    }
}

/// Writes one prefix as its mask length and the covered address bytes.
/// The wire form of one prefix: its mask length and the covered address
/// bytes.
pub open spec fn enc_prefix(net: crate::attr::Nlri) -> Seq<u8> {
    let n = net.spec_net();
    match n.addr {
        IpAddress::V4(a) => seq![n.mask] + Seq::new(
            (((n.mask as int) + 7) / 8) as nat,
            |i: int| ((a >> ((24 - 8 * i) as u32)) & 0xffu32) as u8,
        ),
        IpAddress::V6(a) => seq![n.mask] + Seq::new(
            (((n.mask as int) + 7) / 8) as nat,
            |i: int| ((a >> ((120 - 8 * i) as u128)) & 0xffu128) as u8,
        ),
    }
}

/// The wire form of a prefix list, in order.
pub open spec fn enc_prefixes(ns: Seq<crate::attr::Nlri>) -> Seq<u8>
    decreases ns.len(),
{
    if ns.len() == 0 {
        Seq::empty()
    } else {
        enc_prefix(ns[0]) + enc_prefixes(ns.drop_first())
    }
}

pub proof fn lemma_enc_prefixes_snoc(ns: Seq<crate::attr::Nlri>, x: crate::attr::Nlri)
    ensures
        enc_prefixes(ns.push(x)) == enc_prefixes(ns) + enc_prefix(x),
    decreases ns.len(),
{
    let q = ns.push(x);
    if ns.len() == 0 {
        assert(q[0] == x);
        assert(q.drop_first() =~= Seq::<crate::attr::Nlri>::empty());
        assert(enc_prefixes(q.drop_first()) == Seq::<u8>::empty());
        assert(enc_prefixes(q) =~= enc_prefixes(ns) + enc_prefix(x));
    } else {
        assert(q[0] == ns[0]);
        assert(q.drop_first() =~= ns.drop_first().push(x));
        lemma_enc_prefixes_snoc(ns.drop_first(), x);
        assert(enc_prefixes(q) == enc_prefix(ns[0]) + enc_prefixes(q.drop_first()));
        assert(enc_prefixes(ns) == enc_prefix(ns[0]) + enc_prefixes(ns.drop_first()));
        assert(enc_prefixes(q) =~= enc_prefixes(ns) + enc_prefix(x));
    }
}

/// Writes one prefix; fails exactly on a mask too long for the address.
fn push_prefix(v: &mut Vec<u8>, net: &crate::attr::Nlri) -> (r: bool)
    ensures
        r == net.spec_net().wf(),
        r ==> final(v)@ == old(v)@ + enc_prefix(*net),
        !r ==> final(v)@ == old(v)@,
{
    let n = match net {
        crate::attr::Nlri::Ip(n) => n,
    };
    match n.addr {
        IpAddress::V4(a) => {
            if n.mask > 32 {
                return false;
            }
            v.push(n.mask);
            let nbytes = ((n.mask as usize) + 7) / 8;
            let ghost body = Seq::new(
                nbytes as nat,
                |i: int| ((a >> ((24 - 8 * i) as u32)) & 0xffu32) as u8,
            );
            let mut i: usize = 0;
            while i < nbytes
                invariant
                    i <= nbytes,
                    nbytes <= 4,
                    body == Seq::new(
                        nbytes as nat,
                        |k: int| ((a >> ((24 - 8 * k) as u32)) & 0xffu32) as u8,
                    ),
                    v@ == old(v)@ + seq![n.mask] + body.take(i as int),
                decreases nbytes - i,
            {
                let sh: u32 = 24 - 8 * (i as u32);
                let byte = #[verifier::truncate] (((a >> sh) & 0xff) as u8);
                v.push(byte);
                proof {
                    assert(body[i as int] == byte);
                    assert(v@ =~= old(v)@ + seq![n.mask] + body.take(i + 1));
                }
                i = i + 1;
            }
            proof {
                assert(body.take(nbytes as int) =~= body);
                assert(v@ =~= old(v)@ + enc_prefix(*net));
            }
            true
        }
        IpAddress::V6(a) => {
            if n.mask > 128 {
                return false;
            }
            v.push(n.mask);
            let nbytes = ((n.mask as usize) + 7) / 8;
            let ghost body = Seq::new(
                nbytes as nat,
                |i: int| ((a >> ((120 - 8 * i) as u128)) & 0xffu128) as u8,
            );
            let mut i: usize = 0;
            while i < nbytes
                invariant
                    nbytes <= 16,
                    i <= nbytes,
                    body == Seq::new(
                        nbytes as nat,
                        |k: int| ((a >> ((120 - 8 * k) as u128)) & 0xffu128) as u8,
                    ),
                    v@ == old(v)@ + seq![n.mask] + body.take(i as int),
                decreases nbytes - i,
            {
                let sh: u128 = 120 - 8 * (i as u128);
                let byte = #[verifier::truncate] (((a >> sh) & 0xff) as u8);
                v.push(byte);
                proof {
                    assert(body[i as int] == byte);
                    assert(v@ =~= old(v)@ + seq![n.mask] + body.take(i + 1));
                }
                i = i + 1;
            }
            proof {
                assert(body.take(nbytes as int) =~= body);
                assert(v@ =~= old(v)@ + enc_prefix(*net));
            }
            true
        }
    }
}

/// The frame of an UPDATE on the wire: the header, the withdrawn block
/// holding exactly the withdrawn prefixes, an attribute block of the
/// written length, and the reachability block holding exactly the
/// announced prefixes. The attribute bytes themselves are the one part
/// this identity leaves open.
pub open spec fn update_wire_ok(u: crate::message::UpdateMessage, b: Seq<u8>) -> bool {
    exists|ab: Seq<u8>|
        {
            let w = enc_prefixes(u.withdrawns@);
            let nn = enc_prefixes(u.routes@);
            &&& (#[trigger] ab.len()) <= 0xffff
            &&& w.len() <= 0xffff
            &&& b == marker() + be16(
                (HEADER_LEN + 2 + w.len() + 2 + ab.len() + nn.len()) as u16,
            ) + seq![MSG_UPDATE] + be16(w.len() as u16) + w + be16(ab.len() as u16) + ab + nn
        }
}

/// Writes an UPDATE as withdrawn routes, the attribute block and the
/// IPv4 reachability information.
fn encode_update(u: &crate::message::UpdateMessage, header: Vec<u8>) -> (r: Result<
    Vec<u8>,
    CodecError,
>)
    requires
        header@ == marker(),
    ensures
        match r {
            Ok(b) => update_wire_ok(*u, b@),
            Err(_) => true,
        },
{
    let mut wv: Vec<u8> = Vec::new();
    let nw = u.withdrawns.len();
    let mut i: usize = 0;
    while i < nw
        invariant
            i <= nw,
            nw == u.withdrawns@.len(),
            wv@ == enc_prefixes(u.withdrawns@.take(i as int)),
        decreases nw - i,
    {
        proof {
            assert(u.withdrawns@.take(i + 1) =~= u.withdrawns@.take(i as int).push(
                u.withdrawns@[i as int],
            ));
            lemma_enc_prefixes_snoc(u.withdrawns@.take(i as int), u.withdrawns@[i as int]);
        }
        if !push_prefix(&mut wv, &u.withdrawns[i]) {
            return Err(CodecError::Malformed);
        }
        i = i + 1;
    }
    proof {
        assert(u.withdrawns@.take(nw as int) =~= u.withdrawns@);
    }
    let mut av: Vec<u8> = Vec::new();
    let na = u.attrs.len();
    let mut i: usize = 0;
    while i < na
        invariant
            i <= na,
            na == u.attrs@.len(),
        decreases na - i,
    {
        if !push_attr(&mut av, &u.attrs[i]) {
            return Err(CodecError::Malformed);
        }
        i = i + 1;
    }
    let mut nv: Vec<u8> = Vec::new();
    let nr = u.routes.len();
    let mut i: usize = 0;
    while i < nr
        invariant
            i <= nr,
            nr == u.routes@.len(),
            nv@ == enc_prefixes(u.routes@.take(i as int)),
        decreases nr - i,
    {
        proof {
            assert(u.routes@.take(i + 1) =~= u.routes@.take(i as int).push(
                u.routes@[i as int],
            ));
            lemma_enc_prefixes_snoc(u.routes@.take(i as int), u.routes@[i as int]);
        }
        if !push_prefix(&mut nv, &u.routes[i]) {
            return Err(CodecError::Malformed);
        }
        i = i + 1;
    }
    proof {
        assert(u.routes@.take(nr as int) =~= u.routes@);
    }
    if wv.len() > 0xffff || av.len() > 0xffff || nv.len() > 4096 {
        return Err(CodecError::TooLong);
    }
    let total = HEADER_LEN + 2 + wv.len() + 2 + av.len() + nv.len();
    if total > 4096 {
        return Err(CodecError::TooLong);
    }
    let ghost abv = av@;
    let mut v = header;
    push_u16(&mut v, total as u16);
    v.push(MSG_UPDATE);
    push_u16(&mut v, wv.len() as u16);
    push_bytes(&mut v, &wv);
    push_u16(&mut v, av.len() as u16);
    push_bytes(&mut v, &av);
    push_bytes(&mut v, &nv);
    proof {
        let w = enc_prefixes(u.withdrawns@);
        let nn = enc_prefixes(u.routes@);
        assert(v@ =~= marker() + be16((HEADER_LEN + 2 + w.len() + 2 + abv.len()
            + nn.len()) as u16) + seq![MSG_UPDATE] + be16(w.len() as u16) + w + be16(
            abv.len() as u16,
        ) + abv + nn);
    }
    Ok(v)
}

/// Writes one path attribute with its flags, type and length.
fn push_attr(v: &mut Vec<u8>, a: &crate::attr::Attribute) -> (r: bool) {
    let mut body: Vec<u8> = Vec::new();
    let (flags, code): (u8, u8) = match a {
        crate::attr::Attribute::Origin { origin } => {
            body.push(*origin);
            (0x40, 1)
        }
        crate::attr::Attribute::AsPath { segments } => {
            let ns = segments.len();
            let mut i: usize = 0;
            while i < ns
                invariant
                    i <= ns,
                    ns == segments@.len(),
                decreases ns - i,
            {
                let seg = &segments[i];
                if seg.number.len() > 255 {
                    return false;
                }
                body.push(seg.segment_type);
                body.push(seg.number.len() as u8);
                let nn = seg.number.len();
                let mut j: usize = 0;
                while j < nn
                    invariant
                        j <= nn,
                        nn == seg.number@.len(),
                    decreases nn - j,
                {
                    push_u32(&mut body, seg.number[j]);
                    j = j + 1;
                }
                i = i + 1;
            }
            (0x40, 2)
        }
        crate::attr::Attribute::Nexthop { nexthop } => {
            match nexthop {
                IpAddress::V4(x) => push_u32(&mut body, *x),
                IpAddress::V6(x) => push_u128(&mut body, *x),
            }
            (0x40, 3)
        }
        crate::attr::Attribute::MultiExitDesc { descriptor } => {
            push_u32(&mut body, *descriptor);
            (0x80, 4)
        }
        crate::attr::Attribute::LocalPref { preference } => {
            push_u32(&mut body, *preference);
            (0x40, 5)
        }
        crate::attr::Attribute::AtomicAggregate => (0x40, 6),
        crate::attr::Attribute::Aggregator { number, address, .. } => {
            push_u32(&mut body, *number);
            match address {
                IpAddress::V4(x) => push_u32(&mut body, *x),
                IpAddress::V6(x) => push_u128(&mut body, *x),
            }
            (0xc0, 7)
        }
        crate::attr::Attribute::Community { communities } => {
            let nc = communities.len();
            let mut j: usize = 0;
            while j < nc
                invariant
                    j <= nc,
                    nc == communities@.len(),
                decreases nc - j,
            {
                push_u32(&mut body, communities[j]);
                j = j + 1;
            }
            (0xc0, 8)
        }
        crate::attr::Attribute::OriginatorId { address } => {
            match address {
                IpAddress::V4(x) => push_u32(&mut body, *x),
                IpAddress::V6(x) => push_u128(&mut body, *x),
            }
            (0x80, 9)
        }
        crate::attr::Attribute::ClusterList { addresses } => {
            let nc = addresses.len();
            let mut j: usize = 0;
            while j < nc
                invariant
                    j <= nc,
                    nc == addresses@.len(),
                decreases nc - j,
            {
                match &addresses[j] {
                    IpAddress::V4(x) => push_u32(&mut body, *x),
                    IpAddress::V6(x) => push_u128(&mut body, *x),
                }
                j = j + 1;
            }
            (0x80, 10)
        }
        crate::attr::Attribute::MpReach { family, nexthop, nlri } => {
            let code = family.code();
            push_u16(&mut body, (code >> 16) as u16);
            body.push((code & 0xff) as u8);
            match nexthop {
                IpAddress::V4(x) => {
                    body.push(4);
                    push_u32(&mut body, *x);
                }
                IpAddress::V6(x) => {
                    body.push(16);
                    push_u128(&mut body, *x);
                }
            }
            body.push(0);
            let nn = nlri.len();
            let mut j: usize = 0;
            while j < nn
                invariant
                    j <= nn,
                    nn == nlri@.len(),
                decreases nn - j,
            {
                if !push_prefix(&mut body, &nlri[j]) {
                    return false;
                }
                j = j + 1;
            }
            (0x80, 14)
        }
        crate::attr::Attribute::MpUnreach { family, nlri } => {
            let code = family.code();
            push_u16(&mut body, (code >> 16) as u16);
            body.push((code & 0xff) as u8);
            let nn = nlri.len();
            let mut j: usize = 0;
            while j < nn
                invariant
                    j <= nn,
                    nn == nlri@.len(),
                decreases nn - j,
            {
                if !push_prefix(&mut body, &nlri[j]) {
                    return false;
                }
                j = j + 1;
            }
            (0x80, 15)
        }
    };
    if body.len() > 0xffff {
        return false;
    }
    if body.len() > 255 {
        v.push(flags | 0x10);
        v.push(code);
        push_u16(v, body.len() as u16);
    } else {
        v.push(flags);
        v.push(code);
        v.push(body.len() as u8);
    }
    push_bytes(v, &body);
    true
}

/// The value of a message header's length field.
pub open spec fn hdr_len_field(b: Seq<u8>) -> int {
    b[16] * 256 + b[17]
}

/// A value whose big-endian bytes are known is the bytes' value.
proof fn lemma_be16_value(x: u16, h: u8, l: u8)
    requires
        be16(x) == seq![h, l],
    ensures
        x == h * 256 + l,
{
    assert((x >> 8u16) as u8 == h && (x & 0xffu16) as u8 == l) by {
        assert(be16(x)[0] == h);
        assert(be16(x)[1] == l);
    }
    assert(x >> 8u16 <= 0xffu16 && x & 0xffu16 <= 0xffu16 && x == (x >> 8u16) * 256 + (x
        & 0xffu16)) by (bit_vector);
}

/// Reads two bytes as a big-endian value.
fn read_u16(b: &Vec<u8>, pos: usize) -> (r: u16)
    requires
        pos + 2 <= b@.len(),
    ensures
        be16(r) == seq![b@[pos as int], b@[pos + 1]],
{
    let blen = b.len();
    let hi = b[pos];
    let lo = b[pos + 1];
    let x: u16 = ((hi as u16) << 8) | (lo as u16);
    proof {
        let h16 = hi as u16;
        let l16 = lo as u16;
        assert((((h16 << 8u16) | l16) >> 8u16) == h16 && (((h16 << 8u16) | l16) & 0xffu16) == l16)
            by (bit_vector)
            requires
                h16 <= 0xffu16,
                l16 <= 0xffu16,
        ;
        assert(be16(x) =~= seq![b@[pos as int], b@[pos + 1]]);
    }
    x
}

/// Reads four bytes as a big-endian value.
fn read_u32(b: &Vec<u8>, pos: usize) -> (r: u32)
    requires
        pos + 4 <= b@.len(),
    ensures
        be32(r) == seq![b@[pos as int], b@[pos + 1], b@[pos + 2], b@[pos + 3]],
{
    let blen = b.len();
    let b0 = b[pos];
    let b1 = b[pos + 1];
    let b2 = b[pos + 2];
    let b3 = b[pos + 3];
    let x: u32 = ((b0 as u32) << 24) | ((b1 as u32) << 16) | ((b2 as u32) << 8) | (b3 as u32);
    proof {
        let v0 = b0 as u32;
        let v1 = b1 as u32;
        let v2 = b2 as u32;
        let v3 = b3 as u32;
        assert((((v0 << 24u32) | (v1 << 16u32) | (v2 << 8u32) | v3) >> 24u32) & 0xffu32 == v0
            && (((v0 << 24u32) | (v1 << 16u32) | (v2 << 8u32) | v3) >> 16u32) & 0xffu32 == v1
            && (((v0 << 24u32) | (v1 << 16u32) | (v2 << 8u32) | v3) >> 8u32) & 0xffu32 == v2
            && ((v0 << 24u32) | (v1 << 16u32) | (v2 << 8u32) | v3) & 0xffu32 == v3)
            by (bit_vector)
            requires
                v0 <= 0xffu32,
                v1 <= 0xffu32,
                v2 <= 0xffu32,
                v3 <= 0xffu32,
        ;
        assert(be32(x) =~= seq![b@[pos as int], b@[pos + 1], b@[pos + 2], b@[pos + 3]]);
    }
    x
}

/// Copies `n` bytes starting at `pos` into a fresh list.
fn read_bytes(b: &Vec<u8>, pos: usize, n: usize) -> (r: Vec<u8>)
    requires
        pos + n <= b@.len(),
    ensures
        r@ == b@.subrange(pos as int, pos + n),
{
    let blen = b.len();
    let mut r: Vec<u8> = Vec::new();
    let mut i: usize = 0;
    while i < n
        invariant
            i <= n,
            pos + n <= blen,
            blen == b@.len(),
            r@ == b@.subrange(pos as int, pos + i),
        decreases n - i,
    {
        r.push(b[pos + i]);
        proof {
            assert(r@ =~= b@.subrange(pos as int, pos + i + 1));
        }
        i = i + 1;
    }
    r
}

/// Parses the next complete message from the front of the buffer: the
/// message and the number of bytes it occupies. `TooShort` asks the
/// caller to read more. Whatever is returned for the covered message
/// kinds re-encodes to exactly the consumed bytes.
pub fn decode(b: &Vec<u8>) -> (r: Result<(Message, usize), CodecError>)
    ensures
        match r {
            Ok((m, n)) => {
                &&& HEADER_LEN <= n <= b@.len()
                &&& n == hdr_len_field(b@)
                &&& msg_type(m) == b@[18]
                &&& (match m {
                    Message::Open(_) => b@[18] == MSG_OPEN,
                    Message::Update(_) => b@[18] == MSG_UPDATE,
                    Message::Notification(_) => b@[18] == MSG_NOTIFICATION,
                    Message::Keepalive => b@[18] == MSG_KEEPALIVE,
                    Message::RouteRefresh(_) => b@[18] == MSG_ROUTE_REFRESH,
                    Message::Unknown { length, code } => {
                        &&& code == b@[18]
                        &&& length == hdr_len_field(b@)
                        &&& b@[18] != MSG_OPEN
                        &&& b@[18] != MSG_UPDATE
                        &&& b@[18] != MSG_NOTIFICATION
                        &&& b@[18] != MSG_KEEPALIVE
                        &&& b@[18] != MSG_ROUTE_REFRESH
                    }
                })
                &&& (covered(m) ==> b@.subrange(0, n as int) == spec_encode(m))
            }
            Err(e) => e == CodecError::TooShort ==> (b@.len() < HEADER_LEN || (b@.len()
                >= HEADER_LEN && b@.len() < hdr_len_field(b@))),
        },
{
    if b.len() < HEADER_LEN {
        return Err(CodecError::TooShort);
    }
    let mut i: usize = 0;
    while i < 16
        invariant
            i <= 16,
            b@.len() >= HEADER_LEN,
            forall|k: int| 0 <= k < i ==> b@[k] == 0xffu8,
        decreases 16 - i,
    {
        if b[i] != 0xff {
            return Err(CodecError::Malformed);
        }
        i = i + 1;
    }
    proof {
        assert(b@.subrange(0, 16) =~= marker());
    }
    let len16 = read_u16(b, 16);
    proof {
        lemma_be16_value(len16, b@[16], b@[17]);
        assert(len16 == hdr_len_field(b@));
    }
    let len = len16 as usize;
    if len < HEADER_LEN {
        return Err(CodecError::Malformed);
    }
    if b.len() < len {
        return Err(CodecError::TooShort);
    }
    let t = b[18];
    if t == MSG_KEEPALIVE {
        if len != HEADER_LEN {
            return Err(CodecError::Malformed);
        }
        let m = Message::Keepalive;
        proof {
            assert(enc_body(m).len() == 0);
            assert(be16(len16) == seq![b@[16], b@[17]]);
            assert(b@.subrange(0, HEADER_LEN as int) =~= spec_encode(m));
        }
        return Ok((m, len));
    }
    if t == MSG_NOTIFICATION {
        if len < HEADER_LEN + 2 {
            return Err(CodecError::Malformed);
        }
        let code = b[19];
        let subcode = b[20];
        let data = read_bytes(b, 21, len - 21);
        let m = Message::Notification(
            NotificationMessage { code, subcode, data },
        );
        proof {
            if covered(m) {
                assert(be16(len16) == seq![b@[16], b@[17]]);
                assert(enc_body(m) =~= seq![b@[19], b@[20]] + b@.subrange(21, len as int));
                assert(b@.subrange(0, len as int) =~= spec_encode(m));
            }
        }
        return Ok((m, len));
    }
    if t == MSG_ROUTE_REFRESH {
        if len != HEADER_LEN + 4 {
            return Err(CodecError::Malformed);
        }
        let afi = read_u16(b, 19);
        if b[21] != 0 {
            return Err(CodecError::Malformed);
        }
        let safi = b[22];
        let family = Family::from_code(((afi as u32) << 16) | (safi as u32));
        let m = Message::RouteRefresh(family);
        proof {
            let v = ((afi as u32) << 16u32) | (safi as u32);
            lemma_code_round_trip(v);
            assert(family.spec_code() == v);
            let a32 = afi as u32;
            let s32 = safi as u32;
            assert((((a32 << 16u32) | s32) >> 16u32) == a32 && (((a32 << 16u32) | s32) & 0xffu32)
                == s32) by (bit_vector)
                requires
                    a32 <= 0xffffu32,
                    s32 <= 0xffu32,
            ;
            assert(be16((v >> 16u32) as u16) == seq![b@[19], b@[20]]) by {
                assert((v >> 16u32) as u16 == afi);
            }
            assert(((v & 0xffu32) as u8) == safi);
            assert(be16(len16) == seq![b@[16], b@[17]]);
            assert(enc_body(m) =~= b@.subrange(19, 23));
            assert(b@.subrange(0, len as int) =~= spec_encode(m));
        }
        return Ok((m, len));
    }
    if t == MSG_OPEN {
        if len < HEADER_LEN + 10 {
            return Err(CodecError::Malformed);
        }
        let version = b[19];
        let as_number = read_u16(b, 20);
        let holdtime = read_u16(b, 22);
        let router_id = read_u32(b, 24);
        let optlen = b[28] as usize;
        if len != HEADER_LEN + 10 + optlen {
            return Err(CodecError::Malformed);
        }
        let pend = len;
        let mut pos: usize = 29;
        let mut params: Vec<OpenParam> = Vec::new();
        while pos < pend
            invariant
                29 <= pos <= pend,
                pend == len,
                len <= b@.len(),
                len == HEADER_LEN + 10 + optlen,
                optlen <= 255,
                b@.subrange(29, pos as int) == enc_params(params@),
                forall|k: int| 0 <= k < params@.len() ==> param_wf(#[trigger] params@[k]),
            decreases pend - pos,
        {
            let ghost ps0 = params@;
            let ghost pos0 = pos as int;
            if pend - pos < 2 {
                return Err(CodecError::Malformed);
            }
            let ptype = b[pos];
            let plen = b[pos + 1] as usize;
            if pend - pos < 2 + plen {
                return Err(CodecError::Malformed);
            }
            if ptype == 2 {
                // one capability fills the parameter
                if plen < 2 {
                    return Err(CodecError::Malformed);
                }
                let ccode = b[pos + 2];
                let clen = b[pos + 3] as usize;
                if clen != plen - 2 {
                    return Err(CodecError::Malformed);
                }
                let cap: Capability = if ccode == 1 {
                    if clen != 4 {
                        return Err(CodecError::Malformed);
                    }
                    let afi = read_u16(b, pos + 4);
                    if b[pos + 6] != 0 {
                        return Err(CodecError::Malformed);
                    }
                    let safi = b[pos + 7];
                    let v: u32 = ((afi as u32) << 16) | (safi as u32);
                    let c = Capability::MultiProtocol { family: Family::from_code(v) };
                    proof {
                        lemma_code_round_trip(v);
                        let a32 = afi as u32;
                        let s32 = safi as u32;
                        assert((((a32 << 16u32) | s32) >> 16u32) == a32 && (((a32 << 16u32)
                            | s32) & 0xffu32) == s32) by (bit_vector)
                            requires
                                a32 <= 0xffffu32,
                                s32 <= 0xffu32,
                        ;
                        assert((v >> 16u32) as u16 == afi);
                        assert((v & 0xffu32) as u8 == safi);
                        assert(be16(afi) == seq![b@[pos0 + 4], b@[pos0 + 5]]);
                        assert(enc_cap(c) =~= b@.subrange(pos0 + 2, pos0 + 2 + 2 + clen));
                    }
                    c
                } else if ccode == 2 {
                    if clen != 0 {
                        return Err(CodecError::Malformed);
                    }
                    let c = Capability::RouteRefresh;
                    proof {
                        assert(enc_cap(c) =~= b@.subrange(pos0 + 2, pos0 + 2 + 2 + clen));
                    }
                    c
                } else if ccode == 65 {
                    if clen != 4 {
                        return Err(CodecError::Malformed);
                    }
                    let x = read_u32(b, pos + 4);
                    let c = Capability::FourOctetAsNumber { as_number: x };
                    proof {
                        assert(be32(x) == seq![
                            b@[pos0 + 4],
                            b@[pos0 + 5],
                            b@[pos0 + 6],
                            b@[pos0 + 7],
                        ]);
                        assert(enc_cap(c) =~= b@.subrange(pos0 + 2, pos0 + 2 + 2 + clen));
                    }
                    c
                } else {
                    if clen > 251 {
                        return Err(CodecError::Malformed);
                    }
                    let d = read_bytes(b, pos + 4, clen);
                    let c = Capability::Unknown { code: ccode, data: d };
                    proof {
                        assert(enc_cap(c) =~= b@.subrange(pos0 + 2, pos0 + 2 + 2 + clen));
                    }
                    c
                };
                proof {
                    let c = cap;
                    assert(cap_wf(c));
                    assert(enc_cap(c) == b@.subrange(pos0 + 2, pos0 + 2 + 2 + clen));
                    assert(enc_cap(c).len() == 2 + clen);
                    assert(param_wf(OpenParam::CapabilityParam(c)));
                    assert(enc_param(OpenParam::CapabilityParam(c)) =~= b@.subrange(
                        pos0,
                        pos0 + 2 + plen,
                    ));
                }
                params.push(OpenParam::CapabilityParam(cap));
            } else {
                if plen > 253 {
                    return Err(CodecError::Malformed);
                }
                let data = read_bytes(b, pos + 2, plen);
                let p = OpenParam::Unknown { param_type: ptype, data };
                proof {
                    assert(param_wf(p));
                    assert(enc_param(p) =~= b@.subrange(pos0, pos0 + 2 + plen));
                }
                params.push(p);
            }
            pos = pos + 2 + plen;
            proof {
                lemma_enc_params_snoc(ps0, params@[ps0.len() as int]);
                assert(params@ =~= ps0.push(params@[ps0.len() as int]));
                assert(b@.subrange(29, pos as int) =~= b@.subrange(29, pos0) + b@.subrange(
                    pos0,
                    pos as int,
                ));
                assert(b@.subrange(29, pos as int) =~= enc_params(params@));
            }
        }
        let om = OpenMessage { version, as_number, holdtime, router_id, params };
        let ghost omg = om;
        let m = Message::Open(om);
        proof {
            assert(m == Message::Open(omg));
            assert(enc_params(omg.params@).len() == optlen) by {
                assert(b@.subrange(29, pend as int).len() == optlen);
            }
            assert(open_wf(omg));
            assert(covered(m));
            assert(be16(len16) == seq![b@[16], b@[17]]);
            assert(be16(as_number) == seq![b@[20], b@[21]]);
            assert(be16(holdtime) == seq![b@[22], b@[23]]);
            assert(be32(router_id) == seq![b@[24], b@[25], b@[26], b@[27]]);
            assert(enc_body(m) =~= b@.subrange(19, len as int));
            assert(b@.subrange(0, len as int) =~= spec_encode(m));
        }
        return Ok((m, len));
    }
    if t == MSG_UPDATE {
        return decode_update(b, len);
    }
    Ok((Message::Unknown { length: len16, code: t }, len))
}

/// Parses one prefix at `pos` (exclusive limit `end`), as IPv4 when `v4`.
fn parse_prefix(b: &Vec<u8>, pos: usize, end: usize, v4: bool) -> (r: Result<
    (crate::attr::Nlri, usize),
    CodecError,
>)
    requires
        pos <= end <= b@.len(),
    ensures
        match r {
            Ok((_, np)) => pos < np <= end,
            Err(e) => e == CodecError::Malformed,
        },
{
    if pos >= end {
        return Err(CodecError::Malformed);
    }
    let mask = b[pos];
    let maxm: u8 = if v4 {
        32
    } else {
        128
    };
    if mask > maxm {
        return Err(CodecError::Malformed);
    }
    let nbytes = ((mask as usize) + 7) / 8;
    if end - pos < 1 + nbytes {
        return Err(CodecError::Malformed);
    }
    if v4 {
        let mut a: u32 = 0;
        let mut i: usize = 0;
        while i < nbytes
            invariant
                i <= nbytes,
                nbytes <= 4,
                pos + 1 + nbytes <= end,
                end <= b@.len(),
            decreases nbytes - i,
        {
            let sh: u32 = 24 - 8 * (i as u32);
            a = a | ((b[pos + 1 + i] as u32) << sh);
            i = i + 1;
        }
        Ok(
            (
                crate::attr::Nlri::Ip(
                    crate::net::IpNet { addr: IpAddress::V4(a), mask },
                ),
                pos + 1 + nbytes,
            ),
        )
    } else {
        let mut a: u128 = 0;
        let mut i: usize = 0;
        while i < nbytes
            invariant
                i <= nbytes,
                nbytes <= 16,
                pos + 1 + nbytes <= end,
                end <= b@.len(),
            decreases nbytes - i,
        {
            let sh: u128 = 120 - 8 * (i as u128);
            a = a | ((b[pos + 1 + i] as u128) << sh);
            i = i + 1;
        }
        Ok(
            (
                crate::attr::Nlri::Ip(
                    crate::net::IpNet { addr: IpAddress::V6(a), mask },
                ),
                pos + 1 + nbytes,
            ),
        )
    }
}

/// Reads an address of 4 or 16 bytes.
fn parse_addr(b: &Vec<u8>, pos: usize, alen: usize) -> (r: Result<IpAddress, CodecError>)
    requires
        pos + alen <= b@.len(),
    ensures
        r is Err ==> r == Err::<IpAddress, CodecError>(CodecError::Malformed),
{
    if alen == 4 {
        Ok(IpAddress::V4(read_u32(b, pos)))
    } else if alen == 16 {
        let blen = b.len();
        let mut a: u128 = 0;
        let mut i: usize = 0;
        while i < 16
            invariant
                i <= 16,
                pos + 16 <= blen,
                blen == b@.len(),
            decreases 16 - i,
        {
            let sh: u128 = 120 - 8 * (i as u128);
            a = a | ((b[pos + i] as u128) << sh);
            i = i + 1;
        }
        Ok(IpAddress::V6(a))
    } else {
        Err(CodecError::Malformed)
    }
}

/// Parses an UPDATE body: withdrawn routes, the attribute block (the
/// nexthop and multiprotocol attributes are folded into their fields),
/// and the IPv4 reachability information.
fn decode_update(b: &Vec<u8>, len: usize) -> (r: Result<(Message, usize), CodecError>)
    requires
        HEADER_LEN <= len <= b@.len(),
    ensures
        match r {
            Ok((m, n)) => {
                &&& HEADER_LEN <= n <= b@.len()
                &&& n == len
                &&& m is Update
                &&& !covered(m)
            }
            Err(e) => e == CodecError::Malformed,
        },
{
    if len < HEADER_LEN + 4 {
        return Err(CodecError::Malformed);
    }
    let wlen = read_u16(b, HEADER_LEN) as usize;
    if len < HEADER_LEN + 4 + wlen {
        return Err(CodecError::Malformed);
    }
    let mut withdrawns: Vec<crate::attr::Nlri> = Vec::new();
    let wend = HEADER_LEN + 2 + wlen;
    let mut pos = HEADER_LEN + 2;
    while pos < wend
        invariant
            pos <= wend,
            wend <= b@.len(),
        decreases wend - pos,
    {
        match parse_prefix(b, pos, wend, true) {
            Ok((n, np)) => {
                withdrawns.push(n);
                pos = np;
            }
            Err(e) => {
                return Err(e);
            }
        }
    }
    let alen = read_u16(b, wend) as usize;
    if len < HEADER_LEN + 4 + wlen + alen {
        return Err(CodecError::Malformed);
    }
    let aend = wend + 2 + alen;
    let mut pos = wend + 2;
    let mut attrs: Vec<crate::attr::Attribute> = Vec::new();
    let mut nexthop = IpAddress::V4(0);
    let mut mp_routes: Vec<crate::message::MpRoute> = Vec::new();
    while pos < aend
        invariant
            pos <= aend,
            aend <= b@.len(),
        decreases aend - pos,
    {
        if aend - pos < 3 {
            return Err(CodecError::Malformed);
        }
        let flags = b[pos];
        let code = b[pos + 1];
        let (blen, hdr): (usize, usize) = if flags & 0x10 != 0 {
            if aend - pos < 4 {
                return Err(CodecError::Malformed);
            }
            (read_u16(b, pos + 2) as usize, 4)
        } else {
            (b[pos + 2] as usize, 3)
        };
        if aend - pos < hdr + blen {
            return Err(CodecError::Malformed);
        }
        let bstart = pos + hdr;
        let bend = bstart + blen;
        if code == 1 {
            if blen != 1 {
                return Err(CodecError::Malformed);
            }
            attrs.push(crate::attr::Attribute::Origin { origin: b[bstart] });
        } else if code == 2 {
            let mut sp = bstart;
            let mut segments: Vec<crate::attr::Segment> = Vec::new();
            while sp < bend
                invariant
                    sp <= bend,
                    bend <= b@.len(),
                decreases bend - sp,
            {
                if bend - sp < 2 {
                    return Err(CodecError::Malformed);
                }
                let st = b[sp];
                let cnt = b[sp + 1] as usize;
                if bend - sp < 2 + 4 * cnt {
                    return Err(CodecError::Malformed);
                }
                let mut number: Vec<u32> = Vec::new();
                let mut j: usize = 0;
                while j < cnt
                    invariant
                        j <= cnt,
                        cnt <= 255,
                        sp + 2 + 4 * cnt <= bend,
                        bend <= b@.len(),
                    decreases cnt - j,
                {
                    number.push(read_u32(b, sp + 2 + 4 * j));
                    j = j + 1;
                }
                segments.push(crate::attr::Segment { segment_type: st, number });
                sp = sp + 2 + 4 * cnt;
            }
            attrs.push(crate::attr::Attribute::AsPath { segments });
        } else if code == 3 {
            match parse_addr(b, bstart, blen) {
                Ok(a) => {
                    nexthop = a;
                }
                Err(e) => {
                    return Err(e);
                }
            }
        } else if code == 4 {
            if blen != 4 {
                return Err(CodecError::Malformed);
            }
            attrs.push(
                crate::attr::Attribute::MultiExitDesc { descriptor: read_u32(b, bstart) },
            );
        } else if code == 5 {
            if blen != 4 {
                return Err(CodecError::Malformed);
            }
            attrs.push(crate::attr::Attribute::LocalPref { preference: read_u32(b, bstart) });
        } else if code == 6 {
            if blen != 0 {
                return Err(CodecError::Malformed);
            }
            attrs.push(crate::attr::Attribute::AtomicAggregate);
        } else if code == 7 {
            if blen != 8 {
                return Err(CodecError::Malformed);
            }
            let number = read_u32(b, bstart);
            match parse_addr(b, bstart + 4, 4) {
                Ok(a) => {
                    attrs.push(
                        crate::attr::Attribute::Aggregator {
                            four_byte: true,
                            number,
                            address: a,
                        },
                    );
                }
                Err(e) => {
                    return Err(e);
                }
            }
        } else if code == 8 {
            if blen % 4 != 0 {
                return Err(CodecError::Malformed);
            }
            let cnt = blen / 4;
            let mut communities: Vec<u32> = Vec::new();
            let mut j: usize = 0;
            while j < cnt
                invariant
                    j <= cnt,
                    bstart + 4 * cnt <= bend,
                    bend <= b@.len(),
                decreases cnt - j,
            {
                communities.push(read_u32(b, bstart + 4 * j));
                j = j + 1;
            }
            attrs.push(crate::attr::Attribute::Community { communities });
        } else if code == 9 {
            match parse_addr(b, bstart, blen) {
                Ok(a) => {
                    attrs.push(crate::attr::Attribute::OriginatorId { address: a });
                }
                Err(e) => {
                    return Err(e);
                }
            }
        } else if code == 10 {
            if blen % 4 != 0 {
                return Err(CodecError::Malformed);
            }
            let cnt = blen / 4;
            let mut addresses: Vec<IpAddress> = Vec::new();
            let mut j: usize = 0;
            while j < cnt
                invariant
                    j <= cnt,
                    bstart + 4 * cnt <= bend,
                    bend <= b@.len(),
                decreases cnt - j,
            {
                addresses.push(IpAddress::V4(read_u32(b, bstart + 4 * j)));
                j = j + 1;
            }
            attrs.push(crate::attr::Attribute::ClusterList { addresses });
        } else if code == 14 {
            // multiprotocol reachability: family, nexthop, prefixes
            if blen < 5 {
                return Err(CodecError::Malformed);
            }
            let afi = read_u16(b, bstart);
            let safi = b[bstart + 2];
            let nhlen = b[bstart + 3] as usize;
            if bend - bstart < 5 + nhlen {
                return Err(CodecError::Malformed);
            }
            let nh = match parse_addr(b, bstart + 4, nhlen) {
                Ok(a) => a,
                Err(e) => {
                    return Err(e);
                }
            };
            let mut np = bstart + 4 + nhlen + 1;
            let mut nlri: Vec<crate::attr::Nlri> = Vec::new();
            while np < bend
                invariant
                    np <= bend,
                    bend <= b@.len(),
                decreases bend - np,
            {
                match parse_prefix(b, np, bend, false) {
                    Ok((n, n2)) => {
                        nlri.push(n);
                        np = n2;
                    }
                    Err(e) => {
                        return Err(e);
                    }
                }
            }
            mp_routes.push(crate::message::MpRoute { nlri, nexthop: nh });
        } else if code == 15 {
            // multiprotocol withdrawals join the withdrawn list
            if blen < 3 {
                return Err(CodecError::Malformed);
            }
            let mut np = bstart + 3;
            while np < bend
                invariant
                    np <= bend,
                    bend <= b@.len(),
                decreases bend - np,
            {
                match parse_prefix(b, np, bend, false) {
                    Ok((n, n2)) => {
                        withdrawns.push(n);
                        np = n2;
                    }
                    Err(e) => {
                        return Err(e);
                    }
                }
            }
        } else {
            // an unrecognized attribute is skipped
        }
        pos = bend;
    }
    let mut routes: Vec<crate::attr::Nlri> = Vec::new();
    let mut pos = aend;
    while pos < len
        invariant
            pos <= len,
            len <= b@.len(),
        decreases len - pos,
    {
        match parse_prefix(b, pos, len, true) {
            Ok((n, np)) => {
                routes.push(n);
                pos = np;
            }
            Err(e) => {
                return Err(e);
            }
        }
    }
    Ok(
        (
            Message::Update(
                crate::message::UpdateMessage { withdrawns, attrs, routes, nexthop, mp_routes },
            ),
            len,
        ),
    )
}

/// Any AFI/SAFI code survives the split into its two wire fields.
proof fn lemma_code_round_trip(v: u32)
    ensures
        Family::spec_from_code(v).spec_code() == v,
{
}

fn push_u128(v: &mut Vec<u8>, x: u128)
    ensures
        final(v)@.len() == old(v)@.len() + 16,
{
    let mut i: usize = 0;
    while i < 16
        invariant
            i <= 16,
            v@.len() == old(v)@.len() + i,
        decreases 16 - i,
    {
        let sh: u128 = 120 - 8 * (i as u128);
        let byte = #[verifier::truncate] (((x >> sh) & 0xff) as u8);
        v.push(byte);
        i = i + 1;
    }
}

} // verus!
