use vstd::prelude::*;
use vstd::pervasive::VecAdditionalExecFns;
use crate::net::IpAddress;
use crate::family::Family;
use crate::attr::{
    Attribute, PathAttr, pattr_eq, spec_local_pref, spec_as_len, spec_origin, spec_med,
    seg_count_from, local_pref_from, as_len_from, origin_from, med_from, DEFAULT_LOCAL_PREF,
};
use crate::attr::Nlri;

verus! {

/// The origin of a path: the peer (or the local speaker) that announced it.
#[derive(Clone, Copy, PartialEq, Eq, Structural, Debug)]
pub struct Source {
    pub address: IpAddress,
    pub ibgp: bool,
    pub local_as: u32,
    pub local_addr: IpAddress,
}

/// One path to a destination, immutable once inserted. The timestamp is
/// the insertion time in seconds, handed in by the caller.
#[derive(Clone, Debug)]
pub struct Path {
    pub source: Source,
    pub nexthop: IpAddress,
    pub attrs: PathAttr,
    pub timestamp: u64,
}

/// Equality of paths by contents.
pub open spec fn path_eq(a: Path, b: Path) -> bool {
    a.source == b.source && a.nexthop == b.nexthop && a.timestamp == b.timestamp && pattr_eq(
        a.attrs,
        b.attrs,
    )
}

/// Equality of path lists by contents.
pub open spec fn entries_eq(a: Seq<Path>, b: Seq<Path>) -> bool {
    a.len() == b.len() && forall|i: int| 0 <= i < a.len() ==> path_eq(#[trigger] a[i], b[i])
}

impl Path {
    pub fn new(source: Source, nexthop: IpAddress, attrs: PathAttr, timestamp: u64) -> (r: Path)
        ensures
            r == (Path { source, nexthop, attrs, timestamp }),
    {
        Path { source, nexthop, attrs, timestamp }
    }

    /// The path's local preference: the first `LocalPref` attribute, or the
    /// default when none is present.
    pub fn get_local_preference(&self) -> (r: u32)
        ensures
            r == spec_local_pref(self.attrs.entry@),
    {
        let n = self.attrs.entry.len();
        let mut i: usize = 0;
        while i < n
            invariant
                i <= n,
                n == self.attrs.entry@.len(),
                local_pref_from(self.attrs.entry@, 0) == local_pref_from(
                    self.attrs.entry@,
                    i as int,
                ),
            decreases n - i,
        {
            if let Attribute::LocalPref { preference } = &self.attrs.entry[i] {
                return *preference;
            }
            i = i + 1;
        }
        DEFAULT_LOCAL_PREF
    }

    /// The path's AS-path length: the total AS count of the first `AsPath`
    /// attribute, or 0 when none is present.
    pub fn get_as_len(&self) -> (r: u32)
        requires
            self.attrs.wf(),
        ensures
            r == spec_as_len(self.attrs.entry@),
    {
        let n = self.attrs.entry.len();
        let mut i: usize = 0;
        while i < n
            invariant
                i <= n,
                n == self.attrs.entry@.len(),
                as_len_from(self.attrs.entry@, 0) == as_len_from(self.attrs.entry@, i as int),
                as_len_from(self.attrs.entry@, 0) <= u32::MAX,
            decreases n - i,
        {
            if let Attribute::AsPath { segments } = &self.attrs.entry[i] {
                let m = segments.len();
                let mut acc: u64 = 0;
                let mut j: usize = 0;
                while j < m
                    invariant
                        j <= m,
                        m == segments@.len(),
                        acc + seg_count_from(segments@, j as int) == seg_count_from(segments@, 0),
                        seg_count_from(segments@, 0) <= u32::MAX,
                    decreases m - j,
                {
                    acc = acc + segments[j].as_len() as u64;
                    j = j + 1;
                }
                return acc as u32;
            }
            i = i + 1;
        }
        0
    }

    /// The path's origin: the first `Origin` attribute, or 0 when none is
    /// present.
    pub fn get_origin(&self) -> (r: u8)
        ensures
            r == spec_origin(self.attrs.entry@),
    {
        let n = self.attrs.entry.len();
        let mut i: usize = 0;
        while i < n
            invariant
                i <= n,
                n == self.attrs.entry@.len(),
                origin_from(self.attrs.entry@, 0) == origin_from(self.attrs.entry@, i as int),
            decreases n - i,
        {
            if let Attribute::Origin { origin } = &self.attrs.entry[i] {
                return *origin;
            }
            i = i + 1;
        }
        0
    }

    /// The path's multi-exit discriminator: the first `MultiExitDesc`
    /// attribute, or 0 when none is present.
    pub fn get_med(&self) -> (r: u32)
        ensures
            r == spec_med(self.attrs.entry@),
    {
        let n = self.attrs.entry.len();
        let mut i: usize = 0;
        while i < n
            invariant
                i <= n,
                n == self.attrs.entry@.len(),
                med_from(self.attrs.entry@, 0) == med_from(self.attrs.entry@, i as int),
            decreases n - i,
        {
            if let Attribute::MultiExitDesc { descriptor } = &self.attrs.entry[i] {
                return *descriptor;
            }
            i = i + 1;
        }
        0
    }
}

/// The comparison chain of best-path selection: a candidate `b` beats an
/// entry `a` when the first criterion on which they differ prefers `b` —
/// higher local preference, then shorter AS path, then lower origin, then
/// lower multi-exit discriminator (defaults 100/0/0/0 when an attribute
/// is absent).
pub open spec fn beats(b: Path, a: Path) -> bool {
    let lp_b = spec_local_pref(b.attrs.entry@);
    let lp_a = spec_local_pref(a.attrs.entry@);
    let as_b = spec_as_len(b.attrs.entry@);
    let as_a = spec_as_len(a.attrs.entry@);
    let o_b = spec_origin(b.attrs.entry@);
    let o_a = spec_origin(a.attrs.entry@);
    let m_b = spec_med(b.attrs.entry@);
    let m_a = spec_med(a.attrs.entry@);
    if lp_b != lp_a {
        lp_b > lp_a
    } else if as_b != as_a {
        as_b < as_a
    } else if o_b != o_a {
        o_b < o_a
    } else {
        m_b < m_a
    }
}

/// The comparison chain is transitive.
pub proof fn lemma_beats_trans(a: Path, b: Path, c: Path)
    requires
        beats(a, b),
        beats(b, c),
    ensures
        beats(a, c),
{
}

/// The list is ordered by the comparison chain: no entry beats an earlier
/// one.
pub open spec fn sorted_by_pref(e: Seq<Path>) -> bool {
    forall|i: int, j: int| #![trigger e[i], e[j]] 0 <= i < j < e.len() ==> !beats(e[j], e[i])
}

/// One destination: a prefix and its ordered list of paths.
#[derive(Clone, Debug)]
pub struct Destination {
    pub net: Nlri,
    pub entry: Vec<Path>,
}

/// No two paths share a source address.
pub open spec fn distinct_sources(entry: Seq<Path>) -> bool {
    forall|i: int, j: int| #![trigger entry[i], entry[j]]
        0 <= i < j < entry.len() ==> entry[i].source.address != entry[j].source.address
}

/// Every path's attribute bag is well formed.
pub open spec fn all_attrs_wf(entry: Seq<Path>) -> bool {
    forall|i: int| 0 <= i < entry.len() ==> (#[trigger] entry[i]).attrs.wf()
}

impl Destination {
    pub fn new(net: Nlri) -> (r: Destination)
        ensures
            r.net == net,
            r.entry@.len() == 0,
    {
        Destination { net, entry: Vec::new() }
    }

    /// Paths present, sources distinct, attribute bags well formed.
    pub open spec fn wf(self) -> bool {
        &&& self.entry@.len() > 0
        &&& distinct_sources(self.entry@)
        &&& all_attrs_wf(self.entry@)
    }
}

/// A change of the table's best paths, fanned out to the active peers.
pub enum TableUpdate {
    NewBest(Nlri, IpAddress, PathAttr, Source),
    Withdrawn(Nlri, Source),
}

/// The destinations of one address family.
#[derive(Clone, Debug)]
pub struct FamilyTable {
    pub family: Family,
    pub dests: Vec<Destination>,
}

impl FamilyTable {
    /// Prefixes distinct, every destination well formed.
    pub open spec fn wf(self) -> bool {
        &&& forall|i: int, j: int| #![trigger self.dests@[i], self.dests@[j]]
            0 <= i < j < self.dests@.len() ==> self.dests@[i].net != self.dests@[j].net
        &&& forall|i: int| 0 <= i < self.dests@.len() ==> (#[trigger] self.dests@[i]).wf()
    }
}

/// A peer whose session is established and may receive fan-out.
#[derive(Clone, Copy, PartialEq, Eq, Structural, Debug)]
pub struct ActivePeer {
    pub address: IpAddress,
    pub source: Source,
}

/// The routing information base: destinations partitioned by family, the
/// set of active peers, and the selection mode.
#[derive(Clone, Debug)]
pub struct Table {
    pub local_source: Source,
    pub disable_best_path_selection: bool,
    pub master: Vec<FamilyTable>,
    pub active_peers: Vec<ActivePeer>,
}

impl Table {
    /// Families distinct and well formed; active peer addresses distinct;
    /// with selection enabled, every destination's list ordered by the
    /// comparison chain, so its head is beaten by no other entry.
    pub open spec fn wf(self) -> bool {
        &&& forall|i: int, j: int| #![trigger self.master@[i], self.master@[j]]
            0 <= i < j < self.master@.len() ==> self.master@[i].family != self.master@[j].family
        &&& forall|i: int| 0 <= i < self.master@.len() ==> (#[trigger] self.master@[i]).wf()
        &&& forall|i: int, j: int| #![trigger self.active_peers@[i], self.active_peers@[j]]
            0 <= i < j < self.active_peers@.len() ==> self.active_peers@[i].address
            != self.active_peers@[j].address
        &&& !self.disable_best_path_selection ==> forall|i: int, j: int|
            #![trigger self.master@[i].dests@[j]]
            0 <= i < self.master@.len() && 0 <= j < self.master@[i].dests@.len()
                ==> sorted_by_pref(self.master@[i].dests@[j].entry@)
    }

    pub open spec fn has_fam(self, f: Family) -> bool {
        exists|i: int| 0 <= i < self.master@.len() && (#[trigger] self.master@[i]).family == f
    }

    pub open spec fn fam_idx(self, f: Family) -> int {
        choose|i: int| 0 <= i < self.master@.len() && (#[trigger] self.master@[i]).family == f
    }
}

pub open spec fn has_dst(dests: Seq<Destination>, net: Nlri) -> bool {
    exists|i: int| 0 <= i < dests.len() && (#[trigger] dests[i]).net == net
}

pub open spec fn dst_idx(dests: Seq<Destination>, net: Nlri) -> int {
    choose|i: int| 0 <= i < dests.len() && (#[trigger] dests[i]).net == net
}

/// Whether the table holds a destination for `net` in family `f`.
pub open spec fn table_has_dest(t: Table, f: Family, net: Nlri) -> bool {
    t.has_fam(f) && has_dst(t.master@[t.fam_idx(f)].dests@, net)
}

/// The path list of the destination for `net` in family `f`; meaningful
/// only when `table_has_dest` holds.
pub open spec fn table_entry(t: Table, f: Family, net: Nlri) -> Seq<Path> {
    let ds = t.master@[t.fam_idx(f)].dests@;
    ds[dst_idx(ds, net)].entry@
}

pub open spec fn has_source(entry: Seq<Path>, addr: IpAddress) -> bool {
    exists|i: int| 0 <= i < entry.len() && (#[trigger] entry[i]).source.address == addr
}

/// `i` is the first index whose path comes from `addr`.
pub open spec fn is_first_source(entry: Seq<Path>, addr: IpAddress, i: int) -> bool {
    &&& 0 <= i < entry.len()
    &&& entry[i].source.address == addr
    &&& forall|j: int| 0 <= j < i ==> (#[trigger] entry[j]).source.address != addr
}

/// The position best-path selection gives a candidate: the first index it
/// beats, or the end of the list; position 0 unconditionally in collector
/// mode.
pub open spec fn is_insert_pos(entry: Seq<Path>, b: Path, disable: bool, idx: int) -> bool {
    if disable {
        idx == 0
    } else {
        &&& 0 <= idx <= entry.len()
        &&& forall|j: int| 0 <= j < idx ==> !beats(b, #[trigger] entry[j])
        &&& (idx < entry.len() ==> beats(b, entry[idx]))
    }
}

/// The index of the first entry `b` beats, or the length when it beats
/// none.
pub open spec fn ins_pos(e: Seq<Path>, b: Path) -> int
    decreases e.len(),
{
    if e.len() == 0 {
        0
    } else if beats(b, e[0]) {
        0
    } else {
        1 + ins_pos(e.drop_first(), b)
    }
}

/// The position an inserted path lands at: 0 in collector mode, the first
/// beaten entry otherwise.
pub open spec fn sel_pos(e: Seq<Path>, b: Path, disable: bool) -> int {
    if disable {
        0
    } else {
        ins_pos(e, b)
    }
}

pub proof fn lemma_ins_pos_unique(e: Seq<Path>, b: Path, disable: bool, idx: int)
    requires
        is_insert_pos(e, b, disable, idx),
    ensures
        idx == sel_pos(e, b, disable),
    decreases e.len(),
{
    if !disable {
        if e.len() == 0 {
        } else if beats(b, e[0]) {
            assert(idx == 0);
        } else {
            assert(idx >= 1);
            let t = e.drop_first();
            assert forall|k: int| 0 <= k < t.len() implies t[k] == e[k + 1] by {}
            assert(is_insert_pos(t, b, disable, idx - 1));
            lemma_ins_pos_unique(t, b, disable, idx - 1);
        }
    }
}

/// The selection position stays within the list.
pub proof fn lemma_ins_pos_bounds(e: Seq<Path>, b: Path)
    ensures
        0 <= ins_pos(e, b) <= e.len(),
    decreases e.len(),
{
    if e.len() > 0 && !beats(b, e[0]) {
        lemma_ins_pos_bounds(e.drop_first(), b);
    }
}

/// One destination's path list after `insert`: any prior path from the
/// same source leaves, and the new path enters at the position the
/// comparison chain gives it.
pub open spec fn entry_after_insert(
    e: Seq<Path>,
    source: Source,
    nexthop: IpAddress,
    attrs: PathAttr,
    timestamp: u64,
    disable: bool,
) -> Seq<Path> {
    let b = Path { source, nexthop, attrs, timestamp };
    if has_source(e, source.address) {
        let e1 = e.remove(first_source_idx(e, source.address));
        e1.insert(sel_pos(e1, b, disable), b)
    } else {
        e.insert(sel_pos(e, b, disable), b)
    }
}

/// Whether the insertion lands at position 0: the new path becomes the
/// head of the list.
pub open spec fn spec_head_changed(
    e: Seq<Path>,
    source: Source,
    nexthop: IpAddress,
    attrs: PathAttr,
    timestamp: u64,
    disable: bool,
) -> bool {
    let b = Path { source, nexthop, attrs, timestamp };
    if has_source(e, source.address) {
        sel_pos(e.remove(first_source_idx(e, source.address)), b, disable) == 0
    } else {
        sel_pos(e, b, disable) == 0
    }
}

/// First index in `master` holding `family`, scanning in order.
fn find_family_index(master: &Vec<FamilyTable>, family: Family) -> (r: Option<usize>)
    ensures
        match r {
            Some(i) => i < master@.len() && master@[i as int].family == family,
            None => forall|i: int|
                0 <= i < master@.len() ==> (#[trigger] master@[i]).family != family,
        },
{
    let mut i: usize = 0;
    while i < master.len()
        invariant
            i <= master@.len(),
            forall|j: int| 0 <= j < i ==> (#[trigger] master@[j]).family != family,
        decreases master@.len() - i,
    {
        if master[i].family == family {
            return Some(i);
        }
        i = i + 1;
    }
    None
}

/// First index in `dests` holding `net`, scanning in order.
fn find_dest_index(dests: &Vec<Destination>, net: Nlri) -> (r: Option<usize>)
    ensures
        match r {
            Some(i) => i < dests@.len() && dests@[i as int].net == net,
            None => forall|i: int| 0 <= i < dests@.len() ==> (#[trigger] dests@[i]).net != net,
        },
{
    let mut i: usize = 0;
    while i < dests.len()
        invariant
            i <= dests@.len(),
            forall|j: int| 0 <= j < i ==> (#[trigger] dests@[j]).net != net,
        decreases dests@.len() - i,
    {
        if dests[i].net == net {
            return Some(i);
        }
        i = i + 1;
    }
    None
}

/// First index in `entry` whose path comes from `addr`.
fn find_source_index(entry: &Vec<Path>, addr: IpAddress) -> (r: Option<usize>)
    ensures
        match r {
            Some(i) => is_first_source(entry@, addr, i as int),
            None => !has_source(entry@, addr),
        },
{
    let mut i: usize = 0;
    while i < entry.len()
        invariant
            i <= entry@.len(),
            forall|j: int| 0 <= j < i ==> (#[trigger] entry@[j]).source.address != addr,
        decreases entry@.len() - i,
    {
        if entry[i].source.address == addr {
            return Some(i);
        }
        i = i + 1;
    }
    None
}

/// Whether candidate `b` beats entry `a` under the comparison chain.
fn path_beats(b: &Path, a: &Path) -> (r: bool)
    requires
        b.attrs.wf(),
        a.attrs.wf(),
    ensures
        r == beats(*b, *a),
{
    let lp_b = b.get_local_preference();
    let lp_a = a.get_local_preference();
    if lp_b != lp_a {
        return lp_b > lp_a;
    }
    let as_b = b.get_as_len();
    let as_a = a.get_as_len();
    if as_b != as_a {
        return as_b < as_a;
    }
    let o_b = b.get_origin();
    let o_a = a.get_origin();
    if o_b != o_a {
        return o_b < o_a;
    }
    b.get_med() < a.get_med()
}

/// The insertion position of `b` under best-path selection: the index of
/// the first entry `b` beats, or the end when it beats none.
fn best_position(entry: &Vec<Path>, b: &Path) -> (idx: usize)
    requires
        b.attrs.wf(),
        all_attrs_wf(entry@),
    ensures
        is_insert_pos(entry@, *b, false, idx as int),
{
    let mut i: usize = 0;
    while i < entry.len()
        invariant
            i <= entry@.len(),
            b.attrs.wf(),
            all_attrs_wf(entry@),
            forall|j: int| 0 <= j < i ==> !beats(*b, #[trigger] entry@[j]),
        decreases entry@.len() - i,
    {
        if path_beats(b, &entry[i]) {
            return i;
        }
        i = i + 1;
    }
    entry.len()
}

/// The first index whose path comes from `addr`, counting from the front;
/// the length when no path does.
pub open spec fn first_source_idx(e: Seq<Path>, addr: IpAddress) -> int
    decreases e.len(),
{
    if e.len() == 0 {
        0
    } else if e[0].source.address == addr {
        0
    } else {
        1 + first_source_idx(e.drop_first(), addr)
    }
}

pub proof fn lemma_first_source(e: Seq<Path>, addr: IpAddress)
    requires
        has_source(e, addr),
    ensures
        is_first_source(e, addr, first_source_idx(e, addr)),
    decreases e.len(),
{
    if e.len() > 0 && e[0].source.address != addr {
        let t = e.drop_first();
        assert forall|i: int| 0 <= i < t.len() implies t[i] == e[i + 1] by {}
        assert(has_source(t, addr)) by {
            let w = choose|i: int|
                0 <= i < e.len() && (#[trigger] e[i]).source.address == addr;
            assert(t[w - 1] == e[w]);
        }
        lemma_first_source(t, addr);
        let ti = first_source_idx(t, addr);
        assert(e[1 + ti].source.address == addr);
        assert forall|j: int| 0 <= j < 1 + ti implies (
        #[trigger] e[j]).source.address != addr by {
            if j > 0 {
                assert(t[j - 1] == e[j]);
            }
        }
    }
}

pub proof fn lemma_first_source_unique(e: Seq<Path>, addr: IpAddress, i: int)
    requires
        is_first_source(e, addr, i),
    ensures
        i == first_source_idx(e, addr),
    decreases e.len(),
{
    if e[0].source.address == addr {
        assert(i == 0);
    } else {
        let t = e.drop_first();
        assert forall|k: int| 0 <= k < t.len() implies t[k] == e[k + 1] by {}
        assert(is_first_source(t, addr, i - 1));
        lemma_first_source_unique(t, addr, i - 1);
    }
}

/// Applies `insert` to one destination's path list; returns
/// `(head_changed, added)`.
fn insert_entry(entry: &mut Vec<Path>, source: Source, nexthop: IpAddress, attrs: PathAttr, timestamp: u64, disable: bool) -> (r: (bool, bool))
    requires
        distinct_sources(old(entry)@),
        all_attrs_wf(old(entry)@),
        attrs.wf(),
    ensures
        final(entry)@ == entry_after_insert(old(entry)@, source, nexthop, attrs, timestamp, disable),
        r.0 == spec_head_changed(old(entry)@, source, nexthop, attrs, timestamp, disable),
        r.1 == !has_source(old(entry)@, source.address),
        distinct_sources(final(entry)@),
        all_attrs_wf(final(entry)@),
        final(entry)@.len() > 0,
        final(entry)@.len() == old(entry)@.len() + (if r.1 { 1int } else { 0int }),
        (!disable && sorted_by_pref(old(entry)@)) ==> sorted_by_pref(final(entry)@),
{
    let ghost e0 = entry@;
    let found = find_source_index(entry, source.address);
    let mut head_changed = false;
    let mut added = true;
    let ghost mut i0: int = 0;
    if let Some(i) = found {
        entry.remove(i);
        added = false;
        proof {
            i0 = i as int;
            assert forall|p: int, q: int| #![trigger entry@[p], entry@[q]]
                0 <= p < q < entry@.len() implies entry@[p].source.address
                != entry@[q].source.address by {
                assert(entry@[p] == if p < i0 { e0[p] } else { e0[p + 1] });
                assert(entry@[q] == if q < i0 { e0[q] } else { e0[q + 1] });
            }
            assert forall|p: int| 0 <= p < entry@.len() implies (
            #[trigger] entry@[p]).attrs.wf() by {
                assert(entry@[p] == if p < i0 { e0[p] } else { e0[p + 1] });
            }
            assert forall|p: int| 0 <= p < entry@.len() implies (
            #[trigger] entry@[p]).source.address != source.address by {
                assert(entry@[p] == if p < i0 { e0[p] } else { e0[p + 1] });
            }
        }
    }
    let ghost e1 = entry@;
    let b = Path::new(source, nexthop, attrs, timestamp);
    let idx = if disable {
        0
    } else {
        best_position(entry, &b)
    };
    if idx == 0 {
        head_changed = true;
    }
    entry.insert(idx, b);
    proof {
        assert forall|p: int, q: int| #![trigger entry@[p], entry@[q]]
            0 <= p < q < entry@.len() implies entry@[p].source.address
            != entry@[q].source.address by {
            assert(entry@ == e1.insert(idx as int, b));
        }
        assert forall|p: int| 0 <= p < entry@.len() implies (#[trigger] entry@[p]).attrs.wf() by {
            assert(entry@ == e1.insert(idx as int, b));
        }
        if added {
            assert(is_insert_pos(e0, b, disable, idx as int));
            lemma_ins_pos_unique(e0, b, disable, idx as int);
            assert(entry@ == e0.insert(idx as int, b));
        } else {
            assert(is_first_source(e0, source.address, i0));
            lemma_first_source_unique(e0, source.address, i0);
            assert(e1 == e0.remove(i0));
            assert(is_insert_pos(e0.remove(i0), b, disable, idx as int));
            lemma_ins_pos_unique(e0.remove(i0), b, disable, idx as int);
            assert(entry@ == e0.remove(i0).insert(idx as int, b));
        }
        if !disable && sorted_by_pref(e0) {
            assert(sorted_by_pref(e1)) by {
                if !added {
                    assert forall|p: int, q: int|
                        #![trigger e1[p], e1[q]]
                        0 <= p < q < e1.len() implies !beats(e1[q], e1[p]) by {
                        assert(e1[p] == if p < i0 {
                            e0[p]
                        } else {
                            e0[p + 1]
                        });
                        assert(e1[q] == if q < i0 {
                            e0[q]
                        } else {
                            e0[q + 1]
                        });
                    }
                }
            }
            assert(is_insert_pos(e1, b, disable, idx as int));
            assert forall|p: int, q: int|
                #![trigger entry@[p], entry@[q]]
                0 <= p < q < entry@.len() implies !beats(entry@[q], entry@[p]) by {
                let f = entry@;
                assert(f == e1.insert(idx as int, b));
                assert(f[p] == if p < idx as int {
                    e1[p]
                } else if p == idx as int {
                    b
                } else {
                    e1[p - 1]
                });
                assert(f[q] == if q < idx as int {
                    e1[q]
                } else if q == idx as int {
                    b
                } else {
                    e1[q - 1]
                });
                if q == idx as int {
                    assert(!beats(b, e1[p]));
                } else if p == idx as int && q > idx as int {
                    // an entry after the insertion point cannot beat the
                    // new path: it does not beat the first beaten entry
                    if beats(e1[q - 1], b) {
                        assert((idx as int) < e1.len());
                        assert(beats(b, e1[idx as int]));
                        lemma_beats_trans(e1[q - 1], b, e1[idx as int]);
                        if (idx as int) < q - 1 {
                            assert(!beats(e1[q - 1], e1[idx as int]));
                        }
                        assert(false);
                    }
                }
            }
        }
    }
    (head_changed, added)
}

/// The table after the call agrees with the table before it everywhere but
/// at `(family, net)`, whose destination holds `new_e`; a missing family or
/// destination is appended in place.
pub open spec fn update_entry_frame(
    t0: Table,
    family: Family,
    net: Nlri,
    t1: Table,
    new_e: Seq<Path>,
) -> bool {
    &&& t1.local_source == t0.local_source
    &&& t1.disable_best_path_selection == t0.disable_best_path_selection
    &&& t1.active_peers@ == t0.active_peers@
    &&& if t0.has_fam(family) {
        let fi = t0.fam_idx(family);
        let d0 = t0.master@[fi].dests@;
        &&& t1.master@.len() == t0.master@.len()
        &&& forall|k: int|
            0 <= k < t0.master@.len() && k != fi ==> t1.master@[k] == #[trigger] t0.master@[k]
        &&& t1.master@[fi].family == family
        &&& if has_dst(d0, net) {
            let di = dst_idx(d0, net);
            let d1 = t1.master@[fi].dests@;
            &&& d1.len() == d0.len()
            &&& forall|k: int| 0 <= k < d0.len() && k != di ==> d1[k] == #[trigger] d0[k]
            &&& d1[di].net == net
            &&& d1[di].entry@ == new_e
        } else {
            let d1 = t1.master@[fi].dests@;
            &&& d1.len() == d0.len() + 1
            &&& forall|k: int| 0 <= k < d0.len() ==> d1[k] == #[trigger] d0[k]
            &&& d1[d0.len() as int].net == net
            &&& d1[d0.len() as int].entry@ == new_e
        }
    } else {
        &&& t1.master@.len() == t0.master@.len() + 1
        &&& forall|k: int| 0 <= k < t0.master@.len() ==> t1.master@[k] == #[trigger] t0.master@[k]
        &&& t1.master@[t0.master@.len() as int].family == family
        &&& t1.master@[t0.master@.len() as int].dests@.len() == 1
        &&& t1.master@[t0.master@.len() as int].dests@[0].net == net
        &&& t1.master@[t0.master@.len() as int].dests@[0].entry@ == new_e
    }
}

/// What `Table::insert` does: the path list at `(family, net)` becomes
/// `entry_after_insert`, everything else stays; a `NewBest` carrying the
/// new head is returned exactly when the insertion lands at position 0
/// and selection is enabled; the second component reports a path from a
/// new source.
pub open spec fn insert_post(
    t0: Table,
    family: Family,
    net: Nlri,
    source: Source,
    nexthop: IpAddress,
    attrs: PathAttr,
    timestamp: u64,
    t1: Table,
    r: (Option<TableUpdate>, bool),
) -> bool {
    let disable = t0.disable_best_path_selection;
    let e0 = if table_has_dest(t0, family, net) {
        table_entry(t0, family, net)
    } else {
        Seq::<Path>::empty()
    };
    &&& table_has_dest(t1, family, net)
    &&& update_entry_frame(t0, family, net, t1, table_entry(t1, family, net))
    &&& table_entry(t1, family, net) == entry_after_insert(e0, source, nexthop, attrs, timestamp, disable)
    &&& r.1 == !has_source(e0, source.address)
    &&& if !disable && spec_head_changed(e0, source, nexthop, attrs, timestamp, disable) {
        match r.0 {
            Some(TableUpdate::NewBest(n2, nh2, a2, s2)) => {
                &&& n2 == net
                &&& nh2 == nexthop
                &&& pattr_eq(table_entry(t1, family, net)[0].attrs, a2)
                &&& s2 == table_entry(t1, family, net)[0].source
            }
            _ => false,
        }
    } else {
        r.0 is None
    }
}

/// What `Table::remove` does: with no path from `source` at `(family, net)`
/// the table is untouched and `(None, false)` comes back; otherwise the
/// path leaves, a `Withdrawn` is returned when the destination empties, a
/// `NewBest` carrying the new head when the head was removed, and `None`
/// otherwise.
pub open spec fn remove_post(
    t0: Table,
    family: Family,
    net: Nlri,
    source: Source,
    t1: Table,
    r: (Option<TableUpdate>, bool),
) -> bool {
    if !table_has_dest(t0, family, net) || !has_source(
        table_entry(t0, family, net),
        source.address,
    ) {
        &&& t1 == t0
        &&& r.0 is None
        &&& r.1 == false
    } else {
        let e = table_entry(t0, family, net);
        let i0 = first_source_idx(e, source.address);
        &&& r.1 == true
        &&& if e.len() == 1 {
            let fi = t0.fam_idx(family);
            let d0 = t0.master@[fi].dests@;
            let di = dst_idx(d0, net);
            &&& t1.local_source == t0.local_source
            &&& t1.disable_best_path_selection == t0.disable_best_path_selection
            &&& t1.active_peers@ == t0.active_peers@
            &&& t1.master@.len() == t0.master@.len()
            &&& forall|k: int|
                0 <= k < t0.master@.len() && k != fi ==> t1.master@[k] == #[trigger] t0.master@[k]
            &&& t1.master@[fi].family == family
            &&& t1.master@[fi].dests@ == d0.remove(di)
            &&& match r.0 {
                Some(TableUpdate::Withdrawn(n2, s2)) => n2 == net && s2 == source,
                _ => false,
            }
        } else {
            &&& update_entry_frame(t0, family, net, t1, e.remove(i0))
            &&& if i0 == 0 {
                match r.0 {
                    Some(TableUpdate::NewBest(n2, nh2, a2, s2)) => {
                        &&& n2 == net
                        &&& nh2 == e.remove(i0)[0].nexthop
                        &&& pattr_eq(e.remove(i0)[0].attrs, a2)
                        &&& s2 == e.remove(i0)[0].source
                    }
                    _ => false,
                }
            } else {
                r.0 is None
            }
        }
    }
}

/// How `clear` changes the destination for one prefix: the path from
/// `addr` leaves; a destination it was alone in disappears; one it was
/// absent from stays as it was.
pub open spec fn clear_net_rel(t0: Table, f: Family, n: Nlri, addr: IpAddress, t1: Table) -> bool {
    let e = table_entry(t0, f, n);
    if has_source(e, addr) {
        if e.len() == 1 {
            !table_has_dest(t1, f, n)
        } else {
            table_has_dest(t1, f, n) && table_entry(t1, f, n) == e.remove(
                first_source_idx(e, addr),
            )
        }
    } else {
        table_has_dest(t1, f, n) && table_entry(t1, f, n) == e
    }
}

/// Whether the list holds a `Withdrawn` for `n`.
pub open spec fn has_withdrawn_for(us: Seq<TableUpdate>, n: Nlri) -> bool {
    exists|k: int|
        0 <= k < us.len() && match #[trigger] us[k] {
            TableUpdate::Withdrawn(n2, _) => n2 == n,
            _ => false,
        }
}

/// What one update of `clear` may say, judged against the table before
/// the call: a `Withdrawn` reports a destination the source was alone in;
/// a `NewBest` reports a destination whose head was the source's path,
/// and carries the path that follows it.
pub open spec fn clear_update_ok(t0: Table, source: Source, u: TableUpdate) -> bool {
    match u {
        TableUpdate::Withdrawn(n, s) => {
            &&& s == source
            &&& exists|f: Family|
                {
                    &&& #[trigger] table_has_dest(t0, f, n)
                    &&& has_source(table_entry(t0, f, n), source.address)
                    &&& table_entry(t0, f, n).len() == 1
                }
        }
        TableUpdate::NewBest(n, nh, a, s2) => {
            exists|f: Family|
                {
                    &&& #[trigger] table_has_dest(t0, f, n)
                    &&& has_source(table_entry(t0, f, n), source.address)
                    &&& table_entry(t0, f, n).len() > 1
                    &&& first_source_idx(table_entry(t0, f, n), source.address) == 0
                    &&& nh == table_entry(t0, f, n).remove(0)[0].nexthop
                    &&& pattr_eq(table_entry(t0, f, n).remove(0)[0].attrs, a)
                    &&& s2 == table_entry(t0, f, n).remove(0)[0].source
                }
        }
    }
}

/// The families of the table, in order, are unchanged.
pub open spec fn same_families(t0: Table, t1: Table) -> bool {
    &&& t1.master@.len() == t0.master@.len()
    &&& forall|k: int|
        0 <= k < t0.master@.len() ==> (#[trigger] t1.master@[k]).family == (
        #[trigger] t0.master@[k]).family
}

/// The chosen family index is the one index holding `f`.
pub proof fn lemma_fam_idx(t: Table, f: Family)
    requires
        t.wf(),
        t.has_fam(f),
    ensures
        0 <= t.fam_idx(f) < t.master@.len(),
        t.master@[t.fam_idx(f)].family == f,
        forall|i: int|
            0 <= i < t.master@.len() && (#[trigger] t.master@[i]).family == f ==> i == t.fam_idx(
                f,
            ),
{
    let ci = t.fam_idx(f);
    assert(0 <= ci < t.master@.len() && t.master@[ci].family == f);
    assert forall|i: int|
        0 <= i < t.master@.len() && (#[trigger] t.master@[i]).family == f implies i == ci by {
        if i < ci {
            assert(t.master@[i].family != t.master@[ci].family);
        } else if i > ci {
            assert(t.master@[ci].family != t.master@[i].family);
        }
    }
}

/// The chosen destination index is the one index holding `net`, given
/// distinct prefixes.
pub proof fn lemma_dst_idx(dests: Seq<Destination>, net: Nlri)
    requires
        forall|i: int, j: int| #![trigger dests[i], dests[j]]
            0 <= i < j < dests.len() ==> dests[i].net != dests[j].net,
        has_dst(dests, net),
    ensures
        0 <= dst_idx(dests, net) < dests.len(),
        dests[dst_idx(dests, net)].net == net,
        forall|i: int|
            0 <= i < dests.len() && (#[trigger] dests[i]).net == net ==> i == dst_idx(dests, net),
{
    let ci = dst_idx(dests, net);
    assert(0 <= ci < dests.len() && dests[ci].net == net);
    assert forall|i: int|
        0 <= i < dests.len() && (#[trigger] dests[i]).net == net implies i == ci by {
        if i < ci {
            assert(dests[i].net != dests[ci].net);
        } else if i > ci {
            assert(dests[ci].net != dests[i].net);
        }
    }
}

/// Whether `f` occurs in a family list.
pub open spec fn family_in(fs: Seq<Family>, f: Family) -> bool {
    exists|i: int| 0 <= i < fs.len() && #[trigger] fs[i] == f
}

/// Whether `n` occurs in a prefix list.
pub open spec fn nlri_in(ns: Seq<Nlri>, n: Nlri) -> bool {
    exists|k: int| 0 <= k < ns.len() && #[trigger] ns[k] == n
}

/// Whether the update is a `NewBest` for `n`.
pub open spec fn is_newbest_for(u: TableUpdate, n: Nlri) -> bool {
    match u {
        TableUpdate::NewBest(n2, _, _, _) => n2 == n,
        _ => false,
    }
}

/// Whether the list holds a `NewBest` for `n`.
pub open spec fn has_dump_for(us: Seq<TableUpdate>, n: Nlri) -> bool {
    exists|k: int| 0 <= k < us.len() && is_newbest_for(#[trigger] us[k], n)
}

/// The prefix a table update is about.
pub open spec fn spec_update_net(u: TableUpdate) -> Nlri {
    match u {
        TableUpdate::NewBest(n, _, _, _) => n,
        TableUpdate::Withdrawn(n, _) => n,
    }
}

/// The prefixes of a list of updates, in order.
pub open spec fn update_nets(us: Seq<TableUpdate>) -> Seq<Nlri> {
    us.map_values(|u: TableUpdate| spec_update_net(u))
}

/// The prefixes of a list of destinations, in stored order.
pub open spec fn dest_net_seq(d: Seq<Destination>) -> Seq<Nlri> {
    d.map_values(|x: Destination| x.net)
}

/// The prefixes an initial dump walks: for each family of the list in
/// turn, the family's destinations in stored order.
pub open spec fn dump_nets(t: Table, fams: Seq<Family>) -> Seq<Nlri>
    decreases fams.len(),
{
    if fams.len() == 0 {
        Seq::empty()
    } else {
        (if t.has_fam(fams[0]) {
            dest_net_seq(t.master@[t.fam_idx(fams[0])].dests@)
        } else {
            Seq::<Nlri>::empty()
        }) + dump_nets(t, fams.drop_first())
    }
}

pub proof fn lemma_dump_nets_snoc(t: Table, fams: Seq<Family>, f: Family)
    ensures
        dump_nets(t, fams.push(f)) == dump_nets(t, fams) + (if t.has_fam(f) {
            dest_net_seq(t.master@[t.fam_idx(f)].dests@)
        } else {
            Seq::<Nlri>::empty()
        }),
    decreases fams.len(),
{
    let q = fams.push(f);
    assert(dump_nets(t, q) == (if t.has_fam(q[0]) {
        dest_net_seq(t.master@[t.fam_idx(q[0])].dests@)
    } else {
        Seq::<Nlri>::empty()
    }) + dump_nets(t, q.drop_first()));
    if fams.len() == 0 {
        assert(q[0] == f);
        assert(q.drop_first() =~= Seq::<Family>::empty());
        assert(dump_nets(t, q.drop_first()) == Seq::<Nlri>::empty());
        assert(dump_nets(t, q) =~= dump_nets(t, fams) + (if t.has_fam(f) {
            dest_net_seq(t.master@[t.fam_idx(f)].dests@)
        } else {
            Seq::<Nlri>::empty()
        }));
    } else {
        assert(q[0] == fams[0]);
        assert(q.drop_first() =~= fams.drop_first().push(f));
        lemma_dump_nets_snoc(t, fams.drop_first(), f);
        assert(dump_nets(t, fams) == (if t.has_fam(fams[0]) {
            dest_net_seq(t.master@[t.fam_idx(fams[0])].dests@)
        } else {
            Seq::<Nlri>::empty()
        }) + dump_nets(t, fams.drop_first()));
        assert(dump_nets(t, q) =~= dump_nets(t, fams) + (if t.has_fam(f) {
            dest_net_seq(t.master@[t.fam_idx(f)].dests@)
        } else {
            Seq::<Nlri>::empty()
        }));
    }
}

/// One item of an initial dump: a `NewBest` under `source` carrying the
/// head of a destination of one of the given families.
pub open spec fn dump_item_ok(t: Table, fams: Seq<Family>, source: Source, u: TableUpdate) -> bool {
    match u {
        TableUpdate::NewBest(n, nh, a, s) => {
            &&& s == source
            &&& exists|f: Family|
                {
                    &&& #[trigger] table_has_dest(t, f, n)
                    &&& family_in(fams, f)
                    &&& table_entry(t, f, n).len() > 0
                    &&& nh == table_entry(t, f, n)[0].nexthop
                    &&& pattr_eq(table_entry(t, f, n)[0].attrs, a)
                }
        }
        _ => false,
    }
}

/// The affected pairs of one family's destinations, in stored order:
/// those holding a path from `addr`.
pub open spec fn dests_affected(f: Family, d: Seq<Destination>, addr: IpAddress) -> Seq<
    (Family, Nlri),
>
    decreases d.len(),
{
    if d.len() == 0 {
        Seq::empty()
    } else {
        (if has_source(d[0].entry@, addr) {
            seq![(f, d[0].net)]
        } else {
            Seq::<(Family, Nlri)>::empty()
        }) + dests_affected(f, d.drop_first(), addr)
    }
}

pub proof fn lemma_dests_affected_snoc(f: Family, d: Seq<Destination>, x: Destination, addr: IpAddress)
    ensures
        dests_affected(f, d.push(x), addr) == dests_affected(f, d, addr) + (if has_source(
            x.entry@,
            addr,
        ) {
            seq![(f, x.net)]
        } else {
            Seq::<(Family, Nlri)>::empty()
        }),
    decreases d.len(),
{
    let q = d.push(x);
    if d.len() == 0 {
        assert(q[0] == x);
        assert(q.drop_first() =~= Seq::<Destination>::empty());
        assert(dests_affected(f, q, addr) == (if has_source(x.entry@, addr) {
            seq![(f, x.net)]
        } else {
            Seq::<(Family, Nlri)>::empty()
        }) + dests_affected(f, q.drop_first(), addr));
        assert(dests_affected(f, q.drop_first(), addr) == Seq::<(Family, Nlri)>::empty());
        assert(dests_affected(f, d, addr) == Seq::<(Family, Nlri)>::empty());
        assert(dests_affected(f, q, addr) =~= dests_affected(f, d, addr) + (if has_source(
            x.entry@,
            addr,
        ) {
            seq![(f, x.net)]
        } else {
            Seq::<(Family, Nlri)>::empty()
        }));
    } else {
        assert(q[0] == d[0]);
        assert(q.drop_first() =~= d.drop_first().push(x));
        lemma_dests_affected_snoc(f, d.drop_first(), x, addr);
        assert(dests_affected(f, q, addr) == (if has_source(d[0].entry@, addr) {
            seq![(f, d[0].net)]
        } else {
            Seq::<(Family, Nlri)>::empty()
        }) + dests_affected(f, q.drop_first(), addr));
        assert(dests_affected(f, d, addr) == (if has_source(d[0].entry@, addr) {
            seq![(f, d[0].net)]
        } else {
            Seq::<(Family, Nlri)>::empty()
        }) + dests_affected(f, d.drop_first(), addr));
        assert(dests_affected(f, q, addr) =~= dests_affected(f, d, addr) + (if has_source(
            x.entry@,
            addr,
        ) {
            seq![(f, x.net)]
        } else {
            Seq::<(Family, Nlri)>::empty()
        }));
    }
}

/// The pairs `clear` walks: for each family in stored order, its affected
/// destinations in stored order.
pub open spec fn affected_pairs(m: Seq<FamilyTable>, addr: IpAddress) -> Seq<(Family, Nlri)>
    decreases m.len(),
{
    if m.len() == 0 {
        Seq::empty()
    } else {
        dests_affected(m[0].family, m[0].dests@, addr) + affected_pairs(m.drop_first(), addr)
    }
}

pub proof fn lemma_affected_pairs_snoc(m: Seq<FamilyTable>, x: FamilyTable, addr: IpAddress)
    ensures
        affected_pairs(m.push(x), addr) == affected_pairs(m, addr) + dests_affected(
            x.family,
            x.dests@,
            addr,
        ),
    decreases m.len(),
{
    let q = m.push(x);
    if m.len() == 0 {
        assert(q[0] == x);
        assert(q.drop_first() =~= Seq::<FamilyTable>::empty());
        assert(affected_pairs(q, addr) == dests_affected(x.family, x.dests@, addr)
            + affected_pairs(q.drop_first(), addr));
        assert(affected_pairs(q.drop_first(), addr) == Seq::<(Family, Nlri)>::empty());
        assert(affected_pairs(m, addr) == Seq::<(Family, Nlri)>::empty());
        assert(affected_pairs(q, addr) =~= affected_pairs(m, addr) + dests_affected(
            x.family,
            x.dests@,
            addr,
        ));
    } else {
        assert(q[0] == m[0]);
        assert(q.drop_first() =~= m.drop_first().push(x));
        lemma_affected_pairs_snoc(m.drop_first(), x, addr);
        assert(affected_pairs(q, addr) == dests_affected(m[0].family, m[0].dests@, addr)
            + affected_pairs(q.drop_first(), addr));
        assert(affected_pairs(m, addr) == dests_affected(m[0].family, m[0].dests@, addr)
            + affected_pairs(m.drop_first(), addr));
        assert(affected_pairs(q, addr) =~= affected_pairs(m, addr) + dests_affected(
            x.family,
            x.dests@,
            addr,
        ));
    }
}

/// What one walked pair contributes to `clear`'s update list: its prefix
/// when the removal empties the destination or takes its head, nothing
/// otherwise.
pub open spec fn emitted_net(t0: Table, p: (Family, Nlri), addr: IpAddress) -> Seq<Nlri> {
    if table_has_dest(t0, p.0, p.1) && has_source(table_entry(t0, p.0, p.1), addr) && (
    table_entry(t0, p.0, p.1).len() == 1 || first_source_idx(table_entry(t0, p.0, p.1), addr)
        == 0) {
        seq![p.1]
    } else {
        Seq::<Nlri>::empty()
    }
}

/// The prefixes `clear` returns, walking the pairs in order.
pub open spec fn emitted_nets(t0: Table, ps: Seq<(Family, Nlri)>, addr: IpAddress) -> Seq<Nlri>
    decreases ps.len(),
{
    if ps.len() == 0 {
        Seq::empty()
    } else {
        emitted_net(t0, ps[0], addr) + emitted_nets(t0, ps.drop_first(), addr)
    }
}

pub proof fn lemma_emitted_nets_take_snoc(t0: Table, ps: Seq<(Family, Nlri)>, addr: IpAddress, i: int)
    requires
        0 <= i < ps.len(),
    ensures
        emitted_nets(t0, ps.take(i + 1), addr) == emitted_nets(t0, ps.take(i), addr)
            + emitted_net(t0, ps[i], addr),
    decreases i,
{
    if i == 0 {
        assert(ps.take(1) =~= seq![ps[0]]);
        assert(ps.take(0) =~= Seq::<(Family, Nlri)>::empty());
        assert(ps.take(1).drop_first() =~= Seq::<(Family, Nlri)>::empty());
        assert(emitted_nets(t0, ps.take(1), addr) =~= emitted_nets(t0, ps.take(0), addr)
            + emitted_net(t0, ps[0], addr));
    } else {
        assert(ps.take(i + 1)[0] == ps[0]);
        assert(ps.take(i)[0] == ps[0]);
        assert(ps.take(i + 1).drop_first() =~= ps.drop_first().take(i));
        assert(ps.take(i).drop_first() =~= ps.drop_first().take(i - 1));
        assert(ps.drop_first()[i - 1] == ps[i]);
        lemma_emitted_nets_take_snoc(t0, ps.drop_first(), addr, i - 1);
        assert(emitted_nets(t0, ps.take(i + 1), addr) =~= emitted_nets(t0, ps.take(i), addr)
            + emitted_net(t0, ps[i], addr));
    }
}

/// Whether `(f, n)` occurs in a list of family/prefix pairs.
pub open spec fn pair_in(pairs: Seq<(Family, Nlri)>, f: Family, n: Nlri) -> bool {
    exists|k: int| 0 <= k < pairs.len() && #[trigger] pairs[k] == (f, n)
}

/// After an insertion the source's path is present in the list.
pub proof fn lemma_insert_keeps_source(
    e: Seq<Path>,
    source: Source,
    nexthop: IpAddress,
    attrs: PathAttr,
    timestamp: u64,
    disable: bool,
)
    ensures
        has_source(
            entry_after_insert(e, source, nexthop, attrs, timestamp, disable),
            source.address,
        ),
{
    let b = Path { source, nexthop, attrs, timestamp };
    if has_source(e, source.address) {
        lemma_first_source(e, source.address);
        let e1 = e.remove(first_source_idx(e, source.address));
        let ip = sel_pos(e1, b, disable);
        lemma_ins_pos_bounds(e1, b);
        assert(e1.insert(ip, b)[ip] == b);
        assert(has_source(e1.insert(ip, b), source.address)) by {
            assert(e1.insert(ip, b)[ip].source.address == source.address);
        }
    } else {
        let ip = sel_pos(e, b, disable);
        lemma_ins_pos_bounds(e, b);
        assert(e.insert(ip, b)[ip] == b);
        assert(has_source(e.insert(ip, b), source.address)) by {
            assert(e.insert(ip, b)[ip].source.address == source.address);
        }
    }
}

/// After a removal the source has no path left for the prefix.
pub proof fn lemma_remove_clears_source(
    t0: Table,
    family: Family,
    net: Nlri,
    source: Source,
    t1: Table,
    r: (Option<TableUpdate>, bool),
)
    requires
        t0.wf(),
        t1.wf(),
        remove_post(t0, family, net, source, t1, r),
        table_has_dest(t0, family, net),
    ensures
        table_has_dest(t1, family, net) ==> !has_source(
            table_entry(t1, family, net),
            source.address,
        ),
{
    let e = table_entry(t0, family, net);
    if !has_source(e, source.address) {
        assert(t1 == t0);
    } else {
        lemma_remove_own(t0, family, net, source, t1, r);
        if e.len() == 1 {
            assert(!table_has_dest(t1, family, net));
        } else {
            lemma_first_source(e, source.address);
            let i0 = first_source_idx(e, source.address);
            assert(table_entry(t1, family, net) == e.remove(i0));
            // the source's path was the only one, by the distinctness of
            // sources within a destination
            lemma_fam_idx(t0, family);
            assert(t0.master@[t0.fam_idx(family)].wf());
            lemma_dst_idx(t0.master@[t0.fam_idx(family)].dests@, net);
            assert(t0.master@[t0.fam_idx(family)].dests@[dst_idx(
                t0.master@[t0.fam_idx(family)].dests@,
                net,
            )].wf());
            assert(distinct_sources(e));
            let e1 = e.remove(i0);
            assert forall|p: int| 0 <= p < e1.len() implies (
            #[trigger] e1[p]).source.address != source.address by {
                assert(e1[p] == if p < i0 {
                    e[p]
                } else {
                    e[p + 1]
                });
            }
        }
    }
}

/// Tables with the same stored families hold the same destinations.
pub proof fn lemma_same_master(a: Table, b: Table, f: Family, n: Nlri)
    requires
        a.wf(),
        b.wf(),
        a.master@ == b.master@,
    ensures
        table_has_dest(a, f, n) == table_has_dest(b, f, n),
        table_has_dest(a, f, n) ==> table_entry(a, f, n) == table_entry(b, f, n),
{
    if a.has_fam(f) {
        assert(b.has_fam(f)) by {
            let i = choose|i: int|
                0 <= i < a.master@.len() && (#[trigger] a.master@[i]).family == f;
            assert(b.master@[i].family == f);
        }
        lemma_fam_idx(a, f);
        lemma_fam_idx(b, f);
        assert(a.master@[b.fam_idx(f)].family == f);
        assert(a.fam_idx(f) == b.fam_idx(f));
    } else {
        if b.has_fam(f) {
            let i = choose|i: int|
                0 <= i < b.master@.len() && (#[trigger] b.master@[i]).family == f;
            assert(a.master@[i].family == f);
        }
    }
}

/// A removal keeps the family layout, the peers and the modes.
pub proof fn lemma_remove_same(
    t0: Table,
    family: Family,
    net: Nlri,
    source: Source,
    t1: Table,
    r: (Option<TableUpdate>, bool),
)
    requires
        t0.wf(),
        remove_post(t0, family, net, source, t1, r),
    ensures
        same_families(t0, t1),
        t1.local_source == t0.local_source,
        t1.disable_best_path_selection == t0.disable_best_path_selection,
        t1.active_peers@ == t0.active_peers@,
{
    if table_has_dest(t0, family, net) && has_source(
        table_entry(t0, family, net),
        source.address,
    ) {
        lemma_fam_idx(t0, family);
        let fi = t0.fam_idx(family);
        assert forall|k: int|
            0 <= k < t0.master@.len() implies (#[trigger] t1.master@[k]).family == (
        #[trigger] t0.master@[k]).family by {
            if k != fi {
                assert(t1.master@[k] == t0.master@[k]);
            } else {
                assert(t1.master@[fi].family == family);
                assert(t0.master@[fi].family == family);
            }
        }
    }
}

/// A removal transforms its own destination as `clear_net_rel` says.
pub proof fn lemma_remove_own(
    t0: Table,
    family: Family,
    net: Nlri,
    source: Source,
    t1: Table,
    r: (Option<TableUpdate>, bool),
)
    requires
        t0.wf(),
        t1.wf(),
        remove_post(t0, family, net, source, t1, r),
        table_has_dest(t0, family, net),
    ensures
        clear_net_rel(t0, family, net, source.address, t1),
{
    let e = table_entry(t0, family, net);
    if has_source(e, source.address) {
        lemma_fam_idx(t0, family);
        let fi = t0.fam_idx(family);
        assert(t0.master@[fi].wf());
        let d0 = t0.master@[fi].dests@;
        lemma_dst_idx(d0, net);
        let di = dst_idx(d0, net);
        assert(t1.master@[fi].family == family);
        assert(t1.has_fam(family));
        lemma_fam_idx(t1, family);
        assert(t1.fam_idx(family) == fi);
        let d1 = t1.master@[fi].dests@;
        if e.len() == 1 {
            assert(d1 == d0.remove(di));
            assert forall|k: int| 0 <= k < d1.len() implies (#[trigger] d1[k]).net != net by {
                assert(d1[k] == if k < di {
                    d0[k]
                } else {
                    d0[k + 1]
                });
                if k < di {
                    assert(d0[k].net != d0[di].net);
                } else {
                    assert(d0[di].net != d0[k + 1].net);
                }
            }
            assert(!has_dst(d1, net));
        } else {
            let i0 = first_source_idx(e, source.address);
            assert(d1[di].net == net);
            assert(has_dst(d1, net));
            assert(t1.master@[fi].wf());
            lemma_dst_idx(d1, net);
            assert(dst_idx(d1, net) == di);
            assert(table_entry(t1, family, net) == d1[di].entry@);
            assert(d1[di].entry@ == e.remove(i0));
        }
    }
}

/// A removal at `(family, net)` leaves every other prefix's destination
/// exactly as it was.
pub proof fn lemma_remove_frame(
    t0: Table,
    family: Family,
    net: Nlri,
    source: Source,
    t1: Table,
    r: (Option<TableUpdate>, bool),
    f2: Family,
    n2: Nlri,
)
    requires
        t0.wf(),
        t1.wf(),
        remove_post(t0, family, net, source, t1, r),
        !(f2 == family && n2 == net),
    ensures
        table_has_dest(t1, f2, n2) == table_has_dest(t0, f2, n2),
        table_has_dest(t0, f2, n2) ==> table_entry(t1, f2, n2) == table_entry(t0, f2, n2),
{
    if !table_has_dest(t0, family, net) || !has_source(
        table_entry(t0, family, net),
        source.address,
    ) {
        return ;
    }
    let e = table_entry(t0, family, net);
    lemma_fam_idx(t0, family);
    let fi = t0.fam_idx(family);
    assert(t0.master@[fi].wf());
    let d0 = t0.master@[fi].dests@;
    lemma_dst_idx(d0, net);
    let di = dst_idx(d0, net);
    if f2 != family {
        if t0.has_fam(f2) {
            lemma_fam_idx(t0, f2);
            let fj = t0.fam_idx(f2);
            assert(fj != fi) by {
                if fj == fi {
                    assert(t0.master@[fi].family == family);
                }
            }
            assert(t1.master@[fj] == t0.master@[fj]);
            assert(t1.has_fam(f2));
            lemma_fam_idx(t1, f2);
            assert(t1.fam_idx(f2) == fj);
            assert(t1.master@[fj].dests@ == t0.master@[fj].dests@);
        } else {
            if t1.has_fam(f2) {
                lemma_fam_idx(t1, f2);
                let fj = t1.fam_idx(f2);
                assert(fj != fi) by {
                    if fj == fi {
                        assert(t1.master@[fi].family == family);
                    }
                }
                assert(t1.master@[fj] == t0.master@[fj]);
                assert(t0.has_fam(f2));
            }
        }
    } else {
        assert(t1.master@[fi].family == family);
        assert(t1.has_fam(family));
        lemma_fam_idx(t1, family);
        assert(t1.fam_idx(family) == fi);
        let d1 = t1.master@[fi].dests@;
        assert(t1.master@[fi].wf());
        if e.len() == 1 {
            assert(d1 == d0.remove(di));
            assert forall|k: int| 0 <= k < d1.len() implies #[trigger] d1[k] == (if k < di {
                d0[k]
            } else {
                d0[k + 1]
            }) by {}
            if has_dst(d0, n2) {
                lemma_dst_idx(d0, n2);
                let dj = dst_idx(d0, n2);
                assert(dj != di) by {
                    if dj == di {
                        assert(d0[di].net == net);
                    }
                }
                let dj1: int = if dj < di {
                    dj
                } else {
                    dj - 1
                };
                assert(d1[dj1] == d0[dj]);
                assert(has_dst(d1, n2));
                lemma_dst_idx(d1, n2);
                assert(dst_idx(d1, n2) == dj1);
                assert(table_entry(t1, f2, n2) == table_entry(t0, f2, n2));
            } else {
                if has_dst(d1, n2) {
                    lemma_dst_idx(d1, n2);
                    let dj1 = dst_idx(d1, n2);
                    assert(d1[dj1] == (if dj1 < di {
                        d0[dj1]
                    } else {
                        d0[dj1 + 1]
                    }));
                    assert(has_dst(d0, n2));
                }
            }
        } else {
            if has_dst(d0, n2) {
                lemma_dst_idx(d0, n2);
                let dj = dst_idx(d0, n2);
                assert(dj != di) by {
                    if dj == di {
                        assert(d0[di].net == net);
                    }
                }
                assert(d1[dj] == d0[dj]);
                assert(has_dst(d1, n2));
                lemma_dst_idx(d1, n2);
                assert(dst_idx(d1, n2) == dj);
                assert(table_entry(t1, f2, n2) == table_entry(t0, f2, n2));
            } else {
                if has_dst(d1, n2) {
                    lemma_dst_idx(d1, n2);
                    let dj1 = dst_idx(d1, n2);
                    assert(dj1 != di) by {
                        if dj1 == di {
                            assert(d1[di].net == net);
                        }
                    }
                    assert(d1[dj1] == d0[dj1]);
                    assert(has_dst(d0, n2));
                }
            }
        }
    }
}

impl Table {
    pub fn new() -> (r: Table)
        ensures
            r.local_source == (Source {
                address: IpAddress::V4(0),
                ibgp: false,
                local_as: 0,
                local_addr: IpAddress::V4(0),
            }),
            r.disable_best_path_selection == false,
            r.master@.len() == 0,
            r.active_peers@.len() == 0,
            r.wf(),
    {
        Table {
            local_source: Source {
                address: IpAddress::V4(0),
                ibgp: false,
                local_as: 0,
                local_addr: IpAddress::V4(0),
            },
            disable_best_path_selection: false,
            master: Vec::new(),
            active_peers: Vec::new(),
        }
    }

    /// Inserts a path for `net`, replacing any prior path from the same
    /// source address, at the position best-path selection gives it; a
    /// `NewBest` is returned exactly when the new path becomes the head.
    pub fn insert(
        &mut self,
        family: Family,
        net: Nlri,
        source: Source,
        nexthop: IpAddress,
        attrs: PathAttr,
        timestamp: u64,
    ) -> (r: (Option<TableUpdate>, bool))
        requires
            old(self).wf(),
            attrs.wf(),
        ensures
            final(self).wf(),
            insert_post(
                *old(self),
                family,
                net,
                source,
                nexthop,
                attrs,
                timestamp,
                *final(self),
                r,
            ),
    {
        let ghost t0 = *old(self);
        let disable = self.disable_best_path_selection;
        let found_fam = find_family_index(&self.master, family);
        let fi = match found_fam {
            Some(fi) => fi,
            None => {
                self.master.push(FamilyTable { family, dests: Vec::new() });
                self.master.len() - 1
            }
        };
        proof {
            if found_fam is Some {
                assert(t0.has_fam(family));
                let ci = t0.fam_idx(family);
                if ci != fi as int {
                    assert(t0.master@[ci].family == family);
                    assert(t0.master@[fi as int].family == family);
                }
                assert(t0.fam_idx(family) == fi as int);
            } else {
                assert(!t0.has_fam(family));
            }
        }
        let mut ft = FamilyTable { family, dests: Vec::new() };
        self.master.set_and_swap(fi, &mut ft);
        let ghost d0 = ft.dests@;
        let found_dst = find_dest_index(&ft.dests, net);
        let di = match found_dst {
            Some(di) => di,
            None => {
                ft.dests.push(Destination::new(net));
                ft.dests.len() - 1
            }
        };
        proof {
            if found_dst is Some {
                assert(has_dst(d0, net));
                let ci = dst_idx(d0, net);
                if ci != di as int {
                    if found_fam is Some {
                        assert(t0.master@[fi as int].wf());
                    }
                    assert(d0[ci].net == net);
                    assert(d0[di as int].net == net);
                }
                assert(dst_idx(d0, net) == di as int);
            } else {
                assert(!has_dst(d0, net));
            }
        }
        let mut d = Destination { net, entry: Vec::new() };
        ft.dests.set_and_swap(di, &mut d);
        proof {
            if found_fam is Some && found_dst is Some {
                assert(t0.master@[fi as int].wf());
                assert(d0[di as int].wf());
            }
        }
        let ghost ecall = d.entry@;
        let (nb, added) = insert_entry(
            &mut d.entry,
            source,
            nexthop,
            attrs,
            timestamp,
            disable,
        );
        let update: Option<TableUpdate> = if !disable && nb {
            let head = &d.entry[0];
            let a2 = head.attrs.duplicate();
            Some(TableUpdate::NewBest(net, nexthop, a2, head.source))
        } else {
            None
        };
        let ghost dkept = d;
        ft.dests.set_and_swap(di, &mut d);
        self.master.set_and_swap(fi, &mut ft);
        proof {
            let t1 = *self;
            // the family sits at the same index afterwards
            assert(t1.master@[fi as int].family == family);
            assert(t1.has_fam(family));
            let ci = t1.fam_idx(family);
            if ci != fi as int {
                assert(t1.master@[ci].family == family);
                if ci < t0.master@.len() && found_fam is Some {
                    assert(t0.master@[ci].family == family);
                }
            }
            assert(t1.fam_idx(family) == fi as int);
            let d1 = t1.master@[fi as int].dests@;
            assert(d1[di as int].net == net);
            assert(has_dst(d1, net));
            let cdi = dst_idx(d1, net);
            if cdi != di as int {
                assert(d1[cdi].net == net);
                if found_dst is Some {
                    assert(d1[cdi] == d0[cdi]);
                } else {
                    if cdi < d0.len() {
                        assert(d1[cdi] == d0[cdi]);
                        assert(!has_dst(d0, net));
                        assert(d0[cdi].net != net);
                    }
                }
            }
            assert(dst_idx(d1, net) == di as int);
            assert(table_entry(t1, family, net) == dkept.entry@) by {
                assert(d1[di as int].entry@ == dkept.entry@);
            }
            assert(update_entry_frame(t0, family, net, t1, table_entry(t1, family, net)));
            let e0 = if table_has_dest(t0, family, net) {
                table_entry(t0, family, net)
            } else {
                Seq::<Path>::empty()
            };
            if found_fam is Some && found_dst is Some {
                assert(table_has_dest(t0, family, net));
                assert(e0 == d0[di as int].entry@);
                assert(ecall == e0);
            } else {
                assert(!table_has_dest(t0, family, net));
                assert(e0 =~= Seq::<Path>::empty());
                assert(ecall =~= Seq::<Path>::empty());
                assert(ecall == e0);
            }
            assert(dkept.entry@ == entry_after_insert(
                ecall,
                source,
                nexthop,
                attrs,
                timestamp,
                disable,
            ));
            assert(table_entry(t1, family, net) == entry_after_insert(
                e0,
                source,
                nexthop,
                attrs,
                timestamp,
                disable,
            ));
            assert(nb == spec_head_changed(e0, source, nexthop, attrs, timestamp, disable));
            assert(added == !has_source(e0, source.address));
            // well-formedness carries over
            assert forall|i: int| 0 <= i < t1.master@.len() implies (
            #[trigger] t1.master@[i]).wf() by {
                if i != fi as int {
                    if i < t0.master@.len() {
                        assert(t1.master@[i] == t0.master@[i]);
                    }
                } else {
                    assert forall|p: int, q: int|
                        #![trigger d1[p], d1[q]]
                        0 <= p < q < d1.len() implies d1[p].net != d1[q].net by {
                        if q != di as int && p != di as int {
                            assert(d1[p] == d0[p] && d1[q] == d0[q]);
                            if found_fam is Some {
                                assert(t0.master@[fi as int].wf());
                            }
                        } else {
                            if found_fam is Some {
                                assert(t0.master@[fi as int].wf());
                            }
                            if p != di as int {
                                assert(d1[p] == d0[p]);
                                assert(d1[q].net == net);
                                if found_dst is Some {
                                    assert(d0[p].net != d0[di as int].net);
                                } else {
                                    assert(d0[p].net != net);
                                }
                            } else {
                                assert(d1[q] == d0[q]);
                                assert(d1[p].net == net);
                                if found_dst is Some {
                                    assert(d0[q].net != d0[di as int].net);
                                } else {
                                    assert(d0[q].net != net);
                                }
                            }
                        }
                    }
                    assert forall|p: int| 0 <= p < d1.len() implies (
                    #[trigger] d1[p]).wf() by {
                        if p != di as int {
                            assert(d1[p] == d0[p]);
                            if found_fam is Some {
                                assert(t0.master@[fi as int].wf());
                            }
                        }
                    }
                }
            }
            assert forall|i: int, j: int|
                #![trigger t1.master@[i], t1.master@[j]]
                0 <= i < j < t1.master@.len() implies t1.master@[i].family
                != t1.master@[j].family by {
                if i != fi as int && j != fi as int {
                    assert(t1.master@[i] == t0.master@[i]);
                    assert(t1.master@[j] == t0.master@[j]);
                } else if i == fi as int {
                    assert(t1.master@[j] == t0.master@[j]);
                    if found_fam is None {
                        assert(j < t0.master@.len() || j == fi as int);
                    }
                } else {
                    assert(t1.master@[i] == t0.master@[i]);
                    if found_fam is None {
                        assert(fi as int == t0.master@.len());
                        assert(t0.master@[i].family != family);
                    }
                }
            }
            assert(t1.wf());
        }
        proof {
            let t1 = *self;
            let ghost rr = (update, added);
            let e0 = if table_has_dest(t0, family, net) {
                table_entry(t0, family, net)
            } else {
                Seq::<Path>::empty()
            };
            if !t0.disable_best_path_selection && nb {
                let ghost u = update;
                match u {
                    Some(TableUpdate::NewBest(n2, nh2, a2, s2)) => {
                        assert(n2 == net);
                        assert(nh2 == nexthop);
                        assert(pattr_eq(table_entry(t1, family, net)[0].attrs, a2));
                        assert(s2 == table_entry(t1, family, net)[0].source);
                    }
                    _ => {
                        assert(false);
                    }
                }
            } else {
                assert(rr.0 is None);
            }
        }
        (update, added)
    }

    /// Removes the path from `source` for `net`, if any; drops the
    /// destination when it empties.
    pub fn remove(&mut self, family: Family, net: Nlri, source: Source) -> (r: (
        Option<TableUpdate>,
        bool,
    ))
        requires
            old(self).wf(),
        ensures
            final(self).wf(),
            remove_post(*old(self), family, net, source, *final(self), r),
    {
        let ghost t0 = *old(self);
        let found_fam = find_family_index(&self.master, family);
        let fi = match found_fam {
            Some(fi) => fi,
            None => {
                return (None, false);
            }
        };
        proof {
            assert(t0.has_fam(family));
            lemma_fam_idx(t0, family);
            assert(t0.fam_idx(family) == fi as int);
            assert(t0.master@[fi as int].wf());
        }
        let found_dst = find_dest_index(&self.master[fi].dests, net);
        let di = match found_dst {
            Some(di) => di,
            None => {
                proof {
                    assert(!table_has_dest(t0, family, net));
                }
                return (None, false);
            }
        };
        proof {
            assert(has_dst(t0.master@[fi as int].dests@, net));
            lemma_dst_idx(t0.master@[fi as int].dests@, net);
            assert(dst_idx(t0.master@[fi as int].dests@, net) == di as int);
            assert(t0.master@[fi as int].dests@[di as int].wf());
        }
        let found_src = find_source_index(&self.master[fi].dests[di].entry, source.address);
        let si = match found_src {
            Some(si) => si,
            None => {
                proof {
                    assert(table_entry(t0, family, net) == t0.master@[fi as int].dests@[di as int].entry@);
                }
                return (None, false);
            }
        };
        let ghost e = t0.master@[fi as int].dests@[di as int].entry@;
        proof {
            assert(table_entry(t0, family, net) == e);
            lemma_first_source_unique(e, source.address, si as int);
            assert(first_source_idx(e, source.address) == si as int);
        }
        let ghost d0 = t0.master@[fi as int].dests@;
        let mut ft = FamilyTable { family, dests: Vec::new() };
        self.master.set_and_swap(fi, &mut ft);
        if ft.dests[di].entry.len() == 1 {
            ft.dests.remove(di);
            self.master.set_and_swap(fi, &mut ft);
            proof {
                let t1 = *self;
                assert(t1.master@.len() == t0.master@.len());
                assert forall|k: int|
                    0 <= k < t0.master@.len() && k != fi as int implies t1.master@[k] == #[trigger] t0.master@[k] by {}
                assert(t1.master@[fi as int].dests@ == d0.remove(di as int));
                assert forall|i: int| 0 <= i < t1.master@.len() implies (
                #[trigger] t1.master@[i]).wf() by {
                    if i != fi as int {
                        assert(t1.master@[i] == t0.master@[i]);
                    } else {
                        let d1 = t1.master@[fi as int].dests@;
                        assert forall|p: int, q: int|
                            #![trigger d1[p], d1[q]]
                            0 <= p < q < d1.len() implies d1[p].net != d1[q].net by {
                            assert(d1[p] == if p < di as int {
                                d0[p]
                            } else {
                                d0[p + 1]
                            });
                            assert(d1[q] == if q < di as int {
                                d0[q]
                            } else {
                                d0[q + 1]
                            });
                        }
                        assert forall|p: int| 0 <= p < d1.len() implies (
                        #[trigger] d1[p]).wf() by {
                            assert(d1[p] == if p < di as int {
                                d0[p]
                            } else {
                                d0[p + 1]
                            });
                        }
                    }
                }
                assert forall|i: int, j: int|
                    #![trigger t1.master@[i], t1.master@[j]]
                    0 <= i < j < t1.master@.len() implies t1.master@[i].family
                    != t1.master@[j].family by {
                    if i != fi as int {
                        assert(t1.master@[i] == t0.master@[i]);
                    }
                    if j != fi as int {
                        assert(t1.master@[j] == t0.master@[j]);
                    }
                }
                assert(t1.wf());
            }
            return (Some(TableUpdate::Withdrawn(net, source)), true);
        }
        let mut d = Destination { net, entry: Vec::new() };
        ft.dests.set_and_swap(di, &mut d);
        d.entry.remove(si);
        proof {
            assert(d.entry@ == e.remove(si as int));
            assert forall|p: int, q: int|
                #![trigger d.entry@[p], d.entry@[q]]
                0 <= p < q < d.entry@.len() implies d.entry@[p].source.address
                != d.entry@[q].source.address by {
                assert(d.entry@[p] == if p < si as int {
                    e[p]
                } else {
                    e[p + 1]
                });
                assert(d.entry@[q] == if q < si as int {
                    e[q]
                } else {
                    e[q + 1]
                });
            }
            assert forall|p: int| 0 <= p < d.entry@.len() implies (
            #[trigger] d.entry@[p]).attrs.wf() by {
                assert(d.entry@[p] == if p < si as int {
                    e[p]
                } else {
                    e[p + 1]
                });
            }
        }
        let update: Option<TableUpdate> = if si == 0 {
            let head = &d.entry[0];
            let a2 = head.attrs.duplicate();
            Some(TableUpdate::NewBest(net, head.nexthop, a2, head.source))
        } else {
            None
        };
        let ghost dkept = d;
        ft.dests.set_and_swap(di, &mut d);
        self.master.set_and_swap(fi, &mut ft);
        proof {
            let t1 = *self;
            assert(t1.master@.len() == t0.master@.len());
            assert forall|k: int|
                0 <= k < t0.master@.len() && k != fi as int implies t1.master@[k] == #[trigger] t0.master@[k] by {}
            let d1 = t1.master@[fi as int].dests@;
            assert(d1.len() == d0.len());
            assert forall|k: int|
                0 <= k < d0.len() && k != di as int implies d1[k] == #[trigger] d0[k] by {}
            assert(d1[di as int].net == net);
            assert(d1[di as int].entry@ == dkept.entry@);
            assert(update_entry_frame(t0, family, net, t1, e.remove(si as int)));
            assert forall|i: int| 0 <= i < t1.master@.len() implies (
            #[trigger] t1.master@[i]).wf() by {
                if i != fi as int {
                    assert(t1.master@[i] == t0.master@[i]);
                } else {
                    assert forall|p: int, q: int|
                        #![trigger d1[p], d1[q]]
                        0 <= p < q < d1.len() implies d1[p].net != d1[q].net by {
                        if p != di as int {
                            assert(d1[p] == d0[p]);
                        }
                        if q != di as int {
                            assert(d1[q] == d0[q]);
                        }
                    }
                    assert forall|p: int| 0 <= p < d1.len() implies (
                    #[trigger] d1[p]).wf() by {
                        if p != di as int {
                            assert(d1[p] == d0[p]);
                        }
                    }
                }
            }
            assert forall|i: int, j: int|
                #![trigger t1.master@[i], t1.master@[j]]
                0 <= i < j < t1.master@.len() implies t1.master@[i].family
                != t1.master@[j].family by {
                if i != fi as int {
                    assert(t1.master@[i] == t0.master@[i]);
                }
                if j != fi as int {
                    assert(t1.master@[j] == t0.master@[j]);
                }
            }
            assert(t1.wf());
        }
        (update, true)
    }

    pub open spec fn has_peer(self, addr: IpAddress) -> bool {
        exists|i: int|
            0 <= i < self.active_peers@.len() && (#[trigger] self.active_peers@[i]).address == addr
    }

    pub open spec fn peer_idx(self, addr: IpAddress) -> int {
        choose|i: int|
            0 <= i < self.active_peers@.len() && (#[trigger] self.active_peers@[i]).address == addr
    }

    /// Marks a peer's session established: its address now receives
    /// fan-out under its `Source`; a prior registration for the address is
    /// replaced.
    pub fn activate_peer(&mut self, address: IpAddress, source: Source)
        requires
            old(self).wf(),
        ensures
            final(self).wf(),
            final(self).local_source == old(self).local_source,
            final(self).disable_best_path_selection == old(self).disable_best_path_selection,
            final(self).master@ == old(self).master@,
            final(self).has_peer(address),
            final(self).active_peers@ == (if old(self).has_peer(address) {
                old(self).active_peers@.remove(old(self).peer_idx(address))
            } else {
                old(self).active_peers@
            }).push(ActivePeer { address, source }),
    {
        self.deactivate_peer(address);
        let ghost p1 = self.active_peers@;
        self.active_peers.push(ActivePeer { address, source });
        proof {
            let t1 = *self;
            let m = p1.len() as int;
            assert(t1.active_peers@[m].address == address);
            assert(t1.has_peer(address));
            assert forall|p: int| 0 <= p < m implies (#[trigger] p1[p]).address != address by {
                if p1[p].address == address {
                    assert(exists|i: int|
                        0 <= i < p1.len() && (#[trigger] p1[i]).address == address);
                }
            }
            assert forall|p: int, q: int|
                #![trigger t1.active_peers@[p], t1.active_peers@[q]]
                0 <= p < q < t1.active_peers@.len() implies t1.active_peers@[p].address
                != t1.active_peers@[q].address by {
                assert(t1.active_peers@[p] == p1[p]);
                if q != m {
                    assert(t1.active_peers@[q] == p1[q]);
                }
            }
        }
    }

    /// Removes a peer's fan-out registration, if present.
    pub fn deactivate_peer(&mut self, address: IpAddress)
        requires
            old(self).wf(),
        ensures
            final(self).wf(),
            final(self).local_source == old(self).local_source,
            final(self).disable_best_path_selection == old(self).disable_best_path_selection,
            final(self).master@ == old(self).master@,
            !final(self).has_peer(address),
            !old(self).has_peer(address) ==> final(self).active_peers@ == old(
                self,
            ).active_peers@,
            old(self).has_peer(address) ==> final(self).active_peers@ == old(
                self,
            ).active_peers@.remove(old(self).peer_idx(address)),
    {
        let ghost t0 = *old(self);
        let n = self.active_peers.len();
        let mut i: usize = 0;
        while i < n
            invariant
                i <= n,
                n == t0.active_peers@.len(),
                *self == t0,
                t0 == *old(self),
                t0.wf(),
                forall|j: int| 0 <= j < i ==> (#[trigger] t0.active_peers@[j]).address != address,
            decreases n - i,
        {
            if self.active_peers[i].address == address {
                proof {
                    assert(t0.active_peers@[i as int].address == address);
                    assert(t0.has_peer(address));
                }
                self.active_peers.remove(i);
                proof {
                    let p0 = t0.active_peers@;
                    let ci = t0.peer_idx(address);
                    assert(0 <= ci < p0.len() && p0[ci].address == address);
                    if ci < i as int {
                        assert(p0[ci].address != p0[i as int].address);
                    } else if ci > i as int {
                        assert(p0[i as int].address != p0[ci].address);
                    }
                    assert(ci == i as int);
                    let t1 = *self;
                    assert(t1.active_peers@ == p0.remove(i as int));
                    assert forall|p: int| 0 <= p < t1.active_peers@.len() implies (
                    #[trigger] t1.active_peers@[p]).address != address by {
                        assert(t1.active_peers@[p] == if p < i as int {
                            p0[p]
                        } else {
                            p0[p + 1]
                        });
                    }
                    assert forall|p: int, q: int|
                        #![trigger t1.active_peers@[p], t1.active_peers@[q]]
                        0 <= p < q < t1.active_peers@.len() implies t1.active_peers@[p].address
                        != t1.active_peers@[q].address by {
                        assert(t1.active_peers@[p] == if p < i as int {
                            p0[p]
                        } else {
                            p0[p + 1]
                        });
                        assert(t1.active_peers@[q] == if q < i as int {
                            p0[q]
                        } else {
                            p0[q + 1]
                        });
                    }
                }
                return ;
            }
            i = i + 1;
        }
        proof {
            if t0.has_peer(address) {
                let ci = t0.peer_idx(address);
                assert(0 <= ci < t0.active_peers@.len() && t0.active_peers@[ci].address == address);
            }
        }
    }

    /// The pairs `(family, net)` of the destinations holding a path from
    /// `addr`, in family-then-prefix order.
    fn affected(&self, addr: IpAddress) -> (pairs: Vec<(Family, Nlri)>)
        requires
            self.wf(),
        ensures
            forall|k: int|
                0 <= k < pairs@.len() ==> table_has_dest(*self, (#[trigger] pairs@[k]).0, pairs@[k].1)
                    && has_source(table_entry(*self, pairs@[k].0, pairs@[k].1), addr),
            forall|f: Family, n: Nlri| #![trigger table_has_dest(*self, f, n)]
                table_has_dest(*self, f, n) && has_source(table_entry(*self, f, n), addr)
                    ==> pair_in(pairs@, f, n),
            forall|k1: int, k2: int| #![trigger pairs@[k1], pairs@[k2]]
                0 <= k1 < k2 < pairs@.len() ==> pairs@[k1] != pairs@[k2],
            pairs@ == affected_pairs(self.master@, addr),
    {
        let t = self;
        let mut pairs: Vec<(Family, Nlri)> = Vec::new();
        proof {
            assert(pairs@ =~= affected_pairs(t.master@.take(0), addr));
        }
        let nf = t.master.len();
        let mut fi: usize = 0;
        while fi < nf
            invariant
                fi <= nf,
                nf == t.master@.len(),
                t.wf(),
                forall|k: int|
                    0 <= k < pairs@.len() ==> table_has_dest(
                        *t,
                        (#[trigger] pairs@[k]).0,
                        pairs@[k].1,
                    ) && has_source(table_entry(*t, pairs@[k].0, pairs@[k].1), addr)
                        && t.fam_idx(pairs@[k].0) < fi,
                forall|f: Family, n: Nlri| #![trigger table_has_dest(*t, f, n)]
                    table_has_dest(*t, f, n) && has_source(table_entry(*t, f, n), addr)
                        && t.fam_idx(f) < fi ==> pair_in(pairs@, f, n),
                forall|k1: int, k2: int| #![trigger pairs@[k1], pairs@[k2]]
                    0 <= k1 < k2 < pairs@.len() ==> pairs@[k1] != pairs@[k2],
                pairs@ == affected_pairs(t.master@.take(fi as int), addr),
            decreases nf - fi,
        {
            let fam = t.master[fi].family;
            proof {
                assert(t.has_fam(fam));
                lemma_fam_idx(*t, fam);
                assert(t.fam_idx(fam) == fi as int);
                assert(t.master@[fi as int].wf());
            }
            let nd = t.master[fi].dests.len();
            let mut di: usize = 0;
            while di < nd
                invariant
                    di <= nd,
                    fi < nf,
                    nf == t.master@.len(),
                    nd == t.master@[fi as int].dests@.len(),
                    t.wf(),
                    fam == t.master@[fi as int].family,
                    t.fam_idx(fam) == fi as int,
                    forall|k: int|
                        0 <= k < pairs@.len() ==> table_has_dest(
                            *t,
                            (#[trigger] pairs@[k]).0,
                            pairs@[k].1,
                        ) && has_source(table_entry(*t, pairs@[k].0, pairs@[k].1), addr) && (
                        t.fam_idx(pairs@[k].0) < fi || (t.fam_idx(pairs@[k].0) == fi as int
                            && dst_idx(t.master@[fi as int].dests@, pairs@[k].1) < di)),
                    forall|f: Family, n: Nlri| #![trigger table_has_dest(*t, f, n)]
                        table_has_dest(*t, f, n) && has_source(table_entry(*t, f, n), addr) && (
                        t.fam_idx(f) < fi || (t.fam_idx(f) == fi as int && dst_idx(
                            t.master@[fi as int].dests@,
                            n,
                        ) < di)) ==> pair_in(pairs@, f, n),
                    forall|k1: int, k2: int| #![trigger pairs@[k1], pairs@[k2]]
                        0 <= k1 < k2 < pairs@.len() ==> pairs@[k1] != pairs@[k2],
                    pairs@ == affected_pairs(t.master@.take(fi as int), addr) + dests_affected(
                        fam,
                        t.master@[fi as int].dests@.take(di as int),
                        addr,
                    ),
                decreases nd - di,
            {
                let net = t.master[fi].dests[di].net;
                proof {
                    assert(has_dst(t.master@[fi as int].dests@, net));
                    lemma_dst_idx(t.master@[fi as int].dests@, net);
                    assert(dst_idx(t.master@[fi as int].dests@, net) == di as int);
                    assert(table_has_dest(*t, fam, net));
                    assert(table_entry(*t, fam, net) == t.master@[fi as int].dests@[di as int].entry@);
                }
                let hs = find_source_index(&t.master[fi].dests[di].entry, addr);
                proof {
                    let d = t.master@[fi as int].dests@;
                    assert(d.take(di + 1) =~= d.take(di as int).push(d[di as int]));
                    lemma_dests_affected_snoc(fam, d.take(di as int), d[di as int], addr);
                }
                if hs.is_some() {
                    let ghost prev = pairs@;
                    pairs.push((fam, net));
                    proof {
                        assert(has_source(table_entry(*t, fam, net), addr));
                        assert(has_source(t.master@[fi as int].dests@[di as int].entry@, addr));
                        assert(pairs@ =~= affected_pairs(t.master@.take(fi as int), addr)
                            + dests_affected(
                            fam,
                            t.master@[fi as int].dests@.take(di + 1),
                            addr,
                        ));
                        assert forall|k1: int, k2: int|
                            #![trigger pairs@[k1], pairs@[k2]]
                            0 <= k1 < k2 < pairs@.len() implies pairs@[k1] != pairs@[k2] by {
                            if k2 == prev.len() as int {
                                assert(pairs@[k1] == prev[k1]);
                                if prev[k1] == (fam, net) {
                                    assert(t.fam_idx(fam) == fi as int);
                                    assert(dst_idx(t.master@[fi as int].dests@, net) == di as int);
                                }
                            } else {
                                assert(pairs@[k1] == prev[k1]);
                                assert(pairs@[k2] == prev[k2]);
                            }
                        }
                        assert forall|k: int|
                            0 <= k < pairs@.len() implies table_has_dest(
                            *t,
                            (#[trigger] pairs@[k]).0,
                            pairs@[k].1,
                        ) && has_source(table_entry(*t, pairs@[k].0, pairs@[k].1), addr) && (
                        t.fam_idx(pairs@[k].0) < fi || (t.fam_idx(pairs@[k].0) == fi as int
                            && dst_idx(t.master@[fi as int].dests@, pairs@[k].1) < di + 1)) by {
                            if k < prev.len() {
                                assert(pairs@[k] == prev[k]);
                            } else {
                                assert(pairs@[k] == (fam, net));
                            }
                        }
                        assert forall|f: Family, n: Nlri| #![trigger table_has_dest(*t, f, n)]
                            table_has_dest(*t, f, n) && has_source(table_entry(*t, f, n), addr)
                                && (t.fam_idx(f) < fi || (t.fam_idx(f) == fi as int && dst_idx(
                                t.master@[fi as int].dests@,
                                n,
                            ) < di + 1)) implies pair_in(pairs@, f, n) by {
                            if t.fam_idx(f) < fi || (t.fam_idx(f) == fi as int && dst_idx(
                                t.master@[fi as int].dests@,
                                n,
                            ) < di) {
                                assert(pair_in(prev, f, n));
                                let k = choose|k: int|
                                    0 <= k < prev.len() && prev[k] == (f, n);
                                assert(pairs@[k] == (f, n));
                            } else {
                                assert(t.fam_idx(f) == fi as int && dst_idx(
                                    t.master@[fi as int].dests@,
                                    n,
                                ) == di as int);
                                lemma_fam_idx(*t, f);
                                assert(t.master@[fi as int].family == f);
                                assert(f == fam);
                                lemma_dst_idx(t.master@[fi as int].dests@, n);
                                assert(t.master@[fi as int].dests@[di as int].net == n);
                                assert(n == net);
                                assert(pairs@[prev.len() as int] == (f, n));
                            }
                        }
                    }
                } else {
                    proof {
                        assert(!has_source(table_entry(*t, fam, net), addr));
                        assert(!has_source(
                            t.master@[fi as int].dests@[di as int].entry@,
                            addr,
                        ));
                        assert(pairs@ =~= affected_pairs(t.master@.take(fi as int), addr)
                            + dests_affected(
                            fam,
                            t.master@[fi as int].dests@.take(di + 1),
                            addr,
                        ));
                        assert forall|f: Family, n: Nlri| #![trigger table_has_dest(*t, f, n)]
                            table_has_dest(*t, f, n) && has_source(table_entry(*t, f, n), addr)
                                && (t.fam_idx(f) < fi || (t.fam_idx(f) == fi as int && dst_idx(
                                t.master@[fi as int].dests@,
                                n,
                            ) < di + 1)) implies pair_in(pairs@, f, n) by {
                            if !(t.fam_idx(f) < fi || (t.fam_idx(f) == fi as int && dst_idx(
                                t.master@[fi as int].dests@,
                                n,
                            ) < di)) {
                                lemma_fam_idx(*t, f);
                                assert(f == fam);
                                lemma_dst_idx(t.master@[fi as int].dests@, n);
                                assert(n == net);
                            }
                        }
                    }
                }
                di = di + 1;
            }
            proof {
                assert forall|f: Family, n: Nlri| #![trigger table_has_dest(*t, f, n)]
                    table_has_dest(*t, f, n) && has_source(table_entry(*t, f, n), addr) && t.fam_idx(
                    f,
                ) < fi + 1 implies pair_in(pairs@, f, n) by {
                    if t.fam_idx(f) == fi as int {
                        lemma_fam_idx(*t, f);
                        assert(t.master@[fi as int].family == f);
                        assert(t.master@[fi as int].wf());
                        lemma_dst_idx(t.master@[fi as int].dests@, n);
                        assert(dst_idx(t.master@[fi as int].dests@, n) < nd);
                    }
                }
                assert(t.master@[fi as int].dests@.take(nd as int)
                    =~= t.master@[fi as int].dests@);
                assert(t.master@.take(fi + 1) =~= t.master@.take(fi as int).push(
                    t.master@[fi as int],
                ));
                lemma_affected_pairs_snoc(t.master@.take(fi as int), t.master@[fi as int], addr);
                assert(pairs@ =~= affected_pairs(t.master@.take(fi + 1), addr));
            }
            fi = fi + 1;
        }
        proof {
            assert(t.master@.take(nf as int) =~= t.master@);
        }
        pairs
    }

    /// Removes every path from `source`, walking families then prefixes,
    /// and returns the resulting updates in exactly that order: a
    /// `Withdrawn` where the destination emptied, a `NewBest` where its
    /// head was removed.
    pub fn clear(&mut self, source: Source) -> (r: Vec<TableUpdate>)
        requires
            old(self).wf(),
        ensures
            final(self).wf(),
            final(self).local_source == old(self).local_source,
            final(self).disable_best_path_selection == old(self).disable_best_path_selection,
            final(self).active_peers@ == old(self).active_peers@,
            same_families(*old(self), *final(self)),
            forall|f: Family, n: Nlri| #![trigger table_has_dest(*old(self), f, n)]
                table_has_dest(*old(self), f, n) ==> clear_net_rel(
                    *old(self),
                    f,
                    n,
                    source.address,
                    *final(self),
                ),
            forall|f: Family, n: Nlri| #![trigger table_has_dest(*final(self), f, n)]
                table_has_dest(*final(self), f, n) ==> table_has_dest(*old(self), f, n),
            forall|k: int|
                0 <= k < r@.len() ==> clear_update_ok(*old(self), source, #[trigger] r@[k]),
            forall|f: Family, n: Nlri| #![trigger table_has_dest(*old(self), f, n)]
                (table_has_dest(*old(self), f, n) && has_source(
                    table_entry(*old(self), f, n),
                    source.address,
                )) ==> (if table_entry(*old(self), f, n).len() == 1 {
                    has_withdrawn_for(r@, n)
                } else if first_source_idx(table_entry(*old(self), f, n), source.address) == 0 {
                    has_dump_for(r@, n)
                } else {
                    true
                }),
            update_nets(r@) == emitted_nets(
                *old(self),
                affected_pairs(old(self).master@, source.address),
                source.address,
            ),
    {
        let ghost t0 = *old(self);
        let pairs = self.affected(source.address);
        proof {
            assert(update_nets(Seq::<TableUpdate>::empty()) =~= emitted_nets(
                t0,
                pairs@.take(0),
                source.address,
            ));
        }
        let mut updates: Vec<TableUpdate> = Vec::new();
        let np = pairs.len();
        let mut i: usize = 0;
        while i < np
            invariant
                i <= np,
                np == pairs@.len(),
                t0 == *old(self),
                t0.wf(),
                self.wf(),
                self.local_source == t0.local_source,
                self.disable_best_path_selection == t0.disable_best_path_selection,
                self.active_peers@ == t0.active_peers@,
                same_families(t0, *self),
                forall|k: int|
                    0 <= k < np ==> table_has_dest(t0, (#[trigger] pairs@[k]).0, pairs@[k].1)
                        && has_source(table_entry(t0, pairs@[k].0, pairs@[k].1), source.address),
                forall|f: Family, n: Nlri| #![trigger table_has_dest(t0, f, n)]
                    table_has_dest(t0, f, n) && has_source(table_entry(t0, f, n), source.address)
                        ==> pair_in(pairs@, f, n),
                forall|k1: int, k2: int| #![trigger pairs@[k1], pairs@[k2]]
                    0 <= k1 < k2 < np ==> pairs@[k1] != pairs@[k2],
                forall|k: int|
                    0 <= k < i ==> clear_net_rel(
                        t0,
                        (#[trigger] pairs@[k]).0,
                        pairs@[k].1,
                        source.address,
                        *self,
                    ),
                forall|k: int|
                    i <= k < np ==> table_has_dest(*self, (#[trigger] pairs@[k]).0, pairs@[k].1)
                        && table_entry(*self, pairs@[k].0, pairs@[k].1) == table_entry(
                        t0,
                        pairs@[k].0,
                        pairs@[k].1,
                    ),
                forall|f: Family, n: Nlri| #![trigger table_has_dest(t0, f, n)]
                    table_has_dest(t0, f, n) && !pair_in(pairs@, f, n) ==> table_has_dest(
                        *self,
                        f,
                        n,
                    ) && table_entry(*self, f, n) == table_entry(t0, f, n),
                forall|f: Family, n: Nlri| #![trigger table_has_dest(*self, f, n)]
                    table_has_dest(*self, f, n) ==> table_has_dest(t0, f, n),
                forall|k: int|
                    0 <= k < updates@.len() ==> clear_update_ok(
                        t0,
                        source,
                        #[trigger] updates@[k],
                    ),
                forall|k: int|
                    0 <= k < i ==> (if table_entry(t0, (#[trigger] pairs@[k]).0, pairs@[k].1).len()
                        == 1 {
                        has_withdrawn_for(updates@, pairs@[k].1)
                    } else if first_source_idx(
                        table_entry(t0, pairs@[k].0, pairs@[k].1),
                        source.address,
                    ) == 0 {
                        has_dump_for(updates@, pairs@[k].1)
                    } else {
                        true
                    }),
                pairs@ == affected_pairs(t0.master@, source.address),
                update_nets(updates@) == emitted_nets(t0, pairs@.take(i as int), source.address),
            decreases np - i,
        {
            let p = pairs[i];
            let ghost tc = *self;
            let (u, removed) = self.remove(p.0, p.1, source);
            let ghost rg = (u, removed);
            let ghost uprev = updates@;
            if let Some(uu) = u {
                updates.push(uu);
            }
            proof {
                let tn = *self;
                let f = p.0;
                let n = p.1;
                assert(p == pairs@[i as int]);
                assert(remove_post(tc, f, n, source, tn, rg));
                lemma_remove_same(tc, f, n, source, tn, rg);
                assert(same_families(t0, tn)) by {
                    assert forall|k: int|
                        0 <= k < t0.master@.len() implies (#[trigger] tn.master@[k]).family == (
                    #[trigger] t0.master@[k]).family by {
                        assert(tc.master@[k].family == t0.master@[k].family);
                        assert(tn.master@[k].family == tc.master@[k].family);
                    }
                }
                assert(table_has_dest(tc, f, n));
                assert(table_entry(tc, f, n) == table_entry(t0, f, n));
                assert(has_source(table_entry(tc, f, n), source.address));
                lemma_remove_own(tc, f, n, source, tn, rg);
                assert(clear_net_rel(tc, f, n, source.address, tn));
                assert(clear_net_rel(t0, f, n, source.address, tn));
                assert forall|k: int|
                    0 <= k < i + 1 implies clear_net_rel(
                    t0,
                    (#[trigger] pairs@[k]).0,
                    pairs@[k].1,
                    source.address,
                    tn,
                ) by {
                    if k < i {
                        assert(pairs@[k] != pairs@[i as int]);
                        lemma_remove_frame(tc, f, n, source, tn, rg, pairs@[k].0, pairs@[k].1);
                        assert(clear_net_rel(t0, pairs@[k].0, pairs@[k].1, source.address, tc));
                    }
                }
                assert forall|k: int|
                    i + 1 <= k < np implies table_has_dest(
                    tn,
                    (#[trigger] pairs@[k]).0,
                    pairs@[k].1,
                ) && table_entry(tn, pairs@[k].0, pairs@[k].1) == table_entry(
                    t0,
                    pairs@[k].0,
                    pairs@[k].1,
                ) by {
                    assert(pairs@[k] != pairs@[i as int]);
                    lemma_remove_frame(tc, f, n, source, tn, rg, pairs@[k].0, pairs@[k].1);
                }
                assert forall|f2: Family, n2: Nlri| #![trigger table_has_dest(t0, f2, n2)]
                    table_has_dest(t0, f2, n2) && !pair_in(pairs@, f2, n2) implies table_has_dest(
                    tn,
                    f2,
                    n2,
                ) && table_entry(tn, f2, n2) == table_entry(t0, f2, n2) by {
                    assert(!(f2 == f && n2 == n)) by {
                        if f2 == f && n2 == n {
                            assert(pairs@[i as int] == (f2, n2));
                        }
                    }
                    lemma_remove_frame(tc, f, n, source, tn, rg, f2, n2);
                }
                assert forall|f2: Family, n2: Nlri| #![trigger table_has_dest(tn, f2, n2)]
                    table_has_dest(tn, f2, n2) implies table_has_dest(t0, f2, n2) by {
                    if f2 == f && n2 == n {
                        assert(table_has_dest(t0, f2, n2));
                    } else {
                        lemma_remove_frame(tc, f, n, source, tn, rg, f2, n2);
                    }
                }
                // the walked prefix sequence grows by this pair's share
                lemma_emitted_nets_take_snoc(t0, pairs@, source.address, i as int);
                let e = table_entry(t0, f, n);
                assert(table_entry(tc, f, n) == e);
                if e.len() == 1 {
                    assert(rg.0 is Some);
                    assert(clear_update_ok(t0, source, rg.0.unwrap())) by {
                        match rg.0.unwrap() {
                            TableUpdate::Withdrawn(n2, s2) => {
                                assert(n2 == n && s2 == source);
                                assert(table_has_dest(t0, f, n));
                            }
                            _ => {}
                        }
                    }
                } else if first_source_idx(e, source.address) == 0 {
                    assert(rg.0 is Some);
                    assert(clear_update_ok(t0, source, rg.0.unwrap())) by {
                        match rg.0.unwrap() {
                            TableUpdate::NewBest(n2, nh2, a2, s2) => {
                                assert(n2 == n);
                                assert(table_has_dest(t0, f, n));
                            }
                            _ => {}
                        }
                    }
                } else {
                    assert(rg.0 is None);
                }
                if rg.0 is Some {
                    assert(updates@ == uprev.push(rg.0.unwrap()));
                } else {
                    assert(updates@ == uprev);
                }
                assert forall|k: int|
                    0 <= k < updates@.len() implies clear_update_ok(
                    t0,
                    source,
                    #[trigger] updates@[k],
                ) by {
                    if k < uprev.len() {
                        assert(updates@[k] == uprev[k]);
                    } else {
                        assert(updates@[k] == rg.0.unwrap());
                    }
                }
                if e.len() == 1 || first_source_idx(e, source.address) == 0 {
                    assert(emitted_net(t0, pairs@[i as int], source.address) =~= seq![n]);
                    assert(updates@ == uprev.push(rg.0.unwrap()));
                    assert(spec_update_net(rg.0.unwrap()) == n);
                    assert(update_nets(updates@) =~= update_nets(uprev).push(n));
                    assert(update_nets(updates@) =~= emitted_nets(
                        t0,
                        pairs@.take(i + 1),
                        source.address,
                    ));
                } else {
                    assert(emitted_net(t0, pairs@[i as int], source.address)
                        =~= Seq::<Nlri>::empty());
                    assert(updates@ == uprev);
                    assert(update_nets(updates@) =~= emitted_nets(
                        t0,
                        pairs@.take(i + 1),
                        source.address,
                    ));
                }
                assert forall|k: int|
                    0 <= k < i + 1 implies (if table_entry(
                    t0,
                    (#[trigger] pairs@[k]).0,
                    pairs@[k].1,
                ).len() == 1 {
                    has_withdrawn_for(updates@, pairs@[k].1)
                } else if first_source_idx(
                    table_entry(t0, pairs@[k].0, pairs@[k].1),
                    source.address,
                ) == 0 {
                    has_dump_for(updates@, pairs@[k].1)
                } else {
                    true
                }) by {
                    let ek = table_entry(t0, pairs@[k].0, pairs@[k].1);
                    if k < i as int {
                        if ek.len() == 1 {
                            assert(has_withdrawn_for(uprev, pairs@[k].1));
                            let w = choose|w: int|
                                0 <= w < uprev.len() && match #[trigger] uprev[w] {
                                    TableUpdate::Withdrawn(n2, _) => n2 == pairs@[k].1,
                                    _ => false,
                                };
                            assert(updates@[w] == uprev[w]);
                        } else if first_source_idx(ek, source.address) == 0 {
                            assert(has_dump_for(uprev, pairs@[k].1));
                            let w = choose|w: int|
                                0 <= w < uprev.len() && is_newbest_for(#[trigger] uprev[w], pairs@[k].1);
                            assert(updates@[w] == uprev[w]);
                            assert(is_newbest_for(updates@[w], pairs@[k].1));
                        }
                    } else {
                        assert(pairs@[k] == (f, n));
                        if e.len() == 1 {
                            assert(updates@[uprev.len() as int] == rg.0.unwrap());
                            assert(match updates@[uprev.len() as int] {
                                TableUpdate::Withdrawn(n2, _) => n2 == n,
                                _ => false,
                            });
                        } else if first_source_idx(e, source.address) == 0 {
                            assert(updates@[uprev.len() as int] == rg.0.unwrap());
                            assert(is_newbest_for(updates@[uprev.len() as int], n));
                        }
                    }
                }
            }
            i = i + 1;
        }
        proof {
            assert forall|f: Family, n: Nlri| #![trigger table_has_dest(t0, f, n)]
                table_has_dest(t0, f, n) implies clear_net_rel(
                t0,
                f,
                n,
                source.address,
                *self,
            ) by {
                if has_source(table_entry(t0, f, n), source.address) {
                    assert(pair_in(pairs@, f, n));
                    let k = choose|k: int| 0 <= k < pairs@.len() && pairs@[k] == (f, n);
                    assert(clear_net_rel(t0, pairs@[k].0, pairs@[k].1, source.address, *self));
                }
            }
            assert forall|f: Family, n: Nlri| #![trigger table_has_dest(t0, f, n)]
                (table_has_dest(t0, f, n) && has_source(
                    table_entry(t0, f, n),
                    source.address,
                )) implies (if table_entry(t0, f, n).len() == 1 {
                has_withdrawn_for(updates@, n)
            } else if first_source_idx(table_entry(t0, f, n), source.address) == 0 {
                has_dump_for(updates@, n)
            } else {
                true
            }) by {
                assert(pair_in(pairs@, f, n));
                let k = choose|k: int| 0 <= k < pairs@.len() && pairs@[k] == (f, n);
            }
            assert(pairs@.take(np as int) =~= pairs@);
        }
        updates
    }

    /// The snapshot sent to a newly established peer: one `NewBest` per
    /// destination of every family in `families`, carrying the current
    /// head of each destination, all under `source`. Empty in collector
    /// mode.
    pub fn initial_dump(&self, families: &Vec<Family>, source: Source) -> (r: Vec<TableUpdate>)
        requires
            self.wf(),
        ensures
            self.disable_best_path_selection ==> r@.len() == 0,
            forall|k: int|
                0 <= k < r@.len() ==> dump_item_ok(*self, families@, source, #[trigger] r@[k]),
            !self.disable_best_path_selection ==> forall|kf: int, n: Nlri|
                #![trigger table_has_dest(*self, families@[kf], n)]
                0 <= kf < families@.len() && table_has_dest(*self, families@[kf], n)
                    ==> has_dump_for(r@, n),
            !self.disable_best_path_selection ==> update_nets(r@) == dump_nets(
                *self,
                families@,
            ),
    {
        let mut out: Vec<TableUpdate> = Vec::new();
        if self.disable_best_path_selection {
            return out;
        }
        proof {
            assert(update_nets(out@) =~= dump_nets(*self, families@.subrange(0, 0)));
        }
        let nf = families.len();
        let mut kf: usize = 0;
        while kf < nf
            invariant
                kf <= nf,
                nf == families@.len(),
                self.wf(),
                !self.disable_best_path_selection,
                forall|k: int|
                    0 <= k < out@.len() ==> dump_item_ok(
                        *self,
                        families@,
                        source,
                        #[trigger] out@[k],
                    ),
                forall|kf2: int, n: Nlri|
                    #![trigger table_has_dest(*self, families@[kf2], n)]
                    0 <= kf2 < kf && table_has_dest(*self, families@[kf2], n) ==> has_dump_for(
                        out@,
                        n,
                    ),
                update_nets(out@) == dump_nets(*self, families@.subrange(0, kf as int)),
            decreases nf - kf,
        {
            let fam = families[kf];
            let found = find_family_index(&self.master, fam);
            if let Some(fi) = found {
                proof {
                    assert(self.has_fam(fam));
                    lemma_fam_idx(*self, fam);
                    assert(self.fam_idx(fam) == fi as int);
                    assert(self.master@[fi as int].wf());
                }
                let nd = self.master[fi].dests.len();
                let mut di: usize = 0;
                while di < nd
                    invariant
                        di <= nd,
                        kf < nf,
                        nf == families@.len(),
                        fi < self.master@.len(),
                        nd == self.master@[fi as int].dests@.len(),
                        self.wf(),
                        !self.disable_best_path_selection,
                        fam == families@[kf as int],
                        self.master@[fi as int].family == fam,
                        self.fam_idx(fam) == fi as int,
                        forall|k: int|
                            0 <= k < out@.len() ==> dump_item_ok(
                                *self,
                                families@,
                                source,
                                #[trigger] out@[k],
                            ),
                        forall|kf2: int, n: Nlri|
                            #![trigger table_has_dest(*self, families@[kf2], n)]
                            0 <= kf2 < kf && table_has_dest(*self, families@[kf2], n)
                                ==> has_dump_for(out@, n),
                        forall|n: Nlri| #![trigger has_dst(self.master@[fi as int].dests@, n)]
                            has_dst(self.master@[fi as int].dests@, n) && dst_idx(
                                self.master@[fi as int].dests@,
                                n,
                            ) < di ==> has_dump_for(out@, n),
                        update_nets(out@) == dump_nets(*self, families@.subrange(0, kf as int))
                            + dest_net_seq(self.master@[fi as int].dests@).subrange(
                            0,
                            di as int,
                        ),
                    decreases nd - di,
                {
                    let d = &self.master[fi].dests[di];
                    proof {
                        assert(self.master@[fi as int].dests@[di as int].wf());
                        assert(has_dst(self.master@[fi as int].dests@, d.net));
                        lemma_dst_idx(self.master@[fi as int].dests@, d.net);
                        assert(dst_idx(self.master@[fi as int].dests@, d.net) == di as int);
                        assert(table_has_dest(*self, fam, d.net));
                        assert(table_entry(*self, fam, d.net)
                            == self.master@[fi as int].dests@[di as int].entry@);
                        assert(family_in(families@, fam)) by {
                            assert(families@[kf as int] == fam);
                        }
                    }
                    let ghost out0 = out@;
                    let head = &d.entry[0];
                    let a2 = head.attrs.duplicate();
                    out.push(TableUpdate::NewBest(d.net, head.nexthop, a2, source));
                    proof {
                        assert(out@ == out0.push(TableUpdate::NewBest(
                            d.net,
                            head.nexthop,
                            a2,
                            source,
                        )));
                        assert(update_nets(out@) =~= update_nets(out0).push(d.net));
                        assert(dest_net_seq(self.master@[fi as int].dests@).subrange(0, di + 1)
                            =~= dest_net_seq(self.master@[fi as int].dests@).subrange(
                            0,
                            di as int,
                        ).push(d.net));
                        assert(update_nets(out@) =~= dump_nets(
                            *self,
                            families@.subrange(0, kf as int),
                        ) + dest_net_seq(self.master@[fi as int].dests@).subrange(0, di + 1));
                        assert(dump_item_ok(
                            *self,
                            families@,
                            source,
                            out@[out0.len() as int],
                        ));
                        assert forall|n: Nlri|
                            #![trigger has_dst(self.master@[fi as int].dests@, n)]
                            has_dst(self.master@[fi as int].dests@, n) && dst_idx(
                                self.master@[fi as int].dests@,
                                n,
                            ) < di + 1 implies has_dump_for(out@, n) by {
                            if dst_idx(self.master@[fi as int].dests@, n) < di as int {
                                let w = choose|w: int|
                                    0 <= w < out0.len() && is_newbest_for(#[trigger] out0[w], n);
                                assert(is_newbest_for(out@[w], n));
                            } else {
                                lemma_dst_idx(self.master@[fi as int].dests@, n);
                                assert(n == d.net);
                                assert(is_newbest_for(out@[out0.len() as int], n));
                            }
                        }
                        assert forall|kf2: int, n: Nlri|
                            #![trigger table_has_dest(*self, families@[kf2], n)]
                            0 <= kf2 < kf && table_has_dest(*self, families@[kf2], n)
                                implies has_dump_for(out@, n) by {
                            let w = choose|w: int|
                                0 <= w < out0.len() && is_newbest_for(#[trigger] out0[w], n);
                            assert(is_newbest_for(out@[w], n));
                        }
                    }
                    di = di + 1;
                }
                proof {
                    assert forall|n: Nlri|
                        table_has_dest(*self, fam, n) implies has_dump_for(out@, n) by {
                        lemma_dst_idx(self.master@[fi as int].dests@, n);
                    }
                    assert(families@.subrange(0, kf + 1) =~= families@.subrange(
                        0,
                        kf as int,
                    ).push(fam));
                    lemma_dump_nets_snoc(*self, families@.subrange(0, kf as int), fam);
                    assert(dest_net_seq(self.master@[fi as int].dests@).subrange(0, nd as int)
                        =~= dest_net_seq(self.master@[fi as int].dests@));
                    assert(update_nets(out@) =~= dump_nets(*self, families@.subrange(0, kf + 1)));
                }
            } else {
                proof {
                    assert(!self.has_fam(fam));
                    assert(families@.subrange(0, kf + 1) =~= families@.subrange(
                        0,
                        kf as int,
                    ).push(fam));
                    lemma_dump_nets_snoc(*self, families@.subrange(0, kf as int), fam);
                    assert(update_nets(out@) =~= dump_nets(*self, families@.subrange(0, kf + 1)));
                }
            }
            kf = kf + 1;
        }
        proof {
            assert(families@.subrange(0, nf as int) =~= families@);
        }
        out
    }

    /// The addresses that a table update is fanned out to: every active
    /// peer except the originator, and, when the update came over IBGP, no
    /// IBGP peer (split horizon). The caller sends the update to each.
    pub fn broadcast(&self, from: Source, msg: &TableUpdate) -> (r: Vec<IpAddress>)
        requires
            self.wf(),
        ensures
            forall|k: int|
                0 <= k < self.active_peers@.len() ==> (r@.contains(
                    (#[trigger] self.active_peers@[k]).address,
                ) <==> (self.active_peers@[k].address != from.address && !(from.ibgp
                    && self.active_peers@[k].source.ibgp))),
            forall|k: int|
                0 <= k < r@.len() ==> exists|j: int|
                    0 <= j < self.active_peers@.len() && (#[trigger] self.active_peers@[j]).address
                        == #[trigger] r@[k],
            !r@.contains(from.address),
            from.ibgp ==> forall|k: int|
                0 <= k < self.active_peers@.len() && (
                #[trigger] self.active_peers@[k]).source.ibgp ==> !r@.contains(
                    self.active_peers@[k].address,
                ),
            forall|k1: int, k2: int|
                #![trigger r@[k1], r@[k2]]
                0 <= k1 < k2 < r@.len() ==> r@[k1] != r@[k2],
    {
        let mut r: Vec<IpAddress> = Vec::new();
        let n = self.active_peers.len();
        let mut i: usize = 0;
        while i < n
            invariant
                i <= n,
                n == self.active_peers@.len(),
                self.wf(),
                forall|k: int|
                    0 <= k < i ==> (r@.contains((#[trigger] self.active_peers@[k]).address) <==> (
                    self.active_peers@[k].address != from.address && !(from.ibgp
                        && self.active_peers@[k].source.ibgp))),
                forall|k: int|
                    0 <= k < r@.len() ==> exists|j: int|
                        0 <= j < i && (#[trigger] self.active_peers@[j]).address == #[trigger] r@[k],
                forall|k1: int, k2: int|
                    #![trigger r@[k1], r@[k2]]
                    0 <= k1 < k2 < r@.len() ==> r@[k1] != r@[k2],
            decreases n - i,
        {
            let p = &self.active_peers[i];
            let ghost rprev = r@;
            if !(p.address == from.address) && !(from.ibgp && p.source.ibgp) {
                r.push(p.address);
                proof {
                    assert(r@ == rprev.push(p.address));
                    assert(r@.contains(p.address)) by {
                        assert(r@[rprev.len() as int] == p.address);
                    }
                    assert forall|k1: int, k2: int|
                        #![trigger r@[k1], r@[k2]]
                        0 <= k1 < k2 < r@.len() implies r@[k1] != r@[k2] by {
                        assert(r@[k1] == rprev[k1]);
                        if k2 < rprev.len() {
                            assert(r@[k2] == rprev[k2]);
                        } else {
                            // the new address belongs to a not-yet-visited
                            // peer, and peer addresses are distinct
                            let j = choose|j: int|
                                0 <= j < i && (#[trigger] self.active_peers@[j]).address
                                    == rprev[k1];
                            assert(self.active_peers@[j].address
                                != self.active_peers@[i as int].address);
                            assert(r@[k2] == p.address);
                        }
                    }
                    assert forall|k: int|
                        0 <= k < i + 1 implies (r@.contains(
                        (#[trigger] self.active_peers@[k]).address,
                    ) <==> (self.active_peers@[k].address != from.address && !(from.ibgp
                        && self.active_peers@[k].source.ibgp))) by {
                        if k < i {
                            if rprev.contains(self.active_peers@[k].address) {
                                let w = choose|w: int|
                                    0 <= w < rprev.len() && rprev[w] == self.active_peers@[k].address;
                                assert(r@[w] == self.active_peers@[k].address);
                            }
                            if r@.contains(self.active_peers@[k].address) {
                                let w = choose|w: int|
                                    0 <= w < r@.len() && r@[w] == self.active_peers@[k].address;
                                if w < rprev.len() {
                                    assert(rprev[w] == self.active_peers@[k].address);
                                } else {
                                    assert(self.active_peers@[k].address == p.address);
                                    assert(self.active_peers@[k] != self.active_peers@[i as int]
                                        ==> self.active_peers@[k].address != self.active_peers@[i as int].address);
                                }
                            }
                        }
                    }
                }
            } else {
                proof {
                    assert forall|k: int|
                        0 <= k < i + 1 implies (r@.contains(
                        (#[trigger] self.active_peers@[k]).address,
                    ) <==> (self.active_peers@[k].address != from.address && !(from.ibgp
                        && self.active_peers@[k].source.ibgp))) by {
                        if k == i as int {
                            if r@.contains(self.active_peers@[k].address) {
                                let w = choose|w: int|
                                    0 <= w < r@.len() && r@[w] == self.active_peers@[k].address;
                                let j = choose|j: int|
                                    0 <= j < i && (#[trigger] self.active_peers@[j]).address
                                        == r@[w];
                                assert(self.active_peers@[j].address
                                    == self.active_peers@[i as int].address);
                            }
                        }
                    }
                }
            }
            i = i + 1;
        }
        proof {
            if r@.contains(from.address) {
                let w = choose|w: int| 0 <= w < r@.len() && r@[w] == from.address;
                let j = choose|j: int|
                    0 <= j < n && (#[trigger] self.active_peers@[j]).address == r@[w];
                assert(r@.contains(self.active_peers@[j].address));
            }
            if from.ibgp {
                assert forall|k: int|
                    0 <= k < self.active_peers@.len() && (
                    #[trigger] self.active_peers@[k]).source.ibgp implies !r@.contains(
                    self.active_peers@[k].address,
                ) by {}
            }
        }
        r
    }
}

} // verus!
