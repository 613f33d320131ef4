//! Peer discovery: the live-peer table, the gossip protocol, and the
//! deterministic aggregation topology derived from them.
//!
//! The directory holds one record per peer id. Heartbeats and gossip refresh
//! a record's `last_seen` stamp; a periodic purge hard-deletes records older
//! than the TTL. The topology is a pure function of the current snapshot and
//! the local identity: every node holding the same snapshot computes the
//! identical parent assignment, with no negotiation (rendezvous sharding).
//!
//! Peer ids are identified, ordered and hashed by their UTF-8 bytes, exactly
//! as strings compare in the rest of the ecosystem.

use vstd::prelude::*;
use vstd::multiset::Multiset;
use vstd::utf8::encode_utf8;
use crate::node::NodeRole;

verus! {

/// Lexicographic byte comparison starting at position `i`, with all earlier
/// positions assumed equal.
pub open spec fn bytes_le_from(a: Seq<u8>, b: Seq<u8>, i: int) -> bool
    decreases a.len() - i,
{
    if i >= a.len() {
        true
    } else if i >= b.len() {
        false
    } else if a[i] < b[i] {
        true
    } else if a[i] > b[i] {
        false
    } else {
        bytes_le_from(a, b, i + 1)
    }
}

/// Lexicographic order on byte strings, the order in which parameter servers
/// are ranked for rendezvous sharding.
pub open spec fn bytes_le(a: Seq<u8>, b: Seq<u8>) -> bool {
    bytes_le_from(a, b, 0)
}

proof fn lemma_bytes_le_refl_from(a: Seq<u8>, i: int)
    ensures
        bytes_le_from(a, a, i),
    decreases a.len() - i,
{
    if i < a.len() {
        lemma_bytes_le_refl_from(a, i + 1);
    }
}

/// The order is reflexive.
pub proof fn lemma_bytes_le_refl(a: Seq<u8>)
    ensures
        bytes_le(a, a),
{
    lemma_bytes_le_refl_from(a, 0);
}

proof fn lemma_bytes_le_total_from(a: Seq<u8>, b: Seq<u8>, i: int)
    ensures
        bytes_le_from(a, b, i) || bytes_le_from(b, a, i),
    decreases a.len() - i,
{
    if i < a.len() && i < b.len() && a[i] == b[i] {
        lemma_bytes_le_total_from(a, b, i + 1);
    }
}

/// Any two byte strings compare one way or the other.
pub proof fn lemma_bytes_le_total(a: Seq<u8>, b: Seq<u8>)
    ensures
        bytes_le(a, b) || bytes_le(b, a),
{
    lemma_bytes_le_total_from(a, b, 0);
}

proof fn lemma_bytes_le_antisym_from(a: Seq<u8>, b: Seq<u8>, i: int)
    requires
        0 <= i <= a.len(),
        i <= b.len(),
        bytes_le_from(a, b, i),
        bytes_le_from(b, a, i),
    ensures
        a.len() == b.len(),
        forall|j: int| i <= j < a.len() ==> a[j] == b[j],
    decreases a.len() - i,
{
    if i == a.len() {
        assert(i >= b.len());
    } else if i == b.len() {
        assert(!bytes_le_from(a, b, i));
    } else {
        assert(a[i] == b[i]);
        lemma_bytes_le_antisym_from(a, b, i + 1);
    }
}

/// Two byte strings that compare both ways are the same string.
pub proof fn lemma_bytes_le_antisym(a: Seq<u8>, b: Seq<u8>)
    requires
        bytes_le(a, b),
        bytes_le(b, a),
    ensures
        a == b,
{
    lemma_bytes_le_antisym_from(a, b, 0);
    assert(a =~= b);
}

proof fn lemma_bytes_le_trans_from(a: Seq<u8>, b: Seq<u8>, c: Seq<u8>, i: int)
    requires
        bytes_le_from(a, b, i),
        bytes_le_from(b, c, i),
    ensures
        bytes_le_from(a, c, i),
    decreases a.len() - i,
{
    if i < a.len() {
        assert(i < b.len());
        assert(i < c.len());
        if a[i] == b[i] && b[i] == c[i] {
            lemma_bytes_le_trans_from(a, b, c, i + 1);
        }
    }
}

/// The order is transitive.
pub proof fn lemma_bytes_le_trans(a: Seq<u8>, b: Seq<u8>, c: Seq<u8>)
    requires
        bytes_le(a, b),
        bytes_le(b, c),
    ensures
        bytes_le(a, c),
{
    lemma_bytes_le_trans_from(a, b, c, 0);
}

/// The UTF-8 bytes of a string, the identity under which peer ids are
/// compared, ordered and hashed.
pub open spec fn str_bytes(s: Seq<char>) -> Seq<u8> {
    encode_utf8(s)
}

/// Compares two strings in lexicographic UTF-8 byte order.
fn str_le(a: &String, b: &String) -> (r: bool)
    ensures
        r == bytes_le(str_bytes(a@), str_bytes(b@)),
{
    let ab = a.as_str().as_bytes();
    let bb = b.as_str().as_bytes();
    let mut i: usize = 0;
    while i < ab.len() && i < bb.len()
        invariant
            0 <= i <= ab@.len(),
            i <= bb@.len(),
            ab@ == str_bytes(a@),
            bb@ == str_bytes(b@),
            bytes_le(ab@, bb@) == bytes_le_from(ab@, bb@, i as int),
        decreases ab@.len() - i,
    {
        if ab[i] < bb[i] {
            return true;
        }
        if ab[i] > bb[i] {
            return false;
        }
        i = i + 1;
    }
    i >= ab.len()
}

/// Whether two strings have identical UTF-8 bytes.
fn str_eq_bytes(a: &String, b: &String) -> (r: bool)
    ensures
        r == (str_bytes(a@) == str_bytes(b@)),
{
    let le1 = str_le(a, b);
    let le2 = str_le(b, a);
    proof {
        if le1 && le2 {
            lemma_bytes_le_antisym(str_bytes(a@), str_bytes(b@));
        }
        if str_bytes(a@) == str_bytes(b@) {
            lemma_bytes_le_refl(str_bytes(a@));
        }
    }
    le1 && le2
}

/// Mathematical value of a peer record.
pub ghost struct PeerValue {
    /// The peer's unique id, as its UTF-8 bytes.
    pub id: Seq<u8>,
    /// Where the peer can be reached.
    pub address: Seq<char>,
    /// The part the peer plays in the tree.
    pub role: NodeRole,
    /// The last moment, in seconds, this directory heard evidence the peer
    /// is alive.
    pub last_seen: int,
}

/// One live peer as the directory records it.
pub struct PeerInfo {
    /// The peer's unique id.
    pub id: String,
    /// Where the peer can be reached.
    pub address: String,
    /// The part the peer plays in the tree.
    pub role: NodeRole,
    /// Seconds timestamp of the last liveness evidence.
    pub last_seen: u64,
}

impl View for PeerInfo {
    type V = PeerValue;

    open spec fn view(&self) -> PeerValue {
        PeerValue {
            id: str_bytes(self.id@),
            address: self.address@,
            role: self.role,
            last_seen: self.last_seen as int,
        }
    }
}

impl Clone for PeerInfo {
    fn clone(&self) -> (r: Self)
        ensures
            r@ == self@,
    {
        PeerInfo {
            id: self.id.clone(),
            address: self.address.clone(),
            role: self.role,
            last_seen: self.last_seen,
        }
    }
}

/// The node's place in the aggregation tree: who it reports to, whom it
/// aggregates for, and whether it is the root. A pure, recomputable
/// projection of the peer snapshot plus the local identity; never stored.
pub struct Topology {
    /// The parameter server this node reports its combined gradient to, or
    /// nothing for a root or an orphan.
    pub parent: Option<PeerInfo>,
    /// The peers whose results this node aggregates. Populated by inbound
    /// registration, which is outside this core, so the builder leaves it
    /// empty.
    pub children: Vec<PeerInfo>,
    /// Whether this node is a tree root (a parameter server).
    pub is_root: bool,
}


/// The record values of a list of peer records, in order.
pub open spec fn views_of(s: Seq<PeerInfo>) -> Seq<PeerValue> {
    Seq::new(s.len(), |i: int| s[i]@)
}

/// The character sequences of a list of strings, in order.
pub open spec fn strs_of(s: Seq<String>) -> Seq<Seq<char>> {
    Seq::new(s.len(), |i: int| s[i]@)
}

/// The records that survive a purge at `now` with time-to-live `ttl`.
pub open spec fn fresh_pred(now: int, ttl: int) -> spec_fn(PeerValue) -> bool {
    |p: PeerValue| peer_fresh(p, now, ttl)
}

/// Mathematical state of a discovery service.
pub ghost struct DirectoryValue {
    /// The local node's id, as UTF-8 bytes.
    pub local_id: Seq<u8>,
    /// The local node's role.
    pub local_role: NodeRole,
    /// The address the local node listens on.
    pub local_addr: Seq<char>,
    /// The current peer snapshot, in table order.
    pub peers: Seq<PeerValue>,
}

/// Whether the snapshot holds a record under this id.
pub open spec fn has_peer(s: Seq<PeerValue>, id: Seq<u8>) -> bool {
    exists|i: int| 0 <= i < s.len() && (#[trigger] s[i]).id == id
}

/// The position of the record under this id.
pub open spec fn peer_index(s: Seq<PeerValue>, id: Seq<u8>) -> int {
    choose|i: int| 0 <= i < s.len() && (#[trigger] s[i]).id == id
}

/// The snapshot after registering a record: an existing record under the
/// same id is overwritten in place, a new id is appended.
pub open spec fn upsert_peer(s: Seq<PeerValue>, p: PeerValue) -> Seq<PeerValue> {
    if has_peer(s, p.id) {
        s.update(peer_index(s, p.id), p)
    } else {
        s.push(p)
    }
}

/// How one gossiped record changes the snapshot: the local node is never
/// recorded; a known peer only has its `last_seen` refreshed (the sender's
/// timestamp is never trusted, receipt itself is the liveness evidence); an
/// unknown peer is inserted with `last_seen = now`.
pub open spec fn gossip_step(s: Seq<PeerValue>, p: PeerValue, local_id: Seq<u8>, now: int) -> Seq<
    PeerValue,
> {
    if p.id == local_id {
        s
    } else if has_peer(s, p.id) {
        let i = peer_index(s, p.id);
        s.update(i, PeerValue { last_seen: now, ..s[i] })
    } else {
        s.push(PeerValue { id: p.id, address: p.address, role: p.role, last_seen: now })
    }
}

/// The snapshot after processing a whole gossip message, record by record.
pub open spec fn gossip_fold(
    s: Seq<PeerValue>,
    incoming: Seq<PeerValue>,
    local_id: Seq<u8>,
    now: int,
) -> Seq<PeerValue>
    decreases incoming.len(),
{
    if incoming.len() == 0 {
        s
    } else {
        gossip_step(gossip_fold(s, incoming.drop_last(), local_id, now), incoming.last(), local_id, now)
    }
}

/// A peer's age: how long ago its last liveness evidence was recorded. A
/// stamp from the future counts as age zero.
pub open spec fn peer_age(now: int, last_seen: int) -> int {
    if now >= last_seen {
        now - last_seen
    } else {
        0
    }
}

/// Whether a record survives a purge at time `now` with the given TTL.
pub open spec fn peer_fresh(p: PeerValue, now: int, ttl: int) -> bool {
    peer_age(now, p.last_seen) <= ttl
}

/// No two records share an id.
pub open spec fn peer_ids_unique(s: Seq<PeerValue>) -> bool {
    forall|i: int, j: int| 0 <= i < j < s.len() ==> (#[trigger] s[i]).id != (#[trigger] s[j]).id
}

/// Whether `targets` could be a gossip fan-out drawn from `peers`: the
/// addresses of distinct records, chosen without replacement.
pub open spec fn is_target_sample(targets: Seq<Seq<char>>, peers: Seq<PeerValue>) -> bool {
    exists|picks: Seq<int>|
        {
            &&& picks.len() == targets.len()
            &&& forall|j: int| 0 <= j < picks.len() ==> 0 <= #[trigger] picks[j] < peers.len()
            &&& forall|j: int, k: int| 0 <= j < k < picks.len() ==> picks[j] != picks[k]
            &&& forall|j: int|
                0 <= j < targets.len() ==> #[trigger] targets[j] == peers[picks[j]].address
        }
}

/// Relies on `rand::seq::index::sample`: draws exactly `k` distinct indices
/// uniformly from `0..n`, in random order, panicking only when `k > n`.
#[verifier::external_body]
fn sample_indices(n: usize, k: usize) -> (r: Vec<usize>)
    requires
        k <= n,
    ensures
        r@.len() == k,
        forall|i: int| 0 <= i < r@.len() ==> #[trigger] r@[i] < n,
        forall|i: int, j: int| 0 <= i < j < r@.len() ==> r@[i] != r@[j],
{
    rand::seq::index::sample(&mut rand::thread_rng(), n, k).into_vec()
}

/// Filtering a snapshot cannot introduce a duplicate id.
proof fn lemma_unique_ids_filter(s: Seq<PeerValue>, pred: spec_fn(PeerValue) -> bool)
    requires
        peer_ids_unique(s),
    ensures
        peer_ids_unique(s.filter(pred)),
    decreases s.len(),
{
    reveal(Seq::filter);
    if s.len() > 0 {
        let t = s.drop_last();
        assert(peer_ids_unique(t)) by {
            assert forall|i: int, j: int| 0 <= i < j < t.len() implies (#[trigger] t[i]).id != (
            #[trigger] t[j]).id by {
                assert(s[i].id != s[j].id);
            }
        }
        lemma_unique_ids_filter(t, pred);
        if pred(s.last()) {
            assert(s.filter(pred) == t.filter(pred).push(s.last()));
            let f = t.filter(pred);
            assert forall|i: int, j: int|
                0 <= i < j < s.filter(pred).len() implies (#[trigger] s.filter(pred)[i]).id != (
            #[trigger] s.filter(pred)[j]).id by {
                if j < f.len() {
                    assert(f[i].id != f[j].id);
                } else {
                    assert(s.filter(pred)[j] == s.last());
                    assert(f.contains(f[i]));
                    t.lemma_filter_contains_rev(pred, f[i]);
                    let k = choose|k: int| 0 <= k < t.len() && t[k] == f[i];
                    assert(s[k].id != s.last().id);
                }
            }
        } else {
            assert(s.filter(pred) == t.filter(pred));
        }
    }
}

/// Locates a peer record by id.
fn find_peer_index(peers: &Vec<PeerInfo>, id: &String) -> (r: Option<usize>)
    ensures
        match r {
            Some(i) => i < peers@.len() && peers@[i as int]@.id == str_bytes(id@),
            None => forall|j: int|
                0 <= j < peers@.len() ==> (#[trigger] peers@[j])@.id != str_bytes(id@),
        },
{
    let mut i: usize = 0;
    while i < peers.len()
        invariant
            0 <= i <= peers@.len(),
            forall|j: int| 0 <= j < i ==> (#[trigger] peers@[j])@.id != str_bytes(id@),
        decreases peers@.len() - i,
    {
        if str_eq_bytes(&peers[i].id, id) {
            return Some(i);
        }
        i = i + 1;
    }
    None
}

/// The live-peer table and the local identity it serves: the node's view of
/// who exists, where to reach them, and when each was last heard from.
pub struct DiscoveryService {
    local_id: String,
    local_role: NodeRole,
    local_addr: String,
    peers: Vec<PeerInfo>,
}

impl View for DiscoveryService {
    type V = DirectoryValue;

    closed spec fn view(&self) -> DirectoryValue {
        DirectoryValue {
            local_id: str_bytes(self.local_id@),
            local_role: self.local_role,
            local_addr: self.local_addr@,
            peers: views_of(self.peers@),
        }
    }
}

impl DiscoveryService {
    /// One record per peer id.
    pub open spec fn wf(&self) -> bool {
        peer_ids_unique(self@.peers)
    }

    /// A directory for the given local identity, with no peers known yet.
    pub fn new(id: String, role: NodeRole, addr: String) -> (r: Self)
        ensures
            r.wf(),
            r@.local_id == str_bytes(id@),
            r@.local_role == role,
            r@.local_addr == addr@,
            r@.peers == Seq::<PeerValue>::empty(),
    {
        let r = DiscoveryService { local_id: id, local_role: role, local_addr: addr, peers: Vec::new() };
        proof {
            assert(r@.peers =~= Seq::<PeerValue>::empty());
        }
        r
    }

    /// The local node's id.
    pub fn local_id(&self) -> (id: &String)
        ensures
            str_bytes(id@) == self@.local_id,
    {
        &self.local_id
    }

    /// The local node's role.
    pub fn local_role(&self) -> (role: NodeRole)
        ensures
            role == self@.local_role,
    {
        self.local_role
    }

    /// Registers or refreshes a record under `id` with a fresh `last_seen`,
    /// overwriting whatever the directory knew about that id.
    fn upsert(&mut self, id: String, addr: String, role: NodeRole, now: u64)
        requires
            old(self).wf(),
        ensures
            final(self).wf(),
            final(self)@ == (DirectoryValue {
                peers: upsert_peer(
                    old(self)@.peers,
                    PeerValue {
                        id: str_bytes(id@),
                        address: addr@,
                        role: role,
                        last_seen: now as int,
                    },
                ),
                ..old(self)@
            }),
    {
        let ghost v0 = self@.peers;
        let ghost pv = PeerValue {
            id: str_bytes(id@),
            address: addr@,
            role: role,
            last_seen: now as int,
        };
        let record = PeerInfo { id, address: addr, role, last_seen: now };
        match find_peer_index(&self.peers, &record.id) {
            Some(i) => {
                let _old = self.peers.remove(i);
                self.peers.insert(i, record);
                proof {
                    assert(v0[i as int].id == pv.id);
                    assert(has_peer(v0, pv.id));
                    let k = peer_index(v0, pv.id);
                    assert(v0[k].id == pv.id);
                    assert(k == i as int) by {
                        if k != i as int {
                            if k < i as int {
                                assert(v0[k].id != v0[i as int].id);
                            } else {
                                assert(v0[i as int].id != v0[k].id);
                            }
                        }
                    }
                    assert(self@.peers =~= v0.update(i as int, pv));
                    assert forall|x: int, y: int|
                        0 <= x < y < self@.peers.len() implies (#[trigger] self@.peers[x]).id != (
                    #[trigger] self@.peers[y]).id by {
                        assert(v0[x].id != v0[y].id);
                    }
                }
            },
            None => {
                self.peers.push(record);
                proof {
                    assert(!has_peer(v0, pv.id));
                    assert(self@.peers =~= v0.push(pv));
                    assert forall|x: int, y: int|
                        0 <= x < y < self@.peers.len() implies (#[trigger] self@.peers[x]).id != (
                    #[trigger] self@.peers[y]).id by {
                        if y < v0.len() {
                            assert(v0[x].id != v0[y].id);
                        } else {
                            assert(self@.peers[y] == pv);
                            assert(v0[x].id != pv.id);
                        }
                    }
                }
            },
        }
    }

    /// Injects an initial seed peer when bootstrapping into a cluster.
    pub fn add_seed_peer(&mut self, id: String, addr: String, role: NodeRole, now: u64)
        requires
            old(self).wf(),
        ensures
            final(self).wf(),
            final(self)@ == (DirectoryValue {
                peers: upsert_peer(
                    old(self)@.peers,
                    PeerValue {
                        id: str_bytes(id@),
                        address: addr@,
                        role: role,
                        last_seen: now as int,
                    },
                ),
                ..old(self)@
            }),
    {
        self.upsert(id, addr, role, now)
    }

    /// Records a heartbeat: the peer is alive at `now`, at this address, in
    /// this role. An expired id that reappears is simply a new discovery.
    pub fn register_heartbeat(&mut self, id: String, addr: String, role: NodeRole, now: u64)
        requires
            old(self).wf(),
        ensures
            final(self).wf(),
            final(self)@ == (DirectoryValue {
                peers: upsert_peer(
                    old(self)@.peers,
                    PeerValue {
                        id: str_bytes(id@),
                        address: addr@,
                        role: role,
                        last_seen: now as int,
                    },
                ),
                ..old(self)@
            }),
    {
        self.upsert(id, addr, role, now)
    }

    /// Hard-deletes every record whose age at `now` exceeds `ttl`; no
    /// tombstones, so a later heartbeat for the same id is a brand-new
    /// discovery.
    pub fn purge_dead_peers(&mut self, now: u64, ttl: u64)
        requires
            old(self).wf(),
        ensures
            final(self).wf(),
            final(self)@ == (DirectoryValue {
                peers: old(self)@.peers.filter(fresh_pred(now as int, ttl as int)),
                ..old(self)@
            }),
    {
        let ghost v0 = self@.peers;
        let ghost pred = fresh_pred(now as int, ttl as int);
        let mut kept: Vec<PeerInfo> = Vec::new();
        let mut i: usize = 0;
        while i < self.peers.len()
            invariant
                0 <= i <= self.peers@.len(),
                v0 == views_of(self.peers@),
                views_of(kept@) =~= v0.subrange(0, i as int).filter(pred),
                pred == fresh_pred(now as int, ttl as int),
            decreases self.peers@.len() - i,
        {
            let age = if now >= self.peers[i].last_seen {
                now - self.peers[i].last_seen
            } else {
                0
            };
            proof {
                reveal(Seq::filter);
                assert(age as int == peer_age(now as int, v0[i as int].last_seen));
                assert(v0.subrange(0, i + 1 as int).drop_last() =~= v0.subrange(0, i as int));
                assert(v0.subrange(0, i + 1 as int).last() == v0[i as int]);
            }
            if age <= ttl {
                kept.push(self.peers[i].clone());
            }
            i = i + 1;
            proof {
                reveal(Seq::filter);
                assert(views_of(kept@) =~= v0.subrange(0, i as int).filter(pred));
            }
        }
        proof {
            assert(v0.subrange(0, v0.len() as int) =~= v0);
        }
        self.peers = kept;
        proof {
            lemma_unique_ids_filter(v0, pred);
        }
    }

    /// Processes one incoming gossip message: every record about someone
    /// other than the local node either refreshes a known peer's liveness or
    /// registers a new discovery stamped with the local clock.
    pub fn handle_gossip(&mut self, incoming_peers: Vec<PeerInfo>, now: u64)
        requires
            old(self).wf(),
        ensures
            final(self).wf(),
            final(self)@ == (DirectoryValue {
                peers: gossip_fold(
                    old(self)@.peers,
                    views_of(incoming_peers@),
                    old(self)@.local_id,
                    now as int,
                ),
                ..old(self)@
            }),
    {
        let ghost v0 = self@.peers;
        let ghost inc = views_of(incoming_peers@);
        let ghost lid = self@.local_id;
        let mut i: usize = 0;
        while i < incoming_peers.len()
            invariant
                0 <= i <= incoming_peers@.len(),
                inc == views_of(incoming_peers@),
                lid == str_bytes(self.local_id@),
                self@.local_id == lid,
                self@.local_role == old(self)@.local_role,
                self@.local_addr == old(self)@.local_addr,
                self@.peers =~= gossip_fold(v0, inc.subrange(0, i as int), lid, now as int),
                peer_ids_unique(self@.peers),
            decreases incoming_peers@.len() - i,
        {
            let ghost before = self@.peers;
            proof {
                assert(inc.subrange(0, i + 1 as int).drop_last() =~= inc.subrange(0, i as int));
                assert(inc.subrange(0, i + 1 as int).last() == inc[i as int]);
            }
            let p = &incoming_peers[i];
            if !str_eq_bytes(&p.id, &self.local_id) {
                match find_peer_index(&self.peers, &p.id) {
                    Some(j) => {
                        let mut rec = self.peers.remove(j);
                        rec.last_seen = now;
                        self.peers.insert(j, rec);
                        proof {
                            assert(before[j as int].id == inc[i as int].id);
                            assert(has_peer(before, inc[i as int].id));
                            let k = peer_index(before, inc[i as int].id);
                            assert(before[k].id == inc[i as int].id);
                            assert(k == j as int) by {
                                if k != j as int {
                                    if k < j as int {
                                        assert(before[k].id != before[j as int].id);
                                    } else {
                                        assert(before[j as int].id != before[k].id);
                                    }
                                }
                            }
                            assert(self@.peers =~= before.update(
                                j as int,
                                PeerValue { last_seen: now as int, ..before[j as int] },
                            ));
                            assert forall|x: int, y: int|
                                0 <= x < y < self@.peers.len() implies (
                            #[trigger] self@.peers[x]).id != (#[trigger] self@.peers[y]).id by {
                                assert(before[x].id != before[y].id);
                            }
                        }
                    },
                    None => {
                        self.peers.push(
                            PeerInfo {
                                id: p.id.clone(),
                                address: p.address.clone(),
                                role: p.role,
                                last_seen: now,
                            },
                        );
                        proof {
                            assert(!has_peer(before, inc[i as int].id));
                            assert(self@.peers =~= before.push(
                                PeerValue {
                                    id: inc[i as int].id,
                                    address: inc[i as int].address,
                                    role: inc[i as int].role,
                                    last_seen: now as int,
                                },
                            ));
                            assert forall|x: int, y: int|
                                0 <= x < y < self@.peers.len() implies (
                            #[trigger] self@.peers[x]).id != (#[trigger] self@.peers[y]).id by {
                                if y < before.len() {
                                    assert(before[x].id != before[y].id);
                                } else {
                                    assert(before[x].id != inc[i as int].id);
                                }
                            }
                        }
                    },
                }
            }
            i = i + 1;
        }
        proof {
            assert(inc.subrange(0, inc.len() as int) =~= inc);
        }
    }

    /// Chooses up to `fanout` gossip targets uniformly at random without
    /// replacement from the live set, and snapshots the full table to send
    /// them: deliberate full-state gossip.
    pub fn generate_gossip(&self, fanout: usize) -> (r: (Vec<String>, Vec<PeerInfo>))
        ensures
            views_of(r.1@) == self@.peers,
            r.0@.len() == if fanout <= self@.peers.len() {
                fanout as int
            } else {
                self@.peers.len() as int
            },
            is_target_sample(strs_of(r.0@), self@.peers),
    {
        let n = self.peers.len();
        let k = if fanout < n {
            fanout
        } else {
            n
        };
        let picks = sample_indices(n, k);
        let mut targets: Vec<String> = Vec::new();
        let mut i: usize = 0;
        while i < picks.len()
            invariant
                0 <= i <= picks@.len(),
                n == self.peers@.len(),
                forall|j: int| 0 <= j < picks@.len() ==> #[trigger] picks@[j] < n,
                forall|j: int, l: int| 0 <= j < l < picks@.len() ==> picks@[j] != picks@[l],
                targets@.len() == i,
                forall|j: int|
                    0 <= j < i ==> (#[trigger] targets@[j])@ == self@.peers[picks@[j] as int].address,
            decreases picks@.len() - i,
        {
            targets.push(self.peers[picks[i]].address.clone());
            i = i + 1;
        }
        let mut snapshot: Vec<PeerInfo> = Vec::new();
        let mut j: usize = 0;
        while j < self.peers.len()
            invariant
                0 <= j <= self.peers@.len(),
                views_of(snapshot@) =~= self@.peers.subrange(0, j as int),
            decreases self.peers@.len() - j,
        {
            let ghost prev = snapshot@;
            let item = self.peers[j].clone();
            proof {
                assert(item@ == self.peers@[j as int]@);
            }
            snapshot.push(item);
            j = j + 1;
            proof {
                assert(views_of(prev) == self@.peers.subrange(0, j - 1));
                assert(prev.len() == j - 1);
                assert(snapshot@.len() == j as int);
                assert forall|idx: int| 0 <= idx < j as int implies views_of(snapshot@)[idx]
                    == self@.peers.subrange(0, j as int)[idx] by {
                    assert(views_of(snapshot@)[idx] == snapshot@[idx]@);
                    if idx < j - 1 {
                        assert(snapshot@[idx] == prev[idx]);
                        assert(views_of(prev)[idx] == prev[idx]@);
                        assert(views_of(prev)[idx] == self@.peers.subrange(0, j - 1)[idx]);
                        assert(self@.peers.subrange(0, j - 1)[idx] == self@.peers[idx]);
                    } else {
                        assert(snapshot@[idx] == item);
                        assert(snapshot@[idx]@ == self@.peers[idx]);
                    }
                    assert(self@.peers.subrange(0, j as int)[idx] == self@.peers[idx]);
                }
                assert(views_of(snapshot@) =~= self@.peers.subrange(0, j as int));
            }
        }
        proof {
            assert(self@.peers.subrange(0, self@.peers.len() as int) =~= self@.peers);
            assert(views_of(snapshot@) =~= self@.peers);
            let picks_int = Seq::new(picks@.len(), |j: int| picks@[j] as int);
            assert(is_target_sample(strs_of(targets@), self@.peers)) by {
                assert(picks_int.len() == strs_of(targets@).len());
                assert(forall|j: int|
                    0 <= j < picks_int.len() ==> 0 <= #[trigger] picks_int[j]
                        < self@.peers.len());
                assert forall|j: int, l: int| 0 <= j < l < picks_int.len() implies picks_int[j]
                    != picks_int[l] by {
                    assert(picks@[j] != picks@[l]);
                }
                let tv = strs_of(targets@);
                assert(forall|j: int|
                    0 <= j < tv.len() ==> #[trigger] tv[j] == self@.peers[picks_int[j]].address);
            }
        }
        (targets, snapshot)
    }
}


/// The parameter-server records of a snapshot.
pub open spec fn ps_pred() -> spec_fn(PeerValue) -> bool {
    |p: PeerValue| p.role is ParameterServer
}

/// Records ranked by id, in lexicographic UTF-8 byte order.
pub open spec fn sorted_by_id(s: Seq<PeerValue>) -> bool {
    forall|i: int, j: int|
        0 <= i < j < s.len() ==> bytes_le((#[trigger] s[i]).id, (#[trigger] s[j]).id)
}

/// A record inserted into a ranked sequence at its ordered position.
pub open spec fn insert_ranked(t: Seq<PeerValue>, x: PeerValue) -> Seq<PeerValue>
    decreases t.len(),
{
    if t.len() == 0 {
        seq![x]
    } else if bytes_le(x.id, t.first().id) {
        seq![x] + t
    } else {
        seq![t.first()] + insert_ranked(t.drop_first(), x)
    }
}

/// Ordered insertion keeps a ranked sequence ranked and adds exactly the new
/// record.
proof fn lemma_insert_ranked(t: Seq<PeerValue>, x: PeerValue)
    requires
        sorted_by_id(t),
    ensures
        sorted_by_id(insert_ranked(t, x)),
        insert_ranked(t, x).to_multiset() == t.to_multiset().insert(x),
        insert_ranked(t, x).len() == t.len() + 1,
    decreases t.len(),
{
    broadcast use vstd::seq_lib::group_to_multiset_ensures;

    let r = insert_ranked(t, x);
    if t.len() == 0 {
        assert(seq![x] =~= Seq::<PeerValue>::empty().push(x));
        assert(t.to_multiset() =~= Multiset::<PeerValue>::empty());
        assert(r.to_multiset() == t.to_multiset().insert(x));
    } else if bytes_le(x.id, t.first().id) {
        assert forall|i: int, j: int| 0 <= i < j < r.len() implies bytes_le(
            (#[trigger] r[i]).id,
            (#[trigger] r[j]).id,
        ) by {
            if i == 0 {
                assert(r[j] == t[j - 1]);
                if j - 1 > 0 {
                    assert(bytes_le(t[0].id, t[j - 1].id));
                    lemma_bytes_le_trans(x.id, t[0].id, t[j - 1].id);
                } else {
                    assert(bytes_le(x.id, t[0].id));
                }
            } else {
                assert(r[i] == t[i - 1] && r[j] == t[j - 1]);
            }
        }
        vstd::seq_lib::lemma_multiset_commutative(seq![x], t);
        assert(seq![x] =~= Seq::<PeerValue>::empty().push(x));
        assert(r.to_multiset() =~= t.to_multiset().insert(x));
    } else {
        lemma_bytes_le_total(x.id, t.first().id);
        assert(bytes_le(t.first().id, x.id));
        let t1 = t.drop_first();
        assert(sorted_by_id(t1)) by {
            assert forall|i: int, j: int| 0 <= i < j < t1.len() implies bytes_le(
                (#[trigger] t1[i]).id,
                (#[trigger] t1[j]).id,
            ) by {
                assert(t1[i] == t[i + 1] && t1[j] == t[j + 1]);
            }
        }
        lemma_insert_ranked(t1, x);
        let rec = insert_ranked(t1, x);
        assert(r == seq![t.first()] + rec);
        // every record of the inserted tail sits at or after the old head
        assert forall|j: int| 0 <= j < rec.len() implies bytes_le(
            t.first().id,
            (#[trigger] rec[j]).id,
        ) by {
            assert(rec.contains(rec[j]));
            assert(rec.to_multiset().count(rec[j]) > 0);
            if rec[j] == x {
                assert(bytes_le(t.first().id, x.id));
            } else {
                assert(t1.to_multiset().count(rec[j]) > 0);
                assert(t1.contains(rec[j]));
                let k = choose|k: int| 0 <= k < t1.len() && t1[k] == rec[j];
                assert(t1[k] == t[k + 1]);
                assert(bytes_le(t[0].id, t[k + 1].id));
            }
        }
        assert forall|i: int, j: int| 0 <= i < j < r.len() implies bytes_le(
            (#[trigger] r[i]).id,
            (#[trigger] r[j]).id,
        ) by {
            if i == 0 {
                assert(r[j] == rec[j - 1]);
            } else {
                assert(r[i] == rec[i - 1] && r[j] == rec[j - 1]);
            }
        }
        vstd::seq_lib::lemma_multiset_commutative(seq![t.first()], rec);
        vstd::seq_lib::lemma_multiset_commutative(seq![t.first()], t1);
        assert(t =~= seq![t.first()] + t1);
        assert(seq![t.first()] =~= Seq::<PeerValue>::empty().push(t.first()));
        assert(r.to_multiset() =~= t.to_multiset().insert(x));
    }
}

/// Every snapshot has a ranked permutation.
proof fn lemma_ranked_exists(s: Seq<PeerValue>)
    ensures
        exists|t: Seq<PeerValue>|
            sorted_by_id(t) && #[trigger] t.to_multiset() == s.to_multiset(),
    decreases s.len(),
{
    broadcast use vstd::seq_lib::group_to_multiset_ensures;

    if s.len() == 0 {
        let w = Seq::<PeerValue>::empty();
        assert(sorted_by_id(w) && w.to_multiset() == s.to_multiset()) by {
            assert(w.to_multiset() =~= s.to_multiset());
        }
    } else {
        lemma_ranked_exists(s.drop_last());
        let t0 = choose|t: Seq<PeerValue>|
            sorted_by_id(t) && #[trigger] t.to_multiset() == s.drop_last().to_multiset();
        lemma_insert_ranked(t0, s.last());
        let w = insert_ranked(t0, s.last());
        assert(s =~= s.drop_last().push(s.last()));
        assert(s.drop_last().push(s.last()).to_multiset() == s.drop_last().to_multiset().insert(
            s.last(),
        ));
        assert(w.to_multiset() == s.to_multiset());
    }
}

/// Reordering a snapshot cannot introduce a duplicate id.
proof fn lemma_unique_ids_via_multiset(s: Seq<PeerValue>, t: Seq<PeerValue>)
    requires
        peer_ids_unique(s),
        t.to_multiset() == s.to_multiset(),
    ensures
        peer_ids_unique(t),
    decreases t.len(),
{
    broadcast use vstd::seq_lib::group_to_multiset_ensures;

    if t.len() > 0 {
        let x = t[0];
        assert(t.contains(x));
        assert(s.to_multiset().count(x) > 0);
        assert(s.contains(x));
        let k = choose|k: int| 0 <= k < s.len() && s[k] == x;
        let s1 = s.remove(k);
        let t1 = t.remove(0);
        assert(s1.to_multiset() == s.to_multiset().remove(x));
        assert(t1.to_multiset() == t.to_multiset().remove(x));
        assert(peer_ids_unique(s1)) by {
            assert forall|i: int, j: int| 0 <= i < j < s1.len() implies (#[trigger] s1[i]).id != (
            #[trigger] s1[j]).id by {
                let i0 = if i < k {
                    i
                } else {
                    i + 1
                };
                let j0 = if j < k {
                    j
                } else {
                    j + 1
                };
                assert(s1[i] == s[i0] && s1[j] == s[j0]);
                assert(s[i0].id != s[j0].id);
            }
        }
        lemma_unique_ids_via_multiset(s1, t1);
        assert forall|j: int| 1 <= j < t.len() implies (#[trigger] t[j]).id != t[0].id by {
            if t[j].id == t[0].id {
                let y = t[j];
                assert(t1[j - 1] == y);
                assert(t1.contains(y));
                assert(s1.to_multiset().count(y) > 0);
                assert(s1.contains(y));
                let m = choose|m: int| 0 <= m < s1.len() && s1[m] == y;
                let m0 = if m < k {
                    m
                } else {
                    m + 1
                };
                assert(s1[m] == s[m0]);
                assert(m0 != k);
                assert(s[m0].id == y.id && s[k].id == x.id);
                if m0 < k {
                    assert(s[m0].id != s[k].id);
                } else {
                    assert(s[k].id != s[m0].id);
                }
            }
        }
        assert forall|i: int, j: int| 0 <= i < j < t.len() implies (#[trigger] t[i]).id != (
        #[trigger] t[j]).id by {
            if i == 0 {
                assert(t[j].id != t[0].id);
            } else {
                assert(t1[i - 1] == t[i] && t1[j - 1] == t[j]);
                assert(t1[i - 1].id != t1[j - 1].id);
            }
        }
    }
}

/// A multiset of records with unique ids has exactly one ranked arrangement.
proof fn lemma_ranked_unique(s: Seq<PeerValue>, t: Seq<PeerValue>)
    requires
        sorted_by_id(s),
        sorted_by_id(t),
        s.to_multiset() == t.to_multiset(),
        peer_ids_unique(s),
    ensures
        s == t,
    decreases s.len(),
{
    broadcast use vstd::seq_lib::group_to_multiset_ensures;

    assert(s.len() == s.to_multiset().len());
    assert(t.len() == t.to_multiset().len());
    if s.len() == 0 {
        assert(s =~= t);
    } else {
        assert(s.contains(s[0]));
        assert(t.to_multiset().count(s[0]) > 0);
        assert(t.contains(s[0]));
        let k = choose|k: int| 0 <= k < t.len() && t[k] == s[0];
        assert(s.to_multiset().count(t[0]) > 0);
        assert(s.contains(t[0]));
        let m = choose|m: int| 0 <= m < s.len() && s[m] == t[0];
        assert(bytes_le(t[0].id, s[0].id)) by {
            if k > 0 {
                assert(bytes_le(t[0].id, t[k].id));
            } else {
                lemma_bytes_le_refl(t[0].id);
            }
        }
        assert(bytes_le(s[0].id, t[0].id)) by {
            if m > 0 {
                assert(bytes_le(s[0].id, s[m].id));
            } else {
                lemma_bytes_le_refl(s[0].id);
            }
        }
        lemma_bytes_le_antisym(s[0].id, t[0].id);
        assert(m == 0) by {
            if m > 0 {
                assert(s[0].id != s[m].id);
            }
        }
        assert(s[0] == t[0]);
        let s1 = s.remove(0);
        let t1 = t.remove(0);
        assert(s1.to_multiset() == s.to_multiset().remove(s[0]));
        assert(t1.to_multiset() == t.to_multiset().remove(t[0]));
        assert(sorted_by_id(s1)) by {
            assert forall|i: int, j: int| 0 <= i < j < s1.len() implies bytes_le(
                (#[trigger] s1[i]).id,
                (#[trigger] s1[j]).id,
            ) by {
                assert(s1[i] == s[i + 1] && s1[j] == s[j + 1]);
            }
        }
        assert(sorted_by_id(t1)) by {
            assert forall|i: int, j: int| 0 <= i < j < t1.len() implies bytes_le(
                (#[trigger] t1[i]).id,
                (#[trigger] t1[j]).id,
            ) by {
                assert(t1[i] == t[i + 1] && t1[j] == t[j + 1]);
            }
        }
        assert(peer_ids_unique(s1)) by {
            assert forall|i: int, j: int| 0 <= i < j < s1.len() implies (#[trigger] s1[i]).id != (
            #[trigger] s1[j]).id by {
                assert(s1[i] == s[i + 1] && s1[j] == s[j + 1]);
                assert(s[i + 1].id != s[j + 1].id);
            }
        }
        lemma_ranked_unique(s1, t1);
        assert forall|i: int| 0 <= i < s.len() implies s[i] == t[i] by {
            if i > 0 {
                assert(s1[i - 1] == s[i] && t1[i - 1] == t[i]);
                assert(s1[i - 1] == t1[i - 1]);
            }
        }
        assert(s =~= t);
    }
}

/// Filtering commutes with reordering: snapshots holding the same records
/// select the same parameter-server multiset.
proof fn lemma_filter_multiset(s: Seq<PeerValue>, t: Seq<PeerValue>, pred: spec_fn(PeerValue) -> bool)
    requires
        s.to_multiset() == t.to_multiset(),
    ensures
        s.filter(pred).to_multiset() == t.filter(pred).to_multiset(),
    decreases s.len(),
{
    broadcast use vstd::seq_lib::group_to_multiset_ensures;

    reveal_with_fuel(Seq::filter, 2);
    assert(s.len() == s.to_multiset().len());
    assert(t.len() == t.to_multiset().len());
    if s.len() == 0 {
        assert(s =~= t);
    } else {
        let x = s.last();
        let s1 = s.drop_last();
        assert(s1 =~= s.remove(s.len() - 1));
        assert(s.remove(s.len() - 1).to_multiset() == s.to_multiset().remove(x));
        assert(s.contains(x));
        assert(t.to_multiset().count(x) > 0);
        assert(t.contains(x));
        let k = choose|k: int| 0 <= k < t.len() && t[k] == x;
        let t1 = t.remove(k);
        assert(t1.to_multiset() == t.to_multiset().remove(x));
        lemma_filter_multiset(s1, t1, pred);
        // split t around position k and filter the three pieces
        let a = t.subrange(0, k);
        let b = t.subrange(k + 1, t.len() as int);
        assert(t =~= a + (seq![x] + b));
        assert(t1 =~= a + b);
        Seq::filter_distributes_over_add(a, seq![x] + b, pred);
        Seq::filter_distributes_over_add(seq![x], b, pred);
        Seq::filter_distributes_over_add(a, b, pred);
        assert(seq![x].drop_last() =~= Seq::<PeerValue>::empty());
        assert(seq![x].filter(pred) == if pred(x) {
            Seq::<PeerValue>::empty().push(x)
        } else {
            Seq::<PeerValue>::empty()
        });
        vstd::seq_lib::lemma_multiset_commutative(a.filter(pred), (seq![x] + b).filter(pred));
        vstd::seq_lib::lemma_multiset_commutative(seq![x].filter(pred), b.filter(pred));
        vstd::seq_lib::lemma_multiset_commutative(a.filter(pred), b.filter(pred));
        assert(s.filter(pred) == if pred(x) {
            s1.filter(pred).push(x)
        } else {
            s1.filter(pred)
        });
        if pred(x) {
            assert(seq![x].filter(pred).to_multiset() =~= Multiset::<PeerValue>::empty().insert(
                x,
            )) by {
                assert(seq![x].filter(pred) =~= Seq::<PeerValue>::empty().push(x));
            }
            assert(s.filter(pred).to_multiset() == s1.filter(pred).to_multiset().insert(x));
            assert(t.filter(pred).to_multiset() =~= t1.filter(pred).to_multiset().insert(x));
        } else {
            assert(seq![x].filter(pred).to_multiset() =~= Multiset::<PeerValue>::empty());
            assert(t.filter(pred).to_multiset() =~= t1.filter(pred).to_multiset());
        }
    }
}


/// Sorts peer records by id in lexicographic UTF-8 byte order, by selection
/// of the least remaining record.
fn rank_peers(input: Vec<PeerInfo>) -> (r: Vec<PeerInfo>)
    ensures
        sorted_by_id(views_of(r@)),
        views_of(r@).to_multiset() == views_of(input@).to_multiset(),
{
    let ghost orig = views_of(input@);
    let mut rem = input;
    let mut out: Vec<PeerInfo> = Vec::new();
    proof {
        broadcast use vstd::multiset::group_multiset_axioms;

        assert(views_of(out@) =~= Seq::<PeerValue>::empty());
        vstd::multiset::lemma_multiset_empty_len(views_of(out@).to_multiset());
        assert(views_of(out@).len() == 0);
        assert(views_of(out@).to_multiset().len() == 0) by {
            broadcast use vstd::seq_lib::group_to_multiset_ensures;
        }
        assert(views_of(out@).to_multiset() =~= Multiset::<PeerValue>::empty());
        assert(views_of(out@).to_multiset().add(views_of(rem@).to_multiset()) =~= orig.to_multiset());
    }
    while rem.len() > 0
        invariant
            views_of(out@).to_multiset().add(views_of(rem@).to_multiset())
                == orig.to_multiset(),
            sorted_by_id(views_of(out@)),
            forall|a: int, b: int|
                0 <= a < out@.len() && 0 <= b < rem@.len() ==> bytes_le(
                    (#[trigger] views_of(out@)[a]).id,
                    (#[trigger] views_of(rem@)[b]).id,
                ),
        decreases rem@.len(),
    {
        let mut best: usize = 0;
        let mut k: usize = 1;
        proof {
            lemma_bytes_le_refl(views_of(rem@)[0].id);
        }
        while k < rem.len()
            invariant
                rem@.len() > 0,
                0 <= best < k <= rem@.len(),
                forall|l: int|
                    0 <= l < k ==> bytes_le(
                        views_of(rem@)[best as int].id,
                        (#[trigger] views_of(rem@)[l]).id,
                    ),
            decreases rem@.len() - k,
        {
            if str_le(&rem[k].id, &rem[best].id) {
                proof {
                    let rv = views_of(rem@);
                    assert forall|l: int| 0 <= l < k + 1 implies bytes_le(
                        rv[k as int].id,
                        (#[trigger] rv[l]).id,
                    ) by {
                        if l < k as int {
                            lemma_bytes_le_trans(rv[k as int].id, rv[best as int].id, rv[l].id);
                        } else {
                            lemma_bytes_le_refl(rv[k as int].id);
                        }
                    }
                }
                best = k;
            } else {
                proof {
                    let rv = views_of(rem@);
                    lemma_bytes_le_total(rv[k as int].id, rv[best as int].id);
                }
            }
            k = k + 1;
        }
        proof {
            lemma_bytes_le_refl(views_of(rem@)[best as int].id);
        }
        let ghost rem_before = rem@;
        let ghost out_before = out@;
        let m = rem.remove(best);
        let ghost mv = m@;
        out.push(m);
        proof {
            broadcast use vstd::seq_lib::group_to_multiset_ensures;
            broadcast use vstd::multiset::group_multiset_axioms;

            let rv0 = views_of(rem_before);
            assert(views_of(rem@) =~= rv0.remove(best as int));
            assert(rv0.remove(best as int).to_multiset() == rv0.to_multiset().remove(mv)) by {
                assert(rv0[best as int] == mv);
            }
            assert(views_of(out@) =~= views_of(out_before).push(mv));
            assert(views_of(out_before).push(mv).to_multiset() == views_of(
                out_before,
            ).to_multiset().insert(mv));
            assert(rv0.to_multiset().count(mv) > 0) by {
                assert(rv0[best as int] == mv);
                assert(rv0.contains(mv));
            }
            assert(views_of(out@).to_multiset().add(views_of(rem@).to_multiset())
                =~= orig.to_multiset());
            // the chosen record keeps the output sorted and below the rest
            assert forall|a: int, b: int|
                0 <= a < out@.len() && 0 <= b < rem@.len() implies bytes_le(
                (#[trigger] views_of(out@)[a]).id,
                (#[trigger] views_of(rem@)[b]).id,
            ) by {
                let b0 = if b < best as int {
                    b
                } else {
                    b + 1
                };
                assert(views_of(rem@)[b] == rv0[b0]);
                if a < out_before.len() {
                    assert(views_of(out@)[a] == views_of(out_before)[a]);
                    assert(bytes_le(views_of(out_before)[a].id, rv0[b0].id));
                } else {
                    assert(views_of(out@)[a] == mv);
                    assert(bytes_le(rv0[best as int].id, rv0[b0].id));
                }
            }
            assert forall|i: int, j: int| 0 <= i < j < out@.len() implies bytes_le(
                (#[trigger] views_of(out@)[i]).id,
                (#[trigger] views_of(out@)[j]).id,
            ) by {
                if j < out_before.len() {
                    assert(views_of(out@)[i] == views_of(out_before)[i]);
                    assert(views_of(out@)[j] == views_of(out_before)[j]);
                } else {
                    assert(views_of(out@)[j] == mv);
                    assert(views_of(out@)[i] == views_of(out_before)[i]);
                    assert(bytes_le(views_of(out_before)[i].id, rv0[best as int].id));
                }
            }
        }
    }
    proof {
        broadcast use vstd::multiset::group_multiset_axioms;
        broadcast use vstd::seq_lib::group_to_multiset_ensures;

        assert(views_of(rem@) =~= Seq::<PeerValue>::empty());
        assert(views_of(rem@).to_multiset().len() == 0);
        vstd::multiset::lemma_multiset_empty_len(views_of(rem@).to_multiset());
        assert(views_of(out@).to_multiset() =~= orig.to_multiset());
    }
    out
}

/// The parameter servers of a snapshot, ranked by id: the shared ladder from
/// which every worker picks its parent. Well defined because a snapshot with
/// unique ids has exactly one ranked arrangement.
pub open spec fn ranked_ps(peers: Seq<PeerValue>) -> Seq<PeerValue> {
    choose|t: Seq<PeerValue>|
        sorted_by_id(t) && #[trigger] t.to_multiset() == peers.filter(ps_pred()).to_multiset()
}

/// The parent a worker with this id selects from a snapshot: the ranked
/// parameter server at position `hash(id) mod count`. Static rendezvous
/// sharding: no negotiation, and the assignment reshuffles only when the
/// parameter-server set changes.
pub open spec fn parent_for(peers: Seq<PeerValue>, local_id: Seq<u8>) -> PeerValue {
    let ranked = ranked_ps(peers);
    ranked[(crate::id_hash(local_id) as int) % (ranked.len() as int)]
}

impl DiscoveryService {
    /// Derives this node's place in the aggregation tree from the current
    /// snapshot. A parameter server is a root. A worker with no known
    /// parameter server is a degraded orphan, reported as a valid topology
    /// with no parent, never as an error. Any other worker deterministically
    /// mounts under `parent_for(snapshot, local_id)`.
    pub fn build_topology(&self) -> (t: Topology)
        requires
            self.wf(),
        ensures
            t.children@.len() == 0,
            t.is_root == (self@.local_role is ParameterServer),
            self@.local_role is ParameterServer ==> t.parent is None,
            self@.local_role is Worker && self@.peers.filter(ps_pred()).len() == 0 ==> t.parent
                is None,
            self@.local_role is Worker && self@.peers.filter(ps_pred()).len() > 0 ==> match t
                .parent {
                Some(p) => p@ == parent_for(self@.peers, self@.local_id),
                None => false,
            },
    {
        match self.local_role {
            NodeRole::ParameterServer => Topology {
                parent: None,
                children: Vec::new(),
                is_root: true,
            },
            NodeRole::Worker => {
                let ghost pv = self@.peers;
                let ghost pred = ps_pred();
                let mut ps: Vec<PeerInfo> = Vec::new();
                let mut i: usize = 0;
                while i < self.peers.len()
                    invariant
                        0 <= i <= self.peers@.len(),
                        pv == views_of(self.peers@),
                        pred == ps_pred(),
                        views_of(ps@) =~= pv.subrange(0, i as int).filter(pred),
                    decreases self.peers@.len() - i,
                {
                    let ghost prev = ps@;
                    proof {
                        reveal(Seq::filter);
                        assert(pv.subrange(0, i + 1 as int).drop_last() =~= pv.subrange(
                            0,
                            i as int,
                        ));
                        assert(pv.subrange(0, i + 1 as int).last() == pv[i as int]);
                    }
                    let keep = match self.peers[i].role {
                        NodeRole::ParameterServer => true,
                        NodeRole::Worker => false,
                    };
                    if keep {
                        let item = self.peers[i].clone();
                        proof {
                            assert(item@ == pv[i as int]);
                        }
                        ps.push(item);
                    }
                    i = i + 1;
                    proof {
                        reveal(Seq::filter);
                        assert forall|idx: int| 0 <= idx < ps@.len() implies views_of(ps@)[idx]
                            == pv.subrange(0, i as int).filter(pred)[idx] by {
                            if idx < prev.len() {
                                assert(ps@[idx] == prev[idx]);
                                assert(views_of(prev)[idx] == prev[idx]@);
                            }
                        }
                        assert(views_of(ps@) =~= pv.subrange(0, i as int).filter(pred));
                    }
                }
                proof {
                    assert(pv.subrange(0, pv.len() as int) =~= pv);
                }
                if ps.len() == 0 {
                    proof {
                        assert(pv.filter(pred).len() == views_of(ps@).len());
                    }
                    Topology { parent: None, children: Vec::new(), is_root: false }
                } else {
                    let ranked = rank_peers(ps);
                    let h = crate::hash_id(self.local_id.as_str());
                    let n = ranked.len();
                    proof {
                        broadcast use vstd::seq_lib::group_to_multiset_ensures;

                        let rv = views_of(ranked@);
                        assert(rv.to_multiset() == pv.filter(pred).to_multiset());
                        assert(rv.len() == rv.to_multiset().len());
                        assert(pv.filter(pred).len() == pv.filter(pred).to_multiset().len());
                        assert(n == rv.len());
                        assert(n > 0);
                    }
                    let idx = (h % (n as u64)) as usize;
                    let parent = ranked[idx].clone();
                    proof {
                        broadcast use vstd::seq_lib::group_to_multiset_ensures;

                        let rv = views_of(ranked@);
                        assert(sorted_by_id(rv) && rv.to_multiset() == pv.filter(
                            pred,
                        ).to_multiset());
                        let c = ranked_ps(pv);
                        assert(sorted_by_id(c) && c.to_multiset() == pv.filter(
                            pred,
                        ).to_multiset());
                        lemma_unique_ids_filter(pv, pred);
                        lemma_unique_ids_via_multiset(pv.filter(pred), rv);
                        lemma_ranked_unique(rv, c);
                        assert(c.len() == n);
                        assert(h == crate::id_hash(self@.local_id));
                        assert(idx as int == (crate::id_hash(self@.local_id) as int) % (
                        c.len() as int));
                        assert(parent@ == rv[idx as int]);
                        assert(parent@ == parent_for(pv, self@.local_id));
                    }
                    Topology { parent: Some(parent), children: Vec::new(), is_root: false }
                }
            },
        }
    }
}

/// Topology determinism: two directories holding the same peer records, in
/// whatever table order, and the same local worker id compute the identical
/// parent assignment.
pub proof fn lemma_topology_deterministic(
    peers1: Seq<PeerValue>,
    peers2: Seq<PeerValue>,
    local_id: Seq<u8>,
)
    requires
        peer_ids_unique(peers1),
        peers1.to_multiset() == peers2.to_multiset(),
        peers1.filter(ps_pred()).len() > 0,
    ensures
        parent_for(peers1, local_id) == parent_for(peers2, local_id),
{
    broadcast use vstd::seq_lib::group_to_multiset_ensures;

    lemma_filter_multiset(peers1, peers2, ps_pred());
    lemma_ranked_exists(peers1.filter(ps_pred()));
    let w = choose|t: Seq<PeerValue>|
        sorted_by_id(t) && #[trigger] t.to_multiset() == peers1.filter(ps_pred()).to_multiset();
    assert(sorted_by_id(w) && w.to_multiset() == peers2.filter(ps_pred()).to_multiset());
    let c1 = ranked_ps(peers1);
    let c2 = ranked_ps(peers2);
    assert(sorted_by_id(c1) && c1.to_multiset() == peers1.filter(ps_pred()).to_multiset());
    assert(sorted_by_id(c2) && c2.to_multiset() == peers2.filter(ps_pred()).to_multiset());
    lemma_unique_ids_filter(peers1, ps_pred());
    lemma_unique_ids_via_multiset(peers1.filter(ps_pred()), c1);
    lemma_ranked_unique(c1, c2);
}


/// TTL purge, first half: after a purge at `now`, the candidate pool holds
/// only records whose age is within the TTL — a peer last seen more than
/// `ttl` seconds ago is gone.
pub proof fn lemma_purged_pool_is_fresh(peers: Seq<PeerValue>, now: int, ttl: int)
    ensures
        forall|i: int|
            0 <= i < peers.filter(fresh_pred(now, ttl)).len() ==> peer_fresh(
                #[trigger] peers.filter(fresh_pred(now, ttl))[i],
                now,
                ttl,
            ),
{
    assert forall|i: int| 0 <= i < peers.filter(fresh_pred(now, ttl)).len() implies peer_fresh(
        #[trigger] peers.filter(fresh_pred(now, ttl))[i],
        now,
        ttl,
    ) by {
        peers.lemma_filter_pred(fresh_pred(now, ttl), i);
    }
}

/// TTL purge, second half: registering a heartbeat restores eligibility —
/// the snapshot after an upsert holds exactly the registered record under
/// its id.
pub proof fn lemma_upsert_registers(s: Seq<PeerValue>, p: PeerValue)
    requires
        peer_ids_unique(s),
    ensures
        has_peer(upsert_peer(s, p), p.id),
        exists|i: int|
            0 <= i < upsert_peer(s, p).len() && #[trigger] upsert_peer(s, p)[i] == p,
{
    let r = upsert_peer(s, p);
    if has_peer(s, p.id) {
        let i = peer_index(s, p.id);
        assert(0 <= i < s.len() && s[i].id == p.id);
        assert(r[i] == p);
    } else {
        assert(r[s.len() as int] == p);
    }
}

} // verus!
