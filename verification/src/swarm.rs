//! The built-in WebSocket tracker: which peers are in the swarm of each
//! info hash, which of them are seeders, and whom an announce is relayed to.
//! Connections are named by the numbers the server gives them; sending
//! messages is the server's work.
use vstd::prelude::*;

verus! {

/// One swarm: its info hash, its peers in arrival order (peer id and the
/// connection that last announced it), and the ids of its seeders.
pub struct SwarmView {
    pub info_hash: Seq<char>,
    pub peers: Seq<(Seq<char>, u64)>,
    pub complete: Seq<Seq<char>>,
}

/// What the tracker remembers of a peer: the info hashes it announced and
/// whether it ever announced completion.
pub struct MetaView {
    pub peer_id: Seq<char>,
    pub hashes: Seq<Seq<char>>,
    pub is_complete: bool,
}

pub struct TrackerView {
    pub swarms: Seq<SwarmView>,
    pub meta: Seq<MetaView>,
}

pub open spec fn peer_ids(ps: Seq<(Seq<char>, u64)>) -> Seq<Seq<char>> {
    ps.map_values(|p: (Seq<char>, u64)| p.0)
}

/// `pid` joined with connection `conn`: its entry is updated in place when
/// present, appended otherwise.
pub open spec fn upsert_peer(ps: Seq<(Seq<char>, u64)>, pid: Seq<char>, conn: u64) -> Seq<
    (Seq<char>, u64),
> {
    if peer_ids(ps).contains(pid) {
        ps.update(peer_ids(ps).index_of(pid), (pid, conn))
    } else {
        ps.push((pid, conn))
    }
}

/// `pid` taken out of the peer list.
pub open spec fn without_peer(ps: Seq<(Seq<char>, u64)>, pid: Seq<char>) -> Seq<(Seq<char>, u64)> {
    if peer_ids(ps).contains(pid) {
        ps.remove(peer_ids(ps).index_of(pid))
    } else {
        ps
    }
}

/// `x` added to a duplicate-free list when absent.
pub open spec fn set_insert(s: Seq<Seq<char>>, x: Seq<char>) -> Seq<Seq<char>> {
    if s.contains(x) {
        s
    } else {
        s.push(x)
    }
}

/// `x` taken out of a duplicate-free list.
pub open spec fn set_remove(s: Seq<Seq<char>>, x: Seq<char>) -> Seq<Seq<char>> {
    if s.contains(x) {
        s.remove(s.index_of(x))
    } else {
        s
    }
}

pub open spec fn completed_event() -> Seq<char> {
    seq!['c', 'o', 'm', 'p', 'l', 'e', 't', 'e', 'd']
}

pub open spec fn stopped_event() -> Seq<char> {
    seq!['s', 't', 'o', 'p', 'p', 'e', 'd']
}

/// A swarm after `pid` announced on connection `conn` with `event`: it is
/// registered; `completed` makes it a seeder; `stopped` takes it out of the
/// peers and the seeders.
pub open spec fn announce_swarm(s: SwarmView, pid: Seq<char>, conn: u64, event: Seq<char>) -> SwarmView {
    let ps = upsert_peer(s.peers, pid, conn);
    let cs = if event == completed_event() {
        set_insert(s.complete, pid)
    } else {
        s.complete
    };
    if event == stopped_event() {
        SwarmView { info_hash: s.info_hash, peers: without_peer(ps, pid), complete: set_remove(cs, pid) }
    } else {
        SwarmView { info_hash: s.info_hash, peers: ps, complete: cs }
    }
}

pub open spec fn empty_swarm(info_hash: Seq<char>) -> SwarmView {
    SwarmView { info_hash, peers: Seq::empty(), complete: Seq::empty() }
}

pub open spec fn has_swarm(swarms: Seq<SwarmView>, ih: Seq<char>) -> bool {
    exists|i: int| 0 <= i < swarms.len() && #[trigger] swarms[i].info_hash == ih
}

/// The position of the swarm of `ih` (meaningful when `has_swarm`).
pub open spec fn swarm_index(swarms: Seq<SwarmView>, ih: Seq<char>) -> int {
    choose|i: int| 0 <= i < swarms.len() && #[trigger] swarms[i].info_hash == ih
}

pub open spec fn has_meta(meta: Seq<MetaView>, pid: Seq<char>) -> bool {
    exists|i: int| 0 <= i < meta.len() && #[trigger] meta[i].peer_id == pid
}

pub open spec fn meta_index(meta: Seq<MetaView>, pid: Seq<char>) -> int {
    choose|i: int| 0 <= i < meta.len() && #[trigger] meta[i].peer_id == pid
}

/// The swarm of `ih` as it stands (empty when there is none).
pub open spec fn swarm_of(t: TrackerView, ih: Seq<char>) -> SwarmView {
    if has_swarm(t.swarms, ih) {
        t.swarms[swarm_index(t.swarms, ih)]
    } else {
        empty_swarm(ih)
    }
}

/// The tracker after `pid` announced `ih` on connection `conn` with `event`.
pub open spec fn tracker_announce(
    t: TrackerView,
    ih: Seq<char>,
    pid: Seq<char>,
    conn: u64,
    event: Seq<char>,
) -> TrackerView {
    let swarms = if has_swarm(t.swarms, ih) {
        let i = swarm_index(t.swarms, ih);
        t.swarms.update(i, announce_swarm(t.swarms[i], pid, conn, event))
    } else {
        t.swarms.push(announce_swarm(empty_swarm(ih), pid, conn, event))
    };
    let completed = event == completed_event();
    let meta = if has_meta(t.meta, pid) {
        let j = meta_index(t.meta, pid);
        let m = t.meta[j];
        t.meta.update(
            j,
            MetaView {
                peer_id: pid,
                hashes: set_insert(m.hashes, ih),
                is_complete: m.is_complete || completed,
            },
        )
    } else {
        t.meta.push(MetaView { peer_id: pid, hashes: seq![ih], is_complete: completed })
    };
    TrackerView { swarms, meta }
}

/// Well-formed tracker state: one swarm per info hash and one record per
/// peer; no peer or seeder listed twice; every seeder is a peer; every peer
/// of a swarm has a record that lists the swarm's info hash.
pub open spec fn tracker_wf(t: TrackerView) -> bool {
    &&& forall|i: int, j: int|
        0 <= i < t.swarms.len() && 0 <= j < t.swarms.len() && i != j ==> #[trigger] t.swarms[i].info_hash
            != #[trigger] t.swarms[j].info_hash
    &&& forall|i: int, j: int|
        0 <= i < t.meta.len() && 0 <= j < t.meta.len() && i != j ==> #[trigger] t.meta[i].peer_id
            != #[trigger] t.meta[j].peer_id
    &&& forall|i: int| 0 <= i < t.swarms.len() ==> swarm_wf(#[trigger] t.swarms[i])
    &&& forall|i: int| 0 <= i < t.meta.len() ==> (#[trigger] t.meta[i]).hashes.no_duplicates()
    &&& forall|i: int, k: int|
        0 <= i < t.swarms.len() && 0 <= k < t.swarms[i].peers.len() ==> peer_recorded(
            t.meta,
            #[trigger] t.swarms[i].peers[k].0,
            t.swarms[i].info_hash,
        )
}

pub open spec fn swarm_wf(s: SwarmView) -> bool {
    &&& peer_ids(s.peers).no_duplicates()
    &&& s.complete.no_duplicates()
    &&& forall|c: Seq<char>| #[trigger] s.complete.contains(c) ==> peer_ids(s.peers).contains(c)
}

pub open spec fn peer_recorded(meta: Seq<MetaView>, pid: Seq<char>, ih: Seq<char>) -> bool {
    exists|j: int| 0 <= j < meta.len() && #[trigger] meta[j].peer_id == pid && meta[j].hashes.contains(ih)
}

proof fn lemma_upsert(ps: Seq<(Seq<char>, u64)>, pid: Seq<char>, conn: u64)
    requires
        peer_ids(ps).no_duplicates(),
    ensures
        peer_ids(upsert_peer(ps, pid, conn)).no_duplicates(),
        forall|x: Seq<char>|
            #[trigger] peer_ids(upsert_peer(ps, pid, conn)).contains(x) <==> (peer_ids(ps).contains(x)
                || x == pid),
        forall|k: int|
            0 <= k < upsert_peer(ps, pid, conn).len() && #[trigger] upsert_peer(ps, pid, conn)[k].0
                != pid ==> k < ps.len() && upsert_peer(ps, pid, conn)[k] == ps[k],
{
    let ids = peer_ids(ps);
    let r = upsert_peer(ps, pid, conn);
    if ids.contains(pid) {
        let i = ids.index_of(pid);
        assert(peer_ids(r) =~= ids);
    } else {
        assert(peer_ids(r) =~= ids.push(pid));
    }
    assert forall|x: Seq<char>| (ids.contains(x) || x == pid) implies #[trigger] peer_ids(r).contains(x) by {
        if x == pid {
            if ids.contains(pid) {
                let i = ids.index_of(pid);
                assert(peer_ids(r)[i] == pid);
            } else {
                assert(peer_ids(r)[ps.len() as int] == pid);
            }
        } else if ids.contains(x) {
            let i = choose|i: int| 0 <= i < ids.len() && ids[i] == x;
            assert(peer_ids(r)[i] == x);
        }
    }
}

proof fn lemma_without(ps: Seq<(Seq<char>, u64)>, pid: Seq<char>)
    requires
        peer_ids(ps).no_duplicates(),
    ensures
        peer_ids(without_peer(ps, pid)).no_duplicates(),
        forall|x: Seq<char>|
            #[trigger] peer_ids(without_peer(ps, pid)).contains(x) <==> (peer_ids(ps).contains(x)
                && x != pid),
        forall|k: int|
            0 <= k < without_peer(ps, pid).len() ==> ps.contains(#[trigger] without_peer(ps, pid)[k]),
{
    let ids = peer_ids(ps);
    let r = without_peer(ps, pid);
    if ids.contains(pid) {
        let i = ids.index_of(pid);
        assert(peer_ids(r) =~= ids.remove(i));
        assert forall|k: int| 0 <= k < r.len() implies ps.contains(#[trigger] r[k]) by {
            if k < i {
                assert(r[k] == ps[k]);
            } else {
                assert(r[k] == ps[k + 1]);
            }
        }
        assert forall|x: Seq<char>| #[trigger] peer_ids(r).contains(x) <==> (ids.contains(x) && x != pid) by {
            if peer_ids(r).contains(x) {
                let k = choose|k: int| 0 <= k < peer_ids(r).len() && peer_ids(r)[k] == x;
                if k < i {
                    assert(ids[k] == x);
                } else {
                    assert(ids[k + 1] == x);
                }
            }
            if ids.contains(x) && x != pid {
                let k = choose|k: int| 0 <= k < ids.len() && ids[k] == x;
                if k < i {
                    assert(peer_ids(r)[k] == x);
                } else {
                    assert(peer_ids(r)[k - 1] == x);
                }
            }
        }
    } else {
        assert forall|k: int| 0 <= k < r.len() implies ps.contains(#[trigger] r[k]) by {
            assert(r[k] == ps[k]);
        }
    }
}

proof fn lemma_set_insert(s: Seq<Seq<char>>, x: Seq<char>)
    requires
        s.no_duplicates(),
    ensures
        set_insert(s, x).no_duplicates(),
        forall|y: Seq<char>| #[trigger] set_insert(s, x).contains(y) <==> (s.contains(y) || y == x),
{
    if !s.contains(x) {
        assert forall|y: Seq<char>| #[trigger] set_insert(s, x).contains(y) <==> (s.contains(y) || y == x) by {
            if y == x {
                assert(set_insert(s, x)[s.len() as int] == x);
            } else if s.contains(y) {
                let k = choose|k: int| 0 <= k < s.len() && s[k] == y;
                assert(set_insert(s, x)[k] == y);
            }
        }
    }
}

proof fn lemma_set_remove(s: Seq<Seq<char>>, x: Seq<char>)
    requires
        s.no_duplicates(),
    ensures
        set_remove(s, x).no_duplicates(),
        set_remove(s, x).len() <= s.len(),
        forall|y: Seq<char>| #[trigger] set_remove(s, x).contains(y) <==> (s.contains(y) && y != x),
{
    if s.contains(x) {
        let i = s.index_of(x);
        let r = s.remove(i);
        assert forall|y: Seq<char>| #[trigger] r.contains(y) <==> (s.contains(y) && y != x) by {
            if r.contains(y) {
                let k = choose|k: int| 0 <= k < r.len() && r[k] == y;
                if k < i {
                    assert(s[k] == y);
                } else {
                    assert(s[k + 1] == y);
                }
            }
            if s.contains(y) && y != x {
                let k = choose|k: int| 0 <= k < s.len() && s[k] == y;
                if k < i {
                    assert(r[k] == y);
                } else {
                    assert(r[k - 1] == y);
                }
            }
        }
    }
}

proof fn lemma_announce_swarm(s: SwarmView, pid: Seq<char>, conn: u64, event: Seq<char>)
    requires
        swarm_wf(s),
    ensures
        swarm_wf(announce_swarm(s, pid, conn, event)),
        announce_swarm(s, pid, conn, event).info_hash == s.info_hash,
        forall|x: Seq<char>|
            #[trigger] peer_ids(announce_swarm(s, pid, conn, event).peers).contains(x) ==> (peer_ids(
                s.peers,
            ).contains(x) || x == pid),
        event != stopped_event() ==> peer_ids(announce_swarm(s, pid, conn, event).peers).contains(pid),
        event == stopped_event() ==> !peer_ids(announce_swarm(s, pid, conn, event).peers).contains(pid),
{
    let ps = upsert_peer(s.peers, pid, conn);
    lemma_upsert(s.peers, pid, conn);
    let cs = if event == completed_event() {
        set_insert(s.complete, pid)
    } else {
        s.complete
    };
    lemma_set_insert(s.complete, pid);
    assert(cs.no_duplicates());
    assert(forall|c: Seq<char>| #[trigger] cs.contains(c) ==> peer_ids(ps).contains(c));
    if event == stopped_event() {
        lemma_without(ps, pid);
        lemma_set_remove(cs, pid);
        let r = announce_swarm(s, pid, conn, event);
        assert forall|c: Seq<char>| #[trigger] r.complete.contains(c) implies peer_ids(r.peers).contains(c) by {
            assert(cs.contains(c));
        }
    }
}

proof fn lemma_announce_meta(t: TrackerView, ih: Seq<char>, pid: Seq<char>, conn: u64, event: Seq<char>)
    requires
        tracker_wf(t),
    ensures
        ({
            let n = tracker_announce(t, ih, pid, conn, event);
            &&& peer_recorded(n.meta, pid, ih)
            &&& forall|q: Seq<char>, h: Seq<char>|
                #[trigger] peer_recorded(t.meta, q, h) ==> peer_recorded(n.meta, q, h)
            &&& forall|i: int, j: int|
                0 <= i < n.meta.len() && 0 <= j < n.meta.len() && i != j
                    ==> #[trigger] n.meta[i].peer_id != #[trigger] n.meta[j].peer_id
            &&& forall|i: int| 0 <= i < n.meta.len() ==> (#[trigger] n.meta[i]).hashes.no_duplicates()
        }),
{
    let n = tracker_announce(t, ih, pid, conn, event);
    if has_meta(t.meta, pid) {
        let j = meta_index(t.meta, pid);
        let m = t.meta[j];
        lemma_set_insert(m.hashes, ih);
        assert(n.meta[j].peer_id == pid && n.meta[j].hashes.contains(ih));
        assert forall|q: Seq<char>, h: Seq<char>| #[trigger] peer_recorded(t.meta, q, h) implies peer_recorded(
            n.meta,
            q,
            h,
        ) by {
            let k = choose|k: int| 0 <= k < t.meta.len() && #[trigger] t.meta[k].peer_id == q && t.meta[k].hashes.contains(h);
            if k == j {
                assert(n.meta[k].hashes.contains(h));
            } else {
                assert(n.meta[k] == t.meta[k]);
            }
        }
    } else {
        let j = t.meta.len() as int;
        assert(n.meta[j].peer_id == pid);
        assert(n.meta[j].hashes[0] == ih);
        assert(n.meta[j].hashes.contains(ih));
        assert forall|q: Seq<char>, h: Seq<char>| #[trigger] peer_recorded(t.meta, q, h) implies peer_recorded(
            n.meta,
            q,
            h,
        ) by {
            let k = choose|k: int| 0 <= k < t.meta.len() && #[trigger] t.meta[k].peer_id == q && t.meta[k].hashes.contains(h);
            assert(n.meta[k] == t.meta[k]);
        }
        assert forall|i: int, k: int|
            0 <= i < n.meta.len() && 0 <= k < n.meta.len() && i != k
                implies #[trigger] n.meta[i].peer_id != #[trigger] n.meta[k].peer_id by {
            if i == j {
                assert(t.meta[k].peer_id == n.meta[k].peer_id);
            } else if k == j {
                assert(t.meta[i].peer_id == n.meta[i].peer_id);
            }
        }
    }
}

/// Announcing keeps the tracker well formed.
pub proof fn lemma_announce_keeps_wf(
    t: TrackerView,
    ih: Seq<char>,
    pid: Seq<char>,
    conn: u64,
    event: Seq<char>,
)
    requires
        tracker_wf(t),
    ensures
        tracker_wf(tracker_announce(t, ih, pid, conn, event)),
{
    let n = tracker_announce(t, ih, pid, conn, event);
    lemma_announce_meta(t, ih, pid, conn, event);
    let old_s = swarm_of(t, ih);
    let idx = if has_swarm(t.swarms, ih) {
        swarm_index(t.swarms, ih)
    } else {
        t.swarms.len() as int
    };
    assert(swarm_wf(empty_swarm(ih))) by {
        assert(peer_ids(empty_swarm(ih).peers) =~= Seq::<Seq<char>>::empty());
    }
    lemma_announce_swarm(old_s, pid, conn, event);
    assert(n.swarms[idx] == announce_swarm(old_s, pid, conn, event));
    assert(n.swarms.len() == t.swarms.len() || n.swarms.len() == t.swarms.len() + 1);
    assert forall|i: int| 0 <= i < n.swarms.len() && i != idx implies #[trigger] n.swarms[i] == t.swarms[i] by {}
    assert forall|i: int, j: int|
        0 <= i < n.swarms.len() && 0 <= j < n.swarms.len() && i != j
            implies #[trigger] n.swarms[i].info_hash != #[trigger] n.swarms[j].info_hash by {
        if i != idx && j != idx {
            assert(n.swarms[i] == t.swarms[i] && n.swarms[j] == t.swarms[j]);
        } else if i == idx {
            assert(n.swarms[j] == t.swarms[j]);
        } else {
            assert(n.swarms[i] == t.swarms[i]);
        }
    }
    assert forall|i: int| 0 <= i < n.swarms.len() implies swarm_wf(#[trigger] n.swarms[i]) by {
        if i != idx {
            assert(n.swarms[i] == t.swarms[i]);
        }
    }
    assert forall|i: int, k: int|
        0 <= i < n.swarms.len() && 0 <= k < n.swarms[i].peers.len() implies peer_recorded(
            n.meta,
            #[trigger] n.swarms[i].peers[k].0,
            n.swarms[i].info_hash,
        ) by {
        let q = n.swarms[i].peers[k].0;
        if i != idx {
            assert(n.swarms[i] == t.swarms[i]);
            assert(peer_recorded(t.meta, q, t.swarms[i].info_hash));
        } else {
            assert(peer_ids(n.swarms[i].peers)[k] == q);
            assert(peer_ids(n.swarms[i].peers).contains(q));
            if q != pid {
                assert(peer_ids(old_s.peers).contains(q));
                let m = choose|m: int| 0 <= m < peer_ids(old_s.peers).len() && peer_ids(old_s.peers)[m] == q;
                assert(has_swarm(t.swarms, ih));
                assert(old_s == t.swarms[idx]);
                assert(t.swarms[idx].peers[m].0 == q);
                assert(peer_recorded(t.meta, t.swarms[idx].peers[m].0, t.swarms[idx].info_hash));
            }
        }
    }
}

proof fn lemma_swarm_of_announce(t: TrackerView, ih: Seq<char>, pid: Seq<char>, conn: u64, event: Seq<char>)
    requires
        tracker_wf(t),
    ensures
        swarm_of(tracker_announce(t, ih, pid, conn, event), ih) == announce_swarm(
            swarm_of(t, ih),
            pid,
            conn,
            event,
        ),
{
    let n = tracker_announce(t, ih, pid, conn, event);
    lemma_announce_keeps_wf(t, ih, pid, conn, event);
    let old_s = swarm_of(t, ih);
    let idx = if has_swarm(t.swarms, ih) {
        swarm_index(t.swarms, ih)
    } else {
        t.swarms.len() as int
    };
    assert(n.swarms[idx] == announce_swarm(old_s, pid, conn, event));
    assert(announce_swarm(old_s, pid, conn, event).info_hash == old_s.info_hash);
    assert(old_s.info_hash == ih);
    assert(n.swarms[idx].info_hash == ih);
    assert(has_swarm(n.swarms, ih));
    let k = swarm_index(n.swarms, ih);
    assert(k == idx) by {
        if k != idx {
            assert(n.swarms[k].info_hash != n.swarms[idx].info_hash);
        }
    }
}

proof fn lemma_counts_add_up(s: SwarmView)
    requires
        swarm_wf(s),
    ensures
        s.complete.len() <= s.peers.len(),
{
    let ids = peer_ids(s.peers);
    s.complete.unique_seq_to_set();
    ids.unique_seq_to_set();
    assert(s.complete.to_set().subset_of(ids.to_set()));
    vstd::set_lib::lemma_len_subset(s.complete.to_set(), ids.to_set());
}

/// What an announce does to the swarm of the announced info hash: unless
/// the event is `stopped` the peer is among its peers, and with
/// `completed` among its seeders; `stopped` takes it out of both. The
/// seeders and the other peers counted in the reply add up to the swarm's
/// peers.
pub proof fn lemma_announce_registers(
    t: TrackerView,
    ih: Seq<char>,
    pid: Seq<char>,
    conn: u64,
    event: Seq<char>,
)
    requires
        tracker_wf(t),
    ensures
        ({
            let s = swarm_of(tracker_announce(t, ih, pid, conn, event), ih);
            &&& event != stopped_event() ==> peer_ids(s.peers).contains(pid)
            &&& event == completed_event() ==> s.complete.contains(pid)
            &&& event == stopped_event() ==> !peer_ids(s.peers).contains(pid) && !s.complete.contains(pid)
            &&& swarm_counts(s).0 + swarm_counts(s).1 == s.peers.len()
        }),
{
    let old_s = swarm_of(t, ih);
    lemma_swarm_of_announce(t, ih, pid, conn, event);
    assert(swarm_wf(old_s)) by {
        if has_swarm(t.swarms, ih) {
            assert(swarm_wf(t.swarms[swarm_index(t.swarms, ih)]));
        } else {
            assert(peer_ids(empty_swarm(ih).peers) =~= Seq::<Seq<char>>::empty());
        }
    }
    lemma_announce_swarm(old_s, pid, conn, event);
    let s = announce_swarm(old_s, pid, conn, event);
    lemma_set_insert(old_s.complete, pid);
    let cs = if event == completed_event() {
        set_insert(old_s.complete, pid)
    } else {
        old_s.complete
    };
    if event == stopped_event() {
        lemma_set_remove(cs, pid);
    } else if event == completed_event() {
        assert(set_insert(old_s.complete, pid).contains(pid));
    }
    lemma_counts_add_up(s);
}

/// Who seeds the swarm of an announced info hash afterwards: `completed`
/// makes the announcing peer a seeder, `stopped` makes it none, and any
/// other event (such as a periodic re-announce) leaves its standing as it
/// was; no other peer's standing changes, and with any other event the
/// number of seeders stays the same.
pub proof fn lemma_announce_seeders(t: TrackerView, ih: Seq<char>, pid: Seq<char>, conn: u64, event: Seq<char>)
    requires
        tracker_wf(t),
    ensures
        ({
            let before = swarm_of(t, ih).complete;
            let after = swarm_of(tracker_announce(t, ih, pid, conn, event), ih).complete;
            &&& forall|c: Seq<char>| c != pid ==> (#[trigger] after.contains(c) <==> before.contains(c))
            &&& event == completed_event() ==> after.contains(pid)
            &&& event == stopped_event() ==> !after.contains(pid)
            &&& (event != completed_event() && event != stopped_event()) ==> (after.contains(pid)
                <==> before.contains(pid)) && after.len() == before.len()
        }),
{
    let old_s = swarm_of(t, ih);
    lemma_swarm_of_announce(t, ih, pid, conn, event);
    assert(swarm_wf(old_s)) by {
        if has_swarm(t.swarms, ih) {
            assert(swarm_wf(t.swarms[swarm_index(t.swarms, ih)]));
        } else {
            assert(peer_ids(empty_swarm(ih).peers) =~= Seq::<Seq<char>>::empty());
        }
    }
    lemma_set_insert(old_s.complete, pid);
    let cs = if event == completed_event() {
        set_insert(old_s.complete, pid)
    } else {
        old_s.complete
    };
    assert(cs.no_duplicates());
    lemma_set_remove(cs, pid);
}

/// An announce of one info hash leaves the swarm of every other info hash
/// as it was.
pub proof fn lemma_announce_keeps_other_swarms(
    t: TrackerView,
    ih: Seq<char>,
    other: Seq<char>,
    pid: Seq<char>,
    conn: u64,
    event: Seq<char>,
)
    requires
        tracker_wf(t),
        other != ih,
    ensures
        swarm_of(tracker_announce(t, ih, pid, conn, event), other) == swarm_of(t, other),
{
    let n = tracker_announce(t, ih, pid, conn, event);
    lemma_announce_keeps_wf(t, ih, pid, conn, event);
    let idx = if has_swarm(t.swarms, ih) {
        swarm_index(t.swarms, ih)
    } else {
        t.swarms.len() as int
    };
    assert(n.swarms[idx].info_hash == ih) by {
        if has_swarm(t.swarms, ih) {
            lemma_announce_swarm_hash(t.swarms[idx], pid, conn, event);
        } else {
            lemma_announce_swarm_hash(empty_swarm(ih), pid, conn, event);
        }
    }
    assert forall|k: int| 0 <= k < n.swarms.len() && k != idx implies #[trigger] n.swarms[k] == t.swarms[k] by {}
    if has_swarm(t.swarms, other) {
        let k = swarm_index(t.swarms, other);
        assert(k != idx);
        assert(n.swarms[k] == t.swarms[k]);
        assert(has_swarm(n.swarms, other));
        let k2 = swarm_index(n.swarms, other);
        assert(k2 == k) by {
            if k2 != k {
                assert(n.swarms[k2].info_hash != n.swarms[k].info_hash);
            }
        }
    } else {
        assert(!has_swarm(n.swarms, other)) by {
            if has_swarm(n.swarms, other) {
                let k2 = swarm_index(n.swarms, other);
                assert(k2 != idx);
                assert(n.swarms[k2] == t.swarms[k2]);
                assert(t.swarms[k2].info_hash == other);
            }
        }
    }
}

proof fn lemma_announce_swarm_hash(s: SwarmView, pid: Seq<char>, conn: u64, event: Seq<char>)
    ensures
        announce_swarm(s, pid, conn, event).info_hash == s.info_hash,
{
}

/// An answer is relayed to the peer it is addressed to: there is a target
/// exactly when that peer is in the swarm, and it is the connection the
/// peer is listed with there; once a peer has announced (other than with
/// `stopped`), answers to it go to the connection of that announce.
pub proof fn lemma_answer_reaches_addressee(
    t: TrackerView,
    ih: Seq<char>,
    to: Seq<char>,
    conn: u64,
    event: Seq<char>,
)
    requires
        tracker_wf(t),
    ensures
        answer_target_spec(t, ih, to) is Some <==> peer_ids(swarm_of(t, ih).peers).contains(to),
        answer_target_spec(t, ih, to) matches Some(c) ==> swarm_of(t, ih).peers.contains((to, c)),
        event != stopped_event() ==> answer_target_spec(tracker_announce(t, ih, to, conn, event), ih, to)
            == Some(conn),
{
    let s = swarm_of(t, ih);
    let ids = peer_ids(s.peers);
    if ids.contains(to) {
        let k = ids.index_of(to);
        assert(ids[k] == to);
        assert(s.peers[k] == (to, s.peers[k].1));
    }
    if event != stopped_event() {
        let t2 = tracker_announce(t, ih, to, conn, event);
        lemma_swarm_of_announce(t, ih, to, conn, event);
        assert(swarm_wf(s)) by {
            if has_swarm(t.swarms, ih) {
                assert(swarm_wf(t.swarms[swarm_index(t.swarms, ih)]));
            } else {
                assert(peer_ids(empty_swarm(ih).peers) =~= Seq::<Seq<char>>::empty());
            }
        }
        lemma_upsert(s.peers, to, conn);
        let ps = upsert_peer(s.peers, to, conn);
        let j = if ids.contains(to) {
            ids.index_of(to)
        } else {
            s.peers.len() as int
        };
        assert(ps[j] == (to, conn));
        assert(peer_ids(ps)[j] == to);
        lemma_index_of_unique(peer_ids(ps), j);
        assert(swarm_of(t2, ih).peers == ps);
    }
}

/// A swarm as the server keeps it.
pub struct Swarm {
    info_hash: String,
    peers: Vec<(String, u64)>,
    complete: Vec<String>,
}

impl Swarm {
    pub closed spec fn view(&self) -> SwarmView {
        SwarmView {
            info_hash: self.info_hash@,
            peers: self.peers.deep_view(),
            complete: self.complete.deep_view(),
        }
    }
}

/// What the server remembers of a peer.
pub struct PeerMeta {
    peer_id: String,
    info_hashes: Vec<String>,
    is_complete: bool,
}

impl PeerMeta {
    pub closed spec fn view(&self) -> MetaView {
        MetaView {
            peer_id: self.peer_id@,
            hashes: self.info_hashes.deep_view(),
            is_complete: self.is_complete,
        }
    }
}

/// The tracker's state: the swarms and what it knows of each peer.
pub struct TrackerState {
    swarms: Vec<Swarm>,
    peer_meta: Vec<PeerMeta>,
}

impl View for TrackerState {
    type V = TrackerView;

    closed spec fn view(&self) -> TrackerView {
        TrackerView {
            swarms: self.swarms@.map_values(|s: Swarm| s.view()),
            meta: self.peer_meta@.map_values(|m: PeerMeta| m.view()),
        }
    }
}

proof fn lemma_index_of_unique<A>(s: Seq<A>, i: int)
    requires
        s.no_duplicates(),
        0 <= i < s.len(),
    ensures
        s.contains(s[i]),
        s.index_of(s[i]) == i,
{
    assert(s.contains(s[i]));
}

fn same(a: &String, b: &String) -> (r: bool)
    ensures
        r == (a@ == b@),
{
    *a == *b
}

fn text_is(s: &String, lit: &Vec<char>) -> (r: bool)
    ensures
        r == (s@ == lit@),
{
    let v = crate::text::chars_of(s.as_str());
    if v.len() != lit.len() {
        return false;
    }
    let mut i: usize = 0;
    while i < v.len()
        invariant
            v@ == s@,
            v.len() == lit.len(),
            i <= v.len(),
            forall|j: int| 0 <= j < i ==> v@[j] == lit@[j],
        decreases v.len() - i,
    {
        if v[i] != lit[i] {
            return false;
        }
        i += 1;
    }
    assert(v@ =~= lit@);
    true
}

fn find_peer(ps: &Vec<(String, u64)>, pid: &String) -> (r: Option<usize>)
    ensures
        match r {
            Some(i) => i < ps.len() && ps.deep_view()[i as int].0 == pid@,
            None => !peer_ids(ps.deep_view()).contains(pid@),
        },
{
    let mut i: usize = 0;
    while i < ps.len()
        invariant
            i <= ps.len(),
            forall|j: int| 0 <= j < i ==> ps.deep_view()[j].0 != pid@,
        decreases ps.len() - i,
    {
        if same(&ps[i].0, pid) {
            return Some(i);
        }
        i += 1;
    }
    assert forall|j: int| 0 <= j < peer_ids(ps.deep_view()).len() implies peer_ids(ps.deep_view())[j] != pid@ by {
        assert(ps.deep_view()[j].0 != pid@);
    }
    None
}

fn find_text(v: &Vec<String>, x: &String) -> (r: Option<usize>)
    ensures
        match r {
            Some(i) => i < v.len() && v.deep_view()[i as int] == x@,
            None => !v.deep_view().contains(x@),
        },
{
    let mut i: usize = 0;
    while i < v.len()
        invariant
            i <= v.len(),
            forall|j: int| 0 <= j < i ==> v.deep_view()[j] != x@,
        decreases v.len() - i,
    {
        if same(&v[i], x) {
            return Some(i);
        }
        i += 1;
    }
    None
}

fn completed_text() -> (v: Vec<char>)
    ensures
        v@ == completed_event(),
{
    let v = vec!['c', 'o', 'm', 'p', 'l', 'e', 't', 'e', 'd'];
    assert(v@ =~= completed_event());
    v
}

fn stopped_text() -> (v: Vec<char>)
    ensures
        v@ == stopped_event(),
{
    let v = vec!['s', 't', 'o', 'p', 'p', 'e', 'd'];
    assert(v@ =~= stopped_event());
    v
}

fn upsert_peer_exec(ps: &mut Vec<(String, u64)>, pid: &String, conn: u64)
    requires
        peer_ids(old(ps).deep_view()).no_duplicates(),
    ensures
        final(ps).deep_view() == upsert_peer(old(ps).deep_view(), pid@, conn),
{
    let ghost before = ps.deep_view();
    match find_peer(ps, pid) {
        Some(k) => {
            proof {
                assert(peer_ids(before)[k as int] == pid@);
                lemma_index_of_unique(peer_ids(before), k as int);
            }
            ps.set(k, (pid.clone(), conn));
            assert(ps.deep_view() =~= before.update(k as int, (pid@, conn)));
        },
        None => {
            ps.push((pid.clone(), conn));
            assert(ps.deep_view() =~= before.push((pid@, conn)));
        },
    }
}

fn remove_peer_exec(ps: &mut Vec<(String, u64)>, pid: &String)
    requires
        peer_ids(old(ps).deep_view()).no_duplicates(),
    ensures
        final(ps).deep_view() == without_peer(old(ps).deep_view(), pid@),
{
    let ghost before = ps.deep_view();
    match find_peer(ps, pid) {
        Some(k) => {
            proof {
                assert(peer_ids(before)[k as int] == pid@);
                lemma_index_of_unique(peer_ids(before), k as int);
            }
            ps.remove(k);
            assert(ps.deep_view() =~= before.remove(k as int));
        },
        None => {},
    }
}

fn set_insert_exec(v: &mut Vec<String>, x: &String)
    ensures
        final(v).deep_view() == set_insert(old(v).deep_view(), x@),
{
    let ghost before = v.deep_view();
    match find_text(v, x) {
        Some(_) => {},
        None => {
            v.push(x.clone());
            assert(v.deep_view() =~= before.push(x@));
        },
    }
}

fn set_remove_exec(v: &mut Vec<String>, x: &String)
    requires
        old(v).deep_view().no_duplicates(),
    ensures
        final(v).deep_view() == set_remove(old(v).deep_view(), x@),
{
    let ghost before = v.deep_view();
    match find_text(v, x) {
        Some(k) => {
            proof {
                lemma_index_of_unique(before, k as int);
            }
            v.remove(k);
            assert(v.deep_view() =~= before.remove(k as int));
        },
        None => {},
    }
}

fn announce_into(s: Swarm, pid: &String, conn: u64, event: &String) -> (r: Swarm)
    requires
        swarm_wf(s.view()),
    ensures
        r.view() == announce_swarm(s.view(), pid@, conn, event@),
{
    let ghost sv = s.view();
    let mut s = s;
    upsert_peer_exec(&mut s.peers, pid, conn);
    proof {
        lemma_upsert(sv.peers, pid@, conn);
    }
    if text_is(event, &completed_text()) {
        set_insert_exec(&mut s.complete, pid);
    }
    proof {
        lemma_set_insert(sv.complete, pid@);
    }
    if text_is(event, &stopped_text()) {
        remove_peer_exec(&mut s.peers, pid);
        set_remove_exec(&mut s.complete, pid);
    }
    s
}

proof fn lemma_swarm_index(swarms: Seq<SwarmView>, i: int)
    requires
        0 <= i < swarms.len(),
        forall|a: int, b: int|
            0 <= a < swarms.len() && 0 <= b < swarms.len() && a != b ==> #[trigger] swarms[a].info_hash
                != #[trigger] swarms[b].info_hash,
    ensures
        has_swarm(swarms, swarms[i].info_hash),
        swarm_index(swarms, swarms[i].info_hash) == i,
{
    assert(has_swarm(swarms, swarms[i].info_hash));
}

proof fn lemma_meta_index(meta: Seq<MetaView>, i: int)
    requires
        0 <= i < meta.len(),
        forall|a: int, b: int|
            0 <= a < meta.len() && 0 <= b < meta.len() && a != b ==> #[trigger] meta[a].peer_id
                != #[trigger] meta[b].peer_id,
    ensures
        has_meta(meta, meta[i].peer_id),
        meta_index(meta, meta[i].peer_id) == i,
{
    assert(has_meta(meta, meta[i].peer_id));
}

/// The peers of a swarm other than `pid`, in order.
pub open spec fn relay_others(peers: Seq<(Seq<char>, u64)>, pid: Seq<char>) -> Seq<(Seq<char>, u64)> {
    peers.filter(not_peer(pid))
}

/// An entry of a peer other than `pid`.
pub open spec fn not_peer(pid: Seq<char>) -> spec_fn((Seq<char>, u64)) -> bool {
    |p: (Seq<char>, u64)| p.0 != pid
}

/// The connections the offers of an announce go to: the other peers of
/// the swarm, in order, offer `i` going to the `i % n`-th of the `n` others;
/// none when the announcer is alone.
pub open spec fn relay_plan(peers: Seq<(Seq<char>, u64)>, pid: Seq<char>, offer_count: nat) -> Seq<(u64, usize)> {
    let others = relay_others(peers, pid);
    if others.len() == 0 {
        Seq::empty()
    } else {
        Seq::new(offer_count, |i: int| (others[i % others.len() as int].1, i as usize))
    }
}

/// The reply to an announce: seeders and other peers of the swarm, and the
/// connection each offer is relayed to (with the offer's position).
pub struct AnnounceOutcome {
    pub complete: usize,
    pub incomplete: usize,
    pub relays: Vec<(u64, usize)>,
}

/// Seeders, then peers that are not seeders (zero if there were fewer peers).
pub open spec fn swarm_counts(s: SwarmView) -> (nat, nat) {
    (
        s.complete.len(),
        if s.peers.len() >= s.complete.len() {
            (s.peers.len() - s.complete.len()) as nat
        } else {
            0
        },
    )
}

fn meta_into(m: PeerMeta, ih: &String, completed: bool) -> (r: PeerMeta)
    ensures
        r.view() == (MetaView {
            peer_id: m.view().peer_id,
            hashes: set_insert(m.view().hashes, ih@),
            is_complete: m.view().is_complete || completed,
        }),
{
    let mut m = m;
    set_insert_exec(&mut m.info_hashes, ih);
    m.is_complete = m.is_complete || completed;
    m
}

fn other_conns(ps: &Vec<(String, u64)>, pid: &String) -> (r: Vec<(String, u64)>)
    ensures
        r.deep_view() == ps.deep_view().filter(|p: (Seq<char>, u64)| p.0 != pid@),
{
    let ghost f = |p: (Seq<char>, u64)| p.0 != pid@;
    let mut r: Vec<(String, u64)> = Vec::new();
    let mut i: usize = 0;
    assert(ps.deep_view().take(0) =~= Seq::<(Seq<char>, u64)>::empty());
    proof {
        reveal_with_fuel(Seq::filter, 1);
    }
    while i < ps.len()
        invariant
            i <= ps.len(),
            f == (|p: (Seq<char>, u64)| p.0 != pid@),
            r.deep_view() == ps.deep_view().take(i as int).filter(f),
        decreases ps.len() - i,
    {
        let ghost before = r.deep_view();
        proof {
            ps.deep_view().take(i as int).lemma_filter_push(ps.deep_view()[i as int], f);
            assert(ps.deep_view().take(i + 1) =~= ps.deep_view().take(i as int).push(ps.deep_view()[i as int]));
        }
        if !same(&ps[i].0, pid) {
            r.push((ps[i].0.clone(), ps[i].1));
            assert(r.deep_view() =~= before.push(ps.deep_view()[i as int]));
        }
        i += 1;
    }
    assert(ps.deep_view().take(i as int) =~= ps.deep_view());
    r
}

impl TrackerState {
    pub open spec fn wf(&self) -> bool {
        tracker_wf(self@)
    }

    /// A tracker with no swarm.
    pub fn new() -> (t: Self)
        ensures
            t.wf(),
            t@.swarms.len() == 0,
            t@.meta.len() == 0,
    {
        let t = TrackerState { swarms: Vec::new(), peer_meta: Vec::new() };
        assert(t@.swarms =~= Seq::<SwarmView>::empty());
        assert(t@.meta =~= Seq::<MetaView>::empty());
        t
    }

    fn find_swarm(&self, ih: &String) -> (r: Option<usize>)
        requires
            self.wf(),
        ensures
            match r {
                Some(i) => i < self@.swarms.len() && has_swarm(self@.swarms, ih@) && swarm_index(
                    self@.swarms,
                    ih@,
                ) == i,
                None => !has_swarm(self@.swarms, ih@),
            },
    {
        let mut i: usize = 0;
        while i < self.swarms.len()
            invariant
                self.wf(),
                i <= self.swarms.len(),
                forall|j: int| 0 <= j < i ==> self@.swarms[j].info_hash != ih@,
            decreases self.swarms.len() - i,
        {
            assert(self@.swarms[i as int] == self.swarms@[i as int].view());
            if same(&self.swarms[i].info_hash, ih) {
                proof {
                    lemma_swarm_index(self@.swarms, i as int);
                }
                return Some(i);
            }
            i += 1;
        }
        None
    }

    fn find_meta(&self, pid: &String) -> (r: Option<usize>)
        requires
            self.wf(),
        ensures
            match r {
                Some(i) => i < self@.meta.len() && has_meta(self@.meta, pid@) && meta_index(
                    self@.meta,
                    pid@,
                ) == i,
                None => !has_meta(self@.meta, pid@),
            },
    {
        let mut i: usize = 0;
        while i < self.peer_meta.len()
            invariant
                self.wf(),
                i <= self.peer_meta.len(),
                forall|j: int| 0 <= j < i ==> self@.meta[j].peer_id != pid@,
            decreases self.peer_meta.len() - i,
        {
            assert(self@.meta[i as int] == self.peer_meta@[i as int].view());
            if same(&self.peer_meta[i].peer_id, pid) {
                proof {
                    lemma_meta_index(self@.meta, i as int);
                }
                return Some(i);
            }
            i += 1;
        }
        None
    }

    /// Registers an announce of `info_hash` by `peer_id` on connection `conn`
    /// with `event`, and plans the reply and the relay of `offer_count` offers.
    pub fn announce(
        &mut self,
        info_hash: &String,
        peer_id: &String,
        conn: u64,
        event: &String,
        offer_count: usize,
    ) -> (r: AnnounceOutcome)
        requires
            old(self).wf(),
        ensures
            final(self).wf(),
            final(self)@ == tracker_announce(old(self)@, info_hash@, peer_id@, conn, event@),
            r.complete == swarm_counts(swarm_of(final(self)@, info_hash@)).0,
            r.incomplete == swarm_counts(swarm_of(final(self)@, info_hash@)).1,
            r.relays@ == relay_plan(
                swarm_of(final(self)@, info_hash@).peers,
                peer_id@,
                offer_count as nat,
            ),
    {
        let ghost t0 = self@;
        proof {
            lemma_announce_keeps_wf(t0, info_hash@, peer_id@, conn, event@);
        }
        let ghost t1 = tracker_announce(t0, info_hash@, peer_id@, conn, event@);
        let completed = text_is(event, &completed_text());
        let meta_pos = self.find_meta(peer_id);
        let idx = match self.find_swarm(info_hash) {
            Some(i) => {
                let sw = self.swarms.remove(i);
                assert(sw.view() == t0.swarms[i as int]);
                let sw2 = announce_into(sw, peer_id, conn, event);
                self.swarms.insert(i, sw2);
                i
            },
            None => {
                let sw = Swarm { info_hash: info_hash.clone(), peers: Vec::new(), complete: Vec::new() };
                assert(sw.view().peers =~= Seq::<(Seq<char>, u64)>::empty());
                assert(sw.view().complete =~= Seq::<Seq<char>>::empty());
                assert(sw.view() == empty_swarm(info_hash@));
                assert(swarm_wf(empty_swarm(info_hash@))) by {
                    assert(peer_ids(empty_swarm(info_hash@).peers) =~= Seq::<Seq<char>>::empty());
                }
                let sw2 = announce_into(sw, peer_id, conn, event);
                self.swarms.push(sw2);
                self.swarms.len() - 1
            },
        };
        assert(self@.swarms =~= t1.swarms);
        match meta_pos {
            Some(j) => {
                let m = self.peer_meta.remove(j);
                assert(m.view() == t0.meta[j as int]);
                let m2 = meta_into(m, info_hash, completed);
                self.peer_meta.insert(j, m2);
            },
            None => {
                let mut hs: Vec<String> = Vec::new();
                hs.push(info_hash.clone());
                let m = PeerMeta { peer_id: peer_id.clone(), info_hashes: hs, is_complete: completed };
                assert(m.view().hashes =~= seq![info_hash@]);
                self.peer_meta.push(m);
            },
        }
        assert(self@.meta =~= t1.meta);
        assert(self@ == t1);
        proof {
            lemma_swarm_index(t1.swarms, idx as int);
        }
        assert(self@.swarms[idx as int] == self.swarms@[idx as int].view());
        let complete_count = self.swarms[idx].complete.len();
        let peer_count = self.swarms[idx].peers.len();
        let incomplete = if peer_count >= complete_count {
            peer_count - complete_count
        } else {
            0
        };
        let others = other_conns(&self.swarms[idx].peers, peer_id);
        let mut relays: Vec<(u64, usize)> = Vec::new();
        if others.len() > 0 {
            let mut i: usize = 0;
            while i < offer_count
                invariant
                    i <= offer_count,
                    others.len() > 0,
                    relays@ == Seq::new(
                        i as nat,
                        |k: int| (others.deep_view()[k % others.deep_view().len() as int].1, k as usize),
                    ),
                decreases offer_count - i,
            {
                let target = others[i % others.len()].1;
                relays.push((target, i));
                i += 1;
                assert(relays@ =~= Seq::new(
                    i as nat,
                    |k: int| (others.deep_view()[k % others.deep_view().len() as int].1, k as usize),
                ));
            }
        }
        assert(relays@ =~= relay_plan(
            swarm_of(self@, info_hash@).peers,
            peer_id@,
            offer_count as nat,
        ));
        AnnounceOutcome { complete: complete_count, incomplete, relays }
    }
}

/// The connection on which `to` announced `ih`, if it is in that swarm.
pub open spec fn answer_target_spec(t: TrackerView, ih: Seq<char>, to: Seq<char>) -> Option<u64> {
    let s = swarm_of(t, ih);
    if peer_ids(s.peers).contains(to) {
        Some(s.peers[peer_ids(s.peers).index_of(to)].1)
    } else {
        None
    }
}

/// `pid`'s peer entry taken out of a swarm, with its seeder mark.
pub open spec fn strip_peer(s: SwarmView, pid: Seq<char>) -> SwarmView {
    SwarmView {
        info_hash: s.info_hash,
        peers: without_peer(s.peers, pid),
        complete: set_remove(s.complete, pid),
    }
}

/// The swarms after a peer whose record lists `hs` left: it is taken out of
/// each swarm of `hs`, and those of them left without peers are dropped.
pub open spec fn swarms_after_leave(swarms: Seq<SwarmView>, hs: Seq<Seq<char>>, pid: Seq<char>) -> Seq<
    SwarmView,
> {
    swarms.map_values(
        |s: SwarmView|
            if hs.contains(s.info_hash) {
                strip_peer(s, pid)
            } else {
                s
            },
    ).filter(|s: SwarmView| !(hs.contains(s.info_hash) && s.peers.len() == 0))
}

/// The tracker after the connection of `pid` closed.
pub open spec fn tracker_leave(t: TrackerView, pid: Seq<char>) -> TrackerView {
    if has_meta(t.meta, pid) {
        let j = meta_index(t.meta, pid);
        TrackerView {
            swarms: swarms_after_leave(t.swarms, t.meta[j].hashes, pid),
            meta: t.meta.remove(j),
        }
    } else {
        t
    }
}

/// Number of seeders over all swarms.
pub open spec fn seeders(swarms: Seq<SwarmView>) -> nat
    decreases swarms.len(),
{
    if swarms.len() == 0 {
        0
    } else {
        seeders(swarms.drop_last()) + swarms.last().complete.len()
    }
}

fn strip_swarm(s: Swarm, pid: &String) -> (r: Swarm)
    requires
        swarm_wf(s.view()),
    ensures
        r.view() == strip_peer(s.view(), pid@),
{
    let mut s = s;
    remove_peer_exec(&mut s.peers, pid);
    set_remove_exec(&mut s.complete, pid);
    s
}

fn contains_text(v: &Vec<String>, x: &String) -> (r: bool)
    ensures
        r == v.deep_view().contains(x@),
{
    match find_text(v, x) {
        Some(i) => {
            assert(v.deep_view()[i as int] == x@);
            true
        },
        None => false,
    }
}

impl TrackerState {
    /// The connection to relay an answer to: that of `to_peer_id` in the
    /// swarm of `info_hash`, if it is there.
    pub fn answer_target(&self, info_hash: &String, to_peer_id: &String) -> (r: Option<u64>)
        requires
            self.wf(),
        ensures
            r == answer_target_spec(self@, info_hash@, to_peer_id@),
    {
        match self.find_swarm(info_hash) {
            None => None,
            Some(i) => {
                assert(self@.swarms[i as int] == self.swarms@[i as int].view());
                let ps = &self.swarms[i].peers;
                match find_peer(ps, to_peer_id) {
                    None => None,
                    Some(k) => {
                        proof {
                            assert(swarm_wf(self@.swarms[i as int]));
                            assert(peer_ids(ps.deep_view())[k as int] == to_peer_id@);
                            lemma_index_of_unique(peer_ids(ps.deep_view()), k as int);
                        }
                        Some(ps[k].1)
                    },
                }
            },
        }
    }

    /// Seeders and other peers of the swarm of each info hash, in order
    /// (zero for an unknown hash).
    pub fn scrape(&self, hashes: &Vec<String>) -> (r: Vec<(String, usize, usize)>)
        requires
            self.wf(),
        ensures
            r.len() == hashes.len(),
            forall|i: int|
                0 <= i < hashes.len() ==> {
                    let e = #[trigger] r@[i];
                    &&& e.0@ == hashes@[i]@
                    &&& e.1 == swarm_counts(swarm_of(self@, hashes@[i]@)).0
                    &&& e.2 == swarm_counts(swarm_of(self@, hashes@[i]@)).1
                },
    {
        let mut r: Vec<(String, usize, usize)> = Vec::new();
        let mut i: usize = 0;
        while i < hashes.len()
            invariant
                self.wf(),
                i <= hashes.len(),
                r.len() == i,
                forall|k: int|
                    0 <= k < i ==> {
                        let e = #[trigger] r@[k];
                        &&& e.0@ == hashes@[k]@
                        &&& e.1 == swarm_counts(swarm_of(self@, hashes@[k]@)).0
                        &&& e.2 == swarm_counts(swarm_of(self@, hashes@[k]@)).1
                    },
            decreases hashes.len() - i,
        {
            let h = &hashes[i];
            let (c, n) = match self.find_swarm(h) {
                None => {
                    assert(swarm_of(self@, h@) == empty_swarm(h@));
                    (0, 0)
                },
                Some(j) => {
                    assert(self@.swarms[j as int] == self.swarms@[j as int].view());
                    let c = self.swarms[j].complete.len();
                    let p = self.swarms[j].peers.len();
                    (c, if p >= c {
                        p - c
                    } else {
                        0
                    })
                },
            };
            r.push((h.clone(), c, n));
            i += 1;
        }
        r
    }

    /// Seeders over all swarms (saturating at `usize::MAX`).
    pub fn total_seeders(&self) -> (r: usize)
        ensures
            r == if seeders(self@.swarms) <= usize::MAX {
                seeders(self@.swarms)
            } else {
                usize::MAX as nat
            },
    {
        let mut total: usize = 0;
        let mut i: usize = 0;
        let ghost sw = self@.swarms;
        while i < self.swarms.len()
            invariant
                i <= self.swarms.len(),
                sw == self@.swarms,
                total == if seeders(sw.take(i as int)) <= usize::MAX {
                    seeders(sw.take(i as int))
                } else {
                    usize::MAX as nat
                },
            decreases self.swarms.len() - i,
        {
            assert(sw.take(i + 1).drop_last() =~= sw.take(i as int));
            assert(sw[i as int] == self.swarms@[i as int].view());
            let n = self.swarms[i].complete.len();
            total = total.saturating_add(n);
            i += 1;
        }
        assert(sw.take(i as int) =~= sw);
        total
    }
}

proof fn lemma_filter_swarms(s: Seq<SwarmView>, p: spec_fn(SwarmView) -> bool)
    requires
        forall|a: int, b: int|
            0 <= a < s.len() && 0 <= b < s.len() && a != b ==> #[trigger] s[a].info_hash
                != #[trigger] s[b].info_hash,
    ensures
        forall|a: int, b: int|
            0 <= a < s.filter(p).len() && 0 <= b < s.filter(p).len() && a != b
                ==> #[trigger] s.filter(p)[a].info_hash != #[trigger] s.filter(p)[b].info_hash,
        forall|a: int| 0 <= a < s.filter(p).len() ==> s.contains(#[trigger] s.filter(p)[a]),
        forall|a: int| 0 <= a < s.filter(p).len() ==> p(#[trigger] s.filter(p)[a]),
        forall|a: int| 0 <= a < s.len() && p(s[a]) ==> s.filter(p).contains(#[trigger] s[a]),
    decreases s.len(),
{
    reveal(Seq::filter);
    broadcast use vstd::seq_lib::group_filter_ensures;
    if s.len() > 0 {
        let d = s.drop_last();
        lemma_filter_swarms(d, p);
        let f = s.filter(p);
        let fd = d.filter(p);
        assert forall|a: int| 0 <= a < f.len() implies s.contains(#[trigger] f[a]) by {
            if a < fd.len() {
                assert(f[a] == fd[a]);
                assert(d.contains(fd[a]));
                let m = choose|m: int| 0 <= m < d.len() && d[m] == fd[a];
                assert(s[m] == f[a]);
            } else {
                assert(f[a] == s.last());
                assert(s[s.len() - 1] == f[a]);
            }
        }
        assert forall|a: int, b: int|
            0 <= a < f.len() && 0 <= b < f.len() && a != b implies #[trigger] f[a].info_hash
                != #[trigger] f[b].info_hash by {
            if a < fd.len() && b < fd.len() {
                assert(f[a] == fd[a] && f[b] == fd[b]);
            } else if a < fd.len() {
                assert(f[a] == fd[a]);
                assert(d.contains(fd[a]));
                let m = choose|m: int| 0 <= m < d.len() && d[m] == fd[a];
                assert(s[m] == f[a]);
                assert(f[b] == s[s.len() - 1]);
            } else {
                assert(f[b] == fd[b]);
                assert(d.contains(fd[b]));
                let m = choose|m: int| 0 <= m < d.len() && d[m] == fd[b];
                assert(s[m] == f[b]);
                assert(f[a] == s[s.len() - 1]);
            }
        }
    }
}

proof fn lemma_strip(s: SwarmView, pid: Seq<char>)
    requires
        swarm_wf(s),
    ensures
        swarm_wf(strip_peer(s, pid)),
        strip_peer(s, pid).info_hash == s.info_hash,
        forall|x: Seq<char>|
            #[trigger] peer_ids(strip_peer(s, pid).peers).contains(x) <==> (peer_ids(s.peers).contains(
                x,
            ) && x != pid),
{
    lemma_without(s.peers, pid);
    lemma_set_remove(s.complete, pid);
    let r = strip_peer(s, pid);
    assert forall|c: Seq<char>| #[trigger] r.complete.contains(c) implies peer_ids(r.peers).contains(c) by {
        assert(s.complete.contains(c));
    }
}

/// A peer leaving keeps the tracker well formed, and afterwards the peer is
/// in no swarm and has no record.
pub proof fn lemma_leave(t: TrackerView, pid: Seq<char>)
    requires
        tracker_wf(t),
    ensures
        tracker_wf(tracker_leave(t, pid)),
        forall|i: int|
            0 <= i < tracker_leave(t, pid).swarms.len() ==> !peer_ids(
                #[trigger] tracker_leave(t, pid).swarms[i].peers,
            ).contains(pid),
        !has_meta(tracker_leave(t, pid).meta, pid),
{
    if !has_meta(t.meta, pid) {
        assert forall|i: int| 0 <= i < t.swarms.len() implies !peer_ids(
            #[trigger] t.swarms[i].peers,
        ).contains(pid) by {
            if peer_ids(t.swarms[i].peers).contains(pid) {
                let k = choose|k: int| 0 <= k < peer_ids(t.swarms[i].peers).len() && peer_ids(t.swarms[i].peers)[k] == pid;
                assert(t.swarms[i].peers[k].0 == pid);
                assert(peer_recorded(t.meta, t.swarms[i].peers[k].0, t.swarms[i].info_hash));
                let j = choose|j: int| 0 <= j < t.meta.len() && #[trigger] t.meta[j].peer_id == pid && t.meta[j].hashes.contains(t.swarms[i].info_hash);
                assert(has_meta(t.meta, pid));
            }
        }
        return;
    }
    let j = meta_index(t.meta, pid);
    let hs = t.meta[j].hashes;
    let g = |s: SwarmView|
        if hs.contains(s.info_hash) {
            strip_peer(s, pid)
        } else {
            s
        };
    let p = |s: SwarmView| !(hs.contains(s.info_hash) && s.peers.len() == 0);
    let mapped = t.swarms.map_values(g);
    let n = tracker_leave(t, pid);
    assert(n.swarms == mapped.filter(p));
    assert(n.meta == t.meta.remove(j));
    // after the map, no swarm of the tracker lists `pid`
    assert forall|i: int| 0 <= i < mapped.len() implies swarm_wf(#[trigger] mapped[i]) && mapped[i].info_hash
        == t.swarms[i].info_hash && !peer_ids(mapped[i].peers).contains(pid) && (forall|x: Seq<char>|
        peer_ids(mapped[i].peers).contains(x) ==> peer_ids(t.swarms[i].peers).contains(x)) by {
        let s = t.swarms[i];
        assert(swarm_wf(s));
        lemma_strip(s, pid);
        if !hs.contains(s.info_hash) {
            if peer_ids(s.peers).contains(pid) {
                let k = choose|k: int| 0 <= k < peer_ids(s.peers).len() && peer_ids(s.peers)[k] == pid;
                assert(t.swarms[i].peers[k].0 == pid);
                assert(peer_recorded(t.meta, t.swarms[i].peers[k].0, t.swarms[i].info_hash));
                let j2 = choose|j2: int| 0 <= j2 < t.meta.len() && #[trigger] t.meta[j2].peer_id == pid && t.meta[j2].hashes.contains(s.info_hash);
                assert(j2 == j);
            }
        }
    }
    assert forall|a: int, b: int|
        0 <= a < mapped.len() && 0 <= b < mapped.len() && a != b implies #[trigger] mapped[a].info_hash
            != #[trigger] mapped[b].info_hash by {
        assert(mapped[a].info_hash == t.swarms[a].info_hash);
        assert(mapped[b].info_hash == t.swarms[b].info_hash);
    }
    lemma_filter_swarms(mapped, p);
    let f = mapped.filter(p);
    // meta
    assert forall|a: int, b: int|
        0 <= a < n.meta.len() && 0 <= b < n.meta.len() && a != b implies #[trigger] n.meta[a].peer_id
            != #[trigger] n.meta[b].peer_id by {
        let a2 = if a < j { a } else { a + 1 };
        let b2 = if b < j { b } else { b + 1 };
        assert(n.meta[a] == t.meta[a2]);
        assert(n.meta[b] == t.meta[b2]);
    }
    assert forall|a: int| 0 <= a < n.meta.len() implies (#[trigger] n.meta[a]).hashes.no_duplicates() by {
        let a2 = if a < j { a } else { a + 1 };
        assert(n.meta[a] == t.meta[a2]);
    }
    assert forall|a: int| 0 <= a < n.swarms.len() implies swarm_wf(#[trigger] n.swarms[a]) by {
        assert(mapped.contains(f[a]));
        let i = choose|i: int| 0 <= i < mapped.len() && mapped[i] == f[a];
    }
    assert forall|a: int| 0 <= a < n.swarms.len() implies !peer_ids(#[trigger] n.swarms[a].peers).contains(pid) by {
        assert(mapped.contains(f[a]));
        let i = choose|i: int| 0 <= i < mapped.len() && mapped[i] == f[a];
    }
    assert forall|a: int, k: int|
        0 <= a < n.swarms.len() && 0 <= k < n.swarms[a].peers.len() implies peer_recorded(
            n.meta,
            #[trigger] n.swarms[a].peers[k].0,
            n.swarms[a].info_hash,
        ) by {
        assert(mapped.contains(f[a]));
        let i = choose|i: int| 0 <= i < mapped.len() && mapped[i] == f[a];
        let q = n.swarms[a].peers[k].0;
        assert(peer_ids(mapped[i].peers)[k] == q);
        assert(peer_ids(mapped[i].peers).contains(q));
        assert(peer_ids(t.swarms[i].peers).contains(q));
        assert(q != pid);
        let k2 = choose|k2: int| 0 <= k2 < peer_ids(t.swarms[i].peers).len() && peer_ids(t.swarms[i].peers)[k2] == q;
        assert(t.swarms[i].peers[k2].0 == q);
        assert(peer_recorded(t.meta, t.swarms[i].peers[k2].0, t.swarms[i].info_hash));
        let m = choose|m: int| 0 <= m < t.meta.len() && #[trigger] t.meta[m].peer_id == q && t.meta[m].hashes.contains(t.swarms[i].info_hash);
        assert(m != j);
        let m2 = if m < j { m } else { m - 1 };
        assert(n.meta[m2] == t.meta[m]);
    }
    assert(!has_meta(n.meta, pid)) by {
        if has_meta(n.meta, pid) {
            let a = choose|a: int| 0 <= a < n.meta.len() && #[trigger] n.meta[a].peer_id == pid;
            let a2 = if a < j { a } else { a + 1 };
            assert(n.meta[a] == t.meta[a2]);
        }
    }
}

impl TrackerState {
    /// Forgets a peer whose connection closed: it leaves every swarm it
    /// announced, and those swarms left without peers are dropped.
    pub fn remove_peer(&mut self, peer_id: &String)
        requires
            old(self).wf(),
        ensures
            final(self).wf(),
            final(self)@ == tracker_leave(old(self)@, peer_id@),
    {
        let ghost t0 = self@;
        proof {
            lemma_leave(t0, peer_id@);
        }
        match self.find_meta(peer_id) {
            None => {},
            Some(j) => {
                let m = self.peer_meta.remove(j);
                assert(m.view() == t0.meta[j as int]);
                assert(self@.meta =~= t0.meta.remove(j as int));
                let hs = m.info_hashes;
                let ghost hsv = hs.deep_view();
                let ghost g = |s: SwarmView|
                    if hsv.contains(s.info_hash) {
                        strip_peer(s, peer_id@)
                    } else {
                        s
                    };
                let ghost p = |s: SwarmView| !(hsv.contains(s.info_hash) && s.peers.len() == 0);
                let mut rest: Vec<Swarm> = Vec::new();
                std::mem::swap(&mut rest, &mut self.swarms);
                let ghost orig = t0.swarms;
                let ghost mut k: int = 0;
                assert(rest@.map_values(|s: Swarm| s.view()) =~= orig.skip(0));
                assert(orig.take(0).map_values(g).filter(p) =~= Seq::<SwarmView>::empty()) by {
                    reveal_with_fuel(Seq::filter, 1);
                }
                assert(self.swarms@.map_values(|s: Swarm| s.view()) =~= Seq::<SwarmView>::empty());
                while rest.len() > 0
                    invariant
                        0 <= k <= orig.len(),
                        orig == t0.swarms,
                        self@.meta == t0.meta.remove(j as int),
                        tracker_wf(t0),
                        hsv == hs.deep_view(),
                        g == (|s: SwarmView|
                            if hsv.contains(s.info_hash) {
                                strip_peer(s, peer_id@)
                            } else {
                                s
                            }),
                        p == (|s: SwarmView| !(hsv.contains(s.info_hash) && s.peers.len() == 0)),
                        rest@.map_values(|s: Swarm| s.view()) == orig.skip(k),
                        self.swarms@.map_values(|s: Swarm| s.view()) == orig.take(k).map_values(g).filter(p),
                    decreases rest.len(),
                {
                    let ghost before = self.swarms@.map_values(|s: Swarm| s.view());
                    assert(rest@.map_values(|s: Swarm| s.view()).len() == rest@.len());
                    assert(k < orig.len());
                    let ghost rb = rest@;
                    let sw = rest.remove(0);
                    assert forall|i: int| 0 <= i < rest@.len() implies #[trigger] rest@[i].view() == orig[k + 1 + i] by {
                        assert(rest@[i] == rb[i + 1]);
                        assert(rb.map_values(|s: Swarm| s.view())[i + 1] == orig.skip(k)[i + 1]);
                    }
                    assert(sw.view() == orig.skip(k)[0]);
                    assert(sw.view() == orig[k]);
                    assert(swarm_wf(orig[k]));
                    assert(rest@.map_values(|s: Swarm| s.view()) =~= orig.skip(k + 1));
                    let ghost e = g(orig[k]);
                    proof {
                        assert(orig.take(k + 1).map_values(g) =~= orig.take(k).map_values(g).push(e));
                        orig.take(k).map_values(g).lemma_filter_push(e, p);
                    }
                    if contains_text(&hs, &sw.info_hash) {
                        let s2 = strip_swarm(sw, peer_id);
                        assert(s2.view() == e);
                        if s2.peers.len() > 0 {
                            self.swarms.push(s2);
                            assert(self.swarms@.map_values(|s: Swarm| s.view()) =~= before.push(e));
                        } else {
                            assert(e.peers.len() == 0);
                        }
                    } else {
                        assert(sw.view() == e);
                        self.swarms.push(sw);
                        assert(self.swarms@.map_values(|s: Swarm| s.view()) =~= before.push(e));
                    }
                    proof {
                        k = k + 1;
                    }
                }
                assert(k == orig.len()) by {
                    assert(orig.skip(k).len() == 0);
                }
                assert(orig.take(k) =~= orig);
                assert(self@.swarms == swarms_after_leave(t0.swarms, t0.meta[j as int].hashes, peer_id@));
                assert(self@ == tracker_leave(t0, peer_id@));
            },
        }
    }
}

pub open spec fn announce_action() -> Seq<char> {
    seq!['a', 'n', 'n', 'o', 'u', 'n', 'c', 'e']
}

pub open spec fn scrape_action() -> Seq<char> {
    seq!['s', 'c', 'r', 'a', 'p', 'e']
}

/// The fields of a tracker message that the tracker reads. A field that
/// is missing or of the wrong JSON type reads as `None` (or as empty text,
/// or no offers).
pub struct TrackerMessage {
    /// `action`.
    pub action: String,
    /// `info_hash`, when it is a string.
    pub info_hash: Option<String>,
    /// `peer_id`, when it is a string.
    pub peer_id: Option<String>,
    /// `event`.
    pub event: String,
    /// Whether an `answer` is present.
    pub has_answer: bool,
    /// `to_peer_id`.
    pub to_peer_id: String,
    /// Number of entries of `offers`, when it is an array.
    pub offer_count: usize,
    /// For a scrape: the string entries of `info_hash` when it is an array,
    /// or the one hash when it is a string.
    pub scrape_hashes: Option<Vec<String>>,
}

/// What the server sends in reply to a tracker message.
pub enum TrackerReply {
    /// Nothing.
    Nothing,
    /// An answer to relay, to this connection if the addressee is known.
    Answer(Option<u64>),
    /// The reply to an announce, and the offers to relay.
    Announce(AnnounceOutcome),
    /// Seeders and other peers per info hash.
    Scrape(Vec<(String, usize, usize)>),
}

fn action_text() -> (v: Vec<char>)
    ensures
        v@ == announce_action(),
{
    let v = vec!['a', 'n', 'n', 'o', 'u', 'n', 'c', 'e'];
    assert(v@ =~= announce_action());
    v
}

fn scrape_text() -> (v: Vec<char>)
    ensures
        v@ == scrape_action(),
{
    let v = vec!['s', 'c', 'r', 'a', 'p', 'e'];
    assert(v@ =~= scrape_action());
    v
}

/// What handling `msg` from connection `conn` does: the tracker goes
/// from `t0` to `t1`, the connection's peer from `slot0` to `slot1`, and
/// `r` is sent back.
pub open spec fn tracker_reply(
    t0: TrackerView,
    msg: TrackerMessage,
    conn: u64,
    slot0: Option<String>,
    t1: TrackerView,
    slot1: Option<String>,
    r: TrackerReply,
) -> bool {
    let announce = msg.action@ == announce_action() && msg.info_hash is Some
        && msg.peer_id is Some;
    &&& announce ==> slot1 == msg.peer_id
    &&& !announce ==> slot1 == slot0
    &&& (announce && !msg.has_answer) ==> t1 == tracker_announce(
        t0,
        msg.info_hash->0@,
        msg.peer_id->0@,
        conn,
        msg.event@,
    )
    &&& !(announce && !msg.has_answer) ==> t1 == t0
    &&& announce && msg.has_answer ==> r == TrackerReply::Answer(
        if msg.to_peer_id@.len() > 0 {
            answer_target_spec(t0, msg.info_hash->0@, msg.to_peer_id@)
        } else {
            None
        },
    )
    &&& announce && !msg.has_answer ==> (r matches TrackerReply::Announce(o) && {
        let s = swarm_of(t1, msg.info_hash->0@);
        &&& o.complete == swarm_counts(s).0
        &&& o.incomplete == swarm_counts(s).1
        &&& o.relays@ == relay_plan(s.peers, msg.peer_id->0@, msg.offer_count as nat)
    })
    &&& msg.action@ == scrape_action() && msg.scrape_hashes is Some ==> (r matches TrackerReply::Scrape(
        v,
    ) && {
        let hs = msg.scrape_hashes->0;
        &&& v.len() == hs.len()
        &&& forall|i: int|
            0 <= i < hs.len() ==> {
                let e = #[trigger] v@[i];
                &&& e.0@ == hs@[i]@
                &&& e.1 == swarm_counts(swarm_of(t0, hs@[i]@)).0
                &&& e.2 == swarm_counts(swarm_of(t0, hs@[i]@)).1
            }
    })
    &&& !announce && !(msg.action@ == scrape_action() && msg.scrape_hashes is Some) ==> r
        == TrackerReply::Nothing
}

impl TrackerState {
    /// Forgets every swarm and peer.
    pub fn clear(&mut self)
        ensures
            final(self).wf(),
            final(self)@.swarms.len() == 0,
            final(self)@.meta.len() == 0,
    {
        *self = TrackerState::new();
    }

    /// Handles one message from connection `conn`. An announce that names
    /// an info hash and a peer id sets `peer_slot` to that peer; with an
    /// answer it is only relayed, otherwise the peer is registered. A scrape
    /// reports the counts of the hashes asked for.
    pub fn handle_message(&mut self, msg: &TrackerMessage, conn: u64, peer_slot: &mut Option<String>) -> (r:
        TrackerReply)
        requires
            old(self).wf(),
        ensures
            final(self).wf(),
            tracker_reply(old(self)@, *msg, conn, *old(peer_slot), final(self)@, *final(peer_slot), r),
    {
        if text_is(&msg.action, &action_text()) {
            match (&msg.info_hash, &msg.peer_id) {
                (Some(ih), Some(pid)) => {
                    *peer_slot = Some(pid.clone());
                    if msg.has_answer {
                        if msg.to_peer_id.as_str().is_empty() {
                            TrackerReply::Answer(None)
                        } else {
                            TrackerReply::Answer(self.answer_target(ih, &msg.to_peer_id))
                        }
                    } else {
                        TrackerReply::Announce(self.announce(ih, pid, conn, &msg.event, msg.offer_count))
                    }
                },
                _ => TrackerReply::Nothing,
            }
        } else if text_is(&msg.action, &scrape_text()) {
            match &msg.scrape_hashes {
                Some(hs) => TrackerReply::Scrape(self.scrape(hs)),
                None => TrackerReply::Nothing,
            }
        } else {
            TrackerReply::Nothing
        }
    }
}

proof fn lemma_others_distinct(ps: Seq<(Seq<char>, u64)>, pid: Seq<char>)
    requires
        peer_ids(ps).no_duplicates(),
    ensures
        forall|i: int| 0 <= i < relay_others(ps, pid).len() ==> ps.contains(#[trigger] relay_others(ps, pid)[i]),
        forall|i: int| 0 <= i < relay_others(ps, pid).len() ==> (#[trigger] relay_others(ps, pid)[i]).0 != pid,
        forall|i: int, j: int|
            0 <= i < j < relay_others(ps, pid).len() ==> (#[trigger] relay_others(ps, pid)[i]).0 != (
            #[trigger] relay_others(ps, pid)[j]).0,
    decreases ps.len(),
{
    let p = not_peer(pid);
    let o = relay_others(ps, pid);
    assert forall|i: int| 0 <= i < o.len() implies ps.contains(#[trigger] o[i]) && o[i].0 != pid by {
        ps.lemma_filter_pred(p, i);
        ps.lemma_filter_contains_rev(p, o[i]);
    }
    if ps.len() > 0 {
        let d = ps.drop_last();
        let e = ps.last();
        assert(peer_ids(d).no_duplicates()) by {
            assert forall|i: int, j: int| 0 <= i < j < peer_ids(d).len() implies peer_ids(d)[i] != peer_ids(d)[j] by {
                assert(peer_ids(d)[i] == peer_ids(ps)[i] && peer_ids(d)[j] == peer_ids(ps)[j]);
            }
        }
        lemma_others_distinct(d, pid);
        assert(ps =~= d.push(e));
        d.lemma_filter_push(e, p);
        let od = relay_others(d, pid);
        assert forall|i: int, j: int| 0 <= i < j < o.len() implies (#[trigger] o[i]).0 != (#[trigger] o[j]).0 by {
            if j < od.len() {
                assert(o[i] == od[i] && o[j] == od[j]);
            } else {
                assert(o[j] == e);
                assert(o[i] == od[i]);
                assert(d.contains(od[i]));
                let k = choose|k: int| 0 <= k < d.len() && d[k] == od[i];
                assert(peer_ids(ps)[k] == od[i].0);
                assert(peer_ids(ps)[ps.len() - 1] == e.0);
            }
        }
    }
}

/// Offers announced by `pid` are relayed only to the connections of the
/// swarm's other peers, each of them once in turn (offer `i` to the
/// `i % n`-th of the `n` others), so that offers go to different peers
/// while there are enough of them; a peer whose connection closed before
/// gets none.
pub proof fn lemma_relays_reach_other_peers(
    t: TrackerView,
    ih: Seq<char>,
    pid: Seq<char>,
    conn: u64,
    event: Seq<char>,
    gone: Seq<char>,
    offer_count: nat,
)
    requires
        tracker_wf(t),
        pid != gone,
    ensures
        ({
            let s = swarm_of(tracker_announce(tracker_leave(t, gone), ih, pid, conn, event), ih);
            let others = relay_others(s.peers, pid);
            let plan = relay_plan(s.peers, pid, offer_count);
            &&& forall|i: int|
                0 <= i < others.len() ==> s.peers.contains(#[trigger] others[i]) && others[i].0 != pid
                    && others[i].0 != gone
            &&& forall|i: int, j: int| 0 <= i < j < others.len() ==> (#[trigger] others[i]).0 != (#[trigger] others[j]).0
            &&& others.len() == 0 ==> plan.len() == 0
            &&& others.len() > 0 ==> plan.len() == offer_count && forall|i: int|
                0 <= i < plan.len() ==> #[trigger] plan[i] == (others[i % others.len() as int].1, i as usize)
        }),
{
    let t1 = tracker_leave(t, gone);
    lemma_leave(t, gone);
    let old_s = swarm_of(t1, ih);
    assert(swarm_wf(old_s) && !peer_ids(old_s.peers).contains(gone)) by {
        if has_swarm(t1.swarms, ih) {
            let k = swarm_index(t1.swarms, ih);
            assert(swarm_wf(t1.swarms[k]));
            assert(!peer_ids(t1.swarms[k].peers).contains(gone));
        } else {
            assert(peer_ids(empty_swarm(ih).peers) =~= Seq::<Seq<char>>::empty());
        }
    }
    lemma_swarm_of_announce(t1, ih, pid, conn, event);
    lemma_announce_swarm(old_s, pid, conn, event);
    let s = announce_swarm(old_s, pid, conn, event);
    lemma_others_distinct(s.peers, pid);
    let others = relay_others(s.peers, pid);
    assert forall|i: int| 0 <= i < others.len() implies others[i].0 != gone by {
        assert(s.peers.contains(others[i]));
        let k = choose|k: int| 0 <= k < s.peers.len() && s.peers[k] == others[i];
        assert(peer_ids(s.peers)[k] == others[i].0);
        assert(peer_ids(s.peers).contains(others[i].0));
    }
}

} // verus!
