//! The replication client: replaying fetched version-log tails into a
//! replica's local store, and the per-peer connection state machine.
//!
//! A replica holds its own entry store plus `pos`, the highest log version
//! it has fully applied. Replay walks a fetched tail in order: versions at
//! or below `pos` are discarded as already applied, every entry of a newer
//! version is added to its category — deduplicated by value, since replay is
//! at-least-once — and only once all entries of a version are in does `pos`
//! advance to it. `pos` never rewinds.

use vstd::prelude::*;

use crate::data::{add_spec, entries_of, lemma_add_spec, tree_wf, CatV, EntryV, Tree, TreeV};
use crate::log::{log_wf, vds_view, VersionedDelta, VersionedDeltaV};
use crate::store::{store_wf, EntryStore};
use crate::Error;

verus! {

/// The version a replica has reached: `0` when it has never synced.
pub open spec fn pos_version(pos: Option<u64>) -> u64 {
    match pos {
        None => 0,
        Some(p) => p,
    }
}

/// Whether `version` is still ahead of the high-water mark `pos`.
pub open spec fn pos_before(pos: Option<u64>, version: u64) -> bool {
    pos_version(pos) < version
}

/// One replayed entry: added to its category unless an entry of the same
/// value is already there.
pub open spec fn apply_one(t: TreeV, c: Seq<char>, e: EntryV) -> TreeV {
    if entries_of(t, c).contains(e) {
        t
    } else {
        add_spec(t, c, e)
    }
}

/// One category's entries replayed in order.
pub open spec fn apply_entries(t: TreeV, c: Seq<char>, es: Seq<EntryV>) -> TreeV
    decreases es.len(),
{
    if es.len() == 0 {
        t
    } else {
        apply_entries(apply_one(t, c, es[0]), c, es.drop_first())
    }
}

/// One delta replayed: every category's entries, categories in delta order.
pub open spec fn apply_delta(t: TreeV, d: TreeV) -> TreeV
    decreases d.len(),
{
    if d.len() == 0 {
        t
    } else {
        apply_delta(apply_entries(t, d[0].0, d[0].1), d.drop_first())
    }
}

/// One versioned delta replayed against a replica: versions not ahead of
/// `pos` are discarded (already applied — not an error); a newer version is
/// applied in full and then `pos` advances to it.
pub open spec fn replay_step(t: TreeV, pos: Option<u64>, vd: VersionedDeltaV) -> (TreeV, Option<
    u64,
>) {
    if pos_before(pos, vd.version) {
        (apply_delta(t, vd.delta), Some(vd.version))
    } else {
        (t, pos)
    }
}

/// A whole fetched tail replayed in order.
pub open spec fn replay_log(t: TreeV, pos: Option<u64>, vds: Seq<VersionedDeltaV>) -> (TreeV, Option<
    u64,
>)
    decreases vds.len(),
{
    if vds.len() == 0 {
        (t, pos)
    } else {
        let s = replay_step(t, pos, vds[0]);
        replay_log(s.0, s.1, vds.drop_first())
    }
}

/// One replica's local mirror: its entry store plus the last log version it
/// has fully applied. `None` means it has never synced and must request the
/// entire log.
pub struct ReplicaState {
    pub store: EntryStore,
    pub pos: Option<u64>,
}

/// The replica's invariant: a well-formed store.
pub open spec fn replica_wf(r: ReplicaState) -> bool {
    store_wf(r.store)
}

impl ReplicaState {
    /// A never-synced replica with an empty store.
    pub fn new() -> (r: ReplicaState)
        ensures
            r.store.tree@ == Seq::<CatV>::empty(),
            r.pos is None,
            !r.store.has_subscriber,
            !r.store.notice_pending,
            replica_wf(r),
    {
        ReplicaState { store: EntryStore::new(), pos: None }
    }

    /// Rebuilds a replica from persisted state: the mirrored tree and the
    /// persisted high-water mark.
    pub fn restore(tree: Tree, pos: Option<u64>) -> (r: ReplicaState)
        requires
            tree_wf(tree@),
        ensures
            r.store.tree@ == tree@,
            r.pos == pos,
            !r.store.has_subscriber,
            !r.store.notice_pending,
            replica_wf(r),
    {
        ReplicaState {
            store: EntryStore { tree, has_subscriber: false, notice_pending: false },
            pos,
        }
    }

    /// The highest applied version, `0` when never synced.
    pub fn current_version(&self) -> (v: u64)
        ensures
            v == pos_version(self.pos),
    {
        match self.pos {
            None => 0,
            Some(p) => p,
        }
    }

    /// Advances the high-water mark to `version` unless that would rewind
    /// it; a stale version is ignored.
    pub fn set_version(&mut self, version: u64)
        ensures
            final(self).store == old(self).store,
            final(self).pos == if pos_before(old(self).pos, version) {
                Some(version)
            } else {
                old(self).pos
            },
    {
        let cur = self.current_version();
        if version > cur {
            self.pos = Some(version);
        }
    }
}

/// Replays a fetched version-log tail into the local replica, in order.
/// Every entry of every version newer than the replica's high-water mark is
/// added to its category unless already present by value; `pos` advances to
/// a version only once all of that version's entries are in. If anything
/// was applied and a subscriber is registered, the store's change notice is
/// raised once.
fn replay_tail(replica: &mut ReplicaState, tail: &Vec<VersionedDelta>)
    requires
        replica_wf(*old(replica)),
    ensures
        replica_wf(*final(replica)),
        final(replica).store.tree@ == replay_log(
            old(replica).store.tree@,
            old(replica).pos,
            vds_view(tail@),
        ).0,
        final(replica).pos == replay_log(
            old(replica).store.tree@,
            old(replica).pos,
            vds_view(tail@),
        ).1,
        final(replica).store.has_subscriber == old(replica).store.has_subscriber,
        final(replica).store.notice_pending == (old(replica).store.notice_pending || (old(
            replica,
        ).store.has_subscriber && final(replica).pos != old(replica).pos)),
{
    let ghost t0 = replica.store.tree@;
    let ghost p0 = replica.pos;
    let ghost vds = vds_view(tail@);
    let mut applied = false;
    let mut i: usize = 0;
    proof {
        assert(vds.skip(0) =~= vds);
    }
    while i < tail.len()
        invariant
            i <= tail@.len(),
            vds == vds_view(tail@),
            tree_wf(replica.store.tree@),
            replay_log(t0, p0, vds) == replay_log(
                replica.store.tree@,
                replica.pos,
                vds.skip(i as int),
            ),
            replica.store.has_subscriber == old(replica).store.has_subscriber,
            replica.store.notice_pending == old(replica).store.notice_pending,
            applied == (replica.pos != p0),
            pos_version(p0) <= pos_version(replica.pos),
            replica.pos != p0 ==> replica.pos is Some && pos_version(p0) < pos_version(
                replica.pos,
            ),
        decreases tail@.len() - i,
    {
        let ghost t_i = replica.store.tree@;
        let ghost p_i = replica.pos;
        proof {
            assert(vds.skip(i as int)[0] == vds[i as int]);
            assert(vds.skip(i as int).drop_first() =~= vds.skip(i + 1));
            assert(vds[i as int] == tail@[i as int]@);
        }
        let vd = &tail[i];
        let cur = replica.current_version();
        if vd.version > cur {
            let ghost tv = replica.store.tree@;
            let d = &vd.delta;
            let ghost dv = d@;
            proof {
                assert(dv == vds[i as int].delta);
                assert(dv.skip(0) =~= dv);
            }
            let mut j: usize = 0;
            while j < d.cats.len()
                invariant
                    j <= d.cats@.len(),
                    dv == d@,
                    dv.len() == d.cats@.len(),
                    tree_wf(replica.store.tree@),
                    apply_delta(tv, dv) == apply_delta(replica.store.tree@, dv.skip(j as int)),
                    replica.pos == p_i,
                    replica.store.has_subscriber == old(replica).store.has_subscriber,
                    replica.store.notice_pending == old(replica).store.notice_pending,
                decreases d.cats@.len() - j,
            {
                let ghost tc = replica.store.tree@;
                let ghost cv = dv[j as int];
                proof {
                    assert(dv.skip(j as int)[0] == dv[j as int]);
                    assert(dv.skip(j as int).drop_first() =~= dv.skip(j + 1));
                    assert(cv == crate::data::pair_view(d.cats@[j as int]));
                    assert(cv.1.skip(0) =~= cv.1);
                }
                let c = &d.cats[j];
                let mut k: usize = 0;
                while k < c.1.len()
                    invariant
                        k <= c.1@.len(),
                        cv.0 == c.0@,
                        cv.1 == crate::data::entries_view(c.1@),
                        cv.1.len() == c.1@.len(),
                        tree_wf(replica.store.tree@),
                        apply_entries(tc, cv.0, cv.1) == apply_entries(
                            replica.store.tree@,
                            cv.0,
                            cv.1.skip(k as int),
                        ),
                        replica.pos == p_i,
                        replica.store.has_subscriber == old(replica).store.has_subscriber,
                        replica.store.notice_pending == old(replica).store.notice_pending,
                    decreases c.1@.len() - k,
                {
                    let ghost tk = replica.store.tree@;
                    proof {
                        assert(cv.1.skip(k as int)[0] == cv.1[k as int]);
                        assert(cv.1.skip(k as int).drop_first() =~= cv.1.skip(k + 1));
                        assert(cv.1[k as int] == c.1@[k as int]@);
                    }
                    let e = &c.1[k];
                    if !replica.store.tree.contains_entry(&c.0, e) {
                        replica.store.tree.add(c.0.clone(), e.duplicate());
                    }
                    proof {
                        assert(replica.store.tree@ == apply_one(tk, cv.0, cv.1[k as int]));
                    }
                    k = k + 1;
                }
                proof {
                    assert(cv.1.skip(c.1@.len() as int) =~= Seq::<EntryV>::empty());
                    assert(apply_entries(tc, cv.0, cv.1) == replica.store.tree@);
                }
                j = j + 1;
            }
            proof {
                assert(dv.skip(d.cats@.len() as int) =~= Seq::<CatV>::empty());
                assert(apply_delta(tv, dv) == replica.store.tree@);
            }
            replica.pos = Some(vd.version);
            applied = true;
            proof {
                assert(pos_before(p_i, vds[i as int].version));
                assert(replay_step(t_i, p_i, vds[i as int]) == (
                    replica.store.tree@,
                    replica.pos,
                ));
            }
        } else {
            proof {
                assert(!pos_before(p_i, vds[i as int].version));
                assert(replay_step(t_i, p_i, vds[i as int]) == (t_i, p_i));
            }
        }
        i = i + 1;
    }
    proof {
        assert(vds.skip(vds.len() as int) =~= Seq::<VersionedDeltaV>::empty());
    }
    if applied && replica.store.has_subscriber {
        replica.store.notice_pending = true;
    }
}

/// Forwards a fetched version-log tail into the local store, exactly as
/// [`replay_tail`] specifies, reporting success to the transport loop that
/// fetched it. In this sequential model the replay itself cannot fail; the
/// embedding process maps its own store-synchronization failures to
/// [`Error::LockFailure`] before the tail ever reaches this function.
pub fn send_to_dbus_server(replica: &mut ReplicaState, serv_data: Vec<VersionedDelta>) -> (r:
    Result<(), Error>)
    requires
        replica_wf(*old(replica)),
    ensures
        r is Ok,
        replica_wf(*final(replica)),
        final(replica).store.tree@ == replay_log(
            old(replica).store.tree@,
            old(replica).pos,
            vds_view(serv_data@),
        ).0,
        final(replica).pos == replay_log(
            old(replica).store.tree@,
            old(replica).pos,
            vds_view(serv_data@),
        ).1,
        final(replica).store.has_subscriber == old(replica).store.has_subscriber,
        final(replica).store.notice_pending == (old(replica).store.notice_pending || (old(
            replica,
        ).store.has_subscriber && final(replica).pos != old(replica).pos)),
{
    replay_tail(replica, &serv_data);
    Ok(())
}

/// The connection phase of one peer's replication loop:
/// `Disconnected → Connecting → Active`, and back to `Disconnected` on any
/// transport error.
pub enum ConnPhase {
    Disconnected,
    Connecting,
    Active,
}

/// What the transport loop that owns the socket must do next.
pub enum ClientAction {
    /// Issue `Since(pos)` against the remote — fetch or stream the log tail
    /// after `pos`, the whole log when `None`.
    Fetch(Option<u64>),
    /// Wait out the backoff interval, then start connecting again.
    Backoff,
    /// Nothing; keep delivering what arrives.
    Idle,
}

/// What one successful attempt to decode and replay buffered stream data
/// produced.
pub enum PumpOutcome {
    /// One frame was decoded, consumed and replayed.
    Progressed,
    /// No whole frame is buffered yet; read more bytes first.
    NeedMoreData,
}

/// One remote peer's replication state machine: the local replica, the
/// connection phase, and the accumulating buffer of undecoded stream bytes.
/// The embedding process performs the I/O — connecting, reading, sleeping —
/// and feeds the results in; every decision lives here.
pub struct ReplicationClient {
    pub replica: ReplicaState,
    pub phase: ConnPhase,
    pub buf: Vec<u8>,
}

pub open spec fn client_wf(c: ReplicationClient) -> bool {
    replica_wf(c.replica)
}

impl ReplicationClient {
    /// A client for one peer, starting disconnected.
    pub fn new(replica: ReplicaState) -> (c: ReplicationClient)
        requires
            replica_wf(replica),
        ensures
            c.replica == replica,
            c.phase is Disconnected,
            c.buf@ == Seq::<u8>::empty(),
            client_wf(c),
    {
        ReplicationClient { replica, phase: ConnPhase::Disconnected, buf: Vec::new() }
    }

    /// Begins a connection attempt.
    pub fn start_connect(&mut self) -> (a: ClientAction)
        ensures
            final(self).replica == old(self).replica,
            final(self).buf == old(self).buf,
            final(self).phase is Connecting,
            a is Idle,
    {
        self.phase = ConnPhase::Connecting;
        ClientAction::Idle
    }

    /// The transport connected: enter the active phase with a fresh stream
    /// buffer, and catch up from the persisted high-water mark.
    pub fn on_connected(&mut self) -> (a: ClientAction)
        ensures
            final(self).replica == old(self).replica,
            final(self).buf@ == Seq::<u8>::empty(),
            final(self).phase is Active,
            a == ClientAction::Fetch(old(self).replica.pos),
    {
        self.phase = ConnPhase::Active;
        self.buf = Vec::new();
        ClientAction::Fetch(self.replica.pos)
    }

    /// The transport failed or dropped: back to disconnected, keeping the
    /// replica — and so the persisted `pos` — untouched, and retry after a
    /// backoff.
    pub fn on_connection_error(&mut self) -> (a: ClientAction)
        ensures
            final(self).replica == old(self).replica,
            final(self).buf@ == Seq::<u8>::empty(),
            final(self).phase is Disconnected,
            a is Backoff,
    {
        self.phase = ConnPhase::Disconnected;
        self.buf = Vec::new();
        ClientAction::Backoff
    }

    /// Appends bytes read from the stream to the undecoded buffer.
    pub fn feed(&mut self, chunk: &[u8])
        ensures
            final(self).replica == old(self).replica,
            final(self).phase == old(self).phase,
            final(self).buf@ == old(self).buf@ + chunk@,
    {
        crate::wire::push_bytes(&mut self.buf, chunk);
    }

    /// Attempts to decode one frame from the buffer and replay it. Call
    /// repeatedly until it reports `NeedMoreData`. A malformed frame is a
    /// [`Error::MalformedFrame`] and resets the connection: there is no
    /// in-band way to resynchronize the stream.
    pub fn pump(&mut self) -> (r: Result<PumpOutcome, Error>)
        requires
            client_wf(*old(self)),
        ensures
            client_wf(*final(self)),
            match crate::wire::frame_dec(old(self).buf@) {
                crate::wire::FrameDecV::Incomplete => {
                    &&& r == Ok::<PumpOutcome, Error>(PumpOutcome::NeedMoreData)
                    &&& final(self).replica == old(self).replica
                    &&& final(self).phase == old(self).phase
                    &&& final(self).buf@ == old(self).buf@
                },
                crate::wire::FrameDecV::Payload(m, rest) => {
                    &&& r == Ok::<PumpOutcome, Error>(PumpOutcome::Progressed)
                    &&& final(self).buf@ == rest
                    &&& final(self).phase == old(self).phase
                    &&& final(self).replica.store.tree@ == replay_log(
                        old(self).replica.store.tree@,
                        old(self).replica.pos,
                        m,
                    ).0
                    &&& final(self).replica.pos == replay_log(
                        old(self).replica.store.tree@,
                        old(self).replica.pos,
                        m,
                    ).1
                    &&& final(self).replica.store.has_subscriber
                        == old(self).replica.store.has_subscriber
                },
                crate::wire::FrameDecV::Malformed => {
                    &&& r == Err::<PumpOutcome, Error>(Error::MalformedFrame)
                    &&& final(self).replica == old(self).replica
                    &&& final(self).phase is Disconnected
                    &&& final(self).buf@ == Seq::<u8>::empty()
                },
            },
    {
        match crate::wire::decode_frame(&mut self.buf) {
            crate::wire::DecodeOutcome::Incomplete => Ok(PumpOutcome::NeedMoreData),
            crate::wire::DecodeOutcome::Frame(v) => {
                replay_tail(&mut self.replica, &v);
                Ok(PumpOutcome::Progressed)
            },
            crate::wire::DecodeOutcome::Malformed => {
                self.phase = ConnPhase::Disconnected;
                self.buf = Vec::new();
                Err(Error::MalformedFrame)
            },
        }
    }
}

// ----------------------------------------------------------------------
// The replay laws.
// ----------------------------------------------------------------------

proof fn lemma_seq_push_contains(s: Seq<EntryV>, e: EntryV, y: EntryV)
    ensures
        s.push(e).contains(y) <==> (s.contains(y) || y == e),
{
    if y == e {
        assert(s.push(e)[s.len() as int] == e);
        assert(s.push(e).contains(y));
    }
    if s.contains(y) {
        let k = choose|k: int| 0 <= k < s.len() && s[k] == y;
        assert(s.push(e)[k] == y);
        assert(s.push(e).contains(y));
    }
    if s.push(e).contains(y) {
        let k = choose|k: int| 0 <= k < s.push(e).len() && s.push(e)[k] == y;
        if k < s.len() {
            assert(s[k] == y);
            assert(s.contains(y));
        } else {
            assert(y == e);
        }
    }
}

proof fn lemma_seq_head_contains(s: Seq<EntryV>, y: EntryV)
    requires
        s.len() > 0,
    ensures
        s.contains(y) <==> (y == s[0] || s.drop_first().contains(y)),
{
    if s.contains(y) {
        let k = choose|k: int| 0 <= k < s.len() && s[k] == y;
        if k > 0 {
            assert(s.drop_first()[k - 1] == y);
            assert(s.drop_first().contains(y));
        }
    }
    if s.drop_first().contains(y) {
        let k = choose|k: int| 0 <= k < s.drop_first().len() && s.drop_first()[k] == y;
        assert(s[k + 1] == y);
        assert(s.contains(y));
    }
}

/// How one replayed entry changes what the tree holds: afterwards it holds
/// exactly what it held before plus that entry — whether or not the entry
/// was already there.
proof fn lemma_apply_one(t: TreeV, c: Seq<char>, e: EntryV)
    requires
        tree_wf(t),
    ensures
        tree_wf(apply_one(t, c, e)),
        forall|x: Seq<char>, y: EntryV|
            #[trigger] entries_of(apply_one(t, c, e), x).contains(y) <==> (entries_of(
                t,
                x,
            ).contains(y) || (x == c && y == e)),
{
    if entries_of(t, c).contains(e) {
        assert(apply_one(t, c, e) == t);
    } else {
        lemma_add_spec(t, c, e);
        assert forall|x: Seq<char>, y: EntryV|
            #[trigger] entries_of(apply_one(t, c, e), x).contains(y) <==> (entries_of(
                t,
                x,
            ).contains(y) || (x == c && y == e)) by {
            if x == c {
                assert(entries_of(add_spec(t, c, e), x) == entries_of(t, x).push(e));
                lemma_seq_push_contains(entries_of(t, x), e, y);
            } else {
                assert(entries_of(add_spec(t, c, e), x) == entries_of(t, x));
            }
        }
    }
}

/// How one replayed category changes what the tree holds.
proof fn lemma_apply_entries(t: TreeV, c: Seq<char>, es: Seq<EntryV>)
    requires
        tree_wf(t),
    ensures
        tree_wf(apply_entries(t, c, es)),
        forall|x: Seq<char>, y: EntryV|
            #[trigger] entries_of(apply_entries(t, c, es), x).contains(y) <==> (entries_of(
                t,
                x,
            ).contains(y) || (x == c && es.contains(y))),
    decreases es.len(),
{
    if es.len() == 0 {
        assert forall|x: Seq<char>, y: EntryV|
            #[trigger] entries_of(apply_entries(t, c, es), x).contains(y) <==> (entries_of(
                t,
                x,
            ).contains(y) || (x == c && es.contains(y))) by {
            if es.contains(y) {
                let k = choose|k: int| 0 <= k < es.len() && es[k] == y;
                assert(false);
            }
        }
    } else {
        let t1 = apply_one(t, c, es[0]);
        lemma_apply_one(t, c, es[0]);
        lemma_apply_entries(t1, c, es.drop_first());
        assert forall|x: Seq<char>, y: EntryV|
            #[trigger] entries_of(apply_entries(t, c, es), x).contains(y) <==> (entries_of(
                t,
                x,
            ).contains(y) || (x == c && es.contains(y))) by {
            lemma_seq_head_contains(es, y);
            assert(entries_of(apply_entries(t1, c, es.drop_first()), x).contains(y) <==> (
            entries_of(t1, x).contains(y) || (x == c && es.drop_first().contains(y))));
        }
    }
}

/// Whether a delta carries entry `y` for category `x`.
pub open spec fn delta_has(d: TreeV, x: Seq<char>, y: EntryV) -> bool {
    exists|j: int| 0 <= j < d.len() && (#[trigger] d[j]).0 == x && d[j].1.contains(y)
}

/// How one replayed delta changes what the tree holds: afterwards the tree
/// holds exactly what it held before plus everything the delta carries.
proof fn lemma_apply_delta(t: TreeV, d: TreeV)
    requires
        tree_wf(t),
    ensures
        tree_wf(apply_delta(t, d)),
        forall|x: Seq<char>, y: EntryV|
            #[trigger] entries_of(apply_delta(t, d), x).contains(y) <==> (entries_of(
                t,
                x,
            ).contains(y) || delta_has(d, x, y)),
    decreases d.len(),
{
    if d.len() == 0 {
        assert forall|x: Seq<char>, y: EntryV|
            #[trigger] entries_of(apply_delta(t, d), x).contains(y) <==> (entries_of(
                t,
                x,
            ).contains(y) || delta_has(d, x, y)) by {
            if delta_has(d, x, y) {
                let j = choose|j: int| 0 <= j < d.len() && (#[trigger] d[j]).0 == x
                    && d[j].1.contains(y);
                assert(false);
            }
        }
    } else {
        let t1 = apply_entries(t, d[0].0, d[0].1);
        lemma_apply_entries(t, d[0].0, d[0].1);
        lemma_apply_delta(t1, d.drop_first());
        assert forall|x: Seq<char>, y: EntryV|
            #[trigger] entries_of(apply_delta(t, d), x).contains(y) <==> (entries_of(
                t,
                x,
            ).contains(y) || delta_has(d, x, y)) by {
            assert(entries_of(apply_delta(t1, d.drop_first()), x).contains(y) <==> (entries_of(
                t1,
                x,
            ).contains(y) || delta_has(d.drop_first(), x, y)));
            if delta_has(d, x, y) {
                let j = choose|j: int| 0 <= j < d.len() && (#[trigger] d[j]).0 == x
                    && d[j].1.contains(y);
                if j > 0 {
                    assert(d.drop_first()[j - 1] == d[j]);
                    assert(delta_has(d.drop_first(), x, y));
                }
            }
            if delta_has(d.drop_first(), x, y) {
                let j = choose|j: int|
                    0 <= j < d.drop_first().len() && (#[trigger] d.drop_first()[j]).0 == x
                        && d.drop_first()[j].1.contains(y);
                assert(d[j + 1] == d.drop_first()[j]);
                assert(delta_has(d, x, y));
            }
        }
    }
}

/// Replaying a category whose entries are all present changes nothing.
proof fn lemma_apply_entries_noop(t: TreeV, c: Seq<char>, es: Seq<EntryV>)
    requires
        tree_wf(t),
        forall|y: EntryV| #[trigger] es.contains(y) ==> entries_of(t, c).contains(y),
    ensures
        apply_entries(t, c, es) == t,
    decreases es.len(),
{
    if es.len() > 0 {
        assert(es[0] == es[0] && es.contains(es[0]));
        assert(entries_of(t, c).contains(es[0]));
        assert(apply_one(t, c, es[0]) == t);
        assert forall|y: EntryV| #[trigger] es.drop_first().contains(y) implies entries_of(t, c).contains(
            y,
        ) by {
            let k = choose|k: int| 0 <= k < es.drop_first().len() && es.drop_first()[k] == y;
            assert(es[k + 1] == y);
            assert(es.contains(y));
        }
        lemma_apply_entries_noop(t, c, es.drop_first());
    }
}

/// Replaying a delta the tree already holds in full changes nothing.
proof fn lemma_apply_delta_noop(t: TreeV, d: TreeV)
    requires
        tree_wf(t),
        forall|x: Seq<char>, y: EntryV| #[trigger]
            delta_has(d, x, y) ==> entries_of(t, x).contains(y),
    ensures
        apply_delta(t, d) == t,
    decreases d.len(),
{
    if d.len() > 0 {
        assert forall|y: EntryV| #[trigger] d[0].1.contains(y) implies entries_of(t, d[0].0).contains(
            y,
        ) by {
            assert(delta_has(d, d[0].0, y));
        }
        lemma_apply_entries_noop(t, d[0].0, d[0].1);
        assert forall|x: Seq<char>, y: EntryV| #[trigger]
            delta_has(d.drop_first(), x, y) implies entries_of(t, x).contains(y) by {
            let j = choose|j: int|
                0 <= j < d.drop_first().len() && (#[trigger] d.drop_first()[j]).0 == x
                    && d.drop_first()[j].1.contains(y);
            assert(d[j + 1] == d.drop_first()[j]);
            assert(delta_has(d, x, y));
        }
        lemma_apply_delta_noop(t, d.drop_first());
    }
}

/// Law (idempotent replay): applying the same delta twice leaves the tree
/// exactly as applying it once — replay deduplicates by entry value, so
/// at-least-once delivery cannot duplicate entries.
pub proof fn lemma_apply_delta_idempotent(t: TreeV, d: TreeV)
    requires
        tree_wf(t),
    ensures
        tree_wf(apply_delta(t, d)),
        apply_delta(apply_delta(t, d), d) == apply_delta(t, d),
{
    lemma_apply_delta(t, d);
    let t1 = apply_delta(t, d);
    assert forall|x: Seq<char>, y: EntryV| #[trigger]
        delta_has(d, x, y) implies entries_of(t1, x).contains(y) by {}
    lemma_apply_delta_noop(t1, d);
}

/// Law (crash recovery): a client that crashed after replaying all entries
/// of one version but before persisting `pos` for it resumes from the old
/// `pos`, refetches that version and re-replays it — and ends exactly as if
/// it had never crashed.
pub proof fn lemma_crash_replay(
    t: TreeV,
    p: Option<u64>,
    vd: VersionedDeltaV,
    rest: Seq<VersionedDeltaV>,
)
    requires
        tree_wf(t),
        pos_before(p, vd.version),
    ensures
        replay_log(apply_delta(t, vd.delta), p, seq![vd] + rest) == replay_log(
            apply_delta(t, vd.delta),
            Some(vd.version),
            rest,
        ),
{
    let t1 = apply_delta(t, vd.delta);
    lemma_apply_delta_idempotent(t, vd.delta);
    let whole = seq![vd] + rest;
    assert(whole[0] == vd);
    assert(whole.drop_first() =~= rest);
    assert(replay_step(t1, p, vd) == (t1, Some(vd.version)));
}

/// The tree reached by applying every delta of a tail in order,
/// unconditionally: the union of the deltas.
pub open spec fn apply_all(t: TreeV, vds: Seq<VersionedDeltaV>) -> TreeV
    decreases vds.len(),
{
    if vds.len() == 0 {
        t
    } else {
        apply_all(apply_delta(t, vds[0].delta), vds.drop_first())
    }
}

/// Versions strictly increase along the tail.
pub open spec fn ascending(vds: Seq<VersionedDeltaV>) -> bool {
    forall|i: int, j: int|
        0 <= i < j < vds.len() ==> (#[trigger] vds[i]).version < (#[trigger] vds[j]).version
}

/// Replaying a strictly ascending tail that is wholly ahead of `pos`
/// discards nothing: every delta is applied, and `pos` ends at the tail's
/// last version.
pub proof fn lemma_replay_applies_all(t: TreeV, p: Option<u64>, vds: Seq<VersionedDeltaV>)
    requires
        ascending(vds),
        forall|k: int| 0 <= k < vds.len() ==> pos_before(p, (#[trigger] vds[k]).version),
    ensures
        replay_log(t, p, vds).0 == apply_all(t, vds),
        replay_log(t, p, vds).1 == if vds.len() == 0 {
            p
        } else {
            Some(vds.last().version)
        },
    decreases vds.len(),
{
    if vds.len() > 0 {
        assert(pos_before(p, vds[0].version));
        let t1 = apply_delta(t, vds[0].delta);
        let p1 = Some(vds[0].version);
        let rest = vds.drop_first();
        assert forall|i: int, j: int| 0 <= i < j < rest.len() implies (#[trigger] rest[i]).version
            < (#[trigger] rest[j]).version by {
            assert(rest[i] == vds[i + 1] && rest[j] == vds[j + 1]);
        }
        assert forall|k: int| 0 <= k < rest.len() implies pos_before(
            p1,
            (#[trigger] rest[k]).version,
        ) by {
            assert(rest[k] == vds[k + 1]);
            assert(vds[0].version < vds[k + 1].version);
        }
        lemma_replay_applies_all(t1, p1, rest);
        if rest.len() > 0 {
            assert(rest.last() == vds.last());
        }
    }
}

/// Law (full catch-up): a replica that starts never-synced and replays a
/// well-formed log holding versions `1..N` ends with `pos == N` and its
/// tree equal to the union of all the log's deltas, applied in order.
pub proof fn lemma_full_replay(t: TreeV, vds: Seq<VersionedDeltaV>)
    requires
        log_wf(vds),
    ensures
        replay_log(t, None, vds).0 == apply_all(t, vds),
        replay_log(t, None, vds).1 == if vds.len() == 0 {
            None::<u64>
        } else {
            Some(vds.len() as u64)
        },
{
    assert forall|i: int, j: int| 0 <= i < j < vds.len() implies (#[trigger] vds[i]).version < (
    #[trigger] vds[j]).version by {}
    assert forall|k: int| 0 <= k < vds.len() implies pos_before(
        None,
        (#[trigger] vds[k]).version,
    ) by {}
    lemma_replay_applies_all(t, None, vds);
    if vds.len() > 0 {
        assert(vds.last().version == vds.len());
    }
}

/// Law (monotonic high-water mark): replay never rewinds `pos`, and never
/// forgets that a replica has synced.
pub proof fn lemma_pos_monotonic(t: TreeV, p: Option<u64>, vds: Seq<VersionedDeltaV>)
    ensures
        pos_version(p) <= pos_version(replay_log(t, p, vds).1),
        replay_log(t, p, vds).1 is None ==> p is None,
    decreases vds.len(),
{
    if vds.len() > 0 {
        let s = replay_step(t, p, vds[0]);
        lemma_pos_monotonic(s.0, s.1, vds.drop_first());
    }
}

} // verus!
