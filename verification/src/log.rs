//! The version log: the authoritative, append-only history of submissions.
//!
//! Every submission is assigned the next version number — `1, 2, 3, …` with
//! no gaps — and appended together with its delta. The log is never mutated
//! or truncated otherwise. An edge-triggered `updated` flag, set by every
//! submission and cleared by the streaming endpoint once it has produced a
//! frame, drives change notification.

use vstd::prelude::*;

use crate::data::{Tree, TreeV};

verus! {

/// One numbered submission: the version and the delta it added.
#[derive(Debug)]
pub struct VersionedDelta {
    pub version: u64,
    pub delta: Tree,
}

/// The mathematical value of a `VersionedDelta`.
pub ghost struct VersionedDeltaV {
    pub version: u64,
    pub delta: TreeV,
}

impl View for VersionedDelta {
    type V = VersionedDeltaV;

    open spec fn view(&self) -> VersionedDeltaV {
        VersionedDeltaV { version: self.version, delta: self.delta@ }
    }
}

impl VersionedDelta {
    /// A deep copy with the same value.
    pub fn duplicate(&self) -> (d: VersionedDelta)
        ensures
            d@ == self@,
    {
        VersionedDelta { version: self.version, delta: self.delta.duplicate() }
    }
}

/// The mathematical value of a whole log.
pub open spec fn vds_view(s: Seq<VersionedDelta>) -> Seq<VersionedDeltaV> {
    s.map_values(|vd: VersionedDelta| vd@)
}

/// The log's invariant: entry `k` carries version `k + 1`, so versions run
/// `1, 2, 3, …` with no gaps or repeats.
pub open spec fn log_wf(l: Seq<VersionedDeltaV>) -> bool {
    forall|k: int| 0 <= k < l.len() ==> (#[trigger] l[k]).version == k + 1
}

/// The log after one submission: the delta appended under the next version.
pub open spec fn submit_spec(l: Seq<VersionedDeltaV>, d: TreeV) -> Seq<VersionedDeltaV> {
    l.push(VersionedDeltaV { version: (l.len() + 1) as u64, delta: d })
}

/// The replication server's state: the version log plus the edge-triggered
/// change flag that wakes the streaming endpoint.
#[derive(Debug)]
pub struct ServerState {
    pub log: Vec<VersionedDelta>,
    pub updated: bool,
}

/// The server state's invariant: a well-formed log that still has room for
/// another version number.
pub open spec fn server_wf(s: ServerState) -> bool {
    &&& log_wf(vds_view(s.log@))
    &&& s.log@.len() < u64::MAX
}

impl ServerState {
    /// Wraps an initial log — typically the one loaded from durable storage
    /// at startup — with the change flag clear.
    pub fn new(log: Vec<VersionedDelta>) -> (s: ServerState)
        ensures
            s.log@ == log@,
            !s.updated,
    {
        ServerState { log, updated: false }
    }

    /// Whether `log` satisfies the version-log invariant; lets an embedding
    /// process validate a log read from storage before serving it.
    pub fn log_is_wf(log: &Vec<VersionedDelta>) -> (r: bool)
        ensures
            r == (log_wf(vds_view(log@)) && log@.len() < u64::MAX),
    {
        if (log.len() as u64) >= u64::MAX {
            return false;
        }
        let mut i: usize = 0;
        while i < log.len()
            invariant
                i <= log.len(),
                log@.len() < u64::MAX,
                forall|k: int| 0 <= k < i ==> (#[trigger] vds_view(log@)[k]).version == k + 1,
            decreases log.len() - i,
        {
            if log[i].version != (i as u64) + 1 {
                proof {
                    assert(vds_view(log@)[i as int].version != i + 1);
                }
                return false;
            }
            i = i + 1;
        }
        true
    }

    /// Consumes the change flag (test-and-clear). The streaming endpoint
    /// calls this once it has produced a frame incorporating the change.
    pub fn take_updated(&mut self) -> (r: bool)
        ensures
            r == old(self).updated,
            final(self).log == old(self).log,
            !final(self).updated,
    {
        let r = self.updated;
        self.updated = false;
        r
    }

    /// Re-raises the change flag; used when queuing a produced frame for
    /// transmission failed, so the next poll retries with fresh data.
    pub fn mark_updated(&mut self)
        ensures
            final(self).log == old(self).log,
            final(self).updated,
    {
        self.updated = true;
    }

    /// The streaming endpoint's poll step for one connection that has
    /// already been sent everything up to `sent`. When the change flag is
    /// set, it frames the log tail after `sent` and clears the flag —
    /// test-and-clear, so every submission is framed at least once.
    /// Otherwise it produces nothing and changes nothing; the embedding
    /// process then suspends on the change signal rather than spinning. If
    /// queuing the returned frame for transmission fails, the caller
    /// restores the flag with [`ServerState::mark_updated`] so the next
    /// poll retries with fresh data.
    pub fn poll(&mut self, sent: Option<u64>) -> (r: Option<Vec<u8>>)
        requires
            server_wf(*old(self)),
        ensures
            final(self).log == old(self).log,
            match r {
                Some(frame) => {
                    &&& old(self).updated
                    &&& !final(self).updated
                    &&& frame@ == crate::wire::frame_spec(
                        crate::wire::enc_msg(since_spec(vds_view(old(self).log@), sent)),
                    )
                },
                None => {
                    &&& !old(self).updated
                    &&& final(self).updated == old(self).updated
                },
            },
    {
        if self.updated {
            let tail = self.since(sent);
            let frame = crate::wire::encode_frame(&tail);
            self.updated = false;
            Some(frame)
        } else {
            None
        }
    }

    /// The log entries with version greater than `pos` — the tail a replica
    /// at high-water mark `pos` still has to apply — in ascending version
    /// order. `None` asks for the whole log.
    pub fn since(&self, pos: Option<u64>) -> (r: Vec<VersionedDelta>)
        requires
            log_wf(vds_view(self.log@)),
        ensures
            vds_view(r@) == since_spec(vds_view(self.log@), pos),
    {
        let start: usize = match pos {
            None => 0,
            Some(p) => {
                if p < self.log.len() as u64 {
                    p as usize
                } else {
                    self.log.len()
                }
            },
        };
        let mut r: Vec<VersionedDelta> = Vec::new();
        let mut i: usize = start;
        while i < self.log.len()
            invariant
                start <= i <= self.log.len(),
                vds_view(r@) =~= vds_view(self.log@).subrange(start as int, i as int),
            decreases self.log.len() - i,
        {
            let d = self.log[i].duplicate();
            let ghost r0 = r@;
            r.push(d);
            proof {
                assert(vds_view(r0).len() == r0.len());
                assert(r0.len() == i - start);
                assert forall|k: int| 0 <= k < r@.len() implies vds_view(r@)[k] == vds_view(
                    self.log@,
                ).subrange(start as int, i as int + 1)[k] by {
                    if k < r0.len() {
                        assert(r@[k] == r0[k]);
                        assert(vds_view(r@)[k] == vds_view(r0)[k]);
                        assert(vds_view(r0)[k] == vds_view(self.log@).subrange(
                            start as int,
                            i as int,
                        )[k]);
                        assert(vds_view(self.log@).subrange(start as int, i as int)[k] == vds_view(
                            self.log@,
                        )[start + k]);
                        assert(vds_view(self.log@).subrange(start as int, i as int + 1)[k]
                            == vds_view(self.log@)[start + k]);
                    } else {
                        assert(k == r0.len());
                        assert(r@[k] == d);
                        assert(vds_view(r@)[k] == d@);
                        assert(d@ == self.log@[i as int]@);
                        assert(vds_view(self.log@)[i as int] == self.log@[i as int]@);
                        assert(start + k == i);
                        assert(vds_view(self.log@).subrange(start as int, i as int + 1)[k]
                            == vds_view(self.log@)[i as int]);
                    }
                }
                assert(vds_view(r@) =~= vds_view(self.log@).subrange(start as int, i as int + 1));
            }
            i = i + 1;
        }
        proof {
            assert(vds_view(r@) =~= since_spec(vds_view(self.log@), pos));
        }
        r
    }
}

/// What `since` returns: the log's suffix strictly after `pos`. Under the
/// log invariant, the entries before `pos` are exactly the first `pos` ones.
pub open spec fn since_spec(l: Seq<VersionedDeltaV>, pos: Option<u64>) -> Seq<VersionedDeltaV> {
    match pos {
        None => l,
        Some(p) => if p < l.len() {
            l.subrange(p as int, l.len() as int)
        } else {
            Seq::empty()
        },
    }
}

/// Law: under the log invariant, the tail that `since` returns holds
/// exactly the entries with version greater than `pos`, still in ascending
/// version order — none skipped, none repeated.
pub proof fn lemma_since_exact(l: Seq<VersionedDeltaV>, p: u64)
    requires
        log_wf(l),
    ensures
        forall|k: int|
            0 <= k < since_spec(l, Some(p)).len() ==> (#[trigger] since_spec(l, Some(p))[k])
                == l[p + k] && since_spec(l, Some(p))[k].version > p,
        forall|k: int|
            0 <= k < l.len() && (#[trigger] l[k]).version > p ==> since_spec(
                l,
                Some(p),
            ).contains(l[k]),
{
    let s = since_spec(l, Some(p));
    if p < l.len() {
        assert forall|k: int| 0 <= k < l.len() && (#[trigger] l[k]).version > p implies s.contains(
            l[k],
        ) by {
            assert(l[k].version == k + 1);
            assert(s[k - p] == l[k]);
        }
    } else {
        assert forall|k: int| 0 <= k < l.len() && (#[trigger] l[k]).version > p implies s.contains(
            l[k],
        ) by {
            assert(l[k].version == k + 1);
            assert(false);
        }
    }
}

/// Appends one submission to the log: assigns the next version (one more
/// than the last, starting at `1` on an empty log), stores the delta under
/// it, and raises the change flag.
pub fn insert_entry(state: &mut ServerState, delta: Tree) -> (version: u64)
    requires
        server_wf(*old(state)),
    ensures
        version == old(state).log@.len() + 1,
        final(state).log@.len() == old(state).log@.len() + 1,
        vds_view(final(state).log@) == submit_spec(vds_view(old(state).log@), delta@),
        log_wf(vds_view(final(state).log@)),
        final(state).updated,
{
    let version = state.log.len() as u64 + 1;
    let ghost old_log = vds_view(state.log@);
    state.log.push(VersionedDelta { version, delta });
    state.updated = true;
    proof {
        assert(vds_view(state.log@) =~= submit_spec(old_log, delta@));
    }
    version
}

/// The log reached from `l` by submitting the deltas `ds` in order.
pub open spec fn submit_all(l: Seq<VersionedDeltaV>, ds: Seq<TreeV>) -> Seq<VersionedDeltaV>
    decreases ds.len(),
{
    if ds.len() == 0 {
        l
    } else {
        submit_all(submit_spec(l, ds[0]), ds.drop_first())
    }
}

/// Law: any sequence of submissions against an initially empty log yields
/// versions exactly `1, 2, 3, …` — the `k`-th submission is stored, and its
/// version returned, as `k + 1` — with no gaps or repeats.
pub proof fn lemma_versions_consecutive(ds: Seq<TreeV>)
    requires
        ds.len() < u64::MAX,
    ensures
        submit_all(Seq::empty(), ds).len() == ds.len(),
        log_wf(submit_all(Seq::empty(), ds)),
{
    lemma_submit_all_wf(Seq::empty(), ds);
}

/// Submissions preserve the log invariant, whatever well-formed log they
/// start from.
pub proof fn lemma_submit_all_wf(l: Seq<VersionedDeltaV>, ds: Seq<TreeV>)
    requires
        log_wf(l),
        l.len() + ds.len() < u64::MAX,
    ensures
        submit_all(l, ds).len() == l.len() + ds.len(),
        log_wf(submit_all(l, ds)),
        submit_all(l, ds).subrange(0, l.len() as int) == l,
    decreases ds.len(),
{
    if ds.len() == 0 {
        assert(submit_all(l, ds).subrange(0, l.len() as int) =~= l);
    } else {
        let l2 = submit_spec(l, ds[0]);
        assert(log_wf(l2)) by {
            assert forall|k: int| 0 <= k < l2.len() implies (#[trigger] l2[k]).version == k
                + 1 by {
                if k < l.len() {
                    assert(l2[k] == l[k]);
                }
            }
        }
        lemma_submit_all_wf(l2, ds.drop_first());
        assert(submit_all(l, ds).subrange(0, l.len() as int) =~= l) by {
            assert(submit_all(l2, ds.drop_first()).subrange(0, l2.len() as int) == l2);
            assert forall|k: int| 0 <= k < l.len() implies submit_all(l, ds).subrange(
                0,
                l.len() as int,
            )[k] == l[k] by {
                assert(submit_all(l, ds)[k] == submit_all(l2, ds.drop_first()).subrange(
                    0,
                    l2.len() as int,
                )[k]);
            }
        }
    }
}

/// One request to the replication server, already decoded to a plain value
/// by the transport layer that owns the socket.
pub enum Request {
    /// Fetch the whole current log.
    Fetch,
    /// Submit one delta.
    Submit(Tree),
    /// The request body failed structural validation in the transport layer.
    Malformed,
    /// Any other method or path.
    Unknown,
}

/// The server's answer to one request.
pub enum ServerReply {
    /// The whole current log, for `Fetch`.
    Log(Vec<VersionedDelta>),
    /// The version assigned to an accepted submission.
    Accepted(u64),
    /// The submission was rejected without touching the log.
    Rejected,
    /// No handler for the request.
    NotFound,
}

/// One step of the web server: the decision applied to each incoming
/// request. The embedding process owns the listening socket and the
/// encoding of bodies; it hands each decoded request here and sends the
/// reply back.
pub fn run_web_server(state: &mut ServerState, req: Request) -> (r: ServerReply)
    requires
        server_wf(*old(state)),
    ensures
        match req {
            Request::Fetch => {
                &&& *final(state) == *old(state)
                &&& r matches ServerReply::Log(l) && vds_view(l@) == vds_view(old(state).log@)
            },
            Request::Submit(d) => {
                &&& vds_view(final(state).log@) == submit_spec(vds_view(old(state).log@), d@)
                &&& final(state).updated
                &&& r == ServerReply::Accepted((old(state).log@.len() + 1) as u64)
            },
            Request::Malformed => *final(state) == *old(state) && r == ServerReply::Rejected,
            Request::Unknown => *final(state) == *old(state) && r == ServerReply::NotFound,
        },
        log_wf(vds_view(final(state).log@)),
{
    match req {
        Request::Fetch => {
            let l = state.since(None);
            ServerReply::Log(l)
        },
        Request::Submit(d) => {
            let v = insert_entry(state, d);
            ServerReply::Accepted(v)
        },
        Request::Malformed => ServerReply::Rejected,
        Request::Unknown => ServerReply::NotFound,
    }
}

} // verus!
