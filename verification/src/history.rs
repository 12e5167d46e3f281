//! The append-only history of sampled snapshots and its bounded,
//! most-recent-first range query.

use vstd::prelude::*;
use crate::errors::MetricError;
use crate::metrics::{CpuUsage, DiskInfo, MemInfo};

verus! {

/// How many rows a history query returns when the request names no limit.
pub const DEFAULT_LIMIT: usize = 100;

/// One sampled observation, as persisted: CPU utilization in thousandths
/// of a percent, memory in kilobytes, disk in the reporting tool's block
/// units.
#[derive(Clone, Copy, Debug, PartialEq, Eq, Structural)]
pub struct Snapshot {
    pub cpu_usage_milli: u64,
    pub mem_total: u64,
    pub mem_used: u64,
    pub disk_total: u64,
    pub disk_used: u64,
    pub disk_free: u64,
}

/// A stored row: a snapshot plus the identity and timestamp the store
/// assigned to it. Timestamps are seconds since the epoch.
#[derive(Clone, Copy, Debug, PartialEq, Eq, Structural)]
pub struct StoredSnapshot {
    pub id: u64,
    pub timestamp: u64,
    pub snapshot: Snapshot,
}

/// Is the timestamp within the inclusive range?
pub open spec fn in_range(t: u64, from: u64, to: u64) -> bool {
    from <= t <= to
}

/// What a range query returns: walking the rows from the most recently
/// appended backwards, keep those whose timestamp lies in the inclusive
/// range, stopping once `limit` rows are kept.
pub open spec fn query_spec(rows: Seq<StoredSnapshot>, from: u64, to: u64, limit: nat) -> Seq<
    StoredSnapshot,
>
    decreases rows.len(),
{
    if rows.len() == 0 || limit == 0 {
        seq![]
    } else if in_range(rows.last().timestamp, from, to) {
        seq![rows.last()] + query_spec(rows.drop_last(), from, to, (limit - 1) as nat)
    } else {
        query_spec(rows.drop_last(), from, to, limit)
    }
}

/// How many stored rows lie in the inclusive range.
pub open spec fn count_in_range(rows: Seq<StoredSnapshot>, from: u64, to: u64) -> nat
    decreases rows.len(),
{
    if rows.len() == 0 {
        0
    } else {
        count_in_range(rows.drop_last(), from, to) + if in_range(rows.last().timestamp, from, to) {
            1nat
        } else {
            0nat
        }
    }
}

/// The append-only store of periodic snapshots. Rows are immutable once
/// appended — there is no update or delete — and identities increase
/// strictly in append order and are never reused. Callers receive copies
/// of rows, never a handle into the store.
pub struct HistoryStore {
    rows: Vec<StoredSnapshot>,
    next_id: u64,
}

impl HistoryStore {
    /// All stored rows, oldest first.
    pub closed spec fn rows_spec(self) -> Seq<StoredSnapshot> {
        self.rows@
    }

    /// The identity the next appended row will get.
    pub closed spec fn fresh_id(self) -> u64 {
        self.next_id
    }

    /// Identities were assigned strictly increasing, all below the next
    /// free identity.
    pub closed spec fn wf(self) -> bool {
        &&& forall|i: int, j: int|
            0 <= i < j < self.rows@.len() ==> #[trigger] self.rows@[i].id < #[trigger] self.rows@[j].id
        &&& forall|i: int| 0 <= i < self.rows@.len() ==> #[trigger] self.rows@[i].id < self.next_id
    }

    /// An empty store; the first row will get identity one.
    pub fn new() -> (r: Self)
        ensures
            r.wf(),
            r.rows_spec() == Seq::<StoredSnapshot>::empty(),
    {
        HistoryStore { rows: Vec::new(), next_id: 1 }
    }

    /// How many rows the store holds.
    pub fn len(&self) -> (r: usize)
        ensures
            r == self.rows_spec().len(),
    {
        self.rows.len()
    }

    /// Append one snapshot as a single atomic row. The store assigns the
    /// identity; the caller supplies the timestamp (the insertion
    /// instant). Fails, leaving the store unchanged, exactly when the
    /// identity space is exhausted.
    pub fn append(&mut self, snapshot: Snapshot, timestamp: u64) -> (r: Result<u64, MetricError>)
        requires
            old(self).wf(),
        ensures
            final(self).wf(),
            match r {
                Ok(id) => {
                    &&& id == old(self).fresh_id()
                    &&& final(self).rows_spec() == old(self).rows_spec().push(
                        StoredSnapshot { id, timestamp, snapshot },
                    )
                    &&& final(self).fresh_id() == old(self).fresh_id() + 1
                },
                Err(e) => {
                    &&& e == MetricError::StoreError
                    &&& old(self).fresh_id() == u64::MAX
                    &&& *final(self) == *old(self)
                },
            },
            r is Ok <==> old(self).fresh_id() < u64::MAX,
    {
        if self.next_id == u64::MAX {
            return Err(MetricError::StoreError);
        }
        let id = self.next_id;
        self.rows.push(StoredSnapshot { id, timestamp, snapshot });
        self.next_id = id + 1;
        Ok(id)
    }

    /// Rows whose timestamp lies in the inclusive range `[from, to]`,
    /// most recent first, truncated to at most `limit` rows. The rows come
    /// out as copies, exactly as they were appended.
    pub fn query(&self, from: u64, to: u64, limit: usize) -> (r: Vec<StoredSnapshot>)
        ensures
            r@ == query_spec(self.rows_spec(), from, to, limit as nat),
    {
        let ghost all = self.rows@;
        let mut out: Vec<StoredSnapshot> = Vec::new();
        let mut i: usize = self.rows.len();
        proof {
            assert(all.take(i as int) =~= all);
        }
        while i > 0 && out.len() < limit
            invariant
                0 <= i <= all.len(),
                all == self.rows@,
                out@.len() <= limit,
                out@ + query_spec(all.take(i as int), from, to, (limit - out@.len()) as nat)
                    == query_spec(all, from, to, limit as nat),
            decreases i,
        {
            i = i - 1;
            let row = self.rows[i];
            let ghost k = (limit - out@.len()) as nat;
            proof {
                assert(all.take(i + 1).drop_last() =~= all.take(i as int));
                assert(all.take(i + 1).last() == all[i as int]);
            }
            if from <= row.timestamp && row.timestamp <= to {
                let ghost old_out = out@;
                out.push(row);
                proof {
                    assert(query_spec(all.take(i + 1), from, to, k) == seq![row] + query_spec(
                        all.take(i as int),
                        from,
                        to,
                        (k - 1) as nat,
                    ));
                    assert(out@ + query_spec(all.take(i as int), from, to, (k - 1) as nat)
                        =~= old_out + query_spec(all.take(i + 1), from, to, k));
                }
            } else {
                proof {
                    assert(query_spec(all.take(i + 1), from, to, k) == query_spec(
                        all.take(i as int),
                        from,
                        to,
                        k,
                    ));
                }
            }
        }
        proof {
            if i == 0 {
                assert(all.take(0).len() == 0);
                assert(query_spec(all.take(0), from, to, (limit - out@.len()) as nat)
                    =~= Seq::<StoredSnapshot>::empty());
            } else {
                assert(out@.len() == limit);
                assert(query_spec(all.take(i as int), from, to, 0nat)
                    =~= Seq::<StoredSnapshot>::empty());
            }
            assert(out@ + Seq::<StoredSnapshot>::empty() =~= out@);
        }
        out
    }
}

/// Resolve a history request's optional parameters: a missing lower bound
/// means the epoch, a missing upper bound means the current instant —
/// supplied by the caller's clock, never a sentinel token passed through
/// to the comparison — and a missing limit means the default of 100 rows.
pub fn resolve_request(from: Option<u64>, to: Option<u64>, limit: Option<usize>, now: u64) -> (r: (
    u64,
    u64,
    usize,
))
    ensures
        r.0 == match from { Some(f) => f, None => 0u64 },
        r.1 == match to { Some(t) => t, None => now },
        r.2 == match limit { Some(l) => l, None => DEFAULT_LIMIT },
{
    let f = match from {
        Some(f) => f,
        None => 0,
    };
    let t = match to {
        Some(t) => t,
        None => now,
    };
    let l = match limit {
        Some(l) => l,
        None => DEFAULT_LIMIT,
    };
    (f, t, l)
}

/// The row one sampler cycle persists, built from the three derived
/// metrics that feed history. The cycle's reads and the store write stand
/// outside; a failed cycle produces no row at all, never a partial one.
pub fn make_snapshot(u: &CpuUsage, m: &MemInfo, d: &DiskInfo) -> (s: Snapshot)
    requires
        u.wf(),
        m.wf(),
    ensures
        s.cpu_usage_milli == (u.active as int * 100000) / (u.total as int),
        s.mem_total == m.total,
        s.mem_used == m.used(),
        s.disk_total == d.total,
        s.disk_used == d.used,
        s.disk_free == d.free,
{
    Snapshot {
        cpu_usage_milli: crate::metrics::milli_percent(u),
        mem_total: m.total,
        mem_used: crate::metrics::mem_used(m),
        disk_total: d.total,
        disk_used: d.used,
        disk_free: d.free,
    }
}

proof fn lemma_drop_last_contains(rows: Seq<StoredSnapshot>, x: StoredSnapshot)
    requires
        rows.len() > 0,
        rows.drop_last().contains(x),
    ensures
        rows.contains(x),
{
    let j = choose|j: int| 0 <= j < rows.drop_last().len() && rows.drop_last()[j] == x;
    assert(rows[j] == x);
}

/// Soundness of the query: every returned row is a stored row, unaltered,
/// and its timestamp lies inside the inclusive range — rows strictly
/// outside the range are never returned, and a reader never sees a row
/// the store does not hold in full, however the query interleaves with
/// appends: each row either is in the store or is not.
pub proof fn lemma_query_sound(
    rows: Seq<StoredSnapshot>,
    from: u64,
    to: u64,
    limit: nat,
    k: int,
)
    requires
        0 <= k < query_spec(rows, from, to, limit).len(),
    ensures
        rows.contains(query_spec(rows, from, to, limit)[k]),
        in_range(query_spec(rows, from, to, limit)[k].timestamp, from, to),
    decreases rows.len(),
{
    let q = query_spec(rows, from, to, limit);
    if rows.len() == 0 || limit == 0 {
    } else if in_range(rows.last().timestamp, from, to) {
        if k == 0 {
            assert(rows[rows.len() - 1] == rows.last());
        } else {
            lemma_query_sound(rows.drop_last(), from, to, (limit - 1) as nat, k - 1);
            lemma_drop_last_contains(rows, q[k]);
        }
    } else {
        lemma_query_sound(rows.drop_last(), from, to, limit, k);
        lemma_drop_last_contains(rows, q[k]);
    }
}

/// The query returns exactly the limit or every matching row, whichever
/// is fewer.
pub proof fn lemma_query_len(rows: Seq<StoredSnapshot>, from: u64, to: u64, limit: nat)
    ensures
        query_spec(rows, from, to, limit).len() == if count_in_range(rows, from, to) <= limit {
            count_in_range(rows, from, to)
        } else {
            limit
        },
    decreases rows.len(),
{
    if rows.len() == 0 || limit == 0 {
    } else if in_range(rows.last().timestamp, from, to) {
        lemma_query_len(rows.drop_last(), from, to, (limit - 1) as nat);
    } else {
        lemma_query_len(rows.drop_last(), from, to, limit);
    }
}

/// Completeness of the query: when the limit admits every match, each
/// stored row whose timestamp lies in the inclusive range — boundary
/// values included — is returned.
pub proof fn lemma_query_complete(
    rows: Seq<StoredSnapshot>,
    from: u64,
    to: u64,
    limit: nat,
    k: int,
)
    requires
        count_in_range(rows, from, to) <= limit,
        0 <= k < rows.len(),
        in_range(rows[k].timestamp, from, to),
    ensures
        query_spec(rows, from, to, limit).contains(rows[k]),
    decreases rows.len(),
{
    let q = query_spec(rows, from, to, limit);
    if in_range(rows.last().timestamp, from, to) {
        if k == rows.len() - 1 {
            assert(q[0] == rows[k]);
        } else {
            lemma_query_complete(rows.drop_last(), from, to, (limit - 1) as nat, k);
            let sub = query_spec(rows.drop_last(), from, to, (limit - 1) as nat);
            let j = choose|j: int| 0 <= j < sub.len() && sub[j] == rows[k];
            assert(q[j + 1] == rows[k]);
        }
    } else {
        assert(k < rows.len() - 1);
        lemma_query_complete(rows.drop_last(), from, to, limit, k);
        let sub = query_spec(rows.drop_last(), from, to, limit);
        let j = choose|j: int| 0 <= j < sub.len() && sub[j] == rows[k];
        assert(q[j] == rows[k]);
    }
}

/// Round trip: when every stored timestamp lies in the range and the
/// limit admits them all, the query returns exactly the stored rows,
/// newest first, none altered.
pub proof fn lemma_query_round_trip(rows: Seq<StoredSnapshot>, from: u64, to: u64, limit: nat)
    requires
        forall|i: int| 0 <= i < rows.len() ==> in_range(#[trigger] rows[i].timestamp, from, to),
        rows.len() <= limit,
    ensures
        query_spec(rows, from, to, limit) == rows.reverse(),
    decreases rows.len(),
{
    if rows.len() == 0 {
        assert(query_spec(rows, from, to, limit) =~= rows.reverse());
    } else {
        assert(in_range(rows[rows.len() - 1].timestamp, from, to));
        assert forall|i: int| 0 <= i < rows.drop_last().len() implies in_range(
            #[trigger] rows.drop_last()[i].timestamp,
            from,
            to,
        ) by {
            assert(rows.drop_last()[i] == rows[i]);
        }
        lemma_query_round_trip(rows.drop_last(), from, to, (limit - 1) as nat);
        assert(query_spec(rows, from, to, limit) =~= rows.reverse());
    }
}

/// Descending order: when stored timestamps never decrease in append
/// order — the normal clock behavior the store's timestamps follow — the
/// query's timestamps never increase: most recent first.
pub proof fn lemma_query_sorted(
    rows: Seq<StoredSnapshot>,
    from: u64,
    to: u64,
    limit: nat,
    i: int,
    j: int,
)
    requires
        forall|a: int, b: int|
            0 <= a <= b < rows.len() ==> #[trigger] rows[a].timestamp <= #[trigger] rows[b].timestamp,
        0 <= i <= j < query_spec(rows, from, to, limit).len(),
    ensures
        query_spec(rows, from, to, limit)[i].timestamp >= query_spec(rows, from, to, limit)[j].timestamp,
    decreases rows.len(),
{
    let q = query_spec(rows, from, to, limit);
    assert forall|a: int, b: int|
        0 <= a <= b < rows.drop_last().len() implies #[trigger] rows.drop_last()[a].timestamp
        <= #[trigger] rows.drop_last()[b].timestamp by {
        assert(rows.drop_last()[a] == rows[a]);
        assert(rows.drop_last()[b] == rows[b]);
    }
    if rows.len() == 0 || limit == 0 {
    } else if in_range(rows.last().timestamp, from, to) {
        let sub = query_spec(rows.drop_last(), from, to, (limit - 1) as nat);
        if i == 0 {
            if j > 0 {
                lemma_query_sound(rows.drop_last(), from, to, (limit - 1) as nat, j - 1);
                let a = choose|a: int|
                    0 <= a < rows.drop_last().len() && rows.drop_last()[a] == sub[j - 1];
                assert(rows[a] == sub[j - 1]);
                assert(rows[a].timestamp <= rows[rows.len() - 1].timestamp);
            }
        } else {
            lemma_query_sorted(rows.drop_last(), from, to, (limit - 1) as nat, i - 1, j - 1);
        }
    } else {
        lemma_query_sorted(rows.drop_last(), from, to, limit, i, j);
    }
}

} // verus!
