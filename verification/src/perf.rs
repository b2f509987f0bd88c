//! Timing queries of the editor's profiler.
use vstd::prelude::*;

verus! {

/// A query started this frame, identified by its position among the frame's queries.
pub struct QueryToken {
    pub query_id: usize,
}

/// A processor-time query: the performance counter read when it started and when it ended.
#[derive(Debug, Clone, Copy, PartialEq, Eq, Structural)]
pub struct CpuPerfQuery {
    pub start_time: i64,
    pub end_time: i64,
}

impl CpuPerfQuery {
    /// A query that has read neither counter yet.
    pub fn new() -> (q: Self)
        ensures
            q.start_time == 0,
            q.end_time == 0,
    {
        CpuPerfQuery { start_time: 0, end_time: 0 }
    }
}

/// Which timer a query uses: a graphics-card timestamp query or a processor-counter query, by
/// its position among the frame's queries of that kind.
#[derive(Debug, Clone, Copy, PartialEq, Eq, Structural)]
pub enum PerfQueryRef {
    Gpu(usize),
    Cpu(usize),
}

/// The profiler's bookkeeping of a frame's queries. The graphics-card queries themselves are
/// device objects that the caller keeps, `gpu_query_count` of them, reused frame after frame;
/// the processor queries are plain counter readings, kept here.
pub struct PerfTable {
    pub used_gpu_queries: usize,
    pub gpu_query_count: usize,
    pub used_cpu_queries: usize,
    pub cpu_queries: Vec<CpuPerfQuery>,
    /// Name, timer and whether it is still running, of each query started this frame.
    pub active_queries: Vec<(String, PerfQueryRef, bool)>,
}

impl PerfTable {
    /// A table with no queries.
    pub fn new() -> (t: Self)
        ensures
            t.used_gpu_queries == 0,
            t.gpu_query_count == 0,
            t.used_cpu_queries == 0,
            t.cpu_queries@.len() == 0,
            t.active_queries@.len() == 0,
    {
        PerfTable {
            used_gpu_queries: 0,
            gpu_query_count: 0,
            used_cpu_queries: 0,
            cpu_queries: Vec::new(),
            active_queries: Vec::new(),
        }
    }

    /// Starts a frame: no query is in use or active.
    pub fn begin_frame(&mut self)
        ensures
            final(self).used_gpu_queries == 0,
            final(self).used_cpu_queries == 0,
            final(self).active_queries@.len() == 0,
            final(self).gpu_query_count == old(self).gpu_query_count,
            final(self).cpu_queries@ == old(self).cpu_queries@,
    {
        self.used_gpu_queries = 0;
        self.used_cpu_queries = 0;
        self.active_queries.clear();
    }

    /// Starts a graphics-card query named `name`: it takes the next query of the frame, which
    /// the caller must create when it returns `true` (there were not that many yet), and starts.
    pub fn start_gpu(&mut self, name: String) -> (r: (QueryToken, usize, bool))
        requires
            old(self).used_gpu_queries < usize::MAX,
            old(self).used_gpu_queries <= old(self).gpu_query_count,
        ensures
            r.0.query_id == old(self).active_queries@.len(),
            r.1 == old(self).used_gpu_queries,
            r.2 == (old(self).used_gpu_queries == old(self).gpu_query_count),
            final(self).used_gpu_queries == old(self).used_gpu_queries + 1,
            final(self).gpu_query_count == if r.2 {
                old(self).gpu_query_count + 1
            } else {
                old(self).gpu_query_count as int
            },
            final(self).used_cpu_queries == old(self).used_cpu_queries,
            final(self).cpu_queries@ == old(self).cpu_queries@,
            final(self).active_queries@ == old(self).active_queries@.push((name, PerfQueryRef::Gpu(r.1), true)),
    {
        let query_index = self.used_gpu_queries;
        self.used_gpu_queries = self.used_gpu_queries + 1;
        let create = query_index == self.gpu_query_count;
        if create {
            self.gpu_query_count = self.gpu_query_count + 1;
        }
        let query_id = self.active_queries.len();
        self.active_queries.push((name, PerfQueryRef::Gpu(query_index), true));
        (QueryToken { query_id }, query_index, create)
    }

    /// Starts a processor query named `name` at counter reading `counter`: it takes the next
    /// query of the frame, made anew when there were not that many yet.
    pub fn start_cpu(&mut self, name: String, counter: i64) -> (token: QueryToken)
        requires
            old(self).used_cpu_queries < usize::MAX,
            old(self).used_cpu_queries <= old(self).cpu_queries@.len(),
        ensures
            token.query_id == old(self).active_queries@.len(),
            final(self).used_cpu_queries == old(self).used_cpu_queries + 1,
            final(self).cpu_queries@.len() == if old(self).used_cpu_queries == old(self).cpu_queries@.len() {
                old(self).cpu_queries@.len() + 1
            } else {
                old(self).cpu_queries@.len() + 0
            },
            final(self).cpu_queries@[old(self).used_cpu_queries as int].start_time == counter,
            forall|i: int|
                0 <= i < old(self).cpu_queries@.len() && i != old(self).used_cpu_queries ==> final(self).cpu_queries@[i]
                    == old(self).cpu_queries@[i],
            final(self).used_gpu_queries == old(self).used_gpu_queries,
            final(self).gpu_query_count == old(self).gpu_query_count,
            final(self).active_queries@ == old(self).active_queries@.push(
                (name, PerfQueryRef::Cpu(old(self).used_cpu_queries as usize), true),
            ),
    {
        let query_index = self.used_cpu_queries;
        self.used_cpu_queries = self.used_cpu_queries + 1;
        if query_index == self.cpu_queries.len() {
            self.cpu_queries.push(CpuPerfQuery::new());
        }
        let mut q = self.cpu_queries[query_index];
        q.start_time = counter;
        self.cpu_queries.set(query_index, q);
        let query_id = self.active_queries.len();
        self.active_queries.push((name, PerfQueryRef::Cpu(query_index), true));
        QueryToken { query_id }
    }

    /// Ends the query of `token` at counter reading `counter`: it is no longer running, and a
    /// processor query records the reading. The timer is returned, so that the caller ends a
    /// graphics-card query itself.
    pub fn end(&mut self, token: QueryToken, counter: i64) -> (r: PerfQueryRef)
        requires
            token.query_id < old(self).active_queries@.len(),
            old(self).active_queries@[token.query_id as int].1 matches PerfQueryRef::Cpu(c) ==> c < old(
                self,
            ).cpu_queries@.len(),
        ensures
            r == old(self).active_queries@[token.query_id as int].1,
            final(self).active_queries@ == old(self).active_queries@.update(
                token.query_id as int,
                (old(self).active_queries@[token.query_id as int].0, r, false),
            ),
            r matches PerfQueryRef::Cpu(c) ==> final(self).cpu_queries@ == old(self).cpu_queries@.update(
                c as int,
                CpuPerfQuery { end_time: counter, ..old(self).cpu_queries@[c as int] },
            ),
            r is Gpu ==> final(self).cpu_queries@ == old(self).cpu_queries@,
            final(self).used_gpu_queries == old(self).used_gpu_queries,
            final(self).gpu_query_count == old(self).gpu_query_count,
            final(self).used_cpu_queries == old(self).used_cpu_queries,
    {
        let i = token.query_id;
        let query_ref = self.active_queries[i].1;
        let mut entry = self.active_queries.remove(i);
        entry.2 = false;
        self.active_queries.insert(i, entry);
        match query_ref {
            PerfQueryRef::Gpu(_) => {},
            PerfQueryRef::Cpu(c) => {
                let mut q = self.cpu_queries[c];
                q.end_time = counter;
                self.cpu_queries.set(c, q);
            },
        }
        assert(self.active_queries@ =~= old(self).active_queries@.update(
            i as int,
            (old(self).active_queries@[i as int].0, query_ref, false),
        ));
        query_ref
    }

    /// Ends the frame's bookkeeping, once every query of the frame has ended: the processor
    /// queries beyond those used this frame are dropped (the caller drops the graphics-card
    /// queries beyond `used_gpu_queries` likewise). The frame's queries stay listed for the
    /// caller to read their timings, until the next frame begins.
    pub fn end_frame(&mut self)
        requires
            forall|i: int| 0 <= i < old(self).active_queries@.len() ==> !(#[trigger] old(self).active_queries@[i]).2,
        ensures
            final(self).cpu_queries@ == old(self).cpu_queries@.take(
                if old(self).used_cpu_queries <= old(self).cpu_queries@.len() {
                    old(self).used_cpu_queries as int
                } else {
                    old(self).cpu_queries@.len() as int
                },
            ),
            final(self).gpu_query_count == if old(self).used_gpu_queries <= old(self).gpu_query_count {
                old(self).used_gpu_queries
            } else {
                old(self).gpu_query_count
            },
            final(self).used_gpu_queries == old(self).used_gpu_queries,
            final(self).used_cpu_queries == old(self).used_cpu_queries,
            final(self).active_queries@ == old(self).active_queries@,
    {
        self.cpu_queries.truncate(self.used_cpu_queries);
        if self.used_gpu_queries < self.gpu_query_count {
            self.gpu_query_count = self.used_gpu_queries;
        }
    }
}

} // verus!
