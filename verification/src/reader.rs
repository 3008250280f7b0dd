//! Executing a plan: which bytes are requested, and which buffer a request uses.
//!
//! Every planned range is cut into chunks that are block-aligned at both ends. A
//! fixed pool of buffers serves the chunks; a buffer is handed out again only
//! after its request was completed.
use crate::header::HeaderSpec;
use crate::plan;
use crate::plan::Range;
use crate::text;
use vstd::arithmetic::div_mod::*;
use vstd::prelude::*;
use vstd::string::*;

verus! {

/// How files are read.
#[derive(Debug, Clone, Copy)]
pub struct ReadConfig {
    /// Number of requests at a time.
    pub depth: usize,
    /// Bytes of a request, rounded up to a multiple of `block`.
    pub chunk_bytes: usize,
    /// Whether to bypass the page cache.
    pub direct: bool,
    /// Block size of the device.
    pub block: usize,
}

impl Default for ReadConfig {
    fn default() -> (r: ReadConfig)
        ensures
            r.depth == 32,
            r.chunk_bytes == 0x10_0000,
            r.direct,
            r.block == 4096,
    {
        ReadConfig { depth: 32, chunk_bytes: 0x10_0000, direct: true, block: 4096 }
    }
}

/// What reading came to.
#[derive(Debug, Clone, Copy)]
pub struct ReadStats {
    pub bytes: u64,
    pub requests: u64,
    pub short_reads: u64,
}

/// What is wrong with a request of a plan for `files` files, if anything.
pub open spec fn request_fault(request: (usize, Range), files: usize) -> Option<Seq<char>> {
    if request.0 >= files {
        Some(
            "plan references shard "@ + text::decimal(request.0 as nat) + " but only "@
                + text::decimal(files as nat) + " files given"@,
        )
    } else if request.1.len == 0 {
        Some(
            "plan contains a zero-length range at offset "@ + text::decimal(
                request.1.offset as nat,
            ),
        )
    } else {
        None
    }
}

/// What is wrong with a plan for `files` files, if anything: the first fault.
pub open spec fn plan_fault(plan: Seq<(usize, Range)>, files: usize) -> Option<Seq<char>>
    decreases plan.len(),
{
    if plan.len() == 0 {
        None
    } else {
        match plan_fault(plan.drop_last(), files) {
            Some(m) => Some(m),
            None => request_fault(plan.last(), files),
        }
    }
}

proof fn plan_fault_stays(plan: Seq<(usize, Range)>, files: usize, n: int)
    requires
        0 <= n <= plan.len(),
        plan_fault(plan.take(n), files) is Some,
    ensures
        plan_fault(plan, files) == plan_fault(plan.take(n), files),
    decreases plan.len(),
{
    if n < plan.len() {
        assert(plan.drop_last().take(n) =~= plan.take(n));
        plan_fault_stays(plan.drop_last(), files, n);
    } else {
        assert(plan.take(n) =~= plan);
    }
}

/// Refuses a plan that was made for other files, or that asks for nothing.
pub fn check_requests(files: usize, plan: &[(usize, Range)]) -> (r: Result<(), String>)
    ensures
        match plan_fault(plan@, files) {
            None => r is Ok && forall|i: int|
                0 <= i < plan@.len() ==> (#[trigger] plan@[i]).0 < files && plan@[i].1.len > 0,
            Some(m) => r is Err && r->Err_0@ == m,
        },
{
    let mut i: usize = 0;
    assert(plan@.take(0) =~= Seq::empty());
    while i < plan.len()
        invariant
            i <= plan.len(),
            plan_fault(plan@.take(i as int), files) is None,
            forall|k: int|
                0 <= k < i ==> (#[trigger] plan@[k]).0 < files && plan@[k].1.len > 0,
        decreases plan.len() - i,
    {
        proof {
            let next = plan@.take(i as int + 1);
            assert(next.drop_last() =~= plan@.take(i as int));
        }
        let (file, range) = plan[i];
        if file >= files {
            let mut m: String = "plan references shard ".to_owned();
            text::push_decimal(&mut m, file as u64);
            m.append(" but only ");
            text::push_decimal(&mut m, files as u64);
            m.append(" files given");
            proof {
                plan_fault_stays(plan@, files, i as int + 1);
            }
            return Err(m);
        }
        if range.len == 0 {
            let mut m: String = "plan contains a zero-length range at offset ".to_owned();
            text::push_decimal(&mut m, range.offset);
            proof {
                plan_fault_stays(plan@, files, i as int + 1);
            }
            return Err(m);
        }
        i += 1;
    }
    assert(plan@.take(plan@.len() as int) =~= plan@);
    Ok(())
}

/// One request: a file, where it starts, and how many bytes are asked for.
#[derive(Debug, Clone, Copy, PartialEq, Eq, Structural)]
pub struct Job {
    pub file: usize,
    pub offset: u64,
    pub len: u64,
}

/// The bytes of a request: at least a block, in whole blocks.
pub open spec fn chunk_of(cfg: ReadConfig) -> int {
    let c = if cfg.chunk_bytes >= cfg.block {
        cfg.chunk_bytes as int
    } else {
        cfg.block as int
    };
    plan::saturated(
        plan::round_up(
            if c < 1 {
                1
            } else {
                c
            },
            plan::block_of(cfg.block as u64),
        ),
    )
}

/// The bytes of a request.
pub fn chunk_size(cfg: &ReadConfig) -> (r: u64)
    ensures
        r == chunk_of(*cfg),
        r > 0,
{
    let mut c: u64 = if cfg.chunk_bytes >= cfg.block {
        cfg.chunk_bytes as u64
    } else {
        cfg.block as u64
    };
    if c < 1 {
        c = 1;
    }
    proof {
        plan::round_up_is_ceiling(c as int, plan::block_of(cfg.block as u64));
    }
    plan::ceil_to(c, cfg.block as u64)
}

/// The requests for the bytes from `offset` up to `end`: `chunk` bytes at a time,
/// each rounded up to whole blocks.
pub open spec fn range_jobs(file: usize, offset: int, end: int, chunk: int, block: u64) -> Seq<Job>
    decreases end - offset,
{
    if offset >= end || chunk <= 0 {
        Seq::empty()
    } else {
        let want = if chunk < end - offset {
            chunk
        } else {
            end - offset
        };
        seq![
            Job {
                file,
                offset: offset as u64,
                len: plan::saturated(plan::round_up(want, plan::block_of(block))) as u64,
            },
        ] + range_jobs(file, offset + want, end, chunk, block)
    }
}

/// The requests for all ranges of a plan, in their order.
pub open spec fn plan_jobs(plan: Seq<(usize, Range)>, chunk: int, block: u64) -> Seq<Job>
    decreases plan.len(),
{
    if plan.len() == 0 {
        Seq::empty()
    } else {
        let (file, r) = plan.last();
        plan_jobs(plan.drop_last(), chunk, block) + range_jobs(
            file,
            r.offset as int,
            r.offset + r.len,
            chunk,
            block,
        )
    }
}

/// Cuts the ranges of a plan into requests.
pub fn expand_jobs(plan: &[(usize, Range)], chunk: u64, block: u64) -> (jobs: Vec<Job>)
    requires
        plan::requests_fit(plan@),
        chunk > 0,
    ensures
        jobs@ == plan_jobs(plan@, chunk as int, block),
{
    let mut jobs: Vec<Job> = Vec::new();
    let mut i: usize = 0;
    assert(plan@.take(0) =~= Seq::empty());
    while i < plan.len()
        invariant
            i <= plan.len(),
            plan::requests_fit(plan@),
            chunk > 0,
            jobs@ == plan_jobs(plan@.take(i as int), chunk as int, block),
        decreases plan.len() - i,
    {
        let (file, range) = plan[i];
        assert(plan@[i as int].1.offset + plan@[i as int].1.len <= u64::MAX);
        let end: u64 = range.offset + range.len;
        let mut off: u64 = range.offset;
        let ghost before = jobs@;
        let ghost all = range_jobs(file, range.offset as int, end as int, chunk as int, block);
        assert(before + all =~= jobs@ + all);
        while off < end
            invariant
                off <= end,
                chunk > 0,
                before + all == jobs@ + range_jobs(
                    file,
                    off as int,
                    end as int,
                    chunk as int,
                    block,
                ),
            decreases end - off,
        {
            let want: u64 = if chunk < end - off {
                chunk
            } else {
                end - off
            };
            let len: u64 = plan::ceil_to(want, block);
            let ghost rest = range_jobs(file, off + want, end as int, chunk as int, block);
            let ghost had = jobs@;
            let job = Job { file, offset: off, len };
            assert(range_jobs(file, off as int, end as int, chunk as int, block) == seq![job] + rest);
            jobs.push(job);
            assert(jobs@ + rest =~= had + (seq![job] + rest));
            off = off + want;
        }
        assert(jobs@ + range_jobs(file, off as int, end as int, chunk as int, block) =~= jobs@);
        proof {
            let next = plan@.take(i as int + 1);
            assert(next.drop_last() =~= plan@.take(i as int));
            assert(next.last() == plan@[i as int]);
        }
        i += 1;
    }
    assert(plan@.take(plan@.len() as int) =~= plan@);
    jobs
}

/// Refuses a plan that was made for other files, or that asks for nothing, and
/// cuts any other into requests.
pub fn begin(files: usize, plan: &[(usize, Range)], cfg: &ReadConfig) -> (r: Result<
    Vec<Job>,
    String,
>)
    requires
        plan::requests_fit(plan@),
    ensures
        match plan_fault(plan@, files) {
            None => r is Ok && r->Ok_0@ == plan_jobs(plan@, chunk_of(*cfg), cfg.block as u64),
            Some(m) => r is Err && r->Err_0@ == m,
        },
{
    match check_requests(files, plan) {
        Err(m) => Err(m),
        Ok(_) => Ok(expand_jobs(plan, chunk_size(cfg), cfg.block as u64)),
    }
}

/// The requests stand one after another, from `offset` up to `end`.
pub open spec fn tiles(jobs: Seq<Job>, offset: int, end: int) -> bool
    decreases jobs.len(),
{
    if jobs.len() == 0 {
        offset == end
    } else {
        &&& jobs[0].offset == offset
        &&& jobs[0].len > 0
        &&& tiles(jobs.subrange(1, jobs.len() as int), offset + jobs[0].len, end)
    }
}

/// The requests for an aligned range, with chunks of whole blocks, have exactly its
/// bytes: each starts and ends on a block, none is longer than a chunk, and
/// together they run from its start to its end without a gap or an overlap.
pub proof fn jobs_tile_an_aligned_range(
    file: usize,
    offset: int,
    end: int,
    chunk: int,
    block: u64,
)
    requires
        0 <= offset <= end <= u64::MAX,
        0 < chunk <= u64::MAX,
        chunk % plan::block_of(block) == 0,
        offset % plan::block_of(block) == 0,
        end % plan::block_of(block) == 0,
    ensures
        tiles(range_jobs(file, offset, end, chunk, block), offset, end),
        forall|i: int|
            0 <= i < range_jobs(file, offset, end, chunk, block).len() ==> {
                let job = #[trigger] range_jobs(file, offset, end, chunk, block)[i];
                &&& job.file == file
                &&& job.offset as int % plan::block_of(block) == 0
                &&& job.len as int % plan::block_of(block) == 0
                &&& job.len <= chunk
            },
    decreases end - offset,
{
    let b = plan::block_of(block);
    if offset < end {
        let want = if chunk < end - offset {
            chunk
        } else {
            end - offset
        };
        lemma_sub_mod_noop(end, offset, b);
        lemma_small_mod(0, b as nat);
        plan::multiples_are_fixed(want, b);
        lemma_add_mod_noop(offset, want, b);
        jobs_tile_an_aligned_range(file, offset + want, end, chunk, block);
        let jobs = range_jobs(file, offset, end, chunk, block);
        let rest = range_jobs(file, offset + want, end, chunk, block);
        assert(jobs.subrange(1, jobs.len() as int) =~= rest);
        assert forall|i: int| 0 <= i < jobs.len() implies {
            let job = #[trigger] jobs[i];
            &&& job.file == file
            &&& job.offset as int % b == 0
            &&& job.len as int % b == 0
            &&& job.len <= chunk
        } by {
            if i > 0 {
                assert(jobs[i] == rest[i - 1]);
            }
        }
    }
}

/// The request asks for the byte at `p` of the file.
pub open spec fn asks_for(job: Job, file: usize, p: int) -> bool {
    job.file == file && job.offset <= p < job.offset + job.len
}

/// Some request asks for the byte at `p` of the file.
pub open spec fn asked_for(jobs: Seq<Job>, file: usize, p: int) -> bool {
    exists|i: int| 0 <= i < jobs.len() && asks_for(#[trigger] jobs[i], file, p)
}

proof fn tiles_reach_every_byte(jobs: Seq<Job>, file: usize, offset: int, end: int, p: int)
    requires
        tiles(jobs, offset, end),
        offset <= p < end,
        forall|i: int| 0 <= i < jobs.len() ==> (#[trigger] jobs[i]).file == file,
    ensures
        asked_for(jobs, file, p),
    decreases jobs.len(),
{
    if p < offset + jobs[0].len {
        assert(asks_for(jobs[0], file, p));
    } else {
        let rest = jobs.subrange(1, jobs.len() as int);
        tiles_reach_every_byte(rest, file, offset + jobs[0].len, end, p);
        let i = choose|i: int| 0 <= i < rest.len() && asks_for(#[trigger] rest[i], file, p);
        assert(asks_for(jobs[i + 1], file, p));
    }
}

/// The requests for a range are among those for the plan.
proof fn range_is_asked_for(plan: Seq<(usize, Range)>, k: int, chunk: int, block: u64, p: int)
    requires
        0 <= k < plan.len(),
        ({
            let (file, r) = plan[k];
            asked_for(
                range_jobs(file, r.offset as int, r.offset + r.len, chunk, block),
                file,
                p,
            )
        }),
    ensures
        asked_for(plan_jobs(plan, chunk, block), plan[k].0, p),
    decreases plan.len(),
{
    let all = plan_jobs(plan, chunk, block);
    let before = plan_jobs(plan.drop_last(), chunk, block);
    let (file, r) = plan[k];
    if k < plan.len() - 1 {
        range_is_asked_for(plan.drop_last(), k, chunk, block, p);
        let i = choose|i: int| 0 <= i < before.len() && asks_for(#[trigger] before[i], file, p);
        assert(all[i] == before[i]);
    } else {
        let own = range_jobs(file, r.offset as int, r.offset + r.len, chunk, block);
        let i = choose|i: int| 0 <= i < own.len() && asks_for(#[trigger] own[i], file, p);
        assert(all[before.len() + i] == own[i]);
    }
}

/// Every byte of every tensor is asked for when the plan of its file is executed,
/// whatever the gap that the plan bridges.
pub proof fn every_tensor_byte_is_asked_for(
    h: HeaderSpec,
    file: usize,
    requests: Seq<(usize, Range)>,
    cfg: ReadConfig,
    max_gap: u64,
    t: int,
    p: int,
)
    requires
        h.wf(),
        plan::end_rounds(h, cfg.block as u64),
        plan::request_spans(requests) == plan::numbered(
            file as int,
            plan::planned(h, cfg.block as u64, max_gap),
        ),
        chunk_of(cfg) % plan::block_of(cfg.block as u64) == 0,
        0 <= t < h.tensors.len(),
        h.data_start + h.tensors[t].start <= p < h.data_start + h.tensors[t].end,
    ensures
        asked_for(plan_jobs(requests, chunk_of(cfg), cfg.block as u64), file, p),
{
    let block = cfg.block as u64;
    let b = plan::block_of(block);
    let chunk = chunk_of(cfg);
    let spans = plan::planned(h, block, max_gap);
    let span = plan::tensor_bytes_span(h, h.tensors[t]);
    plan::every_plan_is_sound(h, block, max_gap);
    assert(plan::held(span, spans));
    let k = choose|k: int| 0 <= k < spans.len() && plan::within(span, #[trigger] spans[k]);
    assert(plan::range_is_sound(h, block, spans[k]));
    assert(plan::request_spans(requests).len() == plan::numbered(file as int, spans).len());
    assert(requests.len() == spans.len());
    assert(plan::numbered(file as int, spans)[k] == (file as int, spans[k]));
    assert(plan::request_spans(requests)[k] == (requests[k].0 as int, plan::range_span(requests[k].1)));
    let r = requests[k].1;
    assert(requests[k].0 == file && r.offset == spans[k].0 && r.offset + r.len == spans[k].1);
    let c = if cfg.chunk_bytes >= cfg.block {
        cfg.chunk_bytes as int
    } else {
        cfg.block as int
    };
    plan::round_up_is_ceiling(
        if c < 1 {
            1
        } else {
            c
        },
        b,
    );
    jobs_tile_an_aligned_range(file, r.offset as int, r.offset + r.len, chunk, block);
    let own = range_jobs(file, r.offset as int, r.offset + r.len, chunk, block);
    assert forall|i: int| 0 <= i < own.len() implies (#[trigger] own[i]).file == file by {}
    tiles_reach_every_byte(own, file, r.offset as int, r.offset + r.len, p);
    range_is_asked_for(requests, k, chunk, block, p);
}

/// The number of entries of a ring for `depth` requests at a time.
pub fn ring_entries(depth: usize) -> (r: usize)
    requires
        depth <= usize::MAX / 2,
    ensures
        crate::aligned::is_power_of_two(r as int),
        r >= depth,
        r >= 2,
        depth > 2 ==> r < 2 * depth,
        depth <= 2 ==> r == 2,
{
    let n: usize = crate::aligned::next_power_of_two(depth);
    proof {
        vstd::arithmetic::power2::lemma2_to64();
        if depth == 2 {
            let k = choose|k: nat| #[trigger] vstd::arithmetic::power2::pow2(k) == n;
            crate::aligned::power_of_two_above_is_unique(2, k, 1);
        }
    }
    if n < 2 {
        2
    } else {
        n
    }
}

/// The buffers of a run: which are free, which serve a request, and what came of
/// the requests so far.
pub struct Pool {
    /// Buffers that may be handed out, the next one last.
    pub free: Vec<usize>,
    /// For each buffer, the bytes that its request asked for.
    pub expect: Vec<u64>,
    /// For each buffer, whether it serves a request.
    pub busy: Vec<bool>,
    /// For each buffer that serves a request, the number of its job.
    pub job: Vec<usize>,
    /// The next job to hand out.
    pub next: usize,
    pub inflight: usize,
    pub stats: ReadStats,
}

/// What becomes of a completed request: the error number, when it failed.
pub enum Completion {
    Done,
    Failed(i32),
}

impl Pool {
    /// Every buffer is either free, once, or serves a request.
    pub open spec fn slots_exact(&self) -> bool {
        let n = self.busy@.len();
        &&& n > 0
        &&& self.expect@.len() == n
        &&& self.job@.len() == n
        &&& self.free@.len() + self.inflight == n
        &&& self.free@.no_duplicates()
        &&& forall|i: int|
            0 <= i < self.free@.len() ==> #[trigger] self.free@[i] < n
                && !self.busy@[self.free@[i] as int]
        &&& forall|slot: usize|
            slot < n && !#[trigger] self.busy@[slot as int] ==> self.free@.contains(slot)
    }

    /// The buffer serves a request for the job.
    pub open spec fn serves(&self, slot: int, j: int) -> bool {
        0 <= slot < self.busy@.len() && self.busy@[slot] && self.job@[slot] == j
    }

    /// The job was handed out, and its request is not completed.
    pub open spec fn in_flight(&self, j: int) -> bool {
        exists|slot: int| #[trigger] self.serves(slot, j)
    }

    /// The job was handed out, and its request is completed.
    pub open spec fn is_done(&self, j: int) -> bool {
        0 <= j < self.next && !self.in_flight(j)
    }

    /// Every buffer that serves a request has a job that was handed out, and no other
    /// buffer has that job.
    pub open spec fn jobs_exact(&self) -> bool {
        &&& forall|slot: int, j: int| #[trigger] self.serves(slot, j) ==> 0 <= j < self.next
        &&& forall|a: int, b: int, j: int| #[trigger]
            self.serves(a, j) && #[trigger] self.serves(b, j) ==> a == b
    }

    /// Every buffer is either free or serves a request, and every job that was handed
    /// out is either in flight, in one buffer, or done.
    pub open spec fn wf(&self) -> bool {
        &&& self.slots_exact()
        &&& self.jobs_exact()
        &&& self.stats.requests + self.inflight == self.next
        &&& self.stats.short_reads <= self.stats.requests
    }

    /// A pool of `depth` free buffers, of which the first is handed out first.
    pub fn new(depth: usize) -> (r: Pool)
        ensures
            r.wf(),
            r.busy@.len() == (if depth == 0 {
                1
            } else {
                depth
            }),
            r.free@ == Seq::new(r.busy@.len(), |i: int| (r.busy@.len() - 1 - i) as usize),
            r.expect@ == Seq::new(r.busy@.len(), |i: int| 0u64),
            r.job@ == Seq::new(r.busy@.len(), |i: int| 0usize),
            r.next == 0,
            r.inflight == 0,
            r.stats.bytes == 0,
            r.stats.requests == 0,
            r.stats.short_reads == 0,
    {
        let depth: usize = if depth == 0 {
            1
        } else {
            depth
        };
        let mut free: Vec<usize> = Vec::new();
        let mut expect: Vec<u64> = Vec::new();
        let mut busy: Vec<bool> = Vec::new();
        let mut job: Vec<usize> = Vec::new();
        let mut i: usize = depth;
        while i > 0
            invariant
                i <= depth,
                free@.len() == depth - i,
                expect@.len() == depth - i,
                busy@.len() == depth - i,
                job@.len() == depth - i,
                forall|k: int| 0 <= k < job@.len() ==> #[trigger] job@[k] == 0,
                forall|k: int| 0 <= k < free@.len() ==> #[trigger] free@[k] == depth - 1 - k,
                forall|k: int| 0 <= k < expect@.len() ==> #[trigger] expect@[k] == 0,
                forall|k: int| 0 <= k < busy@.len() ==> !(#[trigger] busy@[k]),
            decreases i,
        {
            i -= 1;
            free.push(i);
            expect.push(0);
            busy.push(false);
            job.push(0);
        }
        let pool = Pool {
            free,
            expect,
            busy,
            job,
            next: 0,
            inflight: 0,
            stats: ReadStats { bytes: 0, requests: 0, short_reads: 0 },
        };
        proof {
            assert forall|slot: usize| slot < depth && !#[trigger] busy@[slot as int] implies free@.contains(
            slot) by {
                assert(free@[depth - 1 - slot] == slot);
            }
        }
        pool
    }

    /// Whether a job can be handed out now.
    pub open spec fn can_submit(&self, jobs: Seq<Job>) -> bool {
        self.next < jobs.len() && self.free@.len() > 0
    }

    /// Hands out the next job and a free buffer for it, when there are both.
    pub fn submit(&mut self, jobs: &[Job]) -> (r: Option<(usize, Job)>)
        requires
            old(self).wf(),
        ensures
            final(self).wf(),
            final(self).busy@.len() == old(self).busy@.len(),
            final(self).stats == old(self).stats,
            match r {
                Some((slot, job)) => {
                    &&& old(self).can_submit(jobs@)
                    &&& job == jobs@[old(self).next as int]
                    &&& slot < old(self).busy@.len()
                    &&& !old(self).busy@[slot as int]
                    &&& final(self).busy@ == old(self).busy@.update(slot as int, true)
                    &&& final(self).expect@ == old(self).expect@.update(slot as int, job.len)
                    &&& final(self).job@ == old(self).job@.update(slot as int, old(self).next)
                    &&& forall|j: int| #[trigger] final(self).is_done(j) == old(self).is_done(j)
                    &&& final(self).next == old(self).next + 1
                    &&& final(self).inflight == old(self).inflight + 1
                    &&& final(self).free@.push(slot) == old(self).free@
                },
                None => !old(self).can_submit(jobs@) && *final(self) == *old(self),
            },
    {
        if self.next >= jobs.len() || self.free.len() == 0 {
            return None;
        }
        let ghost before = self.free@;
        let ghost busy0 = self.busy@;
        let ghost pool0 = *self;
        let slot: usize = match self.free.pop() {
            Some(slot) => slot,
            None => 0,
        };
        assert(slot == before[before.len() - 1]);
        let job: Job = jobs[self.next];
        self.busy.set(slot, true);
        self.expect.set(slot, job.len);
        self.job.set(slot, self.next);
        self.next = self.next + 1;
        self.inflight = self.inflight + 1;
        proof {
            let after = self.free@;
            assert(after =~= before.drop_last());
            assert forall|i: int| 0 <= i < after.len() implies #[trigger] after[i] < self.busy@.len()
                && !self.busy@[after[i] as int] by {
                assert(after[i] == before[i]);
                assert(before[i] != before[before.len() - 1]);
            }
            assert forall|i: int, j: int|
                0 <= i < after.len() && 0 <= j < after.len() && i != j implies after[i] != after[j] by {
                assert(after[i] == before[i] && after[j] == before[j]);
            }
            assert forall|x: usize| x < self.busy@.len() && !#[trigger] self.busy@[x as int] implies after.contains(
            x) by {
                assert(x != slot);
                assert(!busy0[x as int]);
                assert(before.contains(x));
                let i = choose|i: int| 0 <= i < before.len() && before[i] == x;
                assert(after[i] == x);
            }
            assert(after.push(slot) =~= before);
            assert forall|k: int, j: int| #[trigger] self.serves(k, j) implies (k == slot && j
                == pool0.next) || (k != slot && pool0.serves(k, j)) by {}
            assert forall|k: int, j: int| #[trigger] pool0.serves(k, j) implies self.serves(k, j) && k
                != slot by {}
            assert(self.serves(slot as int, pool0.next as int));
            assert forall|j: int| #[trigger] self.is_done(j) == pool0.is_done(j) by {
                if self.in_flight(j) && j != pool0.next {
                    let k = choose|k: int| #[trigger] self.serves(k, j);
                    assert(pool0.serves(k, j));
                }
                if pool0.in_flight(j) {
                    let k = choose|k: int| #[trigger] pool0.serves(k, j);
                    assert(self.serves(k, j));
                }
            }
        }
        Some((slot, job))
    }

    /// Takes back the job that was handed out last, because the ring had no room for
    /// it.
    pub fn take_back(&mut self, slot: usize)
        requires
            old(self).wf(),
            slot < old(self).busy@.len(),
            old(self).busy@[slot as int],
            old(self).job@[slot as int] == old(self).next - 1,
        ensures
            final(self).wf(),
            final(self).busy@ == old(self).busy@.update(slot as int, false),
            final(self).free@ == old(self).free@.push(slot),
            final(self).next == old(self).next - 1,
            final(self).inflight == old(self).inflight - 1,
            final(self).stats == old(self).stats,
            final(self).expect@ == old(self).expect@,
            final(self).job@ == old(self).job@,
            forall|j: int| #[trigger] final(self).is_done(j) == old(self).is_done(j),
    {
        let ghost pool0 = *self;
        proof {
            busy_means_inflight(*self, slot as int);
        }
        self.release(slot);
        self.next = self.next - 1;
        proof {
            assert(pool0.serves(slot as int, pool0.next - 1));
            released_jobs(pool0, *self, slot as int);
        }
    }

    /// Whether nothing is in flight.
    pub fn is_idle(&self) -> (r: bool)
        ensures
            r == (self.inflight == 0),
    {
        self.inflight == 0
    }

    fn release(&mut self, slot: usize)
        requires
            old(self).slots_exact(),
            slot < old(self).busy@.len(),
            old(self).busy@[slot as int],
            old(self).inflight > 0,
        ensures
            final(self).slots_exact(),
            final(self).busy@ == old(self).busy@.update(slot as int, false),
            final(self).free@ == old(self).free@.push(slot),
            final(self).next == old(self).next,
            final(self).inflight == old(self).inflight - 1,
            final(self).stats == old(self).stats,
            final(self).expect@ == old(self).expect@,
            final(self).job@ == old(self).job@,
    {
        proof {
            freed_pool(self.free@, self.busy@, slot);
        }
        self.busy.set(slot, false);
        self.free.push(slot);
        self.inflight = self.inflight - 1;
    }

    /// Takes the result of a buffer's request: the number of bytes read, or the
    /// negative of an error number. A request that gave fewer bytes than it asked for
    /// counts as short. The buffer is free again.
    pub fn complete(&mut self, slot: usize, result: i32) -> (r: Completion)
        requires
            old(self).wf(),
            slot < old(self).busy@.len(),
            old(self).busy@[slot as int],
            result > i32::MIN,
            result >= 0 ==> old(self).stats.bytes + result <= u64::MAX,
        ensures
            result < 0 ==> r == Completion::Failed((-result) as i32) && *final(self) == *old(self),
            result >= 0 ==> {
                &&& r is Done
                &&& final(self).wf()
                &&& final(self).busy@ == old(self).busy@.update(slot as int, false)
                &&& final(self).free@ == old(self).free@.push(slot)
                &&& final(self).expect@ == old(self).expect@
                &&& final(self).job@ == old(self).job@
                &&& !old(self).is_done(old(self).job@[slot as int] as int)
                &&& forall|j: int| #[trigger]
                    final(self).is_done(j) == (old(self).is_done(j) || j
                        == old(self).job@[slot as int])
                &&& final(self).next == old(self).next
                &&& final(self).inflight == old(self).inflight - 1
                &&& final(self).stats.bytes == old(self).stats.bytes + result
                &&& final(self).stats.requests == old(self).stats.requests + 1
                &&& final(self).stats.short_reads == old(self).stats.short_reads + (if result
                    < old(self).expect@[slot as int] {
                    1int
                } else {
                    0
                })
            },
    {
        if result < 0 {
            return Completion::Failed(-result);
        }
        let ghost pool0 = *self;
        proof {
            busy_means_inflight(*self, slot as int);
        }
        let n: u64 = result as u64;
        if n < self.expect[slot] {
            self.stats.short_reads = self.stats.short_reads + 1;
        }
        self.stats.bytes = self.stats.bytes + n;
        self.stats.requests = self.stats.requests + 1;
        self.release(slot);
        proof {
            assert(pool0.serves(slot as int, pool0.job@[slot as int] as int));
            released_jobs(pool0, *self, slot as int);
        }
        Completion::Done
    }
}

/// Freeing a buffer takes its job out of flight, and no other.
proof fn released_jobs(before: Pool, after: Pool, slot: int)
    requires
        before.jobs_exact(),
        0 <= slot < before.busy@.len(),
        before.busy@[slot],
        after.busy@ == before.busy@.update(slot, false),
        after.job@ == before.job@,
    ensures
        forall|k: int, j: int| #[trigger]
            after.serves(k, j) == (before.serves(k, j) && k != slot),
        forall|j: int| #[trigger]
            after.in_flight(j) == (before.in_flight(j) && j != before.job@[slot]),
{
    assert forall|k: int, j: int| #[trigger] after.serves(k, j) == (before.serves(k, j) && k != slot) by {}
    let own = before.job@[slot] as int;
    assert(before.serves(slot, own));
    assert forall|j: int| #[trigger] after.in_flight(j) == (before.in_flight(j) && j != own) by {
        if after.in_flight(j) {
            let k = choose|k: int| #[trigger] after.serves(k, j);
            assert(before.serves(k, j));
        }
        if before.in_flight(j) && j != own {
            let k = choose|k: int| #[trigger] before.serves(k, j);
            assert(after.serves(k, j));
        }
    }
}

/// Freeing a busy buffer keeps the free list exact.
proof fn freed_pool(free: Seq<usize>, busy: Seq<bool>, slot: usize)
    requires
        free.no_duplicates(),
        forall|i: int|
            0 <= i < free.len() ==> #[trigger] free[i] < busy.len() && !busy[free[i] as int],
        forall|x: usize| x < busy.len() && !#[trigger] busy[x as int] ==> free.contains(x),
        slot < busy.len(),
        busy[slot as int],
    ensures
        free.push(slot).no_duplicates(),
        forall|i: int|
            0 <= i < free.push(slot).len() ==> #[trigger] free.push(slot)[i] < busy.len()
                && !busy.update(slot as int, false)[free.push(slot)[i] as int],
        forall|x: usize|
            x < busy.len() && !#[trigger] busy.update(slot as int, false)[x as int] ==> free.push(
                slot,
            ).contains(x),
{
    let after = free.push(slot);
    let b1 = busy.update(slot as int, false);
    assert forall|i: int| 0 <= i < after.len() implies #[trigger] after[i] < busy.len()
        && !b1[after[i] as int] by {
        if i < free.len() {
            assert(after[i] == free[i]);
        }
    }
    assert forall|i: int, j: int| 0 <= i < after.len() && 0 <= j < after.len() && i != j implies after[i]
        != after[j] by {
        if i < free.len() {
            assert(after[i] == free[i]);
            assert(!busy[free[i] as int]);
        }
        if j < free.len() {
            assert(after[j] == free[j]);
            assert(!busy[free[j] as int]);
        }
    }
    assert forall|x: usize| x < busy.len() && !#[trigger] b1[x as int] implies after.contains(x) by {
        if x == slot {
            assert(after[free.len() as int] == x);
        } else {
            assert(!busy[x as int]);
            assert(free.contains(x));
            let i = choose|i: int| 0 <= i < free.len() && free[i] == x;
            assert(after[i] == x);
        }
    }
}

/// A buffer that serves a request counts among those in flight.
pub proof fn busy_means_inflight(pool: Pool, slot: int)
    requires
        pool.slots_exact(),
        0 <= slot < pool.busy@.len(),
        pool.busy@[slot],
    ensures
        pool.inflight > 0,
{
    let free = pool.free@;
    let n = pool.busy@.len() as int;
    let all = vstd::set_lib::set_int_range(0, n).remove(slot);
    vstd::set_lib::lemma_int_range(0, n);
    let as_int = Seq::new(free.len(), |i: int| free[i] as int);
    assert(as_int.no_duplicates()) by {
        assert forall|i: int, j: int|
            0 <= i < as_int.len() && 0 <= j < as_int.len() && i != j implies as_int[i] != as_int[j] by {
            assert(free[i] != free[j]);
        }
    }
    as_int.unique_seq_to_set();
    assert forall|x: int| as_int.to_set().contains(x) implies all.contains(x) by {
        let i = choose|i: int| 0 <= i < as_int.len() && as_int[i] == x;
        assert(free[i] as int == x);
    }
    vstd::set_lib::lemma_len_subset(as_int.to_set(), all);
}

/// At any time a job is in one of three states: not handed out, in flight in one
/// buffer, or done.
pub proof fn every_job_has_one_state(pool: Pool, j: int)
    requires
        pool.wf(),
        0 <= j,
    ensures
        j >= pool.next ==> !pool.in_flight(j) && !pool.is_done(j),
        j < pool.next ==> pool.in_flight(j) != pool.is_done(j),
        forall|a: int, b: int| #[trigger]
            pool.serves(a, j) && #[trigger] pool.serves(b, j) ==> a == b,
{
}

/// When nothing is in flight and nothing can be handed out, every job was handed
/// out and its request completed. A job gets there by [`Pool::complete`] alone, and
/// once.
pub proof fn idle_pool_has_done_all_jobs(pool: Pool, jobs: Seq<Job>)
    requires
        pool.wf(),
        pool.inflight == 0,
        !pool.can_submit(jobs),
        pool.next <= jobs.len(),
    ensures
        pool.next == jobs.len(),
        pool.stats.requests == jobs.len(),
        forall|j: int| 0 <= j < jobs.len() ==> #[trigger] pool.is_done(j),
{
    assert forall|j: int| 0 <= j < jobs.len() implies #[trigger] pool.is_done(j) by {
        if pool.in_flight(j) {
            let slot = choose|slot: int| #[trigger] pool.serves(slot, j);
            busy_means_inflight(pool, slot);
        }
    }
}

/// The aligned bytes that have to be read for a small range: where they start, how
/// many come before the range, and how many there are.
#[derive(Debug, Clone, Copy, PartialEq, Eq, Structural)]
pub struct Window {
    pub start: u64,
    pub pad: u64,
    pub total: u64,
}

/// Where the block starts that holds the first byte of a range.
pub open spec fn window_start(offset: u64, block: u64) -> int {
    plan::round_down(offset as int, plan::block_of(block))
}

/// How many bytes the blocks of a range have, as far as they can be counted.
pub open spec fn window_total(offset: u64, len: u64, block: u64) -> int {
    plan::saturated(
        plan::round_up(offset - window_start(offset, block) + len, plan::block_of(block)),
    )
}

/// A range is read by whole blocks: the first that it touches to the last, and no
/// others. Where their bytes can be counted, both ends are multiples of the block.
pub proof fn small_window_is_aligned(offset: u64, len: u64, block: u64)
    requires
        offset as int % plan::block_of(block) + len <= u64::MAX,
    ensures
        window_start(offset, block) % plan::block_of(block) == 0,
        window_start(offset, block) <= offset < window_start(offset, block) + plan::block_of(block),
        offset + len <= window_start(offset, block) + window_total(offset, len, block),
        window_total(offset, len, block) < offset - window_start(offset, block) + len
            + plan::block_of(block),
        plan::round_up(offset as int % plan::block_of(block) + len, plan::block_of(block))
            <= u64::MAX ==> window_total(offset, len, block) % plan::block_of(block) == 0,
{
    let b = plan::block_of(block);
    let start = window_start(offset, block);
    plan::round_down_is_floor(offset as int, b);
    lemma_fundamental_div_mod(offset as int, b);
    vstd::arithmetic::mul::lemma_mul_is_commutative(b, offset as int / b);
    assert(offset - start == offset as int % b);
    plan::round_up_is_ceiling(offset - start + len, b);
}

/// The aligned bytes that have to be read for `len` bytes at `offset`.
pub fn small_window(offset: u64, len: u64, block: u64) -> (r: Window)
    requires
        offset as int % plan::block_of(block) + len <= u64::MAX,
    ensures
        r.start == window_start(offset, block),
        r.start + r.pad == offset,
        r.total == window_total(offset, len, block),
        r.pad + len <= r.total,
{
    let start: u64 = plan::floor_to(offset, block);
    proof {
        let b = plan::block_of(block);
        plan::round_down_is_floor(offset as int, b);
        lemma_fundamental_div_mod(offset as int, b);
        vstd::arithmetic::mul::lemma_mul_is_commutative(b, offset as int / b);
        plan::round_up_is_ceiling(offset - start + len, b);
    }
    let pad: u64 = offset - start;
    let total: u64 = plan::ceil_to(pad + len, block);
    Window { start, pad, total }
}

/// The message for a file that ended too early.
pub open spec fn short_message(path: Seq<char>, offset: u64, len: u64, got: nat) -> Seq<char> {
    path + ": wanted "@ + text::decimal(len as nat) + " bytes at "@ + text::decimal(offset as nat)
        + ", got "@ + text::decimal(got)
}

/// Takes the wanted bytes out of what was read of a window: the first `done` bytes
/// of `buf` are what the file has there.
pub fn finish_small(path: &str, offset: u64, len: u64, w: Window, done: usize, buf: &[u8]) -> (r: Result<
    Vec<u8>,
    String,
>)
    requires
        w.pad + len <= u64::MAX,
        done <= buf@.len(),
    ensures
        if done < w.pad + len {
            r is Err && r->Err_0@ == short_message(
                path@,
                offset,
                len,
                (if done < w.pad {
                    0
                } else {
                    done - w.pad
                }) as nat,
            )
        } else {
            r is Ok && r->Ok_0@ == buf@.subrange(w.pad as int, w.pad + len)
        },
{
    if (done as u64) < w.pad + len {
        let got: u64 = if (done as u64) < w.pad {
            0
        } else {
            done as u64 - w.pad
        };
        let mut m: String = path.to_owned();
        m.append(": wanted ");
        text::push_decimal(&mut m, len);
        m.append(" bytes at ");
        text::push_decimal(&mut m, offset);
        m.append(", got ");
        text::push_decimal(&mut m, got);
        return Err(m);
    }
    let from: usize = w.pad as usize;
    let to: usize = (w.pad + len) as usize;
    Ok(vstd::slice::slice_to_vec(vstd::slice::slice_subrange(buf, from, to)))
}

/// The bytes taken out of a window are those of the file.
pub proof fn small_read_is_exact(file: Seq<u8>, buf: Seq<u8>, w: Window, offset: u64, len: u64, done: int)
    requires
        w.start + w.pad == offset,
        w.pad + len <= done <= buf.len(),
        w.start + done <= file.len(),
        buf.take(done) == file.subrange(w.start as int, w.start + done),
    ensures
        buf.subrange(w.pad as int, w.pad + len) == file.subrange(offset as int, offset + len),
{
    let got = buf.subrange(w.pad as int, w.pad + len);
    let want = file.subrange(offset as int, offset + len);
    assert forall|i: int| 0 <= i < len implies #[trigger] got[i] == want[i] by {
        let k = w.pad + i;
        assert(buf.take(done)[k] == buf[k]);
        assert(file.subrange(w.start as int, w.start + done)[k] == file[w.start + k]);
        assert(w.start + k == offset + i);
    }
    assert(got =~= want);
}

/// Why a small range could not be read: a read failed, or the file ended.
pub enum SmallFault<E> {
    Failed(E),
    Ended(String),
}

/// A read that does not fail gives what the file holds: some of the bytes asked for,
/// unless there are none.
pub open spec fn reads_file<E, F: Fn(u64, u64) -> Result<Vec<u8>, E>>(
    read: F,
    file: Seq<u8>,
) -> bool {
    &&& file.len() <= u64::MAX
    &&& forall|offset: u64, count: u64, r: Result<Vec<u8>, E>| #[trigger]
        call_ensures(read, (offset, count), r) && r is Ok ==> {
            &&& r->Ok_0@.len() <= count
            &&& count > 0 && offset < file.len() ==> r->Ok_0@.len() > 0
            &&& holds_from(r->Ok_0@, offset as int, file)
        }
}

/// The bytes are those of the file from `start` on.
pub open spec fn holds_from(buf: Seq<u8>, start: int, file: Seq<u8>) -> bool {
    &&& buf.len() > 0 ==> start + buf.len() <= file.len()
    &&& forall|i: int| 0 <= i < buf.len() ==> #[trigger] buf[i] == file[start + i]
}

proof fn joined_bytes(a: Seq<u8>, b: Seq<u8>, start: int, file: Seq<u8>)
    requires
        holds_from(a, start, file),
        holds_from(b, start + a.len(), file),
    ensures
        holds_from(a + b, start, file),
{
    let all = a + b;
    assert forall|i: int| 0 <= i < all.len() implies #[trigger] all[i] == file[start + i] by {
        if i < a.len() {
            assert(all[i] == a[i]);
        } else {
            assert(all[i] == b[i - a.len()]);
        }
    }
}

/// The read goes from some byte of a window to its end.
pub open spec fn reads_rest(from: u64, count: u64, offset: u64, len: u64, block: u64) -> bool {
    &&& window_start(offset, block) <= from
    &&& count > 0
    &&& from + count == window_start(offset, block) + window_total(offset, len, block)
}

/// A read of what was missing of the window failed with the error.
pub open spec fn failed_with<E, F: Fn(u64, u64) -> Result<Vec<u8>, E>>(
    read: F,
    offset: u64,
    len: u64,
    block: u64,
    e: E,
) -> bool {
    exists|from: u64, count: u64|
        reads_rest(from, count, offset, len, block) && #[trigger] call_ensures(
            read,
            (from, count),
            Err::<Vec<u8>, E>(e),
        )
}

/// Reading can be asked for the whole window, and after a read that gave a part of
/// what it was asked for, for the rest of it.
pub open spec fn accepts_window<E, F: Fn(u64, u64) -> Result<Vec<u8>, E>>(
    read: F,
    offset: u64,
    len: u64,
    block: u64,
) -> bool {
    &&& window_total(offset, len, block) > 0 ==> call_requires(
        read,
        (window_start(offset, block) as u64, window_total(offset, len, block) as u64),
    )
    &&& forall|from: u64, count: u64, v: Vec<u8>|
        {
            &&& call_requires(read, (from, count))
            &&& #[trigger] call_ensures(read, (from, count), Ok::<Vec<u8>, E>(v))
            &&& 0 < v@.len() < count
            &&& from + v@.len() <= u64::MAX
        } ==> call_requires(read, ((from + v@.len()) as u64, (count - v@.len()) as u64))
}

/// Reading that takes whole blocks alone, at multiples of the block, and gives whole
/// blocks can be asked for any range whose blocks can be counted.
pub proof fn block_reads_suffice<E, F: Fn(u64, u64) -> Result<Vec<u8>, E>>(
    read: F,
    offset: u64,
    len: u64,
    block: u64,
)
    requires
        plan::round_up(offset as int % plan::block_of(block) + len, plan::block_of(block))
            <= u64::MAX,
        forall|from: u64, count: u64| #[trigger]
            call_requires(read, (from, count)) <==> from as int % plan::block_of(block) == 0
                && count as int % plan::block_of(block) == 0,
        forall|from: u64, count: u64, v: Vec<u8>| #[trigger]
            call_ensures(read, (from, count), Ok::<Vec<u8>, E>(v)) ==> v@.len() as int
                % plan::block_of(block) == 0,
    ensures
        accepts_window(read, offset, len, block),
{
    let b = plan::block_of(block);
    plan::round_up_is_ceiling(offset as int % b + len, b);
    small_window_is_aligned(offset, len, block);
    assert forall|from: u64, count: u64, v: Vec<u8>|
        {
            &&& call_requires(read, (from, count))
            &&& #[trigger] call_ensures(read, (from, count), Ok::<Vec<u8>, E>(v))
            &&& 0 < v@.len() < count
            &&& from + v@.len() <= u64::MAX
        } implies call_requires(
        read,
        ((from + v@.len()) as u64, (count - v@.len()) as u64),
    ) by {
        let n = v@.len() as int;
        lemma_mod_adds(from as int, n, b);
        lemma_sub_mod_noop(count as int, n, b);
        lemma_small_mod(0, b as nat);
        assert((from + n) % b == 0 && (count - n) % b == 0);
        let next = (from + v@.len()) as u64;
        let left = (count - v@.len()) as u64;
        assert(next as int % b == 0 && left as int % b == 0);
    }
}

/// As many of the bytes as are wanted, from the front.
pub open spec fn front(s: Seq<u8>, most: int) -> Seq<u8> {
    if s.len() <= most {
        s
    } else {
        s.take(most)
    }
}

/// The bytes that reads gave, one after another, up to `total` of them.
pub open spec fn gathered(parts: Seq<Vec<u8>>, total: int) -> Seq<u8>
    decreases parts.len(),
{
    if parts.len() == 0 {
        Seq::empty()
    } else {
        let before = gathered(parts.drop_last(), total);
        before + front(parts.last()@, total - before.len())
    }
}

/// The reads gave these parts in turn: each was asked for what was missing after the
/// ones before it, and each of those gave something.
pub open spec fn read_in_turn<E, F: Fn(u64, u64) -> Result<Vec<u8>, E>>(
    read: F,
    start: int,
    total: int,
    parts: Seq<Vec<u8>>,
) -> bool
    decreases parts.len(),
{
    parts.len() == 0 || {
        let before = parts.drop_last();
        let done = gathered(before, total).len();
        &&& read_in_turn(read, start, total, before)
        &&& !is_over(start, total, before)
        &&& call_ensures(
            read,
            ((start + done) as u64, (total - done) as u64),
            Ok::<Vec<u8>, E>(parts.last()),
        )
    }
}

/// Nothing more is asked for: all is there, or the last read gave nothing, or the
/// next byte has no offset.
pub open spec fn is_over(start: int, total: int, parts: Seq<Vec<u8>>) -> bool {
    ||| gathered(parts, total).len() >= total
    ||| parts.len() > 0 && parts.last()@.len() == 0
    ||| start + gathered(parts, total).len() > u64::MAX
}

/// What reading a small range comes to, given the parts that the reads gave: the
/// error of the read after them, the bytes of the range, or that the file ended.
pub open spec fn answers<E, F: Fn(u64, u64) -> Result<Vec<u8>, E>>(
    read: F,
    path: Seq<char>,
    offset: u64,
    len: u64,
    block: u64,
    parts: Seq<Vec<u8>>,
    r: Result<Vec<u8>, SmallFault<E>>,
) -> bool {
    let start = window_start(offset, block);
    let total = window_total(offset, len, block);
    let got = gathered(parts, total);
    let pad = offset - start;
    match r {
        Err(SmallFault::Failed(e)) => !is_over(start, total, parts) && call_ensures(
            read,
            ((start + got.len()) as u64, (total - got.len()) as u64),
            Err::<Vec<u8>, E>(e),
        ),
        Ok(v) => {
            &&& is_over(start, total, parts)
            &&& pad + len <= got.len()
            &&& v@ == got.subrange(pad, pad + len)
        },
        Err(SmallFault::Ended(m)) => {
            &&& is_over(start, total, parts)
            &&& got.len() < pad + len
            &&& m@ == short_message(
                path,
                offset,
                len,
                (if got.len() < pad {
                    0
                } else {
                    got.len() - pad
                }) as nat,
            )
        },
    }
}

/// Takes the outcome of one read of `count` bytes: appends what it gave, and tells
/// whether that was anything; an error comes back, with nothing appended.
pub fn take_read<E>(buf: &mut Vec<u8>, count: u64, outcome: Result<Vec<u8>, E>) -> (r: Result<
    bool,
    E,
>)
    ensures
        match outcome {
            Ok(v) => {
                &&& final(buf)@ == old(buf)@ + front(v@, count as int)
                &&& r == Ok::<bool, E>(v@.len() > 0 && count > 0)
            },
            Err(e) => final(buf)@ == old(buf)@ && r == Err::<bool, E>(e),
        },
{
    let got: Vec<u8> = match outcome {
        Ok(v) => v,
        Err(e) => {
            return Err(e);
        },
    };
    let ghost before = buf@;
    let mut i: usize = 0;
    assert(got@.take(0) =~= Seq::empty());
    while i < got.len() && (i as u64) < count
        invariant
            i <= got.len(),
            i <= count,
            buf@ == before + got@.take(i as int),
        decreases got.len() - i,
    {
        buf.push(got[i]);
        assert(buf@ =~= before + got@.take(i as int + 1));
        i += 1;
    }
    assert(got@.take(got@.len() as int) =~= got@);
    Ok(i > 0)
}

/// Reads `len` bytes at `offset` by asking `read`, which takes an offset and a number
/// of bytes, for the whole blocks that hold them, and for the rest of these as long
/// as it gives a part.
///
/// Unless a read fails, the bytes come back exactly if the file has them, whatever the
/// block and however many bytes each read gives. A failed read ends it with its error.
/// For no bytes at a multiple of the block nothing is read; elsewhere the file has to
/// reach up to `offset`.
pub fn read_small_range<E, F: Fn(u64, u64) -> Result<Vec<u8>, E>>(
    path: &str,
    offset: u64,
    len: u64,
    block: u64,
    read: F,
) -> (r: Result<Vec<u8>, SmallFault<E>>)
    requires
        offset as int % plan::block_of(block) + len <= u64::MAX,
        accepts_window(read, offset, len, block),
    ensures
        exists|parts: Seq<Vec<u8>>|
            read_in_turn(
                read,
                window_start(offset, block),
                window_total(offset, len, block),
                parts,
            ) && #[trigger] answers(read, path@, offset, len, block, parts, r),
        r matches Ok(v) ==> v@.len() == len,
        r matches Err(SmallFault::Failed(e)) ==> failed_with(read, offset, len, block, e),
        len == 0 && offset as int % plan::block_of(block) == 0 ==> r is Ok,
        forall|file: Seq<u8>| #[trigger]
            reads_file(read, file) && (len > 0 || offset as int % plan::block_of(block) != 0)
                ==> r matches Err(SmallFault::Failed(_)) || if offset + len <= file.len() {
                r matches Ok(v) && v@ == file.subrange(offset as int, offset + len)
            } else {
                r matches Err(SmallFault::Ended(m)) && m@ == short_message(
                    path@,
                    offset,
                    len,
                    (if file.len() < offset {
                        0
                    } else {
                        file.len() - offset
                    }) as nat,
                )
            },
{
    let w: Window = small_window(offset, len, block);
    proof {
        let b = plan::block_of(block);
        plan::round_down_is_floor(offset as int, b);
        lemma_fundamental_div_mod(offset as int, b);
        vstd::arithmetic::mul::lemma_mul_is_commutative(b, offset as int / b);
        assert(w.pad == offset as int % b);
        if len == 0 && w.pad == 0 {
            plan::round_up_is_ceiling(0, b);
            lemma_small_mod(w.total as nat, b as nat);
        }
    }
    let mut buf: Vec<u8> = Vec::new();
    let mut ended: bool = false;
    let ghost mut parts: Seq<Vec<u8>> = Seq::empty();
    while !ended && (buf.len() as u64) < w.total && buf.len() as u64 <= u64::MAX - w.start
        invariant
            accepts_window(read, offset, len, block),
            w.start == window_start(offset, block),
            w.start + w.pad == offset,
            w.total == window_total(offset, len, block),
            len == 0 && offset as int % plan::block_of(block) == 0 ==> w.total == 0,
            !ended && buf@.len() < w.total && w.start + buf@.len() <= u64::MAX ==> call_requires(
                read,
                ((w.start + buf@.len()) as u64, (w.total - buf@.len()) as u64),
            ),
            forall|file: Seq<u8>| #[trigger]
                reads_file(read, file) ==> holds_from(buf@, w.start as int, file) && (ended
                    ==> w.start + buf@.len() >= file.len()),
            buf@.len() <= w.total,
            buf@ == gathered(parts, w.total as int),
            read_in_turn(read, w.start as int, w.total as int, parts),
            ended == (parts.len() > 0 && parts.last()@.len() == 0),
        decreases
                w.total - buf@.len(),
                (if ended {
                    0int
                } else {
                    1
                }),
    {
        let done: u64 = buf.len() as u64;
        let from: u64 = w.start + done;
        let count: u64 = w.total - done;
        let result: Result<Vec<u8>, E> = read(from, count);
        let ghost given = result;
        let ghost before = buf@;
        match take_read(&mut buf, count, result) {
            Ok(more) => {
                ended = !more;
            },
            Err(e) => {
                assert(reads_rest(from, count, offset, len, block));
                assert(failed_with(read, offset, len, block, e));
                let r: Result<Vec<u8>, SmallFault<E>> = Err(SmallFault::Failed(e));
                assert(answers(read, path@, offset, len, block, parts, r));
                return r;
            },
        }
        proof {
            let got = given->Ok_0;
            let next = parts.push(got);
            assert(next.drop_last() =~= parts);
            assert(call_ensures(read, (from, count), Ok::<Vec<u8>, E>(got)));
            parts = next;
            assert forall|file: Seq<u8>| #[trigger] reads_file(read, file) implies holds_from(
                buf@,
                w.start as int,
                file,
            ) && (ended ==> w.start + buf@.len() >= file.len()) by {
                assert(call_ensures(read, (from, count), given));
                assert(holds_from(before, w.start as int, file));
                assert(got@.len() <= count);
                joined_bytes(before, got@, w.start as int, file);
                if ended {
                    assert(got@.len() == 0);
                    assert(buf@.len() == before.len());
                    assert(w.start + before.len() == from);
                }
            }
        }
    }
    proof {
        assert forall|file: Seq<u8>| #[trigger]
            reads_file(read, file) && (len > 0 || w.pad > 0) implies (if offset + len
            <= file.len() {
            buf@.len() >= w.pad + len && buf@.subrange(w.pad as int, w.pad + len) == file.subrange(
                offset as int,
                offset + len,
            )
        } else {
            buf@.len() < w.pad + len && (if buf@.len() < w.pad {
                0
            } else {
                buf@.len() - w.pad
            }) == (if file.len() < offset {
                0
            } else {
                file.len() - offset
            })
        }) by {
            if buf@.len() > 0 {
                assert(buf@[buf@.len() - 1] == file[w.start + buf@.len() - 1]);
            }
            if offset + len <= file.len() {
                assert(buf@.take(buf@.len() as int) =~= file.subrange(
                    w.start as int,
                    w.start + buf@.len(),
                ));
                small_read_is_exact(file, buf@, w, offset, len, buf@.len() as int);
            }
        }
    }
    let r: Result<Vec<u8>, SmallFault<E>> = match finish_small(
        path,
        offset,
        len,
        w,
        buf.len(),
        buf.as_slice(),
    ) {
        Ok(v) => Ok(v),
        Err(m) => Err(SmallFault::Ended(m)),
    };
    assert(answers(read, path@, offset, len, block, parts, r));
    r
}

/// The request at `i` is the first that is at fault.
pub open spec fn is_first_fault(
    plan: Seq<(usize, Range)>,
    files: usize,
    i: int,
    m: Seq<char>,
) -> bool {
    &&& 0 <= i < plan.len()
    &&& request_fault(plan[i], files) == Some(m)
    &&& forall|j: int| 0 <= j < i ==> (#[trigger] plan[j]).0 < files && plan[j].1.len > 0
}

/// A plan is accepted exactly if every request is for one of the files and asks for
/// something; otherwise what is told is what is wrong with the first that does not.
pub proof fn only_sound_requests_are_accepted(plan: Seq<(usize, Range)>, files: usize)
    ensures
        plan_fault(plan, files) is None <==> forall|i: int|
            0 <= i < plan.len() ==> (#[trigger] plan[i]).0 < files && plan[i].1.len > 0,
        plan_fault(plan, files) matches Some(m) ==> exists|i: int| #[trigger]
            is_first_fault(plan, files, i, m),
    decreases plan.len(),
{
    if plan.len() > 0 {
        let before = plan.drop_last();
        let n = plan.len() - 1;
        only_sound_requests_are_accepted(before, files);
        assert forall|j: int| 0 <= j < n implies before[j] == #[trigger] plan[j] by {}
        match plan_fault(before, files) {
            Some(m) => {
                let i = choose|i: int| is_first_fault(before, files, i, m);
                assert(before[i] == plan[i]);
                assert forall|j: int| 0 <= j < i implies (#[trigger] plan[j]).0 < files
                    && plan[j].1.len > 0 by {
                    assert(before[j] == plan[j]);
                }
                assert(is_first_fault(plan, files, i, m));
            },
            None => {
                assert forall|j: int| 0 <= j < n implies (#[trigger] plan[j]).0 < files
                    && plan[j].1.len > 0 by {
                    assert(before[j] == plan[j]);
                }
                match request_fault(plan[n], files) {
                    Some(m) => {
                        assert(is_first_fault(plan, files, n, m));
                    },
                    None => {},
                }
            },
        }
    }
}

/// A request has as many bytes as configured, rounded up to whole blocks, and at least one
/// block.
pub proof fn request_size_is_rounded(cfg: ReadConfig)
    requires
        cfg.chunk_bytes + 2 * cfg.block < u64::MAX,
    ensures
        ({
            let b = if cfg.block == 0 {
                1
            } else {
                cfg.block as int
            };
            &&& chunk_of(cfg) % b == 0
            &&& chunk_of(cfg) >= b
            &&& chunk_of(cfg) >= cfg.chunk_bytes
            &&& chunk_of(cfg) - b < cfg.chunk_bytes || chunk_of(cfg) == b
        }),
{
    let b = plan::block_of(cfg.block as u64);
    let c = if cfg.chunk_bytes >= cfg.block {
        cfg.chunk_bytes as int
    } else {
        cfg.block as int
    };
    let x = if c < 1 {
        1
    } else {
        c
    };
    plan::round_up_is_ceiling(x, b);
    if cfg.chunk_bytes < cfg.block {
        lemma_mod_self_0(b);
        plan::multiples_are_fixed(b, b);
    }
}

/// The requests for a range come one chunk after another from its start on: request
/// number `i` starts `i` chunks in, asks for the file that was named, and asks for a whole
/// chunk, or for what is left of the range, in whole blocks. There are as many as it takes.
pub proof fn requests_are_chunks_apart(
    file: usize,
    offset: int,
    end: int,
    chunk: int,
    block: u64,
    i: int,
)
    requires
        0 <= offset <= end <= u64::MAX,
        chunk > 0,
        i >= 0,
    ensures
        i < range_jobs(file, offset, end, chunk, block).len() <==> offset + i * chunk < end,
        offset + i * chunk < end ==> {
            let job = range_jobs(file, offset, end, chunk, block)[i];
            let at = offset + i * chunk;
            &&& job.file == file
            &&& job.offset == at
            &&& job.len == plan::saturated(
                plan::round_up(
                    if end - at > chunk {
                        chunk
                    } else {
                        end - at
                    },
                    plan::block_of(block),
                ),
            )
        },
    decreases i,
{
    let jobs = range_jobs(file, offset, end, chunk, block);
    assert(i * chunk >= 0) by (nonlinear_arith)
        requires
            i >= 0,
            chunk > 0,
    ;
    if offset < end {
        let want = if chunk < end - offset {
            chunk
        } else {
            end - offset
        };
        let b = plan::block_of(block);
        let rest = range_jobs(file, offset + want, end, chunk, block);
        plan::round_up_is_ceiling(want, b);
        if i == 0 {
            assert(0 * chunk == 0);
        } else {
            requests_are_chunks_apart(file, offset + want, end, chunk, block, i - 1);
            assert(i * chunk == chunk + (i - 1) * chunk) by (nonlinear_arith);
            if i - 1 < rest.len() {
                assert(jobs[i] == rest[i - 1]);
            }
            assert((i - 1) * chunk >= 0) by (nonlinear_arith)
                requires
                    i >= 1,
                    chunk > 0,
            ;
            if want < chunk {
                assert(rest.len() == 0);
            }
        }
    }
}

/// The requests for two plans one after the other are those for the first, and behind them
/// those for the second; those for a single range are for its file, its offset and its end.
pub proof fn requests_follow_the_plan(
    a: Seq<(usize, Range)>,
    b: Seq<(usize, Range)>,
    file: usize,
    r: Range,
    chunk: int,
    block: u64,
)
    ensures
        plan_jobs(a + b, chunk, block) == plan_jobs(a, chunk, block) + plan_jobs(b, chunk, block),
        plan_jobs(seq![(file, r)], chunk, block) == range_jobs(
            file,
            r.offset as int,
            r.offset + r.len,
            chunk,
            block,
        ),
    decreases b.len(),
{
    let one = seq![(file, r)];
    assert(one.drop_last() =~= Seq::empty());
    assert(plan_jobs(one.drop_last(), chunk, block).len() == 0);
    assert(plan_jobs(one, chunk, block) =~= range_jobs(
        file,
        r.offset as int,
        r.offset + r.len,
        chunk,
        block,
    ));
    if b.len() == 0 {
        assert(a + b =~= a);
        assert(plan_jobs(a, chunk, block) + plan_jobs(b, chunk, block) =~= plan_jobs(
            a,
            chunk,
            block,
        ));
    } else {
        requests_follow_the_plan(a, b.drop_last(), file, r, chunk, block);
        assert((a + b).drop_last() =~= a + b.drop_last());
        assert((a + b).last() == b.last());
        assert(plan_jobs(a + b, chunk, block) =~= plan_jobs(a, chunk, block) + plan_jobs(
            b,
            chunk,
            block,
        ));
    }
}

} // verus!
