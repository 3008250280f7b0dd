//! Totals over all files of a model.
use crate::header;
use crate::header::{HeaderSpec, ShardHeader, TensorSpec};
use crate::names::NameMap;
use crate::plan;
use crate::plan::Range;
use vstd::prelude::*;
use vstd::string::*;

verus! {

/// Totals over all files of a model.
pub struct ModelSummary {
    pub shards: usize,
    pub tensors: u64,
    pub file_bytes: u64,
    pub header_bytes: u64,
    pub tensor_bytes: u64,
    pub planned_bytes: u64,
    pub planned_requests: usize,
    pub unaligned_offsets: u64,
    pub unaligned_sizes: u64,
}

/// What is counted over files, as mathematical values.
pub struct Totals {
    pub tensors: nat,
    pub file_bytes: nat,
    pub header_bytes: nat,
    pub tensor_bytes: nat,
    pub unaligned_offsets: nat,
    pub unaligned_sizes: nat,
}

/// How many tensors start off a block's edge.
pub open spec fn offsets_off_block(h: HeaderSpec, s: Seq<TensorSpec>, block: u64) -> nat
    decreases s.len(),
{
    if s.len() == 0 {
        0
    } else {
        offsets_off_block(h, s.drop_last(), block) + (if (h.data_start + s.last().start)
            % block as int != 0 {
            1nat
        } else {
            0
        })
    }
}

/// How many tensors are not a whole number of blocks long.
pub open spec fn sizes_off_block(s: Seq<TensorSpec>, block: u64) -> nat
    decreases s.len(),
{
    if s.len() == 0 {
        0
    } else {
        sizes_off_block(s.drop_last(), block) + (if (s.last().end - s.last().start) % block as int
            != 0 {
            1nat
        } else {
            0
        })
    }
}

/// The totals over files.
pub open spec fn totals(headers: Seq<HeaderSpec>, block: u64) -> Totals
    decreases headers.len(),
{
    if headers.len() == 0 {
        Totals {
            tensors: 0,
            file_bytes: 0,
            header_bytes: 0,
            tensor_bytes: 0,
            unaligned_offsets: 0,
            unaligned_sizes: 0,
        }
    } else {
        let t = totals(headers.drop_last(), block);
        let h = headers.last();
        Totals {
            tensors: t.tensors + h.tensors.len(),
            file_bytes: t.file_bytes + h.file_size as nat,
            header_bytes: t.header_bytes + h.header_len as nat,
            tensor_bytes: t.tensor_bytes + header::total_bytes(h.tensors),
            unaligned_offsets: t.unaligned_offsets + offsets_off_block(h, h.tensors, block),
            unaligned_sizes: t.unaligned_sizes + sizes_off_block(h.tensors, block),
        }
    }
}

/// The bytes of all requests.
pub open spec fn requested_bytes(plan: Seq<(usize, Range)>) -> nat
    decreases plan.len(),
{
    if plan.len() == 0 {
        0
    } else {
        requested_bytes(plan.drop_last()) + plan.last().1.len as nat
    }
}

/// The bytes of ranges of files.
pub open spec fn span_bytes(spans: Seq<(int, plan::Span)>) -> int
    decreases spans.len(),
{
    if spans.len() == 0 {
        0
    } else {
        span_bytes(spans.drop_last()) + (spans.last().1.1 - spans.last().1.0)
    }
}

proof fn requests_have_their_spans_bytes(requests: Seq<(usize, Range)>)
    ensures
        requested_bytes(requests) == span_bytes(plan::request_spans(requests)),
    decreases requests.len(),
{
    if requests.len() > 0 {
        let d = requests.drop_last();
        requests_have_their_spans_bytes(d);
        assert(plan::request_spans(requests).drop_last() =~= plan::request_spans(d));
    }
}

/// All totals fit 64 bits.
pub open spec fn totals_fit(headers: Seq<HeaderSpec>, block: u64) -> bool {
    let t = totals(headers, block);
    &&& t.tensors <= u64::MAX
    &&& t.file_bytes <= u64::MAX
    &&& t.header_bytes <= u64::MAX
    &&& t.tensor_bytes <= u64::MAX
}

proof fn counts_are_bounded(h: HeaderSpec, s: Seq<TensorSpec>, block: u64)
    ensures
        offsets_off_block(h, s, block) <= s.len(),
        sizes_off_block(s, block) <= s.len(),
    decreases s.len(),
{
    if s.len() > 0 {
        counts_are_bounded(h, s.drop_last(), block);
    }
}

proof fn totals_grow(headers: Seq<HeaderSpec>, block: u64, n: int)
    requires
        0 <= n <= headers.len(),
    ensures
        ({
            let a = totals(headers.take(n), block);
            let b = totals(headers, block);
            &&& a.tensors <= b.tensors
            &&& a.file_bytes <= b.file_bytes
            &&& a.header_bytes <= b.header_bytes
            &&& a.tensor_bytes <= b.tensor_bytes
            &&& a.unaligned_offsets <= a.tensors
            &&& a.unaligned_sizes <= a.tensors
        }),
    decreases headers.len(),
{
    if n < headers.len() {
        let d = headers.drop_last();
        assert(d.take(n) =~= headers.take(n));
        totals_grow(d, block, n);
    } else {
        assert(headers.take(n) =~= headers);
        if headers.len() > 0 {
            let d = headers.drop_last();
            totals_grow(d, block, n - 1);
            assert(d.take(n - 1) =~= d);
            let h = headers.last();
            counts_are_bounded(h, h.tensors, block);
        }
    }
}

fn off_block_counts(h: &ShardHeader, block: u64) -> (r: (u64, u64))
    requires
        h.wf(),
        block > 0,
    ensures
        r.0 == offsets_off_block(h@, h@.tensors, block),
        r.1 == sizes_off_block(h@.tensors, block),
        r.0 <= h.tensors@.len(),
        r.1 <= h.tensors@.len(),
{
    let ghost all = h@.tensors;
    let mut offsets: u64 = 0;
    let mut sizes: u64 = 0;
    let mut i: usize = 0;
    assert(all.take(0) =~= Seq::empty());
    while i < h.tensors.len()
        invariant
            i <= h.tensors.len(),
            h.wf(),
            block > 0,
            all == h@.tensors,
            offsets == offsets_off_block(h@, all.take(i as int), block),
            sizes == sizes_off_block(all.take(i as int), block),
            offsets <= i,
            sizes <= i,
        decreases h.tensors.len() - i,
    {
        proof {
            let next = all.take(i as int + 1);
            assert(next.drop_last() =~= all.take(i as int));
            assert(next.last() == h.tensors[i as int]@);
            assert(all[i as int].fits((h.file_size - h.data_start) as u64));
        }
        let (start, end) = h.tensors[i].abs_range(h.data_start);
        if start % block != 0 {
            offsets += 1;
        }
        if (end - start) % block != 0 {
            sizes += 1;
        }
        i += 1;
    }
    assert(all.take(all.len() as int) =~= all);
    (offsets, sizes)
}

/// Sums up a model and the plan for it.
pub fn summarize(headers: &[ShardHeader], block: u64, max_gap: u64) -> (r: ModelSummary)
    requires
        plan::all_wf(headers@),
        block > 0,
        totals_fit(plan::header_specs(headers@), block),
        span_bytes(plan::model_planned(plan::header_specs(headers@), block, max_gap)) <= u64::MAX,
    ensures
        ({
            let t = totals(plan::header_specs(headers@), block);
            let p = plan::model_planned(plan::header_specs(headers@), block, max_gap);
            &&& r.shards == headers@.len()
            &&& r.tensors == t.tensors
            &&& r.file_bytes == t.file_bytes
            &&& r.header_bytes == t.header_bytes
            &&& r.tensor_bytes == t.tensor_bytes
            &&& r.unaligned_offsets == t.unaligned_offsets
            &&& r.unaligned_sizes == t.unaligned_sizes
            &&& r.planned_requests == p.len()
            &&& r.planned_bytes == span_bytes(p)
        }),
{
    let requests: Vec<(usize, Range)> = plan::plan_model(headers, block, max_gap);
    proof {
        requests_have_their_spans_bytes(requests@);
        assert(plan::request_spans(requests@).len() == requests@.len());
    }
    summarize_plan(headers, block, requests.as_slice())
}

/// Sums up a model and an explicit plan for it.
pub fn summarize_plan(headers: &[ShardHeader], block: u64, plan: &[(usize, Range)]) -> (r: ModelSummary)
    requires
        plan::all_wf(headers@),
        block > 0,
        totals_fit(plan::header_specs(headers@), block),
        requested_bytes(plan@) <= u64::MAX,
    ensures
        ({
            let t = totals(plan::header_specs(headers@), block);
            &&& r.shards == headers@.len()
            &&& r.tensors == t.tensors
            &&& r.file_bytes == t.file_bytes
            &&& r.header_bytes == t.header_bytes
            &&& r.tensor_bytes == t.tensor_bytes
            &&& r.unaligned_offsets == t.unaligned_offsets
            &&& r.unaligned_sizes == t.unaligned_sizes
            &&& r.planned_requests == plan@.len()
            &&& r.planned_bytes == requested_bytes(plan@)
        }),
{
    let ghost all = plan::header_specs(headers@);
    let mut s = ModelSummary {
        shards: headers.len(),
        tensors: 0,
        file_bytes: 0,
        header_bytes: 0,
        tensor_bytes: 0,
        planned_bytes: 0,
        planned_requests: plan.len(),
        unaligned_offsets: 0,
        unaligned_sizes: 0,
    };
    let mut i: usize = 0;
    assert(all.take(0) =~= Seq::empty());
    while i < headers.len()
        invariant
            i <= headers.len(),
            plan::all_wf(headers@),
            block > 0,
            all == plan::header_specs(headers@),
            totals_fit(all, block),
            s.shards == headers@.len(),
            s.planned_requests == plan@.len(),
            s.planned_bytes == 0,
            s.tensors == totals(all.take(i as int), block).tensors,
            s.file_bytes == totals(all.take(i as int), block).file_bytes,
            s.header_bytes == totals(all.take(i as int), block).header_bytes,
            s.tensor_bytes == totals(all.take(i as int), block).tensor_bytes,
            s.unaligned_offsets == totals(all.take(i as int), block).unaligned_offsets,
            s.unaligned_sizes == totals(all.take(i as int), block).unaligned_sizes,
        decreases headers.len() - i,
    {
        let h: &ShardHeader = &headers[i];
        proof {
            let next = all.take(i as int + 1);
            assert(next.drop_last() =~= all.take(i as int));
            assert(next.last() == h@);
            totals_grow(all, block, i as int + 1);
            totals_grow(all, block, i as int);
            assert(h@.tensors.len() == h.tensors@.len());
        }
        let (offsets, sizes) = off_block_counts(h, block);
        s.tensors = s.tensors + h.tensors.len() as u64;
        s.file_bytes = s.file_bytes + h.file_size;
        s.header_bytes = s.header_bytes + h.header_len;
        s.tensor_bytes = s.tensor_bytes + h.tensor_bytes();
        s.unaligned_offsets = s.unaligned_offsets + offsets;
        s.unaligned_sizes = s.unaligned_sizes + sizes;
        i += 1;
    }
    assert(all.take(all.len() as int) =~= all);
    s.planned_bytes = plan_bytes(plan);
    s
}

proof fn requested_bytes_grow(plan: Seq<(usize, Range)>, n: int)
    requires
        0 <= n <= plan.len(),
    ensures
        requested_bytes(plan.take(n)) <= requested_bytes(plan),
    decreases plan.len(),
{
    if n < plan.len() {
        assert(plan.drop_last().take(n) =~= plan.take(n));
        requested_bytes_grow(plan.drop_last(), n);
    } else {
        assert(plan.take(n) =~= plan);
    }
}

fn plan_bytes(plan: &[(usize, Range)]) -> (r: u64)
    requires
        requested_bytes(plan@) <= u64::MAX,
    ensures
        r == requested_bytes(plan@),
{
    let mut sum: u64 = 0;
    let mut i: usize = 0;
    assert(plan@.take(0) =~= Seq::empty());
    while i < plan.len()
        invariant
            i <= plan.len(),
            requested_bytes(plan@) <= u64::MAX,
            sum == requested_bytes(plan@.take(i as int)),
        decreases plan.len() - i,
    {
        proof {
            let next = plan@.take(i as int + 1);
            assert(next.drop_last() =~= plan@.take(i as int));
            requested_bytes_grow(plan@, i as int + 1);
        }
        sum = sum + plan[i].1.len;
        i += 1;
    }
    assert(plan@.take(plan@.len() as int) =~= plan@);
    sum
}

/// How many tensors have this dtype.
pub open spec fn dtype_count(s: Seq<TensorSpec>, token: Seq<char>) -> nat
    decreases s.len(),
{
    if s.len() == 0 {
        0
    } else {
        dtype_count(s.drop_last(), token) + (if header::dtype_token(s.last().dtype) == token {
            1nat
        } else {
            0
        })
    }
}

/// How many tensors of all files have this dtype.
pub open spec fn model_dtype_count(headers: Seq<HeaderSpec>, token: Seq<char>) -> nat
    decreases headers.len(),
{
    if headers.len() == 0 {
        0
    } else {
        model_dtype_count(headers.drop_last(), token) + dtype_count(headers.last().tensors, token)
    }
}

/// Counts the tensors of each dtype, by its name.
pub fn dtype_counts(headers: &[ShardHeader]) -> (r: NameMap<u128>)
    ensures
        r.wf(),
        forall|d: Seq<char>| #[trigger]
            r@.contains_key(d) ==> r@[d] == model_dtype_count(plan::header_specs(headers@), d),
        forall|d: Seq<char>| #[trigger]
            r@.contains_key(d) <==> model_dtype_count(plan::header_specs(headers@), d) > 0,
{
    let ghost all = plan::header_specs(headers@);
    let mut r: NameMap<u128> = NameMap::new();
    let mut i: usize = 0;
    assert(all.take(0) =~= Seq::empty());
    while i < headers.len()
        invariant
            i <= headers.len(),
            all == plan::header_specs(headers@),
            r.wf(),
            forall|d: Seq<char>| #[trigger]
                r@.contains_key(d) ==> r@[d] == model_dtype_count(all.take(i as int), d) && r@[d]
                    <= i * usize::MAX,
            forall|d: Seq<char>| #[trigger]
                r@.contains_key(d) <==> model_dtype_count(all.take(i as int), d) > 0,
        decreases headers.len() - i,
    {
        let h: &ShardHeader = &headers[i];
        let ghost tensors = h@.tensors;
        let ghost before = all.take(i as int);
        let mut j: usize = 0;
        assert(tensors.take(0) =~= Seq::empty());
        while j < h.tensors.len()
            invariant
                j <= h.tensors.len(),
                i < usize::MAX,
                tensors == h@.tensors,
                r.wf(),
                forall|d: Seq<char>| #[trigger]
                    r@.contains_key(d) ==> r@[d] == model_dtype_count(before, d) + dtype_count(
                        tensors.take(j as int),
                        d,
                    ) && r@[d] <= i * usize::MAX + j,
                forall|d: Seq<char>| #[trigger]
                    r@.contains_key(d) <==> model_dtype_count(before, d) + dtype_count(
                        tensors.take(j as int),
                        d,
                    ) > 0,
            decreases h.tensors.len() - j,
        {
            let token: &str = h.tensors[j].dtype.as_str();
            let ghost had = r@;
            proof {
                let next = tensors.take(j as int + 1);
                assert(next.drop_last() =~= tensors.take(j as int));
                assert(next.last() == h.tensors[j as int]@);
                assert(i * usize::MAX + usize::MAX < u128::MAX) by (nonlinear_arith)
                    requires
                        i < usize::MAX,
                        usize::MAX <= u64::MAX,
                ;
            }
            let n: u128 = match r.get(token) {
                Some(n) => *n,
                None => 0,
            };
            r.insert(token.to_owned(), n + 1);
            assert forall|d: Seq<char>| #[trigger] r@.contains_key(d) implies r@[d]
                == model_dtype_count(before, d) + dtype_count(tensors.take(j as int + 1), d) && r@[d]
                <= i * usize::MAX + (j + 1) by {
                if d != token@ {
                    assert(had.contains_key(d));
                }
            }
            assert forall|d: Seq<char>| #[trigger] r@.contains_key(d) <==> model_dtype_count(
                before,
                d,
            ) + dtype_count(tensors.take(j as int + 1), d) > 0 by {
                if d != token@ {
                    assert(had.contains_key(d) == r@.contains_key(d));
                }
            }
            j += 1;
        }
        proof {
            assert(tensors.take(tensors.len() as int) =~= tensors);
            let next = all.take(i as int + 1);
            assert(next.drop_last() =~= before);
            assert(next.last() == h@);
            assert(i * usize::MAX + usize::MAX == (i + 1) * usize::MAX) by (nonlinear_arith);
        }
        i += 1;
    }
    assert(all.take(all.len() as int) =~= all);
    r
}

/// The tensors that start off a block's edge are those of which the file's offset leaves a
/// remainder, and the tensors that are not whole blocks are those of which the size does.
pub proof fn unaligned_tensors_are_counted(h: HeaderSpec, s: Seq<TensorSpec>, block: u64)
    requires
        block > 0,
    ensures
        offsets_off_block(h, s, block) == s.filter(
            |t: TensorSpec| (h.data_start + t.start) % (block as int) != 0,
        ).len(),
        sizes_off_block(s, block) == s.filter(
            |t: TensorSpec| (t.end - t.start) % (block as int) != 0,
        ).len(),
    decreases s.len(),
{
    reveal(Seq::filter);
    if s.len() > 0 {
        unaligned_tensors_are_counted(h, s.drop_last(), block);
    }
}

/// Every file counts for what it has itself, wherever it stands.
pub proof fn every_file_adds_its_own(headers: Seq<HeaderSpec>, block: u64, i: int)
    requires
        0 <= i < headers.len(),
    ensures
        ({
            let all = totals(headers, block);
            let others = totals(headers.remove(i), block);
            let h = headers[i];
            &&& all.tensors == others.tensors + h.tensors.len()
            &&& all.file_bytes == others.file_bytes + h.file_size
            &&& all.header_bytes == others.header_bytes + h.header_len
            &&& all.tensor_bytes == others.tensor_bytes + header::total_bytes(h.tensors)
            &&& all.unaligned_offsets == others.unaligned_offsets + offsets_off_block(
                h,
                h.tensors,
                block,
            )
            &&& all.unaligned_sizes == others.unaligned_sizes + sizes_off_block(h.tensors, block)
        }),
    decreases headers.len(),
{
    if i == headers.len() - 1 {
        assert(headers.remove(i) =~= headers.drop_last());
    } else {
        every_file_adds_its_own(headers.drop_last(), block, i);
        assert(headers.remove(i).drop_last() =~= headers.drop_last().remove(i));
        assert(headers.remove(i).last() == headers.last());
    }
}

/// Every request counts for its own bytes, wherever it stands.
pub proof fn every_request_adds_its_bytes(plan: Seq<(usize, Range)>, i: int)
    requires
        0 <= i < plan.len(),
    ensures
        requested_bytes(plan) == requested_bytes(plan.remove(i)) + plan[i].1.len,
    decreases plan.len(),
{
    if i == plan.len() - 1 {
        assert(plan.remove(i) =~= plan.drop_last());
    } else {
        every_request_adds_its_bytes(plan.drop_last(), i);
        assert(plan.remove(i).drop_last() =~= plan.drop_last().remove(i));
        assert(plan.remove(i).last() == plan.last());
    }
}

/// Every planned span counts for its own bytes, wherever it stands.
pub proof fn every_span_adds_its_bytes(spans: Seq<(int, plan::Span)>, i: int)
    requires
        0 <= i < spans.len(),
    ensures
        span_bytes(spans) == span_bytes(spans.remove(i)) + spans[i].1.1 - spans[i].1.0,
    decreases spans.len(),
{
    if i == spans.len() - 1 {
        assert(spans.remove(i) =~= spans.drop_last());
    } else {
        every_span_adds_its_bytes(spans.drop_last(), i);
        assert(spans.remove(i).drop_last() =~= spans.drop_last().remove(i));
        assert(spans.remove(i).last() == spans.last());
    }
}

/// A dtype is counted once for each tensor of that dtype, in whichever file it is.
pub proof fn tensors_of_a_dtype_are_counted(headers: Seq<HeaderSpec>, d: header::Dtype, i: int)
    requires
        0 <= i < headers.len(),
    ensures
        model_dtype_count(headers, header::dtype_token(d)) == model_dtype_count(
            headers.remove(i),
            header::dtype_token(d),
        ) + headers[i].tensors.filter(|t: TensorSpec| t.dtype == d).len(),
        model_dtype_count(Seq::empty(), header::dtype_token(d)) == 0,
    decreases headers.len(),
{
    let token = header::dtype_token(d);
    tensors_with_a_token(headers[i].tensors, d);
    if i == headers.len() - 1 {
        assert(headers.remove(i) =~= headers.drop_last());
    } else {
        tensors_of_a_dtype_are_counted(headers.drop_last(), d, i);
        assert(headers.remove(i).drop_last() =~= headers.drop_last().remove(i));
        assert(headers.remove(i).last() == headers.last());
    }
}

proof fn tensors_with_a_token(s: Seq<TensorSpec>, d: header::Dtype)
    ensures
        dtype_count(s, header::dtype_token(d)) == s.filter(|t: TensorSpec| t.dtype == d).len(),
    decreases s.len(),
{
    reveal(Seq::filter);
    if s.len() > 0 {
        tensors_with_a_token(s.drop_last(), d);
        header::token_names_its_dtype(d);
        header::token_names_its_dtype(s.last().dtype);
    }
}

} // verus!
