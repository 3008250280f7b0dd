//! Checking that a plan for a file is safe and wastes nothing.
//!
//! The check trusts neither the header nor the planner. That it never complains
//! about a plan of this library is [`every_plan_passes`].
use crate::header::{HeaderSpec, ShardHeader, TensorInfo};
use crate::plan;
use crate::plan::Range;
use crate::text;
use vstd::arithmetic::div_mod::*;
use vstd::prelude::*;
use vstd::string::*;

verus! {

/// What is wrong with a plan. Tensors are given by their number.
pub enum PlanFault {
    ZeroLength { offset: u64 },
    OffsetOffBlock { offset: u64 },
    LenOffBlock { len: u64 },
    PastEnd { offset: u64, end: u64, limit: u64 },
    Overlap { first: Range, second: Range },
    TensorPastFile { tensor: usize },
    NoRange { tensor: usize },
    NotContained { tensor: usize, range: Range },
    Wasted { range: Range },
}

/// The end of a range, at most the largest offset.
pub open spec fn end_of(r: Range) -> int {
    plan::saturated(r.offset + r.len)
}

/// What is wrong with a range by itself.
pub open spec fn range_fault(r: Range, block: u64, limit: u64) -> Option<PlanFault> {
    if r.len == 0 {
        Some(PlanFault::ZeroLength { offset: r.offset })
    } else if r.offset % block != 0 {
        Some(PlanFault::OffsetOffBlock { offset: r.offset })
    } else if r.len % block != 0 {
        Some(PlanFault::LenOffBlock { len: r.len })
    } else if end_of(r) > limit {
        Some(PlanFault::PastEnd { offset: r.offset, end: end_of(r) as u64, limit })
    } else {
        None
    }
}

/// The first fault of the first `n` ranges by themselves.
pub open spec fn ranges_fault(p: Seq<Range>, n: nat, block: u64, limit: u64) -> Option<PlanFault>
    decreases n,
{
    if n == 0 {
        None
    } else {
        match ranges_fault(p, (n - 1) as nat, block, limit) {
            Some(f) => Some(f),
            None => range_fault(p[n - 1], block, limit),
        }
    }
}

/// The first of the first `n` ranges that reaches into the one after it.
pub open spec fn overlap_fault(p: Seq<Range>, n: nat) -> Option<PlanFault>
    decreases n,
{
    if n == 0 {
        None
    } else {
        match overlap_fault(p, (n - 1) as nat) {
            Some(f) => Some(f),
            None => if n < p.len() && end_of(p[n - 1]) > p[n as int].offset {
                Some(PlanFault::Overlap { first: p[n - 1], second: p[n as int] })
            } else {
                None
            },
        }
    }
}

/// The first range from the `k`-th on that ends after `s`.
pub open spec fn reaching(p: Seq<Range>, s: int, k: int) -> int
    decreases p.len() - k,
{
    if k >= p.len() || end_of(p[k]) > s {
        k
    } else {
        reaching(p, s, k + 1)
    }
}

/// What is wrong with how a plan covers a tensor.
pub open spec fn tensor_fault(h: HeaderSpec, i: int, p: Seq<Range>) -> Option<PlanFault> {
    let t = h.tensors[i];
    let s = h.data_start + t.start;
    let e = h.data_start + t.end;
    if t.start == t.end {
        None
    } else if e > h.file_size {
        Some(PlanFault::TensorPastFile { tensor: i as usize })
    } else {
        let k = reaching(p, s, 0);
        if k >= p.len() {
            Some(PlanFault::NoRange { tensor: i as usize })
        } else if p[k].offset > s || end_of(p[k]) < e {
            Some(PlanFault::NotContained { tensor: i as usize, range: p[k] })
        } else {
            None
        }
    }
}

/// The first fault in how a plan covers the first `n` tensors.
pub open spec fn tensors_fault(h: HeaderSpec, n: nat, p: Seq<Range>) -> Option<PlanFault>
    decreases n,
{
    if n == 0 {
        None
    } else {
        match tensors_fault(h, (n - 1) as nat, p) {
            Some(f) => Some(f),
            None => tensor_fault(h, n - 1, p),
        }
    }
}

/// Whether a tensor has bytes whose blocks end after `offset`.
pub open spec fn lies_after(h: HeaderSpec, i: int, block: u64, offset: int) -> bool {
    let t = h.tensors[i];
    t.start != t.end && plan::saturated(plan::round_up(h.data_start + t.end, block as int))
        > offset
}

/// The first tensor from the `i`-th on that lies after `offset`.
pub open spec fn first_after(h: HeaderSpec, block: u64, offset: int, i: int) -> int
    decreases h.tensors.len() - i,
{
    if i >= h.tensors.len() || lies_after(h, i, block, offset) {
        i
    } else {
        first_after(h, block, offset, i + 1)
    }
}

/// What is wrong with a range that holds no byte of a tensor.
pub open spec fn waste_fault(h: HeaderSpec, block: u64, r: Range) -> Option<PlanFault> {
    let i = first_after(h, block, r.offset as int, 0);
    if i < h.tensors.len() && plan::round_down(h.data_start + h.tensors[i].start, block as int)
        < end_of(r) {
        None
    } else {
        Some(PlanFault::Wasted { range: r })
    }
}

/// The first of the first `n` ranges that holds no byte of a tensor.
pub open spec fn wastes_fault(h: HeaderSpec, block: u64, p: Seq<Range>, n: nat) -> Option<
    PlanFault,
>
    decreases n,
{
    if n == 0 {
        None
    } else {
        match wastes_fault(h, block, p, (n - 1) as nat) {
            Some(f) => Some(f),
            None => waste_fault(h, block, p[n - 1]),
        }
    }
}

/// What is wrong with a plan, if anything: ranges by themselves first, then
/// overlaps, then tensors that are not covered, then ranges read in vain.
pub open spec fn plan_fault(h: HeaderSpec, block: u64, p: Seq<Range>) -> Option<PlanFault> {
    let limit = plan::saturated(plan::round_up(h.file_size as int, block as int)) as u64;
    match ranges_fault(p, p.len(), block, limit) {
        Some(f) => Some(f),
        None => match overlap_fault(p, p.len()) {
            Some(f) => Some(f),
            None => match tensors_fault(h, h.tensors.len(), p) {
                Some(f) => Some(f),
                None => wastes_fault(h, block, p, p.len()),
            },
        },
    }
}

proof fn ranges_fault_stays(p: Seq<Range>, k: nat, n: nat, block: u64, limit: u64)
    requires
        k <= n,
        ranges_fault(p, k, block, limit) is Some,
    ensures
        ranges_fault(p, n, block, limit) == ranges_fault(p, k, block, limit),
    decreases n,
{
    if k < n {
        ranges_fault_stays(p, k, (n - 1) as nat, block, limit);
    }
}

proof fn overlap_fault_stays(p: Seq<Range>, k: nat, n: nat)
    requires
        k <= n,
        overlap_fault(p, k) is Some,
    ensures
        overlap_fault(p, n) == overlap_fault(p, k),
    decreases n,
{
    if k < n {
        overlap_fault_stays(p, k, (n - 1) as nat);
    }
}

proof fn tensors_fault_stays(h: HeaderSpec, k: nat, n: nat, p: Seq<Range>)
    requires
        k <= n,
        tensors_fault(h, k, p) is Some,
    ensures
        tensors_fault(h, n, p) == tensors_fault(h, k, p),
    decreases n,
{
    if k < n {
        tensors_fault_stays(h, k, (n - 1) as nat, p);
    }
}

proof fn wastes_fault_stays(h: HeaderSpec, block: u64, p: Seq<Range>, k: nat, n: nat)
    requires
        k <= n,
        wastes_fault(h, block, p, k) is Some,
    ensures
        wastes_fault(h, block, p, n) == wastes_fault(h, block, p, k),
    decreases n,
{
    if k < n {
        wastes_fault_stays(h, block, p, k, (n - 1) as nat);
    }
}

proof fn ranges_without_fault(p: Seq<Range>, n: nat, block: u64, limit: u64, i: int)
    requires
        ranges_fault(p, n, block, limit) is None,
        0 <= i < n,
    ensures
        range_fault(p[i], block, limit) is None,
    decreases n,
{
    if i < n - 1 {
        ranges_without_fault(p, (n - 1) as nat, block, limit, i);
    }
}

proof fn overlaps_without_fault(p: Seq<Range>, n: nat, i: int)
    requires
        overlap_fault(p, n) is None,
        0 <= i < n,
        i + 1 < p.len(),
    ensures
        end_of(p[i]) <= p[i + 1].offset,
    decreases n,
{
    if i < n - 1 {
        overlaps_without_fault(p, (n - 1) as nat, i);
    }
}

proof fn reaching_skips(p: Seq<Range>, s: int, k: int, m: int)
    requires
        0 <= k <= m <= p.len(),
        forall|j: int| k <= j < m ==> end_of(#[trigger] p[j]) <= s,
    ensures
        reaching(p, s, k) == reaching(p, s, m),
    decreases m - k,
{
    if k < m {
        assert(end_of(p[k]) <= s);
        reaching_skips(p, s, k + 1, m);
    }
}

proof fn first_after_skips(h: HeaderSpec, block: u64, offset: int, i: int, m: int)
    requires
        0 <= i <= m <= h.tensors.len(),
        forall|j: int| i <= j < m ==> !#[trigger] lies_after(h, j, block, offset),
    ensures
        first_after(h, block, offset, i) == first_after(h, block, offset, m),
    decreases m - i,
{
    if i < m {
        assert(!lies_after(h, i, block, offset));
        first_after_skips(h, block, offset, i + 1, m);
    }
}

fn check_each_range(p: &[Range], block: u64, limit: u64) -> (r: Option<PlanFault>)
    requires
        block > 0,
    ensures
        r == ranges_fault(p@, p@.len(), block, limit),
{
    let mut i: usize = 0;
    while i < p.len()
        invariant
            i <= p.len(),
            block > 0,
            ranges_fault(p@, i as nat, block, limit) is None,
        decreases p.len() - i,
    {
        let r: Range = p[i];
        let fault: Option<PlanFault> = if r.len == 0 {
            Some(PlanFault::ZeroLength { offset: r.offset })
        } else if r.offset % block != 0 {
            Some(PlanFault::OffsetOffBlock { offset: r.offset })
        } else if r.len % block != 0 {
            Some(PlanFault::LenOffBlock { len: r.len })
        } else if r.end() > limit {
            Some(PlanFault::PastEnd { offset: r.offset, end: r.end(), limit })
        } else {
            None
        };
        assert(fault == range_fault(p@[i as int], block, limit));
        if fault.is_some() {
            proof {
                ranges_fault_stays(p@, (i + 1) as nat, p@.len(), block, limit);
            }
            return fault;
        }
        i += 1;
    }
    None
}

fn check_overlaps(p: &[Range]) -> (r: Option<PlanFault>)
    ensures
        r == overlap_fault(p@, p@.len()),
{
    let mut i: usize = 0;
    while i < p.len()
        invariant
            i <= p.len(),
            overlap_fault(p@, i as nat) is None,
        decreases p.len() - i,
    {
        if i < p.len() - 1 && p[i].end() > p[i + 1].offset {
            proof {
                overlap_fault_stays(p@, (i + 1) as nat, p@.len());
            }
            return Some(PlanFault::Overlap { first: p[i], second: p[i + 1] });
        }
        i += 1;
    }
    None
}

fn check_tensors(h: &ShardHeader, p: &[Range]) -> (r: Option<PlanFault>)
    requires
        h.wf(),
    ensures
        r == tensors_fault(h@, h@.tensors.len(), p@),
{
    let mut k: usize = 0;
    let mut i: usize = 0;
    let ghost mut last: int = 0;
    while i < h.tensors.len()
        invariant
            i <= h.tensors.len(),
            h.wf(),
            k <= p.len(),
            tensors_fault(h@, i as nat, p@) is None,
            forall|j: int| 0 <= j < k ==> end_of(#[trigger] p@[j]) <= last,
            forall|j: int|
                i <= j < h@.tensors.len() ==> last <= h@.data_start + (
                #[trigger] h@.tensors[j]).start,
        decreases h.tensors.len() - i,
    {
        let t: &TensorInfo = &h.tensors[i];
        proof {
            assert(h@.tensors[i as int] == t@);
            assert(h@.tensors[i as int].fits((h.file_size - h.data_start) as u64));
        }
        if t.nbytes() != 0 {
            let (s, e) = t.abs_range(h.data_start);
            if e > h.file_size {
                proof {
                    tensors_fault_stays(h@, (i + 1) as nat, h@.tensors.len(), p@);
                }
                return Some(PlanFault::TensorPastFile { tensor: i });
            }
            while k < p.len() && p[k].end() <= s
                invariant
                    k <= p.len(),
                    forall|j: int| 0 <= j < k ==> end_of(#[trigger] p@[j]) <= s,
                decreases p.len() - k,
            {
                k += 1;
            }
            proof {
                reaching_skips(p@, s as int, 0, k as int);
                assert(reaching(p@, s as int, 0) == k);
                last = s as int;
                assert forall|j: int| i + 1 <= j < h@.tensors.len() implies last <= h@.data_start + (
                #[trigger] h@.tensors[j]).start by {
                    assert(crate::header::span_le(h@.tensors[i as int], h@.tensors[j]));
                }
            }
            if k >= p.len() {
                proof {
                    tensors_fault_stays(h@, (i + 1) as nat, h@.tensors.len(), p@);
                }
                return Some(PlanFault::NoRange { tensor: i });
            }
            if p[k].offset > s || p[k].end() < e {
                proof {
                    tensors_fault_stays(h@, (i + 1) as nat, h@.tensors.len(), p@);
                }
                return Some(PlanFault::NotContained { tensor: i, range: p[k] });
            }
        }
        i += 1;
    }
    None
}

fn check_waste(h: &ShardHeader, block: u64, p: &[Range]) -> (r: Option<PlanFault>)
    requires
        h.wf(),
        block > 0,
        forall|i: int, j: int| 0 <= i < j < p@.len() ==> (#[trigger] p@[i]).offset <= (
        #[trigger] p@[j]).offset,
    ensures
        r == wastes_fault(h@, block, p@, p@.len()),
{
    let mut ti: usize = 0;
    let mut k: usize = 0;
    let ghost mut last: int = 0;
    while k < p.len()
        invariant
            k <= p.len(),
            h.wf(),
            block > 0,
            ti <= h.tensors.len(),
            wastes_fault(h@, block, p@, k as nat) is None,
            forall|j: int| 0 <= j < ti ==> !#[trigger] lies_after(h@, j, block, last),
            forall|j: int| k <= j < p@.len() ==> last <= (#[trigger] p@[j]).offset,
            forall|i: int, j: int|
                0 <= i < j < p@.len() ==> (#[trigger] p@[i]).offset <= (#[trigger] p@[j]).offset,
        decreases p.len() - k,
    {
        let r: Range = p[k];
        let mut found: bool = false;
        let mut covers: bool = false;
        while ti < h.tensors.len() && !found
            invariant
                ti <= h.tensors.len(),
                h.wf(),
                block > 0,
                last <= r.offset,
                forall|j: int| 0 <= j < ti ==> !#[trigger] lies_after(h@, j, block, r.offset as int)
                    || !lies_after(h@, j, block, last),
                found ==> ti < h.tensors.len() && lies_after(
                    h@,
                    ti as int,
                    block,
                    r.offset as int,
                ) && covers == (plan::round_down(
                    h@.data_start + h@.tensors[ti as int].start,
                    block as int,
                ) < end_of(r)),
                !found ==> !covers,
            decreases
                    h.tensors.len() - ti + (if found {
                        0int
                    } else {
                        1
                    }),
        {
            let t: &TensorInfo = &h.tensors[ti];
            proof {
                assert(h@.tensors[ti as int] == t@);
                assert(h@.tensors[ti as int].fits((h.file_size - h.data_start) as u64));
            }
            if t.nbytes() == 0 {
                ti += 1;
            } else {
                let (s, e) = t.abs_range(h.data_start);
                let ts: u64 = plan::floor_to(s, block);
                let te: u64 = plan::ceil_to(e, block);
                if te <= r.offset {
                    ti += 1;
                } else {
                    covers = ts < r.end();
                    found = true;
                }
            }
        }
        proof {
            assert forall|j: int| 0 <= j < ti implies !#[trigger] lies_after(
                h@,
                j,
                block,
                r.offset as int,
            ) by {
                if lies_after(h@, j, block, r.offset as int) {
                    assert(lies_after(h@, j, block, last));
                }
            }
            first_after_skips(h@, block, r.offset as int, 0, ti as int);
            assert(first_after(h@, block, r.offset as int, 0) == ti);
            last = r.offset as int;
            assert forall|j: int| k + 1 <= j < p@.len() implies last <= (
            #[trigger] p@[j]).offset by {
                assert(p@[k as int].offset <= p@[j].offset);
            }
        }
        if !covers {
            proof {
                wastes_fault_stays(h@, block, p@, (k + 1) as nat, p@.len());
            }
            return Some(PlanFault::Wasted { range: r });
        }
        k += 1;
    }
    None
}

/// Checks any plan for a file. Nothing is reported when every range is non-empty,
/// aligned and inside the rounded file, none reaches into the next, every tensor
/// that has bytes lies in one range, and every range holds a byte of a tensor.
pub fn check_ranges(h: &ShardHeader, block: u64, p: &[Range]) -> (r: Option<PlanFault>)
    requires
        h.wf(),
        block > 0,
    ensures
        r == plan_fault(h@, block, p@),
{
    let limit: u64 = plan::ceil_to(h.file_size, block);
    let fault: Option<PlanFault> = check_each_range(p, block, limit);
    if fault.is_some() {
        return fault;
    }
    let fault: Option<PlanFault> = check_overlaps(p);
    if fault.is_some() {
        return fault;
    }
    proof {
        offsets_ascend(p@, block, limit);
    }
    let fault: Option<PlanFault> = check_tensors(h, p);
    if fault.is_some() {
        return fault;
    }
    check_waste(h, block, p)
}

proof fn offsets_ascend(p: Seq<Range>, block: u64, limit: u64)
    requires
        ranges_fault(p, p.len(), block, limit) is None,
        overlap_fault(p, p.len()) is None,
    ensures
        forall|i: int, j: int| 0 <= i < j < p.len() ==> (#[trigger] p[i]).offset <= (
        #[trigger] p[j]).offset,
{
    assert forall|i: int, j: int| 0 <= i < j < p.len() implies (#[trigger] p[i]).offset <= (
    #[trigger] p[j]).offset by {
        offset_step(p, i, j);
    }
}

proof fn offset_step(p: Seq<Range>, i: int, j: int)
    requires
        overlap_fault(p, p.len()) is None,
        0 <= i < j < p.len(),
    ensures
        p[i].offset <= p[j].offset,
    decreases j - i,
{
    overlaps_without_fault(p, p.len(), i);
    if i + 1 < j {
        offset_step(p, i + 1, j);
    }
}

/// A range or a tensor's bytes as text.
pub open spec fn span_text(start: int, end: int) -> Seq<char> {
    "["@ + text::decimal(start as nat) + ","@ + text::decimal(end as nat) + ")"@
}

/// A fault in words.
pub open spec fn fault_text(h: HeaderSpec, f: PlanFault) -> Seq<char> {
    match f {
        PlanFault::ZeroLength { offset } => "zero-length range at "@ + text::decimal(
            offset as nat,
        ),
        PlanFault::OffsetOffBlock { offset } => "range offset "@ + text::decimal(offset as nat)
            + " not block-aligned"@,
        PlanFault::LenOffBlock { len } => "range len "@ + text::decimal(len as nat)
            + " not block-aligned"@,
        PlanFault::PastEnd { offset, end, limit } => "range ["@ + text::decimal(offset as nat)
            + ", "@ + text::decimal(end as nat) + ") extends past ceil(file_size)="@
            + text::decimal(limit as nat),
        PlanFault::Overlap { first, second } => "ranges overlap: "@ + span_text(
            first.offset as int,
            end_of(first),
        ) + " then "@ + span_text(second.offset as int, end_of(second)),
        PlanFault::TensorPastFile { tensor } => {
            let t = h.tensors[tensor as int];
            "tensor "@ + t.name + " ends at "@ + text::decimal((h.data_start + t.end) as nat)
                + " past file_size "@ + text::decimal(h.file_size as nat)
        },
        PlanFault::NoRange { tensor } => {
            let t = h.tensors[tensor as int];
            "tensor "@ + t.name + " "@ + span_text(h.data_start + t.start, h.data_start + t.end)
                + " has no covering range"@
        },
        PlanFault::NotContained { tensor, range } => {
            let t = h.tensors[tensor as int];
            "tensor "@ + t.name + " "@ + span_text(h.data_start + t.start, h.data_start + t.end)
                + " not contained in range "@ + span_text(range.offset as int, end_of(range))
        },
        PlanFault::Wasted { range } => "range ["@ + text::decimal(range.offset as nat) + ", "@
            + text::decimal(end_of(range) as nat) + ") covers no tensor bytes (wasted read)"@,
    }
}

fn span_string(start: u64, end: u64) -> (r: String)
    ensures
        r@ == span_text(start as int, end as int),
{
    let mut m: String = "[".to_owned();
    text::push_decimal(&mut m, start);
    m.append(",");
    text::push_decimal(&mut m, end);
    m.append(")");
    m
}

/// The tensor that a fault speaks of is one of the header's.
pub open spec fn fault_is_of(h: HeaderSpec, f: PlanFault) -> bool {
    match f {
        PlanFault::TensorPastFile { tensor } => tensor < h.tensors.len(),
        PlanFault::NoRange { tensor } => tensor < h.tensors.len(),
        PlanFault::NotContained { tensor, range } => tensor < h.tensors.len(),
        _ => true,
    }
}

/// A fault in words.
pub fn describe_fault(h: &ShardHeader, f: &PlanFault) -> (r: String)
    requires
        h.wf(),
        fault_is_of(h@, *f),
    ensures
        r@ == fault_text(h@, *f),
{
    match f {
        PlanFault::ZeroLength { offset } => {
            let mut m: String = "zero-length range at ".to_owned();
            text::push_decimal(&mut m, *offset);
            m
        },
        PlanFault::OffsetOffBlock { offset } => {
            let mut m: String = "range offset ".to_owned();
            text::push_decimal(&mut m, *offset);
            m.append(" not block-aligned");
            m
        },
        PlanFault::LenOffBlock { len } => {
            let mut m: String = "range len ".to_owned();
            text::push_decimal(&mut m, *len);
            m.append(" not block-aligned");
            m
        },
        PlanFault::PastEnd { offset, end, limit } => {
            let mut m: String = "range [".to_owned();
            text::push_decimal(&mut m, *offset);
            m.append(", ");
            text::push_decimal(&mut m, *end);
            m.append(") extends past ceil(file_size)=");
            text::push_decimal(&mut m, *limit);
            m
        },
        PlanFault::Overlap { first, second } => {
            let mut m: String = "ranges overlap: ".to_owned();
            let a: String = span_string(first.offset, first.end());
            m.append(a.as_str());
            m.append(" then ");
            let b: String = span_string(second.offset, second.end());
            m.append(b.as_str());
            m
        },
        PlanFault::TensorPastFile { tensor } => {
            let t: &TensorInfo = &h.tensors[*tensor];
            proof {
                assert(h@.tensors[*tensor as int] == t@);
                assert(t@.fits((h.file_size - h.data_start) as u64));
            }
            let (_, e) = t.abs_range(h.data_start);
            let mut m: String = "tensor ".to_owned();
            m.append(t.name.as_str());
            m.append(" ends at ");
            text::push_decimal(&mut m, e);
            m.append(" past file_size ");
            text::push_decimal(&mut m, h.file_size);
            m
        },
        PlanFault::NoRange { tensor } => {
            let t: &TensorInfo = &h.tensors[*tensor];
            proof {
                assert(h@.tensors[*tensor as int] == t@);
                assert(t@.fits((h.file_size - h.data_start) as u64));
            }
            let (s, e) = t.abs_range(h.data_start);
            let mut m: String = "tensor ".to_owned();
            m.append(t.name.as_str());
            m.append(" ");
            let a: String = span_string(s, e);
            m.append(a.as_str());
            m.append(" has no covering range");
            m
        },
        PlanFault::NotContained { tensor, range } => {
            let t: &TensorInfo = &h.tensors[*tensor];
            proof {
                assert(h@.tensors[*tensor as int] == t@);
                assert(t@.fits((h.file_size - h.data_start) as u64));
            }
            let (s, e) = t.abs_range(h.data_start);
            let mut m: String = "tensor ".to_owned();
            m.append(t.name.as_str());
            m.append(" ");
            let a: String = span_string(s, e);
            m.append(a.as_str());
            m.append(" not contained in range ");
            let b: String = span_string(range.offset, range.end());
            m.append(b.as_str());
            m
        },
        PlanFault::Wasted { range } => {
            let mut m: String = "range [".to_owned();
            text::push_decimal(&mut m, range.offset);
            m.append(", ");
            text::push_decimal(&mut m, range.end());
            m.append(") covers no tensor bytes (wasted read)");
            m
        },
    }
}

proof fn tensor_faults_are_of(h: HeaderSpec, n: nat, p: Seq<Range>)
    requires
        n <= h.tensors.len(),
        h.tensors.len() <= usize::MAX,
        tensors_fault(h, n, p) is Some,
    ensures
        fault_is_of(h, tensors_fault(h, n, p)->Some_0),
    decreases n,
{
    if n > 0 {
        if tensors_fault(h, (n - 1) as nat, p) is Some {
            tensor_faults_are_of(h, (n - 1) as nat, p);
        }
    }
}

proof fn range_faults_are_of(h: HeaderSpec, p: Seq<Range>, n: nat, block: u64, limit: u64)
    ensures
        ranges_fault(p, n, block, limit) matches Some(f) ==> fault_is_of(h, f),
        overlap_fault(p, n) matches Some(f) ==> fault_is_of(h, f),
        wastes_fault(h, block, p, n) matches Some(f) ==> fault_is_of(h, f),
    decreases n,
{
    if n > 0 {
        range_faults_are_of(h, p, (n - 1) as nat, block, limit);
    }
}

/// The plan of a file without gaps, as ranges.
pub open spec fn planned_ranges(h: HeaderSpec, block: u64) -> Seq<Range> {
    let spans = plan::planned(h, block, 0);
    Seq::new(
        spans.len(),
        |i: int| Range { offset: spans[i].0 as u64, len: (spans[i].1 - spans[i].0) as u64 },
    )
}

/// The ranges of a plan without gaps are determined by their ends.
pub proof fn ranges_are_planned(h: HeaderSpec, block: u64, p: Seq<Range>)
    requires
        plan::range_spans(p) == plan::planned(h, block, 0),
    ensures
        p == planned_ranges(h, block),
{
    assert(plan::range_spans(p).len() == p.len());
    assert forall|i: int| 0 <= i < p.len() implies p[i] == planned_ranges(h, block)[i] by {
        assert(plan::range_spans(p)[i] == plan::range_span(p[i]));
    }
    assert(p =~= planned_ranges(h, block));
}

/// Plans a file without gaps and checks the plan: what is wrong with it, in words.
/// Nothing is, where the end of the file rounds up to a block in 64 bits.
pub fn check_plan(h: &ShardHeader, block: u64) -> (r: Option<String>)
    requires
        h.wf(),
        block > 0,
    ensures
        plan::end_rounds(h@, block) ==> r is None,
        match plan_fault(h@, block, planned_ranges(h@, block)) {
            None => r is None,
            Some(f) => r is Some && r->Some_0@ == fault_text(h@, f),
        },
{
    let p: Vec<Range> = plan::plan_shard(h, block, 0);
    let fault: Option<PlanFault> = check_ranges(h, block, p.as_slice());
    proof {
        ranges_are_planned(h@, block, p@);
        if plan::end_rounds(h@, block) {
            every_plan_passes(h@, block, p@);
        }
    }
    match fault {
        None => None,
        Some(f) => {
            proof {
                let limit = plan::saturated(
                    plan::round_up(h@.file_size as int, block as int),
                ) as u64;
                range_faults_are_of(h@, p@, p@.len(), block, limit);
                assert(h@.tensors.len() == h.tensors@.len());
                assert(h.tensors@.len() == h.tensors.len());
                if tensors_fault(h@, h@.tensors.len(), p@) is Some {
                    tensor_faults_are_of(h@, h@.tensors.len(), p@);
                }
            }
            Some(describe_fault(h, &f))
        },
    }
}

proof fn no_range_fault(p: Seq<Range>, n: nat, block: u64, limit: u64)
    requires
        n <= p.len(),
        forall|i: int| 0 <= i < p.len() ==> range_fault(#[trigger] p[i], block, limit) is None,
    ensures
        ranges_fault(p, n, block, limit) is None,
    decreases n,
{
    if n > 0 {
        no_range_fault(p, (n - 1) as nat, block, limit);
    }
}

proof fn no_overlap_fault(p: Seq<Range>, n: nat)
    requires
        n <= p.len(),
        forall|i: int, j: int|
            0 <= i < j < p.len() ==> end_of(#[trigger] p[i]) <= (#[trigger] p[j]).offset,
    ensures
        overlap_fault(p, n) is None,
    decreases n,
{
    if n > 0 {
        no_overlap_fault(p, (n - 1) as nat);
        if n < p.len() {
            assert(end_of(p[n - 1]) <= p[n as int].offset);
        }
    }
}

proof fn no_tensor_fault(h: HeaderSpec, n: nat, p: Seq<Range>)
    requires
        n <= h.tensors.len(),
        forall|i: int| 0 <= i < h.tensors.len() ==> #[trigger] tensor_fault(h, i, p) is None,
    ensures
        tensors_fault(h, n, p) is None,
    decreases n,
{
    if n > 0 {
        no_tensor_fault(h, (n - 1) as nat, p);
    }
}

proof fn no_waste_fault(h: HeaderSpec, block: u64, p: Seq<Range>, n: nat)
    requires
        n <= p.len(),
        forall|i: int| 0 <= i < p.len() ==> waste_fault(h, block, #[trigger] p[i]) is None,
    ensures
        wastes_fault(h, block, p, n) is None,
    decreases n,
{
    if n > 0 {
        no_waste_fault(h, block, p, (n - 1) as nat);
    }
}

proof fn reaching_finds(p: Seq<Range>, s: int, k: int, m: int)
    requires
        0 <= k <= m < p.len(),
        end_of(p[m]) > s,
        forall|j: int| k <= j < m ==> end_of(#[trigger] p[j]) <= s,
    ensures
        reaching(p, s, k) == m,
{
    reaching_skips(p, s, k, m);
}

proof fn first_after_is_at_most(h: HeaderSpec, block: u64, offset: int, i: int, m: int)
    requires
        0 <= i <= m < h.tensors.len(),
        lies_after(h, m, block, offset),
    ensures
        i <= first_after(h, block, offset, i) <= m,
    decreases m - i,
{
    if i < m && !lies_after(h, i, block, offset) {
        first_after_is_at_most(h, block, offset, i + 1, m);
    }
}

/// The check finds nothing wrong with a plan of this library, for any accepted
/// header of a file whose end rounds up to a block in 64 bits.
pub proof fn every_plan_passes(h: HeaderSpec, block: u64, p: Seq<Range>)
    requires
        h.wf(),
        block > 0,
        plan::end_rounds(h, block),
        plan::range_spans(p) == plan::planned(h, block, 0),
        plan::ends_fit(p),
    ensures
        plan_fault(h, block, p) is None,
{
    let b = block as int;
    let spans = plan::planned(h, block, 0);
    let limit = plan::saturated(plan::round_up(h.file_size as int, b)) as u64;
    plan::every_plan_is_sound(h, block, 0);
    assert(spans.len() == p.len());
    assert forall|i: int| 0 <= i < p.len() implies spans[i].0 == (#[trigger] p[i]).offset
        && spans[i].1 == end_of(p[i]) && p[i].offset + p[i].len == end_of(p[i]) by {
        assert(plan::range_spans(p)[i] == plan::range_span(p[i]));
    }
    assert forall|i: int| 0 <= i < p.len() implies range_fault(
        #[trigger] p[i],
        block,
        limit,
    ) is None by {
        assert(plan::range_is_sound(h, block, spans[i]));
        lemma_sub_mod_noop(spans[i].1, spans[i].0, b);
        lemma_small_mod(0, b as nat);
    }
    no_range_fault(p, p.len(), block, limit);
    assert forall|i: int, j: int| 0 <= i < j < p.len() implies end_of(#[trigger] p[i]) <= (
    #[trigger] p[j]).offset by {
        assert(spans[i].1 + 0 < spans[j].0);
    }
    no_overlap_fault(p, p.len());
    assert forall|i: int| 0 <= i < h.tensors.len() implies #[trigger] tensor_fault(
        h,
        i,
        p,
    ) is None by {
        let t = h.tensors[i];
        assert(t.fits((h.file_size - h.data_start) as u64));
        if t.start != t.end {
            let s = h.data_start + t.start;
            let e = h.data_start + t.end;
            assert(plan::held(plan::tensor_bytes_span(h, h.tensors[i]), spans));
            let k = choose|k: int|
                0 <= k < spans.len() && plan::within(
                    plan::tensor_bytes_span(h, h.tensors[i]),
                    #[trigger] spans[k],
                );
            assert forall|j: int| 0 <= j < k implies end_of(#[trigger] p[j]) <= s by {
                assert(spans[j].1 + 0 < spans[k].0);
            }
            assert(spans[k].1 == end_of(p[k]));
            reaching_finds(p, s, 0, k);
        }
    }
    no_tensor_fault(h, h.tensors.len(), p);
    assert forall|k: int| 0 <= k < p.len() implies waste_fault(
        h,
        block,
        #[trigger] p[k],
    ) is None by {
        assert(plan::serves_a_tensor(h, block, spans[k]));
        let t = choose|t: int|
            0 <= t < h.tensors.len() && h.tensors[t].start < h.tensors[t].end && plan::round_down(
                h.data_start + (#[trigger] h.tensors[t]).start,
                b,
            ) == spans[k].0 && plan::round_up(h.data_start + h.tensors[t].end, b) <= spans[k].1;
        let offset = p[k].offset as int;
        assert(h.tensors[t].fits((h.file_size - h.data_start) as u64));
        plan::round_up_is_ceiling(h.data_start + h.tensors[t].end, b);
        plan::round_down_is_floor(h.data_start + h.tensors[t].start, b);
        assert(lies_after(h, t, block, offset));
        first_after_is_at_most(h, block, offset, 0, t);
        let i = first_after(h, block, offset, 0);
        assert(crate::header::span_le(h.tensors[i], h.tensors[t]));
        plan::rounding_is_monotone(
            h.data_start + h.tensors[i].start,
            h.data_start + h.tensors[t].start,
            b,
        );
        assert(plan::range_is_sound(h, block, spans[k]));
    }
    no_waste_fault(h, block, p, p.len());
}

/// The check finds nothing wrong with the plan of a file, as in [`every_plan_passes`].
pub proof fn planned_ranges_pass(h: HeaderSpec, block: u64)
    requires
        h.wf(),
        block > 0,
        plan::end_rounds(h, block),
    ensures
        plan_fault(h, block, planned_ranges(h, block)) is None,
{
    let p = planned_ranges(h, block);
    let spans = plan::planned(h, block, 0);
    plan::every_plan_is_sound(h, block, 0);
    assert forall|i: int| 0 <= i < p.len() implies plan::range_span(#[trigger] p[i]) == spans[i]
        && p[i].offset + p[i].len <= u64::MAX by {
        assert(plan::range_is_sound(h, block, spans[i]));
    }
    assert(plan::range_spans(p) =~= spans);
    every_plan_passes(h, block, p);
}

/// Some bytes of the tensor are in the range.
pub open spec fn shares_bytes(h: HeaderSpec, t: int, r: Range) -> bool {
    let s = h.data_start + h.tensors[t].start;
    let e = h.data_start + h.tensors[t].end;
    s < e && s < r.offset + r.len && r.offset < e
}

/// All bytes of the tensor are in the range.
pub open spec fn holds_tensor(h: HeaderSpec, t: int, r: Range) -> bool {
    r.offset <= h.data_start + h.tensors[t].start && h.data_start + h.tensors[t].end <= r.offset
        + r.len
}

/// Every range has bytes, starts and ends on a block, and ends less than a block after the
/// file; each ends before the next starts; every tensor that has bytes is in a range, and
/// every range has bytes of a tensor.
pub open spec fn is_safe_and_tight(h: HeaderSpec, block: u64, p: Seq<Range>) -> bool {
    &&& forall|i: int|
        0 <= i < p.len() ==> {
            &&& (#[trigger] p[i]).len > 0
            &&& p[i].offset % block == 0
            &&& p[i].len % block == 0
            &&& p[i].offset + p[i].len < h.file_size + block
        }
    &&& forall|i: int, j: int|
        0 <= i < j < p.len() ==> (#[trigger] p[i]).offset + p[i].len <= (#[trigger] p[j]).offset
    &&& forall|t: int|
        0 <= t < h.tensors.len() && (#[trigger] h.tensors[t]).start < h.tensors[t].end
            ==> is_held(h, t, p)
    &&& forall|i: int| 0 <= i < p.len() ==> is_used(h, #[trigger] p[i])
}

/// Some range has all bytes of the tensor.
pub open spec fn is_held(h: HeaderSpec, t: int, p: Seq<Range>) -> bool {
    exists|i: int| 0 <= i < p.len() && holds_tensor(h, t, #[trigger] p[i])
}

/// The range has bytes of some tensor.
pub open spec fn is_used(h: HeaderSpec, r: Range) -> bool {
    exists|t: int| 0 <= t < h.tensors.len() && #[trigger] shares_bytes(h, t, r)
}

proof fn range_ends_with_the_file(size: int, block: int, offset: int, len: int)
    requires
        size >= 0,
        block > 0,
        offset >= 0,
        len >= 0,
        offset % block == 0,
        len % block == 0,
    ensures
        offset + len <= plan::round_up(size, block) <==> offset + len < size + block,
        (offset + len) % block == 0,
{
    let end = offset + len;
    let up = plan::round_up(size, block);
    plan::round_up_is_ceiling(size, block);
    lemma_mod_adds(offset, len, block);
    if end > up {
        // Two multiples are at least a block apart.
        lemma_sub_mod_noop(end, up, block);
        lemma_small_mod(0, block as nat);
        if end - up < block {
            lemma_small_mod((end - up) as nat, block as nat);
        }
    }
}

proof fn reaching_is_first(p: Seq<Range>, s: int, k: int)
    requires
        0 <= k <= p.len(),
    ensures
        k <= reaching(p, s, k) <= p.len(),
        reaching(p, s, k) < p.len() ==> end_of(p[reaching(p, s, k)]) > s,
        forall|j: int| k <= j < reaching(p, s, k) ==> end_of(#[trigger] p[j]) <= s,
    decreases p.len() - k,
{
    if k < p.len() && end_of(p[k]) <= s {
        reaching_is_first(p, s, k + 1);
    }
}

proof fn first_after_is_first(h: HeaderSpec, block: u64, offset: int, i: int)
    requires
        0 <= i <= h.tensors.len(),
    ensures
        i <= first_after(h, block, offset, i) <= h.tensors.len(),
        first_after(h, block, offset, i) < h.tensors.len() ==> lies_after(
            h,
            first_after(h, block, offset, i),
            block,
            offset,
        ),
    decreases h.tensors.len() - i,
{
    if i < h.tensors.len() && !lies_after(h, i, block, offset) {
        first_after_is_first(h, block, offset, i + 1);
    }
}

/// For aligned ranges, blocks of a tensor and of a range meet exactly if their bytes do.
proof fn blocks_meet_where_bytes_do(h: HeaderSpec, block: u64, r: Range, t: int)
    requires
        h.wf(),
        block > 0,
        plan::end_rounds(h, block),
        r.offset + r.len <= u64::MAX,
        r.offset % block == 0,
        r.len % block == 0,
        0 <= t < h.tensors.len(),
    ensures
        shares_bytes(h, t, r) <==> lies_after(h, t, block, r.offset as int) && plan::round_down(
            h.data_start + h.tensors[t].start,
            block as int,
        ) < end_of(r),
{
    let b = block as int;
    let s = h.data_start + h.tensors[t].start;
    let e = h.data_start + h.tensors[t].end;
    assert(h.tensors[t].fits((h.file_size - h.data_start) as u64));
    plan::round_up_is_ceiling(e, b);
    plan::round_down_is_floor(s, b);
    plan::rounding_is_monotone(e, h.file_size as int, b);
    range_ends_with_the_file(0, b, r.offset as int, r.len as int);
    let end = r.offset + r.len;
    plan::multiples_are_fixed(r.offset as int, b);
    plan::multiples_are_fixed(end, b);
    if e <= r.offset {
        plan::rounding_is_monotone(e, r.offset as int, b);
    }
    if s >= end {
        plan::rounding_is_monotone(end, s, b);
    }
}

proof fn waste_is_found(h: HeaderSpec, block: u64, r: Range)
    requires
        h.wf(),
        block > 0,
        plan::end_rounds(h, block),
        r.offset + r.len <= u64::MAX,
        r.offset % block == 0,
        r.len % block == 0,
    ensures
        waste_fault(h, block, r) is None <==> is_used(h, r),
{
    let i = first_after(h, block, r.offset as int, 0);
    first_after_is_first(h, block, r.offset as int, 0);
    if i < h.tensors.len() {
        blocks_meet_where_bytes_do(h, block, r, i);
    }
    if is_used(h, r) {
        let t = choose|t: int| 0 <= t < h.tensors.len() && #[trigger] shares_bytes(h, t, r);
        blocks_meet_where_bytes_do(h, block, r, t);
        first_after_is_at_most(h, block, r.offset as int, 0, t);
        assert(crate::header::span_le(h.tensors[i], h.tensors[t]));
        plan::rounding_is_monotone(
            h.data_start + h.tensors[i].start,
            h.data_start + h.tensors[t].start,
            block as int,
        );
    }
}

proof fn order_goes_through(p: Seq<Range>, i: int, j: int)
    requires
        plan::ends_fit(p),
        overlap_fault(p, p.len()) is None,
        0 <= i < j < p.len(),
    ensures
        p[i].offset + p[i].len <= p[j].offset,
    decreases j - i,
{
    overlaps_without_fault(p, p.len(), i);
    assert(p[i].offset + p[i].len <= u64::MAX);
    if i + 1 < j {
        order_goes_through(p, i + 1, j);
        assert(p[i + 1].offset + p[i + 1].len <= u64::MAX);
    }
}

proof fn held_tensor_has_no_fault(h: HeaderSpec, t: int, p: Seq<Range>)
    requires
        h.wf(),
        plan::ends_fit(p),
        forall|i: int, j: int|
            0 <= i < j < p.len() ==> (#[trigger] p[i]).offset + p[i].len <= (
            #[trigger] p[j]).offset,
        0 <= t < h.tensors.len(),
    ensures
        tensor_fault(h, t, p) is None <==> h.tensors[t].start == h.tensors[t].end || is_held(
            h,
            t,
            p,
        ),
{
    let s = h.data_start + h.tensors[t].start;
    assert(h.tensors[t].fits((h.file_size - h.data_start) as u64));
    assert forall|j: int| 0 <= j < p.len() implies end_of(#[trigger] p[j]) == p[j].offset
        + p[j].len by {
        assert(p[j].offset + p[j].len <= u64::MAX);
    }
    if h.tensors[t].start < h.tensors[t].end {
        let k = reaching(p, s, 0);
        reaching_is_first(p, s, 0);
        if tensor_fault(h, t, p) is None {
            assert(holds_tensor(h, t, p[k]));
        }
        if is_held(h, t, p) {
            let i = choose|i: int| 0 <= i < p.len() && holds_tensor(h, t, #[trigger] p[i]);
            assert(end_of(p[i]) > s);
            if k < i {
                assert(p[k].offset + p[k].len <= p[i].offset);
            }
        }
    }
}

/// The check passes a plan exactly if it is safe and wastes nothing: whatever plan is
/// given, for any accepted header.
pub proof fn check_passes_what_is_safe_and_tight(h: HeaderSpec, block: u64, p: Seq<Range>)
    requires
        h.wf(),
        block > 0,
        plan::end_rounds(h, block),
        plan::ends_fit(p),
    ensures
        plan_fault(h, block, p) is None <==> is_safe_and_tight(h, block, p),
{
    let b = block as int;
    let limit = plan::saturated(plan::round_up(h.file_size as int, b)) as u64;
    plan::round_up_is_ceiling(h.file_size as int, b);
    assert forall|i: int| 0 <= i < p.len() implies (range_fault(#[trigger] p[i], block, limit)
        is None <==> p[i].len > 0 && p[i].offset % block == 0 && p[i].len % block == 0
        && p[i].offset + p[i].len < h.file_size + block) by {
        assert(p[i].offset + p[i].len <= u64::MAX);
        if p[i].offset % block == 0 && p[i].len % block == 0 {
            range_ends_with_the_file(h.file_size as int, b, p[i].offset as int, p[i].len as int);
        }
    }
    if plan_fault(h, block, p) is None {
        assert forall|i: int| 0 <= i < p.len() implies range_fault(
            #[trigger] p[i],
            block,
            limit,
        ) is None by {
            ranges_without_fault(p, p.len(), block, limit, i);
        }
        assert forall|i: int, j: int| 0 <= i < j < p.len() implies (#[trigger] p[i]).offset
            + p[i].len <= (#[trigger] p[j]).offset by {
            order_goes_through(p, i, j);
        }
        assert forall|t: int|
            0 <= t < h.tensors.len() && (#[trigger] h.tensors[t]).start
                < h.tensors[t].end implies is_held(h, t, p) by {
            tensors_without_fault(h, h.tensors.len(), p, t);
            held_tensor_has_no_fault(h, t, p);
        }
        assert forall|i: int| 0 <= i < p.len() implies is_used(h, #[trigger] p[i]) by {
            wastes_without_fault(h, block, p, p.len(), i);
            assert(p[i].offset + p[i].len <= u64::MAX);
            waste_is_found(h, block, p[i]);
        }
    }
    if is_safe_and_tight(h, block, p) {
        no_range_fault(p, p.len(), block, limit);
        assert forall|i: int, j: int| 0 <= i < j < p.len() implies end_of(#[trigger] p[i]) <= (
        #[trigger] p[j]).offset by {
            assert(p[i].offset + p[i].len <= p[j].offset);
        }
        no_overlap_fault(p, p.len());
        assert forall|t: int| 0 <= t < h.tensors.len() implies #[trigger] tensor_fault(
            h,
            t,
            p,
        ) is None by {
            assert(h.tensors[t].fits((h.file_size - h.data_start) as u64));
            held_tensor_has_no_fault(h, t, p);
        }
        no_tensor_fault(h, h.tensors.len(), p);
        assert forall|i: int| 0 <= i < p.len() implies waste_fault(
            h,
            block,
            #[trigger] p[i],
        ) is None by {
            assert(p[i].offset + p[i].len <= u64::MAX);
            waste_is_found(h, block, p[i]);
        }
        no_waste_fault(h, block, p, p.len());
    }
}

proof fn tensors_without_fault(h: HeaderSpec, n: nat, p: Seq<Range>, t: int)
    requires
        tensors_fault(h, n, p) is None,
        0 <= t < n,
    ensures
        tensor_fault(h, t, p) is None,
    decreases n,
{
    if t < n - 1 {
        tensors_without_fault(h, (n - 1) as nat, p, t);
    }
}

proof fn wastes_without_fault(h: HeaderSpec, block: u64, p: Seq<Range>, n: nat, i: int)
    requires
        wastes_fault(h, block, p, n) is None,
        0 <= i < n,
    ensures
        waste_fault(h, block, p[i]) is None,
    decreases n,
{
    if i < n - 1 {
        wastes_without_fault(h, block, p, (n - 1) as nat, i);
    }
}

/// What a fault says of a plan, in bytes of the file.
pub open spec fn fault_is_true(h: HeaderSpec, block: u64, p: Seq<Range>, f: PlanFault) -> bool {
    match f {
        PlanFault::ZeroLength { offset } => p.contains(Range { offset, len: 0 }),
        PlanFault::OffsetOffBlock { offset } => offset % block != 0 && exists|i: int|
            0 <= i < p.len() && (#[trigger] p[i]).offset == offset,
        PlanFault::LenOffBlock { len } => len % block != 0 && exists|i: int|
            0 <= i < p.len() && (#[trigger] p[i]).len == len,
        PlanFault::PastEnd { offset, end, limit } => {
            &&& end >= h.file_size + block
            &&& h.file_size <= limit < h.file_size + block
            &&& limit % block == 0
            &&& p.contains(Range { offset, len: (end - offset) as u64 })
        },
        PlanFault::Overlap { first, second } => first.offset + first.len > second.offset
            && exists|i: int|
            0 <= i < p.len() - 1 && #[trigger] p[i] == first && p[i + 1] == second,
        PlanFault::TensorPastFile { tensor } => tensor < h.tensors.len() && h.data_start
            + h.tensors[tensor as int].end > h.file_size,
        PlanFault::NoRange { tensor } => {
            &&& tensor < h.tensors.len()
            &&& forall|i: int|
                0 <= i < p.len() ==> (#[trigger] p[i]).offset + p[i].len <= h.data_start
                    + h.tensors[tensor as int].start
        },
        PlanFault::NotContained { tensor, range } => {
            &&& tensor < h.tensors.len()
            &&& p.contains(range)
            &&& range.offset + range.len > h.data_start + h.tensors[tensor as int].start
            &&& !holds_tensor(h, tensor as int, range)
        },
        PlanFault::Wasted { range } => p.contains(range) && !is_used(h, range),
    }
}

proof fn range_fault_is_true(h: HeaderSpec, block: u64, p: Seq<Range>, n: nat)
    requires
        h.wf(),
        block > 0,
        plan::end_rounds(h, block),
        plan::ends_fit(p),
        n <= p.len(),
    ensures
        ({
            let limit = plan::saturated(plan::round_up(h.file_size as int, block as int)) as u64;
            ranges_fault(p, n, block, limit) matches Some(f) ==> fault_is_true(h, block, p, f)
        }),
    decreases n,
{
    let b = block as int;
    let limit = plan::saturated(plan::round_up(h.file_size as int, b)) as u64;
    if n > 0 {
        range_fault_is_true(h, block, p, (n - 1) as nat);
        let r = p[n - 1];
        assert(r.offset + r.len <= u64::MAX);
        plan::round_up_is_ceiling(h.file_size as int, b);
        if r.offset % block == 0 && r.len % block == 0 {
            range_ends_with_the_file(h.file_size as int, b, r.offset as int, r.len as int);
        }
        assert(p.contains(r));
        assert(r == (Range { offset: r.offset, len: r.len }));
    }
}

proof fn overlap_is_true(h: HeaderSpec, block: u64, p: Seq<Range>, n: nat)
    requires
        plan::ends_fit(p),
        n <= p.len(),
    ensures
        overlap_fault(p, n) matches Some(f) ==> fault_is_true(h, block, p, f),
    decreases n,
{
    if n > 0 {
        overlap_is_true(h, block, p, (n - 1) as nat);
        assert(p[n - 1].offset + p[n - 1].len <= u64::MAX);
    }
}

proof fn tensor_fault_is_true(h: HeaderSpec, block: u64, p: Seq<Range>, n: nat)
    requires
        h.wf(),
        plan::ends_fit(p),
        n <= h.tensors.len() <= usize::MAX,
    ensures
        tensors_fault(h, n, p) matches Some(f) ==> fault_is_true(h, block, p, f),
    decreases n,
{
    if n > 0 {
        tensor_fault_is_true(h, block, p, (n - 1) as nat);
        let t = n - 1;
        let s = h.data_start + h.tensors[t].start;
        reaching_is_first(p, s, 0);
        assert forall|i: int| 0 <= i < p.len() implies end_of(#[trigger] p[i]) == p[i].offset
            + p[i].len by {
            assert(p[i].offset + p[i].len <= u64::MAX);
        }
        let k = reaching(p, s, 0);
        if k < p.len() {
            assert(p.contains(p[k]));
        }
    }
}

proof fn waste_is_true(h: HeaderSpec, block: u64, p: Seq<Range>, n: nat)
    requires
        h.wf(),
        block > 0,
        plan::end_rounds(h, block),
        plan::ends_fit(p),
        n <= p.len(),
        forall|i: int|
            0 <= i < p.len() ==> (#[trigger] p[i]).offset % block == 0 && p[i].len % block == 0,
    ensures
        wastes_fault(h, block, p, n) matches Some(f) ==> fault_is_true(h, block, p, f),
    decreases n,
{
    if n > 0 {
        waste_is_true(h, block, p, (n - 1) as nat);
        assert(p[n - 1].offset + p[n - 1].len <= u64::MAX);
        waste_is_found(h, block, p[n - 1]);
        assert(p.contains(p[n - 1]));
    }
}

/// What the check reports of a plan is so.
pub proof fn reported_fault_is_true(h: HeaderSpec, block: u64, p: Seq<Range>)
    requires
        h.wf(),
        h.tensors.len() <= usize::MAX,
        block > 0,
        plan::end_rounds(h, block),
        plan::ends_fit(p),
    ensures
        plan_fault(h, block, p) matches Some(f) ==> fault_is_true(h, block, p, f),
{
    let limit = plan::saturated(plan::round_up(h.file_size as int, block as int)) as u64;
    range_fault_is_true(h, block, p, p.len());
    overlap_is_true(h, block, p, p.len());
    tensor_fault_is_true(h, block, p, h.tensors.len());
    if ranges_fault(p, p.len(), block, limit) is None {
        assert forall|i: int| 0 <= i < p.len() implies (#[trigger] p[i]).offset % block == 0
            && p[i].len % block == 0 by {
            ranges_without_fault(p, p.len(), block, limit, i);
        }
        waste_is_true(h, block, p, p.len());
    }
}

} // verus!
