//! Read planning: the byte ranges of tensors as block-aligned read requests.
//!
//! Tensors are packed back to back, so their offsets are hardly ever aligned.
//! Direct reads need offset and length aligned, so every tensor's range is
//! rounded outward; merging the rounded ranges keeps a byte from being read
//! twice. What a plan guarantees is [`plan_is_sound`].
use crate::header::{HeaderSpec, ShardHeader, TensorInfo, TensorSpec};
use vstd::arithmetic::div_mod::*;
use vstd::arithmetic::mul::*;
use vstd::prelude::*;

verus! {

/// A read request within one file.
#[derive(Debug, Clone, Copy, PartialEq, Eq, Structural)]
pub struct Range {
    pub offset: u64,
    pub len: u64,
}

impl Range {
    /// The end of the range, at most the largest offset.
    pub fn end(&self) -> (r: u64)
        ensures
            r == (if self.offset + self.len > u64::MAX {
                u64::MAX as int
            } else {
                self.offset + self.len
            }),
    {
        self.offset.saturating_add(self.len)
    }
}

/// A block size of zero counts as one.
pub open spec fn block_of(b: u64) -> int {
    if b == 0 {
        1
    } else {
        b as int
    }
}

/// The largest multiple of `b` that is no larger than `x`.
pub open spec fn round_down(x: int, b: int) -> int {
    x / b * b
}

/// The smallest multiple of `b` that is no smaller than `x`.
pub open spec fn round_up(x: int, b: int) -> int {
    (x + b - 1) / b * b
}

/// `n`, or the largest 64-bit number where `n` is larger.
pub open spec fn saturated(n: int) -> int {
    if n > u64::MAX {
        u64::MAX as int
    } else {
        n
    }
}

/// Rounding down gives the multiple of `b` in the last `b` numbers up to `x`.
pub proof fn round_down_is_floor(x: int, b: int)
    requires
        x >= 0,
        b > 0,
    ensures
        0 <= round_down(x, b) <= x < round_down(x, b) + b,
        round_down(x, b) % b == 0,
{
    lemma_fundamental_div_mod(x, b);
    lemma_mul_is_commutative(b, x / b);
    lemma_div_pos_is_pos(x, b);
    lemma_mul_nonnegative(x / b, b);
    lemma_mod_multiples_basic(x / b, b);
}

/// Rounding up gives the multiple of `b` in the first `b` numbers from `x`.
pub proof fn round_up_is_ceiling(x: int, b: int)
    requires
        x >= 0,
        b > 0,
    ensures
        x <= round_up(x, b) < x + b,
        round_up(x, b) % b == 0,
{
    round_down_is_floor(x + b - 1, b);
}

/// Rounding keeps order.
pub proof fn rounding_is_monotone(x: int, y: int, b: int)
    requires
        0 <= x <= y,
        b > 0,
    ensures
        round_down(x, b) <= round_down(y, b),
        round_up(x, b) <= round_up(y, b),
{
    lemma_div_is_ordered(x, y, b);
    lemma_mul_inequality(x / b, y / b, b);
    lemma_div_is_ordered(x + b - 1, y + b - 1, b);
    lemma_mul_inequality((x + b - 1) / b, (y + b - 1) / b, b);
}

/// A multiple rounds to itself.
pub proof fn multiples_are_fixed(x: int, b: int)
    requires
        x >= 0,
        b > 0,
        x % b == 0,
    ensures
        round_down(x, b) == x,
        round_up(x, b) == x,
{
    lemma_fundamental_div_mod(x, b);
    lemma_mul_is_commutative(b, x / b);
    round_up_is_ceiling(x, b);
    let u = round_up(x, b);
    lemma_fundamental_div_mod(u, b);
    assert(u == x) by (nonlinear_arith)
        requires
            b > 0,
            x == b * (x / b) + x % b,
            u == b * (u / b) + u % b,
            x % b == 0,
            u % b == 0,
            x <= u < x + b,
    ;
}

/// Rounds `x` down to a multiple of `b`.
pub fn floor_to(x: u64, b: u64) -> (r: u64)
    ensures
        r == round_down(x as int, block_of(b)),
{
    let b: u64 = if b == 0 {
        1
    } else {
        b
    };
    proof {
        round_down_is_floor(x as int, b as int);
    }
    x / b * b
}

/// Rounds `x` up to a multiple of `b`, or to the largest number where that
/// multiple is larger.
pub fn ceil_to(x: u64, b: u64) -> (r: u64)
    ensures
        r == saturated(round_up(x as int, block_of(b))),
{
    let b: u64 = if b == 0 {
        1
    } else {
        b
    };
    let down: u64 = x / b;
    proof {
        round_down_is_floor(x as int, b as int);
        round_up_is_ceiling(x as int, b as int);
        lemma_fundamental_div_mod(x as int, b as int);
        lemma_mul_is_commutative(b as int, x as int / b as int);
    }
    if x % b == 0 {
        proof {
            multiples_are_fixed(x as int, b as int);
        }
        return down * b;
    }
    proof {
        lemma_div_multiples_vanish_fancy(down as int + 1, x % b - 1, b as int);
        assert((x + b - 1) == b * (down + 1) + (x % b - 1)) by (nonlinear_arith)
            requires
                x == b * down + x % b,
        ;
        assert(round_up(x as int, b as int) == (down + 1) * b);
        assert(down + 1 <= u64::MAX) by (nonlinear_arith)
            requires
                x == b * down + x % b,
                x <= u64::MAX,
                b >= 1,
                x % b > 0,
        ;
    }
    match (down + 1).checked_mul(b) {
        Some(r) => r,
        None => u64::MAX,
    }
}

/// A byte range, from its start up to its end.
pub type Span = (int, int);

/// The byte range that a request covers.
pub open spec fn range_span(r: Range) -> Span {
    (r.offset as int, r.offset + r.len)
}

pub open spec fn range_spans(s: Seq<Range>) -> Seq<Span> {
    Seq::new(s.len(), |i: int| range_span(s[i]))
}

pub open spec fn lesser(a: int, b: int) -> int {
    if a <= b {
        a
    } else {
        b
    }
}

pub open spec fn greater(a: int, b: int) -> int {
    if a >= b {
        a
    } else {
        b
    }
}

/// The tensor's bytes in the file, rounded outward to the block and kept below
/// the rounded end of the file.
pub open spec fn tensor_span(h: HeaderSpec, t: TensorSpec, block: u64) -> Span {
    let b = block_of(block);
    let file_end = saturated(round_up(h.file_size as int, b));
    (
        lesser(round_down(h.data_start + t.start, b), file_end),
        lesser(saturated(round_up(h.data_start + t.end, b)), file_end),
    )
}

/// Whether the tensor needs a request: it has bytes, and rounding left some.
pub open spec fn needs_read(h: HeaderSpec, t: TensorSpec, block: u64) -> bool {
    t.end > t.start && tensor_span(h, t, block).0 < tensor_span(h, t, block).1
}

/// The rounded byte ranges of the tensors that need a request, in their order.
pub open spec fn tensor_spans(h: HeaderSpec, tensors: Seq<TensorSpec>, block: u64) -> Seq<Span>
    decreases tensors.len(),
{
    if tensors.len() == 0 {
        Seq::empty()
    } else {
        let before = tensor_spans(h, tensors.drop_last(), block);
        if needs_read(h, tensors.last(), block) {
            before.push(tensor_span(h, tensors.last(), block))
        } else {
            before
        }
    }
}

/// Joins each range to the one before it where at most `max_gap` bytes lie
/// between them.
pub open spec fn merged(spans: Seq<Span>, max_gap: int) -> Seq<Span>
    decreases spans.len(),
{
    if spans.len() == 0 {
        Seq::empty()
    } else {
        let before = merged(spans.drop_last(), max_gap);
        let s = spans.last();
        if before.len() > 0 && s.0 <= before.last().1 + max_gap {
            before.drop_last().push((before.last().0, greater(before.last().1, s.1)))
        } else {
            before.push(s)
        }
    }
}

/// The ranges that a plan reads from a file with the given header.
pub open spec fn planned(h: HeaderSpec, block: u64, max_gap: u64) -> Seq<Span> {
    merged(tensor_spans(h, h.tensors, block), max_gap as int)
}

proof fn header_bounds(h: HeaderSpec, i: int)
    requires
        h.wf(),
        0 <= i < h.tensors.len(),
    ensures
        h.tensors[i].start <= h.tensors[i].end,
        h.data_start + h.tensors[i].end <= h.file_size,
{
    assert(h.tensors[i].fits((h.file_size - h.data_start) as u64));
}

/// The request for one tensor, when it needs one.
fn tensor_range(h: &ShardHeader, t: &TensorInfo, block: u64) -> (r: Option<Range>)
    requires
        t.start <= t.end,
        h.data_start + t.end <= h.file_size,
    ensures
        r is Some == needs_read(h@, t@, block),
        r is Some ==> range_span(r->Some_0) == tensor_span(h@, t@, block) && r->Some_0.offset
            + r->Some_0.len <= u64::MAX,
{
    if t.nbytes() == 0 {
        return None;
    }
    let file_end: u64 = ceil_to(h.file_size, block);
    let (start, end) = t.abs_range(h.data_start);
    let mut a0: u64 = floor_to(start, block);
    if a0 > file_end {
        a0 = file_end;
    }
    let mut a1: u64 = ceil_to(end, block);
    if a1 > file_end {
        a1 = file_end;
    }
    if a1 <= a0 {
        None
    } else {
        Some(Range { offset: a0, len: a1 - a0 })
    }
}

/// No range ends beyond the largest offset.
pub open spec fn ends_fit(s: Seq<Range>) -> bool {
    forall|i: int| 0 <= i < s.len() ==> (#[trigger] s[i]).offset + s[i].len <= u64::MAX
}

/// Plans the reads for one file.
///
/// The tensors' ranges are rounded outward to `block`, then merged while the gap
/// to the next rounded range is at most `max_gap`.
pub fn plan_shard(h: &ShardHeader, block: u64, max_gap: u64) -> (out: Vec<Range>)
    requires
        h.wf(),
    ensures
        range_spans(out@) == planned(h@, block, max_gap),
        ends_fit(out@),
{
    let ghost all = h@.tensors;
    let mut out: Vec<Range> = Vec::new();
    let mut i: usize = 0;
    assert(all.take(0) =~= Seq::empty());
    assert(range_spans(out@) =~= Seq::empty());
    while i < h.tensors.len()
        invariant
            i <= h.tensors.len(),
            h.wf(),
            all == h@.tensors,
            range_spans(out@) == merged(
                tensor_spans(h@, all.take(i as int), block),
                max_gap as int,
            ),
            ends_fit(out@),
        decreases h.tensors.len() - i,
    {
        let ghost spans = tensor_spans(h@, all.take(i as int), block);
        proof {
            let next = all.take(i as int + 1);
            assert(next.drop_last() =~= all.take(i as int));
            assert(next.last() == h.tensors[i as int]@);
            header_bounds(h@, i as int);
        }
        match tensor_range(h, &h.tensors[i], block) {
            None => {},
            Some(r) => {
                let ghost s = range_span(r);
                let ghost before = range_spans(out@);
                assert(spans.push(s).drop_last() =~= spans);
                let n: usize = out.len();
                if n > 0 && r.offset <= out[n - 1].end().saturating_add(max_gap) {
                    let last: Range = out[n - 1];
                    assert(before.last() == range_span(last));
                    let end: u64 = if last.end() >= r.end() {
                        last.end()
                    } else {
                        r.end()
                    };
                    out.set(n - 1, Range { offset: last.offset, len: end - last.offset });
                    assert(range_spans(out@) =~= before.drop_last().push(
                        (before.last().0, greater(before.last().1, s.1)),
                    ));
                } else {
                    assert(n > 0 ==> before.last() == range_span(out@.last()));
                    out.push(r);
                    assert(range_spans(out@) =~= before.push(s));
                }
            },
        }
        i += 1;
    }
    assert(all.take(all.len() as int) =~= all);
    out
}

/// Plans one request for each tensor, rounded outward and not merged.
pub fn plan_shard_unmerged(h: &ShardHeader, block: u64) -> (out: Vec<Range>)
    requires
        h.wf(),
    ensures
        range_spans(out@) == tensor_spans(h@, h@.tensors, block),
        ends_fit(out@),
{
    let ghost all = h@.tensors;
    let mut out: Vec<Range> = Vec::new();
    let mut i: usize = 0;
    assert(all.take(0) =~= Seq::empty());
    assert(range_spans(out@) =~= Seq::empty());
    while i < h.tensors.len()
        invariant
            i <= h.tensors.len(),
            h.wf(),
            all == h@.tensors,
            range_spans(out@) == tensor_spans(h@, all.take(i as int), block),
            ends_fit(out@),
        decreases h.tensors.len() - i,
    {
        proof {
            let next = all.take(i as int + 1);
            assert(next.drop_last() =~= all.take(i as int));
            assert(next.last() == h.tensors[i as int]@);
            header_bounds(h@, i as int);
        }
        match tensor_range(h, &h.tensors[i], block) {
            None => {},
            Some(r) => {
                let ghost before = range_spans(out@);
                out.push(r);
                assert(range_spans(out@) =~= before.push(range_span(r)));
            },
        }
        i += 1;
    }
    assert(all.take(all.len() as int) =~= all);
    out
}

/// The ranges of one file, each with the file's number.
pub open spec fn numbered(shard: int, spans: Seq<Span>) -> Seq<(int, Span)> {
    Seq::new(spans.len(), |i: int| (shard, spans[i]))
}

/// What a plan over several files reads, file by file.
pub open spec fn model_planned(headers: Seq<HeaderSpec>, block: u64, max_gap: u64) -> Seq<
    (int, Span),
>
    decreases headers.len(),
{
    if headers.len() == 0 {
        Seq::empty()
    } else {
        model_planned(headers.drop_last(), block, max_gap) + numbered(
            headers.len() - 1,
            planned(headers.last(), block, max_gap),
        )
    }
}

/// What a plan over several files reads without merging, file by file.
pub open spec fn model_unmerged(headers: Seq<HeaderSpec>, block: u64) -> Seq<(int, Span)>
    decreases headers.len(),
{
    if headers.len() == 0 {
        Seq::empty()
    } else {
        let h = headers.last();
        model_unmerged(headers.drop_last(), block) + numbered(
            headers.len() - 1,
            tensor_spans(h, h.tensors, block),
        )
    }
}

pub open spec fn header_specs(s: Seq<ShardHeader>) -> Seq<HeaderSpec> {
    Seq::new(s.len(), |i: int| s[i]@)
}

pub open spec fn all_wf(s: Seq<ShardHeader>) -> bool {
    forall|i: int| 0 <= i < s.len() ==> (#[trigger] s[i]).wf()
}

/// The requests of a plan over several files as file numbers and byte ranges.
pub open spec fn request_spans(s: Seq<(usize, Range)>) -> Seq<(int, Span)> {
    Seq::new(s.len(), |i: int| (s[i].0 as int, range_span(s[i].1)))
}

/// No request of the plan ends beyond the largest offset.
pub open spec fn requests_fit(s: Seq<(usize, Range)>) -> bool {
    forall|i: int| 0 <= i < s.len() ==> (#[trigger] s[i]).1.offset + s[i].1.len <= u64::MAX
}

fn push_numbered(out: &mut Vec<(usize, Range)>, shard: usize, ranges: &Vec<Range>)
    requires
        requests_fit(old(out)@),
        ends_fit(ranges@),
    ensures
        requests_fit(final(out)@),
        request_spans(final(out)@) == request_spans(old(out)@) + numbered(
            shard as int,
            range_spans(ranges@),
        ),
        final(out)@.len() == old(out)@.len() + ranges@.len(),
        forall|k: int| 0 <= k < old(out)@.len() ==> final(out)@[k] == old(out)@[k],
        forall|k: int| old(out)@.len() <= k < final(out)@.len() ==> final(out)@[k].0 == shard,
{
    let ghost n = out@.len();
    let mut j: usize = 0;
    while j < ranges.len()
        invariant
            j <= ranges.len(),
            requests_fit(out@),
            ends_fit(ranges@),
            n == old(out)@.len(),
            out@.len() == n + j,
            forall|k: int| 0 <= k < n ==> out@[k] == old(out)@[k],
            forall|k: int| n <= k < n + j ==> out@[k] == (shard, ranges@[k - n]),
        decreases ranges.len() - j,
    {
        out.push((shard, ranges[j]));
        j += 1;
    }
    assert(request_spans(out@) =~= request_spans(old(out)@) + numbered(
        shard as int,
        range_spans(ranges@),
    ));
}

/// Plans the reads over several files, as pairs of a file's number and a range.
pub fn plan_model(headers: &[ShardHeader], block: u64, max_gap: u64) -> (out: Vec<(usize, Range)>)
    requires
        all_wf(headers@),
    ensures
        request_spans(out@) == model_planned(header_specs(headers@), block, max_gap),
        requests_fit(out@),
        forall|k: int| 0 <= k < out@.len() ==> (#[trigger] out@[k]).0 < headers.len(),
{
    let ghost all = header_specs(headers@);
    let mut out: Vec<(usize, Range)> = Vec::new();
    let mut i: usize = 0;
    assert(all.take(0) =~= Seq::empty());
    assert(request_spans(out@) =~= Seq::empty());
    while i < headers.len()
        invariant
            i <= headers.len(),
            all_wf(headers@),
            all == header_specs(headers@),
            request_spans(out@) == model_planned(all.take(i as int), block, max_gap),
            requests_fit(out@),
            forall|k: int| 0 <= k < out@.len() ==> (#[trigger] out@[k]).0 < i,
        decreases headers.len() - i,
    {
        let ranges: Vec<Range> = plan_shard(&headers[i], block, max_gap);
        push_numbered(&mut out, i, &ranges);
        proof {
            let next = all.take(i as int + 1);
            assert(next.drop_last() =~= all.take(i as int));
            assert(next.last() == headers[i as int]@);
        }
        i += 1;
    }
    assert(all.take(all.len() as int) =~= all);
    out
}

/// Plans one request for each tensor over several files.
pub fn plan_model_unmerged(headers: &[ShardHeader], block: u64) -> (out: Vec<(usize, Range)>)
    requires
        all_wf(headers@),
    ensures
        request_spans(out@) == model_unmerged(header_specs(headers@), block),
        requests_fit(out@),
        forall|k: int| 0 <= k < out@.len() ==> (#[trigger] out@[k]).0 < headers.len(),
{
    let ghost all = header_specs(headers@);
    let mut out: Vec<(usize, Range)> = Vec::new();
    let mut i: usize = 0;
    assert(all.take(0) =~= Seq::empty());
    assert(request_spans(out@) =~= Seq::empty());
    while i < headers.len()
        invariant
            i <= headers.len(),
            all_wf(headers@),
            all == header_specs(headers@),
            request_spans(out@) == model_unmerged(all.take(i as int), block),
            requests_fit(out@),
            forall|k: int| 0 <= k < out@.len() ==> (#[trigger] out@[k]).0 < i,
        decreases headers.len() - i,
    {
        let ranges: Vec<Range> = plan_shard_unmerged(&headers[i], block);
        push_numbered(&mut out, i, &ranges);
        proof {
            let next = all.take(i as int + 1);
            assert(next.drop_last() =~= all.take(i as int));
            assert(next.last() == headers[i as int]@);
        }
        i += 1;
    }
    assert(all.take(all.len() as int) =~= all);
    out
}

/// The ranges are non-empty and their starts do not descend.
pub open spec fn starts_ascend(s: Seq<Span>) -> bool {
    &&& forall|i: int| 0 <= i < s.len() ==> (#[trigger] s[i]).0 < s[i].1
    &&& forall|i: int, j: int|
        0 <= i <= j < s.len() ==> (#[trigger] s[i]).0 <= (#[trigger] s[j]).0
}

pub open spec fn within(inner: Span, outer: Span) -> bool {
    outer.0 <= inner.0 && inner.1 <= outer.1
}

/// Some range of `m` holds the range `s`.
pub open spec fn held(s: Span, m: Seq<Span>) -> bool {
    exists|k: int| 0 <= k < m.len() && within(s, #[trigger] m[k])
}

/// Some range of `s` starts where `r` starts and lies inside it.
pub open spec fn begun_by(r: Span, s: Seq<Span>) -> bool {
    exists|i: int| 0 <= i < s.len() && (#[trigger] s[i]).0 == r.0 && within(s[i], r)
}

/// Some range of `s` ends where `r` ends.
pub open spec fn ended_by(r: Span, s: Seq<Span>) -> bool {
    exists|i: int| 0 <= i < s.len() && (#[trigger] s[i]).1 == r.1
}

/// Merging ranges whose starts ascend gives non-empty ranges that stand more than
/// `max_gap` apart, hold every given range, and start and end where given ranges
/// do.
pub proof fn merging_covers_and_separates(spans: Seq<Span>, max_gap: int)
    requires
        starts_ascend(spans),
        max_gap >= 0,
    ensures
        ({
            let m = merged(spans, max_gap);
            &&& forall|k: int| 0 <= k < m.len() ==> (#[trigger] m[k]).0 < m[k].1
            &&& forall|i: int, j: int|
                0 <= i < j < m.len() ==> (#[trigger] m[i]).1 + max_gap < (#[trigger] m[j]).0
            &&& forall|i: int| 0 <= i < spans.len() ==> #[trigger] held(spans[i], m)
            &&& forall|k: int| 0 <= k < m.len() ==> #[trigger] begun_by(m[k], spans)
            &&& forall|k: int| 0 <= k < m.len() ==> #[trigger] ended_by(m[k], spans)
            &&& spans.len() > 0 ==> m.len() > 0 && m.last().0 <= spans.last().0
        }),
    decreases spans.len(),
{
    if spans.len() == 0 {
        return ;
    }
    let n = spans.len() - 1;
    let d = spans.drop_last();
    let s = spans.last();
    merging_covers_and_separates(d, max_gap);
    let before = merged(d, max_gap);
    let m = merged(spans, max_gap);
    assert(spans[n] == s);
    let joins = before.len() > 0 && s.0 <= before.last().1 + max_gap;
    let old_last = before.len() - 1;
    if joins {
        assert(d[d.len() - 1] == spans[n - 1]);
        assert(before.last().0 <= s.0);
        assert(m.len() == before.len());
        assert(m[old_last] == (before[old_last].0, greater(before[old_last].1, s.1)));
        assert(forall|k: int| 0 <= k < old_last ==> m[k] == before[k]);
        assert(within(s, m[old_last]));
    } else {
        assert(m[before.len() as int] == s);
        assert(forall|k: int| 0 <= k < before.len() ==> m[k] == before[k]);
        assert(within(s, m[before.len() as int]));
        if before.len() > 0 {
            assert forall|i: int| 0 <= i < before.len() implies (#[trigger] before[i]).1 + max_gap
                < s.0 by {
                if i < old_last {
                    assert(before[i].1 + max_gap < before[old_last].0);
                    assert(before[old_last].0 < before[old_last].1);
                }
            }
        }
    }
    assert forall|i: int| 0 <= i < spans.len() implies #[trigger] held(spans[i], m) by {
        if i < n {
            assert(d[i] == spans[i]);
            assert(held(d[i], before));
            let k = choose|k: int| 0 <= k < before.len() && within(d[i], #[trigger] before[k]);
            assert(within(spans[i], m[k]));
        }
    }
    assert forall|k: int| 0 <= k < m.len() implies #[trigger] begun_by(m[k], spans) by {
        if k < before.len() {
            assert(begun_by(before[k], d));
            let i = choose|i: int|
                0 <= i < d.len() && (#[trigger] d[i]).0 == before[k].0 && within(d[i], before[k]);
            assert(spans[i] == d[i]);
            assert(spans[i].0 == m[k].0 && within(spans[i], m[k]));
        } else {
            assert(spans[n].0 == m[k].0 && within(spans[n], m[k]));
        }
    }
    assert forall|k: int| 0 <= k < m.len() implies #[trigger] ended_by(m[k], spans) by {
        if k < before.len() && m[k].1 == before[k].1 {
            assert(ended_by(before[k], d));
            let i = choose|i: int| 0 <= i < d.len() && (#[trigger] d[i]).1 == before[k].1;
            assert(spans[i] == d[i]);
        } else {
            assert(spans[n].1 == m[k].1);
        }
    }
}

/// The range is that of a tensor which needs a request.
spec fn from_tensor(h: HeaderSpec, tensors: Seq<TensorSpec>, block: u64, s: Span) -> bool {
    exists|t: int|
        0 <= t < tensors.len() && needs_read(h, #[trigger] tensors[t], block) && tensor_span(
            h,
            tensors[t],
            block,
        ) == s
}

/// The rounded ranges are those of the tensors which need a request.
proof fn spans_come_from_tensors(h: HeaderSpec, tensors: Seq<TensorSpec>, block: u64)
    ensures
        forall|i: int|
            0 <= i < tensor_spans(h, tensors, block).len() ==> #[trigger] from_tensor(
                h,
                tensors,
                block,
                tensor_spans(h, tensors, block)[i],
            ),
        forall|t: int|
            0 <= t < tensors.len() && #[trigger] needs_read(h, tensors[t], block)
                ==> tensor_spans(h, tensors, block).contains(tensor_span(h, tensors[t], block)),
    decreases tensors.len(),
{
    if tensors.len() > 0 {
        let d = tensors.drop_last();
        let last = tensors.len() - 1;
        let before = tensor_spans(h, d, block);
        let after = tensor_spans(h, tensors, block);
        spans_come_from_tensors(h, d, block);
        assert forall|i: int| 0 <= i < after.len() implies #[trigger] from_tensor(
            h,
            tensors,
            block,
            after[i],
        ) by {
            if i < before.len() {
                assert(after[i] == before[i]);
                assert(from_tensor(h, d, block, before[i]));
                let t = choose|t: int|
                    0 <= t < d.len() && needs_read(h, #[trigger] d[t], block) && tensor_span(
                        h,
                        d[t],
                        block,
                    ) == before[i];
                assert(tensors[t] == d[t]);
            } else {
                assert(tensors[last] == tensors.last());
            }
        }
        assert forall|t: int|
            0 <= t < tensors.len() && #[trigger] needs_read(h, tensors[t], block) implies after.contains(
            tensor_span(h, tensors[t], block)) by {
            if t < last {
                assert(d[t] == tensors[t]);
                let i = choose|i: int|
                    0 <= i < before.len() && before[i] == tensor_span(h, d[t], block);
                assert(after[i] == before[i]);
            } else {
                assert(after[before.len() as int] == tensor_span(h, tensors[t], block));
            }
        }
    }
}

/// The starts of the tensors' rounded ranges ascend as the tensors do.
proof fn spans_ascend_with_tensors(h: HeaderSpec, n: int, block: u64)
    requires
        h.wf(),
        0 <= n <= h.tensors.len(),
    ensures
        starts_ascend(tensor_spans(h, h.tensors.take(n), block)),
        forall|i: int, t: int|
            0 <= i < tensor_spans(h, h.tensors.take(n), block).len() && n <= t < h.tensors.len()
                ==> (#[trigger] tensor_spans(h, h.tensors.take(n), block)[i]).0 <= tensor_span(
                h,
                #[trigger] h.tensors[t],
                block,
            ).0,
    decreases n,
{
    if n > 0 {
        let b = block_of(block);
        spans_ascend_with_tensors(h, n - 1, block);
        let d = h.tensors.take(n - 1);
        let all = h.tensors.take(n);
        assert(all.drop_last() =~= d);
        let before = tensor_spans(h, d, block);
        let after = tensor_spans(h, all, block);
        assert forall|t: int| n <= t < h.tensors.len() implies tensor_span(
            h,
            h.tensors[n - 1],
            block,
        ).0 <= tensor_span(h, #[trigger] h.tensors[t], block).0 by {
            assert(crate::header::span_le(h.tensors[n - 1], h.tensors[t]));
            rounding_is_monotone(
                h.data_start + h.tensors[n - 1].start,
                h.data_start + h.tensors[t].start,
                b,
            );
        }
        assert(after.len() > 0 && needs_read(h, h.tensors[n - 1], block) ==> after.last()
            == tensor_span(h, h.tensors[n - 1], block));
    } else {
        assert(h.tensors.take(0) =~= Seq::empty());
    }
}

/// The end of the file rounds up to a block without exceeding 64 bits.
pub open spec fn end_rounds(h: HeaderSpec, block: u64) -> bool {
    round_up(h.file_size as int, block_of(block)) <= u64::MAX
}

/// The range is non-empty, aligned at both ends, and ends no later than the
/// rounded file.
pub open spec fn range_is_sound(h: HeaderSpec, block: u64, r: Span) -> bool {
    let b = block_of(block);
    &&& 0 <= r.0 < r.1 <= round_up(h.file_size as int, b)
    &&& r.0 % b == 0
    &&& r.1 % b == 0
}

/// The bytes of a tensor in the file.
pub open spec fn tensor_bytes_span(h: HeaderSpec, t: TensorSpec) -> Span {
    (h.data_start + t.start, h.data_start + t.end)
}

/// The range starts with the rounded bytes of some tensor that has bytes, and
/// holds them.
pub open spec fn serves_a_tensor(h: HeaderSpec, block: u64, r: Span) -> bool {
    let b = block_of(block);
    exists|t: int|
        0 <= t < h.tensors.len() && h.tensors[t].start < h.tensors[t].end && round_down(
            h.data_start + (#[trigger] h.tensors[t]).start,
            b,
        ) == r.0 && round_up(h.data_start + h.tensors[t].end, b) <= r.1
}

/// What a plan owes: every range is non-empty, aligned and inside the rounded
/// file; the ranges ascend with more than `max_gap` bytes between them; every
/// tensor that has bytes lies in one of them; and none is read in vain.
pub open spec fn plan_is_sound(h: HeaderSpec, block: u64, max_gap: int, plan: Seq<Span>) -> bool {
    &&& forall|k: int| 0 <= k < plan.len() ==> #[trigger] range_is_sound(h, block, plan[k])
    &&& forall|i: int, j: int|
        0 <= i < j < plan.len() ==> (#[trigger] plan[i]).1 + max_gap < (#[trigger] plan[j]).0
    &&& forall|t: int|
        0 <= t < h.tensors.len() && h.tensors[t].start < h.tensors[t].end ==> #[trigger] held(
            tensor_bytes_span(h, h.tensors[t]),
            plan,
        )
    &&& forall|k: int| 0 <= k < plan.len() ==> #[trigger] serves_a_tensor(h, block, plan[k])
}

/// What rounding a tensor's range comes to when the file's end rounds up.
proof fn tensor_span_rounds(h: HeaderSpec, t: int, block: u64)
    requires
        h.wf(),
        end_rounds(h, block),
        0 <= t < h.tensors.len(),
    ensures
        ({
            let b = block_of(block);
            let s = h.data_start + h.tensors[t].start;
            let e = h.data_start + h.tensors[t].end;
            &&& tensor_span(h, h.tensors[t], block) == (round_down(s, b), round_up(e, b))
            &&& 0 <= round_down(s, b) <= s <= e <= round_up(e, b) <= round_up(h.file_size as int, b)
            &&& round_down(s, b) % b == 0
            &&& round_up(e, b) % b == 0
            &&& needs_read(h, h.tensors[t], block) == (h.tensors[t].start < h.tensors[t].end)
        }),
{
    let b = block_of(block);
    header_bounds(h, t);
    let s = h.data_start + h.tensors[t].start;
    let e = h.data_start + h.tensors[t].end;
    round_down_is_floor(s, b);
    round_up_is_ceiling(e, b);
    rounding_is_monotone(e, h.file_size as int, b);
    round_up_is_ceiling(h.file_size as int, b);
}

/// The range of a tensor that needs a request is sound by itself.
proof fn span_rounds(h: HeaderSpec, block: u64, s: Span)
    requires
        h.wf(),
        end_rounds(h, block),
        from_tensor(h, h.tensors, block, s),
    ensures
        range_is_sound(h, block, s),
{
    let t = choose|t: int|
        0 <= t < h.tensors.len() && needs_read(h, #[trigger] h.tensors[t], block) && tensor_span(
            h,
            h.tensors[t],
            block,
        ) == s;
    tensor_span_rounds(h, t, block);
}

/// Every plan for an accepted header is sound.
pub proof fn every_plan_is_sound(h: HeaderSpec, block: u64, max_gap: u64)
    requires
        h.wf(),
        end_rounds(h, block),
    ensures
        plan_is_sound(h, block, max_gap as int, planned(h, block, max_gap)),
{
    let b = block_of(block);
    let spans = tensor_spans(h, h.tensors, block);
    let plan = planned(h, block, max_gap);
    let n = h.tensors.len() as int;
    assert(h.tensors.take(n) =~= h.tensors);
    spans_ascend_with_tensors(h, n, block);
    spans_come_from_tensors(h, h.tensors, block);
    merging_covers_and_separates(spans, max_gap as int);
    assert forall|k: int| 0 <= k < plan.len() implies #[trigger] range_is_sound(
        h,
        block,
        plan[k],
    ) by {
        assert(begun_by(plan[k], spans));
        assert(ended_by(plan[k], spans));
        let i = choose|i: int|
            0 <= i < spans.len() && (#[trigger] spans[i]).0 == plan[k].0 && within(
                spans[i],
                plan[k],
            );
        let j = choose|j: int| 0 <= j < spans.len() && (#[trigger] spans[j]).1 == plan[k].1;
        span_rounds(h, block, spans[i]);
        span_rounds(h, block, spans[j]);
    }
    assert forall|t: int| 0 <= t < n && h.tensors[t].start < h.tensors[t].end implies #[trigger] held(
        tensor_bytes_span(h, h.tensors[t]),
        plan,
    ) by {
        tensor_span_rounds(h, t, block);
        assert(needs_read(h, h.tensors[t], block));
        let i = choose|i: int|
            0 <= i < spans.len() && spans[i] == tensor_span(h, h.tensors[t], block);
        assert(held(spans[i], plan));
        let k = choose|k: int| 0 <= k < plan.len() && within(spans[i], #[trigger] plan[k]);
        assert(within(tensor_bytes_span(h, h.tensors[t]), plan[k]));
    }
    assert forall|k: int| 0 <= k < plan.len() implies #[trigger] serves_a_tensor(
        h,
        block,
        plan[k],
    ) by {
        assert(begun_by(plan[k], spans));
        let i = choose|i: int|
            0 <= i < spans.len() && (#[trigger] spans[i]).0 == plan[k].0 && within(
                spans[i],
                plan[k],
            );
        assert(from_tensor(h, h.tensors, block, spans[i]));
        let t = choose|t: int|
            0 <= t < n && needs_read(h, #[trigger] h.tensors[t], block) && tensor_span(
                h,
                h.tensors[t],
                block,
            ) == spans[i];
        tensor_span_rounds(h, t, block);
        assert(round_down(h.data_start + h.tensors[t].start, b) == plan[k].0);
    }
}

/// The number of tensors that have bytes.
pub open spec fn nonempty_count(tensors: Seq<TensorSpec>) -> nat
    decreases tensors.len(),
{
    if tensors.len() == 0 {
        0
    } else {
        nonempty_count(tensors.drop_last()) + (if tensors.last().start < tensors.last().end {
            1nat
        } else {
            0
        })
    }
}

/// Without merging there is one request for each tensor that has bytes.
pub proof fn unmerged_plan_has_one_request_per_tensor(h: HeaderSpec, n: int, block: u64)
    requires
        h.wf(),
        end_rounds(h, block),
        0 <= n <= h.tensors.len(),
    ensures
        tensor_spans(h, h.tensors.take(n), block).len() == nonempty_count(h.tensors.take(n)),
    decreases n,
{
    if n > 0 {
        assert(h.tensors.take(n).drop_last() =~= h.tensors.take(n - 1));
        unmerged_plan_has_one_request_per_tensor(h, n - 1, block);
        tensor_span_rounds(h, n - 1, block);
    } else {
        assert(h.tensors.take(0) =~= Seq::empty());
    }
}

/// Every request of a plan over several files names one of the files.
pub proof fn model_plan_names_files(headers: Seq<HeaderSpec>, block: u64, max_gap: u64)
    ensures
        forall|k: int|
            0 <= k < model_planned(headers, block, max_gap).len() ==> 0 <= (
            #[trigger] model_planned(headers, block, max_gap)[k]).0 < headers.len(),
    decreases headers.len(),
{
    if headers.len() > 0 {
        let d = headers.drop_last();
        model_plan_names_files(d, block, max_gap);
        let before = model_planned(d, block, max_gap);
        let after = model_planned(headers, block, max_gap);
        assert forall|k: int| 0 <= k < after.len() implies 0 <= (#[trigger] after[k]).0
            < headers.len() by {
            if k < before.len() {
                assert(after[k] == before[k]);
            }
        }
    }
}

/// With a gap as large as the file there is at most one request.
pub proof fn wide_gap_gives_one_request(h: HeaderSpec, block: u64, max_gap: u64)
    requires
        h.wf(),
        end_rounds(h, block),
        max_gap >= h.file_size,
    ensures
        planned(h, block, max_gap).len() <= 1,
{
    let b = block_of(block);
    let plan = planned(h, block, max_gap);
    every_plan_is_sound(h, block, max_gap);
    if plan.len() > 1 {
        assert(range_is_sound(h, block, plan[0]));
        assert(range_is_sound(h, block, plan[1]));
        assert(plan[0].1 + max_gap < plan[1].0);
        round_up_is_ceiling(h.file_size as int, b);
        if plan[0].1 < b {
            lemma_small_mod(plan[0].1 as nat, b as nat);
        }
    }
}

/// Each tensor starts where the one before it ends.
pub open spec fn packed(tensors: Seq<TensorSpec>) -> bool {
    forall|i: int, j: int|
        0 <= i && j == i + 1 && j < tensors.len() ==> (#[trigger] tensors[i]).end == (
        #[trigger] tensors[j]).start
}

proof fn packed_part_is_one_request(h: HeaderSpec, n: int, block: u64, max_gap: int)
    requires
        h.wf(),
        end_rounds(h, block),
        packed(h.tensors),
        0 < n <= h.tensors.len(),
        max_gap >= 0,
    ensures
        ({
            let b = block_of(block);
            let m = merged(tensor_spans(h, h.tensors.take(n), block), max_gap);
            let first = h.tensors[0].start;
            let end = h.tensors[n - 1].end;
            &&& first <= end
            &&& m == (if first == end {
                Seq::<Span>::empty()
            } else {
                seq![(round_down(h.data_start + first, b), round_up(h.data_start + end, b))]
            })
        }),
    decreases n,
{
    let b = block_of(block);
    let part = h.tensors.take(n);
    let t = h.tensors[n - 1];
    let spans = tensor_spans(h, part, block);
    assert(part.last() == t);
    assert(part.drop_last() =~= h.tensors.take(n - 1));
    tensor_span_rounds(h, n - 1, block);
    let before = tensor_spans(h, h.tensors.take(n - 1), block);
    if n == 1 {
        assert(h.tensors.take(0) =~= Seq::empty());
        assert(before =~= Seq::empty());
        assert(merged(before, max_gap) =~= Seq::empty());
    } else {
        packed_part_is_one_request(h, n - 1, block, max_gap);
        assert(h.tensors[n - 2].end == t.start);
        tensor_span_rounds(h, n - 2, block);
        header_bounds(h, n - 1);
        rounding_is_monotone(h.data_start + t.start, h.data_start + t.end, b);
        round_down_is_floor(h.data_start + t.start, b);
        round_up_is_ceiling(h.data_start + t.start, b);
    }
    if needs_read(h, t, block) {
        let joined = merged(before, max_gap);
        let s = tensor_span(h, t, block);
        assert(spans.drop_last() =~= before);
        assert(spans.last() == s);
        if joined.len() > 0 {
            assert(joined.last().1 == round_up(h.data_start + t.start, b));
            assert(merged(spans, max_gap) =~= seq![(joined.last().0, s.1)]);
        } else {
            assert(merged(spans, max_gap) =~= seq![s]);
        }
    } else {
        assert(spans =~= before);
    }
}

/// Tensors that lie back to back are read by a single request, from the block where
/// the first starts to the end of the block where the last ends: merging wastes
/// nothing but the rounding at the two ends.
pub proof fn packed_tensors_are_one_request(h: HeaderSpec, block: u64, max_gap: u64)
    requires
        h.wf(),
        end_rounds(h, block),
        packed(h.tensors),
        h.tensors.len() > 0,
        h.tensors[0].start < h.tensors.last().end,
    ensures
        planned(h, block, max_gap) == seq![
            (
                round_down(h.data_start + h.tensors[0].start, block_of(block)),
                round_up(h.data_start + h.tensors.last().end, block_of(block)),
            ),
        ],
{
    let n = h.tensors.len() as int;
    assert(h.tensors.take(n) =~= h.tensors);
    packed_part_is_one_request(h, n, block, max_gap as int);
}

/// How many bytes the ranges have together.
pub open spec fn bytes_of(s: Seq<Span>) -> int
    decreases s.len(),
{
    if s.len() == 0 {
        0
    } else {
        bytes_of(s.drop_last()) + (s.last().1 - s.last().0)
    }
}

/// Joining ranges that touch or overlap asks for no more requests, and for no more
/// bytes, than reading each by itself.
pub proof fn merging_reads_no_more(spans: Seq<Span>)
    requires
        starts_ascend(spans),
    ensures
        merged(spans, 0).len() <= spans.len(),
        bytes_of(merged(spans, 0)) <= bytes_of(spans),
    decreases spans.len(),
{
    if spans.len() > 0 {
        let rest = spans.drop_last();
        let before = merged(rest, 0);
        let all = merged(spans, 0);
        assert(starts_ascend(rest)) by {
            assert forall|i: int| 0 <= i < rest.len() implies (#[trigger] rest[i]).0 < rest[i].1 by {
                assert(spans[i].0 < spans[i].1);
            }
            assert forall|i: int, j: int| 0 <= i <= j < rest.len() implies (#[trigger] rest[i]).0 <= (
            #[trigger] rest[j]).0 by {
                assert(spans[i].0 <= spans[j].0);
            }
        }
        merging_reads_no_more(rest);
        if before.len() > 0 && spans.last().0 <= before.last().1 {
            assert(all.drop_last() =~= before.drop_last());
        } else {
            assert(all.drop_last() =~= before);
        }
    }
}

/// Merging the requests of a file without bridging gaps asks for no more requests,
/// and for no more bytes, than one request for each tensor.
pub proof fn merged_plan_reads_no_more(h: HeaderSpec, block: u64)
    requires
        h.wf(),
    ensures
        planned(h, block, 0).len() <= tensor_spans(h, h.tensors, block).len(),
        bytes_of(planned(h, block, 0)) <= bytes_of(tensor_spans(h, h.tensors, block)),
{
    assert(h.tensors.take(h.tensors.len() as int) =~= h.tensors);
    spans_ascend_with_tensors(h, h.tensors.len() as int, block);
    merging_reads_no_more(tensor_spans(h, h.tensors, block));
}

/// The ranges of those requests that carry a file's number, in their order.
pub open spec fn requests_of(requests: Seq<(int, Span)>, file: int) -> Seq<Span>
    decreases requests.len(),
{
    if requests.len() == 0 {
        Seq::empty()
    } else if requests.last().0 == file {
        requests_of(requests.drop_last(), file).push(requests.last().1)
    } else {
        requests_of(requests.drop_last(), file)
    }
}

proof fn requests_of_joined(a: Seq<(int, Span)>, b: Seq<(int, Span)>, file: int)
    ensures
        requests_of(a + b, file) == requests_of(a, file) + requests_of(b, file),
    decreases b.len(),
{
    if b.len() == 0 {
        assert(a + b =~= a);
        assert(requests_of(a, file) + requests_of(b, file) =~= requests_of(a, file));
    } else {
        assert((a + b).drop_last() =~= a + b.drop_last());
        requests_of_joined(a, b.drop_last(), file);
        assert(requests_of(a + b, file) =~= requests_of(a, file) + requests_of(b, file));
    }
}

proof fn requests_of_one_file(shard: int, spans: Seq<Span>, file: int)
    ensures
        requests_of(numbered(shard, spans), file) == (if shard == file {
            spans
        } else {
            Seq::empty()
        }),
    decreases spans.len(),
{
    let all = numbered(shard, spans);
    if spans.len() > 0 {
        assert(all.drop_last() =~= numbered(shard, spans.drop_last()));
        requests_of_one_file(shard, spans.drop_last(), file);
        assert(spans.drop_last().push(spans.last()) =~= spans);
    } else {
        assert(requests_of(all, file) =~= Seq::empty());
        assert(spans =~= Seq::empty());
    }
}

proof fn requests_of_held(requests: Seq<(int, Span)>, file: int, s: Span)
    requires
        held(s, requests_of(requests, file)),
    ensures
        exists|k: int|
            0 <= k < requests.len() && (#[trigger] requests[k]).0 == file && within(
                s,
                requests[k].1,
            ),
    decreases requests.len(),
{
    let m = requests_of(requests, file);
    let j = choose|j: int| 0 <= j < m.len() && within(s, #[trigger] m[j]);
    if requests.len() > 0 {
        let d = requests.drop_last();
        if requests.last().0 == file && j == m.len() - 1 {
            assert(requests[requests.len() - 1].0 == file);
        } else {
            assert(requests_of(d, file)[j] == m[j]);
            requests_of_held(d, file, s);
            let k = choose|k: int|
                0 <= k < d.len() && (#[trigger] d[k]).0 == file && within(s, d[k].1);
            assert(requests[k] == d[k]);
        }
    }
}

/// The file numbers do not descend.
pub open spec fn files_ascend(requests: Seq<(int, Span)>) -> bool {
    forall|i: int, j: int|
        0 <= i <= j < requests.len() ==> (#[trigger] requests[i]).0 <= (#[trigger] requests[j]).0
}

proof fn model_plan_by_file(headers: Seq<HeaderSpec>, block: u64, max_gap: u64, file: int)
    ensures
        requests_of(model_planned(headers, block, max_gap), file) == (if 0 <= file
            < headers.len() {
            planned(headers[file], block, max_gap)
        } else {
            Seq::empty()
        }),
        files_ascend(model_planned(headers, block, max_gap)),
    decreases headers.len(),
{
    let all = model_planned(headers, block, max_gap);
    if headers.len() > 0 {
        let d = headers.drop_last();
        let n = headers.len() - 1;
        let before = model_planned(d, block, max_gap);
        let own = planned(headers.last(), block, max_gap);
        model_plan_by_file(d, block, max_gap, file);
        model_plan_names_files(d, block, max_gap);
        requests_of_joined(before, numbered(n, own), file);
        requests_of_one_file(n, own, file);
        assert(requests_of(all, file) =~= (if 0 <= file < headers.len() {
            planned(headers[file], block, max_gap)
        } else {
            Seq::empty()
        }));
        assert forall|i: int, j: int| 0 <= i <= j < all.len() implies (#[trigger] all[i]).0 <= (
        #[trigger] all[j]).0 by {
            if j < before.len() {
                assert(all[i] == before[i] && all[j] == before[j]);
            } else if i < before.len() {
                assert(all[i] == before[i]);
            }
        }
    }
}

proof fn unmerged_plan_by_file(headers: Seq<HeaderSpec>, block: u64, file: int)
    ensures
        requests_of(model_unmerged(headers, block), file) == (if 0 <= file < headers.len() {
            tensor_spans(headers[file], headers[file].tensors, block)
        } else {
            Seq::empty()
        }),
        files_ascend(model_unmerged(headers, block)),
        forall|k: int|
            0 <= k < model_unmerged(headers, block).len() ==> 0 <= (#[trigger] model_unmerged(
                headers,
                block,
            )[k]).0 < headers.len(),
    decreases headers.len(),
{
    let all = model_unmerged(headers, block);
    if headers.len() > 0 {
        let d = headers.drop_last();
        let n = headers.len() - 1;
        let h = headers.last();
        let before = model_unmerged(d, block);
        let own = tensor_spans(h, h.tensors, block);
        unmerged_plan_by_file(d, block, file);
        requests_of_joined(before, numbered(n, own), file);
        requests_of_one_file(n, own, file);
        assert(requests_of(all, file) =~= (if 0 <= file < headers.len() {
            tensor_spans(headers[file], headers[file].tensors, block)
        } else {
            Seq::empty()
        }));
        assert forall|i: int, j: int| 0 <= i <= j < all.len() implies (#[trigger] all[i]).0 <= (
        #[trigger] all[j]).0 by {
            if j < before.len() {
                assert(all[i] == before[i] && all[j] == before[j]);
            } else if i < before.len() {
                assert(all[i] == before[i]);
            }
        }
        assert forall|k: int| 0 <= k < all.len() implies 0 <= (#[trigger] all[k]).0
            < headers.len() by {
            if k < before.len() {
                assert(all[k] == before[k]);
            }
        }
    }
}

/// A plan over several files is the plans of the files: the requests that carry a
/// file's number are, in their order, those of the plan of that file alone; no request
/// carries another number, and the files come in their order.
pub proof fn model_plan_is_the_plans_of_its_files(
    headers: Seq<HeaderSpec>,
    block: u64,
    max_gap: u64,
)
    ensures
        forall|i: int|
            0 <= i < headers.len() ==> #[trigger] requests_of(
                model_planned(headers, block, max_gap),
                i,
            ) == planned(headers[i], block, max_gap),
        forall|i: int|
            0 <= i < headers.len() ==> #[trigger] requests_of(model_unmerged(headers, block), i)
                == tensor_spans(headers[i], headers[i].tensors, block),
        forall|k: int|
            0 <= k < model_planned(headers, block, max_gap).len() ==> 0 <= (
            #[trigger] model_planned(headers, block, max_gap)[k]).0 < headers.len(),
        forall|k: int|
            0 <= k < model_unmerged(headers, block).len() ==> 0 <= (#[trigger] model_unmerged(
                headers,
                block,
            )[k]).0 < headers.len(),
        files_ascend(model_planned(headers, block, max_gap)),
        files_ascend(model_unmerged(headers, block)),
{
    model_plan_by_file(headers, block, max_gap, 0);
    model_plan_names_files(headers, block, max_gap);
    unmerged_plan_by_file(headers, block, 0);
    assert forall|i: int| 0 <= i < headers.len() implies #[trigger] requests_of(
        model_planned(headers, block, max_gap),
        i,
    ) == planned(headers[i], block, max_gap) by {
        model_plan_by_file(headers, block, max_gap, i);
    }
    assert forall|i: int| 0 <= i < headers.len() implies #[trigger] requests_of(
        model_unmerged(headers, block),
        i,
    ) == tensor_spans(headers[i], headers[i].tensors, block) by {
        unmerged_plan_by_file(headers, block, i);
    }
}

/// Every tensor that has bytes lies, with all of them, in a request that carries the
/// number of its own file.
pub proof fn every_tensor_is_in_a_request_for_its_file(
    headers: Seq<HeaderSpec>,
    block: u64,
    max_gap: u64,
    i: int,
    t: int,
)
    requires
        0 <= i < headers.len(),
        headers[i].wf(),
        end_rounds(headers[i], block),
        0 <= t < headers[i].tensors.len(),
        headers[i].tensors[t].start < headers[i].tensors[t].end,
    ensures
        ({
            let requests = model_planned(headers, block, max_gap);
            let h = headers[i];
            exists|k: int|
                0 <= k < requests.len() && (#[trigger] requests[k]).0 == i && requests[k].1.0
                    <= h.data_start + h.tensors[t].start && h.data_start + h.tensors[t].end
                    <= requests[k].1.1
        }),
{
    let h = headers[i];
    let requests = model_planned(headers, block, max_gap);
    model_plan_by_file(headers, block, max_gap, i);
    every_plan_is_sound(h, block, max_gap);
    let s = tensor_bytes_span(h, h.tensors[t]);
    assert(held(s, planned(h, block, max_gap)));
    requests_of_held(requests, i, s);
    let k = choose|k: int|
        0 <= k < requests.len() && (#[trigger] requests[k]).0 == i && within(s, requests[k].1);
    assert(requests[k].0 == i);
}

/// Some range covers the byte, or starts within `max_gap` bytes after it.
pub open spec fn near(spans: Seq<Span>, p: int, max_gap: int) -> bool {
    exists|i: int| 0 <= i < spans.len() && (#[trigger] spans[i]).0 - max_gap <= p < spans[i].1
}

/// Merging bridges no gap longer than `max_gap`: every byte of a merged range is in one
/// of the given ranges, or a given range starts within `max_gap` bytes after it.
pub proof fn merging_bridges_short_gaps_alone(spans: Seq<Span>, max_gap: int, k: int, p: int)
    requires
        max_gap >= 0,
        0 <= k < merged(spans, max_gap).len(),
        merged(spans, max_gap)[k].0 <= p < merged(spans, max_gap)[k].1,
    ensures
        near(spans, p, max_gap),
    decreases spans.len(),
{
    let d = spans.drop_last();
    let before = merged(d, max_gap);
    let s = spans.last();
    let m = merged(spans, max_gap);
    if spans.len() > 0 {
        assert(spans[spans.len() - 1] == s);
        let joined = before.len() > 0 && s.0 <= before.last().1 + max_gap;
        if k < before.len() && (!joined || k < before.len() - 1 || p < before[k].1) {
            assert(m[k] == before[k] || k == before.len() - 1);
            merging_bridges_short_gaps_alone(d, max_gap, k, p);
            let i = choose|i: int|
                0 <= i < d.len() && (#[trigger] d[i]).0 - max_gap <= p < d[i].1;
            assert(spans[i] == d[i]);
        }
    }
}

/// Without merging, a tensor that has bytes is read by the request whose number is how
/// many such tensors come before it: from the block where it starts to the end of the
/// block where it ends.
pub proof fn unmerged_request_is_the_rounded_tensor(h: HeaderSpec, t: int, block: u64)
    requires
        h.wf(),
        end_rounds(h, block),
        0 <= t < h.tensors.len(),
        h.tensors[t].start < h.tensors[t].end,
    ensures
        ({
            let k = nonempty_count(h.tensors.take(t)) as int;
            let spans = tensor_spans(h, h.tensors, block);
            &&& k < spans.len()
            &&& spans[k] == (
                round_down(h.data_start + h.tensors[t].start, block_of(block)),
                round_up(h.data_start + h.tensors[t].end, block_of(block)),
            )
        }),
{
    let upto = h.tensors.take(t + 1);
    unmerged_plan_has_one_request_per_tensor(h, t, block);
    assert(upto.drop_last() =~= h.tensors.take(t));
    assert(upto.last() == h.tensors[t]);
    tensor_span_rounds(h, t, block);
    tensor_spans_extend(h, h.tensors, t + 1, block);
}

proof fn tensor_spans_extend(h: HeaderSpec, tensors: Seq<TensorSpec>, n: int, block: u64)
    requires
        0 <= n <= tensors.len(),
    ensures
        tensor_spans(h, tensors.take(n), block).len() <= tensor_spans(h, tensors, block).len(),
        forall|k: int|
            0 <= k < tensor_spans(h, tensors.take(n), block).len() ==> #[trigger] tensor_spans(
                h,
                tensors,
                block,
            )[k] == tensor_spans(h, tensors.take(n), block)[k],
    decreases tensors.len(),
{
    if n < tensors.len() {
        assert(tensors.drop_last().take(n) =~= tensors.take(n));
        tensor_spans_extend(h, tensors.drop_last(), n, block);
        let before = tensor_spans(h, tensors.drop_last(), block);
        assert forall|k: int|
            0 <= k < tensor_spans(h, tensors.take(n), block).len() implies #[trigger] tensor_spans(
            h,
            tensors,
            block,
        )[k] == tensor_spans(h, tensors.take(n), block)[k] by {
            assert(before[k] == tensor_spans(h, tensors.take(n), block)[k]);
        }
    } else {
        assert(tensors.take(n) =~= tensors);
    }
}

/// A block of zero bytes rounds as one of a single byte does, that is, not at all.
pub proof fn no_block_means_no_rounding(x: int, b: u64)
    requires
        x >= 0,
    ensures
        round_down(x, block_of(0)) == x,
        round_up(x, block_of(0)) == x,
        b > 0 ==> round_down(x, block_of(b)) % b as int == 0 && round_up(x, block_of(b)) % b as int
            == 0,
        b > 0 ==> x - b < round_down(x, block_of(b)) <= x <= round_up(x, block_of(b)) < x + b,
{
    if b > 0 {
        round_down_is_floor(x, b as int);
        round_up_is_ceiling(x, b as int);
    }
}

/// Every span counts for its own bytes, wherever it stands.
pub proof fn every_span_adds_its_bytes(s: Seq<Span>, i: int)
    requires
        0 <= i < s.len(),
    ensures
        bytes_of(s) == bytes_of(s.remove(i)) + s[i].1 - s[i].0,
    decreases s.len(),
{
    if i == s.len() - 1 {
        assert(s.remove(i) =~= s.drop_last());
    } else {
        every_span_adds_its_bytes(s.drop_last(), i);
        assert(s.remove(i).drop_last() =~= s.drop_last().remove(i));
        assert(s.remove(i).last() == s.last());
    }
}

/// The span of a range holds the bytes that a read of its length at its offset gives, and
/// requests keep their files with their spans.
pub proof fn span_holds_the_bytes_of_its_range(requests: Seq<(usize, Range)>, i: int, p: int)
    requires
        0 <= i < requests.len(),
    ensures
        request_spans(requests).len() == requests.len(),
        request_spans(requests)[i].0 == requests[i].0,
        request_spans(requests)[i].1.0 <= p < request_spans(requests)[i].1.1 <==> 0 <= p
            - requests[i].1.offset < requests[i].1.len,
        range_spans(seq![requests[i].1])[0] == request_spans(requests)[i].1,
{
}

} // verus!
