//! Which tensors to read twice, by different ways, and what comparing the bytes
//! comes to.
use crate::header::{Dtype, HeaderSpec, ShardHeader, TensorInfo, TensorSpec};
use crate::plan;
use vstd::prelude::*;

verus! {

/// A tensor to read: its file and its number there, and its bytes in the file.
#[derive(Debug, Clone, Copy, PartialEq, Eq, Structural)]
pub struct Sample {
    pub file: usize,
    pub tensor: usize,
    pub offset: u64,
    pub len: u64,
}

/// The largest size of a small tensor.
pub const SMALL: u64 = 0x1_0000;

/// How much of a large tensor is read.
pub const HEAD: u64 = 0x40_0000;

/// Which tensors are meant: small ones that have bytes, or large ones.
pub open spec fn is_meant(t: TensorSpec, small: bool) -> bool {
    if small {
        0 < t.end - t.start <= SMALL
    } else {
        t.end - t.start > SMALL
    }
}

/// A tensor as a sample.
pub open spec fn sample_at(h: HeaderSpec, file: usize, i: int) -> Sample {
    Sample {
        file,
        tensor: i as usize,
        offset: (h.data_start + h.tensors[i].start) as u64,
        len: (h.tensors[i].end - h.tensors[i].start) as u64,
    }
}

/// The samples of one file among its first `n` tensors.
pub open spec fn file_samples(h: HeaderSpec, file: usize, small: bool, n: nat) -> Seq<Sample>
    decreases n,
{
    if n == 0 {
        Seq::empty()
    } else {
        let before = file_samples(h, file, small, (n - 1) as nat);
        if is_meant(h.tensors[n - 1], small) {
            before.push(sample_at(h, file, n - 1))
        } else {
            before
        }
    }
}

/// The samples of the first `n` files, in the order of the files.
pub open spec fn all_samples(headers: Seq<HeaderSpec>, small: bool, n: nat) -> Seq<Sample>
    decreases n,
{
    if n == 0 {
        Seq::empty()
    } else {
        all_samples(headers, small, (n - 1) as nat) + file_samples(
            headers[n - 1],
            (n - 1) as usize,
            small,
            headers[n - 1].tensors.len(),
        )
    }
}

/// `a` may stand before `b`: small samples ascend, large ones descend.
pub open spec fn may_precede(a: Sample, b: Sample, small: bool) -> bool {
    if small {
        a.len <= b.len
    } else {
        a.len >= b.len
    }
}

/// The samples stand in order.
pub open spec fn in_order(s: Seq<Sample>, small: bool) -> bool {
    forall|i: int, j: int|
        0 <= i < j < s.len() ==> may_precede(#[trigger] s[i], #[trigger] s[j], small)
}

/// How many samples, counted up to the last that may, stand before `x`.
pub open spec fn slot(s: Seq<Sample>, x: Sample, small: bool) -> nat
    decreases s.len(),
{
    if s.len() == 0 {
        0
    } else if may_precede(s.last(), x, small) {
        s.len()
    } else {
        slot(s.drop_last(), x, small)
    }
}

/// The samples in order; those of the same size keep the order that they had.
pub open spec fn ordered(s: Seq<Sample>, small: bool) -> Seq<Sample>
    decreases s.len(),
{
    if s.len() == 0 {
        s
    } else {
        let before = ordered(s.drop_last(), small);
        before.insert(slot(before, s.last(), small) as int, s.last())
    }
}

proof fn slot_splits(s: Seq<Sample>, x: Sample, small: bool)
    requires
        in_order(s, small),
    ensures
        slot(s, x, small) <= s.len(),
        forall|i: int| 0 <= i < slot(s, x, small) ==> may_precede(#[trigger] s[i], x, small),
        forall|i: int|
            slot(s, x, small) <= i < s.len() ==> !may_precede(#[trigger] s[i], x, small),
    decreases s.len(),
{
    if s.len() > 0 {
        if may_precede(s.last(), x, small) {
            assert forall|i: int| 0 <= i < s.len() implies may_precede(#[trigger] s[i], x, small) by {
                if i < s.len() - 1 {
                    assert(may_precede(s[i], s[s.len() - 1], small));
                }
            }
        } else {
            let d = s.drop_last();
            assert(in_order(d, small)) by {
                assert forall|i: int, j: int| 0 <= i < j < d.len() implies may_precede(
                    #[trigger] d[i],
                    #[trigger] d[j],
                    small,
                ) by {
                    assert(d[i] == s[i] && d[j] == s[j]);
                }
            }
            slot_splits(d, x, small);
            assert forall|i: int| 0 <= i < slot(s, x, small) implies may_precede(
                #[trigger] s[i],
                x,
                small,
            ) by {
                assert(d[i] == s[i]);
            }
            assert forall|i: int| slot(s, x, small) <= i < s.len() implies !may_precede(
                #[trigger] s[i],
                x,
                small,
            ) by {
                if i < d.len() {
                    assert(d[i] == s[i]);
                }
            }
        }
    }
}

/// Ordering keeps every sample, and puts the smallest small ones and the largest
/// large ones first.
pub proof fn ordering_is_by_size(s: Seq<Sample>, small: bool)
    ensures
        in_order(ordered(s, small), small),
        ordered(s, small).len() == s.len(),
        ordered(s, small).to_multiset() == s.to_multiset(),
    decreases s.len(),
{
    broadcast use vstd::seq_lib::group_to_multiset_ensures;

    if s.len() > 0 {
        let x = s.last();
        let before = ordered(s.drop_last(), small);
        ordering_is_by_size(s.drop_last(), small);
        slot_splits(before, x, small);
        let at = slot(before, x, small) as int;
        let after = before.insert(at, x);
        assert forall|i: int, j: int| 0 <= i < j < after.len() implies may_precede(
            #[trigger] after[i],
            #[trigger] after[j],
            small,
        ) by {
            let i0 = if i < at {
                i
            } else {
                i - 1
            };
            let j0 = if j < at {
                j
            } else {
                j - 1
            };
            if i != at {
                assert(after[i] == before[i0]);
            }
            if j != at {
                assert(after[j] == before[j0]);
            }
        }
        assert(s =~= s.drop_last().push(x));
    }
}

fn precedes(a: &Sample, b: &Sample, small: bool) -> (r: bool)
    ensures
        r == may_precede(*a, *b, small),
{
    if small {
        a.len <= b.len
    } else {
        a.len >= b.len
    }
}

fn insert_sample(out: &mut Vec<Sample>, x: Sample, small: bool)
    ensures
        final(out)@ == old(out)@.insert(slot(old(out)@, x, small) as int, x),
        slot(old(out)@, x, small) <= old(out)@.len(),
{
    let mut at: usize = out.len();
    let ghost all = out@;
    assert(all.take(all.len() as int) =~= all);
    while at > 0 && !precedes(&out[at - 1], &x, small)
        invariant
            at <= out.len(),
            all == out@,
            slot(all, x, small) == slot(all.take(at as int), x, small),
        decreases at,
    {
        assert(all.take(at as int).drop_last() =~= all.take(at as int - 1));
        assert(all.take(at as int).last() == all[at as int - 1]);
        at -= 1;
    }
    assert(at > 0 ==> all.take(at as int).last() == all[at as int - 1]);
    out.insert(at, x);
}

/// The tensors that are meant, in order: small ones from the smallest on, or large
/// ones from the largest on.
pub fn samples(headers: &[ShardHeader], small: bool) -> (r: Vec<Sample>)
    requires
        plan::all_wf(headers@),
    ensures
        r@ == ordered(
            all_samples(plan::header_specs(headers@), small, headers@.len()),
            small,
        ),
{
    let ghost specs = plan::header_specs(headers@);
    let mut out: Vec<Sample> = Vec::new();
    let mut f: usize = 0;
    while f < headers.len()
        invariant
            f <= headers.len(),
            plan::all_wf(headers@),
            specs == plan::header_specs(headers@),
            out@ == ordered(all_samples(specs, small, f as nat), small),
        decreases headers.len() - f,
    {
        let h: &ShardHeader = &headers[f];
        let ghost before = all_samples(specs, small, f as nat);
        let mut i: usize = 0;
        assert(before + file_samples(h@, f, small, 0) =~= before);
        while i < h.tensors.len()
            invariant
                i <= h.tensors.len(),
                h.wf(),
                out@ == ordered(before + file_samples(h@, f, small, i as nat), small),
            decreases h.tensors.len() - i,
        {
            let t: &TensorInfo = &h.tensors[i];
            proof {
                assert(h@.tensors[i as int] == t@);
                assert(h@.tensors[i as int].fits((h.file_size - h.data_start) as u64));
            }
            let n: u64 = t.nbytes();
            let meant: bool = if small {
                n > 0 && n <= SMALL
            } else {
                n > SMALL
            };
            if meant {
                let (offset, _) = t.abs_range(h.data_start);
                let x: Sample = Sample { file: f, tensor: i, offset, len: n };
                proof {
                    let had = before + file_samples(h@, f, small, i as nat);
                    let next = before + file_samples(h@, f, small, (i + 1) as nat);
                    assert(next =~= had.push(x));
                    assert(next.drop_last() =~= had);
                }
                insert_sample(&mut out, x, small);
            }
            i += 1;
        }
        f += 1;
    }
    out
}

/// How many bytes of a large sample are read.
pub fn head_len(len: u64) -> (r: u64)
    ensures
        r == (if len < HEAD {
            len
        } else {
            HEAD
        }),
{
    if len < HEAD {
        len
    } else {
        HEAD
    }
}

/// The first place from `i` on at which two byte strings differ, up to the end of the
/// shorter.
pub open spec fn difference_from(a: Seq<u8>, b: Seq<u8>, i: int) -> Option<int>
    decreases a.len() - i,
{
    if i >= a.len() || i >= b.len() {
        None
    } else if a[i] != b[i] {
        Some(i)
    } else {
        difference_from(a, b, i + 1)
    }
}

/// What two reads of the same bytes come to: one failed, they agree, or they differ,
/// with the first place of a difference.
#[derive(Debug, Clone, Copy, PartialEq, Eq, Structural)]
pub enum Agreement {
    Failed,
    Same,
    Different(Option<usize>),
}

/// What two reads come to.
pub open spec fn agreement(a: Option<Seq<u8>>, b: Option<Seq<u8>>) -> Agreement {
    match (a, b) {
        (Some(x), Some(y)) => if x == y {
            Agreement::Same
        } else {
            Agreement::Different(
                match difference_from(x, y, 0) {
                    Some(i) => Some(i as usize),
                    None => None,
                },
            )
        },
        _ => Agreement::Failed,
    }
}

/// The bytes of a read, if it succeeded.
pub open spec fn read_bytes(r: Option<&Vec<u8>>) -> Option<Seq<u8>> {
    match r {
        Some(v) => Some(v@),
        None => None,
    }
}

/// Compares two reads of the same bytes.
pub fn compare_reads(a: Option<&Vec<u8>>, b: Option<&Vec<u8>>) -> (r: Agreement)
    ensures
        r == agreement(read_bytes(a), read_bytes(b)),
{
    match (a, b) {
        (Some(x), Some(y)) => {
            let mut i: usize = 0;
            while i < x.len() && i < y.len()
                invariant
                    i <= x.len(),
                    i <= y.len(),
                    read_bytes(a) == Some(x@),
                    read_bytes(b) == Some(y@),
                    difference_from(x@, y@, 0) == difference_from(x@, y@, i as int),
                    forall|k: int| 0 <= k < i ==> x@[k] == y@[k],
                decreases x.len() - i,
            {
                if x[i] != y[i] {
                    return Agreement::Different(Some(i));
                }
                i += 1;
            }
            if x.len() == y.len() {
                assert(x@ =~= y@);
                Agreement::Same
            } else {
                Agreement::Different(None)
            }
        },
        _ => Agreement::Failed,
    }
}

/// Two reads agree only if they hold the same bytes.
pub proof fn only_equal_reads_agree(a: Seq<u8>, b: Seq<u8>)
    ensures
        agreement(Some(a), Some(b)) is Same <==> a == b,
        agreement(Some(a), Some(b)) matches Agreement::Different(Some(i)) ==> difference_from(
            a,
            b,
            0,
        ) is Some,
{
}

/// How many reads were compared, how many went wrong, and how many were of small
/// single-precision tensors.
#[derive(Debug, Clone, Copy)]
pub struct Tally {
    pub checked: u64,
    pub failed: u64,
    pub scalars: u64,
}

/// How many small single-precision tensors are compared at most.
pub const SCALARS: u64 = 8;

/// The largest size of a small single-precision tensor.
pub const SCALAR_BYTES: u64 = 8192;

impl Tally {
    pub fn new() -> (r: Tally)
        ensures
            r.checked == 0 && r.failed == 0 && r.scalars == 0,
    {
        Tally { checked: 0, failed: 0, scalars: 0 }
    }

    /// No more scalars were compared than there are to be, and not more than all.
    pub open spec fn wf(&self) -> bool {
        self.scalars <= SCALARS && self.scalars <= self.checked
    }

    /// Whether a tensor is one of the small single-precision ones still to compare.
    pub fn wants_scalar(&self, t: &TensorInfo) -> (r: bool)
        requires
            t.start <= t.end,
        ensures
            r == (t.dtype == Dtype::F32 && t.end - t.start <= SCALAR_BYTES && self.scalars
                < SCALARS),
    {
        t.dtype == Dtype::F32 && t.nbytes() <= SCALAR_BYTES && self.scalars < SCALARS
    }

    /// Counts the comparison of a sample: a failed read counts as wrong, and is not
    /// a comparison.
    pub fn count(&mut self, a: &Agreement)
        requires
            old(self).wf(),
            old(self).checked < u64::MAX,
            old(self).failed < u64::MAX,
        ensures
            final(self).wf(),
            final(self).checked == old(self).checked + (if a is Failed {
                0int
            } else {
                1
            }),
            final(self).failed == old(self).failed + (if a is Same {
                0int
            } else {
                1
            }),
            final(self).scalars == old(self).scalars,
    {
        match a {
            Agreement::Failed => {
                self.failed = self.failed + 1;
            },
            Agreement::Same => {
                self.checked = self.checked + 1;
            },
            Agreement::Different(_) => {
                self.checked = self.checked + 1;
                self.failed = self.failed + 1;
            },
        }
    }

    /// Counts the comparison of a small single-precision tensor: a failed read does
    /// not count at all.
    pub fn count_scalar(&mut self, a: &Agreement)
        requires
            old(self).wf(),
            old(self).scalars < SCALARS,
            old(self).checked < u64::MAX,
            old(self).failed < u64::MAX,
        ensures
            final(self).wf(),
            ({
                let n = if a is Failed {
                    0int
                } else {
                    1
                };
                &&& final(self).checked == old(self).checked + n
                &&& final(self).scalars == old(self).scalars + n
                &&& final(self).failed == old(self).failed + (if a is Different {
                    1int
                } else {
                    0
                })
            }),
    {
        match a {
            Agreement::Failed => {},
            Agreement::Same => {
                self.checked = self.checked + 1;
                self.scalars = self.scalars + 1;
            },
            Agreement::Different(_) => {
                self.checked = self.checked + 1;
                self.scalars = self.scalars + 1;
                self.failed = self.failed + 1;
            },
        }
    }
}

/// The place where two reads differ is the first: the bytes before it are the same. Reads
/// that differ nowhere up to the end of the shorter one are not equally long.
pub proof fn difference_is_the_first(a: Seq<u8>, b: Seq<u8>)
    requires
        a.len() <= usize::MAX,
    ensures
        agreement(Some(a), Some(b)) matches Agreement::Different(Some(i)) ==> i < a.len() && i
            < b.len() && a[i as int] != b[i as int] && a.take(i as int) == b.take(i as int),
        agreement(Some(a), Some(b)) matches Agreement::Different(None) ==> a.len() != b.len() && (
        a.is_prefix_of(b) || b.is_prefix_of(a)),
        agreement(None, Some(b)) is Failed,
        agreement(Some(a), None) is Failed,
{
    difference_from_is_first(a, b, 0);
    match difference_from(a, b, 0) {
        Some(i) => {
            assert(a.take(i) =~= b.take(i));
        },
        None => {
            if a.len() <= b.len() {
                assert(a =~= b.take(a.len() as int));
            } else {
                assert(b =~= a.take(b.len() as int));
            }
            if a.len() == b.len() {
                assert(a =~= b);
            }
        },
    }
}

proof fn difference_from_is_first(a: Seq<u8>, b: Seq<u8>, i: int)
    requires
        0 <= i,
    ensures
        match difference_from(a, b, i) {
            Some(k) => i <= k < a.len() && k < b.len() && a[k] != b[k] && forall|j: int|
                i <= j < k ==> #[trigger] a[j] == b[j],
            None => forall|j: int| i <= j < a.len() && j < b.len() ==> #[trigger] a[j] == b[j],
        },
    decreases a.len() - i,
{
    if i < a.len() && i < b.len() && a[i] == b[i] {
        difference_from_is_first(a, b, i + 1);
    }
}

/// The sample is the tensor of that number in the file of that number, with all of its
/// bytes in the file; and it is small and has bytes, or it is large.
pub open spec fn is_a_tensor(s: Sample, headers: Seq<HeaderSpec>, small: bool) -> bool {
    &&& s.file < headers.len()
    &&& s.tensor < headers[s.file as int].tensors.len()
    &&& ({
        let h = headers[s.file as int];
        let t = h.tensors[s.tensor as int];
        &&& s.offset == h.data_start + t.start
        &&& s.len == t.end - t.start
        &&& small ==> 0 < s.len <= 65536
        &&& !small ==> s.len > 65536
    })
}

/// Samples by file, then by their number in it.
pub open spec fn comes_before(a: Sample, b: Sample) -> bool {
    a.file < b.file || a.file == b.file && a.tensor < b.tensor
}

spec fn numbers_fit(headers: Seq<HeaderSpec>) -> bool {
    &&& headers.len() <= usize::MAX
    &&& forall|i: int|
        0 <= i < headers.len() ==> (#[trigger] headers[i]).wf() && headers[i].tensors.len()
            <= usize::MAX
}

proof fn file_samples_are_tensors(headers: Seq<HeaderSpec>, f: int, small: bool, n: nat)
    requires
        numbers_fit(headers),
        0 <= f < headers.len(),
        n <= headers[f].tensors.len(),
    ensures
        ({
            let s = file_samples(headers[f], f as usize, small, n);
            &&& forall|k: int|
                0 <= k < s.len() ==> is_a_tensor(#[trigger] s[k], headers, small) && s[k].file == f
                    && s[k].tensor < n
            &&& forall|t: int|
                0 <= t < n && is_meant(#[trigger] headers[f].tensors[t], small) ==> s.contains(
                    sample_at(headers[f], f as usize, t),
                )
            &&& forall|i: int, j: int|
                0 <= i < j < s.len() ==> (#[trigger] s[i]).tensor < (#[trigger] s[j]).tensor
        }),
    decreases n,
{
    if n > 0 {
        let m = (n - 1) as nat;
        file_samples_are_tensors(headers, f, small, m);
        let h = headers[f];
        assert(h.wf());
        let before = file_samples(h, f as usize, small, m);
        let s = file_samples(h, f as usize, small, n);
        let t = h.tensors[n - 1];
        assert(t.fits((h.file_size - h.data_start) as u64));
        assert forall|k: int| 0 <= k < s.len() implies is_a_tensor(#[trigger] s[k], headers, small)
            && s[k].file == f && s[k].tensor < n by {
            if k < before.len() {
                assert(s[k] == before[k]);
            }
        }
        assert forall|u: int|
            0 <= u < n && is_meant(#[trigger] h.tensors[u], small) implies s.contains(
            sample_at(h, f as usize, u),
        ) by {
            let x = sample_at(h, f as usize, u);
            if u < n - 1 {
                let k = choose|k: int| 0 <= k < before.len() && before[k] == x;
                assert(s[k] == x);
            } else {
                assert(s[before.len() as int] == x);
            }
        }
        assert forall|i: int, j: int| 0 <= i < j < s.len() implies (#[trigger] s[i]).tensor < (
        #[trigger] s[j]).tensor by {
            assert(s[i] == before[i]);
            if j < before.len() {
                assert(s[j] == before[j]);
            }
        }
    }
}

proof fn all_samples_are_tensors(headers: Seq<HeaderSpec>, small: bool, n: nat)
    requires
        numbers_fit(headers),
        n <= headers.len(),
    ensures
        ({
            let s = all_samples(headers, small, n);
            &&& forall|k: int|
                0 <= k < s.len() ==> is_a_tensor(#[trigger] s[k], headers, small) && s[k].file < n
            &&& forall|f: int, t: int|
                #![trigger headers[f].tensors[t]]
                0 <= f < n && 0 <= t < headers[f].tensors.len() && is_meant(
                    headers[f].tensors[t],
                    small,
                ) ==> s.contains(sample_at(headers[f], f as usize, t))
            &&& forall|i: int, j: int|
                0 <= i < j < s.len() ==> comes_before(#[trigger] s[i], #[trigger] s[j])
        }),
    decreases n,
{
    if n > 0 {
        let m = (n - 1) as nat;
        all_samples_are_tensors(headers, small, m);
        file_samples_are_tensors(headers, n - 1, small, headers[n - 1].tensors.len());
        let before = all_samples(headers, small, m);
        let own = file_samples(
            headers[n - 1],
            (n - 1) as usize,
            small,
            headers[n - 1].tensors.len(),
        );
        let s = all_samples(headers, small, n);
        assert(s == before + own);
        assert forall|k: int| 0 <= k < s.len() implies is_a_tensor(#[trigger] s[k], headers, small)
            && s[k].file < n by {
            if k < before.len() {
                assert(s[k] == before[k]);
            } else {
                assert(s[k] == own[k - before.len()]);
            }
        }
        assert forall|f: int, t: int|
            #![trigger headers[f].tensors[t]]
            0 <= f < n && 0 <= t < headers[f].tensors.len() && is_meant(
                headers[f].tensors[t],
                small,
            ) implies s.contains(sample_at(headers[f], f as usize, t)) by {
            let x = sample_at(headers[f], f as usize, t);
            if f < n - 1 {
                let k = choose|k: int| 0 <= k < before.len() && before[k] == x;
                assert(s[k] == x);
            } else {
                let k = choose|k: int| 0 <= k < own.len() && own[k] == x;
                assert(s[before.len() + k] == x);
            }
        }
        assert forall|i: int, j: int| 0 <= i < j < s.len() implies comes_before(
            #[trigger] s[i],
            #[trigger] s[j],
        ) by {
            if j < before.len() {
                assert(s[i] == before[i] && s[j] == before[j]);
            } else if i < before.len() {
                assert(s[i] == before[i] && s[j] == own[j - before.len()]);
            } else {
                assert(s[i] == own[i - before.len()] && s[j] == own[j - before.len()]);
            }
        }
    }
}

proof fn ordering_keeps_samples(s: Seq<Sample>, small: bool)
    ensures
        forall|i: int| 0 <= i < ordered(s, small).len() ==> s.contains(#[trigger] ordered(s, small)[i]),
        forall|i: int| 0 <= i < s.len() ==> ordered(s, small).contains(#[trigger] s[i]),
    decreases s.len(),
{
    if s.len() > 0 {
        let d = s.drop_last();
        let n = s.len() - 1;
        ordering_keeps_samples(d, small);
        ordering_is_by_size(d, small);
        let before = ordered(d, small);
        slot_splits(before, s.last(), small);
        let at = slot(before, s.last(), small) as int;
        let after = ordered(s, small);
        assert forall|i: int| 0 <= i < after.len() implies s.contains(#[trigger] after[i]) by {
            if i == at {
                assert(s[n] == after[i]);
            } else {
                let i0 = if i < at {
                    i
                } else {
                    i - 1
                };
                assert(after[i] == before[i0]);
                let a = choose|a: int| 0 <= a < d.len() && d[a] == before[i0];
                assert(s[a] == after[i]);
            }
        }
        assert forall|i: int| 0 <= i < s.len() implies after.contains(#[trigger] s[i]) by {
            if i == n {
                assert(after[at] == s[i]);
            } else {
                assert(d[i] == s[i]);
                let k = choose|k: int| 0 <= k < before.len() && before[k] == s[i];
                assert(after[if k < at {
                    k
                } else {
                    k + 1
                }] == s[i]);
            }
        }
    }
}

proof fn ties_keep_their_order(s: Seq<Sample>, small: bool, i: int, j: int)
    requires
        forall|a: int, b: int|
            0 <= a < b < s.len() ==> comes_before(#[trigger] s[a], #[trigger] s[b]),
        0 <= i < j < ordered(s, small).len(),
        ordered(s, small)[i].len == ordered(s, small)[j].len,
    ensures
        comes_before(ordered(s, small)[i], ordered(s, small)[j]),
    decreases s.len(),
{
    if s.len() > 0 {
        let d = s.drop_last();
        let n = s.len() - 1;
        let x = s.last();
        assert forall|a: int, b: int| 0 <= a < b < d.len() implies comes_before(
            #[trigger] d[a],
            #[trigger] d[b],
        ) by {
            assert(comes_before(s[a], s[b]));
        }
        ordering_is_by_size(d, small);
        let before = ordered(d, small);
        slot_splits(before, x, small);
        let at = slot(before, x, small) as int;
        let after = ordered(s, small);
        let i0 = if i < at {
            i
        } else {
            i - 1
        };
        let j0 = if j < at {
            j
        } else {
            j - 1
        };
        if j == at {
            assert(after[i] == before[i0]);
            ordering_keeps_samples(d, small);
            let a = choose|a: int| 0 <= a < d.len() && d[a] == before[i0];
            assert(comes_before(s[a], s[n]));
        } else if i == at {
            assert(after[j] == before[j0]);
            assert(!may_precede(before[j0], x, small));
        } else {
            assert(after[i] == before[i0] && after[j] == before[j0]);
            ties_keep_their_order(d, small, i0, j0);
        }
    }
}

/// The small samples are the tensors of up to 64 KiB that have bytes, the smallest first;
/// the large ones are all larger tensors, the largest first. Every such tensor of every
/// file is a sample once, with its own file, number and bytes, and of samples of the same
/// size that of the earlier file and number comes first.
pub proof fn samples_are_the_tensors_by_size(headers: Seq<HeaderSpec>, small: bool)
    requires
        headers.len() <= usize::MAX,
        forall|i: int|
            0 <= i < headers.len() ==> (#[trigger] headers[i]).wf() && headers[i].tensors.len()
                <= usize::MAX,
    ensures
        ({
            let s = ordered(all_samples(headers, small, headers.len()), small);
            &&& forall|k: int| 0 <= k < s.len() ==> is_a_tensor(#[trigger] s[k], headers, small)
            &&& forall|f: int, t: int|
                #![trigger headers[f].tensors[t]]
                0 <= f < headers.len() && 0 <= t < headers[f].tensors.len() && ({
                    let n = headers[f].tensors[t].end - headers[f].tensors[t].start;
                    if small {
                        0 < n <= 65536
                    } else {
                        n > 65536
                    }
                }) ==> exists|k: int|
                    0 <= k < s.len() && (#[trigger] s[k]).file == f && s[k].tensor == t
            &&& forall|i: int, j: int|
                0 <= i < j < s.len() ==> {
                    let a = #[trigger] s[i];
                    let b = #[trigger] s[j];
                    ||| small && a.len < b.len
                    ||| !small && a.len > b.len
                    ||| a.len == b.len && comes_before(a, b)
                }
        }),
{
    let all = all_samples(headers, small, headers.len());
    let s = ordered(all, small);
    all_samples_are_tensors(headers, small, headers.len());
    ordering_keeps_samples(all, small);
    ordering_is_by_size(all, small);
    assert forall|k: int| 0 <= k < s.len() implies is_a_tensor(#[trigger] s[k], headers, small) by {
        assert(all.contains(s[k]));
        let a = choose|a: int| 0 <= a < all.len() && all[a] == s[k];
        assert(is_a_tensor(all[a], headers, small));
    }
    assert forall|f: int, t: int|
        #![trigger headers[f].tensors[t]]
        0 <= f < headers.len() && 0 <= t < headers[f].tensors.len() && ({
            let n = headers[f].tensors[t].end - headers[f].tensors[t].start;
            if small {
                0 < n <= 65536
            } else {
                n > 65536
            }
        }) implies exists|k: int|
        0 <= k < s.len() && (#[trigger] s[k]).file == f && s[k].tensor == t by {
        let x = sample_at(headers[f], f as usize, t);
        assert(is_meant(headers[f].tensors[t], small));
        assert(all.contains(x));
        let a = choose|a: int| 0 <= a < all.len() && all[a] == x;
        assert(s.contains(all[a]));
        let k = choose|k: int| 0 <= k < s.len() && s[k] == x;
        assert(s[k].file == f && s[k].tensor == t);
    }
    assert forall|i: int, j: int| 0 <= i < j < s.len() implies {
        let a = #[trigger] s[i];
        let b = #[trigger] s[j];
        ||| small && a.len < b.len
        ||| !small && a.len > b.len
        ||| a.len == b.len && comes_before(a, b)
    } by {
        assert(may_precede(s[i], s[j], small));
        if s[i].len == s[j].len {
            ties_keep_their_order(all, small, i, j);
        }
    }
}

} // verus!
