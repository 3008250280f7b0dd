//! Comparing a candidate bundle with a golden one, tensor by tensor.
use crate::bundle::{Bundle, TensorEntry};
use crate::float_bits;
use crate::names::NameMap;
use crate::text;
use vstd::prelude::*;

verus! {

/// What to do about one tensor of the golden bundle: the candidate lacks it, or
/// the two of these numbers are compared.
#[derive(Debug, Clone, Copy, PartialEq, Eq, Structural)]
pub enum Step {
    Missing(usize),
    Pair(usize, usize),
}

/// Whether the tensor belongs to the group that is asked for.
pub open spec fn selected(t: TensorEntry, group: Option<Seq<char>>) -> bool {
    match group {
        Some(g) => t.group@ == g,
        None => true,
    }
}

/// What to do about the first `n` tensors of the golden bundle, in their order.
pub open spec fn steps_for(g: Bundle, c: Bundle, group: Option<Seq<char>>, n: nat) -> Seq<Step>
    decreases n,
{
    if n == 0 {
        Seq::empty()
    } else {
        let i = n - 1;
        let before = steps_for(g, c, group, (n - 1) as nat);
        let t = g.manifest.tensors@[i];
        if !selected(t, group) {
            before
        } else {
            match c.number(t.name@) {
                None => before.push(Step::Missing(i as usize)),
                Some(j) => before.push(Step::Pair(i as usize, j)),
            }
        }
    }
}

/// What to do about each tensor of the golden bundle, in their order.
pub fn compare_steps(g: &Bundle, c: &Bundle, group: Option<&str>) -> (r: Vec<Step>)
    requires
        c.wf(),
    ensures
        r@ == steps_for(
            *g,
            *c,
            match group {
                Some(s) => Some(s@),
                None => None,
            },
            g.manifest.tensors@.len(),
        ),
{
    let ghost wanted: Option<Seq<char>> = match group {
        Some(s) => Some(s@),
        None => None,
    };
    let mut out: Vec<Step> = Vec::new();
    let mut i: usize = 0;
    while i < g.manifest.tensors.len()
        invariant
            i <= g.manifest.tensors.len(),
            c.wf(),
            wanted == match group {
                Some(s) => Some(s@),
                None => None::<Seq<char>>,
            },
            out@ == steps_for(*g, *c, wanted, i as nat),
        decreases g.manifest.tensors.len() - i,
    {
        let t: &TensorEntry = &g.manifest.tensors[i];
        let keep: bool = match group {
            Some(s) => text::str_eq(t.group.as_str(), s),
            None => true,
        };
        if keep {
            match c.index.get(t.name.as_str()) {
                None => {
                    out.push(Step::Missing(i));
                },
                Some(j) => {
                    out.push(Step::Pair(i, *j));
                },
            }
        }
        i += 1;
    }
    out
}

/// The place for an error among ones that descend: after all that are at least as
/// large, counted from the end.
pub open spec fn rank_slot(order: Seq<int>, errors: Seq<u32>, e: u32) -> nat
    decreases order.len(),
{
    if order.len() == 0 {
        0
    } else if float_bits::line_place(errors[order.last()]) >= float_bits::line_place(e) {
        order.len()
    } else {
        rank_slot(order.drop_last(), errors, e)
    }
}

/// The numbers of the first `n` errors, the largest error first; equal ones keep
/// their order.
pub open spec fn ranking(errors: Seq<u32>, n: nat) -> Seq<int>
    decreases n,
{
    if n == 0 {
        Seq::empty()
    } else {
        let before = ranking(errors, (n - 1) as nat);
        before.insert(rank_slot(before, errors, errors[n - 1]) as int, n - 1)
    }
}

/// `a` ranks before `b`: by the larger error, then by the smaller number.
pub open spec fn ranks_before(errors: Seq<u32>, a: int, b: int) -> bool {
    float_bits::line_place(errors[a]) > float_bits::line_place(errors[b]) || (float_bits::line_place(
        errors[a],
    ) == float_bits::line_place(errors[b]) && a < b)
}

proof fn rank_slot_splits(order: Seq<int>, errors: Seq<u32>, e: u32)
    requires
        forall|i: int, j: int|
            0 <= i < j < order.len() ==> ranks_before(errors, #[trigger] order[i], #[trigger] order[j]),
    ensures
        rank_slot(order, errors, e) <= order.len(),
        forall|i: int|
            0 <= i < rank_slot(order, errors, e) ==> float_bits::line_place(
                errors[#[trigger] order[i]],
            ) >= float_bits::line_place(e),
        forall|i: int|
            rank_slot(order, errors, e) <= i < order.len() ==> float_bits::line_place(
                errors[#[trigger] order[i]],
            ) < float_bits::line_place(e),
    decreases order.len(),
{
    if order.len() > 0 {
        let d = order.drop_last();
        let last = order.len() - 1;
        if float_bits::line_place(errors[order.last()]) >= float_bits::line_place(e) {
            assert forall|i: int| 0 <= i < order.len() implies float_bits::line_place(
                errors[#[trigger] order[i]],
            ) >= float_bits::line_place(e) by {
                if i < last {
                    assert(ranks_before(errors, order[i], order[last]));
                }
            }
        } else {
            assert forall|i: int, j: int| 0 <= i < j < d.len() implies ranks_before(
                errors,
                #[trigger] d[i],
                #[trigger] d[j],
            ) by {
                assert(d[i] == order[i] && d[j] == order[j]);
            }
            rank_slot_splits(d, errors, e);
            assert forall|i: int| 0 <= i < rank_slot(order, errors, e) implies float_bits::line_place(
                errors[#[trigger] order[i]],
            ) >= float_bits::line_place(e) by {
                assert(d[i] == order[i]);
            }
            assert forall|i: int| rank_slot(order, errors, e) <= i < order.len() implies float_bits::line_place(
                errors[#[trigger] order[i]],
            ) < float_bits::line_place(e) by {
                if i < d.len() {
                    assert(d[i] == order[i]);
                }
            }
        }
    }
}

/// The ranking has every error once, and ranks larger errors first.
pub proof fn ranking_is_ordered(errors: Seq<u32>, n: nat)
    requires
        n <= errors.len(),
    ensures
        ranking(errors, n).len() == n,
        forall|i: int| 0 <= i < n ==> 0 <= #[trigger] ranking(errors, n)[i] < n,
        forall|i: int, j: int|
            0 <= i < j < n ==> ranks_before(
                errors,
                #[trigger] ranking(errors, n)[i],
                #[trigger] ranking(errors, n)[j],
            ),
        forall|k: int| 0 <= k < n ==> #[trigger] ranking(errors, n).contains(k),
    decreases n,
{
    if n > 0 {
        let k = n - 1;
        ranking_is_ordered(errors, (n - 1) as nat);
        let before = ranking(errors, (n - 1) as nat);
        rank_slot_splits(before, errors, errors[k]);
        let at = rank_slot(before, errors, errors[k]) as int;
        let after = ranking(errors, n);
        assert forall|i: int| 0 <= i < n implies 0 <= #[trigger] after[i] < n by {
            if i < at {
                assert(after[i] == before[i]);
            } else if i > at {
                assert(after[i] == before[i - 1]);
            }
        }
        assert forall|i: int, j: int| 0 <= i < j < n implies ranks_before(
            errors,
            #[trigger] after[i],
            #[trigger] after[j],
        ) by {
            let i0 = if i < at {
                i
            } else {
                i - 1
            };
            let j0 = if j < at {
                j
            } else {
                j - 1
            };
            if i != at {
                assert(after[i] == before[i0]);
            }
            if j != at {
                assert(after[j] == before[j0]);
            }
        }
        assert forall|x: int| 0 <= x < n implies #[trigger] after.contains(x) by {
            if x == k {
                assert(after[at] == k);
            } else {
                assert(before.contains(x));
                let i = choose|i: int| 0 <= i < before.len() && before[i] == x;
                let i1 = if i < at {
                    i
                } else {
                    i + 1
                };
                assert(after[i1] == x);
            }
        }
    }
}

pub open spec fn positions(s: Seq<usize>) -> Seq<int> {
    Seq::new(s.len(), |i: int| s[i] as int)
}

/// The numbers of the errors, the largest error first. The errors are the bits of
/// numbers.
pub fn rank_errors(errors: &[u32]) -> (r: Vec<usize>)
    ensures
        positions(r@) == ranking(errors@, errors@.len()),
        forall|i: int| 0 <= i < r@.len() ==> #[trigger] r@[i] < errors@.len(),
{
    let mut out: Vec<usize> = Vec::new();
    let mut n: usize = 0;
    assert(positions(out@) =~= Seq::empty());
    while n < errors.len()
        invariant
            n <= errors.len(),
            positions(out@) == ranking(errors@, n as nat),
            forall|i: int| 0 <= i < out@.len() ==> #[trigger] out@[i] < n,
        decreases errors.len() - n,
    {
        let ghost order = positions(out@);
        let e: i64 = signed_place(errors[n]);
        let mut at: usize = out.len();
        assert(order.take(order.len() as int) =~= order);
        while at > 0 && signed_place(errors[out[at - 1]]) < e
            invariant
                at <= out.len(),
                n < errors.len(),
                order == positions(out@),
                e == float_bits::line_place(errors@[n as int]),
                forall|i: int| 0 <= i < out@.len() ==> #[trigger] out@[i] < n,
                rank_slot(order, errors@, errors@[n as int]) == rank_slot(
                    order.take(at as int),
                    errors@,
                    errors@[n as int],
                ),
            decreases at,
        {
            assert(order.take(at as int).drop_last() =~= order.take(at as int - 1));
            assert(order.take(at as int).last() == out@[at as int - 1]);
            at -= 1;
        }
        assert(at > 0 ==> order.take(at as int).last() == out@[at as int - 1]);
        out.insert(at, n);
        assert(positions(out@) =~= order.insert(at as int, n as int));
        assert forall|i: int| 0 <= i < out@.len() implies #[trigger] out@[i] < n + 1 by {
            if i < at {
                assert(out@[i] == order[i]);
            } else if i > at {
                assert(out@[i] == order[i - 1]);
            }
        }
        n += 1;
    }
    out
}

fn signed_place(x: u32) -> (r: i64)
    ensures
        r == float_bits::line_place(x),
{
    let m: i64 = (x % 0x8000_0000) as i64;
    if x / 0x8000_0000 == 0 {
        m
    } else {
        -m
    }
}

/// Whether a candidate passes: its worst relative error is within the tolerance,
/// its tokens do not part from the golden ones, nothing is missing, and both
/// bundles agree with themselves.
pub fn verdict(
    worst: u32,
    tolerance: u32,
    diverged: bool,
    missing: usize,
    golden_bad: usize,
    candidate_bad: usize,
) -> (r: bool)
    ensures
        r == (float_bits::at_most(worst, tolerance) && !diverged && missing == 0 && golden_bad == 0
            && candidate_bad == 0),
{
    float_bits::no_more_than(worst, tolerance) && !diverged && missing == 0 && golden_bad == 0
        && candidate_bad == 0
}

/// How many of the tensors are in a group, and their bytes.
pub open spec fn group_total(tensors: Seq<TensorEntry>, group: Seq<char>) -> (nat, nat)
    decreases tensors.len(),
{
    if tensors.len() == 0 {
        (0, 0)
    } else {
        let before = group_total(tensors.drop_last(), group);
        let t = tensors.last();
        if t.group@ == group {
            (before.0 + 1, before.1 + t.nbytes as nat)
        } else {
            before
        }
    }
}

/// The groups of the tensors: how many there are in each, and their bytes.
pub fn group_totals(tensors: &[TensorEntry]) -> (r: NameMap<(u64, u128)>)
    ensures
        r.wf(),
        forall|g: Seq<char>| #[trigger]
            r@.contains_key(g) ==> r@[g].0 == group_total(tensors@, g).0 && r@[g].1
                == group_total(tensors@, g).1,
        forall|g: Seq<char>| #[trigger] r@.contains_key(g) <==> group_total(tensors@, g).0 > 0,
{
    let mut r: NameMap<(u64, u128)> = NameMap::new();
    let mut i: usize = 0;
    assert(tensors@.take(0) =~= Seq::empty());
    while i < tensors.len()
        invariant
            i <= tensors.len(),
            r.wf(),
            forall|g: Seq<char>| #[trigger]
                r@.contains_key(g) ==> r@[g].0 == group_total(tensors@.take(i as int), g).0
                    && r@[g].1 == group_total(tensors@.take(i as int), g).1,
            forall|g: Seq<char>| #[trigger]
                r@.contains_key(g) <==> group_total(tensors@.take(i as int), g).0 > 0,
            forall|g: Seq<char>| #[trigger]
                r@.contains_key(g) ==> r@[g].0 <= i && r@[g].1 <= i * u64::MAX,
        decreases tensors.len() - i,
    {
        let group: String = tensors[i].group.clone();
        let nbytes: u64 = tensors[i].nbytes;
        let ghost before = r@;
        let (count, total): (u64, u128) = match r.get(group.as_str()) {
            Some(p) => (p.0, p.1),
            None => (0, 0),
        };
        proof {
            let next = tensors@.take(i as int + 1);
            assert(next.drop_last() =~= tensors@.take(i as int));
            assert(next.last() == tensors@[i as int]);
            group_total_zero(tensors@.take(i as int), group@);
            assert(total <= i * u64::MAX);
            assert(i * u64::MAX + u64::MAX == (i + 1) * u64::MAX) by (nonlinear_arith);
            assert((i + 1) * u64::MAX <= u128::MAX) by (nonlinear_arith)
                requires
                    i + 1 <= u64::MAX,
            ;
        }
        r.insert(group, (count + 1, total + nbytes as u128));
        proof {
            assert forall|g: Seq<char>| #[trigger] r@.contains_key(g) implies r@[g].0
                == group_total(tensors@.take(i as int + 1), g).0 && r@[g].1 == group_total(
                tensors@.take(i as int + 1),
                g,
            ).1 && r@[g].0 <= i + 1 && r@[g].1 <= (i + 1) * u64::MAX by {
                if g != tensors@[i as int].group@ {
                    assert(before.contains_key(g));
                }
            }
            assert forall|g: Seq<char>| #[trigger] r@.contains_key(g) <==> group_total(
                tensors@.take(i as int + 1),
                g,
            ).0 > 0 by {
                if g != tensors@[i as int].group@ {
                    assert(before.contains_key(g) == r@.contains_key(g));
                }
            }
        }
        i += 1;
    }
    assert(tensors@.take(tensors@.len() as int) =~= tensors@);
    r
}

proof fn group_total_zero(tensors: Seq<TensorEntry>, group: Seq<char>)
    ensures
        group_total(tensors, group).0 == 0 ==> group_total(tensors, group).1 == 0,
    decreases tensors.len(),
{
    if tensors.len() > 0 {
        group_total_zero(tensors.drop_last(), group);
    }
}

/// Larger errors rank first, as numbers compare, and of equal ones the one that came
/// first; and every error has one rank.
pub proof fn larger_errors_rank_first(errors: Seq<u32>, i: int, j: int)
    requires
        0 <= i < j < errors.len(),
        forall|k: int| 0 <= k < errors.len() ==> float_bits::is_finite_bits(#[trigger] errors[k]),
    ensures
        ({
            let order = ranking(errors, errors.len());
            let a = float_bits::single_value(errors[order[i]]);
            let b = float_bits::single_value(errors[order[j]]);
            &&& order.len() == errors.len()
            &&& 0 <= order[i] < errors.len() && 0 <= order[j] < errors.len()
            &&& a >= b
            &&& a == b ==> order[i] < order[j]
            &&& order[i] != order[j]
        }),
{
    ranking_is_ordered(errors, errors.len());
    let order = ranking(errors, errors.len());
    let x = errors[order[i]];
    let y = errors[order[j]];
    assert(ranks_before(errors, order[i], order[j]));
    float_bits::comparing_is_by_value(x, y);
    float_bits::comparing_is_by_value(y, x);
    float_bits::bits_tell_the_kind(x);
    float_bits::bits_tell_the_kind(y);
}

/// The number of the golden tensor that a step is about.
pub open spec fn golden_number(s: Step) -> int {
    match s {
        Step::Missing(i) => i as int,
        Step::Pair(i, _) => i as int,
    }
}

/// The tensor's group is the one that is asked for, or none is.
pub open spec fn in_group(t: TensorEntry, group: Option<Seq<char>>) -> bool {
    group is None || group == Some(t.group@)
}

/// The step is about a tensor of the golden bundle that belongs to the group: it pairs it
/// with the candidate's tensor of the same name, or the candidate has none.
pub open spec fn step_is_right(g: Bundle, c: Bundle, group: Option<Seq<char>>, s: Step) -> bool {
    let t = g.manifest.tensors@[golden_number(s)];
    &&& golden_number(s) < g.manifest.tensors@.len()
    &&& in_group(t, group)
    &&& match s {
        Step::Pair(_, j) => j < c.manifest.tensors@.len() && c.manifest.tensors@[j as int].name@
            == t.name@,
        Step::Missing(_) => !crate::bundle::entry_names(c.manifest.tensors@).contains(t.name@),
    }
}

/// A comparison has one step for each tensor of the golden bundle that belongs to the
/// group, in their order and for no others: the pair of it and the candidate's tensor of
/// the same name, or that the candidate has none of that name.
pub proof fn each_tensor_is_paired_by_name(g: Bundle, c: Bundle, group: Option<Seq<char>>, n: nat)
    requires
        c.wf(),
        n <= g.manifest.tensors@.len() <= usize::MAX,
    ensures
        forall|k: int|
            0 <= k < steps_for(g, c, group, n).len() ==> golden_number(
                #[trigger] steps_for(g, c, group, n)[k],
            ) < n && step_is_right(g, c, group, steps_for(g, c, group, n)[k]),
        forall|i: int|
            0 <= i < n && in_group(#[trigger] g.manifest.tensors@[i], group) ==> exists|k: int|
                0 <= k < steps_for(g, c, group, n).len() && golden_number(
                    #[trigger] steps_for(g, c, group, n)[k],
                ) == i,
        forall|a: int, b: int|
            0 <= a < b < steps_for(g, c, group, n).len() ==> golden_number(
                #[trigger] steps_for(g, c, group, n)[a],
            ) < golden_number(#[trigger] steps_for(g, c, group, n)[b]),
    decreases n,
{
    if n > 0 {
        let m = (n - 1) as nat;
        each_tensor_is_paired_by_name(g, c, group, m);
        let before = steps_for(g, c, group, m);
        let all = steps_for(g, c, group, n);
        let t = g.manifest.tensors@[n - 1];
        assert forall|k: int| 0 <= k < all.len() implies golden_number(#[trigger] all[k]) < n
            && step_is_right(g, c, group, all[k]) by {
            if k < before.len() {
                assert(all[k] == before[k]);
            } else {
                assert(golden_number(all[k]) == n - 1);
                if c.number(t.name@) is None && crate::bundle::entry_names(
                    c.manifest.tensors@,
                ).contains(t.name@) {
                    let j = choose|j: int|
                        0 <= j < c.manifest.tensors@.len() && crate::bundle::entry_names(
                            c.manifest.tensors@,
                        )[j] == t.name@;
                    assert(c.index@.contains_key(c.manifest.tensors@[j].name@));
                }
            }
        }
        assert forall|i: int|
            0 <= i < n && in_group(#[trigger] g.manifest.tensors@[i], group) implies exists|k: int|
            0 <= k < all.len() && golden_number(#[trigger] all[k]) == i by {
            if i < n - 1 {
                let k = choose|k: int|
                    0 <= k < before.len() && golden_number(#[trigger] before[k]) == i;
                assert(all[k] == before[k]);
            } else {
                assert(golden_number(all[before.len() as int]) == i);
            }
        }
        assert forall|a: int, b: int| 0 <= a < b < all.len() implies golden_number(
            #[trigger] all[a],
        ) < golden_number(#[trigger] all[b]) by {
            assert(all[a] == before[a]);
            if b < before.len() {
                assert(all[b] == before[b]);
            }
        }
    }
}

/// A tensor counts for its own group and for no other, wherever it stands.
pub proof fn each_tensor_counts_for_its_group(
    tensors: Seq<TensorEntry>,
    i: int,
    t: TensorEntry,
    group: Seq<char>,
)
    requires
        0 <= i <= tensors.len(),
    ensures
        group_total(Seq::<TensorEntry>::empty(), group) == (0nat, 0nat),
        group_total(tensors.insert(i, t), group) == (if t.group@ == group {
            (
                group_total(tensors, group).0 + 1,
                group_total(tensors, group).1 + t.nbytes as nat,
            )
        } else {
            group_total(tensors, group)
        }),
    decreases tensors.len(),
{
    let more = tensors.insert(i, t);
    if i == tensors.len() {
        assert(more.drop_last() =~= tensors);
    } else {
        assert(more.drop_last() =~= tensors.drop_last().insert(i, t));
        each_tensor_counts_for_its_group(tensors.drop_last(), i, t, group);
    }
}

} // verus!
