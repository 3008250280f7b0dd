//! Checking a layer against what a bundle records of it: what is compared with
//! what, in which order, and what the comparisons come to.
use crate::bundle::GreedyStep;
use crate::float_bits;
use crate::float_bits::{INFINITY, NOT_A_NUMBER};
use crate::loader;
use crate::loader::LayerCapture;
use crate::text;
use vstd::prelude::*;

verus! {

/// What a linear layer computes on its way.
#[derive(Debug, Clone, Copy, PartialEq, Eq, Structural)]
pub enum Field {
    InputLayernorm,
    InProjQkv,
    ConvIn,
    ConvOut,
    InProjZ,
    InProjB,
    InProjA,
    Q,
    K,
    V,
    G,
    Beta,
    DeltaOut,
    DeltaState,
    Norm,
    OutProj,
    PostAttentionLayernorm,
    GateProj,
    UpProj,
    SwigluProduct,
    DownProj,
    Out,
}

/// One comparison: what is computed, what it is called, and the tensor that records
/// it; a tensor that the layer does not have is not compared.
pub struct LayerStep {
    pub field: Field,
    pub label: String,
    pub name: Option<String>,
}

/// A comparison, as a mathematical value.
#[verifier::ext_equal]
pub struct StepSpec {
    pub field: Field,
    pub label: Seq<char>,
    pub name: Option<Seq<char>>,
}

impl View for LayerStep {
    type V = StepSpec;

    open spec fn view(&self) -> StepSpec {
        StepSpec {
            field: self.field,
            label: self.label@,
            name: loader::maybe_text(self.name),
        }
    }
}

/// A number of a comparison, at least two characters wide.
pub open spec fn padded(n: nat) -> Seq<char> {
    if n < 10 {
        " "@ + text::decimal(n)
    } else {
        text::decimal(n)
    }
}

/// The label of the `n`-th comparison.
pub open spec fn numbered(n: nat, label: Seq<char>) -> Seq<char> {
    padded(n) + ". "@ + label
}

/// The label of the `n`-th comparison.
pub fn numbered_label(n: u64, label: &str) -> (r: String)
    ensures
        r@ == numbered(n as nat, label@),
{
    let mut m: String = if n < 10 {
        " ".to_owned()
    } else {
        String::new()
    };
    text::push_decimal(&mut m, n);
    assert(m@ =~= padded(n as nat));
    m.append(". ");
    m.append(label);
    m
}

/// The `n`-th comparison.
pub open spec fn step(n: nat, field: Field, label: Seq<char>, name: Option<Seq<char>>) -> StepSpec {
    StepSpec { field, label: numbered(n, label), name }
}

fn make_step(n: u64, field: Field, label: &str, name: Option<String>) -> (r: LayerStep)
    ensures
        r@ == step(n as nat, field, label@, loader::maybe_text(name)),
{
    LayerStep { field, label: numbered_label(n, label), name }
}

/// The comparisons for a linear layer, in the order in which it computes.
#[verifier::opaque]
pub open spec fn linear_steps(c: LayerCapture) -> Seq<StepSpec> {
    seq![
        step(1, Field::InputLayernorm, "input_layernorm"@, Some(loader::module_name(c.layer as nat, "input_layernorm"@))),
        step(2, Field::InProjQkv, "in_proj_qkv"@, Some(loader::mixer_name(c.layer as nat, "in_proj_qkv"@))),
        step(3, Field::ConvIn, "conv input (channels-first)"@, c.conv_text("in"@)),
        step(4, Field::ConvOut, "conv + silu"@, c.conv_text("out"@)),
        step(5, Field::InProjZ, "in_proj_z"@, Some(loader::mixer_name(c.layer as nat, "in_proj_z"@))),
        step(6, Field::InProjB, "in_proj_b"@, Some(loader::mixer_name(c.layer as nat, "in_proj_b"@))),
        step(7, Field::InProjA, "in_proj_a"@, Some(loader::mixer_name(c.layer as nat, "in_proj_a"@))),
        step(8, Field::Q, "q (post-GQA)"@, c.delta_text("q"@)),
        step(9, Field::K, "k (post-GQA)"@, c.delta_text("k"@)),
        step(10, Field::V, "v"@, c.delta_text("v"@)),
        step(11, Field::G, "g (decay)"@, c.delta_text("g"@)),
        step(12, Field::Beta, "beta (gate)"@, c.delta_text("beta"@)),
        step(13, Field::DeltaOut, "delta rule out"@, c.delta_text("out"@)),
        step(14, Field::DeltaState, "delta rule state"@, c.delta_text("state"@)),
        step(15, Field::Norm, "gated norm"@, Some(loader::mixer_name(c.layer as nat, "norm"@))),
        step(16, Field::OutProj, "out_proj"@, Some(loader::mixer_name(c.layer as nat, "out_proj"@))),
        step(17, Field::OutProj, "linear_attn output"@, Some(loader::module_name(c.layer as nat, "linear_attn"@))),
        step(18, Field::PostAttentionLayernorm, "post_attention_layernorm"@, Some(loader::module_name(c.layer as nat, "post_attention_layernorm"@))),
        step(19, Field::GateProj, "mlp gate_proj"@, Some(loader::module_name(c.layer as nat, "mlp__gate_proj"@))),
        step(20, Field::UpProj, "mlp up_proj"@, Some(loader::module_name(c.layer as nat, "mlp__up_proj"@))),
        step(21, Field::SwigluProduct, "mlp swiglu product"@, Some(loader::module_name(c.layer as nat, "mlp__swiglu_product"@))),
        step(22, Field::DownProj, "mlp down_proj"@, Some(loader::module_name(c.layer as nat, "mlp__down_proj"@))),
        step(23, Field::DownProj, "mlp output"@, Some(loader::module_name(c.layer as nat, "mlp"@))),
        step(24, Field::Out, "layer output (both residuals)"@, Some("model__layers__"@ + text::decimal(c.layer as nat))),
    ]
}

/// The views of comparisons.
pub open spec fn step_views(s: Seq<LayerStep>) -> Seq<StepSpec> {
    Seq::new(s.len(), |i: int| s[i]@)
}

/// The comparisons for a linear layer.
pub fn layer_steps(c: &LayerCapture) -> (r: Vec<LayerStep>)
    ensures
        step_views(r@) == linear_steps(*c),
{
    let mut out: Vec<LayerStep> = Vec::new();
    out.push(make_step(1, Field::InputLayernorm, "input_layernorm", Some(c.input_layernorm())));
    out.push(make_step(2, Field::InProjQkv, "in_proj_qkv", Some(c.in_proj_qkv())));
    out.push(make_step(3, Field::ConvIn, "conv input (channels-first)", c.conv_in()));
    out.push(make_step(4, Field::ConvOut, "conv + silu", c.conv_out()));
    out.push(make_step(5, Field::InProjZ, "in_proj_z", Some(c.in_proj_z())));
    out.push(make_step(6, Field::InProjB, "in_proj_b", Some(c.in_proj_b())));
    out.push(make_step(7, Field::InProjA, "in_proj_a", Some(c.in_proj_a())));
    out.push(make_step(8, Field::Q, "q (post-GQA)", c.delta_operand("q")));
    out.push(make_step(9, Field::K, "k (post-GQA)", c.delta_operand("k")));
    out.push(make_step(10, Field::V, "v", c.delta_operand("v")));
    out.push(make_step(11, Field::G, "g (decay)", c.delta_operand("g")));
    out.push(make_step(12, Field::Beta, "beta (gate)", c.delta_operand("beta")));
    out.push(make_step(13, Field::DeltaOut, "delta rule out", c.delta_out()));
    out.push(make_step(14, Field::DeltaState, "delta rule state", c.delta_state()));
    out.push(make_step(15, Field::Norm, "gated norm", Some(c.mixer_norm())));
    out.push(make_step(16, Field::OutProj, "out_proj", Some(c.out_proj())));
    out.push(make_step(17, Field::OutProj, "linear_attn output", Some(c.linear_attn())));
    out.push(make_step(18, Field::PostAttentionLayernorm, "post_attention_layernorm", Some(c.post_attention_layernorm())));
    out.push(make_step(19, Field::GateProj, "mlp gate_proj", Some(c.mlp_gate_proj())));
    out.push(make_step(20, Field::UpProj, "mlp up_proj", Some(c.mlp_up_proj())));
    out.push(make_step(21, Field::SwigluProduct, "mlp swiglu product", Some(c.mlp_swiglu())));
    out.push(make_step(22, Field::DownProj, "mlp down_proj", Some(c.mlp_down_proj())));
    out.push(make_step(23, Field::DownProj, "mlp output", Some(c.mlp())));
    out.push(make_step(24, Field::Out, "layer output (both residuals)", Some(c.layer_out())));
    proof {
        reveal(linear_steps);
        assert(step_views(out@) =~= linear_steps(*c));
    }
    out
}

/// What a comparison came to. The errors are the bits of numbers.
pub struct Outcome {
    pub label: String,
    pub abs: u32,
    pub rel: u32,
    pub ok: bool,
    /// There was nothing to compare with.
    pub missing: bool,
}

impl Outcome {
    /// A comparison that the layer does not have.
    pub fn not_applicable(label: String) -> (r: Outcome)
        ensures
            r.label == label && r.ok && r.missing && r.abs == NOT_A_NUMBER && r.rel
                == NOT_A_NUMBER,
    {
        Outcome { label, abs: NOT_A_NUMBER, rel: NOT_A_NUMBER, ok: true, missing: true }
    }

    /// A comparison with a tensor that should be there and cannot be read.
    pub fn unreadable(label: &str, name: &str, why: &str) -> (r: Outcome)
        ensures
            r.label@ == label@ + " MISSING "@ + name@ + " ("@ + why@ + ")"@,
            !r.ok && !r.missing && r.abs == INFINITY && r.rel == INFINITY,
    {
        let mut m: String = label.to_owned();
        m.append(" MISSING ");
        m.append(name);
        m.append(" (");
        m.append(why);
        m.append(")");
        Outcome { label: m, abs: INFINITY, rel: INFINITY, ok: false, missing: false }
    }

    /// A comparison of tensors of different lengths.
    pub fn wrong_length(label: &str, mine: usize, golden: usize) -> (r: Outcome)
        ensures
            r.label@ == label@ + " SHAPE mine="@ + text::decimal(mine as nat) + " golden="@
                + text::decimal(golden as nat),
            !r.ok && !r.missing && r.abs == INFINITY && r.rel == INFINITY,
    {
        let mut m: String = label.to_owned();
        m.append(" SHAPE mine=");
        text::push_decimal(&mut m, mine as u64);
        m.append(" golden=");
        text::push_decimal(&mut m, golden as u64);
        Outcome { label: m, abs: INFINITY, rel: INFINITY, ok: false, missing: false }
    }

    /// A comparison of tensors of one length: it passes if the largest error is
    /// within the tolerance.
    pub fn measured(label: String, abs: u32, rel: u32, tolerance: u32) -> (r: Outcome)
        ensures
            r.label == label && !r.missing && r.abs == abs && r.rel == rel,
            r.ok == float_bits::at_most(abs, tolerance),
    {
        Outcome { label, abs, rel, ok: float_bits::no_more_than(abs, tolerance), missing: false }
    }
}

/// The comparison was made and failed.
pub open spec fn is_failure(o: Outcome) -> bool {
    !o.ok && !o.missing
}

/// How many of the comparisons failed.
pub open spec fn failures(s: Seq<Outcome>) -> nat
    decreases s.len(),
{
    if s.len() == 0 {
        0
    } else {
        failures(s.drop_last()) + (if is_failure(s.last()) {
            1nat
        } else {
            0
        })
    }
}

/// The first failed comparison from the `i`-th on.
pub open spec fn failure_from(s: Seq<Outcome>, i: int) -> Option<int>
    decreases s.len() - i,
{
    if i >= s.len() {
        None
    } else if is_failure(s[i]) {
        Some(i)
    } else {
        failure_from(s, i + 1)
    }
}

/// The comparison with the largest error among those that were made; the last of
/// them where several have it.
pub open spec fn worst_of(s: Seq<Outcome>) -> Option<int>
    decreases s.len(),
{
    if s.len() == 0 {
        None
    } else {
        let before = worst_of(s.drop_last());
        let last = s.len() - 1;
        if s.last().missing {
            before
        } else {
            match before {
                Some(k) => if float_bits::exceeds(s[k].abs, s[last].abs) {
                    Some(k)
                } else {
                    Some(last)
                },
                None => Some(last),
            }
        }
    }
}

/// The comparisons of one layer, in their order.
pub struct Checker {
    pub checks: Vec<Outcome>,
}

impl Checker {
    pub fn new() -> (r: Checker)
        ensures
            r.checks@.len() == 0,
    {
        Checker { checks: Vec::new() }
    }

    pub fn push(&mut self, o: Outcome)
        ensures
            final(self).checks@ == old(self).checks@.push(o),
    {
        self.checks.push(o);
    }

    /// How many comparisons failed.
    pub fn failed(&self) -> (r: usize)
        ensures
            r == failures(self.checks@),
            r <= self.checks@.len(),
    {
        let mut n: usize = 0;
        let mut i: usize = 0;
        assert(self.checks@.take(0) =~= Seq::empty());
        while i < self.checks.len()
            invariant
                i <= self.checks.len(),
                n <= i,
                n == failures(self.checks@.take(i as int)),
            decreases self.checks.len() - i,
        {
            proof {
                let next = self.checks@.take(i as int + 1);
                assert(next.drop_last() =~= self.checks@.take(i as int));
            }
            if !self.checks[i].ok && !self.checks[i].missing {
                n += 1;
            }
            i += 1;
        }
        assert(self.checks@.take(self.checks@.len() as int) =~= self.checks@);
        n
    }

    /// The first comparison that failed.
    pub fn first_failure(&self) -> (r: Option<usize>)
        ensures
            match failure_from(self.checks@, 0) {
                Some(k) => r is Some && r->Some_0 == k && 0 <= k < self.checks@.len(),
                None => r is None,
            },
    {
        let mut i: usize = 0;
        while i < self.checks.len()
            invariant
                i <= self.checks.len(),
                failure_from(self.checks@, 0) == failure_from(self.checks@, i as int),
            decreases self.checks.len() - i,
        {
            if !self.checks[i].ok && !self.checks[i].missing {
                return Some(i);
            }
            i += 1;
        }
        None
    }

    /// The comparison with the largest error.
    pub fn worst(&self) -> (r: Option<usize>)
        ensures
            match worst_of(self.checks@) {
                Some(k) => r is Some && r->Some_0 == k && 0 <= k < self.checks@.len(),
                None => r is None,
            },
    {
        let mut best: Option<usize> = None;
        let mut i: usize = 0;
        assert(self.checks@.take(0) =~= Seq::empty());
        while i < self.checks.len()
            invariant
                i <= self.checks.len(),
                match worst_of(self.checks@.take(i as int)) {
                    Some(k) => best is Some && best->Some_0 == k && 0 <= k < i,
                    None => best is None,
                },
            decreases self.checks.len() - i,
        {
            proof {
                let next = self.checks@.take(i as int + 1);
                assert(next.drop_last() =~= self.checks@.take(i as int));
            }
            if !self.checks[i].missing {
                best = match best {
                    Some(k) => if float_bits::greater_than(self.checks[k].abs, self.checks[i].abs) {
                        Some(k)
                    } else {
                        Some(i)
                    },
                    None => Some(i),
                };
            }
            i += 1;
        }
        assert(self.checks@.take(self.checks@.len() as int) =~= self.checks@);
        best
    }

    /// The error of the layer's output, which is compared last.
    pub fn out_abs(&self) -> (r: u32)
        ensures
            r == (if self.checks@.len() > 0 {
                self.checks@.last().abs
            } else {
                NOT_A_NUMBER
            }),
    {
        if self.checks.len() > 0 {
            self.checks[self.checks.len() - 1].abs
        } else {
            NOT_A_NUMBER
        }
    }

    /// What to say of the layer: the first failure, or else the worst comparison.
    pub fn describe(&self) -> (r: (String, u32))
        ensures
            match failure_from(self.checks@, 0) {
                Some(k) => r.0@ == "FAIL "@ + self.checks@[k].label@ && r.1
                    == self.checks@[k].abs,
                None => match worst_of(self.checks@) {
                    Some(k) => r.0@ == "worst: "@ + self.checks@[k].label@ && r.1
                        == self.checks@[k].abs,
                    None => r.0@ == "(nothing compared)"@ && r.1 == NOT_A_NUMBER,
                },
            },
    {
        match self.first_failure() {
            Some(k) => {
                let mut m: String = "FAIL ".to_owned();
                m.append(self.checks[k].label.as_str());
                (m, self.checks[k].abs)
            },
            None => match self.worst() {
                Some(k) => {
                    let mut m: String = "worst: ".to_owned();
                    m.append(self.checks[k].label.as_str());
                    (m, self.checks[k].abs)
                },
                None => ("(nothing compared)".to_owned(), NOT_A_NUMBER),
            },
        }
    }
}

proof fn failures_found(s: Seq<Outcome>, i: int)
    requires
        0 <= i <= s.len(),
    ensures
        failure_from(s, i) is None ==> forall|k: int| i <= k < s.len() ==> !is_failure(#[trigger] s[k]),
        failure_from(s, i) matches Some(k) ==> i <= k < s.len() && is_failure(s[k]) && forall|j: int|
            i <= j < k ==> !is_failure(#[trigger] s[j]),
    decreases s.len() - i,
{
    if i < s.len() && !is_failure(s[i]) {
        failures_found(s, i + 1);
    }
}

proof fn failures_counted(s: Seq<Outcome>)
    ensures
        failures(s) == 0 <==> forall|k: int| 0 <= k < s.len() ==> !is_failure(#[trigger] s[k]),
    decreases s.len(),
{
    if s.len() > 0 {
        let d = s.drop_last();
        failures_counted(d);
        if failures(s) == 0 {
            assert forall|k: int| 0 <= k < s.len() implies !is_failure(#[trigger] s[k]) by {
                if k < d.len() {
                    assert(d[k] == s[k]);
                }
            }
        }
        if forall|k: int| 0 <= k < s.len() ==> !is_failure(#[trigger] s[k]) {
            assert forall|k: int| 0 <= k < d.len() implies !is_failure(#[trigger] d[k]) by {
                assert(d[k] == s[k]);
            }
            assert(!is_failure(s[s.len() - 1]));
        }
    }
}

/// A layer has a first failure exactly when the number of failures is not zero.
pub proof fn a_failure_is_reported(s: Seq<Outcome>)
    ensures
        failures(s) > 0 <==> failure_from(s, 0) is Some,
        failure_from(s, 0) matches Some(k) ==> 0 <= k < s.len() && is_failure(s[k]) && forall|j: int|
            0 <= j < k ==> !is_failure(#[trigger] s[j]),
{
    failures_found(s, 0);
    failures_counted(s);
}

/// Every step generated the token that is recorded for it.
pub open spec fn tokens_recorded(generated: Seq<u32>, steps: Seq<GreedyStep>) -> bool {
    forall|k: int| 0 <= k < steps.len() ==> generated[k] == (#[trigger] steps[k]).argmax_token
}

/// Whether a greedy decoding is the recorded one: each token is, the largest error of
/// the logits does not exceed the tolerance, and prompt and tokens together are the
/// recorded sequence.
pub fn judge_trace(
    prompt: &[u32],
    generated: &[u32],
    steps: &[GreedyStep],
    final_ids: &[u32],
    worst: u32,
    tol: u32,
) -> (r: bool)
    requires
        steps@.len() <= generated@.len(),
    ensures
        r == (tokens_recorded(generated@, steps@) && !float_bits::exceeds(worst, tol) && prompt@
            + generated@ == final_ids@),
{
    let mut i: usize = 0;
    while i < steps.len()
        invariant
            i <= steps.len() <= generated.len(),
            forall|k: int|
                0 <= k < i ==> generated@[k] == (#[trigger] steps@[k]).argmax_token,
        decreases steps.len() - i,
    {
        if generated[i] != steps[i].argmax_token {
            assert(generated@[i as int] != steps@[i as int].argmax_token);
            return false;
        }
        i += 1;
    }
    if float_bits::greater_than(worst, tol) {
        return false;
    }
    let ghost all = prompt@ + generated@;
    let n: usize = final_ids.len();
    if n < prompt.len() || n - prompt.len() != generated.len() {
        assert(all.len() != final_ids@.len());
        return false;
    }
    let mut j: usize = 0;
    while j < n
        invariant
            j <= n,
            n == final_ids.len(),
            n == prompt.len() + generated.len(),
            all == prompt@ + generated@,
            forall|k: int| 0 <= k < j ==> all[k] == final_ids@[k],
        decreases n - j,
    {
        let mine: u32 = if j < prompt.len() {
            prompt[j]
        } else {
            generated[j - prompt.len()]
        };
        assert(mine == all[j as int]);
        if mine != final_ids[j] {
            return false;
        }
        j += 1;
    }
    assert(all =~= final_ids@);
    true
}

/// How many comparisons failed is how many are left when the others are taken out.
pub proof fn failures_are_counted(s: Seq<Outcome>)
    ensures
        failures(s) == s.filter(|o: Outcome| !o.ok && !o.missing).len(),
    decreases s.len(),
{
    reveal(Seq::filter);
    if s.len() > 0 {
        failures_are_counted(s.drop_last());
    }
}

/// The worst comparison is one that was made, none that was made has a larger error, and
/// those after it have smaller ones; there is none exactly if none was made.
pub proof fn worst_has_the_largest_error(s: Seq<Outcome>)
    requires
        forall|i: int|
            0 <= i < s.len() && !(#[trigger] s[i]).missing ==> float_bits::is_finite_bits(s[i].abs),
    ensures
        match worst_of(s) {
            Some(k) => {
                &&& 0 <= k < s.len() && !s[k].missing
                &&& forall|i: int|
                    0 <= i < s.len() && !(#[trigger] s[i]).missing ==> float_bits::single_value(
                        s[i].abs,
                    ) <= float_bits::single_value(s[k].abs)
                &&& forall|i: int|
                    k < i < s.len() && !(#[trigger] s[i]).missing ==> float_bits::single_value(
                        s[i].abs,
                    ) < float_bits::single_value(s[k].abs)
            },
            None => forall|i: int| 0 <= i < s.len() ==> (#[trigger] s[i]).missing,
        },
    decreases s.len(),
{
    if s.len() > 0 {
        let d = s.drop_last();
        let last = s.len() - 1;
        assert forall|i: int| 0 <= i < d.len() && !(#[trigger] d[i]).missing implies
            float_bits::is_finite_bits(d[i].abs) by {
            assert(d[i] == s[i]);
        }
        worst_has_the_largest_error(d);
        assert(s[last] == s.last());
        assert(forall|i: int| 0 <= i < d.len() ==> d[i] == s[i]);
        match worst_of(d) {
            Some(k) => {
                assert(s[k] == d[k]);
                if !s[last].missing {
                    float_bits::comparing_is_by_value(s[k].abs, s[last].abs);
                }
                assert forall|i: int| 0 <= i < s.len() && !(#[trigger] s[i]).missing implies
                    float_bits::single_value(s[i].abs) <= float_bits::single_value(
                    s[worst_of(s)->Some_0].abs,
                ) by {
                    if i < last {
                        assert(d[i] == s[i]);
                    }
                }
                assert forall|i: int|
                    worst_of(s)->Some_0 < i < s.len() && !(#[trigger] s[i]).missing implies
                    float_bits::single_value(s[i].abs) < float_bits::single_value(
                    s[worst_of(s)->Some_0].abs,
                ) by {
                    if i < last {
                        assert(d[i] == s[i]);
                    }
                }
            },
            None => {
                assert forall|i: int| 0 <= i < last implies (#[trigger] s[i]).missing by {
                    assert(d[i] == s[i]);
                }
            },
        }
    }
}

/// The tensor that records what a linear layer computes there: `part` of a module, of
/// the linear attention, of the convolution, or of the delta rule.
pub open spec fn records(s: StepSpec, c: LayerCapture) -> bool {
    let l = "model__layers__"@ + text::decimal(c.layer as nat);
    let of = |part: Seq<char>| s.name == Some(l + "__"@ + part);
    let mixer = |part: Seq<char>| s.name == Some(l + "__linear_attn__"@ + part);
    let conv = |part: Seq<char>|
        s.name == (match c.ssm {
            Some(k) => Some("causal_conv1d_fn_call"@ + text::decimal(k as nat) + "_"@ + part),
            None => None,
        });
    let delta = |part: Seq<char>|
        s.name == (match c.ssm {
            Some(k) => Some(
                "delta_torch_chunk_gated_delta_rule_"@ + text::decimal(k as nat) + "__"@ + part,
            ),
            None => None,
        });
    match s.field {
        Field::InputLayernorm => of("input_layernorm"@),
        Field::InProjQkv => mixer("in_proj_qkv"@),
        Field::ConvIn => conv("in"@),
        Field::ConvOut => conv("out"@),
        Field::InProjZ => mixer("in_proj_z"@),
        Field::InProjB => mixer("in_proj_b"@),
        Field::InProjA => mixer("in_proj_a"@),
        Field::Q => delta("q"@),
        Field::K => delta("k"@),
        Field::V => delta("v"@),
        Field::G => delta("g"@),
        Field::Beta => delta("beta"@),
        Field::DeltaOut => delta("out"@),
        Field::DeltaState => delta("state"@),
        Field::Norm => mixer("norm"@),
        Field::OutProj => mixer("out_proj"@) || of("linear_attn"@),
        Field::PostAttentionLayernorm => of("post_attention_layernorm"@),
        Field::GateProj => of("mlp__gate_proj"@),
        Field::UpProj => of("mlp__up_proj"@),
        Field::SwigluProduct => of("mlp__swiglu_product"@),
        Field::DownProj => of("mlp__down_proj"@) || of("mlp"@),
        Field::Out => s.name == Some(l),
    }
}

/// Some comparison is of the field.
pub open spec fn has_field(s: Seq<StepSpec>, f: Field) -> bool {
    exists|i: int| 0 <= i < s.len() && (#[trigger] s[i]).field == f
}

/// A linear layer is compared with its records: every field with the tensor that records
/// that field, each field at least once, the output last, and the comparisons are
/// numbered from one.
pub proof fn each_field_is_compared_with_its_record(c: LayerCapture, f: Field)
    ensures
        forall|i: int|
            0 <= i < linear_steps(c).len() ==> records(#[trigger] linear_steps(c)[i], c),
        forall|i: int|
            0 <= i < linear_steps(c).len() ==> text::starts_with(
                (#[trigger] linear_steps(c)[i]).label,
                padded((i + 1) as nat) + ". "@,
            ),
        has_field(linear_steps(c), f),
        linear_steps(c).len() == 24,
        linear_steps(c).last().field == Field::Out,
{
    reveal(linear_steps);
    let s = linear_steps(c);
    assert forall|i: int| 0 <= i < s.len() implies text::starts_with(
        (#[trigger] s[i]).label,
        padded((i + 1) as nat) + ". "@,
    ) by {
        let front = padded((i + 1) as nat) + ". "@;
        assert(s[i].label.subrange(0, front.len() as int) =~= front);
    }
    assert(s[0].field == Field::InputLayernorm && s[1].field == Field::InProjQkv && s[2].field
        == Field::ConvIn && s[3].field == Field::ConvOut && s[4].field == Field::InProjZ
        && s[5].field == Field::InProjB && s[6].field == Field::InProjA && s[7].field == Field::Q);
    assert(s[8].field == Field::K && s[9].field == Field::V && s[10].field == Field::G
        && s[11].field == Field::Beta && s[12].field == Field::DeltaOut && s[13].field
        == Field::DeltaState && s[14].field == Field::Norm && s[15].field == Field::OutProj);
    assert(s[17].field == Field::PostAttentionLayernorm && s[18].field == Field::GateProj
        && s[19].field == Field::UpProj && s[20].field == Field::SwigluProduct && s[21].field
        == Field::DownProj && s[23].field == Field::Out);
}

} // verus!
