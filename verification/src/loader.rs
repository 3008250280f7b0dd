//! Reading a model's sizes and weights from a bundle, and the names under which
//! it records a layer's intermediates.
//!
//! The convolution and the delta rule are recorded by position among the linear
//! layers, not by layer: [`LayerCapture`] is the one place where that mapping
//! lives.
use crate::bundle::{Bundle, TensorEntry};
use crate::checkpoint;
use crate::gdn::{GdnConfig, GdnWeights};
use crate::json;
use crate::layer::{LayerWeights, MlpWeights};
use crate::text;
use vstd::prelude::*;
use vstd::string::*;

verus! {

/// The bits of the double nearest to a millionth, the epsilon when none is given.
pub const DEFAULT_EPS: u64 = 0x3EB0_C6F7_A0B5_ED8D;

/// Sizes and settings that all layers share.
pub struct ModelInfo {
    pub b: u64,
    pub t: u64,
    pub hidden: u64,
    pub intermediate: u64,
    pub num_layers: usize,
    /// One entry for each layer.
    pub layer_types: Vec<String>,
    /// The bits of a double.
    pub eps: u64,
    /// The bits of a double.
    pub ssm_gain: u64,
    pub gdn: GdnConfig<u64>,
}

/// The type of a layer.
pub open spec fn type_at(types: Seq<Seq<char>>, layer: int) -> Seq<char> {
    if 0 <= layer < types.len() {
        types[layer]
    } else {
        "unknown"@
    }
}

pub open spec fn linear_at(types: Seq<Seq<char>>, layer: int) -> bool {
    type_at(types, layer) == "linear_attention"@
}

/// The linear layers among the first `n`, in their order.
pub open spec fn linear_layers(types: Seq<Seq<char>>, n: nat) -> Seq<int>
    decreases n,
{
    if n == 0 {
        Seq::empty()
    } else {
        let before = linear_layers(types, (n - 1) as nat);
        if linear_at(types, n - 1) {
            before.push(n - 1)
        } else {
            before
        }
    }
}

/// Splits ascending numbers where one does not follow the one before it.
pub open spec fn consecutive_runs(s: Seq<int>) -> Seq<Seq<int>>
    decreases s.len(),
{
    if s.len() == 0 {
        Seq::empty()
    } else {
        let before = consecutive_runs(s.drop_last());
        let l = s.last();
        if before.len() > 0 && before.last().len() > 0 && before.last().last() == l - 1 {
            before.drop_last().push(before.last().push(l))
        } else {
            before.push(seq![l])
        }
    }
}

pub open spec fn numbers(s: Seq<usize>) -> Seq<int> {
    Seq::new(s.len(), |i: int| s[i] as int)
}

pub open spec fn number_lists(s: Seq<Vec<usize>>) -> Seq<Seq<int>> {
    Seq::new(s.len(), |i: int| numbers(s[i]@))
}

/// All elements of the lists, one after another.
pub open spec fn flattened(s: Seq<Seq<int>>) -> Seq<int>
    decreases s.len(),
{
    if s.len() == 0 {
        Seq::empty()
    } else {
        flattened(s.drop_last()) + s.last()
    }
}

/// Each number is the one before it plus one.
pub open spec fn is_run(s: Seq<int>) -> bool {
    s.len() > 0 && forall|i: int| 0 <= i < s.len() ==> #[trigger] s[i] == s[0] + i
}

/// The runs together are the numbers, each is consecutive, and none could be joined
/// to the next.
pub proof fn runs_partition(s: Seq<int>)
    requires
        forall|i: int, j: int| 0 <= i < j < s.len() ==> #[trigger] s[i] < #[trigger] s[j],
    ensures
        ({
            let r = consecutive_runs(s);
            &&& flattened(r) == s
            &&& forall|k: int| 0 <= k < r.len() ==> is_run(#[trigger] r[k])
            &&& forall|k: int| 0 < k < r.len() ==> r[k - 1].last() + 1 < (#[trigger] r[k])[0]
            &&& s.len() > 0 ==> r.len() > 0 && r.last().len() > 0 && r.last().last() == s.last()
        }),
    decreases s.len(),
{
    let r = consecutive_runs(s);
    if s.len() == 0 {
        assert(flattened(r) =~= s);
    } else {
        let d = s.drop_last();
        let l = s.last();
        let before = consecutive_runs(d);
        assert forall|i: int, j: int| 0 <= i < j < d.len() implies #[trigger] d[i] < #[trigger] d[j] by {
            assert(d[i] == s[i] && d[j] == s[j]);
        }
        runs_partition(d);
        assert(s[s.len() - 1] == l);
        if before.len() > 0 && before.last().len() > 0 && before.last().last() == l - 1 {
            let last = before.len() - 1;
            let grown = before.last().push(l);
            assert(r.drop_last() =~= before.drop_last());
            assert(r.last() == grown);
            assert(flattened(before) == flattened(before.drop_last()) + before.last());
            assert(flattened(r) =~= flattened(before).push(l));
            assert(is_run(before[last]));
            assert(is_run(grown));
            assert forall|k: int| 0 <= k < r.len() implies is_run(#[trigger] r[k]) by {
                if k < last {
                    assert(r[k] == before[k]);
                }
            }
            assert forall|k: int| 0 < k < r.len() implies r[k - 1].last() + 1 < (#[trigger] r[k])[0] by {
                assert(r[k - 1] == before[k - 1]);
                assert(before[k - 1].last() + 1 < before[k][0]);
            }
        } else {
            assert(r.drop_last() =~= before);
            assert(flattened(r) =~= flattened(before).push(l));
            assert forall|k: int| 0 <= k < r.len() implies is_run(#[trigger] r[k]) by {
                if k < before.len() {
                    assert(r[k] == before[k]);
                }
            }
            assert forall|k: int| 0 < k < r.len() implies r[k - 1].last() + 1 < (#[trigger] r[k])[0] by {
                assert(r[k - 1] == before[k - 1]);
                if k < before.len() {
                    assert(r[k] == before[k]);
                } else {
                    assert(d.len() > 0);
                    assert(before.last().last() == d.last());
                    assert(d.last() == s[s.len() - 2]);
                }
            }
        }
        assert(s =~= d.push(l));
    }
}

/// The linear layers ascend, lie among the first `n`, and are all of them.
pub proof fn linear_layers_are_all(types: Seq<Seq<char>>, n: nat)
    ensures
        ({
            let s = linear_layers(types, n);
            &&& s.len() <= n
            &&& forall|i: int, j: int| 0 <= i < j < s.len() ==> #[trigger] s[i] < #[trigger] s[j]
            &&& forall|i: int|
                0 <= i < s.len() ==> 0 <= #[trigger] s[i] < n && linear_at(types, s[i])
            &&& forall|l: int| 0 <= l < n && linear_at(types, l) ==> #[trigger] s.contains(l)
        }),
    decreases n,
{
    if n > 0 {
        linear_layers_are_all(types, (n - 1) as nat);
        let before = linear_layers(types, (n - 1) as nat);
        let s = linear_layers(types, n);
        assert forall|l: int| 0 <= l < n && linear_at(types, l) implies #[trigger] s.contains(l) by {
            if l == n - 1 {
                assert(s[before.len() as int] == l);
            } else {
                assert(before.contains(l));
                let i = choose|i: int| 0 <= i < before.len() && before[i] == l;
                assert(s[i] == l);
            }
        }
    }
}

/// The layer at position `k` among the linear layers has the ordinal `k`.
pub proof fn ordinals_number_the_linear_layers(types: Seq<Seq<char>>, n: nat, k: int)
    requires
        0 <= k < linear_layers(types, n).len(),
    ensures
        linear_layers(types, linear_layers(types, n)[k] as nat).len() == k,
    decreases n,
{
    if n > 0 {
        let before = linear_layers(types, (n - 1) as nat);
        linear_layers_are_all(types, n);
        if k < before.len() {
            assert(linear_layers(types, n)[k] == before[k]);
            ordinals_number_the_linear_layers(types, (n - 1) as nat, k);
        }
    }
}

/// The tensor that holds a layer's input.
pub open spec fn input_of(layer: nat) -> Seq<char> {
    if layer == 0 {
        "model__embed_tokens"@
    } else {
        "model__layers__"@ + text::decimal((layer - 1) as nat)
    }
}

impl ModelInfo {
    pub open spec fn types(&self) -> Seq<Seq<char>> {
        text::views(self.layer_types@)
    }

    /// The type of a layer.
    pub fn layer_type(&self, layer: usize) -> (r: &str)
        ensures
            r@ == type_at(self.types(), layer as int),
    {
        if layer < self.layer_types.len() {
            self.layer_types[layer].as_str()
        } else {
            "unknown"
        }
    }

    /// Whether a layer is a linear-attention layer.
    pub fn is_linear(&self, layer: usize) -> (r: bool)
        ensures
            r == linear_at(self.types(), layer as int),
    {
        text::str_eq(self.layer_type(layer), "linear_attention")
    }

    /// The position of a layer among the linear-attention layers; none for another
    /// layer.
    pub fn ssm_ordinal(&self, layer: usize) -> (r: Option<usize>)
        ensures
            match r {
                Some(k) => linear_at(self.types(), layer as int) && k == linear_layers(
                    self.types(),
                    layer as nat,
                ).len(),
                None => !linear_at(self.types(), layer as int),
            },
    {
        if !self.is_linear(layer) {
            return None;
        }
        Some(self.count_linear(layer))
    }

    fn count_linear(&self, n: usize) -> (r: usize)
        ensures
            r == linear_layers(self.types(), n as nat).len(),
            r <= n,
    {
        let mut count: usize = 0;
        let mut l: usize = 0;
        while l < n
            invariant
                l <= n,
                count == linear_layers(self.types(), l as nat).len(),
                count <= l,
            decreases n - l,
        {
            if self.is_linear(l) {
                count += 1;
            }
            l += 1;
        }
        count
    }

    /// The tensor that holds a layer's input: the embedding for the first layer, the
    /// output of the layer before for any other.
    pub fn input_name(&self, layer: usize) -> (r: String)
        ensures
            r@ == input_of(layer as nat),
    {
        if layer == 0 {
            return "model__embed_tokens".to_owned();
        }
        let mut s: String = "model__layers__".to_owned();
        text::push_decimal(&mut s, (layer - 1) as u64);
        s
    }

    /// The linear layers, in their order.
    pub fn verifiable_layers(&self) -> (r: Vec<usize>)
        ensures
            numbers(r@) == linear_layers(self.types(), self.num_layers as nat),
    {
        let mut out: Vec<usize> = Vec::new();
        let mut l: usize = 0;
        assert(numbers(out@) =~= Seq::empty());
        while l < self.num_layers
            invariant
                l <= self.num_layers,
                numbers(out@) == linear_layers(self.types(), l as nat),
            decreases self.num_layers - l,
        {
            if self.is_linear(l) {
                let ghost before = numbers(out@);
                out.push(l);
                assert(numbers(out@) =~= before.push(l as int));
            }
            l += 1;
        }
        out
    }

    /// The longest runs of linear layers that follow each other.
    pub fn runs(&self) -> (r: Vec<Vec<usize>>)
        ensures
            number_lists(r@) == consecutive_runs(
                linear_layers(self.types(), self.num_layers as nat),
            ),
    {
        let layers: Vec<usize> = self.verifiable_layers();
        let ghost all = numbers(layers@);
        let mut out: Vec<Vec<usize>> = Vec::new();
        let mut i: usize = 0;
        assert(all.take(0) =~= Seq::empty());
        assert(number_lists(out@) =~= Seq::empty());
        while i < layers.len()
            invariant
                i <= layers.len(),
                all == numbers(layers@),
                number_lists(out@) == consecutive_runs(all.take(i as int)),
            decreases layers.len() - i,
        {
            let l: usize = layers[i];
            proof {
                let next = all.take(i as int + 1);
                assert(next.drop_last() =~= all.take(i as int));
                assert(next.last() == l);
            }
            let ghost before = number_lists(out@);
            let n: usize = out.len();
            let mut joined: bool = false;
            if n > 0 {
                assert(before.last() == numbers(out@[n as int - 1]@));
                let m: usize = out[n - 1].len();
                if m > 0 && l > 0 && out[n - 1][m - 1] == l - 1 {
                    assert(before.last().last() == l - 1);
                    let mut run: Vec<usize> = match out.pop() {
                        Some(run) => run,
                        None => Vec::new(),
                    };
                    let ghost shorter = number_lists(out@);
                    assert(shorter =~= before.drop_last());
                    run.push(l);
                    assert(numbers(run@) =~= before.last().push(l as int));
                    out.push(run);
                    assert(number_lists(out@) =~= before.drop_last().push(
                        before.last().push(l as int),
                    ));
                    joined = true;
                } else {
                    assert(m > 0 ==> before.last().last() == out@[n as int - 1]@[m as int - 1]);
                }
            }
            if !joined {
                let mut run: Vec<usize> = Vec::new();
                run.push(l);
                assert(numbers(run@) =~= seq![l as int]);
                out.push(run);
                assert(number_lists(out@) =~= before.push(seq![l as int]));
            }
            i += 1;
        }
        assert(all.take(all.len() as int) =~= all);
        out
    }

    /// The number of linear layers and of the others.
    pub fn counts(&self) -> (r: (usize, usize))
        ensures
            r.0 == linear_layers(self.types(), self.num_layers as nat).len(),
            r.0 + r.1 == self.num_layers,
    {
        let linear: usize = self.count_linear(self.num_layers);
        (linear, self.num_layers - linear)
    }
}

/// The name of a tensor of a module of a layer.
pub open spec fn module_name(layer: nat, part: Seq<char>) -> Seq<char> {
    "model__layers__"@ + text::decimal(layer) + "__"@ + part
}

/// The name of a tensor of a layer's linear attention.
pub open spec fn mixer_name(layer: nat, part: Seq<char>) -> Seq<char> {
    "model__layers__"@ + text::decimal(layer) + "__linear_attn__"@ + part
}

/// The name of what the convolution took or gave, by position among the linear
/// layers.
pub open spec fn conv_name(k: nat, part: Seq<char>) -> Seq<char> {
    "causal_conv1d_fn_call"@ + text::decimal(k) + "_"@ + part
}

/// The name of what the delta rule took or gave, by position among the linear
/// layers.
pub open spec fn delta_name(k: nat, part: Seq<char>) -> Seq<char> {
    "delta_torch_chunk_gated_delta_rule_"@ + text::decimal(k) + "__"@ + part
}

/// A text or none.
pub open spec fn maybe_text(s: Option<String>) -> Option<Seq<char>> {
    match s {
        Some(s) => Some(s@),
        None => None,
    }
}

/// The names under which a bundle records one layer.
///
/// What only a linear layer has is named by its position among the linear layers,
/// and has no name for another layer.
#[derive(Debug)]
pub struct LayerCapture {
    pub layer: usize,
    /// The position among the linear layers; none for another layer.
    pub ssm: Option<usize>,
}

impl LayerCapture {
    pub open spec fn conv_text(&self, part: Seq<char>) -> Option<Seq<char>> {
        match self.ssm {
            Some(k) => Some(conv_name(k as nat, part)),
            None => None,
        }
    }

    pub open spec fn delta_text(&self, part: Seq<char>) -> Option<Seq<char>> {
        match self.ssm {
            Some(k) => Some(delta_name(k as nat, part)),
            None => None,
        }
    }

    pub fn new(layer: usize, ssm: Option<usize>) -> (r: LayerCapture)
        ensures
            r.layer == layer,
            r.ssm == ssm,
    {
        LayerCapture { layer, ssm }
    }

    fn module(&self, part: &str) -> (r: String)
        ensures
            r@ == module_name(self.layer as nat, part@),
    {
        let mut s: String = "model__layers__".to_owned();
        text::push_decimal(&mut s, self.layer as u64);
        s.append("__");
        s.append(part);
        s
    }

    fn mixer(&self, part: &str) -> (r: String)
        ensures
            r@ == mixer_name(self.layer as nat, part@),
    {
        let mut s: String = "model__layers__".to_owned();
        text::push_decimal(&mut s, self.layer as u64);
        s.append("__linear_attn__");
        s.append(part);
        s
    }

    fn conv(&self, part: &str) -> (r: Option<String>)
        ensures
            maybe_text(r) == self.conv_text(part@),
    {
        match self.ssm {
            Some(k) => {
                let mut s: String = "causal_conv1d_fn_call".to_owned();
                text::push_decimal(&mut s, k as u64);
                s.append("_");
                s.append(part);
                Some(s)
            },
            None => None,
        }
    }

    fn delta(&self, part: &str) -> (r: Option<String>)
        ensures
            maybe_text(r) == self.delta_text(part@),
    {
        match self.ssm {
            Some(k) => {
                let mut s: String = "delta_torch_chunk_gated_delta_rule_".to_owned();
                text::push_decimal(&mut s, k as u64);
                s.append("__");
                s.append(part);
                Some(s)
            },
            None => None,
        }
    }

    /// The layer's output.
    pub fn layer_out(&self) -> (r: String)
        ensures
            r@ == "model__layers__"@ + text::decimal(self.layer as nat),
    {
        let mut s: String = "model__layers__".to_owned();
        text::push_decimal(&mut s, self.layer as u64);
        s
    }

    pub fn conv_in(&self) -> (r: Option<String>)
        ensures
            maybe_text(r) == self.conv_text("in"@),
    {
        self.conv("in")
    }

    pub fn conv_out(&self) -> (r: Option<String>)
        ensures
            maybe_text(r) == self.conv_text("out"@),
    {
        self.conv("out")
    }

    pub fn delta_operand(&self, operand: &str) -> (r: Option<String>)
        ensures
            maybe_text(r) == self.delta_text(operand@),
    {
        self.delta(operand)
    }

    pub fn delta_out(&self) -> (r: Option<String>)
        ensures
            maybe_text(r) == self.delta_text("out"@),
    {
        self.delta("out")
    }

    pub fn delta_state(&self) -> (r: Option<String>)
        ensures
            maybe_text(r) == self.delta_text("state"@),
    {
        self.delta("state")
    }

    pub fn input_layernorm(&self) -> (r: String)
        ensures
            r@ == module_name(self.layer as nat, "input_layernorm"@),
    {
        self.module("input_layernorm")
    }

    pub fn in_proj_qkv(&self) -> (r: String)
        ensures
            r@ == mixer_name(self.layer as nat, "in_proj_qkv"@),
    {
        self.mixer("in_proj_qkv")
    }

    pub fn in_proj_z(&self) -> (r: String)
        ensures
            r@ == mixer_name(self.layer as nat, "in_proj_z"@),
    {
        self.mixer("in_proj_z")
    }

    pub fn in_proj_b(&self) -> (r: String)
        ensures
            r@ == mixer_name(self.layer as nat, "in_proj_b"@),
    {
        self.mixer("in_proj_b")
    }

    pub fn in_proj_a(&self) -> (r: String)
        ensures
            r@ == mixer_name(self.layer as nat, "in_proj_a"@),
    {
        self.mixer("in_proj_a")
    }

    pub fn mixer_norm(&self) -> (r: String)
        ensures
            r@ == mixer_name(self.layer as nat, "norm"@),
    {
        self.mixer("norm")
    }

    pub fn out_proj(&self) -> (r: String)
        ensures
            r@ == mixer_name(self.layer as nat, "out_proj"@),
    {
        self.mixer("out_proj")
    }

    pub fn linear_attn(&self) -> (r: String)
        ensures
            r@ == module_name(self.layer as nat, "linear_attn"@),
    {
        self.module("linear_attn")
    }

    pub fn post_attention_layernorm(&self) -> (r: String)
        ensures
            r@ == module_name(self.layer as nat, "post_attention_layernorm"@),
    {
        self.module("post_attention_layernorm")
    }

    pub fn mlp_gate_proj(&self) -> (r: String)
        ensures
            r@ == module_name(self.layer as nat, "mlp__gate_proj"@),
    {
        self.module("mlp__gate_proj")
    }

    pub fn mlp_up_proj(&self) -> (r: String)
        ensures
            r@ == module_name(self.layer as nat, "mlp__up_proj"@),
    {
        self.module("mlp__up_proj")
    }

    pub fn mlp_swiglu(&self) -> (r: String)
        ensures
            r@ == module_name(self.layer as nat, "mlp__swiglu_product"@),
    {
        self.module("mlp__swiglu_product")
    }

    pub fn mlp_down_proj(&self) -> (r: String)
        ensures
            r@ == module_name(self.layer as nat, "mlp__down_proj"@),
    {
        self.module("mlp__down_proj")
    }

    pub fn mlp(&self) -> (r: String)
        ensures
            r@ == module_name(self.layer as nat, "mlp"@),
    {
        self.module("mlp")
    }

    pub fn w_input_layernorm(&self) -> (r: String)
        ensures
            r@ == module_name(self.layer as nat, "input_layernorm__weight"@),
    {
        self.module("input_layernorm__weight")
    }

    pub fn w_post_attention_layernorm(&self) -> (r: String)
        ensures
            r@ == module_name(self.layer as nat, "post_attention_layernorm__weight"@),
    {
        self.module("post_attention_layernorm__weight")
    }

    pub fn w_in_proj_qkv(&self) -> (r: String)
        ensures
            r@ == mixer_name(self.layer as nat, "in_proj_qkv__weight"@),
    {
        self.mixer("in_proj_qkv__weight")
    }

    pub fn w_in_proj_z(&self) -> (r: String)
        ensures
            r@ == mixer_name(self.layer as nat, "in_proj_z__weight"@),
    {
        self.mixer("in_proj_z__weight")
    }

    pub fn w_in_proj_b(&self) -> (r: String)
        ensures
            r@ == mixer_name(self.layer as nat, "in_proj_b__weight"@),
    {
        self.mixer("in_proj_b__weight")
    }

    pub fn w_in_proj_a(&self) -> (r: String)
        ensures
            r@ == mixer_name(self.layer as nat, "in_proj_a__weight"@),
    {
        self.mixer("in_proj_a__weight")
    }

    pub fn w_conv1d(&self) -> (r: String)
        ensures
            r@ == mixer_name(self.layer as nat, "conv1d__weight"@),
    {
        self.mixer("conv1d__weight")
    }

    pub fn w_a_log(&self) -> (r: String)
        ensures
            r@ == mixer_name(self.layer as nat, "A_log"@),
    {
        self.mixer("A_log")
    }

    pub fn w_dt_bias(&self) -> (r: String)
        ensures
            r@ == mixer_name(self.layer as nat, "dt_bias"@),
    {
        self.mixer("dt_bias")
    }

    pub fn w_norm(&self) -> (r: String)
        ensures
            r@ == mixer_name(self.layer as nat, "norm__weight"@),
    {
        self.mixer("norm__weight")
    }

    pub fn w_out_proj(&self) -> (r: String)
        ensures
            r@ == mixer_name(self.layer as nat, "out_proj__weight"@),
    {
        self.mixer("out_proj__weight")
    }

    pub fn w_gate_proj(&self) -> (r: String)
        ensures
            r@ == module_name(self.layer as nat, "mlp__gate_proj__weight"@),
    {
        self.module("mlp__gate_proj__weight")
    }

    pub fn w_up_proj(&self) -> (r: String)
        ensures
            r@ == module_name(self.layer as nat, "mlp__up_proj__weight"@),
    {
        self.module("mlp__up_proj__weight")
    }

    pub fn w_down_proj(&self) -> (r: String)
        ensures
            r@ == module_name(self.layer as nat, "mlp__down_proj__weight"@),
    {
        self.module("mlp__down_proj__weight")
    }
}

/// Texts that agree around two numerals have the same number there.
proof fn numeral_is_pinned(before: Seq<char>, a: nat, b: nat, after: Seq<char>)
    requires
        before + text::decimal(a) + after == before + text::decimal(b) + after,
    ensures
        a == b,
{
    let x = before + text::decimal(a) + after;
    let y = before + text::decimal(b) + after;
    let n = before.len() as int;
    let k = text::decimal(a).len() as int;
    assert(x.len() == n + text::decimal(a).len() + after.len());
    assert(y.len() == n + text::decimal(b).len() + after.len());
    assert(text::decimal(b).len() == k);
    assert(x.subrange(n, n + k) =~= text::decimal(a));
    assert(y.subrange(n, n + k) =~= text::decimal(b));
    text::decimal_is_injective(a, b);
}

/// Different layers have different names for the same part, and different
/// positions among the linear layers different names for the same operand.
pub proof fn capture_names_are_distinct(a: nat, b: nat, part: Seq<char>)
    requires
        a != b,
    ensures
        module_name(a, part) != module_name(b, part),
        mixer_name(a, part) != mixer_name(b, part),
        conv_name(a, part) != conv_name(b, part),
        delta_name(a, part) != delta_name(b, part),
{
    if module_name(a, part) == module_name(b, part) {
        let tail = "__"@ + part;
        let p = "model__layers__"@;
        assert(module_name(a, part) =~= p + text::decimal(a) + tail);
        assert(module_name(b, part) =~= p + text::decimal(b) + tail);
        numeral_is_pinned(p, a, b, tail);
    }
    if mixer_name(a, part) == mixer_name(b, part) {
        let tail = "__linear_attn__"@ + part;
        let p = "model__layers__"@;
        assert(mixer_name(a, part) =~= p + text::decimal(a) + tail);
        assert(mixer_name(b, part) =~= p + text::decimal(b) + tail);
        numeral_is_pinned(p, a, b, tail);
    }
    if conv_name(a, part) == conv_name(b, part) {
        let tail = "_"@ + part;
        let p = "causal_conv1d_fn_call"@;
        assert(conv_name(a, part) =~= p + text::decimal(a) + tail);
        assert(conv_name(b, part) =~= p + text::decimal(b) + tail);
        numeral_is_pinned(p, a, b, tail);
    }
    if delta_name(a, part) == delta_name(b, part) {
        let tail = "__"@ + part;
        let p = "delta_torch_chunk_gated_delta_rule_"@;
        assert(delta_name(a, part) =~= p + text::decimal(a) + tail);
        assert(delta_name(b, part) =~= p + text::decimal(b) + tail);
        numeral_is_pinned(p, a, b, tail);
    }
}

/// The layer whose output a tensor's name stands for, if it stands for one.
pub open spec fn output_layer(name: Seq<char>) -> Option<nat> {
    let p = "model__layers__"@;
    if text::starts_with(name, p) {
        let rest = name.subrange(p.len() as int, name.len() as int);
        if text::contains_text(rest, "__"@) {
            None
        } else {
            text::numeral(rest, (u64::MAX - 1) as nat)
        }
    } else {
        None
    }
}

/// One more than the largest layer whose output is among the names.
pub open spec fn layer_count(names: Seq<Seq<char>>) -> nat
    decreases names.len(),
{
    if names.len() == 0 {
        0
    } else {
        let before = layer_count(names.drop_last());
        match output_layer(names.last()) {
            Some(n) => if n + 1 > before {
                n + 1
            } else {
                before
            },
            None => before,
        }
    }
}

fn read_output_layer(name: &str) -> (r: Option<u64>)
    ensures
        output_layer(name@) == match r {
            Some(n) => Some(n as nat),
            None => None,
        },
        r is Some ==> r->Some_0 < u64::MAX,
{
    if !text::str_starts_with(name, "model__layers__") {
        return None;
    }
    let n: usize = "model__layers__".unicode_len();
    let all: usize = name.unicode_len();
    let rest: &str = name.substring_char(n, all);
    if text::str_contains(rest, "__") {
        return None;
    }
    text::parse_unsigned(rest, u64::MAX - 1)
}

fn count_layers(tensors: &Vec<TensorEntry>) -> (r: u64)
    ensures
        r == layer_count(crate::bundle::entry_names(tensors@)),
{
    let ghost all = crate::bundle::entry_names(tensors@);
    let mut count: u64 = 0;
    let mut i: usize = 0;
    assert(all.take(0) =~= Seq::empty());
    while i < tensors.len()
        invariant
            i <= tensors.len(),
            all == crate::bundle::entry_names(tensors@),
            count == layer_count(all.take(i as int)),
        decreases tensors.len() - i,
    {
        proof {
            let next = all.take(i as int + 1);
            assert(next.drop_last() =~= all.take(i as int));
            assert(next.last() == tensors@[i as int].name@);
        }
        match read_output_layer(tensors[i].name.as_str()) {
            Some(n) => {
                if n + 1 > count {
                    count = n + 1;
                }
            },
            None => {},
        }
        i += 1;
    }
    assert(all.take(all.len() as int) =~= all);
    count
}

/// The shape of a tensor of a bundle.
pub open spec fn shape_in(b: Bundle, name: Seq<char>) -> Option<Seq<u64>> {
    match b.number(name) {
        Some(i) => Some(b.manifest.tensors@[i as int].shape@),
        None => None,
    }
}

/// The first dimension of a tensor, zero where it has none.
pub open spec fn first_dim(b: Bundle, name: Seq<char>, fault: Seq<char>) -> Result<
    u64,
    Seq<char>,
> {
    match shape_in(b, name) {
        None => Err(fault),
        Some(shape) => Ok(
            if shape.len() == 0 {
                0
            } else {
                shape[0]
            },
        ),
    }
}

fn read_first_dim(b: &Bundle, name: &str, fault: &str) -> (r: Result<u64, String>)
    requires
        b.wf(),
    ensures
        checkpoint::result_view(r) == first_dim(*b, name@, fault@),
{
    match b.entry(name) {
        None => Err(fault.to_owned()),
        Some(e) => {
            if e.shape.len() == 0 {
                Ok(0)
            } else {
                Ok(e.shape[0])
            }
        },
    }
}

/// The last dimension of a tensor that has one.
pub open spec fn last_dim(b: Bundle, name: Seq<char>, fault: Seq<char>) -> Result<u64, Seq<char>> {
    match shape_in(b, name) {
        None => Err(fault),
        Some(shape) => if shape.len() == 0 {
            Err(fault)
        } else {
            Ok(shape.last())
        },
    }
}

fn read_last_dim(b: &Bundle, name: &str, fault: &str) -> (r: Result<u64, String>)
    requires
        b.wf(),
    ensures
        checkpoint::result_view(r) == last_dim(*b, name@, fault@),
{
    match b.entry(name) {
        None => Err(fault.to_owned()),
        Some(e) => {
            if e.shape.len() == 0 {
                Err(fault.to_owned())
            } else {
                Ok(e.shape[e.shape.len() - 1])
            }
        },
    }
}

/// A first dimension that is not zero.
pub open spec fn positive_dim(b: Bundle, name: Seq<char>, fault: Seq<char>) -> Result<
    u64,
    Seq<char>,
> {
    match first_dim(b, name, fault) {
        Ok(n) => if n > 0 {
            Ok(n)
        } else {
            Err(fault)
        },
        Err(e) => Err(e),
    }
}

fn read_positive_dim(b: &Bundle, name: &str, fault: &str) -> (r: Result<u64, String>)
    requires
        b.wf(),
    ensures
        checkpoint::result_view(r) == positive_dim(*b, name@, fault@),
{
    match read_first_dim(b, name, fault) {
        Ok(n) => {
            if n > 0 {
                Ok(n)
            } else {
                Err(fault.to_owned())
            }
        },
        Err(e) => Err(e),
    }
}

/// The types of the first `n` layers as the recorded modules tell them.
pub open spec fn types_by_module(b: Bundle, n: nat) -> Seq<Seq<char>> {
    Seq::new(
        n,
        |l: int|
            if shape_in(
                b,
                "model__layers__"@ + text::decimal(l as nat) + "__linear_attn"@,
            ) is Some {
                "linear_attention"@
            } else {
                "full_attention"@
            },
    )
}

/// The types of the layers: those of the config when it has enough of them, else
/// what the recorded modules tell.
pub open spec fn bundle_types(b: Bundle, n: nat) -> Seq<Seq<char>> {
    let listed = checkpoint::listed_types(b.manifest.config.tree());
    if listed.len() >= n {
        listed.take(n as int)
    } else {
        types_by_module(b, n)
    }
}

fn read_types(b: &Bundle, n: u64) -> (r: Vec<String>)
    requires
        b.wf(),
    ensures
        text::views(r@) == bundle_types(*b, n as nat),
        r@.len() == n,
{
    let listed: Vec<String> = checkpoint::layer_types(&b.manifest.config);
    let ghost all = text::views(listed@);
    assert(all.len() == listed@.len());
    let mut out: Vec<String> = Vec::new();
    if listed.len() as u64 >= n {
        let mut i: usize = 0;
        while (i as u64) < n
            invariant
                i <= n <= listed.len(),
                out.len() == i,
                forall|k: int| 0 <= k < i ==> (#[trigger] out@[k])@ == listed@[k]@,
            decreases n - i,
        {
            out.push(listed[i].clone());
            i += 1;
        }
        assert(text::views(out@) =~= all.take(n as int));
        return out;
    }
    let mut l: u64 = 0;
    while l < n
        invariant
            l <= n,
            b.wf(),
            out@.len() == l,
            text::views(out@) == types_by_module(*b, n as nat).take(l as int),
        decreases n - l,
    {
        let mut name: String = "model__layers__".to_owned();
        text::push_decimal(&mut name, l);
        name.append("__linear_attn");
        let ghost before = text::views(out@);
        if b.entry(name.as_str()).is_some() {
            out.push("linear_attention".to_owned());
        } else {
            out.push("full_attention".to_owned());
        }
        assert(text::views(out@) =~= before.push(types_by_module(*b, n as nat)[l as int]));
        assert(text::views(out@) =~= types_by_module(*b, n as nat).take(l as int + 1));
        l += 1;
    }
    assert(text::views(out@) =~= types_by_module(*b, n as nat));
    out
}

/// The sizes of the linear attention, in the order in which they are looked up.
pub open spec fn linear_sizes(b: Bundle, first: nat) -> Seq<Result<u64, Seq<char>>> {
    seq![
        first_dim(b, mixer_name(first, "in_proj_qkv__weight"@), "missing in_proj_qkv weight"@),
        first_dim(b, mixer_name(first, "in_proj_z__weight"@), "missing in_proj_z weight"@),
        first_dim(b, mixer_name(first, "in_proj_b__weight"@), "missing in_proj_b weight"@),
        first_dim(b, mixer_name(first, "norm__weight"@), "missing linear_attn norm weight"@),
        last_dim(b, mixer_name(first, "conv1d__weight"@), "missing conv1d weight"@),
        last_dim(
            b,
            "delta_torch_chunk_gated_delta_rule_0__q"@,
            "bundle has no delta-rule operand capture for the first linear layer; regenerating with the current generator is required"@,
        ),
    ]
}

fn read_linear_sizes(b: &Bundle, first: usize) -> (r: Result<Vec<u64>, String>)
    requires
        b.wf(),
    ensures
        match checkpoint::all_sizes(linear_sizes(*b, first as nat)) {
            Ok(v) => r is Ok && r->Ok_0@ == v && v.len() == 6,
            Err(e) => r is Err && r->Err_0@ == e,
        },
{
    let c: LayerCapture = LayerCapture::new(first, None);
    let mut asked: Vec<Result<u64, String>> = Vec::new();
    let qkv: String = c.w_in_proj_qkv();
    asked.push(read_first_dim(b, qkv.as_str(), "missing in_proj_qkv weight"));
    let z: String = c.w_in_proj_z();
    asked.push(read_first_dim(b, z.as_str(), "missing in_proj_z weight"));
    let heads: String = c.w_in_proj_b();
    asked.push(read_first_dim(b, heads.as_str(), "missing in_proj_b weight"));
    let norm: String = c.w_norm();
    asked.push(read_first_dim(b, norm.as_str(), "missing linear_attn norm weight"));
    let conv: String = c.w_conv1d();
    asked.push(read_last_dim(b, conv.as_str(), "missing conv1d weight"));
    asked.push(
        read_last_dim(
            b,
            "delta_torch_chunk_gated_delta_rule_0__q",
            "bundle has no delta-rule operand capture for the first linear layer; regenerating with the current generator is required",
        ),
    );
    assert(checkpoint::result_views(asked@) =~= linear_sizes(*b, first as nat));
    checkpoint::collect_sizes(&asked)
}

/// The width of the keys: half of what the values leave of the convolution.
pub open spec fn key_width(conv_dim: u64, value_dim: u64) -> int {
    if conv_dim < value_dim {
        0
    } else {
        (conv_dim - value_dim) / 2
    }
}

/// The number of key heads.
pub open spec fn key_heads(conv_dim: u64, value_dim: u64, head_k_dim: u64) -> int {
    if head_k_dim == 0 {
        0
    } else {
        key_width(conv_dim, value_dim) / head_k_dim as int
    }
}

/// Whether the sizes fit together.
pub open spec fn sizes_agree(
    conv_dim: u64,
    value_dim: u64,
    num_v_heads: u64,
    head_v_dim: u64,
    head_k_dim: u64,
) -> bool {
    let key_dim = key_width(conv_dim, value_dim);
    let num_k_heads = key_heads(conv_dim, value_dim, head_k_dim);
    &&& num_k_heads != 0
    &&& key_dim == num_k_heads * head_k_dim
    &&& conv_dim == 2 * key_dim + value_dim
    &&& value_dim == num_v_heads * head_v_dim
    &&& num_v_heads as int % num_k_heads == 0
}

pub open spec fn disagreement(
    conv_dim: u64,
    value_dim: u64,
    num_v_heads: u64,
    head_v_dim: u64,
    head_k_dim: u64,
) -> Seq<char> {
    "derived sizes are inconsistent:\n  conv_dim="@ + text::decimal(conv_dim as nat)
        + " value_dim="@ + text::decimal(value_dim as nat) + "\n  num_k_heads="@ + text::decimal(
        key_heads(conv_dim, value_dim, head_k_dim) as nat,
    ) + " num_v_heads="@ + text::decimal(num_v_heads as nat) + "\n  head_k_dim="@ + text::decimal(
        head_k_dim as nat,
    ) + " head_v_dim="@ + text::decimal(head_v_dim as nat)
}

fn check_gdn_sizes(
    conv_dim: u64,
    value_dim: u64,
    num_v_heads: u64,
    head_v_dim: u64,
    head_k_dim: u64,
) -> (r: Result<u64, String>)
    ensures
        if sizes_agree(conv_dim, value_dim, num_v_heads, head_v_dim, head_k_dim) {
            r is Ok && r->Ok_0 == key_heads(conv_dim, value_dim, head_k_dim)
        } else {
            r is Err && r->Err_0@ == disagreement(
                conv_dim,
                value_dim,
                num_v_heads,
                head_v_dim,
                head_k_dim,
            )
        },
{
    let key_dim: u64 = if conv_dim < value_dim {
        0
    } else {
        (conv_dim - value_dim) / 2
    };
    let num_k_heads: u64 = if head_k_dim == 0 {
        0
    } else {
        key_dim / head_k_dim
    };
    if num_k_heads == 0 || key_dim as u128 != checkpoint::multiply(num_k_heads, head_k_dim)
        || conv_dim as u128 != 2 * (key_dim as u128) + value_dim as u128 || value_dim as u128
        != checkpoint::multiply(num_v_heads, head_v_dim) || num_v_heads % num_k_heads != 0 {
        let mut m: String = "derived sizes are inconsistent:\n  conv_dim=".to_owned();
        text::push_decimal(&mut m, conv_dim);
        m.append(" value_dim=");
        text::push_decimal(&mut m, value_dim);
        m.append("\n  num_k_heads=");
        text::push_decimal(&mut m, num_k_heads);
        m.append(" num_v_heads=");
        text::push_decimal(&mut m, num_v_heads);
        m.append("\n  head_k_dim=");
        text::push_decimal(&mut m, head_k_dim);
        m.append(" head_v_dim=");
        text::push_decimal(&mut m, head_v_dim);
        return Err(m);
    }
    Ok(num_k_heads)
}

/// The sizes of a model as a mathematical value.
#[verifier::ext_equal]
pub struct InfoSpec {
    pub b: u64,
    pub t: u64,
    pub hidden: u64,
    pub intermediate: u64,
    pub types: Seq<Seq<char>>,
    pub eps: u64,
    pub ssm_gain: u64,
    pub gdn: GdnConfig<u64>,
}

impl ModelInfo {
    pub open spec fn view(&self) -> InfoSpec {
        InfoSpec {
            b: self.b,
            t: self.t,
            hidden: self.hidden,
            intermediate: self.intermediate,
            types: self.types(),
            eps: self.eps,
            ssm_gain: self.ssm_gain,
            gdn: self.gdn,
        }
    }

    /// Every layer has a type, and the sizes of the linear attention fit 64 bits.
    pub open spec fn wf(&self) -> bool {
        &&& self.layer_types@.len() == self.num_layers
        &&& self.gdn.conv_size() <= u64::MAX
        &&& self.gdn.value_size() <= u64::MAX
        &&& self.gdn.key_size() <= u64::MAX
    }
}

/// The sizes that a bundle gives, or the message of the first fault.
#[verifier::opaque]
pub open spec fn info_result(b: Bundle) -> Result<InfoSpec, Seq<char>> {
    let cfg = b.manifest.config.tree();
    match shape_in(b, "model__embed_tokens"@) {
        None => Err("bundle has no model__embed_tokens; cannot determine B and T"@),
        Some(emb) => if emb.len() != 3 {
            Err("model__embed_tokens has shape "@ + text::list_text(emb) + ", expected 3 axes"@)
        } else {
            match positive_dim(
                b,
                "model__layers__0__input_layernorm__weight"@,
                "cannot determine hidden_size from layer 0's input_layernorm weight"@,
            ) {
                Err(e) => Err(e),
                Ok(hidden) => match positive_dim(
                    b,
                    "model__layers__0__mlp__gate_proj__weight"@,
                    "cannot determine intermediate_size from layer 0's gate_proj weight"@,
                ) {
                    Err(e) => Err(e),
                    Ok(intermediate) => {
                        let n = layer_count(crate::bundle::entry_names(b.manifest.tensors@));
                        let types = bundle_types(b, n);
                        let eps = match json::member_double(cfg, "rms_norm_eps"@) {
                            Some(bits) => bits,
                            None => DEFAULT_EPS,
                        };
                        if n == 0 {
                            Err("bundle captures no decoder-layer outputs (model__layers__<N>)"@)
                        } else {
                            match checkpoint::first_of(types, n, "linear_attention"@) {
                                None => Err("no linear_attention layers in this bundle"@),
                                Some(first) => match checkpoint::all_sizes(
                                    linear_sizes(b, first),
                                ) {
                                    Err(e) => Err(e),
                                    Ok(v) => if !sizes_agree(v[0], v[1], v[2], v[3], v[5]) {
                                        Err(disagreement(v[0], v[1], v[2], v[3], v[5]))
                                    } else {
                                        Ok(
                                            InfoSpec {
                                                b: emb[0],
                                                t: emb[1],
                                                hidden,
                                                intermediate,
                                                types,
                                                eps,
                                                ssm_gain: b.manifest.source.ssm_gain,
                                                gdn: GdnConfig {
                                                    hidden,
                                                    num_k_heads: key_heads(
                                                        v[0],
                                                        v[1],
                                                        v[5],
                                                    ) as u64,
                                                    num_v_heads: v[2],
                                                    head_k_dim: v[5],
                                                    head_v_dim: v[3],
                                                    conv_kernel: v[4],
                                                    eps,
                                                },
                                            },
                                        )
                                    },
                                },
                            }
                        }
                    },
                },
            }
        },
    }
}

/// Derives a model's sizes from a bundle.
pub fn load_model(b: &Bundle) -> (r: Result<ModelInfo, String>)
    requires
        b.wf(),
    ensures
        match info_result(*b) {
            Ok(info) => r is Ok && r->Ok_0@ == info && r->Ok_0.wf(),
            Err(e) => r is Err && r->Err_0@ == e,
        },
{
    reveal(info_result);
    let (batch, positions): (u64, u64) = match b.entry("model__embed_tokens") {
        None => {
            return Err("bundle has no model__embed_tokens; cannot determine B and T".to_owned());
        },
        Some(e) => {
            if e.shape.len() != 3 {
                let mut m: String = "model__embed_tokens has shape ".to_owned();
                let listed: String = text::list_string(e.shape.as_slice());
                m.append(listed.as_str());
                m.append(", expected 3 axes");
                return Err(m);
            }
            (e.shape[0], e.shape[1])
        },
    };
    let hidden: u64 = match read_positive_dim(
        b,
        "model__layers__0__input_layernorm__weight",
        "cannot determine hidden_size from layer 0's input_layernorm weight",
    ) {
        Ok(n) => n,
        Err(e) => {
            return Err(e);
        },
    };
    let intermediate: u64 = match read_positive_dim(
        b,
        "model__layers__0__mlp__gate_proj__weight",
        "cannot determine intermediate_size from layer 0's gate_proj weight",
    ) {
        Ok(n) => n,
        Err(e) => {
            return Err(e);
        },
    };
    let layers: u64 = count_layers(&b.manifest.tensors);
    if layers == 0 {
        return Err("bundle captures no decoder-layer outputs (model__layers__<N>)".to_owned());
    }
    let layer_types: Vec<String> = read_types(b, layers);
    let num_layers: usize = layer_types.len();
    let eps: u64 = match b.manifest.config.get_double("rms_norm_eps") {
        Some(bits) => bits,
        None => DEFAULT_EPS,
    };
    let first: usize = match checkpoint::find_first(&layer_types, num_layers, "linear_attention") {
        Some(l) => l,
        None => {
            return Err("no linear_attention layers in this bundle".to_owned());
        },
    };
    let v: Vec<u64> = match read_linear_sizes(b, first) {
        Ok(v) => v,
        Err(e) => {
            return Err(e);
        },
    };
    let num_k_heads: u64 = match check_gdn_sizes(v[0], v[1], v[2], v[3], v[5]) {
        Ok(n) => n,
        Err(e) => {
            return Err(e);
        },
    };
    proof {
        vstd::arithmetic::mul::lemma_mul_is_commutative(num_k_heads as int, v@[5] as int);
        vstd::arithmetic::mul::lemma_mul_is_commutative(v@[2] as int, v@[3] as int);
    }
    Ok(
        ModelInfo {
            b: batch,
            t: positions,
            hidden,
            intermediate,
            num_layers,
            layer_types,
            eps,
            ssm_gain: b.manifest.source.ssm_gain,
            gdn: GdnConfig {
                hidden,
                num_k_heads,
                num_v_heads: v[2],
                head_k_dim: v[5],
                head_v_dim: v[3],
                conv_kernel: v[4],
                eps,
            },
        },
    )
}

/// What reading a tensor gave, as a mathematical value.
pub type ReadSpec = Result<Seq<u32>, Seq<char>>;

pub open spec fn read_view(r: Result<Vec<u32>, String>) -> ReadSpec {
    match r {
        Ok(v) => Ok(v@),
        Err(e) => Err(e@),
    }
}

/// What becomes of a tensor that should have `expect` elements.
pub open spec fn exact_result(name: Seq<char>, expect: nat, read: ReadSpec) -> ReadSpec {
    match read {
        Err(e) => Err(name + ": "@ + e),
        Ok(v) => if v.len() != expect {
            Err(
                name + ": got "@ + text::decimal(v.len()) + " values, expected "@ + text::decimal(
                    expect,
                ),
            )
        } else {
            Ok(v)
        },
    }
}

/// Takes what reading a tensor gave, and requires an exact number of elements.
pub fn read_exact(name: &str, read: Result<Vec<u32>, String>, expect: u128) -> (r: Result<
    Vec<u32>,
    String,
>)
    ensures
        read_view(r) == exact_result(name@, expect as nat, read_view(read)),
{
    match read {
        Err(e) => {
            let mut m: String = name.to_owned();
            m.append(": ");
            m.append(e.as_str());
            Err(m)
        },
        Ok(v) => {
            if v.len() as u128 != expect {
                let mut m: String = name.to_owned();
                m.append(": got ");
                text::push_decimal(&mut m, v.len() as u64);
                m.append(" values, expected ");
                text::push_decimal_wide(&mut m, expect);
                return Err(m);
            }
            Ok(v)
        },
    }
}

/// The first message among tensors that are taken one after another.
pub open spec fn exact_fault(wants: checkpoint::Wants, reads: Seq<ReadSpec>) -> Option<Seq<char>>
    decreases wants.len(),
{
    if wants.len() == 0 {
        None
    } else {
        match exact_fault(wants.drop_last(), reads.drop_last()) {
            Some(e) => Some(e),
            None => match exact_result(wants.last().0, wants.last().1, reads.last()) {
                Err(e) => Some(e),
                Ok(_) => None,
            },
        }
    }
}

proof fn exact_stops(wants: checkpoint::Wants, reads: Seq<ReadSpec>, n: int)
    requires
        0 <= n <= wants.len(),
        wants.len() == reads.len(),
        exact_fault(wants.take(n), reads.take(n)) is Some,
    ensures
        exact_fault(wants, reads) == exact_fault(wants.take(n), reads.take(n)),
    decreases wants.len(),
{
    if n < wants.len() {
        assert(wants.drop_last().take(n) =~= wants.take(n));
        assert(reads.drop_last().take(n) =~= reads.take(n));
        exact_stops(wants.drop_last(), reads.drop_last(), n);
    } else {
        assert(wants.take(n) =~= wants);
        assert(reads.take(n) =~= reads);
    }
}

pub open spec fn read_views(s: Seq<Result<Vec<u32>, String>>) -> Seq<ReadSpec> {
    Seq::new(s.len(), |i: int| read_view(s[i]))
}

fn take_exact(wants: &Vec<(String, u128)>, reads: Vec<Result<Vec<u32>, String>>) -> (r: Result<
    Vec<Vec<u32>>,
    String,
>)
    requires
        wants@.len() == reads@.len(),
    ensures
        match exact_fault(checkpoint::want_views(wants@), read_views(reads@)) {
            Some(e) => r is Err && r->Err_0@ == e,
            None => r is Ok && r->Ok_0@.len() == reads@.len() && forall|i: int|
                0 <= i < reads@.len() ==> #[trigger] read_views(reads@)[i] == Ok::<
                    Seq<u32>,
                    Seq<char>,
                >(r->Ok_0@[i]@),
        },
{
    let ghost all = checkpoint::want_views(wants@);
    let ghost given = read_views(reads@);
    let ghost start = reads@;
    let mut rest: Vec<Result<Vec<u32>, String>> = reads;
    let mut out: Vec<Vec<u32>> = Vec::new();
    let mut i: usize = 0;
    assert(all.take(0) =~= Seq::empty());
    while i < wants.len()
        invariant
            i <= wants.len(),
            all == checkpoint::want_views(wants@),
            given == read_views(start),
            start == reads@,
            given.len() == wants@.len(),
            rest@ == start.skip(i as int),
            out.len() == i,
            exact_fault(all.take(i as int), given.take(i as int)) is None,
            forall|k: int|
                0 <= k < i ==> #[trigger] given[k] == Ok::<Seq<u32>, Seq<char>>(out@[k]@),
        decreases wants.len() - i,
    {
        proof {
            let n = i as int + 1;
            assert(all.take(n).drop_last() =~= all.take(i as int));
            assert(given.take(n).drop_last() =~= given.take(i as int));
            assert(rest@[0] == start[i as int]);
            assert(given[i as int] == read_view(start[i as int]));
        }
        let read: Result<Vec<u32>, String> = rest.remove(0);
        assert(rest@ =~= start.skip(i as int + 1));
        match read_exact(wants[i].0.as_str(), read, wants[i].1) {
            Ok(v) => {
                out.push(v);
            },
            Err(e) => {
                proof {
                    exact_stops(all, given, i as int + 1);
                }
                return Err(e);
            },
        }
        i += 1;
    }
    assert(all.take(all.len() as int) =~= all);
    assert(given.take(given.len() as int) =~= given);
    Ok(out)
}

/// The tensors of a gated delta net of a layer, with the numbers of their elements.
pub open spec fn gdn_tensors(g: GdnConfig<u64>, layer: nat) -> checkpoint::Wants {
    let h = g.hidden;
    seq![
        (mixer_name(layer, "in_proj_qkv__weight"@), (g.conv_size() * h) as nat),
        (mixer_name(layer, "in_proj_z__weight"@), (g.value_size() * h) as nat),
        (mixer_name(layer, "in_proj_b__weight"@), (g.num_v_heads * h) as nat),
        (mixer_name(layer, "in_proj_a__weight"@), (g.num_v_heads * h) as nat),
        (mixer_name(layer, "conv1d__weight"@), (g.conv_size() * g.conv_kernel) as nat),
        (mixer_name(layer, "A_log"@), g.num_v_heads as nat),
        (mixer_name(layer, "dt_bias"@), g.num_v_heads as nat),
        (mixer_name(layer, "norm__weight"@), g.head_v_dim as nat),
        (mixer_name(layer, "out_proj__weight"@), (h * g.value_size()) as nat),
    ]
}

/// The tensors of a linear layer's mixer that have to be read, in order, with the
/// numbers of their elements. A layer of another type is refused.
pub fn gdn_wanted(m: &ModelInfo, layer: usize) -> (r: Result<Vec<(String, u128)>, String>)
    requires
        m.wf(),
    ensures
        if linear_at(m.types(), layer as int) {
            r is Ok && checkpoint::want_views(r->Ok_0@) == gdn_tensors(m.gdn, layer as nat)
        } else {
            r is Err && r->Err_0@ == "layer "@ + text::decimal(layer as nat) + " is "@ + type_at(
                m.types(),
                layer as int,
            ) + "; it has no gated delta net"@
        },
{
    if !m.is_linear(layer) {
        let mut e: String = "layer ".to_owned();
        text::push_decimal(&mut e, layer as u64);
        e.append(" is ");
        e.append(m.layer_type(layer));
        e.append("; it has no gated delta net");
        return Err(e);
    }
    let g: &GdnConfig<u64> = &m.gdn;
    let c: LayerCapture = LayerCapture::new(layer, None);
    let conv: u64 = g.conv_dim();
    let value: u64 = g.value_dim();
    let mut wants: Vec<(String, u128)> = Vec::new();
    wants.push((c.w_in_proj_qkv(), checkpoint::multiply(conv, g.hidden)));
    wants.push((c.w_in_proj_z(), checkpoint::multiply(value, g.hidden)));
    wants.push((c.w_in_proj_b(), checkpoint::multiply(g.num_v_heads, g.hidden)));
    wants.push((c.w_in_proj_a(), checkpoint::multiply(g.num_v_heads, g.hidden)));
    wants.push((c.w_conv1d(), checkpoint::multiply(conv, g.conv_kernel)));
    wants.push((c.w_a_log(), g.num_v_heads as u128));
    wants.push((c.w_dt_bias(), g.num_v_heads as u128));
    wants.push((c.w_norm(), g.head_v_dim as u128));
    wants.push((c.w_out_proj(), checkpoint::multiply(g.hidden, value)));
    assert(checkpoint::want_views(wants@) =~= gdn_tensors(m.gdn, layer as nat));
    Ok(wants)
}

/// The weights are what was read of the wanted tensors, in their order.
pub open spec fn gdn_taken(w: GdnWeights<u32>, v: Seq<ReadSpec>) -> bool {
    &&& v[0] == Ok::<Seq<u32>, Seq<char>>(w.in_proj_qkv@)
    &&& v[1] == Ok::<Seq<u32>, Seq<char>>(w.in_proj_z@)
    &&& v[2] == Ok::<Seq<u32>, Seq<char>>(w.in_proj_b@)
    &&& v[3] == Ok::<Seq<u32>, Seq<char>>(w.in_proj_a@)
    &&& v[4] == Ok::<Seq<u32>, Seq<char>>(w.conv1d@)
    &&& v[5] == Ok::<Seq<u32>, Seq<char>>(w.a_log@)
    &&& v[6] == Ok::<Seq<u32>, Seq<char>>(w.dt_bias@)
    &&& v[7] == Ok::<Seq<u32>, Seq<char>>(w.norm@)
    &&& v[8] == Ok::<Seq<u32>, Seq<char>>(w.out_proj@)
}

/// The weights of a linear layer's mixer, from what reading its tensors gave.
pub fn load_gdn_weights(
    m: &ModelInfo,
    layer: usize,
    reads: Vec<Result<Vec<u32>, String>>,
) -> (r: Result<GdnWeights<u32>, String>)
    requires
        m.wf(),
        linear_at(m.types(), layer as int) ==> reads@.len() == 9,
    ensures
        if linear_at(m.types(), layer as int) {
            match exact_fault(gdn_tensors(m.gdn, layer as nat), read_views(reads@)) {
                Some(e) => r is Err && r->Err_0@ == e,
                None => r is Ok && gdn_taken(r->Ok_0, read_views(reads@)),
            }
        } else {
            r is Err && r->Err_0@ == "layer "@ + text::decimal(layer as nat) + " is "@ + type_at(
                m.types(),
                layer as int,
            ) + "; it has no gated delta net"@
        },
{
    let wants: Vec<(String, u128)> = match gdn_wanted(m, layer) {
        Ok(w) => w,
        Err(e) => {
            return Err(e);
        },
    };
    assert(checkpoint::want_views(wants@).len() == 9);
    match take_exact(&wants, reads) {
        Err(e) => Err(e),
        Ok(mut w) => {
            let in_proj_qkv: Vec<u32> = w.remove(0);
            let in_proj_z: Vec<u32> = w.remove(0);
            let in_proj_b: Vec<u32> = w.remove(0);
            let in_proj_a: Vec<u32> = w.remove(0);
            let conv1d: Vec<u32> = w.remove(0);
            let a_log: Vec<u32> = w.remove(0);
            let dt_bias: Vec<u32> = w.remove(0);
            let norm: Vec<u32> = w.remove(0);
            let out_proj: Vec<u32> = w.remove(0);
            Ok(
                GdnWeights {
                    in_proj_qkv,
                    in_proj_z,
                    in_proj_b,
                    in_proj_a,
                    conv1d,
                    a_log,
                    dt_bias,
                    norm,
                    out_proj,
                },
            )
        },
    }
}

/// The tensors of a layer besides those of its mixer, with the numbers of their
/// elements.
pub open spec fn layer_tensors(h: u64, i: u64, layer: nat) -> checkpoint::Wants {
    seq![
        (module_name(layer, "input_layernorm__weight"@), h as nat),
        (module_name(layer, "post_attention_layernorm__weight"@), h as nat),
        (module_name(layer, "mlp__gate_proj__weight"@), (i * h) as nat),
        (module_name(layer, "mlp__up_proj__weight"@), (i * h) as nat),
        (module_name(layer, "mlp__down_proj__weight"@), (h * i) as nat),
    ]
}

/// The tensors of a layer besides those of its mixer that have to be read, in
/// order, with the numbers of their elements.
pub fn layer_wanted(m: &ModelInfo, layer: usize) -> (r: Vec<(String, u128)>)
    ensures
        checkpoint::want_views(r@) == layer_tensors(m.hidden, m.intermediate, layer as nat),
{
    let c: LayerCapture = LayerCapture::new(layer, None);
    let mut wants: Vec<(String, u128)> = Vec::new();
    wants.push((c.w_input_layernorm(), m.hidden as u128));
    wants.push((c.w_post_attention_layernorm(), m.hidden as u128));
    wants.push((c.w_gate_proj(), checkpoint::multiply(m.intermediate, m.hidden)));
    wants.push((c.w_up_proj(), checkpoint::multiply(m.intermediate, m.hidden)));
    wants.push((c.w_down_proj(), checkpoint::multiply(m.hidden, m.intermediate)));
    assert(checkpoint::want_views(wants@) =~= layer_tensors(
        m.hidden,
        m.intermediate,
        layer as nat,
    ));
    wants
}

/// The weights are what was read of the wanted tensors, in their order.
pub open spec fn layer_taken(w: LayerWeights<u32>, v: Seq<ReadSpec>) -> bool {
    &&& v[0] == Ok::<Seq<u32>, Seq<char>>(w.input_layernorm@)
    &&& v[1] == Ok::<Seq<u32>, Seq<char>>(w.post_attention_layernorm@)
    &&& v[2] == Ok::<Seq<u32>, Seq<char>>(w.mlp.gate_proj@)
    &&& v[3] == Ok::<Seq<u32>, Seq<char>>(w.mlp.up_proj@)
    &&& v[4] == Ok::<Seq<u32>, Seq<char>>(w.mlp.down_proj@)
}

/// The weights of a layer besides those of its mixer, from what reading its tensors
/// gave.
pub fn load_layer_weights(
    m: &ModelInfo,
    layer: usize,
    reads: Vec<Result<Vec<u32>, String>>,
) -> (r: Result<LayerWeights<u32>, String>)
    requires
        reads@.len() == 5,
    ensures
        match exact_fault(
            layer_tensors(m.hidden, m.intermediate, layer as nat),
            read_views(reads@),
        ) {
            Some(e) => r is Err && r->Err_0@ == e,
            None => r is Ok && layer_taken(r->Ok_0, read_views(reads@)),
        },
{
    let wants: Vec<(String, u128)> = layer_wanted(m, layer);
    assert(checkpoint::want_views(wants@).len() == 5);
    match take_exact(&wants, reads) {
        Err(e) => Err(e),
        Ok(mut w) => {
            let input_layernorm: Vec<u32> = w.remove(0);
            let post_attention_layernorm: Vec<u32> = w.remove(0);
            let gate_proj: Vec<u32> = w.remove(0);
            let up_proj: Vec<u32> = w.remove(0);
            let down_proj: Vec<u32> = w.remove(0);
            Ok(
                LayerWeights {
                    input_layernorm,
                    post_attention_layernorm,
                    mlp: MlpWeights { gate_proj, up_proj, down_proj },
                },
            )
        },
    }
}

/// The tensors were read as they are wanted: each is the values of its name.
pub open spec fn reads_values(
    wants: checkpoint::Wants,
    reads: Seq<ReadSpec>,
    values: spec_fn(Seq<char>) -> Seq<u32>,
) -> bool {
    &&& reads.len() == wants.len()
    &&& forall|i: int|
        0 <= i < wants.len() ==> #[trigger] reads[i] == Ok::<Seq<u32>, Seq<char>>(values(wants[i].0))
}

proof fn exact_sizes(wants: checkpoint::Wants, reads: Seq<ReadSpec>, i: int)
    requires
        wants.len() == reads.len(),
        exact_fault(wants, reads) is None,
        0 <= i < wants.len(),
    ensures
        reads[i] matches Ok(v) && v.len() == wants[i].1,
    decreases wants.len(),
{
    if i < wants.len() - 1 {
        assert(wants.drop_last()[i] == wants[i] && reads.drop_last()[i] == reads[i]);
        exact_sizes(wants.drop_last(), reads.drop_last(), i);
    } else {
        assert(exact_result(wants[i].0, wants[i].1, reads[i]) is Ok);
    }
}

/// The weights of a linear layer's mixer are the values of the tensors of their own
/// names, and as large as the sizes of the model demand.
pub proof fn mixer_weights_are_their_tensors(
    g: GdnConfig<u64>,
    layer: nat,
    reads: Seq<ReadSpec>,
    values: spec_fn(Seq<char>) -> Seq<u32>,
    w: GdnWeights<u32>,
)
    requires
        reads_values(gdn_tensors(g, layer), reads, values),
        gdn_taken(w, reads),
    ensures
        ({
            let p = "model__layers__"@ + text::decimal(layer) + "__linear_attn__"@;
            &&& w.in_proj_qkv@ == values(p + "in_proj_qkv__weight"@)
            &&& w.in_proj_z@ == values(p + "in_proj_z__weight"@)
            &&& w.in_proj_b@ == values(p + "in_proj_b__weight"@)
            &&& w.in_proj_a@ == values(p + "in_proj_a__weight"@)
            &&& w.conv1d@ == values(p + "conv1d__weight"@)
            &&& w.a_log@ == values(p + "A_log"@)
            &&& w.dt_bias@ == values(p + "dt_bias"@)
            &&& w.norm@ == values(p + "norm__weight"@)
            &&& w.out_proj@ == values(p + "out_proj__weight"@)
        }),
        exact_fault(gdn_tensors(g, layer), reads) is None ==> {
            let keys = g.num_k_heads * g.head_k_dim;
            let width = g.num_v_heads * g.head_v_dim;
            &&& w.in_proj_qkv@.len() == (2 * keys + width) * g.hidden
            &&& w.in_proj_z@.len() == width * g.hidden
            &&& w.in_proj_b@.len() == g.num_v_heads * g.hidden
            &&& w.in_proj_a@.len() == g.num_v_heads * g.hidden
            &&& w.conv1d@.len() == (2 * keys + width) * g.conv_kernel
            &&& w.a_log@.len() == g.num_v_heads
            &&& w.dt_bias@.len() == g.num_v_heads
            &&& w.norm@.len() == g.head_v_dim
            &&& w.out_proj@.len() == g.hidden * width
        },
{
    let wants = gdn_tensors(g, layer);
    assert(reads[0] is Ok && reads[1] is Ok && reads[2] is Ok && reads[3] is Ok && reads[4] is Ok);
    assert(reads[5] is Ok && reads[6] is Ok && reads[7] is Ok && reads[8] is Ok);
    if exact_fault(wants, reads) is None {
        exact_sizes(wants, reads, 0);
        exact_sizes(wants, reads, 1);
        exact_sizes(wants, reads, 2);
        exact_sizes(wants, reads, 3);
        exact_sizes(wants, reads, 4);
        exact_sizes(wants, reads, 5);
        exact_sizes(wants, reads, 6);
        exact_sizes(wants, reads, 7);
        exact_sizes(wants, reads, 8);
        let keys = g.num_k_heads * g.head_k_dim;
        let width = g.num_v_heads * g.head_v_dim;
        vstd::arithmetic::mul::lemma_mul_is_commutative(
            g.num_k_heads as int,
            g.head_k_dim as int,
        );
        vstd::arithmetic::mul::lemma_mul_is_commutative(
            g.num_v_heads as int,
            g.head_v_dim as int,
        );
        vstd::arithmetic::mul::lemma_mul_nonnegative(g.num_k_heads as int, g.head_k_dim as int);
        vstd::arithmetic::mul::lemma_mul_nonnegative(g.num_v_heads as int, g.head_v_dim as int);
        vstd::arithmetic::mul::lemma_mul_nonnegative(2 * keys + width, g.hidden as int);
        vstd::arithmetic::mul::lemma_mul_nonnegative(width, g.hidden as int);
        vstd::arithmetic::mul::lemma_mul_nonnegative(g.num_v_heads as int, g.hidden as int);
        vstd::arithmetic::mul::lemma_mul_nonnegative(2 * keys + width, g.conv_kernel as int);
        vstd::arithmetic::mul::lemma_mul_nonnegative(g.hidden as int, width);
        assert(g.conv_size() == 2 * keys + width);
        assert(g.value_size() == width);
    }
}

/// The weights of a layer besides those of its mixer are the values of the tensors of
/// their own names, and as large as the sizes of the model demand.
pub proof fn layer_weights_are_their_tensors(
    hidden: u64,
    intermediate: u64,
    layer: nat,
    reads: Seq<ReadSpec>,
    values: spec_fn(Seq<char>) -> Seq<u32>,
    w: LayerWeights<u32>,
)
    requires
        reads_values(layer_tensors(hidden, intermediate, layer), reads, values),
        layer_taken(w, reads),
    ensures
        ({
            let p = "model__layers__"@ + text::decimal(layer) + "__"@;
            &&& w.input_layernorm@ == values(p + "input_layernorm__weight"@)
            &&& w.post_attention_layernorm@ == values(p + "post_attention_layernorm__weight"@)
            &&& w.mlp.gate_proj@ == values(p + "mlp__gate_proj__weight"@)
            &&& w.mlp.up_proj@ == values(p + "mlp__up_proj__weight"@)
            &&& w.mlp.down_proj@ == values(p + "mlp__down_proj__weight"@)
        }),
        exact_fault(layer_tensors(hidden, intermediate, layer), reads) is None ==> {
            &&& w.input_layernorm@.len() == hidden
            &&& w.post_attention_layernorm@.len() == hidden
            &&& w.mlp.gate_proj@.len() == intermediate * hidden
            &&& w.mlp.up_proj@.len() == intermediate * hidden
            &&& w.mlp.down_proj@.len() == hidden * intermediate
        },
{
    let wants = layer_tensors(hidden, intermediate, layer);
    assert(reads[0] is Ok && reads[1] is Ok && reads[2] is Ok && reads[3] is Ok && reads[4] is Ok);
    if exact_fault(wants, reads) is None {
        exact_sizes(wants, reads, 0);
        exact_sizes(wants, reads, 1);
        exact_sizes(wants, reads, 2);
        exact_sizes(wants, reads, 3);
        exact_sizes(wants, reads, 4);
        vstd::arithmetic::mul::lemma_mul_nonnegative(intermediate as int, hidden as int);
        vstd::arithmetic::mul::lemma_mul_nonnegative(hidden as int, intermediate as int);
    }
}

/// The number of layers is one more than the largest whose output has a name.
pub proof fn layer_count_is_past_the_last(names: Seq<Seq<char>>)
    ensures
        forall|i: int|
            0 <= i < names.len() ==> (output_layer(#[trigger] names[i]) matches Some(n) ==> n
                < layer_count(names)),
        layer_count(names) > 0 ==> exists|i: int|
            0 <= i < names.len() && output_layer(#[trigger] names[i]) == Some(
                (layer_count(names) - 1) as nat,
            ),
    decreases names.len(),
{
    if names.len() > 0 {
        let d = names.drop_last();
        let last = names.len() - 1;
        layer_count_is_past_the_last(d);
        assert(names[last] == names.last());
        assert forall|i: int| 0 <= i < names.len() implies (output_layer(
            #[trigger] names[i],
        ) matches Some(n) ==> n < layer_count(names)) by {
            if i < last {
                assert(d[i] == names[i]);
            }
        }
        if layer_count(names) > 0 && layer_count(names) == layer_count(d) {
            let i = choose|i: int|
                0 <= i < d.len() && output_layer(#[trigger] d[i]) == Some(
                    (layer_count(d) - 1) as nat,
                );
            assert(names[i] == d[i]);
        }
    }
}

/// The output of a layer is named by the layer's number.
pub proof fn output_name_has_its_layer(layer: nat)
    requires
        layer < u64::MAX,
    ensures
        output_layer("model__layers__"@ + text::decimal(layer)) == Some(layer),
        input_of(layer + 1) == "model__layers__"@ + text::decimal(layer),
{
    let p = "model__layers__"@;
    let d = text::decimal(layer);
    let name = p + d;
    text::decimal_reads_back(layer);
    assert(name.subrange(0, p.len() as int) =~= p);
    assert(text::occurs_at(name, p, 0));
    assert(name.subrange(p.len() as int, name.len() as int) =~= d);
    if text::contains_text(d, "__"@) {
        reveal_strlit("__");
        let at = choose|at: int| text::occurs_at(d, "__"@, at);
        assert(d.subrange(at, at + 2)[0] == '_');
        assert(d[at] == '_');
        assert(text::is_digit(d[at]));
    }
}

/// The shape of a recorded tensor.
pub open spec fn axis_is(b: Bundle, name: Seq<char>, axis: int, n: u64) -> bool {
    shape_in(b, name) matches Some(shape) && 0 <= axis < shape.len() && shape[axis] == n
}

/// Where each size of a model comes from: an axis of the recorded tensor of this name, of
/// the first linear layer where it is one of a linear layer. The key heads are what is
/// left of the convolution when the values are taken away, in two halves.
pub proof fn every_size_has_its_source(b: Bundle, linear: nat)
    requires
        info_result(b) is Ok,
        checkpoint::is_first(info_result(b)->Ok_0.types, linear, "linear_attention"@),
    ensures
        ({
            let i = info_result(b)->Ok_0;
            let g = i.gdn;
            let p = "model__layers__"@ + text::decimal(linear) + "__linear_attn__"@;
            let key_dim = g.num_k_heads * g.head_k_dim;
            let value_dim = g.num_v_heads * g.head_v_dim;
            &&& axis_is(b, "model__embed_tokens"@, 0, i.b)
            &&& axis_is(b, "model__embed_tokens"@, 1, i.t)
            &&& axis_is(b, "model__layers__0__input_layernorm__weight"@, 0, i.hidden)
            &&& axis_is(b, "model__layers__0__mlp__gate_proj__weight"@, 0, i.intermediate)
            &&& i.types.len() == layer_count(crate::bundle::entry_names(b.manifest.tensors@))
            &&& g.hidden == i.hidden && g.eps == i.eps
            &&& g.num_k_heads > 0
            &&& g.num_v_heads as int % g.num_k_heads as int == 0
            &&& axis_is(b, p + "in_proj_z__weight"@, 0, value_dim as u64) || value_dim == 0
            &&& axis_is(b, p + "in_proj_b__weight"@, 0, g.num_v_heads) || g.num_v_heads == 0
            &&& axis_is(b, p + "norm__weight"@, 0, g.head_v_dim) || g.head_v_dim == 0
            &&& axis_is(b, p + "in_proj_qkv__weight"@, 0, (2 * key_dim + value_dim) as u64)
            &&& shape_in(b, p + "conv1d__weight"@) matches Some(s) && s.len() > 0 && s.last()
                == g.conv_kernel
            &&& shape_in(b, "delta_torch_chunk_gated_delta_rule_0__q"@) matches Some(s) && s.len()
                > 0 && s.last() == g.head_k_dim
            &&& i.ssm_gain == b.manifest.source.ssm_gain
            &&& json::member_double(b.manifest.config.tree(), "rms_norm_eps"@) matches Some(bits)
                ==> i.eps == bits
        }),
{
    reveal(info_result);
    let i = info_result(b)->Ok_0;
    let n = i.types.len();
    checkpoint::first_of_is_the_first(i.types, n, "linear_attention"@);
    let first = checkpoint::first_of(i.types, n, "linear_attention"@)->Some_0;
    assert(first == linear) by {
        if first < linear {
            assert(i.types[first as int] != "linear_attention"@);
        }
    }
    let asked = linear_sizes(b, first);
    checkpoint::all_sizes_keep_their_places(asked);
    let v = checkpoint::all_sizes(asked)->Ok_0;
    assert(asked[0] == Ok::<u64, Seq<char>>(v[0]) && asked[1] == Ok::<u64, Seq<char>>(v[1]));
    assert(asked[2] == Ok::<u64, Seq<char>>(v[2]) && asked[3] == Ok::<u64, Seq<char>>(v[3]));
    assert(asked[4] == Ok::<u64, Seq<char>>(v[4]) && asked[5] == Ok::<u64, Seq<char>>(v[5]));
    let key = key_width(v[0], v[1]);
    let heads = key_heads(v[0], v[1], v[5]);
    assert(heads <= key) by {
        if v[5] > 0 {
            vstd::arithmetic::div_mod::lemma_div_is_ordered_by_denominator(key, 1, v[5] as int);
            vstd::arithmetic::div_mod::lemma_div_basics(key);
        }
    }
    assert(heads > 0) by {
        if v[5] > 0 {
            vstd::arithmetic::div_mod::lemma_div_pos_is_pos(key, v[5] as int);
        }
    }
}

/// The types of the layers are those that the config lists, if it lists enough; else a
/// layer is linear exactly if the linear attention of that layer is recorded.
pub proof fn types_come_from_the_config_or_the_records(b: Bundle, n: nat, l: int)
    requires
        0 <= l < n,
    ensures
        ({
            let listed = checkpoint::listed_types(b.manifest.config.tree());
            let recorded = shape_in(
                b,
                "model__layers__"@ + text::decimal(l as nat) + "__linear_attn"@,
            ) is Some;
            &&& bundle_types(b, n).len() == n
            &&& listed.len() >= n ==> bundle_types(b, n)[l] == listed[l]
            &&& listed.len() < n && recorded ==> bundle_types(b, n)[l] == "linear_attention"@
            &&& listed.len() < n && !recorded ==> bundle_types(b, n)[l] == "full_attention"@
        }),
{
}

/// The sizes fit together exactly if some number of key heads makes up, with as many
/// query heads and the value heads, the channels of the convolution, and each key head
/// serves the same number of value heads.
pub proof fn sizes_agree_by_heads(
    conv_dim: u64,
    value_dim: u64,
    num_v_heads: u64,
    head_v_dim: u64,
    head_k_dim: u64,
    heads: int,
)
    requires
        heads > 0,
        head_k_dim > 0,
    ensures
        conv_dim == 2 * (heads * head_k_dim) + num_v_heads * head_v_dim && value_dim == num_v_heads
            * head_v_dim && num_v_heads as int % heads == 0 ==> sizes_agree(
            conv_dim,
            value_dim,
            num_v_heads,
            head_v_dim,
            head_k_dim,
        ) && key_heads(conv_dim, value_dim, head_k_dim) == heads,
        sizes_agree(conv_dim, value_dim, num_v_heads, head_v_dim, head_k_dim) ==> {
            let k = key_heads(conv_dim, value_dim, head_k_dim);
            &&& k > 0
            &&& conv_dim == 2 * (k * head_k_dim) + num_v_heads * head_v_dim
            &&& value_dim == num_v_heads * head_v_dim
            &&& num_v_heads as int % k == 0
        },
{
    let hk = head_k_dim as int;
    assert(heads * hk > 0) by (nonlinear_arith)
        requires
            heads > 0,
            hk > 0,
    ;
    vstd::arithmetic::div_mod::lemma_div_multiples_vanish(heads, hk);
    vstd::arithmetic::mul::lemma_mul_is_commutative(heads, hk);
    vstd::arithmetic::div_mod::lemma_div_pos_is_pos(key_width(conv_dim, value_dim), hk);
}

/// What was read of a tensor is taken as it is, exactly if it could be read and has as many
/// values as expected.
pub proof fn values_are_taken_as_read(name: Seq<char>, expect: nat, read: ReadSpec)
    ensures
        exact_result(name, expect, read) is Ok <==> (read matches Ok(v) && v.len() == expect),
        exact_result(name, expect, read) is Ok ==> exact_result(name, expect, read) == read,
        exact_result(name, expect, read) matches Err(m) ==> text::starts_with(m, name + ": "@),
{
    match read {
        Err(e) => {
            text::parts_stand_in_their_text(Seq::empty(), name + ": "@, e);
        },
        Ok(v) => {
            if v.len() != expect {
                reveal_strlit(": ");
                reveal_strlit(": got ");
                let m = exact_result(name, expect, read)->Err_0;
                let front = name + ": "@;
                assert(m.subrange(0, front.len() as int) =~= front);
            }
        },
    }
}

} // verus!
