//! Assembling a checkpoint into the weights that a forward pass wants.
//!
//! Sizes are read off the tensors' shapes and then compared with the config. A
//! config that disagrees is an error.
use crate::attention::{AttnConfig, AttnWeights};
use crate::gdn::{GdnConfig, GdnWeights};
use crate::header::product;
use crate::json;
use crate::json::{Json, JsonTree};
use crate::layer::{LayerWeights, MlpWeights};
use crate::model::{LayerKind, LayerWeightsAll, ModelConfig, ModelWeights};
use crate::safetensors;
use crate::safetensors::{Dtype, Model, ModelSpec};
use crate::text;
use vstd::prelude::*;
use vstd::string::*;

verus! {

/// The bits of the double 10000, the base of the rotation when none is given.
pub const DEFAULT_THETA: u64 = 0x40C3_8800_0000_0000;

/// The bits of the double 1, the rotated part when none is given.
pub const WHOLE: u64 = 0x3FF0_0000_0000_0000;

/// The names that end in `embed_tokens.weight`, in their order.
pub open spec fn embeddings(names: Seq<Seq<char>>) -> Seq<Seq<char>>
    decreases names.len(),
{
    if names.len() == 0 {
        Seq::empty()
    } else {
        let before = embeddings(names.drop_last());
        if text::ends_with(names.last(), "embed_tokens.weight"@) {
            before.push(names.last())
        } else {
            before
        }
    }
}

/// What comes before `embed_tokens.weight` in the one name that ends so.
pub open spec fn prefix_result(names: Seq<Seq<char>>) -> Result<Seq<char>, Seq<char>> {
    let found = embeddings(names);
    if found.len() == 0 {
        Err("no tensor ending in `embed_tokens.weight`"@)
    } else if found.len() == 1 {
        Ok(found[0].take(found[0].len() - "embed_tokens.weight"@.len()))
    } else {
        Err(
            "ambiguous: "@ + text::decimal(found.len())
                + " tensors end in `embed_tokens.weight` ("@ + text::quoted_list(found) + ")"@,
        )
    }
}

proof fn embeddings_end_so(names: Seq<Seq<char>>)
    ensures
        forall|i: int|
            0 <= i < embeddings(names).len() ==> text::ends_with(
                #[trigger] embeddings(names)[i],
                "embed_tokens.weight"@,
            ),
    decreases names.len(),
{
    if names.len() > 0 {
        let before = embeddings(names.drop_last());
        let found = embeddings(names);
        embeddings_end_so(names.drop_last());
        assert forall|i: int| 0 <= i < found.len() implies text::ends_with(
            #[trigger] found[i],
            "embed_tokens.weight"@,
        ) by {
            if i < before.len() {
                assert(found[i] == before[i]);
            }
        }
    }
}

/// Finds what the language model's tensor names start with.
pub fn detect_prefix(m: &Model) -> (r: Result<String, String>)
    requires
        m.wf(),
    ensures
        match prefix_result(safetensors::listing(m@.shards)) {
            Ok(p) => r is Ok && r->Ok_0@ == p,
            Err(e) => r is Err && r->Err_0@ == e,
        },
{
    let names: Vec<String> = m.names();
    let ghost all = text::views(names@);
    let mut found: Vec<String> = Vec::new();
    let mut i: usize = 0;
    assert(all.take(0) =~= Seq::empty());
    assert(text::views(found@) =~= Seq::empty());
    while i < names.len()
        invariant
            i <= names.len(),
            all == text::views(names@),
            text::views(found@) == embeddings(all.take(i as int)),
        decreases names.len() - i,
    {
        proof {
            let next = all.take(i as int + 1);
            assert(next.drop_last() =~= all.take(i as int));
            assert(next.last() == names[i as int]@);
        }
        if text::str_ends_with(names[i].as_str(), "embed_tokens.weight") {
            let ghost before = text::views(found@);
            found.push(names[i].clone());
            assert(text::views(found@) =~= before.push(names[i as int]@));
        }
        i += 1;
    }
    assert(all.take(all.len() as int) =~= all);
    let ghost list = text::views(found@);
    if found.len() == 0 {
        return Err("no tensor ending in `embed_tokens.weight`".to_owned());
    }
    if found.len() == 1 {
        let name: &str = found[0].as_str();
        let n: usize = name.unicode_len();
        let suffix: usize = "embed_tokens.weight".unicode_len();
        proof {
            embeddings_end_so(all);
            assert(list[0] == name@);
        }
        let kept: &str = name.substring_char(0, n - suffix);
        assert(kept@ =~= name@.take(n - suffix));
        return Ok(kept.to_owned());
    }
    let mut m: String = "ambiguous: ".to_owned();
    text::push_decimal(&mut m, found.len() as u64);
    m.append(" tensors end in `embed_tokens.weight` (");
    let listed: String = text::quoted_list_string(&found);
    m.append(listed.as_str());
    m.append(")");
    Err(m)
}

/// Why a forward pass does not use the tensor, if it does not.
pub open spec fn unused_reason(name: Seq<char>) -> Option<Seq<char>> {
    if text::starts_with(name, "model.visual."@) || text::starts_with(name, "visual."@) {
        Some("vision tower"@)
    } else if text::starts_with(name, "mtp."@) {
        Some("multi-token-prediction head"@)
    } else {
        None
    }
}

/// Why a forward pass does not use the tensor, if it does not.
pub fn is_unused(name: &str) -> (r: Option<&'static str>)
    ensures
        unused_reason(name@) == match r {
            Some(why) => Some(why@),
            None => None,
        },
{
    if text::str_starts_with(name, "model.visual.") || text::str_starts_with(name, "visual.") {
        Some("vision tower")
    } else if text::str_starts_with(name, "mtp.") {
        Some("multi-token-prediction head")
    } else {
        None
    }
}

/// The part of a config that holds the language model's settings.
pub open spec fn settings(root: JsonTree) -> JsonTree {
    match json::member(root, "text_config"@) {
        Some(JsonTree::Object(m)) => JsonTree::Object(m),
        _ => root,
    }
}

pub open spec fn settings_source(root: JsonTree) -> Seq<char> {
    match json::member(root, "text_config"@) {
        Some(JsonTree::Object(m)) => "text_config"@,
        _ => "top level"@,
    }
}

/// Picks the object that holds the language model's settings, and says where it
/// stands.
pub fn text_config(root: &Json) -> (r: (&Json, &'static str))
    ensures
        r.0.tree() == settings(root.tree()),
        r.1@ == settings_source(root.tree()),
{
    match root.get("text_config") {
        Some(t) => {
            if t.is_object() {
                return (t, "text_config");
            }
            (root, "top level")
        },
        None => (root, "top level"),
    }
}

/// The model type: that of the settings, or else that of the whole config.
pub open spec fn model_type(root: JsonTree) -> Seq<char> {
    let given = match json::member(settings(root), "model_type"@) {
        Some(v) => Some(v),
        None => json::member(root, "model_type"@),
    };
    match given {
        Some(JsonTree::Text(s)) => s,
        _ => ""@,
    }
}

/// What becomes of the text of a config: `doc` is what it parses to.
pub open spec fn config_result(
    dir: Seq<char>,
    path: Seq<char>,
    doc: Option<Result<JsonTree, Seq<char>>>,
) -> Result<JsonTree, Seq<char>> {
    match doc {
        None => Err(dir + ": no config.json"@),
        Some(Err(message)) => Err(path + ": "@ + message),
        Some(Ok(root)) => if text::starts_with(model_type(root), "qwen3_5"@) {
            Ok(root)
        } else {
            Err(
                "model_type is `"@ + model_type(root)
                    + "`; this forward pass implements qwen3_5"@,
            )
        },
    }
}

/// Checks that the config is of a model that can be run.
pub fn check_model_type(root: &Json) -> (r: Result<(), String>)
    ensures
        match config_result(Seq::empty(), Seq::empty(), Some(Ok(root.tree()))) {
            Ok(_) => r is Ok,
            Err(m) => r is Err && r->Err_0@ == m,
        },
{
    let given: Option<&Json> = match text_config(root).0.get("model_type") {
        Some(v) => Some(v),
        None => root.get("model_type"),
    };
    let name: &str = match given {
        Some(v) => match v.as_str() {
            Some(s) => s,
            None => "",
        },
        None => "",
    };
    if text::str_starts_with(name, "qwen3_5") {
        return Ok(());
    }
    let mut m: String = "model_type is `".to_owned();
    m.append(name);
    m.append("`; this forward pass implements qwen3_5");
    Err(m)
}

/// Parses a config and checks that it is of a model that can be run.
pub fn read_config(dir: &str, path: &str, config: Option<&[u8]>) -> (r: Result<Json, String>)
    ensures
        match config_result(
            dir@,
            path@,
            match config {
                Some(raw) => Some(json::json_document(raw@)),
                None => None,
            },
        ) {
            Ok(root) => r is Ok && r->Ok_0.tree() == root,
            Err(m) => r is Err && r->Err_0@ == m,
        },
{
    match config {
        None => {
            let mut m: String = dir.to_owned();
            m.append(": no config.json");
            Err(m)
        },
        Some(raw) => match json::parse(raw) {
            Err(message) => {
                let mut m: String = path.to_owned();
                m.append(": ");
                m.append(message.as_str());
                Err(m)
            },
            Ok(root) => match check_model_type(&root) {
                Ok(_) => Ok(root),
                Err(m) => Err(m),
            },
        },
    }
}

/// The texts among the items of an array.
pub open spec fn texts(items: Seq<JsonTree>) -> Seq<Seq<char>>
    decreases items.len(),
{
    if items.len() == 0 {
        Seq::empty()
    } else {
        match items.last() {
            JsonTree::Text(s) => texts(items.drop_last()).push(s),
            _ => texts(items.drop_last()),
        }
    }
}

/// The layer types that settings list.
pub open spec fn listed_types(tc: JsonTree) -> Seq<Seq<char>> {
    match json::member_array(tc, "layer_types"@) {
        Some(items) => texts(items),
        None => Seq::empty(),
    }
}

/// The layer types that settings list.
pub fn layer_types(tc: &Json) -> (r: Vec<String>)
    ensures
        text::views(r@) == listed_types(tc.tree()),
{
    let mut out: Vec<String> = Vec::new();
    assert(text::views(out@) =~= Seq::empty());
    match tc.get_array("layer_types") {
        None => {},
        Some(items) => {
            let ghost all = json::trees(items@);
            let mut i: usize = 0;
            assert(all.take(0) =~= Seq::empty());
            while i < items.len()
                invariant
                    i <= items.len(),
                    all == json::trees(items@),
                    text::views(out@) == texts(all.take(i as int)),
                decreases items.len() - i,
            {
                proof {
                    let next = all.take(i as int + 1);
                    assert(next.drop_last() =~= all.take(i as int));
                    assert(next.last() == items[i as int].tree());
                }
                match items[i].as_str() {
                    Some(s) => {
                        let ghost before = text::views(out@);
                        out.push(s.to_owned());
                        assert(text::views(out@) =~= before.push(s@));
                    },
                    None => {},
                }
                i += 1;
            }
            assert(all.take(all.len() as int) =~= all);
        },
    }
    out
}

/// The kind of a layer, by the list of types.
pub open spec fn kind_result(types: Seq<Seq<char>>, layer: int) -> Result<LayerKind, Seq<char>> {
    if layer >= types.len() {
        Err("layer "@ + text::decimal(layer as nat) + ": layer_types is too short"@)
    } else if types[layer] == "linear_attention"@ {
        Ok(LayerKind::LinearAttention)
    } else if types[layer] == "full_attention"@ {
        Ok(LayerKind::FullAttention)
    } else {
        Err("layer "@ + text::decimal(layer as nat) + ": unknown layer type "@ + types[layer])
    }
}

/// The kind of a layer, by the list of types.
pub fn kind_of(types: &[String], layer: usize) -> (r: Result<LayerKind, String>)
    ensures
        match kind_result(text::views(types@), layer as int) {
            Ok(k) => r == Ok::<LayerKind, String>(k),
            Err(m) => r is Err && r->Err_0@ == m,
        },
{
    if layer >= types.len() {
        let mut m: String = "layer ".to_owned();
        text::push_decimal(&mut m, layer as u64);
        m.append(": layer_types is too short");
        return Err(m);
    }
    let name: &str = types[layer].as_str();
    assert(text::views(types@)[layer as int] == name@);
    if text::str_eq(name, "linear_attention") {
        return Ok(LayerKind::LinearAttention);
    }
    if text::str_eq(name, "full_attention") {
        return Ok(LayerKind::FullAttention);
    }
    let mut m: String = "layer ".to_owned();
    text::push_decimal(&mut m, layer as u64);
    m.append(": unknown layer type ");
    m.append(name);
    Err(m)
}

/// The first of `n` layers of the given type.
pub open spec fn first_of(types: Seq<Seq<char>>, n: nat, name: Seq<char>) -> Option<nat>
    decreases n,
{
    if n == 0 {
        None
    } else {
        match first_of(types, (n - 1) as nat, name) {
            Some(i) => Some(i),
            None => if types[n - 1] == name {
                Some((n - 1) as nat)
            } else {
                None
            },
        }
    }
}

proof fn first_of_stays(types: Seq<Seq<char>>, k: nat, n: nat, name: Seq<char>)
    requires
        k <= n,
        first_of(types, k, name) is Some,
    ensures
        first_of(types, n, name) == first_of(types, k, name),
    decreases n,
{
    if k < n {
        first_of_stays(types, k, (n - 1) as nat, name);
    }
}

pub(crate) fn find_first(types: &Vec<String>, n: usize, name: &str) -> (r: Option<usize>)
    requires
        n <= types.len(),
    ensures
        first_of(text::views(types@), n as nat, name@) == match r {
            Some(i) => Some(i as nat),
            None => None,
        },
        r is Some ==> r->Some_0 < n,
{
    let ghost all = text::views(types@);
    let mut i: usize = 0;
    while i < n
        invariant
            i <= n <= types.len(),
            all == text::views(types@),
            first_of(all, i as nat, name@) is None,
        decreases n - i,
    {
        assert(all[i as int] == types[i as int]@);
        if text::str_eq(types[i].as_str(), name) {
            proof {
                first_of_stays(all, (i + 1) as nat, n as nat, name@);
            }
            return Some(i);
        }
        i += 1;
    }
    None
}

/// The name of a tensor of a layer.
pub open spec fn layer_name(prefix: Seq<char>, layer: nat, rest: Seq<char>) -> Seq<char> {
    prefix + "layers."@ + text::decimal(layer) + "."@ + rest
}

fn layer_tensor(prefix: &str, layer: usize, rest: &str) -> (r: String)
    ensures
        r@ == layer_name(prefix@, layer as nat, rest@),
{
    let mut s: String = prefix.to_owned();
    s.append("layers.");
    text::push_decimal(&mut s, layer as u64);
    s.append(".");
    s.append(rest);
    s
}

pub open spec fn missing_message(name: Seq<char>) -> Seq<char> {
    "missing tensor "@ + name
}

/// The length of a tensor's first axis.
pub open spec fn first_axis(m: ModelSpec, name: Seq<char>) -> Result<u64, Seq<char>> {
    match m.entry(name) {
        None => Err(missing_message(name)),
        Some(e) => if e.shape.len() == 0 {
            Err(name + " has no axes"@)
        } else {
            Ok(e.shape[0])
        },
    }
}

fn missing_error(name: &str) -> (r: String)
    ensures
        r@ == missing_message(name@),
{
    let mut e: String = "missing tensor ".to_owned();
    e.append(name);
    e
}

fn read_first_axis(m: &Model, name: &str) -> (r: Result<u64, String>)
    requires
        m.wf(),
    ensures
        match first_axis(m@, name@) {
            Ok(n) => r == Ok::<u64, String>(n),
            Err(e) => r is Err && r->Err_0@ == e,
        },
{
    match m.entry(name) {
        None => Err(missing_error(name)),
        Some(e) => {
            if e.shape.len() == 0 {
                let mut message: String = name.to_owned();
                message.append(" has no axes");
                return Err(message);
            }
            Ok(e.shape[0])
        },
    }
}

/// The length of the convolution's last axis.
pub open spec fn kernel_axis(m: ModelSpec, name: Seq<char>) -> Result<u64, Seq<char>> {
    match m.entry(name) {
        None => Err(missing_message(name)),
        Some(e) => if e.shape.len() == 0 {
            Err("conv1d weight has no axes"@)
        } else {
            Ok(e.shape.last())
        },
    }
}

fn read_kernel_axis(m: &Model, name: &str) -> (r: Result<u64, String>)
    requires
        m.wf(),
    ensures
        match kernel_axis(m@, name@) {
            Ok(n) => r == Ok::<u64, String>(n),
            Err(e) => r is Err && r->Err_0@ == e,
        },
{
    match m.entry(name) {
        None => Err(missing_error(name)),
        Some(e) => {
            if e.shape.len() == 0 {
                return Err("conv1d weight has no axes".to_owned());
            }
            Ok(e.shape[e.shape.len() - 1])
        },
    }
}

/// The two axes of a tensor that has two.
pub open spec fn two_axes(m: ModelSpec, name: Seq<char>) -> Result<(u64, u64), Seq<char>> {
    match m.entry(name) {
        None => Err(missing_message(name)),
        Some(e) => if e.shape.len() != 2 {
            Err(name + " has shape "@ + text::list_text(e.shape) + ", expected 2 axes"@)
        } else {
            Ok((e.shape[0], e.shape[1]))
        },
    }
}

fn read_two_axes(m: &Model, name: &str) -> (r: Result<(u64, u64), String>)
    requires
        m.wf(),
    ensures
        match two_axes(m@, name@) {
            Ok(p) => r == Ok::<(u64, u64), String>(p),
            Err(e) => r is Err && r->Err_0@ == e,
        },
{
    match m.entry(name) {
        None => Err(missing_error(name)),
        Some(e) => {
            if e.shape.len() != 2 {
                let mut message: String = name.to_owned();
                message.append(" has shape ");
                let listed: String = text::list_string(e.shape.as_slice());
                message.append(listed.as_str());
                message.append(", expected 2 axes");
                return Err(message);
            }
            Ok((e.shape[0], e.shape[1]))
        },
    }
}

/// The first two axes of a tensor that has as many.
pub open spec fn leading_axes(m: ModelSpec, name: Seq<char>) -> Result<(u64, u64), Seq<char>> {
    match m.entry(name) {
        None => Err(missing_message(name)),
        Some(e) => if e.shape.len() < 2 {
            Err(name + " has shape "@ + text::list_text(e.shape) + ", expected 2 axes"@)
        } else {
            Ok((e.shape[0], e.shape[1]))
        },
    }
}

fn read_leading_axes(m: &Model, name: &str) -> (r: Result<(u64, u64), String>)
    requires
        m.wf(),
    ensures
        match leading_axes(m@, name@) {
            Ok(p) => r == Ok::<(u64, u64), String>(p),
            Err(e) => r is Err && r->Err_0@ == e,
        },
{
    match m.entry(name) {
        None => Err(missing_error(name)),
        Some(e) => {
            if e.shape.len() < 2 {
                let mut message: String = name.to_owned();
                message.append(" has shape ");
                let listed: String = text::list_string(e.shape.as_slice());
                message.append(listed.as_str());
                message.append(", expected 2 axes");
                return Err(message);
            }
            Ok((e.shape[0], e.shape[1]))
        },
    }
}

/// A number of the settings.
pub open spec fn setting(tc: JsonTree, key: Seq<char>) -> Result<u64, Seq<char>> {
    match json::member_unsigned(tc, key) {
        Some(n) => Ok(n),
        None => Err("config has no "@ + key),
    }
}

fn read_setting(tc: &Json, key: &str) -> (r: Result<u64, String>)
    ensures
        match setting(tc.tree(), key@) {
            Ok(n) => r == Ok::<u64, String>(n),
            Err(e) => r is Err && r->Err_0@ == e,
        },
{
    match tc.get_u64(key) {
        Some(n) => Ok(n),
        None => {
            let mut m: String = "config has no ".to_owned();
            m.append(key);
            Err(m)
        },
    }
}

/// All numbers, or the first message.
pub open spec fn all_sizes(s: Seq<Result<u64, Seq<char>>>) -> Result<Seq<u64>, Seq<char>>
    decreases s.len(),
{
    if s.len() == 0 {
        Ok(Seq::empty())
    } else {
        match all_sizes(s.drop_last()) {
            Err(e) => Err(e),
            Ok(v) => match s.last() {
                Err(e) => Err(e),
                Ok(n) => Ok(v.push(n)),
            },
        }
    }
}

proof fn all_sizes_stop(s: Seq<Result<u64, Seq<char>>>, n: int)
    requires
        0 <= n <= s.len(),
        all_sizes(s.take(n)) is Err,
    ensures
        all_sizes(s) == all_sizes(s.take(n)),
    decreases s.len(),
{
    if n < s.len() {
        let d = s.drop_last();
        assert(d.take(n) =~= s.take(n));
        all_sizes_stop(d, n);
    } else {
        assert(s.take(n) =~= s);
    }
}

pub open spec fn result_view(r: Result<u64, String>) -> Result<u64, Seq<char>> {
    match r {
        Ok(n) => Ok(n),
        Err(e) => Err(e@),
    }
}

pub open spec fn result_views(s: Seq<Result<u64, String>>) -> Seq<Result<u64, Seq<char>>> {
    Seq::new(s.len(), |i: int| result_view(s[i]))
}

pub(crate) fn collect_sizes(s: &Vec<Result<u64, String>>) -> (r: Result<Vec<u64>, String>)
    ensures
        match all_sizes(result_views(s@)) {
            Ok(v) => r is Ok && r->Ok_0@ == v && v.len() == s@.len(),
            Err(e) => r is Err && r->Err_0@ == e,
        },
{
    let ghost all = result_views(s@);
    let mut out: Vec<u64> = Vec::new();
    let mut i: usize = 0;
    assert(all.take(0) =~= Seq::empty());
    while i < s.len()
        invariant
            i <= s.len(),
            all == result_views(s@),
            out.len() == i,
            all_sizes(all.take(i as int)) == Ok::<Seq<u64>, Seq<char>>(out@),
        decreases s.len() - i,
    {
        proof {
            let next = all.take(i as int + 1);
            assert(next.drop_last() =~= all.take(i as int));
            assert(next.last() == result_view(s[i as int]));
        }
        match &s[i] {
            Ok(n) => {
                out.push(*n);
            },
            Err(e) => {
                proof {
                    all_sizes_stop(all, i as int + 1);
                }
                return Err(e.clone());
            },
        }
        i += 1;
    }
    assert(all.take(all.len() as int) =~= all);
    Ok(out)
}

/// The sizes of a model: those that the tensors' shapes give, and those that only
/// the config has.
#[derive(Debug, Clone, Copy, PartialEq, Eq, Structural)]
pub struct Sizes {
    pub vocab: u64,
    pub hidden: u64,
    pub intermediate: u64,
    pub num_layers: u64,
    pub conv_dim: u64,
    pub key_dim: u64,
    pub value_dim: u64,
    pub num_v_heads: u64,
    pub head_v_dim: u64,
    pub conv_kernel: u64,
    pub q_out: u64,
    pub kv_out: u64,
    pub head_dim: u64,
    pub num_heads: u64,
    pub num_kv_heads: u64,
    pub num_k_heads: u64,
    pub head_k_dim: u64,
    /// The number of value heads as the config has it.
    pub config_v_heads: u64,
    /// The width of a value head as the config has it.
    pub config_v_dim: u64,
}

/// The sizes that the first linear and the first full layer give, in the order in
/// which they are looked up.
pub open spec fn shape_requests(
    m: ModelSpec,
    tc: JsonTree,
    prefix: Seq<char>,
    linear: nat,
    full: nat,
) -> Seq<Result<u64, Seq<char>>> {
    seq![
        first_axis(m, layer_name(prefix, linear, "linear_attn.in_proj_qkv.weight"@)),
        first_axis(m, layer_name(prefix, linear, "linear_attn.in_proj_z.weight"@)),
        first_axis(m, layer_name(prefix, linear, "linear_attn.in_proj_b.weight"@)),
        first_axis(m, layer_name(prefix, linear, "linear_attn.norm.weight"@)),
        kernel_axis(m, layer_name(prefix, linear, "linear_attn.conv1d.weight"@)),
        setting(tc, "head_dim"@),
        setting(tc, "num_attention_heads"@),
        setting(tc, "num_key_value_heads"@),
        first_axis(m, layer_name(prefix, full, "self_attn.q_proj.weight"@)),
        first_axis(m, layer_name(prefix, full, "self_attn.k_proj.weight"@)),
    ]
}

/// The sizes of the linear layers that the config has.
pub open spec fn linear_requests(tc: JsonTree) -> Seq<Result<u64, Seq<char>>> {
    seq![
        setting(tc, "linear_num_key_heads"@),
        setting(tc, "linear_num_value_heads"@),
        setting(tc, "linear_key_head_dim"@),
        setting(tc, "linear_value_head_dim"@),
    ]
}

/// The sizes of a model, or the message of the first fault.
pub open spec fn sizes_result(
    m: ModelSpec,
    tc: JsonTree,
    prefix: Seq<char>,
    types: Seq<Seq<char>>,
    num_layers: u64,
) -> Result<Sizes, Seq<char>> {
    match two_axes(m, prefix + "embed_tokens.weight"@) {
        Err(e) => Err(e),
        Ok((vocab, hidden)) => match first_axis(
            m,
            layer_name(prefix, 0, "mlp.gate_proj.weight"@),
        ) {
            Err(e) => Err(e),
            Ok(intermediate) => match (
                first_of(types, num_layers as nat, "linear_attention"@),
                first_of(types, num_layers as nat, "full_attention"@),
            ) {
                (Some(linear), Some(full)) => match all_sizes(
                    shape_requests(m, tc, prefix, linear, full),
                ) {
                    Err(e) => Err(e),
                    Ok(v) => if v[0] < v[1] {
                        Err("conv_dim < value_dim"@)
                    } else {
                        match all_sizes(linear_requests(tc)) {
                            Err(e) => Err(e),
                            Ok(w) => Ok(
                                Sizes {
                                    vocab,
                                    hidden,
                                    intermediate,
                                    num_layers,
                                    conv_dim: v[0],
                                    key_dim: ((v[0] - v[1]) / 2) as u64,
                                    value_dim: v[1],
                                    num_v_heads: v[2],
                                    head_v_dim: v[3],
                                    conv_kernel: v[4],
                                    q_out: v[8],
                                    kv_out: v[9],
                                    head_dim: v[5],
                                    num_heads: v[6],
                                    num_kv_heads: v[7],
                                    num_k_heads: w[0],
                                    head_k_dim: w[2],
                                    config_v_heads: w[1],
                                    config_v_dim: w[3],
                                },
                            ),
                        }
                    },
                },
                _ => Err(
                    "the checkpoint has only one kind of layer; nothing to cross-check against"@,
                ),
            },
        },
    }
}

fn ask_shapes(m: &Model, tc: &Json, prefix: &str, linear: usize, full: usize) -> (r: Result<
    Vec<u64>,
    String,
>)
    requires
        m.wf(),
    ensures
        match all_sizes(shape_requests(m@, tc.tree(), prefix@, linear as nat, full as nat)) {
            Ok(v) => r is Ok && r->Ok_0@ == v && v.len() == 10,
            Err(e) => r is Err && r->Err_0@ == e,
        },
{
    let mut asked: Vec<Result<u64, String>> = Vec::new();
    let qkv: String = layer_tensor(prefix, linear, "linear_attn.in_proj_qkv.weight");
    asked.push(read_first_axis(m, qkv.as_str()));
    let z: String = layer_tensor(prefix, linear, "linear_attn.in_proj_z.weight");
    asked.push(read_first_axis(m, z.as_str()));
    let b: String = layer_tensor(prefix, linear, "linear_attn.in_proj_b.weight");
    asked.push(read_first_axis(m, b.as_str()));
    let norm: String = layer_tensor(prefix, linear, "linear_attn.norm.weight");
    asked.push(read_first_axis(m, norm.as_str()));
    let conv: String = layer_tensor(prefix, linear, "linear_attn.conv1d.weight");
    asked.push(read_kernel_axis(m, conv.as_str()));
    asked.push(read_setting(tc, "head_dim"));
    asked.push(read_setting(tc, "num_attention_heads"));
    asked.push(read_setting(tc, "num_key_value_heads"));
    let q: String = layer_tensor(prefix, full, "self_attn.q_proj.weight");
    asked.push(read_first_axis(m, q.as_str()));
    let k: String = layer_tensor(prefix, full, "self_attn.k_proj.weight");
    asked.push(read_first_axis(m, k.as_str()));
    assert(result_views(asked@) =~= shape_requests(
        m@,
        tc.tree(),
        prefix@,
        linear as nat,
        full as nat,
    ));
    collect_sizes(&asked)
}

fn ask_linear(tc: &Json) -> (r: Result<Vec<u64>, String>)
    ensures
        match all_sizes(linear_requests(tc.tree())) {
            Ok(v) => r is Ok && r->Ok_0@ == v && v.len() == 4,
            Err(e) => r is Err && r->Err_0@ == e,
        },
{
    let mut linear_sizes: Vec<Result<u64, String>> = Vec::new();
    linear_sizes.push(read_setting(tc, "linear_num_key_heads"));
    linear_sizes.push(read_setting(tc, "linear_num_value_heads"));
    linear_sizes.push(read_setting(tc, "linear_key_head_dim"));
    linear_sizes.push(read_setting(tc, "linear_value_head_dim"));
    assert(result_views(linear_sizes@) =~= linear_requests(tc.tree()));
    collect_sizes(&linear_sizes)
}

fn derive_sizes(
    m: &Model,
    tc: &Json,
    prefix: &str,
    types: &Vec<String>,
    num_layers: usize,
) -> (r: Result<Sizes, String>)
    requires
        m.wf(),
        num_layers <= types.len(),
    ensures
        match sizes_result(m@, tc.tree(), prefix@, text::views(types@), num_layers as u64) {
            Ok(s) => r == Ok::<Sizes, String>(s),
            Err(e) => r is Err && r->Err_0@ == e,
        },
{
    let mut emb: String = prefix.to_owned();
    emb.append("embed_tokens.weight");
    let (vocab, hidden) = match read_two_axes(m, emb.as_str()) {
        Ok(p) => p,
        Err(e) => {
            return Err(e);
        },
    };
    let gate: String = layer_tensor(prefix, 0, "mlp.gate_proj.weight");
    let intermediate: u64 = match read_first_axis(m, gate.as_str()) {
        Ok(n) => n,
        Err(e) => {
            return Err(e);
        },
    };
    let (linear, full): (usize, usize) = match (
        find_first(types, num_layers, "linear_attention"),
        find_first(types, num_layers, "full_attention"),
    ) {
        (Some(l), Some(f)) => (l, f),
        _ => {
            return Err(
                "the checkpoint has only one kind of layer; nothing to cross-check against".to_owned(),
            );
        },
    };
    let v: Vec<u64> = match ask_shapes(m, tc, prefix, linear, full) {
        Ok(v) => v,
        Err(e) => {
            return Err(e);
        },
    };
    if v[0] < v[1] {
        return Err("conv_dim < value_dim".to_owned());
    }
    let w: Vec<u64> = match ask_linear(tc) {
        Ok(w) => w,
        Err(e) => {
            return Err(e);
        },
    };
    Ok(
        Sizes {
            vocab,
            hidden,
            intermediate,
            num_layers: num_layers as u64,
            conv_dim: v[0],
            key_dim: (v[0] - v[1]) / 2,
            value_dim: v[1],
            num_v_heads: v[2],
            head_v_dim: v[3],
            conv_kernel: v[4],
            q_out: v[8],
            kv_out: v[9],
            head_dim: v[5],
            num_heads: v[6],
            num_kv_heads: v[7],
            num_k_heads: w[0],
            head_k_dim: w[2],
            config_v_heads: w[1],
            config_v_dim: w[3],
        },
    )
}

/// What is said of a size on which config and tensors disagree; nothing when they
/// agree.
pub open spec fn mismatch(what: Seq<char>, config: nat, shapes: nat) -> Seq<Seq<char>> {
    if config == shapes {
        Seq::empty()
    } else {
        seq![
            what + ": config says "@ + text::decimal(config) + ", the tensors imply "@
                + text::decimal(shapes),
        ]
    }
}

/// What is said of a count that is not a multiple of another.
pub open spec fn not_a_multiple(
    what: Seq<char>,
    n: nat,
    of: Seq<char>,
    d: nat,
) -> Seq<Seq<char>> {
    if d != 0 && n % d == 0 {
        Seq::empty()
    } else {
        seq![what + text::decimal(n) + " is not a multiple of "@ + of + text::decimal(d)]
    }
}

/// What is said of a size that the settings have under `key`, where they have it.
pub open spec fn setting_mismatch(tc: JsonTree, key: Seq<char>, shapes: nat) -> Seq<Seq<char>> {
    match json::member_unsigned(tc, key) {
        Some(n) => mismatch(key, n as nat, shapes),
        None => Seq::empty(),
    }
}

/// The disagreements on sizes that the config may leave out.
pub open spec fn setting_problems(tc: JsonTree, s: Sizes) -> Seq<Seq<char>> {
    setting_mismatch(tc, "hidden_size"@, s.hidden as nat) + setting_mismatch(
        tc,
        "vocab_size"@,
        s.vocab as nat,
    ) + setting_mismatch(tc, "intermediate_size"@, s.intermediate as nat) + setting_mismatch(
        tc,
        "linear_conv_kernel_dim"@,
        s.conv_kernel as nat,
    )
}

/// All disagreements between the config and the tensors' shapes; `o` is the shape
/// of the attention's output projection.
pub open spec fn problems(tc: JsonTree, s: Sizes, o: (u64, u64)) -> Seq<Seq<char>> {
    shape_problems(s, o) + setting_problems(tc, s)
}

/// The disagreements on sizes that the config has to give.
pub open spec fn shape_problems(s: Sizes, o: (u64, u64)) -> Seq<Seq<char>> {
    mismatch("num_v_heads"@, s.config_v_heads as nat, s.num_v_heads as nat) + mismatch(
        "head_v_dim"@,
        s.config_v_dim as nat,
        s.head_v_dim as nat,
    ) + mismatch(
        "key_dim = num_k_heads * head_k_dim"@,
        (s.num_k_heads * s.head_k_dim) as nat,
        s.key_dim as nat,
    ) + mismatch(
        "value_dim = num_v_heads * head_v_dim"@,
        (s.config_v_heads * s.config_v_dim) as nat,
        s.value_dim as nat,
    ) + mismatch(
        "conv_dim = 2*key_dim + value_dim"@,
        (2 * s.key_dim + s.value_dim) as nat,
        s.conv_dim as nat,
    ) + mismatch(
        "q_proj out = num_heads * head_dim * 2"@,
        (2 * (s.num_heads * s.head_dim)) as nat,
        s.q_out as nat,
    ) + mismatch(
        "k_proj out = num_kv_heads * head_dim"@,
        (s.num_kv_heads * s.head_dim) as nat,
        s.kv_out as nat,
    ) + not_a_multiple(
        "num_attention_heads "@,
        s.num_heads as nat,
        "num_key_value_heads "@,
        s.num_kv_heads as nat,
    ) + not_a_multiple(
        "num_v_heads "@,
        s.num_v_heads as nat,
        "num_k_heads "@,
        s.num_k_heads as nat,
    ) + mismatch(
        "o_proj in = num_heads * head_dim"@,
        o.1 as nat,
        (s.num_heads * s.head_dim) as nat,
    ) + mismatch("o_proj out = hidden"@, o.0 as nat, s.hidden as nat)
}

fn push_mismatch(out: &mut Vec<String>, what: &str, config: u128, shapes: u128)
    ensures
        text::views(final(out)@) == text::views(old(out)@) + mismatch(
            what@,
            config as nat,
            shapes as nat,
        ),
{
    let ghost before = text::views(out@);
    if config != shapes {
        let mut m: String = what.to_owned();
        m.append(": config says ");
        text::push_decimal_wide(&mut m, config);
        m.append(", the tensors imply ");
        text::push_decimal_wide(&mut m, shapes);
        out.push(m);
    }
    assert(text::views(out@) =~= before + mismatch(what@, config as nat, shapes as nat));
}

fn push_double_mismatch(out: &mut Vec<String>, what: &str, half: u128, shapes: u64)
    ensures
        text::views(final(out)@) == text::views(old(out)@) + mismatch(
            what@,
            (2 * half) as nat,
            shapes as nat,
        ),
{
    let ghost before = text::views(out@);
    if shapes % 2 != 0 || half != (shapes / 2) as u128 {
        let mut m: String = what.to_owned();
        m.append(": config says ");
        text::push_decimal_double(&mut m, half);
        m.append(", the tensors imply ");
        text::push_decimal(&mut m, shapes);
        out.push(m);
    }
    assert(text::views(out@) =~= before + mismatch(what@, (2 * half) as nat, shapes as nat));
}

fn push_not_a_multiple(out: &mut Vec<String>, what: &str, n: u64, of: &str, d: u64)
    ensures
        text::views(final(out)@) == text::views(old(out)@) + not_a_multiple(
            what@,
            n as nat,
            of@,
            d as nat,
        ),
{
    let ghost before = text::views(out@);
    if d == 0 || n % d != 0 {
        let mut m: String = what.to_owned();
        text::push_decimal(&mut m, n);
        m.append(" is not a multiple of ");
        m.append(of);
        text::push_decimal(&mut m, d);
        out.push(m);
    }
    assert(text::views(out@) =~= before + not_a_multiple(what@, n as nat, of@, d as nat));
}

pub(crate) fn multiply(a: u64, b: u64) -> (r: u128)
    ensures
        r == a * b,
{
    assert(0 <= a * b <= u128::MAX) by (nonlinear_arith)
        requires
            a <= u64::MAX,
            b <= u64::MAX,
    ;
    a as u128 * b as u128
}

fn push_setting_mismatch(out: &mut Vec<String>, tc: &Json, key: &str, shapes: u64)
    ensures
        text::views(final(out)@) == text::views(old(out)@) + setting_mismatch(
            tc.tree(),
            key@,
            shapes as nat,
        ),
{
    match tc.get_u64(key) {
        Some(n) => push_mismatch(out, key, n as u128, shapes as u128),
        None => {
            assert(text::views(out@) =~= text::views(out@) + Seq::<Seq<char>>::empty());
        },
    }
}

/// All disagreements between the config and the tensors' shapes.
pub fn cross_check(tc: &Json, s: &Sizes, o: (u64, u64)) -> (r: Vec<String>)
    ensures
        text::views(r@) == problems(tc.tree(), *s, o),
{
    let mut out: Vec<String> = check_shapes(s, o);
    let ghost shapes = text::views(out@);
    push_setting_mismatch(&mut out, tc, "hidden_size", s.hidden);
    push_setting_mismatch(&mut out, tc, "vocab_size", s.vocab);
    push_setting_mismatch(&mut out, tc, "intermediate_size", s.intermediate);
    push_setting_mismatch(&mut out, tc, "linear_conv_kernel_dim", s.conv_kernel);
    assert(text::views(out@) =~= shapes + setting_problems(tc.tree(), *s));
    out
}

fn check_shapes(s: &Sizes, o: (u64, u64)) -> (r: Vec<String>)
    ensures
        text::views(r@) == shape_problems(*s, o),
{
    let mut out: Vec<String> = Vec::new();
    assert(text::views(out@) =~= Seq::empty());
    push_mismatch(&mut out, "num_v_heads", s.config_v_heads as u128, s.num_v_heads as u128);
    assert(text::views(out@) =~= mismatch(
        "num_v_heads"@,
        s.config_v_heads as nat,
        s.num_v_heads as nat,
    ));
    push_mismatch(&mut out, "head_v_dim", s.config_v_dim as u128, s.head_v_dim as u128);
    push_mismatch(
        &mut out,
        "key_dim = num_k_heads * head_k_dim",
        multiply(s.num_k_heads, s.head_k_dim),
        s.key_dim as u128,
    );
    push_mismatch(
        &mut out,
        "value_dim = num_v_heads * head_v_dim",
        multiply(s.config_v_heads, s.config_v_dim),
        s.value_dim as u128,
    );
    push_mismatch(
        &mut out,
        "conv_dim = 2*key_dim + value_dim",
        2 * (s.key_dim as u128) + s.value_dim as u128,
        s.conv_dim as u128,
    );
    let width: u128 = multiply(s.num_heads, s.head_dim);
    push_double_mismatch(&mut out, "q_proj out = num_heads * head_dim * 2", width, s.q_out);
    push_mismatch(
        &mut out,
        "k_proj out = num_kv_heads * head_dim",
        multiply(s.num_kv_heads, s.head_dim),
        s.kv_out as u128,
    );
    push_not_a_multiple(
        &mut out,
        "num_attention_heads ",
        s.num_heads,
        "num_key_value_heads ",
        s.num_kv_heads,
    );
    push_not_a_multiple(
        &mut out,
        "num_v_heads ",
        s.num_v_heads,
        "num_k_heads ",
        s.num_k_heads,
    );
    push_mismatch(&mut out, "o_proj in = num_heads * head_dim", o.1 as u128, width);
    push_mismatch(&mut out, "o_proj out = hidden", o.0 as u128, s.hidden as u128);
    out
}

/// What sizes without a disagreement satisfy.
pub proof fn agreeing_sizes_are_consistent(tc: JsonTree, s: Sizes, o: (u64, u64))
    requires
        problems(tc, s, o).len() == 0,
    ensures
        json::member_unsigned(tc, "hidden_size"@) matches Some(n) ==> n == s.hidden,
        json::member_unsigned(tc, "vocab_size"@) matches Some(n) ==> n == s.vocab,
        json::member_unsigned(tc, "intermediate_size"@) matches Some(n) ==> n == s.intermediate,
        json::member_unsigned(tc, "linear_conv_kernel_dim"@) matches Some(n) ==> n == s.conv_kernel,
        s.num_v_heads == s.config_v_heads,
        s.head_v_dim == s.config_v_dim,
        s.key_dim == s.num_k_heads * s.head_k_dim,
        s.value_dim == s.num_v_heads * s.head_v_dim,
        s.conv_dim == 2 * s.key_dim + s.value_dim,
        s.q_out == 2 * (s.num_heads * s.head_dim),
        s.kv_out == s.num_kv_heads * s.head_dim,
        s.num_kv_heads != 0,
        s.num_heads % s.num_kv_heads == 0,
        s.num_k_heads != 0,
        s.num_v_heads % s.num_k_heads == 0,
        o == (s.hidden, (s.num_heads * s.head_dim) as u64),
        s.num_heads * s.head_dim <= u64::MAX,
{
    vstd::arithmetic::mul::lemma_mul_nonnegative(s.num_heads as int, s.head_dim as int);
    vstd::arithmetic::mul::lemma_mul_nonnegative(s.num_kv_heads as int, s.head_dim as int);
    vstd::arithmetic::mul::lemma_mul_nonnegative(s.num_k_heads as int, s.head_k_dim as int);
    vstd::arithmetic::mul::lemma_mul_nonnegative(s.config_v_heads as int, s.config_v_dim as int);
}

/// What a checkpoint is found to be, as a mathematical value.
#[verifier::ext_equal]
pub struct SurveySpec {
    pub prefix: Seq<char>,
    pub types: Seq<Seq<char>>,
    pub sizes: Sizes,
    pub theta: u64,
    pub partial: u64,
}

/// What a checkpoint is found to be.
pub struct Survey {
    /// What the names of the language model's tensors start with.
    pub prefix: String,
    pub types: Vec<String>,
    pub sizes: Sizes,
    /// The bits of the double that is the base of the rotation.
    pub theta: u64,
    /// The bits of the double that says which part of a head is rotated.
    pub partial: u64,
}

impl View for Survey {
    type V = SurveySpec;

    open spec fn view(&self) -> SurveySpec {
        SurveySpec {
            prefix: self.prefix@,
            types: text::views(self.types@),
            sizes: self.sizes,
            theta: self.theta,
            partial: self.partial,
        }
    }
}

/// A parameter of the rotation, or its default.
pub open spec fn rope_setting(tc: JsonTree, key: Seq<char>, default: u64) -> u64 {
    match json::member(tc, "rope_parameters"@) {
        Some(r) => match json::member_double(r, key) {
            Some(bits) => bits,
            None => default,
        },
        None => default,
    }
}

fn read_rope(tc: &Json, key: &str, default: u64) -> (r: u64)
    ensures
        r == rope_setting(tc.tree(), key@, default),
{
    match tc.get("rope_parameters") {
        Some(rope) => match rope.get_double(key) {
            Some(bits) => bits,
            None => default,
        },
        None => default,
    }
}

/// What a checkpoint is found to be, or the message of the first fault.
#[verifier::opaque]
pub open spec fn survey_result(root: JsonTree, m: ModelSpec) -> Result<SurveySpec, Seq<char>> {
    let tc = settings(root);
    let types = listed_types(tc);
    match prefix_result(safetensors::listing(m.shards)) {
        Err(e) => Err(e),
        Ok(prefix) => if types.len() == 0 {
            Err("config has no layer_types; cannot tell linear from full layers"@)
        } else {
            match setting(tc, "num_hidden_layers"@) {
                Err(e) => Err(e),
                Ok(num_layers) => if types.len() < num_layers {
                    Err(
                        "layer_types has "@ + text::decimal(types.len())
                            + " entries but num_hidden_layers is "@ + text::decimal(
                            num_layers as nat,
                        ),
                    )
                } else {
                    match sizes_result(m, tc, prefix, types, num_layers) {
                        Err(e) => Err(e),
                        Ok(sizes) => {
                            let full = first_of(
                                types,
                                num_layers as nat,
                                "full_attention"@,
                            )->Some_0;
                            match leading_axes(
                                m,
                                layer_name(prefix, full, "self_attn.o_proj.weight"@),
                            ) {
                                Err(e) => Err(e),
                                Ok(o) => if problems(tc, sizes, o).len() > 0 {
                                    Err(
                                        "the config and the tensor shapes disagree, so one of them is not what the forward pass should use:\n  "@
                                            + text::joined(
                                            problems(tc, sizes, o),
                                            "\n  "@,
                                            problems(tc, sizes, o).len(),
                                        ),
                                    )
                                } else {
                                    Ok(
                                        SurveySpec {
                                            prefix,
                                            types,
                                            sizes,
                                            theta: rope_setting(tc, "rope_theta"@, DEFAULT_THETA),
                                            partial: rope_setting(
                                                tc,
                                                "partial_rotary_factor"@,
                                                WHOLE,
                                            ),
                                        },
                                    )
                                },
                            }
                        },
                    }
                },
            }
        },
    }
}

/// Finds out what a checkpoint is, and that config and tensors agree on it.
pub fn survey(root: &Json, m: &Model) -> (r: Result<Survey, String>)
    requires
        m.wf(),
    ensures
        match survey_result(root.tree(), m@) {
            Ok(s) => r is Ok && r->Ok_0@ == s,
            Err(e) => r is Err && r->Err_0@ == e,
        },
{
    reveal(survey_result);
    let (tc, _) = text_config(root);
    let prefix: String = match detect_prefix(m) {
        Ok(p) => p,
        Err(e) => {
            return Err(e);
        },
    };
    let types: Vec<String> = layer_types(tc);
    let ghost all = text::views(types@);
    assert(all.len() == types@.len());
    if types.len() == 0 {
        return Err("config has no layer_types; cannot tell linear from full layers".to_owned());
    }
    let num_layers: u64 = match read_setting(tc, "num_hidden_layers") {
        Ok(n) => n,
        Err(e) => {
            return Err(e);
        },
    };
    if (types.len() as u64) < num_layers {
        let mut e: String = "layer_types has ".to_owned();
        text::push_decimal(&mut e, types.len() as u64);
        e.append(" entries but num_hidden_layers is ");
        text::push_decimal(&mut e, num_layers);
        return Err(e);
    }
    let sizes: Sizes = match derive_sizes(m, tc, prefix.as_str(), &types, num_layers as usize) {
        Ok(s) => s,
        Err(e) => {
            return Err(e);
        },
    };
    let full: usize = match find_first(&types, num_layers as usize, "full_attention") {
        Some(f) => f,
        None => 0,
    };
    let o_name: String = layer_tensor(prefix.as_str(), full, "self_attn.o_proj.weight");
    let o: (u64, u64) = match read_leading_axes(m, o_name.as_str()) {
        Ok(o) => o,
        Err(e) => {
            return Err(e);
        },
    };
    let found: Vec<String> = cross_check(tc, &sizes, o);
    assert(problems(tc.tree(), sizes, o).len() == found@.len());
    if found.len() > 0 {
        let mut e: String =
            "the config and the tensor shapes disagree, so one of them is not what the forward pass should use:\n  ".to_owned();
        let listed: String = text::join(&found, "\n  ");
        e.append(listed.as_str());
        return Err(e);
    }
    let theta: u64 = read_rope(tc, "rope_theta", DEFAULT_THETA);
    let partial: u64 = read_rope(tc, "partial_rotary_factor", WHOLE);
    Ok(Survey { prefix, types, sizes, theta, partial })
}

/// What is wrong with a tensor that should have `expect` elements, if anything.
pub open spec fn want_fault(m: ModelSpec, name: Seq<char>, expect: nat) -> Option<Seq<char>> {
    match m.entry(name) {
        None => Some("no tensor named "@ + name),
        Some(e) => if product(e.shape) != expect {
            Some(
                name + ": got "@ + text::decimal(product(e.shape)) + " values, expected "@
                    + text::decimal(expect),
            )
        } else {
            None
        },
    }
}

/// Reads a tensor and requires an exact number of elements.
pub fn want(m: &Model, name: &str, expect: u128) -> (r: Result<Vec<u32>, String>)
    requires
        m.wf(),
    ensures
        match want_fault(m@, name@, expect as nat) {
            None => r is Ok && r->Ok_0@ == m@.values(name@) && r->Ok_0@.len() == expect,
            Some(e) => r is Err && r->Err_0@ == e,
        },
{
    match m.tensor(name) {
        Err(e) => Err(e),
        Ok(v) => {
            if v.len() as u128 != expect {
                let mut e: String = name.to_owned();
                e.append(": got ");
                text::push_decimal(&mut e, v.len() as u64);
                e.append(" values, expected ");
                text::push_decimal_wide(&mut e, expect);
                return Err(e);
            }
            Ok(v)
        },
    }
}

/// Tensors that are asked for, each with the number of its elements.
pub type Wants = Seq<(Seq<char>, nat)>;

/// The first fault of tensors that are asked for one after another.
pub open spec fn wants_fault(m: ModelSpec, wants: Wants) -> Option<Seq<char>>
    decreases wants.len(),
{
    if wants.len() == 0 {
        None
    } else {
        match wants_fault(m, wants.drop_last()) {
            Some(e) => Some(e),
            None => want_fault(m, wants.last().0, wants.last().1),
        }
    }
}

proof fn wants_stop(m: ModelSpec, wants: Wants, n: int)
    requires
        0 <= n <= wants.len(),
        wants_fault(m, wants.take(n)) is Some,
    ensures
        wants_fault(m, wants) == wants_fault(m, wants.take(n)),
    decreases wants.len(),
{
    if n < wants.len() {
        let d = wants.drop_last();
        assert(d.take(n) =~= wants.take(n));
        wants_stop(m, d, n);
    } else {
        assert(wants.take(n) =~= wants);
    }
}

pub open spec fn want_views(s: Seq<(String, u128)>) -> Wants {
    Seq::new(s.len(), |i: int| (s[i].0@, s[i].1 as nat))
}

fn want_all(m: &Model, wants: &Vec<(String, u128)>) -> (r: Result<Vec<Vec<u32>>, String>)
    requires
        m.wf(),
    ensures
        match wants_fault(m@, want_views(wants@)) {
            None => r is Ok && r->Ok_0@.len() == wants@.len() && forall|i: int|
                0 <= i < wants@.len() ==> (#[trigger] r->Ok_0@[i])@ == m@.values(
                    want_views(wants@)[i].0,
                ),
            Some(e) => r is Err && r->Err_0@ == e,
        },
{
    let ghost all = want_views(wants@);
    let mut out: Vec<Vec<u32>> = Vec::new();
    let mut i: usize = 0;
    assert(all.take(0) =~= Seq::empty());
    while i < wants.len()
        invariant
            i <= wants.len(),
            m.wf(),
            all == want_views(wants@),
            wants_fault(m@, all.take(i as int)) is None,
            out.len() == i,
            forall|k: int| 0 <= k < i ==> (#[trigger] out@[k])@ == m@.values(all[k].0),
        decreases wants.len() - i,
    {
        proof {
            let next = all.take(i as int + 1);
            assert(next.drop_last() =~= all.take(i as int));
            assert(next.last() == all[i as int]);
        }
        match want(m, wants[i].0.as_str(), wants[i].1) {
            Ok(v) => {
                out.push(v);
            },
            Err(e) => {
                proof {
                    wants_stop(m@, all, i as int + 1);
                }
                return Err(e);
            },
        }
        i += 1;
    }
    assert(all.take(all.len() as int) =~= all);
    Ok(out)
}

/// The tensors of a layer besides those of its mixer.
pub open spec fn common_wants(prefix: Seq<char>, layer: nat, s: Sizes) -> Wants {
    seq![
        (layer_name(prefix, layer, "input_layernorm.weight"@), s.hidden as nat),
        (layer_name(prefix, layer, "post_attention_layernorm.weight"@), s.hidden as nat),
        (
            layer_name(prefix, layer, "mlp.gate_proj.weight"@),
            (s.intermediate * s.hidden) as nat,
        ),
        (layer_name(prefix, layer, "mlp.up_proj.weight"@), (s.intermediate * s.hidden) as nat),
        (
            layer_name(prefix, layer, "mlp.down_proj.weight"@),
            (s.hidden * s.intermediate) as nat,
        ),
    ]
}

/// The tensors of a gated delta net.
pub open spec fn gdn_wants(prefix: Seq<char>, layer: nat, s: Sizes) -> Wants {
    seq![
        (
            layer_name(prefix, layer, "linear_attn.in_proj_qkv.weight"@),
            (s.conv_dim * s.hidden) as nat,
        ),
        (
            layer_name(prefix, layer, "linear_attn.in_proj_z.weight"@),
            (s.value_dim * s.hidden) as nat,
        ),
        (
            layer_name(prefix, layer, "linear_attn.in_proj_b.weight"@),
            (s.num_v_heads * s.hidden) as nat,
        ),
        (
            layer_name(prefix, layer, "linear_attn.in_proj_a.weight"@),
            (s.num_v_heads * s.hidden) as nat,
        ),
        (
            layer_name(prefix, layer, "linear_attn.conv1d.weight"@),
            (s.conv_dim * s.conv_kernel) as nat,
        ),
        (layer_name(prefix, layer, "linear_attn.A_log"@), s.num_v_heads as nat),
        (layer_name(prefix, layer, "linear_attn.dt_bias"@), s.num_v_heads as nat),
        (layer_name(prefix, layer, "linear_attn.norm.weight"@), s.head_v_dim as nat),
        (
            layer_name(prefix, layer, "linear_attn.out_proj.weight"@),
            (s.hidden * s.value_dim) as nat,
        ),
    ]
}

/// The tensors of a full-attention layer.
pub open spec fn attn_wants(prefix: Seq<char>, layer: nat, s: Sizes) -> Wants {
    seq![
        (layer_name(prefix, layer, "self_attn.q_proj.weight"@), (s.q_out * s.hidden) as nat),
        (layer_name(prefix, layer, "self_attn.k_proj.weight"@), (s.kv_out * s.hidden) as nat),
        (layer_name(prefix, layer, "self_attn.v_proj.weight"@), (s.kv_out * s.hidden) as nat),
        (
            layer_name(prefix, layer, "self_attn.o_proj.weight"@),
            (s.hidden * (s.num_heads * s.head_dim)) as nat,
        ),
        (layer_name(prefix, layer, "self_attn.q_norm.weight"@), s.head_dim as nat),
        (layer_name(prefix, layer, "self_attn.k_norm.weight"@), s.head_dim as nat),
    ]
}

/// The weights are the values of the wanted tensors, in their order.
pub open spec fn common_loaded(w: LayerWeights<u32>, m: ModelSpec, wants: Wants) -> bool {
    &&& w.input_layernorm@ == m.values(wants[0].0)
    &&& w.post_attention_layernorm@ == m.values(wants[1].0)
    &&& w.mlp.gate_proj@ == m.values(wants[2].0)
    &&& w.mlp.up_proj@ == m.values(wants[3].0)
    &&& w.mlp.down_proj@ == m.values(wants[4].0)
}

/// The weights are the values of the wanted tensors, in their order.
pub open spec fn gdn_loaded(w: GdnWeights<u32>, m: ModelSpec, wants: Wants) -> bool {
    &&& w.in_proj_qkv@ == m.values(wants[0].0)
    &&& w.in_proj_z@ == m.values(wants[1].0)
    &&& w.in_proj_b@ == m.values(wants[2].0)
    &&& w.in_proj_a@ == m.values(wants[3].0)
    &&& w.conv1d@ == m.values(wants[4].0)
    &&& w.a_log@ == m.values(wants[5].0)
    &&& w.dt_bias@ == m.values(wants[6].0)
    &&& w.norm@ == m.values(wants[7].0)
    &&& w.out_proj@ == m.values(wants[8].0)
}

/// The weights are the values of the wanted tensors, in their order.
pub open spec fn attn_loaded(w: AttnWeights<u32>, m: ModelSpec, wants: Wants) -> bool {
    &&& w.q_proj@ == m.values(wants[0].0)
    &&& w.k_proj@ == m.values(wants[1].0)
    &&& w.v_proj@ == m.values(wants[2].0)
    &&& w.o_proj@ == m.values(wants[3].0)
    &&& w.q_norm@ == m.values(wants[4].0)
    &&& w.k_norm@ == m.values(wants[5].0)
}

fn load_common(m: &Model, prefix: &str, layer: usize, s: &Sizes) -> (r: Result<
    LayerWeights<u32>,
    String,
>)
    requires
        m.wf(),
    ensures
        match wants_fault(m@, common_wants(prefix@, layer as nat, *s)) {
            None => r is Ok && common_loaded(
                r->Ok_0,
                m@,
                common_wants(prefix@, layer as nat, *s),
            ),
            Some(e) => r is Err && r->Err_0@ == e,
        },
{
    let mut wants: Vec<(String, u128)> = Vec::new();
    wants.push((layer_tensor(prefix, layer, "input_layernorm.weight"), s.hidden as u128));
    wants.push((layer_tensor(prefix, layer, "post_attention_layernorm.weight"), s.hidden as u128));
    wants.push(
        (
            layer_tensor(prefix, layer, "mlp.gate_proj.weight"),
            multiply(s.intermediate, s.hidden),
        ),
    );
    wants.push(
        (layer_tensor(prefix, layer, "mlp.up_proj.weight"), multiply(s.intermediate, s.hidden)),
    );
    wants.push(
        (
            layer_tensor(prefix, layer, "mlp.down_proj.weight"),
            multiply(s.hidden, s.intermediate),
        ),
    );
    assert(want_views(wants@) =~= common_wants(prefix@, layer as nat, *s));
    match want_all(m, &wants) {
        Err(e) => Err(e),
        Ok(mut w) => {
            let input_layernorm: Vec<u32> = w.remove(0);
            let post_attention_layernorm: Vec<u32> = w.remove(0);
            let gate_proj: Vec<u32> = w.remove(0);
            let up_proj: Vec<u32> = w.remove(0);
            let down_proj: Vec<u32> = w.remove(0);
            Ok(
                LayerWeights {
                    input_layernorm,
                    post_attention_layernorm,
                    mlp: MlpWeights { gate_proj, up_proj, down_proj },
                },
            )
        },
    }
}

fn load_gdn(m: &Model, prefix: &str, layer: usize, s: &Sizes) -> (r: Result<
    GdnWeights<u32>,
    String,
>)
    requires
        m.wf(),
    ensures
        match wants_fault(m@, gdn_wants(prefix@, layer as nat, *s)) {
            None => r is Ok && gdn_loaded(r->Ok_0, m@, gdn_wants(prefix@, layer as nat, *s)),
            Some(e) => r is Err && r->Err_0@ == e,
        },
{
    let mut wants: Vec<(String, u128)> = Vec::new();
    wants.push(
        (
            layer_tensor(prefix, layer, "linear_attn.in_proj_qkv.weight"),
            multiply(s.conv_dim, s.hidden),
        ),
    );
    wants.push(
        (
            layer_tensor(prefix, layer, "linear_attn.in_proj_z.weight"),
            multiply(s.value_dim, s.hidden),
        ),
    );
    wants.push(
        (
            layer_tensor(prefix, layer, "linear_attn.in_proj_b.weight"),
            multiply(s.num_v_heads, s.hidden),
        ),
    );
    wants.push(
        (
            layer_tensor(prefix, layer, "linear_attn.in_proj_a.weight"),
            multiply(s.num_v_heads, s.hidden),
        ),
    );
    wants.push(
        (
            layer_tensor(prefix, layer, "linear_attn.conv1d.weight"),
            multiply(s.conv_dim, s.conv_kernel),
        ),
    );
    wants.push((layer_tensor(prefix, layer, "linear_attn.A_log"), s.num_v_heads as u128));
    wants.push((layer_tensor(prefix, layer, "linear_attn.dt_bias"), s.num_v_heads as u128));
    wants.push((layer_tensor(prefix, layer, "linear_attn.norm.weight"), s.head_v_dim as u128));
    wants.push(
        (
            layer_tensor(prefix, layer, "linear_attn.out_proj.weight"),
            multiply(s.hidden, s.value_dim),
        ),
    );
    assert(want_views(wants@) =~= gdn_wants(prefix@, layer as nat, *s));
    match want_all(m, &wants) {
        Err(e) => Err(e),
        Ok(mut w) => {
            let in_proj_qkv: Vec<u32> = w.remove(0);
            let in_proj_z: Vec<u32> = w.remove(0);
            let in_proj_b: Vec<u32> = w.remove(0);
            let in_proj_a: Vec<u32> = w.remove(0);
            let conv1d: Vec<u32> = w.remove(0);
            let a_log: Vec<u32> = w.remove(0);
            let dt_bias: Vec<u32> = w.remove(0);
            let norm: Vec<u32> = w.remove(0);
            let out_proj: Vec<u32> = w.remove(0);
            Ok(
                GdnWeights {
                    in_proj_qkv,
                    in_proj_z,
                    in_proj_b,
                    in_proj_a,
                    conv1d,
                    a_log,
                    dt_bias,
                    norm,
                    out_proj,
                },
            )
        },
    }
}

fn load_attn(m: &Model, prefix: &str, layer: usize, s: &Sizes) -> (r: Result<
    AttnWeights<u32>,
    String,
>)
    requires
        m.wf(),
        s.num_heads * s.head_dim <= u64::MAX,
    ensures
        match wants_fault(m@, attn_wants(prefix@, layer as nat, *s)) {
            None => r is Ok && attn_loaded(r->Ok_0, m@, attn_wants(prefix@, layer as nat, *s)),
            Some(e) => r is Err && r->Err_0@ == e,
        },
{
    let width: u64 = s.num_heads * s.head_dim;
    let mut wants: Vec<(String, u128)> = Vec::new();
    wants.push(
        (layer_tensor(prefix, layer, "self_attn.q_proj.weight"), multiply(s.q_out, s.hidden)),
    );
    wants.push(
        (layer_tensor(prefix, layer, "self_attn.k_proj.weight"), multiply(s.kv_out, s.hidden)),
    );
    wants.push(
        (layer_tensor(prefix, layer, "self_attn.v_proj.weight"), multiply(s.kv_out, s.hidden)),
    );
    wants.push(
        (layer_tensor(prefix, layer, "self_attn.o_proj.weight"), multiply(s.hidden, width)),
    );
    wants.push((layer_tensor(prefix, layer, "self_attn.q_norm.weight"), s.head_dim as u128));
    wants.push((layer_tensor(prefix, layer, "self_attn.k_norm.weight"), s.head_dim as u128));
    assert(want_views(wants@) =~= attn_wants(prefix@, layer as nat, *s));
    match want_all(m, &wants) {
        Err(e) => Err(e),
        Ok(mut w) => {
            let q_proj: Vec<u32> = w.remove(0);
            let k_proj: Vec<u32> = w.remove(0);
            let v_proj: Vec<u32> = w.remove(0);
            let o_proj: Vec<u32> = w.remove(0);
            let q_norm: Vec<u32> = w.remove(0);
            let k_norm: Vec<u32> = w.remove(0);
            Ok(AttnWeights { q_proj, k_proj, v_proj, o_proj, q_norm, k_norm })
        },
    }
}

/// The first fault of a layer, if it has one.
pub open spec fn layer_fault(m: ModelSpec, s: SurveySpec, layer: nat) -> Option<Seq<char>> {
    match kind_result(s.types, layer as int) {
        Err(e) => Some(e),
        Ok(kind) => match wants_fault(m, common_wants(s.prefix, layer, s.sizes)) {
            Some(e) => Some(e),
            None => match kind {
                LayerKind::LinearAttention => wants_fault(
                    m,
                    gdn_wants(s.prefix, layer, s.sizes),
                ),
                LayerKind::FullAttention => wants_fault(
                    m,
                    attn_wants(s.prefix, layer, s.sizes),
                ),
            },
        },
    }
}

/// The weights of a layer are those of its tensors, and its mixer is of its kind.
pub open spec fn layer_loaded(
    w: LayerWeightsAll<u32>,
    m: ModelSpec,
    s: SurveySpec,
    layer: nat,
) -> bool {
    &&& kind_result(s.types, layer as int) == Ok::<LayerKind, Seq<char>>(w.kind)
    &&& common_loaded(w.layer, m, common_wants(s.prefix, layer, s.sizes))
    &&& match w.kind {
        LayerKind::LinearAttention => w.attn is None && w.gdn is Some && gdn_loaded(
            w.gdn->Some_0,
            m,
            gdn_wants(s.prefix, layer, s.sizes),
        ),
        LayerKind::FullAttention => w.gdn is None && w.attn is Some && attn_loaded(
            w.attn->Some_0,
            m,
            attn_wants(s.prefix, layer, s.sizes),
        ),
    }
}

fn load_layer(m: &Model, s: &Survey, layer: usize) -> (r: Result<LayerWeightsAll<u32>, String>)
    requires
        m.wf(),
        s.sizes.num_heads * s.sizes.head_dim <= u64::MAX,
    ensures
        match layer_fault(m@, s@, layer as nat) {
            None => r is Ok && layer_loaded(r->Ok_0, m@, s@, layer as nat),
            Some(e) => r is Err && r->Err_0@ == e,
        },
{
    let kind: LayerKind = match kind_of(s.types.as_slice(), layer) {
        Ok(k) => k,
        Err(e) => {
            return Err(e);
        },
    };
    let prefix: &str = s.prefix.as_str();
    let common: LayerWeights<u32> = match load_common(m, prefix, layer, &s.sizes) {
        Ok(w) => w,
        Err(e) => {
            return Err(e);
        },
    };
    match kind {
        LayerKind::LinearAttention => match load_gdn(m, prefix, layer, &s.sizes) {
            Ok(g) => Ok(LayerWeightsAll { kind, layer: common, gdn: Some(g), attn: None }),
            Err(e) => Err(e),
        },
        LayerKind::FullAttention => match load_attn(m, prefix, layer, &s.sizes) {
            Ok(a) => Ok(LayerWeightsAll { kind, layer: common, gdn: None, attn: Some(a) }),
            Err(e) => Err(e),
        },
    }
}

/// The first fault of the first `n` layers, if they have one.
pub open spec fn layers_fault(m: ModelSpec, s: SurveySpec, n: nat) -> Option<Seq<char>>
    decreases n,
{
    if n == 0 {
        None
    } else {
        match layers_fault(m, s, (n - 1) as nat) {
            Some(e) => Some(e),
            None => layer_fault(m, s, (n - 1) as nat),
        }
    }
}

proof fn layers_stop(m: ModelSpec, s: SurveySpec, k: nat, n: nat)
    requires
        k <= n,
        layers_fault(m, s, k) is Some,
    ensures
        layers_fault(m, s, n) == layers_fault(m, s, k),
    decreases n,
{
    if k < n {
        layers_stop(m, s, k, (n - 1) as nat);
    }
}

fn load_layers(m: &Model, s: &Survey) -> (r: Result<Vec<LayerWeightsAll<u32>>, String>)
    requires
        m.wf(),
        s.sizes.num_heads * s.sizes.head_dim <= u64::MAX,
        s.sizes.num_layers <= s.types@.len(),
    ensures
        match layers_fault(m@, s@, s.sizes.num_layers as nat) {
            None => r is Ok && r->Ok_0@.len() == s.sizes.num_layers && forall|i: int|
                0 <= i < r->Ok_0@.len() ==> layer_loaded(
                    #[trigger] r->Ok_0@[i],
                    m@,
                    s@,
                    i as nat,
                ),
            Some(e) => r is Err && r->Err_0@ == e,
        },
{
    let limit: usize = s.types.len();
    let n: usize = s.sizes.num_layers as usize;
    let mut out: Vec<LayerWeightsAll<u32>> = Vec::new();
    let mut i: usize = 0;
    while i < n
        invariant
            i <= n,
            n == s.sizes.num_layers,
            m.wf(),
            s.sizes.num_heads * s.sizes.head_dim <= u64::MAX,
            layers_fault(m@, s@, i as nat) is None,
            out.len() == i,
            forall|k: int|
                0 <= k < i ==> layer_loaded(#[trigger] out@[k], m@, s@, k as nat),
        decreases n - i,
    {
        match load_layer(m, s, i) {
            Ok(w) => {
                out.push(w);
            },
            Err(e) => {
                proof {
                    layers_stop(m@, s@, (i + 1) as nat, n as nat);
                }
                return Err(e);
            },
        }
        i += 1;
    }
    Ok(out)
}

/// The tensor that serves as the output head.
pub open spec fn head_result(root: JsonTree, m: ModelSpec, prefix: Seq<char>) -> Result<
    Seq<char>,
    Seq<char>,
> {
    let tied = match json::member_bool(settings(root), "tie_word_embeddings"@) {
        Some(b) => b,
        None => true,
    };
    if safetensors::has_tensor(m.shards, prefix + "lm_head.weight"@) {
        Ok(prefix + "lm_head.weight"@)
    } else if safetensors::has_tensor(m.shards, "lm_head.weight"@) {
        Ok("lm_head.weight"@)
    } else if tied {
        Ok(prefix + "embed_tokens.weight"@)
    } else {
        Err("tie_word_embeddings is false and the checkpoint has no lm_head.weight"@)
    }
}

/// Picks the tensor that serves as the output head.
pub fn head_name(root: &Json, m: &Model, prefix: &str) -> (r: Result<String, String>)
    requires
        m.wf(),
    ensures
        match head_result(root.tree(), m@, prefix@) {
            Ok(n) => r is Ok && r->Ok_0@ == n,
            Err(e) => r is Err && r->Err_0@ == e,
        },
{
    let tied: bool = match text_config(root).0.get_bool("tie_word_embeddings") {
        Some(b) => b,
        None => true,
    };
    let mut own: String = prefix.to_owned();
    own.append("lm_head.weight");
    if m.contains(own.as_str()) {
        return Ok(own);
    }
    if m.contains("lm_head.weight") {
        return Ok("lm_head.weight".to_owned());
    }
    if tied {
        let mut emb: String = prefix.to_owned();
        emb.append("embed_tokens.weight");
        return Ok(emb);
    }
    Err("tie_word_embeddings is false and the checkpoint has no lm_head.weight".to_owned())
}

/// How many of the named tensors have an element type.
pub open spec fn dtype_count(m: ModelSpec, names: Seq<Seq<char>>, d: Dtype) -> nat
    decreases names.len(),
{
    if names.len() == 0 {
        0
    } else {
        dtype_count(m, names.drop_last(), d) + (if m.entry(names.last()) is Some && m.entry(
            names.last(),
        )->Some_0.dtype == d {
            1nat
        } else {
            0
        })
    }
}

/// How many of the names are unused for a reason.
pub open spec fn unused_count(names: Seq<Seq<char>>, why: Seq<char>) -> nat
    decreases names.len(),
{
    if names.len() == 0 {
        0
    } else {
        unused_count(names.drop_last(), why) + (if unused_reason(names.last()) == Some(why) {
            1nat
        } else {
            0
        })
    }
}

/// The count under its name, unless it is zero.
pub open spec fn counted(name: Seq<char>, n: nat) -> Seq<(Seq<char>, nat)> {
    if n == 0 {
        Seq::empty()
    } else {
        seq![(name, n)]
    }
}

/// How many tensors there are of each element type, by the order of the tokens.
pub open spec fn dtype_counts(m: ModelSpec) -> Seq<(Seq<char>, nat)> {
    let names = safetensors::listing(m.shards);
    counted("BF16"@, dtype_count(m, names, Dtype::Bf16)) + counted(
        "F16"@,
        dtype_count(m, names, Dtype::F16),
    ) + counted("F32"@, dtype_count(m, names, Dtype::F32))
}

/// How many tensors are not used, by the order of the reasons.
pub open spec fn skipped_counts(m: ModelSpec) -> Seq<(Seq<char>, nat)> {
    let names = safetensors::listing(m.shards);
    counted(
        "multi-token-prediction head"@,
        unused_count(names, "multi-token-prediction head"@),
    ) + counted("vision tower"@, unused_count(names, "vision tower"@))
}

pub open spec fn count_views(s: Seq<(String, u64)>) -> Seq<(Seq<char>, nat)> {
    Seq::new(s.len(), |i: int| (s[i].0@, s[i].1 as nat))
}

fn push_count(out: &mut Vec<(String, u64)>, name: &str, n: u64)
    ensures
        count_views(final(out)@) == count_views(old(out)@) + counted(name@, n as nat),
{
    let ghost before = count_views(out@);
    if n > 0 {
        out.push((name.to_owned(), n));
    }
    assert(count_views(out@) =~= before + counted(name@, n as nat));
}

proof fn reasons_differ()
    ensures
        "vision tower"@ != "multi-token-prediction head"@,
{
    reveal_strlit("vision tower");
    reveal_strlit("multi-token-prediction head");
    assert("vision tower"@.len() != "multi-token-prediction head"@.len());
}

/// Counts the tensors by element type, and those that are not used by reason.
pub fn count_tensors(m: &Model) -> (r: (Vec<(String, u64)>, Vec<(String, u64)>))
    requires
        m.wf(),
    ensures
        count_views(r.0@) == dtype_counts(m@),
        count_views(r.1@) == skipped_counts(m@),
{
    let names: Vec<String> = m.names();
    let ghost all = text::views(names@);
    let mut brains: u64 = 0;
    let mut halves: u64 = 0;
    let mut singles: u64 = 0;
    let mut vision: u64 = 0;
    let mut mtp: u64 = 0;
    let mut i: usize = 0;
    assert(all.take(0) =~= Seq::empty());
    proof {
        reasons_differ();
    }
    while i < names.len()
        invariant
            i <= names.len(),
            m.wf(),
            all == text::views(names@),
            "vision tower"@ != "multi-token-prediction head"@,
            brains == dtype_count(m@, all.take(i as int), Dtype::Bf16),
            halves == dtype_count(m@, all.take(i as int), Dtype::F16),
            singles == dtype_count(m@, all.take(i as int), Dtype::F32),
            vision == unused_count(all.take(i as int), "vision tower"@),
            mtp == unused_count(all.take(i as int), "multi-token-prediction head"@),
            brains <= i,
            halves <= i,
            singles <= i,
            vision <= i,
            mtp <= i,
        decreases names.len() - i,
    {
        proof {
            let next = all.take(i as int + 1);
            assert(next.drop_last() =~= all.take(i as int));
            assert(next.last() == names[i as int]@);
        }
        match m.entry(names[i].as_str()) {
            Some(e) => match e.dtype {
                Dtype::Bf16 => {
                    brains += 1;
                },
                Dtype::F16 => {
                    halves += 1;
                },
                Dtype::F32 => {
                    singles += 1;
                },
            },
            None => {},
        }
        match is_unused(names[i].as_str()) {
            Some(why) => {
                if text::str_eq(why, "vision tower") {
                    vision += 1;
                } else {
                    mtp += 1;
                }
            },
            None => {},
        }
        i += 1;
    }
    assert(all.take(all.len() as int) =~= all);
    let mut dtypes: Vec<(String, u64)> = Vec::new();
    assert(count_views(dtypes@) =~= Seq::empty());
    push_count(&mut dtypes, "BF16", brains);
    assert(count_views(dtypes@) =~= counted("BF16"@, brains as nat));
    push_count(&mut dtypes, "F16", halves);
    push_count(&mut dtypes, "F32", singles);
    let mut skipped: Vec<(String, u64)> = Vec::new();
    assert(count_views(skipped@) =~= Seq::empty());
    push_count(&mut skipped, "multi-token-prediction head", mtp);
    assert(count_views(skipped@) =~= counted("multi-token-prediction head"@, mtp as nat));
    push_count(&mut skipped, "vision tower", vision);
    (dtypes, skipped)
}

/// The sizes by name, in the order of the names.
pub open spec fn derived_sizes(s: Sizes) -> Seq<(Seq<char>, nat)> {
    seq![
        ("conv_dim"@, s.conv_dim as nat),
        ("conv_kernel"@, s.conv_kernel as nat),
        ("head_dim"@, s.head_dim as nat),
        ("head_v_dim"@, s.head_v_dim as nat),
        ("hidden"@, s.hidden as nat),
        ("intermediate"@, s.intermediate as nat),
        ("key_dim"@, s.key_dim as nat),
        ("num_heads"@, s.num_heads as nat),
        ("num_kv_heads"@, s.num_kv_heads as nat),
        ("num_layers"@, s.num_layers as nat),
        ("num_v_heads"@, s.num_v_heads as nat),
        ("per_layer_tensors"@, 0),
        ("value_dim"@, s.value_dim as nat),
        ("vocab"@, s.vocab as nat),
    ]
}

fn list_derived(s: &Sizes) -> (r: Vec<(String, u64)>)
    ensures
        count_views(r@) == derived_sizes(*s),
{
    let mut out: Vec<(String, u64)> = Vec::new();
    out.push(("conv_dim".to_owned(), s.conv_dim));
    out.push(("conv_kernel".to_owned(), s.conv_kernel));
    out.push(("head_dim".to_owned(), s.head_dim));
    out.push(("head_v_dim".to_owned(), s.head_v_dim));
    out.push(("hidden".to_owned(), s.hidden));
    out.push(("intermediate".to_owned(), s.intermediate));
    out.push(("key_dim".to_owned(), s.key_dim));
    out.push(("num_heads".to_owned(), s.num_heads));
    out.push(("num_kv_heads".to_owned(), s.num_kv_heads));
    out.push(("num_layers".to_owned(), s.num_layers));
    out.push(("num_v_heads".to_owned(), s.num_v_heads));
    out.push(("per_layer_tensors".to_owned(), 0));
    out.push(("value_dim".to_owned(), s.value_dim));
    out.push(("vocab".to_owned(), s.vocab));
    assert(count_views(out@) =~= derived_sizes(*s));
    out
}

/// What a load reports.
pub struct LoadInfo {
    pub dir: String,
    pub prefix: String,
    /// Where in the config the settings stood.
    pub config_source: &'static str,
    pub shards: usize,
    pub tensors_total: usize,
    pub tensor_bytes: u64,
    pub dtype_counts: Vec<(String, u64)>,
    pub skipped: Vec<(String, u64)>,
    pub tied_embeddings: bool,
    /// Sizes as the tensors' shapes give them.
    pub derived: Vec<(String, u64)>,
}

/// A loaded model. Numbers of the config are the bits of doubles, weights the bits
/// of single-precision numbers.
pub struct RealModel {
    pub config: ModelConfig<u64>,
    pub weights: ModelWeights<u32>,
    pub info: LoadInfo,
}

/// The config of a surveyed model.
pub open spec fn config_of(s: SurveySpec, rotary_dim: u64, eps: u64) -> ModelConfig<u64> {
    ModelConfig {
        vocab: s.sizes.vocab,
        hidden: s.sizes.hidden,
        eps,
        gdn: GdnConfig {
            hidden: s.sizes.hidden,
            num_k_heads: s.sizes.num_k_heads,
            num_v_heads: s.sizes.num_v_heads,
            head_k_dim: s.sizes.head_k_dim,
            head_v_dim: s.sizes.head_v_dim,
            conv_kernel: s.sizes.conv_kernel,
            eps,
        },
        attn: AttnConfig {
            hidden: s.sizes.hidden,
            num_heads: s.sizes.num_heads,
            num_kv_heads: s.sizes.num_kv_heads,
            head_dim: s.sizes.head_dim,
            rotary_dim,
            rope_theta: s.theta,
            eps,
        },
    }
}

/// The first fault of assembling a surveyed model; `partial` is how the rotated
/// part of a head prints.
#[verifier::opaque]
pub open spec fn assemble_fault(
    root: JsonTree,
    m: ModelSpec,
    s: SurveySpec,
    rotary_dim: u64,
    partial: Seq<char>,
) -> Option<Seq<char>> {
    let z = s.sizes;
    if rotary_dim == 0 || rotary_dim > z.head_dim || rotary_dim % 2 != 0 {
        Some(
            "rotary_dim "@ + text::decimal(rotary_dim as nat) + " (head_dim "@ + text::decimal(
                z.head_dim as nat,
            ) + " * partial "@ + partial + ") is not a positive even number <= head_dim"@,
        )
    } else if json::member_double(settings(root), "rms_norm_eps"@) is None {
        Some("config has no rms_norm_eps"@)
    } else {
        match head_result(root, m, s.prefix) {
            Err(e) => Some(e),
            Ok(head) => match want_fault(
                m,
                s.prefix + "embed_tokens.weight"@,
                (z.vocab * z.hidden) as nat,
            ) {
                Some(e) => Some(e),
                None => match want_fault(m, head, (z.vocab * z.hidden) as nat) {
                    Some(e) => Some(e),
                    None => match layers_fault(m, s, z.num_layers as nat) {
                        Some(e) => Some(e),
                        None => match want_fault(m, s.prefix + "norm.weight"@, z.hidden as nat) {
                            Some(e) => Some(e),
                            None => if safetensors::shard_bytes(m.shards) > u64::MAX {
                                Some("the tensors' bytes overflow u64"@)
                            } else {
                                None
                            },
                        },
                    },
                },
            },
        }
    }
}

/// What an assembled model is.
#[verifier::opaque]
pub open spec fn assembled(
    r: RealModel,
    root: JsonTree,
    m: ModelSpec,
    s: SurveySpec,
    dir: Seq<char>,
    rotary_dim: u64,
) -> bool {
    let head = head_result(root, m, s.prefix)->Ok_0;
    let emb = s.prefix + "embed_tokens.weight"@;
    let eps = json::member_double(settings(root), "rms_norm_eps"@)->Some_0;
    &&& r.config == config_of(s, rotary_dim, eps)
    &&& r.weights.embed_tokens@ == m.values(emb)
    &&& r.weights.lm_head@ == m.values(head)
    &&& r.weights.final_norm@ == m.values(s.prefix + "norm.weight"@)
    &&& r.weights.layers@.len() == s.sizes.num_layers
    &&& forall|i: int|
        0 <= i < r.weights.layers@.len() ==> layer_loaded(
            #[trigger] r.weights.layers@[i],
            m,
            s,
            i as nat,
        )
    &&& r.info.dir@ == dir
    &&& r.info.prefix@ == s.prefix
    &&& r.info.config_source@ == settings_source(root)
    &&& r.info.shards == m.shards.len()
    &&& r.info.tensors_total == safetensors::listing(m.shards).len()
    &&& r.info.tensor_bytes == safetensors::shard_bytes(m.shards)
    &&& count_views(r.info.dtype_counts@) == dtype_counts(m)
    &&& count_views(r.info.skipped@) == skipped_counts(m)
    &&& r.info.tied_embeddings == (head == emb)
    &&& count_views(r.info.derived@) == derived_sizes(s.sizes)
}

/// A model that was assembled can be run: the embedding and the head have a row of
/// the hidden size for every token of the vocabulary, the last norm has the hidden
/// size, and every layer has the weights of its mixer.
pub proof fn assembled_model_can_run(
    r: RealModel,
    root: JsonTree,
    m: &Model,
    s: SurveySpec,
    dir: Seq<char>,
    rotary_dim: u64,
    partial: Seq<char>,
)
    requires
        m.wf(),
        assemble_fault(root, m@, s, rotary_dim, partial) is None,
        assembled(r, root, m@, s, dir, rotary_dim),
    ensures
        r.weights.embed_tokens@.len() == r.config.vocab * r.config.hidden,
        r.weights.lm_head@.len() == r.config.vocab * r.config.hidden,
        r.weights.final_norm@.len() == r.config.hidden,
        forall|i: int|
            0 <= i < r.weights.layers@.len() ==> (#[trigger] r.weights.layers@[i]).has_mixer(),
{
    reveal(assemble_fault);
    reveal(assembled);
    vstd::arithmetic::mul::lemma_mul_nonnegative(s.sizes.vocab as int, s.sizes.hidden as int);
    safetensors::values_fill_the_shape(m, s.prefix + "embed_tokens.weight"@);
    safetensors::values_fill_the_shape(m, head_result(root, m@, s.prefix)->Ok_0);
    safetensors::values_fill_the_shape(m, s.prefix + "norm.weight"@);
    assert forall|i: int| 0 <= i < r.weights.layers@.len() implies (
    #[trigger] r.weights.layers@[i]).has_mixer() by {
        assert(layer_loaded(r.weights.layers@[i], m@, s, i as nat));
    }
}

/// Assembles a surveyed model. `rotary_dim` is the rotated part of a head in
/// elements, and `partial` how that part prints as a fraction.
pub fn assemble(
    root: &Json,
    m: &Model,
    s: &Survey,
    dir: &str,
    rotary_dim: u64,
    partial: &str,
) -> (r: Result<RealModel, String>)
    requires
        m.wf(),
        survey_result(root.tree(), m@) == Ok::<SurveySpec, Seq<char>>(s@),
    ensures
        match assemble_fault(root.tree(), m@, s@, rotary_dim, partial@) {
            Some(e) => r is Err && r->Err_0@ == e,
            None => r is Ok && assembled(r->Ok_0, root.tree(), m@, s@, dir@, rotary_dim),
        },
{
    reveal(assemble_fault);
    reveal(assembled);
    let z: Sizes = s.sizes;
    proof {
        reveal(survey_result);
        let full = first_of(s@.types, z.num_layers as nat, "full_attention"@)->Some_0;
        let o = leading_axes(m@, layer_name(s@.prefix, full, "self_attn.o_proj.weight"@))->Ok_0;
        agreeing_sizes_are_consistent(settings(root.tree()), z, o);
        assert(s@.types.len() == s.types@.len());
    }
    if rotary_dim == 0 || rotary_dim > z.head_dim || rotary_dim % 2 != 0 {
        let mut e: String = "rotary_dim ".to_owned();
        text::push_decimal(&mut e, rotary_dim);
        e.append(" (head_dim ");
        text::push_decimal(&mut e, z.head_dim);
        e.append(" * partial ");
        e.append(partial);
        e.append(") is not a positive even number <= head_dim");
        return Err(e);
    }
    let (tc, config_source) = text_config(root);
    let eps: u64 = match tc.get_double("rms_norm_eps") {
        Some(bits) => bits,
        None => {
            return Err("config has no rms_norm_eps".to_owned());
        },
    };
    let prefix: &str = s.prefix.as_str();
    let head: String = match head_name(root, m, prefix) {
        Ok(n) => n,
        Err(e) => {
            return Err(e);
        },
    };
    let mut emb: String = prefix.to_owned();
    emb.append("embed_tokens.weight");
    let table: u128 = multiply(z.vocab, z.hidden);
    let embed_tokens: Vec<u32> = match want(m, emb.as_str(), table) {
        Ok(v) => v,
        Err(e) => {
            return Err(e);
        },
    };
    let lm_head: Vec<u32> = match want(m, head.as_str(), table) {
        Ok(v) => v,
        Err(e) => {
            return Err(e);
        },
    };
    let layers: Vec<LayerWeightsAll<u32>> = match load_layers(m, s) {
        Ok(l) => l,
        Err(e) => {
            return Err(e);
        },
    };
    let mut norm: String = prefix.to_owned();
    norm.append("norm.weight");
    let final_norm: Vec<u32> = match want(m, norm.as_str(), z.hidden as u128) {
        Ok(v) => v,
        Err(e) => {
            return Err(e);
        },
    };
    let tensor_bytes: u64 = match m.checked_tensor_bytes() {
        Some(n) => n,
        None => {
            return Err("the tensors' bytes overflow u64".to_owned());
        },
    };
    let (dtypes, skipped) = count_tensors(m);
    proof {
        m.index_is_listing();
    }
    Ok(
        RealModel {
            config: ModelConfig {
                vocab: z.vocab,
                hidden: z.hidden,
                eps,
                gdn: GdnConfig {
                    hidden: z.hidden,
                    num_k_heads: z.num_k_heads,
                    num_v_heads: z.num_v_heads,
                    head_k_dim: z.head_k_dim,
                    head_v_dim: z.head_v_dim,
                    conv_kernel: z.conv_kernel,
                    eps,
                },
                attn: AttnConfig {
                    hidden: z.hidden,
                    num_heads: z.num_heads,
                    num_kv_heads: z.num_kv_heads,
                    head_dim: z.head_dim,
                    rotary_dim,
                    rope_theta: s.theta,
                    eps,
                },
            },
            weights: ModelWeights { embed_tokens, final_norm, lm_head, layers },
            info: LoadInfo {
                dir: dir.to_owned(),
                prefix: prefix.to_owned(),
                config_source,
                shards: m.shards.len(),
                tensors_total: m.index.entries.len(),
                tensor_bytes,
                dtype_counts: dtypes,
                skipped,
                tied_embeddings: text::str_eq(head.as_str(), emb.as_str()),
                derived: list_derived(&z),
            },
        },
    )
}

/// What comes of loading a checkpoint whose config and files could be read:
/// `rotary` decides between what its results lead to.
pub open spec fn load_outcome<F: Fn(u64, u64) -> (u64, String)>(
    rotary: F,
    root: JsonTree,
    m: ModelSpec,
    dir: Seq<char>,
    r: Result<RealModel, String>,
) -> bool {
    match survey_result(root, m) {
        Err(e) => r is Err && r->Err_0@ == e,
        Ok(s) => exists|x: (u64, String)|
            {
                &&& #[trigger] call_ensures(rotary, (s.sizes.head_dim, s.partial), x)
                &&& match assemble_fault(root, m, s, x.0, x.1@) {
                    Some(e) => r is Err && r->Err_0@ == e,
                    None => r is Ok && assembled(r->Ok_0, root, m, s, dir, x.0),
                }
            },
    }
}

/// Loads a checkpoint whose config and files were read.
pub fn load_opened<F: Fn(u64, u64) -> (u64, String)>(
    dir: &str,
    root: &Json,
    m: &Model,
    rotary: F,
) -> (r: Result<RealModel, String>)
    requires
        m.wf(),
        forall|head_dim: u64, partial: u64| call_requires(rotary, (head_dim, partial)),
    ensures
        load_outcome(rotary, root.tree(), m@, dir@, r),
{
    let s: Survey = match survey(root, m) {
        Ok(s) => s,
        Err(e) => {
            return Err(e);
        },
    };
    let x: (u64, String) = rotary(s.sizes.head_dim, s.partial);
    let r = assemble(root, m, &s, dir, x.0, x.1.as_str());
    proof {
        let found = survey_result(root.tree(), m@)->Ok_0;
        assert(found == s@);
        assert(call_ensures(rotary, (found.sizes.head_dim, found.partial), x));
        assert(match assemble_fault(root.tree(), m@, found, x.0, x.1@) {
            Some(e) => r is Err && r->Err_0@ == e,
            None => r is Ok && assembled(r->Ok_0, root.tree(), m@, found, dir@, x.0),
        });
    }
    r
}

/// Loads a checkpoint directory, from its config and the bytes of its files.
///
/// `rotary` computes the rotated part of a head: from the width of a head and the
/// bits of the rotated fraction it gives the number of rotated elements and the
/// text of the fraction.
pub fn load<F: Fn(u64, u64) -> (u64, String)>(
    dir: &str,
    config_path: &str,
    config: Option<&[u8]>,
    files: Vec<(String, u64, Vec<u8>)>,
    rotary: F,
) -> (r: Result<RealModel, String>)
    requires
        forall|head_dim: u64, partial: u64| call_requires(rotary, (head_dim, partial)),
    ensures
        match config_result(
            dir@,
            config_path@,
            match config {
                Some(raw) => Some(json::json_document(raw@)),
                None => None,
            },
        ) {
            Err(e) => r is Err && r->Err_0@ == e,
            Ok(root) => if files@.len() == 0 {
                r is Err && r->Err_0@ == dir@ + ": no *.safetensors files"@
            } else {
                match safetensors::shards_result(safetensors::file_specs(files@)) {
                    Err(e) => r is Err && r->Err_0@ == e,
                    Ok(shards) => {
                        let m = ModelSpec {
                            shards,
                            bufs: Seq::new(files@.len(), |i: int| files@[i].2@),
                        };
                        load_outcome(rotary, root, m, dir@, r)
                    },
                }
            },
        },
{
    let root: Json = match read_config(dir, config_path, config) {
        Ok(root) => root,
        Err(e) => {
            return Err(e);
        },
    };
    let m: Model = match Model::open(dir, files) {
        Ok(m) => m,
        Err(e) => {
            return Err(e);
        },
    };
    load_opened(dir, &root, &m, rotary)
}

/// Sizes that are asked for one after another are all there, each in its place, or the
/// message of the first that is not comes back.
pub proof fn all_sizes_keep_their_places(s: Seq<Result<u64, Seq<char>>>)
    ensures
        match all_sizes(s) {
            Ok(v) => v.len() == s.len() && forall|i: int|
                0 <= i < s.len() ==> #[trigger] s[i] == Ok::<u64, Seq<char>>(v[i]),
            Err(e) => exists|k: int|
                0 <= k < s.len() && #[trigger] s[k] == Err::<u64, Seq<char>>(e) && forall|i: int|
                    0 <= i < k ==> #[trigger] s[i] is Ok,
        },
    decreases s.len(),
{
    if s.len() > 0 {
        let d = s.drop_last();
        let n = s.len() - 1;
        all_sizes_keep_their_places(d);
        assert(s[n] == s.last());
        match all_sizes(d) {
            Ok(v) => {
                assert forall|i: int| 0 <= i < n implies #[trigger] s[i] == Ok::<u64, Seq<char>>(
                    v[i],
                ) by {
                    assert(d[i] == s[i]);
                }
            },
            Err(e) => {
                let k = choose|k: int|
                    0 <= k < d.len() && #[trigger] d[k] == Err::<u64, Seq<char>>(e)
                        && forall|i: int| 0 <= i < k ==> #[trigger] d[i] is Ok;
                assert(s[k] == d[k]);
                assert forall|i: int| 0 <= i < k implies #[trigger] s[i] is Ok by {
                    assert(d[i] == s[i]);
                }
            },
        }
    }
}

/// The first layer of a type has it, and none before does; there is none exactly if no
/// layer has it.
pub proof fn first_of_is_the_first(types: Seq<Seq<char>>, n: nat, name: Seq<char>)
    requires
        n <= types.len(),
    ensures
        match first_of(types, n, name) {
            Some(k) => k < n && types[k as int] == name && forall|i: int|
                0 <= i < k ==> #[trigger] types[i] != name,
            None => forall|i: int| 0 <= i < n ==> #[trigger] types[i] != name,
        },
    decreases n,
{
    if n > 0 {
        first_of_is_the_first(types, (n - 1) as nat, name);
    }
}

/// The names that end in `embed_tokens.weight` are left when all others are taken out.
pub proof fn embeddings_are_all(names: Seq<Seq<char>>)
    ensures
        embeddings(names) == names.filter(
            |n: Seq<char>| text::ends_with(n, "embed_tokens.weight"@),
        ),
    decreases names.len(),
{
    reveal(Seq::filter);
    if names.len() > 0 {
        embeddings_are_all(names.drop_last());
    }
}

/// A prefix is found exactly if one name alone ends in `embed_tokens.weight`, and that
/// name is the prefix followed by it.
pub proof fn prefix_names_the_embedding(names: Seq<Seq<char>>, prefix: Seq<char>)
    requires
        prefix_result(names) == Ok::<Seq<char>, Seq<char>>(prefix),
    ensures
        names.contains(prefix + "embed_tokens.weight"@),
        names.filter(|n: Seq<char>| text::ends_with(n, "embed_tokens.weight"@)) == seq![
            prefix + "embed_tokens.weight"@,
        ],
{
    embeddings_are_all(names);
    embeddings_end_so(names);
    let found = embeddings(names);
    let name = found[0];
    let suffix = "embed_tokens.weight"@;
    let at = name.len() - suffix.len();
    assert(text::occurs_at(name, suffix, at));
    assert(name =~= name.take(at) + name.subrange(at, name.len() as int));
    assert(found =~= seq![prefix + suffix]);
    names.lemma_filter_contains_rev(
        |n: Seq<char>| text::ends_with(n, "embed_tokens.weight"@),
        name,
    );
}

/// The length of a tensor's axis, counted from the front.
pub open spec fn axis_is(m: ModelSpec, name: Seq<char>, axis: int, n: u64) -> bool {
    m.entry(name) matches Some(e) && axis < e.shape.len() && e.shape[axis] == n
}

/// The number of a setting.
pub open spec fn setting_is(tc: JsonTree, key: Seq<char>, n: u64) -> bool {
    json::member_unsigned(tc, key) == Some(n)
}

/// The type is that of the layer and of none before it.
pub open spec fn is_first(types: Seq<Seq<char>>, layer: nat, name: Seq<char>) -> bool {
    &&& layer < types.len()
    &&& types[layer as int] == name
    &&& forall|i: int| 0 <= i < layer ==> #[trigger] types[i] != name
}

/// Where each size of a surveyed model comes from: an axis of the tensor of this name of
/// the first linear or the first full layer, or a setting of this name.
pub proof fn every_size_has_its_source(root: JsonTree, m: ModelSpec, linear: nat, full: nat)
    requires
        survey_result(root, m) is Ok,
        is_first(survey_result(root, m)->Ok_0.types, linear, "linear_attention"@),
        is_first(survey_result(root, m)->Ok_0.types, full, "full_attention"@),
    ensures
        ({
            let s = survey_result(root, m)->Ok_0;
            let z = s.sizes;
            let tc = settings(root);
            let p = s.prefix;
            let l = p + "layers."@ + text::decimal(linear) + "."@;
            let f = p + "layers."@ + text::decimal(full) + "."@;
            &&& linear < z.num_layers && full < z.num_layers
            &&& z.num_layers <= s.types.len()
            &&& setting_is(tc, "num_hidden_layers"@, z.num_layers)
            &&& axis_is(m, p + "embed_tokens.weight"@, 0, z.vocab)
            &&& axis_is(m, p + "embed_tokens.weight"@, 1, z.hidden)
            &&& axis_is(
                m,
                p + "layers."@ + text::decimal(0) + "."@ + "mlp.gate_proj.weight"@,
                0,
                z.intermediate,
            )
            &&& axis_is(m, l + "linear_attn.in_proj_qkv.weight"@, 0, z.conv_dim)
            &&& axis_is(m, l + "linear_attn.in_proj_z.weight"@, 0, z.value_dim)
            &&& axis_is(m, l + "linear_attn.in_proj_b.weight"@, 0, z.num_v_heads)
            &&& axis_is(m, l + "linear_attn.norm.weight"@, 0, z.head_v_dim)
            &&& m.entry(l + "linear_attn.conv1d.weight"@) matches Some(e) && e.shape.len() > 0
                && e.shape.last() == z.conv_kernel
            &&& axis_is(m, f + "self_attn.q_proj.weight"@, 0, z.q_out)
            &&& axis_is(m, f + "self_attn.k_proj.weight"@, 0, z.kv_out)
            &&& axis_is(m, f + "self_attn.o_proj.weight"@, 0, z.hidden)
            &&& axis_is(m, f + "self_attn.o_proj.weight"@, 1, (z.num_heads * z.head_dim) as u64)
            &&& setting_is(tc, "head_dim"@, z.head_dim)
            &&& setting_is(tc, "num_attention_heads"@, z.num_heads)
            &&& setting_is(tc, "num_key_value_heads"@, z.num_kv_heads)
            &&& setting_is(tc, "linear_num_key_heads"@, z.num_k_heads)
            &&& setting_is(tc, "linear_key_head_dim"@, z.head_k_dim)
            &&& setting_is(tc, "linear_num_value_heads"@, z.num_v_heads)
            &&& setting_is(tc, "linear_value_head_dim"@, z.head_v_dim)
            &&& z.conv_dim == 2 * (z.num_k_heads * z.head_k_dim) + z.num_v_heads * z.head_v_dim
            &&& z.value_dim == z.num_v_heads * z.head_v_dim
            &&& z.q_out == 2 * (z.num_heads * z.head_dim)
            &&& z.kv_out == z.num_kv_heads * z.head_dim
        }),
{
    reveal(survey_result);
    let s = survey_result(root, m)->Ok_0;
    let z = s.sizes;
    let tc = settings(root);
    let n = z.num_layers as nat;
    first_of_is_the_first(s.types, n, "linear_attention"@);
    first_of_is_the_first(s.types, n, "full_attention"@);
    let l = first_of(s.types, n, "linear_attention"@)->Some_0;
    let f = first_of(s.types, n, "full_attention"@)->Some_0;
    assert(l == linear) by {
        if l < linear {
            assert(s.types[l as int] != "linear_attention"@);
        }
    }
    assert(f == full) by {
        if f < full {
            assert(s.types[f as int] != "full_attention"@);
        }
    }
    let req = shape_requests(m, tc, s.prefix, l, f);
    let lin = linear_requests(tc);
    all_sizes_keep_their_places(req);
    all_sizes_keep_their_places(lin);
    let v = all_sizes(req)->Ok_0;
    let w = all_sizes(lin)->Ok_0;
    assert(req[0] == Ok::<u64, Seq<char>>(v[0]) && req[1] == Ok::<u64, Seq<char>>(v[1]));
    assert(req[2] == Ok::<u64, Seq<char>>(v[2]) && req[3] == Ok::<u64, Seq<char>>(v[3]));
    assert(req[4] == Ok::<u64, Seq<char>>(v[4]) && req[5] == Ok::<u64, Seq<char>>(v[5]));
    assert(req[6] == Ok::<u64, Seq<char>>(v[6]) && req[7] == Ok::<u64, Seq<char>>(v[7]));
    assert(req[8] == Ok::<u64, Seq<char>>(v[8]) && req[9] == Ok::<u64, Seq<char>>(v[9]));
    assert(lin[0] == Ok::<u64, Seq<char>>(w[0]) && lin[1] == Ok::<u64, Seq<char>>(w[1]));
    assert(lin[2] == Ok::<u64, Seq<char>>(w[2]) && lin[3] == Ok::<u64, Seq<char>>(w[3]));
    let o = leading_axes(m, layer_name(s.prefix, f, "self_attn.o_proj.weight"@))->Ok_0;
    agreeing_sizes_are_consistent(tc, z, o);
}

/// Sizes that fit together are not complained of.
pub proof fn consistent_sizes_have_no_problems(tc: JsonTree, s: Sizes, o: (u64, u64))
    requires
        json::member_unsigned(tc, "hidden_size"@) matches Some(n) ==> n == s.hidden,
        json::member_unsigned(tc, "vocab_size"@) matches Some(n) ==> n == s.vocab,
        json::member_unsigned(tc, "intermediate_size"@) matches Some(n) ==> n == s.intermediate,
        json::member_unsigned(tc, "linear_conv_kernel_dim"@) matches Some(n) ==> n == s.conv_kernel,
        s.num_v_heads == s.config_v_heads,
        s.head_v_dim == s.config_v_dim,
        s.key_dim == s.num_k_heads * s.head_k_dim,
        s.value_dim == s.num_v_heads * s.head_v_dim,
        s.conv_dim == 2 * s.key_dim + s.value_dim,
        s.q_out == 2 * (s.num_heads * s.head_dim),
        s.kv_out == s.num_kv_heads * s.head_dim,
        s.num_kv_heads != 0,
        s.num_heads % s.num_kv_heads == 0,
        s.num_k_heads != 0,
        s.num_v_heads % s.num_k_heads == 0,
        s.num_heads * s.head_dim <= u64::MAX,
        o == (s.hidden, (s.num_heads * s.head_dim) as u64),
    ensures
        problems(tc, s, o).len() == 0,
{
    vstd::arithmetic::mul::lemma_mul_nonnegative(s.num_heads as int, s.head_dim as int);
    assert(s.num_heads as nat % s.num_kv_heads as nat == 0);
    assert(s.num_v_heads as nat % s.num_k_heads as nat == 0);
}

/// Every weight of a loaded layer is the tensor of its own name.
pub open spec fn layer_is_its_tensors(
    w: LayerWeightsAll<u32>,
    m: ModelSpec,
    prefix: Seq<char>,
    i: nat,
) -> bool {
    let p = prefix + "layers."@ + text::decimal(i) + "."@;
    &&& w.layer.input_layernorm@ == m.values(p + "input_layernorm.weight"@)
    &&& w.layer.post_attention_layernorm@ == m.values(p + "post_attention_layernorm.weight"@)
    &&& w.layer.mlp.gate_proj@ == m.values(p + "mlp.gate_proj.weight"@)
    &&& w.layer.mlp.up_proj@ == m.values(p + "mlp.up_proj.weight"@)
    &&& w.layer.mlp.down_proj@ == m.values(p + "mlp.down_proj.weight"@)
    &&& w.gdn is Some <==> w.kind is LinearAttention
    &&& w.attn is Some <==> w.kind is FullAttention
    &&& w.gdn matches Some(g) ==> {
        &&& g.in_proj_qkv@ == m.values(p + "linear_attn.in_proj_qkv.weight"@)
        &&& g.in_proj_z@ == m.values(p + "linear_attn.in_proj_z.weight"@)
        &&& g.in_proj_b@ == m.values(p + "linear_attn.in_proj_b.weight"@)
        &&& g.in_proj_a@ == m.values(p + "linear_attn.in_proj_a.weight"@)
        &&& g.conv1d@ == m.values(p + "linear_attn.conv1d.weight"@)
        &&& g.a_log@ == m.values(p + "linear_attn.A_log"@)
        &&& g.dt_bias@ == m.values(p + "linear_attn.dt_bias"@)
        &&& g.norm@ == m.values(p + "linear_attn.norm.weight"@)
        &&& g.out_proj@ == m.values(p + "linear_attn.out_proj.weight"@)
    }
    &&& w.attn matches Some(a) ==> {
        &&& a.q_proj@ == m.values(p + "self_attn.q_proj.weight"@)
        &&& a.k_proj@ == m.values(p + "self_attn.k_proj.weight"@)
        &&& a.v_proj@ == m.values(p + "self_attn.v_proj.weight"@)
        &&& a.o_proj@ == m.values(p + "self_attn.o_proj.weight"@)
        &&& a.q_norm@ == m.values(p + "self_attn.q_norm.weight"@)
        &&& a.k_norm@ == m.values(p + "self_attn.k_norm.weight"@)
    }
}

/// A loaded model has in each place the tensor of the name that belongs there: the
/// layers by their numbers, each with the mixer that the config lists for it, the
/// embedding, the last norm, and as the head the tensor `lm_head.weight` with or without
/// the prefix, or else the embedding.
pub proof fn loaded_weights_are_their_tensors(
    r: RealModel,
    root: JsonTree,
    m: ModelSpec,
    s: SurveySpec,
    dir: Seq<char>,
    rotary_dim: u64,
    partial: Seq<char>,
)
    requires
        assemble_fault(root, m, s, rotary_dim, partial) is None,
        assembled(r, root, m, s, dir, rotary_dim),
    ensures
        r.weights.layers@.len() == s.sizes.num_layers,
        forall|i: int|
            0 <= i < r.weights.layers@.len() ==> layer_is_its_tensors(
                #[trigger] r.weights.layers@[i],
                m,
                s.prefix,
                i as nat,
            ),
        forall|i: int|
            0 <= i < r.weights.layers@.len() ==> s.types[i] == (match (
            #[trigger] r.weights.layers@[i]).kind {
                LayerKind::LinearAttention => "linear_attention"@,
                LayerKind::FullAttention => "full_attention"@,
            }),
        r.weights.embed_tokens@ == m.values(s.prefix + "embed_tokens.weight"@),
        r.weights.final_norm@ == m.values(s.prefix + "norm.weight"@),
        m.entry(s.prefix + "lm_head.weight"@) is Some ==> r.weights.lm_head@ == m.values(
            s.prefix + "lm_head.weight"@,
        ),
        m.entry(s.prefix + "lm_head.weight"@) is None && m.entry("lm_head.weight"@) is Some
            ==> r.weights.lm_head@ == m.values("lm_head.weight"@),
        m.entry(s.prefix + "lm_head.weight"@) is None && m.entry("lm_head.weight"@) is None
            ==> r.weights.lm_head@ == r.weights.embed_tokens@ && r.info.tied_embeddings
            && json::member_bool(settings(root), "tie_word_embeddings"@) != Some(false),
{
    reveal(assembled);
    reveal(assemble_fault);
    assert forall|i: int| 0 <= i < r.weights.layers@.len() implies layer_is_its_tensors(
        #[trigger] r.weights.layers@[i],
        m,
        s.prefix,
        i as nat,
    ) by {
        assert(layer_loaded(r.weights.layers@[i], m, s, i as nat));
    }
    assert forall|i: int| 0 <= i < r.weights.layers@.len() implies s.types[i] == (match (
    #[trigger] r.weights.layers@[i]).kind {
        LayerKind::LinearAttention => "linear_attention"@,
        LayerKind::FullAttention => "full_attention"@,
    }) by {
        assert(layer_loaded(r.weights.layers@[i], m, s, i as nat));
    }
}

/// The config of a loaded model has each size in its own place, and the settings of the
/// rotation and the norms.
pub proof fn loaded_config_has_the_sizes(
    r: RealModel,
    root: JsonTree,
    m: ModelSpec,
    s: SurveySpec,
    dir: Seq<char>,
    rotary_dim: u64,
    partial: Seq<char>,
)
    requires
        assemble_fault(root, m, s, rotary_dim, partial) is None,
        assembled(r, root, m, s, dir, rotary_dim),
    ensures
        r.config.vocab == s.sizes.vocab && r.config.hidden == s.sizes.hidden,
        r.config.gdn.hidden == s.sizes.hidden && r.config.attn.hidden == s.sizes.hidden,
        r.config.gdn.num_k_heads == s.sizes.num_k_heads,
        r.config.gdn.num_v_heads == s.sizes.num_v_heads,
        r.config.gdn.head_k_dim == s.sizes.head_k_dim,
        r.config.gdn.head_v_dim == s.sizes.head_v_dim,
        r.config.gdn.conv_kernel == s.sizes.conv_kernel,
        r.config.attn.num_heads == s.sizes.num_heads,
        r.config.attn.num_kv_heads == s.sizes.num_kv_heads,
        r.config.attn.head_dim == s.sizes.head_dim,
        r.config.attn.rotary_dim == rotary_dim,
        0 < rotary_dim <= s.sizes.head_dim,
        rotary_dim % 2 == 0,
        r.config.attn.rope_theta == s.theta,
        json::member_double(settings(root), "rms_norm_eps"@) == Some(r.config.eps),
        r.config.gdn.eps == r.config.eps && r.config.attn.eps == r.config.eps,
        r.info.prefix@ == s.prefix && r.info.dir@ == dir,
        r.info.shards == m.shards.len(),
        r.info.tensors_total == safetensors::listing(m.shards).len(),
        r.info.tied_embeddings <==> m.entry(s.prefix + "lm_head.weight"@) is None && m.entry(
            "lm_head.weight"@,
        ) is None,
{
    reveal(assembled);
    reveal(assemble_fault);
    reveal_strlit("lm_head.weight");
    reveal_strlit("embed_tokens.weight");
    let emb = s.prefix + "embed_tokens.weight"@;
    assert(emb.len() == s.prefix.len() + 19);
    assert("lm_head.weight"@.len() == 14);
    assert((s.prefix + "lm_head.weight"@).len() == s.prefix.len() + 14);
}

proof fn wanted_sizes(m: &Model, wants: Wants, i: int)
    requires
        m.wf(),
        wants_fault(m@, wants) is None,
        0 <= i < wants.len(),
    ensures
        m@.entry(wants[i].0) is Some,
        m@.values(wants[i].0).len() == wants[i].1,
    decreases wants.len(),
{
    if i < wants.len() - 1 {
        assert(wants.drop_last()[i] == wants[i]);
        wanted_sizes(m, wants.drop_last(), i);
    } else {
        assert(want_fault(m@, wants[i].0, wants[i].1) is None);
        safetensors::values_fill_the_shape(m, wants[i].0);
    }
}

proof fn layers_have_no_fault(m: ModelSpec, s: SurveySpec, n: nat, i: nat)
    requires
        i < n,
        layers_fault(m, s, n) is None,
    ensures
        layer_fault(m, s, i) is None,
    decreases n,
{
    if i < n - 1 {
        layers_have_no_fault(m, s, (n - 1) as nat, i);
    }
}

/// Every weight of a loaded model is as large as the sizes of its config demand.
pub proof fn loaded_weights_have_their_sizes(
    r: RealModel,
    root: JsonTree,
    m: &Model,
    s: SurveySpec,
    dir: Seq<char>,
    rotary_dim: u64,
    partial: Seq<char>,
    i: int,
)
    requires
        m.wf(),
        survey_result(root, m@) == Ok::<SurveySpec, Seq<char>>(s),
        assemble_fault(root, m@, s, rotary_dim, partial) is None,
        assembled(r, root, m@, s, dir, rotary_dim),
        0 <= i < r.weights.layers@.len(),
    ensures
        ({
            let w = r.weights.layers@[i];
            let h = r.config.hidden as int;
            let c = r.config.gdn;
            let a = r.config.attn;
            let keys = c.num_k_heads * c.head_k_dim;
            let values = c.num_v_heads * c.head_v_dim;
            let n = s.sizes.intermediate as int;
            &&& w.layer.input_layernorm@.len() == h
            &&& w.layer.post_attention_layernorm@.len() == h
            &&& w.layer.mlp.gate_proj@.len() == n * h
            &&& w.layer.mlp.up_proj@.len() == n * h
            &&& w.layer.mlp.down_proj@.len() == h * n
            &&& w.gdn matches Some(g) ==> {
                &&& g.in_proj_qkv@.len() == (2 * keys + values) * h
                &&& g.in_proj_z@.len() == values * h
                &&& g.in_proj_b@.len() == c.num_v_heads * h
                &&& g.in_proj_a@.len() == c.num_v_heads * h
                &&& g.conv1d@.len() == (2 * keys + values) * c.conv_kernel
                &&& g.a_log@.len() == c.num_v_heads
                &&& g.dt_bias@.len() == c.num_v_heads
                &&& g.norm@.len() == c.head_v_dim
                &&& g.out_proj@.len() == h * values
            }
            &&& w.attn matches Some(f) ==> {
                &&& f.q_proj@.len() == (2 * (a.num_heads * a.head_dim)) * h
                &&& f.k_proj@.len() == (a.num_kv_heads * a.head_dim) * h
                &&& f.v_proj@.len() == (a.num_kv_heads * a.head_dim) * h
                &&& f.o_proj@.len() == h * (a.num_heads * a.head_dim)
                &&& f.q_norm@.len() == a.head_dim
                &&& f.k_norm@.len() == a.head_dim
            }
        }),
{
    let z = s.sizes;
    let w = r.weights.layers@[i];
    let l = i as nat;
    assert(z.num_v_heads == z.config_v_heads && z.key_dim == z.num_k_heads * z.head_k_dim
        && z.value_dim == z.num_v_heads * z.head_v_dim && z.conv_dim == 2 * z.key_dim + z.value_dim
        && z.q_out == 2 * (z.num_heads * z.head_dim) && z.kv_out == z.num_kv_heads * z.head_dim) by {
        reveal(survey_result);
        let full = first_of(s.types, z.num_layers as nat, "full_attention"@)->Some_0;
        let o = leading_axes(m@, layer_name(s.prefix, full, "self_attn.o_proj.weight"@))->Ok_0;
        agreeing_sizes_are_consistent(settings(root), z, o);
    }
    assert(layer_loaded(w, m@, s, l) && layer_fault(m@, s, l) is None && r.config.hidden
        == z.hidden && r.config.gdn.num_k_heads == z.num_k_heads && r.config.gdn.num_v_heads
        == z.num_v_heads && r.config.gdn.head_k_dim == z.head_k_dim && r.config.gdn.head_v_dim
        == z.head_v_dim && r.config.gdn.conv_kernel == z.conv_kernel && r.config.attn.num_heads
        == z.num_heads && r.config.attn.num_kv_heads == z.num_kv_heads && r.config.attn.head_dim
        == z.head_dim) by {
        reveal(assembled);
        reveal(assemble_fault);
        layers_have_no_fault(m@, s, z.num_layers as nat, l);
    }
    common_sizes(m, s.prefix, l, z, w.layer);
    match w.kind {
        LayerKind::LinearAttention => {
            gdn_sizes(m, s.prefix, l, z, w.gdn->Some_0);
        },
        LayerKind::FullAttention => {
            attn_sizes(m, s.prefix, l, z, w.attn->Some_0);
        },
    }
}

proof fn common_sizes(m: &Model, prefix: Seq<char>, l: nat, z: Sizes, w: LayerWeights<u32>)
    requires
        m.wf(),
        wants_fault(m@, common_wants(prefix, l, z)) is None,
        common_loaded(w, m@, common_wants(prefix, l, z)),
    ensures
        w.input_layernorm@.len() == z.hidden,
        w.post_attention_layernorm@.len() == z.hidden,
        w.mlp.gate_proj@.len() == z.intermediate * z.hidden,
        w.mlp.up_proj@.len() == z.intermediate * z.hidden,
        w.mlp.down_proj@.len() == z.hidden * z.intermediate,
{
    let wants = common_wants(prefix, l, z);
    products_are_counts(z);
    wanted_sizes(m, wants, 0);
    wanted_sizes(m, wants, 1);
    wanted_sizes(m, wants, 2);
    wanted_sizes(m, wants, 3);
    wanted_sizes(m, wants, 4);
}

proof fn gdn_sizes(m: &Model, prefix: Seq<char>, l: nat, z: Sizes, g: GdnWeights<u32>)
    requires
        m.wf(),
        wants_fault(m@, gdn_wants(prefix, l, z)) is None,
        gdn_loaded(g, m@, gdn_wants(prefix, l, z)),
    ensures
        g.in_proj_qkv@.len() == z.conv_dim * z.hidden,
        g.in_proj_z@.len() == z.value_dim * z.hidden,
        g.in_proj_b@.len() == z.num_v_heads * z.hidden,
        g.in_proj_a@.len() == z.num_v_heads * z.hidden,
        g.conv1d@.len() == z.conv_dim * z.conv_kernel,
        g.a_log@.len() == z.num_v_heads,
        g.dt_bias@.len() == z.num_v_heads,
        g.norm@.len() == z.head_v_dim,
        g.out_proj@.len() == z.hidden * z.value_dim,
{
    let wants = gdn_wants(prefix, l, z);
    products_are_counts(z);
    wanted_sizes(m, wants, 0);
    wanted_sizes(m, wants, 1);
    wanted_sizes(m, wants, 2);
    wanted_sizes(m, wants, 3);
    wanted_sizes(m, wants, 4);
    wanted_sizes(m, wants, 5);
    wanted_sizes(m, wants, 6);
    wanted_sizes(m, wants, 7);
    wanted_sizes(m, wants, 8);
}

proof fn attn_sizes(m: &Model, prefix: Seq<char>, l: nat, z: Sizes, f: AttnWeights<u32>)
    requires
        m.wf(),
        wants_fault(m@, attn_wants(prefix, l, z)) is None,
        attn_loaded(f, m@, attn_wants(prefix, l, z)),
    ensures
        f.q_proj@.len() == z.q_out * z.hidden,
        f.k_proj@.len() == z.kv_out * z.hidden,
        f.v_proj@.len() == z.kv_out * z.hidden,
        f.o_proj@.len() == z.hidden * (z.num_heads * z.head_dim),
        f.q_norm@.len() == z.head_dim,
        f.k_norm@.len() == z.head_dim,
{
    let wants = attn_wants(prefix, l, z);
    products_are_counts(z);
    wanted_sizes(m, wants, 0);
    wanted_sizes(m, wants, 1);
    wanted_sizes(m, wants, 2);
    wanted_sizes(m, wants, 3);
    wanted_sizes(m, wants, 4);
    wanted_sizes(m, wants, 5);
}

proof fn products_are_counts(z: Sizes)
    ensures
        z.intermediate * z.hidden >= 0,
        z.hidden * z.intermediate >= 0,
        z.conv_dim * z.hidden >= 0,
        z.value_dim * z.hidden >= 0,
        z.num_v_heads * z.hidden >= 0,
        z.conv_dim * z.conv_kernel >= 0,
        z.hidden * z.value_dim >= 0,
        z.q_out * z.hidden >= 0,
        z.kv_out * z.hidden >= 0,
        z.hidden * (z.num_heads * z.head_dim) >= 0,
{
    vstd::arithmetic::mul::lemma_mul_nonnegative(z.intermediate as int, z.hidden as int);
    vstd::arithmetic::mul::lemma_mul_nonnegative(z.hidden as int, z.intermediate as int);
    vstd::arithmetic::mul::lemma_mul_nonnegative(z.conv_dim as int, z.hidden as int);
    vstd::arithmetic::mul::lemma_mul_nonnegative(z.value_dim as int, z.hidden as int);
    vstd::arithmetic::mul::lemma_mul_nonnegative(z.num_v_heads as int, z.hidden as int);
    vstd::arithmetic::mul::lemma_mul_nonnegative(z.conv_dim as int, z.conv_kernel as int);
    vstd::arithmetic::mul::lemma_mul_nonnegative(z.hidden as int, z.value_dim as int);
    vstd::arithmetic::mul::lemma_mul_nonnegative(z.q_out as int, z.hidden as int);
    vstd::arithmetic::mul::lemma_mul_nonnegative(z.kv_out as int, z.hidden as int);
    vstd::arithmetic::mul::lemma_mul_nonnegative(z.num_heads as int, z.head_dim as int);
    vstd::arithmetic::mul::lemma_mul_nonnegative(z.hidden as int, z.num_heads * z.head_dim);
}

/// Tensors are counted by element type and by why they are not used: each count is how
/// many of the names are left when the others are taken out.
pub proof fn tensors_are_counted(
    m: ModelSpec,
    names: Seq<Seq<char>>,
    d: Dtype,
    why: Seq<char>,
)
    ensures
        dtype_count(m, names, d) == names.filter(
            |n: Seq<char>| m.entry(n) matches Some(e) && e.dtype == d,
        ).len(),
        unused_count(names, why) == names.filter(
            |n: Seq<char>| unused_reason(n) == Some(why),
        ).len(),
    decreases names.len(),
{
    reveal(Seq::filter);
    if names.len() > 0 {
        tensors_are_counted(m, names.drop_last(), d, why);
    }
}

/// The sizes that a load reports are listed under their own names.
pub proof fn derived_sizes_have_their_names(s: Sizes)
    ensures
        derived_sizes(s).len() == 14,
        derived_sizes(s).contains(("vocab"@, s.vocab as nat)),
        derived_sizes(s).contains(("hidden"@, s.hidden as nat)),
        derived_sizes(s).contains(("intermediate"@, s.intermediate as nat)),
        derived_sizes(s).contains(("num_layers"@, s.num_layers as nat)),
        derived_sizes(s).contains(("conv_dim"@, s.conv_dim as nat)),
        derived_sizes(s).contains(("key_dim"@, s.key_dim as nat)),
        derived_sizes(s).contains(("value_dim"@, s.value_dim as nat)),
        derived_sizes(s).contains(("num_v_heads"@, s.num_v_heads as nat)),
        derived_sizes(s).contains(("head_v_dim"@, s.head_v_dim as nat)),
        derived_sizes(s).contains(("conv_kernel"@, s.conv_kernel as nat)),
        derived_sizes(s).contains(("head_dim"@, s.head_dim as nat)),
        derived_sizes(s).contains(("num_heads"@, s.num_heads as nat)),
        derived_sizes(s).contains(("num_kv_heads"@, s.num_kv_heads as nat)),
{
    let d = derived_sizes(s);
    assert(d[13] == ("vocab"@, s.vocab as nat) && d[4] == ("hidden"@, s.hidden as nat));
    assert(d[5] == ("intermediate"@, s.intermediate as nat));
    assert(d[9] == ("num_layers"@, s.num_layers as nat));
    assert(d[0] == ("conv_dim"@, s.conv_dim as nat) && d[6] == ("key_dim"@, s.key_dim as nat));
    assert(d[12] == ("value_dim"@, s.value_dim as nat));
    assert(d[10] == ("num_v_heads"@, s.num_v_heads as nat));
    assert(d[3] == ("head_v_dim"@, s.head_v_dim as nat));
    assert(d[1] == ("conv_kernel"@, s.conv_kernel as nat));
    assert(d[2] == ("head_dim"@, s.head_dim as nat));
    assert(d[7] == ("num_heads"@, s.num_heads as nat));
    assert(d[8] == ("num_kv_heads"@, s.num_kv_heads as nat));
}

/// The layer types that settings list are the texts of their list, in its order.
pub proof fn listed_types_are_the_texts(items: Seq<JsonTree>)
    ensures
        texts(items).len() == items.filter(|t: JsonTree| t is Text).len(),
        forall|i: int|
            0 <= i < texts(items).len() ==> items.filter(|t: JsonTree| t is Text)[i]
                == JsonTree::Text(#[trigger] texts(items)[i]),
    decreases items.len(),
{
    reveal(Seq::filter);
    if items.len() > 0 {
        listed_types_are_the_texts(items.drop_last());
        let f = |t: JsonTree| t is Text;
        let before = items.drop_last().filter(f);
        let all = items.filter(f);
        assert forall|i: int| 0 <= i < texts(items).len() implies all[i] == JsonTree::Text(
            #[trigger] texts(items)[i],
        ) by {
            if i < texts(items.drop_last()).len() {
                assert(texts(items)[i] == texts(items.drop_last())[i]);
                assert(all[i] == before[i]);
            }
        }
    }
}

/// The tensor at `i` is the first that is at fault.
pub open spec fn is_first_want(m: ModelSpec, wants: Wants, i: int, e: Seq<char>) -> bool {
    &&& 0 <= i < wants.len()
    &&& want_fault(m, wants[i].0, wants[i].1) == Some(e)
    &&& forall|j: int|
        0 <= j < i ==> want_fault(m, (#[trigger] wants[j]).0, wants[j].1) is None
}

/// Some tensor is the first at fault, and is told of like this.
pub open spec fn fails_first_with(m: ModelSpec, wants: Wants, e: Seq<char>) -> bool {
    exists|i: int| #[trigger] is_first_want(m, wants, i, e)
}

/// Tensors are taken exactly if the checkpoint has every one of them with as many elements
/// as asked for; otherwise the first that it has not is told of.
pub proof fn every_wanted_tensor_has_its_elements(m: ModelSpec, wants: Wants)
    ensures
        wants_fault(m, wants) is None <==> forall|i: int|
            0 <= i < wants.len() ==> (m.entry((#[trigger] wants[i]).0) matches Some(e) && product(
                e.shape,
            ) == wants[i].1),
        wants_fault(m, wants) matches Some(e) ==> fails_first_with(m, wants, e),
    decreases wants.len(),
{
    if wants.len() > 0 {
        let before = wants.drop_last();
        let n = wants.len() - 1;
        every_wanted_tensor_has_its_elements(m, before);
        assert forall|j: int| 0 <= j < n implies before[j] == #[trigger] wants[j] by {}
        match wants_fault(m, before) {
            Some(e) => {
                let i = choose|i: int| is_first_want(m, before, i, e);
                assert(before[i] == wants[i]);
                assert forall|j: int| 0 <= j < i implies want_fault(
                    m,
                    (#[trigger] wants[j]).0,
                    wants[j].1,
                ) is None by {
                    assert(before[j] == wants[j]);
                }
                assert(is_first_want(m, wants, i, e));
                assert(fails_first_with(m, wants, e));
            },
            None => {
                assert forall|j: int| 0 <= j < n implies want_fault(
                    m,
                    (#[trigger] wants[j]).0,
                    wants[j].1,
                ) is None by {
                    assert(before[j] == wants[j]);
                }
                match want_fault(m, wants[n].0, wants[n].1) {
                    Some(e) => {
                        assert(is_first_want(m, wants, n, e));
                        assert(fails_first_with(m, wants, e));
                    },
                    None => {},
                }
            },
        }
    }
}

/// What is wrong with a model is what is wrong with its first layer that is at fault.
pub proof fn first_bad_layer_is_told_of(m: ModelSpec, s: SurveySpec, n: nat, l: nat)
    requires
        l < n,
        forall|k: nat| k < l ==> #[trigger] layer_fault(m, s, k) is None,
    ensures
        layer_fault(m, s, l) is Some ==> layers_fault(m, s, n) == layer_fault(m, s, l),
        layers_fault(m, s, n) is None ==> layer_fault(m, s, l) is None,
    decreases n,
{
    if l < n - 1 {
        first_bad_layer_is_told_of(m, s, (n - 1) as nat, l);
    } else {
        layers_before_are_sound(m, s, l);
    }
}

proof fn layers_before_are_sound(m: ModelSpec, s: SurveySpec, n: nat)
    requires
        forall|k: nat| k < n ==> #[trigger] layer_fault(m, s, k) is None,
    ensures
        layers_fault(m, s, n) is None,
    decreases n,
{
    if n > 0 {
        layers_before_are_sound(m, s, (n - 1) as nat);
    }
}

/// Every element type that occurs is counted under its own token.
pub proof fn types_are_counted_under_their_tokens(m: ModelSpec, d: Dtype)
    ensures
        ({
            let n = dtype_count(m, safetensors::listing(m.shards), d);
            n > 0 ==> dtype_counts(m).contains((safetensors::dtype_token(d), n))
        }),
        dtype_counts(m).len() <= 3,
{
    let names = safetensors::listing(m.shards);
    let a = counted("BF16"@, dtype_count(m, names, Dtype::Bf16));
    let b = counted("F16"@, dtype_count(m, names, Dtype::F16));
    let c = counted("F32"@, dtype_count(m, names, Dtype::F32));
    let all = a + b + c;
    assert(all == dtype_counts(m));
    if dtype_count(m, names, d) > 0 {
        match d {
            Dtype::Bf16 => {
                assert(all[0] == a[0]);
            },
            Dtype::F16 => {
                assert(all[a.len() as int] == b[0]);
            },
            Dtype::F32 => {
                assert(all[(a + b).len() as int] == c[0]);
            },
        }
    }
}

/// Both axes of a tensor are had exactly if it has two and no more; the leading ones if it
/// has at least two; the first or the last if it has any.
pub proof fn axes_are_those_of_the_tensor(m: ModelSpec, name: Seq<char>)
    ensures
        two_axes(m, name) is Ok <==> (m.entry(name) matches Some(e) && e.shape.len() == 2),
        leading_axes(m, name) is Ok <==> (m.entry(name) matches Some(e) && e.shape.len() >= 2),
        first_axis(m, name) is Ok <==> (m.entry(name) matches Some(e) && e.shape.len() >= 1),
        kernel_axis(m, name) is Ok <==> (m.entry(name) matches Some(e) && e.shape.len() >= 1),
        m.entry(name) matches Some(e) ==> {
            &&& two_axes(m, name) matches Ok((a, b)) ==> e.shape == seq![a, b]
            &&& leading_axes(m, name) matches Ok((a, b)) ==> e.shape.take(2) == seq![a, b]
            &&& first_axis(m, name) matches Ok(a) ==> e.shape.take(1) == seq![a]
            &&& kernel_axis(m, name) matches Ok(a) ==> e.shape.drop_last().push(a) == e.shape
        },
{
    if m.entry(name) is Some {
        let s = m.entry(name)->Some_0.shape;
        if s.len() >= 1 {
            assert(s.take(1) =~= seq![s[0]]);
            assert(s.drop_last().push(s.last()) =~= s);
        }
        if s.len() >= 2 {
            assert(s.take(2) =~= seq![s[0], s[1]]);
        }
        if s.len() == 2 {
            assert(s =~= seq![s[0], s[1]]);
        }
    }
}

/// The rotation of a surveyed model has the parameters that its settings give under their
/// names.
pub proof fn rotation_has_its_parameters(root: JsonTree, m: ModelSpec, r: JsonTree)
    requires
        json::member(settings(root), "rope_parameters"@) == Some(r),
        survey_result(root, m) is Ok,
    ensures
        ({
            let s = survey_result(root, m)->Ok_0;
            &&& json::member_double(r, "rope_theta"@) matches Some(bits) ==> s.theta == bits
            &&& json::member_double(r, "rope_theta"@) is None ==> s.theta == DEFAULT_THETA
            &&& json::member_double(r, "partial_rotary_factor"@) matches Some(bits) ==> s.partial
                == bits
            &&& json::member_double(r, "partial_rotary_factor"@) is None ==> s.partial == WHOLE
        }),
{
    reveal(survey_result);
}

/// A checkpoint that has an output head uses it, the one beside the embedding before the
/// one at the top; one that has none uses its embedding, unless its settings forbid it.
pub proof fn output_head_is_its_own_or_the_embedding(root: JsonTree, m: ModelSpec, prefix: Seq<char>)
    ensures
        ({
            let own = safetensors::has_tensor(m.shards, prefix + "lm_head.weight"@);
            let top = safetensors::has_tensor(m.shards, "lm_head.weight"@);
            let head = head_result(root, m, prefix);
            &&& own ==> head == Ok::<Seq<char>, Seq<char>>(prefix + "lm_head.weight"@)
            &&& !own && top ==> head == Ok::<Seq<char>, Seq<char>>("lm_head.weight"@)
            &&& !own && !top ==> (head is Err <==> json::member_bool(
                settings(root),
                "tie_word_embeddings"@,
            ) == Some(false))
            &&& head matches Ok(h) ==> (h == prefix + "embed_tokens.weight"@ <==> !own && !top)
        }),
{
    reveal_strlit("lm_head.weight");
    reveal_strlit("embed_tokens.weight");
    assert((prefix + "lm_head.weight"@).len() == prefix.len() + 14);
    assert((prefix + "embed_tokens.weight"@).len() == prefix.len() + 19);
}

/// A model is put together only with a rotation of a positive even width that a head can
/// hold, with tables of a row for each token, and with sound layers; it then tells how many
/// files and tensors it came from, and whether its head is its embedding.
pub proof fn assembled_model_is_sound(
    r: RealModel,
    root: JsonTree,
    m: ModelSpec,
    s: SurveySpec,
    dir: Seq<char>,
    rotary_dim: u64,
    partial: Seq<char>,
)
    requires
        assemble_fault(root, m, s, rotary_dim, partial) is None,
        assembled(r, root, m, s, dir, rotary_dim),
    ensures
        2 <= rotary_dim <= s.sizes.head_dim,
        rotary_dim % 2 == 0,
        r.config.attn.rotary_dim == rotary_dim,
        r.config.attn.rope_theta == s.theta,
        m.entry(s.prefix + "embed_tokens.weight"@) matches Some(e) && product(e.shape)
            == s.sizes.vocab * s.sizes.hidden,
        m.entry(s.prefix + "norm.weight"@) matches Some(e) && product(e.shape) == s.sizes.hidden,
        layers_fault(m, s, s.sizes.num_layers as nat) is None,
        r.info.dir@ == dir,
        r.info.prefix@ == s.prefix,
        r.info.shards == m.shards.len(),
        r.info.tensors_total == safetensors::listing(m.shards).len(),
        r.info.tied_embeddings <==> !safetensors::has_tensor(
            m.shards,
            s.prefix + "lm_head.weight"@,
        ) && !safetensors::has_tensor(m.shards, "lm_head.weight"@),
{
    reveal(assemble_fault);
    reveal(assembled);
    output_head_is_its_own_or_the_embedding(root, m, s.prefix);
}

/// No model is put together with a rotation of no width, of an odd one, or of one that a
/// head cannot hold.
pub proof fn odd_rotation_is_refused(
    root: JsonTree,
    m: ModelSpec,
    s: SurveySpec,
    rotary_dim: u64,
    partial: Seq<char>,
)
    requires
        rotary_dim == 0 || rotary_dim % 2 == 1 || rotary_dim > s.sizes.head_dim,
    ensures
        assemble_fault(root, m, s, rotary_dim, partial) is Some,
{
    reveal(assemble_fault);
}

} // verus!
