//! The whole model: its sizes and weights, looking up embeddings, and greedy
//! decoding.
use crate::attention::{AttnConfig, AttnWeights};
use crate::float_bits;
use crate::gdn::{GdnConfig, GdnWeights};
use crate::layer::LayerWeights;
use crate::text;
use vstd::prelude::*;
use vstd::string::*;

verus! {

/// Which mixer a layer uses.
#[derive(Debug, Clone, Copy, PartialEq, Eq, Structural)]
pub enum LayerKind {
    LinearAttention,
    FullAttention,
}

/// Sizes of a model. All layers of a kind share theirs.
pub struct ModelConfig<E> {
    pub vocab: u64,
    pub hidden: u64,
    pub eps: E,
    pub gdn: GdnConfig<E>,
    pub attn: AttnConfig<E>,
}

/// One layer's weights, and the kind that says which of them are used.
pub struct LayerWeightsAll<T> {
    pub kind: LayerKind,
    pub layer: LayerWeights<T>,
    /// Present for a linear-attention layer.
    pub gdn: Option<GdnWeights<T>>,
    /// Present for a full-attention layer.
    pub attn: Option<AttnWeights<T>>,
}

impl<T> LayerWeightsAll<T> {
    /// The weights that the layer's kind asks for are there.
    pub open spec fn has_mixer(&self) -> bool {
        match self.kind {
            LayerKind::LinearAttention => self.gdn is Some,
            LayerKind::FullAttention => self.attn is Some,
        }
    }

    /// The kind of the layer, provided that the weights of its mixer are there.
    pub fn mixer(&self) -> (r: Result<LayerKind, String>)
        ensures
            if self.has_mixer() {
                r == Ok::<LayerKind, String>(self.kind)
            } else {
                r is Err && r->Err_0@ == match self.kind {
                    LayerKind::LinearAttention =>
                        "linear_attention layer has no gated-delta-net weights"@,
                    LayerKind::FullAttention => "full_attention layer has no attention weights"@,
                }
            },
    {
        match self.kind {
            LayerKind::LinearAttention => {
                if self.gdn.is_some() {
                    Ok(self.kind)
                } else {
                    Err("linear_attention layer has no gated-delta-net weights".to_owned())
                }
            },
            LayerKind::FullAttention => {
                if self.attn.is_some() {
                    Ok(self.kind)
                } else {
                    Err("full_attention layer has no attention weights".to_owned())
                }
            },
        }
    }
}

/// Everything that a forward pass needs.
pub struct ModelWeights<T> {
    /// `[vocab, hidden]`
    pub embed_tokens: Vec<T>,
    /// `[hidden]`
    pub final_norm: Vec<T>,
    /// `[vocab, hidden]`
    pub lm_head: Vec<T>,
    pub layers: Vec<LayerWeightsAll<T>>,
}

/// The message for a token outside the vocabulary.
pub open spec fn token_message(id: u32, vocab: usize) -> Seq<char> {
    "token id "@ + text::decimal(id as nat) + " is out of range for vocab "@ + text::decimal(
        vocab as nat,
    )
}

/// The rows of the table that the tokens name, one after another.
pub open spec fn embedded<T>(w: Seq<T>, ids: Seq<u32>, hidden: int) -> Seq<T>
    decreases ids.len(),
{
    if ids.len() == 0 {
        Seq::empty()
    } else {
        let id = ids.last() as int;
        embedded(w, ids.drop_last(), hidden) + w.subrange(id * hidden, id * hidden + hidden)
    }
}

/// How many of the tokens come before the first outside the vocabulary.
pub open spec fn inside(ids: Seq<u32>, vocab: int) -> int
    decreases ids.len(),
{
    if ids.len() == 0 {
        0
    } else {
        let before = inside(ids.drop_last(), vocab);
        if before == ids.len() - 1 && ids.last() < vocab {
            before + 1
        } else {
            before
        }
    }
}

/// The tokens before the first outside the vocabulary are inside it.
pub proof fn inside_stops_at_the_first(ids: Seq<u32>, vocab: int)
    ensures
        0 <= inside(ids, vocab) <= ids.len(),
        forall|i: int| 0 <= i < inside(ids, vocab) ==> (#[trigger] ids[i]) < vocab,
        inside(ids, vocab) < ids.len() ==> ids[inside(ids, vocab)] >= vocab,
    decreases ids.len(),
{
    if ids.len() > 0 {
        let d = ids.drop_last();
        inside_stops_at_the_first(d, vocab);
        assert forall|i: int| 0 <= i < inside(ids, vocab) implies (#[trigger] ids[i]) < vocab by {
            if i < d.len() {
                assert(d[i] == ids[i]);
            }
        }
        if inside(d, vocab) < d.len() {
            assert(d[inside(d, vocab)] == ids[inside(d, vocab)]);
        }
    }
}

/// A table of `len` values has the rows of the tokens.
pub open spec fn has_rows(len: int, ids: Seq<u32>, hidden: int) -> bool {
    forall|i: int| 0 <= i < ids.len() ==> (#[trigger] ids[i]) * hidden + hidden <= len
}

/// Looks up the rows of `input_ids` in the table `w` for a vocabulary of `vocab`
/// tokens. The first token outside the vocabulary is reported; the table has the rows
/// of the tokens before it.
pub fn embed<T: Copy>(w: &[T], input_ids: &[u32], vocab: usize, hidden: usize) -> (r: Result<
    Vec<T>,
    String,
>)
    requires
        has_rows(
            w@.len() as int,
            input_ids@.take(inside(input_ids@, vocab as int)),
            hidden as int,
        ),
    ensures
        if inside(input_ids@, vocab as int) == input_ids@.len() {
            r is Ok && r->Ok_0@ == embedded(w@, input_ids@, hidden as int)
        } else {
            r is Err && r->Err_0@ == token_message(
                input_ids@[inside(input_ids@, vocab as int)],
                vocab,
            )
        },
{
    let given: usize = w.len();
    let mut out: Vec<T> = Vec::new();
    let mut i: usize = 0;
    let ghost n = inside(input_ids@, vocab as int);
    let ghost known = input_ids@.take(n);
    proof {
        inside_stops_at_the_first(input_ids@, vocab as int);
        assert(input_ids@.take(0) =~= Seq::empty());
    }
    while i < input_ids.len()
        invariant
            i <= n <= input_ids.len(),
            n == inside(input_ids@, vocab as int),
            forall|j: int| 0 <= j < n ==> (#[trigger] input_ids@[j]) < vocab,
            n < input_ids.len() ==> input_ids@[n] >= vocab,
            known == input_ids@.take(n),
            has_rows(w@.len() as int, known, hidden as int),
            w@.len() == given,
            out@ == embedded(w@, input_ids@.take(i as int), hidden as int),
        decreases input_ids.len() - i,
    {
        let id: usize = input_ids[i] as usize;
        if id >= vocab {
            let mut m: String = "token id ".to_owned();
            text::push_decimal(&mut m, id as u64);
            m.append(" is out of range for vocab ");
            text::push_decimal(&mut m, vocab as u64);
            assert(i == n);
            return Err(m);
        }
        proof {
            assert(known[i as int] == id);
            assert(0 <= id * hidden) by (nonlinear_arith);
            let next = input_ids@.take(i as int + 1);
            assert(next.drop_last() =~= input_ids@.take(i as int));
            assert(next.last() == id);
        }
        let row: &[T] = vstd::slice::slice_subrange(w, id * hidden, id * hidden + hidden);
        let ghost before = out@;
        let mut e: usize = 0;
        while e < row.len()
            invariant
                e <= row.len(),
                out@ == before + row@.take(e as int),
            decreases row.len() - e,
        {
            out.push(row[e]);
            assert(out@ =~= before + row@.take(e as int + 1));
            e += 1;
        }
        assert(row@.take(row.len() as int) =~= row@);
        i += 1;
    }
    assert(input_ids@.take(input_ids@.len() as int) =~= input_ids@);
    Ok(out)
}

/// A table that has a row for each token of the vocabulary has the rows of all tokens
/// inside it.
pub proof fn whole_table_has_rows(len: int, ids: Seq<u32>, vocab: int, hidden: int)
    requires
        len >= vocab * hidden,
        hidden >= 0,
    ensures
        has_rows(len, ids.take(inside(ids, vocab)), hidden),
{
    inside_stops_at_the_first(ids, vocab);
    let known = ids.take(inside(ids, vocab));
    assert forall|i: int| 0 <= i < known.len() implies (#[trigger] known[i]) * hidden + hidden
        <= len by {
        let id = known[i] as int;
        assert(ids[i] == id);
        assert(id * hidden + hidden <= vocab * hidden) by (nonlinear_arith)
            requires
                id < vocab,
                hidden >= 0,
        ;
    }
}

/// Every token has one row of the result.
pub proof fn embedded_rows<T>(w: Seq<T>, ids: Seq<u32>, hidden: int, i: int, e: int)
    requires
        has_rows(w.len() as int, ids, hidden),
        0 <= i < ids.len(),
        0 <= e < hidden,
    ensures
        embedded(w, ids, hidden).len() == ids.len() * hidden,
        embedded(w, ids, hidden)[i * hidden + e] == w[ids[i] * hidden + e],
    decreases ids.len(),
{
    let d = ids.drop_last();
    let n = ids.len() - 1;
    let id = ids.last() as int;
    assert(ids[n] == ids.last());
    assert(0 <= id * hidden) by (nonlinear_arith)
        requires
            0 <= id,
            hidden > 0,
    ;
    assert forall|k: int| 0 <= k < d.len() implies (#[trigger] d[k]) * hidden + hidden
        <= w.len() by {
        assert(d[k] == ids[k]);
    }
    embedded_len(w, d, hidden);
    assert(n * hidden + hidden == ids.len() * hidden) by (nonlinear_arith)
        requires
            n == ids.len() - 1,
    ;
    if i < n {
        embedded_rows(w, d, hidden, i, e);
        assert(i * hidden + e < n * hidden && 0 <= i * hidden) by (nonlinear_arith)
            requires
                0 <= i < n,
                0 <= e < hidden,
        ;
    }
}

proof fn embedded_len<T>(w: Seq<T>, ids: Seq<u32>, hidden: int)
    requires
        has_rows(w.len() as int, ids, hidden),
        hidden > 0,
    ensures
        embedded(w, ids, hidden).len() == ids.len() * hidden,
    decreases ids.len(),
{
    if ids.len() > 0 {
        let d = ids.drop_last();
        let id = ids.last() as int;
        assert(ids[ids.len() - 1] == ids.last());
        assert forall|k: int| 0 <= k < d.len() implies (#[trigger] d[k]) * hidden + hidden
            <= w.len() by {
            assert(d[k] == ids[k]);
        }
        embedded_len(w, d, hidden);
        assert(0 <= id * hidden) by (nonlinear_arith)
            requires
                0 <= id,
                hidden > 0,
        ;
        assert(d.len() * hidden + hidden == ids.len() * hidden) by (nonlinear_arith)
            requires
                d.len() == ids.len() - 1,
        ;
    }
}

/// What is wrong with the input of a forward pass, if anything.
pub open spec fn input_fault(vocab: int, hidden: int, embed_len: int, tokens: int) -> Option<
    Seq<char>,
> {
    if tokens == 0 {
        Some("empty input"@)
    } else if vocab * hidden != embed_len {
        Some(
            "embed_tokens is "@ + text::decimal(embed_len as nat) + " values, vocab*hidden = "@
                + text::decimal((vocab * hidden) as nat),
        )
    } else {
        None
    }
}

/// Checks the input of a forward pass before anything is computed.
pub fn check_input(vocab: u64, hidden: u64, embed_len: u64, tokens: usize) -> (r: Result<
    (),
    String,
>)
    ensures
        match input_fault(vocab as int, hidden as int, embed_len as int, tokens as int) {
            None => r is Ok,
            Some(m) => r is Err && r->Err_0@ == m,
        },
{
    if tokens == 0 {
        return Err("empty input".to_owned());
    }
    proof {
        vstd::arithmetic::mul::lemma_mul_nonnegative(vocab as int, hidden as int);
        assert(vocab * hidden <= u128::MAX) by (nonlinear_arith)
            requires
                vocab <= u64::MAX,
                hidden <= u64::MAX,
        ;
    }
    let product: u128 = vocab as u128 * hidden as u128;
    if product != embed_len as u128 {
        let mut m: String = "embed_tokens is ".to_owned();
        text::push_decimal(&mut m, embed_len);
        m.append(" values, vocab*hidden = ");
        text::push_decimal_wide(&mut m, product);
        return Err(m);
    }
    Ok(())
}

/// The logits of the last of `t` positions.
pub fn last_logits<T>(logits: &[T], t: usize, vocab: usize) -> (r: &[T])
    requires
        t > 0,
        (t - 1) * vocab <= logits@.len(),
    ensures
        r@ == logits@.subrange((t - 1) * vocab, logits@.len() as int),
        logits@.len() == t * vocab ==> r@.len() == vocab,
{
    let given: usize = logits.len();
    proof {
        assert((t - 1) * vocab + vocab == t * vocab && 0 <= (t - 1) * vocab) by (nonlinear_arith)
            requires
                t > 0,
        ;
    }
    vstd::slice::slice_subrange(logits, (t - 1) * vocab, given)
}

/// The index that a scan from the front settles on when it moves to every number
/// larger than the one it holds.
pub open spec fn largest(l: Seq<u32>) -> int
    decreases l.len(),
{
    if l.len() <= 1 {
        0
    } else {
        let before = largest(l.drop_last());
        if float_bits::exceeds(l.last(), l[before]) {
            l.len() - 1
        } else {
            before
        }
    }
}

proof fn largest_is_inside(l: Seq<u32>)
    requires
        l.len() > 0,
    ensures
        0 <= largest(l) < l.len(),
    decreases l.len(),
{
    if l.len() > 1 {
        largest_is_inside(l.drop_last());
    }
}

/// Among numbers the scan settles on the first of the largest.
pub proof fn largest_is_the_first_maximum(l: Seq<u32>)
    requires
        l.len() > 0,
        forall|i: int| 0 <= i < l.len() ==> !float_bits::is_nan_bits(#[trigger] l[i]),
    ensures
        0 <= largest(l) < l.len(),
        forall|i: int| 0 <= i < l.len() ==> !float_bits::exceeds(#[trigger] l[i], l[largest(l)]),
        forall|i: int|
            0 <= i < largest(l) ==> float_bits::exceeds(l[largest(l)], #[trigger] l[i]),
    decreases l.len(),
{
    if l.len() > 1 {
        let d = l.drop_last();
        assert forall|i: int| 0 <= i < d.len() implies !float_bits::is_nan_bits(#[trigger] d[i]) by {
            assert(d[i] == l[i]);
        }
        largest_is_the_first_maximum(d);
        let before = largest(d);
        assert(d[before] == l[before]);
        assert forall|i: int| 0 <= i < l.len() implies !float_bits::exceeds(
            #[trigger] l[i],
            l[largest(l)],
        ) by {
            if i < d.len() {
                assert(d[i] == l[i]);
            }
        }
        assert forall|i: int| 0 <= i < largest(l) implies float_bits::exceeds(
            l[largest(l)],
            #[trigger] l[i],
        ) by {
            assert(d[i] == l[i]);
            assert(!float_bits::exceeds(d[i], d[before]));
        }
    }
}

/// The index of the first largest of the numbers, given as bits; zero if there are
/// none.
pub fn argmax_last(l: &[u32]) -> (r: usize)
    ensures
        r == largest(l@),
        l@.len() > 0 ==> r < l@.len(),
        l@.len() == 0 ==> r == 0,
{
    if l.len() == 0 {
        return 0;
    }
    let mut best: usize = 0;
    let mut i: usize = 1;
    while i < l.len()
        invariant
            1 <= i <= l.len(),
            best < i,
            best == largest(l@.take(i as int)),
        decreases l.len() - i,
    {
        proof {
            let next = l@.take(i as int + 1);
            assert(next.drop_last() =~= l@.take(i as int));
        }
        if float_bits::greater_than(l[i], l[best]) {
            best = i;
        }
        i += 1;
    }
    assert(l@.take(l@.len() as int) =~= l@);
    best
}

/// Greedy decoding: run the model on all tokens so far, append the most likely
/// next one, repeat.
pub struct Greedy {
    pub prompt_len: usize,
    pub ids: Vec<u32>,
    pub steps: usize,
}

impl Greedy {
    /// The tokens generated so far.
    pub open spec fn generated(&self) -> Seq<u32> {
        self.ids@.subrange(self.prompt_len as int, self.ids@.len() as int)
    }

    /// The prompt is kept, and no more tokens are generated than asked for.
    pub open spec fn wf(&self) -> bool {
        self.prompt_len <= self.ids@.len() <= self.prompt_len + self.steps
    }

    /// Starts with the prompt.
    pub fn new(prompt: &[u32], steps: usize) -> (r: Greedy)
        ensures
            r.wf(),
            r.ids@ == prompt@,
            r.steps == steps,
            r.generated() == Seq::<u32>::empty(),
    {
        let ids: Vec<u32> = vstd::slice::slice_to_vec(prompt);
        let r = Greedy { prompt_len: prompt.len(), ids, steps };
        assert(r.generated() =~= Seq::<u32>::empty());
        r
    }

    /// Whether the model has to run once more.
    pub fn wants_forward(&self) -> (r: bool)
        requires
            self.wf(),
        ensures
            r == (self.generated().len() < self.steps),
    {
        self.ids.len() - self.prompt_len < self.steps
    }

    /// Takes the logits of the last position and appends the most likely token: token
    /// zero if there are no logits.
    pub fn advance(&mut self, logits: &[u32]) -> (r: u32)
        requires
            old(self).wf(),
            old(self).generated().len() < old(self).steps,
            logits@.len() <= u32::MAX,
        ensures
            final(self).wf(),
            r == largest(logits@),
            final(self).ids@ == old(self).ids@.push(r),
            final(self).prompt_len == old(self).prompt_len,
            final(self).steps == old(self).steps,
            final(self).generated() == old(self).generated().push(r),
    {
        let next: u32 = argmax_last(logits) as u32;
        self.ids.push(next);
        assert(self.generated() =~= old(self).generated().push(next));
        next
    }
}

/// The token that greedy decoding takes is the most likely: no logit has a larger value,
/// and those of the tokens before it have smaller ones.
pub proof fn most_likely_token_has_the_largest_logit(l: Seq<u32>, i: int)
    requires
        0 <= i < l.len(),
        forall|k: int| 0 <= k < l.len() ==> float_bits::is_finite_bits(#[trigger] l[k]),
    ensures
        0 <= largest(l) < l.len(),
        float_bits::single_value(l[i]) <= float_bits::single_value(l[largest(l)]),
        i < largest(l) ==> float_bits::single_value(l[i]) < float_bits::single_value(l[largest(l)]),
{
    assert forall|k: int| 0 <= k < l.len() implies !float_bits::is_nan_bits(#[trigger] l[k]) by {
        float_bits::bits_tell_the_kind(l[k]);
    }
    largest_is_the_first_maximum(l);
    float_bits::comparing_is_by_value(l[i], l[largest(l)]);
    float_bits::comparing_is_by_value(l[largest(l)], l[i]);
}

/// A row of the table is looked up by its token alone: equal tokens have equal rows, and
/// what the other tokens are does not matter.
pub proof fn equal_tokens_have_equal_rows<T>(
    w: Seq<T>,
    a: Seq<u32>,
    b: Seq<u32>,
    hidden: int,
    i: int,
    j: int,
    e: int,
)
    requires
        has_rows(w.len() as int, a, hidden),
        has_rows(w.len() as int, b, hidden),
        0 <= i < a.len(),
        0 <= j < b.len(),
        a[i] == b[j],
        0 <= e < hidden,
    ensures
        embedded(w, a, hidden)[i * hidden + e] == embedded(w, b, hidden)[j * hidden + e],
{
    embedded_rows(w, a, hidden, i, e);
    embedded_rows(w, b, hidden, j, e);
}

/// A forward pass runs exactly on some tokens with a table of a row for each token of the
/// vocabulary.
pub proof fn input_needs_tokens_and_a_whole_table(
    vocab: int,
    hidden: int,
    embed_len: int,
    tokens: int,
)
    requires
        tokens >= 0,
    ensures
        input_fault(vocab, hidden, embed_len, tokens) is None <==> tokens > 0 && embed_len == hidden
            * vocab,
{
    assert(vocab * hidden == hidden * vocab) by (nonlinear_arith);
}

} // verus!
