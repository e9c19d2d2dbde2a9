//! The launches of a forward pass, in order.
//!
//! A pass is a list of operations on named device buffers. The same list is
//! executed eagerly, captured into a graph and profiled, so that the three
//! cannot drift apart.
use crate::gpu::{Precision, PARAM_SLOT, PARAM_ZERO};
use crate::paged::PAGE_TOKENS;
use vstd::prelude::*;

verus! {

/// The buffers of a scratch area.
#[derive(Debug, Clone, Copy, PartialEq, Eq, Structural)]
pub enum Buf {
    /// The residual stream.
    X,
    Normed,
    Q,
    /// K or V rows on their way into the cache.
    Kv,
    /// Rotated K rows, kept for hybrid attention.
    CurrentK,
    Attn,
    Proj,
    Gate,
    Up,
    MlpOut,
    Logits,
    /// One token id per row.
    Ids,
    /// Sampling candidates, values and ids.
    Candidates,
}

/// Where an operation reads or writes.
#[derive(Debug, Clone, Copy, PartialEq, Eq, Structural)]
pub enum Place {
    /// Scratch of the single-token path.
    Single { buf: Buf },
    /// Scratch of a whole prompt.
    Prefill { buf: Buf },
    /// Scratch of a decode batch.
    Batch { buf: Buf },
    /// A layer's keys, in pages or in the contiguous cache.
    Keys { layer: usize, paged: bool },
    /// A layer's values.
    Values { layer: usize, paged: bool },
}

/// A weight tensor.
#[derive(Debug, Clone, Copy, PartialEq, Eq, Structural)]
pub enum Weight {
    TokEmb,
    FinalNorm,
    AttnNorm { layer: usize },
    Query { layer: usize },
    Key { layer: usize },
    Value { layer: usize },
    Output { layer: usize },
    MlpNorm { layer: usize },
    Gate { layer: usize },
    Up { layer: usize },
    Down { layer: usize },
}

/// The family of kernels a projection runs on.
#[derive(Debug, Clone, Copy, PartialEq, Eq, Structural)]
pub enum How {
    /// One vector; the destination is offset by a base and a step parameter.
    Gemv { base: usize, param: usize },
    /// Several vectors, int8 weights.
    BatchGemv,
    /// A matrix product.
    Gemm,
    /// The vocabulary projection of gathered rows.
    FinalRows,
}

/// Where a rotation takes its positions from.
#[derive(Debug, Clone, Copy, PartialEq, Eq, Structural)]
pub enum Positions {
    /// The step parameter; the target is offset by a base and a parameter.
    Step { base: usize, param: usize },
    /// Consecutive, from the chunk's start.
    Chunk,
    /// One per row.
    Rows,
}

/// How K and V rows find their place.
#[derive(Debug, Clone, Copy, PartialEq, Eq, Structural)]
pub enum Routing {
    /// Consecutive positions of the contiguous cache.
    Contiguous { base: usize, pos_offset: usize },
    /// Consecutive positions of one request's pages.
    Paged,
    /// One row per request, each by its own page table.
    Rows,
    /// Rows of several requests, by owner and position.
    Packed,
}

/// The attention kernels.
#[derive(Debug, Clone, Copy, PartialEq, Eq, Structural)]
pub enum Attention {
    Decode { base: usize },
    Split { base: usize },
    DecodePaged,
    Prefill { base: usize, pos_offset: usize },
    PrefillPaged,
    Packed,
    Tiled,
}

/// One operation of a pass.
#[derive(Debug, Clone, Copy, PartialEq, Eq, Structural)]
pub enum Op {
    /// Embedding rows into the residual stream.
    Embed { dst: Place, rows: usize },
    /// RMSNorm of each row.
    Norm { weight: Weight, src: Place, dst: Place, rows: usize },
    /// `dst = W src`, or `dst += W src`: `cols` wide rows to `rows` wide ones.
    Project {
        weight: Weight,
        how: How,
        src: Place,
        dst: Place,
        rows: usize,
        cols: usize,
        batch: usize,
        accumulate: bool,
    },
    /// Rotary embedding in place.
    Rope { place: Place, positions: Positions, rows: usize, heads: usize, stride: usize },
    /// K or V rows into the cache.
    Store { src: Place, dst: Place, routing: Routing, rows: usize },
    /// Attention of each row over its layer's keys and values.
    Attend { kernel: Attention, layer: usize, paged: bool, src: Place, dst: Place, rows: usize },
    /// `dst += src`.
    Add { src: Place, dst: Place, n: usize },
    /// `gate = silu(gate) * up`.
    SwiGlu { gate: Place, up: Place, n: usize },
    /// Both projections of the MLP and their product, fused.
    FusedMlp { layer: usize, src: Place, dst: Place },
    /// The last row of each finished prompt.
    Gather { src: Place, dst: Place, rows: usize },
    /// One row.
    CopyRow { src: Place, dst: Place, row: usize },
    /// The greatest logit of each row.
    Argmax { src: Place, dst: Place, rows: usize },
    /// Sampling candidates of each row that asks for any.
    TopK { src: Place, dst: Place, rows: usize },
}

/// The sizes a pass depends on.
#[derive(Debug, Clone, Copy, PartialEq, Eq, Structural)]
pub struct Shape {
    pub n_layer: usize,
    pub n_embd: usize,
    pub n_head: usize,
    pub n_kv_head: usize,
    pub head_dim: usize,
    pub kv_dim: usize,
    pub hidden: usize,
    pub vocab: usize,
    /// Positions of the contiguous cache.
    pub capacity: usize,
    pub precision: Precision,
    /// Whether the checkpoint has a gate projection.
    pub swiglu: bool,
}

impl Shape {
    /// The cache the sizes describe can be addressed.
    pub open spec fn wf(self) -> bool {
        &&& self.n_layer * self.capacity * self.kv_dim <= usize::MAX
        &&& self.n_layer * PAGE_TOKENS * self.kv_dim <= usize::MAX
    }

    /// A batch of rows of either width can be counted.
    pub open spec fn holds(self, rows: int) -> bool {
        rows * self.n_embd <= usize::MAX && rows * self.hidden <= usize::MAX
    }

    /// Where a layer starts in the cache, or within a page.
    pub open spec fn layer_base(self, paged: bool, l: nat) -> nat {
        if paged {
            l * PAGE_TOKENS as nat * self.kv_dim as nat
        } else {
            l * self.capacity as nat * self.kv_dim as nat
        }
    }

    /// Whether a pass can run: only gated MLPs have kernels.
    pub open spec fn runnable(self) -> bool {
        self.swiglu || self.n_layer == 0
    }

    fn base(&self, paged: bool, l: usize) -> (b: usize)
        requires
            self.wf(),
            l < self.n_layer,
        ensures
            b == self.layer_base(paged, l as nat),
    {
        let per: usize = if paged {
            PAGE_TOKENS
        } else {
            self.capacity
        };
        proof {
            assert(l * per <= self.n_layer * per) by (nonlinear_arith)
                requires
                    l < self.n_layer,
            ;
            assert((l * per) * self.kv_dim <= (self.n_layer * per) * self.kv_dim)
                by (nonlinear_arith)
                requires
                    l * per <= self.n_layer * per,
            ;
            assert(self.kv_dim > 0 ==> l * per <= (l * per) * self.kv_dim) by (nonlinear_arith);
        }
        if self.kv_dim == 0 {
            assert((l as nat) * (per as nat) * (self.kv_dim as nat) == 0) by (nonlinear_arith)
                requires
                    self.kv_dim == 0,
            ;
            return 0;
        }
        l * per * self.kv_dim
    }
}

/// The refusal of an ungated MLP.
pub open spec fn swiglu_only() -> Seq<char> {
    "the GPU path currently implements swiglu only"@
}

// ---------------------------------------------------------------------------
// One decode step for a batch of requests.

/// The kernels of a batched projection: the choice is independent of the batch,
/// so that requests joining or leaving do not change anyone's arithmetic.
pub open spec fn batch_how(s: Shape, cols: usize, force_gemm: bool) -> How {
    if s.precision == Precision::Int8 && !force_gemm && cols % 4 == 0 {
        How::BatchGemv
    } else {
        How::Gemm
    }
}

fn choose_batch(s: &Shape, cols: usize, force_gemm: bool) -> (h: How)
    ensures
        h == batch_how(*s, cols, force_gemm),
{
    if s.precision == Precision::Int8 && !force_gemm && cols % 4 == 0 {
        How::BatchGemv
    } else {
        How::Gemm
    }
}

/// One transformer layer of a batched decode step. K and V pass through a dense
/// block and are scattered, one row per request, into that request's page; the
/// residual is folded into the output projections.
pub open spec fn decode_layer(s: Shape, n: usize, force: bool, layer: usize) -> Seq<Op> {
    let x = Place::Batch { buf: Buf::X };
    let normed = Place::Batch { buf: Buf::Normed };
    let kv = Place::Batch { buf: Buf::Kv };
    let q = Place::Batch { buf: Buf::Q };
    let attn = Place::Batch { buf: Buf::Attn };
    let gate = Place::Batch { buf: Buf::Gate };
    let up = Place::Batch { buf: Buf::Up };
    let wide = batch_how(s, s.n_embd, force);
    seq![
        Op::Norm { weight: Weight::AttnNorm { layer }, src: x, dst: normed, rows: n },
        Op::Project { weight: Weight::Key { layer }, how: wide, src: normed, dst: kv,
            rows: s.kv_dim, cols: s.n_embd, batch: n, accumulate: false },
        Op::Rope { place: kv, positions: Positions::Rows, rows: n, heads: s.n_kv_head, stride: s.kv_dim },
        Op::Store { src: kv, dst: Place::Keys { layer, paged: true }, routing: Routing::Rows, rows: n },
        Op::Project { weight: Weight::Value { layer }, how: wide, src: normed, dst: kv,
            rows: s.kv_dim, cols: s.n_embd, batch: n, accumulate: false },
        Op::Store { src: kv, dst: Place::Values { layer, paged: true }, routing: Routing::Rows, rows: n },
        Op::Project { weight: Weight::Query { layer }, how: wide, src: normed, dst: q,
            rows: s.n_embd, cols: s.n_embd, batch: n, accumulate: false },
        Op::Rope { place: q, positions: Positions::Rows, rows: n, heads: s.n_head, stride: s.n_embd },
        Op::Attend { kernel: Attention::DecodePaged, layer, paged: true, src: q, dst: attn, rows: n },
        Op::Project { weight: Weight::Output { layer }, how: wide, src: attn, dst: x,
            rows: s.n_embd, cols: s.n_embd, batch: n, accumulate: true },
        Op::Norm { weight: Weight::MlpNorm { layer }, src: x, dst: normed, rows: n },
        Op::Project { weight: Weight::Gate { layer }, how: wide, src: normed, dst: gate,
            rows: s.hidden, cols: s.n_embd, batch: n, accumulate: false },
        Op::Project { weight: Weight::Up { layer }, how: wide, src: normed, dst: up,
            rows: s.hidden, cols: s.n_embd, batch: n, accumulate: false },
        Op::SwiGlu { gate, up, n: (n * s.hidden) as usize },
        Op::Project { weight: Weight::Down { layer }, how: batch_how(s, s.hidden, force), src: gate, dst: x,
            rows: s.n_embd, cols: s.hidden, batch: n, accumulate: true },
    ]
}

/// The first `count` layers of a batched decode step.
pub open spec fn decode_layers(s: Shape, n: usize, force: bool, count: nat) -> Seq<Op>
    decreases count,
{
    if count == 0 {
        Seq::empty()
    } else {
        decode_layers(s, n, force, (count - 1) as nat) + decode_layer(s, n, force, (count - 1) as usize)
    }
}

/// A batched decode step up to its logits: embed, the layers, the final norm
/// and the vocabulary projection.
pub open spec fn decode_logits(s: Shape, n: usize, force: bool) -> Seq<Op> {
    seq![Op::Embed { dst: Place::Batch { buf: Buf::X }, rows: n }]
        + decode_layers(s, n, force, s.n_layer as nat)
        + seq![
            Op::Norm { weight: Weight::FinalNorm, src: Place::Batch { buf: Buf::X },
                dst: Place::Batch { buf: Buf::Normed }, rows: n },
            Op::Project { weight: Weight::TokEmb, how: batch_how(s, s.n_embd, force),
                src: Place::Batch { buf: Buf::Normed }, dst: Place::Batch { buf: Buf::Logits },
                rows: s.vocab, cols: s.n_embd, batch: n, accumulate: false },
        ]
}

/// Token selection over a batch's logits: always the greatest logit, and the
/// sampling candidates where some row asks for them.
pub open spec fn selection(n: usize, topk: bool) -> Seq<Op> {
    let logits = Place::Batch { buf: Buf::Logits };
    let argmax = Op::Argmax { src: logits, dst: Place::Batch { buf: Buf::Ids }, rows: n };
    if topk {
        seq![argmax, Op::TopK { src: logits, dst: Place::Batch { buf: Buf::Candidates }, rows: n }]
    } else {
        seq![argmax]
    }
}

/// A whole batched decode step.
pub open spec fn decode_batch(s: Shape, n: usize, topk: bool, force: bool) -> Seq<Op> {
    decode_logits(s, n, force) + selection(n, topk)
}

fn push_decode_layer(v: &mut Vec<Op>, s: &Shape, n: usize, force: bool, layer: usize)
    requires
        s.holds(n as int),
    ensures
        final(v)@ == old(v)@ + decode_layer(*s, n, force, layer),
{
    let x = Place::Batch { buf: Buf::X };
    let normed = Place::Batch { buf: Buf::Normed };
    let kv = Place::Batch { buf: Buf::Kv };
    let q = Place::Batch { buf: Buf::Q };
    let attn = Place::Batch { buf: Buf::Attn };
    let gate = Place::Batch { buf: Buf::Gate };
    let up = Place::Batch { buf: Buf::Up };
    let wide = choose_batch(s, s.n_embd, force);
    v.push(Op::Norm { weight: Weight::AttnNorm { layer }, src: x, dst: normed, rows: n });
    v.push(Op::Project { weight: Weight::Key { layer }, how: wide, src: normed, dst: kv,
        rows: s.kv_dim, cols: s.n_embd, batch: n, accumulate: false });
    v.push(Op::Rope { place: kv, positions: Positions::Rows, rows: n, heads: s.n_kv_head, stride: s.kv_dim });
    v.push(Op::Store { src: kv, dst: Place::Keys { layer, paged: true }, routing: Routing::Rows, rows: n });
    v.push(Op::Project { weight: Weight::Value { layer }, how: wide, src: normed, dst: kv,
        rows: s.kv_dim, cols: s.n_embd, batch: n, accumulate: false });
    v.push(Op::Store { src: kv, dst: Place::Values { layer, paged: true }, routing: Routing::Rows, rows: n });
    v.push(Op::Project { weight: Weight::Query { layer }, how: wide, src: normed, dst: q,
        rows: s.n_embd, cols: s.n_embd, batch: n, accumulate: false });
    v.push(Op::Rope { place: q, positions: Positions::Rows, rows: n, heads: s.n_head, stride: s.n_embd });
    v.push(Op::Attend { kernel: Attention::DecodePaged, layer, paged: true, src: q, dst: attn, rows: n });
    v.push(Op::Project { weight: Weight::Output { layer }, how: wide, src: attn, dst: x,
        rows: s.n_embd, cols: s.n_embd, batch: n, accumulate: true });
    v.push(Op::Norm { weight: Weight::MlpNorm { layer }, src: x, dst: normed, rows: n });
    v.push(Op::Project { weight: Weight::Gate { layer }, how: wide, src: normed, dst: gate,
        rows: s.hidden, cols: s.n_embd, batch: n, accumulate: false });
    v.push(Op::Project { weight: Weight::Up { layer }, how: wide, src: normed, dst: up,
        rows: s.hidden, cols: s.n_embd, batch: n, accumulate: false });
    v.push(Op::SwiGlu { gate, up, n: n * s.hidden });
    v.push(Op::Project { weight: Weight::Down { layer }, how: choose_batch(s, s.hidden, force), src: gate, dst: x,
        rows: s.n_embd, cols: s.hidden, batch: n, accumulate: true });
    assert(v@ =~= old(v)@ + decode_layer(*s, n, force, layer));
}

fn push_selection(v: &mut Vec<Op>, n: usize, topk: bool)
    ensures
        final(v)@ == old(v)@ + selection(n, topk),
{
    let logits = Place::Batch { buf: Buf::Logits };
    v.push(Op::Argmax { src: logits, dst: Place::Batch { buf: Buf::Ids }, rows: n });
    if topk {
        v.push(Op::TopK { src: logits, dst: Place::Batch { buf: Buf::Candidates }, rows: n });
    }
    assert(v@ =~= old(v)@ + selection(n, topk));
}

/// Every launch of one batched decode step, for eager execution and capture
/// alike. Nothing depends on which request occupies a slot, so reordering
/// requests cannot invalidate a captured graph.
pub fn queue_decode_batch(s: &Shape, n: usize, topk: bool, force_gemm: bool) -> (r: Result<
    Vec<Op>,
    String,
>)
    requires
        s.holds(n as int),
    ensures
        match r {
            Ok(v) => s.runnable() && v@ == decode_batch(*s, n, topk, force_gemm),
            Err(m) => !s.runnable() && m@ == swiglu_only(),
        },
{
    if s.n_layer > 0 && !s.swiglu {
        return Err("the GPU path currently implements swiglu only".to_owned());
    }
    let mut v: Vec<Op> = Vec::new();
    v.push(Op::Embed { dst: Place::Batch { buf: Buf::X }, rows: n });
    let ghost head = v@;
    let mut l: usize = 0;
    while l < s.n_layer
        invariant
            l <= s.n_layer,
            s.holds(n as int),
            v@ == head + decode_layers(*s, n, force_gemm, l as nat),
        decreases s.n_layer - l,
    {
        push_decode_layer(&mut v, s, n, force_gemm, l);
        l += 1;
        assert(v@ =~= head + decode_layers(*s, n, force_gemm, l as nat));
    }
    v.push(Op::Norm { weight: Weight::FinalNorm, src: Place::Batch { buf: Buf::X },
        dst: Place::Batch { buf: Buf::Normed }, rows: n });
    v.push(Op::Project { weight: Weight::TokEmb, how: choose_batch(s, s.n_embd, force_gemm),
        src: Place::Batch { buf: Buf::Normed }, dst: Place::Batch { buf: Buf::Logits },
        rows: s.vocab, cols: s.n_embd, batch: n, accumulate: false });
    assert(v@ =~= decode_logits(*s, n, force_gemm));
    push_selection(&mut v, n, topk);
    Ok(v)
}

// ---------------------------------------------------------------------------
// One token of a single request.

/// A projection of one vector to scratch.
pub open spec fn plain() -> How {
    How::Gemv { base: 0, param: PARAM_ZERO }
}

/// A projection added to the residual stream. Only the int8 kernels accumulate;
/// f32 goes through `mid` and a separate addition.
pub open spec fn fold(s: Shape, weight: Weight, src: Place, mid: Buf, cols: usize) -> Seq<Op> {
    let x = Place::Single { buf: Buf::X };
    if s.precision == Precision::Int8 {
        seq![Op::Project { weight, how: plain(), src, dst: x, rows: s.n_embd, cols, batch: 1, accumulate: true }]
    } else {
        let tmp = Place::Single { buf: mid };
        seq![
            Op::Project { weight, how: plain(), src, dst: tmp, rows: s.n_embd, cols, batch: 1, accumulate: false },
            Op::Add { src: tmp, dst: x, n: s.n_embd },
        ]
    }
}

/// The attention kernel of a single token.
pub open spec fn token_attention(paged: bool, split: bool, base: usize) -> Attention {
    if paged {
        Attention::DecodePaged
    } else if split {
        Attention::Split { base }
    } else {
        Attention::Decode { base }
    }
}

/// A layer's share of one token, up to its attention. K and V land directly in
/// the cache; where is read from the parameter buffer, so that a captured graph
/// stays valid as the sequence grows.
pub open spec fn token_attend(s: Shape, paged: bool, split: bool, layer: usize) -> Seq<Op> {
    let normed = Place::Single { buf: Buf::Normed };
    let q = Place::Single { buf: Buf::Q };
    let keys = Place::Keys { layer, paged };
    let values = Place::Values { layer, paged };
    let base = s.layer_base(paged, layer as nat) as usize;
    let slot = How::Gemv { base, param: PARAM_SLOT };
    seq![
        Op::Norm { weight: Weight::AttnNorm { layer }, src: Place::Single { buf: Buf::X }, dst: normed, rows: 1 },
        Op::Project { weight: Weight::Key { layer }, how: slot, src: normed, dst: keys,
            rows: s.kv_dim, cols: s.n_embd, batch: 1, accumulate: false },
        Op::Project { weight: Weight::Value { layer }, how: slot, src: normed, dst: values,
            rows: s.kv_dim, cols: s.n_embd, batch: 1, accumulate: false },
        Op::Rope { place: keys, positions: Positions::Step { base, param: PARAM_SLOT }, rows: 1,
            heads: s.n_kv_head, stride: s.kv_dim },
        Op::Project { weight: Weight::Query { layer }, how: plain(), src: normed, dst: q,
            rows: s.n_embd, cols: s.n_embd, batch: 1, accumulate: false },
        Op::Rope { place: q, positions: Positions::Step { base: 0, param: PARAM_ZERO }, rows: 1,
            heads: s.n_head, stride: s.n_embd },
        Op::Attend { kernel: token_attention(paged, split, base), layer, paged, src: q,
            dst: Place::Single { buf: Buf::Attn }, rows: 1 },
    ]
}

/// A layer's MLP up to its output projection, fused into one kernel.
pub open spec fn token_mlp(layer: usize) -> Seq<Op> {
    let normed = Place::Single { buf: Buf::Normed };
    seq![
        Op::Norm { weight: Weight::MlpNorm { layer }, src: Place::Single { buf: Buf::X }, dst: normed, rows: 1 },
        Op::FusedMlp { layer, src: normed, dst: Place::Single { buf: Buf::Gate } },
    ]
}

/// One transformer layer of a single token.
pub open spec fn token_layer(s: Shape, paged: bool, split: bool, layer: usize) -> Seq<Op> {
    token_attend(s, paged, split, layer)
        + fold(s, Weight::Output { layer }, Place::Single { buf: Buf::Attn }, Buf::Proj, s.n_embd)
        + token_mlp(layer)
        + fold(s, Weight::Down { layer }, Place::Single { buf: Buf::Gate }, Buf::MlpOut, s.hidden)
}

/// The first `count` layers of a single token.
pub open spec fn token_layers(s: Shape, paged: bool, split: bool, count: nat) -> Seq<Op>
    decreases count,
{
    if count == 0 {
        Seq::empty()
    } else {
        token_layers(s, paged, split, (count - 1) as nat)
            + token_layer(s, paged, split, (count - 1) as usize)
    }
}

/// The final norm and vocabulary projection of a single token.
pub open spec fn token_head(s: Shape) -> Seq<Op> {
    let normed = Place::Single { buf: Buf::Normed };
    seq![
        Op::Norm { weight: Weight::FinalNorm, src: Place::Single { buf: Buf::X }, dst: normed, rows: 1 },
        Op::Project { weight: Weight::TokEmb, how: plain(), src: normed, dst: Place::Single { buf: Buf::Logits },
            rows: s.vocab, cols: s.n_embd, batch: 1, accumulate: false },
    ]
}

/// Every operation of one token.
pub open spec fn token(s: Shape, paged: bool, split: bool) -> Seq<Op> {
    seq![Op::Embed { dst: Place::Single { buf: Buf::X }, rows: 1 }]
        + token_layers(s, paged, split, s.n_layer as nat) + token_head(s)
}

pub(crate) fn push_fold(v: &mut Vec<Op>, s: &Shape, weight: Weight, src: Place, mid: Buf, cols: usize)
    ensures
        final(v)@ == old(v)@ + fold(*s, weight, src, mid, cols),
{
    let x = Place::Single { buf: Buf::X };
    let how = How::Gemv { base: 0, param: PARAM_ZERO };
    if s.precision == Precision::Int8 {
        v.push(Op::Project { weight, how, src, dst: x, rows: s.n_embd, cols, batch: 1, accumulate: true });
    } else {
        let tmp = Place::Single { buf: mid };
        v.push(Op::Project { weight, how, src, dst: tmp, rows: s.n_embd, cols, batch: 1, accumulate: false });
        v.push(Op::Add { src: tmp, dst: x, n: s.n_embd });
    }
    assert(v@ =~= old(v)@ + fold(*s, weight, src, mid, cols));
}

pub(crate) fn push_token_attend(v: &mut Vec<Op>, s: &Shape, paged: bool, split: bool, layer: usize)
    requires
        s.wf(),
        layer < s.n_layer,
    ensures
        final(v)@ == old(v)@ + token_attend(*s, paged, split, layer),
{
    let normed = Place::Single { buf: Buf::Normed };
    let q = Place::Single { buf: Buf::Q };
    let keys = Place::Keys { layer, paged };
    let values = Place::Values { layer, paged };
    let base: usize = s.base(paged, layer);
    let slot = How::Gemv { base, param: PARAM_SLOT };
    let how = if paged {
        Attention::DecodePaged
    } else if split {
        Attention::Split { base }
    } else {
        Attention::Decode { base }
    };
    v.push(Op::Norm { weight: Weight::AttnNorm { layer }, src: Place::Single { buf: Buf::X }, dst: normed, rows: 1 });
    v.push(Op::Project { weight: Weight::Key { layer }, how: slot, src: normed, dst: keys,
        rows: s.kv_dim, cols: s.n_embd, batch: 1, accumulate: false });
    v.push(Op::Project { weight: Weight::Value { layer }, how: slot, src: normed, dst: values,
        rows: s.kv_dim, cols: s.n_embd, batch: 1, accumulate: false });
    v.push(Op::Rope { place: keys, positions: Positions::Step { base, param: PARAM_SLOT }, rows: 1,
        heads: s.n_kv_head, stride: s.kv_dim });
    v.push(Op::Project { weight: Weight::Query { layer }, how: How::Gemv { base: 0, param: PARAM_ZERO },
        src: normed, dst: q, rows: s.n_embd, cols: s.n_embd, batch: 1, accumulate: false });
    v.push(Op::Rope { place: q, positions: Positions::Step { base: 0, param: PARAM_ZERO }, rows: 1,
        heads: s.n_head, stride: s.n_embd });
    v.push(Op::Attend { kernel: how, layer, paged, src: q, dst: Place::Single { buf: Buf::Attn }, rows: 1 });
    assert(v@ =~= old(v)@ + token_attend(*s, paged, split, layer));
}

pub(crate) fn push_token_mlp(v: &mut Vec<Op>, layer: usize)
    ensures
        final(v)@ == old(v)@ + token_mlp(layer),
{
    let normed = Place::Single { buf: Buf::Normed };
    v.push(Op::Norm { weight: Weight::MlpNorm { layer }, src: Place::Single { buf: Buf::X }, dst: normed, rows: 1 });
    v.push(Op::FusedMlp { layer, src: normed, dst: Place::Single { buf: Buf::Gate } });
    assert(v@ =~= old(v)@ + token_mlp(layer));
}

fn push_token_layer(v: &mut Vec<Op>, s: &Shape, paged: bool, split: bool, layer: usize)
    requires
        s.wf(),
        layer < s.n_layer,
    ensures
        final(v)@ == old(v)@ + token_layer(*s, paged, split, layer),
{
    let attn = Place::Single { buf: Buf::Attn };
    let gate = Place::Single { buf: Buf::Gate };
    push_token_attend(v, s, paged, split, layer);
    push_fold(v, s, Weight::Output { layer }, attn, Buf::Proj, s.n_embd);
    push_token_mlp(v, layer);
    push_fold(v, s, Weight::Down { layer }, gate, Buf::MlpOut, s.hidden);
    proof {
        let a = token_attend(*s, paged, split, layer);
        let b = fold(*s, Weight::Output { layer }, attn, Buf::Proj, s.n_embd);
        let c = token_mlp(layer);
        let d = fold(*s, Weight::Down { layer }, gate, Buf::MlpOut, s.hidden);
        lemma_join_four(old(v)@, a, b, c, d);
    }
}

proof fn lemma_join_four(o: Seq<Op>, a: Seq<Op>, b: Seq<Op>, c: Seq<Op>, d: Seq<Op>)
    ensures
        o + a + b + c + d == o + (a + b + c + d),
{
    assert(o + a + b + c + d =~= o + (a + b + c + d));
}

/// Every launch of one token, for the eager path and for capture alike.
pub fn queue_token(s: &Shape, paged: bool, split: bool) -> (r: Result<Vec<Op>, String>)
    requires
        s.wf(),
    ensures
        match r {
            Ok(v) => s.runnable() && v@ == token(*s, paged, split),
            Err(m) => !s.runnable() && m@ == swiglu_only(),
        },
{
    if s.n_layer > 0 && !s.swiglu {
        return Err("the GPU path currently implements swiglu only".to_owned());
    }
    let mut v: Vec<Op> = Vec::new();
    v.push(Op::Embed { dst: Place::Single { buf: Buf::X }, rows: 1 });
    let ghost head = v@;
    let mut l: usize = 0;
    while l < s.n_layer
        invariant
            l <= s.n_layer,
            s.wf(),
            v@ == head + token_layers(*s, paged, split, l as nat),
        decreases s.n_layer - l,
    {
        push_token_layer(&mut v, s, paged, split, l);
        l += 1;
        assert(v@ =~= head + token_layers(*s, paged, split, l as nat));
    }
    let normed = Place::Single { buf: Buf::Normed };
    v.push(Op::Norm { weight: Weight::FinalNorm, src: Place::Single { buf: Buf::X }, dst: normed, rows: 1 });
    v.push(Op::Project { weight: Weight::TokEmb, how: How::Gemv { base: 0, param: PARAM_ZERO }, src: normed,
        dst: Place::Single { buf: Buf::Logits }, rows: s.vocab, cols: s.n_embd, batch: 1, accumulate: false });
    assert(v@ =~= token(*s, paged, split));
    Ok(v)
}

// ---------------------------------------------------------------------------
// A whole prompt, or chunks of several.

/// How a prompt finds its cache and attends over it.
#[derive(Debug, Clone, Copy, PartialEq, Eq, Structural)]
pub struct PrefillMode {
    /// Rows of several requests, routed by owner and position.
    pub packed: bool,
    pub paged: bool,
    /// Tiled attention by segment descriptors.
    pub tiled: bool,
    /// Tiled attention also reads the chunk's own rotated K.
    pub hybrid: bool,
    /// Where the chunk starts, for the contiguous cache.
    pub pos_offset: usize,
}

impl PrefillMode {
    /// Whether K and V go to pages.
    pub open spec fn pages(self) -> bool {
        self.packed || self.paged
    }

    /// How K and V rows find their place.
    pub open spec fn routing(self, base: usize) -> Routing {
        if self.packed {
            Routing::Packed
        } else if self.paged {
            Routing::Paged
        } else {
            Routing::Contiguous { base, pos_offset: self.pos_offset }
        }
    }

    /// The attention kernel.
    pub open spec fn attention(self, base: usize) -> Attention {
        if self.tiled {
            Attention::Tiled
        } else if self.packed {
            Attention::Packed
        } else if self.paged {
            Attention::PrefillPaged
        } else {
            Attention::Prefill { base, pos_offset: self.pos_offset }
        }
    }

    /// Where rotated K rows are kept until they are stored.
    pub open spec fn current(self) -> Place {
        if self.tiled && self.hybrid {
            Place::Prefill { buf: Buf::CurrentK }
        } else {
            Place::Prefill { buf: Buf::Kv }
        }
    }

    /// Where the rotation takes its positions from.
    pub open spec fn positions(self) -> Positions {
        if self.packed {
            Positions::Rows
        } else {
            Positions::Chunk
        }
    }
}

/// One transformer layer of a prompt of `t` rows.
pub open spec fn prefill_layer(s: Shape, t: usize, m: PrefillMode, layer: usize) -> Seq<Op> {
    let x = Place::Prefill { buf: Buf::X };
    let normed = Place::Prefill { buf: Buf::Normed };
    let kv = Place::Prefill { buf: Buf::Kv };
    let q = Place::Prefill { buf: Buf::Q };
    let attn = Place::Prefill { buf: Buf::Attn };
    let proj = Place::Prefill { buf: Buf::Proj };
    let gate = Place::Prefill { buf: Buf::Gate };
    let up = Place::Prefill { buf: Buf::Up };
    let paged = m.pages();
    let base = s.layer_base(false, layer as nat) as usize;
    seq![
        Op::Norm { weight: Weight::AttnNorm { layer }, src: x, dst: normed, rows: t },
        Op::Project { weight: Weight::Key { layer }, how: How::Gemm, src: normed, dst: m.current(),
            rows: s.kv_dim, cols: s.n_embd, batch: t, accumulate: false },
        Op::Rope { place: m.current(), positions: m.positions(), rows: t, heads: s.n_kv_head, stride: s.kv_dim },
        Op::Store { src: m.current(), dst: Place::Keys { layer, paged }, routing: m.routing(base), rows: t },
        Op::Project { weight: Weight::Value { layer }, how: How::Gemm, src: normed, dst: kv,
            rows: s.kv_dim, cols: s.n_embd, batch: t, accumulate: false },
        Op::Store { src: kv, dst: Place::Values { layer, paged }, routing: m.routing(base), rows: t },
        Op::Project { weight: Weight::Query { layer }, how: How::Gemm, src: normed, dst: q,
            rows: s.n_embd, cols: s.n_embd, batch: t, accumulate: false },
        Op::Rope { place: q, positions: m.positions(), rows: t, heads: s.n_head, stride: s.n_embd },
        Op::Attend { kernel: m.attention(base), layer, paged, src: q, dst: attn, rows: t },
        Op::Project { weight: Weight::Output { layer }, how: How::Gemm, src: attn, dst: proj,
            rows: s.n_embd, cols: s.n_embd, batch: t, accumulate: false },
        Op::Add { src: proj, dst: x, n: (t * s.n_embd) as usize },
        Op::Norm { weight: Weight::MlpNorm { layer }, src: x, dst: normed, rows: t },
        Op::Project { weight: Weight::Gate { layer }, how: How::Gemm, src: normed, dst: gate,
            rows: s.hidden, cols: s.n_embd, batch: t, accumulate: false },
        Op::Project { weight: Weight::Up { layer }, how: How::Gemm, src: normed, dst: up,
            rows: s.hidden, cols: s.n_embd, batch: t, accumulate: false },
        Op::SwiGlu { gate, up, n: (t * s.hidden) as usize },
        Op::Project { weight: Weight::Down { layer }, how: How::Gemm, src: gate, dst: proj,
            rows: s.n_embd, cols: s.hidden, batch: t, accumulate: false },
        Op::Add { src: proj, dst: x, n: (t * s.n_embd) as usize },
    ]
}

/// The first `count` layers of a prompt.
pub open spec fn prefill_layers(s: Shape, t: usize, m: PrefillMode, count: nat) -> Seq<Op>
    decreases count,
{
    if count == 0 {
        Seq::empty()
    } else {
        prefill_layers(s, t, m, (count - 1) as nat) + prefill_layer(s, t, m, (count - 1) as usize)
    }
}

/// The transformer over `t` prompt rows, up to the final residual stream.
pub open spec fn transformer(s: Shape, t: usize, m: PrefillMode) -> Seq<Op> {
    seq![Op::Embed { dst: Place::Prefill { buf: Buf::X }, rows: t }]
        + prefill_layers(s, t, m, s.n_layer as nat)
}

/// The logits of the last of `t` rows. Only that row's are ever read, so the
/// vocabulary projection stays a product with one vector.
pub open spec fn last_logits(s: Shape, t: usize) -> Seq<Op> {
    let normed = Place::Single { buf: Buf::Normed };
    let x = Place::Single { buf: Buf::X };
    seq![
        Op::CopyRow { src: Place::Prefill { buf: Buf::X }, dst: normed, row: (t - 1) as usize },
        Op::Norm { weight: Weight::FinalNorm, src: normed, dst: x, rows: 1 },
        Op::Project { weight: Weight::TokEmb, how: plain(), src: x, dst: Place::Single { buf: Buf::Logits },
            rows: s.vocab, cols: s.n_embd, batch: 1, accumulate: false },
    ]
}

/// One chunk of one prompt. A chunk that is not the last skips the vocabulary
/// projection.
pub open spec fn prefill(s: Shape, t: usize, m: PrefillMode, want_logits: bool) -> Seq<Op> {
    if want_logits {
        transformer(s, t, m) + last_logits(s, t)
    } else {
        transformer(s, t, m)
    }
}

/// The logits and tokens of the prompts that a packed call finished.
pub open spec fn final_rows(s: Shape, finals: usize, topk: bool) -> Seq<Op> {
    let x = Place::Batch { buf: Buf::X };
    let normed = Place::Batch { buf: Buf::Normed };
    seq![
        Op::Gather { src: Place::Prefill { buf: Buf::X }, dst: x, rows: finals },
        Op::Norm { weight: Weight::FinalNorm, src: x, dst: normed, rows: finals },
        Op::Project { weight: Weight::TokEmb, how: How::FinalRows, src: normed, dst: Place::Batch { buf: Buf::Logits },
            rows: s.vocab, cols: s.n_embd, batch: finals, accumulate: false },
    ] + selection(finals, topk)
}

/// Chunks of several prompts in one pass.
pub open spec fn packed_prefill(
    s: Shape,
    rows: usize,
    m: PrefillMode,
    finals: usize,
    topk: bool,
) -> Seq<Op> {
    if finals == 0 {
        transformer(s, rows, m)
    } else {
        transformer(s, rows, m) + final_rows(s, finals, topk)
    }
}

/// Token selection of one prompt whose logits the single-request path left.
pub open spec fn single_selection(topk: bool) -> Seq<Op> {
    seq![Op::CopyRow { src: Place::Single { buf: Buf::Logits }, dst: Place::Batch { buf: Buf::Logits }, row: 0 }]
        + selection(1, topk)
}

fn push_prefill_layer(v: &mut Vec<Op>, s: &Shape, t: usize, m: &PrefillMode, layer: usize)
    requires
        s.wf(),
        s.holds(t as int),
        layer < s.n_layer,
    ensures
        final(v)@ == old(v)@ + prefill_layer(*s, t, *m, layer),
{
    let x = Place::Prefill { buf: Buf::X };
    let normed = Place::Prefill { buf: Buf::Normed };
    let kv = Place::Prefill { buf: Buf::Kv };
    let q = Place::Prefill { buf: Buf::Q };
    let attn = Place::Prefill { buf: Buf::Attn };
    let proj = Place::Prefill { buf: Buf::Proj };
    let gate = Place::Prefill { buf: Buf::Gate };
    let up = Place::Prefill { buf: Buf::Up };
    let paged = m.packed || m.paged;
    let base: usize = s.base(false, layer);
    let routing = if m.packed {
        Routing::Packed
    } else if m.paged {
        Routing::Paged
    } else {
        Routing::Contiguous { base, pos_offset: m.pos_offset }
    };
    let how = if m.tiled {
        Attention::Tiled
    } else if m.packed {
        Attention::Packed
    } else if m.paged {
        Attention::PrefillPaged
    } else {
        Attention::Prefill { base, pos_offset: m.pos_offset }
    };
    let current = if m.tiled && m.hybrid {
        Place::Prefill { buf: Buf::CurrentK }
    } else {
        kv
    };
    let positions = if m.packed {
        Positions::Rows
    } else {
        Positions::Chunk
    };
    v.push(Op::Norm { weight: Weight::AttnNorm { layer }, src: x, dst: normed, rows: t });
    v.push(Op::Project { weight: Weight::Key { layer }, how: How::Gemm, src: normed, dst: current,
        rows: s.kv_dim, cols: s.n_embd, batch: t, accumulate: false });
    v.push(Op::Rope { place: current, positions, rows: t, heads: s.n_kv_head, stride: s.kv_dim });
    v.push(Op::Store { src: current, dst: Place::Keys { layer, paged }, routing, rows: t });
    v.push(Op::Project { weight: Weight::Value { layer }, how: How::Gemm, src: normed, dst: kv,
        rows: s.kv_dim, cols: s.n_embd, batch: t, accumulate: false });
    v.push(Op::Store { src: kv, dst: Place::Values { layer, paged }, routing, rows: t });
    v.push(Op::Project { weight: Weight::Query { layer }, how: How::Gemm, src: normed, dst: q,
        rows: s.n_embd, cols: s.n_embd, batch: t, accumulate: false });
    v.push(Op::Rope { place: q, positions, rows: t, heads: s.n_head, stride: s.n_embd });
    v.push(Op::Attend { kernel: how, layer, paged, src: q, dst: attn, rows: t });
    v.push(Op::Project { weight: Weight::Output { layer }, how: How::Gemm, src: attn, dst: proj,
        rows: s.n_embd, cols: s.n_embd, batch: t, accumulate: false });
    v.push(Op::Add { src: proj, dst: x, n: t * s.n_embd });
    v.push(Op::Norm { weight: Weight::MlpNorm { layer }, src: x, dst: normed, rows: t });
    v.push(Op::Project { weight: Weight::Gate { layer }, how: How::Gemm, src: normed, dst: gate,
        rows: s.hidden, cols: s.n_embd, batch: t, accumulate: false });
    v.push(Op::Project { weight: Weight::Up { layer }, how: How::Gemm, src: normed, dst: up,
        rows: s.hidden, cols: s.n_embd, batch: t, accumulate: false });
    v.push(Op::SwiGlu { gate, up, n: t * s.hidden });
    v.push(Op::Project { weight: Weight::Down { layer }, how: How::Gemm, src: gate, dst: proj,
        rows: s.n_embd, cols: s.hidden, batch: t, accumulate: false });
    v.push(Op::Add { src: proj, dst: x, n: t * s.n_embd });
    assert(v@ =~= old(v)@ + prefill_layer(*s, t, *m, layer));
}

/// The transformer over `t` prompt rows.
pub fn queue_prefill_transformer(s: &Shape, t: usize, m: &PrefillMode) -> (r: Result<Vec<Op>, String>)
    requires
        s.wf(),
        s.holds(t as int),
    ensures
        match r {
            Ok(v) => s.runnable() && v@ == transformer(*s, t, *m),
            Err(e) => !s.runnable() && e@ == swiglu_only(),
        },
{
    if s.n_layer > 0 && !s.swiglu {
        return Err("the GPU path currently implements swiglu only".to_owned());
    }
    let mut v: Vec<Op> = Vec::new();
    v.push(Op::Embed { dst: Place::Prefill { buf: Buf::X }, rows: t });
    let ghost head = v@;
    let mut l: usize = 0;
    while l < s.n_layer
        invariant
            l <= s.n_layer,
            s.wf(),
            s.holds(t as int),
            v@ == head + prefill_layers(*s, t, *m, l as nat),
        decreases s.n_layer - l,
    {
        push_prefill_layer(&mut v, s, t, m, l);
        l += 1;
        assert(v@ =~= head + prefill_layers(*s, t, *m, l as nat));
    }
    assert(v@ =~= transformer(*s, t, *m));
    Ok(v)
}

/// Every launch of one chunk of one prompt.
pub fn queue_prefill(s: &Shape, t: usize, m: &PrefillMode, want_logits: bool) -> (r: Result<
    Vec<Op>,
    String,
>)
    requires
        s.wf(),
        s.holds(t as int),
        want_logits ==> t > 0,
    ensures
        match r {
            Ok(v) => s.runnable() && v@ == prefill(*s, t, *m, want_logits),
            Err(e) => !s.runnable() && e@ == swiglu_only(),
        },
{
    let mut v = match queue_prefill_transformer(s, t, m) {
        Ok(v) => v,
        Err(e) => {
            return Err(e);
        },
    };
    if want_logits {
        let normed = Place::Single { buf: Buf::Normed };
        let x = Place::Single { buf: Buf::X };
        v.push(Op::CopyRow { src: Place::Prefill { buf: Buf::X }, dst: normed, row: t - 1 });
        v.push(Op::Norm { weight: Weight::FinalNorm, src: normed, dst: x, rows: 1 });
        v.push(Op::Project { weight: Weight::TokEmb, how: How::Gemv { base: 0, param: PARAM_ZERO }, src: x,
            dst: Place::Single { buf: Buf::Logits }, rows: s.vocab, cols: s.n_embd, batch: 1, accumulate: false });
        assert(v@ =~= prefill(*s, t, *m, want_logits));
    }
    Ok(v)
}

/// Every launch of a packed call: the transformer over all rows, then the
/// logits and tokens of the prompts it finished, if any.
pub fn queue_packed_prefill(
    s: &Shape,
    rows: usize,
    m: &PrefillMode,
    finals: usize,
    topk: bool,
) -> (r: Result<Vec<Op>, String>)
    requires
        s.wf(),
        s.holds(rows as int),
    ensures
        match r {
            Ok(v) => s.runnable() && v@ == packed_prefill(*s, rows, *m, finals, topk),
            Err(e) => !s.runnable() && e@ == swiglu_only(),
        },
{
    let mut v = match queue_prefill_transformer(s, rows, m) {
        Ok(v) => v,
        Err(e) => {
            return Err(e);
        },
    };
    if finals > 0 {
        let x = Place::Batch { buf: Buf::X };
        let normed = Place::Batch { buf: Buf::Normed };
        v.push(Op::Gather { src: Place::Prefill { buf: Buf::X }, dst: x, rows: finals });
        v.push(Op::Norm { weight: Weight::FinalNorm, src: x, dst: normed, rows: finals });
        v.push(Op::Project { weight: Weight::TokEmb, how: How::FinalRows, src: normed,
            dst: Place::Batch { buf: Buf::Logits }, rows: s.vocab, cols: s.n_embd, batch: finals,
            accumulate: false });
        push_selection(&mut v, finals, topk);
        assert(v@ =~= packed_prefill(*s, rows, *m, finals, topk));
    }
    Ok(v)
}

/// Every launch that selects the first token of a single prompt.
pub fn queue_single_selection(topk: bool) -> (v: Vec<Op>)
    ensures
        v@ == single_selection(topk),
{
    let mut v: Vec<Op> = Vec::new();
    v.push(Op::CopyRow { src: Place::Single { buf: Buf::Logits }, dst: Place::Batch { buf: Buf::Logits }, row: 0 });
    push_selection(&mut v, 1, topk);
    assert(v@ =~= single_selection(topk));
    v
}

/// A batched projection goes row by row exactly where the weights are quantised,
/// their rows are read four values at a time, and nothing forces the matrix
/// kernel.
pub proof fn law_when_projections_go_row_by_row(s: Shape, cols: usize, force: bool)
    ensures
        batch_how(s, cols, force) == How::BatchGemv <==> s.precision == Precision::Int8 && !force
            && cols % 4 == 0,
        batch_how(s, cols, force) == How::BatchGemv || batch_how(s, cols, force) == How::Gemm,
{
}

} // verus!
