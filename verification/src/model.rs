//! The transformer on the CPU: what is loaded, what is refused, and the order
//! of its operations.
//!
//! Token-major: each token flows through every layer before the next token
//! starts. By the time a position reaches a layer, every earlier position has
//! written its keys and values of that layer, so attention reads them instead
//! of computing them again.
use crate::cache::{CacheView, KvCache};
use crate::config::Config;
use crate::launch::Weight;
use crate::math;
use crate::text;
use crate::text::{push_decimal, same_text};
use vstd::prelude::*;

verus! {

/// Why a sequence was refused.
#[derive(Debug, Clone, Copy, PartialEq, Eq, Structural)]
pub enum ModelError {
    /// Nothing to process.
    NoTokens,
    /// The cache has another number of layers.
    OtherModel,
    /// More positions than the cache holds.
    Sequence { len: usize, capacity: usize },
    /// A token the model does not know.
    Token { token: usize, vocab: usize },
}

impl ModelError {
    /// The error in words.
    pub open spec fn text(self) -> Seq<char> {
        match self {
            ModelError::NoTokens => "no tokens to process"@,
            ModelError::OtherModel => "cache was built for a different model"@,
            ModelError::Sequence { len, capacity } => "sequence of "@ + text::decimal(len as nat)
                + " exceeds cache capacity "@ + text::decimal(capacity as nat),
            ModelError::Token { token, vocab } => "token id "@ + text::decimal(token as nat)
                + " outside vocabulary "@ + text::decimal(vocab as nat),
        }
    }

    /// The error in words, for a log line or a response body.
    pub fn message(&self) -> (m: String)
        ensures
            m@ == self.text(),
    {
        let mut m = String::new();
        match self {
            ModelError::NoTokens => {
                m.append("no tokens to process");
            },
            ModelError::OtherModel => {
                m.append("cache was built for a different model");
            },
            ModelError::Sequence { len, capacity } => {
                m.append("sequence of ");
                push_decimal(&mut m, *len as u64);
                m.append(" exceeds cache capacity ");
                push_decimal(&mut m, *capacity as u64);
            },
            ModelError::Token { token, vocab } => {
                m.append("token id ");
                push_decimal(&mut m, *token as u64);
                m.append(" outside vocabulary ");
                push_decimal(&mut m, *vocab as u64);
            },
        }
        assert(m@ =~= self.text());
        m
    }
}

// ---------------------------------------------------------------------------
// Loading.

/// The name of a layer's tensor.
pub open spec fn layer_tensor(layer: nat, part: Seq<char>) -> Seq<char> {
    "blocks."@ + text::decimal(layer) + part
}

/// The tensors of a layer, in the order they are read. Only gated MLPs have a
/// gate.
pub open spec fn layer_tensors(layer: nat, gated: bool) -> Seq<Seq<char>> {
    let head = seq![
        layer_tensor(layer, ".attn_norm.weight"@),
        layer_tensor(layer, ".attn.q_proj.weight"@),
        layer_tensor(layer, ".attn.k_proj.weight"@),
        layer_tensor(layer, ".attn.v_proj.weight"@),
        layer_tensor(layer, ".attn.o_proj.weight"@),
        layer_tensor(layer, ".mlp_norm.weight"@),
    ];
    let tail = seq![
        layer_tensor(layer, ".mlp.up_proj.weight"@),
        layer_tensor(layer, ".mlp.down_proj.weight"@),
    ];
    if gated {
        head.push(layer_tensor(layer, ".mlp.gate_proj.weight"@)) + tail
    } else {
        head + tail
    }
}

/// The tensors of the first `n` layers.
pub open spec fn layers_tensors(n: nat, gated: bool) -> Seq<Seq<char>>
    decreases n,
{
    if n == 0 {
        Seq::empty()
    } else {
        layers_tensors((n - 1) as nat, gated) + layer_tensors((n - 1) as nat, gated)
    }
}

/// The texts of a list of strings.
pub open spec fn texts(v: Seq<String>) -> Seq<Seq<char>> {
    v.map_values(|s: String| s@)
}

fn push_tensor(v: &mut Vec<String>, layer: usize, part: &str)
    ensures
        texts(final(v)@) == texts(old(v)@).push(layer_tensor(layer as nat, part@)),
{
    let mut name = "blocks.".to_owned();
    push_decimal(&mut name, layer as u64);
    name.append(part);
    v.push(name);
    assert(texts(v@) =~= texts(old(v)@).push(layer_tensor(layer as nat, part@)));
}

fn push_layer(v: &mut Vec<String>, layer: usize, gated: bool)
    ensures
        texts(final(v)@) == texts(old(v)@) + layer_tensors(layer as nat, gated),
{
    push_tensor(v, layer, ".attn_norm.weight");
    push_tensor(v, layer, ".attn.q_proj.weight");
    push_tensor(v, layer, ".attn.k_proj.weight");
    push_tensor(v, layer, ".attn.v_proj.weight");
    push_tensor(v, layer, ".attn.o_proj.weight");
    push_tensor(v, layer, ".mlp_norm.weight");
    if gated {
        push_tensor(v, layer, ".mlp.gate_proj.weight");
    }
    push_tensor(v, layer, ".mlp.up_proj.weight");
    push_tensor(v, layer, ".mlp.down_proj.weight");
    assert(texts(v@) =~= texts(old(v)@) + layer_tensors(layer as nat, gated));
}

fn push_name(v: &mut Vec<String>, name: &str)
    ensures
        texts(final(v)@) == texts(old(v)@).push(name@),
{
    v.push(name.to_owned());
    assert(texts(v@) =~= texts(old(v)@).push(name@));
}

fn push_layers(v: &mut Vec<String>, cfg: &Config)
    requires
        old(v)@.len() == 0,
    ensures
        texts(final(v)@) == layers_tensors(cfg.n_layer as nat, cfg.activation@ == "swiglu"@),
{
    let gated = same_text(cfg.activation.as_str(), "swiglu");
    assert(texts(v@) =~= layers_tensors(0, gated));
    let mut l: usize = 0;
    while l < cfg.n_layer
        invariant
            l <= cfg.n_layer,
            texts(v@) == layers_tensors(l as nat, gated),
        decreases cfg.n_layer - l,
    {
        push_layer(v, l, gated);
        l += 1;
    }
}

/// The tensors a model reads on the CPU before its position encoding is looked
/// at.
pub open spec fn cpu_tensors(cfg: Config) -> Seq<Seq<char>> {
    let layers = layers_tensors(cfg.n_layer as nat, cfg.activation@ == "swiglu"@);
    if cfg.pos_encoding@ == "learned"@ {
        layers.push("pos_emb.weight"@)
    } else {
        layers
    }
}

/// The tensors a model reads on the CPU, in order. The second list follows the
/// check of `encoding_supported`.
pub fn load(cfg: &Config) -> (r: (Vec<String>, Vec<String>))
    ensures
        texts(r.0@) == cpu_tensors(*cfg),
        texts(r.1@) == seq!["tok_emb.weight"@, "final_norm.weight"@],
{
    let mut v: Vec<String> = Vec::new();
    push_layers(&mut v, cfg);
    if same_text(cfg.pos_encoding.as_str(), "learned") {
        push_name(&mut v, "pos_emb.weight");
    }
    let mut rest: Vec<String> = Vec::new();
    assert(texts(rest@) =~= Seq::<Seq<char>>::empty());
    push_name(&mut rest, "tok_emb.weight");
    push_name(&mut rest, "final_norm.weight");
    assert(texts(rest@) =~= seq!["tok_emb.weight"@, "final_norm.weight"@]);
    (v, rest)
}

/// Whether the CPU path has the position encoding.
pub fn encoding_supported(cfg: &Config) -> (r: Result<(), String>)
    ensures
        match r {
            Ok(()) => cfg.pos_encoding@ != "alibi"@,
            Err(m) => cfg.pos_encoding@ == "alibi"@ && m@
                == "alibi is not implemented in the CPU path yet"@,
        },
{
    if same_text(cfg.pos_encoding.as_str(), "alibi") {
        return Err("alibi is not implemented in the CPU path yet".to_owned());
    }
    Ok(())
}

/// The tensors a model reads for the device, in order. The first layer's up
/// projection is looked at once more, for the width of the MLP.
pub fn load_device(cfg: &Config) -> (v: Vec<String>)
    ensures
        texts(v@) == layers_tensors(cfg.n_layer as nat, cfg.activation@ == "swiglu"@) + seq![
            "blocks.0.mlp.up_proj.weight"@,
            "tok_emb.weight"@,
            "final_norm.weight"@,
        ],
{
    let mut v: Vec<String> = Vec::new();
    push_layers(&mut v, cfg);
    let ghost layers = texts(v@);
    push_name(&mut v, "blocks.0.mlp.up_proj.weight");
    push_name(&mut v, "tok_emb.weight");
    push_name(&mut v, "final_norm.weight");
    assert(texts(v@) =~= layers + seq![
        "blocks.0.mlp.up_proj.weight"@,
        "tok_emb.weight"@,
        "final_norm.weight"@,
    ]);
    v
}

// ---------------------------------------------------------------------------
// Running.

/// Where a projection of the CPU path reads: the residual stream, or its norm.
#[derive(Debug, Clone, Copy, PartialEq, Eq, Structural)]
pub enum Source {
    Residual,
    Normed,
}

/// One operation of the CPU path on one token.
#[derive(Debug, Clone, Copy, PartialEq, Eq, Structural)]
pub enum CpuOp {
    /// The token's embedding becomes the residual stream.
    Embed,
    /// The position's embedding is added.
    AddPosition,
    /// The residual stream is normalised into scratch, before attention or
    /// before the MLP.
    Norm { layer: usize, mlp: bool },
    /// The residual stream is normalised in place.
    NormResidual { layer: usize, mlp: bool },
    /// K and V rows of this position, into the cache.
    KeyValue { layer: usize, src: Source },
    /// Rotary embedding of the K row, head by head.
    RotateKey { layer: usize },
    /// The query.
    Query { layer: usize, src: Source },
    /// Rotary embedding of the query, head by head.
    RotateQuery,
    /// Causal attention of every head over positions up to this one.
    Attend { layer: usize },
    /// The attention's projection, added to the residual stream.
    Output { layer: usize },
    /// `silu(gate x) * (up x)`.
    SwiGlu { layer: usize, src: Source },
    /// `gelu(up x)`.
    Gelu { layer: usize, src: Source },
    /// The MLP's projection, added to the residual stream.
    Down { layer: usize },
}

/// One layer of one token. With pre-norm both halves read a normalised copy;
/// with post-norm they read the stream itself, which is normalised after each.
pub open spec fn layer_ops(cfg: Config, layer: usize) -> Seq<CpuOp> {
    let pre = cfg.norm_placement@ == "pre"@;
    let post = cfg.norm_placement@ == "post"@;
    let rope = cfg.pos_encoding@ == "rope"@;
    let src = if pre {
        Source::Normed
    } else {
        Source::Residual
    };
    only(pre, CpuOp::Norm { layer, mlp: false }) + seq![CpuOp::KeyValue { layer, src }] + only(
        rope,
        CpuOp::RotateKey { layer },
    ) + seq![CpuOp::Query { layer, src }] + only(rope, CpuOp::RotateQuery) + seq![
        CpuOp::Attend { layer },
        CpuOp::Output { layer },
    ] + only(post, CpuOp::NormResidual { layer, mlp: false }) + only(
        pre,
        CpuOp::Norm { layer, mlp: true },
    ) + seq![
        if cfg.activation@ == "swiglu"@ {
            CpuOp::SwiGlu { layer, src }
        } else {
            CpuOp::Gelu { layer, src }
        },
        CpuOp::Down { layer },
    ] + only(post, CpuOp::NormResidual { layer, mlp: true })
}

/// An operation that runs only where something holds.
pub open spec fn only(b: bool, op: CpuOp) -> Seq<CpuOp> {
    if b {
        seq![op]
    } else {
        Seq::empty()
    }
}

/// The first `n` layers of one token.
pub open spec fn layers_ops(cfg: Config, n: nat) -> Seq<CpuOp>
    decreases n,
{
    if n == 0 {
        Seq::empty()
    } else {
        layers_ops(cfg, (n - 1) as nat) + layer_ops(cfg, (n - 1) as usize)
    }
}

/// One token through every layer.
pub open spec fn token_ops(cfg: Config) -> Seq<CpuOp> {
    seq![CpuOp::Embed] + only(cfg.pos_encoding@ == "learned"@, CpuOp::AddPosition) + layers_ops(
        cfg,
        cfg.n_layer as nat,
    )
}

fn push_layer_ops(v: &mut Vec<CpuOp>, cfg: &Config, layer: usize)
    ensures
        final(v)@ == old(v)@ + layer_ops(*cfg, layer),
{
    let pre = same_text(cfg.norm_placement.as_str(), "pre");
    let post = same_text(cfg.norm_placement.as_str(), "post");
    let rope = same_text(cfg.pos_encoding.as_str(), "rope");
    let src = if pre {
        Source::Normed
    } else {
        Source::Residual
    };
    if pre {
        v.push(CpuOp::Norm { layer, mlp: false });
    }
    v.push(CpuOp::KeyValue { layer, src });
    if rope {
        v.push(CpuOp::RotateKey { layer });
    }
    v.push(CpuOp::Query { layer, src });
    if rope {
        v.push(CpuOp::RotateQuery);
    }
    v.push(CpuOp::Attend { layer });
    v.push(CpuOp::Output { layer });
    if post {
        v.push(CpuOp::NormResidual { layer, mlp: false });
    }
    if pre {
        v.push(CpuOp::Norm { layer, mlp: true });
    }
    if same_text(cfg.activation.as_str(), "swiglu") {
        v.push(CpuOp::SwiGlu { layer, src });
    } else {
        v.push(CpuOp::Gelu { layer, src });
    }
    v.push(CpuOp::Down { layer });
    if post {
        v.push(CpuOp::NormResidual { layer, mlp: true });
    }
    assert(v@ =~= old(v)@ + layer_ops(*cfg, layer));
}

/// One token through every layer, in order.
fn queue_cpu_token(cfg: &Config) -> (v: Vec<CpuOp>)
    ensures
        v@ == token_ops(*cfg),
{
    let mut v: Vec<CpuOp> = Vec::new();
    v.push(CpuOp::Embed);
    if same_text(cfg.pos_encoding.as_str(), "learned") {
        v.push(CpuOp::AddPosition);
    }
    let ghost head = v@;
    let mut l: usize = 0;
    while l < cfg.n_layer
        invariant
            l <= cfg.n_layer,
            v@ == head + layers_ops(*cfg, l as nat),
        decreases cfg.n_layer - l,
    {
        push_layer_ops(&mut v, cfg, l);
        l += 1;
        assert(v@ =~= head + layers_ops(*cfg, l as nat));
    }
    assert(v@ =~= token_ops(*cfg));
    v
}

/// Whether an operation of a layer is one that follows another.
pub open spec fn precedes(ops: Seq<CpuOp>, a: CpuOp, b: CpuOp) -> bool {
    exists|i: int, j: int| 0 <= i < j < ops.len() && #[trigger] ops[i] == a && #[trigger] ops[j] == b
}

/// Within a layer, attention follows the position's own K and V, so that the
/// cache holds exactly the positions a causal mask lets through.
pub proof fn law_attention_follows_the_cache(cfg: Config, layer: usize)
    ensures
        exists|src: Source| precedes(
            layer_ops(cfg, layer),
            CpuOp::KeyValue { layer, src },
            CpuOp::Attend { layer },
        ),
{
    let ops = layer_ops(cfg, layer);
    let pre = cfg.norm_placement@ == "pre"@;
    let rope = cfg.pos_encoding@ == "rope"@;
    let src = if pre {
        Source::Normed
    } else {
        Source::Residual
    };
    let i = if pre {
        1int
    } else {
        0
    };
    let j = if rope {
        i + 4
    } else {
        i + 2
    };
    assert(ops[i] == CpuOp::KeyValue { layer, src });
    assert(ops[j] == CpuOp::Attend { layer });
    assert(precedes(ops, CpuOp::KeyValue { layer, src }, CpuOp::Attend { layer }));
}

/// The KV head a query head reads: each serves `n_rep` query heads in a row.
pub fn kv_head(cfg: &Config, head: usize) -> (h: usize)
    requires
        cfg.n_kv_head > 0,
        cfg.n_head / cfg.n_kv_head > 0,
    ensures
        h == head / (cfg.n_head / cfg.n_kv_head),
{
    head / cfg.n_rep()
}

/// KV head `j` serves exactly the query heads `j * n_rep .. (j + 1) * n_rep`,
/// and every query head of a valid architecture has one.
pub proof fn law_kv_heads_serve_runs(cfg: Config, head: nat, j: nat)
    requires
        cfg.n_head > 0,
        cfg.n_kv_head > 0,
        cfg.n_head % cfg.n_kv_head == 0,
        head < cfg.n_head,
    ensures
        ({
            let rep = (cfg.n_head / cfg.n_kv_head) as nat;
            &&& rep > 0
            &&& head / rep == j <==> j * rep <= head < (j + 1) * rep
            &&& head / rep < cfg.n_kv_head
        }),
{
    let n = cfg.n_head as int;
    let k = cfg.n_kv_head as int;
    let rep = n / k;
    vstd::arithmetic::div_mod::lemma_fundamental_div_mod(n, k);
    assert(n == k * rep);
    assert(rep > 0) by (nonlinear_arith)
        requires
            n == k * rep,
            n > 0,
            k > 0,
    ;
    let h = head as int;
    vstd::arithmetic::div_mod::lemma_fundamental_div_mod(h, rep);
    let q = h / rep;
    let r = h % rep;
    assert(q * rep == rep * q) by (nonlinear_arith);
    assert((q + 1) * rep == q * rep + rep) by (nonlinear_arith);
    if q == j {
    } else if q < j {
        assert((q + 1) * rep <= j * rep) by (nonlinear_arith)
            requires
                q + 1 <= j,
                rep > 0,
        ;
    } else {
        assert((j + 1) * rep <= q * rep) by (nonlinear_arith)
            requires
                j + 1 <= q,
                rep > 0,
        ;
    }
    assert(q < k) by (nonlinear_arith)
        requires
            q * rep <= h,
            h < k * rep,
            rep > 0,
    ;
}

/// Why a sequence is refused before any token runs, if it is.
pub open spec fn refusal(
    cfg: Config,
    tokens: nat,
    cache_layers: nat,
    cache_len: nat,
    cache_capacity: nat,
) -> Option<ModelError> {
    if tokens == 0 {
        Some(ModelError::NoTokens)
    } else if cache_layers != cfg.n_layer {
        Some(ModelError::OtherModel)
    } else if cache_len + tokens > cache_capacity {
        Some(
            ModelError::Sequence {
                len: (cache_len + tokens) as usize,
                capacity: cache_capacity as usize,
            },
        )
    } else {
        None
    }
}

/// Index of the first token outside the vocabulary, or the length.
pub open spec fn first_outside(tokens: Seq<usize>, vocab: usize) -> nat
    decreases tokens.len(),
{
    if tokens.len() == 0 || tokens[0] >= vocab {
        0
    } else {
        1 + first_outside(tokens.skip(1), vocab)
    }
}

proof fn lemma_first_outside(tokens: Seq<usize>, vocab: usize, at: nat)
    requires
        at <= tokens.len(),
        forall|k: int| 0 <= k < at ==> #[trigger] tokens[k] < vocab,
        at < tokens.len() ==> tokens[at as int] >= vocab,
    ensures
        first_outside(tokens, vocab) == at,
    decreases tokens.len(),
{
    if at > 0 {
        let rest = tokens.skip(1);
        assert(tokens[0] < vocab);
        assert forall|k: int| 0 <= k < at - 1 implies #[trigger] rest[k] < vocab by {
            assert(rest[k] == tokens[k + 1]);
        }
        lemma_first_outside(rest, vocab, (at - 1) as nat);
    }
}

/// How many tokens of a sequence come to stand in the cache: none where it is
/// refused at once, and otherwise those before the first one outside the
/// vocabulary.
pub open spec fn appended(
    cfg: Config,
    tokens: Seq<usize>,
    cache_layers: nat,
    cache_len: nat,
    cache_capacity: nat,
) -> nat {
    if refusal(cfg, tokens.len(), cache_layers, cache_len, cache_capacity) is Some {
        0
    } else {
        first_outside(tokens, cfg.vocab_size)
    }
}

/// Whether a cache differs from another in the contents of its rows alone.
pub open spec fn same_shape<T>(a: CacheView<T>, b: CacheView<T>) -> bool {
    &&& b.wf()
    &&& b.len == a.len
    &&& b.capacity == a.capacity
    &&& b.kv_dim == a.kv_dim
    &&& b.n_layer == a.n_layer
}

/// Whether a cache is another with one more valid position.
pub open spec fn advanced<T>(a: KvCache<T>, b: KvCache<T>) -> bool {
    b@ == (CacheView { len: a@.len + 1, ..a@ })
}

/// Whether the operations of one token, each carried out by `run` on what the
/// one before it left, lead from `a` and nothing else to `w` and `b`.
pub open spec fn turned<
    T,
    W,
    F: Fn(CpuOp, usize, usize, Option<W>, KvCache<T>) -> (Option<W>, KvCache<T>),
>(
    run: F,
    ops: Seq<CpuOp>,
    token: usize,
    pos: usize,
    a: KvCache<T>,
    w: Option<W>,
    b: KvCache<T>,
) -> bool
    decreases ops.len(),
{
    if ops.len() == 0 {
        w is None && a == b
    } else {
        exists|v: Option<W>, c: KvCache<T>|
            {
                &&& turned(run, ops.drop_last(), token, pos, a, v, c)
                &&& #[trigger] run.ensures((ops.last(), token, pos, v, c), (w, b))
            }
    }
}

/// Whether a sequence, token by token, leads from cache `a` to cache `b`. The
/// token at index `i` has position `start + i`. Nothing but the cache goes from
/// one token to the next.
pub open spec fn cached<
    T,
    W,
    F: Fn(CpuOp, usize, usize, Option<W>, KvCache<T>) -> (Option<W>, KvCache<T>),
>(
    run: F,
    ops: Seq<CpuOp>,
    tokens: Seq<usize>,
    start: nat,
    a: KvCache<T>,
    b: KvCache<T>,
) -> bool
    decreases tokens.len(),
{
    if tokens.len() == 0 {
        a == b
    } else {
        exists|c: KvCache<T>, w: Option<W>, d: KvCache<T>|
            {
                &&& cached::<T, W, F>(run, ops, tokens.drop_last(), start, a, c)
                &&& #[trigger] turned(
                    run,
                    ops,
                    tokens.last(),
                    (start + tokens.len() - 1) as usize,
                    c,
                    w,
                    d,
                )
                &&& advanced(d, b)
            }
    }
}

/// Whether a sequence leads from cache `a` to cache `b` and its last token
/// leaves `w`.
pub open spec fn passed<
    T,
    W,
    F: Fn(CpuOp, usize, usize, Option<W>, KvCache<T>) -> (Option<W>, KvCache<T>),
>(
    run: F,
    ops: Seq<CpuOp>,
    tokens: Seq<usize>,
    start: nat,
    a: KvCache<T>,
    w: Option<W>,
    b: KvCache<T>,
) -> bool {
    &&& tokens.len() > 0
    &&& exists|c: KvCache<T>, d: KvCache<T>|
        {
            &&& cached::<T, W, F>(run, ops, tokens.drop_last(), start, a, c)
            &&& #[trigger] turned(
                run,
                ops,
                tokens.last(),
                (start + tokens.len() - 1) as usize,
                c,
                w,
                d,
            )
            &&& advanced(d, b)
        }
}

/// Positions of the cache that a full forward makes for itself.
pub open spec fn forward_room(cfg: Config, tokens: nat) -> nat {
    math::least(
        if tokens == 0 {
            1
        } else {
            tokens
        },
        cfg.block_size as nat,
    )
}

/// A model on the CPU, without its weights.
#[derive(Debug)]
pub struct Model {
    pub cfg: Config,
}

impl Model {
    /// An empty cache, for no more than the context the model was trained for.
    pub fn new_cache<T: Copy>(&self, capacity: usize, zero: T) -> (c: KvCache<T>)
        requires
            ({
                let n = if capacity <= self.cfg.block_size {
                    capacity
                } else {
                    self.cfg.block_size
                };
                KvCache::<T>::fits(self.cfg, n)
            }),
        ensures
            c@.wf(),
            c@ == CacheView::fresh(
                self.cfg,
                math::least(capacity as nat, self.cfg.block_size as nat),
                zero,
            ),
    {
        KvCache::new(&self.cfg, math::min(capacity, self.cfg.block_size), zero)
    }

    /// Append a sequence to the cache and return the logits of its last
    /// position. Serves both roles: a whole prompt, or one token. Positions are
    /// numbered from the cache's length, so they stay right across calls.
    ///
    /// `run` does the arithmetic of one operation: it is handed the token, its
    /// position, what the operation before it left (nothing, at the first
    /// operation of a token) and the cache, of which it may write rows. `project`
    /// makes logits of what the last operation left. A token outside the
    /// vocabulary is refused as its turn comes: the tokens before it are in the
    /// cache by then.
    pub fn forward_cached<
        T: Copy,
        W,
        L,
        F: Fn(CpuOp, usize, usize, Option<W>, KvCache<T>) -> (Option<W>, KvCache<T>),
        P: Fn(Option<W>) -> L,
    >(&self, tokens: &[usize], cache: &mut KvCache<T>, run: F, project: P) -> (r: Result<
        L,
        ModelError,
    >)
        requires
            old(cache)@.wf(),
            old(cache)@.len + tokens@.len() <= usize::MAX,
            forall|op: CpuOp, token: usize, pos: usize, w: Option<W>, c: KvCache<T>|
                c@.wf() && token < self.cfg.vocab_size && pos == c@.len && pos < c@.capacity
                    ==> #[trigger] run.requires((op, token, pos, w, c)),
            forall|
                op: CpuOp,
                token: usize,
                pos: usize,
                v: Option<W>,
                c: KvCache<T>,
                w: Option<W>,
                d: KvCache<T>,
            | #[trigger]
                run.ensures((op, token, pos, v, c), (w, d)) && c@.wf() ==> same_shape(c@, d@),
            forall|w: Option<W>| #[trigger] project.requires((w,)),
        ensures
            ({
                let at = old(cache)@;
                let refused = refusal(self.cfg, tokens@.len(), at.n_layer, at.len, at.capacity);
                let n = appended(self.cfg, tokens@, at.n_layer, at.len, at.capacity);
                let ops = token_ops(self.cfg);
                &&& same_shape(CacheView { len: at.len + n, ..at }, final(cache)@)
                &&& match r {
                    Ok(logits) => {
                        &&& refused is None
                        &&& n == tokens@.len()
                        &&& exists|w: Option<W>|
                            {
                                &&& #[trigger] passed(
                                    run,
                                    ops,
                                    tokens@,
                                    at.len,
                                    *old(cache),
                                    w,
                                    *final(cache),
                                )
                                &&& project.ensures((w,), logits)
                            }
                    },
                    Err(e) => {
                        &&& refused is Some || n < tokens@.len()
                        &&& e == (if refused is Some {
                            refused->0
                        } else {
                            ModelError::Token {
                                token: tokens@[n as int],
                                vocab: self.cfg.vocab_size,
                            }
                        })
                        &&& cached::<T, W, F>(
                            run,
                            ops,
                            tokens@.take(n as int),
                            at.len,
                            *old(cache),
                            *final(cache),
                        )
                    },
                }
            }),
    {
        assert(tokens@.take(0) =~= Seq::empty());
        if tokens.len() == 0 {
            return Err(ModelError::NoTokens);
        }
        if cache.n_layer() != self.cfg.n_layer {
            return Err(ModelError::OtherModel);
        }
        let start: usize = cache.len();
        let len: usize = start + tokens.len();
        if len > cache.capacity() {
            return Err(ModelError::Sequence { len, capacity: cache.capacity() });
        }
        let ops = self.token();
        let mut left: Option<W> = None;
        let mut c = cache.take();
        let mut i: usize = 0;
        while i < tokens.len()
            invariant
                i <= tokens@.len(),
                ops@ == token_ops(self.cfg),
                old(cache)@.len == start,
                start + tokens@.len() <= old(cache)@.capacity,
                start + tokens@.len() <= usize::MAX,
                refusal(
                    self.cfg,
                    tokens@.len(),
                    old(cache)@.n_layer,
                    old(cache)@.len,
                    old(cache)@.capacity,
                ) is None,
                same_shape(CacheView { len: (start + i) as nat, ..old(cache)@ }, c@),
                cached::<T, W, F>(run, ops@, tokens@.take(i as int), start as nat, *old(cache), c),
                i > 0 ==> passed(
                    run,
                    ops@,
                    tokens@.take(i as int),
                    start as nat,
                    *old(cache),
                    left,
                    c,
                ),
                forall|k: int| 0 <= k < i ==> #[trigger] tokens@[k] < self.cfg.vocab_size,
                forall|op: CpuOp, token: usize, pos: usize, w: Option<W>, c: KvCache<T>|
                    c@.wf() && token < self.cfg.vocab_size && pos == c@.len && pos < c@.capacity
                        ==> #[trigger] run.requires((op, token, pos, w, c)),
                forall|
                    op: CpuOp,
                    token: usize,
                    pos: usize,
                    v: Option<W>,
                    c: KvCache<T>,
                    w: Option<W>,
                    d: KvCache<T>,
                | #[trigger]
                    run.ensures((op, token, pos, v, c), (w, d)) && c@.wf() ==> same_shape(c@, d@),
            decreases tokens@.len() - i,
        {
            let token: usize = tokens[i];
            if token >= self.cfg.vocab_size {
                proof {
                    lemma_first_outside(tokens@, self.cfg.vocab_size, i as nat);
                }
                *cache = c;
                return Err(ModelError::Token { token, vocab: self.cfg.vocab_size });
            }
            let pos: usize = start + i;
            let ghost reached = c;
            let mut w: Option<W> = None;
            let mut o: usize = 0;
            assert(ops@.take(0) =~= Seq::empty());
            while o < ops.len()
                invariant
                    o <= ops@.len(),
                    token < self.cfg.vocab_size,
                    pos == reached@.len,
                    pos < reached@.capacity,
                    reached@.wf(),
                    same_shape(reached@, c@),
                    turned(run, ops@.take(o as int), token, pos, reached, w, c),
                    forall|op: CpuOp, token: usize, pos: usize, w: Option<W>, c: KvCache<T>|
                        c@.wf() && token < self.cfg.vocab_size && pos == c@.len && pos
                            < c@.capacity ==> #[trigger] run.requires((op, token, pos, w, c)),
                    forall|
                        op: CpuOp,
                        token: usize,
                        pos: usize,
                        v: Option<W>,
                        c: KvCache<T>,
                        w: Option<W>,
                        d: KvCache<T>,
                    | #[trigger]
                        run.ensures((op, token, pos, v, c), (w, d)) && c@.wf() ==> same_shape(
                            c@,
                            d@,
                        ),
                decreases ops@.len() - o,
            {
                let op = ops[o];
                let ghost (v, d) = (w, c);
                let next = run(op, token, pos, w, c);
                w = next.0;
                c = next.1;
                proof {
                    assert(run.ensures((op, token, pos, v, d), (w, c)));
                    let some = ops@.take(o + 1);
                    assert(some.drop_last() =~= ops@.take(o as int));
                    assert(some.last() == op);
                    assert(turned(run, some, token, pos, reached, w, c));
                }
                o += 1;
            }
            let ghost done = c;
            let moved = c.advance(1);
            assert(moved is Ok);
            left = w;
            proof {
                assert(ops@.take(o as int) =~= ops@);
                let some = tokens@.take(i + 1);
                assert(some.drop_last() =~= tokens@.take(i as int));
                assert(some.last() == token);
                assert(advanced(done, c));
                assert(turned(
                    run,
                    ops@,
                    some.last(),
                    (start as nat + some.len() - 1) as usize,
                    reached,
                    left,
                    done,
                ));
            }
            i += 1;
        }
        proof {
            lemma_first_outside(tokens@, self.cfg.vocab_size, i as nat);
            assert(tokens@.take(i as int) =~= tokens@);
        }
        *cache = c;
        Ok(project(left))
    }

    /// A full forward over a sequence, with no cache retained.
    pub fn forward<
        T: Copy,
        W,
        L,
        F: Fn(CpuOp, usize, usize, Option<W>, KvCache<T>) -> (Option<W>, KvCache<T>),
        P: Fn(Option<W>) -> L,
    >(&self, tokens: &[usize], zero: T, run: F, project: P) -> (r: Result<L, ModelError>)
        requires
            KvCache::<T>::fits(self.cfg, forward_room(self.cfg, tokens@.len()) as usize),
            forall|op: CpuOp, token: usize, pos: usize, w: Option<W>, c: KvCache<T>|
                c@.wf() && token < self.cfg.vocab_size && pos == c@.len && pos < c@.capacity
                    ==> #[trigger] run.requires((op, token, pos, w, c)),
            forall|
                op: CpuOp,
                token: usize,
                pos: usize,
                v: Option<W>,
                c: KvCache<T>,
                w: Option<W>,
                d: KvCache<T>,
            | #[trigger]
                run.ensures((op, token, pos, v, c), (w, d)) && c@.wf() ==> same_shape(c@, d@),
            forall|w: Option<W>| #[trigger] project.requires((w,)),
        ensures
            ({
                let room = forward_room(self.cfg, tokens@.len());
                let refused = refusal(self.cfg, tokens@.len(), self.cfg.n_layer as nat, 0, room);
                let bad = first_outside(tokens@, self.cfg.vocab_size);
                match r {
                    Ok(logits) => {
                        &&& refused is None
                        &&& bad == tokens@.len()
                        &&& exists|a: KvCache<T>, w: Option<W>, b: KvCache<T>|
                            {
                                &&& a@ == CacheView::fresh(self.cfg, room, zero)
                                &&& #[trigger] passed(
                                    run,
                                    token_ops(self.cfg),
                                    tokens@,
                                    0,
                                    a,
                                    w,
                                    b,
                                )
                                &&& project.ensures((w,), logits)
                            }
                    },
                    Err(e) => if refused is Some {
                        e == refused->0
                    } else {
                        bad < tokens@.len() && e == (ModelError::Token {
                            token: tokens@[bad as int],
                            vocab: self.cfg.vocab_size,
                        })
                    },
                }
            }),
    {
        let room: usize = if tokens.len() == 0 {
            1
        } else {
            tokens.len()
        };
        let mut cache = self.new_cache(room, zero);
        self.forward_cached(tokens, &mut cache, run, project)
    }

    /// One token through every layer, in order.
    pub fn token(&self) -> (v: Vec<CpuOp>)
        ensures
            v@ == token_ops(self.cfg),
    {
        queue_cpu_token(&self.cfg)
    }
}

/// What the last operation of a token was handed by the one before it.
pub proof fn lemma_last_operation<
    T,
    W,
    F: Fn(CpuOp, usize, usize, Option<W>, KvCache<T>) -> (Option<W>, KvCache<T>),
>(
    run: F,
    ops: Seq<CpuOp>,
    token: usize,
    pos: usize,
    a: KvCache<T>,
    w: Option<W>,
    b: KvCache<T>,
) -> (r: (Option<W>, KvCache<T>))
    requires
        ops.len() > 0,
        turned(run, ops, token, pos, a, w, b),
    ensures
        turned(run, ops.drop_last(), token, pos, a, r.0, r.1),
        run.ensures((ops.last(), token, pos, r.0, r.1), (w, b)),
{
    choose|v: Option<W>, c: KvCache<T>|
        {
            &&& turned(run, ops.drop_last(), token, pos, a, v, c)
            &&& #[trigger] run.ensures((ops.last(), token, pos, v, c), (w, b))
        }
}

/// Whether an operation was carried out on a token at a position.
pub open spec fn ran<
    T,
    W,
    F: Fn(CpuOp, usize, usize, Option<W>, KvCache<T>) -> (Option<W>, KvCache<T>),
>(run: F, op: CpuOp, token: usize, pos: usize) -> bool {
    exists|v: Option<W>, c: KvCache<T>, w: Option<W>, d: KvCache<T>| #[trigger]
        run.ensures((op, token, pos, v, c), (w, d))
}

proof fn lemma_turn_runs<
    T,
    W,
    F: Fn(CpuOp, usize, usize, Option<W>, KvCache<T>) -> (Option<W>, KvCache<T>),
>(
    run: F,
    ops: Seq<CpuOp>,
    token: usize,
    pos: usize,
    a: KvCache<T>,
    w: Option<W>,
    b: KvCache<T>,
    o: nat,
)
    requires
        turned(run, ops, token, pos, a, w, b),
        o < ops.len(),
    ensures
        ran::<T, W, F>(run, ops[o as int], token, pos),
    decreases ops.len(),
{
    let (v, c) = lemma_last_operation(run, ops, token, pos, a, w, b);
    if o < ops.len() - 1 {
        lemma_turn_runs(run, ops.drop_last(), token, pos, a, v, c, o);
        assert(ops.drop_last()[o as int] == ops[o as int]);
    }
}

/// Every operation is carried out on every token, each token at its position:
/// as far behind the cache's length as it stands in the sequence.
pub proof fn law_every_operation_runs_at_its_position<
    T,
    W,
    F: Fn(CpuOp, usize, usize, Option<W>, KvCache<T>) -> (Option<W>, KvCache<T>),
>(
    run: F,
    ops: Seq<CpuOp>,
    tokens: Seq<usize>,
    start: nat,
    a: KvCache<T>,
    b: KvCache<T>,
    i: nat,
    o: nat,
)
    requires
        cached::<T, W, F>(run, ops, tokens, start, a, b),
        i < tokens.len(),
        o < ops.len(),
    ensures
        ran::<T, W, F>(run, ops[o as int], tokens[i as int], (start + i) as usize),
    decreases tokens.len(),
{
    let some = tokens.drop_last();
    let at = (start + tokens.len() - 1) as usize;
    let (c, w, d) = choose|c: KvCache<T>, w: Option<W>, d: KvCache<T>|
        {
            &&& cached::<T, W, F>(run, ops, some, start, a, c)
            &&& #[trigger] turned(run, ops, tokens.last(), at, c, w, d)
            &&& advanced(d, b)
        };
    if i < some.len() {
        law_every_operation_runs_at_its_position::<T, W, F>(run, ops, some, start, a, c, i, o);
        assert(some[i as int] == tokens[i as int]);
    } else {
        lemma_turn_runs(run, ops, tokens.last(), at, c, w, d, o);
    }
}

/// Splitting a sequence over two calls changes nothing: where one piece leads
/// from one cache to another, and the next piece on from there, numbered on, the
/// whole leads from the first cache to the last.
pub proof fn law_pieces_make_the_whole<
    T,
    W,
    F: Fn(CpuOp, usize, usize, Option<W>, KvCache<T>) -> (Option<W>, KvCache<T>),
>(
    run: F,
    ops: Seq<CpuOp>,
    x: Seq<usize>,
    y: Seq<usize>,
    start: nat,
    a: KvCache<T>,
    b: KvCache<T>,
    c: KvCache<T>,
)
    requires
        cached::<T, W, F>(run, ops, x, start, a, b),
        cached::<T, W, F>(run, ops, y, start + x.len(), b, c),
    ensures
        cached::<T, W, F>(run, ops, x + y, start, a, c),
        forall|w: Option<W>| #[trigger]
            passed(run, ops, y, start + x.len(), b, w, c) ==> passed(run, ops, x + y, start, a, w, c),
    decreases y.len(),
{
    let all = x + y;
    if y.len() == 0 {
        assert(all =~= x);
    } else {
        let some = y.drop_last();
        let at = (start + x.len() + y.len() - 1) as usize;
        assert(all.drop_last() =~= x + some);
        assert(all.last() == y.last());
        assert(at == (start + all.len() - 1) as usize);
        let (m, v, d) = choose|m: KvCache<T>, w: Option<W>, d: KvCache<T>|
            {
                &&& cached::<T, W, F>(run, ops, some, start + x.len(), b, m)
                &&& #[trigger] turned(run, ops, y.last(), at, m, w, d)
                &&& advanced(d, c)
            };
        law_pieces_make_the_whole::<T, W, F>(run, ops, x, some, start, a, b, m);
        assert(turned(run, ops, all.last(), (start + all.len() - 1) as usize, m, v, d));
        assert forall|w: Option<W>| #[trigger]
            passed(run, ops, y, start + x.len(), b, w, c) implies passed(
            run,
            ops,
            all,
            start,
            a,
            w,
            c,
        ) by {
            let (n, e) = choose|n: KvCache<T>, e: KvCache<T>|
                {
                    &&& cached::<T, W, F>(run, ops, some, start + x.len(), b, n)
                    &&& #[trigger] turned(run, ops, y.last(), at, n, w, e)
                    &&& advanced(e, c)
                };
            law_pieces_make_the_whole::<T, W, F>(run, ops, x, some, start, a, b, n);
            assert(turned(run, ops, all.last(), (start + all.len() - 1) as usize, n, w, e));
        }
    }
}

/// Whether `run` gives the same on caches that are alike and leaves caches that
/// are alike, and whether they stay alike with one more valid position.
pub open spec fn respects<
    T,
    W,
    F: Fn(CpuOp, usize, usize, Option<W>, KvCache<T>) -> (Option<W>, KvCache<T>),
>(
    run: F,
    alike: spec_fn(CacheView<T>, CacheView<T>) -> bool,
) -> bool {
    &&& forall|
        op: CpuOp,
        token: usize,
        pos: usize,
        v: Option<W>,
        a: KvCache<T>,
        b: KvCache<T>,
        x: (Option<W>, KvCache<T>),
        y: (Option<W>, KvCache<T>),
    |
        {
            &&& alike(a@, b@)
            &&& #[trigger] run.ensures((op, token, pos, v, a), x)
            &&& #[trigger] run.ensures((op, token, pos, v, b), y)
        } ==> x.0 == y.0 && alike(x.1@, y.1@)
    &&& forall|a: CacheView<T>, b: CacheView<T>| #[trigger]
        alike(a, b) ==> alike(
            CacheView { len: a.len + 1, ..a },
            CacheView { len: b.len + 1, ..b },
        )
}

proof fn lemma_turns_agree<
    T,
    W,
    F: Fn(CpuOp, usize, usize, Option<W>, KvCache<T>) -> (Option<W>, KvCache<T>),
>(
    run: F,
    alike: spec_fn(CacheView<T>, CacheView<T>) -> bool,
    ops: Seq<CpuOp>,
    token: usize,
    pos: usize,
    a: KvCache<T>,
    v: Option<W>,
    b: KvCache<T>,
    c: KvCache<T>,
    w: Option<W>,
    d: KvCache<T>,
)
    requires
        respects(run, alike),
        alike(a@, c@),
        turned(run, ops, token, pos, a, v, b),
        turned(run, ops, token, pos, c, w, d),
    ensures
        v == w,
        alike(b@, d@),
    decreases ops.len(),
{
    if ops.len() > 0 {
        let some = ops.drop_last();
        let (p, e) = lemma_last_operation(run, ops, token, pos, a, v, b);
        let (q, f) = lemma_last_operation(run, ops, token, pos, c, w, d);
        lemma_turns_agree(run, alike, some, token, pos, a, p, e, c, q, f);
    }
}

proof fn lemma_caches_agree<
    T,
    W,
    F: Fn(CpuOp, usize, usize, Option<W>, KvCache<T>) -> (Option<W>, KvCache<T>),
>(
    run: F,
    alike: spec_fn(CacheView<T>, CacheView<T>) -> bool,
    ops: Seq<CpuOp>,
    tokens: Seq<usize>,
    start: nat,
    a: KvCache<T>,
    b: KvCache<T>,
    c: KvCache<T>,
    d: KvCache<T>,
)
    requires
        respects(run, alike),
        alike(a@, c@),
        cached::<T, W, F>(run, ops, tokens, start, a, b),
        cached::<T, W, F>(run, ops, tokens, start, c, d),
    ensures
        alike(b@, d@),
    decreases tokens.len(),
{
    if tokens.len() > 0 {
        let some = tokens.drop_last();
        let at = (start + tokens.len() - 1) as usize;
        let (e, v, f) = choose|e: KvCache<T>, v: Option<W>, f: KvCache<T>|
            {
                &&& cached::<T, W, F>(run, ops, some, start, a, e)
                &&& #[trigger] turned(run, ops, tokens.last(), at, e, v, f)
                &&& advanced(f, b)
            };
        let (g, w, h) = choose|g: KvCache<T>, w: Option<W>, h: KvCache<T>|
            {
                &&& cached::<T, W, F>(run, ops, some, start, c, g)
                &&& #[trigger] turned(run, ops, tokens.last(), at, g, w, h)
                &&& advanced(h, d)
            };
        lemma_caches_agree::<T, W, F>(run, alike, ops, some, start, a, e, c, g);
        lemma_turns_agree(run, alike, ops, tokens.last(), at, e, v, f, g, w, h);
    }
}

/// A sequence leaves the same on caches that are alike, whatever likeness it is
/// that the arithmetic respects: equality, or having the same rows at the valid
/// positions.
pub proof fn law_like_caches_give_the_same<
    T,
    W,
    F: Fn(CpuOp, usize, usize, Option<W>, KvCache<T>) -> (Option<W>, KvCache<T>),
>(
    run: F,
    alike: spec_fn(CacheView<T>, CacheView<T>) -> bool,
    ops: Seq<CpuOp>,
    tokens: Seq<usize>,
    start: nat,
    a: KvCache<T>,
    v: Option<W>,
    b: KvCache<T>,
    c: KvCache<T>,
    w: Option<W>,
    d: KvCache<T>,
)
    requires
        respects(run, alike),
        alike(a@, c@),
        passed(run, ops, tokens, start, a, v, b),
        passed(run, ops, tokens, start, c, w, d),
    ensures
        v == w,
        alike(b@, d@),
{
    let some = tokens.drop_last();
    let at = (start + tokens.len() - 1) as usize;
    let (e, f) = choose|e: KvCache<T>, f: KvCache<T>|
        {
            &&& cached::<T, W, F>(run, ops, some, start, a, e)
            &&& #[trigger] turned(run, ops, tokens.last(), at, e, v, f)
            &&& advanced(f, b)
        };
    let (g, h) = choose|g: KvCache<T>, h: KvCache<T>|
        {
            &&& cached::<T, W, F>(run, ops, some, start, c, g)
            &&& #[trigger] turned(run, ops, tokens.last(), at, g, w, h)
            &&& advanced(h, d)
        };
    lemma_caches_agree::<T, W, F>(run, alike, ops, some, start, a, e, c, g);
    lemma_turns_agree(run, alike, ops, tokens.last(), at, e, v, f, g, w, h);
}

/// The cached path agrees exactly with a full forward: a sequence in two pieces,
/// the second on the cache that the first left, leaves for its logits what the
/// whole sequence leaves on a cache like the one that the first piece began on.
pub proof fn law_cached_path_agrees_with_forward<
    T,
    W,
    F: Fn(CpuOp, usize, usize, Option<W>, KvCache<T>) -> (Option<W>, KvCache<T>),
>(
    run: F,
    alike: spec_fn(CacheView<T>, CacheView<T>) -> bool,
    ops: Seq<CpuOp>,
    x: Seq<usize>,
    y: Seq<usize>,
    start: nat,
    whole: (KvCache<T>, Option<W>, KvCache<T>),
    pieces: (KvCache<T>, KvCache<T>, Option<W>, KvCache<T>),
)
    requires
        respects(run, alike),
        alike(whole.0@, pieces.0@),
        passed(run, ops, x + y, start, whole.0, whole.1, whole.2),
        cached::<T, W, F>(run, ops, x, start, pieces.0, pieces.1),
        passed(run, ops, y, start + x.len(), pieces.1, pieces.2, pieces.3),
    ensures
        whole.1 == pieces.2,
        alike(whole.2@, pieces.3@),
{
    law_passed_is_cached(run, ops, y, start + x.len(), pieces.1, pieces.2, pieces.3);
    law_pieces_make_the_whole::<T, W, F>(run, ops, x, y, start, pieces.0, pieces.1, pieces.3);
    law_like_caches_give_the_same(
        run,
        alike,
        ops,
        x + y,
        start,
        whole.0,
        whole.1,
        whole.2,
        pieces.0,
        pieces.2,
        pieces.3,
    );
}

/// What a call that succeeded left of the cache is where the next call begins.
pub proof fn law_passed_is_cached<
    T,
    W,
    F: Fn(CpuOp, usize, usize, Option<W>, KvCache<T>) -> (Option<W>, KvCache<T>),
>(
    run: F,
    ops: Seq<CpuOp>,
    tokens: Seq<usize>,
    start: nat,
    a: KvCache<T>,
    w: Option<W>,
    b: KvCache<T>,
)
    requires
        passed(run, ops, tokens, start, a, w, b),
    ensures
        cached::<T, W, F>(run, ops, tokens, start, a, b),
{
}

/// What a checkpoint calls a weight.
pub open spec fn tensor_of(w: Weight) -> Seq<char> {
    match w {
        Weight::TokEmb => "tok_emb.weight"@,
        Weight::FinalNorm => "final_norm.weight"@,
        Weight::AttnNorm { layer } => layer_tensor(layer as nat, ".attn_norm.weight"@),
        Weight::Query { layer } => layer_tensor(layer as nat, ".attn.q_proj.weight"@),
        Weight::Key { layer } => layer_tensor(layer as nat, ".attn.k_proj.weight"@),
        Weight::Value { layer } => layer_tensor(layer as nat, ".attn.v_proj.weight"@),
        Weight::Output { layer } => layer_tensor(layer as nat, ".attn.o_proj.weight"@),
        Weight::MlpNorm { layer } => layer_tensor(layer as nat, ".mlp_norm.weight"@),
        Weight::Gate { layer } => layer_tensor(layer as nat, ".mlp.gate_proj.weight"@),
        Weight::Up { layer } => layer_tensor(layer as nat, ".mlp.up_proj.weight"@),
        Weight::Down { layer } => layer_tensor(layer as nat, ".mlp.down_proj.weight"@),
    }
}

/// A layer's weights are read in the order in which the layer uses them: the norm
/// and the projections of attention, then the norm and the projections of the MLP,
/// and each under its own name.
pub proof fn law_weights_are_read_in_order(layer: usize, gated: bool)
    ensures
        ({
            let t = layer_tensors(layer as nat, gated);
            let up = t.len() - 2;
            &&& t.len() == (if gated {
                9int
            } else {
                8
            })
            &&& t[0] == tensor_of(Weight::AttnNorm { layer })
            &&& t[1] == tensor_of(Weight::Query { layer })
            &&& t[2] == tensor_of(Weight::Key { layer })
            &&& t[3] == tensor_of(Weight::Value { layer })
            &&& t[4] == tensor_of(Weight::Output { layer })
            &&& t[5] == tensor_of(Weight::MlpNorm { layer })
            &&& gated ==> t[6] == tensor_of(Weight::Gate { layer })
            &&& t[up] == tensor_of(Weight::Up { layer })
            &&& t[up + 1] == tensor_of(Weight::Down { layer })
        }),
{
}

/// Layer after layer is read, none twice and none left out.
pub proof fn law_layers_are_read_in_order(n: nat, gated: bool, layer: nat, i: int)
    requires
        layer < n,
        0 <= i < layer_tensors(layer, gated).len(),
    ensures
        ({
            let each = layer_tensors(layer, gated).len();
            &&& layers_tensors(n, gated).len() == n * each
            &&& layers_tensors(n, gated)[layer * each + i] == layer_tensors(layer, gated)[i]
        }),
    decreases n,
{
    let each = layer_tensors(layer, gated).len();
    lemma_layers_len((n - 1) as nat, gated, each);
    lemma_layers_len(n, gated, each);
    assert(layer_tensors((n - 1) as nat, gated).len() == each);
    if layer < n - 1 {
        law_layers_are_read_in_order((n - 1) as nat, gated, layer, i);
        assert(layer * each + i < (n - 1) * each) by (nonlinear_arith)
            requires
                layer + 1 <= n - 1,
                0 <= i < each,
        ;
    }
    assert(0 <= layer * each) by (nonlinear_arith);
}

proof fn lemma_layers_len(n: nat, gated: bool, each: nat)
    requires
        each == layer_tensors(0, gated).len(),
    ensures
        layers_tensors(n, gated).len() == n * each,
    decreases n,
{
    if n > 0 {
        lemma_layers_len((n - 1) as nat, gated, each);
        assert(layer_tensors((n - 1) as nat, gated).len() == each);
        assert((n - 1) * each + each == n * each) by (nonlinear_arith);
    } else {
        assert(0 * each == 0) by (nonlinear_arith);
    }
}

/// A sequence is taken exactly where it has a token, the cache is one of this
/// model's, and it fits behind what is cached.
pub proof fn law_what_is_forwarded(cfg: Config, tokens: nat, layers: nat, len: nat, capacity: nat)
    ensures
        refusal(cfg, tokens, layers, len, capacity) is None <==> tokens > 0 && layers == cfg.n_layer && len
            + tokens <= capacity,
{
}

/// Tokens are taken up to the first one outside the vocabulary.
pub proof fn law_known_tokens_are_taken(tokens: Seq<usize>, vocab: usize)
    ensures
        first_outside(tokens, vocab) <= tokens.len(),
        forall|i: int| 0 <= i < first_outside(tokens, vocab) ==> #[trigger] tokens[i] < vocab,
        first_outside(tokens, vocab) < tokens.len() ==> tokens[first_outside(tokens, vocab) as int] >= vocab,
    decreases tokens.len(),
{
    if tokens.len() > 0 && tokens[0] < vocab {
        let rest = tokens.skip(1);
        law_known_tokens_are_taken(rest, vocab);
        assert forall|i: int| 0 <= i < first_outside(tokens, vocab) implies #[trigger] tokens[i] < vocab by {
            if i > 0 {
                assert(rest[i - 1] == tokens[i]);
            }
        }
    }
}

/// Whether no operation of a list turns anything by its position.
pub open spec fn unturned(ops: Seq<CpuOp>) -> bool {
    forall|i: int| 0 <= i < ops.len() ==> !((#[trigger] ops[i]) is RotateKey) && !(ops[i] is RotateQuery)
}

proof fn lemma_unturned(a: Seq<CpuOp>, b: Seq<CpuOp>)
    requires
        unturned(a),
        unturned(b),
    ensures
        unturned(a + b),
{
    assert forall|i: int| 0 <= i < (a + b).len() implies !((#[trigger] (a + b)[i]) is RotateKey) && !((a
        + b)[i] is RotateQuery) by {
        if i < a.len() {
            assert((a + b)[i] == a[i]);
        } else {
            assert((a + b)[i] == b[i - a.len()]);
        }
    }
}

/// A layer's operations up to its keys and values, and from its attention on.
spec fn ends_of(cfg: Config, layer: usize) -> (Seq<CpuOp>, Seq<CpuOp>) {
    let pre = cfg.norm_placement@ == "pre"@;
    let post = cfg.norm_placement@ == "post"@;
    let src = if pre {
        Source::Normed
    } else {
        Source::Residual
    };
    let mlp = if cfg.activation@ == "swiglu"@ {
        CpuOp::SwiGlu { layer, src }
    } else {
        CpuOp::Gelu { layer, src }
    };
    (
        only(pre, CpuOp::Norm { layer, mlp: false }),
        seq![CpuOp::Output { layer }] + only(post, CpuOp::NormResidual { layer, mlp: false }) + only(
            pre,
            CpuOp::Norm { layer, mlp: true },
        ) + seq![mlp, CpuOp::Down { layer }] + only(post, CpuOp::NormResidual { layer, mlp: true }),
    )
}

proof fn lemma_ends(cfg: Config, layer: usize)
    ensures
        unturned(ends_of(cfg, layer).0),
        unturned(ends_of(cfg, layer).1),
{
    let pre = cfg.norm_placement@ == "pre"@;
    let post = cfg.norm_placement@ == "post"@;
    let tail = ends_of(cfg, layer).1;
    let src = if pre {
        Source::Normed
    } else {
        Source::Residual
    };
    let mlp = if cfg.activation@ == "swiglu"@ {
        CpuOp::SwiGlu { layer, src }
    } else {
        CpuOp::Gelu { layer, src }
    };
    let a = seq![CpuOp::Output { layer }];
    let b = only(post, CpuOp::NormResidual { layer, mlp: false });
    let c = only(pre, CpuOp::Norm { layer, mlp: true });
    let d = seq![mlp, CpuOp::Down { layer }];
    let e = only(post, CpuOp::NormResidual { layer, mlp: true });
    lemma_unturned(a, b);
    lemma_unturned(a + b, c);
    lemma_unturned(a + b + c, d);
    lemma_unturned(a + b + c + d, e);
}

/// With rotary encoding a layer turns its keys once, between their projection and
/// attention, and its query once, between its projection and attention; with any
/// other encoding it turns nothing.
pub proof fn law_rotation_stands_between_projection_and_attention(cfg: Config, layer: usize) -> (ends: (
    Seq<CpuOp>,
    Seq<CpuOp>,
))
    ensures
        cfg.pos_encoding@ != "rope"@ ==> unturned(layer_ops(cfg, layer)),
        unturned(ends.0),
        unturned(ends.1),
        cfg.pos_encoding@ == "rope"@ ==> {
            let src = if cfg.norm_placement@ == "pre"@ {
                Source::Normed
            } else {
                Source::Residual
            };
            layer_ops(cfg, layer) == ends.0 + seq![
                CpuOp::KeyValue { layer, src },
                CpuOp::RotateKey { layer },
                CpuOp::Query { layer, src },
                CpuOp::RotateQuery,
                CpuOp::Attend { layer },
            ] + ends.1
        },
{
    let ends = ends_of(cfg, layer);
    let src = if cfg.norm_placement@ == "pre"@ {
        Source::Normed
    } else {
        Source::Residual
    };
    lemma_ends(cfg, layer);
    if cfg.pos_encoding@ == "rope"@ {
        assert(layer_ops(cfg, layer) =~= ends.0 + seq![
            CpuOp::KeyValue { layer, src },
            CpuOp::RotateKey { layer },
            CpuOp::Query { layer, src },
            CpuOp::RotateQuery,
            CpuOp::Attend { layer },
        ] + ends.1);
    } else {
        let mid = seq![
            CpuOp::KeyValue { layer, src },
            CpuOp::Query { layer, src },
            CpuOp::Attend { layer },
        ];
        assert(layer_ops(cfg, layer) =~= ends.0 + mid + ends.1);
        lemma_unturned(ends.0, mid);
        lemma_unturned(ends.0 + mid, ends.1);
    }
    ends
}

/// The tokens that come to stand in the cache are the longest run of known ones
/// at the front, or none where the call is refused at once.
pub proof fn law_known_tokens_are_appended(
    cfg: Config,
    tokens: Seq<usize>,
    layers: nat,
    len: nat,
    capacity: nat,
)
    ensures
        ({
            let n = appended(cfg, tokens, layers, len, capacity);
            &&& n <= tokens.len()
            &&& forall|i: int| 0 <= i < n ==> #[trigger] tokens[i] < cfg.vocab_size
            &&& refusal(cfg, tokens.len(), layers, len, capacity) is None ==> n == tokens.len()
                || tokens[n as int] >= cfg.vocab_size
            &&& refusal(cfg, tokens.len(), layers, len, capacity) is Some ==> n == 0
        }),
{
    law_known_tokens_are_taken(tokens, cfg.vocab_size);
}

/// A whole forward pass takes the room its tokens need, at least one position,
/// and no more than the context has.
pub proof fn law_room_of_a_forward_pass(cfg: Config, tokens: nat, n: nat)
    ensures
        n <= forward_room(cfg, tokens) <==> n <= cfg.block_size && (n <= tokens || n <= 1),
{
}

} // verus!
