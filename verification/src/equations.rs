//! The transformer's equations.
//!
//! What a model computes, written once, over vectors that are expressions in its
//! weights. Every path through the model is held to them: the single token, the
//! decode batch, the prompt, the packed call and the CPU.
use crate::launch::{Shape, Weight};
use vstd::prelude::*;

verus! {

/// A row vector as an expression in the weights.
pub enum Vector {
    /// Whatever was there before.
    Other { tag: int },
    /// A token's embedding.
    Embedding { token: int },
    /// A position's embedding.
    Learned { position: int },
    Normed { weight: Weight, of: Box<Vector> },
    /// A weight of `rows` by `cols` applied.
    Product { weight: Weight, rows: int, cols: int, of: Box<Vector> },
    Sum { left: Box<Vector>, right: Box<Vector> },
    /// Rotary embedding of `heads` heads, `stride` wide together.
    Rotated { of: Box<Vector>, position: int, heads: int, stride: int },
    /// A query over keys and values of consecutive positions, from the first.
    Attended { query: Box<Vector>, keys: Seq<Vector>, values: Seq<Vector> },
    /// `silu(gate) * up`.
    Gated { gate: Box<Vector>, up: Box<Vector> },
    Gelu { of: Box<Vector> },
    /// The index of the greatest entry.
    Greatest { of: Box<Vector> },
    /// The greatest entries, with their indices.
    Candidates { of: Box<Vector> },
}

/// The choices of an architecture.
#[derive(Clone, Copy)]
pub struct Kind {
    /// The norms stand before each half of a layer.
    pub pre: bool,
    /// The norms stand after each half.
    pub post: bool,
    /// Queries and keys are rotated by their position.
    pub rope: bool,
    /// A learned embedding of the position is added to the token's.
    pub learned: bool,
    /// The MLP is gated.
    pub gated: bool,
}

/// What the device runs.
pub open spec fn device() -> Kind {
    Kind { pre: true, post: false, rope: true, learned: false, gated: true }
}

pub open spec fn normed(weight: Weight, of: Vector) -> Vector {
    Vector::Normed { weight, of: Box::new(of) }
}

pub open spec fn sum(left: Vector, right: Vector) -> Vector {
    Vector::Sum { left: Box::new(left), right: Box::new(right) }
}

pub open spec fn product(weight: Weight, rows: int, cols: int, of: Vector) -> Vector {
    Vector::Product { weight, rows, cols, of: Box::new(of) }
}

pub open spec fn rotated(of: Vector, position: int, heads: int, stride: int) -> Vector {
    Vector::Rotated { of: Box::new(of), position, heads, stride }
}

pub open spec fn gated(gate: Vector, up: Vector) -> Vector {
    Vector::Gated { gate: Box::new(gate), up: Box::new(up) }
}

pub open spec fn attended(query: Vector, keys: Seq<Vector>, values: Seq<Vector>) -> Vector {
    Vector::Attended { query: Box::new(query), keys, values }
}

/// Width of what a weight gives.
pub open spec fn given(s: Shape, w: Weight) -> int {
    match w {
        Weight::TokEmb => s.vocab as int,
        Weight::Key { .. } | Weight::Value { .. } => s.kv_dim as int,
        Weight::Gate { .. } | Weight::Up { .. } => s.hidden as int,
        _ => s.n_embd as int,
    }
}

/// Width of what a weight takes.
pub open spec fn taken(s: Shape, w: Weight) -> int {
    match w {
        Weight::Down { .. } => s.hidden as int,
        _ => s.n_embd as int,
    }
}

/// A weight applied.
pub open spec fn times(s: Shape, w: Weight, of: Vector) -> Vector {
    product(w, given(s, w), taken(s, w), of)
}

/// What a half of a layer reads of the residual stream.
pub open spec fn read(k: Kind, norm: Weight, x: Vector) -> Vector {
    if k.pre {
        normed(norm, x)
    } else {
        x
    }
}

/// What a half of a layer leaves, of the residual stream with its output added.
pub open spec fn left(k: Kind, norm: Weight, x: Vector) -> Vector {
    if k.post {
        normed(norm, x)
    } else {
        x
    }
}

/// Rotation by a position, where the architecture has it.
pub open spec fn turned(k: Kind, of: Vector, position: int, heads: int, stride: int) -> Vector {
    if k.rope {
        rotated(of, position, heads, stride)
    } else {
        of
    }
}

/// A layer's key of a position whose residual stream is `x`.
pub open spec fn key_of(s: Shape, k: Kind, layer: usize, x: Vector, position: int) -> Vector {
    turned(
        k,
        times(s, Weight::Key { layer }, read(k, Weight::AttnNorm { layer }, x)),
        position,
        s.n_kv_head as int,
        s.kv_dim as int,
    )
}

/// A layer's value of a position whose residual stream is `x`.
pub open spec fn value_of(s: Shape, k: Kind, layer: usize, x: Vector) -> Vector {
    times(s, Weight::Value { layer }, read(k, Weight::AttnNorm { layer }, x))
}

/// A layer's query of a position whose residual stream is `x`.
pub open spec fn query_of(s: Shape, k: Kind, layer: usize, x: Vector, position: int) -> Vector {
    turned(
        k,
        times(s, Weight::Query { layer }, read(k, Weight::AttnNorm { layer }, x)),
        position,
        s.n_head as int,
        s.n_embd as int,
    )
}

/// What the MLP makes of what it reads.
pub open spec fn mlp_of(s: Shape, k: Kind, layer: usize, of: Vector) -> Vector {
    let up = times(s, Weight::Up { layer }, of);
    if k.gated {
        gated(times(s, Weight::Gate { layer }, of), up)
    } else {
        Vector::Gelu { of: Box::new(up) }
    }
}

/// A layer's effect on a residual stream `x`, given the keys and values of all
/// positions up to its own.
pub open spec fn layer_of(
    s: Shape,
    k: Kind,
    layer: usize,
    x: Vector,
    position: int,
    keys: Seq<Vector>,
    values: Seq<Vector>,
) -> Vector {
    let heads = attended(query_of(s, k, layer, x, position), keys, values);
    let y = left(k, Weight::AttnNorm { layer }, sum(x, times(s, Weight::Output { layer }, heads)));
    let wide = mlp_of(s, k, layer, read(k, Weight::MlpNorm { layer }, y));
    left(k, Weight::MlpNorm { layer }, sum(y, times(s, Weight::Down { layer }, wide)))
}

/// The residual stream of a position of a text after the first `layers` layers.
/// Each layer attends over every position up to this one and no later one.
pub open spec fn hidden(s: Shape, k: Kind, text: Seq<int>, position: int, layers: nat) -> Vector
    decreases layers, 0int,
{
    if layers == 0 {
        let token = Vector::Embedding { token: text[position] };
        if k.learned {
            sum(token, Vector::Learned { position })
        } else {
            token
        }
    } else {
        let below = (layers - 1) as nat;
        layer_of(
            s,
            k,
            below as usize,
            hidden(s, k, text, position, below),
            position,
            keys(s, k, text, position + 1, below),
            values(s, k, text, position + 1, below),
        )
    }
}

/// The key that a layer caches of a position.
pub open spec fn key(s: Shape, k: Kind, text: Seq<int>, position: int, layer: nat) -> Vector
    decreases layer, 1int,
{
    key_of(s, k, layer as usize, hidden(s, k, text, position, layer), position)
}

/// The value that a layer caches of a position.
pub open spec fn value(s: Shape, k: Kind, text: Seq<int>, position: int, layer: nat) -> Vector
    decreases layer, 1int,
{
    value_of(s, k, layer as usize, hidden(s, k, text, position, layer))
}

/// A layer's keys of the first `n` positions.
pub open spec fn keys(s: Shape, k: Kind, text: Seq<int>, n: int, layer: nat) -> Seq<Vector>
    decreases layer, 2int,
{
    Seq::new(n as nat, |j: int| key(s, k, text, j, layer))
}

/// A layer's values of the first `n` positions.
pub open spec fn values(s: Shape, k: Kind, text: Seq<int>, n: int, layer: nat) -> Seq<Vector>
    decreases layer, 2int,
{
    Seq::new(n as nat, |j: int| value(s, k, text, j, layer))
}

/// The logits of a position: the final norm and the vocabulary projection.
pub open spec fn logits(s: Shape, k: Kind, text: Seq<int>, position: int) -> Vector {
    times(
        s,
        Weight::TokEmb,
        normed(Weight::FinalNorm, hidden(s, k, text, position, s.n_layer as nat)),
    )
}

/// The keys and values of a layer, one by one.
pub proof fn lemma_rows(s: Shape, k: Kind, text: Seq<int>, n: int, layer: nat)
    requires
        0 <= n,
    ensures
        keys(s, k, text, n, layer).len() == n,
        values(s, k, text, n, layer).len() == n,
        forall|j: int|
            0 <= j < n ==> #[trigger] keys(s, k, text, n, layer)[j] == key_of(
                s,
                k,
                layer as usize,
                hidden(s, k, text, j, layer),
                j,
            ),
        forall|j: int|
            0 <= j < n ==> #[trigger] values(s, k, text, n, layer)[j] == value_of(
                s,
                k,
                layer as usize,
                hidden(s, k, text, j, layer),
            ),
{
    reveal_with_fuel(keys, 3);
    reveal_with_fuel(values, 3);
    reveal_with_fuel(key, 3);
    reveal_with_fuel(value, 3);
    reveal_with_fuel(hidden, 3);
}

/// A position's residual stream, and with it its keys, values and logits, depend
/// on no later token.
pub proof fn law_no_token_sees_a_later_one(
    s: Shape,
    k: Kind,
    a: Seq<int>,
    b: Seq<int>,
    position: int,
    layers: nat,
)
    requires
        0 <= position < a.len(),
        position < b.len(),
        a.take(position + 1) == b.take(position + 1),
    ensures
        hidden(s, k, a, position, layers) == hidden(s, k, b, position, layers),
    decreases layers,
{
    assert(a[position] == a.take(position + 1)[position]);
    assert(b[position] == b.take(position + 1)[position]);
    if layers > 0 {
        let below = (layers - 1) as nat;
        law_no_token_sees_a_later_one(s, k, a, b, position, below);
        assert forall|j: int| 0 <= j <= position implies #[trigger] hidden(s, k, a, j, below) == hidden(
            s,
            k,
            b,
            j,
            below,
        ) by {
            assert(a.take(j + 1) =~= a.take(position + 1).take(j + 1));
            assert(b.take(j + 1) =~= b.take(position + 1).take(j + 1));
            law_no_token_sees_a_later_one(s, k, a, b, j, below);
        }
        let n = position + 1;
        lemma_rows(s, k, a, n, below);
        lemma_rows(s, k, b, n, below);
        assert(keys(s, k, a, n, below) =~= keys(s, k, b, n, below));
        assert(values(s, k, a, n, below) =~= values(s, k, b, n, below));
    }
}

} // verus!
