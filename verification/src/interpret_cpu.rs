//! What the operations of the CPU path compute.
//!
//! They are run on a state whose vectors are expressions in the weights. The laws
//! say that a token's operations compute the transformer's equations for every
//! architecture the path accepts, and the same as the device where it runs the
//! model too.
use crate::cache::KvCache;
use crate::config::Config;
use crate::equations;
use crate::equations::{device, hidden, Kind, Vector};
use crate::gpu_model;
use crate::interpret;
use crate::launch;
use crate::launch::{Buf, Place, Shape, Weight};
use crate::model;
use crate::model::{CpuOp, Source};
use vstd::prelude::*;

verus! {

/// What the CPU path holds while a token runs.
pub struct State {
    /// The residual stream.
    pub x: Vector,
    pub normed: Vector,
    pub query: Vector,
    /// The attention of all heads.
    pub heads: Vector,
    /// The MLP between its projections.
    pub wide: Vector,
    /// Each layer's key of each position.
    pub keys: spec_fn(usize, int) -> Vector,
    /// Each layer's value of each position.
    pub values: spec_fn(usize, int) -> Vector,
}

/// The choices of an architecture.
pub open spec fn kind_of(cfg: Config) -> Kind {
    Kind {
        pre: cfg.norm_placement@ == "pre"@,
        post: cfg.norm_placement@ == "post"@,
        rope: cfg.pos_encoding@ == "rope"@,
        learned: cfg.pos_encoding@ == "learned"@,
        gated: cfg.activation@ == "swiglu"@,
    }
}

/// What an operation reads.
pub open spec fn source(st: State, src: Source) -> Vector {
    match src {
        Source::Residual => st.x,
        Source::Normed => st.normed,
    }
}

/// The norm before or after a half of a layer.
pub open spec fn norm_of(layer: usize, mlp: bool) -> Weight {
    if mlp {
        Weight::MlpNorm { layer }
    } else {
        Weight::AttnNorm { layer }
    }
}

/// A cache with one row replaced.
pub open spec fn with_row(
    f: spec_fn(usize, int) -> Vector,
    layer: usize,
    pos: int,
    v: Vector,
) -> spec_fn(usize, int) -> Vector {
    |l: usize, j: int|
        if l == layer && j == pos {
            v
        } else {
            f(l, j)
        }
}

/// The state after an operation on a token at a position.
pub open spec fn does(s: Shape, op: CpuOp, token: int, pos: int, st: State) -> State {
    match op {
        CpuOp::Embed => State { x: Vector::Embedding { token }, ..st },
        CpuOp::AddPosition => State {
            x: equations::sum(st.x, Vector::Learned { position: pos }),
            ..st
        },
        CpuOp::Norm { layer, mlp } => State {
            normed: equations::normed(norm_of(layer, mlp), st.x),
            ..st
        },
        CpuOp::NormResidual { layer, mlp } => State {
            x: equations::normed(norm_of(layer, mlp), st.x),
            ..st
        },
        CpuOp::KeyValue { layer, src } => State {
            keys: with_row(
                st.keys,
                layer,
                pos,
                equations::times(s, Weight::Key { layer }, source(st, src)),
            ),
            values: with_row(
                st.values,
                layer,
                pos,
                equations::times(s, Weight::Value { layer }, source(st, src)),
            ),
            ..st
        },
        CpuOp::RotateKey { layer } => State {
            keys: with_row(
                st.keys,
                layer,
                pos,
                equations::rotated((st.keys)(layer, pos), pos, s.n_kv_head as int, s.kv_dim as int),
            ),
            ..st
        },
        CpuOp::Query { layer, src } => State {
            query: equations::times(s, Weight::Query { layer }, source(st, src)),
            ..st
        },
        CpuOp::RotateQuery => State {
            query: equations::rotated(st.query, pos, s.n_head as int, s.n_embd as int),
            ..st
        },
        CpuOp::Attend { layer } => State {
            heads: equations::attended(
                st.query,
                Seq::new((pos + 1) as nat, |j: int| (st.keys)(layer, j)),
                Seq::new((pos + 1) as nat, |j: int| (st.values)(layer, j)),
            ),
            ..st
        },
        CpuOp::Output { layer } => State {
            x: equations::sum(st.x, equations::times(s, Weight::Output { layer }, st.heads)),
            ..st
        },
        CpuOp::SwiGlu { layer, src } => State {
            wide: equations::gated(
                equations::times(s, Weight::Gate { layer }, source(st, src)),
                equations::times(s, Weight::Up { layer }, source(st, src)),
            ),
            ..st
        },
        CpuOp::Gelu { layer, src } => State {
            wide: Vector::Gelu {
                of: Box::new(equations::times(s, Weight::Up { layer }, source(st, src))),
            },
            ..st
        },
        CpuOp::Down { layer } => State {
            x: equations::sum(st.x, equations::times(s, Weight::Down { layer }, st.wide)),
            ..st
        },
    }
}

/// The state after a list of operations on a token at a position.
pub open spec fn run(s: Shape, ops: Seq<CpuOp>, token: int, pos: int, st: State) -> State
    decreases ops.len(),
{
    if ops.len() == 0 {
        st
    } else {
        does(s, ops.last(), token, pos, run(s, ops.drop_last(), token, pos, st))
    }
}

/// The state after a sequence, token by token, from a position on.
pub open spec fn pass(s: Shape, ops: Seq<CpuOp>, tokens: Seq<int>, start: int, st: State) -> State
    decreases tokens.len(),
{
    if tokens.len() == 0 {
        st
    } else {
        run(
            s,
            ops,
            tokens.last(),
            start + tokens.len() - 1,
            pass(s, ops, tokens.drop_last(), start, st),
        )
    }
}

/// Whether a layer's cache holds a position of a text.
pub open spec fn holds(s: Shape, k: Kind, st: State, text: Seq<int>, layer: nat, j: int) -> bool {
    let l = layer as usize;
    let x = hidden(s, k, text, j, layer);
    &&& (st.keys)(l, j) == equations::key_of(s, k, l, x, j)
    &&& (st.values)(l, j) == equations::value_of(s, k, l, x)
}

/// Whether every layer's cache holds the first positions of a text.
pub open spec fn past(s: Shape, k: Kind, st: State, text: Seq<int>, n: int) -> bool {
    forall|layer: nat, j: int|
        layer < s.n_layer && 0 <= j < n ==> #[trigger] holds(s, k, st, text, layer, j)
}

/// Whether caches changed nowhere but at a position of the first layers.
pub open spec fn kept(before: State, after: State, pos: int, layers: nat) -> bool {
    &&& forall|l: usize, j: int|
        !(l < layers && j == pos) ==> #[trigger] (after.keys)(l, j) == (before.keys)(l, j)
    &&& forall|l: usize, j: int|
        !(l < layers && j == pos) ==> #[trigger] (after.values)(l, j) == (before.values)(l, j)
}

proof fn lemma_join(s: Shape, a: Seq<CpuOp>, b: Seq<CpuOp>, token: int, pos: int, st: State)
    ensures
        run(s, a + b, token, pos, st) == run(s, b, token, pos, run(s, a, token, pos, st)),
    decreases b.len(),
{
    if b.len() == 0 {
        assert(a + b =~= a);
    } else {
        assert((a + b).drop_last() =~= a + b.drop_last());
        assert((a + b).last() == b.last());
        lemma_join(s, a, b.drop_last(), token, pos, st);
    }
}

proof fn lemma_one(s: Shape, op: CpuOp, token: int, pos: int, st: State)
    ensures
        run(s, seq![op], token, pos, st) == does(s, op, token, pos, st),
        run(s, Seq::empty(), token, pos, st) == st,
{
    let one = seq![op];
    assert(one.drop_last() =~= Seq::empty());
    assert(run(s, one.drop_last(), token, pos, st) == st);
}

proof fn lemma_only(s: Shape, b: bool, op: CpuOp, token: int, pos: int, st: State)
    ensures
        run(s, model::only(b, op), token, pos, st) == (if b {
            does(s, op, token, pos, st)
        } else {
            st
        }),
{
    lemma_one(s, op, token, pos, st);
}

/// What a layer's projections read.
spec fn src_of(k: Kind) -> Source {
    if k.pre {
        Source::Normed
    } else {
        Source::Residual
    }
}

/// The state after an operation that runs only where something holds.
spec fn when(s: Shape, b: bool, op: CpuOp, token: int, pos: int, st: State) -> State {
    if b {
        does(s, op, token, pos, st)
    } else {
        st
    }
}

/// A layer up to its attention.
spec fn front(k: Kind, l: usize) -> Seq<CpuOp> {
    model::only(k.pre, CpuOp::Norm { layer: l, mlp: false }) + seq![
        CpuOp::KeyValue { layer: l, src: src_of(k) },
    ] + model::only(k.rope, CpuOp::RotateKey { layer: l }) + seq![
        CpuOp::Query { layer: l, src: src_of(k) },
    ] + model::only(k.rope, CpuOp::RotateQuery) + seq![CpuOp::Attend { layer: l }]
}

/// A layer after its attention.
spec fn back(k: Kind, l: usize) -> Seq<CpuOp> {
    let mlp = if k.gated {
        CpuOp::SwiGlu { layer: l, src: src_of(k) }
    } else {
        CpuOp::Gelu { layer: l, src: src_of(k) }
    };
    seq![CpuOp::Output { layer: l }] + model::only(k.post, CpuOp::NormResidual { layer: l, mlp: false })
        + model::only(k.pre, CpuOp::Norm { layer: l, mlp: true }) + seq![mlp] + seq![
        CpuOp::Down { layer: l },
    ] + model::only(k.post, CpuOp::NormResidual { layer: l, mlp: true })
}

proof fn lemma_halves(cfg: Config, l: usize)
    ensures
        model::layer_ops(cfg, l) == front(kind_of(cfg), l) + back(kind_of(cfg), l),
{
    assert(model::layer_ops(cfg, l) =~= front(kind_of(cfg), l) + back(kind_of(cfg), l));
}

proof fn lemma_join_one(s: Shape, a: Seq<CpuOp>, op: CpuOp, token: int, pos: int, st: State)
    ensures
        run(s, a + seq![op], token, pos, st) == does(s, op, token, pos, run(s, a, token, pos, st)),
{
    lemma_join(s, a, seq![op], token, pos, st);
    lemma_one(s, op, token, pos, run(s, a, token, pos, st));
}

proof fn lemma_join_only(s: Shape, a: Seq<CpuOp>, b: bool, op: CpuOp, token: int, pos: int, st: State)
    ensures
        run(s, a + model::only(b, op), token, pos, st) == when(
            s,
            b,
            op,
            token,
            pos,
            run(s, a, token, pos, st),
        ),
{
    lemma_join(s, a, model::only(b, op), token, pos, st);
    lemma_only(s, b, op, token, pos, run(s, a, token, pos, st));
}

proof fn lemma_front(s: Shape, k: Kind, l: usize, token: int, pos: int, st: State)
    ensures
        ({
            let after = run(s, front(k, l), token, pos, st);
            &&& after.x == st.x
            &&& (after.keys)(l, pos) == equations::key_of(s, k, l, st.x, pos)
            &&& (after.values)(l, pos) == equations::value_of(s, k, l, st.x)
            &&& after.heads == equations::attended(
                equations::query_of(s, k, l, st.x, pos),
                Seq::new((pos + 1) as nat, |j: int| (after.keys)(l, j)),
                Seq::new((pos + 1) as nat, |j: int| (after.values)(l, j)),
            )
            &&& forall|m: usize, j: int|
                !(m == l && j == pos) ==> #[trigger] (after.keys)(m, j) == (st.keys)(m, j)
            &&& forall|m: usize, j: int|
                !(m == l && j == pos) ==> #[trigger] (after.values)(m, j) == (st.values)(m, j)
        }),
{
    let o1 = CpuOp::Norm { layer: l, mlp: false };
    let o2 = CpuOp::KeyValue { layer: l, src: src_of(k) };
    let o3 = CpuOp::RotateKey { layer: l };
    let o4 = CpuOp::Query { layer: l, src: src_of(k) };
    let o5 = CpuOp::RotateQuery;
    let o6 = CpuOp::Attend { layer: l };
    let l1 = model::only(k.pre, o1);
    let l2 = l1 + seq![o2];
    let l3 = l2 + model::only(k.rope, o3);
    let l4 = l3 + seq![o4];
    let l5 = l4 + model::only(k.rope, o5);
    lemma_only(s, k.pre, o1, token, pos, st);
    lemma_join_one(s, l1, o2, token, pos, st);
    lemma_join_only(s, l2, k.rope, o3, token, pos, st);
    lemma_join_one(s, l3, o4, token, pos, st);
    lemma_join_only(s, l4, k.rope, o5, token, pos, st);
    lemma_join_one(s, l5, o6, token, pos, st);
}

proof fn lemma_back(s: Shape, k: Kind, l: usize, token: int, pos: int, st: State)
    ensures
        ({
            let after = run(s, back(k, l), token, pos, st);
            let y = equations::left(
                k,
                Weight::AttnNorm { layer: l },
                equations::sum(st.x, equations::times(s, Weight::Output { layer: l }, st.heads)),
            );
            let wide = equations::mlp_of(
                s,
                k,
                l,
                equations::read(k, Weight::MlpNorm { layer: l }, y),
            );
            &&& after.x == equations::left(
                k,
                Weight::MlpNorm { layer: l },
                equations::sum(y, equations::times(s, Weight::Down { layer: l }, wide)),
            )
            &&& after.keys == st.keys
            &&& after.values == st.values
        }),
{
    let o7 = CpuOp::Output { layer: l };
    let o8 = CpuOp::NormResidual { layer: l, mlp: false };
    let o9 = CpuOp::Norm { layer: l, mlp: true };
    let o10 = if k.gated {
        CpuOp::SwiGlu { layer: l, src: src_of(k) }
    } else {
        CpuOp::Gelu { layer: l, src: src_of(k) }
    };
    let o11 = CpuOp::Down { layer: l };
    let o12 = CpuOp::NormResidual { layer: l, mlp: true };
    let l1 = seq![o7];
    let l2 = l1 + model::only(k.post, o8);
    let l3 = l2 + model::only(k.pre, o9);
    let l4 = l3 + seq![o10];
    let l5 = l4 + seq![o11];
    lemma_one(s, o7, token, pos, st);
    lemma_join_only(s, l1, k.post, o8, token, pos, st);
    lemma_join_only(s, l2, k.pre, o9, token, pos, st);
    lemma_join_one(s, l3, o10, token, pos, st);
    lemma_join_one(s, l4, o11, token, pos, st);
    lemma_join_only(s, l5, k.post, o12, token, pos, st);
}

proof fn lemma_layer(
    s: Shape,
    cfg: Config,
    layer: nat,
    text: Seq<int>,
    token: int,
    pos: int,
    st: State,
)
    requires
        layer < s.n_layer,
        0 <= pos,
        st.x == hidden(s, kind_of(cfg), text, pos, layer),
        forall|j: int| 0 <= j < pos ==> #[trigger] holds(s, kind_of(cfg), st, text, layer, j),
    ensures
        ({
            let after = run(s, model::layer_ops(cfg, layer as usize), token, pos, st);
            &&& after.x == hidden(s, kind_of(cfg), text, pos, layer + 1)
            &&& holds(s, kind_of(cfg), after, text, layer, pos)
            &&& forall|l: usize, j: int|
                !(l == layer && j == pos) ==> #[trigger] (after.keys)(l, j) == (st.keys)(l, j)
            &&& forall|l: usize, j: int|
                !(l == layer && j == pos) ==> #[trigger] (after.values)(l, j) == (st.values)(l, j)
        }),
{
    let l = layer as usize;
    let k = kind_of(cfg);
    let mid = run(s, front(k, l), token, pos, st);
    let after = run(s, back(k, l), token, pos, mid);
    lemma_halves(cfg, l);
    lemma_join(s, front(k, l), back(k, l), token, pos, st);
    lemma_front(s, k, l, token, pos, st);
    lemma_back(s, k, l, token, pos, mid);
    let n = pos + 1;
    equations::lemma_rows(s, k, text, n, layer);
    assert forall|j: int| 0 <= j < n implies #[trigger] holds(s, k, mid, text, layer, j) by {
        if j < pos {
            assert(holds(s, k, st, text, layer, j));
        }
    }
    assert forall|j: int| 0 <= j < n implies (mid.keys)(l, j) == #[trigger] equations::keys(
        s,
        k,
        text,
        n,
        layer,
    )[j] by {
        assert(holds(s, k, mid, text, layer, j));
    }
    assert forall|j: int| 0 <= j < n implies (mid.values)(l, j) == #[trigger] equations::values(
        s,
        k,
        text,
        n,
        layer,
    )[j] by {
        assert(holds(s, k, mid, text, layer, j));
    }
    assert(Seq::new(n as nat, |j: int| (mid.keys)(l, j)) =~= equations::keys(s, k, text, n, layer));
    assert(Seq::new(n as nat, |j: int| (mid.values)(l, j)) =~= equations::values(s, k, text, n, layer));
    assert(after.x == hidden(s, k, text, pos, layer + 1));
}

proof fn lemma_layers(
    s: Shape,
    cfg: Config,
    count: nat,
    text: Seq<int>,
    token: int,
    pos: int,
    st: State,
)
    requires
        count <= s.n_layer,
        0 <= pos,
        st.x == hidden(s, kind_of(cfg), text, pos, 0),
        past(s, kind_of(cfg), st, text, pos),
    ensures
        ({
            let after = run(s, model::layers_ops(cfg, count), token, pos, st);
            &&& after.x == hidden(s, kind_of(cfg), text, pos, count)
            &&& forall|layer: nat|
                layer < count ==> #[trigger] holds(s, kind_of(cfg), after, text, layer, pos)
            &&& kept(st, after, pos, count)
        }),
    decreases count,
{
    let k = kind_of(cfg);
    if count > 0 {
        let below = (count - 1) as nat;
        let ops = model::layers_ops(cfg, below);
        let more = model::layer_ops(cfg, below as usize);
        let mid = run(s, ops, token, pos, st);
        lemma_layers(s, cfg, below, text, token, pos, st);
        lemma_join(s, ops, more, token, pos, st);
        assert forall|j: int| 0 <= j < pos implies #[trigger] holds(s, k, mid, text, below, j) by {
            assert(holds(s, k, st, text, below, j));
        }
        lemma_layer(s, cfg, below, text, token, pos, mid);
        let after = run(s, more, token, pos, mid);
        assert forall|layer: nat| layer < count implies #[trigger] holds(s, k, after, text, layer, pos) by {
            if layer < below {
                assert(holds(s, k, mid, text, layer, pos));
            }
        }
    }
}

/// A token's operations compute the transformer: from caches that hold the earlier
/// positions of a text, the residual stream becomes that of the text at the token's
/// position, with keys and queries rotated, norms placed and the MLP gated as the
/// architecture says. The position's keys and values are added to the caches, and
/// nothing else in them changes.
pub proof fn law_token_computes_the_transformer(
    s: Shape,
    cfg: Config,
    text: Seq<int>,
    pos: int,
    st: State,
)
    requires
        s.n_layer == cfg.n_layer,
        0 <= pos < text.len(),
        past(s, kind_of(cfg), st, text, pos),
    ensures
        ({
            let after = run(s, model::token_ops(cfg), text[pos], pos, st);
            &&& after.x == hidden(s, kind_of(cfg), text, pos, s.n_layer as nat)
            &&& past(s, kind_of(cfg), after, text, pos + 1)
            &&& kept(st, after, pos, s.n_layer as nat)
        }),
{
    let k = kind_of(cfg);
    let token = text[pos];
    let head = seq![CpuOp::Embed];
    let more = model::only(k.learned, CpuOp::AddPosition);
    let layers = model::layers_ops(cfg, cfg.n_layer as nat);
    let s1 = does(s, CpuOp::Embed, token, pos, st);
    lemma_one(s, CpuOp::Embed, token, pos, st);
    let s2 = run(s, more, token, pos, s1);
    lemma_only(s, k.learned, CpuOp::AddPosition, token, pos, s1);
    lemma_join(s, head, more, token, pos, st);
    lemma_join(s, head + more, layers, token, pos, st);
    assert forall|layer: nat, j: int| layer < s.n_layer && 0 <= j < pos implies #[trigger] holds(
        s,
        k,
        s2,
        text,
        layer,
        j,
    ) by {
        assert(holds(s, k, st, text, layer, j));
    }
    lemma_layers(s, cfg, cfg.n_layer as nat, text, token, pos, s2);
    let after = run(s, layers, token, pos, s2);
    assert forall|layer: nat, j: int| layer < s.n_layer && 0 <= j < pos + 1 implies #[trigger] holds(
        s,
        k,
        after,
        text,
        layer,
        j,
    ) by {
        if j < pos {
            assert(holds(s, k, s2, text, layer, j));
        }
    }
}

/// A sequence appended token by token computes the transformer over the whole text
/// so far, however the text is cut into sequences: the last token leaves the
/// residual stream of the text's last position.
pub proof fn law_sequence_computes_the_transformer(
    s: Shape,
    cfg: Config,
    text: Seq<int>,
    start: int,
    st: State,
)
    requires
        s.n_layer == cfg.n_layer,
        0 <= start <= text.len(),
        past(s, kind_of(cfg), st, text, start),
    ensures
        ({
            let after = pass(s, model::token_ops(cfg), text.skip(start), start, st);
            &&& start < text.len() ==> after.x == hidden(
                s,
                kind_of(cfg),
                text,
                text.len() - 1,
                s.n_layer as nat,
            )
            &&& past(s, kind_of(cfg), after, text, text.len() as int)
        }),
{
    lemma_pass(s, cfg, text, start, text.len() - start, st);
    assert(text.skip(start) =~= text.subrange(start, text.len() as int));
}

proof fn lemma_pass(s: Shape, cfg: Config, text: Seq<int>, start: int, n: int, st: State)
    requires
        s.n_layer == cfg.n_layer,
        0 <= start,
        0 <= n,
        start + n <= text.len(),
        past(s, kind_of(cfg), st, text, start),
    ensures
        ({
            let after = pass(s, model::token_ops(cfg), text.subrange(start, start + n), start, st);
            &&& n > 0 ==> after.x == hidden(s, kind_of(cfg), text, start + n - 1, s.n_layer as nat)
            &&& past(s, kind_of(cfg), after, text, start + n)
        }),
    decreases n,
{
    if n > 0 {
        let tokens = text.subrange(start, start + n);
        lemma_pass(s, cfg, text, start, n - 1, st);
        assert(tokens.drop_last() =~= text.subrange(start, start + n - 1));
        assert(tokens.last() == text[start + n - 1]);
        let mid = pass(s, model::token_ops(cfg), tokens.drop_last(), start, st);
        law_token_computes_the_transformer(s, cfg, text, start + n - 1, mid);
    }
}

// ---------------------------------------------------------------------------
// What carries the operations out.

/// Whether `run` carries every operation out. `r` says which state an
/// implementation's scratch and cache stand for; each operation leads from what
/// stands for a state to what stands for the state after it. A token starts with no
/// scratch, and only its embedding may run without any; between tokens the cache
/// alone is kept.
pub open spec fn carries<
    T,
    W,
    F: Fn(CpuOp, usize, usize, Option<W>, KvCache<T>) -> (Option<W>, KvCache<T>),
>(run: F, s: Shape, r: spec_fn(State, Option<W>, KvCache<T>) -> bool) -> bool {
    &&& forall|
        op: CpuOp,
        token: usize,
        pos: usize,
        v: Option<W>,
        c: KvCache<T>,
        w: Option<W>,
        d: KvCache<T>,
        st: State,
    |
        {
            &&& #[trigger] run.ensures((op, token, pos, v, c), (w, d))
            &&& #[trigger] r(st, v, c)
            &&& v is None ==> op is Embed
        } ==> w is Some && r(does(s, op, token as int, pos as int, st), w, d)
    &&& forall|st: State, w: Option<W>, c: KvCache<T>, d: KvCache<T>|
        #[trigger] r(st, w, c) && #[trigger] model::advanced(c, d) ==> r(st, None, d)
}

proof fn lemma_carried<
    T,
    W,
    F: Fn(CpuOp, usize, usize, Option<W>, KvCache<T>) -> (Option<W>, KvCache<T>),
>(
    run: F,
    s: Shape,
    r: spec_fn(State, Option<W>, KvCache<T>) -> bool,
    ops: Seq<CpuOp>,
    token: usize,
    pos: usize,
    a: KvCache<T>,
    w: Option<W>,
    b: KvCache<T>,
    st: State,
)
    requires
        carries(run, s, r),
        r(st, None, a),
        ops.len() > 0 ==> ops[0] is Embed,
        model::turned(run, ops, token, pos, a, w, b),
    ensures
        r(self::run(s, ops, token as int, pos as int, st), w, b),
        ops.len() > 0 ==> w is Some,
    decreases ops.len(),
{
    if ops.len() > 0 {
        let (v, c) = choose|v: Option<W>, c: KvCache<T>|
            {
                &&& model::turned(run, ops.drop_last(), token, pos, a, v, c)
                &&& #[trigger] run.ensures((ops.last(), token, pos, v, c), (w, b))
            };
        lemma_carried(run, s, r, ops.drop_last(), token, pos, a, v, c, st);
        assert(r(self::run(s, ops.drop_last(), token as int, pos as int, st), v, c));
        if ops.len() == 1 {
            assert(ops.last() == ops[0]);
        }
    }
}

/// Tokens as numbers.
pub open spec fn ids(tokens: Seq<usize>) -> Seq<int> {
    tokens.map_values(|t: usize| t as int)
}

proof fn lemma_carried_tokens<
    T,
    W,
    F: Fn(CpuOp, usize, usize, Option<W>, KvCache<T>) -> (Option<W>, KvCache<T>),
>(
    run: F,
    s: Shape,
    r: spec_fn(State, Option<W>, KvCache<T>) -> bool,
    ops: Seq<CpuOp>,
    tokens: Seq<usize>,
    start: nat,
    a: KvCache<T>,
    b: KvCache<T>,
    st: State,
)
    requires
        carries(run, s, r),
        r(st, None, a),
        ops.len() > 0 ==> ops[0] is Embed,
        start + tokens.len() <= usize::MAX,
        model::cached::<T, W, F>(run, ops, tokens, start, a, b),
    ensures
        r(pass(s, ops, ids(tokens), start as int, st), None, b),
    decreases tokens.len(),
{
    if tokens.len() == 0 {
        assert(ids(tokens) =~= Seq::empty());
    } else {
        let (c, w, d) = choose|c: KvCache<T>, w: Option<W>, d: KvCache<T>|
            {
                &&& model::cached::<T, W, F>(run, ops, tokens.drop_last(), start, a, c)
                &&& #[trigger] model::turned(
                    run,
                    ops,
                    tokens.last(),
                    (start + tokens.len() - 1) as usize,
                    c,
                    w,
                    d,
                )
                &&& model::advanced(d, b)
            };
        lemma_carried_tokens(run, s, r, ops, tokens.drop_last(), start, a, c, st);
        let mid = pass(s, ops, ids(tokens.drop_last()), start as int, st);
        assert(ids(tokens).drop_last() =~= ids(tokens.drop_last()));
        lemma_carried(run, s, r, ops, tokens.last(), (start + tokens.len() - 1) as usize, c, w, d, mid);
        assert(model::advanced(d, b));
    }
}

/// Where `run` carries out every operation, a pass over a sequence leaves what
/// stands for the transformer's residual stream at the last position of the whole
/// text: the tokens already cached, and these.
pub proof fn law_forward_computes_the_transformer<
    T,
    W,
    F: Fn(CpuOp, usize, usize, Option<W>, KvCache<T>) -> (Option<W>, KvCache<T>),
>(
    run: F,
    s: Shape,
    cfg: Config,
    r: spec_fn(State, Option<W>, KvCache<T>) -> bool,
    earlier: Seq<usize>,
    tokens: Seq<usize>,
    a: KvCache<T>,
    w: Option<W>,
    b: KvCache<T>,
    st: State,
)
    requires
        s.n_layer == cfg.n_layer,
        carries(run, s, r),
        r(st, None, a),
        past(s, kind_of(cfg), st, ids(earlier + tokens), earlier.len() as int),
        earlier.len() + tokens.len() <= usize::MAX,
        model::passed(run, model::token_ops(cfg), tokens, earlier.len(), a, w, b),
    ensures
        exists|out: State, d: KvCache<T>|
            {
                &&& #[trigger] r(out, w, d)
                &&& model::advanced(d, b)
                &&& out.x == hidden(
                    s,
                    kind_of(cfg),
                    ids(earlier + tokens),
                    (earlier + tokens).len() - 1,
                    s.n_layer as nat,
                )
                &&& past(s, kind_of(cfg), out, ids(earlier + tokens), (earlier + tokens).len() as int)
            },
{
    let ops = model::token_ops(cfg);
    let start = earlier.len();
    let text = ids(earlier + tokens);
    let (c, d) = choose|c: KvCache<T>, d: KvCache<T>|
        {
            &&& model::cached::<T, W, F>(run, ops, tokens.drop_last(), start, a, c)
            &&& #[trigger] model::turned(
                run,
                ops,
                tokens.last(),
                (start + tokens.len() - 1) as usize,
                c,
                w,
                d,
            )
            &&& model::advanced(d, b)
        };
    lemma_carried_tokens(run, s, r, ops, tokens.drop_last(), start, a, c, st);
    let mid = pass(s, ops, ids(tokens.drop_last()), start as int, st);
    assert(ops[0] is Embed);
    lemma_carried(run, s, r, ops, tokens.last(), (start + tokens.len() - 1) as usize, c, w, d, mid);
    let out = pass(s, ops, ids(tokens), start as int, st);
    assert(ids(tokens).drop_last() =~= ids(tokens.drop_last()));
    assert(ids(tokens).last() == tokens.last() as int);
    assert(text.skip(start as int) =~= ids(tokens));
    law_sequence_computes_the_transformer(s, cfg, text, start as int, st);
    assert(r(out, w, d));
}

// ---------------------------------------------------------------------------
// The CPU and the device.

/// Where the device runs a model, the CPU and the device compute the same: both
/// leave the same residual stream of the same position of the same text.
pub proof fn law_cpu_agrees_with_the_device(
    s: Shape,
    cfg: Config,
    n: usize,
    topk: bool,
    force: bool,
    c: interpret::Call,
    row: int,
    texts: spec_fn(int) -> Seq<int>,
    m: interpret::Memory,
    st: State,
)
    requires
        gpu_model::unsupported(cfg) is None,
        cfg.activation@ == "swiglu"@,
        s.n_layer == cfg.n_layer,
        s.holds(n as int),
        s.hidden > 0,
        s.n_embd > 0,
        c.of(texts),
        c.causal(),
        c.rows() == n,
        0 <= row < n,
        interpret::past(s, c, m, texts, true),
        past(s, kind_of(cfg), st, texts(c.owners[row]), c.positions[row]),
    ensures
        run(s, model::token_ops(cfg), c.tokens[row], c.positions[row], st).x == interpret::run(
            s,
            c,
            launch::decode_batch(s, n, topk, force),
            m,
        )(Place::Batch { buf: Buf::X }, row, 0),
{
    reveal_strlit("rope");
    reveal_strlit("learned");
    reveal_strlit("pre");
    reveal_strlit("post");
    assert("rope"@.len() != "learned"@.len());
    assert("pre"@.len() != "post"@.len());
    assert(kind_of(cfg) == device());
    assert(c.owners[row] == c.owners[row]);
    interpret::law_decode_computes_the_transformer(s, n, topk, force, c, texts, m);
    law_token_computes_the_transformer(s, cfg, texts(c.owners[row]), c.positions[row], st);
}

} // verus!
