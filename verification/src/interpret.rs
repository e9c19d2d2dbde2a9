//! What a list of launches computes.
//!
//! A list is run on memory whose cells hold vectors: expressions in the weights.
//! The laws say that every list the device is given computes the transformer's
//! equations, whichever path it takes, and leaves the rest of memory alone.
use crate::equations;
use crate::equations::{device, hidden, Vector};
use crate::gpu::{Precision, PARAM_SLOT, PARAM_ZERO};
use crate::launch;
use crate::launch::{Attention, Buf, How, Op, Place, Positions, PrefillMode, Routing, Shape, Weight};
use vstd::prelude::*;

verus! {

/// What the rows of a call are.
pub struct Call {
    /// The token of each row.
    pub tokens: Seq<int>,
    /// The request each row belongs to.
    pub owners: Seq<int>,
    /// The position each row has in its request.
    pub positions: Seq<int>,
    /// How many positions each row of a decode batch attends over.
    pub seen: Seq<int>,
    /// Where a chunk of one request starts.
    pub start: int,
    /// The rows whose logits a packed call gives.
    pub finals: Seq<int>,
    /// Tiled attention takes the call's own keys from scratch.
    pub hybrid: bool,
}

/// What memory holds. Of scratch the first index is a row and the second zero;
/// of a cache they are a request and a position.
pub type Memory = spec_fn(Place, int, int) -> Vector;

/// Whether a place is a cache.
pub open spec fn cache(p: Place) -> bool {
    p is Keys || p is Values
}

/// Whether a cache is that of a layer.
pub open spec fn cache_of(p: Place, layer: usize, paged: bool) -> bool {
    p == Place::Keys { layer, paged } || p == Place::Values { layer, paged }
}

/// Whether a cache starts at an offset.
pub open spec fn starts(s: Shape, p: Place, base: usize) -> bool {
    match p {
        Place::Keys { layer, paged } => base == s.layer_base(paged, layer as nat),
        Place::Values { layer, paged } => base == s.layer_base(paged, layer as nat),
        _ => base == 0,
    }
}

/// The cell that a base and a step parameter address: a cache's slot of the
/// step, or the first row of scratch.
pub open spec fn cell(s: Shape, c: Call, p: Place, base: usize, param: usize) -> Option<(int, int)> {
    if !starts(s, p, base) {
        None
    } else if cache(p) && param == PARAM_SLOT {
        Some((c.owners[0], c.positions[0]))
    } else if !cache(p) && param == PARAM_ZERO {
        Some((0, 0))
    } else {
        None
    }
}

/// Memory with the first rows of a place replaced.
pub open spec fn with_rows(m: Memory, dst: Place, rows: int, f: spec_fn(int) -> Vector) -> Memory {
    |p: Place, i: int, j: int|
        if p == dst && 0 <= i < rows && j == 0 {
            f(i)
        } else {
            m(p, i, j)
        }
}

/// Memory with one cell of a place replaced.
pub open spec fn with_cell(m: Memory, dst: Place, at: (int, int), v: Vector) -> Memory {
    |p: Place, i: int, j: int|
        if p == dst && i == at.0 && j == at.1 {
            v
        } else {
            m(p, i, j)
        }
}

/// Memory after a launch that its kernel does not serve.
pub open spec fn spoiled(m: Memory, dst: Place) -> Memory {
    |p: Place, i: int, j: int|
        if p == dst {
            Vector::Other { tag: -1 }
        } else {
            m(p, i, j)
        }
}

/// Where a row is stored.
pub open spec fn lands(c: Call, routing: Routing, i: int) -> (int, int) {
    match routing {
        Routing::Contiguous { pos_offset, .. } => (c.owners[0], pos_offset + i),
        Routing::Paged => (c.owners[0], c.start + i),
        Routing::Rows | Routing::Packed => (c.owners[i], c.positions[i]),
    }
}

/// Whether a routing serves a cache.
pub open spec fn routes(s: Shape, routing: Routing, dst: Place) -> bool {
    match dst {
        Place::Keys { paged, .. } | Place::Values { paged, .. } => match routing {
            Routing::Contiguous { base, .. } => !paged && starts(s, dst, base),
            _ => paged,
        },
        _ => false,
    }
}

/// Whose cache a row attends over, and how much of it.
pub open spec fn sees(c: Call, kernel: Attention, i: int) -> (int, int) {
    match kernel {
        Attention::Decode { .. } | Attention::Split { .. } => (c.owners[0], c.seen[0]),
        Attention::DecodePaged => (c.owners[i], c.seen[i]),
        Attention::Prefill { pos_offset, .. } => (c.owners[0], pos_offset + i + 1),
        Attention::PrefillPaged => (c.owners[0], c.start + i + 1),
        Attention::Packed | Attention::Tiled => (c.owners[i], c.positions[i] + 1),
    }
}

/// Whether an attention kernel serves a layer's cache.
pub open spec fn serves(s: Shape, kernel: Attention, layer: usize, paged: bool, rows: usize) -> bool {
    let keys = Place::Keys { layer, paged };
    match kernel {
        Attention::Decode { base } | Attention::Split { base } => !paged && starts(s, keys, base)
            && rows == 1,
        Attention::Prefill { base, .. } => !paged && starts(s, keys, base),
        _ => paged,
    }
}

/// Whether a row of a call is that of a request's position.
pub open spec fn row_at(c: Call, i: int, owner: int, position: int) -> bool {
    &&& 0 <= i < c.positions.len()
    &&& c.owners[i] == owner
    &&& c.positions[i] == position
}

/// Whether a call has a row of a request's position.
pub open spec fn is_row(c: Call, owner: int, position: int) -> bool {
    exists|i: int| #[trigger] row_at(c, i, owner, position)
}

/// The key that attention reads of a position.
pub open spec fn key_read(
    c: Call,
    m: Memory,
    kernel: Attention,
    layer: usize,
    paged: bool,
    owner: int,
    j: int,
) -> Vector {
    if kernel is Tiled && c.hybrid && is_row(c, owner, j) {
        m(
            Place::Prefill { buf: Buf::CurrentK },
            choose|i: int| #[trigger] row_at(c, i, owner, j),
            0,
        )
    } else {
        m(Place::Keys { layer, paged }, owner, j)
    }
}

/// Whether a count of elements covers a row of a width.
pub open spec fn covers(n: usize, width: usize, i: int) -> bool {
    0 <= i && (i + 1) * width <= n
}

/// What a projection leaves in a cell.
pub open spec fn put(accumulate: bool, before: Vector, v: Vector) -> Vector {
    if accumulate {
        equations::sum(before, v)
    } else {
        v
    }
}

/// Memory after an operation.
pub open spec fn does(s: Shape, c: Call, op: Op, m: Memory) -> Memory {
    match op {
        Op::Embed { dst, rows } => with_rows(
            m,
            dst,
            rows as int,
            |i: int| Vector::Embedding { token: c.tokens[i] },
        ),
        Op::Norm { weight, src, dst, rows } => with_rows(
            m,
            dst,
            rows as int,
            |i: int| equations::normed(weight, m(src, i, 0)),
        ),
        Op::Project { weight, how, src, dst, rows, cols, batch, accumulate } => {
            let v = |i: int| equations::product(weight, rows as int, cols as int, m(src, i, 0));
            match how {
                How::Gemv { base, param } => match cell(s, c, dst, base, param) {
                    Some(at) if batch == 1 && (accumulate ==> s.precision == Precision::Int8) =>
                        with_cell(m, dst, at, put(accumulate, m(dst, at.0, at.1), v(0))),
                    _ => spoiled(m, dst),
                },
                How::BatchGemv if s.precision != Precision::Int8 || cols % 4 != 0 => spoiled(m, dst),
                _ => with_rows(m, dst, batch as int, |i: int| put(accumulate, m(dst, i, 0), v(i))),
            }
        },
        Op::Rope { place, positions, rows, heads, stride } => match positions {
            Positions::Step { base, param } => match cell(s, c, place, base, param) {
                Some(at) if rows == 1 => with_cell(
                    m,
                    place,
                    at,
                    equations::rotated(m(place, at.0, at.1), c.positions[0], heads as int, stride as int),
                ),
                _ => spoiled(m, place),
            },
            Positions::Chunk => with_rows(
                m,
                place,
                rows as int,
                |i: int|
                    equations::rotated(m(place, i, 0), c.start + i, heads as int, stride as int),
            ),
            Positions::Rows => with_rows(
                m,
                place,
                rows as int,
                |i: int|
                    equations::rotated(m(place, i, 0), c.positions[i], heads as int, stride as int),
            ),
        },
        Op::Store { src, dst, routing, rows } => if routes(s, routing, dst) {
            |p: Place, a: int, b: int|
                if p == dst && exists|i: int|
                    0 <= i < rows && #[trigger] lands(c, routing, i) == (a, b) {
                    m(
                        src,
                        choose|i: int| 0 <= i < rows && #[trigger] lands(c, routing, i) == (a, b),
                        0,
                    )
                } else {
                    m(p, a, b)
                }
        } else {
            spoiled(m, dst)
        },
        Op::Attend { kernel, layer, paged, src, dst, rows } => if serves(s, kernel, layer, paged, rows) {
            with_rows(
                m,
                dst,
                rows as int,
                |i: int|
                    {
                        let (owner, n) = sees(c, kernel, i);
                        equations::attended(
                            m(src, i, 0),
                            Seq::new(
                                n as nat,
                                |j: int| key_read(c, m, kernel, layer, paged, owner, j),
                            ),
                            Seq::new(n as nat, |j: int| m(Place::Values { layer, paged }, owner, j)),
                        )
                    },
            )
        } else {
            spoiled(m, dst)
        },
        Op::Add { src, dst, n } => |p: Place, i: int, j: int|
            if p == dst && j == 0 && covers(n, s.n_embd, i) {
                equations::sum(m(dst, i, 0), m(src, i, 0))
            } else {
                m(p, i, j)
            },
        Op::SwiGlu { gate, up, n } => |p: Place, i: int, j: int|
            if p == gate && j == 0 && covers(n, s.hidden, i) {
                equations::gated(m(gate, i, 0), m(up, i, 0))
            } else {
                m(p, i, j)
            },
        Op::FusedMlp { layer, src, dst } => with_rows(
            m,
            dst,
            1,
            |i: int|
                equations::gated(
                    equations::times(s, Weight::Gate { layer }, m(src, 0, 0)),
                    equations::times(s, Weight::Up { layer }, m(src, 0, 0)),
                ),
        ),
        Op::Gather { src, dst, rows } => with_rows(
            m,
            dst,
            rows as int,
            |i: int| m(src, c.finals[i], 0),
        ),
        Op::CopyRow { src, dst, row } => with_rows(m, dst, 1, |i: int| m(src, row as int, 0)),
        Op::Argmax { src, dst, rows } => with_rows(
            m,
            dst,
            rows as int,
            |i: int| Vector::Greatest { of: Box::new(m(src, i, 0)) },
        ),
        Op::TopK { src, dst, rows } => with_rows(
            m,
            dst,
            rows as int,
            |i: int| Vector::Candidates { of: Box::new(m(src, i, 0)) },
        ),
    }
}

/// Memory after the first `n` operations of a list.
pub open spec fn ran(s: Shape, c: Call, ops: Seq<Op>, n: nat, m: Memory) -> Memory
    decreases n,
{
    if n == 0 {
        m
    } else {
        does(s, c, ops[n - 1], ran(s, c, ops, (n - 1) as nat, m))
    }
}

/// Memory after a list.
pub open spec fn run(s: Shape, c: Call, ops: Seq<Op>, m: Memory) -> Memory {
    ran(s, c, ops, ops.len(), m)
}

impl Call {
    /// Number of rows.
    pub open spec fn rows(self) -> nat {
        self.positions.len()
    }

    /// Whether the rows are tokens of texts: each is the token that its request's
    /// text has at its position, and no position occurs twice.
    pub open spec fn of(self, texts: spec_fn(int) -> Seq<int>) -> bool {
        &&& self.tokens.len() == self.rows()
        &&& self.owners.len() == self.rows()
        &&& forall|i: int|
            0 <= i < self.rows() ==> {
                let text = texts(#[trigger] self.owners[i]);
                0 <= self.positions[i] < text.len() && self.tokens[i] == text[self.positions[i]]
            }
        &&& forall|i: int, k: int|
            0 <= i < k < self.rows() ==> !(#[trigger] self.owners[i] == #[trigger] self.owners[k]
                && self.positions[i] == self.positions[k])
    }

    /// Whether each row attends over the positions up to its own.
    pub open spec fn causal(self) -> bool {
        &&& self.seen.len() == self.rows()
        &&& forall|i: int| 0 <= i < self.rows() ==> #[trigger] self.seen[i] == self.positions[i] + 1
    }

    /// Whether the rows are consecutive positions of one request.
    pub open spec fn chunk(self) -> bool {
        forall|i: int|
            0 <= i < self.rows() ==> #[trigger] self.positions[i] == self.start + i && self.owners[i]
                == self.owners[0]
    }
}

/// Whether a layer's cache holds a request's position.
pub open spec fn holds(
    s: Shape,
    m: Memory,
    texts: spec_fn(int) -> Seq<int>,
    paged: bool,
    layer: nat,
    owner: int,
    j: int,
) -> bool {
    let l = layer as usize;
    let x = hidden(s, device(), texts(owner), j, layer);
    &&& m(Place::Keys { layer: l, paged }, owner, j) == equations::key_of(s, device(), l, x, j)
    &&& m(Place::Values { layer: l, paged }, owner, j) == equations::value_of(s, device(), l, x)
}

/// Whether a layer's cache holds every position before a row that is not itself a
/// row of the call.
pub open spec fn history(
    s: Shape,
    c: Call,
    m: Memory,
    texts: spec_fn(int) -> Seq<int>,
    paged: bool,
    layer: nat,
) -> bool {
    forall|i: int, j: int|
        0 <= i < c.rows() && 0 <= j < c.positions[i] && !is_row(c, c.owners[i], j) ==> #[trigger] holds(
            s,
            m,
            texts,
            paged,
            layer,
            c.owners[i],
            j,
        )
}

/// Whether a residual stream is that of the rows after so many layers.
pub open spec fn stream(
    s: Shape,
    c: Call,
    m: Memory,
    texts: spec_fn(int) -> Seq<int>,
    x: Place,
    layers: nat,
) -> bool {
    forall|i: int|
        0 <= i < c.rows() ==> #[trigger] m(x, i, 0) == hidden(
            s,
            device(),
            texts(c.owners[i]),
            c.positions[i],
            layers,
        )
}

/// Whether every layer's cache holds the past of the call's rows.
pub open spec fn past(s: Shape, c: Call, m: Memory, texts: spec_fn(int) -> Seq<int>, paged: bool) -> bool {
    forall|layer: nat| layer < s.n_layer ==> #[trigger] history(s, c, m, texts, paged, layer)
}

/// Whether the first layers' caches hold the call's own rows.
pub open spec fn cached(
    s: Shape,
    c: Call,
    m: Memory,
    texts: spec_fn(int) -> Seq<int>,
    paged: bool,
    layers: nat,
) -> bool {
    forall|layer: nat, k: int|
        layer < layers && 0 <= k < c.rows() ==> #[trigger] holds(
            s,
            m,
            texts,
            paged,
            layer,
            c.owners[k],
            c.positions[k],
        )
}

/// The first layers' caches.
pub open spec fn among(p: Place, layers: nat, paged: bool) -> bool {
    match p {
        Place::Keys { layer, paged: q } | Place::Values { layer, paged: q } => layer < layers && q == paged,
        _ => false,
    }
}

/// Whether caches changed nowhere but, of the first layers, at the call's own
/// positions.
pub open spec fn kept(c: Call, before: Memory, after: Memory, paged: bool, layers: nat) -> bool {
    forall|p: Place, a: int, b: int|
        cache(p) && !(among(p, layers, paged) && is_row(c, a, b)) ==> #[trigger] after(p, a, b) == before(
            p,
            a,
            b,
        )
}

proof fn lemma_ran_apart(s: Shape, c: Call, a: Seq<Op>, b: Seq<Op>, n: nat, m: Memory)
    requires
        n <= b.len(),
    ensures
        ran(s, c, a + b, a.len() + n, m) == ran(s, c, b, n, run(s, c, a, m)),
    decreases n,
{
    if n == 0 {
        lemma_ran_prefix(s, c, a, b, a.len(), m);
    } else {
        lemma_ran_apart(s, c, a, b, (n - 1) as nat, m);
        assert((a + b)[a.len() + n - 1] == b[n - 1]);
    }
}

proof fn lemma_ran_prefix(s: Shape, c: Call, a: Seq<Op>, b: Seq<Op>, n: nat, m: Memory)
    requires
        n <= a.len(),
    ensures
        ran(s, c, a + b, n, m) == ran(s, c, a, n, m),
    decreases n,
{
    if n > 0 {
        lemma_ran_prefix(s, c, a, b, (n - 1) as nat, m);
        assert((a + b)[n - 1] == a[n - 1]);
    }
}

/// A list in two parts.
pub proof fn lemma_run_join(s: Shape, c: Call, a: Seq<Op>, b: Seq<Op>, m: Memory)
    ensures
        run(s, c, a + b, m) == run(s, c, b, run(s, c, a, m)),
{
    lemma_ran_apart(s, c, a, b, b.len(), m);
}

/// Whether a routing stores each row at its own position.
pub open spec fn stores_in_place(c: Call, routing: Routing) -> bool {
    forall|i: int|
        0 <= i < c.rows() ==> #[trigger] lands(c, routing, i) == (c.owners[i], c.positions[i])
}

proof fn lemma_store(
    s: Shape,
    c: Call,
    texts: spec_fn(int) -> Seq<int>,
    m: Memory,
    src: Place,
    dst: Place,
    routing: Routing,
    rows: usize,
)
    requires
        c.of(texts),
        rows == c.rows(),
        routes(s, routing, dst),
        stores_in_place(c, routing),
    ensures
        ({
            let after = does(s, c, Op::Store { src, dst, routing, rows }, m);
            &&& forall|i: int|
                0 <= i < rows ==> after(dst, #[trigger] c.owners[i], c.positions[i]) == m(src, i, 0)
            &&& forall|a: int, b: int|
                !is_row(c, a, b) ==> #[trigger] after(dst, a, b) == m(dst, a, b)
            &&& forall|p: Place, a: int, b: int| p != dst ==> #[trigger] after(p, a, b) == m(p, a, b)
        }),
{
    let after = does(s, c, Op::Store { src, dst, routing, rows }, m);
    assert forall|i: int| 0 <= i < rows implies after(dst, #[trigger] c.owners[i], c.positions[i]) == m(
        src,
        i,
        0,
    ) by {
        let (a, b) = (c.owners[i], c.positions[i]);
        assert(lands(c, routing, i) == (a, b));
        let k = choose|k: int| 0 <= k < rows && #[trigger] lands(c, routing, k) == (a, b);
        assert(c.owners[k] == a && c.positions[k] == b);
        assert(k == i);
    }
    assert forall|a: int, b: int| !is_row(c, a, b) implies #[trigger] after(dst, a, b) == m(dst, a, b) by {
        assert forall|i: int| 0 <= i < rows implies #[trigger] lands(c, routing, i) != (a, b) by {
            assert(!row_at(c, i, a, b));
        }
    }
}

/// Whether every row attends over its request's positions up to its own.
pub open spec fn sees_its_past(c: Call, kernel: Attention) -> bool {
    forall|i: int|
        0 <= i < c.rows() ==> #[trigger] sees(c, kernel, i) == (c.owners[i], c.positions[i] + 1)
}

proof fn lemma_attention(
    s: Shape,
    c: Call,
    texts: spec_fn(int) -> Seq<int>,
    before: Memory,
    m: Memory,
    kernel: Attention,
    paged: bool,
    layer: nat,
    i: int,
)
    requires
        c.of(texts),
        0 <= i < c.rows(),
        layer <= usize::MAX,
        history(s, c, before, texts, paged, layer),
        forall|k: int|
            0 <= k < c.rows() ==> holds(
                s,
                m,
                texts,
                paged,
                layer,
                #[trigger] c.owners[k],
                c.positions[k],
            ),
        forall|p: Place, a: int, b: int|
            cache_of(p, layer as usize, paged) && !is_row(c, a, b) ==> #[trigger] m(p, a, b) == before(
                p,
                a,
                b,
            ),
        c.hybrid && kernel is Tiled ==> forall|k: int|
            0 <= k < c.rows() ==> #[trigger] m(Place::Prefill { buf: Buf::CurrentK }, k, 0)
                == equations::key_of(
                s,
                device(),
                layer as usize,
                hidden(s, device(), texts(c.owners[k]), c.positions[k], layer),
                c.positions[k],
            ),
    ensures
        ({
            let l = layer as usize;
            let owner = c.owners[i];
            let n = c.positions[i] + 1;
            &&& Seq::new(n as nat, |j: int| key_read(c, m, kernel, l, paged, owner, j))
                == equations::keys(s, device(), texts(owner), n, layer)
            &&& Seq::new(n as nat, |j: int| m(Place::Values { layer: l, paged }, owner, j))
                == equations::values(s, device(), texts(owner), n, layer)
        }),
{
    let l = layer as usize;
    let owner = c.owners[i];
    let n = c.positions[i] + 1;
    equations::lemma_rows(s, device(), texts(owner), n, layer);
    assert forall|j: int| 0 <= j < n implies holds(s, m, texts, paged, layer, owner, j) && #[trigger] key_read(
        c,
        m,
        kernel,
        l,
        paged,
        owner,
        j,
    ) == m(Place::Keys { layer: l, paged }, owner, j) by {
        if is_row(c, owner, j) {
            let k = choose|k: int| #[trigger] row_at(c, k, owner, j);
            assert(c.owners[k] == owner);
            assert(holds(s, m, texts, paged, layer, c.owners[k], c.positions[k]));
        } else {
            assert(row_at(c, i, owner, c.positions[i]));
            assert(holds(s, before, texts, paged, layer, c.owners[i], j));
            assert(cache_of(Place::Keys { layer: l, paged }, l, paged));
            assert(cache_of(Place::Values { layer: l, paged }, l, paged));
        }
    }
    assert(Seq::new(n as nat, |j: int| key_read(c, m, kernel, l, paged, owner, j)) =~= equations::keys(
        s,
        device(),
        texts(owner),
        n,
        layer,
    ));
    assert forall|j: int| 0 <= j < n implies m(Place::Values { layer: l, paged }, owner, j)
        == #[trigger] equations::values(s, device(), texts(owner), n, layer)[j] by {
        assert(key_read(c, m, kernel, l, paged, owner, j) == m(Place::Keys { layer: l, paged }, owner, j));
    }
    assert(Seq::new(n as nat, |j: int| m(Place::Values { layer: l, paged }, owner, j))
        =~= equations::values(s, device(), texts(owner), n, layer));
}

proof fn lemma_covers(n: usize, width: usize, count: usize, i: int)
    requires
        width > 0,
        count == n * width,
        0 <= i,
    ensures
        covers(count, width, i) <==> i < n,
{
    if i < n {
        assert((i + 1) * width <= n * width) by (nonlinear_arith)
            requires
                i + 1 <= n,
                width > 0,
        ;
    } else {
        assert((i + 1) * width > n * width) by (nonlinear_arith)
            requires
                i + 1 > n,
                width > 0,
        ;
    }
}

// ---------------------------------------------------------------------------
// Batched decode.

/// The residual stream after a layer, from the one before it and the heads'
/// attention.
pub open spec fn after_attention(s: Shape, l: usize, x: Vector, heads: Vector) -> Vector {
    let y = equations::sum(x, equations::times(s, Weight::Output { layer: l }, heads));
    let wide = equations::mlp_of(s, device(), l, equations::normed(Weight::MlpNorm { layer: l }, y));
    equations::sum(y, equations::times(s, Weight::Down { layer: l }, wide))
}

/// A layer after its attention: the output projection and the MLP.
proof fn lemma_decode_mlp(s: Shape, n: usize, force: bool, l: usize, c: Call, m: Memory)
    requires
        s.holds(n as int),
        s.hidden > 0,
        s.n_embd > 0,
    ensures
        ({
            let x = Place::Batch { buf: Buf::X };
            let ops = launch::decode_layer(s, n, force, l);
            let mid = ran(s, c, ops, 9, m);
            let after = run(s, c, ops, m);
            &&& forall|i: int|
                0 <= i < n ==> #[trigger] after(x, i, 0) == after_attention(
                    s,
                    l,
                    mid(x, i, 0),
                    mid(Place::Batch { buf: Buf::Attn }, i, 0),
                )
            &&& forall|p: Place, a: int, b: int|
                !(p is Batch && 0 <= a < n && b == 0) ==> #[trigger] after(p, a, b) == mid(p, a, b)
        }),
{
    let x = Place::Batch { buf: Buf::X };
    let ops = launch::decode_layer(s, n, force, l);
    let m9 = ran(s, c, ops, 9, m);
    let m10 = does(s, c, ops[9], m9);
    let m11 = does(s, c, ops[10], m10);
    let m12 = does(s, c, ops[11], m11);
    let m13 = does(s, c, ops[12], m12);
    let m14 = does(s, c, ops[13], m13);
    let m15 = does(s, c, ops[14], m14);
    assert(ran(s, c, ops, 10, m) == m10);
    assert(ran(s, c, ops, 11, m) == m11);
    assert(ran(s, c, ops, 12, m) == m12);
    assert(ran(s, c, ops, 13, m) == m13);
    assert(ran(s, c, ops, 14, m) == m14);
    assert(ran(s, c, ops, 15, m) == m15);
    assert forall|i: int| 0 <= i implies (#[trigger] covers((n * s.hidden) as usize, s.hidden, i) <==> i < n) by {
        lemma_covers(n, s.hidden, (n * s.hidden) as usize, i);
    }
}

proof fn lemma_decode_layer(
    s: Shape,
    n: usize,
    force: bool,
    layer: nat,
    c: Call,
    texts: spec_fn(int) -> Seq<int>,
    m: Memory,
)
    requires
        s.holds(n as int),
        s.hidden > 0,
        s.n_embd > 0,
        layer < usize::MAX,
        c.of(texts),
        c.causal(),
        c.rows() == n,
        stream(s, c, m, texts, Place::Batch { buf: Buf::X }, layer),
        history(s, c, m, texts, true, layer),
    ensures
        ({
            let after = run(s, c, launch::decode_layer(s, n, force, layer as usize), m);
            &&& stream(s, c, after, texts, Place::Batch { buf: Buf::X }, layer + 1)
            &&& forall|k: int|
                0 <= k < n ==> holds(s, after, texts, true, layer, #[trigger] c.owners[k], c.positions[k])
            &&& forall|p: Place, a: int, b: int|
                cache(p) && !(cache_of(p, layer as usize, true) && is_row(c, a, b))
                    ==> #[trigger] after(p, a, b) == m(p, a, b)
            &&& forall|p: Place, a: int, b: int|
                !cache(p) && !(p is Batch && 0 <= a < n && b == 0) ==> #[trigger] after(p, a, b) == m(p, a, b)
        }),
{
    let l = layer as usize;
    let x = Place::Batch { buf: Buf::X };
    let kv = Place::Batch { buf: Buf::Kv };
    let keys = Place::Keys { layer: l, paged: true };
    let values = Place::Values { layer: l, paged: true };
    let ops = launch::decode_layer(s, n, force, l);
    let m1 = does(s, c, ops[0], m);
    let m2 = does(s, c, ops[1], m1);
    let m3 = does(s, c, ops[2], m2);
    let m4 = does(s, c, ops[3], m3);
    let m5 = does(s, c, ops[4], m4);
    let m6 = does(s, c, ops[5], m5);
    let m7 = does(s, c, ops[6], m6);
    let m8 = does(s, c, ops[7], m7);
    let m9 = does(s, c, ops[8], m8);
    assert(ran(s, c, ops, 0, m) == m);
    assert(ran(s, c, ops, 1, m) == m1);
    assert(ran(s, c, ops, 2, m) == m2);
    assert(ran(s, c, ops, 3, m) == m3);
    assert(ran(s, c, ops, 4, m) == m4);
    assert(ran(s, c, ops, 5, m) == m5);
    assert(ran(s, c, ops, 6, m) == m6);
    assert(ran(s, c, ops, 7, m) == m7);
    assert(ran(s, c, ops, 8, m) == m8);
    assert(ran(s, c, ops, 9, m) == m9);
    let m15 = run(s, c, ops, m);
    lemma_decode_mlp(s, n, force, l, c, m);
    lemma_store(s, c, texts, m3, kv, keys, Routing::Rows, n);
    lemma_store(s, c, texts, m5, kv, values, Routing::Rows, n);
    assert forall|k: int| 0 <= k < n implies holds(
        s,
        m8,
        texts,
        true,
        layer,
        #[trigger] c.owners[k],
        c.positions[k],
    ) by {
        assert(m(x, k, 0) == hidden(s, device(), texts(c.owners[k]), c.positions[k], layer));
        assert(m8(keys, c.owners[k], c.positions[k]) == m3(kv, k, 0));
        assert(m8(values, c.owners[k], c.positions[k]) == m5(kv, k, 0));
    }
    assert forall|i: int| 0 <= i < n implies #[trigger] m15(x, i, 0) == hidden(
        s,
        device(),
        texts(c.owners[i]),
        c.positions[i],
        layer + 1,
    ) by {
        assert(m(x, i, 0) == hidden(s, device(), texts(c.owners[i]), c.positions[i], layer));
        assert(sees(c, Attention::DecodePaged, i) == (c.owners[i], c.positions[i] + 1));
        lemma_attention(s, c, texts, m, m8, Attention::DecodePaged, true, layer, i);
        assert(m9(x, i, 0) == m(x, i, 0));
        assert(m15(x, i, 0) == after_attention(s, l, m9(x, i, 0), m9(Place::Batch { buf: Buf::Attn }, i, 0)));
    }
}

proof fn lemma_decode_layers(
    s: Shape,
    n: usize,
    force: bool,
    count: nat,
    c: Call,
    texts: spec_fn(int) -> Seq<int>,
    m: Memory,
)
    requires
        s.holds(n as int),
        s.hidden > 0,
        s.n_embd > 0,
        count <= s.n_layer,
        c.of(texts),
        c.causal(),
        c.rows() == n,
        stream(s, c, m, texts, Place::Batch { buf: Buf::X }, 0),
        past(s, c, m, texts, true),
    ensures
        ({
            let after = run(s, c, launch::decode_layers(s, n, force, count), m);
            &&& stream(s, c, after, texts, Place::Batch { buf: Buf::X }, count)
            &&& cached(s, c, after, texts, true, count)
            &&& kept(c, m, after, true, count)
            &&& forall|p: Place, a: int, b: int|
                !cache(p) && !(p is Batch && 0 <= a < n && b == 0) ==> #[trigger] after(p, a, b) == m(p, a, b)
        }),
    decreases count,
{
    if count > 0 {
        let below = (count - 1) as nat;
        let ops = launch::decode_layers(s, n, force, below);
        let more = launch::decode_layer(s, n, force, below as usize);
        let mid = run(s, c, ops, m);
        let after = run(s, c, more, mid);
        lemma_decode_layers(s, n, force, below, c, texts, m);
        lemma_run_join(s, c, ops, more, m);
        lemma_past(s, c, texts, m, mid, true, below);
        lemma_decode_layer(s, n, force, below, c, texts, mid);
        lemma_layer_added(s, c, texts, m, mid, after, true, below);
    }
}

/// A layer that has not run sees what was cached before.
proof fn lemma_past(
    s: Shape,
    c: Call,
    texts: spec_fn(int) -> Seq<int>,
    m: Memory,
    mid: Memory,
    paged: bool,
    below: nat,
)
    requires
        below < s.n_layer,
        past(s, c, m, texts, paged),
        kept(c, m, mid, paged, below),
    ensures
        history(s, c, mid, texts, paged, below),
{
    assert(history(s, c, m, texts, paged, below));
    assert forall|i: int, j: int|
        0 <= i < c.rows() && 0 <= j < c.positions[i] && !is_row(c, c.owners[i], j) implies #[trigger] holds(
        s,
        mid,
        texts,
        paged,
        below,
        c.owners[i],
        j,
    ) by {
        assert(holds(s, m, texts, paged, below, c.owners[i], j));
    }
}

/// What one more layer adds to the caches.
proof fn lemma_layer_added(
    s: Shape,
    c: Call,
    texts: spec_fn(int) -> Seq<int>,
    m: Memory,
    mid: Memory,
    after: Memory,
    paged: bool,
    below: nat,
)
    requires
        below < s.n_layer,
        c.of(texts),
        cached(s, c, mid, texts, paged, below),
        kept(c, m, mid, paged, below),
        forall|k: int|
            0 <= k < c.rows() ==> holds(
                s,
                after,
                texts,
                paged,
                below,
                #[trigger] c.owners[k],
                c.positions[k],
            ),
        forall|p: Place, a: int, b: int|
            cache(p) && !(cache_of(p, below as usize, paged) && is_row(c, a, b)) ==> #[trigger] after(
                p,
                a,
                b,
            ) == mid(p, a, b),
    ensures
        cached(s, c, after, texts, paged, below + 1),
        kept(c, m, after, paged, below + 1),
{
    assert forall|layer: nat, k: int| layer < below + 1 && 0 <= k < c.rows() implies #[trigger] holds(
        s,
        after,
        texts,
        paged,
        layer,
        c.owners[k],
        c.positions[k],
    ) by {
        if layer < below {
            assert(holds(s, mid, texts, paged, layer, c.owners[k], c.positions[k]));
        }
    }
}

/// A batched decode step computes the transformer: from caches that hold the past
/// of each row, each row's residual stream, logits and greatest logit are those of
/// its own request's text at its own position, whoever shares the batch. Its keys
/// and values are added to its own request's cache, and no other cell of any cache
/// changes.
pub proof fn law_decode_computes_the_transformer(
    s: Shape,
    n: usize,
    topk: bool,
    force: bool,
    c: Call,
    texts: spec_fn(int) -> Seq<int>,
    m: Memory,
)
    requires
        s.holds(n as int),
        s.hidden > 0,
        s.n_embd > 0,
        c.of(texts),
        c.causal(),
        c.rows() == n,
        past(s, c, m, texts, true),
    ensures
        ({
            let after = run(s, c, launch::decode_batch(s, n, topk, force), m);
            &&& stream(s, c, after, texts, Place::Batch { buf: Buf::X }, s.n_layer as nat)
            &&& forall|i: int|
                0 <= i < n ==> {
                    let logits = equations::logits(s, device(), texts(#[trigger] c.owners[i]), c.positions[i]);
                    &&& after(Place::Batch { buf: Buf::Logits }, i, 0) == logits
                    &&& after(Place::Batch { buf: Buf::Ids }, i, 0) == greatest(logits)
                    &&& topk ==> after(Place::Batch { buf: Buf::Candidates }, i, 0) == candidates(logits)
                }
            &&& cached(s, c, after, texts, true, s.n_layer as nat)
            &&& kept(c, m, after, true, s.n_layer as nat)
            &&& forall|p: Place, a: int, b: int|
                !cache(p) && !(p is Batch && 0 <= a < n && b == 0) ==> #[trigger] after(p, a, b) == m(p, a, b)
        }),
{
    let x = Place::Batch { buf: Buf::X };
    let embed = seq![Op::Embed { dst: x, rows: n }];
    let layers = launch::decode_layers(s, n, force, s.n_layer as nat);
    let whole = launch::decode_batch(s, n, topk, force);
    let tail = whole.skip(1 + layers.len() as int);
    assert(whole =~= embed + layers + tail);
    let m1 = run(s, c, embed, m);
    assert(ran(s, c, embed, 0, m) == m);
    assert(m1 == does(s, c, embed[0], m));
    let m2 = run(s, c, layers, m1);
    lemma_run_join(s, c, embed, layers, m);
    lemma_run_join(s, c, embed + layers, tail, m);
    lemma_embedded(s, c, texts, m, m1, x, true);
    lemma_decode_layers(s, n, force, s.n_layer as nat, c, texts, m1);
    let m3 = does(s, c, tail[0], m2);
    let m4 = does(s, c, tail[1], m3);
    let m5 = does(s, c, tail[2], m4);
    assert(ran(s, c, tail, 0, m2) == m2);
    assert(ran(s, c, tail, 1, m2) == m3);
    assert(ran(s, c, tail, 2, m2) == m4);
    assert(ran(s, c, tail, 3, m2) == m5);
    let after = run(s, c, tail, m2);
    if topk {
        assert(tail.len() == 4);
        assert(after == does(s, c, tail[3], m5));
    } else {
        assert(tail.len() == 3);
        assert(after == m5);
    }
    assert(forall|p: Place, a: int, b: int| cache(p) ==> #[trigger] after(p, a, b) == m2(p, a, b));
    assert forall|layer: nat, k: int| layer < s.n_layer && 0 <= k < c.rows() implies #[trigger] holds(
        s,
        after,
        texts,
        true,
        layer,
        c.owners[k],
        c.positions[k],
    ) by {
        assert(holds(s, m2, texts, true, layer, c.owners[k], c.positions[k]));
    }
    assert forall|i: int| 0 <= i < n implies {
        let logits = equations::logits(s, device(), texts(#[trigger] c.owners[i]), c.positions[i]);
        &&& after(Place::Batch { buf: Buf::Logits }, i, 0) == logits
        &&& after(Place::Batch { buf: Buf::Ids }, i, 0) == greatest(logits)
        &&& topk ==> after(Place::Batch { buf: Buf::Candidates }, i, 0) == candidates(logits)
    } by {
        assert(m2(x, i, 0) == hidden(s, device(), texts(c.owners[i]), c.positions[i], s.n_layer as nat));
    }
}

/// The index of a vector's greatest entry.
pub open spec fn greatest(of: Vector) -> Vector {
    Vector::Greatest { of: Box::new(of) }
}

/// A vector's greatest entries, with their indices.
pub open spec fn candidates(of: Vector) -> Vector {
    Vector::Candidates { of: Box::new(of) }
}

// ---------------------------------------------------------------------------
// Prompts.

/// Whether a call fits the way a prompt is run: rows of several requests only
/// where they are packed, and tiled attention only in pages.
pub open spec fn suits(c: Call, mode: PrefillMode) -> bool {
    &&& c.hybrid == mode.hybrid
    &&& mode.tiled ==> mode.packed || mode.paged
    &&& !mode.packed ==> c.chunk()
    &&& !(mode.packed || mode.paged) ==> mode.pos_offset == c.start
}

proof fn lemma_base(s: Shape, paged: bool, layer: nat)
    requires
        s.wf(),
        layer < s.n_layer,
    ensures
        s.layer_base(paged, layer) <= usize::MAX,
{
    let per = if paged {
        crate::paged::PAGE_TOKENS as int
    } else {
        s.capacity as int
    };
    assert(layer * per <= s.n_layer * per) by (nonlinear_arith)
        requires
            layer < s.n_layer,
            0 <= per,
    ;
    assert((layer * per) * s.kv_dim <= (s.n_layer * per) * s.kv_dim) by (nonlinear_arith)
        requires
            layer * per <= s.n_layer * per,
    ;
}

/// A layer after its attention: the output projection and the MLP.
proof fn lemma_prefill_mlp(s: Shape, t: usize, mode: PrefillMode, l: usize, c: Call, m: Memory)
    requires
        s.holds(t as int),
        s.hidden > 0,
        s.n_embd > 0,
    ensures
        ({
            let x = Place::Prefill { buf: Buf::X };
            let ops = launch::prefill_layer(s, t, mode, l);
            let mid = ran(s, c, ops, 9, m);
            let after = run(s, c, ops, m);
            &&& forall|i: int|
                0 <= i < t ==> #[trigger] after(x, i, 0) == after_attention(
                    s,
                    l,
                    mid(x, i, 0),
                    mid(Place::Prefill { buf: Buf::Attn }, i, 0),
                )
            &&& forall|p: Place, a: int, b: int|
                !(p is Prefill && 0 <= a < t && b == 0) ==> #[trigger] after(p, a, b) == mid(p, a, b)
        }),
{
    let x = Place::Prefill { buf: Buf::X };
    let ops = launch::prefill_layer(s, t, mode, l);
    let m9 = ran(s, c, ops, 9, m);
    let m10 = does(s, c, ops[9], m9);
    let m11 = does(s, c, ops[10], m10);
    let m12 = does(s, c, ops[11], m11);
    let m13 = does(s, c, ops[12], m12);
    let m14 = does(s, c, ops[13], m13);
    let m15 = does(s, c, ops[14], m14);
    let m16 = does(s, c, ops[15], m15);
    let m17 = does(s, c, ops[16], m16);
    assert(ran(s, c, ops, 10, m) == m10);
    assert(ran(s, c, ops, 11, m) == m11);
    assert(ran(s, c, ops, 12, m) == m12);
    assert(ran(s, c, ops, 13, m) == m13);
    assert(ran(s, c, ops, 14, m) == m14);
    assert(ran(s, c, ops, 15, m) == m15);
    assert(ran(s, c, ops, 16, m) == m16);
    assert(ran(s, c, ops, 17, m) == m17);
    assert forall|i: int| 0 <= i implies (#[trigger] covers((t * s.hidden) as usize, s.hidden, i) <==> i < t) by {
        lemma_covers(t, s.hidden, (t * s.hidden) as usize, i);
    }
    assert forall|i: int| 0 <= i implies (#[trigger] covers((t * s.n_embd) as usize, s.n_embd, i) <==> i < t) by {
        lemma_covers(t, s.n_embd, (t * s.n_embd) as usize, i);
    }
}

proof fn lemma_prefill_layer(
    s: Shape,
    t: usize,
    mode: PrefillMode,
    layer: nat,
    c: Call,
    texts: spec_fn(int) -> Seq<int>,
    m: Memory,
)
    requires
        s.wf(),
        s.holds(t as int),
        s.hidden > 0,
        s.n_embd > 0,
        layer < s.n_layer,
        c.of(texts),
        c.rows() == t,
        suits(c, mode),
        stream(s, c, m, texts, Place::Prefill { buf: Buf::X }, layer),
        history(s, c, m, texts, mode.packed || mode.paged, layer),
    ensures
        ({
            let paged = mode.packed || mode.paged;
            let after = run(s, c, launch::prefill_layer(s, t, mode, layer as usize), m);
            &&& stream(s, c, after, texts, Place::Prefill { buf: Buf::X }, layer + 1)
            &&& forall|k: int|
                0 <= k < t ==> holds(s, after, texts, paged, layer, #[trigger] c.owners[k], c.positions[k])
            &&& forall|p: Place, a: int, b: int|
                cache(p) && !(cache_of(p, layer as usize, paged) && is_row(c, a, b))
                    ==> #[trigger] after(p, a, b) == m(p, a, b)
            &&& forall|p: Place, a: int, b: int|
                !cache(p) && !(p is Prefill && 0 <= a < t && b == 0) ==> #[trigger] after(p, a, b) == m(p, a, b)
        }),
{
    let l = layer as usize;
    let paged = mode.packed || mode.paged;
    let x = Place::Prefill { buf: Buf::X };
    let kv = Place::Prefill { buf: Buf::Kv };
    let current = mode.current();
    let keys = Place::Keys { layer: l, paged };
    let values = Place::Values { layer: l, paged };
    let base = s.layer_base(false, layer) as usize;
    let routing = mode.routing(base);
    let kernel = mode.attention(base);
    let ops = launch::prefill_layer(s, t, mode, l);
    lemma_base(s, false, layer);
    let m1 = does(s, c, ops[0], m);
    let m2 = does(s, c, ops[1], m1);
    let m3 = does(s, c, ops[2], m2);
    let m4 = does(s, c, ops[3], m3);
    let m5 = does(s, c, ops[4], m4);
    let m6 = does(s, c, ops[5], m5);
    let m7 = does(s, c, ops[6], m6);
    let m8 = does(s, c, ops[7], m7);
    let m9 = does(s, c, ops[8], m8);
    assert(ran(s, c, ops, 0, m) == m);
    assert(ran(s, c, ops, 1, m) == m1);
    assert(ran(s, c, ops, 2, m) == m2);
    assert(ran(s, c, ops, 3, m) == m3);
    assert(ran(s, c, ops, 4, m) == m4);
    assert(ran(s, c, ops, 5, m) == m5);
    assert(ran(s, c, ops, 6, m) == m6);
    assert(ran(s, c, ops, 7, m) == m7);
    assert(ran(s, c, ops, 8, m) == m8);
    assert(ran(s, c, ops, 9, m) == m9);
    let m17 = run(s, c, ops, m);
    lemma_prefill_mlp(s, t, mode, l, c, m);
    assert(routes(s, routing, keys) && routes(s, routing, values));
    assert forall|i: int| 0 <= i < t implies #[trigger] lands(c, routing, i) == (
        c.owners[i],
        c.positions[i],
    ) by {
        if !mode.packed {
            assert(c.positions[i] == c.start + i);
        }
    }
    lemma_store(s, c, texts, m3, current, keys, routing, t);
    lemma_store(s, c, texts, m5, kv, values, routing, t);
    assert forall|k: int| 0 <= k < t implies #[trigger] m3(current, k, 0) == equations::key_of(
        s,
        device(),
        l,
        hidden(s, device(), texts(c.owners[k]), c.positions[k], layer),
        c.positions[k],
    ) by {
        assert(m(x, k, 0) == hidden(s, device(), texts(c.owners[k]), c.positions[k], layer));
        if !mode.packed {
            assert(c.positions[k] == c.start + k);
        }
    }
    assert forall|k: int| 0 <= k < t implies holds(
        s,
        m8,
        texts,
        paged,
        layer,
        #[trigger] c.owners[k],
        c.positions[k],
    ) by {
        assert(m(x, k, 0) == hidden(s, device(), texts(c.owners[k]), c.positions[k], layer));
        assert(m8(keys, c.owners[k], c.positions[k]) == m3(current, k, 0));
        assert(m8(values, c.owners[k], c.positions[k]) == m5(kv, k, 0));
    }
    if c.hybrid && kernel is Tiled {
        assert forall|k: int| 0 <= k < t implies #[trigger] m8(Place::Prefill { buf: Buf::CurrentK }, k, 0)
            == equations::key_of(
            s,
            device(),
            l,
            hidden(s, device(), texts(c.owners[k]), c.positions[k], layer),
            c.positions[k],
        ) by {
            assert(m8(Place::Prefill { buf: Buf::CurrentK }, k, 0) == m3(current, k, 0));
        }
    }
    assert forall|i: int| 0 <= i < t implies #[trigger] m17(x, i, 0) == hidden(
        s,
        device(),
        texts(c.owners[i]),
        c.positions[i],
        layer + 1,
    ) by {
        let known = hidden(s, device(), texts(c.owners[i]), c.positions[i], layer);
        assert(m(x, i, 0) == known);
        if !mode.packed {
            assert(c.positions[i] == c.start + i);
        }
        assert(sees(c, kernel, i) == (c.owners[i], c.positions[i] + 1));
        lemma_attention(s, c, texts, m, m8, kernel, paged, layer, i);
        assert(m8(Place::Prefill { buf: Buf::Q }, i, 0) == equations::query_of(
            s,
            device(),
            l,
            known,
            c.positions[i],
        ));
        assert(m9(x, i, 0) == known);
        assert(m17(x, i, 0) == after_attention(s, l, known, m9(Place::Prefill { buf: Buf::Attn }, i, 0)));
    }
}

proof fn lemma_prefill_layers(
    s: Shape,
    t: usize,
    mode: PrefillMode,
    count: nat,
    c: Call,
    texts: spec_fn(int) -> Seq<int>,
    m: Memory,
)
    requires
        s.wf(),
        s.holds(t as int),
        s.hidden > 0,
        s.n_embd > 0,
        count <= s.n_layer,
        c.of(texts),
        c.rows() == t,
        suits(c, mode),
        stream(s, c, m, texts, Place::Prefill { buf: Buf::X }, 0),
        past(s, c, m, texts, mode.packed || mode.paged),
    ensures
        ({
            let paged = mode.packed || mode.paged;
            let after = run(s, c, launch::prefill_layers(s, t, mode, count), m);
            &&& stream(s, c, after, texts, Place::Prefill { buf: Buf::X }, count)
            &&& cached(s, c, after, texts, paged, count)
            &&& kept(c, m, after, paged, count)
            &&& forall|p: Place, a: int, b: int|
                !cache(p) && !(p is Prefill && 0 <= a < t && b == 0) ==> #[trigger] after(p, a, b) == m(p, a, b)
        }),
    decreases count,
{
    if count > 0 {
        let paged = mode.packed || mode.paged;
        let below = (count - 1) as nat;
        let ops = launch::prefill_layers(s, t, mode, below);
        let more = launch::prefill_layer(s, t, mode, below as usize);
        let mid = run(s, c, ops, m);
        let after = run(s, c, more, mid);
        lemma_prefill_layers(s, t, mode, below, c, texts, m);
        lemma_run_join(s, c, ops, more, m);
        lemma_past(s, c, texts, m, mid, paged, below);
        lemma_prefill_layer(s, t, mode, below, c, texts, mid);
        lemma_layer_added(s, c, texts, m, mid, after, paged, below);
    }
}

/// The transformer over the rows of a prompt, or of several in one packed call,
/// computes the equations: each row's residual stream is that of its own request's
/// text at its own position. Its keys and values are added to its own request's
/// cache, and no other cell of any cache changes.
pub proof fn law_prompt_rows_compute_the_transformer(
    s: Shape,
    t: usize,
    mode: PrefillMode,
    c: Call,
    texts: spec_fn(int) -> Seq<int>,
    m: Memory,
)
    requires
        s.wf(),
        s.holds(t as int),
        s.hidden > 0,
        s.n_embd > 0,
        c.of(texts),
        c.rows() == t,
        suits(c, mode),
        past(s, c, m, texts, mode.packed || mode.paged),
    ensures
        ({
            let paged = mode.packed || mode.paged;
            let after = run(s, c, launch::transformer(s, t, mode), m);
            &&& stream(s, c, after, texts, Place::Prefill { buf: Buf::X }, s.n_layer as nat)
            &&& cached(s, c, after, texts, paged, s.n_layer as nat)
            &&& kept(c, m, after, paged, s.n_layer as nat)
            &&& forall|p: Place, a: int, b: int|
                !cache(p) && !(p is Prefill && 0 <= a < t && b == 0) ==> #[trigger] after(p, a, b) == m(p, a, b)
        }),
{
    let paged = mode.packed || mode.paged;
    let x = Place::Prefill { buf: Buf::X };
    let embed = seq![Op::Embed { dst: x, rows: t }];
    let layers = launch::prefill_layers(s, t, mode, s.n_layer as nat);
    let m1 = run(s, c, embed, m);
    assert(ran(s, c, embed, 0, m) == m);
    assert(m1 == does(s, c, embed[0], m));
    lemma_run_join(s, c, embed, layers, m);
    lemma_embedded(s, c, texts, m, m1, x, paged);
    lemma_prefill_layers(s, t, mode, s.n_layer as nat, c, texts, m1);
}

/// What the embedding leaves.
proof fn lemma_embedded(
    s: Shape,
    c: Call,
    texts: spec_fn(int) -> Seq<int>,
    m: Memory,
    after: Memory,
    x: Place,
    paged: bool,
)
    requires
        c.of(texts),
        !cache(x),
        c.rows() <= usize::MAX,
        after == does(s, c, Op::Embed { dst: x, rows: c.rows() as usize }, m),
        past(s, c, m, texts, paged),
    ensures
        stream(s, c, after, texts, x, 0),
        past(s, c, after, texts, paged),
        forall|p: Place, a: int, b: int|
            !(p == x && 0 <= a < c.rows() && b == 0) ==> #[trigger] after(p, a, b) == m(p, a, b),
{
    assert forall|layer: nat| layer < s.n_layer implies #[trigger] history(s, c, after, texts, paged, layer) by {
        assert(kept(c, m, after, paged, layer));
        lemma_past(s, c, texts, m, after, paged, layer);
    }
    assert forall|i: int| 0 <= i < c.rows() implies #[trigger] after(x, i, 0) == hidden(
        s,
        device(),
        texts(c.owners[i]),
        c.positions[i],
        0,
    ) by {
        assert(c.tokens[i] == texts(c.owners[i])[c.positions[i]]);
    }
}

/// Whether caches hold what they held.
proof fn lemma_cached_stays(
    s: Shape,
    c: Call,
    texts: spec_fn(int) -> Seq<int>,
    m: Memory,
    after: Memory,
    paged: bool,
)
    requires
        cached(s, c, m, texts, paged, s.n_layer as nat),
        forall|p: Place, a: int, b: int| cache(p) ==> #[trigger] after(p, a, b) == m(p, a, b),
    ensures
        cached(s, c, after, texts, paged, s.n_layer as nat),
{
    assert forall|layer: nat, k: int| layer < s.n_layer && 0 <= k < c.rows() implies #[trigger] holds(
        s,
        after,
        texts,
        paged,
        layer,
        c.owners[k],
        c.positions[k],
    ) by {
        assert(holds(s, m, texts, paged, layer, c.owners[k], c.positions[k]));
    }
}

/// A chunk of a prompt gives the logits of its last position where logits are
/// wanted, and in either case caches its keys and values and nothing else.
pub proof fn law_prefill_gives_the_last_position(
    s: Shape,
    t: usize,
    mode: PrefillMode,
    want_logits: bool,
    c: Call,
    texts: spec_fn(int) -> Seq<int>,
    m: Memory,
)
    requires
        s.wf(),
        s.holds(t as int),
        s.hidden > 0,
        s.n_embd > 0,
        t > 0,
        c.of(texts),
        c.rows() == t,
        c.chunk(),
        !mode.packed,
        suits(c, mode),
        past(s, c, m, texts, mode.paged),
    ensures
        ({
            let after = run(s, c, launch::prefill(s, t, mode, want_logits), m);
            let logits = Place::Single { buf: Buf::Logits };
            &&& want_logits ==> after(logits, 0, 0) == equations::logits(
                s,
                device(),
                texts(c.owners[0]),
                c.start + t - 1,
            )
            &&& !want_logits ==> after(logits, 0, 0) == m(logits, 0, 0)
            &&& cached(s, c, after, texts, mode.paged, s.n_layer as nat)
            &&& kept(c, m, after, mode.paged, s.n_layer as nat)
        }),
{
    law_prompt_rows_compute_the_transformer(s, t, mode, c, texts, m);
    if want_logits {
        let body = launch::transformer(s, t, mode);
        let tail = launch::last_logits(s, t);
        let m0 = run(s, c, body, m);
        lemma_run_join(s, c, body, tail, m);
        let m1 = does(s, c, tail[0], m0);
        let m2 = does(s, c, tail[1], m1);
        let m3 = does(s, c, tail[2], m2);
        assert(ran(s, c, tail, 0, m0) == m0);
        assert(ran(s, c, tail, 1, m0) == m1);
        assert(ran(s, c, tail, 2, m0) == m2);
        assert(ran(s, c, tail, 3, m0) == m3);
        assert(c.positions[t - 1] == c.start + t - 1);
        assert(m0(Place::Prefill { buf: Buf::X }, t - 1, 0) == hidden(
            s,
            device(),
            texts(c.owners[t - 1]),
            c.positions[t - 1],
            s.n_layer as nat,
        ));
        lemma_cached_stays(s, c, texts, m0, m3, mode.paged);
    }
}

/// A packed call gives, for each prompt that it finishes, the logits and the
/// greatest logit of that prompt's own last row.
pub proof fn law_packed_prefill_gives_the_final_rows(
    s: Shape,
    rows: usize,
    mode: PrefillMode,
    finals: usize,
    topk: bool,
    c: Call,
    texts: spec_fn(int) -> Seq<int>,
    m: Memory,
)
    requires
        s.wf(),
        s.holds(rows as int),
        s.hidden > 0,
        s.n_embd > 0,
        c.of(texts),
        c.rows() == rows,
        c.finals.len() == finals,
        forall|i: int| 0 <= i < finals ==> 0 <= #[trigger] c.finals[i] < rows,
        mode.packed,
        suits(c, mode),
        past(s, c, m, texts, true),
    ensures
        ({
            let after = run(s, c, launch::packed_prefill(s, rows, mode, finals, topk), m);
            &&& forall|i: int|
                0 <= i < finals ==> {
                    let row = #[trigger] c.finals[i];
                    let logits = equations::logits(s, device(), texts(c.owners[row]), c.positions[row]);
                    &&& after(Place::Batch { buf: Buf::Logits }, i, 0) == logits
                    &&& after(Place::Batch { buf: Buf::Ids }, i, 0) == greatest(logits)
                    &&& topk ==> after(Place::Batch { buf: Buf::Candidates }, i, 0) == candidates(logits)
                }
            &&& cached(s, c, after, texts, true, s.n_layer as nat)
            &&& kept(c, m, after, true, s.n_layer as nat)
        }),
{
    law_prompt_rows_compute_the_transformer(s, rows, mode, c, texts, m);
    if finals > 0 {
        let body = launch::transformer(s, rows, mode);
        let tail = launch::final_rows(s, finals, topk);
        let m0 = run(s, c, body, m);
        lemma_run_join(s, c, body, tail, m);
        let m1 = does(s, c, tail[0], m0);
        let m2 = does(s, c, tail[1], m1);
        let m3 = does(s, c, tail[2], m2);
        let m4 = does(s, c, tail[3], m3);
        assert(ran(s, c, tail, 0, m0) == m0);
        assert(ran(s, c, tail, 1, m0) == m1);
        assert(ran(s, c, tail, 2, m0) == m2);
        assert(ran(s, c, tail, 3, m0) == m3);
        assert(ran(s, c, tail, 4, m0) == m4);
        let after = run(s, c, tail, m0);
        if topk {
            assert(tail.len() == 5);
            assert(after == does(s, c, tail[4], m4));
        } else {
            assert(tail.len() == 4);
        }
        assert(forall|p: Place, a: int, b: int| cache(p) ==> #[trigger] after(p, a, b) == m0(p, a, b));
        assert forall|i: int| 0 <= i < finals implies {
            let row = #[trigger] c.finals[i];
            let logits = equations::logits(s, device(), texts(c.owners[row]), c.positions[row]);
            &&& after(Place::Batch { buf: Buf::Logits }, i, 0) == logits
            &&& after(Place::Batch { buf: Buf::Ids }, i, 0) == greatest(logits)
            &&& topk ==> after(Place::Batch { buf: Buf::Candidates }, i, 0) == candidates(logits)
        } by {
            let row = c.finals[i];
            assert(m0(Place::Prefill { buf: Buf::X }, row, 0) == hidden(
                s,
                device(),
                texts(c.owners[row]),
                c.positions[row],
                s.n_layer as nat,
            ));
        }
        lemma_cached_stays(s, c, texts, m0, after, true);
    }
}

/// The first token of a single prompt is chosen from the logits that its pass
/// left.
pub proof fn law_single_selection_reads_the_prompt(s: Shape, c: Call, topk: bool, m: Memory)
    ensures
        ({
            let after = run(s, c, launch::single_selection(topk), m);
            let logits = m(Place::Single { buf: Buf::Logits }, 0, 0);
            &&& after(Place::Batch { buf: Buf::Logits }, 0, 0) == logits
            &&& after(Place::Batch { buf: Buf::Ids }, 0, 0) == greatest(logits)
            &&& topk ==> after(Place::Batch { buf: Buf::Candidates }, 0, 0) == candidates(logits)
            &&& forall|p: Place, a: int, b: int|
                !(p is Batch && a == 0 && b == 0) ==> #[trigger] after(p, a, b) == m(p, a, b)
        }),
{
    let ops = launch::single_selection(topk);
    let m1 = does(s, c, ops[0], m);
    let m2 = does(s, c, ops[1], m1);
    assert(ran(s, c, ops, 0, m) == m);
    assert(ran(s, c, ops, 1, m) == m1);
    assert(ran(s, c, ops, 2, m) == m2);
    if topk {
        assert(run(s, c, ops, m) == does(s, c, ops[2], m2));
    }
}

// ---------------------------------------------------------------------------
// A single token.

/// A projection added to the residual stream adds it, by either kernel.
proof fn lemma_fold(s: Shape, c: Call, weight: Weight, src: Buf, mid: Buf, cols: usize, m: Memory)
    requires
        s.n_embd > 0,
        src != Buf::X,
        mid != Buf::X,
        mid != src,
        mid != Buf::Logits,
    ensures
        ({
            let from = Place::Single { buf: src };
            let x = Place::Single { buf: Buf::X };
            let after = run(s, c, launch::fold(s, weight, from, mid, cols), m);
            &&& after(x, 0, 0) == equations::sum(
                m(x, 0, 0),
                equations::product(weight, s.n_embd as int, cols as int, m(from, 0, 0)),
            )
            &&& forall|p: Place, a: int, b: int|
                !(p is Single && a == 0 && b == 0) ==> #[trigger] after(p, a, b) == m(p, a, b)
        }),
{
    let ops = launch::fold(s, weight, Place::Single { buf: src }, mid, cols);
    let m1 = does(s, c, ops[0], m);
    assert(ran(s, c, ops, 0, m) == m);
    assert(ran(s, c, ops, 1, m) == m1);
    if s.precision != Precision::Int8 {
        let m2 = does(s, c, ops[1], m1);
        assert(run(s, c, ops, m) == m2);
        assert forall|a: int| 0 <= a implies (#[trigger] covers(s.n_embd, s.n_embd, a) <==> a < 1) by {
            lemma_covers(1, s.n_embd, s.n_embd, a);
        }
    }
}

proof fn lemma_token_attend(
    s: Shape,
    paged: bool,
    split: bool,
    layer: nat,
    c: Call,
    texts: spec_fn(int) -> Seq<int>,
    m: Memory,
)
    requires
        s.wf(),
        layer < s.n_layer,
        c.of(texts),
        c.causal(),
        c.rows() == 1,
        stream(s, c, m, texts, Place::Single { buf: Buf::X }, layer),
        history(s, c, m, texts, paged, layer),
    ensures
        ({
            let l = layer as usize;
            let x = Place::Single { buf: Buf::X };
            let (owner, pos) = (c.owners[0], c.positions[0]);
            let after = run(s, c, launch::token_attend(s, paged, split, l), m);
            &&& after(x, 0, 0) == m(x, 0, 0)
            &&& after(Place::Single { buf: Buf::Attn }, 0, 0) == equations::attended(
                equations::query_of(s, device(), l, m(x, 0, 0), pos),
                equations::keys(s, device(), texts(owner), pos + 1, layer),
                equations::values(s, device(), texts(owner), pos + 1, layer),
            )
            &&& holds(s, after, texts, paged, layer, owner, pos)
            &&& forall|p: Place, a: int, b: int|
                cache(p) && !(cache_of(p, l, paged) && is_row(c, a, b)) ==> #[trigger] after(p, a, b) == m(p, a, b)
            &&& forall|p: Place, a: int, b: int|
                !cache(p) && !(p is Single && a == 0 && b == 0) ==> #[trigger] after(p, a, b) == m(p, a, b)
        }),
{
    let l = layer as usize;
    let x = Place::Single { buf: Buf::X };
    let attn = Place::Single { buf: Buf::Attn };
    let q = Place::Single { buf: Buf::Q };
    let keys = Place::Keys { layer: l, paged };
    let values = Place::Values { layer: l, paged };
    let base = s.layer_base(paged, layer) as usize;
    let kernel = launch::token_attention(paged, split, base);
    let (owner, pos) = (c.owners[0], c.positions[0]);
    let text = texts(owner);
    let known = hidden(s, device(), text, pos, layer);
    lemma_base(s, paged, layer);
    assert(m(x, 0, 0) == known);
    assert(c.seen[0] == pos + 1);
    let a = launch::token_attend(s, paged, split, l);
    let m1 = does(s, c, a[0], m);
    let m2 = does(s, c, a[1], m1);
    let m3 = does(s, c, a[2], m2);
    let m4 = does(s, c, a[3], m3);
    let m5 = does(s, c, a[4], m4);
    let m6 = does(s, c, a[5], m5);
    let m7 = does(s, c, a[6], m6);
    assert(ran(s, c, a, 0, m) == m);
    assert(ran(s, c, a, 1, m) == m1);
    assert(ran(s, c, a, 2, m) == m2);
    assert(ran(s, c, a, 3, m) == m3);
    assert(ran(s, c, a, 4, m) == m4);
    assert(ran(s, c, a, 5, m) == m5);
    assert(ran(s, c, a, 6, m) == m6);
    assert(ran(s, c, a, 7, m) == m7);
    assert(run(s, c, a, m) == m7);
    assert(row_at(c, 0, owner, pos));
    assert(m6(keys, owner, pos) == equations::key_of(s, device(), l, known, pos));
    assert(m6(values, owner, pos) == equations::value_of(s, device(), l, known));
    assert(m6(q, 0, 0) == equations::query_of(s, device(), l, known, pos));
    lemma_attention(s, c, texts, m, m6, kernel, paged, layer, 0);
    assert(sees(c, kernel, 0) == (owner, pos + 1));
}

proof fn lemma_token_layer(
    s: Shape,
    paged: bool,
    split: bool,
    layer: nat,
    c: Call,
    texts: spec_fn(int) -> Seq<int>,
    m: Memory,
)
    requires
        s.wf(),
        s.n_embd > 0,
        layer < s.n_layer,
        c.of(texts),
        c.causal(),
        c.rows() == 1,
        stream(s, c, m, texts, Place::Single { buf: Buf::X }, layer),
        history(s, c, m, texts, paged, layer),
    ensures
        ({
            let after = run(s, c, launch::token_layer(s, paged, split, layer as usize), m);
            &&& stream(s, c, after, texts, Place::Single { buf: Buf::X }, layer + 1)
            &&& forall|k: int|
                0 <= k < 1 ==> holds(s, after, texts, paged, layer, #[trigger] c.owners[k], c.positions[k])
            &&& forall|p: Place, a: int, b: int|
                cache(p) && !(cache_of(p, layer as usize, paged) && is_row(c, a, b))
                    ==> #[trigger] after(p, a, b) == m(p, a, b)
            &&& forall|p: Place, a: int, b: int|
                !cache(p) && !(p is Single && a == 0 && b == 0) ==> #[trigger] after(p, a, b) == m(p, a, b)
        }),
{
    let l = layer as usize;
    let x = Place::Single { buf: Buf::X };
    let attn = Place::Single { buf: Buf::Attn };
    let gate = Place::Single { buf: Buf::Gate };
    let (owner, pos) = (c.owners[0], c.positions[0]);
    let text = texts(owner);
    let known = hidden(s, device(), text, pos, layer);
    assert(m(x, 0, 0) == known);
    let a = launch::token_attend(s, paged, split, l);
    let b = launch::fold(s, Weight::Output { layer: l }, attn, Buf::Proj, s.n_embd);
    let d = launch::token_mlp(l);
    let e = launch::fold(s, Weight::Down { layer: l }, gate, Buf::MlpOut, s.hidden);
    let m7 = run(s, c, a, m);
    lemma_token_attend(s, paged, split, layer, c, texts, m);
    let m8 = run(s, c, b, m7);
    lemma_run_join(s, c, a, b, m);
    lemma_fold(s, c, Weight::Output { layer: l }, Buf::Attn, Buf::Proj, s.n_embd, m7);
    let m9 = does(s, c, d[0], m8);
    let m10 = does(s, c, d[1], m9);
    assert(ran(s, c, d, 0, m8) == m8);
    assert(ran(s, c, d, 1, m8) == m9);
    assert(run(s, c, d, m8) == m10);
    lemma_run_join(s, c, a + b, d, m);
    let m11 = run(s, c, e, m10);
    lemma_run_join(s, c, a + b + d, e, m);
    lemma_fold(s, c, Weight::Down { layer: l }, Buf::Gate, Buf::MlpOut, s.hidden, m10);
    assert(run(s, c, launch::token_layer(s, paged, split, l), m) == m11);
    assert(m11(x, 0, 0) == after_attention(s, l, known, m7(attn, 0, 0)));
    assert(m11(x, 0, 0) == hidden(s, device(), text, pos, layer + 1));
}

proof fn lemma_token_layers(
    s: Shape,
    paged: bool,
    split: bool,
    count: nat,
    c: Call,
    texts: spec_fn(int) -> Seq<int>,
    m: Memory,
)
    requires
        s.wf(),
        s.n_embd > 0,
        count <= s.n_layer,
        c.of(texts),
        c.causal(),
        c.rows() == 1,
        stream(s, c, m, texts, Place::Single { buf: Buf::X }, 0),
        past(s, c, m, texts, paged),
    ensures
        ({
            let after = run(s, c, launch::token_layers(s, paged, split, count), m);
            &&& stream(s, c, after, texts, Place::Single { buf: Buf::X }, count)
            &&& cached(s, c, after, texts, paged, count)
            &&& kept(c, m, after, paged, count)
            &&& forall|p: Place, a: int, b: int|
                !cache(p) && !(p is Single && a == 0 && b == 0) ==> #[trigger] after(p, a, b) == m(p, a, b)
        }),
    decreases count,
{
    if count > 0 {
        let below = (count - 1) as nat;
        let ops = launch::token_layers(s, paged, split, below);
        let more = launch::token_layer(s, paged, split, below as usize);
        let mid = run(s, c, ops, m);
        let after = run(s, c, more, mid);
        lemma_token_layers(s, paged, split, below, c, texts, m);
        lemma_run_join(s, c, ops, more, m);
        lemma_past(s, c, texts, m, mid, paged, below);
        lemma_token_layer(s, paged, split, below, c, texts, mid);
        lemma_layer_added(s, c, texts, m, mid, after, paged, below);
    }
}

/// A single token computes the transformer, in pages or in the contiguous cache,
/// with one attention kernel or two: its logits are those of its text at its
/// position, its keys and values are added to the cache, and no other cell of any
/// cache changes.
pub proof fn law_token_computes_the_transformer(
    s: Shape,
    paged: bool,
    split: bool,
    c: Call,
    texts: spec_fn(int) -> Seq<int>,
    m: Memory,
)
    requires
        s.wf(),
        s.n_embd > 0,
        c.of(texts),
        c.causal(),
        c.rows() == 1,
        past(s, c, m, texts, paged),
    ensures
        ({
            let after = run(s, c, launch::token(s, paged, split), m);
            &&& after(Place::Single { buf: Buf::Logits }, 0, 0) == equations::logits(
                s,
                device(),
                texts(c.owners[0]),
                c.positions[0],
            )
            &&& cached(s, c, after, texts, paged, s.n_layer as nat)
            &&& kept(c, m, after, paged, s.n_layer as nat)
            &&& forall|p: Place, a: int, b: int|
                !cache(p) && !(p is Single && a == 0 && b == 0) ==> #[trigger] after(p, a, b) == m(p, a, b)
        }),
{
    let x = Place::Single { buf: Buf::X };
    let embed = seq![Op::Embed { dst: x, rows: 1 }];
    let layers = launch::token_layers(s, paged, split, s.n_layer as nat);
    let tail = launch::token_head(s);
    let m1 = run(s, c, embed, m);
    assert(ran(s, c, embed, 0, m) == m);
    assert(m1 == does(s, c, embed[0], m));
    let m2 = run(s, c, layers, m1);
    lemma_run_join(s, c, embed, layers, m);
    lemma_run_join(s, c, embed + layers, tail, m);
    lemma_embedded(s, c, texts, m, m1, x, paged);
    lemma_token_layers(s, paged, split, s.n_layer as nat, c, texts, m1);
    let m3 = does(s, c, tail[0], m2);
    let m4 = does(s, c, tail[1], m3);
    assert(ran(s, c, tail, 0, m2) == m2);
    assert(ran(s, c, tail, 1, m2) == m3);
    assert(run(s, c, tail, m2) == m4);
    assert(m2(x, 0, 0) == hidden(s, device(), texts(c.owners[0]), c.positions[0], s.n_layer as nat));
    lemma_cached_stays(s, c, texts, m2, m4, paged);
}

// ---------------------------------------------------------------------------
// The paths agree.

/// A prompt's chunk and a decode step give the same logits of the same position of
/// the same text, whatever else is in flight.
pub proof fn law_prefill_agrees_with_decode(
    s: Shape,
    t: usize,
    mode: PrefillMode,
    chunk: Call,
    before: Memory,
    n: usize,
    topk: bool,
    force: bool,
    batch: Call,
    row: int,
    other: Memory,
    texts: spec_fn(int) -> Seq<int>,
)
    requires
        s.wf(),
        s.holds(t as int),
        s.holds(n as int),
        s.hidden > 0,
        s.n_embd > 0,
        t > 0,
        chunk.of(texts),
        chunk.rows() == t,
        chunk.chunk(),
        !mode.packed,
        suits(chunk, mode),
        past(s, chunk, before, texts, mode.paged),
        batch.of(texts),
        batch.causal(),
        batch.rows() == n,
        past(s, batch, other, texts, true),
        0 <= row < n,
        texts(batch.owners[row]) == texts(chunk.owners[0]),
        batch.positions[row] == chunk.start + t - 1,
    ensures
        run(s, chunk, launch::prefill(s, t, mode, true), before)(Place::Single { buf: Buf::Logits }, 0, 0)
            == run(s, batch, launch::decode_batch(s, n, topk, force), other)(
            Place::Batch { buf: Buf::Logits },
            row,
            0,
        ),
{
    law_prefill_gives_the_last_position(s, t, mode, true, chunk, texts, before);
    law_decode_computes_the_transformer(s, n, topk, force, batch, texts, other);
    assert(batch.owners[row] == batch.owners[row]);
}

} // verus!
