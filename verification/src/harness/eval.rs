//! Held-out evaluation and the plain generation loop.
use crate::math;
use crate::math::min;
use vstd::prelude::*;

verus! {

/// The tokens of a flat little-endian stream of 16-bit ids. A last odd byte is
/// left over.
pub open spec fn stream_tokens(raw: Seq<u8>) -> Seq<usize> {
    Seq::new(
        raw.len() / 2,
        |i: int| (raw[2 * i] as int + 256 * (raw[2 * i + 1] as int)) as usize,
    )
}

/// The tokens of a flat little-endian stream of 16-bit ids.
pub fn decode_stream(raw: &[u8]) -> (tokens: Vec<usize>)
    ensures
        tokens@ == stream_tokens(raw@),
{
    let n: usize = raw.len() / 2;
    let mut tokens: Vec<usize> = Vec::new();
    while tokens.len() < n
        invariant
            n == raw@.len() / 2,
            raw@.len() <= usize::MAX,
            tokens@.len() <= n,
            tokens@ == stream_tokens(raw@).take(tokens@.len() as int),
        decreases n - tokens@.len(),
    {
        let i: usize = tokens.len();
        let low: usize = raw[2 * i] as usize;
        let high: usize = raw[2 * i + 1] as usize;
        tokens.push(low + 256 * high);
        assert(tokens@ =~= stream_tokens(raw@).take(tokens@.len() as int));
    }
    assert(tokens@ =~= stream_tokens(raw@));
    tokens
}

/// How many positions are scored. Each needs a token after it; without a
/// prefilled context they all share one cache, which the context bounds.
pub open spec fn limit_of(tokens: nat, block_size: nat, held: nat, prefill_ctx: nat) -> nat {
    let rest = if held == 0 {
        0
    } else {
        (held - 1) as nat
    };
    if prefill_ctx > 0 {
        math::least(tokens, rest)
    } else {
        math::least(math::least(tokens, block_size), rest)
    }
}

/// How many positions are scored.
pub fn eval_limit(tokens: usize, block_size: usize, held: usize, prefill_ctx: usize) -> (n: usize)
    requires
        held > 0,
    ensures
        n == limit_of(tokens as nat, block_size as nat, held as nat, prefill_ctx as nat),
        n < held,
{
    if prefill_ctx > 0 {
        min(tokens, held - 1)
    } else {
        min(min(tokens, block_size), held - 1)
    }
}

/// How many tokens are prefilled before a scored position.
pub fn context_of(prefill_ctx: usize, block_size: usize) -> (ctx: usize)
    requires
        block_size > 0,
    ensures
        ctx == math::least(prefill_ctx as nat, (block_size - 1) as nat),
{
    min(prefill_ctx, block_size - 1)
}

/// The positions that are scored after a fresh prefill of the `ctx` tokens
/// before each: every `ctx`-th below the limit.
pub open spec fn is_scored(ctx: nat, limit: nat, p: int) -> bool {
    &&& 0 < p < limit
    &&& p % (ctx as int) == 0
}

/// The positions that are scored after a fresh prefill of the `ctx` tokens
/// before each, in order.
pub fn scored_positions(ctx: usize, limit: usize) -> (v: Vec<usize>)
    requires
        ctx > 0,
        limit + ctx <= usize::MAX,
    ensures
        forall|i: int| 0 <= i < v@.len() ==> #[trigger] v@[i] == (i + 1) * ctx,
        forall|i: int| 0 <= i < v@.len() ==> is_scored(ctx as nat, limit as nat, #[trigger] v@[i] as int),
        (v@.len() + 1) * ctx >= limit,
{
    let mut v: Vec<usize> = Vec::new();
    let mut p: usize = ctx;
    assert(1 * ctx == ctx);
    while p < limit
        invariant
            ctx > 0,
            limit + ctx <= usize::MAX,
            p == (v@.len() + 1) * ctx,
            forall|i: int| 0 <= i < v@.len() ==> #[trigger] v@[i] == (i + 1) * ctx,
            forall|i: int| 0 <= i < v@.len() ==> (#[trigger] v@[i]) < limit,
        decreases limit + ctx - p,
    {
        v.push(p);
        p += ctx;
        assert((v@.len() + 1) * ctx == v@.len() * ctx + ctx) by (nonlinear_arith);
    }
    assert forall|i: int| 0 <= i < v@.len() implies is_scored(
        ctx as nat,
        limit as nat,
        #[trigger] v@[i] as int,
    ) by {
        let c = ctx as int;
        assert((i + 1) * c > 0) by (nonlinear_arith)
            requires
                i >= 0,
                c > 0,
        ;
        vstd::arithmetic::div_mod::lemma_mod_multiples_basic(i + 1, c);
    }
    v
}

/// Law: windows are disjoint, so no position is read or scored twice: the tokens
/// before one scored position end where those before the next begin.
pub proof fn law_windows_are_disjoint(ctx: nat, limit: nat, p: int, q: int)
    requires
        ctx > 0,
        is_scored(ctx, limit, p),
        is_scored(ctx, limit, q),
        p < q,
    ensures
        p - ctx >= 0,
        p <= q - ctx,
{
    let c = ctx as int;
    vstd::arithmetic::div_mod::lemma_fundamental_div_mod(p, c);
    vstd::arithmetic::div_mod::lemma_fundamental_div_mod(q, c);
    let a = p / c;
    let b = q / c;
    assert(a >= 1 && b >= a + 1) by (nonlinear_arith)
        requires
            c > 0,
            p == c * a,
            q == c * b,
            0 < p < q,
    ;
    assert(c * b >= c * a + c) by (nonlinear_arith)
        requires
            c > 0,
            b >= a + 1,
    ;
    assert(c * a >= c) by (nonlinear_arith)
        requires
            c > 0,
            a >= 1,
    ;
}

/// Law: every position that a window can end before is scored.
pub proof fn law_no_window_is_skipped(ctx: nat, limit: nat, positions: Seq<usize>, p: int)
    requires
        ctx > 0,
        forall|i: int| 0 <= i < positions.len() ==> #[trigger] positions[i] == (i + 1) * ctx,
        (positions.len() + 1) * ctx >= limit,
        is_scored(ctx, limit, p),
    ensures
        positions.contains(p as usize),
{
    let c = ctx as int;
    vstd::arithmetic::div_mod::lemma_fundamental_div_mod(p, c);
    let k = p / c;
    assert(k >= 1) by (nonlinear_arith)
        requires
            c > 0,
            p == c * k,
            p > 0,
    ;
    let n = positions.len() as int;
    assert(k < n + 1) by (nonlinear_arith)
        requires
            c > 0,
            p == c * k,
            p < limit,
            (n + 1) * c >= limit,
    ;
    assert(positions[k - 1] == k * c);
    assert(k * c == c * k) by (nonlinear_arith);
}

/// Why generation goes on or stops.
#[derive(Debug, Clone, Copy, PartialEq, Eq, Structural)]
pub enum Next {
    /// The cache holds no further position.
    ContextFull,
    /// The model closed the text.
    EndOfText,
    /// Every token asked for is there.
    Done,
    /// Feed this token.
    Feed(u32),
}

/// What generation does once `made` tokens stand, before another is drawn.
pub fn may_draw(made: usize, max_tokens: usize, used: usize, block_size: usize) -> (stop: Option<Next>)
    ensures
        stop == if made >= max_tokens {
            Some(Next::Done)
        } else if used >= block_size {
            Some(Next::ContextFull)
        } else {
            None::<Next>
        },
{
    if made >= max_tokens {
        Some(Next::Done)
    } else if used >= block_size {
        Some(Next::ContextFull)
    } else {
        None
    }
}

/// What generation does with a token it drew.
pub fn after_draw(token: u32, end_of_text: u32) -> (next: Next)
    ensures
        next == if token == end_of_text {
            Next::EndOfText
        } else {
            Next::Feed(token)
        },
{
    if token == end_of_text {
        Next::EndOfText
    } else {
        Next::Feed(token)
    }
}

/// The product of a shape.
pub open spec fn volume(shape: Seq<usize>) -> nat
    decreases shape.len(),
{
    if shape.len() == 0 {
        1
    } else {
        volume(shape.drop_last()) * shape.last() as nat
    }
}

/// The values in all tensors of a checkpoint.
pub open spec fn values(shapes: Seq<Seq<usize>>) -> nat
    decreases shapes.len(),
{
    if shapes.len() == 0 {
        0
    } else {
        values(shapes.drop_last()) + volume(shapes.last())
    }
}

/// The shapes of the tensors of a checkpoint.
pub open spec fn shape_views(shapes: Seq<Vec<usize>>) -> Seq<Seq<usize>> {
    Seq::new(shapes.len(), |i: int| shapes[i]@)
}

fn volume_of(shape: &[usize]) -> (n: usize)
    requires
        forall|k: int| 0 <= k <= shape@.len() ==> volume(#[trigger] shape@.take(k)) <= usize::MAX,
    ensures
        n == volume(shape@),
{
    let mut n: usize = 1;
    let mut k: usize = 0;
    assert(shape@.take(0) =~= Seq::empty());
    while k < shape.len()
        invariant
            k <= shape@.len(),
            forall|k: int|
                0 <= k <= shape@.len() ==> volume(#[trigger] shape@.take(k)) <= usize::MAX,
            n == volume(shape@.take(k as int)),
        decreases shape@.len() - k,
    {
        proof {
            let next = shape@.take(k + 1);
            assert(next.drop_last() =~= shape@.take(k as int));
            assert(next.last() == shape@[k as int]);
            assert(volume(next) == volume(shape@.take(k as int)) * shape@[k as int] as nat);
        }
        n = n * shape[k];
        k += 1;
    }
    assert(shape@.take(k as int) =~= shape@);
    n
}

proof fn lemma_values_grow(shapes: Seq<Seq<usize>>, i: int)
    requires
        0 <= i <= shapes.len(),
    ensures
        values(shapes.take(i)) <= values(shapes),
    decreases shapes.len(),
{
    if i < shapes.len() {
        assert(shapes.drop_last().take(i) =~= shapes.take(i));
        lemma_values_grow(shapes.drop_last(), i);
    } else {
        assert(shapes.take(i) =~= shapes);
    }
}

/// The number of parameters of a checkpoint: the values in all its tensors.
pub fn parameter_count(shapes: &[Vec<usize>]) -> (n: usize)
    requires
        forall|i: int, k: int|
            0 <= i < shapes@.len() && 0 <= k <= shapes@[i]@.len() ==> volume(
                #[trigger] shapes@[i]@.take(k),
            ) <= usize::MAX,
        values(shape_views(shapes@)) <= usize::MAX,
    ensures
        n == values(shape_views(shapes@)),
{
    let ghost all = shape_views(shapes@);
    let mut n: usize = 0;
    let mut i: usize = 0;
    assert(all.take(0) =~= Seq::empty());
    while i < shapes.len()
        invariant
            i <= shapes@.len(),
            all == shape_views(shapes@),
            forall|i: int, k: int|
                0 <= i < shapes@.len() && 0 <= k <= shapes@[i]@.len() ==> volume(
                    #[trigger] shapes@[i]@.take(k),
                ) <= usize::MAX,
            values(all) <= usize::MAX,
            n == values(all.take(i as int)),
        decreases shapes@.len() - i,
    {
        let v: usize = volume_of(shapes[i].as_slice());
        proof {
            assert(all.take(i + 1).drop_last() =~= all.take(i as int));
            lemma_values_grow(all, i + 1);
        }
        n += v;
        i += 1;
    }
    assert(all.take(i as int) =~= all);
    n
}

/// A stream that holds tokens as pairs of bytes, the low byte first, is read as
/// those tokens, whether or not an odd byte follows.
pub proof fn law_streams_read_back(raw: Seq<u8>, tokens: Seq<u16>)
    requires
        raw.len() == 2 * tokens.len() || raw.len() == 2 * tokens.len() + 1,
        forall|i: int|
            0 <= i < tokens.len() ==> raw[2 * i] == #[trigger] tokens[i] % 256 && raw[2 * i + 1]
                == tokens[i] / 256,
    ensures
        stream_tokens(raw).len() == tokens.len(),
        forall|i: int| 0 <= i < tokens.len() ==> #[trigger] stream_tokens(raw)[i] == tokens[i],
{
    assert forall|i: int| 0 <= i < tokens.len() implies #[trigger] stream_tokens(raw)[i]
        == tokens[i] by {
        assert(raw[2 * i] == tokens[i] % 256 && raw[2 * i + 1] == tokens[i] / 256);
    }
}

/// As many positions are scored as were asked for, as long as each has a token
/// after it and, where they share one cache, fits the context; no fewer.
pub proof fn law_no_more_is_scored_than_can_be(
    tokens: nat,
    block_size: nat,
    held: nat,
    prefill_ctx: nat,
    n: nat,
)
    requires
        held > 0,
    ensures
        n <= limit_of(tokens, block_size, held, prefill_ctx) <==> n <= tokens && n < held && (
        prefill_ctx == 0 ==> n <= block_size),
{
}

/// A shape holds the product of its sides, whichever way it is parted.
pub proof fn law_shapes_multiply(a: Seq<usize>, b: Seq<usize>, side: usize)
    ensures
        volume(Seq::empty()) == 1,
        volume(seq![side]) == side,
        volume(a + b) == volume(a) * volume(b),
    decreases b.len(),
{
    assert(seq![side].drop_last() =~= Seq::empty());
    assert(volume(seq![side]) == volume(seq![side].drop_last()) * side);
    if b.len() == 0 {
        assert(a + b =~= a);
        assert(volume(b) == 1);
    } else {
        law_shapes_multiply(a, b.drop_last(), side);
        assert((a + b).drop_last() =~= a + b.drop_last());
        let x = volume(a);
        let y = volume(b.drop_last());
        let z = b.last() as nat;
        assert(volume(a + b) == (x * y) * z);
        assert((x * y) * z == x * (y * z)) by (nonlinear_arith);
    }
}

/// A checkpoint holds what its parts hold together.
pub proof fn law_checkpoints_add_up(a: Seq<Seq<usize>>, b: Seq<Seq<usize>>, shape: Seq<usize>)
    ensures
        values(Seq::empty()) == 0,
        values(seq![shape]) == volume(shape),
        values(a + b) == values(a) + values(b),
    decreases b.len(),
{
    assert(seq![shape].drop_last() =~= Seq::empty());
    assert(values(seq![shape]) == values(seq![shape].drop_last()) + volume(shape));
    if b.len() == 0 {
        assert(a + b =~= a);
    } else {
        law_checkpoints_add_up(a, b.drop_last(), shape);
        assert((a + b).drop_last() =~= a + b.drop_last());
    }
}

} // verus!
