//! What a pass reads and writes.
//!
//! Every list of launches reads only what an earlier launch of the same list
//! wrote, and adds to the residual stream without overwriting it.
use crate::launch;
use crate::launch::{Buf, Op, Place, PrefillMode, Shape, Weight};
use vstd::prelude::*;

verus! {

/// What an operation reads of the buffers that operations write.
pub open spec fn reads(op: Op, p: Place) -> bool {
    match op {
        Op::Embed { .. } => false,
        Op::Norm { src, .. } => p == src,
        Op::Project { src, dst, accumulate, .. } => p == src || (accumulate && p == dst),
        Op::Rope { place, .. } => p == place,
        Op::Store { src, .. } => p == src,
        Op::Attend { layer, paged, src, .. } => {
            ||| p == src
            ||| p == Place::Keys { layer, paged }
            ||| p == Place::Values { layer, paged }
        },
        Op::Add { src, dst, .. } => p == src || p == dst,
        Op::SwiGlu { gate, up, .. } => p == gate || p == up,
        Op::FusedMlp { src, .. } => p == src,
        Op::Gather { src, .. } => p == src,
        Op::CopyRow { src, .. } => p == src,
        Op::Argmax { src, .. } => p == src,
        Op::TopK { src, .. } => p == src,
    }
}

/// Where an operation writes.
pub open spec fn target(op: Op) -> Place {
    match op {
        Op::Embed { dst, .. } => dst,
        Op::Norm { dst, .. } => dst,
        Op::Project { dst, .. } => dst,
        Op::Rope { place, .. } => place,
        Op::Store { dst, .. } => dst,
        Op::Attend { dst, .. } => dst,
        Op::Add { dst, .. } => dst,
        Op::SwiGlu { gate, .. } => gate,
        Op::FusedMlp { dst, .. } => dst,
        Op::Gather { dst, .. } => dst,
        Op::CopyRow { dst, .. } => dst,
        Op::Argmax { dst, .. } => dst,
        Op::TopK { dst, .. } => dst,
    }
}

/// Whether an operation adds to what its target holds.
pub open spec fn adds(op: Op) -> bool {
    match op {
        Op::Project { accumulate, .. } => accumulate,
        Op::Add { .. } => true,
        _ => false,
    }
}

/// Whether some operation of a list writes a place.
pub open spec fn written(ops: Seq<Op>, p: Place) -> bool {
    exists|j: int| 0 <= j < ops.len() && target(#[trigger] ops[j]) == p
}

/// Whether a list reads only what is there from before, or what one of its own
/// earlier operations wrote.
pub open spec fn ready(have: Set<Place>, ops: Seq<Op>) -> bool {
    forall|i: int, p: Place|
        0 <= i < ops.len() && #[trigger] reads(ops[i], p) ==> have.contains(p) || written(
            ops.take(i),
            p,
        )
}

/// Whether a list leaves what a place holds in place, adding to it at most.
pub open spec fn keeps(ops: Seq<Op>, p: Place) -> bool {
    forall|i: int| 0 <= i < ops.len() && target(#[trigger] ops[i]) == p ==> adds(ops[i])
}

proof fn lemma_step(have: Set<Place>, s: Seq<Op>, op: Op)
    requires
        ready(have, s),
        forall|p: Place| #[trigger] reads(op, p) ==> have.contains(p) || written(s, p),
    ensures
        ready(have, s.push(op)),
        written(s.push(op), target(op)),
        forall|p: Place| written(s, p) ==> #[trigger] written(s.push(op), p),
{
    let t = s.push(op);
    assert(t[s.len() as int] == op);
    assert forall|p: Place| written(s, p) implies #[trigger] written(t, p) by {
        let j = choose|j: int| 0 <= j < s.len() && target(#[trigger] s[j]) == p;
        assert(t[j] == s[j]);
    }
    assert forall|i: int, p: Place| 0 <= i < t.len() && #[trigger] reads(t[i], p) implies have.contains(p)
        || written(t.take(i), p) by {
        assert(t.take(i) =~= s.take(i));
        if i < s.len() {
            assert(reads(s[i], p));
        } else {
            assert(s.take(i) =~= s);
        }
    }
}

/// Two lists one after the other.
proof fn lemma_join(have: Set<Place>, more: Set<Place>, a: Seq<Op>, b: Seq<Op>)
    requires
        ready(have, a),
        ready(more, b),
        forall|p: Place| #[trigger] more.contains(p) ==> have.contains(p) || written(a, p),
    ensures
        ready(have, a + b),
        forall|p: Place| written(a, p) ==> #[trigger] written(a + b, p),
        forall|p: Place| written(b, p) ==> #[trigger] written(a + b, p),
{
    let t = a + b;
    assert forall|p: Place| written(a, p) implies #[trigger] written(t, p) by {
        let j = choose|j: int| 0 <= j < a.len() && target(#[trigger] a[j]) == p;
        assert(t[j] == a[j]);
    }
    assert forall|p: Place| written(b, p) implies #[trigger] written(t, p) by {
        let j = choose|j: int| 0 <= j < b.len() && target(#[trigger] b[j]) == p;
        assert(t[a.len() + j] == b[j]);
    }
    assert forall|i: int, p: Place| 0 <= i < t.len() && #[trigger] reads(t[i], p) implies have.contains(p)
        || written(t.take(i), p) by {
        if i < a.len() {
            assert(t.take(i) =~= a.take(i));
            assert(reads(a[i], p));
        } else {
            let k = i - a.len();
            let u = t.take(i);
            assert(reads(b[k], p));
            if more.contains(p) {
                if !have.contains(p) {
                    let j = choose|j: int| 0 <= j < a.len() && target(#[trigger] a[j]) == p;
                    assert(u[j] == a[j]);
                }
            } else {
                let w = b.take(k);
                let j = choose|j: int| 0 <= j < w.len() && target(#[trigger] w[j]) == p;
                assert(u[a.len() + j] == w[j]);
            }
        }
    }
}

proof fn lemma_keeps_join(a: Seq<Op>, b: Seq<Op>, p: Place)
    requires
        keeps(a, p),
        keeps(b, p),
    ensures
        keeps(a + b, p),
{
    let t = a + b;
    assert forall|i: int| 0 <= i < t.len() && target(#[trigger] t[i]) == p implies adds(t[i]) by {
        if i < a.len() {
            assert(t[i] == a[i]);
        } else {
            assert(t[i] == b[i - a.len()]);
        }
    }
}

spec fn only(p: Place) -> Set<Place> {
    Set::<Place>::empty().insert(p)
}

// ---------------------------------------------------------------------------
// Batched decode.

proof fn lemma_decode_layer(s: Shape, n: usize, force: bool, layer: usize)
    ensures
        ready(only(Place::Batch { buf: Buf::X }), launch::decode_layer(s, n, force, layer)),
        keeps(launch::decode_layer(s, n, force, layer), Place::Batch { buf: Buf::X }),
{
    let have = only(Place::Batch { buf: Buf::X });
    let ops = launch::decode_layer(s, n, force, layer);
    let s0 = Seq::<Op>::empty();
    let s1 = s0.push(ops[0]);
    lemma_step(have, s0, ops[0]);
    let s2 = s1.push(ops[1]);
    lemma_step(have, s1, ops[1]);
    let s3 = s2.push(ops[2]);
    lemma_step(have, s2, ops[2]);
    let s4 = s3.push(ops[3]);
    lemma_step(have, s3, ops[3]);
    let s5 = s4.push(ops[4]);
    lemma_step(have, s4, ops[4]);
    let s6 = s5.push(ops[5]);
    lemma_step(have, s5, ops[5]);
    let s7 = s6.push(ops[6]);
    lemma_step(have, s6, ops[6]);
    let s8 = s7.push(ops[7]);
    lemma_step(have, s7, ops[7]);
    let s9 = s8.push(ops[8]);
    lemma_step(have, s8, ops[8]);
    let s10 = s9.push(ops[9]);
    lemma_step(have, s9, ops[9]);
    let s11 = s10.push(ops[10]);
    lemma_step(have, s10, ops[10]);
    let s12 = s11.push(ops[11]);
    lemma_step(have, s11, ops[11]);
    let s13 = s12.push(ops[12]);
    lemma_step(have, s12, ops[12]);
    let s14 = s13.push(ops[13]);
    lemma_step(have, s13, ops[13]);
    let s15 = s14.push(ops[14]);
    lemma_step(have, s14, ops[14]);
    assert(s15 =~= ops);
}

proof fn lemma_decode_layers(s: Shape, n: usize, force: bool, count: nat)
    ensures
        ready(only(Place::Batch { buf: Buf::X }), launch::decode_layers(s, n, force, count)),
        keeps(launch::decode_layers(s, n, force, count), Place::Batch { buf: Buf::X }),
    decreases count,
{
    if count > 0 {
        let x = only(Place::Batch { buf: Buf::X });
        let a = launch::decode_layers(s, n, force, (count - 1) as nat);
        let b = launch::decode_layer(s, n, force, (count - 1) as usize);
        lemma_decode_layers(s, n, force, (count - 1) as nat);
        lemma_decode_layer(s, n, force, (count - 1) as usize);
        lemma_join(x, x, a, b);
        lemma_keeps_join(a, b, Place::Batch { buf: Buf::X });
    }
}

/// A batched decode step starts from nothing: whatever a launch reads, an
/// earlier launch of the same step wrote, so that no step sees what another
/// left behind.
pub proof fn law_decode_reads_its_own_writes(s: Shape, n: usize, topk: bool, force: bool)
    ensures
        ready(Set::empty(), launch::decode_batch(s, n, topk, force)),
{
    let none = Set::<Place>::empty();
    let x = only(Place::Batch { buf: Buf::X });
    let embed = Op::Embed { dst: Place::Batch { buf: Buf::X }, rows: n };
    let a = seq![embed];
    let b = launch::decode_layers(s, n, force, s.n_layer as nat);
    let logits = launch::decode_logits(s, n, force);
    let c = logits.subrange((a + b).len() as int, logits.len() as int);
    assert(logits =~= a + b + c);
    assert(a =~= Seq::<Op>::empty().push(embed));
    lemma_step(none, Seq::empty(), embed);
    lemma_decode_layers(s, n, force, s.n_layer as nat);
    lemma_join(none, x, a, b);
    let tail = c + launch::selection(n, topk);
    let s0 = Seq::<Op>::empty();
    let s1 = s0.push(tail[0]);
    lemma_step(x, s0, tail[0]);
    let s2 = s1.push(tail[1]);
    lemma_step(x, s1, tail[1]);
    let s3 = s2.push(tail[2]);
    lemma_step(x, s2, tail[2]);
    if topk {
        let s4 = s3.push(tail[3]);
        lemma_step(x, s3, tail[3]);
        assert(s4 =~= tail);
    } else {
        assert(s3 =~= tail);
    }
    lemma_join(none, x, a + b, tail);
    assert(launch::decode_batch(s, n, topk, force) =~= a + b + tail);
}

/// After the embedding, a batched decode step only ever adds to the residual
/// stream.
pub proof fn law_decode_keeps_the_residual(s: Shape, n: usize, topk: bool, force: bool)
    ensures
        keeps(launch::decode_batch(s, n, topk, force).skip(1), Place::Batch { buf: Buf::X }),
{
    let x = Place::Batch { buf: Buf::X };
    let b = launch::decode_layers(s, n, force, s.n_layer as nat);
    lemma_decode_layers(s, n, force, s.n_layer as nat);
    let whole = launch::decode_batch(s, n, topk, force);
    let tail = whole.skip(1 + b.len() as int);
    assert(keeps(tail, x)) by {
        assert forall|i: int| 0 <= i < tail.len() && target(#[trigger] tail[i]) == x implies adds(
            tail[i],
        ) by {
            assert(tail.len() <= 4);
        }
    }
    lemma_keeps_join(b, tail, x);
    assert(whole.skip(1) =~= b + tail);
}

/// An operation with its number of rows left out.
pub open spec fn any_rows(op: Op) -> Op {
    match op {
        Op::Embed { dst, .. } => Op::Embed { dst, rows: 0 },
        Op::Norm { weight, src, dst, .. } => Op::Norm { weight, src, dst, rows: 0 },
        Op::Project { weight, how, src, dst, rows, cols, accumulate, .. } => Op::Project {
            weight, how, src, dst, rows, cols, batch: 0, accumulate,
        },
        Op::Rope { place, positions, heads, stride, .. } => Op::Rope {
            place, positions, rows: 0, heads, stride,
        },
        Op::Store { src, dst, routing, .. } => Op::Store { src, dst, routing, rows: 0 },
        Op::Attend { kernel, layer, paged, src, dst, .. } => Op::Attend {
            kernel, layer, paged, src, dst, rows: 0,
        },
        Op::Add { src, dst, .. } => Op::Add { src, dst, n: 0 },
        Op::SwiGlu { gate, up, .. } => Op::SwiGlu { gate, up, n: 0 },
        Op::Gather { src, dst, .. } => Op::Gather { src, dst, rows: 0 },
        Op::Argmax { src, dst, .. } => Op::Argmax { src, dst, rows: 0 },
        Op::TopK { src, dst, .. } => Op::TopK { src, dst, rows: 0 },
        other => other,
    }
}

/// Whether two lists differ in their number of rows alone.
pub open spec fn alike(a: Seq<Op>, b: Seq<Op>) -> bool {
    a.len() == b.len() && forall|i: int|
        0 <= i < a.len() ==> any_rows(#[trigger] a[i]) == any_rows(b[i])
}

proof fn lemma_alike_layers(s: Shape, n: usize, m: usize, force: bool, count: nat)
    ensures
        alike(launch::decode_layers(s, n, force, count), launch::decode_layers(s, m, force, count)),
    decreases count,
{
    if count > 0 {
        let c = (count - 1) as nat;
        lemma_alike_layers(s, n, m, force, c);
        let a = launch::decode_layer(s, n, force, c as usize);
        let b = launch::decode_layer(s, m, force, c as usize);
        assert(alike(a, b));
        lemma_alike_join(
            launch::decode_layers(s, n, force, c),
            launch::decode_layers(s, m, force, c),
            a,
            b,
        );
    }
}

proof fn lemma_alike_join(a: Seq<Op>, b: Seq<Op>, c: Seq<Op>, d: Seq<Op>)
    requires
        alike(a, b),
        alike(c, d),
    ensures
        alike(a + c, b + d),
{
    let t = a + c;
    let u = b + d;
    assert forall|i: int| 0 <= i < t.len() implies any_rows(#[trigger] t[i]) == any_rows(u[i]) by {
        if i < a.len() {
            assert(t[i] == a[i] && u[i] == b[i]);
        } else {
            assert(t[i] == c[i - a.len()] && u[i] == d[i - a.len()]);
        }
    }
}

/// A request's arithmetic does not depend on who it is batched with: at every
/// batch size a step runs the same kernels in the same order on the same
/// weights.
pub proof fn law_dispatch_ignores_the_batch(s: Shape, n: usize, m: usize, topk: bool, force: bool)
    ensures
        alike(launch::decode_batch(s, n, topk, force), launch::decode_batch(s, m, topk, force)),
{
    lemma_alike_layers(s, n, m, force, s.n_layer as nat);
    let a = launch::decode_layers(s, n, force, s.n_layer as nat);
    let b = launch::decode_layers(s, m, force, s.n_layer as nat);
    let wa = launch::decode_batch(s, n, topk, force);
    let wb = launch::decode_batch(s, m, topk, force);
    let ha = wa.take(1);
    let hb = wb.take(1);
    let ta = wa.skip(1 + a.len() as int);
    let tb = wb.skip(1 + a.len() as int);
    assert(alike(ha, hb));
    assert(ta.len() <= 4);
    assert(alike(ta, tb));
    lemma_alike_join(ha, hb, a, b);
    lemma_alike_join(ha + a, hb + b, ta, tb);
    assert(wa =~= ha + a + ta);
    assert(wb =~= hb + b + tb);
}

/// A greedy step is a sampled step without its last launch: sampling costs the
/// greedy path nothing.
pub proof fn law_sampling_only_appends(s: Shape, n: usize, force: bool)
    ensures
        launch::decode_batch(s, n, true, force).drop_last() == launch::decode_batch(s, n, false, force),
{
    assert(launch::decode_batch(s, n, true, force).drop_last() =~= launch::decode_batch(s, n, false, force));
}

// ---------------------------------------------------------------------------
// A single token.

proof fn lemma_fold(s: Shape, weight: Weight, src: Buf, mid: Buf, cols: usize)
    requires
        mid != Buf::X,
        mid != src,
        src != Buf::X,
    ensures
        ({
            let from = Place::Single { buf: src };
            let x = Place::Single { buf: Buf::X };
            let ops = launch::fold(s, weight, from, mid, cols);
            ready(only(x).insert(from), ops) && keeps(ops, x)
        }),
{
    let from = Place::Single { buf: src };
    let x = Place::Single { buf: Buf::X };
    let have = only(x).insert(from);
    let ops = launch::fold(s, weight, from, mid, cols);
    let s0 = Seq::<Op>::empty();
    let s1 = s0.push(ops[0]);
    lemma_step(have, s0, ops[0]);
    if ops.len() == 2 {
        let s2 = s1.push(ops[1]);
        lemma_step(have, s1, ops[1]);
        assert(s2 =~= ops);
    } else {
        assert(s1 =~= ops);
    }
}

proof fn lemma_token_attend(s: Shape, paged: bool, split: bool, layer: usize)
    ensures
        ready(only(Place::Single { buf: Buf::X }), launch::token_attend(s, paged, split, layer)),
        keeps(launch::token_attend(s, paged, split, layer), Place::Single { buf: Buf::X }),
        written(launch::token_attend(s, paged, split, layer), Place::Single { buf: Buf::Attn }),
{
    let have = only(Place::Single { buf: Buf::X });
    let ops = launch::token_attend(s, paged, split, layer);
    let s0 = Seq::<Op>::empty();
    let s1 = s0.push(ops[0]);
    lemma_step(have, s0, ops[0]);
    let s2 = s1.push(ops[1]);
    lemma_step(have, s1, ops[1]);
    let s3 = s2.push(ops[2]);
    lemma_step(have, s2, ops[2]);
    let s4 = s3.push(ops[3]);
    lemma_step(have, s3, ops[3]);
    let s5 = s4.push(ops[4]);
    lemma_step(have, s4, ops[4]);
    let s6 = s5.push(ops[5]);
    lemma_step(have, s5, ops[5]);
    let s7 = s6.push(ops[6]);
    lemma_step(have, s6, ops[6]);
    assert(s7 =~= ops);
}

proof fn lemma_token_layer(s: Shape, paged: bool, split: bool, layer: usize)
    ensures
        ready(only(Place::Single { buf: Buf::X }), launch::token_layer(s, paged, split, layer)),
        keeps(launch::token_layer(s, paged, split, layer), Place::Single { buf: Buf::X }),
{
    let x = Place::Single { buf: Buf::X };
    let have = only(x);
    let attn = Place::Single { buf: Buf::Attn };
    let gate = Place::Single { buf: Buf::Gate };
    let a = launch::token_attend(s, paged, split, layer);
    let b = launch::fold(s, Weight::Output { layer }, attn, Buf::Proj, s.n_embd);
    let c = launch::token_mlp(layer);
    let d = launch::fold(s, Weight::Down { layer }, gate, Buf::MlpOut, s.hidden);
    lemma_token_attend(s, paged, split, layer);
    lemma_fold(s, Weight::Output { layer }, Buf::Attn, Buf::Proj, s.n_embd);
    lemma_fold(s, Weight::Down { layer }, Buf::Gate, Buf::MlpOut, s.hidden);
    lemma_join(have, have.insert(attn), a, b);
    lemma_keeps_join(a, b, x);
    let s0 = Seq::<Op>::empty();
    let s1 = s0.push(c[0]);
    lemma_step(have, s0, c[0]);
    let s2 = s1.push(c[1]);
    lemma_step(have, s1, c[1]);
    assert(s2 =~= c);
    lemma_join(have, have, a + b, c);
    lemma_keeps_join(a + b, c, x);
    assert(written(a + b + c, gate));
    lemma_join(have, have.insert(gate), a + b + c, d);
    lemma_keeps_join(a + b + c, d, x);
}

proof fn lemma_token_layers(s: Shape, paged: bool, split: bool, count: nat)
    ensures
        ready(only(Place::Single { buf: Buf::X }), launch::token_layers(s, paged, split, count)),
        keeps(launch::token_layers(s, paged, split, count), Place::Single { buf: Buf::X }),
    decreases count,
{
    if count > 0 {
        let x = only(Place::Single { buf: Buf::X });
        let a = launch::token_layers(s, paged, split, (count - 1) as nat);
        let b = launch::token_layer(s, paged, split, (count - 1) as usize);
        lemma_token_layers(s, paged, split, (count - 1) as nat);
        lemma_token_layer(s, paged, split, (count - 1) as usize);
        lemma_join(x, x, a, b);
        lemma_keeps_join(a, b, Place::Single { buf: Buf::X });
    }
}

/// A token's pass starts from nothing but the cache of earlier positions, and
/// after the embedding only adds to the residual stream. In particular its
/// attention follows the K and V rows of its own layer and position.
pub proof fn law_token_reads_its_own_writes(s: Shape, paged: bool, split: bool)
    ensures
        ready(Set::empty(), launch::token(s, paged, split)),
        keeps(launch::token(s, paged, split).skip(1), Place::Single { buf: Buf::X }),
{
    let none = Set::<Place>::empty();
    let x = only(Place::Single { buf: Buf::X });
    let embed = Op::Embed { dst: Place::Single { buf: Buf::X }, rows: 1 };
    let a = seq![embed];
    let b = launch::token_layers(s, paged, split, s.n_layer as nat);
    let c = launch::token_head(s);
    assert(a =~= Seq::<Op>::empty().push(embed));
    lemma_step(none, Seq::empty(), embed);
    lemma_token_layers(s, paged, split, s.n_layer as nat);
    lemma_join(none, x, a, b);
    let s0 = Seq::<Op>::empty();
    let s1 = s0.push(c[0]);
    lemma_step(x, s0, c[0]);
    let s2 = s1.push(c[1]);
    lemma_step(x, s1, c[1]);
    assert(s2 =~= c);
    lemma_join(none, x, a + b, c);
    lemma_keeps_join(b, c, Place::Single { buf: Buf::X });
    assert(launch::token(s, paged, split).skip(1) =~= b + c);
}

// ---------------------------------------------------------------------------
// Prompts.

proof fn lemma_prefill_layer(s: Shape, t: usize, m: PrefillMode, layer: usize)
    ensures
        ready(only(Place::Prefill { buf: Buf::X }), launch::prefill_layer(s, t, m, layer)),
        keeps(launch::prefill_layer(s, t, m, layer), Place::Prefill { buf: Buf::X }),
{
    let have = only(Place::Prefill { buf: Buf::X });
    let ops = launch::prefill_layer(s, t, m, layer);
    let s0 = Seq::<Op>::empty();
    let s1 = s0.push(ops[0]);
    lemma_step(have, s0, ops[0]);
    let s2 = s1.push(ops[1]);
    lemma_step(have, s1, ops[1]);
    let s3 = s2.push(ops[2]);
    lemma_step(have, s2, ops[2]);
    let s4 = s3.push(ops[3]);
    lemma_step(have, s3, ops[3]);
    let s5 = s4.push(ops[4]);
    lemma_step(have, s4, ops[4]);
    let s6 = s5.push(ops[5]);
    lemma_step(have, s5, ops[5]);
    let s7 = s6.push(ops[6]);
    lemma_step(have, s6, ops[6]);
    let s8 = s7.push(ops[7]);
    lemma_step(have, s7, ops[7]);
    let s9 = s8.push(ops[8]);
    lemma_step(have, s8, ops[8]);
    let s10 = s9.push(ops[9]);
    lemma_step(have, s9, ops[9]);
    let s11 = s10.push(ops[10]);
    lemma_step(have, s10, ops[10]);
    let s12 = s11.push(ops[11]);
    lemma_step(have, s11, ops[11]);
    let s13 = s12.push(ops[12]);
    lemma_step(have, s12, ops[12]);
    let s14 = s13.push(ops[13]);
    lemma_step(have, s13, ops[13]);
    let s15 = s14.push(ops[14]);
    lemma_step(have, s14, ops[14]);
    let s16 = s15.push(ops[15]);
    lemma_step(have, s15, ops[15]);
    let s17 = s16.push(ops[16]);
    lemma_step(have, s16, ops[16]);
    assert(s17 =~= ops);
}

proof fn lemma_prefill_layers(s: Shape, t: usize, m: PrefillMode, count: nat)
    ensures
        ready(only(Place::Prefill { buf: Buf::X }), launch::prefill_layers(s, t, m, count)),
        keeps(launch::prefill_layers(s, t, m, count), Place::Prefill { buf: Buf::X }),
    decreases count,
{
    if count > 0 {
        let x = only(Place::Prefill { buf: Buf::X });
        let a = launch::prefill_layers(s, t, m, (count - 1) as nat);
        let b = launch::prefill_layer(s, t, m, (count - 1) as usize);
        lemma_prefill_layers(s, t, m, (count - 1) as nat);
        lemma_prefill_layer(s, t, m, (count - 1) as usize);
        lemma_join(x, x, a, b);
        lemma_keeps_join(a, b, Place::Prefill { buf: Buf::X });
    }
}

proof fn lemma_transformer(s: Shape, t: usize, m: PrefillMode)
    ensures
        ready(Set::empty(), launch::transformer(s, t, m)),
        written(launch::transformer(s, t, m), Place::Prefill { buf: Buf::X }),
        keeps(launch::transformer(s, t, m).skip(1), Place::Prefill { buf: Buf::X }),
{
    let none = Set::<Place>::empty();
    let x = only(Place::Prefill { buf: Buf::X });
    let embed = Op::Embed { dst: Place::Prefill { buf: Buf::X }, rows: t };
    let a = seq![embed];
    let b = launch::prefill_layers(s, t, m, s.n_layer as nat);
    assert(a =~= Seq::<Op>::empty().push(embed));
    lemma_step(none, Seq::empty(), embed);
    lemma_prefill_layers(s, t, m, s.n_layer as nat);
    lemma_join(none, x, a, b);
    assert(launch::transformer(s, t, m).skip(1) =~= b);
}

/// A prompt's pass starts from nothing but the cache of earlier positions, and
/// after the embedding only adds to the residual stream, whether its chunk
/// produces logits or not.
pub proof fn law_prefill_reads_its_own_writes(s: Shape, t: usize, m: PrefillMode, want_logits: bool)
    ensures
        ready(Set::empty(), launch::prefill(s, t, m, want_logits)),
        keeps(launch::prefill(s, t, m, want_logits).skip(1), Place::Prefill { buf: Buf::X }),
{
    lemma_transformer(s, t, m);
    if want_logits {
        let none = Set::<Place>::empty();
        let x = only(Place::Prefill { buf: Buf::X });
        let a = launch::transformer(s, t, m);
        let c = launch::last_logits(s, t);
        let s0 = Seq::<Op>::empty();
        let s1 = s0.push(c[0]);
        lemma_step(x, s0, c[0]);
        let s2 = s1.push(c[1]);
        lemma_step(x, s1, c[1]);
        let s3 = s2.push(c[2]);
        lemma_step(x, s2, c[2]);
        assert(s3 =~= c);
        lemma_join(none, x, a, c);
        lemma_keeps_join(a.skip(1), c, Place::Prefill { buf: Buf::X });
        assert(launch::prefill(s, t, m, want_logits).skip(1) =~= a.skip(1) + c);
    }
}

/// The same of a packed call.
pub proof fn law_packed_prefill_reads_its_own_writes(
    s: Shape,
    rows: usize,
    m: PrefillMode,
    finals: usize,
    topk: bool,
)
    ensures
        ready(Set::empty(), launch::packed_prefill(s, rows, m, finals, topk)),
        keeps(launch::packed_prefill(s, rows, m, finals, topk).skip(1), Place::Prefill { buf: Buf::X }),
{
    lemma_transformer(s, rows, m);
    if finals > 0 {
        let none = Set::<Place>::empty();
        let x = only(Place::Prefill { buf: Buf::X });
        let a = launch::transformer(s, rows, m);
        let c = launch::final_rows(s, finals, topk);
        let s0 = Seq::<Op>::empty();
        let s1 = s0.push(c[0]);
        lemma_step(x, s0, c[0]);
        let s2 = s1.push(c[1]);
        lemma_step(x, s1, c[1]);
        let s3 = s2.push(c[2]);
        lemma_step(x, s2, c[2]);
        let s4 = s3.push(c[3]);
        lemma_step(x, s3, c[3]);
        if topk {
            let s5 = s4.push(c[4]);
            lemma_step(x, s4, c[4]);
            assert(s5 =~= c);
        } else {
            assert(s4 =~= c);
        }
        lemma_join(none, x, a, c);
        assert(c.len() <= 5);
        assert(keeps(c, Place::Prefill { buf: Buf::X }));
        lemma_keeps_join(a.skip(1), c, Place::Prefill { buf: Buf::X });
        assert(launch::packed_prefill(s, rows, m, finals, topk).skip(1) =~= a.skip(1) + c);
    }
}

} // verus!
