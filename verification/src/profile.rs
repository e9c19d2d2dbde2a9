//! Where the time of a pass is attributed to.
//!
//! Stages are timed by synchronising between blocks of launches. The blocks are
//! the launches of the pass itself, so what is profiled is what runs.
use crate::launch;
use crate::launch::{Buf, Op, Place, Shape, Weight};
use crate::gpu::{Precision, PARAM_ZERO};
use vstd::prelude::*;

verus! {

/// A stage and how many timed blocks of it one pass holds, which is how much
/// synchronisation it absorbs.
#[derive(Debug, Clone, Copy)]
pub struct StageCalls {
    pub name: &'static str,
    pub calls: usize,
}

/// A launch under a profiler: the stage it is attributed to, and whether the
/// block it belongs to ends with it.
#[derive(Debug, Clone, Copy, PartialEq, Eq, Structural)]
pub struct Timed {
    pub stage: usize,
    pub op: Op,
    pub sync: bool,
}

/// The launches of a profiled pass.
pub open spec fn ops_of(p: Seq<Timed>) -> Seq<Op> {
    p.map_values(|t: Timed| t.op)
}

/// Timed blocks of one stage.
pub open spec fn blocks_of(p: Seq<Timed>, stage: int) -> nat
    decreases p.len(),
{
    if p.len() == 0 {
        0
    } else {
        blocks_of(p.drop_last(), stage) + if p.last().stage == stage && p.last().sync {
            1nat
        } else {
            0
        }
    }
}

proof fn lemma_count_push(p: Seq<Timed>, t: Timed, stage: int)
    ensures
        blocks_of(p.push(t), stage) == blocks_of(p, stage) + if t.stage == stage && t.sync {
            1nat
        } else {
            0
        },
{
    assert(p.push(t).drop_last() =~= p);
}

proof fn lemma_count_join(a: Seq<Timed>, b: Seq<Timed>, stage: int)
    ensures
        blocks_of(a + b, stage) == blocks_of(a, stage) + blocks_of(b, stage),
    decreases b.len(),
{
    if b.len() == 0 {
        assert(a + b =~= a);
    } else {
        assert((a + b).drop_last() =~= a + b.drop_last());
        lemma_count_join(a, b.drop_last(), stage);
    }
}

/// Kernels launched by one batched decode step up to its logits.
pub fn batch_step_kernels(n_layer: usize) -> (n: usize)
    requires
        1 + n_layer * 15 + 2 <= usize::MAX,
    ensures
        n == 1 + n_layer * 15 + 2,
{
    1 + n_layer * 15 + 2
}

proof fn lemma_decode_layers_len(s: Shape, n: usize, force: bool, count: nat)
    ensures
        launch::decode_layers(s, n, force, count).len() == 15 * count,
    decreases count,
{
    if count > 0 {
        lemma_decode_layers_len(s, n, force, (count - 1) as nat);
    }
}

/// The count of kernels is the number of launches of a step up to its logits,
/// whatever the batch.
pub proof fn law_batch_step_kernels(s: Shape, n: usize, force: bool)
    ensures
        launch::decode_logits(s, n, force).len() == 1 + s.n_layer * 15 + 2,
{
    lemma_decode_layers_len(s, n, force, s.n_layer as nat);
}

// ---------------------------------------------------------------------------
// A batched decode step.

/// The stage a launch of a batched step is attributed to.
pub open spec fn batch_stage(op: Op) -> usize {
    match op {
        Op::Embed { .. } => 0,
        Op::Norm { .. } => 1,
        Op::Project { weight, .. } => match weight {
            Weight::Key { .. } => 2,
            Weight::Value { .. } => 2,
            Weight::Query { .. } => 2,
            Weight::Output { .. } => 6,
            Weight::Gate { .. } => 7,
            Weight::Up { .. } => 7,
            Weight::Down { .. } => 9,
            _ => 11,
        },
        Op::Rope { .. } => 3,
        Op::Store { .. } => 4,
        Op::Attend { .. } => 5,
        Op::SwiGlu { .. } => 8,
        _ => 10,
    }
}

fn stage_of(op: &Op) -> (stage: usize)
    ensures
        stage == batch_stage(*op),
{
    match op {
        Op::Embed { .. } => 0,
        Op::Norm { .. } => 1,
        Op::Project { weight, .. } => match weight {
            Weight::Key { .. } => 2,
            Weight::Value { .. } => 2,
            Weight::Query { .. } => 2,
            Weight::Output { .. } => 6,
            Weight::Gate { .. } => 7,
            Weight::Up { .. } => 7,
            Weight::Down { .. } => 9,
            _ => 11,
        },
        Op::Rope { .. } => 3,
        Op::Store { .. } => 4,
        Op::Attend { .. } => 5,
        Op::SwiGlu { .. } => 8,
        _ => 10,
    }
}

/// Launches, each in a timed block of its own.
pub open spec fn timed(ops: Seq<Op>) -> Seq<Timed> {
    ops.map_values(|op: Op| Timed { stage: batch_stage(op), op, sync: true })
}

/// The stages of a batched step of `l` layers, in order: name and blocks.
pub open spec fn batch_calls_spec(l: nat, stage: int) -> (Seq<char>, nat) {
    if stage == 0 {
        ("embed"@, 1)
    } else if stage == 1 {
        ("rmsnorm"@, 2 * l + 1)
    } else if stage == 2 {
        ("qkv_proj"@, 3 * l)
    } else if stage == 3 {
        ("rope"@, 2 * l)
    } else if stage == 4 {
        ("cache_store"@, 2 * l)
    } else if stage == 5 {
        ("attention"@, l)
    } else if stage == 6 {
        ("o_proj"@, l)
    } else if stage == 7 {
        ("gate_up_proj"@, 2 * l)
    } else if stage == 8 {
        ("swiglu"@, l)
    } else if stage == 9 {
        ("down_proj"@, l)
    } else if stage == 10 {
        ("residual"@, 0)
    } else if stage == 11 {
        ("lm_head"@, 1)
    } else {
        ("logits_copy"@, 1)
    }
}

/// The stages of a batched step and their blocks. The projections are told apart
/// by shape; the residual has no block of its own.
pub fn profile_batch_calls(n_layer: usize) -> (v: Vec<StageCalls>)
    requires
        3 * n_layer <= usize::MAX,
    ensures
        v@.len() == 13,
        forall|i: int|
            0 <= i < 13 ==> ((#[trigger] v@[i]).name@, v@[i].calls as nat) == batch_calls_spec(n_layer as nat, i),
{
    let l: usize = n_layer;
    let mut v: Vec<StageCalls> = Vec::new();
    v.push(StageCalls { name: "embed", calls: 1 });
    v.push(StageCalls { name: "rmsnorm", calls: 2 * l + 1 });
    v.push(StageCalls { name: "qkv_proj", calls: 3 * l });
    v.push(StageCalls { name: "rope", calls: 2 * l });
    v.push(StageCalls { name: "cache_store", calls: 2 * l });
    v.push(StageCalls { name: "attention", calls: l });
    v.push(StageCalls { name: "o_proj", calls: l });
    v.push(StageCalls { name: "gate_up_proj", calls: 2 * l });
    v.push(StageCalls { name: "swiglu", calls: l });
    v.push(StageCalls { name: "down_proj", calls: l });
    v.push(StageCalls { name: "residual", calls: 0 });
    v.push(StageCalls { name: "lm_head", calls: 1 });
    v.push(StageCalls { name: "logits_copy", calls: 1 });
    v
}

/// The launches of a batched step up to its logits, each timed on its own. The
/// logits' copy to the host is timed after them, as the last stage.
pub fn profile_batch(s: &Shape, n: usize, force_gemm: bool) -> (r: Result<Vec<Timed>, String>)
    requires
        s.holds(n as int),
    ensures
        match r {
            Ok(v) => s.runnable() && v@ == timed(launch::decode_logits(*s, n, force_gemm)),
            Err(m) => !s.runnable() && m@ == launch::swiglu_only(),
        },
{
    let ops = match launch::queue_decode_batch(s, n, false, force_gemm) {
        Ok(v) => v,
        Err(e) => {
            return Err(e);
        },
    };
    let ghost logits = launch::decode_logits(*s, n, force_gemm);
    assert(ops@ =~= logits.push(ops@.last()));
    let mut v: Vec<Timed> = Vec::new();
    let mut i: usize = 0;
    while i < ops.len() - 1
        invariant
            ops@.len() == logits.len() + 1,
            ops@ == logits.push(ops@.last()),
            i <= logits.len(),
            v@ == timed(logits).take(i as int),
        decreases logits.len() - i,
    {
        v.push(Timed { stage: stage_of(&ops[i]), op: ops[i], sync: true });
        assert(timed(logits).take(i + 1) =~= timed(logits).take(i as int).push(timed(logits)[i as int]));
        i += 1;
    }
    assert(v@ =~= timed(logits));
    Ok(v)
}

proof fn lemma_batch_layer(s: Shape, n: usize, force: bool, layer: usize, stage: int)
    ensures
        blocks_of(timed(launch::decode_layer(s, n, force, layer)), stage) == (if stage == 2 {
            3nat
        } else if stage == 1 || stage == 3 || stage == 4 || stage == 7 {
            2
        } else if stage == 5 || stage == 6 || stage == 8 || stage == 9 {
            1
        } else {
            0
        }),
{
    let p = timed(launch::decode_layer(s, n, force, layer));
    let s0 = Seq::<Timed>::empty();
    let s1 = s0.push(p[0]);
    lemma_count_push(s0, p[0], stage);
    let s2 = s1.push(p[1]);
    lemma_count_push(s1, p[1], stage);
    let s3 = s2.push(p[2]);
    lemma_count_push(s2, p[2], stage);
    let s4 = s3.push(p[3]);
    lemma_count_push(s3, p[3], stage);
    let s5 = s4.push(p[4]);
    lemma_count_push(s4, p[4], stage);
    let s6 = s5.push(p[5]);
    lemma_count_push(s5, p[5], stage);
    let s7 = s6.push(p[6]);
    lemma_count_push(s6, p[6], stage);
    let s8 = s7.push(p[7]);
    lemma_count_push(s7, p[7], stage);
    let s9 = s8.push(p[8]);
    lemma_count_push(s8, p[8], stage);
    let s10 = s9.push(p[9]);
    lemma_count_push(s9, p[9], stage);
    let s11 = s10.push(p[10]);
    lemma_count_push(s10, p[10], stage);
    let s12 = s11.push(p[11]);
    lemma_count_push(s11, p[11], stage);
    let s13 = s12.push(p[12]);
    lemma_count_push(s12, p[12], stage);
    let s14 = s13.push(p[13]);
    lemma_count_push(s13, p[13], stage);
    let s15 = s14.push(p[14]);
    lemma_count_push(s14, p[14], stage);
    assert(s15 =~= p);
}

proof fn lemma_batch_layers(s: Shape, n: usize, force: bool, count: nat, stage: int)
    ensures
        blocks_of(timed(launch::decode_layers(s, n, force, count)), stage) == (if stage == 2 {
            3 * count
        } else if stage == 1 || stage == 3 || stage == 4 || stage == 7 {
            2 * count
        } else if stage == 5 || stage == 6 || stage == 8 || stage == 9 {
            count
        } else {
            0
        }),
    decreases count,
{
    if count > 0 {
        let a = launch::decode_layers(s, n, force, (count - 1) as nat);
        let b = launch::decode_layer(s, n, force, (count - 1) as usize);
        lemma_batch_layers(s, n, force, (count - 1) as nat, stage);
        lemma_batch_layer(s, n, force, (count - 1) as usize, stage);
        lemma_count_join(timed(a), timed(b), stage);
        assert(timed(a + b) =~= timed(a) + timed(b));
    }
}

/// The table of blocks is what a profiled step runs: each stage but the copy of
/// the logits has as many timed blocks as the table says.
pub proof fn law_batch_calls_are_counted(s: Shape, n: usize, force: bool, stage: int)
    requires
        0 <= stage < 12,
    ensures
        blocks_of(timed(launch::decode_logits(s, n, force)), stage) == batch_calls_spec(
            s.n_layer as nat,
            stage,
        ).1,
{
    let logits = launch::decode_logits(s, n, force);
    let b = launch::decode_layers(s, n, force, s.n_layer as nat);
    let head = logits.take(1);
    let tail = logits.skip(1 + b.len() as int);
    assert(logits =~= head + b + tail);
    lemma_batch_layers(s, n, force, s.n_layer as nat, stage);
    let h = timed(head);
    let t = timed(tail);
    let s0 = Seq::<Timed>::empty();
    lemma_count_push(s0, h[0], stage);
    assert(s0.push(h[0]) =~= h);
    let s1 = s0.push(t[0]);
    lemma_count_push(s0, t[0], stage);
    lemma_count_push(s1, t[1], stage);
    assert(s1.push(t[1]) =~= t);
    lemma_count_join(h, timed(b), stage);
    lemma_count_join(h + timed(b), t, stage);
    assert(timed(logits) =~= h + timed(b) + t);
}

// ---------------------------------------------------------------------------
// One token.

/// One layer of a profiled token: the projections of Q, K and V in one block,
/// both rotations in the next.
pub open spec fn token_profile_layer(s: Shape, paged: bool, split: bool, layer: usize) -> Seq<Timed> {
    let a = launch::token_attend(s, paged, split, layer);
    let o = launch::fold(s, Weight::Output { layer }, Place::Single { buf: Buf::Attn }, Buf::Proj, s.n_embd);
    let m = launch::token_mlp(layer);
    let d = launch::fold(s, Weight::Down { layer }, Place::Single { buf: Buf::Gate }, Buf::MlpOut, s.hidden);
    let attend = seq![
        Timed { stage: 1, op: a[0], sync: true },
        Timed { stage: 2, op: a[1], sync: false },
        Timed { stage: 2, op: a[2], sync: false },
        Timed { stage: 2, op: a[4], sync: true },
        Timed { stage: 3, op: a[3], sync: false },
        Timed { stage: 3, op: a[5], sync: true },
        Timed { stage: 4, op: a[6], sync: true },
        Timed { stage: 5, op: o[0], sync: true },
    ];
    let mlp = seq![
        Timed { stage: 1, op: m[0], sync: true },
        Timed { stage: 6, op: m[1], sync: false },
        Timed { stage: 6, op: d[0], sync: true },
    ];
    if s.precision == Precision::Int8 {
        attend + mlp
    } else {
        attend.push(Timed { stage: 7, op: o[1], sync: true }) + mlp.push(
            Timed { stage: 7, op: d[1], sync: true },
        )
    }
}

/// The first `count` layers of a profiled token.
pub open spec fn token_profile_layers(s: Shape, paged: bool, split: bool, count: nat) -> Seq<Timed>
    decreases count,
{
    if count == 0 {
        Seq::empty()
    } else {
        token_profile_layers(s, paged, split, (count - 1) as nat)
            + token_profile_layer(s, paged, split, (count - 1) as usize)
    }
}

/// A profiled token.
pub open spec fn token_profile(s: Shape, paged: bool, split: bool) -> Seq<Timed> {
    let h = launch::token_head(s);
    seq![Timed { stage: 0, op: Op::Embed { dst: Place::Single { buf: Buf::X }, rows: 1 }, sync: true }]
        + token_profile_layers(s, paged, split, s.n_layer as nat)
        + seq![Timed { stage: 8, op: h[0], sync: false }, Timed { stage: 8, op: h[1], sync: true }]
}

/// The stages of one token of `l` layers, in order: name and blocks. Where the
/// weights are int8 the residual is folded into the projections.
pub open spec fn token_calls_spec(int8: bool, l: nat, stage: int) -> (Seq<char>, nat) {
    if stage == 0 {
        ("embed"@, 1)
    } else if stage == 1 {
        ("rmsnorm"@, 2 * l)
    } else if stage == 2 {
        ("qkv_proj"@, l)
    } else if stage == 3 {
        ("rope"@, l)
    } else if stage == 4 {
        ("attention"@, l)
    } else if stage == 5 {
        ("o_proj"@, l)
    } else if stage == 6 {
        ("mlp"@, l)
    } else if stage == 7 {
        ("residual"@, if int8 { 0 } else { 2 * l })
    } else if stage == 8 {
        ("lm_head"@, 1)
    } else {
        ("logits_copy"@, 1)
    }
}

/// The stages of one token and their blocks.
pub fn profile_step_calls(int8: bool, n_layer: usize) -> (v: Vec<StageCalls>)
    requires
        2 * n_layer <= usize::MAX,
    ensures
        v@.len() == 10,
        forall|i: int|
            0 <= i < 10 ==> ((#[trigger] v@[i]).name@, v@[i].calls as nat) == token_calls_spec(
                int8,
                n_layer as nat,
                i,
            ),
{
    let l: usize = n_layer;
    let residual: usize = if int8 {
        0
    } else {
        2 * l
    };
    let mut v: Vec<StageCalls> = Vec::new();
    v.push(StageCalls { name: "embed", calls: 1 });
    v.push(StageCalls { name: "rmsnorm", calls: 2 * l });
    v.push(StageCalls { name: "qkv_proj", calls: l });
    v.push(StageCalls { name: "rope", calls: l });
    v.push(StageCalls { name: "attention", calls: l });
    v.push(StageCalls { name: "o_proj", calls: l });
    v.push(StageCalls { name: "mlp", calls: l });
    v.push(StageCalls { name: "residual", calls: residual });
    v.push(StageCalls { name: "lm_head", calls: 1 });
    v.push(StageCalls { name: "logits_copy", calls: 1 });
    v
}

fn push_token_profile_layer(v: &mut Vec<Timed>, s: &Shape, paged: bool, split: bool, layer: usize)
    requires
        s.wf(),
        layer < s.n_layer,
    ensures
        final(v)@ == old(v)@ + token_profile_layer(*s, paged, split, layer),
{
    let mut a: Vec<Op> = Vec::new();
    launch::push_token_attend(&mut a, s, paged, split, layer);
    let mut o: Vec<Op> = Vec::new();
    launch::push_fold(&mut o, s, Weight::Output { layer }, Place::Single { buf: Buf::Attn }, Buf::Proj, s.n_embd);
    let mut m: Vec<Op> = Vec::new();
    launch::push_token_mlp(&mut m, layer);
    let mut d: Vec<Op> = Vec::new();
    launch::push_fold(&mut d, s, Weight::Down { layer }, Place::Single { buf: Buf::Gate }, Buf::MlpOut, s.hidden);
    v.push(Timed { stage: 1, op: a[0], sync: true });
    v.push(Timed { stage: 2, op: a[1], sync: false });
    v.push(Timed { stage: 2, op: a[2], sync: false });
    v.push(Timed { stage: 2, op: a[4], sync: true });
    v.push(Timed { stage: 3, op: a[3], sync: false });
    v.push(Timed { stage: 3, op: a[5], sync: true });
    v.push(Timed { stage: 4, op: a[6], sync: true });
    v.push(Timed { stage: 5, op: o[0], sync: true });
    if s.precision != Precision::Int8 {
        v.push(Timed { stage: 7, op: o[1], sync: true });
    }
    v.push(Timed { stage: 1, op: m[0], sync: true });
    v.push(Timed { stage: 6, op: m[1], sync: false });
    v.push(Timed { stage: 6, op: d[0], sync: true });
    if s.precision != Precision::Int8 {
        v.push(Timed { stage: 7, op: d[1], sync: true });
    }
    assert(v@ =~= old(v)@ + token_profile_layer(*s, paged, split, layer));
}

/// The launches of one token in timed blocks. The copy of the logits to the
/// host is timed after them, as the last stage.
pub fn profile_step(s: &Shape, paged: bool, split: bool) -> (r: Result<Vec<Timed>, String>)
    requires
        s.wf(),
    ensures
        match r {
            Ok(v) => s.runnable() && v@ == token_profile(*s, paged, split),
            Err(m) => !s.runnable() && m@ == "swiglu only"@,
        },
{
    if s.n_layer > 0 && !s.swiglu {
        return Err("swiglu only".to_owned());
    }
    let mut v: Vec<Timed> = Vec::new();
    v.push(Timed { stage: 0, op: Op::Embed { dst: Place::Single { buf: Buf::X }, rows: 1 }, sync: true });
    let ghost head = v@;
    let mut l: usize = 0;
    while l < s.n_layer
        invariant
            l <= s.n_layer,
            s.wf(),
            v@ == head + token_profile_layers(*s, paged, split, l as nat),
        decreases s.n_layer - l,
    {
        push_token_profile_layer(&mut v, s, paged, split, l);
        l += 1;
        assert(v@ =~= head + token_profile_layers(*s, paged, split, l as nat));
    }
    let normed = Place::Single { buf: Buf::Normed };
    v.push(Timed {
        stage: 8,
        op: Op::Norm { weight: Weight::FinalNorm, src: Place::Single { buf: Buf::X }, dst: normed, rows: 1 },
        sync: false,
    });
    v.push(Timed {
        stage: 8,
        op: Op::Project { weight: Weight::TokEmb, how: launch::How::Gemv { base: 0, param: PARAM_ZERO }, src: normed,
            dst: Place::Single { buf: Buf::Logits }, rows: s.vocab, cols: s.n_embd, batch: 1, accumulate: false },
        sync: true,
    });
    assert(v@ =~= token_profile(*s, paged, split));
    Ok(v)
}

proof fn lemma_token_layer_blocks(s: Shape, paged: bool, split: bool, layer: usize, stage: int)
    ensures
        blocks_of(token_profile_layer(s, paged, split, layer), stage) == (if stage == 1 {
            2nat
        } else if 2 <= stage <= 6 {
            1
        } else if stage == 7 && s.precision != Precision::Int8 {
            2
        } else {
            0
        }),
{
    let p = token_profile_layer(s, paged, split, layer);
    let s0 = Seq::<Timed>::empty();
    let s1 = s0.push(p[0]);
    lemma_count_push(s0, p[0], stage);
    let s2 = s1.push(p[1]);
    lemma_count_push(s1, p[1], stage);
    let s3 = s2.push(p[2]);
    lemma_count_push(s2, p[2], stage);
    let s4 = s3.push(p[3]);
    lemma_count_push(s3, p[3], stage);
    let s5 = s4.push(p[4]);
    lemma_count_push(s4, p[4], stage);
    let s6 = s5.push(p[5]);
    lemma_count_push(s5, p[5], stage);
    let s7 = s6.push(p[6]);
    lemma_count_push(s6, p[6], stage);
    let s8 = s7.push(p[7]);
    lemma_count_push(s7, p[7], stage);
    let s9 = s8.push(p[8]);
    lemma_count_push(s8, p[8], stage);
    let s10 = s9.push(p[9]);
    lemma_count_push(s9, p[9], stage);
    let s11 = s10.push(p[10]);
    lemma_count_push(s10, p[10], stage);
    if s.precision == Precision::Int8 {
        assert(s11 =~= p);
    } else {
        let s12 = s11.push(p[11]);
        lemma_count_push(s11, p[11], stage);
        let s13 = s12.push(p[12]);
        lemma_count_push(s12, p[12], stage);
        assert(s13 =~= p);
    }
}

proof fn lemma_token_layers_blocks(s: Shape, paged: bool, split: bool, count: nat, stage: int)
    ensures
        blocks_of(token_profile_layers(s, paged, split, count), stage) == (if stage == 1 {
            2 * count
        } else if 2 <= stage <= 6 {
            count
        } else if stage == 7 && s.precision != Precision::Int8 {
            2 * count
        } else {
            0
        }),
    decreases count,
{
    if count > 0 {
        lemma_token_layers_blocks(s, paged, split, (count - 1) as nat, stage);
        lemma_token_layer_blocks(s, paged, split, (count - 1) as usize, stage);
        lemma_count_join(
            token_profile_layers(s, paged, split, (count - 1) as nat),
            token_profile_layer(s, paged, split, (count - 1) as usize),
            stage,
        );
    }
}

/// The table of blocks is what a profiled token runs, stage for stage, up to
/// the copy of the logits.
pub proof fn law_token_calls_are_counted(s: Shape, paged: bool, split: bool, stage: int)
    requires
        0 <= stage < 9,
    ensures
        blocks_of(token_profile(s, paged, split), stage) == token_calls_spec(
            s.precision == Precision::Int8,
            s.n_layer as nat,
            stage,
        ).1,
{
    let p = token_profile(s, paged, split);
    let b = token_profile_layers(s, paged, split, s.n_layer as nat);
    let h = p.take(1);
    let t = p.skip(1 + b.len() as int);
    assert(p =~= h + b + t);
    lemma_token_layers_blocks(s, paged, split, s.n_layer as nat, stage);
    let s0 = Seq::<Timed>::empty();
    lemma_count_push(s0, h[0], stage);
    assert(s0.push(h[0]) =~= h);
    let s1 = s0.push(t[0]);
    lemma_count_push(s0, t[0], stage);
    lemma_count_push(s1, t[1], stage);
    assert(s1.push(t[1]) =~= t);
    lemma_count_join(h, b, stage);
    lemma_count_join(h + b, t, stage);
}

proof fn lemma_token_layer_mirrored(s: Shape, paged: bool, split: bool, layer: usize)
    ensures
        ops_of(token_profile_layer(s, paged, split, layer)).to_multiset() =~= launch::token_layer(
            s,
            paged,
            split,
            layer,
        ).to_multiset(),
{
    let l = launch::token_layer(s, paged, split, layer);
    let p = ops_of(token_profile_layer(s, paged, split, layer));
    let front = l.take(3);
    let k = seq![l[3]];
    let q = seq![l[4]];
    let rest = l.skip(5);
    assert(l =~= front + (k + q) + rest);
    assert(p =~= front + (q + k) + rest);
    vstd::seq_lib::lemma_multiset_commutative(k, q);
    vstd::seq_lib::lemma_multiset_commutative(q, k);
    vstd::seq_lib::lemma_multiset_commutative(front, k + q);
    vstd::seq_lib::lemma_multiset_commutative(front, q + k);
    vstd::seq_lib::lemma_multiset_commutative(front + (k + q), rest);
    vstd::seq_lib::lemma_multiset_commutative(front + (q + k), rest);
    assert(k.to_multiset().add(q.to_multiset()) =~= q.to_multiset().add(k.to_multiset()));
}

proof fn lemma_token_layers_mirrored(s: Shape, paged: bool, split: bool, count: nat)
    ensures
        ops_of(token_profile_layers(s, paged, split, count)).to_multiset() =~= launch::token_layers(
            s,
            paged,
            split,
            count,
        ).to_multiset(),
    decreases count,
{
    let a = token_profile_layers(s, paged, split, count);
    let b = launch::token_layers(s, paged, split, count);
    if count == 0 {
        assert(ops_of(a) =~= b);
    } else {
        let c = (count - 1) as nat;
        lemma_token_layers_mirrored(s, paged, split, c);
        lemma_token_layer_mirrored(s, paged, split, c as usize);
        let a0 = ops_of(token_profile_layers(s, paged, split, c));
        let a1 = ops_of(token_profile_layer(s, paged, split, c as usize));
        assert(ops_of(a) =~= a0 + a1);
        vstd::seq_lib::lemma_multiset_commutative(a0, a1);
        vstd::seq_lib::lemma_multiset_commutative(
            launch::token_layers(s, paged, split, c),
            launch::token_layer(s, paged, split, c as usize),
        );
    }
}

/// What is profiled is what runs: a profiled token makes exactly the launches
/// of a token, whatever its precision, cache and attention.
pub proof fn law_profile_mirrors_the_token(s: Shape, paged: bool, split: bool)
    ensures
        ops_of(token_profile(s, paged, split)).to_multiset() == launch::token(s, paged, split).to_multiset(),
{
    let p = ops_of(token_profile(s, paged, split));
    let t = launch::token(s, paged, split);
    let a = ops_of(token_profile_layers(s, paged, split, s.n_layer as nat));
    let b = launch::token_layers(s, paged, split, s.n_layer as nat);
    let e = seq![Op::Embed { dst: Place::Single { buf: Buf::X }, rows: 1 }];
    let h = launch::token_head(s);
    assert(p =~= e + a + h);
    assert(t =~= e + b + h);
    lemma_token_layers_mirrored(s, paged, split, s.n_layer as nat);
    vstd::seq_lib::lemma_multiset_commutative(e, a);
    vstd::seq_lib::lemma_multiset_commutative(e, b);
    vstd::seq_lib::lemma_multiset_commutative(e + a, h);
    vstd::seq_lib::lemma_multiset_commutative(e + b, h);
}

// ---------------------------------------------------------------------------
// A packed prompt call.

/// The stages of a packed call.
#[derive(Debug, Clone, Copy, PartialEq, Eq, Structural)]
pub enum PackedStage {
    Embed,
    Norm,
    QkvGemm,
    Rope,
    KvStore,
    Attention,
    OGemm,
    Residual,
    GateUpGemm,
    Swiglu,
    DownGemm,
    FinalGather,
    FinalNorm,
    FinalHead,
    Argmax,
    TopK,
}

impl PackedStage {
    /// The stage a launch of a packed call is attributed to.
    pub open spec fn of(op: Op) -> PackedStage {
        match op {
            Op::Embed { .. } => PackedStage::Embed,
            Op::Norm { weight, .. } => if weight == Weight::FinalNorm {
                PackedStage::FinalNorm
            } else {
                PackedStage::Norm
            },
            Op::Project { weight, .. } => match weight {
                Weight::Output { .. } => PackedStage::OGemm,
                Weight::Gate { .. } => PackedStage::GateUpGemm,
                Weight::Up { .. } => PackedStage::GateUpGemm,
                Weight::Down { .. } => PackedStage::DownGemm,
                Weight::TokEmb => PackedStage::FinalHead,
                _ => PackedStage::QkvGemm,
            },
            Op::Rope { .. } => PackedStage::Rope,
            Op::Store { .. } => PackedStage::KvStore,
            Op::Attend { .. } => PackedStage::Attention,
            Op::Add { .. } => PackedStage::Residual,
            Op::SwiGlu { .. } => PackedStage::Swiglu,
            Op::FusedMlp { .. } => PackedStage::GateUpGemm,
            Op::Gather { .. } => PackedStage::FinalGather,
            Op::CopyRow { .. } => PackedStage::FinalGather,
            Op::Argmax { .. } => PackedStage::Argmax,
            Op::TopK { .. } => PackedStage::TopK,
        }
    }

    /// The stage a launch of a packed call is attributed to.
    pub fn label(op: &Op) -> (s: PackedStage)
        ensures
            s == PackedStage::of(*op),
    {
        match op {
            Op::Embed { .. } => PackedStage::Embed,
            Op::Norm { weight, .. } => if *weight == Weight::FinalNorm {
                PackedStage::FinalNorm
            } else {
                PackedStage::Norm
            },
            Op::Project { weight, .. } => match weight {
                Weight::Output { .. } => PackedStage::OGemm,
                Weight::Gate { .. } => PackedStage::GateUpGemm,
                Weight::Up { .. } => PackedStage::GateUpGemm,
                Weight::Down { .. } => PackedStage::DownGemm,
                Weight::TokEmb => PackedStage::FinalHead,
                _ => PackedStage::QkvGemm,
            },
            Op::Rope { .. } => PackedStage::Rope,
            Op::Store { .. } => PackedStage::KvStore,
            Op::Attend { .. } => PackedStage::Attention,
            Op::Add { .. } => PackedStage::Residual,
            Op::SwiGlu { .. } => PackedStage::Swiglu,
            Op::FusedMlp { .. } => PackedStage::GateUpGemm,
            Op::Gather { .. } => PackedStage::FinalGather,
            Op::CopyRow { .. } => PackedStage::FinalGather,
            Op::Argmax { .. } => PackedStage::Argmax,
            Op::TopK { .. } => PackedStage::TopK,
        }
    }

    /// The stage in a report.
    pub open spec fn title(self) -> Seq<char> {
        match self {
            PackedStage::Embed => "embed"@,
            PackedStage::Norm => "norm"@,
            PackedStage::QkvGemm => "qkv_gemm"@,
            PackedStage::Rope => "rope"@,
            PackedStage::KvStore => "kv_store"@,
            PackedStage::Attention => "attention"@,
            PackedStage::OGemm => "o_gemm"@,
            PackedStage::Residual => "residual"@,
            PackedStage::GateUpGemm => "ffn_gate_up_gemm"@,
            PackedStage::Swiglu => "swiglu"@,
            PackedStage::DownGemm => "down_gemm"@,
            PackedStage::FinalGather => "final_gather"@,
            PackedStage::FinalNorm => "final_norm"@,
            PackedStage::FinalHead => "final_head"@,
            PackedStage::Argmax => "argmax"@,
            PackedStage::TopK => "topk"@,
        }
    }

    /// The stage in a report.
    pub fn name(&self) -> (s: &'static str)
        ensures
            s@ == self.title(),
    {
        match self {
            PackedStage::Embed => "embed",
            PackedStage::Norm => "norm",
            PackedStage::QkvGemm => "qkv_gemm",
            PackedStage::Rope => "rope",
            PackedStage::KvStore => "kv_store",
            PackedStage::Attention => "attention",
            PackedStage::OGemm => "o_gemm",
            PackedStage::Residual => "residual",
            PackedStage::GateUpGemm => "ffn_gate_up_gemm",
            PackedStage::Swiglu => "swiglu",
            PackedStage::DownGemm => "down_gemm",
            PackedStage::FinalGather => "final_gather",
            PackedStage::FinalNorm => "final_norm",
            PackedStage::FinalHead => "final_head",
            PackedStage::Argmax => "argmax",
            PackedStage::TopK => "topk",
        }
    }
}

/// Stage ends a packed call may need: one per launch, behind the start.
pub fn packed_boundaries(n_layer: usize) -> (n: usize)
    requires
        6 + 17 * n_layer <= usize::MAX,
    ensures
        n == 6 + 17 * n_layer,
{
    6 + 17 * n_layer
}

proof fn lemma_prefill_layers_len(s: Shape, t: usize, m: launch::PrefillMode, count: nat)
    ensures
        launch::prefill_layers(s, t, m, count).len() == 17 * count,
    decreases count,
{
    if count > 0 {
        lemma_prefill_layers_len(s, t, m, (count - 1) as nat);
    }
}

/// A packed call never runs out of boundaries, and needs them all where it
/// finishes a prompt that samples.
pub proof fn law_boundaries_suffice(
    s: Shape,
    rows: usize,
    m: launch::PrefillMode,
    finals: usize,
    topk: bool,
)
    ensures
        launch::packed_prefill(s, rows, m, finals, topk).len() <= 6 + 17 * s.n_layer,
        finals > 0 && topk ==> launch::packed_prefill(s, rows, m, finals, topk).len() == 6 + 17
            * s.n_layer,
{
    lemma_prefill_layers_len(s, rows, m, s.n_layer as nat);
}

/// A stage of a packed call and its launches, over all layers.
#[derive(Debug, Clone, Copy, PartialEq, Eq, Structural)]
pub struct StageTally {
    pub stage: PackedStage,
    pub calls: usize,
}

/// Launches of one stage.
pub open spec fn launches_of(ops: Seq<Op>, stage: PackedStage) -> nat
    decreases ops.len(),
{
    if ops.len() == 0 {
        0
    } else {
        launches_of(ops.drop_last(), stage) + if PackedStage::of(ops.last()) == stage {
            1nat
        } else {
            0
        }
    }
}

/// Whether a stage has its first launch before another's.
pub open spec fn starts_before(ops: Seq<Op>, a: PackedStage, b: PackedStage) -> bool {
    exists|i: int|
        0 <= i < ops.len() && PackedStage::of(#[trigger] ops[i]) == a && forall|j: int|
            0 <= j <= i ==> PackedStage::of(#[trigger] ops[j]) != b
}

/// Whether a tally lists each stage of a call once, by first launch, with its
/// number of launches.
pub open spec fn tallied(ops: Seq<Op>, v: Seq<StageTally>) -> bool {
    &&& forall|i: int| 0 <= i < v.len() ==> (#[trigger] v[i]).calls == launches_of(ops, v[i].stage)
    &&& forall|i: int| 0 <= i < v.len() ==> (#[trigger] v[i]).calls > 0
    &&& forall|i: int, j: int|
        0 <= i < j < v.len() ==> starts_before(ops, (#[trigger] v[i]).stage, (#[trigger] v[j]).stage)
    &&& forall|k: int|
        0 <= k < ops.len() ==> exists|i: int|
            0 <= i < v.len() && (#[trigger] v[i]).stage == PackedStage::of(#[trigger] ops[k])
}

/// The stages of a packed call in the order they first run, each with its
/// number of launches.
pub fn tally(ops: &[Op]) -> (v: Vec<StageTally>)
    ensures
        tallied(ops@, v@),
{
    let mut v: Vec<StageTally> = Vec::new();
    let mut k: usize = 0;
    while k < ops.len()
        invariant
            k <= ops@.len(),
            tallied(ops@.take(k as int), v@),
        decreases ops@.len() - k,
    {
        let ghost done = ops@.take(k as int);
        let ghost now = ops@.take(k + 1);
        let ghost before = v@;
        let stage = PackedStage::label(&ops[k]);
        let mut i: usize = 0;
        while i < v.len() && v[i].stage != stage
            invariant
                i <= v@.len(),
                forall|j: int| 0 <= j < i ==> (#[trigger] v@[j]).stage != stage,
            decreases v@.len() - i,
        {
            i += 1;
        }
        proof {
            assert(now =~= done.push(ops@[k as int]));
            lemma_launches_bound(done, stage);
        }
        if i < v.len() {
            let seen: usize = v[i].calls;
            v.set(i, StageTally { stage, calls: seen + 1 });
            proof {
                lemma_tally_again(done, ops@[k as int], before, i as int);
                assert(v@ =~= before.update(i as int, StageTally { stage, calls: (seen + 1) as usize }));
            }
        } else {
            v.push(StageTally { stage, calls: 1 });
            proof {
                lemma_tally_new(done, ops@[k as int], before);
            }
        }
        k += 1;
    }
    assert(ops@.take(k as int) =~= ops@);
    v
}

proof fn lemma_starts_before_push(ops: Seq<Op>, op: Op, a: PackedStage, b: PackedStage)
    requires
        starts_before(ops, a, b),
    ensures
        starts_before(ops.push(op), a, b),
{
    let now = ops.push(op);
    let x = choose|x: int|
        0 <= x < ops.len() && PackedStage::of(#[trigger] ops[x]) == a && forall|j: int|
            0 <= j <= x ==> PackedStage::of(#[trigger] ops[j]) != b;
    assert(now[x] == ops[x]);
    assert forall|j: int| 0 <= j <= x implies PackedStage::of(#[trigger] now[j]) != b by {
        assert(now[j] == ops[j]);
    }
}

proof fn lemma_launches_push(ops: Seq<Op>, op: Op, stage: PackedStage)
    ensures
        launches_of(ops.push(op), stage) == launches_of(ops, stage) + if PackedStage::of(op) == stage {
            1nat
        } else {
            0
        },
{
    assert(ops.push(op).drop_last() =~= ops);
}

/// One more launch of a stage that is listed.
proof fn lemma_tally_again(done: Seq<Op>, op: Op, before: Seq<StageTally>, i: int)
    requires
        tallied(done, before),
        0 <= i < before.len(),
        before[i].stage == PackedStage::of(op),
        before[i].calls < usize::MAX,
    ensures
        tallied(
            done.push(op),
            before.update(i, StageTally { stage: before[i].stage, calls: (before[i].calls + 1) as usize }),
        ),
{
    let now = done.push(op);
    let stage = PackedStage::of(op);
    let v = before.update(i, StageTally { stage, calls: (before[i].calls + 1) as usize });
    assert forall|j: int| 0 <= j < v.len() implies (#[trigger] v[j]).calls == launches_of(now, v[j].stage)
        && v[j].calls > 0 by {
        lemma_launches_push(done, op, before[j].stage);
        assert(before[j].calls > 0);
        if j != i && before[j].stage == stage {
            if j < i {
                assert(starts_before(done, before[j].stage, before[i].stage));
            } else {
                assert(starts_before(done, before[i].stage, before[j].stage));
            }
        }
    }
    assert forall|a: int, b: int| 0 <= a < b < v.len() implies starts_before(
        now,
        (#[trigger] v[a]).stage,
        (#[trigger] v[b]).stage,
    ) by {
        assert(v[a].stage == before[a].stage && v[b].stage == before[b].stage);
        lemma_starts_before_push(done, op, before[a].stage, before[b].stage);
    }
    assert forall|x: int| 0 <= x < now.len() implies exists|j: int|
        0 <= j < v.len() && (#[trigger] v[j]).stage == PackedStage::of(#[trigger] now[x]) by {
        if x < done.len() {
            assert(now[x] == done[x]);
            let j = choose|j: int|
                0 <= j < before.len() && (#[trigger] before[j]).stage == PackedStage::of(done[x]);
            assert(v[j].stage == before[j].stage);
        } else {
            assert(v[i].stage == stage);
        }
    }
}

/// The first launch of a stage.
proof fn lemma_tally_new(done: Seq<Op>, op: Op, before: Seq<StageTally>)
    requires
        tallied(done, before),
        forall|j: int| 0 <= j < before.len() ==> (#[trigger] before[j]).stage != PackedStage::of(op),
    ensures
        tallied(done.push(op), before.push(StageTally { stage: PackedStage::of(op), calls: 1 })),
{
    let now = done.push(op);
    let stage = PackedStage::of(op);
    let v = before.push(StageTally { stage, calls: 1 });
    assert forall|x: int| 0 <= x < done.len() implies PackedStage::of(#[trigger] done[x]) != stage by {
        let j = choose|j: int|
            0 <= j < before.len() && (#[trigger] before[j]).stage == PackedStage::of(done[x]);
        assert(before[j].stage != stage);
    }
    lemma_none_of(done, stage);
    lemma_launches_push(done, op, stage);
    assert forall|j: int| 0 <= j < v.len() implies (#[trigger] v[j]).calls == launches_of(now, v[j].stage)
        && v[j].calls > 0 by {
        if j < before.len() {
            assert(v[j] == before[j]);
            assert(before[j].stage != stage);
            lemma_launches_push(done, op, before[j].stage);
        }
    }
    assert forall|a: int, b: int| 0 <= a < b < v.len() implies starts_before(
        now,
        (#[trigger] v[a]).stage,
        (#[trigger] v[b]).stage,
    ) by {
        assert(v[a] == before[a]);
        if b < before.len() {
            assert(v[b] == before[b]);
            lemma_starts_before_push(done, op, before[a].stage, before[b].stage);
        } else {
            assert(before[a].calls > 0);
            lemma_some_of(done, before[a].stage);
            let x = choose|x: int| 0 <= x < done.len() && PackedStage::of(#[trigger] done[x]) == before[a].stage;
            assert(now[x] == done[x]);
            assert forall|j: int| 0 <= j <= x implies PackedStage::of(#[trigger] now[j]) != stage by {
                assert(now[j] == done[j]);
            }
        }
    }
    assert forall|x: int| 0 <= x < now.len() implies exists|j: int|
        0 <= j < v.len() && (#[trigger] v[j]).stage == PackedStage::of(#[trigger] now[x]) by {
        if x < done.len() {
            assert(now[x] == done[x]);
            let j = choose|j: int|
                0 <= j < before.len() && (#[trigger] before[j]).stage == PackedStage::of(done[x]);
            assert(v[j] == before[j]);
        } else {
            assert(v[before.len() as int].stage == stage);
        }
    }
}

proof fn lemma_launches_bound(ops: Seq<Op>, stage: PackedStage)
    ensures
        launches_of(ops, stage) <= ops.len(),
    decreases ops.len(),
{
    if ops.len() > 0 {
        lemma_launches_bound(ops.drop_last(), stage);
    }
}

proof fn lemma_none_of(ops: Seq<Op>, stage: PackedStage)
    requires
        forall|x: int| 0 <= x < ops.len() ==> PackedStage::of(#[trigger] ops[x]) != stage,
    ensures
        launches_of(ops, stage) == 0,
    decreases ops.len(),
{
    if ops.len() > 0 {
        let d = ops.drop_last();
        assert forall|x: int| 0 <= x < d.len() implies PackedStage::of(#[trigger] d[x]) != stage by {
            assert(d[x] == ops[x]);
        }
        lemma_none_of(d, stage);
    }
}

proof fn lemma_some_of(ops: Seq<Op>, stage: PackedStage)
    requires
        launches_of(ops, stage) > 0,
    ensures
        exists|x: int| 0 <= x < ops.len() && PackedStage::of(#[trigger] ops[x]) == stage,
    decreases ops.len(),
{
    if PackedStage::of(ops.last()) == stage {
        assert(PackedStage::of(ops[ops.len() - 1]) == stage);
    } else {
        let d = ops.drop_last();
        lemma_some_of(d, stage);
        let x = choose|x: int| 0 <= x < d.len() && PackedStage::of(#[trigger] d[x]) == stage;
        assert(ops[x] == d[x]);
    }
}

/// Every launch of a batched step is reported under the name of what it does.
pub proof fn law_batch_stages_are_named_after_their_launches(op: Op, l: nat)
    ensures
        ({
            let name = batch_calls_spec(l, batch_stage(op) as int).0;
            &&& op is Embed ==> name == "embed"@
            &&& op is Norm ==> name == "rmsnorm"@
            &&& op is Rope ==> name == "rope"@
            &&& op is Store ==> name == "cache_store"@
            &&& op is Attend ==> name == "attention"@
            &&& op is SwiGlu ==> name == "swiglu"@
            &&& op is Add ==> name == "residual"@
            &&& op matches Op::Project { weight, .. } ==> match weight {
                Weight::Query { .. } | Weight::Key { .. } | Weight::Value { .. } => name == "qkv_proj"@,
                Weight::Output { .. } => name == "o_proj"@,
                Weight::Gate { .. } | Weight::Up { .. } => name == "gate_up_proj"@,
                Weight::Down { .. } => name == "down_proj"@,
                Weight::TokEmb => name == "lm_head"@,
                _ => true,
            }
        }),
{
}

/// Every launch of a packed call is reported under the name of what it does.
pub proof fn law_packed_stages_are_named_after_their_launches(op: Op)
    ensures
        ({
            let name = PackedStage::of(op).title();
            &&& op is Embed ==> name == "embed"@
            &&& op matches Op::Norm { weight, .. } ==> name == (if weight is FinalNorm {
                "final_norm"@
            } else {
                "norm"@
            })
            &&& op is Rope ==> name == "rope"@
            &&& op is Store ==> name == "kv_store"@
            &&& op is Attend ==> name == "attention"@
            &&& op is SwiGlu ==> name == "swiglu"@
            &&& op is Add ==> name == "residual"@
            &&& op is Gather ==> name == "final_gather"@
            &&& op is Argmax ==> name == "argmax"@
            &&& op is TopK ==> name == "topk"@
            &&& op matches Op::Project { weight, .. } ==> match weight {
                Weight::Query { .. } | Weight::Key { .. } | Weight::Value { .. } => name == "qkv_gemm"@,
                Weight::Output { .. } => name == "o_gemm"@,
                Weight::Gate { .. } | Weight::Up { .. } => name == "ffn_gate_up_gemm"@,
                Weight::Down { .. } => name == "down_gemm"@,
                Weight::TokEmb => name == "final_head"@,
                _ => true,
            }
        }),
{
}

} // verus!
