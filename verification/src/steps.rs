//! What a step computes, as it is uploaded and launched.
//!
//! The laws take the arrays a step uploads and the launches it queues together, and
//! say what is in the buffers it reads back: the logits of the caller's own tokens
//! at the caller's own positions.
use crate::equations;
use crate::equations::device;
use crate::gpu::{PARAM_POS, PARAM_PREFILL_POS, PARAM_SEQ, PARAM_TOKEN};
use crate::gpu_error::GpuError;
use crate::gpu_model;
use crate::gpu_model::{step_params, BatchUpload, DecodeStep, GpuModel, PackedStep, PrefillStep, Readback};
use crate::graphs::Run;
use crate::interpret;
use crate::interpret::{candidates, greatest, Call, Memory};
use crate::launch;
use crate::launch::{Buf, Place, Shape};
use crate::packed;
use crate::packed::{ChunkView, PackedPlan};
use vstd::prelude::*;

verus! {

/// The first entries of an uploaded array.
pub open spec fn front(v: Seq<i32>, n: nat) -> Seq<int> {
    Seq::new(n, |i: int| v[i] as int)
}

/// The rows that a decode step uploads. Which request a row's page table belongs to
/// is the caller's.
pub open spec fn decode_call(u: BatchUpload, n: nat, owners: Seq<int>) -> Call {
    Call {
        tokens: front(u.tokens@, n),
        owners,
        positions: front(u.positions@, n),
        seen: front(u.lens@, n),
        start: 0,
        finals: Seq::empty(),
        hybrid: false,
    }
}

/// Whether tokens are the next of their requests: each is the token that its
/// request's text has at its position, nothing occurs twice, and everything can be
/// counted on the device.
pub open spec fn continues(
    texts: spec_fn(int) -> Seq<int>,
    owners: Seq<int>,
    tokens: Seq<usize>,
    positions: Seq<usize>,
) -> bool {
    &&& owners.len() == tokens.len()
    &&& positions.len() == tokens.len()
    &&& forall|i: int|
        0 <= i < tokens.len() ==> {
            let text = texts(#[trigger] owners[i]);
            &&& positions[i] < text.len()
            &&& text[positions[i] as int] == tokens[i]
            &&& positions[i] < i32::MAX
            &&& tokens[i] <= i32::MAX
        }
    &&& forall|i: int, k: int|
        0 <= i < k < tokens.len() ==> !(#[trigger] owners[i] == #[trigger] owners[k] && positions[i]
            == positions[k])
}

proof fn lemma_decode_call(
    m: GpuModel,
    u: BatchUpload,
    tokens: Seq<usize>,
    positions: Seq<usize>,
    tables: Seq<i32>,
    lens: Seq<i32>,
    row_k: Seq<i32>,
    owners: Seq<int>,
    texts: spec_fn(int) -> Seq<int>,
)
    requires
        m.wf(),
        tokens.len() <= m.max_batch,
        m.uploads(u, tokens, positions, tables, lens, row_k),
        continues(texts, owners, tokens, positions),
        lens.len() == tokens.len(),
        forall|i: int| 0 <= i < lens.len() ==> #[trigger] lens[i] == positions[i] + 1,
    ensures
        ({
            let c = decode_call(u, tokens.len(), owners);
            &&& c.of(texts)
            &&& c.causal()
            &&& c.rows() == tokens.len()
            &&& forall|i: int| 0 <= i < tokens.len() ==> #[trigger] c.positions[i] == positions[i]
        }),
{
    let c = decode_call(u, tokens.len(), owners);
    assert forall|i: int| 0 <= i < tokens.len() implies c.positions[i] == positions[i] && c.tokens[i]
        == tokens[i] && c.seen[i] == positions[i] + 1 by {
        assert(texts(owners[i])[positions[i] as int] == tokens[i]);
        assert(positions[i] < i32::MAX && tokens[i] <= i32::MAX);
        assert(lens[i] == positions[i] + 1);
        assert(gpu_model::narrowed(positions)[i] == positions[i] as i32);
        assert(gpu_model::narrowed(tokens)[i] == tokens[i] as i32);
        assert(u.positions@[i] == gpu_model::narrowed(positions)[i]);
        assert(u.tokens@[i] == gpu_model::narrowed(tokens)[i]);
        assert(u.lens@[i] == lens[i]);
        assert(c.positions[i] == positions[i]);
        assert(c.tokens[i] == tokens[i]);
        assert(c.seen[i] == positions[i] + 1);
    }
    assert forall|i: int| 0 <= i < c.rows() implies {
        let text = texts(#[trigger] c.owners[i]);
        0 <= c.positions[i] < text.len() && c.tokens[i] == text[c.positions[i]]
    } by {
        assert(c.positions[i] == positions[i]);
    }
    assert forall|i: int, k: int| 0 <= i < k < c.rows() implies !(#[trigger] c.owners[i]
        == #[trigger] c.owners[k] && c.positions[i] == c.positions[k]) by {
        assert(c.positions[i] == positions[i]);
        assert(c.positions[k] == positions[k]);
        assert(owners[i] == owners[i] && owners[k] == owners[k]);
    }
}

proof fn lemma_batch_holds(m: GpuModel, n: nat)
    requires
        m.wf(),
        m.paging,
        n <= m.max_batch,
    ensures
        m.shape().holds(n as int),
{
    let s = m.shape();
    assert(n * s.n_embd <= 16 * s.n_embd) by (nonlinear_arith)
        requires
            n <= 16,
    ;
    assert(n * s.hidden <= 16 * s.hidden) by (nonlinear_arith)
        requires
            n <= 16,
    ;
}

/// A decode step, as uploaded and launched, gives each request the logits, and the
/// greatest logit, of its own text at its own position. A step that replays a graph
/// launches nothing of its own: its graph was captured from a step of the same size.
pub proof fn law_decode_step_continues_its_requests(
    before: GpuModel,
    after: GpuModel,
    tokens: Seq<usize>,
    positions: Seq<usize>,
    tables: Seq<i32>,
    lens: Seq<i32>,
    read: Readback,
    s: DecodeStep,
    owners: Seq<int>,
    texts: spec_fn(int) -> Seq<int>,
    m: Memory,
)
    requires
        before.wf(),
        before.paging,
        before.hidden > 0,
        before.cfg.n_embd > 0,
        GpuModel::plain_outcome(
            before,
            after,
            tokens,
            positions,
            tables,
            lens,
            read,
            Ok::<Option<DecodeStep>, GpuError>(Some(s)),
        ),
        s.run != Run::Replay,
        continues(texts, owners, tokens, positions),
        forall|i: int| 0 <= i < lens.len() ==> #[trigger] lens[i] == positions[i] + 1,
        interpret::past(
            before.shape(),
            decode_call(s.upload, tokens.len(), owners),
            m,
            texts,
            true,
        ),
    ensures
        ({
            let c = decode_call(s.upload, tokens.len(), owners);
            let done = interpret::run(before.shape(), c, s.ops@, m);
            &&& forall|i: int|
                0 <= i < tokens.len() ==> {
                    let logits = equations::logits(
                        before.shape(),
                        device(),
                        texts(#[trigger] owners[i]),
                        positions[i] as int,
                    );
                    &&& done(Place::Batch { buf: Buf::Logits }, i, 0) == logits
                    &&& done(Place::Batch { buf: Buf::Ids }, i, 0) == greatest(logits)
                }
            &&& interpret::cached(before.shape(), c, done, texts, true, before.shape().n_layer as nat)
            &&& interpret::kept(c, m, done, true, before.shape().n_layer as nat)
        }),
{
    let n = tokens.len();
    let c = decode_call(s.upload, n, owners);
    lemma_batch_holds(before, n);
    lemma_decode_call(before, s.upload, tokens, positions, tables, lens, Seq::empty(), owners, texts);
    interpret::law_decode_computes_the_transformer(
        before.shape(),
        n as usize,
        false,
        before.switches.force_decode_gemm,
        c,
        texts,
        m,
    );
    assert forall|i: int| 0 <= i < n implies {
        let logits = equations::logits(
            before.shape(),
            device(),
            texts(#[trigger] owners[i]),
            positions[i] as int,
        );
        let done = interpret::run(before.shape(), c, s.ops@, m);
        &&& done(Place::Batch { buf: Buf::Logits }, i, 0) == logits
        &&& done(Place::Batch { buf: Buf::Ids }, i, 0) == greatest(logits)
    } by {
        assert(c.owners[i] == owners[i]);
        assert(c.positions[i] == positions[i]);
    }
}

/// The same of a step that also selects candidates, for the rows that ask for any.
pub proof fn law_mixed_step_continues_its_requests(
    before: GpuModel,
    after: GpuModel,
    tokens: Seq<usize>,
    positions: Seq<usize>,
    tables: Seq<i32>,
    lens: Seq<i32>,
    topk_rows: Seq<(usize, usize)>,
    full_rows: Seq<usize>,
    s: DecodeStep,
    owners: Seq<int>,
    texts: spec_fn(int) -> Seq<int>,
    m: Memory,
)
    requires
        before.wf(),
        before.paging,
        before.hidden > 0,
        before.cfg.n_embd > 0,
        GpuModel::mixed_outcome(
            before,
            after,
            tokens,
            positions,
            tables,
            lens,
            topk_rows,
            full_rows,
            Ok::<Option<DecodeStep>, GpuError>(Some(s)),
        ),
        s.run != Run::Replay,
        continues(texts, owners, tokens, positions),
        forall|i: int| 0 <= i < lens.len() ==> #[trigger] lens[i] == positions[i] + 1,
        interpret::past(
            before.shape(),
            decode_call(s.upload, tokens.len(), owners),
            m,
            texts,
            true,
        ),
    ensures
        ({
            let done = interpret::run(
                before.shape(),
                decode_call(s.upload, tokens.len(), owners),
                s.ops@,
                m,
            );
            forall|i: int|
                0 <= i < tokens.len() ==> {
                    let logits = equations::logits(
                        before.shape(),
                        device(),
                        texts(#[trigger] owners[i]),
                        positions[i] as int,
                    );
                    &&& done(Place::Batch { buf: Buf::Logits }, i, 0) == logits
                    &&& done(Place::Batch { buf: Buf::Ids }, i, 0) == greatest(logits)
                    &&& topk_rows.len() > 0 ==> done(Place::Batch { buf: Buf::Candidates }, i, 0)
                        == candidates(logits)
                }
        }),
{
    let n = tokens.len();
    let topk = topk_rows.len() > 0;
    let c = decode_call(s.upload, n, owners);
    let k = choose|k: Seq<i32>| #[trigger]
        GpuModel::counts(k, topk_rows, n) && before.uploads(
            s.upload,
            tokens,
            positions,
            tables,
            lens,
            k,
        ) && after.uploaded(before, tables, k, n);
    lemma_batch_holds(before, n);
    lemma_decode_call(before, s.upload, tokens, positions, tables, lens, k, owners, texts);
    interpret::law_decode_computes_the_transformer(
        before.shape(),
        n as usize,
        topk,
        before.switches.force_decode_gemm,
        c,
        texts,
        m,
    );
    assert forall|i: int| 0 <= i < n implies {
        let logits = equations::logits(
            before.shape(),
            device(),
            texts(#[trigger] owners[i]),
            positions[i] as int,
        );
        let done = interpret::run(before.shape(), c, s.ops@, m);
        &&& done(Place::Batch { buf: Buf::Logits }, i, 0) == logits
        &&& done(Place::Batch { buf: Buf::Ids }, i, 0) == greatest(logits)
        &&& topk ==> done(Place::Batch { buf: Buf::Candidates }, i, 0) == candidates(logits)
    } by {
        assert(c.owners[i] == owners[i]);
        assert(c.positions[i] == positions[i]);
    }
}

/// Each row asks for as many candidates as its last entry in the list says, and a
/// row that is not listed for none.
pub proof fn law_listed_rows_get_their_candidates(rows: Seq<(usize, usize)>, at: int, row: int)
    requires
        0 <= at < rows.len(),
        rows[at].0 == row,
        forall|k: int| at < k < rows.len() ==> (#[trigger] rows[k]).0 != row,
    ensures
        packed::candidates(rows, row) == rows[at].1,
    decreases rows.len(),
{
    if at < rows.len() - 1 {
        let some = rows.drop_last();
        assert(rows.last() == rows[rows.len() - 1]);
        assert forall|k: int| at < k < some.len() implies (#[trigger] some[k]).0 != row by {
            assert(some[k] == rows[k]);
        }
        law_listed_rows_get_their_candidates(some, at, row);
    }
}

/// The row that a single token's step uploads: in the parameters, and where its
/// cache is in pages, in the first slot.
pub open spec fn token_call(params: Seq<i32>, lens: Seq<i32>, paged: bool, owner: int) -> Call {
    Call {
        tokens: seq![params[PARAM_TOKEN as int] as int],
        owners: seq![owner],
        positions: seq![params[PARAM_POS as int] as int],
        seen: seq![
            if paged {
                lens[0] as int
            } else {
                params[PARAM_SEQ as int] as int
            },
        ],
        start: 0,
        finals: Seq::empty(),
        hybrid: false,
    }
}

/// A single token's step, as uploaded and launched, gives the logits of its text at
/// its position.
pub proof fn law_token_step_continues_its_request(
    before: GpuModel,
    after: GpuModel,
    params: Seq<i32>,
    token: usize,
    pos: usize,
    slot: usize,
    owner: int,
    texts: spec_fn(int) -> Seq<int>,
    m: Memory,
)
    requires
        before.wf(),
        before.cfg.n_embd > 0,
        params == step_params(before.host_params@, token, pos, slot),
        before.pages_slotted(after, pos),
        before.use_paged ==> before.host_lens@.len() > 0,
        pos < texts(owner).len(),
        texts(owner)[pos as int] == token,
        pos < i32::MAX,
        token <= i32::MAX,
        interpret::past(
            before.shape(),
            token_call(params, after.host_lens@, before.use_paged, owner),
            m,
            texts,
            before.use_paged,
        ),
    ensures
        ({
            let s = before.shape();
            let c = token_call(params, after.host_lens@, before.use_paged, owner);
            let ops = launch::token(s, before.use_paged, before.switches.split_attention);
            let done = interpret::run(s, c, ops, m);
            &&& done(Place::Single { buf: Buf::Logits }, 0, 0) == equations::logits(
                s,
                device(),
                texts(owner),
                pos as int,
            )
            &&& interpret::cached(s, c, done, texts, before.use_paged, s.n_layer as nat)
            &&& interpret::kept(c, m, done, before.use_paged, s.n_layer as nat)
        }),
{
    let c = token_call(params, after.host_lens@, before.use_paged, owner);
    assert(c.tokens[0] == token && c.positions[0] == pos && c.seen[0] == pos + 1);
    interpret::law_token_computes_the_transformer(
        before.shape(),
        before.use_paged,
        before.switches.split_attention,
        c,
        texts,
        m,
    );
}

/// The rows that a chunk uploads. Where attention works by descriptors, the
/// descriptor says where they stand.
pub open spec fn chunk_call(s: PrefillStep, t: nat, pos_offset: int, owner: int, hybrid: bool) -> Call {
    let start = match s.segment {
        Some(d) => d@[2] as int,
        None => pos_offset,
    };
    Call {
        tokens: front(s.tokens@, t),
        owners: Seq::new(t, |i: int| owner),
        positions: Seq::new(t, |i: int| start + i),
        seen: Seq::empty(),
        start: s.params@[PARAM_PREFILL_POS as int] as int,
        finals: Seq::empty(),
        hybrid,
    }
}

/// A chunk of a prompt, as uploaded and launched, gives the logits of its last
/// token where logits are wanted, and caches the keys and values of all of its
/// tokens at their own positions.
pub proof fn law_prefill_step_continues_its_request(
    before: GpuModel,
    after: GpuModel,
    tokens: Seq<usize>,
    pos_offset: usize,
    want_logits: bool,
    s: PrefillStep,
    owner: int,
    texts: spec_fn(int) -> Seq<int>,
    m: Memory,
)
    requires
        before.wf(),
        before.hidden > 0,
        before.cfg.n_embd > 0,
        0 < tokens.len() <= before.capacity,
        tokens.len() + pos_offset <= i32::MAX,
        before.prefills(after, tokens, pos_offset, want_logits, s),
        s.run != Run::Replay,
        pos_offset + tokens.len() <= texts(owner).len(),
        forall|i: int|
            0 <= i < tokens.len() ==> texts(owner)[pos_offset + i] == #[trigger] tokens[i] && tokens[i]
                <= i32::MAX,
        interpret::past(
            before.shape(),
            chunk_call(s, tokens.len(), pos_offset as int, owner, before.prefill_attention.hybrid()),
            m,
            texts,
            before.use_paged,
        ),
    ensures
        ({
            let shape = before.shape();
            let c = chunk_call(
                s,
                tokens.len(),
                pos_offset as int,
                owner,
                before.prefill_attention.hybrid(),
            );
            let done = interpret::run(shape, c, s.ops@, m);
            &&& want_logits ==> done(Place::Single { buf: Buf::Logits }, 0, 0) == equations::logits(
                shape,
                device(),
                texts(owner),
                pos_offset + tokens.len() - 1,
            )
            &&& interpret::cached(shape, c, done, texts, before.use_paged, shape.n_layer as nat)
            &&& interpret::kept(c, m, done, before.use_paged, shape.n_layer as nat)
            &&& forall|i: int| 0 <= i < tokens.len() ==> #[trigger] c.positions[i] == pos_offset + i
        }),
{
    let t = tokens.len();
    let shape = before.shape();
    let c = chunk_call(s, t, pos_offset as int, owner, before.prefill_attention.hybrid());
    let mode = before.prompt_mode(pos_offset);
    assert(c.start == pos_offset);
    assert forall|i: int| 0 <= i < t implies #[trigger] c.positions[i] == pos_offset + i && c.tokens[i]
        == tokens[i] by {
        assert(s.tokens@[i] == tokens[i]);
    }
    assert forall|i: int| 0 <= i < c.rows() implies {
        let text = texts(#[trigger] c.owners[i]);
        0 <= c.positions[i] < text.len() && c.tokens[i] == text[c.positions[i]]
    } by {
        assert(c.positions[i] == pos_offset + i);
        assert(texts(owner)[pos_offset + i] == tokens[i]);
    }
    assert forall|i: int, k: int| 0 <= i < k < c.rows() implies !(#[trigger] c.owners[i]
        == #[trigger] c.owners[k] && c.positions[i] == c.positions[k]) by {
        assert(c.positions[i] == pos_offset + i);
        assert(c.positions[k] == pos_offset + k);
    }
    assert(t * shape.n_embd <= before.capacity * shape.n_embd) by (nonlinear_arith)
        requires
            t <= before.capacity,
    ;
    assert(t * shape.hidden <= before.capacity * shape.hidden) by (nonlinear_arith)
        requires
            t <= before.capacity,
    ;
    interpret::law_prefill_gives_the_last_position(
        shape,
        t as usize,
        mode,
        want_logits,
        c,
        texts,
        m,
    );
}

/// The rows that a packed call uploads.
pub open spec fn packed_call(p: PackedPlan, hybrid: bool) -> Call {
    Call {
        tokens: front(p.tokens@, p.tokens@.len()),
        owners: front(p.owners@, p.owners@.len()),
        positions: front(p.positions@, p.positions@.len()),
        seen: Seq::empty(),
        start: 0,
        finals: front(p.final_rows@, p.final_rows@.len()),
        hybrid,
    }
}

/// Whether a chunk is the piece of a text that stands at its position.
pub open spec fn chunk_of(text: Seq<int>, c: ChunkView) -> bool {
    &&& c.end() <= text.len()
    &&& forall|k: int|
        0 <= k < c.tokens.len() ==> text[c.pos_offset + k] == #[trigger] c.tokens[k]
}

proof fn lemma_packed_row(
    p: PackedPlan,
    lim: packed::PackedLimits,
    chunks: Seq<ChunkView>,
    topk_rows: Seq<(usize, usize)>,
    texts: spec_fn(int) -> Seq<int>,
    r: int,
)
    requires
        p.describes(lim, chunks, topk_rows),
        0 <= r < p.rows,
        forall|i: int| 0 <= i < chunks.len() ==> chunk_of(texts(i), #[trigger] chunks[i]),
    ensures
        ({
            let i = p.owners@[r] as int;
            let k = p.positions@[r] - chunks[i].pos_offset;
            &&& packed::is_row(chunks, r, i, k)
            &&& 0 <= p.positions@[r]
            &&& p.positions@[r] < texts(i).len()
            &&& p.tokens@[r] == texts(i)[p.positions@[r] as int]
        }),
{
    packed::law_rows_are_tiled(chunks, r);
    let (i, k) = choose|i: int, k: int| packed::is_row(chunks, r, i, k);
    assert(packed::is_row(chunks, r, i, k));
    assert(chunk_of(texts(i), chunks[i]));
    assert(texts(i)[chunks[i].pos_offset + k] == chunks[i].tokens[k]);
}

proof fn lemma_packed_call(
    p: PackedPlan,
    lim: packed::PackedLimits,
    chunks: Seq<ChunkView>,
    topk_rows: Seq<(usize, usize)>,
    texts: spec_fn(int) -> Seq<int>,
    c: Call,
)
    requires
        p.describes(lim, chunks, topk_rows),
        forall|i: int| 0 <= i < chunks.len() ==> chunk_of(texts(i), #[trigger] chunks[i]),
        c == packed_call(p, c.hybrid),
    ensures
        c.of(texts),
{
    assert forall|r: int| 0 <= r < c.rows() implies 0 <= c.positions[r] && c.positions[r] < texts(
        #[trigger] c.owners[r],
    ).len() && c.tokens[r] == texts(c.owners[r])[c.positions[r]] by {
        lemma_packed_row(p, lim, chunks, topk_rows, texts, r);
    }
    assert forall|r: int| 0 <= r < c.rows() implies 0 <= #[trigger] c.positions[r] by {
        lemma_packed_row(p, lim, chunks, topk_rows, texts, r);
    }
    assert forall|a: int, b: int| 0 <= a < b < c.rows() implies !(#[trigger] c.owners[a]
        == #[trigger] c.owners[b] && c.positions[a] == c.positions[b]) by {
        lemma_packed_row(p, lim, chunks, topk_rows, texts, a);
        lemma_packed_row(p, lim, chunks, topk_rows, texts, b);
    }
    assert(c.tokens.len() == c.rows());
    assert(c.owners.len() == c.rows());
}

/// A packed call, as uploaded and launched, gives each prompt that it finishes the
/// logits, and the greatest logit, of that prompt's own text at its own last
/// position, in the order in which the prompts were given.
pub proof fn law_packed_step_continues_its_requests(
    before: GpuModel,
    after: GpuModel,
    chunks: Seq<ChunkView>,
    topk_rows: Seq<(usize, usize)>,
    full_rows: Seq<usize>,
    s: PackedStep,
    texts: spec_fn(int) -> Seq<int>,
    m: Memory,
)
    requires
        before.wf(),
        before.hidden > 0,
        before.cfg.n_embd > 0,
        GpuModel::packs(before, after, chunks, topk_rows, full_rows, s),
        forall|i: int| 0 <= i < chunks.len() ==> chunk_of(texts(i), #[trigger] chunks[i]),
        interpret::past(
            before.shape(),
            packed_call(s.plan, before.prefill_attention.hybrid()),
            m,
            texts,
            true,
        ),
    ensures
        ({
            let shape = before.shape();
            let c = packed_call(s.plan, before.prefill_attention.hybrid());
            let done = interpret::run(shape, c, s.ops@, m);
            &&& forall|i: int|
                0 <= i < chunks.len() && (#[trigger] chunks[i]).want_logits ==> {
                    let row = packed::finals_before(chunks, i as nat) as int;
                    let logits = equations::logits(shape, device(), texts(i), chunks[i].end() - 1);
                    &&& done(Place::Batch { buf: Buf::Logits }, row, 0) == logits
                    &&& done(Place::Batch { buf: Buf::Ids }, row, 0) == greatest(logits)
                    &&& topk_rows.len() > 0 ==> done(Place::Batch { buf: Buf::Candidates }, row, 0)
                        == candidates(logits)
                }
            &&& interpret::cached(shape, c, done, texts, true, shape.n_layer as nat)
            &&& interpret::kept(c, m, done, true, shape.n_layer as nat)
        }),
{
    let n = chunks.len();
    let lim = before.limits();
    let shape = before.shape();
    let p = s.plan;
    let hybrid = before.prefill_attention.hybrid();
    let c = packed_call(p, hybrid);
    let topk = topk_rows.len() > 0;
    before.lemma_limits();
    packed::law_only_well_formed_calls_are_accepted(lim, chunks, topk_rows, full_rows);
    packed::law_finals_are_counted(chunks, n);
    lemma_packed_call(p, lim, chunks, topk_rows, texts, c);
    assert forall|f: int| 0 <= f < p.finals implies 0 <= #[trigger] c.finals[f] < p.rows by {
        packed::lemma_final_row(chunks, n, f);
    }
    let cap = before.capacity;
    assert(p.rows * shape.n_embd <= cap * shape.n_embd) by (nonlinear_arith)
        requires
            p.rows <= cap,
    ;
    assert(p.rows * shape.hidden <= cap * shape.hidden) by (nonlinear_arith)
        requires
            p.rows <= cap,
    ;
    interpret::law_packed_prefill_gives_the_final_rows(
        shape,
        p.rows,
        before.packed_mode(),
        p.finals,
        topk,
        c,
        texts,
        m,
    );
    assert forall|i: int| 0 <= i < n && (#[trigger] chunks[i]).want_logits implies {
        let done = interpret::run(shape, c, s.ops@, m);
        let row = packed::finals_before(chunks, i as nat) as int;
        let logits = equations::logits(shape, device(), texts(i), chunks[i].end() - 1);
        &&& done(Place::Batch { buf: Buf::Logits }, row, 0) == logits
        &&& done(Place::Batch { buf: Buf::Ids }, row, 0) == greatest(logits)
        &&& topk ==> done(Place::Batch { buf: Buf::Candidates }, row, 0) == candidates(logits)
    } by {
        let row = packed::finals_before(chunks, i as nat) as int;
        packed::law_final_rows_are_last_rows(lim, chunks, i);
        let r = p.final_rows@[row] as int;
        assert(packed::is_row(chunks, r, i, chunks[i].tokens.len() - 1));
        assert(c.finals[row] == r);
    }
}

} // verus!
