use llm_engine::gpu::{
    attn_chunks, host_argmax, Geometry, Gpu, Kernel, Precision, PrefillAttentionVariant, Tile,
};
use llm_engine::gpu_error::GpuError;
use llm_engine::gpu_model::{supported, Forward, GpuModel, Readback, Switches};
use llm_engine::graphs::{graph_slot, BatchGraphs, PrefillGraphs, PrefillKey, Run};
use llm_engine::launch::{
    queue_decode_batch, queue_packed_prefill, queue_prefill, queue_single_selection, queue_token,
    Attention, How, Op, PrefillMode, Shape,
};
use llm_engine::packed::{prepare_packed_prefill, PackedLimits, PackedPrefillRequest};
use llm_engine::paged::{PageError, SequencePages};
use llm_engine::profile::{
    batch_step_kernels, packed_boundaries, profile_batch, profile_batch_calls, profile_step,
    profile_step_calls, tally, PackedStage,
};
use llm_engine::wire::F32Bits;
use llm_engine::Config;

fn config() -> Config {
    Config {
        vocab_size: 500,
        n_layer: 2,
        n_head: 4,
        n_kv_head: 2,
        n_embd: 16,
        block_size: 64,
        attention: "gqa".into(),
        pos_encoding: "rope".into(),
        activation: "swiglu".into(),
        norm: "rmsnorm".into(),
        norm_placement: "pre".into(),
        rope_theta: F32Bits(0x461c_4000),
        bias: false,
        tie_word_embeddings: true,
        val_loss: None,
        trained_steps: None,
    }
}

fn switches() -> Switches {
    Switches::new(None, None, None, None, None, None, None)
}

fn model() -> GpuModel {
    let mut m = GpuModel::load_with(
        config(),
        64,
        Precision::Int8,
        32,
        switches(),
        PrefillAttentionVariant::default(),
    );
    m.enable_paging(16, 4).unwrap();
    m
}

fn shape() -> Shape {
    model().shape_of()
}

fn grid_of(g: Geometry) -> (u32, u32) {
    match g {
        Geometry::Blocks { grid } => (grid.grid_x, grid.grid_y),
        Geometry::Elems { n } => (n, 1),
    }
}

fn bits(v: &[f32]) -> Vec<F32Bits> {
    v.iter().map(|x| F32Bits(x.to_bits())).collect()
}

#[test]
fn selection_takes_the_first_maximum_and_is_not_misled_by_nan() {
    let vocab = 5030;
    let mut dense: Vec<f32> = (0..vocab).map(|i| ((i as f32) * 0.7391).sin() * 3.0 - 1.0).collect();
    dense[3133] = 9.0;
    assert_eq!(host_argmax(&bits(&dense)), 3133);
    let mut tied = vec![-2.0f32; vocab];
    tied[100] = 5.0;
    tied[700] = 5.0; // exact tie: the lower index must win
    assert_eq!(host_argmax(&bits(&tied)), 100);
    let mut last = vec![-3.0f32; vocab];
    last[vocab - 1] = 1.0;
    assert_eq!(host_argmax(&bits(&last)), vocab - 1);
    let mut close = vec![0.0f32; vocab];
    close[424] = 1.000_000_1;
    close[425] = 1.0;
    assert_eq!(host_argmax(&bits(&close)), 424);
    let mut nan_first = vec![1.0f32; vocab];
    nan_first[0] = f32::NAN; // nothing is greater than NaN
    assert_eq!(host_argmax(&bits(&nan_first)), 0);
    let mut nan_mid = vec![1.0f32; vocab];
    nan_mid[500] = f32::NAN;
    nan_mid[900] = 4.0;
    assert_eq!(host_argmax(&bits(&nan_mid)), 900);
    assert_eq!(host_argmax(&bits(&vec![f32::NAN; vocab])), 0);
}

#[test]
fn kernels_have_their_names_and_grids() {
    assert_eq!(Kernel::GemvVec4.name(), "gemv_f32_vec4");
    assert_eq!(Gpu::gemv(2048, 768).kernel, Kernel::GemvVec4);
    assert_eq!(Gpu::gemv(2048, 767).kernel, Kernel::Gemv);
    assert_eq!(grid_of(Gpu::gemv_scalar(2048).geometry), (2048, 1));
    assert!(Gpu::gemv_at(8, 8, true).is_err());
    assert_eq!(Gpu::gemv_batch_i8(64, 64, 3).unwrap().kernel, Kernel::GemvBatchI8B4);
    assert!(Gpu::gemv_batch_i8(64, 64, 17).is_err());
    assert!(Gpu::mlp_swiglu(Precision::F32, Precision::Int8, 8).is_err());
    assert_eq!((attn_chunks(1), attn_chunks(128), attn_chunks(129)), (1, 1, 2));
}

#[test]
fn big_tiles_pay_only_where_they_fill_the_device() {
    let g = Gpu::new(36, None);
    assert_eq!(g.tile, Tile::Auto);
    assert_eq!(g.gemm(Precision::Int8, 1024, 768).kernel, Kernel::GemmI8WmmaBig);
    assert_eq!(g.gemm(Precision::Int8, 16, 768).kernel, Kernel::GemmI8Wmma);
    assert_eq!(Gpu::new(36, Some("tiled")).gemm(Precision::F32, 16, 16).kernel, Kernel::GemmF32);
    assert_eq!(Gpu::new(36, Some("wmma-big")).tile, Tile::Big);
    assert_eq!(Gpu::new(36, Some("wmma-small")).tile, Tile::Small);
    // The grid covers every output and no tile is empty.
    assert_eq!(grid_of(g.gemm(Precision::Int8, 65, 130).geometry).0, 3);
}

#[test]
fn precisions_are_parsed_by_name() {
    assert_eq!(Precision::parse("f32"), Some(Precision::F32));
    assert_eq!(Precision::parse("int8"), Some(Precision::Int8));
    assert_eq!(Precision::parse("fp16"), None);
}

#[test]
fn switches_follow_the_environment() {
    let s = switches();
    assert!(s.use_batch_graph && s.use_device_topk && s.use_batched_prefill);
    assert!(!s.force_decode_gemm && !s.split_attention && !s.use_graph);
    let s = Switches::new(
        Some(""),
        Some("0"),
        Some("0"),
        Some("0"),
        Some("0"),
        Some("split"),
        Some("serial"),
    );
    assert!(s.force_decode_gemm && s.split_attention);
    assert!(!s.use_batch_graph && !s.use_prefill_graph && !s.use_device_argmax);
    assert!(!s.use_device_topk && !s.use_batched_prefill);
}

#[test]
fn only_some_architectures_run_on_the_device() {
    assert!(supported(&config()).is_ok());
    let c = Config { pos_encoding: "alibi".into(), ..config() };
    assert_eq!(
        supported(&c).unwrap_err(),
        "the GPU path currently implements rope only, not alibi"
    );
    let c = Config { norm: "layernorm".into(), ..config() };
    assert!(supported(&c).unwrap_err().contains("rmsnorm"));
    let c = Config { norm_placement: "post".into(), ..config() };
    assert!(supported(&c).unwrap_err().contains("pre-norm"));
}

#[test]
fn a_batched_step_launches_fifteen_kernels_per_layer() {
    let s = shape();
    let ops = queue_decode_batch(&s, 3, false, false).unwrap();
    assert_eq!(batch_step_kernels(2), 1 + 2 * 15 + 2);
    assert_eq!(ops.len(), batch_step_kernels(2) + 1);
    let sampled = queue_decode_batch(&s, 3, true, false).unwrap();
    assert_eq!(sampled.len(), ops.len() + 1);
    assert_eq!(&sampled[..ops.len()], &ops[..]);
    assert!(matches!(sampled[ops.len()], Op::TopK { rows: 3, .. }));
    // The same ops whatever the batch, but for the number of rows.
    let single = queue_decode_batch(&s, 1, false, false).unwrap();
    assert_eq!(single.len(), ops.len());
    let gemm = queue_decode_batch(&s, 3, false, true).unwrap();
    assert!(gemm.iter().all(|o| !matches!(o, Op::Project { how: How::BatchGemv, .. })));
}

#[test]
fn only_swiglu_runs_on_the_device() {
    let s = Shape { swiglu: false, ..shape() };
    assert!(queue_decode_batch(&s, 1, false, false).is_err());
    assert!(queue_token(&s, false, false).is_err());
}

#[test]
fn attention_reads_from_where_keys_were_stored() {
    let s = shape();
    let ops = queue_token(&s, true, false).unwrap();
    assert!(ops.iter().any(|o| matches!(o, Op::Attend { kernel: Attention::DecodePaged, .. })));
    let ops = queue_token(&s, false, true).unwrap();
    assert!(ops.iter().any(|o| matches!(o, Op::Attend { kernel: Attention::Split { .. }, .. })));
    let mode = PrefillMode {
        packed: false,
        paged: true,
        tiled: true,
        hybrid: false,
        pos_offset: 3,
    };
    let ops = queue_prefill(&s, 5, &mode, false).unwrap();
    assert!(ops.iter().any(|o| matches!(o, Op::Attend { kernel: Attention::Tiled, .. })));
    let with_logits = queue_prefill(&s, 5, &mode, true).unwrap();
    assert!(with_logits.len() > ops.len());
    let packed = PrefillMode { packed: true, tiled: false, ..mode };
    let ops = queue_packed_prefill(&s, 5, &packed, 2, true).unwrap();
    assert!(ops.iter().any(|o| matches!(o, Op::Attend { kernel: Attention::Packed, .. })));
    assert!(matches!(ops[ops.len() - 1], Op::TopK { rows: 2, .. }));
    assert_eq!(queue_single_selection(false).len() + 1, queue_single_selection(true).len());
}

#[test]
fn profiles_time_what_a_step_launches() {
    let s = shape();
    let timed = profile_batch(&s, 2, false).unwrap();
    let calls = profile_batch_calls(2);
    let total: usize = calls.iter().map(|c| c.calls).sum();
    // Every timed block ends in a sync; the copy of the logits comes after them.
    assert_eq!(timed.iter().filter(|t| t.sync).count() + 1, total);
    assert_eq!((calls[2].name, calls[2].calls), ("qkv_proj", 6));
    let step = queue_decode_batch(&s, 2, false, false).unwrap();
    let ops: Vec<Op> = timed.iter().map(|t| t.op).collect();
    assert_eq!(ops.iter().filter(|o| matches!(o, Op::Attend { .. })).count(),
               step.iter().filter(|o| matches!(o, Op::Attend { .. })).count());
    let token: Vec<Op> = profile_step(&s, false, false).unwrap().iter().map(|t| t.op).collect();
    // The same launches, grouped by stage.
    let queued = queue_token(&s, false, false).unwrap();
    assert_eq!(token.len(), queued.len());
    assert!(token.iter().all(|o| queued.contains(o)));
    assert!(!profile_step_calls(true, 2).is_empty());
}

#[test]
fn packed_stages_are_tallied_in_order_of_appearance() {
    let s = shape();
    let mode = PrefillMode { packed: true, paged: true, tiled: true, hybrid: false, pos_offset: 0 };
    let ops = queue_packed_prefill(&s, 4, &mode, 2, true).unwrap();
    let t = tally(&ops);
    let total: usize = t.iter().map(|x| x.calls).sum();
    assert_eq!(total, ops.len());
    assert_eq!(t[0].stage, PackedStage::Embed);
    assert_eq!(t[0].stage.name(), "embed");
    assert_eq!(ops.len(), packed_boundaries(2));
}

#[test]
fn graphs_are_captured_once_and_replayed() {
    assert_eq!((graph_slot(1, false), graph_slot(1, true), graph_slot(4, true)), (0, 1, 7));
    let mut g = BatchGraphs::new(8);
    assert_eq!(g.run(true, 3), Run::Capture);
    assert_eq!(g.run(false, 3), Run::Eager);
    assert_eq!(g.run(true, 8), Run::Eager);
    g.insert(3);
    assert_eq!((g.run(true, 3), g.captured(), g.len()), (Run::Replay, 1, 8));
    g.invalidate();
    assert_eq!((g.run(true, 3), g.captured()), (Run::Capture, 0));

    let key = PrefillKey { len: 5, want_logits: true, score_capacity: 0 };
    let mut p = PrefillGraphs::new();
    assert_eq!(p.run(true, key), Run::Capture);
    p.insert(key);
    p.replayed();
    assert_eq!(p.run(true, key), Run::Replay);
    assert_eq!(p.stats(), (1, 1));
    let other = PrefillKey { len: 6, ..key };
    p.fail(other);
    assert_eq!(p.run(true, other), Run::Eager);
    p.invalidate();
    assert!(!p.has(key));
}

#[test]
fn the_number_of_resident_prefill_graphs_is_bounded() {
    let mut p = PrefillGraphs::new();
    for len in 1..=64 {
        let key = PrefillKey { len, want_logits: false, score_capacity: 0 };
        assert_eq!(p.run(true, key), Run::Capture);
        p.insert(key);
    }
    let more = PrefillKey { len: 65, want_logits: false, score_capacity: 0 };
    assert_eq!(p.run(true, more), Run::Eager);
}

#[test]
fn paging_is_sized_for_the_whole_context() {
    let mut m = model();
    assert!(m.use_paged());
    assert_eq!((m.table_stride(), m.max_batch()), (4, 4));
    assert_eq!(m.page_pool().n_pages(), 16);
    assert_eq!(m.enable_paging(1, 17).unwrap_err(), GpuError::MaxBatch);
    assert_eq!(m.enable_paging(1, 0).unwrap_err(), GpuError::MaxBatch);
    assert_eq!(m.page_pool().n_pages(), 16);
}

#[test]
fn a_batch_is_refused_before_anything_is_uploaded() {
    let mut m = model();
    let tables = vec![0i32; 16];
    let step = |m: &mut GpuModel, tokens: &[usize], positions: &[usize], t: &[i32], lens: &[i32]| {
        m.decode_batch(tokens, positions, t, lens).map(|s| s.is_some())
    };
    assert_eq!(
        step(&mut m, &[1; 5], &[0; 5], &tables, &[1; 5]),
        Err(GpuError::BatchTooLarge { n: 5, max: 4 })
    );
    assert_eq!(step(&mut m, &[1], &[], &tables, &[1]), Err(GpuError::Metadata));
    assert_eq!(
        step(&mut m, &[1], &[0], &tables[..3], &[1]),
        Err(GpuError::TableSize { want: 16 })
    );
    assert_eq!(
        step(&mut m, &[500], &[0], &tables, &[1]),
        Err(GpuError::Token { token: 500, vocab: 500 })
    );
    assert_eq!(step(&mut m, &[], &[], &tables, &[]), Ok(false));
    m.set_paged(false);
    assert_eq!(step(&mut m, &[1], &[0], &tables, &[1]), Err(GpuError::DecodeNeedsPaging));
}

#[test]
fn a_step_reads_back_what_was_asked_for() {
    let mut m = model();
    let tables = vec![0i32; 16];
    let s = m.decode_batch(&[3, 4], &[0, 5], &tables, &[1, 6]).unwrap().unwrap();
    assert!(matches!(s.read, Readback::Logits { rows: 2 }));
    assert_eq!(s.upload.tokens, vec![3, 4, 0, 0]);
    assert_eq!(s.upload.positions, vec![0, 5, 0, 0]);
    assert_eq!(s.upload.lens, vec![1, 6, 0, 0]);
    assert_eq!((s.slot, s.run), (2, Run::Capture));
    m.decode_captured(2, false);
    let s = m.decode_batch_tokens(&[3, 4], &[0, 5], &tables, &[1, 6]).unwrap().unwrap();
    assert_eq!(s.run, Run::Replay);
    assert!(matches!(s.read, Readback::Ids { rows: 2 }));
    let s = m
        .decode_batch_mixed(&[3, 4], &[0, 5], &tables, &[1, 6], &[(1, 40)], &[0])
        .unwrap()
        .unwrap();
    match s.read {
        Readback::Mixed { rows, candidates, full, bytes } => {
            assert_eq!((rows, candidates, full), (2, true, vec![0]));
            assert_eq!(bytes, 2 * 4 + 2 * 128 * 8 + 500 * 4);
        }
        _ => panic!("not mixed"),
    }
    assert_eq!(s.upload.row_k.unwrap()[..2], [0, 40]);
    assert_eq!(
        m.decode_batch_mixed(&[3], &[0], &tables, &[1], &[(0, 129)], &[]).unwrap_err(),
        GpuError::TopK { k: 129 }
    );
    assert_eq!(
        m.decode_batch_mixed(&[3], &[0], &tables, &[1], &[], &[1]).unwrap_err(),
        GpuError::Row { row: 1, n: 1 }
    );
    let s = m.decode_batch_select(&[3], &[0], &tables, &[1], &[]).unwrap().unwrap();
    assert!(matches!(s.read, Readback::Mixed { bytes: 4, .. }));
    assert_eq!((m.d2h_bytes(4, true), m.d2h_bytes(4, false)), (16, 8000));
}

#[test]
fn a_prompt_is_prefilled_whole_and_a_token_alone() {
    let mut m = model();
    assert_eq!(m.forward(&[1, 2, 3]).unwrap(), Forward::Prefill);
    assert_eq!(m.forward(&[1]).unwrap(), Forward::Tokens);
    assert_eq!(m.forward(&[]).unwrap_err(), GpuError::NoTokens);
    assert_eq!(
        m.forward(&[1; 65]).unwrap_err(),
        GpuError::Sequence { len: 65, capacity: 64 }
    );
    let p = m.prefill(&[1, 2, 3]).unwrap();
    assert_eq!(p.tokens, vec![1, 2, 3]);
    m.end_prefill(3);
    assert_eq!((m.cache_len(), m.seq_pages()), (3, 1));
    let t = m.begin_token(7, true).unwrap();
    assert!(t.pages.is_some());
    assert!(!t.ops.is_empty());
    m.end_token(t.run);
    assert_eq!(m.cache_len(), 4);
    m.reset();
    assert_eq!((m.cache_len(), m.seq_pages()), (0, 0));
    assert_eq!(m.page_pool().free_pages(), 16);
}

#[test]
fn graphs_are_dropped_where_they_would_replay_something_else() {
    let mut m = model();
    let tables = vec![0i32; 16];
    m.decode_batch(&[3], &[0], &tables, &[1]).unwrap().unwrap();
    m.decode_captured(1, false);
    assert_eq!(m.graphs_captured(), 1);
    assert_eq!(m.time_graph_replay(1), Ok(0));
    assert_eq!(m.time_graph_replay(2).unwrap_err(), GpuError::NotCaptured { n: 2 });
    m.set_force_decode_gemm(true);
    assert_eq!(m.graphs_captured(), 0);
}

#[test]
fn a_prompt_graph_serves_every_request_of_its_shape() {
    let mut m = model();
    m.set_prefill_graph(true);
    let mut seq = SequencePages::new();
    let work = table(&mut m, &mut seq, 20);
    let first = m.prefill_chunk(&[1, 2, 3], &work, 0, false).unwrap();
    assert_eq!(first.run, Run::Capture);
    m.prefill_captured(first.key);
    let again = m.prefill_chunk(&[9, 8, 7], &work, 3, false).unwrap();
    assert_eq!((again.run, again.ops.len()), (Run::Replay, 0));
    m.prefill_replayed();
    assert_eq!(m.prefill_graph_stats(), (1, 1));
    assert_eq!(m.time_prefill_replay(3, false), Ok(first.key));
    assert_eq!(
        m.time_prefill_replay(3, true).unwrap_err(),
        GpuError::NoPrefillGraph { len: 3 }
    );
    let other = m.prefill_chunk(&[5], &work, 6, true).unwrap();
    assert_eq!(other.run, Run::Capture);
    m.prefill_failed(other.key);
    assert_eq!(m.prefill_chunk(&[5], &work, 6, true).unwrap().run, Run::Eager);
    m.invalidate_prefill_graphs();
    assert_eq!(m.prefill_graph_stats(), (0, 1));
    assert_eq!(m.prefill_chunk(&[5], &work, 6, true).unwrap().run, Run::Capture);
    m.set_prefill_attention(PrefillAttentionVariant::Reference, Ok(())).unwrap();
    assert!(m.prefill_attention().is_reference());
    m.set_prefill_graph(false);
    assert_eq!(m.prefill_chunk(&[5], &work, 6, true).unwrap().run, Run::Eager);
}

#[test]
fn a_refused_attention_changes_nothing_and_a_hybrid_one_needs_a_buffer() {
    let mut m = model();
    let plain = m.prefill_attention();
    let hybrid = PrefillAttentionVariant::Tiled {
        query_tile: 4,
        history_tile: 64,
        hybrid: true,
        cache_page_table: false,
    };
    assert_eq!(m.set_prefill_attention(hybrid, Err("no".into())), Err("no".into()));
    assert_eq!((m.prefill_attention(), m.current_k), (plain, false));
    // Capacity, KV heads and head width.
    assert_eq!(m.set_prefill_attention(hybrid, Ok(())), Ok(Some(64 * 2 * 4)));
    assert_eq!((m.prefill_attention(), m.current_k), (hybrid, true));
    // The buffer is there for good.
    assert_eq!(m.set_prefill_attention(plain, Ok(())), Ok(None));
    assert_eq!(m.set_prefill_attention(hybrid, Ok(())), Ok(None));
}

#[test]
fn the_unused_tail_of_the_last_page_is_counted() {
    let mut m = model();
    assert_eq!(m.seq_wasted_slots(), 0);
    m.prefill(&[1; 17]).unwrap();
    assert_eq!((m.seq_pages(), m.seq_wasted_slots()), (2, 15));
    assert_eq!(m.topk_capacity(), 128);
}

#[test]
fn a_profiled_packed_call_is_the_call() {
    let mut m = model();
    let mut seq = SequencePages::new();
    let work = table(&mut m, &mut seq, 2);
    let chunk = PackedPrefillRequest {
        tokens: &[1, 2],
        page_table: &work,
        pos_offset: 0,
        want_logits: true,
    };
    assert_eq!(
        m.profile_packed_prefill(&[chunk], &[], &[], 0).unwrap_err(),
        GpuError::ProfileIters
    );
    let (step, boundaries) = m.profile_packed_prefill(&[chunk], &[], &[], 3).unwrap();
    assert_eq!((step.plan.rows, step.plan.finals), (2, 1));
    assert_eq!(boundaries, 6 + 17 * 2);
    assert!(step.ops.len() <= boundaries);
}

#[test]
fn batch_graphs_can_be_dropped_and_turned_off() {
    let mut m = model();
    let tables = vec![0i32; 16];
    assert!(m.batch_graph_enabled());
    m.decode_batch(&[3], &[0], &tables, &[1]).unwrap().unwrap();
    m.decode_captured(1, false);
    m.invalidate_batch_graphs();
    assert_eq!(m.graphs_captured(), 0);
    m.set_batch_graph(false);
    assert!(!m.batch_graph_enabled());
    let s = m.decode_batch(&[3], &[0], &tables, &[1]).unwrap().unwrap();
    assert_eq!(s.run, Run::Eager);
}

fn table(m: &mut GpuModel, seq: &mut SequencePages, len: usize) -> Vec<i32> {
    seq.grow(m.page_pool_mut(), len).unwrap();
    seq.table_padded(4)
}

#[test]
fn malformed_packed_metadata_is_refused_and_changes_nothing() {
    let mut m = model();
    let mut seq = SequencePages::new();
    let work = table(&mut m, &mut seq, 17);
    let tokens: Vec<usize> = (0..17).map(|i| i * 3).collect();
    let good = PackedPrefillRequest {
        tokens: &tokens,
        page_table: &work,
        pos_offset: 0,
        want_logits: true,
    };
    let before = m.host_tables.clone();
    let reject = |m: &mut GpuModel,
                  chunks: &[PackedPrefillRequest<'_>],
                  topk: &[(usize, usize)],
                  full: &[usize]| m.prefill_packed(chunks, topk, full).unwrap_err();
    let single = |m: &mut GpuModel,
                  chunk: &PackedPrefillRequest<'_>,
                  topk: &[(usize, usize)],
                  full: &[usize]| m.prefill_single_mixed(chunk, topk, full).unwrap_err();

    assert_eq!(reject(&mut m, &[], &[], &[]), GpuError::PackedRequests { max: 4, got: 0 });
    let empty = PackedPrefillRequest { tokens: &[], ..good };
    assert_eq!(single(&mut m, &empty, &[], &[]), GpuError::PackedCapacity { tokens: 64 });
    let overflow = PackedPrefillRequest { pos_offset: usize::MAX, ..good };
    assert_eq!(single(&mut m, &overflow, &[], &[]), GpuError::PackedPosition);
    let past_end = PackedPrefillRequest { pos_offset: 64, ..good };
    assert!(m.prefill_single_mixed(&past_end, &[], &[]).is_err());
    let huge_tokens = vec![0; 65];
    let huge = PackedPrefillRequest { tokens: &huge_tokens, ..good };
    assert!(m.prefill_packed(&[huge], &[], &[]).is_err());
    let short = PackedPrefillRequest { page_table: &work[..1], ..good };
    assert!(m.prefill_single_mixed(&short, &[], &[]).is_err());
    let mut negative = work.clone();
    negative[0] = -1;
    let bad = PackedPrefillRequest { page_table: &negative, ..good };
    assert_eq!(single(&mut m, &bad, &[], &[]), GpuError::PackedPage { page: -1 });
    let mut outside = work.clone();
    outside[0] = 16;
    let bad = PackedPrefillRequest { page_table: &outside, ..good };
    assert_eq!(single(&mut m, &bad, &[], &[]), GpuError::PackedPage { page: 16 });
    let mut alias = work.clone();
    alias[1] = alias[0];
    let bad = PackedPrefillRequest { page_table: &alias, ..good };
    assert_eq!(single(&mut m, &bad, &[], &[]), GpuError::PackedAlias { page: work[0] });
    assert_eq!(reject(&mut m, &[good, good], &[], &[]), GpuError::PackedAlias { page: work[0] });
    let mut wrong = tokens.clone();
    wrong[0] = 500;
    let bad = PackedPrefillRequest { tokens: &wrong, ..good };
    assert_eq!(
        single(&mut m, &bad, &[], &[]),
        GpuError::PackedToken { token: 500, vocab: 500 }
    );
    assert_eq!(
        reject(&mut m, &[good, good, good, good, good], &[], &[]),
        GpuError::PackedRequests { max: 4, got: 5 }
    );
    assert_eq!(
        single(&mut m, &good, &[(0, 0)], &[]),
        GpuError::PackedTopK { row: 0, k: 0, finals: 1 }
    );
    assert_eq!(
        single(&mut m, &good, &[(0, 129)], &[]),
        GpuError::PackedTopK { row: 0, k: 129, finals: 1 }
    );
    assert_eq!(
        single(&mut m, &good, &[(1, 5)], &[]),
        GpuError::PackedTopK { row: 1, k: 5, finals: 1 }
    );
    assert_eq!(single(&mut m, &good, &[], &[1]), GpuError::PackedFull { row: 1 });
    assert_eq!(single(&mut m, &good, &[], &[0, 0]), GpuError::PackedFull { row: 0 });
    assert_eq!(single(&mut m, &good, &[(0, 5)], &[0]), GpuError::PackedFull { row: 0 });
    let middle = PackedPrefillRequest { want_logits: false, ..good };
    assert_eq!(
        single(&mut m, &middle, &[(0, 5)], &[]),
        GpuError::PackedTopK { row: 0, k: 5, finals: 0 }
    );
    assert_eq!(m.host_tables, before);

    let step = m.prefill_packed(&[good], &[], &[]).unwrap();
    assert_eq!((step.plan.rows, step.plan.finals), (17, 1));
    assert!(m.time_packed_replay(18, 1, 1).is_err(), "stale replay shape accepted");
    assert!(m.time_packed_replay(17, 1, 1).is_ok());
    m.prefill_single_mixed(&good, &[], &[]).unwrap();
    assert_eq!(m.time_packed_replay(17, 1, 1).unwrap_err(), GpuError::ReplayStale);
}

#[test]
fn packed_rows_belong_to_their_requests() {
    let mut m = model();
    let mut a = SequencePages::new();
    let mut b = SequencePages::new();
    let ta = table(&mut m, &mut a, 20);
    let tb = table(&mut m, &mut b, 3);
    let lim = PackedLimits {
        use_paged: true,
        capacity: 64,
        tokens: 64,
        requests: 4,
        table_stride: 4,
        max_batch: 4,
        vocab: 500,
        n_pages: 16,
    };
    let (x, y) = ([7usize, 8, 9], [1usize, 2, 3]);
    let chunks = [
        PackedPrefillRequest { tokens: &x, page_table: &ta, pos_offset: 17, want_logits: true },
        PackedPrefillRequest { tokens: &y, page_table: &tb, pos_offset: 0, want_logits: false },
    ];
    let p = prepare_packed_prefill(&lim, &chunks, &[], &[]).unwrap();
    assert_eq!(p.tokens, vec![7, 8, 9, 1, 2, 3]);
    assert_eq!(p.owners, vec![0, 0, 0, 1, 1, 1]);
    assert_eq!(p.positions, vec![17, 18, 19, 0, 1, 2]);
    assert_eq!(&p.segments[..8], &[0, 3, 17, 0, 3, 3, 0, 1]);
    assert_eq!(p.final_rows[0], 2);
    assert_eq!((p.rows, p.finals, p.requests), (6, 1, 2));
    assert_eq!((p.max_chunk, p.max_history), (3, 20));
}

#[test]
fn sizes_are_those_of_the_weights() {
    let f = GpuModel::load_with(
        config(),
        64,
        Precision::F32,
        32,
        switches(),
        PrefillAttentionVariant::Reference,
    );
    let q = model();
    assert!(q.weight_bytes() < f.weight_bytes());
    assert_eq!(f.cache_bytes(), 2 * 2 * 64 * 8 * 4);
    assert_eq!(f.device_bytes(), f.weight_bytes() + f.cache_bytes());
}

#[test]
fn device_errors_are_in_words() {
    assert_eq!(
        GpuError::Page { error: PageError::DoubleFree { id: 3 } }.message(),
        PageError::DoubleFree { id: 3 }.message()
    );
    assert_eq!(
        GpuError::PackedPage { page: -7 }.message(),
        "packed page -7 outside the pool"
    );
    assert_eq!(
        GpuError::BatchTooLarge { n: 5, max: 4 }.message(),
        "batch of 5 exceeds max_batch 4"
    );
}
