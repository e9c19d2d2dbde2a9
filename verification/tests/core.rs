use llm_engine::cache::{CacheFull, KvCache};
use llm_engine::calendar::{date_of, floor_div, floor_rem, Date};
use llm_engine::ids::{id_text, nanos, seconds, IdSource, SPREAD};
use llm_engine::model::{
    encoding_supported, kv_head, load, load_device, CpuOp, ModelError, Source,
};
use llm_engine::service::{Collected, Collector, FinishReason, StreamItem};
use llm_engine::text::{push_hex, push_signed};
use llm_engine::wire::{F32Bits, F64Bits};
use llm_engine::{Config, Model, QuantTensor};

fn config() -> Config {
    Config {
        vocab_size: 50,
        n_layer: 2,
        n_head: 4,
        n_kv_head: 2,
        n_embd: 8,
        block_size: 6,
        attention: "gqa".into(),
        pos_encoding: "rope".into(),
        activation: "swiglu".into(),
        norm: "rmsnorm".into(),
        norm_placement: "pre".into(),
        rope_theta: F32Bits(0x461c_4000),
        bias: false,
        tie_word_embeddings: true,
        val_loss: None,
        trained_steps: None,
    }
}

#[test]
fn a_config_is_refused_where_it_cannot_run() {
    assert!(config().validate().is_ok());
    let refused = |change: fn(&mut Config)| -> String {
        let mut c = config();
        change(&mut c);
        c.validate().unwrap_err()
    };
    assert_eq!(refused(|c| c.n_embd = 9), "n_embd (9) is not divisible by n_head (4)");
    assert_eq!(refused(|c| c.n_head = 0), "n_embd (8) is not divisible by n_head (0)");
    assert_eq!(refused(|c| c.n_kv_head = 0), "n_head (4) is not divisible by n_kv_head (0)");
    assert_eq!(refused(|c| c.n_kv_head = 3), "n_head (4) is not divisible by n_kv_head (3)");
    assert_eq!(
        refused(|c| c.norm = "batch".into()),
        "unsupported norm: \"batch\" (expected one of [\"rmsnorm\", \"layernorm\"])"
    );
    assert_eq!(
        refused(|c| c.activation = "relu".into()),
        "unsupported activation: \"relu\" (expected one of [\"swiglu\", \"gelu\"])"
    );
    assert_eq!(
        refused(|c| c.norm_placement = "mid".into()),
        "unsupported norm_placement: \"mid\" (expected one of [\"pre\", \"post\"])"
    );
    assert_eq!(
        refused(|c| c.pos_encoding = "si\"n".into()),
        "unsupported pos_encoding: \"si\\\"n\" (expected one of [\"rope\", \"alibi\", \"learned\", \"none\"])"
    );
}

#[test]
fn the_shape_of_heads_follows_from_the_config() {
    let c = config();
    assert_eq!((c.head_dim(), c.n_rep()), (2, 2));
    assert_eq!(c.kv_cache_bytes(6), 2 * 2 * 2 * 2 * 6 * 4);
    assert_eq!((0..4).map(|h| kv_head(&c, h)).collect::<Vec<_>>(), vec![0, 0, 1, 1]);
}

#[test]
fn cached_rows_are_read_back_as_written() {
    let mut c = KvCache::new(&config(), 6, 0.0f32);
    assert!(c.is_empty());
    assert_eq!((c.capacity(), c.n_layer(), c.bytes()), (6, 2, 2 * 2 * 6 * 4 * 4));
    for layer in 0..2 {
        for pos in 0..6 {
            let (k, v) = c.slot_mut(layer, pos);
            for i in 0..4 {
                k[i] = (layer * 100 + pos * 10 + i) as f32;
                v[i] = -k[i];
            }
        }
    }
    assert_eq!(c.key(1, 3, 1, 2), &[132.0, 133.0]);
    assert_eq!(c.value(0, 5, 0, 2), &[-50.0, -51.0]);
    assert!(c.advance(6).is_ok());
    assert_eq!(c.len(), 6);
    let e = c.advance(1).unwrap_err();
    assert_eq!(e, CacheFull { len: 6, n: 1, capacity: 6 });
    assert!(!e.message().is_empty());
    assert_eq!(c.len(), 6);
    c.clear();
    assert_eq!(c.len(), 0);
}

#[test]
fn ids_mix_a_counter_with_the_clock() {
    assert_eq!(id_text("p-", 0, 0), "p-000000000000000000000000");
    assert_eq!(id_text("p-", 0xff, 0), "p-00000000000000ff00000000");
    // Two ids of one clock reading differ in both parts.
    assert_eq!(id_text("", 0, 1), format!("{:016x}{:08x}", SPREAD, 1));
    assert_eq!(nanos(None), 0);
    assert_eq!(nanos(Some((1, 5))), 1_000_000_005);
    assert_eq!(seconds(Some((7, 5))), 7);
    assert_eq!(seconds(None), 0);
    let mut a = IdSource::starting_at(41);
    let x = a.make("m_");
    let y = a.make("m_");
    assert!(x.ends_with("00000029") && y.ends_with("0000002a"), "{x} {y}");
    // The clock is in the id: it is not the counter alone.
    assert_ne!(&x[2..18], &format!("{:016x}", 41u64.wrapping_mul(SPREAD)));
}

#[test]
fn days_and_dates_correspond() {
    assert_eq!(date_of(0), Date { y: 1970, m: 1, d: 1 });
    assert_eq!(date_of(-1), Date { y: 1969, m: 12, d: 31 });
    assert_eq!(date_of(59), Date { y: 1970, m: 3, d: 1 });
    assert_eq!(date_of(11_016), Date { y: 2000, m: 2, d: 29 });
    // A year of 366 days and one of 365.
    assert_eq!(date_of(10_957 + 366), Date { y: 2001, m: 1, d: 1 });
    assert_eq!(date_of(-719_528), Date { y: 0, m: 1, d: 1 });
    assert_eq!((floor_div(-7, 3), floor_rem(-7, 3)), (-3, 2));
}

#[test]
fn collected_text_is_that_of_the_items() {
    let mut c = Collector::new();
    assert!(matches!(c.push(StreamItem::Token { text: "a".into() }), Collected::More));
    let done = StreamItem::Done {
        reason: FinishReason::Cancelled,
        name: "cancelled".into(),
        generated: 1,
        tail: "z".into(),
    };
    assert!(matches!(c.push(done), Collected::Finished));
    assert_eq!(c.generated(), 1);
    let (text, n, finish) = c.into_parts();
    assert_eq!((text.as_str(), n), ("az", 1));
    assert_eq!(finish, Some((FinishReason::Cancelled, "cancelled".to_string())));
}

#[test]
fn the_tensors_of_a_checkpoint_are_asked_for_by_name() {
    let (layers, rest) = load(&config());
    assert_eq!(layers.len(), 2 * 9);
    assert_eq!(layers[0], "blocks.0.attn_norm.weight");
    assert_eq!(layers[17], "blocks.1.mlp.down_proj.weight");
    assert_eq!(rest, vec!["tok_emb.weight", "final_norm.weight"]);
    assert!(!load_device(&config()).is_empty());
    assert!(encoding_supported(&config()).is_ok());
    let mut c = config();
    c.pos_encoding = "alibi".into();
    assert!(encoding_supported(&c).is_err());
}

#[test]
fn a_forward_pass_is_refused_before_it_starts() {
    let m = Model { cfg: config() };
    let mut cache = m.new_cache(100, 0u64);
    // Never longer than the context.
    assert_eq!(cache.capacity(), 6);
    assert_eq!(pass(&m, &[], &mut cache), Err(ModelError::NoTokens));
    assert_eq!(
        pass(&m, &[1; 7], &mut cache),
        Err(ModelError::Sequence { len: 7, capacity: 6 })
    );
    let mut other = KvCache::new(&Config { n_layer: 3, ..config() }, 6, 0u64);
    assert_eq!(pass(&m, &[1], &mut other), Err(ModelError::OtherModel));
    assert_eq!((cache.len(), other.len()), (0, 0));
}

/// Integer arithmetic in place of a model's: every operation mixes its place and
/// what it reads into one number, attention reads every position up to its own.
fn mix(
    op: CpuOp,
    token: usize,
    pos: usize,
    w: Option<u64>,
    mut c: KvCache<u64>,
) -> (Option<u64>, KvCache<u64>) {
    let mut x = w.unwrap_or(17);
    let fold = |x: u64, y: u64| x.wrapping_mul(6364136223846793005).wrapping_add(y);
    match op {
        CpuOp::Embed => x = fold(x, token as u64),
        CpuOp::KeyValue { layer, .. } => {
            let (k, v) = c.slot_mut(layer, pos);
            k.fill(fold(x, pos as u64));
            v.fill(fold(x, 3));
        }
        CpuOp::Attend { layer } => {
            for p in 0..=pos {
                x = fold(x, c.key(layer, p, 0, 2)[0]);
                x = fold(x, c.value(layer, p, 1, 2)[1]);
            }
        }
        _ => x = fold(x, pos as u64 + 1),
    }
    (Some(x), c)
}

fn pass(m: &Model, tokens: &[usize], cache: &mut KvCache<u64>) -> Result<Option<u64>, ModelError> {
    m.forward_cached(tokens, cache, mix, |w| w)
}

#[test]
fn a_forward_pass_appends_up_to_the_first_bad_token() {
    let m = Model { cfg: config() };
    let mut cache = m.new_cache(6, 0usize);
    let store = |op: CpuOp, token: usize, pos: usize, w: Option<()>, mut c: KvCache<usize>| {
        if let CpuOp::KeyValue { layer, .. } = op {
            let (k, v) = c.slot_mut(layer, pos);
            k.fill(token);
            v.fill(pos);
        }
        (w, c)
    };
    assert_eq!(m.forward_cached(&[7, 8], &mut cache, store, |_| ()), Ok(()));
    assert_eq!(cache.len(), 2);
    let e = m.forward_cached(&[49, 50, 1], &mut cache, store, |_| ()).unwrap_err();
    assert_eq!(e.message(), "token id 50 outside vocabulary 50");
    assert_eq!(cache.len(), 3);
    for layer in 0..2 {
        assert_eq!(cache.key(layer, 1, 0, 2), [8, 8]);
        assert_eq!(cache.key(layer, 2, 1, 2), [49, 49]);
        assert_eq!(cache.value(layer, 2, 0, 2), [2, 2]);
    }
}

#[test]
fn operations_run_in_order_at_positions_that_go_on() {
    let m = Model { cfg: config() };
    let mut cache = m.new_cache(6, 0u8);
    let log = |op: CpuOp, token: usize, pos: usize, w: Option<Vec<(CpuOp, usize, usize)>>, c: KvCache<u8>| {
        let mut w = w.unwrap_or_default();
        w.push((op, token, pos));
        (Some(w), c)
    };
    m.forward_cached(&[4, 5], &mut cache, log, |w| w).unwrap();
    let last = m.forward_cached(&[6, 7], &mut cache, log, |w| w).unwrap().unwrap();
    let want: Vec<_> = m.token().into_iter().map(|op| (op, 7, 3)).collect();
    assert_eq!(last, want);
}

#[test]
fn the_cached_path_agrees_with_a_full_forward() {
    let m = Model { cfg: config() };
    let tokens = [3usize, 1, 4, 1, 5];
    let whole = m.forward(&tokens, 0u64, mix, |w| w).unwrap();
    for cut in 1..tokens.len() {
        let mut cache = m.new_cache(6, 0u64);
        pass(&m, &tokens[..cut], &mut cache).unwrap();
        assert_eq!(pass(&m, &tokens[cut..], &mut cache).unwrap(), whole);
        assert_eq!(cache.len(), tokens.len());
    }
    assert_ne!(m.forward(&[3, 1, 4, 5, 1], 0u64, mix, |w| w).unwrap(), whole);
    assert_eq!(m.forward(&[], 0u64, mix, |w| w), Err(ModelError::NoTokens));
    assert_eq!(
        m.forward(&[1; 7], 0u64, mix, |w| w),
        Err(ModelError::Sequence { len: 7, capacity: 6 })
    );
}

#[test]
fn a_token_attends_after_its_keys_are_cached() {
    let m = Model { cfg: config() };
    let ops = m.token();
    for layer in 0..2 {
        let kv = ops
            .iter()
            .position(|o| matches!(o, CpuOp::KeyValue { layer: l, .. } if *l == layer))
            .unwrap();
        let attend = ops.iter().position(|o| *o == CpuOp::Attend { layer }).unwrap();
        assert!(kv < attend);
    }
    assert_eq!(ops[0], CpuOp::Embed);
    assert!(ops.contains(&CpuOp::SwiGlu { layer: 1, src: Source::Normed }));
}

#[test]
fn a_quantised_tensor_is_a_quarter_and_its_scales() {
    let q = QuantTensor { data: vec![0i8; 64 * 256], scales: vec![1.0f32; 64], rows: 64, cols: 256 };
    assert_eq!(q.bytes(), 64 * 256 + 64 * 4);
    let ratio = q.bytes() as f64 / (64.0 * 256.0 * 4.0);
    assert!(ratio > 0.24 && ratio < 0.26, "ratio {ratio}");
    assert_eq!(q.index(2, 5), 2 * 256 + 5);
}

#[test]
fn four_times_smaller_than_f32() {
    // Scales add one f32 per row, so the ratio is slightly above 1/4.
    let q = QuantTensor { data: vec![1i8; 64 * 256], scales: vec![0.5f32; 64], rows: 64, cols: 256 };
    let f32_bytes = 64 * 256 * 4;
    let ratio = q.bytes() as f64 / f32_bytes as f64;
    assert!(ratio > 0.24 && ratio < 0.26, "ratio {ratio}");
}

#[test]
fn float_bits_compare_as_floats() {
    let b = |x: f32| F32Bits(x.to_bits());
    for (x, y) in [
        (1.0f32, 2.0f32),
        (-1.0, 1.0),
        (-2.0, -1.0),
        (0.0, -0.0),
        (f32::NAN, 1.0),
        (1.0, f32::NAN),
        (f32::INFINITY, f32::MAX),
        (f32::NEG_INFINITY, f32::MIN),
        (1e-40, 0.0),
    ] {
        assert_eq!(b(x).gt(b(y)), x > y, "{x} {y}");
        assert_eq!(b(y).gt(b(x)), y > x, "{y} {x}");
        assert_eq!(b(x).is_positive(), x > 0.0, "{x}");
    }
    assert!(F64Bits(1.0f64.to_bits()).is_one());
    assert!(F64Bits((-0.0f64).to_bits()).is_zero());
    assert!(!F64Bits(f64::NAN.to_bits()).is_zero());
}

#[test]
fn numbers_are_written_as_usual() {
    let mut s = String::new();
    push_signed(&mut s, i32::MIN);
    s.push(' ');
    push_signed(&mut s, 70);
    s.push(' ');
    push_hex(&mut s, 0xabc, 2);
    assert_eq!(s, "-2147483648 70 bc");
}
