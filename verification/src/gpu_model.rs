//! The model on the device, as the host sees it.
//!
//! Weights and the KV cache live on the device; this is everything the host
//! decides about them: what is refused, what is uploaded before a pass, which
//! launches the pass makes, whether they are replayed from a graph, and what is
//! copied back. Performing those decisions is left to the caller, who reports
//! back what was captured.
use crate::config::Config;
use crate::gpu::{
    PrefillAttentionVariant, GEMV_BATCH_MAX, PARAM_COUNT, PARAM_POS, PARAM_PREFILL_POS, PARAM_SEQ,
    PARAM_SLOT, PARAM_TOKEN, PARAM_ZERO, TOPK_MAX,
};
pub use crate::gpu::Precision;
use crate::gpu_error::GpuError;
use crate::graphs::{graph_slot, BatchGraphs, PrefillGraphs, PrefillGraphsView, PrefillKey, Run};
use crate::graphs;
use crate::launch;
use crate::launch::{queue_decode_batch, queue_packed_prefill, queue_prefill, queue_single_selection, queue_token, Op, PrefillMode, Shape};
use crate::math;
pub use crate::packed::PackedPrefillRequest;
use crate::packed;
use crate::packed::{pad_zeros, prepare_packed_prefill, PackedLimits, PackedPlan};
use crate::paged;
use crate::paged::{PagePool, PoolView, SequencePages, SequenceView, PAGE_TOKENS};
use crate::profile;
use crate::profile::Timed;
use crate::text::same_text;
use vstd::prelude::*;

verus! {

/// How the paths are chosen. Everything is on unless the environment turns it
/// off, for comparison or debugging.
#[derive(Debug, Clone, Copy, PartialEq, Eq, Structural)]
pub struct Switches {
    /// The tiled GEMM for every batched projection.
    pub force_decode_gemm: bool,
    /// Replay for batched decode.
    pub use_batch_graph: bool,
    /// Replay for prompts.
    pub use_prefill_graph: bool,
    /// Token ids from the device, rather than full logits.
    pub use_device_argmax: bool,
    /// Sampling candidates from the device.
    pub use_device_topk: bool,
    /// Replay for single tokens.
    pub use_graph: bool,
    /// Attention split across position chunks, for single tokens.
    pub split_attention: bool,
    /// Prompts as matrices, rather than token by token.
    pub use_batched_prefill: bool,
}

/// Whether a setting is there and holds a text.
pub open spec fn holds(v: Option<&str>, s: Seq<char>) -> bool {
    v is Some && v->0@ == s
}

fn set_to(v: Option<&str>, s: &str) -> (b: bool)
    ensures
        b == holds(v, s@),
{
    match v {
        Some(t) => same_text(t, s),
        None => false,
    }
}

impl Switches {
    /// The switches an environment asks for. `decode_gemm` counts by being
    /// there at all; `"0"` turns a feature off; attention is `"split"` and
    /// prefill `"serial"` on request.
    pub fn new(
        decode_gemm: Option<&str>,
        batch_graph: Option<&str>,
        prefill_graph: Option<&str>,
        device_argmax: Option<&str>,
        device_topk: Option<&str>,
        attention: Option<&str>,
        prefill: Option<&str>,
    ) -> (s: Switches)
        ensures
            s.force_decode_gemm == (decode_gemm is Some),
            s.use_batch_graph == !holds(batch_graph, "0"@),
            s.use_prefill_graph == !holds(prefill_graph, "0"@),
            s.use_device_argmax == !holds(device_argmax, "0"@),
            s.use_device_topk == !holds(device_topk, "0"@),
            !s.use_graph,
            s.split_attention == holds(attention, "split"@),
            s.use_batched_prefill == !holds(prefill, "serial"@),
    {
        Switches {
            force_decode_gemm: decode_gemm.is_some(),
            use_batch_graph: !set_to(batch_graph, "0"),
            use_prefill_graph: !set_to(prefill_graph, "0"),
            use_device_argmax: !set_to(device_argmax, "0"),
            use_device_topk: !set_to(device_topk, "0"),
            use_graph: false,
            split_attention: set_to(attention, "split"),
            use_batched_prefill: !set_to(prefill, "serial"),
        }
    }
}

/// Why an architecture cannot run on the device, if it cannot.
pub open spec fn unsupported(cfg: Config) -> Option<Seq<char>> {
    if cfg.pos_encoding@ != "rope"@ {
        Some("the GPU path currently implements rope only, not "@ + cfg.pos_encoding@)
    } else if cfg.norm@ != "rmsnorm"@ {
        Some("the GPU path currently implements rmsnorm only, not "@ + cfg.norm@)
    } else if cfg.norm_placement@ != "pre"@ {
        Some("the GPU path currently implements pre-norm only"@)
    } else {
        None
    }
}

/// Whether an architecture can run on the device. Weights are read and the
/// device is opened only where it can.
pub fn supported(cfg: &Config) -> (r: Result<(), String>)
    ensures
        match r {
            Ok(()) => unsupported(*cfg) is None,
            Err(m) => unsupported(*cfg) == Some(m@),
        },
{
    if !same_text(cfg.pos_encoding.as_str(), "rope") {
        let mut m = "the GPU path currently implements rope only, not ".to_owned();
        m.append(cfg.pos_encoding.as_str());
        return Err(m);
    }
    if !same_text(cfg.norm.as_str(), "rmsnorm") {
        let mut m = "the GPU path currently implements rmsnorm only, not ".to_owned();
        m.append(cfg.norm.as_str());
        return Err(m);
    }
    if !same_text(cfg.norm_placement.as_str(), "pre") {
        return Err("the GPU path currently implements pre-norm only".to_owned());
    }
    Ok(())
}

/// Bytes of a projection as it is stored: four per weight, or one per weight
/// and four per row.
pub open spec fn stored_bytes(p: Precision, rows: nat, cols: nat) -> nat {
    match p {
        Precision::F32 => rows * cols * 4,
        Precision::Int8 => rows * cols + rows * 4,
    }
}

/// Quantising makes a projection no more than a quarter of its size and four
/// bytes a row.
pub proof fn law_int8_is_a_quarter(rows: nat, cols: nat)
    ensures
        4 * stored_bytes(Precision::Int8, rows, cols) == stored_bytes(Precision::F32, rows, cols) + 16
            * rows,
{
    assert(4 * (rows * cols + rows * 4) == rows * cols * 4 + 16 * rows) by (nonlinear_arith);
}

/// The model's host side.
#[derive(Debug)]
pub struct GpuModel {
    pub cfg: Config,
    pub precision: Precision,
    /// Width of the MLP.
    pub hidden: usize,
    /// Positions a sequence may have.
    pub capacity: usize,
    /// Positions of the single-request sequence.
    pub cache_len: usize,
    pub switches: Switches,
    /// Whether the page pool and batch buffers are allocated.
    pub paging: bool,
    /// Whether single requests go through pages.
    pub use_paged: bool,
    pub table_stride: usize,
    pub max_batch: usize,
    pub pool: PagePool,
    /// Pages of the single-request sequence.
    pub seq: SequencePages,
    /// What the device's page tables, lengths, candidate counts and step
    /// parameters hold.
    pub host_tables: Vec<i32>,
    pub host_lens: Vec<i32>,
    pub host_row_k: Vec<i32>,
    pub host_params: Vec<i32>,
    pub batch_graphs: BatchGraphs,
    pub prefill_graphs: PrefillGraphs,
    /// Whether the single-token graph is captured.
    pub graph: bool,
    pub prefill_attention: PrefillAttentionVariant,
    /// Whether there is a buffer for a chunk's own rotated K.
    pub current_k: bool,
    /// Positions the exact attention's shared scores are sized for.
    pub prefill_score_capacity: usize,
    /// Rows and final rows of the packed metadata on the device, while it is
    /// known to be current.
    pub prepared_shape: Option<(usize, usize)>,
}

impl GpuModel {
    /// Width of a head.
    pub open spec fn head_dim(&self) -> nat {
        (self.cfg.n_embd / self.cfg.n_head) as nat
    }

    /// Width of a K or V row.
    pub open spec fn kv_dim(&self) -> nat {
        self.cfg.n_kv_head as nat * self.head_dim()
    }

    /// The sizes its passes depend on.
    pub open spec fn shape(&self) -> Shape {
        Shape {
            n_layer: self.cfg.n_layer,
            n_embd: self.cfg.n_embd,
            n_head: self.cfg.n_head,
            n_kv_head: self.cfg.n_kv_head,
            head_dim: self.head_dim() as usize,
            kv_dim: self.kv_dim() as usize,
            hidden: self.hidden,
            vocab: self.cfg.vocab_size,
            capacity: self.capacity,
            precision: self.precision,
            swiglu: self.cfg.activation@ == "swiglu"@,
        }
    }

    /// The sizes are those of a model that fits in memory.
    pub open spec fn sized(&self) -> bool {
        &&& self.cfg.n_head > 0
        &&& self.cfg.n_layer > 0
        &&& 0 < self.kv_dim()
        &&& self.shape().wf()
        &&& self.shape().holds(self.capacity as int)
        &&& self.shape().holds(16)
        &&& self.capacity * self.kv_dim() <= usize::MAX
        &&& self.kv_dim() <= usize::MAX
        &&& self.capacity < i32::MAX
    }

    /// Slots of the batch buffers; one stands in before there are any.
    pub open spec fn slots(&self) -> nat {
        if self.paging {
            self.max_batch as nat
        } else {
            1
        }
    }

    /// The buffers have the sizes paging gives them.
    pub open spec fn wf(&self) -> bool {
        &&& self.sized()
        &&& self.cache_len <= self.capacity
        &&& self.pool.wf()
        &&& self.pool@.n_pages * PAGE_TOKENS <= usize::MAX
        &&& self.pool@.n_pages * (self.cfg.n_layer * PAGE_TOKENS * self.kv_dim()) <= usize::MAX
        &&& self.seq@.wf()
        &&& self.seq@.owned_by(self.pool@)
        &&& self.host_params@.len() == PARAM_COUNT
        &&& self.host_tables@.len() == self.slots() * self.table_stride
        &&& self.host_lens@.len() == self.slots()
        &&& self.host_row_k@.len() == self.slots()
        &&& self.table_stride == (if self.paging {
            math::ceil_div(self.capacity as nat, PAGE_TOKENS as nat)
        } else {
            1
        })
        &&& self.paging ==> 1 <= self.max_batch <= GEMV_BATCH_MAX
        &&& !self.paging ==> self.max_batch == 0 && self.seq@.pages.len() == 0 && self.pool@.n_pages == 0
        &&& self.prefill_attention.hybrid() ==> self.current_k
        &&& self.batch_graphs.wf()
        &&& self.batch_graphs@.len() == 2 * self.max_batch
        &&& self.prefill_graphs.wf()
    }
}

/// What paging allocates on the device, in elements.
#[derive(Debug, Clone, Copy, PartialEq, Eq, Structural)]
pub struct PagingBuffers {
    /// Each of the K and V pools.
    pub pool_floats: usize,
    /// Entries of all page tables.
    pub table_entries: usize,
    /// Rows of the buffers a batched GEMV reads. Its instantiations read 1, 2,
    /// 4, 8 or 16 rows, active or not, so this is the limit rounded up.
    pub batch_rows: usize,
}

/// The rows the batched GEMV may read for batches up to `n`.
pub open spec fn padded_rows(n: nat) -> nat {
    if n <= 1 {
        1
    } else if n <= 2 {
        2
    } else if n <= 4 {
        4
    } else if n <= 8 {
        8
    } else {
        16
    }
}

/// Inactive rows of a batched GEMV are within the buffers, for every batch up
/// to the limit they were allocated for.
pub proof fn law_padded_rows_are_allocated(n: nat, max_batch: nat)
    requires
        1 <= n <= max_batch <= GEMV_BATCH_MAX,
    ensures
        crate::gpu::rows_read(crate::gpu::covering(n)) <= padded_rows(max_batch),
{
}

impl GpuModel {
    /// A model before paging. `hidden` is the width its MLP weights have; at
    /// most the architecture's own context is kept.
    pub fn load_with(
        cfg: Config,
        capacity: usize,
        precision: Precision,
        hidden: usize,
        switches: Switches,
        attention: PrefillAttentionVariant,
    ) -> (m: GpuModel)
        requires
            ({
                let c = if capacity <= cfg.block_size {
                    capacity
                } else {
                    cfg.block_size
                };
                let kv = cfg.n_kv_head as nat * (cfg.n_embd / cfg.n_head) as nat;
                &&& cfg.n_head > 0
                &&& cfg.n_layer > 0
                &&& 0 < kv <= usize::MAX
                &&& cfg.n_layer * c * kv <= usize::MAX
                &&& cfg.n_layer * PAGE_TOKENS * kv <= usize::MAX
                &&& c * cfg.n_embd <= usize::MAX
                &&& c * hidden <= usize::MAX
                &&& 16 * cfg.n_embd <= usize::MAX
                &&& 16 * hidden <= usize::MAX
                &&& c * kv <= usize::MAX
                &&& c < i32::MAX
            }),
        ensures
            m.wf(),
            m.cfg == cfg,
            m.precision == precision,
            m.hidden == hidden,
            m.capacity == (if capacity <= cfg.block_size {
                capacity
            } else {
                cfg.block_size
            }),
            m.cache_len == 0,
            m.switches == switches,
            m.prefill_attention == attention,
            m.current_k == attention.hybrid(),
            !m.paging,
            !m.use_paged,
            !m.graph,
            m.prefill_score_capacity == 0,
            m.prepared_shape is None,
            m.table_stride == 1,
            m.max_batch == 0,
            m.pool@ == PoolView::fresh(
                0,
                cfg.n_layer as nat * PAGE_TOKENS as nat * m.kv_dim(),
            ),
            m.seq@ == (SequenceView { pages: Seq::empty(), len: 0 }),
            m.host_tables@ == seq![0i32],
            m.host_lens@ == seq![0i32],
            m.host_row_k@ == seq![0i32],
            m.host_params@ == Seq::new(PARAM_COUNT as nat, |i: int| 0i32),
            m.batch_graphs@.len() == 0,
            m.prefill_graphs@ == (PrefillGraphsView {
                resident: Set::empty(),
                failed: Set::empty(),
                captures: 0,
                replays: 0,
            }),
    {
        let capacity: usize = math::min(capacity, cfg.block_size);
        let kv_dim: usize = cfg.n_kv_head * cfg.head_dim();
        let pool = PagePool::new(0, cfg.n_layer, kv_dim);
        let m = GpuModel {
            cfg,
            precision,
            hidden,
            capacity,
            cache_len: 0,
            switches,
            paging: false,
            use_paged: false,
            table_stride: 1,
            max_batch: 0,
            pool,
            seq: SequencePages::new(),
            host_tables: vec![0i32; 1],
            host_lens: vec![0i32; 1],
            host_row_k: vec![0i32; 1],
            host_params: vec![0i32; PARAM_COUNT],
            batch_graphs: BatchGraphs::new(0),
            prefill_graphs: PrefillGraphs::new(),
            graph: false,
            prefill_attention: attention,
            current_k: attention.uses_hybrid(),
            prefill_score_capacity: 0,
            prepared_shape: None,
        };
        proof {
            let n = m.pool@.n_pages;
            let page = m.cfg.n_layer * PAGE_TOKENS * m.kv_dim();
            assert(n * page == 0) by (nonlinear_arith)
                requires
                    n == 0,
            ;
            assert(m.seq@.owned_by(m.pool@));
        }
        m
    }

    /// The sizes its passes depend on.
    pub fn shape_of(&self) -> (s: Shape)
        requires
            self.sized(),
        ensures
            s == self.shape(),
    {
        let head_dim: usize = self.cfg.head_dim();
        Shape {
            n_layer: self.cfg.n_layer,
            n_embd: self.cfg.n_embd,
            n_head: self.cfg.n_head,
            n_kv_head: self.cfg.n_kv_head,
            head_dim,
            kv_dim: self.cfg.n_kv_head * head_dim,
            hidden: self.hidden,
            vocab: self.cfg.vocab_size,
            capacity: self.capacity,
            precision: self.precision,
            swiglu: same_text(self.cfg.activation.as_str(), "swiglu"),
        }
    }

    /// Size the page pool and batch buffers, and put single requests on pages.
    ///
    /// `n_pages` is total capacity across all requests; `max_batch` is how many
    /// requests may be resident at once. Every captured graph is stale, since
    /// the buffers are new.
    pub fn enable_paging(&mut self, n_pages: usize, max_batch: usize) -> (r: Result<
        PagingBuffers,
        GpuError,
    >)
        requires
            old(self).wf(),
            n_pages <= u32::MAX,
            n_pages * PAGE_TOKENS <= usize::MAX,
            n_pages * (old(self).cfg.n_layer * PAGE_TOKENS * old(self).kv_dim()) <= usize::MAX,
            max_batch <= 16 ==> max_batch * math::ceil_div(
                old(self).capacity as nat,
                PAGE_TOKENS as nat,
            ) <= usize::MAX,
        ensures
            final(self).wf(),
            match r {
                Ok(b) => {
                    let stride = math::ceil_div(old(self).capacity as nat, PAGE_TOKENS as nat);
                    &&& 1 <= max_batch <= GEMV_BATCH_MAX
                    &&& b.pool_floats == n_pages * (old(self).cfg.n_layer * PAGE_TOKENS * old(
                        self,
                    ).kv_dim())
                    &&& b.table_entries == max_batch * stride
                    &&& b.batch_rows == padded_rows(max_batch as nat)
                    &&& final(self).paging
                    &&& final(self).use_paged
                    &&& final(self).max_batch == max_batch
                    &&& final(self).table_stride == stride
                    &&& final(self).pool@ == PoolView::fresh(
                        n_pages as nat,
                        old(self).cfg.n_layer as nat * PAGE_TOKENS as nat * old(self).kv_dim(),
                    )
                    &&& final(self).seq@ == (SequenceView { pages: Seq::empty(), len: 0 })
                    &&& final(self).host_tables@ =~= Seq::new((max_batch * stride) as nat, |i: int| 0i32)
                    &&& final(self).host_lens@ =~= Seq::new(max_batch as nat, |i: int| 0i32)
                    &&& final(self).host_row_k@ =~= Seq::new(max_batch as nat, |i: int| 0i32)
                    &&& final(self).batch_graphs@ =~= Seq::new((2 * max_batch) as nat, |i: int| false)
                    &&& final(self).prefill_graphs@ == (PrefillGraphsView {
                        resident: Set::empty(),
                        failed: Set::empty(),
                        captures: 0,
                        replays: old(self).prefill_graphs@.replays,
                    })
                    &&& !final(self).graph
                    &&& final(self).prepared_shape is None
                    &&& *final(self) == (GpuModel {
                        paging: true,
                        use_paged: true,
                        max_batch,
                        table_stride: stride as usize,
                        pool: final(self).pool,
                        seq: final(self).seq,
                        host_tables: final(self).host_tables,
                        host_lens: final(self).host_lens,
                        host_row_k: final(self).host_row_k,
                        batch_graphs: final(self).batch_graphs,
                        prefill_graphs: final(self).prefill_graphs,
                        graph: false,
                        prepared_shape: None,
                        ..*old(self)
                    })
                },
                Err(e) => {
                    &&& !(1 <= max_batch <= GEMV_BATCH_MAX)
                    &&& e == GpuError::MaxBatch
                    &&& *final(self) == *old(self)
                },
            },
    {
        if max_batch == 0 || max_batch > GEMV_BATCH_MAX {
            return Err(GpuError::MaxBatch);
        }
        let batch_rows: usize = if max_batch <= 1 {
            1
        } else if max_batch <= 2 {
            2
        } else if max_batch <= 4 {
            4
        } else if max_batch <= 8 {
            8
        } else {
            16
        };
        let kv_dim: usize = self.cfg.n_kv_head * self.cfg.head_dim();
        let stride: usize = math::div_ceil(self.capacity, PAGE_TOKENS);
        let pool = PagePool::new(n_pages, self.cfg.n_layer, kv_dim);
        let pool_floats: usize = n_pages * pool.page_floats();
        self.table_stride = stride;
        self.max_batch = max_batch;
        self.pool = pool;
        self.host_tables = vec![0i32; max_batch * stride];
        self.host_lens = vec![0i32; max_batch];
        self.host_row_k = vec![0i32; max_batch];
        self.seq = SequencePages::new();
        self.prefill_graphs.invalidate();
        self.batch_graphs = BatchGraphs::new(2 * max_batch);
        self.paging = true;
        self.use_paged = true;
        self.graph = false;
        self.prepared_shape = None;
        Ok(PagingBuffers { pool_floats, table_entries: max_batch * stride, batch_rows })
    }

    /// Whether single requests go through pages.
    pub fn use_paged(&self) -> (b: bool)
        ensures
            b == self.use_paged,
    {
        self.use_paged
    }

    /// Put single requests on pages, or back on the contiguous cache. A token
    /// graph captured on one would replay the other's kernels.
    pub fn set_paged(&mut self, on: bool)
        requires
            old(self).wf(),
        ensures
            final(self).wf(),
            *final(self) == (GpuModel {
                use_paged: on,
                graph: old(self).graph && on == old(self).use_paged,
                ..*old(self)
            }),
    {
        if on != self.use_paged {
            self.graph = false;
        }
        self.use_paged = on;
    }

    /// The page allocator.
    pub fn page_pool(&self) -> (p: &PagePool)
        ensures
            *p == self.pool,
    {
        &self.pool
    }

    /// The page allocator, so a scheduler can grow and release sequences it
    /// owns. Pages may change hands through it, so prepared metadata is stale.
    pub fn page_pool_mut(&mut self) -> (p: &mut PagePool)
        requires
            old(self).wf(),
        ensures
            *p == old(self).pool,
            *final(self) == (GpuModel { pool: *final(p), prepared_shape: None, ..*old(self) }),
            final(p).wf() && final(p)@.n_pages == old(self).pool@.n_pages && old(self).seq@.owned_by(final(p)@)
                ==> final(self).wf(),
    {
        self.prepared_shape = None;
        &mut self.pool
    }

    /// Requests resident at once.
    pub fn max_batch(&self) -> (n: usize)
        ensures
            n == self.max_batch,
    {
        self.max_batch
    }

    /// Rows a prompt call takes: attention counts rows in 16 bits, and the
    /// row-wise kernels count elements in 31.
    pub open spec fn token_capacity(&self) -> nat {
        let a = if self.capacity <= 65535 {
            self.capacity as nat
        } else {
            65535
        };
        let b = i32::MAX as nat / self.widest();
        if a <= b {
            a
        } else {
            b
        }
    }

    /// The widest row any row-wise kernel sees.
    pub open spec fn widest(&self) -> nat {
        let a = if self.cfg.n_embd >= self.hidden {
            self.cfg.n_embd as nat
        } else {
            self.hidden as nat
        };
        let b = if a >= self.kv_dim() {
            a
        } else {
            self.kv_dim()
        };
        if b >= 1 {
            b
        } else {
            1
        }
    }

    /// Rows a prompt call takes.
    pub fn prefill_token_capacity(&self) -> (n: usize)
        requires
            self.sized(),
        ensures
            n == self.token_capacity(),
            n <= self.capacity,
            n <= 65535,
    {
        let kv_dim: usize = self.cfg.n_kv_head * self.cfg.head_dim();
        let mut widest: usize = self.cfg.n_embd;
        if self.hidden > widest {
            widest = self.hidden;
        }
        if kv_dim > widest {
            widest = kv_dim;
        }
        if widest < 1 {
            widest = 1;
        }
        let most: usize = i32::MAX as usize / widest;
        math::min(math::min(self.capacity, 65535), most)
    }

    /// Requests a packed prompt call takes.
    pub fn prefill_request_capacity(&self) -> (n: usize)
        ensures
            n == (if self.max_batch <= GEMV_BATCH_MAX {
                self.max_batch
            } else {
                GEMV_BATCH_MAX
            }),
    {
        math::min(self.max_batch, GEMV_BATCH_MAX)
    }

    /// Force the tiled GEMM for batched projections. Changes which kernels a
    /// step launches, so captured graphs are stale.
    pub fn set_force_decode_gemm(&mut self, on: bool)
        requires
            old(self).wf(),
        ensures
            final(self).wf(),
            final(self).switches == (Switches { force_decode_gemm: on, ..old(self).switches }),
            final(self).batch_graphs@ == (if on != old(self).switches.force_decode_gemm {
                Seq::new(old(self).batch_graphs@.len(), |i: int| false)
            } else {
                old(self).batch_graphs@
            }),
            *final(self) == (GpuModel {
                switches: final(self).switches,
                batch_graphs: final(self).batch_graphs,
                ..*old(self)
            }),
    {
        if on != self.switches.force_decode_gemm {
            self.batch_graphs.invalidate();
        }
        self.switches.force_decode_gemm = on;
    }

    /// Turn replay of batched decode on or off. Graphs stay, since replay and
    /// eager execution queue the same kernels.
    pub fn set_batch_graph(&mut self, on: bool)
        requires
            old(self).wf(),
        ensures
            final(self).wf(),
            *final(self) == (GpuModel {
                switches: Switches { use_batch_graph: on, ..old(self).switches },
                ..*old(self)
            }),
    {
        self.switches.use_batch_graph = on;
    }

    /// Whether batched decode replays graphs.
    pub fn batch_graph_enabled(&self) -> (b: bool)
        ensures
            b == self.switches.use_batch_graph,
    {
        self.switches.use_batch_graph
    }

    /// Whether the scheduler should take token ids from the device.
    pub fn set_device_argmax(&mut self, on: bool)
        requires
            old(self).wf(),
        ensures
            final(self).wf(),
            *final(self) == (GpuModel {
                switches: Switches { use_device_argmax: on, ..old(self).switches },
                ..*old(self)
            }),
    {
        self.switches.use_device_argmax = on;
    }

    /// Whether the scheduler should take token ids from the device.
    pub fn device_argmax(&self) -> (b: bool)
        ensures
            b == self.switches.use_device_argmax,
    {
        self.switches.use_device_argmax
    }

    /// Whether sampled rows may take their candidates from the device.
    pub fn set_device_topk(&mut self, on: bool)
        requires
            old(self).wf(),
        ensures
            final(self).wf(),
            *final(self) == (GpuModel {
                switches: Switches { use_device_topk: on, ..old(self).switches },
                ..*old(self)
            }),
    {
        self.switches.use_device_topk = on;
    }

    /// Whether sampled rows may take their candidates from the device.
    pub fn device_topk(&self) -> (b: bool)
        ensures
            b == self.switches.use_device_topk,
    {
        self.switches.use_device_topk
    }

    /// Candidates the device path can return for one row.
    pub fn topk_capacity(&self) -> (n: usize)
        ensures
            n == TOPK_MAX,
    {
        TOPK_MAX
    }

    /// Turn replay of prompts on or off. Off drops the graphs.
    pub fn set_prefill_graph(&mut self, on: bool)
        requires
            old(self).wf(),
        ensures
            final(self).wf(),
            final(self).prefill_graphs@ == (if on {
                old(self).prefill_graphs@
            } else {
                PrefillGraphsView {
                    resident: Set::empty(),
                    failed: Set::empty(),
                    ..old(self).prefill_graphs@
                }
            }),
            *final(self) == (GpuModel {
                switches: Switches { use_prefill_graph: on, ..old(self).switches },
                prefill_graphs: final(self).prefill_graphs,
                ..*old(self)
            }),
    {
        self.switches.use_prefill_graph = on;
        if !on {
            self.prefill_graphs.clear();
        }
    }

    /// Whether prompts replay graphs.
    pub fn prefill_graph(&self) -> (b: bool)
        ensures
            b == self.switches.use_prefill_graph,
    {
        self.switches.use_prefill_graph
    }

    /// Choose the prompt attention. Its code and scratch may differ, so prompt
    /// graphs and prepared metadata are stale.
    ///
    /// `valid` is what the kernels make of the variant; one that they refuse
    /// changes nothing. Returned are the elements of the buffer that is to be
    /// allocated: a hybrid variant keeps the rotated K of a whole chunk, once one
    /// is chosen and for good.
    pub fn set_prefill_attention(
        &mut self,
        variant: PrefillAttentionVariant,
        valid: Result<(), String>,
    ) -> (r: Result<Option<usize>, String>)
        requires
            old(self).wf(),
        ensures
            final(self).wf(),
            match valid {
                Ok(()) => {
                    &&& r == Ok::<Option<usize>, String>(
                        if variant.hybrid() && !old(self).current_k {
                            Some((old(self).capacity * old(self).kv_dim()) as usize)
                        } else {
                            None
                        },
                    )
                    &&& final(self).prefill_graphs@ == (PrefillGraphsView {
                        resident: Set::empty(),
                        failed: Set::empty(),
                        captures: 0,
                        replays: old(self).prefill_graphs@.replays,
                    })
                    &&& *final(self) == (GpuModel {
                        prefill_attention: variant,
                        current_k: old(self).current_k || variant.hybrid(),
                        prefill_graphs: final(self).prefill_graphs,
                        prepared_shape: None,
                        ..*old(self)
                    })
                },
                Err(e) => r == Err::<Option<usize>, String>(e) && *final(self) == *old(self),
            },
    {
        if let Err(e) = valid {
            return Err(e);
        }
        self.prefill_graphs.invalidate();
        self.prepared_shape = None;
        self.prefill_attention = variant;
        if variant.uses_hybrid() && !self.current_k {
            self.current_k = true;
            let kv_dim: usize = self.cfg.n_kv_head * self.cfg.head_dim();
            return Ok(Some(self.capacity * kv_dim));
        }
        Ok(None)
    }

    /// The prompt attention.
    pub fn prefill_attention(&self) -> (v: PrefillAttentionVariant)
        ensures
            v == self.prefill_attention,
    {
        self.prefill_attention
    }

    /// Whether prompts run on tiled attention: in pages, with the geometry its
    /// kernels are written for.
    pub open spec fn tiled(&self) -> bool {
        &&& self.use_paged
        &&& !(self.prefill_attention is Reference)
        &&& self.head_dim() == 64
        &&& self.cfg.n_head == 4 * self.cfg.n_kv_head
    }

    fn tiled_prefill_attention(&self) -> (b: bool)
        requires
            self.cfg.n_head > 0,
        ensures
            b == self.tiled(),
    {
        self.use_paged && !self.prefill_attention.is_reference() && self.cfg.head_dim() == 64
            && self.cfg.n_head % 4 == 0 && self.cfg.n_head / 4 == self.cfg.n_kv_head
    }

    /// Graphs captured and replays served.
    pub fn prefill_graph_stats(&self) -> (r: (usize, usize))
        ensures
            r.0 == self.prefill_graphs@.captures,
            r.1 == self.prefill_graphs@.replays,
    {
        self.prefill_graphs.stats()
    }

    /// Drop every captured prompt graph.
    pub fn invalidate_prefill_graphs(&mut self)
        requires
            old(self).wf(),
        ensures
            final(self).wf(),
            final(self).prefill_graphs@ == (PrefillGraphsView {
                resident: Set::empty(),
                failed: Set::empty(),
                captures: 0,
                replays: old(self).prefill_graphs@.replays,
            }),
            *final(self) == (GpuModel { prefill_graphs: final(self).prefill_graphs, ..*old(self) }),
    {
        self.prefill_graphs.invalidate();
    }

    /// Drop every captured decode graph.
    pub fn invalidate_batch_graphs(&mut self)
        requires
            old(self).wf(),
        ensures
            final(self).wf(),
            final(self).batch_graphs@ == Seq::new(old(self).batch_graphs@.len(), |i: int| false),
            *final(self) == (GpuModel { batch_graphs: final(self).batch_graphs, ..*old(self) }),
    {
        self.batch_graphs.invalidate();
    }

    /// Decode graphs resident.
    pub fn graphs_captured(&self) -> (n: usize)
        requires
            self.wf(),
        ensures
            n == graphs::count(self.batch_graphs@),
    {
        self.batch_graphs.captured()
    }

    /// Kernels launched by one batched decode step, for reporting.
    pub fn batch_step_kernels(&self) -> (n: usize)
        requires
            1 + self.cfg.n_layer * 15 + 2 <= usize::MAX,
        ensures
            n == 1 + self.cfg.n_layer * 15 + 2,
    {
        profile::batch_step_kernels(self.cfg.n_layer)
    }

    /// Entries of one page table.
    pub fn table_stride(&self) -> (n: usize)
        ensures
            n == self.table_stride,
    {
        self.table_stride
    }

    /// Pages held by the single-request sequence.
    pub fn seq_pages(&self) -> (n: usize)
        ensures
            n == self.seq@.pages.len(),
    {
        self.seq.n_pages()
    }

    /// Allocated but unoccupied slots of the single-request sequence.
    pub fn seq_wasted_slots(&self) -> (n: usize)
        requires
            self.wf(),
            self.seq@.pages.len() * PAGE_TOKENS <= usize::MAX,
        ensures
            n == self.seq@.pages.len() * PAGE_TOKENS - self.seq@.len,
    {
        self.seq.wasted_slots()
    }

    /// Positions of the single-request sequence.
    pub fn cache_len(&self) -> (n: usize)
        ensures
            n == self.cache_len,
    {
        self.cache_len
    }

    /// Turn replay of single tokens on or off. Off drops the graph.
    pub fn enable_graph(&mut self, on: bool)
        requires
            old(self).wf(),
        ensures
            final(self).wf(),
            *final(self) == (GpuModel {
                switches: Switches { use_graph: on, ..old(self).switches },
                graph: on && old(self).graph,
                ..*old(self)
            }),
    {
        self.switches.use_graph = on;
        if !on {
            self.graph = false;
        }
    }

    /// Whether the single-token graph is captured.
    pub fn graph_active(&self) -> (b: bool)
        ensures
            b == self.graph,
    {
        self.graph
    }

    /// Forget the single-request sequence. Its pages go back to the pool, which
    /// is what makes them reusable.
    pub fn reset(&mut self)
        requires
            old(self).wf(),
        ensures
            final(self).wf(),
            old(self).use_paged ==> final(self).pool@ == old(self).pool@.after_releases(
                old(self).seq@.pages,
            ) && final(self).seq@ == (SequenceView { pages: Seq::empty(), len: 0 }),
            !old(self).use_paged ==> final(self).pool == old(self).pool && final(self).seq == old(
                self,
            ).seq,
            *final(self) == (GpuModel {
                cache_len: 0,
                prepared_shape: None,
                pool: final(self).pool,
                seq: final(self).seq,
                ..*old(self)
            }),
    {
        self.prepared_shape = None;
        self.cache_len = 0;
        if self.use_paged {
            proof {
                self.pool.lemma_wf();
                paged::lemma_owned_is_releasable(self.pool@, self.seq@);
            }
            let released = self.seq.release(&mut self.pool);
            proof {
                assert(released is Ok);
                assert(self.seq@.pages =~= Seq::empty());
            }
        }
    }

    /// Bytes of the contiguous cache, K and V together.
    pub fn cache_bytes(&self) -> (n: usize)
        requires
            self.sized(),
            2 * self.cfg.n_layer <= usize::MAX,
            2 * self.cfg.n_layer * self.capacity * self.kv_dim() * 4 <= usize::MAX,
        ensures
            n == 2 * self.cfg.n_layer * self.capacity * self.kv_dim() * 4,
    {
        let kv_dim: usize = self.cfg.n_kv_head * self.cfg.head_dim();
        proof {
            assert(2 * self.cfg.n_layer * self.capacity <= 2 * self.cfg.n_layer * self.capacity * kv_dim)
                by (nonlinear_arith)
                requires
                    kv_dim >= 1,
            ;
        }
        2 * self.cfg.n_layer * self.capacity * kv_dim * 4
    }

    /// Bytes copied to the host by one step: one id a row, or all logits.
    pub fn d2h_bytes(&self, n: usize, device_argmax: bool) -> (b: usize)
        requires
            n * 4 <= usize::MAX,
            n * self.cfg.vocab_size * 4 <= usize::MAX,
        ensures
            b == (if device_argmax {
                n * 4
            } else {
                n * self.cfg.vocab_size * 4
            }),
    {
        if device_argmax {
            n * 4
        } else {
            n * self.cfg.vocab_size * 4
        }
    }
}

// ---------------------------------------------------------------------------
// Batched decode.

/// The first token that a vocabulary does not have.
pub open spec fn first_unknown(tokens: Seq<usize>, vocab: usize) -> Option<usize>
    decreases tokens.len(),
{
    if tokens.len() == 0 {
        None
    } else if tokens[0] >= vocab {
        Some(tokens[0])
    } else {
        first_unknown(tokens.skip(1), vocab)
    }
}

fn check_tokens(tokens: &[usize], vocab: usize) -> (r: Option<usize>)
    ensures
        r == first_unknown(tokens@, vocab),
{
    let ghost all = tokens@;
    let mut i: usize = 0;
    assert(all.skip(0) =~= all);
    while i < tokens.len()
        invariant
            all == tokens@,
            i <= all.len(),
            first_unknown(all, vocab) == first_unknown(all.skip(i as int), vocab),
        decreases all.len() - i,
    {
        assert(all.skip(i as int)[0] == all[i as int]);
        if tokens[i] >= vocab {
            return Some(tokens[i]);
        }
        assert(all.skip(i as int).skip(1) =~= all.skip(i + 1));
        i += 1;
    }
    None
}

/// The first row that a batch does not have.
pub open spec fn first_outside(rows: Seq<usize>, n: usize) -> Option<usize>
    decreases rows.len(),
{
    if rows.len() == 0 {
        None
    } else if rows[0] >= n {
        Some(rows[0])
    } else {
        first_outside(rows.skip(1), n)
    }
}

fn check_rows(rows: &[usize], n: usize) -> (r: Option<usize>)
    ensures
        r == first_outside(rows@, n),
{
    let ghost all = rows@;
    let mut i: usize = 0;
    assert(all.skip(0) =~= all);
    while i < rows.len()
        invariant
            all == rows@,
            i <= all.len(),
            first_outside(all, n) == first_outside(all.skip(i as int), n),
        decreases all.len() - i,
    {
        assert(all.skip(i as int)[0] == all[i as int]);
        if rows[i] >= n {
            return Some(rows[i]);
        }
        assert(all.skip(i as int).skip(1) =~= all.skip(i + 1));
        i += 1;
    }
    None
}

/// The first candidate request that a batch cannot serve.
pub open spec fn topk_refusal(rows: Seq<(usize, usize)>, n: usize) -> Option<GpuError>
    decreases rows.len(),
{
    if rows.len() == 0 {
        None
    } else if rows[0].0 >= n {
        Some(GpuError::Row { row: rows[0].0, n })
    } else if rows[0].1 == 0 || rows[0].1 > TOPK_MAX {
        Some(GpuError::TopK { k: rows[0].1 })
    } else {
        topk_refusal(rows.skip(1), n)
    }
}

/// The candidates each of `n` rows asks for.
fn row_counts(rows: &[(usize, usize)], n: usize) -> (r: Result<Vec<i32>, GpuError>)
    ensures
        match r {
            Ok(v) => {
                &&& topk_refusal(rows@, n) is None
                &&& v@.len() == n
                &&& forall|i: int| 0 <= i < n ==> #[trigger] v@[i] == packed::candidates(rows@, i)
            },
            Err(e) => topk_refusal(rows@, n) == Some(e),
        },
{
    let mut v: Vec<i32> = Vec::new();
    pad_zeros(&mut v, n);
    let ghost all = rows@;
    let mut i: usize = 0;
    assert(all.skip(0) =~= all);
    while i < rows.len()
        invariant
            all == rows@,
            i <= all.len(),
            v@.len() == n,
            topk_refusal(all, n) == topk_refusal(all.skip(i as int), n),
            forall|x: int| 0 <= x < n ==> #[trigger] v@[x] == packed::candidates(all.take(i as int), x),
        decreases all.len() - i,
    {
        assert(all.skip(i as int)[0] == all[i as int]);
        let (row, k) = rows[i];
        if row >= n {
            return Err(GpuError::Row { row, n });
        }
        if k == 0 || k > TOPK_MAX {
            return Err(GpuError::TopK { k });
        }
        let ghost before = v@;
        v.set(row, k as i32);
        proof {
            assert(all.skip(i as int).skip(1) =~= all.skip(i + 1));
            let next = all.take(i + 1);
            assert(next.drop_last() =~= all.take(i as int));
            assert forall|x: int| 0 <= x < n implies #[trigger] v@[x] == packed::candidates(next, x) by {
                if x != row {
                    assert(v@[x] == before[x]);
                }
            }
        }
        i += 1;
    }
    assert(all.take(i as int) =~= all);
    Ok(v)
}

/// What a batched decode step uploads first. `row_k` is left out where the
/// device already holds it.
#[derive(Debug)]
pub struct BatchUpload {
    pub tables: Vec<i32>,
    pub lens: Vec<i32>,
    pub tokens: Vec<i32>,
    pub positions: Vec<i32>,
    pub row_k: Option<Vec<i32>>,
}

/// What a step brings back.
#[derive(Debug)]
pub enum Readback {
    /// All logits of the first rows.
    Logits { rows: usize },
    /// One token id per row.
    Ids { rows: usize },
    /// One token id per row; candidates of every row, where any asked for some;
    /// and all logits of the rows listed.
    Mixed { rows: usize, candidates: bool, full: Vec<usize>, bytes: usize },
}

/// One batched decode step: what to upload, how to run it, what to read back.
/// `ops` is empty where a graph is replayed.
#[derive(Debug)]
pub struct DecodeStep {
    pub upload: BatchUpload,
    pub slot: usize,
    pub run: Run,
    pub ops: Vec<Op>,
    pub read: Readback,
}

/// A row of a batch buffer: the first `n` entries as given, the rest zero.
pub open spec fn slotted(v: Seq<i32>, n: nat, len: nat) -> Seq<i32> {
    Seq::new(
        len,
        |i: int|
            if i < n && i < v.len() {
                v[i]
            } else {
                0
            },
    )
}

/// Numbers as the device counts them.
pub open spec fn narrowed(v: Seq<usize>) -> Seq<i32> {
    v.map_values(|x: usize| x as i32)
}

fn narrow(v: &[usize], n: usize, len: usize) -> (out: Vec<i32>)
    requires
        n <= v@.len(),
        n <= len,
    ensures
        out@ == slotted(narrowed(v@), n as nat, len as nat),
{
    let mut out: Vec<i32> = Vec::new();
    let mut i: usize = 0;
    while i < n
        invariant
            i <= n <= v@.len(),
            n <= len,
            out@.len() == i,
            forall|k: int| 0 <= k < i ==> #[trigger] out@[k] == v@[k] as i32,
        decreases n - i,
    {
        out.push(#[verifier::truncate] (v[i] as i32));
        i += 1;
    }
    pad_zeros(&mut out, len);
    assert(out@ =~= slotted(narrowed(v@), n as nat, len as nat));
    out
}

fn widen(v: &[i32], n: usize, len: usize) -> (out: Vec<i32>)
    requires
        n <= len,
    ensures
        out@ == slotted(v@, n as nat, len as nat),
{
    let mut out: Vec<i32> = Vec::new();
    let mut i: usize = 0;
    while i < n && i < v.len()
        invariant
            i <= n,
            i <= v@.len(),
            n <= len,
            out@.len() == i,
            forall|k: int| 0 <= k < i ==> #[trigger] out@[k] == v@[k],
        decreases n - i,
    {
        out.push(v[i]);
        i += 1;
    }
    pad_zeros(&mut out, len);
    assert(out@ =~= slotted(v@, n as nat, len as nat));
    out
}

fn copied(v: &[i32]) -> (out: Vec<i32>)
    ensures
        out@ == v@,
{
    let mut out: Vec<i32> = Vec::new();
    let mut i: usize = 0;
    while i < v.len()
        invariant
            i <= v@.len(),
            out@ =~= v@.take(i as int),
        decreases v@.len() - i,
    {
        out.push(v[i]);
        i += 1;
    }
    assert(out@ =~= v@);
    out
}

fn same(a: &Vec<i32>, b: &Vec<i32>) -> (r: bool)
    ensures
        r == (a@ == b@),
{
    if a.len() != b.len() {
        return false;
    }
    let mut i: usize = 0;
    while i < a.len()
        invariant
            i <= a@.len(),
            a@.len() == b@.len(),
            forall|k: int| 0 <= k < i ==> a@[k] == b@[k],
        decreases a@.len() - i,
    {
        if a[i] != b[i] {
            return false;
        }
        i += 1;
    }
    assert(a@ =~= b@);
    true
}

impl GpuModel {
    /// Why a batch is refused, if it is: the first reason, in the order they
    /// are checked.
    pub open spec fn batch_refusal(
        &self,
        tokens: Seq<usize>,
        positions: nat,
        tables: nat,
        lens: nat,
    ) -> Option<GpuError> {
        let n = tokens.len();
        if !self.use_paged {
            Some(GpuError::DecodeNeedsPaging)
        } else if n > self.max_batch {
            Some(GpuError::BatchTooLarge { n: n as usize, max: self.max_batch })
        } else if positions != n || lens != n {
            Some(GpuError::Metadata)
        } else if tables != self.max_batch * self.table_stride {
            Some(GpuError::TableSize { want: (self.max_batch * self.table_stride) as usize })
        } else if first_unknown(tokens, self.cfg.vocab_size) is Some {
            Some(
                GpuError::Token {
                    token: first_unknown(tokens, self.cfg.vocab_size)->0,
                    vocab: self.cfg.vocab_size,
                },
            )
        } else {
            None
        }
    }

    /// Whether an upload is that of a batch: every array in its slots, unused
    /// slots zero, and a length of zero marks a slot inactive.
    pub open spec fn uploads(
        &self,
        u: BatchUpload,
        tokens: Seq<usize>,
        positions: Seq<usize>,
        tables: Seq<i32>,
        lens: Seq<i32>,
        row_k: Seq<i32>,
    ) -> bool {
        let n = tokens.len();
        let slots = self.max_batch as nat;
        let k = slotted(row_k, n, slots);
        &&& u.tables@ == tables
        &&& u.lens@ == slotted(lens, n, slots)
        &&& u.tokens@ == slotted(narrowed(tokens), n, slots)
        &&& u.positions@ == slotted(narrowed(positions), n, slots)
        &&& u.row_k is None <==> k == self.host_row_k@
        &&& u.row_k is Some ==> u.row_k->0@ == k
    }

    /// Check a step's metadata and lay it out for upload. Outside any capture:
    /// a captured copy would hold a host pointer that is gone by the next
    /// replay. `row_k` is laid out every step, so that no slot keeps the
    /// candidates of its last occupant.
    fn upload_batch(
        &mut self,
        tokens: &[usize],
        positions: &[usize],
        tables: &[i32],
        lens: &[i32],
        row_k: &[i32],
    ) -> (r: Result<BatchUpload, GpuError>)
        requires
            old(self).wf(),
            tokens@.len() > 0,
        ensures
            final(self).wf(),
            match r {
                Ok(u) => {
                    &&& old(self).paging
                    &&& old(self).batch_refusal(
                        tokens@,
                        positions@.len(),
                        tables@.len(),
                        lens@.len(),
                    ) is None
                    &&& old(self).uploads(u, tokens@, positions@, tables@, lens@, row_k@)
                    &&& final(self).host_tables@ == tables@
                    &&& final(self).host_row_k@ == slotted(
                        row_k@,
                        tokens@.len(),
                        old(self).max_batch as nat,
                    )
                    &&& *final(self) == (GpuModel {
                        host_tables: final(self).host_tables,
                        host_row_k: final(self).host_row_k,
                        prepared_shape: None,
                        ..*old(self)
                    })
                },
                Err(e) => {
                    &&& old(self).batch_refusal(
                        tokens@,
                        positions@.len(),
                        tables@.len(),
                        lens@.len(),
                    ) == Some(e)
                    &&& *final(self) == (GpuModel { prepared_shape: None, ..*old(self) })
                },
            },
    {
        let n: usize = tokens.len();
        self.prepared_shape = None;
        if !self.use_paged {
            return Err(GpuError::DecodeNeedsPaging);
        }
        if n > self.max_batch {
            return Err(GpuError::BatchTooLarge { n, max: self.max_batch });
        }
        if positions.len() != n || lens.len() != n {
            return Err(GpuError::Metadata);
        }
        let entries: usize = self.host_tables.len();
        if tables.len() != entries {
            return Err(GpuError::TableSize { want: entries });
        }
        if let Some(token) = check_tokens(tokens, self.cfg.vocab_size) {
            return Err(GpuError::Token { token, vocab: self.cfg.vocab_size });
        }
        let slots: usize = self.max_batch;
        let k = widen(row_k, n, slots);
        self.host_tables = copied(tables);
        let row_k = if same(&k, &self.host_row_k) {
            None
        } else {
            Some(copied(k.as_slice()))
        };
        self.host_row_k = k;
        Ok(
            BatchUpload {
                tables: copied(tables),
                lens: widen(lens, n, slots),
                tokens: narrow(tokens, n, slots),
                positions: narrow(positions, n, slots),
                row_k,
            },
        )
    }

    /// How a batch of `n` is run, and what it launches unless it is replayed.
    pub open spec fn runs(&self, n: nat, topk: bool, run: Run, ops: Seq<Op>) -> bool {
        &&& run == (if !self.switches.use_batch_graph {
            Run::Eager
        } else if self.batch_graphs@[graphs::slot(n, topk)] {
            Run::Replay
        } else {
            Run::Capture
        })
        &&& ops == (if run == Run::Replay {
            Seq::empty()
        } else {
            launch::decode_batch(self.shape(), n as usize, topk, self.switches.force_decode_gemm)
        })
    }

    /// Whether a batch of `n` can run: from a graph, or because the launches
    /// can be made.
    pub open spec fn can_run(&self, n: nat, topk: bool) -> bool {
        self.shape().runnable() || (self.switches.use_batch_graph && self.batch_graphs@[graphs::slot(
            n,
            topk,
        )])
    }

    fn run_decode_batch(&self, n: usize, topk: bool) -> (r: Result<(usize, Run, Vec<Op>), GpuError>)
        requires
            self.wf(),
            0 < n <= self.max_batch,
        ensures
            match r {
                Ok(x) => self.can_run(n as nat, topk) && x.0 == graphs::slot(n as nat, topk)
                    && self.runs(n as nat, topk, x.1, x.2@),
                Err(e) => !self.can_run(n as nat, topk) && e == GpuError::SwigluOnly,
            },
    {
        let slot: usize = graph_slot(n, topk);
        let run = self.batch_graphs.run(self.switches.use_batch_graph, slot);
        if run == Run::Replay {
            return Ok((slot, run, Vec::new()));
        }
        let shape = self.shape_of();
        proof {
            assert(n * shape.n_embd <= 16 * shape.n_embd) by (nonlinear_arith)
                requires
                    n <= 16,
            ;
            assert(n * shape.hidden <= 16 * shape.hidden) by (nonlinear_arith)
                requires
                    n <= 16,
            ;
        }
        match queue_decode_batch(&shape, n, topk, self.switches.force_decode_gemm) {
            Ok(ops) => Ok((slot, run, ops)),
            Err(_) => Err(GpuError::SwigluOnly),
        }
    }

    /// A decode graph was captured for `n` requests. Until it is invalidated,
    /// steps of that kind replay it.
    pub fn decode_captured(&mut self, n: usize, topk: bool)
        requires
            old(self).wf(),
            0 < n <= old(self).max_batch,
        ensures
            final(self).wf(),
            final(self).batch_graphs@ == old(self).batch_graphs@.update(
                graphs::slot(n as nat, topk),
                true,
            ),
            *final(self) == (GpuModel { batch_graphs: final(self).batch_graphs, ..*old(self) }),
    {
        let slot: usize = graph_slot(n, topk);
        self.batch_graphs.insert(slot);
    }

    /// What a decode step leaves behind: the metadata it uploaded.
    pub open spec fn uploaded(
        &self,
        before: GpuModel,
        tables: Seq<i32>,
        row_k: Seq<i32>,
        n: nat,
    ) -> bool {
        &&& self.host_tables@ == tables
        &&& self.host_row_k@ == slotted(row_k, n, before.max_batch as nat)
        &&& *self == (GpuModel {
            host_tables: self.host_tables,
            host_row_k: self.host_row_k,
            prepared_shape: None,
            ..before
        })
    }

    /// One decode step for several requests at once, with the candidates that
    /// `row_k` asks for.
    fn step(
        &mut self,
        tokens: &[usize],
        positions: &[usize],
        tables: &[i32],
        lens: &[i32],
        row_k: &[i32],
        topk: bool,
    ) -> (r: Result<(BatchUpload, usize, Run, Vec<Op>), GpuError>)
        requires
            old(self).wf(),
            tokens@.len() > 0,
        ensures
            final(self).wf(),
            ({
                let refused = old(self).batch_refusal(
                    tokens@,
                    positions@.len(),
                    tables@.len(),
                    lens@.len(),
                );
                match r {
                    Ok(s) => {
                        &&& refused is None
                        &&& old(self).can_run(tokens@.len(), topk)
                        &&& old(self).uploads(s.0, tokens@, positions@, tables@, lens@, row_k@)
                        &&& s.1 == graphs::slot(tokens@.len(), topk)
                        &&& old(self).runs(tokens@.len(), topk, s.2, s.3@)
                        &&& final(self).uploaded(*old(self), tables@, row_k@, tokens@.len())
                    },
                    Err(e) => if refused is Some {
                        &&& refused == Some(e)
                        &&& *final(self) == (GpuModel { prepared_shape: None, ..*old(self) })
                    } else {
                        &&& !old(self).can_run(tokens@.len(), topk)
                        &&& e == GpuError::SwigluOnly
                        &&& final(self).uploaded(*old(self), tables@, row_k@, tokens@.len())
                    },
                }
            }),
    {
        let upload = match self.upload_batch(tokens, positions, tables, lens, row_k) {
            Ok(u) => u,
            Err(e) => {
                return Err(e);
            },
        };
        match self.run_decode_batch(tokens.len(), topk) {
            Ok((slot, run, ops)) => Ok((upload, slot, run, ops)),
            Err(e) => Err(e),
        }
    }

    /// What a decode step without candidates may come to: nothing for an empty
    /// batch, the first refusal, or the step.
    pub open spec fn plain_outcome(
        before: GpuModel,
        after: GpuModel,
        tokens: Seq<usize>,
        positions: Seq<usize>,
        tables: Seq<i32>,
        lens: Seq<i32>,
        read: Readback,
        r: Result<Option<DecodeStep>, GpuError>,
    ) -> bool {
        let n = tokens.len();
        let refused = before.batch_refusal(tokens, positions.len(), tables.len(), lens.len());
        match r {
            Ok(None) => n == 0 && after == before,
            Ok(Some(s)) => {
                &&& n > 0
                &&& refused is None
                &&& before.can_run(n, false)
                &&& before.uploads(s.upload, tokens, positions, tables, lens, Seq::empty())
                &&& s.slot == graphs::slot(n, false)
                &&& before.runs(n, false, s.run, s.ops@)
                &&& s.read == read
                &&& after.uploaded(before, tables, Seq::empty(), n)
            },
            Err(e) => n > 0 && if refused is Some {
                refused == Some(e) && after == (GpuModel { prepared_shape: None, ..before })
            } else {
                &&& !before.can_run(n, false)
                &&& e == GpuError::SwigluOnly
                &&& after.uploaded(before, tables, Seq::empty(), n)
            },
        }
    }

    /// One decode step for `n` requests, bringing back all logits.
    ///
    /// Every per-request quantity arrives as an array: the token to embed, the
    /// position to rotate at, the page table to write into and attend over, and
    /// the sequence length. Nothing is padded to the longest sequence. Nothing
    /// is to be done for an empty batch.
    pub fn decode_batch(
        &mut self,
        tokens: &[usize],
        positions: &[usize],
        tables: &[i32],
        lens: &[i32],
    ) -> (r: Result<Option<DecodeStep>, GpuError>)
        requires
            old(self).wf(),
        ensures
            final(self).wf(),
            Self::plain_outcome(
                *old(self),
                *final(self),
                tokens@,
                positions@,
                tables@,
                lens@,
                Readback::Logits { rows: tokens@.len() as usize },
                r,
            ),
    {
        let n: usize = tokens.len();
        if n == 0 {
            return Ok(None);
        }
        let none: Vec<i32> = Vec::new();
        match self.step(tokens, positions, tables, lens, none.as_slice(), false) {
            Ok((upload, slot, run, ops)) => Ok(
                Some(DecodeStep { upload, slot, run, ops, read: Readback::Logits { rows: n } }),
            ),
            Err(e) => Err(e),
        }
    }

    /// One decode step bringing back the argmax token id per request. The same
    /// kernels as `decode_batch`; what differs is what is copied back.
    pub fn decode_batch_tokens(
        &mut self,
        tokens: &[usize],
        positions: &[usize],
        tables: &[i32],
        lens: &[i32],
    ) -> (r: Result<Option<DecodeStep>, GpuError>)
        requires
            old(self).wf(),
        ensures
            final(self).wf(),
            Self::plain_outcome(
                *old(self),
                *final(self),
                tokens@,
                positions@,
                tables@,
                lens@,
                Readback::Ids { rows: tokens@.len() as usize },
                r,
            ),
    {
        let n: usize = tokens.len();
        if n == 0 {
            return Ok(None);
        }
        let none: Vec<i32> = Vec::new();
        match self.step(tokens, positions, tables, lens, none.as_slice(), false) {
            Ok((upload, slot, run, ops)) => Ok(
                Some(DecodeStep { upload, slot, run, ops, read: Readback::Ids { rows: n } }),
            ),
            Err(e) => Err(e),
        }
    }

    /// Bytes a selection copies to the host: an id per row, two blocks of
    /// candidates where any row has some, and the full rows.
    pub open spec fn selection_bytes(vocab: nat, rows: nat, candidates: bool, full: nat) -> nat {
        rows * 4 + (if candidates {
            rows * TOPK_MAX as nat * 8
        } else {
            0
        }) + full * vocab * 4
    }

    /// What a selection reads: decode steps and finished prompts alike.
    fn read_batch_selection(&self, rows: usize, candidates: bool, full_rows: &[usize]) -> (r: Readback)
        requires
            rows <= 16,
            full_rows@.len() * self.cfg.vocab_size * 4 + 16 * 1028 <= usize::MAX,
        ensures
            self.reads(r, rows as nat, candidates, full_rows@),
    {
        let mut bytes: usize = rows * 4;
        if candidates {
            bytes = bytes + rows * TOPK_MAX * 8;
        }
        let mut full: Vec<usize> = Vec::new();
        let mut i: usize = 0;
        while i < full_rows.len()
            invariant
                i <= full_rows@.len(),
                full@ =~= full_rows@.take(i as int),
            decreases full_rows@.len() - i,
        {
            full.push(full_rows[i]);
            i += 1;
        }
        assert(full@ =~= full_rows@);
        proof {
            let v = self.cfg.vocab_size;
            let f = full_rows@.len();
            assert(f * v <= f * v * 4) by (nonlinear_arith);
        }
        bytes = bytes + full_rows.len() * self.cfg.vocab_size * 4;
        Readback::Mixed { rows, candidates, full, bytes }
    }

    /// Why a mixed step is refused before its batch is looked at.
    pub open spec fn mixed_refusal(
        n: usize,
        topk_rows: Seq<(usize, usize)>,
        full_rows: Seq<usize>,
    ) -> Option<GpuError> {
        if first_outside(full_rows, n) is Some {
            Some(GpuError::Row { row: first_outside(full_rows, n)->0, n })
        } else {
            topk_refusal(topk_rows, n)
        }
    }

    /// Whether a candidate count per row is what a list asks for.
    pub open spec fn counts(row_k: Seq<i32>, topk_rows: Seq<(usize, usize)>, n: nat) -> bool {
        row_k.len() == n && forall|i: int|
            0 <= i < n ==> #[trigger] row_k[i] == packed::candidates(topk_rows, i)
    }

    /// What a mixed step may come to. The rows it names are checked before its
    /// batch is.
    pub open spec fn mixed_outcome(
        before: GpuModel,
        after: GpuModel,
        tokens: Seq<usize>,
        positions: Seq<usize>,
        tables: Seq<i32>,
        lens: Seq<i32>,
        topk_rows: Seq<(usize, usize)>,
        full_rows: Seq<usize>,
        r: Result<Option<DecodeStep>, GpuError>,
    ) -> bool {
        let n = tokens.len();
        let topk = topk_rows.len() > 0;
        let early = Self::mixed_refusal(n as usize, topk_rows, full_rows);
        let refused = before.batch_refusal(tokens, positions.len(), tables.len(), lens.len());
        match r {
            Ok(None) => n == 0 && after == before,
            Ok(Some(s)) => {
                &&& n > 0
                &&& early is None
                &&& refused is None
                &&& before.can_run(n, topk)
                &&& s.slot == graphs::slot(n, topk)
                &&& before.runs(n, topk, s.run, s.ops@)
                &&& before.reads(s.read, n, topk, full_rows)
                &&& exists|k: Seq<i32>| #[trigger]
                    Self::counts(k, topk_rows, n) && before.uploads(
                        s.upload,
                        tokens,
                        positions,
                        tables,
                        lens,
                        k,
                    ) && after.uploaded(before, tables, k, n)
            },
            Err(e) => n > 0 && if early is Some {
                early == Some(e) && after == before
            } else if refused is Some {
                refused == Some(e) && after == (GpuModel { prepared_shape: None, ..before })
            } else {
                &&& !before.can_run(n, topk)
                &&& e == GpuError::SwigluOnly
                &&& exists|k: Seq<i32>| #[trigger]
                    Self::counts(k, topk_rows, n) && after.uploaded(before, tables, k, n)
            },
        }
    }

    /// Whether a readback is that of a selection over `rows` rows.
    pub open spec fn reads(&self, read: Readback, rows: nat, topk: bool, full_rows: Seq<usize>) -> bool {
        read matches Readback::Mixed { rows: n, candidates, full, bytes } && n == rows && candidates
            == topk && full@ == full_rows && bytes == Self::selection_bytes(
            self.cfg.vocab_size as nat,
            rows,
            topk,
            full_rows.len(),
        )
    }

    /// One decode step bringing back whatever each row's sampling policy needs:
    /// an argmax id for every row, candidates for the rows of `topk_rows`, and
    /// all logits for those of `full_rows`.
    pub fn decode_batch_mixed(
        &mut self,
        tokens: &[usize],
        positions: &[usize],
        tables: &[i32],
        lens: &[i32],
        topk_rows: &[(usize, usize)],
        full_rows: &[usize],
    ) -> (r: Result<Option<DecodeStep>, GpuError>)
        requires
            old(self).wf(),
            full_rows@.len() * old(self).cfg.vocab_size * 4 + 16 * 1028 <= usize::MAX,
        ensures
            final(self).wf(),
            Self::mixed_outcome(
                *old(self),
                *final(self),
                tokens@,
                positions@,
                tables@,
                lens@,
                topk_rows@,
                full_rows@,
                r,
            ),
    {
        let n: usize = tokens.len();
        if n == 0 {
            return Ok(None);
        }
        if let Some(row) = check_rows(full_rows, n) {
            return Err(GpuError::Row { row, n });
        }
        let row_k = match row_counts(topk_rows, n) {
            Ok(v) => v,
            Err(e) => {
                return Err(e);
            },
        };
        proof {
            assert(Self::counts(row_k@, topk_rows@, n as nat));
        }
        let topk = topk_rows.len() > 0;
        match self.step(tokens, positions, tables, lens, row_k.as_slice(), topk) {
            Ok((upload, slot, run, ops)) => {
                let read = self.read_batch_selection(n, topk, full_rows);
                Ok(Some(DecodeStep { upload, slot, run, ops, read }))
            },
            Err(e) => Err(e),
        }
    }

    /// One decode step bringing back argmax ids for every request plus all
    /// logits for the rows named: the path that sampling is compared against,
    /// and the fallback for more candidates than the device extracts.
    pub fn decode_batch_select(
        &mut self,
        tokens: &[usize],
        positions: &[usize],
        tables: &[i32],
        lens: &[i32],
        rows: &[usize],
    ) -> (r: Result<Option<DecodeStep>, GpuError>)
        requires
            old(self).wf(),
            rows@.len() * old(self).cfg.vocab_size * 4 + 16 * 1028 <= usize::MAX,
        ensures
            final(self).wf(),
            Self::mixed_outcome(
                *old(self),
                *final(self),
                tokens@,
                positions@,
                tables@,
                lens@,
                Seq::empty(),
                rows@,
                r,
            ),
    {
        let none: Vec<(usize, usize)> = Vec::new();
        self.decode_batch_mixed(tokens, positions, tables, lens, none.as_slice(), rows)
    }
}

// ---------------------------------------------------------------------------
// Single requests.

/// Page tables and lengths as they are uploaded.
#[derive(Debug)]
pub struct PageUpload {
    pub tables: Vec<i32>,
    pub lens: Vec<i32>,
}

/// One token of a single request. `ops` is empty where a graph is replayed.
#[derive(Debug)]
pub struct TokenStep {
    pub params: Vec<i32>,
    pub pages: Option<PageUpload>,
    pub run: Run,
    pub ops: Vec<Op>,
}

/// How a single request's tokens are processed.
#[derive(Debug, Clone, Copy, PartialEq, Eq, Structural)]
pub enum Forward {
    /// As a matrix, in one pass.
    Prefill,
    /// One token after another.
    Tokens,
}

/// Step parameters for a token at a position, before its place is known.
pub open spec fn token_params(before: Seq<i32>, token: usize, pos: usize) -> Seq<i32> {
    before.update(PARAM_ZERO as int, 0).update(PARAM_TOKEN as int, token as i32).update(
        PARAM_POS as int,
        pos as i32,
    ).update(PARAM_SEQ as int, (pos + 1) as i32)
}

/// Step parameters for a token at a position, whose rows go to `slot`.
pub open spec fn step_params(before: Seq<i32>, token: usize, pos: usize, slot: usize) -> Seq<i32> {
    token_params(before, token, pos).update(PARAM_SLOT as int, slot as i32)
}

/// Page tables after the first slot took a table.
pub open spec fn first_slot(tables: Seq<i32>, table: Seq<i32>, stride: nat) -> Seq<i32> {
    table.take(stride as int) + tables.skip(stride as int)
}

impl GpuModel {
    /// Why tokens are refused, if they are.
    pub open spec fn forward_refusal(&self, tokens: Seq<usize>) -> Option<GpuError> {
        if tokens.len() == 0 {
            Some(GpuError::NoTokens)
        } else if self.cache_len + tokens.len() > self.capacity {
            Some(
                GpuError::Sequence {
                    len: (self.cache_len + tokens.len()) as usize,
                    capacity: self.capacity,
                },
            )
        } else if first_unknown(tokens, self.cfg.vocab_size) is Some {
            Some(
                GpuError::Token {
                    token: first_unknown(tokens, self.cfg.vocab_size)->0,
                    vocab: self.cfg.vocab_size,
                },
            )
        } else {
            None
        }
    }

    /// Check tokens that are to be appended to the single request. More than
    /// one is a prompt, and goes through as a matrix unless that is turned off.
    pub fn forward(&self, tokens: &[usize]) -> (r: Result<Forward, GpuError>)
        requires
            self.cache_len + tokens@.len() <= usize::MAX,
        ensures
            match r {
                Ok(f) => self.forward_refusal(tokens@) is None && f == (if tokens@.len() > 1
                    && self.switches.use_batched_prefill {
                    Forward::Prefill
                } else {
                    Forward::Tokens
                }),
                Err(e) => self.forward_refusal(tokens@) == Some(e),
            },
    {
        if tokens.len() == 0 {
            return Err(GpuError::NoTokens);
        }
        let len: usize = self.cache_len + tokens.len();
        if len > self.capacity {
            return Err(GpuError::Sequence { len, capacity: self.capacity });
        }
        if let Some(token) = check_tokens(tokens, self.cfg.vocab_size) {
            return Err(GpuError::Token { token, vocab: self.cfg.vocab_size });
        }
        if tokens.len() > 1 && self.switches.use_batched_prefill {
            Ok(Forward::Prefill)
        } else {
            Ok(Forward::Tokens)
        }
    }

    /// Where a position's rows go, in floats from the layer's base: within the
    /// position's page, or along the contiguous cache.
    pub open spec fn slot_of(&self, seq: SequenceView, pos: nat) -> nat {
        if self.use_paged {
            let (page, slot) = seq.place(pos);
            (page as nat * self.cfg.n_layer as nat * PAGE_TOKENS as nat + slot) * self.kv_dim()
        } else {
            pos * self.kv_dim()
        }
    }

    fn upload_slot0(&mut self, table: &[i32], len: usize) -> (u: PageUpload)
        requires
            old(self).wf(),
            table@.len() >= old(self).table_stride,
        ensures
            final(self).wf(),
            final(self).host_tables@ == first_slot(
                old(self).host_tables@,
                table@,
                old(self).table_stride as nat,
            ),
            final(self).host_lens@ == old(self).host_lens@.update(0, len as i32),
            u.tables@ == final(self).host_tables@,
            u.lens@ == final(self).host_lens@,
            *final(self) == (GpuModel {
                host_tables: final(self).host_tables,
                host_lens: final(self).host_lens,
                prepared_shape: None,
                ..*old(self)
            }),
    {
        self.prepared_shape = None;
        let stride: usize = self.table_stride;
        let ghost before = self.host_tables@;
        proof {
            assert(self.slots() >= 1);
            assert(self.slots() * stride >= stride) by (nonlinear_arith)
                requires
                    self.slots() >= 1,
            ;
        }
        let mut i: usize = 0;
        while i < stride
            invariant
                i <= stride <= table@.len(),
                stride <= before.len(),
                self.host_tables@.len() == before.len(),
                forall|k: int| 0 <= k < i ==> #[trigger] self.host_tables@[k] == table@[k],
                forall|k: int| i <= k < before.len() ==> #[trigger] self.host_tables@[k] == before[k],
                *self == (GpuModel {
                    host_tables: self.host_tables,
                    prepared_shape: None,
                    ..*old(self)
                }),
            decreases stride - i,
        {
            let x: i32 = table[i];
            self.host_tables.set(i, x);
            i += 1;
        }
        assert(self.host_tables@ =~= first_slot(before, table@, stride as nat));
        self.host_lens.set(0, #[verifier::truncate] (len as i32));
        PageUpload {
            tables: copied(self.host_tables.as_slice()),
            lens: copied(self.host_lens.as_slice()),
        }
    }

    fn set_params(&mut self, token: usize, pos: usize) -> (r: Result<(Vec<i32>, Option<PageUpload>), GpuError>)
        requires
            old(self).wf(),
            pos < old(self).capacity,
            old(self).use_paged ==> old(self).seq@.pages.len() <= old(self).table_stride,
        ensures
            final(self).wf(),
            match r {
                Ok(x) => {
                    &&& old(self).use_paged ==> pos < old(self).seq@.len
                    &&& final(self).host_params@ == step_params(
                        old(self).host_params@,
                        token,
                        pos,
                        old(self).slot_of(old(self).seq@, pos as nat) as usize,
                    )
                    &&& old(self).slot_of(old(self).seq@, pos as nat) <= usize::MAX
                    &&& x.0@ == final(self).host_params@
                    &&& old(self).pages_uploaded(*final(self), x.1, pos)
                },
                Err(e) => {
                    &&& old(self).use_paged
                    &&& pos >= old(self).seq@.len
                    &&& e == (GpuError::Page {
                        error: paged::PageError::PastEnd { pos, len: old(self).seq@.len as usize },
                    })
                    &&& final(self).host_params@ == token_params(old(self).host_params@, token, pos)
                    &&& final(self).host_tables == old(self).host_tables
                    &&& final(self).host_lens == old(self).host_lens
                },
            },
            *final(self) == (GpuModel {
                host_params: final(self).host_params,
                host_tables: final(self).host_tables,
                host_lens: final(self).host_lens,
                prepared_shape: None,
                ..*old(self)
            }),
    {
        self.prepared_shape = None;
        let kv_dim: usize = self.cfg.n_kv_head * self.cfg.head_dim();
        self.host_params.set(PARAM_ZERO, 0);
        self.host_params.set(PARAM_TOKEN, #[verifier::truncate] (token as i32));
        self.host_params.set(PARAM_POS, #[verifier::truncate] (pos as i32));
        self.host_params.set(PARAM_SEQ, #[verifier::truncate] ((pos + 1) as i32));
        let slot: usize = if self.use_paged {
            match self.seq.translate(pos) {
                Ok((page, slot)) => {
                    proof {
                        self.lemma_slot_fits(pos as nat);
                    }
                    (page as usize * self.cfg.n_layer * PAGE_TOKENS + slot) * kv_dim
                },
                Err(e) => {
                    return Err(GpuError::Page { error: e });
                },
            }
        } else {
            proof {
                assert(pos * kv_dim <= self.capacity * kv_dim) by (nonlinear_arith)
                    requires
                        pos <= self.capacity,
                ;
            }
            pos * kv_dim
        };
        self.host_params.set(PARAM_SLOT, #[verifier::truncate] (slot as i32));
        let params = copied(self.host_params.as_slice());
        let pages = if self.use_paged {
            let table = self.seq.table_padded(self.table_stride);
            Some(self.upload_slot0(table.as_slice(), pos + 1))
        } else {
            None
        };
        Ok((params, pages))
    }

    /// A position's place in the pool can be addressed.
    proof fn lemma_slot_fits(&self, pos: nat)
        requires
            self.wf(),
            self.use_paged,
            pos < self.seq@.len,
        ensures
            ({
                let (page, slot) = self.seq@.place(pos);
                &&& page as nat * self.cfg.n_layer as nat <= usize::MAX
                &&& page as nat * self.cfg.n_layer as nat * PAGE_TOKENS as nat <= usize::MAX
                &&& page as nat * self.cfg.n_layer as nat * PAGE_TOKENS as nat + slot <= usize::MAX
                &&& (page as nat * self.cfg.n_layer as nat * PAGE_TOKENS as nat + slot) * self.kv_dim()
                    <= usize::MAX
            }),
    {
        let (page, slot) = self.seq@.place(pos);
        math::lemma_ceil_div(self.seq@.len, PAGE_TOKENS as nat);
        let p = page as int;
        let l = self.cfg.n_layer as int;
        let kv = self.kv_dim() as int;
        let n = self.pool@.n_pages as int;
        assert(self.pool@.live(page));
        assert(p < n);
        assert((p * l * 16 + slot) * kv <= n * (l * 16 * kv)) by (nonlinear_arith)
            requires
                0 <= p < n,
                l >= 1,
                kv >= 1,
                0 <= slot < 16,
        ;
        assert(p * l * 16 + slot <= (p * l * 16 + slot) * kv) by (nonlinear_arith)
            requires
                kv >= 1,
                p * l * 16 + slot >= 0,
        ;
        assert(0 <= p * l <= p * l * 16) by (nonlinear_arith)
            requires
                p >= 0,
                l >= 1,
        ;
    }

    /// Whether the first slot holds the pages of the single request, where it
    /// has any.
    pub open spec fn pages_slotted(&self, after: GpuModel, pos: usize) -> bool {
        if self.use_paged {
            &&& after.host_tables@ == first_slot(
                self.host_tables@,
                paged::padded(self.seq@.pages, self.table_stride as nat),
                self.table_stride as nat,
            )
            &&& after.host_lens@ == self.host_lens@.update(0, (pos + 1) as i32)
        } else {
            after.host_tables == self.host_tables && after.host_lens == self.host_lens
        }
    }

    /// Whether the pages of the single request are uploaded, where it has any.
    pub open spec fn pages_uploaded(&self, after: GpuModel, u: Option<PageUpload>, pos: usize) -> bool {
        &&& self.pages_slotted(after, pos)
        &&& u is Some <==> self.use_paged
        &&& u is Some ==> u->0.tables@ == after.host_tables@ && u->0.lens@ == after.host_lens@
    }

    /// The model with room for `extra` more positions, where pages are used and
    /// there is room.
    pub open spec fn grown_by(&self, extra: nat) -> SequenceView {
        if self.use_paged {
            self.seq@.grown(self.pool@, extra)
        } else {
            self.seq@
        }
    }

    /// Whether the pool has the pages that `extra` more positions need.
    pub open spec fn has_room(&self, extra: nat) -> bool {
        self.use_paged ==> self.seq@.pages_to_grow(extra) <= self.pool@.free.len()
    }

    /// The answer of a pool that has not.
    pub open spec fn no_room(&self) -> GpuError {
        GpuError::Page {
            error: paged::PageError::Exhausted {
                pages: self.pool@.n_pages as usize,
                tokens: (self.pool@.n_pages * PAGE_TOKENS) as usize,
            },
        }
    }

    fn make_room(&mut self, extra: usize) -> (r: Result<(), GpuError>)
        requires
            old(self).wf(),
            old(self).use_paged,
            old(self).seq@.len + extra <= usize::MAX,
        ensures
            final(self).wf(),
            r is Ok <==> old(self).has_room(extra as nat),
            match r {
                Ok(()) => {
                    &&& final(self).seq@ == old(self).grown_by(extra as nat)
                    &&& final(self).pool@ == old(self).pool@.after_allocs(
                        old(self).seq@.pages_to_grow(extra as nat),
                    )
                    &&& *final(self) == (GpuModel {
                        seq: final(self).seq,
                        pool: final(self).pool,
                        ..*old(self)
                    })
                },
                Err(e) => {
                    &&& e == old(self).no_room()
                    &&& final(self).seq@ == old(self).seq@
                    &&& final(self).pool@ == old(self).pool@
                    &&& *final(self) == (GpuModel {
                        seq: final(self).seq,
                        pool: final(self).pool,
                        ..*old(self)
                    })
                },
            },
    {
        proof {
            self.pool.lemma_wf();
            let none = SequenceView { pages: Seq::empty(), len: 0 };
            if self.has_room(extra as nat) {
                paged::law_growth_never_aliases(self.pool@, self.seq@, none, extra as nat);
            }
            if !self.paging && self.has_room(extra as nat) {
                assert(self.seq@.pages_to_grow(extra as nat) == 0);
                assert(self.seq@.grown(self.pool@, extra as nat).pages =~= self.seq@.pages);
            }
        }
        match self.seq.grow(&mut self.pool, extra) {
            Ok(()) => Ok(()),
            Err(e) => Err(GpuError::Page { error: e }),
        }
    }

    /// How one token is run: replayed once its graph is there, captured where a
    /// graph is wanted and the cache holds something already.
    pub open spec fn token_run(&self, single: bool) -> Run {
        if !(self.switches.use_graph && single && self.cache_len > 0) {
            Run::Eager
        } else if self.graph {
            Run::Replay
        } else {
            Run::Capture
        }
    }

    /// Begin one token: make room for it, and say what to upload and launch.
    /// Pages are taken one position at a time, so that a short request never
    /// reserves a full context. `single` is whether the caller has just this
    /// one token to append.
    pub fn begin_token(&mut self, token: usize, single: bool) -> (r: Result<TokenStep, GpuError>)
        requires
            old(self).wf(),
            old(self).cache_len < old(self).capacity,
            old(self).use_paged ==> old(self).seq@.len + 1 <= old(self).table_stride * PAGE_TOKENS,
        ensures
            final(self).wf(),
            ({
                let pos = old(self).cache_len;
                let seq = old(self).grown_by(1);
                let run = old(self).token_run(single);
                let room = old(self).has_room(1);
                let placed = old(self).use_paged ==> pos < seq.len;
                let made = run == Run::Replay || old(self).shape().runnable();
                &&& r is Ok <==> room && placed && made
                &&& final(self).host_params@ == (if !room {
                    old(self).host_params@
                } else if !placed {
                    token_params(old(self).host_params@, token, pos)
                } else {
                    step_params(
                        old(self).host_params@,
                        token,
                        pos,
                        old(self).slot_of(seq, pos as nat) as usize,
                    )
                })
                &&& if room && placed {
                    (GpuModel { seq: final(self).seq, ..*old(self) }).pages_slotted(*final(self), pos)
                } else {
                    final(self).host_tables == old(self).host_tables && final(self).host_lens == old(
                        self,
                    ).host_lens
                }
                &&& match r {
                    Ok(s) => {
                        &&& s.params@ == final(self).host_params@
                        &&& (GpuModel { seq: final(self).seq, ..*old(self) }).pages_uploaded(
                            *final(self),
                            s.pages,
                            pos,
                        )
                        &&& s.run == run
                        &&& s.ops@ == (if run == Run::Replay {
                            Seq::empty()
                        } else {
                            launch::token(
                                old(self).shape(),
                                old(self).use_paged,
                                old(self).switches.split_attention,
                            )
                        })
                    },
                    Err(e) => e == (if !room {
                        old(self).no_room()
                    } else if !placed {
                        GpuError::Page {
                            error: paged::PageError::PastEnd { pos, len: seq.len as usize },
                        }
                    } else {
                        GpuError::SwigluOnly
                    }),
                }
                &&& final(self).seq@ == (if room {
                    seq
                } else {
                    old(self).seq@
                })
                &&& final(self).pool@ == (if room && old(self).use_paged {
                    old(self).pool@.after_allocs(old(self).seq@.pages_to_grow(1))
                } else {
                    old(self).pool@
                })
                &&& final(self).prepared_shape == (if room {
                    None
                } else {
                    old(self).prepared_shape
                })
            }),
            *final(self) == (GpuModel {
                seq: final(self).seq,
                pool: final(self).pool,
                host_params: final(self).host_params,
                host_tables: final(self).host_tables,
                host_lens: final(self).host_lens,
                prepared_shape: final(self).prepared_shape,
                ..*old(self)
            }),
    {
        let pos: usize = self.cache_len;
        if self.use_paged {
            proof {
                math::lemma_ceil_div(self.seq@.len + 1, PAGE_TOKENS as nat);
            }
            if let Err(e) = self.make_room(1) {
                return Err(e);
            }
        }
        proof {
            math::lemma_ceil_div(self.seq@.len, PAGE_TOKENS as nat);
        }
        let ghost grown = *self;
        let (params, pages) = match self.set_params(token, pos) {
            Ok(x) => x,
            Err(e) => {
                return Err(e);
            },
        };
        let wanted = self.switches.use_graph && single && pos > 0;
        if wanted && self.graph {
            return Ok(TokenStep { params, pages, run: Run::Replay, ops: Vec::new() });
        }
        let run = if wanted {
            Run::Capture
        } else {
            Run::Eager
        };
        let shape = self.shape_of();
        match queue_token(&shape, self.use_paged, self.switches.split_attention) {
            Ok(ops) => Ok(TokenStep { params, pages, run, ops }),
            Err(_) => Err(GpuError::SwigluOnly),
        }
    }

    /// One token is done.
    pub fn end_token(&mut self, run: Run)
        requires
            old(self).wf(),
            old(self).cache_len < old(self).capacity,
        ensures
            final(self).wf(),
            *final(self) == (GpuModel {
                cache_len: (old(self).cache_len + 1) as usize,
                graph: old(self).graph || run == Run::Capture,
                ..*old(self)
            }),
    {
        self.cache_len = self.cache_len + 1;
        if run == Run::Capture {
            self.graph = true;
        }
    }
}

// ---------------------------------------------------------------------------
// Prompts of single requests.

/// One chunk of one prompt. `ops` is empty where a graph is replayed.
#[derive(Debug)]
pub struct PrefillStep {
    pub tokens: Vec<i32>,
    pub params: Vec<i32>,
    pub pages: Option<PageUpload>,
    /// The chunk's descriptor, where attention works by descriptors.
    pub segment: Option<Vec<i32>>,
    pub key: PrefillKey,
    pub run: Run,
    pub ops: Vec<Op>,
}

/// The shared scores of a history, in steps of 256 up to a whole table.
pub open spec fn score_capacity(history: nat, stride: nat) -> nat {
    let rounded = math::ceil_div(history, 256) * 256;
    if rounded <= stride * PAGE_TOKENS as nat {
        rounded
    } else {
        stride * PAGE_TOKENS as nat
    }
}

fn scores_for(history: usize, stride: usize) -> (n: usize)
    requires
        history <= i32::MAX,
        stride * PAGE_TOKENS <= usize::MAX,
    ensures
        n == score_capacity(history as nat, stride as nat),
{
    proof {
        math::lemma_ceil_div(history as nat, 256);
    }
    math::min(math::div_ceil(history, 256) * 256, stride * PAGE_TOKENS)
}

impl GpuModel {
    /// How a single prompt finds its cache and attends over it.
    pub open spec fn prompt_mode(&self, pos_offset: usize) -> PrefillMode {
        PrefillMode {
            packed: false,
            paged: self.use_paged,
            tiled: self.tiled(),
            hybrid: self.prefill_attention.hybrid(),
            pos_offset,
        }
    }

    /// The shared scores of a single prompt's chunk.
    pub open spec fn prompt_scores(&self, t: nat, pos_offset: nat) -> nat {
        if self.tiled() && self.prefill_attention is Exact {
            score_capacity(t + pos_offset, self.table_stride as nat)
        } else {
            0
        }
    }

    /// What the graph of a chunk is kept under.
    pub open spec fn prompt_key(&self, t: nat, pos_offset: nat, want_logits: bool) -> PrefillKey {
        PrefillKey {
            len: t as usize,
            want_logits,
            score_capacity: self.prompt_scores(t, pos_offset) as usize,
        }
    }

    /// How a chunk is run. Only prompts in pages are captured: the contiguous
    /// path takes its offset by value.
    pub open spec fn prompt_run(&self, key: PrefillKey) -> Run {
        if !(self.switches.use_prefill_graph && self.use_paged) {
            Run::Eager
        } else if self.prefill_graphs@.resident.contains(key) {
            Run::Replay
        } else if self.prefill_graphs@.failed.contains(key) || self.prefill_graphs@.resident.len()
            >= graphs::MAX_PREFILL_GRAPHS {
            Run::Eager
        } else {
            Run::Capture
        }
    }

    /// Whether a chunk can run.
    pub open spec fn can_prefill(&self, key: PrefillKey) -> bool {
        self.prompt_run(key) == Run::Replay || self.shape().runnable()
    }

    /// Whether a step runs a chunk of `t` rows at `pos_offset`.
    pub open spec fn prompts(
        &self,
        t: nat,
        pos_offset: usize,
        want_logits: bool,
        segment: Option<Vec<i32>>,
        key: PrefillKey,
        run: Run,
        ops: Seq<Op>,
    ) -> bool {
        &&& key == self.prompt_key(t, pos_offset as nat, want_logits)
        &&& run == self.prompt_run(key)
        &&& ops == (if run == Run::Replay {
            Seq::empty()
        } else {
            launch::prefill(self.shape(), t as usize, self.prompt_mode(pos_offset), want_logits)
        })
        &&& segment is Some <==> self.tiled()
        &&& segment is Some ==> segment->0@ == seq![0i32, t as i32, pos_offset as i32, 0i32]
    }

    proof fn lemma_holds(&self, t: nat)
        requires
            self.sized(),
            t <= self.capacity,
        ensures
            self.shape().holds(t as int),
    {
        let s = self.shape();
        let c = self.capacity;
        assert(t * s.n_embd <= c * s.n_embd) by (nonlinear_arith)
            requires
                t <= c,
        ;
        assert(t * s.hidden <= c * s.hidden) by (nonlinear_arith)
            requires
                t <= c,
        ;
    }

    /// Decide how a chunk of `t` rows at `pos_offset` is run.
    fn run_prefill(&mut self, t: usize, pos_offset: usize, want_logits: bool) -> (r: Result<
        (Option<Vec<i32>>, PrefillKey, Run, Vec<Op>),
        GpuError,
    >)
        requires
            old(self).wf(),
            t <= old(self).capacity,
            want_logits ==> t > 0,
            t + pos_offset <= i32::MAX,
        ensures
            final(self).wf(),
            final(self).prefill_score_capacity == old(self).prompt_scores(t as nat, pos_offset as nat),
            *final(self) == (GpuModel {
                prefill_score_capacity: final(self).prefill_score_capacity,
                ..*old(self)
            }),
            ({
                let key = old(self).prompt_key(t as nat, pos_offset as nat, want_logits);
                match r {
                    Ok(x) => old(self).can_prefill(key) && old(self).prompts(
                        t as nat,
                        pos_offset,
                        want_logits,
                        x.0,
                        x.1,
                        x.2,
                        x.3@,
                    ),
                    Err(e) => !old(self).can_prefill(key) && e == GpuError::SwigluOnly,
                }
            }),
    {
        let tiled = self.tiled_prefill_attention();
        proof {
            self.lemma_holds(t as nat);
            math::lemma_ceil_div(self.capacity as nat, PAGE_TOKENS as nat);
            math::lemma_ceil_div((t + pos_offset) as nat, 256);
        }
        let scores: usize = if tiled && self.prefill_attention.is_exact() {
            scores_for(t + pos_offset, self.table_stride)
        } else {
            0
        };
        self.prefill_score_capacity = scores;
        let key = PrefillKey { len: t, want_logits, score_capacity: scores };
        let run = self.prefill_graphs.run(self.switches.use_prefill_graph && self.use_paged, key);
        let segment: Option<Vec<i32>> = if tiled {
            let v: Vec<i32> = vec![0i32, t as i32, pos_offset as i32, 0i32];
            assert(v@ =~= seq![0i32, t as i32, pos_offset as i32, 0i32]);
            Some(v)
        } else {
            None
        };
        if run == Run::Replay {
            return Ok((segment, key, run, Vec::new()));
        }
        let shape = self.shape_of();
        let mode = PrefillMode {
            packed: false,
            paged: self.use_paged,
            tiled,
            hybrid: self.prefill_attention.uses_hybrid(),
            pos_offset,
        };
        match queue_prefill(&shape, t, &mode, want_logits) {
            Ok(ops) => Ok((segment, key, run, ops)),
            Err(_) => Err(GpuError::SwigluOnly),
        }
    }

    /// Whether the host side is that of a chunk of `t` rows, up to its pages.
    pub open spec fn started(&self, after: GpuModel, t: nat, pos_offset: usize) -> bool {
        &&& after.host_params@ == self.host_params@.update(PARAM_PREFILL_POS as int, pos_offset as i32)
        &&& after.prefill_score_capacity == self.prompt_scores(t, pos_offset as nat)
    }

    /// Whether a step is that of a chunk, up to its pages.
    pub open spec fn prefills(
        &self,
        after: GpuModel,
        tokens: Seq<usize>,
        pos_offset: usize,
        want_logits: bool,
        s: PrefillStep,
    ) -> bool {
        &&& s.tokens@ == narrowed(tokens)
        &&& self.started(after, tokens.len(), pos_offset)
        &&& s.params@ == after.host_params@
        &&& self.prompts(tokens.len(), pos_offset, want_logits, s.segment, s.key, s.run, s.ops@)
    }

    fn prefill_body(
        &mut self,
        tokens: &[usize],
        pos_offset: usize,
        want_logits: bool,
        pages: Option<PageUpload>,
    ) -> (r: Result<PrefillStep, GpuError>)
        requires
            old(self).wf(),
            tokens@.len() <= old(self).capacity,
            want_logits ==> tokens@.len() > 0,
            tokens@.len() + pos_offset <= i32::MAX,
        ensures
            final(self).wf(),
            *final(self) == (GpuModel {
                host_params: final(self).host_params,
                prefill_score_capacity: final(self).prefill_score_capacity,
                ..*old(self)
            }),
            ({
                let key = old(self).prompt_key(tokens@.len(), pos_offset as nat, want_logits);
                match r {
                    Ok(s) => {
                        &&& old(self).can_prefill(key)
                        &&& old(self).prefills(*final(self), tokens@, pos_offset, want_logits, s)
                        &&& s.pages == pages
                    },
                    Err(e) => {
                        &&& !old(self).can_prefill(key)
                        &&& e == GpuError::SwigluOnly
                        &&& old(self).started(*final(self), tokens@.len(), pos_offset)
                    },
                }
            }),
    {
        let t: usize = tokens.len();
        let ids = narrow(tokens, t, t);
        assert(ids@ =~= narrowed(tokens@));
        self.host_params.set(PARAM_PREFILL_POS, pos_offset as i32);
        let params = copied(self.host_params.as_slice());
        match self.run_prefill(t, pos_offset, want_logits) {
            Ok((segment, key, run, ops)) => Ok(
                PrefillStep { tokens: ids, params, pages, segment, key, run, ops },
            ),
            Err(e) => Err(e),
        }
    }

    /// A prompt of the single request in one pass, bringing back the last
    /// position's logits.
    pub fn prefill(&mut self, tokens: &[usize]) -> (r: Result<PrefillStep, GpuError>)
        requires
            old(self).wf(),
            0 < tokens@.len(),
            old(self).cache_len + tokens@.len() <= old(self).capacity,
            old(self).use_paged ==> old(self).seq@.len + tokens@.len() <= old(self).table_stride
                * PAGE_TOKENS,
        ensures
            final(self).wf(),
            ({
                let n = tokens@.len();
                let pos = old(self).cache_len;
                let room = old(self).has_room(n);
                let key = old(self).prompt_key(n, pos as nat, true);
                &&& r is Ok <==> room && old(self).can_prefill(key)
                &&& final(self).seq@ == (if room {
                    old(self).grown_by(n)
                } else {
                    old(self).seq@
                })
                &&& final(self).pool@ == (if room && old(self).use_paged {
                    old(self).pool@.after_allocs(old(self).seq@.pages_to_grow(n))
                } else {
                    old(self).pool@
                })
                &&& final(self).prepared_shape == (if room && old(self).use_paged {
                    None
                } else {
                    old(self).prepared_shape
                })
                &&& if room {
                    &&& old(self).started(*final(self), n, pos)
                    &&& (GpuModel { seq: final(self).seq, ..*old(self) }).pages_slotted(
                        *final(self),
                        (pos + n - 1) as usize,
                    )
                } else {
                    *final(self) == (GpuModel {
                        seq: final(self).seq,
                        pool: final(self).pool,
                        ..*old(self)
                    })
                }
                &&& match r {
                    Ok(s) => {
                        &&& old(self).prefills(*final(self), tokens@, pos, true, s)
                        &&& (GpuModel { seq: final(self).seq, ..*old(self) }).pages_uploaded(
                            *final(self),
                            s.pages,
                            (pos + n - 1) as usize,
                        )
                    },
                    Err(e) => e == (if !room {
                        old(self).no_room()
                    } else {
                        GpuError::SwigluOnly
                    }),
                }
            }),
            *final(self) == (GpuModel {
                seq: final(self).seq,
                pool: final(self).pool,
                host_tables: final(self).host_tables,
                host_lens: final(self).host_lens,
                host_params: final(self).host_params,
                prefill_score_capacity: final(self).prefill_score_capacity,
                prepared_shape: final(self).prepared_shape,
                ..*old(self)
            }),
    {
        let pos: usize = self.cache_len;
        let pages = if self.use_paged {
            proof {
                math::lemma_ceil_div(self.seq@.len + tokens@.len(), PAGE_TOKENS as nat);
                math::lemma_ceil_div(self.capacity as nat, PAGE_TOKENS as nat);
            }
            if let Err(e) = self.make_room(tokens.len()) {
                return Err(e);
            }
            proof {
                math::lemma_ceil_div(self.seq@.len, PAGE_TOKENS as nat);
            }
            let table = self.seq.table_padded(self.table_stride);
            Some(self.upload_slot0(table.as_slice(), pos + tokens.len()))
        } else {
            None
        };
        self.prefill_body(tokens, pos, true, pages)
    }

    /// A prompt of the single request is done.
    pub fn end_prefill(&mut self, n: usize)
        requires
            old(self).wf(),
            old(self).cache_len + n <= old(self).capacity,
        ensures
            final(self).wf(),
            *final(self) == (GpuModel {
                cache_len: (old(self).cache_len + n) as usize,
                ..*old(self)
            }),
    {
        self.cache_len = self.cache_len + n;
    }

    /// What a prompt into pages the caller owns may come to, once it is not
    /// refused for want of paging.
    pub open spec fn chunk_outcome(
        before: GpuModel,
        after: GpuModel,
        tokens: Seq<usize>,
        table: Seq<i32>,
        pos_offset: usize,
        want_logits: bool,
        r: Result<PrefillStep, GpuError>,
    ) -> bool {
        let key = before.prompt_key(tokens.len(), pos_offset as nat, want_logits);
        &&& after.host_tables@ == first_slot(before.host_tables@, table, before.table_stride as nat)
        &&& after.host_lens@ == before.host_lens@.update(0, (pos_offset + tokens.len()) as i32)
        &&& after == (GpuModel {
            host_tables: after.host_tables,
            host_lens: after.host_lens,
            host_params: after.host_params,
            prefill_score_capacity: after.prefill_score_capacity,
            prepared_shape: None,
            ..before
        })
        &&& before.started(after, tokens.len(), pos_offset)
        &&& match r {
            Ok(s) => {
                &&& before.can_prefill(key)
                &&& before.prefills(after, tokens, pos_offset, want_logits, s)
                &&& s.pages is Some
                &&& s.pages->0.tables@ == after.host_tables@
                &&& s.pages->0.lens@ == after.host_lens@
            },
            Err(e) => !before.can_prefill(key) && e == GpuError::SwigluOnly,
        }
    }

    /// A whole prompt into pages the caller owns, bringing back the logits of
    /// its last position: the request's first generated token.
    pub fn prefill_request(&mut self, tokens: &[usize], table: &[i32], pos_offset: usize) -> (r: Result<
        PrefillStep,
        GpuError,
    >)
        requires
            old(self).wf(),
            0 < tokens@.len() <= old(self).capacity,
            tokens@.len() + pos_offset <= i32::MAX,
            table@.len() >= old(self).table_stride,
        ensures
            final(self).wf(),
            if !old(self).use_paged {
                r == Err::<PrefillStep, GpuError>(GpuError::RequestNeedsPaging) && *final(self) == *old(
                    self,
                )
            } else {
                Self::chunk_outcome(*old(self), *final(self), tokens@, table@, pos_offset, true, r)
            },
    {
        if !self.use_paged {
            return Err(GpuError::RequestNeedsPaging);
        }
        let pages = self.upload_slot0(table, pos_offset + tokens.len());
        self.prefill_body(tokens, pos_offset, true, Some(pages))
    }

    /// One chunk of a prompt into pages the caller owns. A chunk that is not
    /// the last skips the vocabulary projection. `pos_offset` is how many of
    /// the request's tokens are cached already: row `r` attends over positions
    /// `0 ..= pos_offset + r`.
    pub fn prefill_chunk(
        &mut self,
        tokens: &[usize],
        table: &[i32],
        pos_offset: usize,
        want_logits: bool,
    ) -> (r: Result<PrefillStep, GpuError>)
        requires
            old(self).wf(),
            tokens@.len() <= old(self).capacity,
            want_logits ==> tokens@.len() > 0,
            tokens@.len() + pos_offset <= i32::MAX,
            table@.len() >= old(self).table_stride,
        ensures
            final(self).wf(),
            if !old(self).use_paged {
                r == Err::<PrefillStep, GpuError>(GpuError::ChunkNeedsPaging) && *final(self) == *old(self)
            } else {
                Self::chunk_outcome(
                    *old(self),
                    *final(self),
                    tokens@,
                    table@,
                    pos_offset,
                    want_logits,
                    r,
                )
            },
    {
        if !self.use_paged {
            return Err(GpuError::ChunkNeedsPaging);
        }
        let pages = self.upload_slot0(table, pos_offset + tokens.len());
        self.prefill_body(tokens, pos_offset, want_logits, Some(pages))
    }

    /// A prompt graph was captured.
    pub fn prefill_captured(&mut self, key: PrefillKey)
        requires
            old(self).wf(),
            old(self).prompt_run(key) == Run::Capture,
            old(self).prefill_graphs@.captures < usize::MAX,
        ensures
            final(self).wf(),
            final(self).prefill_graphs@ == (PrefillGraphsView {
                resident: old(self).prefill_graphs@.resident.insert(key),
                captures: old(self).prefill_graphs@.captures + 1,
                ..old(self).prefill_graphs@
            }),
            *final(self) == (GpuModel { prefill_graphs: final(self).prefill_graphs, ..*old(self) }),
    {
        self.prefill_graphs.insert(key);
    }

    /// A prompt's capture failed. Running eagerly costs speed and nothing else,
    /// so the key is remembered and not tried again.
    pub fn prefill_failed(&mut self, key: PrefillKey)
        requires
            old(self).wf(),
        ensures
            final(self).wf(),
            final(self).prefill_graphs@ == (PrefillGraphsView {
                failed: old(self).prefill_graphs@.failed.insert(key),
                ..old(self).prefill_graphs@
            }),
            *final(self) == (GpuModel { prefill_graphs: final(self).prefill_graphs, ..*old(self) }),
    {
        self.prefill_graphs.fail(key);
    }

    /// A prompt graph was replayed.
    pub fn prefill_replayed(&mut self)
        requires
            old(self).wf(),
            old(self).prefill_graphs@.replays < usize::MAX,
        ensures
            final(self).wf(),
            final(self).prefill_graphs@ == (PrefillGraphsView {
                replays: old(self).prefill_graphs@.replays + 1,
                ..old(self).prefill_graphs@
            }),
            *final(self) == (GpuModel { prefill_graphs: final(self).prefill_graphs, ..*old(self) }),
    {
        self.prefill_graphs.replayed();
    }
}

// ---------------------------------------------------------------------------
// Packed prompt calls.

/// One packed call: chunks of several prompts in one pass. Nothing is read back
/// where it finishes no prompt.
#[derive(Debug)]
pub struct PackedStep {
    pub plan: PackedPlan,
    /// Whether attention works by descriptors, which are then uploaded too.
    pub segments: bool,
    pub ops: Vec<Op>,
    pub read: Option<Readback>,
}

/// One chunk of one prompt with token selection on the device. `selection`
/// follows the prompt's own launches, and is empty where the chunk does not
/// finish its prompt.
#[derive(Debug)]
pub struct SingleStep {
    pub plan: PackedPlan,
    pub params: Vec<i32>,
    pub segment: Option<Vec<i32>>,
    pub key: PrefillKey,
    pub run: Run,
    pub ops: Vec<Op>,
    pub selection: Vec<Op>,
    pub read: Option<Readback>,
}

impl GpuModel {
    /// What bounds its packed calls.
    pub open spec fn limits(&self) -> PackedLimits {
        PackedLimits {
            use_paged: self.use_paged,
            capacity: self.capacity,
            tokens: self.token_capacity() as usize,
            requests: self.max_batch,
            table_stride: self.table_stride,
            max_batch: self.max_batch,
            vocab: self.cfg.vocab_size,
            n_pages: self.pool@.n_pages as usize,
        }
    }

    /// The limits of its packed calls are those of a model.
    pub proof fn lemma_limits(&self)
        requires
            self.wf(),
        ensures
            self.limits().wf(),
    {
        self.pool.lemma_wf();
        assert(self.host_tables.len() == self.host_tables@.len());
    }

    fn packed_limits(&self) -> (lim: PackedLimits)
        requires
            self.wf(),
        ensures
            lim == self.limits(),
            lim.wf(),
    {
        proof {
            self.pool.lemma_wf();
            assert(self.host_tables.len() == self.host_tables@.len());
        }
        PackedLimits {
            use_paged: self.use_paged,
            capacity: self.capacity,
            tokens: self.prefill_token_capacity(),
            requests: self.prefill_request_capacity(),
            table_stride: self.table_stride,
            max_batch: self.max_batch,
            vocab: self.cfg.vocab_size,
            n_pages: self.pool.n_pages(),
        }
    }

    /// How a packed call attends.
    pub open spec fn packed_mode(&self) -> PrefillMode {
        PrefillMode {
            packed: true,
            paged: true,
            tiled: self.tiled(),
            hybrid: self.prefill_attention.hybrid(),
            pos_offset: 0,
        }
    }

    /// The shared scores of a packed call.
    pub open spec fn packed_scores(&self, history: nat) -> nat {
        if self.prefill_attention is Exact {
            score_capacity(history, self.table_stride as nat)
        } else {
            0
        }
    }

    /// Whether a refusal comes before any metadata is touched.
    pub open spec fn at_the_door(e: GpuError) -> bool {
        e is PackedNeedsPaging || e is PackedRequests || e is PackedStride
    }

    /// What a refused packed call leaves: prepared metadata is stale once its
    /// chunks were looked at.
    pub open spec fn refused_packed(before: GpuModel, after: GpuModel, e: GpuError) -> bool {
        after == (GpuModel {
            prepared_shape: if Self::at_the_door(e) {
                before.prepared_shape
            } else {
                None
            },
            ..before
        })
    }

    /// What an accepted one leaves.
    pub open spec fn took_packed(before: GpuModel, after: GpuModel, plan: PackedPlan) -> bool {
        &&& after.host_tables@ == plan.tables@
        &&& after.host_row_k@ == plan.row_k@
        &&& after == (GpuModel {
            host_tables: after.host_tables,
            host_row_k: after.host_row_k,
            host_params: after.host_params,
            prefill_score_capacity: after.prefill_score_capacity,
            prepared_shape: after.prepared_shape,
            ..before
        })
    }

    /// What a packed call leaves that is not refused for its metadata.
    pub open spec fn prepared_packed(before: GpuModel, after: GpuModel, plan: PackedPlan) -> bool {
        &&& Self::took_packed(before, after, plan)
        &&& after.host_params == before.host_params
        &&& after.prefill_score_capacity == before.packed_scores(plan.max_history as nat)
        &&& after.prepared_shape == Some((plan.rows, plan.finals))
    }

    /// Whether a step is the packed call that was asked for.
    pub open spec fn packs(
        before: GpuModel,
        after: GpuModel,
        cs: Seq<packed::ChunkView>,
        topk_rows: Seq<(usize, usize)>,
        full_rows: Seq<usize>,
        s: PackedStep,
    ) -> bool {
        let topk = topk_rows.len() > 0;
        &&& packed::verdict(before.limits(), cs, topk_rows, full_rows) is None
        &&& before.shape().runnable()
        &&& s.plan.describes(before.limits(), cs, topk_rows)
        &&& Self::prepared_packed(before, after, s.plan)
        &&& s.segments == !(before.prefill_attention is Reference)
        &&& s.ops@ == launch::packed_prefill(
            before.shape(),
            s.plan.rows,
            before.packed_mode(),
            s.plan.finals,
            topk,
        )
        &&& s.read is None <==> s.plan.finals == 0
        &&& s.read is Some ==> before.reads(s.read->0, s.plan.finals as nat, topk, full_rows)
    }

    /// Why a packed call fails, if it does, and what it leaves: its metadata is
    /// refused, or it is prepared and no kernel runs its MLP.
    pub open spec fn packed_refused(
        before: GpuModel,
        after: GpuModel,
        cs: Seq<packed::ChunkView>,
        topk_rows: Seq<(usize, usize)>,
        full_rows: Seq<usize>,
        e: GpuError,
    ) -> bool {
        let refusal = packed::verdict(before.limits(), cs, topk_rows, full_rows);
        if refusal is Some {
            refusal == Some(e) && Self::refused_packed(before, after, e)
        } else {
            &&& !before.shape().runnable()
            &&& e == GpuError::SwigluOnly
            &&& exists|p: PackedPlan| #[trigger]
                p.describes(before.limits(), cs, topk_rows) && Self::prepared_packed(before, after, p)
        }
    }

    fn take_packed(
        &mut self,
        chunks: &[PackedPrefillRequest<'_>],
        topk_rows: &[(usize, usize)],
        full_rows: &[usize],
    ) -> (r: Result<PackedPlan, GpuError>)
        requires
            old(self).wf(),
        ensures
            final(self).wf(),
            ({
                let cs = packed::views(chunks@);
                let verdict = packed::verdict(old(self).limits(), cs, topk_rows@, full_rows@);
                match r {
                    Ok(p) => {
                        &&& verdict is None
                        &&& p.describes(old(self).limits(), cs, topk_rows@)
                        &&& Self::took_packed(*old(self), *final(self), p)
                        &&& final(self).prepared_shape is None
                        &&& final(self).host_params == old(self).host_params
                        &&& final(self).prefill_score_capacity == old(self).packed_scores(
                            p.max_history as nat,
                        )
                        &&& p.max_history <= old(self).capacity
                        &&& p.rows <= old(self).token_capacity()
                        &&& 0 < p.requests <= old(self).max_batch
                        &&& p.finals <= p.requests
                        &&& topk_rows@.len() <= p.finals
                        &&& full_rows@.len() <= p.finals
                        &&& old(self).paging
                        &&& old(self).use_paged
                    },
                    Err(e) => verdict == Some(e) && Self::refused_packed(*old(self), *final(self), e),
                }
            }),
    {
        let lim = self.packed_limits();
        match prepare_packed_prefill(&lim, chunks, topk_rows, full_rows) {
            Ok(plan) => {
                proof {
                    let cs = packed::views(chunks@);
                    packed::lemma_accepted_bounds(lim, cs);
                    packed::lemma_selected_bounds(plan.finals, topk_rows@, full_rows@);
                    math::lemma_ceil_div(self.capacity as nat, PAGE_TOKENS as nat);
                    assert(lim.max_batch * lim.table_stride == self.slots() * self.table_stride);
                }
                self.prepared_shape = None;
                self.host_tables = copied(plan.tables.as_slice());
                self.host_row_k = copied(plan.row_k.as_slice());
                self.prefill_score_capacity = if self.prefill_attention.is_exact() {
                    scores_for(plan.max_history, self.table_stride)
                } else {
                    0
                };
                Ok(plan)
            },
            Err(e) => {
                match e {
                    GpuError::PackedNeedsPaging => {},
                    GpuError::PackedRequests { .. } => {},
                    GpuError::PackedStride => {},
                    _ => {
                        self.prepared_shape = None;
                    },
                }
                Err(e)
            },
        }
    }

    /// Several independent chunks in one transformer pass. Every projection
    /// sees the rows of all of them; selection rows count the chunks that want
    /// logits, in order. All bounds and page aliases are checked before
    /// anything is uploaded.
    pub fn prefill_packed(
        &mut self,
        chunks: &[PackedPrefillRequest<'_>],
        topk_rows: &[(usize, usize)],
        full_rows: &[usize],
    ) -> (r: Result<PackedStep, GpuError>)
        requires
            old(self).wf(),
            16 * old(self).cfg.vocab_size * 4 + 16 * 1028 <= usize::MAX,
        ensures
            final(self).wf(),
            ({
                let cs = packed::views(chunks@);
                match r {
                    Ok(s) => Self::packs(*old(self), *final(self), cs, topk_rows@, full_rows@, s),
                    Err(e) => Self::packed_refused(
                        *old(self),
                        *final(self),
                        cs,
                        topk_rows@,
                        full_rows@,
                        e,
                    ),
                }
            }),
    {
        let plan = match self.take_packed(chunks, topk_rows, full_rows) {
            Ok(p) => p,
            Err(e) => {
                return Err(e);
            },
        };
        let topk = topk_rows.len() > 0;
        self.prepared_shape = Some((plan.rows, plan.finals));
        let shape = self.shape_of();
        let mode = PrefillMode {
            packed: true,
            paged: true,
            tiled: self.tiled_prefill_attention(),
            hybrid: self.prefill_attention.uses_hybrid(),
            pos_offset: 0,
        };
        proof {
            self.lemma_holds(plan.rows as nat);
            let v = self.cfg.vocab_size as int;
            let f = full_rows@.len() as int;
            assert(f * v * 4 <= 16 * v * 4) by (nonlinear_arith)
                requires
                    0 <= f <= 16,
                    v >= 0,
            ;
        }
        let ops = match queue_packed_prefill(&shape, plan.rows, &mode, plan.finals, topk) {
            Ok(v) => v,
            Err(_) => {
                assert(plan.describes(old(self).limits(), packed::views(chunks@), topk_rows@)
                    && Self::prepared_packed(*old(self), *self, plan));
                return Err(GpuError::SwigluOnly);
            },
        };
        let read = if plan.finals == 0 {
            None
        } else {
            Some(self.read_batch_selection(plan.finals, topk, full_rows))
        };
        Ok(PackedStep { plan, segments: !self.prefill_attention.is_reference(), ops, read })
    }

    /// One chunk by the single-request kernels, with token selection on the
    /// device: the prompt's graph is reused, and logits stay there.
    pub fn prefill_single_mixed(
        &mut self,
        chunk: &PackedPrefillRequest<'_>,
        topk_rows: &[(usize, usize)],
        full_rows: &[usize],
    ) -> (r: Result<SingleStep, GpuError>)
        requires
            old(self).wf(),
            16 * old(self).cfg.vocab_size * 4 + 16 * 1028 <= usize::MAX,
        ensures
            final(self).wf(),
            ({
                let cs = seq![chunk@];
                let verdict = packed::verdict(old(self).limits(), cs, topk_rows@, full_rows@);
                let topk = topk_rows@.len() > 0;
                let key = old(self).prompt_key(chunk@.tokens.len(), chunk@.pos_offset, chunk.want_logits);
                match r {
                    Ok(s) => {
                        &&& verdict is None
                        &&& old(self).can_prefill(key)
                        &&& s.plan.describes(old(self).limits(), cs, topk_rows@)
                        &&& Self::took_packed(*old(self), *final(self), s.plan)
                        &&& final(self).prepared_shape is None
                        &&& old(self).started(
                            *final(self),
                            chunk@.tokens.len(),
                            chunk.pos_offset,
                        )
                        &&& s.params@ == final(self).host_params@
                        &&& old(self).prompts(
                            chunk@.tokens.len(),
                            chunk.pos_offset,
                            chunk.want_logits,
                            s.segment,
                            s.key,
                            s.run,
                            s.ops@,
                        )
                        &&& s.selection@ == (if chunk.want_logits {
                            launch::single_selection(topk)
                        } else {
                            Seq::empty()
                        })
                        &&& s.read is Some <==> chunk.want_logits
                        &&& s.read is Some ==> old(self).reads(s.read->0, 1, topk, full_rows@)
                    },
                    Err(e) => if verdict is Some {
                        verdict == Some(e) && Self::refused_packed(*old(self), *final(self), e)
                    } else {
                        &&& !old(self).can_prefill(key)
                        &&& e == GpuError::SwigluOnly
                        &&& final(self).prepared_shape is None
                        &&& old(self).started(
                            *final(self),
                            chunk@.tokens.len(),
                            chunk.pos_offset,
                        )
                        &&& exists|p: PackedPlan| #[trigger]
                            p.describes(old(self).limits(), cs, topk_rows@) && Self::took_packed(
                                *old(self),
                                *final(self),
                                p,
                            )
                    },
                }
            }),
    {
        let one: [PackedPrefillRequest<'_>; 1] = [*chunk];
        assert(packed::views(one@) =~= seq![chunk@]);
        let plan = match self.take_packed(&one, topk_rows, full_rows) {
            Ok(p) => p,
            Err(e) => {
                return Err(e);
            },
        };
        let topk = topk_rows.len() > 0;
        proof {
            let cs = seq![chunk@];
            reveal_with_fuel(packed::rows_before, 2);
            reveal_with_fuel(packed::finals_before, 2);
            reveal_with_fuel(packed::furthest, 2);
            assert(cs[0] == chunk@);
            assert(plan.rows == chunk@.tokens.len());
            assert(plan.max_history == chunk@.end());
        }
        self.host_params.set(PARAM_PREFILL_POS, chunk.pos_offset as i32);
        let params = copied(self.host_params.as_slice());
        proof {
            packed::lemma_single_not_empty(self.limits(), chunk@);
        }
        let (segment, key, run, ops) = match self.run_prefill(plan.rows, chunk.pos_offset, chunk.want_logits) {
            Ok(x) => x,
            Err(e) => {
                assert(plan.describes(old(self).limits(), seq![chunk@], topk_rows@)
                    && Self::took_packed(*old(self), *self, plan));
                return Err(e);
            },
        };
        if plan.finals == 0 {
            let selection: Vec<Op> = Vec::new();
            return Ok(SingleStep { plan, params, segment, key, run, ops, selection, read: None });
        }
        proof {
            let v = self.cfg.vocab_size as int;
            let f = full_rows@.len() as int;
            assert(f * v * 4 <= 16 * v * 4) by (nonlinear_arith)
                requires
                    0 <= f <= 16,
                    v >= 0,
            ;
        }
        let read = self.read_batch_selection(1, topk, full_rows);
        let selection = queue_single_selection(topk);
        Ok(SingleStep { plan, params, segment, key, run, ops, selection, read: Some(read) })
    }
}

// ---------------------------------------------------------------------------
// Accounting, profiling and replay benchmarks.

/// Bytes of a projection as it is stored.
fn projection_bytes(p: Precision, rows: usize, cols: usize) -> (n: usize)
    requires
        stored_bytes(p, rows as nat, cols as nat) <= usize::MAX,
    ensures
        n == stored_bytes(p, rows as nat, cols as nat),
{
    match p {
        Precision::F32 => rows * cols * 4,
        Precision::Int8 => rows * cols + rows * 4,
    }
}

/// A batched step under the profiler.
#[derive(Debug)]
pub struct BatchProfile {
    pub tables: Vec<i32>,
    pub lens: Vec<i32>,
    pub tokens: Vec<i32>,
    pub positions: Vec<i32>,
    pub timed: Vec<Timed>,
}

/// A token under the profiler.
#[derive(Debug)]
pub struct TokenProfile {
    pub params: Vec<i32>,
    pub pages: Option<PageUpload>,
    pub timed: Vec<Timed>,
}

impl GpuModel {
    /// Weight bytes of one layer: its projections as they are stored, and two
    /// norms, which stay f32.
    pub open spec fn layer_bytes(&self) -> nat {
        let d = self.cfg.n_embd as nat;
        let h = self.hidden as nat;
        let kv = self.kv_dim();
        let p = self.precision;
        stored_bytes(p, d, d) + stored_bytes(p, kv, d) + stored_bytes(p, kv, d) + stored_bytes(p, d, d)
            + stored_bytes(p, h, d) + stored_bytes(p, d, h) + (if self.shape().swiglu {
            stored_bytes(p, h, d)
        } else {
            0
        }) + 2 * d * 4
    }

    /// Weight bytes resident.
    pub open spec fn weights(&self) -> nat {
        stored_bytes(self.precision, self.cfg.vocab_size as nat, self.cfg.n_embd as nat)
            + self.cfg.n_layer as nat * self.layer_bytes()
    }

    /// Weight bytes resident, counted from how each tensor is stored.
    pub fn weight_bytes(&self) -> (n: usize)
        requires
            self.sized(),
            self.weights() <= usize::MAX,
        ensures
            n == self.weights(),
    {
        let d: usize = self.cfg.n_embd;
        let h: usize = self.hidden;
        let kv: usize = self.cfg.n_kv_head * self.cfg.head_dim();
        let p = self.precision;
        proof {
            let l = self.cfg.n_layer as nat;
            let b = self.layer_bytes();
            assert(b <= l * b) by (nonlinear_arith)
                requires
                    l >= 1,
            ;
        }
        let mut layer: usize = projection_bytes(p, d, d) + projection_bytes(p, kv, d)
            + projection_bytes(p, kv, d) + projection_bytes(p, d, d) + projection_bytes(p, h, d)
            + projection_bytes(p, d, h) + 2 * d * 4;
        if same_text(self.cfg.activation.as_str(), "swiglu") {
            layer = layer + projection_bytes(p, h, d);
        }
        projection_bytes(p, self.cfg.vocab_size, d) + self.cfg.n_layer * layer
    }

    /// Bytes of device memory held by weights and the contiguous cache.
    pub fn device_bytes(&self) -> (n: usize)
        requires
            self.sized(),
            2 * self.cfg.n_layer <= usize::MAX,
            self.weights() + 2 * self.cfg.n_layer * self.capacity * self.kv_dim() * 4 <= usize::MAX,
        ensures
            n == self.weights() + 2 * self.cfg.n_layer * self.capacity * self.kv_dim() * 4,
    {
        self.weight_bytes() + self.cache_bytes()
    }

    /// A batched step under the profiler: its metadata, and its launches in
    /// timed blocks.
    pub fn profile_batch(
        &mut self,
        tokens: &[usize],
        positions: &[usize],
        tables: &[i32],
        lens: &[i32],
    ) -> (r: Result<BatchProfile, GpuError>)
        requires
            old(self).wf(),
            old(self).use_paged ==> {
                &&& old(self).paging
                &&& tokens@.len() <= old(self).max_batch
                &&& positions@.len() >= tokens@.len()
                &&& lens@.len() >= tokens@.len()
                &&& tables@.len() == old(self).host_tables@.len()
            },
        ensures
            final(self).wf(),
            match r {
                Ok(p) => {
                    let n = tokens@.len();
                    let slots = old(self).max_batch as nat;
                    &&& old(self).use_paged
                    &&& old(self).shape().runnable()
                    &&& p.tables@ == tables@
                    &&& p.lens@ == slotted(lens@, n, slots)
                    &&& p.tokens@ == slotted(narrowed(tokens@), n, slots)
                    &&& p.positions@ == slotted(narrowed(positions@), n, slots)
                    &&& p.timed@ == profile::timed(
                        launch::decode_logits(
                            old(self).shape(),
                            n as usize,
                            old(self).switches.force_decode_gemm,
                        ),
                    )
                    &&& final(self).host_tables@ == tables@
                    &&& *final(self) == (GpuModel {
                        host_tables: final(self).host_tables,
                        ..*old(self)
                    })
                },
                Err(e) => if !old(self).use_paged {
                    e == GpuError::ProfileNeedsPaging && *final(self) == *old(self)
                } else {
                    &&& !old(self).shape().runnable()
                    &&& e == GpuError::SwigluOnly
                    &&& final(self).host_tables@ == tables@
                    &&& *final(self) == (GpuModel {
                        host_tables: final(self).host_tables,
                        ..*old(self)
                    })
                },
            },
    {
        if !self.use_paged {
            return Err(GpuError::ProfileNeedsPaging);
        }
        let n: usize = tokens.len();
        let slots: usize = self.max_batch;
        self.host_tables = copied(tables);
        let shape = self.shape_of();
        proof {
            assert(n * shape.n_embd <= 16 * shape.n_embd) by (nonlinear_arith)
                requires
                    n <= 16,
            ;
            assert(n * shape.hidden <= 16 * shape.hidden) by (nonlinear_arith)
                requires
                    n <= 16,
            ;
        }
        match profile::profile_batch(&shape, n, self.switches.force_decode_gemm) {
            Ok(timed) => Ok(
                BatchProfile {
                    tables: copied(tables),
                    lens: widen(lens, n, slots),
                    tokens: narrow(tokens, n, slots),
                    positions: narrow(positions, n, slots),
                    timed,
                },
            ),
            Err(_) => Err(GpuError::SwigluOnly),
        }
    }

    /// One token under the profiler, at the end of the cache. The token is
    /// committed afterwards as any other.
    pub fn profile_step(&mut self, token: usize) -> (r: Result<TokenProfile, GpuError>)
        requires
            old(self).wf(),
            old(self).use_paged ==> old(self).seq@.pages.len() <= old(self).table_stride,
        ensures
            final(self).wf(),
            ({
                let pos = old(self).cache_len;
                let full = pos + 1 > old(self).capacity;
                let placed = old(self).use_paged ==> pos < old(self).seq@.len;
                &&& full ==> *final(self) == *old(self)
                &&& !full ==> final(self).prepared_shape is None && final(self).host_params@ == (
                if placed {
                    step_params(
                        old(self).host_params@,
                        token,
                        pos,
                        old(self).slot_of(old(self).seq@, pos as nat) as usize,
                    )
                } else {
                    token_params(old(self).host_params@, token, pos)
                })
                &&& !full && placed ==> old(self).pages_slotted(*final(self), pos)
                &&& !full && !placed ==> final(self).host_tables == old(self).host_tables
                    && final(self).host_lens == old(self).host_lens
                &&& match r {
                    Ok(p) => {
                        &&& !full
                        &&& placed
                        &&& old(self).shape().runnable()
                        &&& p.params@ == final(self).host_params@
                        &&& old(self).pages_uploaded(*final(self), p.pages, pos)
                        &&& p.timed@ == profile::token_profile(
                            old(self).shape(),
                            old(self).use_paged,
                            old(self).switches.split_attention,
                        )
                    },
                    Err(e) => e == (if full {
                        GpuError::CacheFull
                    } else if !placed {
                        GpuError::Page {
                            error: paged::PageError::PastEnd { pos, len: old(self).seq@.len as usize },
                        }
                    } else {
                        GpuError::ProfileSwigluOnly
                    }) && (full || !placed || !old(self).shape().runnable()),
                }
            }),
            *final(self) == (GpuModel {
                host_params: final(self).host_params,
                host_tables: final(self).host_tables,
                host_lens: final(self).host_lens,
                prepared_shape: final(self).prepared_shape,
                ..*old(self)
            }),
    {
        let pos: usize = self.cache_len;
        if pos >= self.capacity {
            return Err(GpuError::CacheFull);
        }
        let (params, pages) = match self.set_params(token, pos) {
            Ok(x) => x,
            Err(e) => {
                return Err(e);
            },
        };
        let shape = self.shape_of();
        match profile::profile_step(&shape, self.use_paged, self.switches.split_attention) {
            Ok(timed) => Ok(TokenProfile { params, pages, timed }),
            Err(_) => Err(GpuError::ProfileSwigluOnly),
        }
    }

    /// A packed call under the profiler: the call, and the stage boundaries to
    /// prepare for it.
    pub fn profile_packed_prefill(
        &mut self,
        chunks: &[PackedPrefillRequest<'_>],
        topk_rows: &[(usize, usize)],
        full_rows: &[usize],
        iters: usize,
    ) -> (r: Result<(PackedStep, usize), GpuError>)
        requires
            old(self).wf(),
            16 * old(self).cfg.vocab_size * 4 + 16 * 1028 <= usize::MAX,
            6 + 17 * old(self).cfg.n_layer <= usize::MAX,
        ensures
            final(self).wf(),
            ({
                let cs = packed::views(chunks@);
                match r {
                    Ok(x) => {
                        &&& iters > 0
                        &&& Self::packs(*old(self), *final(self), cs, topk_rows@, full_rows@, x.0)
                        &&& x.1 == 6 + 17 * old(self).cfg.n_layer
                        &&& x.0.ops@.len() <= x.1
                    },
                    Err(e) => if iters == 0 {
                        e == GpuError::ProfileIters && *final(self) == *old(self)
                    } else {
                        Self::packed_refused(
                            *old(self),
                            *final(self),
                            cs,
                            topk_rows@,
                            full_rows@,
                            e,
                        )
                    },
                }
            }),
    {
        if iters == 0 {
            return Err(GpuError::ProfileIters);
        }
        match self.prefill_packed(chunks, topk_rows, full_rows) {
            Ok(s) => {
                proof {
                    profile::law_boundaries_suffice(
                        old(self).shape(),
                        s.plan.rows,
                        old(self).packed_mode(),
                        s.plan.finals,
                        topk_rows@.len() > 0,
                    );
                }
                Ok((s, profile::packed_boundaries(self.cfg.n_layer)))
            },
            Err(e) => Err(e),
        }
    }

    /// The launches of a packed call whose metadata is on the device, to time
    /// their replay: only those of the batch that was prepared last.
    pub fn time_packed_replay(&self, rows: usize, finals: usize, iters: usize) -> (r: Result<
        Vec<Op>,
        GpuError,
    >)
        requires
            self.wf(),
        ensures
            ({
                let shaped = 0 < rows <= self.capacity && finals <= self.max_batch && iters > 0;
                match r {
                    Ok(v) => {
                        &&& shaped
                        &&& self.prepared_shape == Some((rows, finals))
                        &&& self.shape().runnable()
                        &&& v@ == launch::packed_prefill(
                            self.shape(),
                            rows,
                            self.packed_mode(),
                            finals,
                            false,
                        )
                    },
                    Err(e) => if !shaped {
                        e == GpuError::ReplayShape
                    } else if self.prepared_shape != Some((rows, finals)) {
                        e == GpuError::ReplayStale
                    } else {
                        !self.shape().runnable() && e == GpuError::SwigluOnly
                    },
                }
            }),
    {
        if rows == 0 || rows > self.capacity || finals > self.prefill_request_capacity() || iters == 0 {
            return Err(GpuError::ReplayShape);
        }
        let current = match self.prepared_shape {
            Some((r, f)) => r == rows && f == finals,
            None => false,
        };
        if !current {
            return Err(GpuError::ReplayStale);
        }
        let shape = self.shape_of();
        proof {
            self.lemma_holds(rows as nat);
        }
        let mode = PrefillMode {
            packed: true,
            paged: true,
            tiled: self.tiled_prefill_attention(),
            hybrid: self.prefill_attention.uses_hybrid(),
            pos_offset: 0,
        };
        match queue_packed_prefill(&shape, rows, &mode, finals, false) {
            Ok(v) => Ok(v),
            Err(_) => Err(GpuError::SwigluOnly),
        }
    }

    /// The graph of a chunk, to time its replay. It is looked up under the
    /// shared scores of the last prompt.
    pub fn time_prefill_replay(&self, len: usize, want_logits: bool) -> (r: Result<PrefillKey, GpuError>)
        ensures
            ({
                let key = PrefillKey {
                    len,
                    want_logits,
                    score_capacity: self.prefill_score_capacity,
                };
                match r {
                    Ok(k) => self.prefill_graphs@.resident.contains(key) && k == key,
                    Err(e) => !self.prefill_graphs@.resident.contains(key) && e
                        == (GpuError::NoPrefillGraph { len }),
                }
            }),
    {
        let key = PrefillKey { len, want_logits, score_capacity: self.prefill_score_capacity };
        if self.prefill_graphs.has(key) {
            Ok(key)
        } else {
            Err(GpuError::NoPrefillGraph { len })
        }
    }

    /// The greedy graph of a batch size, to time its replay.
    pub fn time_graph_replay(&self, n: usize) -> (r: Result<usize, GpuError>)
        ensures
            match r {
                Ok(slot) => {
                    &&& 0 < n
                    &&& 2 * n <= self.batch_graphs@.len()
                    &&& slot == graphs::slot(n as nat, false)
                    &&& self.batch_graphs@[slot as int]
                },
                Err(e) => if n == 0 || 2 * n > self.batch_graphs@.len() {
                    e == (GpuError::NoSlot { n })
                } else {
                    !self.batch_graphs@[graphs::slot(n as nat, false)] && e == (GpuError::NotCaptured { n })
                },
            },
    {
        if n == 0 || n > self.batch_graphs.len() / 2 {
            return Err(GpuError::NoSlot { n });
        }
        let slot: usize = graph_slot(n, false);
        if self.batch_graphs.has(slot) {
            Ok(slot)
        } else {
            Err(GpuError::NotCaptured { n })
        }
    }
}

/// The step parameter and the layer's base address the token's row: together
/// they are the row's offset in the pool, or along the contiguous cache, so
/// that a graph captured with the bases stays valid as the sequence grows.
pub proof fn law_step_parameter_addresses_the_row(m: GpuModel, seq: SequenceView, pos: nat, layer: nat)
    requires
        m.sized(),
        layer < m.cfg.n_layer,
    ensures
        m.use_paged ==> m.shape().layer_base(true, layer) + m.slot_of(seq, pos) == paged::offset(
            seq.place(pos).0 as nat,
            layer,
            seq.place(pos).1,
            m.cfg.n_layer as nat,
            m.kv_dim(),
        ),
        !m.use_paged ==> m.shape().layer_base(false, layer) + m.slot_of(seq, pos) == (layer * m.capacity
            + pos) * m.kv_dim(),
{
    let kv = m.kv_dim();
    let c = m.capacity as nat;
    let (page, slot) = seq.place(pos);
    let p = page as nat;
    let l = m.cfg.n_layer as nat;
    assert((p * l * 16 + slot) * kv + layer * 16 * kv == p * l * 16 * kv + layer * 16 * kv + slot * kv)
        by (nonlinear_arith);
    assert(layer * c * kv + pos * kv == (layer * c + pos) * kv) by (nonlinear_arith);
}

/// A captured step is replayed: once a graph is there, steps of its kind launch
/// nothing of their own, for as long as nothing drops it.
pub proof fn law_captured_steps_are_replayed(m: GpuModel, n: nat, topk: bool, run: Run, ops: Seq<Op>)
    requires
        m.wf(),
        0 < n <= m.max_batch,
        m.switches.use_batch_graph,
        m.batch_graphs@[graphs::slot(n, topk)],
        m.runs(n, topk, run, ops),
    ensures
        run == Run::Replay,
        ops.len() == 0,
{
}

/// Reading candidates costs the same whatever was asked for, and no more than
/// the full logits of one row for a vocabulary of any size worth sampling.
pub proof fn law_selection_bytes(vocab: nat, rows: nat, full: nat)
    requires
        rows <= GEMV_BATCH_MAX,
    ensures
        GpuModel::selection_bytes(vocab, rows, false, 0) == 4 * rows,
        GpuModel::selection_bytes(vocab, rows, true, full) == GpuModel::selection_bytes(
            vocab,
            rows,
            false,
            full,
        ) + rows * 1024,
        vocab >= 4096 ==> GpuModel::selection_bytes(vocab, rows, true, 0) <= rows * 4 + vocab * 4,
{
    assert(rows * 128 * 8 == rows * 1024) by (nonlinear_arith);
    assert(0 * vocab == 0) by (nonlinear_arith);
}

/// Tokens pass exactly where the vocabulary has all of them; otherwise one that it
/// does not have is named.
pub proof fn law_unknown_tokens_are_found(tokens: Seq<usize>, vocab: usize)
    ensures
        first_unknown(tokens, vocab) is None <==> forall|i: int|
            0 <= i < tokens.len() ==> #[trigger] tokens[i] < vocab,
        first_unknown(tokens, vocab) matches Some(t) ==> t >= vocab && tokens.contains(t),
    decreases tokens.len(),
{
    if tokens.len() > 0 {
        let rest = tokens.skip(1);
        law_unknown_tokens_are_found(rest, vocab);
        if tokens[0] < vocab {
            if first_unknown(rest, vocab) is None {
                assert forall|i: int| 0 <= i < tokens.len() implies #[trigger] tokens[i] < vocab by {
                    if i > 0 {
                        assert(rest[i - 1] < vocab);
                    }
                }
            } else {
                let t = first_unknown(rest, vocab)->0;
                let k = choose|k: int| 0 <= k < rest.len() && rest[k] == t;
                assert(tokens[k + 1] == t);
            }
        } else {
            assert(tokens[0] == tokens[0]);
        }
    }
}

/// Rows pass exactly where a batch has all of them.
pub proof fn law_rows_outside_are_found(rows: Seq<usize>, n: usize)
    ensures
        first_outside(rows, n) is None <==> forall|i: int| 0 <= i < rows.len() ==> #[trigger] rows[i] < n,
        first_outside(rows, n) matches Some(r) ==> r >= n && rows.contains(r),
    decreases rows.len(),
{
    if rows.len() > 0 {
        let rest = rows.skip(1);
        law_rows_outside_are_found(rest, n);
        if rows[0] < n {
            if first_outside(rest, n) is None {
                assert forall|i: int| 0 <= i < rows.len() implies #[trigger] rows[i] < n by {
                    if i > 0 {
                        assert(rest[i - 1] < n);
                    }
                }
            } else {
                let t = first_outside(rest, n)->0;
                let k = choose|k: int| 0 <= k < rest.len() && rest[k] == t;
                assert(rows[k + 1] == t);
            }
        } else {
            assert(rows[0] == rows[0]);
        }
    }
}

/// Candidates are refused exactly where a row is none of the batch's, or asks for
/// none or for more than there are.
pub proof fn law_what_candidates_are_given(rows: Seq<(usize, usize)>, n: usize)
    ensures
        topk_refusal(rows, n) is None <==> forall|i: int|
            0 <= i < rows.len() ==> (#[trigger] rows[i]).0 < n && 0 < rows[i].1 <= TOPK_MAX,
    decreases rows.len(),
{
    if rows.len() > 0 {
        let rest = rows.skip(1);
        law_what_candidates_are_given(rest, n);
        if rows[0].0 < n && 0 < rows[0].1 <= TOPK_MAX {
            if topk_refusal(rest, n) is None {
                assert forall|i: int| 0 <= i < rows.len() implies (#[trigger] rows[i]).0 < n && 0 < rows[i].1
                    <= TOPK_MAX by {
                    if i > 0 {
                        assert(rest[i - 1].0 < n);
                    }
                }
            } else {
                let k = choose|k: int|
                    0 <= k < rest.len() && !((#[trigger] rest[k]).0 < n && 0 < rest[k].1 <= TOPK_MAX);
                assert(!(rows[k + 1].0 < n && 0 < rows[k + 1].1 <= TOPK_MAX));
            }
        } else {
            assert(!(rows[0].0 < n && 0 < rows[0].1 <= TOPK_MAX));
        }
    }
}

/// A decode step takes a batch exactly where the cache is in pages, the batch fits,
/// every request brings its position, length and table, and every token is known.
pub proof fn law_what_a_batch_may_be(
    m: GpuModel,
    tokens: Seq<usize>,
    positions: nat,
    tables: nat,
    lens: nat,
)
    ensures
        m.batch_refusal(tokens, positions, tables, lens) is None <==> {
            &&& m.use_paged
            &&& tokens.len() <= m.max_batch
            &&& positions == tokens.len()
            &&& lens == tokens.len()
            &&& tables == m.max_batch * m.table_stride
            &&& forall|i: int| 0 <= i < tokens.len() ==> #[trigger] tokens[i] < m.cfg.vocab_size
        },
{
    law_unknown_tokens_are_found(tokens, m.cfg.vocab_size);
}

/// The single request takes tokens exactly where there are some, they fit behind
/// those it has, and every one is known.
pub proof fn law_what_may_be_appended(m: GpuModel, tokens: Seq<usize>)
    ensures
        m.forward_refusal(tokens) is None <==> {
            &&& tokens.len() > 0
            &&& m.cache_len + tokens.len() <= m.capacity
            &&& forall|i: int| 0 <= i < tokens.len() ==> #[trigger] tokens[i] < m.cfg.vocab_size
        },
{
    law_unknown_tokens_are_found(tokens, m.cfg.vocab_size);
}

/// The device runs exactly what rotates, normalises by root mean square and does so
/// before each half of a layer.
pub proof fn law_what_the_device_runs(cfg: Config)
    ensures
        unsupported(cfg) is None <==> cfg.pos_encoding@ == "rope"@ && cfg.norm@ == "rmsnorm"@
            && cfg.norm_placement@ == "pre"@,
{
}

/// The shared scores hold any history that fits a table: they are never fewer than
/// the history, nor more than the table has positions, and come in whole steps
/// unless the table ends first.
pub proof fn law_scores_hold_the_history(history: nat, stride: nat)
    ensures
        history <= stride * PAGE_TOKENS ==> score_capacity(history, stride) >= history,
        score_capacity(history, stride) <= stride * PAGE_TOKENS,
        score_capacity(history, stride) < history + 256,
        score_capacity(history, stride) % 256 == 0 || score_capacity(history, stride) == stride
            * PAGE_TOKENS,
{
    math::lemma_ceil_div(history, 256);
    vstd::arithmetic::div_mod::lemma_mod_multiples_basic(math::ceil_div(history, 256) as int, 256);
}

/// A prompt's graph serves every chunk that is kept under the same key: wherever in
/// their prompts they stand, two chunks of one key launch the same operations.
pub proof fn law_graph_keys_tell_launches_apart(
    m: GpuModel,
    t: nat,
    a: usize,
    u: nat,
    b: usize,
    want: bool,
    wish: bool,
)
    requires
        m.use_paged,
        t <= usize::MAX,
        u <= usize::MAX,
        m.prompt_key(t, a as nat, want) == m.prompt_key(u, b as nat, wish),
    ensures
        launch::prefill(m.shape(), t as usize, m.prompt_mode(a), want) == launch::prefill(
            m.shape(),
            u as usize,
            m.prompt_mode(b),
            wish,
        ),
{
    lemma_paged_layers(m.shape(), t as usize, m.prompt_mode(a), m.prompt_mode(b), m.cfg.n_layer as nat);
}

proof fn lemma_paged_layers(
    s: Shape,
    t: usize,
    a: launch::PrefillMode,
    b: launch::PrefillMode,
    count: nat,
)
    requires
        a.paged,
        b == (launch::PrefillMode { pos_offset: b.pos_offset, ..a }),
    ensures
        launch::prefill_layers(s, t, a, count) == launch::prefill_layers(s, t, b, count),
    decreases count,
{
    if count > 0 {
        let below = (count - 1) as nat;
        lemma_paged_layers(s, t, a, b, below);
        assert(launch::prefill_layer(s, t, a, below as usize) =~= launch::prefill_layer(
            s,
            t,
            b,
            below as usize,
        ));
    }
}

/// A call takes as many rows as the cache, the grid and the elements of its widest
/// row allow, and no fewer.
pub proof fn law_rows_are_limited_by_the_kernels(m: GpuModel)
    requires
        m.sized(),
        m.widest() > 0,
    ensures
        ({
            let n = m.token_capacity();
            &&& n <= m.capacity
            &&& n <= 65535
            &&& n * m.widest() <= i32::MAX
            &&& n == m.capacity || n == 65535 || (n + 1) * m.widest() > i32::MAX
            &&& m.widest() >= m.cfg.n_embd && m.widest() >= m.hidden && m.widest() >= m.kv_dim()
        }),
{
    let w = m.widest() as int;
    let top = i32::MAX as int;
    let b = top / w;
    vstd::arithmetic::div_mod::lemma_fundamental_div_mod(top, w);
    assert(w * b == b * w) by (nonlinear_arith);
    assert((b + 1) * w == b * w + w) by (nonlinear_arith);
    let n = m.token_capacity() as int;
    assert(n * w <= b * w) by (nonlinear_arith)
        requires
            n <= b,
            w > 0,
    ;
}

/// The tables and lengths uploaded for the model's own request lead to every
/// position of it, bound its history by the position it decodes, and leave the
/// other slots alone.
pub proof fn law_uploaded_pages_find_the_request(before: GpuModel, after: GpuModel, pos: usize, q: nat)
    requires
        before.wf(),
        before.use_paged,
        before.pages_slotted(after, pos),
        pos < i32::MAX,
        before.seq@.pages.len() <= before.table_stride,
        before.seq@.pages.len() <= i32::MAX,
        forall|i: int| 0 <= i < before.seq@.pages.len() ==> #[trigger] before.seq@.pages[i] <= i32::MAX,
        q < before.seq@.len,
        before.slots() > 0,
    ensures
        after.host_tables@[q as int / 16] == before.seq@.place(q).0,
        after.host_lens@[0] == pos + 1,
        after.host_tables@.len() == before.host_tables@.len(),
        after.host_lens@.len() == before.host_lens@.len(),
        forall|k: int|
            before.table_stride <= k < before.host_tables@.len() ==> #[trigger] after.host_tables@[k]
                == before.host_tables@[k],
        forall|i: int|
            0 < i < before.host_lens@.len() ==> #[trigger] after.host_lens@[i] == before.host_lens@[i],
{
    let stride = before.table_stride as nat;
    let table = paged::padded(before.seq@.pages, stride);
    paged::law_table_finds_every_position(before.seq@, stride, q);
    math::lemma_ceil_div(before.seq@.len, PAGE_TOKENS as nat);
    assert(before.host_tables@.len() >= stride) by (nonlinear_arith)
        requires
            before.host_tables@.len() == before.slots() * stride,
            before.slots() > 0,
    ;
    assert(table.take(stride as int) =~= table);
}

/// A request's own table fills the first slot and leaves the others alone.
pub proof fn law_first_slot_holds_the_table(tables: Seq<i32>, table: Seq<i32>, stride: nat)
    requires
        stride <= tables.len(),
        stride <= table.len(),
    ensures
        first_slot(tables, table, stride).len() == tables.len(),
        forall|i: int| 0 <= i < stride ==> #[trigger] first_slot(tables, table, stride)[i] == table[i],
        forall|i: int|
            stride <= i < tables.len() ==> #[trigger] first_slot(tables, table, stride)[i] == tables[i],
{
}

/// A token is replayed only from a captured graph, and recorded only where there
/// is none; both are for single tokens after the first, with graphs switched on.
pub proof fn law_graphs_are_captured_once(m: GpuModel, single: bool)
    ensures
        m.token_run(single) == Run::Replay ==> m.graph,
        m.token_run(single) == Run::Capture ==> !m.graph,
        m.token_run(single) != Run::Eager <==> m.switches.use_graph && single && m.cache_len > 0,
{
}

/// The weights are those of the embedding and of every layer: four bytes a value
/// in full precision; a byte a value and four bytes a row when quantised. The
/// two norms of a layer stay in full precision.
pub proof fn law_weights_are_counted(m: GpuModel)
    ensures
        ({
            let v = m.cfg.vocab_size as nat;
            let d = m.cfg.n_embd as nat;
            let h = m.hidden as nat;
            let kv = m.kv_dim();
            let gates: nat = if m.shape().swiglu {
                1
            } else {
                0
            };
            let layer_values = 2 * (d * d) + 2 * (kv * d) + (2 + gates) * (h * d);
            let layer_rows = 3 * d + 2 * kv + (1 + gates) * h;
            let l = m.cfg.n_layer as nat;
            m.weights() == match m.precision {
                Precision::F32 => 4 * (v * d) + l * (4 * layer_values + 8 * d),
                Precision::Int8 => v * d + 4 * v + l * (layer_values + 4 * layer_rows + 8 * d),
            }
        }),
{
    let d = m.cfg.n_embd as nat;
    let h = m.hidden as nat;
    let kv = m.kv_dim();
    let gates: nat = if m.shape().swiglu {
        1
    } else {
        0
    };
    let layer_values = 2 * (d * d) + 2 * (kv * d) + (2 + gates) * (h * d);
    let layer_rows = 3 * d + 2 * kv + (1 + gates) * h;
    assert(d * h == h * d) by (nonlinear_arith);
    assert((2 + gates) * (h * d) == 2 * (h * d) + gates * (h * d)) by (nonlinear_arith);
    assert((1 + gates) * h == h + gates * h) by (nonlinear_arith);
    assert(1 * (h * d) == h * d && 0 * (h * d) == 0 && 1 * h == h && 0 * h == 0);
    let per = match m.precision {
        Precision::F32 => 4 * layer_values + 8 * d,
        Precision::Int8 => layer_values + 4 * layer_rows + 8 * d,
    };
    assert(m.layer_bytes() == per);
}

/// The model's own request may grow exactly as far as the pages it has and the
/// free ones hold; without paging this is not what limits it.
pub proof fn law_growth_is_bounded_by_the_pages(m: GpuModel, extra: nat)
    requires
        m.seq@.wf(),
    ensures
        m.has_room(extra) <==> (m.use_paged ==> m.seq@.len + extra <= 16 * (m.seq@.pages.len()
            + m.pool@.free.len())),
        m.use_paged ==> m.grown_by(extra).len == m.seq@.len + extra,
        !m.use_paged ==> m.grown_by(extra) == m.seq@,
{
    math::lemma_ceil_div(m.seq@.len, PAGE_TOKENS as nat);
    math::lemma_ceil_div(m.seq@.len + extra, PAGE_TOKENS as nat);
}

/// A prompt is replayed exactly where graphs are on, its pages are paged and its
/// graph is resident. It is recorded only where that graph is not resident, did
/// not fail before and still has room.
pub proof fn law_prompts_are_captured_once(m: GpuModel, key: PrefillKey)
    ensures
        m.prompt_run(key) == Run::Replay <==> m.switches.use_prefill_graph && m.use_paged
            && m.prefill_graphs@.resident.contains(key),
        m.prompt_run(key) == Run::Capture <==> m.switches.use_prefill_graph && m.use_paged
            && !m.prefill_graphs@.resident.contains(key) && !m.prefill_graphs@.failed.contains(key)
            && m.prefill_graphs@.resident.len() < graphs::MAX_PREFILL_GRAPHS,
{
}

/// Prompts attend by tiles, alone or packed, exactly where the chosen kernel is
/// not the reference one, the cache is paged, heads have 64 values and four
/// query heads share a key head. The reference kernel never reads a chunk's own
/// keys from beside the cache.
pub proof fn law_attention_follows_the_choice(m: GpuModel, pos_offset: usize)
    ensures
        m.packed_mode().tiled <==> m.use_paged && m.prefill_attention !is Reference && m.cfg.n_embd
            / m.cfg.n_head == 64 && m.cfg.n_head == 4 * m.cfg.n_kv_head,
        m.prompt_mode(pos_offset).tiled == m.packed_mode().tiled,
        m.prompt_mode(pos_offset).hybrid == m.packed_mode().hybrid,
        m.prompt_mode(pos_offset).paged == m.use_paged,
        m.prompt_mode(pos_offset).pos_offset == pos_offset,
        m.packed_mode().paged,
        m.packed_mode().packed && !m.prompt_mode(pos_offset).packed,
        m.packed_mode().hybrid ==> m.prefill_attention !is Reference,
        forall|query_tile: usize, history_tile: usize, hybrid: bool, cache_page_table: bool|
            m.prefill_attention == (PrefillAttentionVariant::Tiled {
                query_tile,
                history_tile,
                hybrid,
                cache_page_table,
            }) || m.prefill_attention == (PrefillAttentionVariant::Exact {
                query_tile,
                history_tile,
                hybrid,
                cache_page_table,
            }) ==> m.packed_mode().hybrid == hybrid,
{
}

/// A packed call uploads its segments exactly where the chosen kernel reads
/// them, and so wherever it attends by tiles.
pub proof fn law_segments_are_uploaded_where_read(
    before: GpuModel,
    after: GpuModel,
    cs: Seq<packed::ChunkView>,
    topk_rows: Seq<(usize, usize)>,
    full_rows: Seq<usize>,
    s: PackedStep,
)
    requires
        GpuModel::packs(before, after, cs, topk_rows, full_rows, s),
    ensures
        s.segments <==> before.prefill_attention !is Reference,
        before.packed_mode().tiled ==> s.segments,
{
}

/// An upload puts each request of a batch in its slot, with its table, its
/// token, its position, its length and the candidates asked of it, and leaves
/// every other slot inactive. What the device already holds is not sent again.
pub proof fn law_uploads_hold_the_batch(
    m: GpuModel,
    u: BatchUpload,
    tokens: Seq<usize>,
    positions: Seq<usize>,
    tables: Seq<i32>,
    lens: Seq<i32>,
    row_k: Seq<i32>,
    i: int,
)
    requires
        m.uploads(u, tokens, positions, tables, lens, row_k),
        tokens.len() <= m.max_batch,
        positions.len() == tokens.len(),
        lens.len() == tokens.len(),
        0 <= i < m.max_batch,
        i < tokens.len() ==> tokens[i] <= i32::MAX && positions[i] <= i32::MAX,
    ensures
        u.tables@ == tables,
        i < tokens.len() ==> u.tokens@[i] == tokens[i] && u.positions@[i] == positions[i]
            && u.lens@[i] == lens[i],
        i >= tokens.len() ==> u.lens@[i] == 0,
        ({
            let held = if u.row_k is Some {
                u.row_k->0@
            } else {
                m.host_row_k@
            };
            held[i] == if i < tokens.len() && i < row_k.len() {
                row_k[i]
            } else {
                0
            }
        }),
        u.row_k is Some ==> u.row_k->0@ != m.host_row_k@,
{
}

} // verus!
