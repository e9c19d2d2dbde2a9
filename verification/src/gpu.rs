//! What a launch on the device looks like: which kernel runs, over which grid,
//! with how much shared memory.
//!
//! The device itself is driven from outside; everything that decides a launch
//! is decided here.
use crate::math;
use crate::text;
use crate::text::push_decimal;
use crate::wire::F32Bits;
use vstd::prelude::*;

verus! {

/// Positions handled by one attention block.
///
/// Sets how many blocks the attention grid has: `n_head * ceil(capacity/CHUNK)`
/// instead of `n_head`. Smaller chunks mean more parallelism but more partials
/// to combine.
pub const ATTN_CHUNK: usize = 128;

/// Candidates the device extracts for one row at most.
pub const TOPK_MAX: usize = 128;

/// Largest batch the batched-GEMV kernels are instantiated for.
pub const GEMV_BATCH_MAX: usize = 16;

// Indices into the per-step parameter buffer on the device. A captured graph
// freezes kernel arguments, so what changes per token is read from memory.
// Slot 0 holds a permanent zero, so that a constant offset takes the same path.

/// Always zero.
pub const PARAM_ZERO: usize = 0;

/// The token to embed.
pub const PARAM_TOKEN: usize = 1;

/// Its position.
pub const PARAM_POS: usize = 2;

/// Positions attended over.
pub const PARAM_SEQ: usize = 3;

/// Where the token's K and V rows go, in floats from the layer's base.
pub const PARAM_SLOT: usize = 4;

/// Where a prompt chunk starts in its prompt.
pub const PARAM_PREFILL_POS: usize = 5;

/// Length of the parameter buffer.
pub const PARAM_COUNT: usize = 6;

/// Threads per block for reduction kernels.
pub const REDUCE_THREADS: u32 = 256;

/// Warps in such a block.
pub const WARPS: usize = 8;

/// Edge of the scalar GEMM tile.
pub const TILE: usize = 16;

/// Chunks needed to cover `capacity` positions.
///
/// Derived from capacity rather than the current sequence length, because a
/// captured graph freezes grid dimensions.
pub fn attn_chunks(capacity: usize) -> (n: usize)
    ensures
        n == math::ceil_div(capacity as nat, ATTN_CHUNK as nat),
{
    math::div_ceil(capacity, ATTN_CHUNK)
}

/// The device functions, by the work they do.
#[derive(Debug, Clone, Copy, PartialEq, Eq, Structural)]
pub enum Kernel {
    Gemv,
    GemvVec4,
    RmsNorm,
    Rope,
    AddInplace,
    SiluMul,
    Softmax,
    Embed,
    AttentionDecode,
    GemvI8,
    GemvI8Vec4,
    GemvI8Warp,
    GemvWarp,
    MlpSwigluI8,
    MlpSwigluF32,
    AttentionPartial,
    AttentionCombine,
    GemmI8,
    GemmF32,
    GemmI8Wmma,
    GemmF32Wmma,
    GemmI8WmmaBig,
    GemmF32WmmaBig,
    RmsNormBatch,
    RopeBatch,
    SwigluBatch,
    EmbedBatchF32,
    EmbedBatchI8,
    CacheStore,
    AttentionPrefill,
    CacheStorePaged,
    ArgmaxRows,
    GemvBatchI8B1,
    GemvBatchI8B2,
    GemvBatchI8B4,
    GemvBatchI8B8,
    GemvBatchI8B16,
    RopeRows,
    CacheStoreRowsPaged,
    AttentionDecodePaged,
    AttentionPrefillPaged,
    EmbedI8,
}

impl Kernel {
    /// The symbol a kernel is compiled under.
    pub open spec fn symbol(self) -> Seq<char> {
        match self {
            Kernel::Gemv => "gemv_f32"@,
            Kernel::GemvVec4 => "gemv_f32_vec4"@,
            Kernel::RmsNorm => "rmsnorm_f32"@,
            Kernel::Rope => "rope_f32"@,
            Kernel::AddInplace => "add_inplace_f32"@,
            Kernel::SiluMul => "silu_mul_f32"@,
            Kernel::Softmax => "softmax_f32"@,
            Kernel::Embed => "embed_f32"@,
            Kernel::AttentionDecode => "attention_decode_f32"@,
            Kernel::GemvI8 => "gemv_i8_f32"@,
            Kernel::GemvI8Vec4 => "gemv_i8_f32_vec4"@,
            Kernel::GemvI8Warp => "gemv_i8_f32_warp"@,
            Kernel::GemvWarp => "gemv_f32_warp"@,
            Kernel::MlpSwigluI8 => "mlp_swiglu_i8_warp"@,
            Kernel::MlpSwigluF32 => "mlp_swiglu_f32"@,
            Kernel::AttentionPartial => "attention_partial_f32"@,
            Kernel::AttentionCombine => "attention_combine_f32"@,
            Kernel::GemmI8 => "gemm_i8_f32"@,
            Kernel::GemmF32 => "gemm_f32"@,
            Kernel::GemmI8Wmma => "gemm_i8_wmma"@,
            Kernel::GemmF32Wmma => "gemm_f32_wmma"@,
            Kernel::GemmI8WmmaBig => "gemm_i8_wmma_big"@,
            Kernel::GemmF32WmmaBig => "gemm_f32_wmma_big"@,
            Kernel::RmsNormBatch => "rmsnorm_batch_f32"@,
            Kernel::RopeBatch => "rope_batch_f32"@,
            Kernel::SwigluBatch => "swiglu_batch_f32"@,
            Kernel::EmbedBatchF32 => "embed_batch_f32"@,
            Kernel::EmbedBatchI8 => "embed_batch_i8"@,
            Kernel::CacheStore => "cache_store_f32"@,
            Kernel::AttentionPrefill => "attention_prefill_f32"@,
            Kernel::CacheStorePaged => "cache_store_paged_f32"@,
            Kernel::ArgmaxRows => "argmax_rows_f32"@,
            Kernel::GemvBatchI8B1 => "gemv_batch_i8_b1"@,
            Kernel::GemvBatchI8B2 => "gemv_batch_i8_b2"@,
            Kernel::GemvBatchI8B4 => "gemv_batch_i8_b4"@,
            Kernel::GemvBatchI8B8 => "gemv_batch_i8_b8"@,
            Kernel::GemvBatchI8B16 => "gemv_batch_i8_b16"@,
            Kernel::RopeRows => "rope_rows_f32"@,
            Kernel::CacheStoreRowsPaged => "cache_store_rows_paged_f32"@,
            Kernel::AttentionDecodePaged => "attention_decode_paged_f32"@,
            Kernel::AttentionPrefillPaged => "attention_prefill_paged_f32"@,
            Kernel::EmbedI8 => "embed_i8"@,
        }
    }

    /// The symbol a kernel is compiled under.
    pub fn name(&self) -> (s: &'static str)
        ensures
            s@ == self.symbol(),
    {
        match self {
            Kernel::Gemv => "gemv_f32",
            Kernel::GemvVec4 => "gemv_f32_vec4",
            Kernel::RmsNorm => "rmsnorm_f32",
            Kernel::Rope => "rope_f32",
            Kernel::AddInplace => "add_inplace_f32",
            Kernel::SiluMul => "silu_mul_f32",
            Kernel::Softmax => "softmax_f32",
            Kernel::Embed => "embed_f32",
            Kernel::AttentionDecode => "attention_decode_f32",
            Kernel::GemvI8 => "gemv_i8_f32",
            Kernel::GemvI8Vec4 => "gemv_i8_f32_vec4",
            Kernel::GemvI8Warp => "gemv_i8_f32_warp",
            Kernel::GemvWarp => "gemv_f32_warp",
            Kernel::MlpSwigluI8 => "mlp_swiglu_i8_warp",
            Kernel::MlpSwigluF32 => "mlp_swiglu_f32",
            Kernel::AttentionPartial => "attention_partial_f32",
            Kernel::AttentionCombine => "attention_combine_f32",
            Kernel::GemmI8 => "gemm_i8_f32",
            Kernel::GemmF32 => "gemm_f32",
            Kernel::GemmI8Wmma => "gemm_i8_wmma",
            Kernel::GemmF32Wmma => "gemm_f32_wmma",
            Kernel::GemmI8WmmaBig => "gemm_i8_wmma_big",
            Kernel::GemmF32WmmaBig => "gemm_f32_wmma_big",
            Kernel::RmsNormBatch => "rmsnorm_batch_f32",
            Kernel::RopeBatch => "rope_batch_f32",
            Kernel::SwigluBatch => "swiglu_batch_f32",
            Kernel::EmbedBatchF32 => "embed_batch_f32",
            Kernel::EmbedBatchI8 => "embed_batch_i8",
            Kernel::CacheStore => "cache_store_f32",
            Kernel::AttentionPrefill => "attention_prefill_f32",
            Kernel::CacheStorePaged => "cache_store_paged_f32",
            Kernel::ArgmaxRows => "argmax_rows_f32",
            Kernel::GemvBatchI8B1 => "gemv_batch_i8_b1",
            Kernel::GemvBatchI8B2 => "gemv_batch_i8_b2",
            Kernel::GemvBatchI8B4 => "gemv_batch_i8_b4",
            Kernel::GemvBatchI8B8 => "gemv_batch_i8_b8",
            Kernel::GemvBatchI8B16 => "gemv_batch_i8_b16",
            Kernel::RopeRows => "rope_rows_f32",
            Kernel::CacheStoreRowsPaged => "cache_store_rows_paged_f32",
            Kernel::AttentionDecodePaged => "attention_decode_paged_f32",
            Kernel::AttentionPrefillPaged => "attention_prefill_paged_f32",
            Kernel::EmbedI8 => "embed_i8",
        }
    }
}
/// The blocks of a launch. `shared_bytes` is dynamic shared memory per block.
#[derive(Debug, Clone, Copy, PartialEq, Eq, Structural)]
pub struct Grid {
    pub grid_x: u32,
    pub grid_y: u32,
    pub block_x: u32,
    pub block_y: u32,
    pub shared_bytes: u32,
}

/// How a launch is spread over the device.
#[derive(Debug, Clone, Copy, PartialEq, Eq, Structural)]
pub enum Geometry {
    /// One thread per element, in blocks of the driver's choice.
    Elems { n: u32 },
    /// An explicit grid.
    Blocks { grid: Grid },
}

/// One kernel launch.
#[derive(Debug, Clone, Copy, PartialEq, Eq, Structural)]
pub struct Launch {
    pub kernel: Kernel,
    pub geometry: Geometry,
}

/// Weight precision for the large projections.
#[derive(Debug, Clone, Copy, PartialEq, Eq, Structural)]
pub enum Precision {
    F32,
    /// int8 weights with per-row scales; activations stay f32.
    Int8,
}

impl Precision {
    /// The precision a command line names.
    pub open spec fn parsed(s: Seq<char>) -> Option<Precision> {
        if s == "f32"@ || s == "fp32"@ {
            Some(Precision::F32)
        } else if s == "int8"@ || s == "i8"@ {
            Some(Precision::Int8)
        } else {
            None
        }
    }

    /// The precision a command line names.
    pub fn parse(s: &str) -> (r: Option<Precision>)
        ensures
            r == Precision::parsed(s@),
    {
        if text::same_text(s, "f32") || text::same_text(s, "fp32") {
            Some(Precision::F32)
        } else if text::same_text(s, "int8") || text::same_text(s, "i8") {
            Some(Precision::Int8)
        } else {
            None
        }
    }
}

/// Which attention kernel a prompt in pages runs on. The tiled ones work by
/// segment descriptors; the exact ones give the reference's bits.
#[derive(Debug, Clone, Copy, PartialEq, Eq, Structural)]
pub enum PrefillAttentionVariant {
    Reference,
    Tiled { query_tile: usize, history_tile: usize, hybrid: bool, cache_page_table: bool },
    Exact { query_tile: usize, history_tile: usize, hybrid: bool, cache_page_table: bool },
}

impl PrefillAttentionVariant {
    /// Whether this is the reference kernel.
    pub fn is_reference(&self) -> (b: bool)
        ensures
            b == (*self is Reference),
    {
        matches!(self, PrefillAttentionVariant::Reference)
    }

    /// Whether the variant gives the reference's bits, and sizes its shared
    /// scores by the longest history.
    pub fn is_exact(&self) -> (b: bool)
        ensures
            b == (*self is Exact),
    {
        matches!(self, PrefillAttentionVariant::Exact { .. })
    }

    /// Whether attention also reads the chunk's own rotated K.
    pub open spec fn hybrid(self) -> bool {
        match self {
            PrefillAttentionVariant::Reference => false,
            PrefillAttentionVariant::Tiled { hybrid, .. } => hybrid,
            PrefillAttentionVariant::Exact { hybrid, .. } => hybrid,
        }
    }

    /// Whether attention also reads the chunk's own rotated K.
    pub fn uses_hybrid(&self) -> (b: bool)
        ensures
            b == self.hybrid(),
    {
        match self {
            PrefillAttentionVariant::Reference => false,
            PrefillAttentionVariant::Tiled { hybrid, .. } => *hybrid,
            PrefillAttentionVariant::Exact { hybrid, .. } => *hybrid,
        }
    }
}

impl Default for PrefillAttentionVariant {
    /// Exact, four queries by sixty-four history positions at a time.
    fn default() -> (v: Self)
        ensures
            v == (PrefillAttentionVariant::Exact {
                query_tile: 4,
                history_tile: 64,
                hybrid: false,
                cache_page_table: false,
            }),
    {
        PrefillAttentionVariant::Exact {
            query_tile: 4,
            history_tile: 64,
            hybrid: false,
            cache_page_table: false,
        }
    }
}

/// Which tensor-core tile the dispatch may use.
#[derive(Debug, Clone, Copy, PartialEq, Eq, Structural)]
pub enum Tile {
    /// Per launch, by whether the large tile still fills the device.
    Auto,
    Big,
    Small,
}

/// A launch of `n` threads, one per element.
pub open spec fn elementwise(kernel: Kernel, n: int) -> Launch {
    Launch { kernel, geometry: Geometry::Elems { n: n as u32 } }
}

/// A launch of reduction blocks.
pub open spec fn reduction(kernel: Kernel, grid_x: int, grid_y: int, shared: int) -> Launch {
    Launch {
        kernel,
        geometry: Geometry::Blocks {
            grid: Grid {
                grid_x: grid_x as u32,
                grid_y: grid_y as u32,
                block_x: REDUCE_THREADS,
                block_y: 1,
                shared_bytes: shared as u32,
            },
        },
    }
}

fn elems(kernel: Kernel, n: usize) -> (l: Launch)
    requires
        n <= u32::MAX,
    ensures
        l == elementwise(kernel, n as int),
{
    Launch { kernel, geometry: Geometry::Elems { n: n as u32 } }
}

fn blocks(kernel: Kernel, grid_x: usize, grid_y: usize, shared: usize) -> (l: Launch)
    requires
        grid_x <= u32::MAX,
        grid_y <= u32::MAX,
        shared <= u32::MAX,
    ensures
        l == reduction(kernel, grid_x as int, grid_y as int, shared as int),
{
    Launch {
        kernel,
        geometry: Geometry::Blocks {
            grid: Grid {
                grid_x: grid_x as u32,
                grid_y: grid_y as u32,
                block_x: REDUCE_THREADS,
                block_y: 1,
                shared_bytes: shared as u32,
            },
        },
    }
}

/// Bytes of shared memory for the scores of `positions` positions and one
/// partial vector per warp.
pub open spec fn score_bytes(positions: int, head_dim: int) -> int {
    (positions + WARPS * head_dim) * 4
}

/// Blocks a GEMM needs with square tiles of 64.
pub open spec fn big_blocks(m: nat, n: nat) -> nat {
    math::ceil_div(m, 64) * math::ceil_div(n, 64)
}

/// The refusal of a width that cannot be read four elements at a time.
pub open spec fn bad_width(cols: nat) -> Seq<char> {
    "batched gemv needs cols divisible by 4, got "@ + text::decimal(cols)
}

/// The refusal of a batch no instantiation covers.
pub open spec fn bad_batch(batch: nat) -> Seq<char> {
    "batched gemv supports 1..=16 rows, got "@ + text::decimal(batch)
}

/// The smallest instantiation of the batched GEMV that covers a batch.
pub open spec fn covering(batch: nat) -> Kernel {
    if batch <= 1 {
        Kernel::GemvBatchI8B1
    } else if batch <= 2 {
        Kernel::GemvBatchI8B2
    } else if batch <= 4 {
        Kernel::GemvBatchI8B4
    } else if batch <= 8 {
        Kernel::GemvBatchI8B8
    } else {
        Kernel::GemvBatchI8B16
    }
}

/// Rows an instantiation of the batched GEMV reads, active or not.
pub open spec fn rows_read(k: Kernel) -> nat {
    match k {
        Kernel::GemvBatchI8B1 => 1,
        Kernel::GemvBatchI8B2 => 2,
        Kernel::GemvBatchI8B4 => 4,
        Kernel::GemvBatchI8B8 => 8,
        Kernel::GemvBatchI8B16 => 16,
        _ => 0,
    }
}

/// What the launches depend on: the device's width and the pinned choices.
#[derive(Debug, Clone, Copy, PartialEq, Eq, Structural)]
pub struct Gpu {
    /// Streaming multiprocessors, read from the device.
    pub sm_count: usize,
    /// Tensor cores for GEMMs, rather than the scalar tiled kernel.
    pub use_wmma: bool,
    pub tile: Tile,
}

impl Gpu {
    /// Dispatch for a device, given what `CRUCIBLE_GEMM` holds: `tiled` turns
    /// tensor cores off, `wmma-big` and `wmma-small` pin a tile.
    pub fn new(sm_count: usize, pinned: Option<&str>) -> (g: Gpu)
        ensures
            g.sm_count == sm_count,
            g.use_wmma == !(pinned is Some && pinned->0@ == "tiled"@),
            g.tile == (if pinned is Some && pinned->0@ == "wmma-big"@ {
                Tile::Big
            } else if pinned is Some && pinned->0@ == "wmma-small"@ {
                Tile::Small
            } else {
                Tile::Auto
            }),
    {
        let mut use_wmma = true;
        let mut tile = Tile::Auto;
        if let Some(p) = pinned {
            if text::same_text(p, "tiled") {
                use_wmma = false;
            }
            if text::same_text(p, "wmma-big") {
                tile = Tile::Big;
            } else if text::same_text(p, "wmma-small") {
                tile = Tile::Small;
            }
        }
        Gpu { sm_count, use_wmma, tile }
    }

    /// Whether a GEMM takes the 64x64 tile. Its blocks do more work for their
    /// loads, which pays only while there are two for every multiprocessor.
    pub open spec fn takes_big(self, m: nat, n: nat) -> bool {
        match self.tile {
            Tile::Big => true,
            Tile::Small => false,
            Tile::Auto => big_blocks(m, n) >= 2 * self.sm_count,
        }
    }

    /// The launch of `C[m,n] = A[m,k] * W[n,k]^T`.
    pub open spec fn gemm_launch(self, p: Precision, m: nat, n: nat) -> Launch {
        let int8 = p == Precision::Int8;
        if self.use_wmma {
            let big = self.takes_big(m, n);
            Launch {
                kernel: if int8 && big {
                    Kernel::GemmI8WmmaBig
                } else if int8 {
                    Kernel::GemmI8Wmma
                } else if big {
                    Kernel::GemmF32WmmaBig
                } else {
                    Kernel::GemmF32Wmma
                },
                geometry: Geometry::Blocks {
                    grid: Grid {
                        grid_x: math::ceil_div(n, 64) as u32,
                        grid_y: math::ceil_div(
                            m,
                            if big {
                                64
                            } else {
                                16
                            },
                        ) as u32,
                        block_x: 128,
                        block_y: 1,
                        shared_bytes: 0,
                    },
                },
            }
        } else {
            Launch {
                kernel: if int8 {
                    Kernel::GemmI8
                } else {
                    Kernel::GemmF32
                },
                geometry: Geometry::Blocks {
                    grid: Grid {
                        grid_x: math::ceil_div(n, TILE as nat) as u32,
                        grid_y: math::ceil_div(m, TILE as nat) as u32,
                        block_x: TILE as u32,
                        block_y: TILE as u32,
                        shared_bytes: 0,
                    },
                },
            }
        }
    }

    /// `C[m,n] = A[m,k] * W[n,k]^T`. The weight layout is that of the GEMV, so
    /// nothing is repacked between prefill and decode.
    pub fn gemm(&self, p: Precision, m: usize, n: usize) -> (l: Launch)
        requires
            m <= u32::MAX,
            n <= u32::MAX,
            big_blocks(m as nat, n as nat) <= usize::MAX,
            2 * self.sm_count <= usize::MAX,
        ensures
            l == self.gemm_launch(p, m as nat, n as nat),
    {
        let int8 = p == Precision::Int8;
        if self.use_wmma {
            let across: usize = math::div_ceil(n, 64);
            let down: usize = math::div_ceil(m, 64);
            let big = match self.tile {
                Tile::Big => true,
                Tile::Small => false,
                Tile::Auto => down * across >= 2 * self.sm_count,
            };
            let grid_y: usize = if big {
                down
            } else {
                math::div_ceil(m, 16)
            };
            let kernel = if int8 && big {
                Kernel::GemmI8WmmaBig
            } else if int8 {
                Kernel::GemmI8Wmma
            } else if big {
                Kernel::GemmF32WmmaBig
            } else {
                Kernel::GemmF32Wmma
            };
            Launch {
                kernel,
                geometry: Geometry::Blocks {
                    grid: Grid {
                        grid_x: across as u32,
                        grid_y: grid_y as u32,
                        block_x: 128,
                        block_y: 1,
                        shared_bytes: 0,
                    },
                },
            }
        } else {
            let kernel = if int8 {
                Kernel::GemmI8
            } else {
                Kernel::GemmF32
            };
            Launch {
                kernel,
                geometry: Geometry::Blocks {
                    grid: Grid {
                        grid_x: math::div_ceil(n, TILE) as u32,
                        grid_y: math::div_ceil(m, TILE) as u32,
                        block_x: TILE as u32,
                        block_y: TILE as u32,
                        shared_bytes: 0,
                    },
                },
            }
        }
    }
}

/// The launch of an int8 GEMV: one warp per row where a block would be starved
/// of loads, one block per row otherwise.
pub open spec fn gemv_i8_launch(rows: nat, cols: nat) -> Launch {
    if cols % 4 == 0 && cols / 4 < REDUCE_THREADS {
        reduction(Kernel::GemvI8Warp, math::ceil_div(rows, WARPS as nat) as int, 1, 0)
    } else if cols % 4 == 0 {
        reduction(Kernel::GemvI8Vec4, rows as int, 1, 0)
    } else {
        reduction(Kernel::GemvI8, rows as int, 1, 0)
    }
}

impl Gpu {
    /// `y = W x` in f32, one block per output row. Accumulating is refused: writing
    /// over the residual instead of adding to it would go unnoticed.
    pub fn gemv_at(rows: usize, cols: usize, accumulate: bool) -> (r: Result<Launch, String>)
        requires
            rows <= u32::MAX,
        ensures
            match r {
                Ok(l) => !accumulate && l == reduction(
                    if cols % 4 == 0 {
                        Kernel::GemvVec4
                    } else {
                        Kernel::Gemv
                    },
                    rows as int,
                    1,
                    0,
                ),
                Err(m) => accumulate && m@ == "accumulate is not implemented for the f32 path"@,
            },
    {
        if accumulate {
            return Err("accumulate is not implemented for the f32 path".to_owned());
        }
        Ok(Gpu::gemv(rows, cols))
    }

    /// `y = W x` in f32. Loads are four wide where the width allows it.
    pub fn gemv(rows: usize, cols: usize) -> (l: Launch)
        requires
            rows <= u32::MAX,
        ensures
            l == reduction(
                if cols % 4 == 0 {
                    Kernel::GemvVec4
                } else {
                    Kernel::Gemv
                },
                rows as int,
                1,
                0,
            ),
    {
        if cols % 4 == 0 {
            blocks(Kernel::GemvVec4, rows, 1, 0)
        } else {
            blocks(Kernel::Gemv, rows, 1, 0)
        }
    }

    /// `y = W x` in f32 with scalar loads, to compare the wide loads with.
    pub fn gemv_scalar(rows: usize) -> (l: Launch)
        requires
            rows <= u32::MAX,
        ensures
            l == reduction(Kernel::Gemv, rows as int, 1, 0),
    {
        blocks(Kernel::Gemv, rows, 1, 0)
    }

    /// `y = (W_int8 x) * row_scale`.
    pub fn gemv_i8_at(rows: usize, cols: usize) -> (l: Launch)
        requires
            rows <= u32::MAX,
        ensures
            l == gemv_i8_launch(rows as nat, cols as nat),
    {
        let vec4 = cols % 4 == 0;
        if vec4 && cols / 4 < REDUCE_THREADS as usize {
            blocks(Kernel::GemvI8Warp, math::div_ceil(rows, WARPS), 1, 0)
        } else if vec4 {
            blocks(Kernel::GemvI8Vec4, rows, 1, 0)
        } else {
            blocks(Kernel::GemvI8, rows, 1, 0)
        }
    }

    /// Batched GEMV over int8 weights, by the smallest instantiation that covers
    /// the batch.
    pub fn gemv_batch_i8(rows: usize, cols: usize, batch: usize) -> (r: Result<Launch, String>)
        requires
            rows <= u32::MAX,
        ensures
            match r {
                Ok(l) => cols % 4 == 0 && 1 <= batch <= GEMV_BATCH_MAX && l == reduction(
                    covering(batch as nat),
                    math::ceil_div(rows as nat, WARPS as nat) as int,
                    1,
                    0,
                ),
                Err(m) => if cols % 4 != 0 {
                    m@ == bad_width(cols as nat)
                } else {
                    !(1 <= batch <= GEMV_BATCH_MAX) && m@ == bad_batch(batch as nat)
                },
            },
    {
        if cols % 4 != 0 {
            let mut m = "batched gemv needs cols divisible by 4, got ".to_owned();
            push_decimal(&mut m, cols as u64);
            return Err(m);
        }
        if batch == 0 || batch > GEMV_BATCH_MAX {
            let mut m = "batched gemv supports 1..=16 rows, got ".to_owned();
            push_decimal(&mut m, batch as u64);
            return Err(m);
        }
        let kernel = if batch <= 1 {
            Kernel::GemvBatchI8B1
        } else if batch <= 2 {
            Kernel::GemvBatchI8B2
        } else if batch <= 4 {
            Kernel::GemvBatchI8B4
        } else if batch <= 8 {
            Kernel::GemvBatchI8B8
        } else {
            Kernel::GemvBatchI8B16
        };
        Ok(blocks(kernel, math::div_ceil(rows, WARPS), 1, 0))
    }

    /// Fused SwiGLU: `silu(gate x) * (up x)` in one kernel. The two weights must be
    /// stored alike.
    pub fn mlp_swiglu(gate: Precision, up: Precision, rows: usize) -> (r: Result<Launch, String>)
        requires
            rows <= u32::MAX,
        ensures
            match r {
                Ok(l) => gate == up && l == (match gate {
                    Precision::Int8 => reduction(
                        Kernel::MlpSwigluI8,
                        math::ceil_div(rows as nat, WARPS as nat) as int,
                        1,
                        0,
                    ),
                    Precision::F32 => reduction(Kernel::MlpSwigluF32, rows as int, 1, 0),
                }),
                Err(m) => gate != up && m@ == "gate and up must share a precision"@,
            },
    {
        match (gate, up) {
            (Precision::Int8, Precision::Int8) => Ok(
                blocks(Kernel::MlpSwigluI8, math::div_ceil(rows, WARPS), 1, 0),
            ),
            (Precision::F32, Precision::F32) => Ok(blocks(Kernel::MlpSwigluF32, rows, 1, 0)),
            _ => Err("gate and up must share a precision".to_owned()),
        }
    }

    /// Row-wise argmax: `[rows, cols]` floats to `[rows]` ids.
    pub fn argmax_rows(rows: usize) -> (l: Launch)
        requires
            rows <= u32::MAX,
        ensures
            l == reduction(Kernel::ArgmaxRows, rows as int, 1, 0),
    {
        blocks(Kernel::ArgmaxRows, rows, 1, 0)
    }

    /// RMSNorm of one vector.
    pub fn rmsnorm() -> (l: Launch)
        ensures
            l == reduction(Kernel::RmsNorm, 1, 1, 0),
    {
        blocks(Kernel::RmsNorm, 1, 1, 0)
    }

    /// Softmax of one vector.
    pub fn softmax() -> (l: Launch)
        ensures
            l == reduction(Kernel::Softmax, 1, 1, 0),
    {
        blocks(Kernel::Softmax, 1, 1, 0)
    }

    /// RMSNorm over every row: one launch instead of one per token.
    pub fn rmsnorm_batch(rows: usize) -> (l: Launch)
        requires
            rows <= u32::MAX,
        ensures
            l == reduction(Kernel::RmsNormBatch, rows as int, 1, 0),
    {
        blocks(Kernel::RmsNormBatch, rows, 1, 0)
    }

    /// Rotary embedding of one token: a thread per rotated pair.
    pub fn rope_at(n_heads: usize, head_dim: usize) -> (l: Launch)
        requires
            n_heads * head_dim <= u32::MAX,
        ensures
            l == elementwise(Kernel::Rope, (n_heads * head_dim) / 2),
    {
        elems(Kernel::Rope, n_heads * head_dim / 2)
    }

    /// Rotary embedding of consecutive rows, starting at one position.
    pub fn rope_batch(rows: usize, n_heads: usize, head_dim: usize) -> (l: Launch)
        requires
            rows * n_heads <= u32::MAX,
            rows * n_heads * head_dim <= u32::MAX,
        ensures
            l == elementwise(Kernel::RopeBatch, (rows * n_heads * head_dim) / 2),
    {
        elems(Kernel::RopeBatch, rows * n_heads * head_dim / 2)
    }

    /// Rotary embedding with a position per row.
    pub fn rope_rows(rows: usize, n_heads: usize, head_dim: usize) -> (l: Launch)
        requires
            rows * n_heads <= u32::MAX,
            rows * n_heads * head_dim <= u32::MAX,
        ensures
            l == elementwise(Kernel::RopeRows, (rows * n_heads * head_dim) / 2),
    {
        elems(Kernel::RopeRows, rows * n_heads * head_dim / 2)
    }

    /// One embedding row into the residual stream.
    pub fn embed(p: Precision, d: usize) -> (l: Launch)
        requires
            d <= u32::MAX,
        ensures
            l == elementwise(
                match p {
                    Precision::F32 => Kernel::Embed,
                    Precision::Int8 => Kernel::EmbedI8,
                },
                d as int,
            ),
    {
        match p {
            Precision::F32 => elems(Kernel::Embed, d),
            Precision::Int8 => elems(Kernel::EmbedI8, d),
        }
    }

    /// One embedding row per token.
    pub fn embed_batch(p: Precision, rows: usize, d: usize) -> (l: Launch)
        requires
            rows * d <= u32::MAX,
        ensures
            l == elementwise(
                match p {
                    Precision::F32 => Kernel::EmbedBatchF32,
                    Precision::Int8 => Kernel::EmbedBatchI8,
                },
                rows * d,
            ),
    {
        match p {
            Precision::F32 => elems(Kernel::EmbedBatchF32, rows * d),
            Precision::Int8 => elems(Kernel::EmbedBatchI8, rows * d),
        }
    }

    /// `dst += src`.
    pub fn add_inplace(n: usize) -> (l: Launch)
        requires
            n <= u32::MAX,
        ensures
            l == elementwise(Kernel::AddInplace, n as int),
    {
        elems(Kernel::AddInplace, n)
    }

    /// `gate = silu(gate) * up`.
    pub fn silu_mul(n: usize) -> (l: Launch)
        requires
            n <= u32::MAX,
        ensures
            l == elementwise(Kernel::SiluMul, n as int),
    {
        elems(Kernel::SiluMul, n)
    }

    /// `gate = silu(gate) * up` over every row of a batch.
    pub fn swiglu_batch(n: usize) -> (l: Launch)
        requires
            n <= u32::MAX,
        ensures
            l == elementwise(Kernel::SwigluBatch, n as int),
    {
        elems(Kernel::SwigluBatch, n)
    }

    /// Freshly computed K or V rows into a layer's contiguous cache region.
    pub fn cache_store(rows: usize, kv_dim: usize) -> (l: Launch)
        requires
            rows * kv_dim <= u32::MAX,
        ensures
            l == elementwise(Kernel::CacheStore, rows * kv_dim),
    {
        elems(Kernel::CacheStore, rows * kv_dim)
    }

    /// A dense block of rows of one request into its pages.
    pub fn cache_store_paged(rows: usize, kv_dim: usize) -> (l: Launch)
        requires
            rows * kv_dim <= u32::MAX,
        ensures
            l == elementwise(Kernel::CacheStorePaged, rows * kv_dim),
    {
        elems(Kernel::CacheStorePaged, rows * kv_dim)
    }

    /// One row per request into each request's own page.
    pub fn cache_store_rows_paged(rows: usize, kv_dim: usize) -> (l: Launch)
        requires
            rows * kv_dim <= u32::MAX,
        ensures
            l == elementwise(Kernel::CacheStoreRowsPaged, rows * kv_dim),
    {
        elems(Kernel::CacheStoreRowsPaged, rows * kv_dim)
    }

    /// Single-token attention over the contiguous cache, one block per head. Shared
    /// memory is sized for the longest context, which a captured graph freezes.
    pub fn attention_decode(n_head: usize, head_dim: usize, max_seq: usize) -> (l: Launch)
        requires
            n_head <= u32::MAX,
            score_bytes(max_seq as int, head_dim as int) <= u32::MAX,
        ensures
            l == reduction(
                Kernel::AttentionDecode,
                n_head as int,
                1,
                score_bytes(max_seq as int, head_dim as int),
            ),
    {
        blocks(Kernel::AttentionDecode, n_head, 1, (max_seq + WARPS * head_dim) * 4)
    }

    /// Single-token attention over pages, one page table and length per request.
    pub fn attention_decode_paged(
        batch: usize,
        n_head: usize,
        head_dim: usize,
        max_seq: usize,
    ) -> (l: Launch)
        requires
            n_head <= u32::MAX,
            batch <= u32::MAX,
            score_bytes(max_seq as int, head_dim as int) <= u32::MAX,
        ensures
            l == reduction(
                Kernel::AttentionDecodePaged,
                n_head as int,
                batch as int,
                score_bytes(max_seq as int, head_dim as int),
            ),
    {
        blocks(Kernel::AttentionDecodePaged, n_head, batch, (max_seq + WARPS * head_dim) * 4)
    }

    /// Causal attention over a prompt in the contiguous cache: one block per head
    /// and position.
    pub fn attention_prefill(rows: usize, n_head: usize, max_seq: usize) -> (l: Launch)
        requires
            n_head <= u32::MAX,
            rows <= u32::MAX,
            max_seq * 4 <= u32::MAX,
        ensures
            l == reduction(Kernel::AttentionPrefill, n_head as int, rows as int, max_seq * 4),
    {
        blocks(Kernel::AttentionPrefill, n_head, rows, max_seq * 4)
    }

    /// Causal attention over a prompt in pages.
    pub fn attention_prefill_paged(rows: usize, n_head: usize, max_seq: usize) -> (l: Launch)
        requires
            n_head <= u32::MAX,
            rows <= u32::MAX,
            max_seq * 4 <= u32::MAX,
        ensures
            l == reduction(Kernel::AttentionPrefillPaged, n_head as int, rows as int, max_seq * 4),
    {
        blocks(Kernel::AttentionPrefillPaged, n_head, rows, max_seq * 4)
    }

    /// Attention split across position chunks: each block reduces one chunk into a
    /// partial softmax, then one block per head combines them.
    pub fn attention_split(n_head: usize, head_dim: usize, capacity: usize) -> (l: (Launch, Launch))
        requires
            n_head <= u32::MAX,
            capacity <= u32::MAX,
            score_bytes(ATTN_CHUNK as int, head_dim as int) <= u32::MAX,
        ensures
            l.0 == reduction(
                Kernel::AttentionPartial,
                n_head as int,
                math::ceil_div(capacity as nat, ATTN_CHUNK as nat) as int,
                score_bytes(ATTN_CHUNK as int, head_dim as int),
            ),
            l.1 == reduction(Kernel::AttentionCombine, n_head as int, 1, 0),
    {
        let partial = blocks(
            Kernel::AttentionPartial,
            n_head,
            attn_chunks(capacity),
            (ATTN_CHUNK + WARPS * head_dim) * 4,
        );
        (partial, blocks(Kernel::AttentionCombine, n_head, 1, 0))
    }
}

/// Every element of a GEMM's result lies in a block of its grid, and every
/// block of the grid holds one, whichever tile is chosen.
pub proof fn law_gemm_grid_is_exact(g: Gpu, p: Precision, m: nat, n: nat)
    requires
        0 < m <= u32::MAX,
        0 < n <= u32::MAX,
    ensures
        ({
            let grid = g.gemm_launch(p, m, n).geometry->grid;
            let tall: nat = if !g.use_wmma {
                TILE as nat
            } else if g.takes_big(m, n) {
                64
            } else {
                16
            };
            let wide: nat = if g.use_wmma {
                64
            } else {
                TILE as nat
            };
            &&& (grid.grid_x - 1) * wide < n <= grid.grid_x * wide
            &&& (grid.grid_y - 1) * tall < m <= grid.grid_y * tall
        }),
{
    math::lemma_ceil_div(n, 64);
    math::lemma_ceil_div(m, 64);
    math::lemma_ceil_div(m, 16);
    math::lemma_ceil_div(n, 16);
}

/// Every output row of a warp-per-row launch has its warp.
pub proof fn law_warps_cover_rows(rows: nat)
    requires
        rows <= u32::MAX,
    ensures
        math::ceil_div(rows, WARPS as nat) * WARPS >= rows,
        math::ceil_div(rows, WARPS as nat) * WARPS < rows + WARPS,
{
    math::lemma_ceil_div(rows, WARPS as nat);
}

/// The chosen instantiation covers the batch, and a smaller one would not.
pub proof fn law_smallest_instantiation_covers(batch: nat)
    requires
        1 <= batch <= GEMV_BATCH_MAX,
    ensures
        rows_read(covering(batch)) >= batch,
        forall|k: Kernel|
            #[trigger] rows_read(k) >= batch ==> rows_read(k) >= rows_read(covering(batch)),
{
}

/// The token a row of logits selects: the greatest logit, the lowest index
/// among equal ones. A NaN never displaces a number, and nothing displaces a
/// NaN in the first place.
pub open spec fn selects(v: Seq<F32Bits>, best: int) -> bool {
    &&& 0 <= best < v.len()
    &&& v[0].nan() ==> best == 0
    &&& !v[0].nan() ==> {
        &&& !v[best].nan()
        &&& forall|i: int| 0 <= i < v.len() ==> !(#[trigger] v[i]).greater(v[best])
        &&& forall|i: int| 0 <= i < best ==> (#[trigger] v[i]).nan() || v[best].greater(v[i])
    }
}

/// Row-wise argmax on the host, the rule the device kernel is held to.
pub fn host_argmax(v: &[F32Bits]) -> (best: usize)
    requires
        v@.len() > 0,
    ensures
        selects(v@, best as int),
{
    let mut best: usize = 0;
    let mut i: usize = 0;
    while i < v.len()
        invariant
            i <= v@.len(),
            best < v@.len(),
            i == 0 ==> best == 0,
            i > 0 ==> best < i,
            v@[0].nan() ==> best == 0,
            !v@[0].nan() ==> !v@[best as int].nan(),
            !v@[0].nan() ==> forall|k: int| 0 <= k < i ==> !(#[trigger] v@[k]).greater(v@[best as int]),
            !v@[0].nan() ==> forall|k: int|
                0 <= k < best ==> (#[trigger] v@[k]).nan() || v@[best as int].greater(v@[k]),
        decreases v@.len() - i,
    {
        if v[i].gt(v[best]) {
            best = i;
        }
        i += 1;
    }
    best
}

/// The rule leaves nothing open: a row selects one token.
pub proof fn law_selection_is_unique(v: Seq<F32Bits>, a: int, b: int)
    requires
        selects(v, a),
        selects(v, b),
    ensures
        a == b,
{
    if !v[0].nan() {
        assert(!v[a].greater(v[b]) && !v[b].greater(v[a]));
    }
}

/// The precision of the weights that a projection's kernel reads.
pub open spec fn weights_of(k: Kernel) -> Option<Precision> {
    match k {
        Kernel::GemvI8 | Kernel::GemvI8Vec4 | Kernel::GemvI8Warp | Kernel::MlpSwigluI8 | Kernel::GemmI8
        | Kernel::GemmI8Wmma | Kernel::GemmI8WmmaBig | Kernel::EmbedBatchI8 | Kernel::EmbedI8
        | Kernel::GemvBatchI8B1 | Kernel::GemvBatchI8B2 | Kernel::GemvBatchI8B4 | Kernel::GemvBatchI8B8
        | Kernel::GemvBatchI8B16 => Some(Precision::Int8),
        Kernel::Gemv | Kernel::GemvVec4 | Kernel::GemvWarp | Kernel::MlpSwigluF32 | Kernel::GemmF32
        | Kernel::GemmF32Wmma | Kernel::GemmF32WmmaBig | Kernel::EmbedBatchF32 | Kernel::Embed => Some(
            Precision::F32,
        ),
        _ => None,
    }
}

/// Whichever kernel a projection is given reads weights of the precision they are
/// stored in, and four at a time only where the width allows it.
pub proof fn law_kernels_read_their_weights(g: Gpu, p: Precision, m: nat, n: nat, rows: nat, cols: nat, batch: nat)
    ensures
        weights_of(g.gemm_launch(p, m, n).kernel) == Some(p),
        weights_of(gemv_i8_launch(rows, cols).kernel) == Some(Precision::Int8),
        cols % 4 != 0 ==> gemv_i8_launch(rows, cols).kernel == Kernel::GemvI8,
        weights_of(covering(batch)) == Some(Precision::Int8),
{
}

/// Every output row of an int8 product with one vector has a block, or a warp of
/// one, and no block is without a row.
pub proof fn law_gemv_grid_is_exact(rows: nat, cols: nat)
    requires
        0 < rows <= u32::MAX,
    ensures
        ({
            let l = gemv_i8_launch(rows, cols);
            let each: nat = if l.kernel == Kernel::GemvI8Warp {
                WARPS as nat
            } else {
                1
            };
            let grid = l.geometry->grid;
            &&& (grid.grid_x - 1) * each < rows <= grid.grid_x * each
            &&& grid.grid_y == 1
        }),
{
    math::lemma_ceil_div(rows, WARPS as nat);
}

/// A tile is chosen by the device alone: tensor cores are used unless they are
/// turned off, and a larger tile never where it would leave multiprocessors idle,
/// unless it is pinned.
pub proof fn law_large_tiles_keep_the_device_busy(g: Gpu, p: Precision, m: nat, n: nat)
    requires
        g.tile == Tile::Auto,
        g.use_wmma,
    ensures
        ({
            let k = g.gemm_launch(p, m, n).kernel;
            (k == Kernel::GemmI8WmmaBig || k == Kernel::GemmF32WmmaBig) <==> math::ceil_div(m, 64)
                * math::ceil_div(n, 64) >= 2 * g.sm_count
        }),
{
}

/// A precision has two names, and nothing else names one.
pub proof fn law_precisions_are_named(s: Seq<char>)
    ensures
        Precision::parsed(s) == Some(Precision::F32) <==> s == "f32"@ || s == "fp32"@,
        Precision::parsed(s) == Some(Precision::Int8) <==> s == "int8"@ || s == "i8"@,
{
    reveal_strlit("f32");
    reveal_strlit("fp32");
    reveal_strlit("int8");
    reveal_strlit("i8");
    assert("f32"@[0] == 'f' && "fp32"@[0] == 'f' && "int8"@[0] == 'i' && "i8"@[0] == 'i');
}

/// No two kernels are compiled under one symbol.
#[verifier::rlimit(50)]
pub proof fn law_symbols_are_distinct(a: Kernel, b: Kernel)
    requires
        a != b,
    ensures
        a.symbol() != b.symbol(),
{
    reveal_strlit("gemv_f32");
    reveal_strlit("gemv_f32_vec4");
    reveal_strlit("rmsnorm_f32");
    reveal_strlit("rope_f32");
    reveal_strlit("add_inplace_f32");
    reveal_strlit("silu_mul_f32");
    reveal_strlit("softmax_f32");
    reveal_strlit("embed_f32");
    reveal_strlit("attention_decode_f32");
    reveal_strlit("gemv_i8_f32");
    reveal_strlit("gemv_i8_f32_vec4");
    reveal_strlit("gemv_i8_f32_warp");
    reveal_strlit("gemv_f32_warp");
    reveal_strlit("mlp_swiglu_i8_warp");
    reveal_strlit("mlp_swiglu_f32");
    reveal_strlit("attention_partial_f32");
    reveal_strlit("attention_combine_f32");
    reveal_strlit("gemm_i8_f32");
    reveal_strlit("gemm_f32");
    reveal_strlit("gemm_i8_wmma");
    reveal_strlit("gemm_f32_wmma");
    reveal_strlit("gemm_i8_wmma_big");
    reveal_strlit("gemm_f32_wmma_big");
    reveal_strlit("rmsnorm_batch_f32");
    reveal_strlit("rope_batch_f32");
    reveal_strlit("swiglu_batch_f32");
    reveal_strlit("embed_batch_f32");
    reveal_strlit("embed_batch_i8");
    reveal_strlit("cache_store_f32");
    reveal_strlit("attention_prefill_f32");
    reveal_strlit("cache_store_paged_f32");
    reveal_strlit("argmax_rows_f32");
    reveal_strlit("gemv_batch_i8_b1");
    reveal_strlit("gemv_batch_i8_b2");
    reveal_strlit("gemv_batch_i8_b4");
    reveal_strlit("gemv_batch_i8_b8");
    reveal_strlit("gemv_batch_i8_b16");
    reveal_strlit("rope_rows_f32");
    reveal_strlit("cache_store_rows_paged_f32");
    reveal_strlit("attention_decode_paged_f32");
    reveal_strlit("attention_prefill_paged_f32");
    reveal_strlit("embed_i8");
    let x = a.symbol();
    let y = b.symbol();
    if x == y {
        assert(x.len() == y.len());
        assert(x[3] == y[3] && x[6] == y[6] && x[9] == y[9] && x[15] == y[15]);
    }
}

} // verus!
