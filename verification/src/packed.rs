//! Packing prompt chunks of several requests into one pass.
//!
//! Every projection sees the rows of all chunks at once, while rotation, KV
//! writes and attention route each row by its owner and position. All bounds
//! and page aliases are checked before anything is written to the device.
use crate::gpu::TOPK_MAX;
use crate::gpu_error::GpuError;
use crate::math;
use crate::paged::PAGE_TOKENS;
use vstd::prelude::*;

verus! {

/// A transient view of one request's contiguous prompt chunk.
#[derive(Debug, Clone, Copy)]
pub struct PackedPrefillRequest<'a> {
    pub tokens: &'a [usize],
    pub page_table: &'a [i32],
    pub pos_offset: usize,
    pub want_logits: bool,
}

/// What a chunk is.
pub ghost struct ChunkView {
    pub tokens: Seq<usize>,
    pub page_table: Seq<i32>,
    pub pos_offset: nat,
    pub want_logits: bool,
}

impl<'a> View for PackedPrefillRequest<'a> {
    type V = ChunkView;

    open spec fn view(&self) -> ChunkView {
        ChunkView {
            tokens: self.tokens@,
            page_table: self.page_table@,
            pos_offset: self.pos_offset as nat,
            want_logits: self.want_logits,
        }
    }
}

impl ChunkView {
    /// One past the chunk's last position.
    pub open spec fn end(self) -> nat {
        self.pos_offset + self.tokens.len()
    }

    /// The pages that hold the chunk and everything before it.
    pub open spec fn pages(self) -> Seq<i32> {
        self.page_table.take(math::ceil_div(self.end(), PAGE_TOKENS as nat) as int)
    }
}

/// The chunks of a call.
pub open spec fn views(chunks: Seq<PackedPrefillRequest<'_>>) -> Seq<ChunkView> {
    chunks.map_values(|c: PackedPrefillRequest<'_>| c@)
}

/// What bounds a packed call.
#[derive(Debug, Clone, Copy, PartialEq, Eq, Structural)]
pub struct PackedLimits {
    pub use_paged: bool,
    /// Positions a sequence may have.
    pub capacity: usize,
    /// Rows of all chunks together.
    pub tokens: usize,
    pub requests: usize,
    pub table_stride: usize,
    /// Slots of the page table and selection buffers.
    pub max_batch: usize,
    pub vocab: usize,
    pub n_pages: usize,
}

impl PackedLimits {
    /// The limits of a model; where it takes requests, its buffers are there.
    pub open spec fn wf(self) -> bool {
        &&& self.tokens <= self.capacity
        &&& self.tokens <= i32::MAX
        &&& self.requests <= self.max_batch
        &&& self.max_batch <= 16
        &&& self.requests > 0 ==> self.table_stride == math::ceil_div(
            self.capacity as nat,
            PAGE_TOKENS as nat,
        )
        &&& self.max_batch * self.table_stride <= usize::MAX
    }
}

// ---------------------------------------------------------------------------
// What is refused.

/// Whether a page is one of the pool's.
pub open spec fn in_pool(lim: PackedLimits, page: i32) -> bool {
    0 <= page < lim.n_pages
}

/// The first page that is not the pool's, or that is taken already.
pub open spec fn page_error(lim: PackedLimits, taken: Seq<i32>, pages: Seq<i32>) -> Option<GpuError>
    decreases pages.len(),
{
    if pages.len() == 0 {
        None
    } else if !in_pool(lim, pages[0]) {
        Some(GpuError::PackedPage { page: pages[0] })
    } else if taken.contains(pages[0]) {
        Some(GpuError::PackedAlias { page: pages[0] })
    } else {
        page_error(lim, taken.push(pages[0]), pages.skip(1))
    }
}

/// Whether a token is one the model knows and the kernels index.
pub open spec fn known(lim: PackedLimits, token: usize) -> bool {
    token < lim.vocab && token <= i32::MAX
}

/// The first token the model does not know.
pub open spec fn token_error(lim: PackedLimits, tokens: Seq<usize>) -> Option<GpuError>
    decreases tokens.len(),
{
    if tokens.len() == 0 {
        None
    } else if !known(lim, tokens[0]) {
        Some(GpuError::PackedToken { token: tokens[0], vocab: lim.vocab })
    } else {
        token_error(lim, tokens.skip(1))
    }
}

/// Why a chunk is refused, if it is, after `rows` rows and the pages `taken`.
pub open spec fn chunk_error(
    lim: PackedLimits,
    c: ChunkView,
    rows: nat,
    taken: Seq<i32>,
) -> Option<GpuError> {
    if c.end() > usize::MAX {
        Some(GpuError::PackedPosition)
    } else if rows + c.tokens.len() > usize::MAX {
        Some(GpuError::PackedRows)
    } else if c.tokens.len() == 0 || c.end() > lim.capacity || c.end() > i32::MAX || rows
        + c.tokens.len() > lim.tokens {
        Some(GpuError::PackedCapacity { tokens: lim.tokens })
    } else if c.page_table.len() != lim.table_stride {
        Some(GpuError::PackedTable { want: lim.table_stride })
    } else if page_error(lim, taken, c.pages()) is Some {
        page_error(lim, taken, c.pages())
    } else {
        token_error(lim, c.tokens)
    }
}

/// Rows of the first `n` chunks: where the next chunk starts.
pub open spec fn rows_before(chunks: Seq<ChunkView>, n: nat) -> nat
    decreases n,
{
    if n == 0 {
        0
    } else {
        rows_before(chunks, (n - 1) as nat) + chunks[n - 1].tokens.len()
    }
}

/// Pages of the first `n` chunks.
pub open spec fn pages_before(chunks: Seq<ChunkView>, n: nat) -> Seq<i32>
    decreases n,
{
    if n == 0 {
        Seq::empty()
    } else {
        pages_before(chunks, (n - 1) as nat) + chunks[n - 1].pages()
    }
}

/// The first chunk that is refused, from chunk `n` on.
pub open spec fn chunks_error(lim: PackedLimits, chunks: Seq<ChunkView>, n: nat) -> Option<GpuError>
    decreases chunks.len() - n,
{
    if n >= chunks.len() {
        None
    } else {
        let e = chunk_error(lim, chunks[n as int], rows_before(chunks, n), pages_before(chunks, n));
        if e is Some {
            e
        } else {
            chunks_error(lim, chunks, n + 1)
        }
    }
}

/// Among the first `n` chunks, how many want logits.
pub open spec fn finals_before(chunks: Seq<ChunkView>, n: nat) -> nat
    decreases n,
{
    if n == 0 {
        0
    } else {
        finals_before(chunks, (n - 1) as nat) + if chunks[n - 1].want_logits {
            1nat
        } else {
            0
        }
    }
}

/// The last packed row of each of the first `n` chunks that want logits.
pub open spec fn final_rows(chunks: Seq<ChunkView>, n: nat) -> Seq<i32>
    decreases n,
{
    if n == 0 {
        Seq::empty()
    } else if chunks[n - 1].want_logits {
        final_rows(chunks, (n - 1) as nat).push((rows_before(chunks, n) - 1) as i32)
    } else {
        final_rows(chunks, (n - 1) as nat)
    }
}

/// The first candidate request that is refused.
pub open spec fn topk_error(
    finals: usize,
    taken: Seq<usize>,
    rows: Seq<(usize, usize)>,
) -> Option<GpuError>
    decreases rows.len(),
{
    if rows.len() == 0 {
        None
    } else {
        let (row, k) = rows[0];
        if row >= finals || k == 0 || k > TOPK_MAX {
            Some(GpuError::PackedTopK { row, k, finals })
        } else if taken.contains(row) {
            Some(GpuError::PackedTwice { row })
        } else {
            topk_error(finals, taken.push(row), rows.skip(1))
        }
    }
}

/// The first full-logit request that is refused.
pub open spec fn full_error(finals: usize, taken: Seq<usize>, rows: Seq<usize>) -> Option<GpuError>
    decreases rows.len(),
{
    if rows.len() == 0 {
        None
    } else if rows[0] >= finals || taken.contains(rows[0]) {
        Some(GpuError::PackedFull { row: rows[0] })
    } else {
        full_error(finals, taken.push(rows[0]), rows.skip(1))
    }
}

/// The rows that ask for candidates.
pub open spec fn topk_rows_of(rows: Seq<(usize, usize)>) -> Seq<usize> {
    rows.map_values(|r: (usize, usize)| r.0)
}

/// Why a packed call is refused, if it is: the first reason, in the order they
/// are checked.
pub open spec fn verdict(
    lim: PackedLimits,
    chunks: Seq<ChunkView>,
    topk_rows: Seq<(usize, usize)>,
    full_rows: Seq<usize>,
) -> Option<GpuError> {
    let finals = finals_before(chunks, chunks.len());
    if !lim.use_paged {
        Some(GpuError::PackedNeedsPaging)
    } else if chunks.len() == 0 || chunks.len() > lim.requests {
        Some(GpuError::PackedRequests { max: lim.requests, got: chunks.len() as usize })
    } else if lim.table_stride > i32::MAX {
        Some(GpuError::PackedStride)
    } else if chunks_error(lim, chunks, 0) is Some {
        chunks_error(lim, chunks, 0)
    } else if finals * lim.vocab > i32::MAX {
        Some(GpuError::PackedLogits)
    } else if topk_error(finals as usize, Seq::empty(), topk_rows) is Some {
        topk_error(finals as usize, Seq::empty(), topk_rows)
    } else {
        full_error(finals as usize, topk_rows_of(topk_rows), full_rows)
    }
}

// ---------------------------------------------------------------------------
// What is uploaded.

/// The metadata of a packed call.
#[derive(Debug)]
pub struct PackedPlan {
    /// Rows of all chunks.
    pub rows: usize,
    /// Chunks that want logits.
    pub finals: usize,
    pub requests: usize,
    /// Longest chunk.
    pub max_chunk: usize,
    /// Longest history any chunk attends over.
    pub max_history: usize,
    /// Per row.
    pub tokens: Vec<i32>,
    pub owners: Vec<i32>,
    pub positions: Vec<i32>,
    /// Per chunk: first row, rows, first position, owner.
    pub segments: Vec<i32>,
    /// Per final chunk: its last row.
    pub final_rows: Vec<i32>,
    /// One page table per slot; unused slots hold zeros.
    pub tables: Vec<i32>,
    /// Candidates per slot; zero where a row asks for none.
    pub row_k: Vec<i32>,
}

/// Whether row `r` of a plan is row `k` of chunk `i`.
pub open spec fn is_row(chunks: Seq<ChunkView>, r: int, i: int, k: int) -> bool {
    &&& 0 <= i < chunks.len()
    &&& 0 <= k < chunks[i].tokens.len()
    &&& r == rows_before(chunks, i as nat) + k
}

/// Whether chunk `i` has its descriptor.
pub open spec fn is_segment(segments: Seq<i32>, chunks: Seq<ChunkView>, i: int) -> bool {
    &&& segments[4 * i] == rows_before(chunks, i as nat)
    &&& segments[4 * i + 1] == chunks[i].tokens.len()
    &&& segments[4 * i + 2] == chunks[i].pos_offset
    &&& segments[4 * i + 3] == i
}

/// The longest of the first `n` chunks.
pub open spec fn longest(chunks: Seq<ChunkView>, n: nat) -> nat
    decreases n,
{
    if n == 0 {
        0
    } else {
        let m = longest(chunks, (n - 1) as nat);
        if chunks[n - 1].tokens.len() > m {
            chunks[n - 1].tokens.len()
        } else {
            m
        }
    }
}

/// The furthest position of the first `n` chunks.
pub open spec fn furthest(chunks: Seq<ChunkView>, n: nat) -> nat
    decreases n,
{
    if n == 0 {
        0
    } else {
        let m = furthest(chunks, (n - 1) as nat);
        if chunks[n - 1].end() > m {
            chunks[n - 1].end()
        } else {
            m
        }
    }
}

/// The candidates a list asks of a row: those of its last entry.
pub open spec fn candidates(rows: Seq<(usize, usize)>, row: int) -> int
    decreases rows.len(),
{
    if rows.len() == 0 {
        0
    } else if rows.last().0 == row {
        rows.last().1 as int
    } else {
        candidates(rows.drop_last(), row)
    }
}

impl PackedPlan {
    /// Whether this is the metadata of a call.
    pub open spec fn describes(
        self,
        lim: PackedLimits,
        chunks: Seq<ChunkView>,
        topk_rows: Seq<(usize, usize)>,
    ) -> bool {
        let n = chunks.len();
        &&& self.rows == rows_before(chunks, n)
        &&& self.finals == finals_before(chunks, n)
        &&& self.requests == n
        &&& self.max_chunk == longest(chunks, n)
        &&& self.max_history == furthest(chunks, n)
        &&& self.tokens@.len() == self.rows
        &&& self.owners@.len() == self.rows
        &&& self.positions@.len() == self.rows
        &&& self.rows_match(chunks, n)
        &&& self.segments@.len() == 4 * n
        &&& self.segments_match(chunks, n)
        &&& self.final_rows@ == final_rows(chunks, n)
        &&& self.tables@.len() == lim.max_batch * lim.table_stride
        &&& self.tables_match(lim, chunks, n)
        &&& self.row_k@.len() == lim.max_batch
        &&& forall|r: int|
            0 <= r < lim.max_batch ==> #[trigger] self.row_k@[r] == candidates(topk_rows, r)
    }

    /// Each row of the first `n` chunks carries its token, owner and position.
    pub open spec fn rows_match(self, chunks: Seq<ChunkView>, n: nat) -> bool {
        forall|r: int, i: int, k: int|
            #![trigger is_row(chunks, r, i, k)]
            i < n && is_row(chunks, r, i, k) ==> {
                &&& self.tokens@[r] == chunks[i].tokens[k]
                &&& self.owners@[r] == i
                &&& self.positions@[r] == chunks[i].pos_offset + k
            }
    }

    /// Each of the first `n` chunks has its descriptor.
    pub open spec fn segments_match(self, chunks: Seq<ChunkView>, n: nat) -> bool {
        forall|i: int| 0 <= i < n ==> #[trigger] is_segment(self.segments@, chunks, i)
    }

    /// Each of the first `n` slots holds its chunk's page table, the rest zeros.
    pub open spec fn tables_match(self, lim: PackedLimits, chunks: Seq<ChunkView>, n: nat) -> bool {
        forall|i: int, j: int|
            #![trigger self.tables@[i * lim.table_stride + j]]
            0 <= i < lim.max_batch && 0 <= j < lim.table_stride ==> self.tables@[i
                * lim.table_stride + j] == (if i < n {
                chunks[i].page_table[j]
            } else {
                0
            })
    }
}

// ---------------------------------------------------------------------------
// Packing.

/// Whether flags mark exactly the pages that are taken.
spec fn marks(flags: Seq<bool>, taken: Seq<i32>) -> bool {
    forall|p: int|
        0 <= p < flags.len() && p <= i32::MAX ==> #[trigger] flags[p] == taken.contains(p as i32)
}

/// Take pages in order, up to the first that is refused.
fn claim(
    lim: &PackedLimits,
    flags: &mut Vec<bool>,
    table: &[i32],
    count: usize,
    Ghost(taken): Ghost<Seq<i32>>,
) -> (r: Result<(), GpuError>)
    requires
        count <= table@.len(),
        old(flags)@.len() == lim.n_pages,
        marks(old(flags)@, taken),
    ensures
        final(flags)@.len() == lim.n_pages,
        match r {
            Ok(()) => page_error(*lim, taken, table@.take(count as int)) is None && marks(
                final(flags)@,
                taken + table@.take(count as int),
            ),
            Err(e) => page_error(*lim, taken, table@.take(count as int)) == Some(e),
        },
{
    let ghost pages = table@.take(count as int);
    let mut j: usize = 0;
    proof {
        assert(taken + pages.take(0) =~= taken);
        assert(pages.skip(0) =~= pages);
    }
    while j < count
        invariant
            j <= count <= table@.len(),
            pages == table@.take(count as int),
            flags@.len() == lim.n_pages,
            marks(flags@, taken + pages.take(j as int)),
            page_error(*lim, taken, pages) == page_error(
                *lim,
                taken + pages.take(j as int),
                pages.skip(j as int),
            ),
        decreases count - j,
    {
        let page: i32 = table[j];
        let ghost have = taken + pages.take(j as int);
        assert(pages.skip(j as int)[0] == page);
        if page < 0 || page as usize >= flags.len() {
            return Err(GpuError::PackedPage { page });
        }
        if flags[page as usize] {
            assert(flags@[page as int] == have.contains(page));
            return Err(GpuError::PackedAlias { page });
        }
        let ghost before = flags@;
        flags.set(page as usize, true);
        proof {
            assert(before[page as int] == have.contains(page));
            let now = taken + pages.take(j + 1);
            assert(now =~= have.push(page));
            assert(pages.skip(j as int).skip(1) =~= pages.skip(j + 1));
            assert forall|p: int| 0 <= p < flags@.len() && p <= i32::MAX implies #[trigger] flags@[p]
                == now.contains(p as i32) by {
                if p == page {
                    assert(now[now.len() - 1] == page);
                } else {
                    assert(flags@[p] == before[p]);
                    if have.contains(p as i32) {
                        let x = choose|x: int| 0 <= x < have.len() && have[x] == p as i32;
                        assert(now[x] == p as i32);
                    }
                    if now.contains(p as i32) {
                        let x = choose|x: int| 0 <= x < now.len() && now[x] == p as i32;
                        assert(x < have.len());
                        assert(have[x] == p as i32);
                    }
                }
            }
        }
        j += 1;
    }
    assert(pages.take(count as int) =~= pages);
    Ok(())
}

/// Append a chunk's rows, up to the first token that is refused.
fn append_rows(
    lim: &PackedLimits,
    c: &PackedPrefillRequest<'_>,
    owner: usize,
    tokens: &mut Vec<i32>,
    owners: &mut Vec<i32>,
    positions: &mut Vec<i32>,
) -> (r: Result<(), GpuError>)
    requires
        owner <= i32::MAX,
        c.pos_offset + c.tokens@.len() <= i32::MAX,
    ensures
        match r {
            Ok(()) => {
                &&& token_error(*lim, c.tokens@) is None
                &&& final(tokens)@ == old(tokens)@ + Seq::new(
                    c.tokens@.len(),
                    |k: int| c.tokens@[k] as i32,
                )
                &&& final(owners)@ == old(owners)@ + Seq::new(c.tokens@.len(), |k: int| owner as i32)
                &&& final(positions)@ == old(positions)@ + Seq::new(
                    c.tokens@.len(),
                    |k: int| (c.pos_offset + k) as i32,
                )
                &&& forall|k: int| 0 <= k < c.tokens@.len() ==> #[trigger] c.tokens@[k] <= i32::MAX
            },
            Err(e) => token_error(*lim, c.tokens@) == Some(e),
        },
{
    let ghost toks = c.tokens@;
    let mut k: usize = 0;
    assert(toks.skip(0) =~= toks);
    while k < c.tokens.len()
        invariant
            toks == c.tokens@,
            k <= toks.len(),
            owner <= i32::MAX,
            c.pos_offset + toks.len() <= i32::MAX,
            token_error(*lim, toks) == token_error(*lim, toks.skip(k as int)),
            tokens@ =~= old(tokens)@ + Seq::new(k as nat, |k: int| toks[k] as i32),
            owners@ =~= old(owners)@ + Seq::new(k as nat, |k: int| owner as i32),
            positions@ =~= old(positions)@ + Seq::new(k as nat, |k: int| (c.pos_offset + k) as i32),
            forall|j: int| 0 <= j < k ==> #[trigger] toks[j] <= i32::MAX,
        decreases toks.len() - k,
    {
        let token: usize = c.tokens[k];
        assert(toks.skip(k as int)[0] == token);
        if token >= lim.vocab || token > i32::MAX as usize {
            return Err(GpuError::PackedToken { token, vocab: lim.vocab });
        }
        assert(toks.skip(k as int).skip(1) =~= toks.skip(k + 1));
        tokens.push(token as i32);
        owners.push(owner as i32);
        positions.push((c.pos_offset + k) as i32);
        k += 1;
    }
    Ok(())
}

fn append_all(v: &mut Vec<i32>, more: &[i32])
    ensures
        final(v)@ == old(v)@ + more@,
{
    let mut i: usize = 0;
    while i < more.len()
        invariant
            i <= more@.len(),
            v@ =~= old(v)@ + more@.take(i as int),
        decreases more@.len() - i,
    {
        v.push(more[i]);
        i += 1;
    }
    assert(more@.take(i as int) =~= more@);
}

/// Append zeros up to a length.
pub(crate) fn pad_zeros(v: &mut Vec<i32>, len: usize)
    requires
        old(v)@.len() <= len,
    ensures
        final(v)@.len() == len,
        forall|i: int|
            0 <= i < len ==> #[trigger] final(v)@[i] == (if i < old(v)@.len() {
                old(v)@[i]
            } else {
                0
            }),
{
    while v.len() < len
        invariant
            old(v)@.len() <= v@.len() <= len,
            forall|i: int|
                0 <= i < v@.len() ==> #[trigger] v@[i] == (if i < old(v)@.len() {
                    old(v)@[i]
                } else {
                    0
                }),
        decreases len - v@.len(),
    {
        v.push(0);
    }
}

proof fn lemma_rows_grow(chunks: Seq<ChunkView>, i: nat, n: nat)
    requires
        i <= n <= chunks.len(),
    ensures
        rows_before(chunks, i) <= rows_before(chunks, n),
        finals_before(chunks, n) <= n,
        finals_before(chunks, i) <= finals_before(chunks, n),
    decreases n,
{
    if n > 0 {
        if i < n {
            lemma_rows_grow(chunks, i, (n - 1) as nat);
        } else {
            lemma_rows_grow(chunks, (n - 1) as nat, (n - 1) as nat);
        }
    }
}

/// Select final rows: candidates first, then full logits.
fn select(
    finals: usize,
    max_batch: usize,
    topk_rows: &[(usize, usize)],
    full_rows: &[usize],
) -> (r: Result<Vec<i32>, GpuError>)
    requires
        finals <= max_batch <= 16,
    ensures
        ({
            let e = topk_error(finals, Seq::empty(), topk_rows@);
            let f = full_error(finals, topk_rows_of(topk_rows@), full_rows@);
            match r {
                Ok(row_k) => {
                    &&& e is None
                    &&& f is None
                    &&& row_k@.len() == max_batch
                    &&& forall|x: int|
                        0 <= x < max_batch ==> #[trigger] row_k@[x] == candidates(topk_rows@, x)
                },
                Err(g) => if e is Some {
                    e == Some(g)
                } else {
                    f == Some(g)
                },
            }
        }),
{
    let mut row_k: Vec<i32> = Vec::new();
    pad_zeros(&mut row_k, max_batch);
    let mut used: Vec<bool> = Vec::new();
    while used.len() < max_batch
        invariant
            used@.len() <= max_batch,
            forall|x: int| 0 <= x < used@.len() ==> !(#[trigger] used@[x]),
        decreases max_batch - used@.len(),
    {
        used.push(false);
    }
    let ghost all = topk_rows@;
    let mut i: usize = 0;
    assert(all.skip(0) =~= all);
    assert(topk_rows_of(all.take(0)) =~= Seq::empty());
    while i < topk_rows.len()
        invariant
            all == topk_rows@,
            i <= all.len(),
            finals <= max_batch <= 16,
            used@.len() == max_batch,
            row_k@.len() == max_batch,
            topk_error(finals, Seq::empty(), all) == topk_error(
                finals,
                topk_rows_of(all.take(i as int)),
                all.skip(i as int),
            ),
            forall|x: int|
                0 <= x < max_batch ==> #[trigger] used@[x] == topk_rows_of(
                    all.take(i as int),
                ).contains(x as usize),
            forall|x: int|
                0 <= x < max_batch ==> #[trigger] row_k@[x] == candidates(all.take(i as int), x),
        decreases all.len() - i,
    {
        let (row, k) = topk_rows[i];
        let ghost have = topk_rows_of(all.take(i as int));
        assert(all.skip(i as int)[0] == all[i as int]);
        if row >= finals || k == 0 || k > TOPK_MAX {
            return Err(GpuError::PackedTopK { row, k, finals });
        }
        if used[row] {
            return Err(GpuError::PackedTwice { row });
        }
        let ghost used0 = used@;
        let ghost row_k0 = row_k@;
        used.set(row, true);
        row_k.set(row, k as i32);
        proof {
            let next = all.take(i + 1);
            assert(next.drop_last() =~= all.take(i as int));
            let now = topk_rows_of(next);
            assert(now =~= have.push(row));
            assert(all.skip(i as int).skip(1) =~= all.skip(i + 1));
            assert forall|x: int| 0 <= x < max_batch implies #[trigger] used@[x] == now.contains(
                x as usize,
            ) by {
                if x == row {
                    assert(now[now.len() - 1] == row);
                } else {
                    assert(used@[x] == used0[x]);
                    if have.contains(x as usize) {
                        let y = choose|y: int| 0 <= y < have.len() && have[y] == x as usize;
                        assert(now[y] == x as usize);
                    }
                    if now.contains(x as usize) {
                        let y = choose|y: int| 0 <= y < now.len() && now[y] == x as usize;
                        assert(have[y] == x as usize);
                    }
                }
            }
            assert forall|x: int| 0 <= x < max_batch implies #[trigger] row_k@[x] == candidates(
                next,
                x,
            ) by {
                if x != row {
                    assert(row_k@[x] == row_k0[x]);
                }
            }
        }
        i += 1;
    }
    assert(all.take(i as int) =~= all);
    let ghost rows = topk_rows_of(all);
    let ghost full = full_rows@;
    let mut j: usize = 0;
    assert(full.skip(0) =~= full);
    assert(rows + full.take(0) =~= rows);
    while j < full_rows.len()
        invariant
            full == full_rows@,
            rows == topk_rows_of(topk_rows@),
            topk_error(finals, Seq::empty(), topk_rows@) is None,
            j <= full.len(),
            finals <= max_batch,
            used@.len() == max_batch,
            full_error(finals, rows, full) == full_error(
                finals,
                rows + full.take(j as int),
                full.skip(j as int),
            ),
            forall|x: int|
                0 <= x < max_batch ==> #[trigger] used@[x] == (rows + full.take(
                    j as int,
                )).contains(x as usize),
        decreases full.len() - j,
    {
        let row: usize = full_rows[j];
        let ghost have = rows + full.take(j as int);
        assert(full.skip(j as int)[0] == row);
        if row >= finals || used[row] {
            return Err(GpuError::PackedFull { row });
        }
        let ghost used0 = used@;
        used.set(row, true);
        proof {
            let now = rows + full.take(j + 1);
            assert(now =~= have.push(row));
            assert(full.skip(j as int).skip(1) =~= full.skip(j + 1));
            assert forall|x: int| 0 <= x < max_batch implies #[trigger] used@[x] == now.contains(
                x as usize,
            ) by {
                if x == row {
                    assert(now[now.len() - 1] == row);
                } else {
                    assert(used@[x] == used0[x]);
                    if have.contains(x as usize) {
                        let y = choose|y: int| 0 <= y < have.len() && have[y] == x as usize;
                        assert(now[y] == x as usize);
                    }
                    if now.contains(x as usize) {
                        let y = choose|y: int| 0 <= y < now.len() && now[y] == x as usize;
                        assert(have[y] == x as usize);
                    }
                }
            }
        }
        j += 1;
    }
    Ok(row_k)
}

/// Append a chunk's descriptor.
fn append_segment(v: &mut Vec<i32>, start: usize, len: usize, pos: usize, owner: usize)
    requires
        start <= i32::MAX,
        len <= i32::MAX,
        pos <= i32::MAX,
        owner <= i32::MAX,
    ensures
        final(v)@ == old(v)@ + seq![start as i32, len as i32, pos as i32, owner as i32],
{
    v.push(start as i32);
    v.push(len as i32);
    v.push(pos as i32);
    v.push(owner as i32);
    assert(v@ =~= old(v)@ + seq![start as i32, len as i32, pos as i32, owner as i32]);
}

/// The rows of one more chunk.
proof fn lemma_rows_match(
    chunks: Seq<ChunkView>,
    n: nat,
    before: PackedPlan,
    after: PackedPlan,
)
    requires
        n < chunks.len(),
        before.rows_match(chunks, n),
        before.tokens@.len() == rows_before(chunks, n),
        before.owners@.len() == rows_before(chunks, n),
        before.positions@.len() == rows_before(chunks, n),
        chunks[n as int].pos_offset + chunks[n as int].tokens.len() <= i32::MAX,
        n <= i32::MAX,
        forall|k: int| 0 <= k < chunks[n as int].tokens.len() ==> #[trigger] chunks[n as int].tokens[k] <= i32::MAX,
        after.tokens@ == before.tokens@ + Seq::new(
            chunks[n as int].tokens.len(),
            |k: int| chunks[n as int].tokens[k] as i32,
        ),
        after.owners@ == before.owners@ + Seq::new(chunks[n as int].tokens.len(), |k: int| n as i32),
        after.positions@ == before.positions@ + Seq::new(
            chunks[n as int].tokens.len(),
            |k: int| (chunks[n as int].pos_offset + k) as i32,
        ),
    ensures
        after.rows_match(chunks, n + 1),
        after.tokens@.len() == rows_before(chunks, n + 1),
        after.owners@.len() == rows_before(chunks, n + 1),
        after.positions@.len() == rows_before(chunks, n + 1),
{
    let start = rows_before(chunks, n);
    assert forall|r: int, i: int, k: int|
        #![trigger is_row(chunks, r, i, k)]
        i < n + 1 && is_row(chunks, r, i, k) implies {
        &&& after.tokens@[r] == chunks[i].tokens[k]
        &&& after.owners@[r] == i
        &&& after.positions@[r] == chunks[i].pos_offset + k
    } by {
        if i < n {
            lemma_rows_grow(chunks, (i + 1) as nat, n);
            assert(r < start);
            assert(after.tokens@[r] == before.tokens@[r]);
            assert(after.owners@[r] == before.owners@[r]);
            assert(after.positions@[r] == before.positions@[r]);
        } else {
            assert(r == start + k);
            assert(after.tokens@[r] == chunks[n as int].tokens[k] as i32);
        }
    }
}

/// The page table of one more chunk.
proof fn lemma_tables_match(
    lim: PackedLimits,
    chunks: Seq<ChunkView>,
    n: nat,
    before: Seq<i32>,
    after: Seq<i32>,
)
    requires
        n < chunks.len(),
        before.len() == n * lim.table_stride,
        chunks[n as int].page_table.len() == lim.table_stride,
        after == before + chunks[n as int].page_table,
        filled(lim, chunks, n, before),
    ensures
        after.len() == (n + 1) * lim.table_stride,
        filled(lim, chunks, n + 1, after),
{
    let st = lim.table_stride as int;
    assert((n + 1) * st == n * st + st) by (nonlinear_arith);
    assert forall|i: int, j: int|
        #![trigger after[i * lim.table_stride + j]]
        0 <= i < n + 1 && 0 <= j < lim.table_stride implies after[i * lim.table_stride + j]
        == chunks[i].page_table[j] by {
        if i < n {
            assert((i + 1) * st <= n * st) by (nonlinear_arith)
                requires
                    i + 1 <= n,
                    st >= 0,
            ;
            assert((i + 1) * st == i * st + st) by (nonlinear_arith);
            assert(0 <= i * st) by (nonlinear_arith)
                requires
                    i >= 0,
                    st >= 0,
            ;
            assert(after[i * st + j] == before[i * st + j]);
        } else {
            assert(after[n * st + j] == chunks[n as int].page_table[j]);
        }
    }
}

/// Whether the first `n` slots hold their chunks' page tables.
spec fn filled(lim: PackedLimits, chunks: Seq<ChunkView>, n: nat, tables: Seq<i32>) -> bool {
    forall|i: int, j: int|
        #![trigger tables[i * lim.table_stride + j]]
        0 <= i < n && 0 <= j < lim.table_stride ==> tables[i * lim.table_stride + j]
            == chunks[i].page_table[j]
}

/// Unused slots hold zeros.
proof fn lemma_tables_padded(
    lim: PackedLimits,
    chunks: Seq<ChunkView>,
    n: nat,
    before: Seq<i32>,
    plan: PackedPlan,
)
    requires
        n <= lim.max_batch,
        before.len() == n * lim.table_stride,
        filled(lim, chunks, n, before),
        plan.tables@.len() == lim.max_batch * lim.table_stride,
        forall|x: int|
            0 <= x < plan.tables@.len() ==> #[trigger] plan.tables@[x] == (if x < before.len() {
                before[x]
            } else {
                0
            }),
    ensures
        plan.tables_match(lim, chunks, n),
{
    let st = lim.table_stride as int;
    assert forall|i: int, j: int|
        #![trigger plan.tables@[i * lim.table_stride + j]]
        0 <= i < lim.max_batch && 0 <= j < lim.table_stride implies plan.tables@[i
        * lim.table_stride + j] == (if i < n {
        chunks[i].page_table[j]
    } else {
        0
    }) by {
        assert((i + 1) * st <= lim.max_batch * st) by (nonlinear_arith)
            requires
                i + 1 <= lim.max_batch,
                st >= 0,
        ;
        assert((i + 1) * st == i * st + st) by (nonlinear_arith);
        assert(0 <= i * st) by (nonlinear_arith)
            requires
                i >= 0,
                st >= 0,
        ;
        if i < n {
            assert((i + 1) * st <= n * st) by (nonlinear_arith)
                requires
                    i + 1 <= n,
                    st >= 0,
            ;
            assert(before[i * st + j] == chunks[i].page_table[j]);
        } else {
            assert(n * st <= i * st) by (nonlinear_arith)
                requires
                    n <= i,
                    st >= 0,
            ;
        }
    }
}

/// The segments of one more chunk.
proof fn lemma_segments_match(
    chunks: Seq<ChunkView>,
    n: nat,
    before: PackedPlan,
    after: PackedPlan,
)
    requires
        n < chunks.len(),
        n <= i32::MAX,
        rows_before(chunks, n) <= i32::MAX,
        chunks[n as int].tokens.len() <= i32::MAX,
        chunks[n as int].pos_offset <= i32::MAX,
        before.segments@.len() == 4 * n,
        before.segments_match(chunks, n),
        after.segments@ == before.segments@ + seq![
            rows_before(chunks, n) as i32,
            chunks[n as int].tokens.len() as i32,
            chunks[n as int].pos_offset as i32,
            n as i32,
        ],
    ensures
        after.segments@.len() == 4 * (n + 1),
        after.segments_match(chunks, n + 1),
{
    let tail = seq![
        rows_before(chunks, n) as i32,
        chunks[n as int].tokens.len() as i32,
        chunks[n as int].pos_offset as i32,
        n as i32,
    ];
    assert forall|i: int| 0 <= i < n + 1 implies #[trigger] is_segment(after.segments@, chunks, i) by {
        if i < n {
            assert(is_segment(before.segments@, chunks, i));
            assert(after.segments@[4 * i] == before.segments@[4 * i]);
            assert(after.segments@[4 * i + 1] == before.segments@[4 * i + 1]);
            assert(after.segments@[4 * i + 2] == before.segments@[4 * i + 2]);
            assert(after.segments@[4 * i + 3] == before.segments@[4 * i + 3]);
        } else {
            assert(after.segments@[4 * i] == tail[0]);
            assert(after.segments@[4 * i + 1] == tail[1]);
            assert(after.segments@[4 * i + 2] == tail[2]);
            assert(after.segments@[4 * i + 3] == tail[3]);
        }
    }
}

/// Check and pack the chunks of a call, without looking at what is selected.
fn pack(lim: &PackedLimits, chunks: &[PackedPrefillRequest<'_>]) -> (r: Result<PackedPlan, GpuError>)
    requires
        lim.wf(),
        lim.use_paged,
        0 < chunks@.len() <= lim.requests,
        lim.table_stride <= i32::MAX,
    ensures
        ({
            let cs = views(chunks@);
            let e = chunks_error(*lim, cs, 0);
            let n = cs.len();
            match r {
                Ok(p) => {
                    &&& e is None
                    &&& p.rows == rows_before(cs, n)
                    &&& p.finals == finals_before(cs, n)
                    &&& p.requests == n
                    &&& p.max_chunk == longest(cs, n)
                    &&& p.max_history == furthest(cs, n)
                    &&& p.tokens@.len() == p.rows
                    &&& p.owners@.len() == p.rows
                    &&& p.positions@.len() == p.rows
                    &&& p.rows_match(cs, n)
                    &&& p.segments@.len() == 4 * n
                    &&& p.segments_match(cs, n)
                    &&& p.final_rows@ == final_rows(cs, n)
                    &&& p.tables@.len() == lim.max_batch * lim.table_stride
                    &&& p.tables_match(*lim, cs, n)
                },
                Err(g) => e == Some(g),
            }
        }),
{
    let ghost cs = views(chunks@);
    let mut plan = PackedPlan {
        rows: 0,
        finals: 0,
        requests: chunks.len(),
        max_chunk: 0,
        max_history: 0,
        tokens: Vec::new(),
        owners: Vec::new(),
        positions: Vec::new(),
        segments: Vec::new(),
        final_rows: Vec::new(),
        tables: Vec::new(),
        row_k: Vec::new(),
    };
    let mut flags: Vec<bool> = Vec::new();
    while flags.len() < lim.n_pages
        invariant
            flags@.len() <= lim.n_pages,
            forall|p: int| 0 <= p < flags@.len() ==> !(#[trigger] flags@[p]),
        decreases lim.n_pages - flags@.len(),
    {
        flags.push(false);
    }
    let mut i: usize = 0;
    while i < chunks.len()
        invariant
            lim.wf(),
            lim.use_paged,
            chunks@.len() <= lim.requests,
            lim.table_stride <= i32::MAX,
            cs == views(chunks@),
            i <= cs.len(),
            plan.requests == cs.len(),
            flags@.len() == lim.n_pages,
            marks(flags@, pages_before(cs, i as nat)),
            chunks_error(*lim, cs, 0) == chunks_error(*lim, cs, i as nat),
            plan.rows == rows_before(cs, i as nat),
            plan.rows <= lim.tokens,
            plan.finals == finals_before(cs, i as nat),
            plan.finals <= i,
            plan.max_chunk == longest(cs, i as nat),
            plan.max_history == furthest(cs, i as nat),
            plan.tokens@.len() == plan.rows,
            plan.owners@.len() == plan.rows,
            plan.positions@.len() == plan.rows,
            plan.rows_match(cs, i as nat),
            plan.segments@.len() == 4 * i,
            plan.segments_match(cs, i as nat),
            plan.final_rows@ == final_rows(cs, i as nat),
            plan.tables@.len() == i * lim.table_stride,
            filled(*lim, cs, i as nat, plan.tables@),
        decreases cs.len() - i,
    {
        let c = chunks[i];
        let ghost v = cs[i as int];
        assert(v == c@);
        let len: usize = c.tokens.len();
        let end: usize = match c.pos_offset.checked_add(len) {
            Some(e) => e,
            None => {
                return Err(GpuError::PackedPosition);
            },
        };
        let packed_end: usize = match plan.rows.checked_add(len) {
            Some(e) => e,
            None => {
                return Err(GpuError::PackedRows);
            },
        };
        if len == 0 || end > lim.capacity || end > i32::MAX as usize || packed_end > lim.tokens {
            return Err(GpuError::PackedCapacity { tokens: lim.tokens });
        }
        if c.page_table.len() != lim.table_stride {
            return Err(GpuError::PackedTable { want: lim.table_stride });
        }
        let count: usize = math::div_ceil(end, PAGE_TOKENS);
        proof {
            lemma_ceil_mono(end as nat, lim.capacity as nat);
        }
        if let Err(e) = claim(lim, &mut flags, c.page_table, count, Ghost(pages_before(cs, i as nat))) {
            return Err(e);
        }
        let ghost before = plan;
        if let Err(e) = append_rows(
            lim,
            &c,
            i,
            &mut plan.tokens,
            &mut plan.owners,
            &mut plan.positions,
        ) {
            return Err(e);
        }
        append_all(&mut plan.tables, c.page_table);
        append_segment(&mut plan.segments, plan.rows, len, c.pos_offset, i);
        if len > plan.max_chunk {
            plan.max_chunk = len;
        }
        if end > plan.max_history {
            plan.max_history = end;
        }
        plan.rows = packed_end;
        if c.want_logits {
            plan.final_rows.push((packed_end - 1) as i32);
            plan.finals = plan.finals + 1;
        }
        proof {
            lemma_rows_match(cs, i as nat, before, plan);
            lemma_tables_match(*lim, cs, i as nat, before.tables@, plan.tables@);
            lemma_segments_match(cs, i as nat, before, plan);
            assert(chunk_error(*lim, v, rows_before(cs, i as nat), pages_before(cs, i as nat)) is None);
        }
        i += 1;
    }
    let ghost before = plan.tables@;
    proof {
        assert(plan.requests * lim.table_stride <= lim.max_batch * lim.table_stride) by (nonlinear_arith)
            requires
                plan.requests <= lim.max_batch,
        ;
    }
    pad_zeros(&mut plan.tables, lim.max_batch * lim.table_stride);
    proof {
        lemma_tables_padded(*lim, cs, cs.len(), before, plan);
    }
    Ok(plan)
}

proof fn lemma_ceil_mono(a: nat, b: nat)
    requires
        a <= b,
    ensures
        math::ceil_div(a, PAGE_TOKENS as nat) <= math::ceil_div(b, PAGE_TOKENS as nat),
{
    math::lemma_ceil_div(a, PAGE_TOKENS as nat);
    math::lemma_ceil_div(b, PAGE_TOKENS as nat);
}

/// Check a packed call in full and lay out its metadata. Selection rows count
/// the chunks that want logits, in order.
pub fn prepare_packed_prefill(
    lim: &PackedLimits,
    chunks: &[PackedPrefillRequest<'_>],
    topk_rows: &[(usize, usize)],
    full_rows: &[usize],
) -> (r: Result<PackedPlan, GpuError>)
    requires
        lim.wf(),
    ensures
        match r {
            Ok(p) => verdict(*lim, views(chunks@), topk_rows@, full_rows@) is None && p.describes(
                *lim,
                views(chunks@),
                topk_rows@,
            ),
            Err(e) => verdict(*lim, views(chunks@), topk_rows@, full_rows@) == Some(e),
        },
{
    if !lim.use_paged {
        return Err(GpuError::PackedNeedsPaging);
    }
    if chunks.len() == 0 || chunks.len() > lim.requests {
        return Err(GpuError::PackedRequests { max: lim.requests, got: chunks.len() });
    }
    if lim.table_stride > i32::MAX as usize {
        return Err(GpuError::PackedStride);
    }
    let mut plan = match pack(lim, chunks) {
        Ok(p) => p,
        Err(e) => {
            return Err(e);
        },
    };
    let fits = match plan.finals.checked_mul(lim.vocab) {
        Some(n) => n <= i32::MAX as usize,
        None => false,
    };
    if !fits {
        return Err(GpuError::PackedLogits);
    }
    proof {
        lemma_rows_grow(views(chunks@), 0, chunks@.len());
    }
    match select(plan.finals, lim.max_batch, topk_rows, full_rows) {
        Ok(row_k) => {
            plan.row_k = row_k;
            Ok(plan)
        },
        Err(e) => Err(e),
    }
}

// ---------------------------------------------------------------------------
// What a packed call guarantees.

/// Every row belongs to one chunk and one position of it, and every token of
/// every chunk has a row: nothing is padded, dropped or packed twice.
pub proof fn law_rows_are_tiled(chunks: Seq<ChunkView>, r: int)
    requires
        0 <= r < rows_before(chunks, chunks.len()),
    ensures
        exists|i: int, k: int| is_row(chunks, r, i, k),
        forall|i: int, k: int, i2: int, k2: int|
            is_row(chunks, r, i, k) && is_row(chunks, r, i2, k2) ==> i == i2 && k == k2,
{
    lemma_row_exists(chunks, r, chunks.len());
    assert forall|i: int, k: int, i2: int, k2: int|
        is_row(chunks, r, i, k) && is_row(chunks, r, i2, k2) implies i == i2 && k == k2 by {
        if i < i2 {
            lemma_rows_grow(chunks, (i + 1) as nat, i2 as nat);
        } else if i2 < i {
            lemma_rows_grow(chunks, (i2 + 1) as nat, i as nat);
        }
    }
}

proof fn lemma_row_exists(chunks: Seq<ChunkView>, r: int, n: nat)
    requires
        n <= chunks.len(),
        0 <= r < rows_before(chunks, n),
    ensures
        exists|i: int, k: int| is_row(chunks, r, i, k),
    decreases n,
{
    let before = rows_before(chunks, (n - 1) as nat);
    if r < before {
        lemma_row_exists(chunks, r, (n - 1) as nat);
    } else {
        assert(is_row(chunks, r, n - 1, r - before));
    }
}

/// The rows whose logits are read are as many as the chunks that want them.
pub proof fn law_finals_are_counted(chunks: Seq<ChunkView>, n: nat)
    requires
        n <= chunks.len(),
    ensures
        final_rows(chunks, n).len() == finals_before(chunks, n),
    decreases n,
{
    if n > 0 {
        law_finals_are_counted(chunks, (n - 1) as nat);
    }
}

/// A final row is a row.
pub proof fn lemma_final_row(chunks: Seq<ChunkView>, n: nat, f: int)
    requires
        n <= chunks.len(),
        0 <= f < final_rows(chunks, n).len(),
        forall|i: int| 0 <= i < n ==> (#[trigger] chunks[i]).tokens.len() > 0,
        rows_before(chunks, n) <= i32::MAX,
    ensures
        0 <= final_rows(chunks, n)[f] < rows_before(chunks, n),
    decreases n,
{
    if n > 0 {
        assert(chunks[n - 1].tokens.len() > 0);
        if f < final_rows(chunks, (n - 1) as nat).len() {
            lemma_final_row(chunks, (n - 1) as nat, f);
        }
    }
}

proof fn lemma_final_row_of(chunks: Seq<ChunkView>, n: nat, i: int)
    requires
        n <= chunks.len(),
        0 <= i < n,
        chunks[i].want_logits,
        rows_before(chunks, n) <= i32::MAX,
        chunks[i].tokens.len() > 0,
    ensures
        finals_before(chunks, i as nat) < final_rows(chunks, n).len(),
        final_rows(chunks, n)[finals_before(chunks, i as nat) as int] == rows_before(
            chunks,
            (i + 1) as nat,
        ) - 1,
    decreases n,
{
    law_finals_are_counted(chunks, (n - 1) as nat);
    if i < n - 1 {
        lemma_final_row_of(chunks, (n - 1) as nat, i);
    }
}

/// The row whose logits a finished prompt is given is the row of its own last token.
pub proof fn law_final_rows_are_last_rows(lim: PackedLimits, chunks: Seq<ChunkView>, i: int)
    requires
        0 <= i < chunks.len(),
        chunks[i].want_logits,
        fits(lim, chunks[i]),
        rows_before(chunks, chunks.len()) <= i32::MAX,
    ensures
        ({
            let at = finals_before(chunks, i as nat) as int;
            &&& at < final_rows(chunks, chunks.len()).len()
            &&& is_row(
                chunks,
                final_rows(chunks, chunks.len())[at] as int,
                i,
                chunks[i].tokens.len() - 1,
            )
        }),
{
    lemma_final_row_of(chunks, chunks.len(), i);
}

proof fn lemma_pages_distinct(lim: PackedLimits, taken: Seq<i32>, pages: Seq<i32>)
    requires
        page_error(lim, taken, pages) is None,
        taken.no_duplicates(),
        forall|x: int| 0 <= x < taken.len() ==> in_pool(lim, #[trigger] taken[x]),
    ensures
        (taken + pages).no_duplicates(),
        forall|x: int| 0 <= x < (taken + pages).len() ==> in_pool(lim, #[trigger] (taken + pages)[x]),
    decreases pages.len(),
{
    if pages.len() == 0 {
        assert(taken + pages =~= taken);
    } else {
        let t = taken.push(pages[0]);
        assert(t.no_duplicates()) by {
            assert forall|a: int, b: int| 0 <= a < t.len() && 0 <= b < t.len() && a != b implies t[a] != t[b] by {
                if a == taken.len() {
                    assert(taken.contains(taken[b]));
                } else if b == taken.len() {
                    assert(taken.contains(taken[a]));
                }
            }
        }
        lemma_pages_distinct(lim, t, pages.skip(1));
        assert(taken + pages =~= t + pages.skip(1));
    }
}

proof fn lemma_chunks_accepted(lim: PackedLimits, chunks: Seq<ChunkView>, from: nat, n: nat)
    requires
        chunks_error(lim, chunks, from) is None,
        from <= n < chunks.len(),
    ensures
        chunk_error(lim, chunks[n as int], rows_before(chunks, n), pages_before(chunks, n)) is None,
    decreases n - from,
{
    if from < n {
        lemma_chunks_accepted(lim, chunks, from + 1, n);
    }
}

proof fn lemma_all_pages_distinct(lim: PackedLimits, chunks: Seq<ChunkView>, n: nat)
    requires
        chunks_error(lim, chunks, 0) is None,
        n <= chunks.len(),
    ensures
        pages_before(chunks, n).no_duplicates(),
        forall|x: int|
            0 <= x < pages_before(chunks, n).len() ==> in_pool(lim, #[trigger] pages_before(chunks, n)[x]),
    decreases n,
{
    if n > 0 {
        lemma_all_pages_distinct(lim, chunks, (n - 1) as nat);
        lemma_chunks_accepted(lim, chunks, 0, (n - 1) as nat);
        lemma_pages_distinct(lim, pages_before(chunks, (n - 1) as nat), chunks[n - 1].pages());
    }
}

proof fn lemma_page_index(chunks: Seq<ChunkView>, i: nat, j: int, n: nat)
    requires
        i < n <= chunks.len(),
        0 <= j < chunks[i as int].pages().len(),
    ensures
        pages_before(chunks, i).len() + j < pages_before(chunks, n).len(),
        pages_before(chunks, n)[pages_before(chunks, i).len() + j] == chunks[i as int].pages()[j],
    decreases n,
{
    if n == i + 1 {
    } else {
        lemma_page_index(chunks, i, j, (n - 1) as nat);
    }
}

/// The page a chunk's position falls on.
pub open spec fn page_at(c: ChunkView, pos: int) -> i32 {
    c.page_table[pos / PAGE_TOKENS as int]
}

/// No two positions of a packed call share a place in the pool: neither two
/// rows of one request, nor rows of two requests, nor the row of one request
/// and the history of another.
pub proof fn law_packed_positions_never_collide(
    lim: PackedLimits,
    chunks: Seq<ChunkView>,
    i: int,
    pos: int,
    i2: int,
    pos2: int,
)
    requires
        lim.wf(),
        lim.requests > 0,
        chunks_error(lim, chunks, 0) is None,
        0 <= i < chunks.len(),
        0 <= pos < chunks[i].end(),
        0 <= i2 < chunks.len(),
        0 <= pos2 < chunks[i2].end(),
        i != i2 || pos != pos2,
    ensures
        in_pool(lim, page_at(chunks[i], pos)),
        page_at(chunks[i], pos) != page_at(chunks[i2], pos2) || pos % PAGE_TOKENS as int != pos2
            % PAGE_TOKENS as int,
{
    let n = chunks.len();
    let all = pages_before(chunks, n);
    lemma_all_pages_distinct(lim, chunks, n);
    lemma_held(lim, chunks, i, pos);
    lemma_held(lim, chunks, i2, pos2);
    let j = pos / PAGE_TOKENS as int;
    let j2 = pos2 / PAGE_TOKENS as int;
    lemma_page_index(chunks, i as nat, j, n);
    lemma_page_index(chunks, i2 as nat, j2, n);
    let x = pages_before(chunks, i as nat).len() + j;
    let x2 = pages_before(chunks, i2 as nat).len() + j2;
    if i == i2 {
        if j == j2 {
            assert(pos % 16 != pos2 % 16);
        } else {
            assert(x != x2);
            assert(all[x] != all[x2]);
        }
    } else {
        if i < i2 {
            lemma_pages_begin(chunks, (i + 1) as nat, i2 as nat);
        } else {
            lemma_pages_begin(chunks, (i2 + 1) as nat, i as nat);
        }
        assert(x != x2);
        assert(all[x] != all[x2]);
    }
}

/// A position's page is among those its chunk was checked for.
proof fn lemma_held(lim: PackedLimits, chunks: Seq<ChunkView>, i: int, pos: int)
    requires
        lim.wf(),
        lim.requests > 0,
        chunks_error(lim, chunks, 0) is None,
        0 <= i < chunks.len(),
        0 <= pos < chunks[i].end(),
    ensures
        0 <= pos / PAGE_TOKENS as int,
        pos / (PAGE_TOKENS as int) < chunks[i].pages().len(),
        chunks[i].pages()[pos / PAGE_TOKENS as int] == page_at(chunks[i], pos),
{
    let c = chunks[i];
    lemma_chunks_accepted(lim, chunks, 0, i as nat);
    lemma_ceil_mono(c.end(), lim.capacity as nat);
    math::lemma_ceil_div(c.end(), PAGE_TOKENS as nat);
}

/// The sizes of an accepted call are within the limits.
pub proof fn lemma_accepted_bounds(lim: PackedLimits, chunks: Seq<ChunkView>)
    requires
        chunks_error(lim, chunks, 0) is None,
        lim.wf(),
    ensures
        rows_before(chunks, chunks.len()) <= lim.tokens,
        furthest(chunks, chunks.len()) <= lim.capacity,
        furthest(chunks, chunks.len()) <= i32::MAX || chunks.len() == 0,
        finals_before(chunks, chunks.len()) <= chunks.len(),
{
    lemma_rows_grow(chunks, 0, chunks.len());
    if chunks.len() > 0 {
        lemma_chunks_accepted(lim, chunks, 0, (chunks.len() - 1) as nat);
    }
    lemma_furthest_bound(lim, chunks, chunks.len());
}

proof fn lemma_furthest_bound(lim: PackedLimits, chunks: Seq<ChunkView>, n: nat)
    requires
        chunks_error(lim, chunks, 0) is None,
        n <= chunks.len(),
    ensures
        furthest(chunks, n) <= lim.capacity,
        furthest(chunks, n) <= i32::MAX,
    decreases n,
{
    if n > 0 {
        lemma_furthest_bound(lim, chunks, (n - 1) as nat);
        lemma_chunks_accepted(lim, chunks, 0, (n - 1) as nat);
    }
}

/// A single accepted chunk holds something.
pub proof fn lemma_single_not_empty(lim: PackedLimits, c: ChunkView)
    requires
        chunks_error(lim, seq![c], 0) is None,
    ensures
        c.tokens.len() > 0,
        c.end() <= lim.capacity,
        c.end() <= i32::MAX,
{
    lemma_chunks_accepted(lim, seq![c], 0, 0);
    assert(seq![c][0] == c);
}

/// Accepted selections name different rows, so there are at most as many as
/// rows.
pub proof fn lemma_selected_bounds(finals: usize, topk_rows: Seq<(usize, usize)>, full_rows: Seq<usize>)
    requires
        topk_error(finals, Seq::empty(), topk_rows) is None,
        full_error(finals, topk_rows_of(topk_rows), full_rows) is None,
    ensures
        topk_rows.len() + full_rows.len() <= finals,
{
    lemma_topk_distinct(finals, Seq::empty(), topk_rows);
    assert(Seq::<usize>::empty() + topk_rows_of(topk_rows) =~= topk_rows_of(topk_rows));
    lemma_full_distinct(finals, topk_rows_of(topk_rows), full_rows);
    lemma_distinct_below(topk_rows_of(topk_rows) + full_rows, finals);
}

proof fn lemma_topk_distinct(finals: usize, taken: Seq<usize>, rows: Seq<(usize, usize)>)
    requires
        topk_error(finals, taken, rows) is None,
        taken.no_duplicates(),
        forall|x: int| 0 <= x < taken.len() ==> #[trigger] taken[x] < finals,
    ensures
        (taken + topk_rows_of(rows)).no_duplicates(),
        forall|x: int|
            0 <= x < (taken + topk_rows_of(rows)).len() ==> #[trigger] (taken + topk_rows_of(rows))[x] < finals,
    decreases rows.len(),
{
    if rows.len() == 0 {
        assert(taken + topk_rows_of(rows) =~= taken);
    } else {
        let t = taken.push(rows[0].0);
        lemma_push_distinct(taken, rows[0].0);
        lemma_topk_distinct(finals, t, rows.skip(1));
        assert(taken + topk_rows_of(rows) =~= t + topk_rows_of(rows.skip(1)));
    }
}

proof fn lemma_full_distinct(finals: usize, taken: Seq<usize>, rows: Seq<usize>)
    requires
        full_error(finals, taken, rows) is None,
        taken.no_duplicates(),
        forall|x: int| 0 <= x < taken.len() ==> #[trigger] taken[x] < finals,
    ensures
        (taken + rows).no_duplicates(),
        forall|x: int| 0 <= x < (taken + rows).len() ==> #[trigger] (taken + rows)[x] < finals,
    decreases rows.len(),
{
    if rows.len() == 0 {
        assert(taken + rows =~= taken);
    } else {
        let t = taken.push(rows[0]);
        lemma_push_distinct(taken, rows[0]);
        lemma_full_distinct(finals, t, rows.skip(1));
        assert(taken + rows =~= t + rows.skip(1));
    }
}

proof fn lemma_push_distinct(s: Seq<usize>, x: usize)
    requires
        s.no_duplicates(),
        !s.contains(x),
    ensures
        s.push(x).no_duplicates(),
{
    let t = s.push(x);
    assert forall|a: int, b: int| 0 <= a < t.len() && 0 <= b < t.len() && a != b implies t[a] != t[b] by {
        if a == s.len() {
            assert(s.contains(s[b]));
        } else if b == s.len() {
            assert(s.contains(s[a]));
        }
    }
}

proof fn lemma_distinct_below(s: Seq<usize>, n: usize)
    requires
        s.no_duplicates(),
        forall|x: int| 0 <= x < s.len() ==> #[trigger] s[x] < n,
    ensures
        s.len() <= n,
{
    s.unique_seq_to_set();
    let t = s.map_values(|x: usize| x as int);
    let all = vstd::set_lib::set_int_range(0, n as int);
    vstd::set_lib::lemma_int_range(0, n as int);
    assert(t.no_duplicates());
    t.unique_seq_to_set();
    assert(t.to_set().subset_of(all)) by {
        assert forall|y: int| t.to_set().contains(y) implies all.contains(y) by {
            let i = choose|i: int| 0 <= i < t.len() && t[i] == y;
            assert(s[i] < n);
        }
    }
    vstd::set_lib::lemma_len_subset(t.to_set(), all);
}

// ---------------------------------------------------------------------------
// What is accepted.

/// Whether a packed call asks for nothing that cannot be given: chunks that fit
/// their tables and the call, pages of the pool that nobody shares, tokens the
/// model knows, and one way of selection at most for each finished prompt.
pub open spec fn well_formed(
    lim: PackedLimits,
    chunks: Seq<ChunkView>,
    topk_rows: Seq<(usize, usize)>,
    full_rows: Seq<usize>,
) -> bool {
    let n = chunks.len();
    let finals = finals_before(chunks, n);
    let pages = pages_before(chunks, n);
    &&& lim.use_paged
    &&& 0 < n <= lim.requests
    &&& lim.table_stride <= i32::MAX
    &&& rows_before(chunks, n) <= lim.tokens
    &&& forall|i: int| 0 <= i < n ==> fits(lim, #[trigger] chunks[i])
    &&& pages.no_duplicates()
    &&& forall|x: int| 0 <= x < pages.len() ==> in_pool(lim, #[trigger] pages[x])
    &&& finals * lim.vocab <= i32::MAX
    &&& forall|x: int|
        0 <= x < topk_rows.len() ==> (#[trigger] topk_rows[x]).0 < finals && 0 < topk_rows[x].1
            <= TOPK_MAX
    &&& forall|x: int| 0 <= x < full_rows.len() ==> #[trigger] full_rows[x] < finals
    &&& (topk_rows_of(topk_rows) + full_rows).no_duplicates()
}

/// Whether a chunk fits its page table and holds known tokens.
pub open spec fn fits(lim: PackedLimits, c: ChunkView) -> bool {
    &&& c.tokens.len() > 0
    &&& c.end() <= lim.capacity
    &&& c.end() <= i32::MAX
    &&& c.page_table.len() == lim.table_stride
    &&& forall|j: int| 0 <= j < c.tokens.len() ==> known(lim, #[trigger] c.tokens[j])
}

proof fn lemma_tokens_known(lim: PackedLimits, tokens: Seq<usize>)
    ensures
        token_error(lim, tokens) is None <==> forall|j: int|
            0 <= j < tokens.len() ==> known(lim, #[trigger] tokens[j]),
    decreases tokens.len(),
{
    if tokens.len() > 0 {
        let rest = tokens.skip(1);
        lemma_tokens_known(lim, rest);
        if token_error(lim, tokens) is None {
            assert forall|j: int| 0 <= j < tokens.len() implies known(lim, #[trigger] tokens[j]) by {
                if j > 0 {
                    assert(rest[j - 1] == tokens[j]);
                }
            }
        }
    }
}

proof fn lemma_pages_free(lim: PackedLimits, taken: Seq<i32>, pages: Seq<i32>)
    requires
        (taken + pages).no_duplicates(),
        forall|x: int| 0 <= x < (taken + pages).len() ==> in_pool(lim, #[trigger] (taken + pages)[x]),
    ensures
        page_error(lim, taken, pages) is None,
    decreases pages.len(),
{
    let all = taken + pages;
    if pages.len() > 0 {
        assert(all[taken.len() as int] == pages[0]);
        assert(!taken.contains(pages[0])) by {
            if taken.contains(pages[0]) {
                let a = choose|a: int| 0 <= a < taken.len() && taken[a] == pages[0];
                assert(all[a] == all[taken.len() as int]);
            }
        }
        assert(all =~= taken.push(pages[0]) + pages.skip(1));
        lemma_pages_free(lim, taken.push(pages[0]), pages.skip(1));
    }
}

/// The pages of the first chunks begin those of all.
proof fn lemma_pages_begin(chunks: Seq<ChunkView>, i: nat, n: nat)
    requires
        i <= n <= chunks.len(),
    ensures
        pages_before(chunks, i).len() <= pages_before(chunks, n).len(),
        pages_before(chunks, n).take(pages_before(chunks, i).len() as int) =~= pages_before(chunks, i),
    decreases n,
{
    if i < n {
        lemma_pages_begin(chunks, i, (n - 1) as nat);
        let shorter = pages_before(chunks, (n - 1) as nat);
        let k = pages_before(chunks, i).len() as int;
        assert(pages_before(chunks, n).take(k) =~= shorter.take(k));
    }
}

proof fn lemma_chunks_fit(lim: PackedLimits, chunks: Seq<ChunkView>, from: nat)
    requires
        lim.wf(),
        from <= chunks.len(),
        rows_before(chunks, chunks.len()) <= lim.tokens,
        forall|i: int| 0 <= i < chunks.len() ==> fits(lim, #[trigger] chunks[i]),
        pages_before(chunks, chunks.len()).no_duplicates(),
        forall|x: int|
            0 <= x < pages_before(chunks, chunks.len()).len() ==> in_pool(
                lim,
                #[trigger] pages_before(chunks, chunks.len())[x],
            ),
    ensures
        chunks_error(lim, chunks, from) is None,
    decreases chunks.len() - from,
{
    if from < chunks.len() {
        let n = chunks.len();
        let c = chunks[from as int];
        let all = pages_before(chunks, n);
        let taken = pages_before(chunks, from);
        let next = pages_before(chunks, from + 1);
        lemma_chunks_fit(lim, chunks, from + 1);
        lemma_rows_grow(chunks, from + 1, n);
        lemma_pages_begin(chunks, from + 1, n);
        assert(next == taken + c.pages());
        assert forall|x: int| 0 <= x < next.len() implies in_pool(lim, #[trigger] next[x]) by {
            assert(all.take(next.len() as int)[x] == all[x]);
        }
        assert(next.no_duplicates()) by {
            assert forall|a: int, b: int|
                0 <= a < next.len() && 0 <= b < next.len() && a != b implies next[a] != next[b] by {
                assert(all.take(next.len() as int)[a] == all[a]);
                assert(all.take(next.len() as int)[b] == all[b]);
            }
        }
        lemma_pages_free(lim, taken, c.pages());
        lemma_tokens_known(lim, c.tokens);
    }
}

proof fn lemma_topk_free(finals: usize, taken: Seq<usize>, rows: Seq<(usize, usize)>)
    requires
        (taken + topk_rows_of(rows)).no_duplicates(),
        forall|x: int|
            0 <= x < rows.len() ==> (#[trigger] rows[x]).0 < finals && 0 < rows[x].1 <= TOPK_MAX,
    ensures
        topk_error(finals, taken, rows) is None,
    decreases rows.len(),
{
    let all = taken + topk_rows_of(rows);
    if rows.len() > 0 {
        assert(all[taken.len() as int] == rows[0].0);
        assert(!taken.contains(rows[0].0)) by {
            if taken.contains(rows[0].0) {
                let a = choose|a: int| 0 <= a < taken.len() && taken[a] == rows[0].0;
                assert(all[a] == all[taken.len() as int]);
            }
        }
        assert(all =~= taken.push(rows[0].0) + topk_rows_of(rows.skip(1)));
        lemma_topk_free(finals, taken.push(rows[0].0), rows.skip(1));
    }
}

proof fn lemma_topk_bounds(finals: usize, taken: Seq<usize>, rows: Seq<(usize, usize)>)
    requires
        topk_error(finals, taken, rows) is None,
    ensures
        forall|x: int|
            0 <= x < rows.len() ==> (#[trigger] rows[x]).0 < finals && 0 < rows[x].1 <= TOPK_MAX,
    decreases rows.len(),
{
    if rows.len() > 0 {
        let rest = rows.skip(1);
        lemma_topk_bounds(finals, taken.push(rows[0].0), rest);
        assert forall|x: int| 0 <= x < rows.len() implies (#[trigger] rows[x]).0 < finals && 0
            < rows[x].1 <= TOPK_MAX by {
            if x > 0 {
                assert(rest[x - 1] == rows[x]);
            }
        }
    }
}

proof fn lemma_full_free(finals: usize, taken: Seq<usize>, rows: Seq<usize>)
    requires
        (taken + rows).no_duplicates(),
        forall|x: int| 0 <= x < rows.len() ==> #[trigger] rows[x] < finals,
    ensures
        full_error(finals, taken, rows) is None,
    decreases rows.len(),
{
    let all = taken + rows;
    if rows.len() > 0 {
        assert(all[taken.len() as int] == rows[0]);
        assert(!taken.contains(rows[0])) by {
            if taken.contains(rows[0]) {
                let a = choose|a: int| 0 <= a < taken.len() && taken[a] == rows[0];
                assert(all[a] == all[taken.len() as int]);
            }
        }
        assert(all =~= taken.push(rows[0]) + rows.skip(1));
        lemma_full_free(finals, taken.push(rows[0]), rows.skip(1));
    }
}

/// Exactly the well-formed calls are accepted: whatever is wrong with a
/// descriptor or a selection, the call is refused, and nothing else is.
pub proof fn law_only_well_formed_calls_are_accepted(
    lim: PackedLimits,
    chunks: Seq<ChunkView>,
    topk_rows: Seq<(usize, usize)>,
    full_rows: Seq<usize>,
)
    requires
        lim.wf(),
    ensures
        verdict(lim, chunks, topk_rows, full_rows) is None <==> well_formed(
            lim,
            chunks,
            topk_rows,
            full_rows,
        ),
{
    let n = chunks.len();
    let finals = finals_before(chunks, n);
    let topk = topk_rows_of(topk_rows);
    lemma_rows_grow(chunks, 0, n);
    if verdict(lim, chunks, topk_rows, full_rows) is None {
        lemma_accepted_bounds(lim, chunks);
        lemma_all_pages_distinct(lim, chunks, n);
        assert forall|i: int| 0 <= i < n implies fits(lim, #[trigger] chunks[i]) by {
            lemma_chunks_accepted(lim, chunks, 0, i as nat);
            lemma_tokens_known(lim, chunks[i].tokens);
        }
        lemma_topk_bounds(finals as usize, Seq::empty(), topk_rows);
        lemma_topk_distinct(finals as usize, Seq::empty(), topk_rows);
        assert(Seq::<usize>::empty() + topk =~= topk);
        lemma_full_distinct(finals as usize, topk, full_rows);
        assert forall|x: int| 0 <= x < full_rows.len() implies #[trigger] full_rows[x] < finals by {
            assert((topk + full_rows)[topk.len() + x] == full_rows[x]);
        }
    }
    if well_formed(lim, chunks, topk_rows, full_rows) {
        lemma_chunks_fit(lim, chunks, 0);
        let all = topk + full_rows;
        assert(topk.no_duplicates()) by {
            assert forall|a: int, b: int|
                0 <= a < topk.len() && 0 <= b < topk.len() && a != b implies topk[a] != topk[b] by {
                assert(all[a] == topk[a]);
                assert(all[b] == topk[b]);
            }
        }
        assert(Seq::<usize>::empty() + topk =~= topk);
        lemma_topk_free(finals as usize, Seq::empty(), topk_rows);
        lemma_full_free(finals as usize, topk, full_rows);
    }
}

/// The metadata of a packed call leads every row to its request's pages: its
/// owner's table, at the place of any position up to its own, names the page on
/// which the request has that position.
pub proof fn law_metadata_leads_to_the_pages(
    plan: PackedPlan,
    lim: PackedLimits,
    chunks: Seq<ChunkView>,
    topk_rows: Seq<(usize, usize)>,
    i: int,
    k: int,
    pos: int,
)
    requires
        plan.describes(lim, chunks, topk_rows),
        chunks.len() <= lim.max_batch,
        0 <= i < chunks.len(),
        0 <= k < chunks[i].tokens.len(),
        0 <= pos <= chunks[i].pos_offset + k,
        (chunks[i].pos_offset + k) / 16 < lim.table_stride,
    ensures
        ({
            let r = rows_before(chunks, i as nat) + k;
            &&& plan.tokens@[r] == chunks[i].tokens[k]
            &&& plan.positions@[r] == chunks[i].pos_offset + k
            &&& plan.tables@[plan.owners@[r] * lim.table_stride + pos / 16]
                == chunks[i].page_table[pos / 16]
        }),
{
    let r = rows_before(chunks, i as nat) + k;
    assert(is_row(chunks, r, i, k));
    let j = pos / 16;
    assert(plan.owners@[r] == i);
    assert(plan.tables@[i * lim.table_stride + j] == chunks[i].page_table[j]);
}

/// The segments of a packed call tile its rows: each starts where the one before
/// it ends, the first at zero and the last ending at the call's, and its rows
/// count up from its position and belong to its slot.
pub proof fn law_segments_tile_the_rows(
    plan: PackedPlan,
    lim: PackedLimits,
    chunks: Seq<ChunkView>,
    topk_rows: Seq<(usize, usize)>,
    i: int,
    k: int,
)
    requires
        plan.describes(lim, chunks, topk_rows),
        0 <= i < chunks.len(),
        0 <= k < plan.segments@[4 * i + 1],
    ensures
        plan.segments@[0] == 0,
        plan.segments@[4 * i] + plan.segments@[4 * i + 1] == if i + 1 < chunks.len() {
            plan.segments@[4 * (i + 1)] as int
        } else {
            plan.rows as int
        },
        plan.owners@[plan.segments@[4 * i] + k] == plan.segments@[4 * i + 3],
        plan.positions@[plan.segments@[4 * i] + k] == plan.segments@[4 * i + 2] + k,
{
    assert(is_segment(plan.segments@, chunks, 0));
    assert(is_segment(plan.segments@, chunks, i));
    if i + 1 < chunks.len() {
        assert(is_segment(plan.segments@, chunks, i + 1));
    }
    assert(rows_before(chunks, (i + 1) as nat) == rows_before(chunks, i as nat)
        + chunks[i].tokens.len());
    assert(is_row(chunks, rows_before(chunks, i as nat) + k, i, k));
}

/// The extents of a packed call are the least that bound all of its chunks.
pub proof fn law_extents_bound_every_chunk(chunks: Seq<ChunkView>, n: nat, bound: nat)
    requires
        n <= chunks.len(),
    ensures
        longest(chunks, n) <= bound <==> forall|i: int|
            0 <= i < n ==> (#[trigger] chunks[i]).tokens.len() <= bound,
        furthest(chunks, n) <= bound <==> forall|i: int|
            0 <= i < n ==> (#[trigger] chunks[i]).pos_offset + chunks[i].tokens.len() <= bound,
    decreases n,
{
    if n > 0 {
        law_extents_bound_every_chunk(chunks, (n - 1) as nat, bound);
        let c = chunks[n - 1];
        assert(c.end() == c.pos_offset + c.tokens.len());
    }
}

} // verus!
