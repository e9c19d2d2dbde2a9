//! What the device path refuses, in words.
use crate::paged::PageError;
use crate::text;
use crate::text::{push_decimal, push_signed};
use vstd::prelude::*;

verus! {

/// Why the device path refused a call. Nothing was uploaded or launched.
#[derive(Debug, Clone, Copy, PartialEq, Eq, Structural)]
pub enum GpuError {
    /// Batched decode before paging was enabled.
    DecodeNeedsPaging,
    /// A whole prompt into pages before paging was enabled.
    RequestNeedsPaging,
    /// A prompt chunk into pages before paging was enabled.
    ChunkNeedsPaging,
    /// A packed call before paging was enabled.
    PackedNeedsPaging,
    /// A profiled batch before paging was enabled.
    ProfileNeedsPaging,
    /// More requests than the kernels are instantiated for, or none.
    MaxBatch,
    /// More requests than slots.
    BatchTooLarge { n: usize, max: usize },
    /// Token, position and length arrays of different lengths.
    Metadata,
    /// A page table buffer of the wrong size.
    TableSize { want: usize },
    /// A token the model does not know.
    Token { token: usize, vocab: usize },
    /// A row past the batch.
    Row { row: usize, n: usize },
    /// More candidates than the device extracts, or none.
    TopK { k: usize },
    /// A replay of a prompt shape that was not captured.
    NoPrefillGraph { len: usize },
    /// A batch size that has no graph.
    NoSlot { n: usize },
    /// A replay of a batch size that was not captured.
    NotCaptured { n: usize },
    /// Profiling past the end of the cache.
    CacheFull,
    /// Nothing to process.
    NoTokens,
    /// More positions than the cache holds.
    Sequence { len: usize, capacity: usize },
    /// A checkpoint without a gate projection.
    SwigluOnly,
    /// The same, while profiling a token.
    ProfileSwigluOnly,
    /// More requests than a packed call takes, or none.
    PackedRequests { max: usize, got: usize },
    /// Page tables too wide to index.
    PackedStride,
    /// A chunk past the last position there is.
    PackedPosition,
    /// More rows than can be counted.
    PackedRows,
    /// An empty chunk, or more rows or positions than fit.
    PackedCapacity { tokens: usize },
    /// A page table of the wrong length.
    PackedTable { want: usize },
    /// A page the pool does not have.
    PackedPage { page: i32 },
    /// A page that two logical pages share.
    PackedAlias { page: i32 },
    /// A token the model does not know, in a packed call.
    PackedToken { token: usize, vocab: usize },
    /// More logits than the kernels index.
    PackedLogits,
    /// Candidates of a row that is not there, or too many of them.
    PackedTopK { row: usize, k: usize, finals: usize },
    /// A row that asks for candidates twice.
    PackedTwice { row: usize },
    /// Full logits of a row that is not there, or that is selected already.
    PackedFull { row: usize },
    /// Profiling no pass at all.
    ProfileIters,
    /// A replay that no packed call can have.
    ReplayShape,
    /// A replay of a batch that is not the one prepared last.
    ReplayStale,
    /// A page operation was refused.
    Page { error: PageError },
}

impl GpuError {
    /// The error in words.
    pub open spec fn text(self) -> Seq<char> {
        match self {
            GpuError::DecodeNeedsPaging => "batched decode requires paging; call enable_paging first"@,
            GpuError::RequestNeedsPaging => "prefill_request requires paging; call enable_paging first"@,
            GpuError::ChunkNeedsPaging => "prefill_chunk requires paging; call enable_paging first"@,
            GpuError::PackedNeedsPaging => "packed prefill requires paging"@,
            GpuError::ProfileNeedsPaging => "profile_batch requires paging"@,
            GpuError::MaxBatch => "max_batch must be in 1..=16"@,
            GpuError::BatchTooLarge { n, max } => "batch of "@ + text::decimal(n as nat) + " exceeds max_batch "@ + text::decimal(max as nat),
            GpuError::Metadata => "batch metadata length mismatch"@,
            GpuError::TableSize { want } => "page table buffer must be max_batch * table_stride = "@ + text::decimal(want as nat),
            GpuError::Token { token, vocab } => "token id "@ + text::decimal(token as nat) + " outside vocabulary "@ + text::decimal(vocab as nat),
            GpuError::Row { row, n } => "row "@ + text::decimal(row as nat) + " outside a batch of "@ + text::decimal(n as nat),
            GpuError::TopK { k } => "top-k of "@ + text::decimal(k as nat) + " outside the device kernel's capacity 1..=128"@,
            GpuError::NoPrefillGraph { len } => "no captured prefill graph for "@ + text::decimal(len as nat) + " tokens; run one first"@,
            GpuError::NoSlot { n } => "no graph slot for batch "@ + text::decimal(n as nat),
            GpuError::NotCaptured { n } => "no captured graph for batch "@ + text::decimal(n as nat) + "; run a step at that size first"@,
            GpuError::CacheFull => "cache full during profiling"@,
            GpuError::NoTokens => "no tokens to process"@,
            GpuError::Sequence { len, capacity } => "sequence of "@ + text::decimal(len as nat) + " exceeds cache capacity "@ + text::decimal(capacity as nat),
            GpuError::SwigluOnly => "the GPU path currently implements swiglu only"@,
            GpuError::ProfileSwigluOnly => "swiglu only"@,
            GpuError::PackedRequests { max, got } => "packed prefill needs 1..="@ + text::decimal(max as nat) + " requests, got "@ + text::decimal(got as nat),
            GpuError::PackedStride => "packed page-table stride exceeds kernel index range"@,
            GpuError::PackedPosition => "packed position overflow"@,
            GpuError::PackedRows => "packed row count overflow"@,
            GpuError::PackedCapacity { tokens } => "packed chunk/batch exceeds "@ + text::decimal(tokens as nat) + " token capacity or is empty"@,
            GpuError::PackedTable { want } => "packed page table must contain "@ + text::decimal(want as nat) + " entries"@,
            GpuError::PackedPage { page } => "packed page "@ + text::signed(page as int) + " outside the pool"@,
            GpuError::PackedAlias { page } => "packed page "@ + text::signed(page as int) + " is aliased by multiple logical pages"@,
            GpuError::PackedToken { token, vocab } => "packed token "@ + text::decimal(token as nat) + " outside vocabulary "@ + text::decimal(vocab as nat),
            GpuError::PackedLogits => "packed final logits exceed kernel index range"@,
            GpuError::PackedTopK { row, k, finals } => "invalid packed top-k row "@ + text::decimal(row as nat) + ", k="@ + text::decimal(k as nat) + ", final rows="@ + text::decimal(finals as nat),
            GpuError::PackedTwice { row } => "duplicate packed selection row "@ + text::decimal(row as nat),
            GpuError::PackedFull { row } => "invalid or duplicate packed full-logit row "@ + text::decimal(row as nat),
            GpuError::ProfileIters => "packed profiling needs at least one iteration"@,
            GpuError::ReplayShape => "invalid packed replay benchmark shape"@,
            GpuError::ReplayStale => "packed replay requires a just-prepared matching batch"@,
            GpuError::Page { error } => error.text(),
        }
    }

    /// The error in words, for a log line or a response body.
    pub fn message(&self) -> (m: String)
        ensures
            m@ == self.text(),
    {
        let mut m = String::new();
        match self {
            GpuError::DecodeNeedsPaging => {
                m.append("batched decode requires paging; call enable_paging first");
            },
            GpuError::RequestNeedsPaging => {
                m.append("prefill_request requires paging; call enable_paging first");
            },
            GpuError::ChunkNeedsPaging => {
                m.append("prefill_chunk requires paging; call enable_paging first");
            },
            GpuError::PackedNeedsPaging => {
                m.append("packed prefill requires paging");
            },
            GpuError::ProfileNeedsPaging => {
                m.append("profile_batch requires paging");
            },
            GpuError::MaxBatch => {
                m.append("max_batch must be in 1..=16");
            },
            GpuError::BatchTooLarge { n, max } => {
                m.append("batch of ");
                push_decimal(&mut m, *n as u64);
                m.append(" exceeds max_batch ");
                push_decimal(&mut m, *max as u64);
            },
            GpuError::Metadata => {
                m.append("batch metadata length mismatch");
            },
            GpuError::TableSize { want } => {
                m.append("page table buffer must be max_batch * table_stride = ");
                push_decimal(&mut m, *want as u64);
            },
            GpuError::Token { token, vocab } => {
                m.append("token id ");
                push_decimal(&mut m, *token as u64);
                m.append(" outside vocabulary ");
                push_decimal(&mut m, *vocab as u64);
            },
            GpuError::Row { row, n } => {
                m.append("row ");
                push_decimal(&mut m, *row as u64);
                m.append(" outside a batch of ");
                push_decimal(&mut m, *n as u64);
            },
            GpuError::TopK { k } => {
                m.append("top-k of ");
                push_decimal(&mut m, *k as u64);
                m.append(" outside the device kernel's capacity 1..=128");
            },
            GpuError::NoPrefillGraph { len } => {
                m.append("no captured prefill graph for ");
                push_decimal(&mut m, *len as u64);
                m.append(" tokens; run one first");
            },
            GpuError::NoSlot { n } => {
                m.append("no graph slot for batch ");
                push_decimal(&mut m, *n as u64);
            },
            GpuError::NotCaptured { n } => {
                m.append("no captured graph for batch ");
                push_decimal(&mut m, *n as u64);
                m.append("; run a step at that size first");
            },
            GpuError::CacheFull => {
                m.append("cache full during profiling");
            },
            GpuError::NoTokens => {
                m.append("no tokens to process");
            },
            GpuError::Sequence { len, capacity } => {
                m.append("sequence of ");
                push_decimal(&mut m, *len as u64);
                m.append(" exceeds cache capacity ");
                push_decimal(&mut m, *capacity as u64);
            },
            GpuError::SwigluOnly => {
                m.append("the GPU path currently implements swiglu only");
            },
            GpuError::ProfileSwigluOnly => {
                m.append("swiglu only");
            },
            GpuError::PackedRequests { max, got } => {
                m.append("packed prefill needs 1..=");
                push_decimal(&mut m, *max as u64);
                m.append(" requests, got ");
                push_decimal(&mut m, *got as u64);
            },
            GpuError::PackedStride => {
                m.append("packed page-table stride exceeds kernel index range");
            },
            GpuError::PackedPosition => {
                m.append("packed position overflow");
            },
            GpuError::PackedRows => {
                m.append("packed row count overflow");
            },
            GpuError::PackedCapacity { tokens } => {
                m.append("packed chunk/batch exceeds ");
                push_decimal(&mut m, *tokens as u64);
                m.append(" token capacity or is empty");
            },
            GpuError::PackedTable { want } => {
                m.append("packed page table must contain ");
                push_decimal(&mut m, *want as u64);
                m.append(" entries");
            },
            GpuError::PackedPage { page } => {
                m.append("packed page ");
                push_signed(&mut m, *page);
                m.append(" outside the pool");
            },
            GpuError::PackedAlias { page } => {
                m.append("packed page ");
                push_signed(&mut m, *page);
                m.append(" is aliased by multiple logical pages");
            },
            GpuError::PackedToken { token, vocab } => {
                m.append("packed token ");
                push_decimal(&mut m, *token as u64);
                m.append(" outside vocabulary ");
                push_decimal(&mut m, *vocab as u64);
            },
            GpuError::PackedLogits => {
                m.append("packed final logits exceed kernel index range");
            },
            GpuError::PackedTopK { row, k, finals } => {
                m.append("invalid packed top-k row ");
                push_decimal(&mut m, *row as u64);
                m.append(", k=");
                push_decimal(&mut m, *k as u64);
                m.append(", final rows=");
                push_decimal(&mut m, *finals as u64);
            },
            GpuError::PackedTwice { row } => {
                m.append("duplicate packed selection row ");
                push_decimal(&mut m, *row as u64);
            },
            GpuError::PackedFull { row } => {
                m.append("invalid or duplicate packed full-logit row ");
                push_decimal(&mut m, *row as u64);
            },
            GpuError::ProfileIters => {
                m.append("packed profiling needs at least one iteration");
            },
            GpuError::ReplayShape => {
                m.append("invalid packed replay benchmark shape");
            },
            GpuError::ReplayStale => {
                m.append("packed replay requires a just-prepared matching batch");
            },
            GpuError::Page { error } => {
                m.append(error.message().as_str());
            },
        }
        assert(m@ =~= self.text());
        m
    }
}

} // verus!
