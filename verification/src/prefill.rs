//! Deterministic planning for packed prompt work.
//!
//! The runtime supplies its round-robin queue in order. Each plan visits each
//! request at most once; after execution, unfinished slices move to the queue's
//! back and completed slices leave it. New admissions also join at the back.
//! With at most R resident requests and a positive budget, a waiting survivor
//! therefore receives work within R nonempty plans, including under arrivals
//! and cancellations. A plan carries request identities, never resident slots.
use crate::math;
use crate::paged::{PoolView, SequenceView, PAGE_TOKENS};
use crate::text;
use crate::text::push_decimal;
use vstd::prelude::*;

verus! {

/// Why a request, a budget or a plan was refused.
#[derive(Debug)]
pub enum PrefillError {
    /// The sampling policy refuses the request, in its own words.
    Sampling(String),
    /// The prompt or the output budget is empty.
    Empty,
    /// The positions of the request do not fit a `usize`.
    Overflow,
    /// The request is longer than the context.
    Context { positions: usize, context: usize },
    /// The request needs more pages than the whole pool has.
    Pages { pages: usize, capacity: usize },
    /// A prompt token is not in the vocabulary.
    Token { token: usize, vocab: usize },
    /// The id names a request that is still queued or resident.
    DuplicateId { id: u64 },
    /// The token budget is outside `1..=capacity`.
    TokenBudget { capacity: usize, got: usize },
    /// The request limit is outside `1..=capacity`.
    RequestLimit { capacity: usize, got: usize },
    /// The chunk cap is outside `1..=capacity`.
    ChunkCap { capacity: usize, got: usize },
    /// A planning limit is zero.
    ZeroLimit,
    /// A queued request has no prompt left.
    Progress { id: u64, done: usize, prompt_len: usize },
    /// A request is queued twice.
    Repeated { id: u64 },
    /// More reservation was returned than is held.
    OverRelease,
}

impl PrefillError {
    /// The error in words.
    pub open spec fn text(self) -> Seq<char> {
        match self {
            PrefillError::Sampling(m) => m@,
            PrefillError::Empty => "prompt length and output token budget must be positive"@,
            PrefillError::Overflow => "request token count overflows usize"@,
            PrefillError::Context { positions, context } => "request needs "@ + text::decimal(
                positions as nat,
            ) + " cache positions, capacity is "@ + text::decimal(context as nat),
            PrefillError::Pages { pages, capacity } => "request needs "@ + text::decimal(
                pages as nat,
            ) + " KV pages but pool capacity is "@ + text::decimal(capacity as nat),
            PrefillError::Token { token, vocab } => "request token "@ + text::decimal(
                token as nat,
            ) + " outside vocabulary "@ + text::decimal(vocab as nat),
            PrefillError::DuplicateId { id } => "request id "@ + text::decimal(id as nat)
                + " is already queued or resident"@,
            PrefillError::TokenBudget { capacity, got } => "prefill token budget must be in 1..="@
                + text::decimal(capacity as nat) + ", got "@ + text::decimal(got as nat),
            PrefillError::RequestLimit { capacity, got } => "prefill request limit must be in 1..="@
                + text::decimal(capacity as nat) + ", got "@ + text::decimal(got as nat),
            PrefillError::ChunkCap { capacity, got } => "prefill chunk cap must be in 1..="@
                + text::decimal(capacity as nat) + ", got "@ + text::decimal(got as nat),
            PrefillError::ZeroLimit => "prefill planning limits must all be positive"@,
            PrefillError::Progress { id, done, prompt_len } => "request "@ + text::decimal(
                id as nat,
            ) + " has invalid prefill progress "@ + text::decimal(done as nat) + "/"@
                + text::decimal(prompt_len as nat),
            PrefillError::Repeated { id } => "request "@ + text::decimal(id as nat)
                + " appears twice in a prefill plan"@,
            PrefillError::OverRelease => "released more KV reservation than held"@,
        }
    }

    /// The error in words, for a log line or a response body.
    pub fn message(&self) -> (m: String)
        ensures
            m@ == self.text(),
    {
        let mut m = String::new();
        match self {
            PrefillError::Sampling(text) => m.append(text.as_str()),
            PrefillError::Empty => m.append(
                "prompt length and output token budget must be positive",
            ),
            PrefillError::Overflow => m.append("request token count overflows usize"),
            PrefillError::Context { positions, context } => {
                m.append("request needs ");
                push_decimal(&mut m, *positions as u64);
                m.append(" cache positions, capacity is ");
                push_decimal(&mut m, *context as u64);
            },
            PrefillError::Pages { pages, capacity } => {
                m.append("request needs ");
                push_decimal(&mut m, *pages as u64);
                m.append(" KV pages but pool capacity is ");
                push_decimal(&mut m, *capacity as u64);
            },
            PrefillError::Token { token, vocab } => {
                m.append("request token ");
                push_decimal(&mut m, *token as u64);
                m.append(" outside vocabulary ");
                push_decimal(&mut m, *vocab as u64);
            },
            PrefillError::DuplicateId { id } => {
                m.append("request id ");
                push_decimal(&mut m, *id);
                m.append(" is already queued or resident");
            },
            PrefillError::TokenBudget { capacity, got } => {
                m.append("prefill token budget must be in 1..=");
                push_decimal(&mut m, *capacity as u64);
                m.append(", got ");
                push_decimal(&mut m, *got as u64);
            },
            PrefillError::RequestLimit { capacity, got } => {
                m.append("prefill request limit must be in 1..=");
                push_decimal(&mut m, *capacity as u64);
                m.append(", got ");
                push_decimal(&mut m, *got as u64);
            },
            PrefillError::ChunkCap { capacity, got } => {
                m.append("prefill chunk cap must be in 1..=");
                push_decimal(&mut m, *capacity as u64);
                m.append(", got ");
                push_decimal(&mut m, *got as u64);
            },
            PrefillError::ZeroLimit => m.append("prefill planning limits must all be positive"),
            PrefillError::Progress { id, done, prompt_len } => {
                m.append("request ");
                push_decimal(&mut m, *id);
                m.append(" has invalid prefill progress ");
                push_decimal(&mut m, *done as u64);
                m.append("/");
                push_decimal(&mut m, *prompt_len as u64);
            },
            PrefillError::Repeated { id } => {
                m.append("request ");
                push_decimal(&mut m, *id);
                m.append(" appears twice in a prefill plan");
            },
            PrefillError::OverRelease => m.append("released more KV reservation than held"),
        }
        assert(m@ =~= self.text());
        m
    }
}

/// Whether a token id can be looked up on the device.
pub open spec fn token_ok(token: usize, vocab: usize) -> bool {
    token < vocab && token <= i32::MAX
}

/// Index of the first token that cannot be looked up, or the length.
pub open spec fn first_bad_token(prompt: Seq<usize>, vocab: usize) -> nat
    decreases prompt.len(),
{
    if prompt.len() == 0 || !token_ok(prompt[0], vocab) {
        0
    } else {
        1 + first_bad_token(prompt.skip(1), vocab)
    }
}

proof fn lemma_first_bad_token(prompt: Seq<usize>, vocab: usize, at: nat)
    requires
        at <= prompt.len(),
        forall|k: int| 0 <= k < at ==> token_ok(#[trigger] prompt[k], vocab),
        at < prompt.len() ==> !token_ok(prompt[at as int], vocab),
    ensures
        first_bad_token(prompt, vocab) == at,
    decreases prompt.len(),
{
    if prompt.len() > 0 && token_ok(prompt[0], vocab) {
        let rest = prompt.skip(1);
        assert forall|k: int| 0 <= k < at - 1 implies token_ok(#[trigger] rest[k], vocab) by {
            assert(rest[k] == prompt[k + 1]);
        }
        if at == 0 {
        } else {
            lemma_first_bad_token(rest, vocab, (at - 1) as nat);
        }
    }
}

/// Cache positions a request occupies through its last generated token.
pub open spec fn positions_of(prompt: nat, generated: nat) -> int {
    prompt + generated - 1
}

/// Pages a request may come to need, or why it cannot be served at all.
pub open spec fn reservation_of(prompt: usize, generated: usize, context: usize) -> Result<
    usize,
    PrefillError,
> {
    let positions = positions_of(prompt as nat, generated as nat);
    if prompt == 0 || generated == 0 {
        Err(PrefillError::Empty)
    } else if positions > usize::MAX {
        Err(PrefillError::Overflow)
    } else if positions > context {
        Err(PrefillError::Context { positions: positions as usize, context })
    } else {
        Ok(math::ceil_div(positions as nat, PAGE_TOKENS as nat) as usize)
    }
}

/// Pages a request can need through its final generated token. The first token
/// comes from prefill logits; only the remaining output tokens require decode
/// writes. Admission reserves this maximum logically while allocating pages
/// lazily, preventing prompt admissions from spending a decoder's future pages.
pub fn request_page_reservation(prompt: usize, generated: usize, context: usize) -> (r: Result<
    usize,
    PrefillError,
>)
    ensures
        r == reservation_of(prompt, generated, context),
{
    if prompt == 0 || generated == 0 {
        return Err(PrefillError::Empty);
    }
    match prompt.checked_add(generated - 1) {
        None => Err(PrefillError::Overflow),
        Some(positions) => {
            if positions > context {
                Err(PrefillError::Context { positions, context })
            } else {
                Ok(math::div_ceil(positions, PAGE_TOKENS))
            }
        },
    }
}

/// Validate a direct runtime submission before it can own pages.
///
/// `sampling` is the sampling policy's verdict on the request's settings; a
/// refusal there comes before everything else.
pub fn validate_request(
    prompt: &[usize],
    max_tokens: usize,
    sampling: Result<(), String>,
    vocab: usize,
    context: usize,
    pool_pages: usize,
) -> (r: Result<(), PrefillError>)
    ensures
        match sampling {
            Err(m) => r == Err::<(), PrefillError>(PrefillError::Sampling(m)),
            Ok(()) => match reservation_of(prompt@.len() as usize, max_tokens, context) {
                Err(e) => r == Err::<(), PrefillError>(e),
                Ok(pages) => {
                    let bad = first_bad_token(prompt@, vocab);
                    if pages > pool_pages {
                        r == Err::<(), PrefillError>(
                            PrefillError::Pages { pages, capacity: pool_pages },
                        )
                    } else if bad < prompt@.len() {
                        r == Err::<(), PrefillError>(
                            PrefillError::Token { token: prompt@[bad as int], vocab },
                        )
                    } else {
                        r is Ok
                    }
                },
            },
        },
{
    match sampling {
        Err(m) => return Err(PrefillError::Sampling(m)),
        Ok(()) => {},
    }
    let pages: usize = match request_page_reservation(prompt.len(), max_tokens, context) {
        Err(e) => return Err(e),
        Ok(n) => n,
    };
    if pages > pool_pages {
        return Err(PrefillError::Pages { pages, capacity: pool_pages });
    }
    let mut i: usize = 0;
    while i < prompt.len()
        invariant
            i <= prompt@.len(),
            sampling is Ok,
            reservation_of(prompt@.len() as usize, max_tokens, context) == Ok::<
                usize,
                PrefillError,
            >(pages),
            pages <= pool_pages,
            forall|k: int| 0 <= k < i ==> token_ok(#[trigger] prompt@[k], vocab),
        decreases prompt@.len() - i,
    {
        let token: usize = prompt[i];
        if token >= vocab || token > 0x7fff_ffff {
            proof {
                lemma_first_bad_token(prompt@, vocab, i as nat);
            }
            return Err(PrefillError::Token { token, vocab });
        }
        i += 1;
    }
    proof {
        lemma_first_bad_token(prompt@, vocab, i as nat);
    }
    Ok(())
}

/// IDs may be reused after completion, but may never name two live requests.
pub fn validate_request_identity(id: u64, live: &[u64]) -> (r: Result<(), PrefillError>)
    ensures
        r is Ok <==> !live@.contains(id),
        r matches Err(e) ==> e == (PrefillError::DuplicateId { id }),
{
    let mut i: usize = 0;
    while i < live.len()
        invariant
            i <= live@.len(),
            forall|k: int| 0 <= k < i ==> live@[k] != id,
        decreases live@.len() - i,
    {
        if live[i] == id {
            return Err(PrefillError::DuplicateId { id });
        }
        i += 1;
    }
    Ok(())
}

/// A queued prompt and how much of it has been consumed.
#[derive(Debug, Clone, Copy, PartialEq, Eq, Structural)]
pub struct PrefillWork {
    pub request_id: u64,
    pub prompt_len: usize,
    pub done: usize,
}

/// One request's share of a packed batch.
#[derive(Debug, Clone, Copy, PartialEq, Eq, Structural)]
pub struct PrefillSlice {
    pub request_id: u64,
    pub packed_row_start: usize,
    pub prompt_start: usize,
    pub len: usize,
    pub is_final: bool,
}

/// All limits apply to real token rows; no semantic padding is introduced.
#[derive(Debug, Clone, Copy, PartialEq, Eq, Structural)]
pub struct PrefillBudget {
    pub tokens: usize,
    pub requests: usize,
    pub chunk: usize,
}

impl PrefillBudget {
    /// Whether no limit is zero.
    pub open spec fn positive(self) -> bool {
        self.tokens > 0 && self.requests > 0 && self.chunk > 0
    }

    /// Check the limits against what the device was set up for.
    pub fn validate(self, token_capacity: usize, request_capacity: usize) -> (r: Result<
        (),
        PrefillError,
    >)
        ensures
            r == if !(1 <= self.tokens <= token_capacity) {
                Err::<(), PrefillError>(
                    PrefillError::TokenBudget { capacity: token_capacity, got: self.tokens },
                )
            } else if !(1 <= self.requests <= request_capacity) {
                Err(PrefillError::RequestLimit { capacity: request_capacity, got: self.requests })
            } else if !(1 <= self.chunk <= token_capacity) {
                Err(PrefillError::ChunkCap { capacity: token_capacity, got: self.chunk })
            } else {
                Ok(())
            },
    {
        if self.tokens == 0 || self.tokens > token_capacity {
            return Err(PrefillError::TokenBudget { capacity: token_capacity, got: self.tokens });
        }
        if self.requests == 0 || self.requests > request_capacity {
            return Err(
                PrefillError::RequestLimit { capacity: request_capacity, got: self.requests },
            );
        }
        if self.chunk == 0 || self.chunk > token_capacity {
            return Err(PrefillError::ChunkCap { capacity: token_capacity, got: self.chunk });
        }
        Ok(())
    }
}

/// What a plan is: its slices, the rows they fill, and how many finish.
pub ghost struct PlanView {
    pub slices: Seq<PrefillSlice>,
    pub tokens: nat,
    pub final_rows: nat,
}

impl PlanView {
    /// A plan of nothing.
    pub open spec fn empty() -> PlanView {
        PlanView { slices: Seq::empty(), tokens: 0, final_rows: 0 }
    }

    /// Whether the budget leaves no room for another slice.
    pub open spec fn full(self, b: PrefillBudget) -> bool {
        self.slices.len() == b.requests || self.tokens == b.tokens
    }

    /// Whether a request already has a slice.
    pub open spec fn holds(self, id: u64) -> bool {
        exists|i: int| 0 <= i < self.slices.len() && (#[trigger] self.slices[i]).request_id == id
    }

    /// Why a request cannot get a slice, if it cannot.
    pub open spec fn refusal(self, w: PrefillWork) -> Option<PrefillError> {
        if w.done >= w.prompt_len {
            Some(
                PrefillError::Progress {
                    id: w.request_id,
                    done: w.done,
                    prompt_len: w.prompt_len,
                },
            )
        } else if self.holds(w.request_id) {
            Some(PrefillError::Repeated { id: w.request_id })
        } else {
            None
        }
    }

    /// The slice that a request gets next: what is left of its prompt, as far
    /// as the chunk cap and the rest of the token budget allow.
    pub open spec fn next_slice(self, w: PrefillWork, b: PrefillBudget) -> PrefillSlice {
        let remaining = w.prompt_len - w.done;
        let capped = if remaining <= b.chunk {
            remaining
        } else {
            b.chunk as int
        };
        let room = b.tokens - self.tokens;
        let len = if capped <= room {
            capped
        } else {
            room
        };
        PrefillSlice {
            request_id: w.request_id,
            packed_row_start: self.tokens as usize,
            prompt_start: w.done,
            len: len as usize,
            is_final: len == remaining,
        }
    }

    /// The plan with one more request.
    pub open spec fn with(self, w: PrefillWork, b: PrefillBudget) -> PlanView {
        let s = self.next_slice(w, b);
        PlanView {
            slices: self.slices.push(s),
            tokens: self.tokens + s.len as nat,
            final_rows: self.final_rows + if s.is_final {
                1nat
            } else {
                0nat
            },
        }
    }
}

/// The plan of the first `n` queued requests, each with a slice.
pub open spec fn plan_prefix(work: Seq<PrefillWork>, b: PrefillBudget, n: nat) -> PlanView
    decreases n,
{
    if n == 0 {
        PlanView::empty()
    } else {
        plan_prefix(work, b, (n - 1) as nat).with(work[n - 1], b)
    }
}

/// Whether planning stops before request `n`: the queue is at its end, the
/// budget is spent, or the request is refused.
pub open spec fn stops_at(work: Seq<PrefillWork>, b: PrefillBudget, n: nat) -> bool {
    ||| n >= work.len()
    ||| plan_prefix(work, b, n).full(b)
    ||| plan_prefix(work, b, n).refusal(work[n as int]) is Some
}

/// How many queued requests get a slice, from request `n` on.
pub open spec fn accepted_from(work: Seq<PrefillWork>, b: PrefillBudget, n: nat) -> nat
    decreases work.len() - n,
{
    if stops_at(work, b, n) {
        n
    } else {
        accepted_from(work, b, n + 1)
    }
}

/// How many queued requests get a slice.
pub open spec fn accepted(work: Seq<PrefillWork>, b: PrefillBudget) -> nat {
    accepted_from(work, b, 0)
}

/// The plan for a queue.
pub open spec fn planned(work: Seq<PrefillWork>, b: PrefillBudget) -> PlanView {
    if b.positive() {
        plan_prefix(work, b, accepted(work, b))
    } else {
        PlanView::empty()
    }
}

/// Whether a queue can be planned: the limits are positive, and no request is
/// refused before the budget is spent.
pub open spec fn verdict(work: Seq<PrefillWork>, b: PrefillBudget) -> Result<(), PrefillError> {
    let n = accepted(work, b);
    if !b.positive() {
        Err(PrefillError::ZeroLimit)
    } else if n >= work.len() || planned(work, b).full(b) {
        Ok(())
    } else {
        match planned(work, b).refusal(work[n as int]) {
            Some(e) => Err(e),
            None => Ok(()),
        }
    }
}

/// Reused by the runtime so constructing a batch does not allocate per token.
#[derive(Debug, PartialEq, Eq)]
pub struct PrefillBatchPlan {
    pub slices: Vec<PrefillSlice>,
    pub tokens: usize,
    pub final_rows: usize,
}

impl View for PrefillBatchPlan {
    type V = PlanView;

    open spec fn view(&self) -> PlanView {
        PlanView {
            slices: self.slices@,
            tokens: self.tokens as nat,
            final_rows: self.final_rows as nat,
        }
    }
}

impl Default for PrefillBatchPlan {
    fn default() -> (p: Self)
        ensures
            p@ == PlanView::empty(),
    {
        PrefillBatchPlan { slices: Vec::new(), tokens: 0, final_rows: 0 }
    }
}

impl Clone for PrefillBatchPlan {
    fn clone(&self) -> (p: Self)
        ensures
            p@ == self@,
    {
        let slices = self.slices.clone();
        assert(slices@ =~= self.slices@);
        PrefillBatchPlan { slices, tokens: self.tokens, final_rows: self.final_rows }
    }
}

impl PrefillBatchPlan {
    /// An empty plan with room for `requests` slices.
    pub fn with_capacity(requests: usize) -> (p: Self)
        ensures
            p@ == PlanView::empty(),
    {
        PrefillBatchPlan { slices: Vec::with_capacity(requests), tokens: 0, final_rows: 0 }
    }

    /// Plan the queue in order. On an error the plan holds the slices of the
    /// requests before the refused one.
    pub fn build(&mut self, work: &[PrefillWork], budget: PrefillBudget) -> (r: Result<
        (),
        PrefillError,
    >)
        ensures
            final(self)@ == planned(work@, budget),
            r == verdict(work@, budget),
    {
        self.slices.clear();
        self.tokens = 0;
        self.final_rows = 0;
        if budget.tokens == 0 || budget.requests == 0 || budget.chunk == 0 {
            return Err(PrefillError::ZeroLimit);
        }
        let mut n: usize = 0;
        while n < work.len()
            invariant
                budget.positive(),
                n <= work@.len(),
                self@ == plan_prefix(work@, budget, n as nat),
                self.slices@.len() == n,
                self.tokens <= budget.tokens,
                n <= budget.requests,
                self.final_rows <= n,
                accepted(work@, budget) == accepted_from(work@, budget, n as nat),
            decreases work@.len() - n,
        {
            if self.slices.len() == budget.requests || self.tokens == budget.tokens {
                return Ok(());
            }
            let request: PrefillWork = work[n];
            if request.done >= request.prompt_len {
                return Err(
                    PrefillError::Progress {
                        id: request.request_id,
                        done: request.done,
                        prompt_len: request.prompt_len,
                    },
                );
            }
            let mut i: usize = 0;
            while i < self.slices.len()
                invariant
                    budget.positive(),
                    n < work@.len(),
                    request == work@[n as int],
                    request.done < request.prompt_len,
                    self@ == plan_prefix(work@, budget, n as nat),
                    accepted(work@, budget) == accepted_from(work@, budget, n as nat),
                    !self@.full(budget),
                    i <= self.slices@.len(),
                    forall|k: int|
                        0 <= k < i ==> (#[trigger] self.slices@[k]).request_id
                            != request.request_id,
                decreases self.slices@.len() - i,
            {
                if self.slices[i].request_id == request.request_id {
                    return Err(PrefillError::Repeated { id: request.request_id });
                }
                i += 1;
            }
            let remaining: usize = request.prompt_len - request.done;
            let len: usize = math::min(
                math::min(remaining, budget.chunk),
                budget.tokens - self.tokens,
            );
            let is_final: bool = len == remaining;
            self.slices.push(
                PrefillSlice {
                    request_id: request.request_id,
                    packed_row_start: self.tokens,
                    prompt_start: request.done,
                    len,
                    is_final,
                },
            );
            self.tokens += len;
            if is_final {
                self.final_rows += 1;
            }
            n += 1;
        }
        Ok(())
    }
}

/// Admission's logical page budget, independent of physical lazy allocation.
#[derive(Debug)]
pub struct PageReservations {
    capacity: usize,
    held: usize,
}

/// What a reservation ledger is: the pages there are, and the pages spoken for.
pub ghost struct ReservationsView {
    pub capacity: nat,
    pub held: nat,
}

impl View for PageReservations {
    type V = ReservationsView;

    closed spec fn view(&self) -> ReservationsView {
        ReservationsView { capacity: self.capacity as nat, held: self.held as nat }
    }
}

impl PageReservations {
    /// No more is held than there is.
    pub closed spec fn wf(&self) -> bool {
        self.held <= self.capacity
    }

    /// A well-formed ledger never promises pages that do not exist.
    pub proof fn lemma_wf(&self)
        requires
            self.wf(),
        ensures
            self@.held <= self@.capacity,
    {
    }

    /// A ledger of which nothing is held.
    pub fn new(capacity: usize) -> (s: Self)
        ensures
            s.wf(),
            s@ == (ReservationsView { capacity: capacity as nat, held: 0 }),
    {
        PageReservations { capacity, held: 0 }
    }

    /// Hold `pages` if they are there: `false` means to ask again later, an
    /// error that asking again would never help.
    pub fn try_reserve(&mut self, pages: usize) -> (r: Result<bool, PrefillError>)
        requires
            old(self).wf(),
        ensures
            final(self).wf(),
            final(self)@.capacity == old(self)@.capacity,
            r == if pages == 0 || pages > old(self)@.capacity {
                Err::<bool, PrefillError>(
                    PrefillError::Pages { pages, capacity: old(self)@.capacity as usize },
                )
            } else {
                Ok(pages <= old(self)@.capacity - old(self)@.held)
            },
            final(self)@.held == if r == Ok::<bool, PrefillError>(true) {
                old(self)@.held + pages
            } else {
                old(self)@.held as int
            },
    {
        if pages == 0 || pages > self.capacity {
            return Err(PrefillError::Pages { pages, capacity: self.capacity });
        }
        if pages > self.capacity - self.held {
            return Ok(false);
        }
        self.held += pages;
        Ok(true)
    }

    /// Give back `pages`.
    pub fn release(&mut self, pages: usize) -> (r: Result<(), PrefillError>)
        requires
            old(self).wf(),
        ensures
            final(self).wf(),
            final(self)@.capacity == old(self)@.capacity,
            r is Ok <==> pages <= old(self)@.held,
            match r {
                Ok(()) => final(self)@.held == old(self)@.held - pages,
                Err(e) => e == PrefillError::OverRelease && final(self)@ == old(self)@,
            },
    {
        match self.held.checked_sub(pages) {
            Some(held) => {
                self.held = held;
                Ok(())
            },
            None => Err(PrefillError::OverRelease),
        }
    }
}

proof fn lemma_accepted(work: Seq<PrefillWork>, b: PrefillBudget, n: nat)
    requires
        n <= work.len(),
    ensures
        n <= accepted_from(work, b, n) <= work.len(),
        stops_at(work, b, accepted_from(work, b, n)),
        forall|j: nat| n <= j < accepted_from(work, b, n) ==> !#[trigger] stops_at(work, b, j),
    decreases work.len() - n,
{
    if !stops_at(work, b, n) {
        lemma_accepted(work, b, n + 1);
    }
}

/// Whether slice `i` of a plan is queued request `i`'s next piece.
pub open spec fn slice_serves(s: PrefillSlice, w: PrefillWork, b: PrefillBudget) -> bool {
    &&& s.request_id == w.request_id
    &&& s.prompt_start == w.done
    &&& 0 < s.len <= b.chunk
    &&& s.prompt_start + s.len <= w.prompt_len
    &&& s.is_final <==> s.prompt_start + s.len == w.prompt_len
}

/// Rows before slice `i` of a plan.
pub open spec fn rows_before(slices: Seq<PrefillSlice>, i: nat) -> nat
    decreases i,
{
    if i == 0 {
        0
    } else {
        rows_before(slices, (i - 1) as nat) + slices[i - 1].len as nat
    }
}

/// Slices that finish their prompt, among the first `i`.
pub open spec fn finals_before(slices: Seq<PrefillSlice>, i: nat) -> nat
    decreases i,
{
    if i == 0 {
        0
    } else {
        finals_before(slices, (i - 1) as nat) + if slices[i - 1].is_final {
            1nat
        } else {
            0nat
        }
    }
}

proof fn lemma_rows_before_prefix(a: Seq<PrefillSlice>, b: Seq<PrefillSlice>, i: nat)
    requires
        i <= a.len(),
        i <= b.len(),
        forall|k: int| 0 <= k < i ==> a[k] == b[k],
    ensures
        rows_before(a, i) == rows_before(b, i),
        finals_before(a, i) == finals_before(b, i),
    decreases i,
{
    if i > 0 {
        lemma_rows_before_prefix(a, b, (i - 1) as nat);
    }
}

/// What holds of every plan of the first `n` requests.
pub open spec fn plan_packed(work: Seq<PrefillWork>, b: PrefillBudget, p: PlanView, n: nat) -> bool {
    &&& p.slices.len() == n
    &&& n <= b.requests
    &&& p.tokens <= b.tokens
    &&& p.tokens == rows_before(p.slices, n)
    &&& p.final_rows == finals_before(p.slices, n)
    &&& forall|i: int| 0 <= i < n ==> slice_serves(#[trigger] p.slices[i], work[i], b)
    &&& forall|i: int|
        0 <= i < n ==> (#[trigger] p.slices[i]).packed_row_start == rows_before(
            p.slices,
            i as nat,
        )
    &&& forall|i: int, j: int|
        0 <= i < j < n ==> (#[trigger] p.slices[i]).request_id != (
        #[trigger] p.slices[j]).request_id
    &&& forall|i: int|
        0 <= i < n && p.tokens < b.tokens ==> {
            ||| (#[trigger] p.slices[i]).is_final
            ||| p.slices[i].len == b.chunk
        }
}

proof fn lemma_plan_packed(work: Seq<PrefillWork>, b: PrefillBudget, n: nat)
    requires
        b.positive(),
        n <= work.len(),
        forall|j: nat| j < n ==> !#[trigger] stops_at(work, b, j),
    ensures
        plan_packed(work, b, plan_prefix(work, b, n), n),
    decreases n,
{
    if n > 0 {
        let m = (n - 1) as nat;
        lemma_plan_packed(work, b, m);
        let q = plan_prefix(work, b, m);
        let p = plan_prefix(work, b, n);
        assert(!stops_at(work, b, m));
        assert(q.refusal(work[m as int]) is None);
        assert(p.slices =~= q.slices.push(q.next_slice(work[m as int], b)));
        lemma_rows_before_prefix(p.slices, q.slices, m);
        assert forall|i: int| 0 <= i < n implies (#[trigger] p.slices[i]).packed_row_start
            == rows_before(p.slices, i as nat) by {
            if i < m {
                lemma_rows_before_prefix(p.slices, q.slices, i as nat);
                assert(p.slices[i] == q.slices[i]);
            }
        }
        assert forall|i: int, j: int| 0 <= i < j < n implies (
        #[trigger] p.slices[i]).request_id != (#[trigger] p.slices[j]).request_id by {
            assert(p.slices[i] == q.slices[i]);
            if j == m {
                assert(!q.holds(work[m as int].request_id));
            } else {
                assert(p.slices[j] == q.slices[j]);
            }
        }
        assert forall|i: int| 0 <= i < n implies slice_serves(
            #[trigger] p.slices[i],
            work[i],
            b,
        ) by {
            if i < m {
                assert(p.slices[i] == q.slices[i]);
            }
        }
        assert forall|i: int| 0 <= i < n && p.tokens < b.tokens implies {
            ||| (#[trigger] p.slices[i]).is_final
            ||| p.slices[i].len == b.chunk
        } by {
            if i < m {
                assert(p.slices[i] == q.slices[i]);
            }
        }
    }
}

/// A plan packs the head of the queue densely: request `i` gets slice `i`, each
/// request once, rows follow each other without a gap, no limit is exceeded,
/// and a prompt is cut short only by the chunk cap or by a spent budget.
pub proof fn law_plan_is_packed(work: Seq<PrefillWork>, b: PrefillBudget)
    requires
        b.positive(),
    ensures
        accepted(work, b) <= work.len(),
        plan_packed(work, b, planned(work, b), accepted(work, b)),
        stops_at(work, b, accepted(work, b)),
{
    lemma_accepted(work, b, 0);
    lemma_plan_packed(work, b, accepted(work, b));
}

/// The head of the queue always gets work.
pub proof fn law_head_of_queue_is_served(work: Seq<PrefillWork>, b: PrefillBudget)
    requires
        b.positive(),
        work.len() > 0,
        work[0].done < work[0].prompt_len,
    ensures
        accepted(work, b) > 0,
        planned(work, b).slices.len() > 0,
        slice_serves(planned(work, b).slices[0], work[0], b),
{
    law_plan_is_packed(work, b);
    assert(plan_prefix(work, b, 0) == PlanView::empty());
    assert(!stops_at(work, b, 0));
}

/// The queue after a plan of its first `n` requests ran: the requests that
/// waited keep their order, less the cancelled ones, and everything else (what
/// is left of the served requests, and new admissions) joins behind them.
pub open spec fn queue_after(
    queue: Seq<PrefillWork>,
    n: nat,
    cancelled: Set<u64>,
    joined: Seq<PrefillWork>,
) -> Seq<PrefillWork> {
    queue.skip(n as int).filter(|w: PrefillWork| !cancelled.contains(w.request_id)) + joined
}

proof fn lemma_filter_position(s: Seq<PrefillWork>, cancelled: Set<u64>, at: int) -> (to: int)
    requires
        0 <= at < s.len(),
        !cancelled.contains(s[at].request_id),
    ensures
        0 <= to <= at,
        to < s.filter(|w: PrefillWork| !cancelled.contains(w.request_id)).len(),
        s.filter(|w: PrefillWork| !cancelled.contains(w.request_id))[to] == s[at],
    decreases s.len(),
{
    let keep = |w: PrefillWork| !cancelled.contains(w.request_id);
    reveal(Seq::filter);
    let rest = s.drop_last();
    if at == s.len() - 1 {
        lemma_filter_len(rest, cancelled);
        assert(keep(s.last()));
        rest.filter(keep).len() as int
    } else {
        let to = lemma_filter_position(rest, cancelled, at);
        assert(rest[at] == s[at]);
        to
    }
}

proof fn lemma_filter_len(s: Seq<PrefillWork>, cancelled: Set<u64>)
    ensures
        s.filter(|w: PrefillWork| !cancelled.contains(w.request_id)).len() <= s.len(),
    decreases s.len(),
{
    reveal(Seq::filter);
    if s.len() > 0 {
        lemma_filter_len(s.drop_last(), cancelled);
    }
}

/// One step of a run of plans over a changing queue: the limits are positive,
/// the head of the queue has prompt left, `id` is not cancelled, and the next
/// queue is what the plan and the arrivals leave.
pub open spec fn round(
    queue: Seq<PrefillWork>,
    budget: PrefillBudget,
    cancelled: Set<u64>,
    joined: Seq<PrefillWork>,
    id: u64,
    next: Seq<PrefillWork>,
) -> bool {
    &&& budget.positive()
    &&& queue.len() > 0 ==> queue[0].done < queue[0].prompt_len
    &&& !cancelled.contains(id)
    &&& next == queue_after(queue, accepted(queue, budget), cancelled, joined)
}

/// Whether a plan of a queue gives request `id` a slice.
pub open spec fn serves(queue: Seq<PrefillWork>, budget: PrefillBudget, id: u64) -> bool {
    planned(queue, budget).holds(id)
}

/// A plan serves every request that it accepts, and accepts the first.
proof fn lemma_accepted_is_served(queue: Seq<PrefillWork>, budget: PrefillBudget, at: nat)
    requires
        budget.positive(),
        at < queue.len(),
        queue[0].done < queue[0].prompt_len,
    ensures
        0 < accepted(queue, budget) <= queue.len(),
        at < accepted(queue, budget) ==> serves(queue, budget, queue[at as int].request_id),
{
    law_plan_is_packed(queue, budget);
    law_head_of_queue_is_served(queue, budget);
    if at < accepted(queue, budget) {
        let s = planned(queue, budget).slices[at as int];
        assert(slice_serves(s, queue[at as int], budget));
    }
}

proof fn lemma_one_round(
    queue: Seq<PrefillWork>,
    budget: PrefillBudget,
    cancelled: Set<u64>,
    joined: Seq<PrefillWork>,
    id: u64,
    next: Seq<PrefillWork>,
    at: nat,
) -> (to: nat)
    requires
        round(queue, budget, cancelled, joined, id, next),
        at < queue.len(),
        queue[at as int].request_id == id,
    ensures
        serves(queue, budget, id) || (to < at && to < next.len() && next[to as int].request_id
            == id),
{
    let n = accepted(queue, budget);
    lemma_accepted_is_served(queue, budget, at);
    if at < n {
        0
    } else {
        let waiting = queue.skip(n as int);
        assert(waiting[at - n] == queue[at as int]);
        let to = lemma_filter_position(waiting, cancelled, at - n);
        to as nat
    }
}

/// A waiting request at place `at` of the queue gets work within `at + 1`
/// plans, whatever arrives, is cancelled or completes meanwhile.
pub proof fn law_waiting_requests_are_served(
    queues: Seq<Seq<PrefillWork>>,
    budgets: Seq<PrefillBudget>,
    cancelled: Seq<Set<u64>>,
    joined: Seq<Seq<PrefillWork>>,
    id: u64,
    at: nat,
)
    requires
        at + 1 < queues.len(),
        forall|t: int|
            0 <= t <= at ==> #[trigger] round(
                queues[t],
                budgets[t],
                cancelled[t],
                joined[t],
                id,
                queues[t + 1],
            ),
        at < queues[0].len(),
        queues[0][at as int].request_id == id,
    ensures
        exists|t: int| 0 <= t <= at && #[trigger] serves(queues[t], budgets[t], id),
{
    if forall|t: int| 0 <= t <= at ==> !#[trigger] serves(queues[t], budgets[t], id) {
        lemma_keeps_waiting(queues, budgets, cancelled, joined, id, at, (at + 1) as nat);
    }
}

/// As long as a request is not served it moves up at least one place per plan.
proof fn lemma_keeps_waiting(
    queues: Seq<Seq<PrefillWork>>,
    budgets: Seq<PrefillBudget>,
    cancelled: Seq<Set<u64>>,
    joined: Seq<Seq<PrefillWork>>,
    id: u64,
    at: nat,
    t: nat,
) -> (place: int)
    requires
        t <= at + 1 < queues.len(),
        forall|t: int|
            0 <= t <= at ==> #[trigger] round(
                queues[t],
                budgets[t],
                cancelled[t],
                joined[t],
                id,
                queues[t + 1],
            ),
        at < queues[0].len(),
        queues[0][at as int].request_id == id,
        forall|t: int| 0 <= t <= at ==> !#[trigger] serves(queues[t], budgets[t], id),
    ensures
        0 <= place <= at - t,
        place < queues[t as int].len(),
        queues[t as int][place].request_id == id,
    decreases t,
{
    if t == 0 {
        at as int
    } else {
        let u = t - 1;
        let before = lemma_keeps_waiting(queues, budgets, cancelled, joined, id, at, u as nat);
        assert(round(queues[u], budgets[u], cancelled[u], joined[u], id, queues[u + 1]));
        assert(!serves(queues[u], budgets[u], id));
        lemma_one_round(
            queues[u],
            budgets[u],
            cancelled[u],
            joined[u],
            id,
            queues[u + 1],
            before as nat,
        ) as int
    }
}

/// A request never comes to hold more pages than were reserved for it: through
/// its last generated token a sequence needs no more pages than the reservation.
pub proof fn law_reservation_covers_growth(
    prompt: usize,
    generated: usize,
    context: usize,
    produced: nat,
)
    requires
        reservation_of(prompt, generated, context) is Ok,
        1 <= produced <= generated,
    ensures
        math::ceil_div((prompt + produced - 1) as nat, PAGE_TOKENS as nat) <= reservation_of(
            prompt,
            generated,
            context,
        )->Ok_0,
{
    let all = positions_of(prompt as nat, generated as nat) as nat;
    let now = (prompt + produced - 1) as nat;
    math::lemma_ceil_div(all, PAGE_TOKENS as nat);
    math::lemma_ceil_div(now, PAGE_TOKENS as nat);
}

/// A request's sequence and its pool once the prompt and `k` more positions were
/// committed, the latter one at a time. There is none where the pool ran out.
pub open spec fn decoded(pool: PoolView, prompt: nat, k: nat) -> Option<(SequenceView, PoolView)>
    decreases k,
{
    let (at, extra) = if k == 0 {
        (Some((SequenceView { pages: Seq::empty(), len: 0 }, pool)), prompt)
    } else {
        (decoded(pool, prompt, (k - 1) as nat), 1)
    };
    match at {
        None => None,
        Some((a, now)) => if a.pages_to_grow(extra) <= now.free.len() {
            Some((a.grown(now, extra), now.after_allocs(a.pages_to_grow(extra))))
        } else {
            None
        },
    }
}

proof fn lemma_decoded(pool: PoolView, prompt: nat, k: nat)
    ensures
        decoded(pool, prompt, k) is Some <==> math::ceil_div(prompt + k, PAGE_TOKENS as nat)
            <= pool.free.len(),
        decoded(pool, prompt, k) matches Some((a, now)) ==> a.wf() && a.len == prompt + k
            && now.free.len() == pool.free.len() - a.pages.len(),
    decreases k,
{
    math::lemma_ceil_div(prompt + k, PAGE_TOKENS as nat);
    if k > 0 {
        let j = (k - 1) as nat;
        lemma_decoded(pool, prompt, j);
        math::lemma_ceil_div(prompt + j, PAGE_TOKENS as nat);
    }
}

/// A reservation is exactly the request's peak page use. With as many pages free
/// as were reserved, and with no fewer, the request comes through: its sequence
/// never holds more than the reservation, and after its last generated token it
/// holds that many.
pub proof fn law_reservation_is_the_peak(
    pool: PoolView,
    prompt: usize,
    generated: usize,
    context: usize,
    k: nat,
)
    requires
        reservation_of(prompt, generated, context) is Ok,
        k < generated,
    ensures
        ({
            let pages = reservation_of(prompt, generated, context)->Ok_0;
            let last = (generated - 1) as nat;
            &&& decoded(pool, prompt as nat, last) is Some <==> pages <= pool.free.len()
            &&& decoded(pool, prompt as nat, last) is Some ==> {
                &&& decoded(pool, prompt as nat, k) is Some
                &&& decoded(pool, prompt as nat, k)->Some_0.0.pages.len() <= pages
                &&& decoded(pool, prompt as nat, last)->Some_0.0.pages.len() == pages
            }
        }),
{
    let last = (generated - 1) as nat;
    lemma_decoded(pool, prompt as nat, k);
    lemma_decoded(pool, prompt as nat, last);
    law_reservation_covers_growth(prompt, generated, context, k + 1);
    math::lemma_ceil_div((prompt + last) as nat, PAGE_TOKENS as nat);
}

/// The sum of a list of page counts.
pub open spec fn total(counts: Seq<nat>) -> nat
    decreases counts.len(),
{
    if counts.len() == 0 {
        0
    } else {
        total(counts.drop_last()) + counts.last()
    }
}

proof fn lemma_slack(held: Seq<nat>, reserved: Seq<nat>, k: int)
    requires
        held.len() == reserved.len(),
        forall|i: int| 0 <= i < held.len() ==> #[trigger] held[i] <= reserved[i],
        0 <= k < held.len(),
    ensures
        total(reserved) - total(held) >= reserved[k] - held[k],
        total(reserved) >= total(held),
    decreases held.len(),
{
    let h = held.drop_last();
    let r = reserved.drop_last();
    assert(held[k] <= reserved[k]);
    assert(held.last() <= reserved.last()) by {
        assert(held[held.len() - 1] <= reserved[held.len() - 1]);
    }
    assert forall|i: int| 0 <= i < h.len() implies #[trigger] h[i] <= r[i] by {
        assert(held[i] <= reserved[i]);
    }
    if k < h.len() {
        lemma_slack(h, r, k);
    } else if h.len() > 0 {
        lemma_slack(h, r, 0);
        assert(h[0] <= r[0]);
    } else {
        assert(total(h) == 0 && total(r) == 0);
    }
}

/// A resident request can always grow into its reservation: while the
/// reservations together fit the pool and nobody holds more than was reserved
/// for it, the pages that one request still has coming are free.
pub proof fn law_reserved_pages_are_there(
    n_pages: nat,
    held: Seq<nat>,
    reserved: Seq<nat>,
    k: int,
    extra: nat,
)
    requires
        held.len() == reserved.len(),
        forall|i: int| 0 <= i < held.len() ==> #[trigger] held[i] <= reserved[i],
        total(reserved) <= n_pages,
        0 <= k < held.len(),
        held[k] + extra <= reserved[k],
    ensures
        extra <= n_pages - total(held),
{
    lemma_slack(held, reserved, k);
}

/// A prompt's tokens pass exactly where all of them can be looked up, and the first
/// that cannot is the one that is named.
pub proof fn law_bad_tokens_are_found(prompt: Seq<usize>, vocab: usize)
    ensures
        first_bad_token(prompt, vocab) <= prompt.len(),
        forall|i: int|
            0 <= i < first_bad_token(prompt, vocab) ==> #[trigger] prompt[i] < vocab && prompt[i] <= i32::MAX,
        first_bad_token(prompt, vocab) < prompt.len() ==> {
            let t = prompt[first_bad_token(prompt, vocab) as int];
            t >= vocab || t > i32::MAX
        },
    decreases prompt.len(),
{
    if prompt.len() > 0 && token_ok(prompt[0], vocab) {
        let rest = prompt.skip(1);
        law_bad_tokens_are_found(rest, vocab);
        assert forall|i: int| 0 <= i < first_bad_token(prompt, vocab) implies #[trigger] prompt[i] < vocab
            && prompt[i] <= i32::MAX by {
            if i > 0 {
                assert(rest[i - 1] == prompt[i]);
            }
        }
    }
}

/// A request is given pages exactly where it brings a prompt, wants output, and fits
/// the context up to the last token that is fed back: the very last one is not. The
/// pages hold those positions, and one page fewer would not.
pub proof fn law_what_is_reserved(prompt: usize, generated: usize, context: usize)
    ensures
        reservation_of(prompt, generated, context) is Ok <==> prompt > 0 && generated > 0 && prompt
            + generated - 1 <= context,
        reservation_of(prompt, generated, context) matches Ok(n) ==> (n - 1) * PAGE_TOKENS < prompt + generated
            - 1 <= n * PAGE_TOKENS,
{
    if prompt > 0 && generated > 0 {
        let positions = (prompt + generated - 1) as nat;
        math::lemma_ceil_div(positions, PAGE_TOKENS as nat);
        let n = math::ceil_div(positions, PAGE_TOKENS as nat);
        assert((n - 1) * 16 == n * 16 - 16) by (nonlinear_arith);
    }
}

/// Planning leaves a request out only where it must: the slots or the rows are
/// spent, or a request has nothing left to prefill or is queued a second time.
/// Those last two, and a limit of zero, are what a queue is refused for.
pub proof fn law_planning_stops_only_where_it_must(work: Seq<PrefillWork>, b: PrefillBudget)
    ensures
        b.positive() && accepted(work, b) < work.len() ==> {
            let n = accepted(work, b) as int;
            let p = planned(work, b);
            ||| p.slices.len() == b.requests
            ||| p.tokens == b.tokens
            ||| work[n].done >= work[n].prompt_len
            ||| exists|j: int| 0 <= j < n && (#[trigger] work[j]).request_id == work[n].request_id
        },
        verdict(work, b) == Err::<(), PrefillError>(PrefillError::ZeroLimit) <==> b.tokens == 0
            || b.requests == 0 || b.chunk == 0,
        b.positive() && (forall|i: int|
            0 <= i < work.len() ==> (#[trigger] work[i]).done < work[i].prompt_len) && (forall|
            i: int,
            j: int,
        |
            0 <= i < j < work.len() ==> (#[trigger] work[i]).request_id != (
            #[trigger] work[j]).request_id) ==> verdict(work, b) is Ok,
        verdict(work, b) matches Err(e) ==> e is ZeroLimit || e is Progress || e is Repeated,
        verdict(work, b) matches Err(PrefillError::Progress { id, done, prompt_len }) ==> exists|
            i: int,
        |
            0 <= i < work.len() && (#[trigger] work[i]).request_id == id && work[i].done == done
                && work[i].prompt_len == prompt_len && done >= prompt_len,
        verdict(work, b) matches Err(PrefillError::Repeated { id }) ==> exists|i: int, j: int|
            0 <= i < j < work.len() && (#[trigger] work[i]).request_id == id && (
            #[trigger] work[j]).request_id == id,
{
    if b.positive() {
        law_plan_is_packed(work, b);
        let n = accepted(work, b) as int;
        let p = planned(work, b);
        if n < work.len() {
            let id = work[n].request_id;
            if p.holds(id) {
                let j = choose|j: int| 0 <= j < p.slices.len() && (#[trigger] p.slices[j]).request_id == id;
                assert(slice_serves(p.slices[j], work[j], b));
                assert(work[j].request_id == id);
                assert(work[n].request_id == id);
            }
        }
    }
}

/// The token budget cuts short at most the last slice of a plan: every one before
/// it finishes its prompt or fills the chunk cap.
pub proof fn law_only_the_last_slice_is_cut(work: Seq<PrefillWork>, b: PrefillBudget, i: int)
    requires
        b.positive(),
        0 <= i < planned(work, b).slices.len() - 1,
    ensures
        planned(work, b).slices[i].is_final || planned(work, b).slices[i].len == b.chunk,
{
    law_plan_is_packed(work, b);
    lemma_accepted(work, b, 0);
    let n = accepted(work, b);
    let m = (n - 1) as nat;
    let p = planned(work, b);
    let q = plan_prefix(work, b, m);
    assert(!stops_at(work, b, m));
    lemma_plan_packed(work, b, m);
    assert(p == q.with(work[m as int], b));
    assert(p.slices[i] == q.slices[i]);
}

} // verus!
