//! Where the time to a request's first token goes. Times are nanoseconds on one
//! clock.
use crate::harness::runtime::Outcome;
use crate::prefill::PrefillSlice;
use crate::service::FinishReason;
use crate::text;
use crate::text::push_decimal;
use vstd::prelude::*;

verus! {

/// The id of the first request of a trace.
pub const FIRST_ID: u64 = 1001;

/// What one request went through.
#[derive(Debug, Clone, Copy)]
pub struct RequestTrace {
    pub id: u64,
    pub prompt_len: usize,
    pub admitted_at: Option<u64>,
    pub last_call_end: Option<u64>,
    /// Between admission and the first call, and between calls.
    pub prefill_wait: u64,
    /// The wall time of the calls it took part in, shared with the others.
    pub shared_call_wall: u64,
    pub calls: usize,
    /// When the first token was seen, and which it was.
    pub first_token: Option<(u64, usize)>,
}

/// What one step of the runtime reported.
#[derive(Debug, Clone)]
pub struct TraceStep {
    pub admitted: Vec<u64>,
    pub admitted_at: Option<u64>,
    pub prefill_batches: usize,
    pub prefill_started_at: Option<u64>,
    pub planning: u64,
    pub execution: u64,
    /// The requests of the step's prefill call.
    pub slices: Vec<u64>,
    pub tokens: Vec<(u64, usize)>,
}

/// Why a trace was given up.
#[derive(Debug, Clone, Copy, PartialEq, Eq, Structural)]
pub enum TraceError {
    NotIdle,
    NoAdmissionTime,
    ManyPlans,
    NoPrefillTime,
    BeforeAdmission,
    StrayTiming,
    Completions,
    Budget,
    Leaked,
    NoFirstToken,
    Settings,
    Changed,
}

impl TraceError {
    /// The error in words.
    pub open spec fn text(self) -> Seq<char> {
        match self {
            TraceError::NotIdle => "trace must start with an idle runtime"@,
            TraceError::NoAdmissionTime => "missing admission timestamp"@,
            TraceError::ManyPlans => "trace expects one packed-policy plan per step"@,
            TraceError::NoPrefillTime => "missing prefill timestamp"@,
            TraceError::BeforeAdmission => "prefill before admission"@,
            TraceError::StrayTiming => "decode-only step recorded prefill timing"@,
            TraceError::Completions => "missing trace completions"@,
            TraceError::Budget => "trace request did not finish its token budget"@,
            TraceError::Leaked => "trace leaked KV pages"@,
            TraceError::NoFirstToken => "missing first token"@,
            TraceError::Settings => "steps, trials and max-batch must be positive"@,
            TraceError::Changed => "first token changed between identical trace workloads"@,
        }
    }

    /// The error in words.
    pub fn message(&self) -> (m: &'static str)
        ensures
            m@ == self.text(),
    {
        match self {
            TraceError::NotIdle => "trace must start with an idle runtime",
            TraceError::NoAdmissionTime => "missing admission timestamp",
            TraceError::ManyPlans => "trace expects one packed-policy plan per step",
            TraceError::NoPrefillTime => "missing prefill timestamp",
            TraceError::BeforeAdmission => "prefill before admission",
            TraceError::StrayTiming => "decode-only step recorded prefill timing",
            TraceError::Completions => "missing trace completions",
            TraceError::Budget => "trace request did not finish its token budget",
            TraceError::Leaked => "trace leaked KV pages",
            TraceError::NoFirstToken => "missing first token",
            TraceError::Settings => "steps, trials and max-batch must be positive",
            TraceError::Changed => "first token changed between identical trace workloads",
        }
    }
}

/// The token at a position of a traced prompt.
pub open spec fn prompt_token(id: int, pos: int, vocab: int) -> int {
    (id * 977 + pos * 613 + pos * pos * 17) % vocab
}

/// The prompt of a traced request.
pub fn trace_prompt(id: u64, len: usize, vocab: usize) -> (v: Vec<usize>)
    requires
        vocab > 0,
        id * 977 + len * 613 + len * len * 17 <= usize::MAX,
    ensures
        v@.len() == len,
        forall|i: int|
            0 <= i < len ==> #[trigger] v@[i] == prompt_token(id as int, i, vocab as int),
{
    let mut v: Vec<usize> = Vec::new();
    while v.len() < len
        invariant
            vocab > 0,
            id * 977 + len * 613 + len * len * 17 <= usize::MAX,
            v@.len() <= len,
            forall|i: int|
                0 <= i < v@.len() ==> #[trigger] v@[i] == prompt_token(
                    id as int,
                    i,
                    vocab as int,
                ),
        decreases len - v@.len(),
    {
        let pos: usize = v.len();
        assert(0 <= pos * pos <= len * len) by (nonlinear_arith)
            requires
                pos < len,
        ;
        let square: usize = pos * pos;
        v.push((id as usize * 977 + pos * 613 + square * 17) % vocab);
    }
    v
}

impl RequestTrace {
    /// A request that nothing has happened to.
    pub open spec fn fresh(id: u64, prompt_len: usize) -> RequestTrace {
        RequestTrace {
            id,
            prompt_len,
            admitted_at: None,
            last_call_end: None,
            prefill_wait: 0,
            shared_call_wall: 0,
            calls: 0,
            first_token: None,
        }
    }

    /// Since when a request has been waiting for its next call.
    pub open spec fn waiting_since(self) -> Option<u64> {
        if self.last_call_end is Some {
            self.last_call_end
        } else {
            self.admitted_at
        }
    }

    /// The request after a call that it took part in. A clock that stepped back
    /// counts as no wait.
    pub open spec fn called(self, started: u64, execution: u64) -> RequestTrace {
        let since = self.waiting_since()->0;
        RequestTrace {
            prefill_wait: (self.prefill_wait + if started >= since {
                started - since
            } else {
                0
            }) as u64,
            shared_call_wall: (self.shared_call_wall + execution) as u64,
            last_call_end: Some((started + execution) as u64),
            calls: (self.calls + 1) as usize,
            ..self
        }
    }

    /// The request after a token of its was seen. Only the first is kept.
    pub open spec fn seen(self, at: u64, token: usize) -> RequestTrace {
        RequestTrace {
            first_token: if self.first_token is Some {
                self.first_token
            } else {
                Some((at, token))
            },
            ..self
        }
    }

    /// Whether waits and calls account for all the time since admission.
    pub open spec fn balanced(self) -> bool {
        match self.admitted_at {
            None => self.last_call_end is None && self.prefill_wait == 0 && self.shared_call_wall
                == 0,
            Some(a) => match self.last_call_end {
                None => self.prefill_wait == 0 && self.shared_call_wall == 0,
                Some(e) => a + self.prefill_wait + self.shared_call_wall == e,
            },
        }
    }
}

/// Law: as long as the clock does not step back, waits and calls account for all
/// the time between a request's admission and its last call.
pub proof fn law_calls_keep_the_balance(r: RequestTrace, started: u64, execution: u64)
    requires
        r.balanced(),
        r.admitted_at is Some,
        r.waiting_since()->0 <= started,
        started + execution <= u64::MAX,
    ensures
        r.called(started, execution).balanced(),
{
}

/// Law: queue wait, prefill wait, shared call time and what follows the last
/// call add up to the time to the first token.
pub proof fn law_times_add_up(r: RequestTrace, submitted: u64)
    requires
        r.balanced(),
        r.admitted_at is Some,
        r.last_call_end is Some,
        r.first_token is Some,
    ensures
        ({
            let (first_at, _) = r.first_token->0;
            (r.admitted_at->0 - submitted) + r.prefill_wait + r.shared_call_wall + (first_at
                - r.last_call_end->0) == first_at - submitted
        }),
{
}

/// Law: the first token of a request, once seen, stays.
pub proof fn law_first_token_is_kept(r: RequestTrace, at: u64, token: usize, later: u64, other: usize)
    ensures
        r.seen(at, token).first_token is Some,
        r.seen(at, token).seen(later, other) == r.seen(at, token),
{
}

/// Whether ids are those of traced requests.
pub open spec fn traced(ids: Seq<u64>, n: nat) -> bool {
    forall|i: int| 0 <= i < ids.len() ==> FIRST_ID <= (#[trigger] ids[i]) < FIRST_ID + n
}

/// The requests after an admission.
pub open spec fn admitted(r: Seq<RequestTrace>, ids: Seq<u64>, at: u64) -> Seq<RequestTrace>
    decreases ids.len(),
{
    if ids.len() == 0 {
        r
    } else {
        let p = admitted(r, ids.drop_last(), at);
        let i = ids.last() - FIRST_ID;
        p.update(i, RequestTrace { admitted_at: Some(at), ..p[i] })
    }
}

/// The requests after a prefill call.
pub open spec fn prefilled(r: Seq<RequestTrace>, ids: Seq<u64>, started: u64, execution: u64) -> Seq<
    RequestTrace,
>
    decreases ids.len(),
{
    if ids.len() == 0 {
        r
    } else {
        let p = prefilled(r, ids.drop_last(), started, execution);
        let i = ids.last() - FIRST_ID;
        p.update(i, p[i].called(started, execution))
    }
}

/// The requests after tokens were seen.
pub open spec fn observed(r: Seq<RequestTrace>, tokens: Seq<(u64, usize)>, at: u64) -> Seq<
    RequestTrace,
>
    decreases tokens.len(),
{
    if tokens.len() == 0 {
        r
    } else {
        let p = observed(r, tokens.drop_last(), at);
        let i = tokens.last().0 - FIRST_ID;
        p.update(i, p[i].seen(at, tokens.last().1))
    }
}

/// Whether a request may be prefilled: it was admitted before or in this step.
pub open spec fn ready(r: Seq<RequestTrace>, info: TraceStep, id: u64) -> bool {
    r[id - FIRST_ID].waiting_since() is Some || info.admitted@.contains(id)
}

/// Why a step is refused.
pub open spec fn step_error(r: Seq<RequestTrace>, info: TraceStep) -> Option<TraceError> {
    if info.admitted@.len() > 0 && info.admitted_at is None {
        Some(TraceError::NoAdmissionTime)
    } else if info.prefill_batches > 1 {
        Some(TraceError::ManyPlans)
    } else if info.prefill_batches == 1 {
        if info.prefill_started_at is None {
            Some(TraceError::NoPrefillTime)
        } else if exists|k: int|
            0 <= k < info.slices@.len() && !ready(r, info, #[trigger] info.slices@[k]) {
            Some(TraceError::BeforeAdmission)
        } else {
            None
        }
    } else if info.prefill_started_at is Some || info.planning != 0 || info.execution != 0 {
        Some(TraceError::StrayTiming)
    } else {
        None
    }
}

/// The requests after a step.
pub open spec fn stepped(r: Seq<RequestTrace>, info: TraceStep, at: u64) -> Seq<RequestTrace> {
    let a = if info.admitted@.len() > 0 {
        admitted(r, info.admitted@, info.admitted_at->0)
    } else {
        r
    };
    let p = if info.prefill_batches == 1 {
        prefilled(a, info.slices@, info.prefill_started_at->0, info.execution)
    } else {
        a
    };
    observed(p, info.tokens@, at)
}

/// What can be added to a request's times without overflow.
pub open spec fn has_room(r: RequestTrace, calls: nat, started: u64, execution: u64) -> bool {
    &&& r.prefill_wait + calls * (started + 1) <= u64::MAX
    &&& r.shared_call_wall + calls * execution <= u64::MAX
    &&& r.calls + calls <= usize::MAX
}

proof fn lemma_admitted(r: Seq<RequestTrace>, ids: Seq<u64>, at: u64)
    requires
        traced(ids, r.len()),
        FIRST_ID + r.len() <= u64::MAX,
    ensures
        admitted(r, ids, at).len() == r.len(),
        forall|i: int|
            0 <= i < r.len() ==> ({
                let a = #[trigger] admitted(r, ids, at)[i];
                &&& a == (RequestTrace { admitted_at: a.admitted_at, ..r[i] })
                &&& a.admitted_at == r[i].admitted_at || a.admitted_at == Some(at)
                &&& ids.contains((FIRST_ID + i) as u64) ==> a.admitted_at == Some(at)
            }),
    decreases ids.len(),
{
    if ids.len() > 0 {
        let rest = ids.drop_last();
        assert(traced(rest, r.len())) by {
            assert forall|i: int| 0 <= i < rest.len() implies FIRST_ID <= (#[trigger] rest[i])
                < FIRST_ID + r.len() by {
                assert(ids[i] == rest[i]);
            }
        }
        lemma_admitted(r, rest, at);
        assert(ids.last() == ids[ids.len() - 1]);
        assert forall|i: int| 0 <= i < r.len() implies ({
            let a = #[trigger] admitted(r, ids, at)[i];
            &&& a == (RequestTrace { admitted_at: a.admitted_at, ..r[i] })
            &&& a.admitted_at == r[i].admitted_at || a.admitted_at == Some(at)
            &&& ids.contains((FIRST_ID + i) as u64) ==> a.admitted_at == Some(at)
        }) by {
            let p = admitted(r, rest, at)[i];
            if ids.contains((FIRST_ID + i) as u64) && ids.last() != FIRST_ID + i {
                let k = choose|k: int| 0 <= k < ids.len() && ids[k] == (FIRST_ID + i) as u64;
                assert(rest[k] == (FIRST_ID + i) as u64);
            }
        }
    }
}

proof fn lemma_prefilled(r: Seq<RequestTrace>, ids: Seq<u64>, started: u64, execution: u64, n: nat)
    requires
        traced(ids, r.len()),
        started + execution <= u64::MAX,
        n >= ids.len(),
        forall|i: int| 0 <= i < r.len() ==> has_room(#[trigger] r[i], n, started, execution),
    ensures
        prefilled(r, ids, started, execution).len() == r.len(),
        forall|i: int|
            0 <= i < r.len() ==> has_room(
                #[trigger] prefilled(r, ids, started, execution)[i],
                (n - ids.len()) as nat,
                started,
                execution,
            ) && (r[i].waiting_since() is Some ==> prefilled(
                r,
                ids,
                started,
                execution,
            )[i].waiting_since() is Some),
    decreases ids.len(),
{
    if ids.len() > 0 {
        let rest = ids.drop_last();
        assert(traced(rest, r.len())) by {
            assert forall|i: int| 0 <= i < rest.len() implies FIRST_ID <= (#[trigger] rest[i])
                < FIRST_ID + r.len() by {
                assert(ids[i] == rest[i]);
            }
        }
        lemma_prefilled(r, rest, started, execution, n);
        assert(ids.last() == ids[ids.len() - 1]);
        let p = prefilled(r, rest, started, execution);
        let q = prefilled(r, ids, started, execution);
        let m = (n - ids.len()) as nat;
        assert((m + 1) * (started + 1) == m * (started + 1) + started + 1) by (nonlinear_arith);
        assert((m + 1) * execution == m * execution + execution) by (nonlinear_arith);
        assert forall|i: int| 0 <= i < r.len() implies has_room(
            #[trigger] q[i],
            m,
            started,
            execution,
        ) && (r[i].waiting_since() is Some ==> q[i].waiting_since() is Some) by {
            assert(has_room(p[i], m + 1, started, execution));
        }
    }
}

/// A run of traced requests.
#[derive(Debug)]
pub struct Trace {
    pub requests: Vec<RequestTrace>,
}

impl Trace {
    /// A trace of requests with prompts of these lengths, before anything
    /// happened.
    pub fn new(lengths: &[usize]) -> (t: Trace)
        requires
            FIRST_ID + lengths@.len() <= u64::MAX,
        ensures
            t.requests@ == Seq::new(
                lengths@.len(),
                |i: int| RequestTrace::fresh((FIRST_ID + i) as u64, lengths@[i]),
            ),
    {
        let mut requests: Vec<RequestTrace> = Vec::new();
        while requests.len() < lengths.len()
            invariant
                FIRST_ID + lengths@.len() <= u64::MAX,
                requests@.len() <= lengths@.len(),
                forall|i: int|
                    0 <= i < requests@.len() ==> #[trigger] requests@[i] == RequestTrace::fresh(
                        (FIRST_ID + i) as u64,
                        lengths@[i],
                    ),
            decreases lengths@.len() - requests@.len(),
        {
            let i: usize = requests.len();
            requests.push(
                RequestTrace {
                    id: FIRST_ID + i as u64,
                    prompt_len: lengths[i],
                    admitted_at: None,
                    last_call_end: None,
                    prefill_wait: 0,
                    shared_call_wall: 0,
                    calls: 0,
                    first_token: None,
                },
            );
        }
        let t = Trace { requests };
        assert(t.requests@ =~= Seq::new(
            lengths@.len(),
            |i: int| RequestTrace::fresh((FIRST_ID + i) as u64, lengths@[i]),
        ));
        t
    }

    fn check(&self, info: &TraceStep) -> (r: Result<(), TraceError>)
        requires
            traced(info.slices@, self.requests@.len()),
        ensures
            match r {
                Ok(_) => step_error(self.requests@, *info) is None,
                Err(e) => step_error(self.requests@, *info) == Some(e),
            },
    {
        if info.admitted.len() > 0 && info.admitted_at.is_none() {
            return Err(TraceError::NoAdmissionTime);
        }
        if info.prefill_batches > 1 {
            return Err(TraceError::ManyPlans);
        }
        if info.prefill_batches == 0 {
            if info.prefill_started_at.is_some() || info.planning != 0 || info.execution != 0 {
                return Err(TraceError::StrayTiming);
            }
            return Ok(());
        }
        if info.prefill_started_at.is_none() {
            return Err(TraceError::NoPrefillTime);
        }
        let n: usize = self.requests.len();
        let mut k: usize = 0;
        while k < info.slices.len()
            invariant
                k <= info.slices@.len(),
                n == self.requests@.len(),
                traced(info.slices@, self.requests@.len()),
                forall|j: int|
                    0 <= j < k ==> ready(self.requests@, *info, #[trigger] info.slices@[j]),
                !(info.admitted@.len() > 0 && info.admitted_at is None),
                info.prefill_batches == 1,
                info.prefill_started_at is Some,
            decreases info.slices@.len() - k,
        {
            let id: u64 = info.slices[k];
            let r: RequestTrace = self.requests[(id - FIRST_ID) as usize];
            if r.last_call_end.is_none() && r.admitted_at.is_none() && !contains(
                &info.admitted,
                id,
            ) {
                assert(!ready(self.requests@, *info, info.slices@[k as int]));
                return Err(TraceError::BeforeAdmission);
            }
            k += 1;
        }
        Ok(())
    }

    /// One step of the runtime, seen at `at`.
    pub fn record(&mut self, info: &TraceStep, at: u64) -> (r: Result<(), TraceError>)
        requires
            FIRST_ID + old(self).requests@.len() <= u64::MAX,
            traced(info.admitted@, old(self).requests@.len()),
            traced(info.slices@, old(self).requests@.len()),
            forall|k: int|
                0 <= k < info.tokens@.len() ==> FIRST_ID <= (#[trigger] info.tokens@[k]).0 < FIRST_ID
                    + old(self).requests@.len(),
            info.prefill_started_at matches Some(s) ==> s + info.execution <= u64::MAX,
            info.prefill_started_at matches Some(s) ==> forall|i: int|
                0 <= i < old(self).requests@.len() ==> has_room(
                    #[trigger] old(self).requests@[i],
                    info.slices@.len(),
                    s,
                    info.execution,
                ),
        ensures
            match r {
                Ok(_) => step_error(old(self).requests@, *info) is None
                    && final(self).requests@ == stepped(old(self).requests@, *info, at),
                Err(e) => step_error(old(self).requests@, *info) == Some(e)
                    && final(self).requests@ == old(self).requests@,
            },
    {
        match self.check(info) {
            Ok(_) => {},
            Err(e) => {
                return Err(e);
            },
        }
        if let Some(t) = info.admitted_at {
            if info.admitted.len() > 0 {
                self.let_in(&info.admitted, t);
            }
        }
        if info.prefill_batches == 1 {
            if let Some(started) = info.prefill_started_at {
                proof {
                    let r = old(self).requests@;
                    if info.admitted@.len() > 0 {
                        lemma_admitted(r, info.admitted@, info.admitted_at->0);
                    }
                    assert forall|k: int| 0 <= k < info.slices@.len() implies self.requests@[(
                    #[trigger] info.slices@[k]) - FIRST_ID].waiting_since() is Some by {
                        assert(ready(r, *info, info.slices@[k]));
                        let i = info.slices@[k] - FIRST_ID;
                        if info.admitted@.len() > 0 {
                            let a = admitted(r, info.admitted@, info.admitted_at->0)[i];
                            assert(self.requests@[i] == a);
                        }
                    }
                    assert forall|i: int| 0 <= i < r.len() implies has_room(
                        #[trigger] self.requests@[i],
                        info.slices@.len(),
                        started,
                        info.execution,
                    ) by {
                        assert(has_room(r[i], info.slices@.len(), started, info.execution));
                    }
                }
                self.prefill(&info.slices, started, info.execution);
            }
        }
        proof {
            let r = old(self).requests@;
            if info.admitted@.len() > 0 {
                lemma_admitted(r, info.admitted@, info.admitted_at->0);
            }
        }
        self.observe(&info.tokens, at);
        Ok(())
    }

    fn let_in(&mut self, ids: &Vec<u64>, at: u64)
        requires
            traced(ids@, old(self).requests@.len()),
        ensures
            final(self).requests@ == admitted(old(self).requests@, ids@, at),
            final(self).requests@.len() == old(self).requests@.len(),
    {
        let n: usize = self.requests.len();
        let mut k: usize = 0;
        assert(ids@.take(0) =~= Seq::empty());
        while k < ids.len()
            invariant
                k <= ids@.len(),
                n == old(self).requests@.len(),
                traced(ids@, old(self).requests@.len()),
                self.requests@.len() == old(self).requests@.len(),
                self.requests@ == admitted(old(self).requests@, ids@.take(k as int), at),
            decreases ids@.len() - k,
        {
            assert(ids@.take(k + 1).drop_last() =~= ids@.take(k as int));
            let i: usize = (ids[k] - FIRST_ID) as usize;
            let mut r: RequestTrace = self.requests[i];
            r.admitted_at = Some(at);
            self.requests.set(i, r);
            k += 1;
        }
        assert(ids@.take(k as int) =~= ids@);
    }

    fn prefill(&mut self, ids: &Vec<u64>, started: u64, execution: u64)
        requires
            traced(ids@, old(self).requests@.len()),
            started + execution <= u64::MAX,
            forall|k: int|
                0 <= k < ids@.len() ==> old(self).requests@[(#[trigger] ids@[k])
                    - FIRST_ID].waiting_since() is Some,
            forall|i: int|
                0 <= i < old(self).requests@.len() ==> has_room(
                    #[trigger] old(self).requests@[i],
                    ids@.len(),
                    started,
                    execution,
                ),
        ensures
            final(self).requests@ == prefilled(old(self).requests@, ids@, started, execution),
            final(self).requests@.len() == old(self).requests@.len(),
    {
        let n: usize = self.requests.len();
        let mut k: usize = 0;
        assert(ids@.take(0) =~= Seq::empty());
        while k < ids.len()
            invariant
                k <= ids@.len(),
                n == old(self).requests@.len(),
                traced(ids@, old(self).requests@.len()),
                started + execution <= u64::MAX,
                forall|k: int|
                    0 <= k < ids@.len() ==> old(self).requests@[(#[trigger] ids@[k])
                        - FIRST_ID].waiting_since() is Some,
                forall|i: int|
                    0 <= i < old(self).requests@.len() ==> has_room(
                        #[trigger] old(self).requests@[i],
                        ids@.len(),
                        started,
                        execution,
                    ),
                self.requests@.len() == old(self).requests@.len(),
                self.requests@ == prefilled(
                    old(self).requests@,
                    ids@.take(k as int),
                    started,
                    execution,
                ),
            decreases ids@.len() - k,
        {
            let ghost done = ids@.take(k as int);
            proof {
                assert(ids@.take(k + 1).drop_last() =~= done);
                assert(traced(done, old(self).requests@.len())) by {
                    assert forall|i: int| 0 <= i < done.len() implies FIRST_ID <= (
                    #[trigger] done[i]) < FIRST_ID + old(self).requests@.len() by {
                        assert(ids@[i] == done[i]);
                    }
                }
                lemma_prefilled(old(self).requests@, done, started, execution, ids@.len());
            }
            let i: usize = (ids[k] - FIRST_ID) as usize;
            let mut r: RequestTrace = self.requests[i];
            proof {
                let m = (ids@.len() - k) as nat;
                assert(has_room(r, m, started, execution));
                assert(m * (started + 1) >= started + 1 && m * execution >= execution)
                    by (nonlinear_arith)
                    requires
                        m >= 1,
                ;
                assert(old(self).requests@[ids@[k as int] - FIRST_ID].waiting_since() is Some);
            }
            let since: u64 = match r.last_call_end {
                Some(e) => e,
                None => match r.admitted_at {
                    Some(a) => a,
                    None => 0,
                },
            };
            let wait: u64 = if started >= since {
                started - since
            } else {
                0
            };
            let ghost before = r;
            r.prefill_wait = r.prefill_wait + wait;
            r.shared_call_wall = r.shared_call_wall + execution;
            r.last_call_end = Some(started + execution);
            r.calls = r.calls + 1;
            assert(r == before.called(started, execution));
            self.requests.set(i, r);
            k += 1;
        }
        assert(ids@.take(k as int) =~= ids@);
    }

    fn observe(&mut self, tokens: &Vec<(u64, usize)>, at: u64)
        requires
            forall|k: int|
                0 <= k < tokens@.len() ==> FIRST_ID <= (#[trigger] tokens@[k]).0 < FIRST_ID
                    + old(self).requests@.len(),
        ensures
            final(self).requests@ == observed(old(self).requests@, tokens@, at),
    {
        let n: usize = self.requests.len();
        let mut k: usize = 0;
        assert(tokens@.take(0) =~= Seq::empty());
        while k < tokens.len()
            invariant
                k <= tokens@.len(),
                n == old(self).requests@.len(),
                forall|k: int|
                    0 <= k < tokens@.len() ==> FIRST_ID <= (#[trigger] tokens@[k]).0 < FIRST_ID
                        + old(self).requests@.len(),
                self.requests@.len() == old(self).requests@.len(),
                self.requests@ == observed(old(self).requests@, tokens@.take(k as int), at),
            decreases tokens@.len() - k,
        {
            assert(tokens@.take(k + 1).drop_last() =~= tokens@.take(k as int));
            let (id, token) = tokens[k];
            let i: usize = (id - FIRST_ID) as usize;
            let mut r: RequestTrace = self.requests[i];
            if r.first_token.is_none() {
                r.first_token = Some((at, token));
            }
            self.requests.set(i, r);
            k += 1;
        }
        assert(tokens@.take(k as int) =~= tokens@);
    }

    /// What a finished trace is worth: every request came back with its whole
    /// budget, no page is missing, and every first token was seen.
    pub fn verdict(&self, completions: &[Outcome], steps: usize, free: usize, free_before: usize)
        -> (r: Result<(), TraceError>)
        ensures
            match r {
                Ok(_) => verdict_of(self.requests@, completions@, steps, free, free_before) is None,
                Err(e) => verdict_of(self.requests@, completions@, steps, free, free_before)
                    == Some(e),
            },
    {
        if completions.len() != self.requests.len() {
            return Err(TraceError::Completions);
        }
        let mut i: usize = 0;
        while i < completions.len()
            invariant
                i <= completions@.len(),
                completions@.len() == self.requests@.len(),
                forall|k: int| 0 <= k < i ==> in_full(#[trigger] completions@[k], steps),
            decreases completions@.len() - i,
        {
            let whole = match completions[i].reason {
                FinishReason::Length => true,
                FinishReason::Cancelled => false,
            };
            if !whole || completions[i].tokens.len() != steps {
                assert(!in_full(completions@[i as int], steps));
                return Err(TraceError::Budget);
            }
            i += 1;
        }
        if free != free_before {
            return Err(TraceError::Leaked);
        }
        let mut k: usize = 0;
        while k < self.requests.len()
            invariant
                k <= self.requests@.len(),
                completions@.len() == self.requests@.len(),
                forall|k: int|
                    0 <= k < completions@.len() ==> in_full(#[trigger] completions@[k], steps),
                free == free_before,
                forall|j: int| 0 <= j < k ==> (#[trigger] self.requests@[j]).first_token is Some,
            decreases self.requests@.len() - k,
        {
            if self.requests[k].first_token.is_none() {
                assert(self.requests@[k as int].first_token is None);
                return Err(TraceError::NoFirstToken);
            }
            k += 1;
        }
        Ok(())
    }

    /// Whether the same workload began with the same tokens as another run.
    pub fn begins_like(&self, other: &Trace) -> (b: bool)
        ensures
            b == forall|i: int|
                0 <= i < self.requests@.len() && i < other.requests@.len() ==> first_of(
                    #[trigger] self.requests@[i],
                ) == first_of(other.requests@[i]),
    {
        let mut i: usize = 0;
        while i < self.requests.len() && i < other.requests.len()
            invariant
                i <= self.requests@.len(),
                i <= other.requests@.len(),
                forall|k: int|
                    0 <= k < i ==> first_of(#[trigger] self.requests@[k]) == first_of(
                        other.requests@[k],
                    ),
            decreases self.requests@.len() - i,
        {
            let same = match (self.requests[i].first_token, other.requests[i].first_token) {
                (Some((_, a)), Some((_, b))) => a == b,
                (None, None) => true,
                _ => false,
            };
            if !same {
                assert(first_of(self.requests@[i as int]) != first_of(other.requests@[i as int]));
                return false;
            }
            i += 1;
        }
        true
    }
}

/// The first token of a request, without the time.
pub open spec fn first_of(r: RequestTrace) -> Option<usize> {
    match r.first_token {
        Some((_, t)) => Some(t),
        None => None,
    }
}

/// Whether a request came back with its whole budget.
pub open spec fn in_full(o: Outcome, steps: usize) -> bool {
    o.reason == FinishReason::Length && o.tokens@.len() == steps
}

/// What a finished trace is worth.
pub open spec fn verdict_of(
    r: Seq<RequestTrace>,
    completions: Seq<Outcome>,
    steps: usize,
    free: usize,
    free_before: usize,
) -> Option<TraceError> {
    if completions.len() != r.len() {
        Some(TraceError::Completions)
    } else if exists|i: int| 0 <= i < completions.len() && !in_full(#[trigger] completions[i], steps) {
        Some(TraceError::Budget)
    } else if free != free_before {
        Some(TraceError::Leaked)
    } else if exists|i: int| 0 <= i < r.len() && (#[trigger] r[i]).first_token is None {
        Some(TraceError::NoFirstToken)
    } else {
        None
    }
}

fn contains(v: &Vec<u64>, id: u64) -> (b: bool)
    ensures
        b == v@.contains(id),
{
    let mut i: usize = 0;
    while i < v.len()
        invariant
            i <= v@.len(),
            forall|k: int| 0 <= k < i ==> v@[k] != id,
        decreases v@.len() - i,
    {
        if v[i] == id {
            assert(v@[i as int] == id);
            return true;
        }
        i += 1;
    }
    false
}

/// Whether a trace may be taken with these settings.
pub fn settings(steps: usize, trials: usize, max_batch: usize) -> (r: Result<(), TraceError>)
    ensures
        r is Ok <==> steps > 0 && trials > 0 && max_batch > 0,
        r matches Err(e) ==> e == TraceError::Settings,
{
    if steps > 0 && trials > 0 && max_batch > 0 {
        Ok(())
    } else {
        Err(TraceError::Settings)
    }
}

/// One slice of a call in words.
pub open spec fn slice_text(s: PrefillSlice) -> Seq<char> {
    text::decimal(s.request_id as nat) + ":"@ + text::decimal(s.prompt_start as nat) + "+"@
        + text::decimal(s.len as nat) + ":"@ + if s.is_final {
        "1"@
    } else {
        "0"@
    }
}

/// The slices of a call in words.
pub open spec fn slices_text(s: Seq<PrefillSlice>) -> Seq<char>
    decreases s.len(),
{
    if s.len() == 0 {
        Seq::empty()
    } else if s.len() == 1 {
        slice_text(s[0])
    } else {
        slices_text(s.drop_last()) + ";"@ + slice_text(s.last())
    }
}

/// The slices of a call in words.
pub fn slices_line(slices: &[PrefillSlice]) -> (m: String)
    ensures
        m@ == slices_text(slices@),
{
    let mut m = String::new();
    let mut i: usize = 0;
    assert(slices@.take(0) =~= Seq::empty());
    while i < slices.len()
        invariant
            i <= slices@.len(),
            m@ == slices_text(slices@.take(i as int)),
        decreases slices@.len() - i,
    {
        proof {
            assert(slices@.take(i + 1).drop_last() =~= slices@.take(i as int));
        }
        let s = &slices[i];
        if i > 0 {
            m.append(";");
        }
        let ghost before = m@;
        push_decimal(&mut m, s.request_id);
        m.append(":");
        push_decimal(&mut m, s.prompt_start as u64);
        m.append("+");
        push_decimal(&mut m, s.len as u64);
        m.append(":");
        if s.is_final {
            m.append("1");
        } else {
            m.append("0");
        }
        assert(m@ =~= before + slice_text(*s));
        assert(m@ =~= slices_text(slices@.take(i + 1)));
        i += 1;
    }
    assert(slices@.take(i as int) =~= slices@);
    m
}

/// Law: a trace passes exactly where every request came back with its whole budget,
/// every page came back, and every request showed a first token.
pub proof fn law_only_whole_traces_pass(
    r: Seq<RequestTrace>,
    completions: Seq<Outcome>,
    steps: usize,
    free: usize,
    free_before: usize,
)
    ensures
        verdict_of(r, completions, steps, free, free_before) is None <==> {
            &&& completions.len() == r.len()
            &&& forall|i: int|
                0 <= i < completions.len() ==> (#[trigger] completions[i]).reason == FinishReason::Length
                    && completions[i].tokens@.len() == steps
            &&& free == free_before
            &&& forall|i: int| 0 <= i < r.len() ==> (#[trigger] r[i]).first_token is Some
        },
{
    if exists|i: int| 0 <= i < completions.len() && !in_full(#[trigger] completions[i], steps) {
        let i = choose|i: int| 0 <= i < completions.len() && !in_full(#[trigger] completions[i], steps);
        assert(!(completions[i].reason == FinishReason::Length && completions[i].tokens@.len() == steps));
    } else {
        assert forall|i: int| 0 <= i < completions.len() implies (#[trigger] completions[i]).reason
            == FinishReason::Length && completions[i].tokens@.len() == steps by {
            assert(in_full(completions[i], steps));
        }
    }
}

/// Law: a step changes nothing of a request that it neither admits nor serves nor
/// shows a token of.
pub proof fn law_bystanders_are_left_alone(r: Seq<RequestTrace>, info: TraceStep, at: u64, j: int)
    requires
        0 <= j < r.len(),
        traced(info.admitted@, r.len()),
        traced(info.slices@, r.len()),
        forall|k: int|
            0 <= k < info.tokens@.len() ==> FIRST_ID <= (#[trigger] info.tokens@[k]).0 < FIRST_ID + r.len(),
        forall|k: int| 0 <= k < info.admitted@.len() ==> #[trigger] info.admitted@[k] != FIRST_ID + j,
        forall|k: int| 0 <= k < info.slices@.len() ==> #[trigger] info.slices@[k] != FIRST_ID + j,
        forall|k: int| 0 <= k < info.tokens@.len() ==> (#[trigger] info.tokens@[k]).0 != FIRST_ID + j,
    ensures
        stepped(r, info, at).len() == r.len(),
        stepped(r, info, at)[j] == r[j],
{
    let a = if info.admitted@.len() > 0 {
        admitted(r, info.admitted@, info.admitted_at->0)
    } else {
        r
    };
    lemma_admitted_apart(r, info.admitted@, info.admitted_at->0, j);
    lemma_prefilled_apart(a, info.slices@, info.prefill_started_at->0, info.execution, j);
    let p = if info.prefill_batches == 1 {
        prefilled(a, info.slices@, info.prefill_started_at->0, info.execution)
    } else {
        a
    };
    lemma_observed_apart(p, info.tokens@, at, j);
}

proof fn lemma_admitted_apart(r: Seq<RequestTrace>, ids: Seq<u64>, at: u64, j: int)
    requires
        0 <= j < r.len(),
        traced(ids, r.len()),
        forall|k: int| 0 <= k < ids.len() ==> #[trigger] ids[k] != FIRST_ID + j,
    ensures
        admitted(r, ids, at).len() == r.len(),
        admitted(r, ids, at)[j] == r[j],
    decreases ids.len(),
{
    if ids.len() > 0 {
        let some = ids.drop_last();
        assert(forall|k: int| 0 <= k < some.len() ==> #[trigger] some[k] == ids[k]);
        lemma_admitted_apart(r, some, at, j);
        assert(ids.last() == ids[ids.len() - 1]);
    }
}

proof fn lemma_prefilled_apart(r: Seq<RequestTrace>, ids: Seq<u64>, started: u64, execution: u64, j: int)
    requires
        0 <= j < r.len(),
        traced(ids, r.len()),
        forall|k: int| 0 <= k < ids.len() ==> #[trigger] ids[k] != FIRST_ID + j,
    ensures
        prefilled(r, ids, started, execution).len() == r.len(),
        prefilled(r, ids, started, execution)[j] == r[j],
    decreases ids.len(),
{
    if ids.len() > 0 {
        let some = ids.drop_last();
        assert(forall|k: int| 0 <= k < some.len() ==> #[trigger] some[k] == ids[k]);
        lemma_prefilled_apart(r, some, started, execution, j);
        assert(ids.last() == ids[ids.len() - 1]);
    }
}

proof fn lemma_observed_apart(r: Seq<RequestTrace>, tokens: Seq<(u64, usize)>, at: u64, j: int)
    requires
        0 <= j < r.len(),
        forall|k: int|
            0 <= k < tokens.len() ==> FIRST_ID <= (#[trigger] tokens[k]).0 < FIRST_ID + r.len(),
        forall|k: int| 0 <= k < tokens.len() ==> (#[trigger] tokens[k]).0 != FIRST_ID + j,
    ensures
        observed(r, tokens, at).len() == r.len(),
        observed(r, tokens, at)[j] == r[j],
    decreases tokens.len(),
{
    if tokens.len() > 0 {
        let some = tokens.drop_last();
        assert(forall|k: int| 0 <= k < some.len() ==> #[trigger] some[k] == tokens[k]);
        lemma_observed_apart(r, some, at, j);
        assert(tokens.last() == tokens[tokens.len() - 1]);
    }
}

/// A step is taken exactly where it has the times it needs and no others: a time
/// of admission where requests were admitted; at most one plan; a start, and
/// slices of admitted requests only, where there was a plan; no start and no
/// time spent where there was none.
pub proof fn law_what_steps_are_taken(r: Seq<RequestTrace>, info: TraceStep)
    ensures
        step_error(r, info) is None <==> {
            &&& info.admitted@.len() == 0 || info.admitted_at is Some
            &&& info.prefill_batches <= 1
            &&& info.prefill_batches == 1 ==> info.prefill_started_at is Some && forall|k: int|
                0 <= k < info.slices@.len() ==> ready(r, info, #[trigger] info.slices@[k])
            &&& info.prefill_batches == 0 ==> info.prefill_started_at is None && info.planning == 0
                && info.execution == 0
        },
{
}

/// Slices are written one behind the other, with one semicolon between two.
pub proof fn law_slices_are_listed(s: Seq<PrefillSlice>, x: PrefillSlice)
    ensures
        slices_text(Seq::empty()).len() == 0,
        slices_text(seq![x]) == slice_text(x),
        s.len() > 0 ==> slices_text(s.push(x)) == slices_text(s) + ";"@ + slice_text(x),
{
    assert(s.push(x).drop_last() =~= s);
}

/// The tokens of a prompt belong to the vocabulary.
pub proof fn law_prompt_tokens_are_known(id: int, pos: int, vocab: int)
    requires
        vocab > 0,
    ensures
        0 <= prompt_token(id, pos, vocab) < vocab,
{
    vstd::arithmetic::div_mod::lemma_mod_bound(id * 977 + pos * 613 + pos * pos * 17, vocab);
}

} // verus!
