//! What the batching checks run and what they make of the outcome.
use crate::math::min;
use crate::service::FinishReason;
use crate::text;
use crate::text::push_decimal;
use vstd::prelude::*;

verus! {

/// A list of numbers in words.
pub open spec fn joined(v: Seq<usize>) -> Seq<char>
    decreases v.len(),
{
    if v.len() == 0 {
        Seq::empty()
    } else if v.len() == 1 {
        text::decimal(v[0] as nat)
    } else {
        joined(v.drop_last()) + ", "@ + text::decimal(v.last() as nat)
    }
}

/// A list of numbers in words, in brackets.
pub open spec fn list_text(v: Seq<usize>) -> Seq<char> {
    "["@ + joined(v) + "]"@
}

fn push_list(m: &mut String, v: &Vec<usize>)
    ensures
        final(m)@ == old(m)@ + list_text(v@),
{
    let ghost before = m@;
    m.append("[");
    let mut i: usize = 0;
    assert(v@.take(0) =~= Seq::empty());
    assert(m@ =~= before + "["@ + joined(v@.take(0)));
    while i < v.len()
        invariant
            i <= v@.len(),
            m@ == before + "["@ + joined(v@.take(i as int)),
        decreases v@.len() - i,
    {
        proof {
            assert(v@.take(i + 1).drop_last() =~= v@.take(i as int));
        }
        if i > 0 {
            m.append(", ");
        }
        push_decimal(m, v[i] as u64);
        assert(m@ =~= before + "["@ + joined(v@.take(i + 1)));
        i += 1;
    }
    assert(v@.take(i as int) =~= v@);
    m.append("]");
    assert(m@ =~= before + list_text(v@));
}

/// A truth value in words.
pub open spec fn bool_text(b: bool) -> Seq<char> {
    if b {
        "true"@
    } else {
        "false"@
    }
}

fn push_bool(m: &mut String, b: bool)
    ensures
        final(m)@ == old(m)@ + bool_text(b),
{
    if b {
        m.append("true");
    } else {
        m.append("false");
    }
}

/// Why a check failed.
#[derive(Debug, Clone)]
pub enum CheckError {
    NoLengths,
    NotDrained,
    Argmax { step: usize, row: usize, device: usize, host: usize },
    ArgmaxCases { cases: usize },
    Completions { got: usize, expected: usize },
    Leaked { free: usize, total: usize },
    Differed { failures: usize },
    Lengths { failures: usize },
    NotIdentical,
    Steps { failures: usize },
    Accounting,
    LeakedOn { device_topk: bool },
    Changed { failures: usize },
    PagesLeaked,
    GraphPrefill { failures: usize },
    ChunkedPrefill { failures: usize },
    ConcurrentNotDrained,
    Widths { graph: bool, reverse: bool, widths: Vec<usize> },
    NotTogether,
    ConcurrentCount,
    ConcurrentMissing { id: u64 },
    ConcurrentDiffers { id: u64, graph: bool, reverse: bool, want: Vec<usize>, out: Vec<usize> },
    ConcurrentLeaked,
    CancelNotDrained,
    CancelCount { at: usize, expected: usize, got: usize },
    CancelSemantics,
    Survivor { id: u64 },
    CancelReason,
    SurvivorMismatch { id: u64 },
    CancelLeaked,
    SingleCount,
    SingleToken,
    PressureCount,
    PressureOutput,
    PressureLeaked,
}

impl CheckError {
    /// The failure in words.
    pub open spec fn text(self) -> Seq<char> {
        match self {
            CheckError::NoLengths => "no valid prompt lengths"@,
            CheckError::NotDrained => "runtime did not drain"@,
            CheckError::Argmax { step, row, device, host } => "step "@ + text::decimal(step as nat)
                + " row "@ + text::decimal(row as nat) + ": device argmax "@ + text::decimal(
                device as nat,
            ) + " != host argmax "@ + text::decimal(host as nat),
            CheckError::ArgmaxCases { cases } => "device argmax disagreed with the host rule in "@
                + text::decimal(cases as nat) + " case(s)"@,
            CheckError::Completions { got, expected } => "staggered run produced "@
                + text::decimal(got as nat) + " completions, expected "@ + text::decimal(
                expected as nat,
            ),
            CheckError::Leaked { free, total } => "pages leaked: "@ + text::decimal(free as nat)
                + " of "@ + text::decimal(total as nat) + " free after every request finished"@,
            CheckError::Differed { failures } => text::decimal(failures as nat)
                + " request(s) differed from independent execution"@,
            CheckError::Lengths { failures } => text::decimal(failures as nat)
                + " length(s) disagreed with the contiguous cache"@,
            CheckError::NotIdentical => "paged path is not bit-identical to the contiguous path"@,
            CheckError::Steps { failures } => text::decimal(failures as nat)
                + " step(s) differed between eager and graph replay"@,
            CheckError::Accounting => "page accounting differed between eager and graph passes"@,
            CheckError::LeakedOn { device_topk } => "pages leaked on the "@ + (if device_topk {
                "device top-k"@
            } else {
                "full logits"@
            }) + " path"@,
            CheckError::Changed { failures } => text::decimal(failures as nat)
                + " request(s) changed output when batched"@,
            CheckError::PagesLeaked => "pages leaked"@,
            CheckError::GraphPrefill { failures } => text::decimal(failures as nat)
                + " comparison(s) differed between eager and graph prefill"@,
            CheckError::ChunkedPrefill { failures } => text::decimal(failures as nat)
                + " comparison(s) differed between chunked and monolithic prefill"@,
            CheckError::ConcurrentNotDrained => "concurrent decode did not drain"@,
            CheckError::Widths { graph, reverse, widths } =>
                "concurrent decode did not exercise 16 -> 8: graph="@ + bool_text(graph)
                + " reverse="@ + bool_text(reverse) + " widths="@ + list_text(widths@),
            CheckError::NotTogether => "concurrent requests did not finish prefill together"@,
            CheckError::ConcurrentCount => "concurrent completion count changed"@,
            CheckError::ConcurrentMissing { id } => "concurrent completion missing/duplicated "@
                + text::decimal(id as nat),
            CheckError::ConcurrentDiffers { id, graph, reverse, want, out } =>
                "concurrent decode differs from independent request "@ + text::decimal(id as nat)
                + ": graph="@ + bool_text(graph) + " reverse="@ + bool_text(reverse) + " expected="@
                + list_text(want@) + " got="@ + list_text(out@),
            CheckError::ConcurrentLeaked => "concurrent decode leaked pages"@,
            CheckError::CancelNotDrained => "runtime failed to drain"@,
            CheckError::CancelCount { at, expected, got } =>
                "unexpected completion count after cancellation at "@ + text::decimal(at as nat)
                + ": expected "@ + text::decimal(expected as nat) + ", got "@ + text::decimal(
                got as nat,
            ),
            CheckError::CancelSemantics =>
                "pending/resident cancellation completion semantics changed"@,
            CheckError::Survivor { id } => "missing/duplicate survivor "@ + text::decimal(
                id as nat,
            ),
            CheckError::CancelReason => "wrong cancellation reason"@,
            CheckError::SurvivorMismatch { id } => "survivor/page-reuse mismatch request "@
                + text::decimal(id as nat),
            CheckError::CancelLeaked => "runtime leaked pages"@,
            CheckError::SingleCount => "max_tokens=1 completion count changed"@,
            CheckError::SingleToken => "max_tokens=1 produced wrong token count/value"@,
            CheckError::PressureCount => "page-pressure completion count changed"@,
            CheckError::PressureOutput => "page-pressure request output changed"@,
            CheckError::PressureLeaked => "constrained pool leaked pages"@,
        }
    }

    fn push_simple(&self, m: &mut String) -> (done: bool)
        ensures
            done ==> final(m)@ == old(m)@ + self.text(),
            !done ==> final(m)@ == old(m)@,
            done == !(self is Argmax || self is ArgmaxCases || self is Completions || self is Leaked || self is Differed
                || self is Lengths || self is Steps || self is LeakedOn || self is Changed
                || self is GraphPrefill || self is ChunkedPrefill || self is Widths
                || self is ConcurrentMissing || self is ConcurrentDiffers || self is CancelCount
                || self is Survivor || self is SurvivorMismatch),
    {
        match self {
            CheckError::NoLengths => m.append("no valid prompt lengths"),
            CheckError::NotDrained => m.append("runtime did not drain"),
            CheckError::NotIdentical => m.append(
                "paged path is not bit-identical to the contiguous path",
            ),
            CheckError::Accounting => m.append(
                "page accounting differed between eager and graph passes",
            ),
            CheckError::PagesLeaked => m.append("pages leaked"),
            CheckError::ConcurrentNotDrained => m.append("concurrent decode did not drain"),
            CheckError::NotTogether => m.append(
                "concurrent requests did not finish prefill together",
            ),
            CheckError::ConcurrentCount => m.append("concurrent completion count changed"),
            CheckError::ConcurrentLeaked => m.append("concurrent decode leaked pages"),
            CheckError::CancelNotDrained => m.append("runtime failed to drain"),
            CheckError::CancelSemantics => m.append(
                "pending/resident cancellation completion semantics changed",
            ),
            CheckError::CancelReason => m.append("wrong cancellation reason"),
            CheckError::CancelLeaked => m.append("runtime leaked pages"),
            CheckError::SingleCount => m.append("max_tokens=1 completion count changed"),
            CheckError::SingleToken => m.append("max_tokens=1 produced wrong token count/value"),
            CheckError::PressureCount => m.append("page-pressure completion count changed"),
            CheckError::PressureOutput => m.append("page-pressure request output changed"),
            CheckError::PressureLeaked => m.append("constrained pool leaked pages"),
            _ => {
                return false;
            },
        }
        true
    }

    fn push_counted(&self, m: &mut String) -> (done: bool)
        ensures
            done ==> final(m)@ == old(m)@ + self.text(),
            !done ==> final(m)@ == old(m)@,
            done == (self is Differed || self is Lengths || self is Steps || self is Changed
                || self is GraphPrefill || self is ChunkedPrefill),
    {
        let (failures, tail): (usize, &str) = match self {
            CheckError::Differed { failures } => (
                *failures,
                " request(s) differed from independent execution",
            ),
            CheckError::Lengths { failures } => (
                *failures,
                " length(s) disagreed with the contiguous cache",
            ),
            CheckError::Steps { failures } => (
                *failures,
                " step(s) differed between eager and graph replay",
            ),
            CheckError::Changed { failures } => (
                *failures,
                " request(s) changed output when batched",
            ),
            CheckError::GraphPrefill { failures } => (
                *failures,
                " comparison(s) differed between eager and graph prefill",
            ),
            CheckError::ChunkedPrefill { failures } => (
                *failures,
                " comparison(s) differed between chunked and monolithic prefill",
            ),
            _ => {
                return false;
            },
        };
        push_decimal(m, failures as u64);
        m.append(tail);
        assert(m@ =~= old(m)@ + self.text());
        true
    }

    /// The failure in words.
    pub fn message(&self) -> (m: String)
        ensures
            m@ == self.text(),
    {
        let mut m = String::new();
        if self.push_simple(&mut m) || self.push_counted(&mut m) {
            assert(m@ =~= self.text());
            return m;
        }
        match self {
            CheckError::Argmax { step, row, device, host } => {
                m.append("step ");
                push_decimal(&mut m, *step as u64);
                m.append(" row ");
                push_decimal(&mut m, *row as u64);
                m.append(": device argmax ");
                push_decimal(&mut m, *device as u64);
                m.append(" != host argmax ");
                push_decimal(&mut m, *host as u64);
            },
            CheckError::ArgmaxCases { cases } => {
                m.append("device argmax disagreed with the host rule in ");
                push_decimal(&mut m, *cases as u64);
                m.append(" case(s)");
            },
            CheckError::Completions { got, expected } => {
                m.append("staggered run produced ");
                push_decimal(&mut m, *got as u64);
                m.append(" completions, expected ");
                push_decimal(&mut m, *expected as u64);
            },
            CheckError::Leaked { free, total } => {
                m.append("pages leaked: ");
                push_decimal(&mut m, *free as u64);
                m.append(" of ");
                push_decimal(&mut m, *total as u64);
                m.append(" free after every request finished");
            },
            CheckError::LeakedOn { device_topk } => {
                m.append("pages leaked on the ");
                if *device_topk {
                    m.append("device top-k");
                } else {
                    m.append("full logits");
                }
                m.append(" path");
            },
            CheckError::Widths { graph, reverse, widths } => {
                m.append("concurrent decode did not exercise 16 -> 8: graph=");
                push_bool(&mut m, *graph);
                m.append(" reverse=");
                push_bool(&mut m, *reverse);
                m.append(" widths=");
                push_list(&mut m, widths);
            },
            CheckError::ConcurrentMissing { id } => {
                m.append("concurrent completion missing/duplicated ");
                push_decimal(&mut m, *id);
            },
            CheckError::ConcurrentDiffers { id, graph, reverse, want, out } => {
                m.append("concurrent decode differs from independent request ");
                push_decimal(&mut m, *id);
                m.append(": graph=");
                push_bool(&mut m, *graph);
                m.append(" reverse=");
                push_bool(&mut m, *reverse);
                m.append(" expected=");
                push_list(&mut m, want);
                m.append(" got=");
                push_list(&mut m, out);
            },
            CheckError::CancelCount { at, expected, got } => {
                m.append("unexpected completion count after cancellation at ");
                push_decimal(&mut m, *at as u64);
                m.append(": expected ");
                push_decimal(&mut m, *expected as u64);
                m.append(", got ");
                push_decimal(&mut m, *got as u64);
            },
            CheckError::Survivor { id } => {
                m.append("missing/duplicate survivor ");
                push_decimal(&mut m, *id);
            },
            CheckError::SurvivorMismatch { id } => {
                m.append("survivor/page-reuse mismatch request ");
                push_decimal(&mut m, *id);
            },
            _ => {},
        }
        assert(m@ =~= self.text());
        m
    }
}

/// Requests that enter one after another.
#[derive(Debug)]
pub struct Stagger {
    pending: Vec<(usize, usize)>,
    t: usize,
    bound: usize,
}

/// What is still to be submitted, and when.
pub struct StaggerView {
    pub pending: Seq<(usize, usize)>,
    pub t: nat,
    pub bound: nat,
}

/// The ids that are due at `t`, in order.
pub open spec fn due_at(p: Seq<(usize, usize)>, t: nat) -> Seq<usize>
    decreases p.len(),
{
    if p.len() == 0 {
        Seq::empty()
    } else {
        let d = due_at(p.drop_last(), t);
        if p.last().0 == t {
            d.push(p.last().1)
        } else {
            d
        }
    }
}

/// What is left once those due at `t` are submitted.
pub open spec fn left_at(p: Seq<(usize, usize)>, t: nat) -> Seq<(usize, usize)>
    decreases p.len(),
{
    if p.len() == 0 {
        Seq::empty()
    } else {
        let d = left_at(p.drop_last(), t);
        if p.last().0 == t {
            d
        } else {
            d.push(p.last())
        }
    }
}

/// The requests of a staggered run: one every third step.
pub open spec fn every_third(from: nat, n: nat) -> Seq<(usize, usize)> {
    Seq::new((n - from) as nat, |i: int| (((i + from) * 3) as usize, (i + from) as usize))
}

impl View for Stagger {
    type V = StaggerView;

    closed spec fn view(&self) -> StaggerView {
        StaggerView { pending: self.pending@, t: self.t as nat, bound: self.bound as nat }
    }
}

impl Stagger {
    /// A run of `n` requests, one every third step, for at most `bound` steps.
    pub fn new(n: usize, bound: usize) -> (s: Stagger)
        requires
            n * 3 <= usize::MAX,
        ensures
            s@ == (StaggerView { pending: every_third(0, n as nat), t: 0, bound: bound as nat }),
    {
        let mut pending: Vec<(usize, usize)> = Vec::new();
        while pending.len() < n
            invariant
                n * 3 <= usize::MAX,
                pending@.len() <= n,
                pending@ == every_third(0, n as nat).take(pending@.len() as int),
            decreases n - pending@.len(),
        {
            let i: usize = pending.len();
            pending.push((i * 3, i));
            assert(pending@ =~= every_third(0, n as nat).take(pending@.len() as int));
        }
        assert(pending@ =~= every_third(0, n as nat));
        Stagger { pending, t: 0, bound }
    }

    /// The requests to submit before the next step, or none where the run has
    /// taken as many steps as it may.
    pub fn due(&mut self) -> (ids: Option<Vec<usize>>)
        ensures
            match ids {
                Some(v) => {
                    &&& old(self)@.t < old(self)@.bound
                    &&& v@ == due_at(old(self)@.pending, old(self)@.t)
                    &&& final(self)@ == (StaggerView {
                        pending: left_at(old(self)@.pending, old(self)@.t),
                        ..old(self)@
                    })
                },
                None => old(self)@.t >= old(self)@.bound && final(self)@ == old(self)@,
            },
    {
        if self.t >= self.bound {
            return None;
        }
        let mut ids: Vec<usize> = Vec::new();
        let mut rest: Vec<(usize, usize)> = Vec::new();
        let mut i: usize = 0;
        let ghost p = self.pending@;
        assert(p.take(0) =~= Seq::empty());
        while i < self.pending.len()
            invariant
                self@ == old(self)@,
                p == self.pending@,
                i <= p.len(),
                ids@ == due_at(p.take(i as int), self.t as nat),
                rest@ == left_at(p.take(i as int), self.t as nat),
            decreases p.len() - i,
        {
            assert(p.take(i + 1).drop_last() =~= p.take(i as int));
            let (at, id) = self.pending[i];
            if at == self.t {
                ids.push(id);
            } else {
                rest.push((at, id));
            }
            i += 1;
        }
        assert(p.take(i as int) =~= p);
        self.pending = rest;
        Some(ids)
    }

    /// Whether the run is over: nothing runs and nothing is still to come.
    pub fn is_over(&self, idle: bool) -> (b: bool)
        ensures
            b == (idle && self@.pending.len() == 0),
    {
        idle && self.pending.len() == 0
    }

    /// One step was taken.
    pub fn step(&mut self)
        requires
            old(self)@.t < old(self)@.bound,
        ensures
            final(self)@ == (StaggerView { t: old(self)@.t + 1, ..old(self)@ }),
    {
        self.t += 1;
    }

    /// Steps taken.
    pub fn steps(&self) -> (n: usize)
        ensures
            n == self@.t,
    {
        self.t
    }
}

proof fn lemma_due(p: Seq<(usize, usize)>, from: nat, n: nat, m: nat, t: nat)
    requires
        p == every_third(from, n),
        from <= m <= n,
        n * 3 <= usize::MAX,
        t >= from * 3,
        t < (from + 1) * 3,
    ensures
        m > from && t == from * 3 ==> due_at(p.take(m - from), t) == seq![from as usize] && left_at(
            p.take(m - from),
            t,
        ) == p.take(m - from).skip(1),
        m == from || t != from * 3 ==> due_at(p.take(m - from), t) == Seq::<usize>::empty()
            && left_at(p.take(m - from), t) == p.take(m - from),
    decreases m,
{
    let q = p.take(m - from);
    if m == from {
        assert(q =~= Seq::empty());
        assert(left_at(q, t) =~= q);
    } else {
        lemma_due(p, from, n, (m - 1) as nat, t);
        assert(q.drop_last() =~= p.take(m - 1 - from));
        assert(q.last().0 == (m - 1) * 3 && q.last().1 == m - 1);
        if t == from * 3 {
            if m - 1 == from {
                assert(due_at(q, t) =~= seq![from as usize]);
                assert(left_at(q, t) =~= q.skip(1));
            } else {
                assert(left_at(q, t) =~= q.skip(1));
            }
        } else {
            assert(left_at(q, t) =~= q);
        }
    }
}

/// Law: each request of a staggered run is submitted alone, at its own step:
/// at every third step the next one, at the steps between none.
pub proof fn law_staggered_requests_enter_alone(n: nat, t: nat)
    requires
        n * 3 <= usize::MAX,
        t / 3 < n,
    ensures
        t % 3 == 0 ==> due_at(every_third(t / 3, n), t) == seq![(t / 3) as usize] && left_at(
            every_third(t / 3, n),
            t,
        ) == every_third(t / 3 + 1, n),
        t % 3 != 0 ==> due_at(every_third(t / 3, n), t) == Seq::<usize>::empty() && left_at(
            every_third(t / 3, n),
            t,
        ) == every_third(t / 3, n),
{
    let p = every_third(t / 3, n);
    lemma_due(p, t / 3, n, n, t);
    assert(p.take(n - t / 3) =~= p);
    assert(p.skip(1) =~= every_third(t / 3 + 1, n));
}

/// Where two sequences of tokens part: the first place that differs, or the
/// beginning where one only goes on longer.
pub open spec fn parts_at(want: Seq<usize>, got: Seq<usize>, k: nat) -> bool {
    ||| {
        &&& k < want.len()
        &&& k < got.len()
        &&& want[k as int] != got[k as int]
        &&& forall|i: int| 0 <= i < k ==> want[i] == got[i]
    }
    ||| {
        &&& k == 0
        &&& forall|i: int| 0 <= i < want.len() && i < got.len() ==> want[i] == got[i]
    }
}

/// Where two sequences of tokens part.
pub fn first_difference(want: &[usize], got: &[usize]) -> (k: usize)
    ensures
        parts_at(want@, got@, k as nat),
{
    let mut i: usize = 0;
    while i < want.len() && i < got.len()
        invariant
            i <= want@.len(),
            i <= got@.len(),
            forall|k: int| 0 <= k < i ==> want@[k] == got@[k],
        decreases want@.len() - i,
    {
        if want[i] != got[i] {
            return i;
        }
        i += 1;
    }
    0
}

/// The few tokens from a place on that a report shows.
pub fn window(tokens: &[usize], from: usize) -> (w: Vec<usize>)
    requires
        from <= tokens@.len(),
        from + 3 <= usize::MAX,
    ensures
        w@ == tokens@.subrange(
            from as int,
            if from + 3 <= tokens@.len() {
                from + 3
            } else {
                tokens@.len() as int
            },
        ),
{
    let to: usize = min(from + 3, tokens.len());
    let mut w: Vec<usize> = Vec::new();
    let mut i: usize = from;
    while i < to
        invariant
            from <= i <= to <= tokens@.len(),
            w@ == tokens@.subrange(from as int, i as int),
        decreases to - i,
    {
        w.push(tokens[i]);
        i += 1;
        assert(w@ =~= tokens@.subrange(from as int, i as int));
    }
    w
}

/// Whether two sequences of tokens are the same.
pub fn same_tokens(a: &[usize], b: &[usize]) -> (same: bool)
    ensures
        same == (a@ == b@),
{
    if a.len() != b.len() {
        return false;
    }
    let mut i: usize = 0;
    while i < a.len()
        invariant
            i <= a@.len(),
            a@.len() == b@.len(),
            forall|k: int| 0 <= k < i ==> a@[k] == b@[k],
        decreases a@.len() - i,
    {
        if a[i] != b[i] {
            return false;
        }
        i += 1;
    }
    assert(a@ =~= b@);
    true
}

/// Whether a run that must drain has taken more steps than it may.
pub fn drains(done: usize, steps: usize) -> (r: Result<(), CheckError>)
    requires
        steps * 4 + 16 <= usize::MAX,
    ensures
        r is Err <==> done > steps * 4 + 16,
        r matches Err(e) ==> e == CheckError::NotDrained,
{
    if done > steps * 4 + 16 {
        Err(CheckError::NotDrained)
    } else {
        Ok(())
    }
}

/// What the batching check makes of its runs.
pub open spec fn batch_verdict_of(
    completions: usize,
    requests: usize,
    free: usize,
    total: usize,
    failures: usize,
) -> Option<CheckError> {
    if completions != requests {
        Some(CheckError::Completions { got: completions, expected: requests })
    } else if free != total {
        Some(CheckError::Leaked { free, total })
    } else if failures > 0 {
        Some(CheckError::Differed { failures })
    } else {
        None
    }
}

/// What the batching check makes of its runs: every request completed, every
/// page back, every output what the request produced alone.
pub fn batch_verdict(
    completions: usize,
    requests: usize,
    free: usize,
    total: usize,
    failures: usize,
) -> (r: Option<CheckError>)
    ensures
        r == batch_verdict_of(completions, requests, free, total, failures),
{
    if completions != requests {
        Some(CheckError::Completions { got: completions, expected: requests })
    } else if free != total {
        Some(CheckError::Leaked { free, total })
    } else if failures > 0 {
        Some(CheckError::Differed { failures })
    } else {
        None
    }
}

/// What the paging check makes of its runs. Paging moves storage, not
/// arithmetic: any difference means that an offset is wrong.
pub fn paged_verdict(failures: usize, identical: bool) -> (r: Option<CheckError>)
    ensures
        r == if failures > 0 {
            Some(CheckError::Lengths { failures })
        } else if !identical {
            Some(CheckError::NotIdentical)
        } else {
            None::<CheckError>
        },
{
    if failures > 0 {
        Some(CheckError::Lengths { failures })
    } else if !identical {
        Some(CheckError::NotIdentical)
    } else {
        None
    }
}

/// What the graph check makes of its two passes.
pub fn graph_verdict(failures: usize, free_eager: usize, free_graph: usize) -> (r: Option<
    CheckError,
>)
    ensures
        r == if failures > 0 {
            Some(CheckError::Steps { failures })
        } else if free_eager != free_graph {
            Some(CheckError::Accounting)
        } else {
            None::<CheckError>
        },
{
    if failures > 0 {
        Some(CheckError::Steps { failures })
    } else if free_eager != free_graph {
        Some(CheckError::Accounting)
    } else {
        None
    }
}

/// Whether one path of the sampling check gave its pages back.
pub fn sampling_leak(device_topk: bool, free: usize, total: usize) -> (r: Option<CheckError>)
    ensures
        r == if free != total {
            Some(CheckError::LeakedOn { device_topk })
        } else {
            None::<CheckError>
        },
{
    if free != total {
        Some(CheckError::LeakedOn { device_topk })
    } else {
        None
    }
}

/// The first row whose device choice is not the host's.
pub fn argmax_mismatch(step: usize, device: &[usize], host: &[usize]) -> (r: Option<CheckError>)
    requires
        device@.len() == host@.len(),
    ensures
        match r {
            Some(CheckError::Argmax { step: s, row, device: d, host: h }) => {
                &&& s == step
                &&& row < device@.len()
                &&& d == device@[row as int]
                &&& h == host@[row as int]
                &&& d != h
                &&& forall|i: int| 0 <= i < row ==> device@[i] == host@[i]
            },
            Some(_) => false,
            None => device@ == host@,
        },
{
    let mut i: usize = 0;
    while i < device.len()
        invariant
            i <= device@.len(),
            device@.len() == host@.len(),
            forall|k: int| 0 <= k < i ==> device@[k] == host@[k],
        decreases device@.len() - i,
    {
        if device[i] != host[i] {
            return Some(CheckError::Argmax { step, row: i, device: device[i], host: host[i] });
        }
        i += 1;
    }
    assert(device@ =~= host@);
    None
}

/// Rows whose device choice is not the host's.
pub open spec fn mismatches(device: Seq<i32>, host: Seq<usize>) -> nat
    decreases device.len(),
{
    if device.len() == 0 {
        0
    } else {
        mismatches(device.drop_last(), host) + if device.last() as int == host[device.len() - 1] {
            0nat
        } else {
            1nat
        }
    }
}

/// What the selection check makes of a row per case.
pub fn argmax_verdict(device: &[i32], host: &[usize]) -> (r: Option<CheckError>)
    requires
        device@.len() == host@.len(),
    ensures
        mismatches(device@, host@) == 0 <==> r is None,
        r matches Some(e) ==> e matches CheckError::ArgmaxCases { cases } && cases == mismatches(
            device@,
            host@,
        ),
{
    let mut bad: usize = 0;
    let mut i: usize = 0;
    assert(device@.take(0) =~= Seq::empty());
    while i < device.len()
        invariant
            i <= device@.len(),
            device@.len() == host@.len(),
            bad <= i,
            bad == mismatches(device@.take(i as int), host@),
        decreases device@.len() - i,
    {
        assert(device@.take(i + 1).drop_last() =~= device@.take(i as int));
        if device[i] < 0 || device[i] as usize != host[i] {
            bad += 1;
        }
        i += 1;
    }
    assert(device@.take(i as int) =~= device@);
    if bad > 0 {
        Some(CheckError::ArgmaxCases { cases: bad })
    } else {
        None
    }
}

/// A finished request.
#[derive(Debug, Clone)]
pub struct Outcome {
    pub id: u64,
    pub reason: FinishReason,
    pub tokens: Vec<usize>,
}

/// A request and what it produced alone.
#[derive(Debug, Clone)]
pub struct Expected {
    pub id: u64,
    pub tokens: Vec<usize>,
}

/// What one step of the runtime did.
#[derive(Debug, Clone, Copy, PartialEq, Eq, Structural)]
pub struct StepCounts {
    pub decoded: usize,
    pub prefill_batches: usize,
    pub prefill_final_rows: usize,
}

/// How often an id is among the outcomes.
pub open spec fn occurrences(o: Seq<Outcome>, id: u64) -> nat
    decreases o.len(),
{
    if o.len() == 0 {
        0
    } else {
        occurrences(o.drop_last(), id) + if o.last().id == id {
            1nat
        } else {
            0nat
        }
    }
}

fn count_of(o: &[Outcome], id: u64) -> (n: usize)
    ensures
        n == occurrences(o@, id),
        n <= o@.len(),
{
    let mut n: usize = 0;
    let mut i: usize = 0;
    assert(o@.take(0) =~= Seq::empty());
    while i < o.len()
        invariant
            i <= o@.len(),
            n <= i,
            n == occurrences(o@.take(i as int), id),
        decreases o@.len() - i,
    {
        assert(o@.take(i + 1).drop_last() =~= o@.take(i as int));
        if o[i].id == id {
            n += 1;
        }
        i += 1;
    }
    assert(o@.take(i as int) =~= o@);
    n
}

/// The first outcome of an id.
pub open spec fn is_first(o: Seq<Outcome>, id: u64, k: int) -> bool {
    &&& 0 <= k < o.len()
    &&& o[k].id == id
    &&& forall|i: int| 0 <= i < k ==> (#[trigger] o[i]).id != id
}

proof fn lemma_occurs(o: Seq<Outcome>, id: u64)
    requires
        occurrences(o, id) > 0,
    ensures
        exists|k: int| 0 <= k < o.len() && (#[trigger] o[k]).id == id,
    decreases o.len(),
{
    if o.last().id == id {
        assert(o[o.len() - 1].id == id);
    } else {
        lemma_occurs(o.drop_last(), id);
        let k = choose|k: int|
            0 <= k < o.drop_last().len() && (#[trigger] o.drop_last()[k]).id == id;
        assert(o[k].id == id);
    }
}

fn find(o: &[Outcome], id: u64) -> (k: usize)
    requires
        occurrences(o@, id) > 0,
    ensures
        is_first(o@, id, k as int),
{
    proof {
        lemma_occurs(o@, id);
    }
    let mut i: usize = 0;
    while o[i].id != id
        invariant
            i < o@.len(),
            exists|k: int| i <= k < o@.len() && (#[trigger] o@[k]).id == id,
            forall|k: int| 0 <= k < i ==> (#[trigger] o@[k]).id != id,
        decreases o@.len() - i,
    {
        i += 1;
    }
    i
}

/// The widths at which a run decoded, each once as long as it lasted.
pub open spec fn widths_of(t: Seq<StepCounts>) -> Seq<usize>
    decreases t.len(),
{
    if t.len() == 0 {
        Seq::empty()
    } else {
        let w = widths_of(t.drop_last());
        let d = t.last().decoded;
        if d > 0 && (w.len() == 0 || w.last() != d) {
            w.push(d)
        } else {
            w
        }
    }
}

/// The widths at which a run decoded.
pub fn widths(trace: &[StepCounts]) -> (w: Vec<usize>)
    ensures
        w@ == widths_of(trace@),
{
    let mut w: Vec<usize> = Vec::new();
    let mut i: usize = 0;
    assert(trace@.take(0) =~= Seq::empty());
    while i < trace.len()
        invariant
            i <= trace@.len(),
            w@ == widths_of(trace@.take(i as int)),
        decreases trace@.len() - i,
    {
        assert(trace@.take(i + 1).drop_last() =~= trace@.take(i as int));
        let d: usize = trace[i].decoded;
        if d > 0 && (w.len() == 0 || w[w.len() - 1] != d) {
            w.push(d);
        }
        i += 1;
    }
    assert(trace@.take(i as int) =~= trace@);
    w
}

/// How many steps prefilled anything.
pub open spec fn prefill_steps(t: Seq<StepCounts>) -> nat
    decreases t.len(),
{
    if t.len() == 0 {
        0
    } else {
        prefill_steps(t.drop_last()) + if t.last().prefill_batches > 0 {
            1nat
        } else {
            0nat
        }
    }
}

fn count_prefills(trace: &[StepCounts]) -> (n: usize)
    ensures
        n == prefill_steps(trace@),
{
    let mut n: usize = 0;
    let mut i: usize = 0;
    assert(trace@.take(0) =~= Seq::empty());
    while i < trace.len()
        invariant
            i <= trace@.len(),
            n <= i,
            n == prefill_steps(trace@.take(i as int)),
        decreases trace@.len() - i,
    {
        assert(trace@.take(i + 1).drop_last() =~= trace@.take(i as int));
        if trace[i].prefill_batches > 0 {
            n += 1;
        }
        i += 1;
    }
    assert(trace@.take(i as int) =~= trace@);
    n
}

/// Whether a request came back once, in full, with what it produced alone.
pub open spec fn returned(o: Seq<Outcome>, e: Expected) -> bool {
    &&& occurrences(o, e.id) == 1
    &&& forall|k: int|
        #![trigger o[k]]
        is_first(o, e.id, k) ==> o[k].reason == FinishReason::Length && o[k].tokens@ == e.tokens@
}

/// What the concurrent check asks of a run before it looks at outputs.
pub open spec fn shaped(trace: Seq<StepCounts>, idle: bool, completed: nat) -> bool {
    &&& idle
    &&& widths_of(trace) == seq![16usize, 8]
    &&& prefill_steps(trace) == 1
    &&& trace[0].prefill_final_rows == 16
    &&& completed == 16
}

/// What the concurrent check makes of a run: sixteen requests that prefill
/// together, decode together, shrink to eight and return what each produced
/// alone. How many outputs were compared, or the first thing that is wrong.
pub fn concurrent_verdict(
    trace: &[StepCounts],
    idle: bool,
    completed: &[Outcome],
    expected: &[Expected],
    free: usize,
    total: usize,
    graph: bool,
    reverse: bool,
) -> (r: Result<usize, CheckError>)
    ensures
        match r {
            Ok(n) => {
                &&& shaped(trace@, idle, completed@.len())
                &&& forall|i: int|
                    0 <= i < expected@.len() ==> returned(completed@, #[trigger] expected@[i])
                &&& free == total
                &&& n == expected@.len()
            },
            Err(CheckError::ConcurrentNotDrained) => !idle,
            Err(CheckError::Widths { graph: g, reverse: v, widths }) => {
                &&& idle
                &&& widths@ == widths_of(trace@)
                &&& widths@ != seq![16usize, 8]
                &&& g == graph
                &&& v == reverse
            },
            Err(CheckError::NotTogether) => {
                &&& idle
                &&& widths_of(trace@) == seq![16usize, 8]
                &&& !(prefill_steps(trace@) == 1 && trace@[0].prefill_final_rows == 16)
            },
            Err(CheckError::ConcurrentCount) => {
                &&& idle
                &&& widths_of(trace@) == seq![16usize, 8]
                &&& prefill_steps(trace@) == 1 && trace@[0].prefill_final_rows == 16
                &&& completed@.len() != 16
            },
            Err(CheckError::ConcurrentMissing { id }) => {
                &&& shaped(trace@, idle, completed@.len())
                &&& occurrences(completed@, id) != 1
                &&& exists|i: int|
                    0 <= i < expected@.len() && (#[trigger] expected@[i]).id == id && forall|k: int|
                        0 <= k < i ==> returned(completed@, #[trigger] expected@[k])
            },
            Err(CheckError::ConcurrentDiffers { id, graph: g, reverse: v, want, out }) => {
                &&& shaped(trace@, idle, completed@.len())
                &&& g == graph
                &&& v == reverse
                &&& exists|i: int, k: int|
                    #![trigger expected@[i], completed@[k]]
                    0 <= i < expected@.len() && expected@[i].id == id && expected@[i].tokens@
                        == want@ && is_first(completed@, id, k) && completed@[k].tokens@ == out@
                        && !returned(completed@, expected@[i]) && forall|j: int|
                        0 <= j < i ==> returned(completed@, #[trigger] expected@[j])
            },
            Err(CheckError::ConcurrentLeaked) => {
                &&& shaped(trace@, idle, completed@.len())
                &&& forall|i: int|
                    0 <= i < expected@.len() ==> returned(completed@, #[trigger] expected@[i])
                &&& free != total
            },
            Err(_) => false,
        },
{
    if !idle {
        return Err(CheckError::ConcurrentNotDrained);
    }
    let w = widths(trace);
    if w.len() != 2 || w[0] != 16 || w[1] != 8 {
        assert(w@ != seq![16usize, 8]) by {
            if w@ == seq![16usize, 8] {
                assert(w@.len() == 2 && w@[0] == 16 && w@[1] == 8);
            }
        }
        return Err(CheckError::Widths { graph, reverse, widths: w });
    }
    assert(w@ =~= seq![16usize, 8]);
    assert(trace@.len() > 0);
    if count_prefills(trace) != 1 || trace[0].prefill_final_rows != 16 {
        return Err(CheckError::NotTogether);
    }
    if completed.len() != 16 {
        return Err(CheckError::ConcurrentCount);
    }
    let mut i: usize = 0;
    while i < expected.len()
        invariant
            shaped(trace@, idle, completed@.len()),
            i <= expected@.len(),
            forall|k: int| 0 <= k < i ==> returned(completed@, #[trigger] expected@[k]),
        decreases expected@.len() - i,
    {
        let e = &expected[i];
        if count_of(completed, e.id) != 1 {
            assert(expected@[i as int].id == e.id);
            return Err(CheckError::ConcurrentMissing { id: e.id });
        }
        let k: usize = find(completed, e.id);
        let c = &completed[k];
        let whole = match c.reason {
            FinishReason::Length => true,
            FinishReason::Cancelled => false,
        };
        if !whole || !same_tokens(c.tokens.as_slice(), e.tokens.as_slice()) {
            let want = copied(&e.tokens);
            let out = copied(&c.tokens);
            proof {
                assert(is_first(completed@, e.id, k as int));
                assert(!returned(completed@, expected@[i as int]));
            }
            return Err(
                CheckError::ConcurrentDiffers { id: e.id, graph, reverse, want, out },
            );
        }
        assert(returned(completed@, expected@[i as int])) by {
            assert forall|j: int| #![trigger completed@[j]] is_first(completed@, e.id, j) implies j
                == k by {}
        }
        i += 1;
    }
    if free != total {
        return Err(CheckError::ConcurrentLeaked);
    }
    Ok(expected.len())
}

fn copied(v: &Vec<usize>) -> (w: Vec<usize>)
    ensures
        w@ == v@,
{
    let mut w: Vec<usize> = Vec::new();
    let mut i: usize = 0;
    while i < v.len()
        invariant
            i <= v@.len(),
            w@ == v@.take(i as int),
        decreases v@.len() - i,
    {
        w.push(v[i]);
        i += 1;
        assert(w@ =~= v@.take(i as int));
    }
    assert(w@ =~= v@);
    w
}

/// How many completions a cancellation leaves: a request that was cancelled
/// before it was admitted leaves none of its own.
pub open spec fn completions_after(at: usize) -> nat {
    if at == 0 {
        5
    } else {
        6
    }
}

/// What one outcome must be: the cancelled request says so, every other returns
/// what it produced alone.
pub open spec fn accounted(o: Outcome, victim: u64, expected: Seq<Expected>) -> bool {
    if o.id == victim {
        o.reason == FinishReason::Cancelled
    } else {
        expected_whole(o, expected)
    }
}

/// Whether an outcome is what some request was expected to return.
pub open spec fn expected_whole(o: Outcome, expected: Seq<Expected>) -> bool {
    exists|i: int| 0 <= i < expected.len() && names(#[trigger] expected[i], o)
}

/// Whether an outcome is what was expected of its request.
pub open spec fn names(e: Expected, o: Outcome) -> bool {
    e.id == o.id && e.tokens@ == o.tokens@
}

fn accounts(o: &Outcome, expected: &[Expected]) -> (b: bool)
    ensures
        b == expected_whole(*o, expected@),
{
    let mut i: usize = 0;
    while i < expected.len()
        invariant
            i <= expected@.len(),
            forall|k: int| 0 <= k < i ==> !names(#[trigger] expected@[k], *o),
        decreases expected@.len() - i,
    {
        if expected[i].id == o.id && same_tokens(
            expected[i].tokens.as_slice(),
            o.tokens.as_slice(),
        ) {
            assert(names(expected@[i as int], *o));
            return true;
        }
        i += 1;
    }
    false
}

/// What the cancellation check asks of the counts.
pub open spec fn cancellation_counts(at: usize, victim: u64, o: Seq<Outcome>) -> bool {
    &&& o.len() == completions_after(at)
    &&& occurrences(o, victim) == if at == 0 {
        0nat
    } else {
        1nat
    }
}

/// Whether every expected request completed, and once.
pub open spec fn all_once(expected: Seq<Expected>, o: Seq<Outcome>) -> bool {
    forall|i: int| 0 <= i < expected.len() ==> occurrences(o, (#[trigger] expected[i]).id) == 1
}

/// Whether `i` is the first outcome that is not what it must be.
pub open spec fn first_unaccounted(
    o: Seq<Outcome>,
    victim: u64,
    expected: Seq<Expected>,
    i: int,
) -> bool {
    &&& 0 <= i < o.len()
    &&& !accounted(o[i], victim, expected)
    &&& forall|j: int| 0 <= j < i ==> accounted(#[trigger] o[j], victim, expected)
}

/// What the cancellation check makes of a run in which `victim` was cancelled
/// after `at` steps and a replacement took its place. How many survivors were
/// compared, or what is wrong.
pub fn cancellation_verdict(
    at: usize,
    victim: u64,
    idle: bool,
    completed: &[Outcome],
    expected: &[Expected],
    free: usize,
    total: usize,
) -> (r: Result<usize, CheckError>)
    ensures
        match r {
            Ok(n) => {
                &&& idle
                &&& cancellation_counts(at, victim, completed@)
                &&& all_once(expected@, completed@)
                &&& forall|i: int|
                    0 <= i < completed@.len() ==> accounted(
                        #[trigger] completed@[i],
                        victim,
                        expected@,
                    )
                &&& free == total
                &&& n == completed@.len() - occurrences(completed@, victim)
            },
            Err(CheckError::CancelNotDrained) => !idle,
            Err(CheckError::CancelCount { at: a, expected: e, got }) => {
                &&& idle
                &&& a == at
                &&& e == completions_after(at)
                &&& got == completed@.len()
                &&& got != e
            },
            Err(CheckError::CancelSemantics) => {
                &&& idle
                &&& completed@.len() == completions_after(at)
                &&& !cancellation_counts(at, victim, completed@)
            },
            Err(CheckError::Survivor { id }) => {
                &&& idle
                &&& cancellation_counts(at, victim, completed@)
                &&& occurrences(completed@, id) != 1
                &&& exists|i: int|
                    0 <= i < expected@.len() && (#[trigger] expected@[i]).id == id && all_once(
                        expected@.take(i),
                        completed@,
                    )
            },
            Err(CheckError::CancelReason) => {
                &&& idle
                &&& cancellation_counts(at, victim, completed@)
                &&& all_once(expected@, completed@)
                &&& exists|i: int|
                    #![trigger completed@[i]]
                    first_unaccounted(completed@, victim, expected@, i) && completed@[i].id
                        == victim
            },
            Err(CheckError::SurvivorMismatch { id }) => {
                &&& idle
                &&& cancellation_counts(at, victim, completed@)
                &&& all_once(expected@, completed@)
                &&& id != victim
                &&& exists|i: int|
                    #![trigger completed@[i]]
                    first_unaccounted(completed@, victim, expected@, i) && completed@[i].id == id
            },
            Err(CheckError::CancelLeaked) => {
                &&& idle
                &&& cancellation_counts(at, victim, completed@)
                &&& all_once(expected@, completed@)
                &&& forall|i: int|
                    0 <= i < completed@.len() ==> accounted(
                        #[trigger] completed@[i],
                        victim,
                        expected@,
                    )
                &&& free != total
            },
            Err(_) => false,
        },
{
    if !idle {
        return Err(CheckError::CancelNotDrained);
    }
    let want: usize = if at == 0 {
        5
    } else {
        6
    };
    if completed.len() != want {
        return Err(CheckError::CancelCount { at, expected: want, got: completed.len() });
    }
    let own: usize = if at == 0 {
        0
    } else {
        1
    };
    if count_of(completed, victim) != own {
        return Err(CheckError::CancelSemantics);
    }
    let mut i: usize = 0;
    while i < expected.len()
        invariant
            i <= expected@.len(),
            cancellation_counts(at, victim, completed@),
            idle,
            all_once(expected@.take(i as int), completed@),
        decreases expected@.len() - i,
    {
        if count_of(completed, expected[i].id) != 1 {
            return Err(CheckError::Survivor { id: expected[i].id });
        }
        proof {
            let more = expected@.take(i + 1);
            assert forall|k: int| 0 <= k < more.len() implies occurrences(
                completed@,
                (#[trigger] more[k]).id,
            ) == 1 by {
                if k < i {
                    assert(more[k] == expected@.take(i as int)[k]);
                }
            }
        }
        i += 1;
    }
    assert(expected@.take(i as int) =~= expected@);
    let mut k: usize = 0;
    let mut survivors: usize = 0;
    assert(completed@.take(0) =~= Seq::empty());
    while k < completed.len()
        invariant
            k <= completed@.len(),
            idle,
            cancellation_counts(at, victim, completed@),
            all_once(expected@, completed@),
            survivors <= k,
            survivors == k - occurrences(completed@.take(k as int), victim),
            forall|j: int|
                0 <= j < k ==> accounted(#[trigger] completed@[j], victim, expected@),
        decreases completed@.len() - k,
    {
        assert(completed@.take(k + 1).drop_last() =~= completed@.take(k as int));
        let c = &completed[k];
        if c.id == victim {
            let cancelled = match c.reason {
                FinishReason::Cancelled => true,
                FinishReason::Length => false,
            };
            if !cancelled {
                assert(first_unaccounted(completed@, victim, expected@, k as int));
                return Err(CheckError::CancelReason);
            }
        } else {
            if !accounts(c, expected) {
                assert(first_unaccounted(completed@, victim, expected@, k as int));
                return Err(CheckError::SurvivorMismatch { id: c.id });
            }
            survivors += 1;
        }
        k += 1;
    }
    assert(completed@.take(k as int) =~= completed@);
    if free != total {
        return Err(CheckError::CancelLeaked);
    }
    Ok(survivors)
}

/// Whether an outcome is the first token of what was expected of its request.
pub open spec fn names_first(e: Expected, o: Outcome) -> bool {
    &&& e.id == o.id
    &&& e.tokens@.len() > 0
    &&& o.tokens@.len() == 1
    &&& o.tokens@[0] == e.tokens@[0]
}

/// Whether an outcome is the first token of what some request was expected to
/// return.
pub open spec fn begins(o: Outcome, expected: Seq<Expected>) -> bool {
    exists|i: int| 0 <= i < expected.len() && names_first(#[trigger] expected[i], o)
}

fn accounts_first(o: &Outcome, expected: &[Expected]) -> (b: bool)
    ensures
        b == begins(*o, expected@),
{
    let mut i: usize = 0;
    while i < expected.len()
        invariant
            i <= expected@.len(),
            forall|k: int| 0 <= k < i ==> !names_first(#[trigger] expected@[k], *o),
        decreases expected@.len() - i,
    {
        let e = &expected[i];
        if e.id == o.id && e.tokens.len() > 0 && o.tokens.len() == 1 && o.tokens[0] == e.tokens[0] {
            assert(names_first(expected@[i as int], *o));
            return true;
        }
        i += 1;
    }
    false
}

/// What the check of one-token requests makes of a run: each of the five returns
/// the first token of what it produced alone.
pub fn single_verdict(completed: &[Outcome], expected: &[Expected]) -> (r: Result<usize, CheckError>)
    ensures
        match r {
            Ok(n) => {
                &&& completed@.len() == 5
                &&& forall|k: int|
                    0 <= k < completed@.len() ==> begins(#[trigger] completed@[k], expected@)
                &&& n == 5
            },
            Err(CheckError::SingleCount) => completed@.len() != 5,
            Err(CheckError::SingleToken) => {
                &&& completed@.len() == 5
                &&& exists|k: int|
                    0 <= k < completed@.len() && !begins(#[trigger] completed@[k], expected@)
            },
            Err(_) => false,
        },
{
    if completed.len() != 5 {
        return Err(CheckError::SingleCount);
    }
    let mut k: usize = 0;
    while k < completed.len()
        invariant
            k <= completed@.len(),
            completed@.len() == 5,
            forall|j: int|
                0 <= j < k ==> begins(#[trigger] completed@[j], expected@),
        decreases completed@.len() - k,
    {
        if !accounts_first(&completed[k], expected) {
            assert(!begins(completed@[k as int], expected@));
            return Err(CheckError::SingleToken);
        }
        k += 1;
    }
    Ok(5)
}

/// What the check under page pressure makes of a run: the five requests return
/// what each produced alone, and all 32 pages come back.
pub fn pressure_verdict(completed: &[Outcome], expected: &[Expected], free: usize) -> (r: Result<
    usize,
    CheckError,
>)
    ensures
        match r {
            Ok(n) => {
                &&& completed@.len() == 5
                &&& forall|k: int|
                    0 <= k < completed@.len() ==> expected_whole(#[trigger] completed@[k], expected@)
                &&& free == 32
                &&& n == 5
            },
            Err(CheckError::PressureCount) => completed@.len() != 5,
            Err(CheckError::PressureOutput) => {
                &&& completed@.len() == 5
                &&& exists|k: int|
                    0 <= k < completed@.len() && !expected_whole(#[trigger] completed@[k], expected@)
            },
            Err(CheckError::PressureLeaked) => {
                &&& completed@.len() == 5
                &&& forall|k: int|
                    0 <= k < completed@.len() ==> expected_whole(#[trigger] completed@[k], expected@)
                &&& free != 32
            },
            Err(_) => false,
        },
{
    if completed.len() != 5 {
        return Err(CheckError::PressureCount);
    }
    let mut k: usize = 0;
    while k < completed.len()
        invariant
            k <= completed@.len(),
            completed@.len() == 5,
            forall|j: int|
                0 <= j < k ==> expected_whole(#[trigger] completed@[j], expected@),
        decreases completed@.len() - k,
    {
        if !accounts(&completed[k], expected) {
            assert(!expected_whole(completed@[k as int], expected@));
            return Err(CheckError::PressureOutput);
        }
        k += 1;
    }
    if free != 32 {
        return Err(CheckError::PressureLeaked);
    }
    Ok(5)
}

/// The batching check passes exactly the clean runs: every request completed, every
/// page back, no output changed.
pub proof fn law_only_clean_runs_pass(
    completions: usize,
    requests: usize,
    free: usize,
    total: usize,
    failures: usize,
)
    ensures
        batch_verdict_of(completions, requests, free, total, failures) is None <==> completions == requests
            && free == total && failures == 0,
{
}

/// The selection check passes exactly where the device chose as the host on every
/// row.
pub proof fn law_mismatches_are_counted(device: Seq<i32>, host: Seq<usize>)
    requires
        device.len() <= host.len(),
    ensures
        mismatches(device, host) == 0 <==> forall|i: int|
            0 <= i < device.len() ==> #[trigger] device[i] == host[i],
        mismatches(device, host) <= device.len(),
    decreases device.len(),
{
    if device.len() > 0 {
        let some = device.drop_last();
        law_mismatches_are_counted(some, host);
        if mismatches(some, host) == 0 {
            assert forall|i: int| 0 <= i < some.len() implies #[trigger] device[i] == host[i] by {
                assert(some[i] == device[i]);
            }
        } else {
            let i = choose|i: int| 0 <= i < some.len() && #[trigger] some[i] != host[i];
            assert(device[i] != host[i]);
        }
        assert(device.last() == device[device.len() - 1]);
    }
}

/// An id occurs once exactly where one outcome has it and no other.
pub proof fn law_occurrences_are_counted(o: Seq<Outcome>, id: u64)
    ensures
        occurrences(o, id) == 0 <==> forall|i: int| 0 <= i < o.len() ==> (#[trigger] o[i]).id != id,
        occurrences(o, id) == 1 <==> exists|k: int|
            {
                &&& 0 <= k < o.len()
                &&& (#[trigger] o[k]).id == id
                &&& forall|i: int| 0 <= i < o.len() && i != k ==> (#[trigger] o[i]).id != id
            },
    decreases o.len(),
{
    if o.len() > 0 {
        let some = o.drop_last();
        let n = o.len() - 1;
        law_occurrences_are_counted(some, id);
        assert(o.last() == o[n]);
        assert(forall|i: int| 0 <= i < n ==> some[i] == o[i]);
        if o[n].id == id {
            if occurrences(some, id) == 0 {
                assert forall|i: int| 0 <= i < o.len() && i != n implies (#[trigger] o[i]).id != id by {
                    assert(some[i].id != id);
                }
            } else {
                let i = choose|i: int| 0 <= i < some.len() && (#[trigger] some[i]).id == id;
                assert(o[i].id == id);
            }
        } else if occurrences(some, id) == 0 {
            assert forall|i: int| 0 <= i < o.len() implies (#[trigger] o[i]).id != id by {
                if i < n {
                    assert(some[i].id != id);
                }
            }
        } else {
            let i = choose|i: int| 0 <= i < some.len() && (#[trigger] some[i]).id == id;
            assert(o[i].id == id);
            if occurrences(some, id) == 1 {
                let k = choose|k: int|
                    {
                        &&& 0 <= k < some.len()
                        &&& (#[trigger] some[k]).id == id
                        &&& forall|i: int| 0 <= i < some.len() && i != k ==> (#[trigger] some[i]).id != id
                    };
                assert(o[k].id == id);
                assert forall|i: int| 0 <= i < o.len() && i != k implies (#[trigger] o[i]).id != id by {
                    if i < n {
                        assert(some[i].id != id);
                    }
                }
            } else if exists|k: int|
                {
                    &&& 0 <= k < o.len()
                    &&& (#[trigger] o[k]).id == id
                    &&& forall|i: int| 0 <= i < o.len() && i != k ==> (#[trigger] o[i]).id != id
                } {
                let k = choose|k: int|
                    {
                        &&& 0 <= k < o.len()
                        &&& (#[trigger] o[k]).id == id
                        &&& forall|i: int| 0 <= i < o.len() && i != k ==> (#[trigger] o[i]).id != id
                    };
                assert(some[k].id == id);
                assert forall|i: int| 0 <= i < some.len() && i != k implies (#[trigger] some[i]).id != id by {
                    assert(o[i].id != id);
                }
            }
        }
    }
}

/// A run decodes at the widths it is said to: each is one that some step had, every
/// step that decoded had one of them, and no two in a row are the same.
pub proof fn law_widths_are_those_of_the_steps(t: Seq<StepCounts>)
    ensures
        forall|i: int|
            0 <= i < t.len() && (#[trigger] t[i]).decoded > 0 ==> widths_of(t).contains(t[i].decoded),
        forall|k: int|
            0 <= k < widths_of(t).len() ==> #[trigger] widths_of(t)[k] > 0 && exists|i: int|
                0 <= i < t.len() && (#[trigger] t[i]).decoded == widths_of(t)[k],
        forall|k: int| 0 <= k < widths_of(t).len() - 1 ==> #[trigger] widths_of(t)[k] != widths_of(t)[k + 1],
    decreases t.len(),
{
    if t.len() > 0 {
        let some = t.drop_last();
        let w = widths_of(some);
        let v = widths_of(t);
        law_widths_are_those_of_the_steps(some);
        assert(t.last() == t[t.len() - 1]);
        assert forall|i: int| 0 <= i < t.len() && (#[trigger] t[i]).decoded > 0 implies v.contains(t[i].decoded) by {
            if i < some.len() {
                assert(some[i] == t[i]);
                let k = choose|k: int| 0 <= k < w.len() && w[k] == t[i].decoded;
                assert(v[k] == t[i].decoded);
            } else {
                assert(v[v.len() - 1] == t[i].decoded);
            }
        }
        assert forall|k: int| 0 <= k < v.len() implies #[trigger] v[k] > 0 && exists|i: int|
            0 <= i < t.len() && (#[trigger] t[i]).decoded == v[k] by {
            if k < w.len() {
                assert(w[k] == v[k]);
                let i = choose|i: int| 0 <= i < some.len() && (#[trigger] some[i]).decoded == w[k];
                assert(t[i].decoded == v[k]);
            } else {
                assert(t[t.len() - 1].decoded == v[k]);
            }
        }
        assert forall|k: int| 0 <= k < v.len() - 1 implies #[trigger] v[k] != v[k + 1] by {
            if k + 1 < w.len() {
                assert(w[k] != w[k + 1]);
            }
        }
    }
}

/// Whenever the request is cancelled, five others come back.
pub proof fn law_five_survive_a_cancellation(at: usize, victim: u64, o: Seq<Outcome>)
    requires
        cancellation_counts(at, victim, o),
    ensures
        o.len() - occurrences(o, victim) == 5,
        at == 0 ==> forall|k: int| 0 <= k < o.len() ==> (#[trigger] o[k]).id != victim,
        at > 0 ==> exists|k: int| 0 <= k < o.len() && (#[trigger] o[k]).id == victim,
{
    law_occurrences_are_counted(o, victim);
}

/// Steps that prefill are counted one by one: those of two stretches together,
/// and a single step where it ran a batch of prompts.
pub proof fn law_prefill_steps_are_counted(a: Seq<StepCounts>, b: Seq<StepCounts>, s: StepCounts)
    ensures
        prefill_steps(Seq::empty()) == 0,
        prefill_steps(seq![s]) == 1 <==> s.prefill_batches > 0,
        prefill_steps(seq![s]) <= 1,
        prefill_steps(a + b) == prefill_steps(a) + prefill_steps(b),
    decreases b.len(),
{
    assert(seq![s].drop_last() =~= Seq::empty());
    assert(prefill_steps(seq![s].drop_last()) == 0);
    assert(seq![s].last() == s);
    if b.len() == 0 {
        assert(a + b =~= a);
    } else {
        law_prefill_steps_are_counted(a, b.drop_last(), s);
        assert((a + b).drop_last() =~= a + b.drop_last());
    }
}

} // verus!
