//! Rounds of packed prefill over a set of prompts: which pieces share a call,
//! in what order, and how the sampled rows leave the device.
use crate::gpu::TOPK_MAX;
use crate::harness::workload::Policy;
use crate::math;
use crate::math::min;
use vstd::prelude::*;

verus! {

/// A piece of one prompt.
#[derive(Debug, Clone, Copy, PartialEq, Eq, Structural)]
pub struct Part {
    /// Whose prompt.
    pub index: usize,
    /// The first position.
    pub start: usize,
    /// How many tokens.
    pub len: usize,
}

/// How the waiting requests are put in order.
#[derive(Debug, Clone, Copy, PartialEq, Eq, Structural)]
pub enum Permutation {
    /// As they are.
    Kept,
    /// Last first.
    Reversed,
    /// Moved on by one with every call.
    Rotated,
}

/// The prompts of a run and how far each has come.
pub struct RunView {
    pub lens: Seq<usize>,
    pub consumed: Seq<usize>,
    pub chunk: usize,
    pub permutation: Permutation,
    pub context: usize,
    pub calls: nat,
}

/// The requests that have tokens left, in order.
pub open spec fn waiting(lens: Seq<usize>, consumed: Seq<usize>, n: nat) -> Seq<usize>
    decreases n,
{
    if n == 0 {
        Seq::empty()
    } else {
        let w = waiting(lens, consumed, (n - 1) as nat);
        if consumed[n - 1] < lens[n - 1] {
            w.push((n - 1) as usize)
        } else {
            w
        }
    }
}

/// The order in which the waiting requests are served.
pub open spec fn arranged(w: Seq<usize>, permutation: Permutation, calls: nat) -> Seq<usize> {
    match permutation {
        Permutation::Kept => w,
        Permutation::Reversed => Seq::new(w.len(), |i: int| w[w.len() - 1 - i]),
        Permutation::Rotated => Seq::new(
            w.len(),
            |i: int| w[(i + calls % w.len()) % (w.len() as int)],
        ),
    }
}

/// How many tokens of a request go into a round with `room` rows left.
pub open spec fn share(lens: Seq<usize>, consumed: Seq<usize>, i: int, chunk: nat, room: nat) -> nat {
    math::least(math::least(chunk, (lens[i] - consumed[i]) as nat), room)
}

/// The pieces that a round takes of the requests in `order`.
pub open spec fn parts(
    order: Seq<usize>,
    lens: Seq<usize>,
    consumed: Seq<usize>,
    chunk: nat,
    room: nat,
) -> Seq<Part>
    decreases order.len(),
{
    if order.len() == 0 {
        Seq::empty()
    } else {
        let i = order[0] as int;
        let n = share(lens, consumed, i, chunk, room);
        if n == 0 {
            Seq::empty()
        } else {
            seq![(Part { index: order[0], start: consumed[i], len: n as usize })] + parts(
                order.skip(1),
                lens,
                consumed.update(i, (consumed[i] + n) as usize),
                chunk,
                (room - n) as nat,
            )
        }
    }
}

/// How far each request has come after the round.
pub open spec fn advanced(
    order: Seq<usize>,
    lens: Seq<usize>,
    consumed: Seq<usize>,
    chunk: nat,
    room: nat,
) -> Seq<usize>
    decreases order.len(),
{
    if order.len() == 0 {
        consumed
    } else {
        let i = order[0] as int;
        let n = share(lens, consumed, i, chunk, room);
        if n == 0 {
            consumed
        } else {
            advanced(
                order.skip(1),
                lens,
                consumed.update(i, (consumed[i] + n) as usize),
                chunk,
                (room - n) as nat,
            )
        }
    }
}

/// The requests whose last token is in the round, in the order of its rows.
pub open spec fn finals(plan: Seq<Part>, lens: Seq<usize>) -> Seq<usize>
    decreases plan.len(),
{
    if plan.len() == 0 {
        Seq::empty()
    } else {
        let f = finals(plan.drop_last(), lens);
        let p = plan.last();
        if p.start + p.len == lens[p.index as int] {
            f.push(p.index)
        } else {
            f
        }
    }
}

/// Tokens that are still to come.
pub open spec fn left(lens: Seq<usize>, consumed: Seq<usize>, n: nat) -> nat
    decreases n,
{
    if n == 0 {
        0
    } else {
        left(lens, consumed, (n - 1) as nat) + (lens[n - 1] - consumed[n - 1]) as nat
    }
}

/// Rows that a round takes.
pub open spec fn rows(plan: Seq<Part>) -> nat
    decreases plan.len(),
{
    if plan.len() == 0 {
        0
    } else {
        plan[0].len as nat + rows(plan.skip(1))
    }
}

impl RunView {
    /// No request has come further than its prompt.
    pub open spec fn wf(self) -> bool {
        &&& self.lens.len() == self.consumed.len()
        &&& self.lens.len() <= usize::MAX
        &&& forall|i: int| 0 <= i < self.lens.len() ==> (#[trigger] self.consumed[i]) <= self.lens[i]
    }

    /// The requests of the next round, in order.
    pub open spec fn order(self) -> Seq<usize> {
        arranged(waiting(self.lens, self.consumed, self.lens.len()), self.permutation, self.calls)
    }

    /// The pieces of the next round.
    pub open spec fn plan(self) -> Seq<Part> {
        parts(self.order(), self.lens, self.consumed, self.chunk as nat, self.context as nat)
    }

    /// The run after the next round. A round that finishes a prompt is called
    /// twice: once as served, once for its full logits.
    pub open spec fn after(self) -> RunView {
        RunView {
            consumed: advanced(
                self.order(),
                self.lens,
                self.consumed,
                self.chunk as nat,
                self.context as nat,
            ),
            calls: self.calls + if finals(self.plan(), self.lens).len() > 0 {
                2nat
            } else {
                1nat
            },
            ..self
        }
    }

    /// Whether every prompt has been consumed.
    pub open spec fn finished(self) -> bool {
        forall|i: int| 0 <= i < self.lens.len() ==> (#[trigger] self.consumed[i]) == self.lens[i]
    }

    /// Tokens that are still to come.
    pub open spec fn left(self) -> nat {
        left(self.lens, self.consumed, self.lens.len())
    }

    /// The run after `n` rounds.
    pub open spec fn after_rounds(self, n: nat) -> RunView
        decreases n,
    {
        if n == 0 {
            self
        } else {
            self.after_rounds((n - 1) as nat).after()
        }
    }
}

/// Whether the requests in `order` are requests of the run.
pub open spec fn known(order: Seq<usize>, n: nat) -> bool {
    forall|i: int| 0 <= i < order.len() ==> (#[trigger] order[i]) < n
}

proof fn lemma_waiting(lens: Seq<usize>, consumed: Seq<usize>, n: nat)
    requires
        n <= lens.len(),
        lens.len() == consumed.len(),
        lens.len() <= usize::MAX,
    ensures
        waiting(lens, consumed, n).len() <= n,
        known(waiting(lens, consumed, n), n),
        forall|i: int|
            0 <= i < waiting(lens, consumed, n).len() ==> consumed[#[trigger] waiting(
                lens,
                consumed,
                n,
            )[i] as int] < lens[waiting(lens, consumed, n)[i] as int],
        forall|i: int, j: int|
            0 <= i < j < waiting(lens, consumed, n).len() ==> (#[trigger] waiting(
                lens,
                consumed,
                n,
            )[i]) < (#[trigger] waiting(lens, consumed, n)[j]),
    decreases n,
{
    if n > 0 {
        lemma_waiting(lens, consumed, (n - 1) as nat);
    }
}

proof fn lemma_arranged(w: Seq<usize>, permutation: Permutation, calls: nat, n: nat)
    requires
        known(w, n),
        forall|i: int, j: int| 0 <= i < j < w.len() ==> (#[trigger] w[i]) < (#[trigger] w[j]),
    ensures
        arranged(w, permutation, calls).len() == w.len(),
        known(arranged(w, permutation, calls), n),
        arranged(w, permutation, calls).no_duplicates(),
        forall|i: int|
            0 <= i < w.len() ==> w.contains(#[trigger] arranged(w, permutation, calls)[i]),
{
    let a = arranged(w, permutation, calls);
    let k = w.len() as int;
    match permutation {
        Permutation::Rotated => {
            if k > 0 {
                let r = (calls % w.len()) as int;
                assert forall|i: int| 0 <= i < k implies 0 <= #[trigger] ((i + r) % k) < k && (if i
                    + r < k {
                    (i + r) % k == i + r
                } else {
                    (i + r) % k == i + r - k
                }) by {
                    lemma_wraps(i, r, k);
                }
                assert forall|i: int, j: int| 0 <= i < k && 0 <= j < k && i != j implies a[i]
                    != a[j] by {
                    lemma_wraps(i, r, k);
                    lemma_wraps(j, r, k);
                }
                assert forall|i: int| 0 <= i < k implies w.contains(#[trigger] a[i]) by {
                    lemma_wraps(i, r, k);
                    assert(a[i] == w[(i + r) % k]);
                }
                assert forall|i: int| 0 <= i < a.len() implies (#[trigger] a[i]) < n by {
                    lemma_wraps(i, r, k);
                }
            }
        },
        _ => {},
    }
}

proof fn lemma_wraps(i: int, r: int, k: int)
    requires
        0 <= i < k,
        0 <= r < k,
    ensures
        0 <= (i + r) % k < k,
        i + r < k ==> (i + r) % k == i + r,
        i + r >= k ==> (i + r) % k == i + r - k,
{
    if i + r < k {
        vstd::arithmetic::div_mod::lemma_small_mod((i + r) as nat, k as nat);
    } else {
        vstd::arithmetic::div_mod::lemma_small_mod((i + r - k) as nat, k as nat);
        vstd::arithmetic::div_mod::lemma_mod_add_multiples_vanish(i + r - k, k);
    }
}

proof fn lemma_order(v: RunView)
    requires
        v.wf(),
    ensures
        known(v.order(), v.lens.len()),
        v.order().no_duplicates(),
        forall|i: int|
            0 <= i < v.order().len() ==> v.consumed[#[trigger] v.order()[i] as int]
                < v.lens[v.order()[i] as int],
{
    let w = waiting(v.lens, v.consumed, v.lens.len());
    lemma_waiting(v.lens, v.consumed, v.lens.len());
    lemma_arranged(w, v.permutation, v.calls, v.lens.len());
    assert forall|i: int| 0 <= i < v.order().len() implies v.consumed[#[trigger] v.order()[i] as int]
        < v.lens[v.order()[i] as int] by {
        assert(w.contains(v.order()[i]));
    }
}

/// What a round keeps: nobody passes the end of their prompt, and what was taken
/// is what is no longer to come.
proof fn lemma_round(
    order: Seq<usize>,
    lens: Seq<usize>,
    consumed: Seq<usize>,
    chunk: nat,
    room: nat,
)
    requires
        lens.len() == consumed.len(),
        known(order, lens.len()),
        forall|i: int| 0 <= i < lens.len() ==> (#[trigger] consumed[i]) <= lens[i],
    ensures
        advanced(order, lens, consumed, chunk, room).len() == lens.len(),
        forall|i: int|
            0 <= i < lens.len() ==> consumed[i] <= (#[trigger] advanced(
                order,
                lens,
                consumed,
                chunk,
                room,
            )[i]) <= lens[i],
        left(lens, advanced(order, lens, consumed, chunk, room), lens.len()) + rows(
            parts(order, lens, consumed, chunk, room),
        ) == left(lens, consumed, lens.len()),
        rows(parts(order, lens, consumed, chunk, room)) <= room,
        parts(order, lens, consumed, chunk, room).len() <= order.len(),
        forall|k: int|
            0 <= k < parts(order, lens, consumed, chunk, room).len() ==> ({
                let p = #[trigger] parts(order, lens, consumed, chunk, room)[k];
                &&& p.index == order[k]
                &&& 0 < p.len <= chunk
                &&& p.start + p.len <= lens[p.index as int]
            }),
    decreases order.len(),
{
    if order.len() > 0 {
        let i = order[0] as int;
        let n = share(lens, consumed, i, chunk, room);
        if n > 0 {
            let next = consumed.update(i, (consumed[i] + n) as usize);
            lemma_round(order.skip(1), lens, next, chunk, (room - n) as nat);
            lemma_left_update(lens, consumed, lens.len(), i, n);
            let p = parts(order, lens, consumed, chunk, room);
            let rest = parts(order.skip(1), lens, next, chunk, (room - n) as nat);
            assert(p.skip(1) =~= rest);
            assert forall|k: int| 0 <= k < p.len() implies ({
                let q = #[trigger] p[k];
                &&& q.index == order[k]
                &&& 0 < q.len <= chunk
                &&& q.start + q.len <= lens[q.index as int]
            }) by {
                if k > 0 {
                    assert(p[k] == rest[k - 1]);
                    assert(order.skip(1)[k - 1] == order[k]);
                }
            }
        }
    }
}

proof fn lemma_left_update(lens: Seq<usize>, consumed: Seq<usize>, m: nat, i: int, n: nat)
    requires
        lens.len() == consumed.len(),
        m <= lens.len(),
        0 <= i < lens.len(),
        consumed[i] + n <= lens[i],
    ensures
        left(lens, consumed.update(i, (consumed[i] + n) as usize), m) + (if i < m {
            n
        } else {
            0
        }) == left(lens, consumed, m),
    decreases m,
{
    if m > 0 {
        lemma_left_update(lens, consumed, (m - 1) as nat, i, n);
    }
}

/// Where no request comes twice, each piece begins where its request stood.
proof fn lemma_starts(
    order: Seq<usize>,
    lens: Seq<usize>,
    consumed: Seq<usize>,
    chunk: nat,
    room: nat,
    k: int,
)
    requires
        lens.len() == consumed.len(),
        known(order, lens.len()),
        order.no_duplicates(),
        0 <= k < parts(order, lens, consumed, chunk, room).len(),
    ensures
        k < order.len(),
        parts(order, lens, consumed, chunk, room)[k].index == order[k],
        parts(order, lens, consumed, chunk, room)[k].start == consumed[order[k] as int],
    decreases order.len(),
{
    let i = order[0] as int;
    let n = share(lens, consumed, i, chunk, room);
    let next = consumed.update(i, (consumed[i] + n) as usize);
    if k > 0 {
        let tail = order.skip(1);
        assert(tail.no_duplicates()) by {
            assert forall|a: int, b: int| 0 <= a < tail.len() && 0 <= b < tail.len() && a
                != b implies tail[a] != tail[b] by {
                assert(order[a + 1] != order[b + 1]);
            }
        }
        lemma_starts(tail, lens, next, chunk, (room - n) as nat, k - 1);
        assert(order[k] != order[0]);
    }
}

/// A run over prompts.
#[derive(Debug)]
pub struct PackedRun {
    lens: Vec<usize>,
    consumed: Vec<usize>,
    chunk: usize,
    permutation: Permutation,
    context: usize,
    calls: usize,
}

/// How much of a prompt is prefilled by itself before the rounds begin: lengths
/// around the sizes at which pages and tiles end, and never the whole prompt.
pub open spec fn prefix_of(index: int, len: nat) -> nat {
    let sizes = seq![0nat, 1, 15, 16, 17, 31, 32, 33, 63, 64, 127];
    math::least(sizes[index % 11], (len - 1) as nat)
}

fn prefix(index: usize, len: usize) -> (n: usize)
    requires
        len > 0,
    ensures
        n == prefix_of(index as int, len as nat),
{
    let sizes: Vec<usize> = vec![0, 1, 15, 16, 17, 31, 32, 33, 63, 64, 127];
    min(sizes[index % 11], len - 1)
}

/// The requests in a row of a vector, last first.
fn reversed(w: &Vec<usize>) -> (r: Vec<usize>)
    ensures
        r@ == arranged(w@, Permutation::Reversed, 0),
{
    let mut r: Vec<usize> = Vec::new();
    let n: usize = w.len();
    while r.len() < n
        invariant
            n == w@.len(),
            r@.len() <= n,
            forall|i: int| 0 <= i < r@.len() ==> #[trigger] r@[i] == w@[n - 1 - i],
        decreases n - r@.len(),
    {
        r.push(w[n - 1 - r.len()]);
    }
    assert(r@ =~= arranged(w@, Permutation::Reversed, 0));
    r
}

/// The requests of a vector, the first `calls` moved to its end.
fn rotated(w: &Vec<usize>, calls: usize) -> (r: Vec<usize>)
    ensures
        r@ == arranged(w@, Permutation::Rotated, calls as nat),
{
    let mut r: Vec<usize> = Vec::new();
    let n: usize = w.len();
    if n == 0 {
        assert(r@ =~= arranged(w@, Permutation::Rotated, calls as nat));
        return r;
    }
    let by: usize = calls % n;
    while r.len() < n
        invariant
            n == w@.len(),
            n > 0,
            by < n,
            r@.len() <= n,
            forall|i: int| 0 <= i < r@.len() ==> #[trigger] r@[i] == w@[(i + by) % (n as int)],
        decreases n - r@.len(),
    {
        let i: usize = r.len();
        proof {
            lemma_wraps(i as int, by as int, n as int);
        }
        let from: usize = if i < n - by {
            i + by
        } else {
            i - (n - by)
        };
        r.push(w[from]);
    }
    assert(r@ =~= arranged(w@, Permutation::Rotated, calls as nat));
    r
}

impl View for PackedRun {
    type V = RunView;

    closed spec fn view(&self) -> RunView {
        RunView {
            lens: self.lens@,
            consumed: self.consumed@,
            chunk: self.chunk,
            permutation: self.permutation,
            context: self.context,
            calls: self.calls as nat,
        }
    }
}

impl PackedRun {
    /// A run over prompts of these lengths. With `prefixes` each has already had
    /// a piece of it prefilled by itself.
    pub fn new(
        lens: Vec<usize>,
        chunk: usize,
        permutation: Permutation,
        context: usize,
        prefixes: bool,
    ) -> (run: Self)
        requires
            forall|i: int| 0 <= i < lens@.len() ==> #[trigger] lens@[i] > 0,
        ensures
            run@ == (RunView {
                lens: lens@,
                consumed: Seq::new(
                    lens@.len(),
                    |i: int|
                        if prefixes {
                            prefix_of(i, lens@[i] as nat) as usize
                        } else {
                            0
                        },
                ),
                chunk,
                permutation,
                context,
                calls: 0,
            }),
            run@.wf(),
    {
        let mut consumed: Vec<usize> = Vec::new();
        let n: usize = lens.len();
        while consumed.len() < n
            invariant
                n == lens@.len(),
                consumed@.len() <= n,
                forall|i: int| 0 <= i < lens@.len() ==> #[trigger] lens@[i] > 0,
                forall|i: int|
                    0 <= i < consumed@.len() ==> #[trigger] consumed@[i] == if prefixes {
                        prefix_of(i, lens@[i] as nat)
                    } else {
                        0
                    },
            decreases n - consumed@.len(),
        {
            let i: usize = consumed.len();
            if prefixes {
                consumed.push(prefix(i, lens[i]));
            } else {
                consumed.push(0);
            }
        }
        let run = PackedRun { lens, consumed, chunk, permutation, context, calls: 0 };
        assert(run@.consumed =~= Seq::new(
            lens@.len(),
            |i: int|
                if prefixes {
                    prefix_of(i, lens@[i] as nat) as usize
                } else {
                    0
                },
        ));
        run
    }

    /// How far a request has come.
    pub fn consumed(&self, i: usize) -> (n: usize)
        requires
            i < self@.consumed.len(),
        ensures
            n == self@.consumed[i as int],
    {
        self.consumed[i]
    }

    /// How many calls the rounds so far have made.
    pub fn calls(&self) -> (n: usize)
        ensures
            n == self@.calls,
    {
        self.calls
    }

    /// Whether every prompt has been consumed.
    pub fn is_finished(&self) -> (b: bool)
        requires
            self@.wf(),
        ensures
            b == self@.finished(),
    {
        let mut i: usize = 0;
        while i < self.lens.len()
            invariant
                self@.wf(),
                i <= self@.lens.len(),
                forall|k: int| 0 <= k < i ==> (#[trigger] self@.consumed[k]) == self@.lens[k],
            decreases self@.lens.len() - i,
        {
            if self.consumed[i] != self.lens[i] {
                assert(self@.consumed[i as int] != self@.lens[i as int]);
                return false;
            }
            i += 1;
        }
        true
    }

    fn arrange(&self) -> (order: Vec<usize>)
        requires
            self@.wf(),
        ensures
            order@ == self@.order(),
    {
        let mut w: Vec<usize> = Vec::new();
        let mut i: usize = 0;
        while i < self.lens.len()
            invariant
                self@.wf(),
                i <= self@.lens.len(),
                w@ == waiting(self@.lens, self@.consumed, i as nat),
            decreases self@.lens.len() - i,
        {
            if self.consumed[i] < self.lens[i] {
                w.push(i);
            }
            i += 1;
        }
        match self.permutation {
            Permutation::Kept => w,
            Permutation::Reversed => {
                let r = reversed(&w);
                assert(r@ =~= self@.order());
                r
            },
            Permutation::Rotated => rotated(&w, self.calls),
        }
    }

    /// The next round: what it takes of each request, and the requests whose last
    /// token is in it. There is none where nothing can be taken.
    pub fn next_round(&mut self) -> (r: Result<(Vec<Part>, Vec<usize>), NoProgress>)
        requires
            old(self)@.wf(),
            old(self)@.calls + 2 <= usize::MAX,
        ensures
            match r {
                Ok((plan, last)) => {
                    &&& old(self)@.plan().len() > 0
                    &&& plan@ == old(self)@.plan()
                    &&& last@ == finals(plan@, old(self)@.lens)
                    &&& final(self)@ == old(self)@.after()
                    &&& final(self)@.wf()
                },
                Err(_) => old(self)@.plan().len() == 0 && final(self)@ == old(self)@,
            },
    {
        let order = self.arrange();
        let mut plan: Vec<Part> = Vec::new();
        let mut room: usize = self.context;
        let mut k: usize = 0;
        let mut open = true;
        let ghost v = self@;
        proof {
            lemma_order(v);
            lemma_round(v.order(), v.lens, v.consumed, v.chunk as nat, v.context as nat);
            assert(order@.skip(0) =~= order@);
            assert(Seq::<Part>::empty() + v.plan() =~= v.plan());
        }
        while open && k < order.len()
            invariant
                v == old(self)@,
                v.wf(),
                k <= order@.len(),
                order@ == v.order(),
                known(order@, v.lens.len()),
                self.lens@ == v.lens,
                self.chunk == v.chunk,
                self.permutation == v.permutation,
                self.context == v.context,
                self.calls == v.calls,
                self.consumed@.len() == v.lens.len(),
                forall|i: int|
                    0 <= i < v.lens.len() ==> (#[trigger] self.consumed@[i]) <= v.lens[i],
                open ==> plan@ + parts(
                    order@.skip(k as int),
                    v.lens,
                    self.consumed@,
                    v.chunk as nat,
                    room as nat,
                ) == v.plan(),
                open ==> advanced(
                    order@.skip(k as int),
                    v.lens,
                    self.consumed@,
                    v.chunk as nat,
                    room as nat,
                ) == v.after().consumed,
                !open ==> plan@ == v.plan() && self.consumed@ == v.after().consumed,
                plan@.len() == 0 ==> self.consumed@ == v.consumed,
            decreases order@.len() - k, if open { 1int } else { 0int },
        {
            let index: usize = order[k];
            let ghost rest = order@.skip(k as int);
            assert(rest[0] == index);
            let len: usize = min(min(self.chunk, self.lens[index] - self.consumed[index]), room);
            if len == 0 {
                open = false;
                assert(plan@ + Seq::<Part>::empty() =~= plan@);
            } else {
                let start: usize = self.consumed[index];
                let ghost before = self.consumed@;
                let ghost taken = plan@;
                plan.push(Part { index, start, len });
                self.consumed.set(index, start + len);
                proof {
                    assert(rest.skip(1) =~= order@.skip(k + 1));
                    let more = parts(
                        order@.skip(k + 1),
                        v.lens,
                        self.consumed@,
                        v.chunk as nat,
                        (room - len) as nat,
                    );
                    assert(taken + (seq![(Part { index, start, len })] + more) =~= plan@ + more);
                }
                room -= len;
                k += 1;
            }
        }
        proof {
            if open {
                assert(order@.skip(k as int) =~= Seq::empty());
                assert(plan@ + Seq::<Part>::empty() =~= plan@);
            }
        }
        if plan.len() == 0 {
            assert(self@ =~= old(self)@);
            return Err(NoProgress);
        }
        let last = self.finals_of(&plan, Ghost(v));
        self.calls += if last.len() > 0 {
            2
        } else {
            1
        };
        Ok((plan, last))
    }

    fn finals_of(&self, plan: &Vec<Part>, Ghost(v): Ghost<RunView>) -> (last: Vec<usize>)
        requires
            self.lens@ == v.lens,
            v.wf(),
            plan@ == v.plan(),
        ensures
            last@ == finals(plan@, v.lens),
    {
        let mut last: Vec<usize> = Vec::new();
        let mut i: usize = 0;
        proof {
            lemma_order(v);
            lemma_round(v.order(), v.lens, v.consumed, v.chunk as nat, v.context as nat);
            assert(plan@.take(0) =~= Seq::empty());
        }
        while i < plan.len()
            invariant
                i <= plan@.len(),
                self.lens@ == v.lens,
                forall|k: int|
                    0 <= k < plan@.len() ==> ({
                        let p = #[trigger] plan@[k];
                        &&& p.index < v.lens.len()
                        &&& p.start + p.len <= v.lens[p.index as int]
                    }),
                last@ == finals(plan@.take(i as int), v.lens),
            decreases plan@.len() - i,
        {
            let p: Part = plan[i];
            assert(plan@.take(i + 1).drop_last() =~= plan@.take(i as int));
            if p.start + p.len == self.lens[p.index] {
                last.push(p.index);
            }
            i += 1;
        }
        assert(plan@.take(i as int) =~= plan@);
        last
    }
}

/// A packed plan made no progress.
#[derive(Debug, Clone, Copy, PartialEq, Eq, Structural)]
pub struct NoProgress;

impl NoProgress {
    /// The error in words.
    pub fn message(&self) -> (m: &'static str)
        ensures
            m@ == "packed plan made no progress"@,
    {
        "packed plan made no progress"
    }
}

/// Law: a round fits. It takes no more rows than the context holds, at most a
/// chunk of each request, each request at most once, from where it stood, and
/// nothing past the end of its prompt.
pub proof fn law_rounds_fit(v: RunView)
    requires
        v.wf(),
    ensures
        rows(v.plan()) <= v.context,
        forall|k: int|
            0 <= k < v.plan().len() ==> ({
                let p = #[trigger] v.plan()[k];
                &&& p.index < v.lens.len()
                &&& 0 < p.len <= v.chunk
                &&& p.start == v.consumed[p.index as int]
                &&& p.start + p.len <= v.lens[p.index as int]
            }),
        forall|j: int, k: int|
            0 <= j < k < v.plan().len() ==> (#[trigger] v.plan()[j]).index != (#[trigger] v.plan()[k]).index,
{
    let order = v.order();
    lemma_order(v);
    lemma_round(order, v.lens, v.consumed, v.chunk as nat, v.context as nat);
    assert forall|k: int| 0 <= k < v.plan().len() implies ({
        let p = #[trigger] v.plan()[k];
        &&& p.index < v.lens.len()
        &&& 0 < p.len <= v.chunk
        &&& p.start == v.consumed[p.index as int]
        &&& p.start + p.len <= v.lens[p.index as int]
    }) by {
        lemma_starts(order, v.lens, v.consumed, v.chunk as nat, v.context as nat, k);
    }
}

proof fn lemma_nothing_left(lens: Seq<usize>, consumed: Seq<usize>, n: nat)
    requires
        lens.len() == consumed.len(),
        n <= lens.len(),
        forall|i: int| 0 <= i < n ==> (#[trigger] consumed[i]) <= lens[i],
    ensures
        left(lens, consumed, n) == 0 <==> forall|i: int|
            0 <= i < n ==> (#[trigger] consumed[i]) == lens[i],
        waiting(lens, consumed, n).len() == 0 <==> left(lens, consumed, n) == 0,
    decreases n,
{
    if n > 0 {
        lemma_nothing_left(lens, consumed, (n - 1) as nat);
        if left(lens, consumed, n) == 0 {
            assert(consumed[n - 1] == lens[n - 1]);
        }
    }
}

/// Law: a round makes progress. While a prompt is unfinished and a chunk and the
/// context hold a token, a round takes at least one, and what it takes is no
/// longer to come.
pub proof fn law_rounds_make_progress(v: RunView)
    requires
        v.wf(),
        v.chunk > 0,
        v.context > 0,
    ensures
        !v.finished() ==> v.plan().len() > 0 && v.after().left() < v.left(),
        v.after().left() + rows(v.plan()) == v.left(),
        v.after().wf(),
{
    let order = v.order();
    lemma_order(v);
    lemma_round(order, v.lens, v.consumed, v.chunk as nat, v.context as nat);
    lemma_nothing_left(v.lens, v.consumed, v.lens.len());
    lemma_waiting(v.lens, v.consumed, v.lens.len());
    lemma_arranged(
        waiting(v.lens, v.consumed, v.lens.len()),
        v.permutation,
        v.calls,
        v.lens.len(),
    );
    if !v.finished() {
        assert(order.len() > 0);
        let i = order[0] as int;
        assert(v.consumed[i] < v.lens[i]);
        assert(share(v.lens, v.consumed, i, v.chunk as nat, v.context as nat) > 0);
        assert(v.plan().len() > 0);
        assert(v.plan()[0].len > 0);
        assert(rows(v.plan()) >= v.plan()[0].len);
    }
}

/// Law: every prompt is finished after at most as many rounds as there were
/// tokens to come.
pub proof fn law_rounds_finish(v: RunView, n: nat)
    requires
        v.wf(),
        v.chunk > 0,
        v.context > 0,
        n >= v.left(),
    ensures
        v.after_rounds(n).finished(),
{
    lemma_rounds_shrink(v, n);
    let w = v.after_rounds(n);
    lemma_nothing_left(w.lens, w.consumed, w.lens.len());
}

proof fn lemma_rounds_shrink(v: RunView, n: nat)
    requires
        v.wf(),
        v.chunk > 0,
        v.context > 0,
    ensures
        v.after_rounds(n).wf(),
        v.after_rounds(n).chunk == v.chunk,
        v.after_rounds(n).context == v.context,
        v.after_rounds(n).lens == v.lens,
        v.after_rounds(n).left() == 0 || v.after_rounds(n).left() + n <= v.left(),
    decreases n,
{
    if n > 0 {
        lemma_rounds_shrink(v, (n - 1) as nat);
        let w = v.after_rounds((n - 1) as nat);
        law_rounds_make_progress(w);
        lemma_nothing_left(w.lens, w.consumed, w.lens.len());
    }
}

/// How a finished row leaves the device.
#[derive(Debug, Clone, Copy, PartialEq, Eq, Structural)]
pub enum Route {
    /// Only its id.
    Id,
    /// Candidates, chosen on the device.
    Candidates,
    /// Its full logits.
    Full,
}

impl Policy {
    /// How a row of this policy leaves the device.
    pub open spec fn route(self) -> Route {
        if !self.temperature.positive() {
            Route::Id
        } else if self.top_k <= TOPK_MAX {
            Route::Candidates
        } else {
            Route::Full
        }
    }

    /// How a row of this policy leaves the device.
    pub fn route_of(&self) -> (r: Route)
        ensures
            r == self.route(),
    {
        if !self.temperature.is_positive() {
            Route::Id
        } else if self.top_k <= TOPK_MAX {
            Route::Candidates
        } else {
            Route::Full
        }
    }
}

/// The rows whose candidates are chosen on the device, each with how many.
pub open spec fn candidate_rows(p: Seq<Policy>) -> Seq<(usize, usize)>
    decreases p.len(),
{
    if p.len() == 0 {
        Seq::empty()
    } else {
        let r = candidate_rows(p.drop_last());
        if p.last().route() == Route::Candidates {
            r.push(((p.len() - 1) as usize, p.last().top_k))
        } else {
            r
        }
    }
}

/// The rows whose full logits are copied.
pub open spec fn full_rows(p: Seq<Policy>) -> Seq<usize>
    decreases p.len(),
{
    if p.len() == 0 {
        Seq::empty()
    } else {
        let r = full_rows(p.drop_last());
        if p.last().route() == Route::Full {
            r.push((p.len() - 1) as usize)
        } else {
            r
        }
    }
}

/// What the finished rows of a round ask of the device.
#[derive(Debug)]
pub struct Routes {
    pub topk_rows: Vec<(usize, usize)>,
    pub full_rows: Vec<usize>,
}

/// What the finished rows of a round ask of the device.
pub fn routes(policies: &[Policy]) -> (r: Routes)
    ensures
        r.topk_rows@ == candidate_rows(policies@),
        r.full_rows@ == full_rows(policies@),
{
    let mut topk_rows: Vec<(usize, usize)> = Vec::new();
    let mut full: Vec<usize> = Vec::new();
    let mut i: usize = 0;
    assert(policies@.take(0) =~= Seq::empty());
    while i < policies.len()
        invariant
            i <= policies@.len(),
            topk_rows@ == candidate_rows(policies@.take(i as int)),
            full@ == full_rows(policies@.take(i as int)),
        decreases policies@.len() - i,
    {
        assert(policies@.take(i + 1).drop_last() =~= policies@.take(i as int));
        match policies[i].route_of() {
            Route::Id => {},
            Route::Candidates => {
                topk_rows.push((i, policies[i].top_k));
            },
            Route::Full => {
                full.push(i);
            },
        }
        i += 1;
    }
    assert(policies@.take(i as int) =~= policies@);
    Routes { topk_rows, full_rows: full }
}

/// Bytes that a round must copy back.
pub fn expected_bytes(rows: usize, routes: &Routes, vocab: usize) -> (n: usize)
    requires
        rows * 4 + rows * TOPK_MAX * 8 + routes.full_rows@.len() * vocab * 4 <= usize::MAX,
    ensures
        n == rows * 4 + (if routes.topk_rows@.len() == 0 {
            0
        } else {
            rows * TOPK_MAX * 8
        }) + routes.full_rows@.len() * vocab * 4,
{
    let full: usize = routes.full_rows.len();
    assert(full * vocab >= 0) by (nonlinear_arith)
        requires
            full >= 0,
            vocab >= 0,
    ;
    let logits: usize = full * vocab * 4;
    let candidates: usize = if routes.topk_rows.len() == 0 {
        0
    } else {
        rows * TOPK_MAX * 8
    };
    rows * 4 + candidates + logits
}

proof fn lemma_candidate_rows(p: Seq<Policy>)
    requires
        p.len() <= usize::MAX,
    ensures
        forall|r: int|
            0 <= r < candidate_rows(p).len() ==> (#[trigger] candidate_rows(p)[r]).0 < p.len()
                && p[candidate_rows(p)[r].0 as int].route() == Route::Candidates
                && candidate_rows(p)[r].1 == p[candidate_rows(p)[r].0 as int].top_k,
        forall|r: int|
            0 <= r < full_rows(p).len() ==> (#[trigger] full_rows(p)[r]) < p.len()
                && p[full_rows(p)[r] as int].route() == Route::Full,
    decreases p.len(),
{
    if p.len() > 0 {
        lemma_candidate_rows(p.drop_last());
    }
}

/// Law: the two ways off the device never overlap, and candidates are asked for
/// only where the device holds as many.
pub proof fn law_routes_never_overlap(p: Seq<Policy>, a: int, b: int)
    requires
        p.len() <= usize::MAX,
        0 <= a < candidate_rows(p).len(),
        0 <= b < full_rows(p).len(),
    ensures
        candidate_rows(p)[a].0 != full_rows(p)[b],
        candidate_rows(p)[a].1 <= TOPK_MAX,
        candidate_rows(p)[a].0 < p.len(),
        full_rows(p)[b] < p.len(),
{
    lemma_candidate_rows(p);
}

/// Law: a row leaves the device by the cheapest way that its policy can be served
/// from. A greedy one needs its id alone; a sampled one needs its candidates where
/// the device can choose as many, listed once and with as many as it asks for, and
/// its full logits otherwise.
pub proof fn law_every_row_gets_what_it_needs(p: Seq<Policy>, i: int)
    requires
        0 <= i < p.len(),
        p.len() <= usize::MAX,
    ensures
        ({
            let sampled = p[i].temperature.positive();
            &&& candidate_rows(p).contains((i as usize, p[i].top_k)) <==> sampled && p[i].top_k <= TOPK_MAX
            &&& full_rows(p).contains(i as usize) <==> sampled && p[i].top_k > TOPK_MAX
            &&& forall|a: int|
                0 <= a < candidate_rows(p).len() && (#[trigger] candidate_rows(p)[a]).0 == i
                    ==> candidate_rows(p)[a].1 == p[i].top_k
        }),
    decreases p.len(),
{
    let some = p.drop_last();
    let n = (p.len() - 1) as usize;
    let c = candidate_rows(p);
    let f = full_rows(p);
    let d = candidate_rows(some);
    let g = full_rows(some);
    lemma_candidate_rows(some);
    lemma_rows_below(some);
    assert(p.last() == p[n as int]);
    if i < some.len() {
        law_every_row_gets_what_it_needs(some, i);
        assert(some[i] == p[i]);
        let want = (i as usize, p[i].top_k);
        assert(c.contains(want) <==> d.contains(want)) by {
            if d.contains(want) {
                let k = choose|k: int| 0 <= k < d.len() && d[k] == want;
                assert(c[k] == want);
            }
            if c.contains(want) {
                let k = choose|k: int| 0 <= k < c.len() && c[k] == want;
                assert(d[k] == want);
            }
        }
        assert(f.contains(i as usize) <==> g.contains(i as usize)) by {
            if g.contains(i as usize) {
                let k = choose|k: int| 0 <= k < g.len() && g[k] == i as usize;
                assert(f[k] == i as usize);
            }
            if f.contains(i as usize) {
                let k = choose|k: int| 0 <= k < f.len() && f[k] == i as usize;
                assert(g[k] == i as usize);
            }
        }
        assert forall|a: int| 0 <= a < c.len() && (#[trigger] c[a]).0 == i implies c[a].1 == p[i].top_k by {
            assert(c[a] == d[a]);
        }
    } else {
        let want = (n, p[i].top_k);
        if p.last().route() == Route::Candidates {
            assert(c[c.len() - 1] == want);
        }
        if p.last().route() == Route::Full {
            assert(f[f.len() - 1] == n);
        }
        if c.contains(want) && p.last().route() != Route::Candidates {
            let k = choose|k: int| 0 <= k < c.len() && c[k] == want;
            assert(d[k].0 < some.len());
        }
        if f.contains(n) && p.last().route() != Route::Full {
            let k = choose|k: int| 0 <= k < f.len() && f[k] == n;
            assert(g[k] < some.len());
        }
        assert forall|a: int| 0 <= a < c.len() && (#[trigger] c[a]).0 == i implies c[a].1 == p[i].top_k by {
            if a < d.len() {
                assert(d[a].0 < some.len());
            }
        }
    }
}

proof fn lemma_rows_below(p: Seq<Policy>)
    requires
        p.len() <= usize::MAX,
    ensures
        forall|a: int| 0 <= a < candidate_rows(p).len() ==> (#[trigger] candidate_rows(p)[a]).0 < p.len(),
        forall|a: int| 0 <= a < full_rows(p).len() ==> #[trigger] full_rows(p)[a] < p.len(),
    decreases p.len(),
{
    if p.len() > 0 {
        let some = p.drop_last();
        let c = candidate_rows(p);
        let f = full_rows(p);
        lemma_rows_below(some);
        assert forall|a: int| 0 <= a < c.len() implies (#[trigger] c[a]).0 < p.len() by {
            if a < candidate_rows(some).len() {
                assert(c[a] == candidate_rows(some)[a]);
            }
        }
        assert forall|a: int| 0 <= a < f.len() implies #[trigger] f[a] < p.len() by {
            if a < full_rows(some).len() {
                assert(f[a] == full_rows(some)[a]);
            }
        }
    }
}

/// Law: a round serves the requests that have tokens left, and no others.
pub proof fn law_waiting_requests_have_tokens_left(lens: Seq<usize>, consumed: Seq<usize>, n: nat, i: usize)
    requires
        n <= lens.len(),
        n <= consumed.len(),
        n <= usize::MAX,
    ensures
        waiting(lens, consumed, n).contains(i) <==> i < n && consumed[i as int] < lens[i as int],
    decreases n,
{
    if n > 0 {
        let below = (n - 1) as nat;
        let w = waiting(lens, consumed, below);
        let v = waiting(lens, consumed, n);
        law_waiting_requests_have_tokens_left(lens, consumed, below, i);
        if w.contains(i) {
            let k = choose|k: int| 0 <= k < w.len() && w[k] == i;
            assert(v[k] == i);
        }
        if consumed[n - 1] < lens[n - 1] {
            assert(v[v.len() - 1] == (n - 1) as usize);
            if v.contains(i) && i != n - 1 {
                let k = choose|k: int| 0 <= k < v.len() && v[k] == i;
                assert(w[k] == i);
            }
        }
    }
}

/// A shared prefix leaves at least one token of a prompt to prefill.
pub proof fn law_prefixes_leave_a_token(index: int, len: nat)
    requires
        0 <= index,
        len > 0,
    ensures
        prefix_of(index, len) < len,
        prefix_of(index, len) <= 127,
{
}

} // verus!
