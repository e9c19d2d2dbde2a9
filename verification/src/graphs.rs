//! Which captured graph serves a pass.
//!
//! A graph replays exactly the launches it was captured from, on the addresses
//! it was captured with. These caches decide when a pass replays one, when it
//! captures one, and when it runs eagerly.
use vstd::prelude::*;

verus! {

/// How a pass is run.
#[derive(Debug, Clone, Copy, PartialEq, Eq, Structural)]
pub enum Run {
    /// Replay the captured graph.
    Replay,
    /// Capture the launches into a graph, then launch it.
    Capture,
    /// Issue every launch.
    Eager,
}

/// Where batch size `n` keeps its graph, with and without candidates. Which
/// rows sample, and with what k, is in a device buffer; only whether any row
/// samples at all selects a graph.
pub open spec fn slot(n: nat, topk: bool) -> int {
    (n - 1) * 2 + if topk {
        1int
    } else {
        0
    }
}

/// Where batch size `n` keeps its graph.
pub fn graph_slot(n: usize, topk: bool) -> (s: usize)
    requires
        0 < n,
        2 * n <= usize::MAX,
    ensures
        s == slot(n as nat, topk),
{
    if topk {
        (n - 1) * 2 + 1
    } else {
        (n - 1) * 2
    }
}

/// Two kinds of step never share a graph, and a cache of `2 * max_batch` slots
/// has one for every batch up to `max_batch`.
pub proof fn law_graph_slots_are_distinct(n: nat, topk: bool, m: nat, topk2: bool, max_batch: nat)
    requires
        0 < n <= max_batch,
        0 < m <= max_batch,
    ensures
        slot(n, topk) == slot(m, topk2) ==> n == m && topk == topk2,
        0 <= slot(n, topk) < 2 * max_batch,
{
}

/// Set flags.
pub open spec fn count(flags: Seq<bool>) -> nat
    decreases flags.len(),
{
    if flags.len() == 0 {
        0
    } else {
        count(flags.drop_last()) + if flags.last() {
            1nat
        } else {
            0
        }
    }
}

proof fn lemma_count_update(flags: Seq<bool>, i: int)
    requires
        0 <= i < flags.len(),
        !flags[i],
    ensures
        count(flags.update(i, true)) == count(flags) + 1,
    decreases flags.len(),
{
    let u = flags.update(i, true);
    if i == flags.len() - 1 {
        assert(u.drop_last() =~= flags.drop_last());
    } else {
        assert(u.drop_last() =~= flags.drop_last().update(i, true));
        lemma_count_update(flags.drop_last(), i);
    }
}

proof fn lemma_count_none(flags: Seq<bool>)
    requires
        forall|i: int| 0 <= i < flags.len() ==> !(#[trigger] flags[i]),
    ensures
        count(flags) == 0,
    decreases flags.len(),
{
    if flags.len() > 0 {
        let d = flags.drop_last();
        assert forall|i: int| 0 <= i < d.len() implies !(#[trigger] d[i]) by {
            assert(d[i] == flags[i]);
        }
        lemma_count_none(d);
    }
}

proof fn lemma_count_bound(flags: Seq<bool>)
    ensures
        count(flags) <= flags.len(),
    decreases flags.len(),
{
    if flags.len() > 0 {
        lemma_count_bound(flags.drop_last());
    }
}

/// Captured decode graphs, one flag per slot.
#[derive(Debug)]
pub struct BatchGraphs {
    slots: Vec<bool>,
    captured: usize,
}

impl View for BatchGraphs {
    type V = Seq<bool>;

    closed spec fn view(&self) -> Seq<bool> {
        self.slots@
    }
}

impl BatchGraphs {
    /// The number of graphs is that of the occupied slots.
    pub closed spec fn wf(&self) -> bool {
        self.captured == count(self.slots@)
    }

    /// `n` empty slots.
    pub fn new(n: usize) -> (g: Self)
        ensures
            g.wf(),
            g@ == Seq::new(n as nat, |i: int| false),
    {
        let slots: Vec<bool> = vec![false; n];
        proof {
            lemma_count_none(slots@);
            assert(slots@ =~= Seq::new(n as nat, |i: int| false));
        }
        BatchGraphs { slots, captured: 0 }
    }

    /// Slots, occupied or not.
    pub fn len(&self) -> (n: usize)
        ensures
            n == self@.len(),
    {
        self.slots.len()
    }

    /// Whether a slot is occupied.
    pub fn has(&self, slot: usize) -> (b: bool)
        requires
            slot < self@.len(),
        ensures
            b == self@[slot as int],
    {
        self.slots[slot]
    }

    /// Graphs resident.
    pub fn captured(&self) -> (n: usize)
        requires
            self.wf(),
        ensures
            n == count(self@),
    {
        self.captured
    }

    /// Drop every graph.
    pub fn invalidate(&mut self)
        ensures
            final(self).wf(),
            final(self)@ == Seq::new(old(self)@.len(), |i: int| false),
    {
        let n: usize = self.slots.len();
        self.slots = vec![false; n];
        self.captured = 0;
        proof {
            lemma_count_none(self.slots@);
            assert(self.slots@ =~= Seq::new(old(self)@.len(), |i: int| false));
        }
    }

    /// A graph was captured into a slot.
    pub fn insert(&mut self, slot: usize)
        requires
            old(self).wf(),
            slot < old(self)@.len(),
        ensures
            final(self).wf(),
            final(self)@ == old(self)@.update(slot as int, true),
    {
        if !self.slots[slot] {
            proof {
                lemma_count_update(self.slots@, slot as int);
                lemma_count_bound(self.slots@.update(slot as int, true));
                assert(self.slots.len() == self.slots@.len());
            }
            self.slots.set(slot, true);
            self.captured = self.captured + 1;
        } else {
            assert(self.slots@.update(slot as int, true) =~= self.slots@);
        }
    }

    /// How a step is run: where replay is on and the step has a slot, from its
    /// graph.
    pub fn run(&self, on: bool, slot: usize) -> (r: Run)
        ensures
            r == (if !on || slot >= self@.len() {
                Run::Eager
            } else if self@[slot as int] {
                Run::Replay
            } else {
                Run::Capture
            }),
    {
        if !on || slot >= self.slots.len() {
            Run::Eager
        } else if self.slots[slot] {
            Run::Replay
        } else {
            Run::Capture
        }
    }
}

/// Prefill graphs kept at once.
///
/// Chunked prefill needs a handful: every full chunk shares one key and only
/// each prompt's tail differs. Anything past this many runs eagerly.
pub const MAX_PREFILL_GRAPHS: usize = 64;

/// What a prefill graph is captured for: chunk length, whether the chunk
/// produces logits, and the shared memory its attention is launched with.
#[derive(Debug, Clone, Copy, PartialEq, Eq, Structural)]
pub struct PrefillKey {
    pub len: usize,
    pub want_logits: bool,
    pub score_capacity: usize,
}

/// What the prefill cache holds.
pub ghost struct PrefillGraphsView {
    pub resident: Set<PrefillKey>,
    pub failed: Set<PrefillKey>,
    /// Captures since the last invalidation.
    pub captures: nat,
    pub replays: nat,
}

/// Captured prefill graphs, by key.
#[derive(Debug)]
pub struct PrefillGraphs {
    resident: Vec<PrefillKey>,
    failed: Vec<PrefillKey>,
    captures: usize,
    replays: usize,
}

impl View for PrefillGraphs {
    type V = PrefillGraphsView;

    closed spec fn view(&self) -> PrefillGraphsView {
        PrefillGraphsView {
            resident: self.resident@.to_set(),
            failed: self.failed@.to_set(),
            captures: self.captures as nat,
            replays: self.replays as nat,
        }
    }
}

fn holds(keys: &Vec<PrefillKey>, key: PrefillKey) -> (b: bool)
    ensures
        b == keys@.contains(key),
{
    let mut i: usize = 0;
    while i < keys.len()
        invariant
            i <= keys@.len(),
            forall|j: int| 0 <= j < i ==> keys@[j] != key,
        decreases keys@.len() - i,
    {
        if keys[i] == key {
            return true;
        }
        i += 1;
    }
    false
}

impl PrefillGraphs {
    /// Each graph is kept once, and there are never more than the limit. Each
    /// failure is kept once too.
    pub closed spec fn wf(&self) -> bool {
        &&& self.resident@.no_duplicates()
        &&& self.failed@.no_duplicates()
        &&& self.resident@.len() <= MAX_PREFILL_GRAPHS
    }

    /// Nothing captured.
    pub fn new() -> (g: Self)
        ensures
            g.wf(),
            g@ == (PrefillGraphsView {
                resident: Set::empty(),
                failed: Set::empty(),
                captures: 0,
                replays: 0,
            }),
    {
        let g = PrefillGraphs { resident: Vec::new(), failed: Vec::new(), captures: 0, replays: 0 };
        assert(g.resident@.to_set() =~= Set::empty());
        assert(g.failed@.to_set() =~= Set::empty());
        g
    }

    /// The cache is bounded, whatever was asked of it.
    pub proof fn law_prefill_graphs_are_bounded(&self)
        requires
            self.wf(),
        ensures
            self@.resident.finite(),
            self@.resident.len() <= MAX_PREFILL_GRAPHS,
    {
        self.resident@.unique_seq_to_set();
    }

    /// Captures since the last invalidation, and replays served.
    pub fn stats(&self) -> (r: (usize, usize))
        ensures
            r.0 == self@.captures,
            r.1 == self@.replays,
    {
        (self.captures, self.replays)
    }

    /// Whether a graph is resident.
    pub fn has(&self, key: PrefillKey) -> (b: bool)
        ensures
            b == self@.resident.contains(key),
    {
        holds(&self.resident, key)
    }

    /// How a chunk is run, where replay is on: from its graph if there is one.
    /// A key whose capture failed is not tried again, since running eagerly is
    /// as correct, and a full cache captures nothing more.
    pub fn run(&self, on: bool, key: PrefillKey) -> (r: Run)
        requires
            self.wf(),
        ensures
            r == (if !on {
                Run::Eager
            } else if self@.resident.contains(key) {
                Run::Replay
            } else if self@.failed.contains(key) || self@.resident.len() >= MAX_PREFILL_GRAPHS {
                Run::Eager
            } else {
                Run::Capture
            }),
    {
        proof {
            self.resident@.unique_seq_to_set();
        }
        if !on {
            Run::Eager
        } else if holds(&self.resident, key) {
            Run::Replay
        } else if holds(&self.failed, key) || self.resident.len() >= MAX_PREFILL_GRAPHS {
            Run::Eager
        } else {
            Run::Capture
        }
    }

    /// A graph was captured.
    pub fn insert(&mut self, key: PrefillKey)
        requires
            old(self).wf(),
            !old(self)@.resident.contains(key),
            old(self)@.resident.len() < MAX_PREFILL_GRAPHS,
            old(self)@.captures < usize::MAX,
        ensures
            final(self).wf(),
            final(self)@ == (PrefillGraphsView {
                resident: old(self)@.resident.insert(key),
                captures: old(self)@.captures + 1,
                ..old(self)@
            }),
    {
        proof {
            self.resident@.unique_seq_to_set();
        }
        let ghost before = self.resident@;
        self.resident.push(key);
        self.captures = self.captures + 1;
        proof {
            let now = self.resident@;
            assert(now.to_set() =~= before.to_set().insert(key)) by {
                assert forall|k: PrefillKey| now.to_set().contains(k) == before.to_set().insert(key).contains(k) by {
                    if before.contains(k) {
                        let i = choose|i: int| 0 <= i < before.len() && before[i] == k;
                        assert(now[i] == k);
                    }
                    if k == key {
                        assert(now[before.len() as int] == k);
                    }
                }
            }
            assert forall|i: int, j: int| 0 <= i < now.len() && 0 <= j < now.len() && i != j implies now[i] != now[j] by {
                if i == before.len() {
                    assert(before.contains(before[j]));
                } else if j == before.len() {
                    assert(before.contains(before[i]));
                }
            }
        }
    }

    /// A capture failed.
    pub fn fail(&mut self, key: PrefillKey)
        requires
            old(self).wf(),
        ensures
            final(self).wf(),
            final(self)@ == (PrefillGraphsView {
                failed: old(self)@.failed.insert(key),
                ..old(self)@
            }),
    {
        if holds(&self.failed, key) {
            assert(self@.failed.insert(key) =~= self@.failed);
            return;
        }
        let ghost before = self.failed@;
        self.failed.push(key);
        proof {
            let now = self.failed@;
            assert forall|i: int, j: int|
                0 <= i < now.len() && 0 <= j < now.len() && i != j implies now[i] != now[j] by {
                if i == before.len() {
                    assert(before.contains(before[j]));
                } else if j == before.len() {
                    assert(before.contains(before[i]));
                }
            }
            assert(now.to_set() =~= before.to_set().insert(key)) by {
                assert forall|k: PrefillKey| now.to_set().contains(k) == before.to_set().insert(key).contains(k) by {
                    if before.contains(k) {
                        let i = choose|i: int| 0 <= i < before.len() && before[i] == k;
                        assert(now[i] == k);
                    }
                    if k == key {
                        assert(now[before.len() as int] == k);
                    }
                }
            }
        }
    }

    /// A graph was replayed.
    pub fn replayed(&mut self)
        requires
            old(self).wf(),
            old(self)@.replays < usize::MAX,
        ensures
            final(self).wf(),
            final(self)@ == (PrefillGraphsView { replays: old(self)@.replays + 1, ..old(self)@ }),
    {
        self.replays = self.replays + 1;
    }

    /// Drop every graph and forget every failure.
    pub fn clear(&mut self)
        ensures
            final(self).wf(),
            final(self)@ == (PrefillGraphsView {
                resident: Set::empty(),
                failed: Set::empty(),
                ..old(self)@
            }),
    {
        self.resident = Vec::new();
        self.failed = Vec::new();
        assert(self.resident@.to_set() =~= Set::empty());
        assert(self.failed@.to_set() =~= Set::empty());
    }

    /// The same, and count captures anew: the addresses the graphs were
    /// captured with may have moved.
    pub fn invalidate(&mut self)
        ensures
            final(self).wf(),
            final(self)@ == (PrefillGraphsView {
                resident: Set::empty(),
                failed: Set::empty(),
                captures: 0,
                replays: old(self)@.replays,
            }),
    {
        self.clear();
        self.captures = 0;
    }
}

impl Default for PrefillGraphs {
    fn default() -> (g: Self)
        ensures
            g.wf(),
            g@ == (PrefillGraphsView {
                resident: Set::empty(),
                failed: Set::empty(),
                captures: 0,
                replays: 0,
            }),
    {
        PrefillGraphs::new()
    }
}

} // verus!
