//! Prompts, policies and page budgets of the checks: the same on every run, so
//! that a failure can be repeated.
use crate::math;
use crate::math::{div_ceil, min};
use crate::paged::PAGE_TOKENS;
use crate::wire::F32Bits;
use vstd::prelude::*;

verus! {

/// The seed of the probe prompts.
pub const PROBE_SEED: u64 = 0x9E3779B97F4A7C15;

/// The state that follows in a xorshift generator.
pub open spec fn next(s: u64) -> u64 {
    let a = s ^ (s << 13);
    let b = a ^ (a >> 7);
    b ^ (b << 17)
}

/// The state after `n` draws.
pub open spec fn nth(seed: u64, n: nat) -> u64
    decreases n,
{
    if n == 0 {
        seed
    } else {
        next(nth(seed, (n - 1) as nat))
    }
}

/// The next number of a xorshift generator, which is also its new state.
pub fn random(state: &mut u64) -> (r: u64)
    ensures
        r == next(*old(state)),
        *final(state) == r,
{
    let s: u64 = *state;
    let a: u64 = s ^ (s << 13);
    let b: u64 = a ^ (a >> 7);
    let c: u64 = b ^ (b << 17);
    *state = c;
    c
}

/// Law: a generator that was not seeded with zero never reaches zero, and two
/// different states never meet.
pub proof fn law_random_never_collapses(a: u64, b: u64)
    ensures
        a != 0 ==> next(a) != 0,
        a != b ==> next(a) != next(b),
{
    lemma_shifts_are_injective(a, b);
    let (a1, b1) = (a ^ (a << 13), b ^ (b << 13));
    lemma_shifts_are_injective(a1, b1);
    let (a2, b2) = (a1 ^ (a1 >> 7), b1 ^ (b1 >> 7));
    lemma_shifts_are_injective(a2, b2);
    assert(0u64 ^ (0u64 << 13) == 0 && 0u64 ^ (0u64 >> 7) == 0 && 0u64 ^ (0u64 << 17) == 0)
        by (bit_vector);
    if a != 0 {
        lemma_shifts_are_injective(a, 0);
        lemma_shifts_are_injective(a1, 0);
        lemma_shifts_are_injective(a2, 0);
    }
}

/// Each step of the generator can be undone.
proof fn lemma_shifts_are_injective(a: u64, b: u64)
    ensures
        a != b ==> a ^ (a << 13) != b ^ (b << 13),
        a != b ==> a ^ (a >> 7) != b ^ (b >> 7),
        a != b ==> a ^ (a << 17) != b ^ (b << 17),
{
    assert(a != b ==> a ^ (a << 13) != b ^ (b << 13)) by (bit_vector);
    assert(a != b ==> a ^ (a >> 7) != b ^ (b >> 7)) by (bit_vector);
    assert(a != b ==> a ^ (a << 17) != b ^ (b << 17)) by (bit_vector);
}

/// `n` draws, each taken as a token of the vocabulary.
pub open spec fn draws(seed: u64, n: nat, vocab: usize) -> Seq<usize> {
    Seq::new(n, |i: int| (nth(seed, (i + 1) as nat) % (vocab as u64)) as usize)
}

fn draw(seed: u64, n: usize, vocab: usize) -> (v: Vec<usize>)
    requires
        vocab > 0,
    ensures
        v@ == draws(seed, n as nat, vocab),
        forall|i: int| 0 <= i < n ==> #[trigger] v@[i] < vocab,
{
    let mut state: u64 = seed;
    let mut v: Vec<usize> = Vec::new();
    while v.len() < n
        invariant
            vocab > 0,
            v@.len() <= n,
            state == nth(seed, v@.len()),
            v@ == draws(seed, v@.len(), vocab),
            forall|i: int| 0 <= i < v@.len() ==> #[trigger] v@[i] < vocab,
        decreases n - v@.len(),
    {
        let ghost before = v@;
        let r: u64 = random(&mut state);
        let token: u64 = r % (vocab as u64);
        v.push(token as usize);
        assert(v@ =~= draws(seed, v@.len(), vocab)) by {
            assert(before =~= draws(seed, before.len(), vocab));
        }
    }
    v
}

/// Deterministic pseudo-random token ids, so a failure reproduces exactly.
pub fn probe_tokens(n: usize, vocab: usize) -> (v: Vec<usize>)
    requires
        vocab > 0,
    ensures
        v@ == draws(PROBE_SEED, n as nat, vocab),
        forall|i: int| 0 <= i < n ==> #[trigger] v@[i] < vocab,
{
    draw(PROBE_SEED, n, vocab)
}

/// A probe prompt with every id moved on, so that requests of one shape differ.
pub fn shifted_probe(n: usize, vocab: usize, request: usize) -> (v: Vec<usize>)
    requires
        0 < vocab,
        vocab + request * 977 <= usize::MAX,
    ensures
        v@ == Seq::new(
            n as nat,
            |i: int|
                ((draws(PROBE_SEED, n as nat, vocab)[i] + request * 977) % (vocab as int)) as usize,
        ),
        forall|i: int| 0 <= i < n ==> #[trigger] v@[i] < vocab,
{
    let base = probe_tokens(n, vocab);
    let step: usize = request * 977;
    let mut v: Vec<usize> = Vec::new();
    while v.len() < n
        invariant
            0 < vocab,
            step == request * 977,
            vocab + step <= usize::MAX,
            v@.len() <= n,
            base@ == draws(PROBE_SEED, n as nat, vocab),
            forall|i: int| 0 <= i < n ==> #[trigger] base@[i] < vocab,
            forall|i: int|
                0 <= i < v@.len() ==> #[trigger] v@[i] == (base@[i] + request * 977) % (vocab
                    as int),
        decreases n - v@.len(),
    {
        let i: usize = v.len();
        let token: usize = (base[i] + step) % vocab;
        v.push(token);
    }
    assert(v@ =~= Seq::new(
        n as nat,
        |i: int|
            ((draws(PROBE_SEED, n as nat, vocab)[i] + request * 977) % (vocab as int)) as usize,
    ));
    v
}

/// Ids for a timing prompt: varied rather than a repeated token, so nothing can
/// be skipped by a cache or short-circuited by identical embeddings.
pub fn timing_tokens(n: usize) -> (v: Vec<usize>)
    requires
        n * 7 <= usize::MAX,
    ensures
        v@ == Seq::new(n as nat, |i: int| (1000 + (i * 7) % 20000) as usize),
{
    let mut v: Vec<usize> = Vec::new();
    while v.len() < n
        invariant
            n * 7 <= usize::MAX,
            v@.len() <= n,
            v@ == Seq::new(v@.len(), |i: int| (1000 + (i * 7) % 20000) as usize),
        decreases n - v@.len(),
    {
        let ghost before = v@;
        let i: usize = v.len();
        v.push(1000 + (i * 7) % 20000);
        assert(v@ =~= Seq::new(v@.len(), |i: int| (1000 + (i * 7) % 20000) as usize));
    }
    v
}

/// How a request's tokens are chosen.
#[derive(Debug, Clone, Copy, PartialEq, Eq, Structural)]
pub struct Policy {
    /// Zero or less takes the most likely token.
    pub temperature: F32Bits,
    /// How many candidates are considered.
    pub top_k: usize,
    /// What the request's own generator starts from.
    pub seed: u64,
}

/// The policies that the requests of a check cycle through: greedy, narrow and
/// wide candidates on the device, as many as the device holds, and more.
pub open spec fn policy_of(id: u64) -> (F32Bits, usize) {
    if id % 5 == 0 {
        (F32Bits(0), 40)
    } else if id % 5 == 1 {
        (F32Bits(0x3f66_6666), 5)
    } else if id % 5 == 2 {
        (F32Bits(0x3f4c_cccd), 40)
    } else if id % 5 == 3 {
        (F32Bits(0x3f33_3333), 128)
    } else {
        (F32Bits(0x3f4c_cccd), 500)
    }
}

/// A request of a check.
#[derive(Debug)]
pub struct Workload {
    pub id: u64,
    pub prompt: Vec<usize>,
    pub max_tokens: usize,
    pub policy: Policy,
}

/// What a request's prompt is drawn from.
pub open spec fn prompt_seed(id: u64) -> u64 {
    id.wrapping_mul(977).wrapping_add(1234)
}

impl Workload {
    /// The request that an id and a length stand for.
    pub open spec fn describes(self, id: u64, len: nat, vocab: usize, steps: usize) -> bool {
        &&& self.id == id
        &&& self.prompt@ == draws(prompt_seed(id), len, vocab).update(
            len - 1,
            (42usize % vocab) as usize,
        )
        &&& self.max_tokens == steps
        &&& (self.policy.temperature, self.policy.top_k) == policy_of(id)
        &&& self.policy.seed == id.wrapping_mul(1237).wrapping_add(7)
    }

    /// The request of an id: its own prompt, policy and seed. All prompts end in
    /// the same token with radically different prefixes: a weak isolation test
    /// with unrelated current tokens can conceal cross-request attention reads.
    pub fn new(id: u64, len: usize, vocab: usize, steps: usize) -> (w: Workload)
        requires
            len > 0,
            vocab > 0,
        ensures
            w.describes(id, len as nat, vocab, steps),
            forall|i: int| 0 <= i < len ==> #[trigger] w.prompt@[i] < vocab,
    {
        let mut prompt = draw(id.wrapping_mul(977).wrapping_add(1234), len, vocab);
        prompt.set(len - 1, 42 % vocab);
        let which: u64 = id % 5;
        let (temperature, top_k): (F32Bits, usize) = if which == 0 {
            (F32Bits(0), 40)
        } else if which == 1 {
            (F32Bits(0x3f66_6666), 5)
        } else if which == 2 {
            (F32Bits(0x3f4c_cccd), 40)
        } else if which == 3 {
            (F32Bits(0x3f33_3333), 128)
        } else {
            (F32Bits(0x3f4c_cccd), 500)
        };
        Workload {
            id,
            prompt,
            max_tokens: steps,
            policy: Policy { temperature, top_k, seed: id.wrapping_mul(1237).wrapping_add(7) },
        }
    }
}

/// Law: whatever their ids, two requests of a check end in the same token.
pub proof fn law_prompts_end_alike(a: Workload, b: Workload, i: u64, j: u64, m: nat, n: nat, vocab: usize, s: usize, t: usize)
    requires
        vocab > 0,
        m > 0,
        n > 0,
        a.describes(i, m, vocab, s),
        b.describes(j, n, vocab, t),
    ensures
        a.prompt@.last() == b.prompt@.last(),
{
}

/// Prompt lengths and policies that differ in every dimension at once. A fault
/// that only shows when two sampled requests share a batch would survive a
/// uniform test. The last asks for more candidates than the device holds.
pub open spec fn mixed(i: int) -> (usize, Policy) {
    if i == 0 {
        (15, Policy { temperature: F32Bits(0), top_k: 40, seed: 1 })
    } else if i == 1 {
        (16, Policy { temperature: F32Bits(0x3f33_3333), top_k: 40, seed: 11 })
    } else if i == 2 {
        (17, Policy { temperature: F32Bits(0x3f80_0000), top_k: 5, seed: 22 })
    } else if i == 3 {
        (63, Policy { temperature: F32Bits(0), top_k: 40, seed: 2 })
    } else if i == 4 {
        (129, Policy { temperature: F32Bits(0x3e99_999a), top_k: 20, seed: 33 })
    } else if i == 5 {
        (511, Policy { temperature: F32Bits(0x3f66_6666), top_k: 10, seed: 44 })
    } else {
        (33, Policy { temperature: F32Bits(0x3f4c_cccd), top_k: 500, seed: 55 })
    }
}

/// The requests of the sampling check.
pub fn mixed_requests() -> (v: Vec<(usize, Policy)>)
    ensures
        v@ == Seq::new(7, |i: int| mixed(i)),
{
    let v: Vec<(usize, Policy)> =
        vec![
        (15, Policy { temperature: F32Bits(0), top_k: 40, seed: 1 }),
        (16, Policy { temperature: F32Bits(0x3f33_3333), top_k: 40, seed: 11 }),
        (17, Policy { temperature: F32Bits(0x3f80_0000), top_k: 5, seed: 22 }),
        (63, Policy { temperature: F32Bits(0), top_k: 40, seed: 2 }),
        (129, Policy { temperature: F32Bits(0x3e99_999a), top_k: 20, seed: 33 }),
        (511, Policy { temperature: F32Bits(0x3f66_6666), top_k: 10, seed: 44 }),
        (33, Policy { temperature: F32Bits(0x3f4c_cccd), top_k: 500, seed: 55 }),
    ];
    assert(v@ =~= Seq::new(7, |i: int| mixed(i)));
    v
}

/// The length of a request where a list of lengths is cycled.
pub open spec fn cycled(lens: Seq<usize>, i: int) -> usize {
    lens[i % (lens.len() as int)]
}

/// The pages that `n` requests of cycled lengths need for themselves and
/// `extra` positions more.
pub open spec fn cycled_need(lens: Seq<usize>, extra: nat, n: nat) -> nat
    decreases n,
{
    if n == 0 {
        0
    } else {
        cycled_need(lens, extra, (n - 1) as nat) + math::ceil_div(
            cycled(lens, n - 1) as nat + extra,
            PAGE_TOKENS as nat,
        )
    }
}

proof fn lemma_need_grows(lens: Seq<usize>, extra: nat, m: nat, n: nat)
    requires
        m <= n,
    ensures
        cycled_need(lens, extra, m) <= cycled_need(lens, extra, n),
    decreases n,
{
    if m < n {
        lemma_need_grows(lens, extra, m, (n - 1) as nat);
    }
}

/// Pages for `n` requests of cycled lengths at their full length, and one page
/// of slack each.
pub fn cycled_budget(lens: &[usize], extra: usize, n: usize) -> (pages: usize)
    requires
        n > 0 ==> lens@.len() > 0,
        forall|i: int| 0 <= i < lens@.len() ==> #[trigger] lens@[i] + extra <= usize::MAX,
        cycled_need(lens@, extra as nat, n as nat) + n <= usize::MAX,
    ensures
        pages == cycled_need(lens@, extra as nat, n as nat) + n,
{
    let mut total: usize = 0;
    let mut i: usize = 0;
    while i < n
        invariant
            i <= n,
            n > 0 ==> lens@.len() > 0,
            forall|i: int| 0 <= i < lens@.len() ==> #[trigger] lens@[i] + extra <= usize::MAX,
            cycled_need(lens@, extra as nat, n as nat) + n <= usize::MAX,
            total == cycled_need(lens@, extra as nat, i as nat) + i,
        decreases n - i,
    {
        let len: usize = lens[i % lens.len()];
        proof {
            lemma_need_grows(lens@, extra as nat, (i + 1) as nat, n as nat);
        }
        total += div_ceil(len + extra, PAGE_TOKENS) + 1;
        i += 1;
    }
    total
}

/// Law: a pool of the budgeted size still covers each request when all that came
/// before it hold everything they will ever need.
pub proof fn law_budget_covers_every_request(lens: Seq<usize>, extra: nat, n: nat, i: nat)
    requires
        i < n,
    ensures
        cycled_need(lens, extra, i) + math::ceil_div(
            cycled(lens, i as int) as nat + extra,
            PAGE_TOKENS as nat,
        ) <= cycled_need(lens, extra, n),
{
    lemma_need_grows(lens, extra, i + 1, n);
}

/// Pages for eight requests of the longest length, with slack.
pub fn eightfold_budget(longest: usize, steps: usize) -> (pages: usize)
    requires
        longest + steps + 2 <= usize::MAX,
        math::ceil_div((longest + steps + 2) as nat, PAGE_TOKENS as nat) * 8 + 8 <= usize::MAX,
    ensures
        pages == math::ceil_div((longest + steps + 2) as nat, PAGE_TOKENS as nat) * 8 + 8,
{
    div_ceil(longest + steps + 2, PAGE_TOKENS) * 8 + 8
}

/// The longest of some lengths, or one.
pub open spec fn longest_of(lens: Seq<usize>) -> usize
    decreases lens.len(),
{
    if lens.len() == 0 {
        1
    } else if lens.len() == 1 {
        lens[0]
    } else {
        let m = longest_of(lens.drop_last());
        if lens.last() > m {
            lens.last()
        } else {
            m
        }
    }
}

/// The longest of some lengths, or one where there is none.
pub fn longest(lens: &[usize]) -> (m: usize)
    ensures
        m == longest_of(lens@),
{
    if lens.len() == 0 {
        return 1;
    }
    let mut m: usize = lens[0];
    let mut i: usize = 1;
    assert(lens@.take(1) =~= seq![lens@[0]]);
    while i < lens.len()
        invariant
            1 <= i <= lens@.len(),
            m == longest_of(lens@.take(i as int)),
        decreases lens@.len() - i,
    {
        proof {
            assert(lens@.take(i + 1).drop_last() =~= lens@.take(i as int));
        }
        if lens[i] > m {
            m = lens[i];
        }
        i += 1;
    }
    assert(lens@.take(i as int) =~= lens@);
    m
}

/// Law: no length is longer than the longest.
pub proof fn law_longest_bounds(lens: Seq<usize>, i: int)
    requires
        0 <= i < lens.len(),
    ensures
        lens[i] <= longest_of(lens),
        lens.contains(longest_of(lens)),
    decreases lens.len(),
{
    if lens.len() == 1 {
        assert(lens.contains(lens[0]));
    } else {
        let rest = lens.drop_last();
        if i < rest.len() {
            law_longest_bounds(rest, i);
        } else {
            law_longest_bounds(rest, 0);
        }
        let m = longest_of(rest);
        let k = choose|k: int| 0 <= k < rest.len() && rest[k] == m;
        assert(lens[k] == m);
        assert(lens[lens.len() - 1] == lens.last());
    }
}

/// Which sequence sits in which slot at a step: rotated every step, so that a
/// captured graph that tied itself to slot contents would be caught.
pub fn slot_order(step: usize, shape: usize, sequences: usize, max_batch: usize) -> (order: Vec<
    usize,
>)
    requires
        sequences > 0,
        step + shape <= usize::MAX,
    ensures
        order@ == Seq::new(
            math::least(math::least(shape as nat, sequences as nat), max_batch as nat),
            |i: int| ((i + step) % (sequences as int)) as usize,
        ),
{
    let n: usize = min(min(shape, sequences), max_batch);
    let mut order: Vec<usize> = Vec::new();
    while order.len() < n
        invariant
            sequences > 0,
            n <= shape,
            step + shape <= usize::MAX,
            order@.len() <= n,
            order@ == Seq::new(
                order@.len(),
                |i: int| ((i + step) % (sequences as int)) as usize,
            ),
        decreases n - order@.len(),
    {
        let ghost before = order@;
        let i: usize = order.len();
        order.push((i + step) % sequences);
        assert(order@ =~= Seq::new(
            order@.len(),
            |i: int| ((i + step) % (sequences as int)) as usize,
        ));
    }
    order
}

/// Law: at every step each slot has its own sequence.
pub proof fn law_slots_hold_different_sequences(step: nat, sequences: nat, i: int, j: int)
    requires
        0 <= i < j < sequences,
    ensures
        (i + step) % (sequences as int) != (j + step) % (sequences as int),
{
    let s = sequences as int;
    let a = i + step;
    let b = j + step;
    vstd::arithmetic::div_mod::lemma_fundamental_div_mod(a, s);
    vstd::arithmetic::div_mod::lemma_fundamental_div_mod(b, s);
    if a % s == b % s {
        let d = b / s - a / s;
        assert(b - a == s * d) by (nonlinear_arith)
            requires
                a == s * (a / s) + a % s,
                b == s * (b / s) + b % s,
                a % s == b % s,
                d == b / s - a / s,
        ;
        assert(false) by (nonlinear_arith)
            requires
                0 < s * d < s,
                s > 0,
        ;
    }
}

/// The token a sequence decodes at a step.
pub fn step_token(sequence: usize, step: usize, vocab: usize) -> (t: usize)
    requires
        vocab > 0,
        sequence * 31 + step * 7 + 3 <= usize::MAX,
    ensures
        t == (sequence * 31 + step * 7 + 3) % (vocab as int),
{
    (sequence * 31 + step * 7 + 3) % vocab
}

/// The token of a slot in a profiled batch.
pub fn profile_token(slot: usize, vocab: usize) -> (t: usize)
    requires
        vocab > 0,
        slot * 37 + 11 <= usize::MAX,
    ensures
        t == (slot * 37 + 11) % (vocab as int),
{
    (slot * 37 + 11) % vocab
}

/// The token that fills one position of a cache before it is profiled.
pub fn warm_token(i: usize, vocab: usize) -> (t: usize)
    requires
        vocab > 0,
    ensures
        t == if i % vocab == 0 { 1 } else { (i % vocab) as int },
{
    let t: usize = i % vocab;
    if t == 0 {
        1
    } else {
        t
    }
}

/// How many positions are filled before a step is profiled: no more than leave
/// room for the profiled ones.
pub fn warm_count(warm: usize, block_size: usize, iters: usize) -> (n: usize)
    requires
        iters + 1 <= block_size,
    ensures
        n == math::least(warm as nat, (block_size - iters - 1) as nat),
        n + iters < block_size,
{
    min(warm, block_size - iters - 1)
}

/// Page tables side by side, one row of `stride` entries per slot, and zeros in
/// the rows that no request holds.
pub open spec fn laid_out(tables: Seq<Seq<i32>>, stride: nat, rows: nat) -> Seq<i32> {
    Seq::new(
        rows * stride,
        |k: int|
            if k / (stride as int) < tables.len() {
                tables[k / (stride as int)][k % (stride as int)]
            } else {
                0
            },
    )
}

/// Page tables side by side, one row of `stride` entries per slot, and zeros in
/// the rows that no request holds.
pub fn lay_out(tables: &[Vec<i32>], stride: usize, rows: usize) -> (out: Vec<i32>)
    requires
        stride > 0,
        tables@.len() <= rows,
        rows * stride <= usize::MAX,
        forall|i: int| 0 <= i < tables@.len() ==> (#[trigger] tables@[i])@.len() == stride,
    ensures
        out@ == laid_out(Seq::new(tables@.len(), |i: int| tables@[i]@), stride as nat, rows as nat),
{
    let total: usize = rows * stride;
    let mut out: Vec<i32> = Vec::new();
    let ghost want = laid_out(
        Seq::new(tables@.len(), |i: int| tables@[i]@),
        stride as nat,
        rows as nat,
    );
    while out.len() < total
        invariant
            stride > 0,
            tables@.len() <= rows,
            total == rows * stride,
            forall|i: int| 0 <= i < tables@.len() ==> (#[trigger] tables@[i])@.len() == stride,
            want == laid_out(
                Seq::new(tables@.len(), |i: int| tables@[i]@),
                stride as nat,
                rows as nat,
            ),
            out@.len() <= total,
            out@ == want.take(out@.len() as int),
        decreases total - out@.len(),
    {
        let k: usize = out.len();
        let row: usize = k / stride;
        let ghost before = out@;
        if row < tables.len() {
            let entry: i32 = tables[row][k % stride];
            out.push(entry);
        } else {
            out.push(0);
        }
        assert(out@ =~= want.take(out@.len() as int));
    }
    assert(out@ =~= want);
    out
}

} // verus!
