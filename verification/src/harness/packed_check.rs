//! The runs of the packed-prefill check, and the shapes of its benchmark.
use crate::harness::rounds::Permutation;
use crate::harness::workload;
use crate::harness::workload::random;
use vstd::prelude::*;

verus! {

/// The longest prompt of the check.
pub const LONGEST: usize = 941;

/// What the random sets are drawn from.
pub const FUZZ_SEED: u64 = 0x2026_0905_0042;

/// Whether the check can run: a step of output and room for the longest prompt
/// before it.
pub fn context_suffices(steps: usize, block_size: usize) -> (b: bool)
    ensures
        b == (steps > 0 && block_size > steps + LONGEST),
{
    steps > 0 && block_size > LONGEST && block_size - LONGEST > steps
}

/// Prompt lengths around the sizes at which pages, tiles and chunks end.
pub open spec fn boundary_lengths() -> Seq<usize> {
    seq![
        1usize, 15, 16, 17, 31, 32, 33, 63, 64, 65, 127, 128, 129, 255, 256, 257, 511, 512, 941,
    ]
}

/// Prompt lengths around the sizes at which pages, tiles and chunks end.
pub fn lengths() -> (v: Vec<usize>)
    ensures
        v@ == boundary_lengths(),
{
    let v: Vec<usize> = vec![
        1, 15, 16, 17, 31, 32, 33, 63, 64, 65, 127, 128, 129, 255, 256, 257, 511, 512, 941,
    ];
    assert(v@ =~= boundary_lengths());
    v
}

/// One packed run over some of the prompts.
#[derive(Debug, Clone, Copy, PartialEq, Eq, Structural)]
pub struct Job {
    /// The first prompt.
    pub from: usize,
    /// The prompt behind the last.
    pub to: usize,
    pub chunk: usize,
    pub permutation: Permutation,
    pub prefixes: bool,
}

/// Orders by number.
pub open spec fn permutation_at(i: int) -> Permutation {
    if i == 0 {
        Permutation::Kept
    } else if i == 1 {
        Permutation::Reversed
    } else {
        Permutation::Rotated
    }
}

/// Orders by number.
pub fn permutation(i: usize) -> (p: Permutation)
    ensures
        p == permutation_at(i as int),
{
    if i == 0 {
        Permutation::Kept
    } else if i == 1 {
        Permutation::Reversed
    } else {
        Permutation::Rotated
    }
}

/// Chunks that divide a page and chunks that do not.
pub open spec fn chunks() -> Seq<usize> {
    seq![32usize, 64, 128, 256, 37, 73, 131]
}

/// Batch widths in an order that leaves stale metadata behind.
pub open spec fn widths() -> Seq<usize> {
    seq![1usize, 2, 4, 8, 16, 1, 8, 2]
}

/// The runs over the boundary lengths: each chunk, over the first sixteen
/// prompts and over the last sixteen, in each order; then the widths.
pub open spec fn job_at(i: int) -> Job {
    if i < 42 {
        Job {
            from: if (i / 3) % 2 == 0 {
                0
            } else {
                3
            },
            to: if (i / 3) % 2 == 0 {
                16
            } else {
                19
            },
            chunk: chunks()[i / 6],
            permutation: permutation_at(i % 3),
            prefixes: i % 3 != 0,
        }
    } else {
        Job {
            from: 0,
            to: widths()[i - 42],
            chunk: 73,
            permutation: Permutation::Rotated,
            prefixes: true,
        }
    }
}

/// The runs over the boundary lengths.
pub fn jobs() -> (v: Vec<Job>)
    ensures
        v@ == Seq::new(50, |i: int| job_at(i)),
{
    let sizes: Vec<usize> = vec![32, 64, 128, 256, 37, 73, 131];
    let counts: Vec<usize> = vec![1, 2, 4, 8, 16, 1, 8, 2];
    assert(sizes@ =~= chunks());
    assert(counts@ =~= widths());
    let mut v: Vec<Job> = Vec::new();
    while v.len() < 50
        invariant
            sizes@ == chunks(),
            counts@ == widths(),
            v@.len() <= 50,
            forall|i: int| 0 <= i < v@.len() ==> #[trigger] v@[i] == job_at(i),
        decreases 50 - v@.len(),
    {
        let i: usize = v.len();
        if i < 42 {
            let first = (i / 3) % 2 == 0;
            v.push(
                Job {
                    from: if first {
                        0
                    } else {
                        3
                    },
                    to: if first {
                        16
                    } else {
                        19
                    },
                    chunk: sizes[i / 6],
                    permutation: permutation(i % 3),
                    prefixes: i % 3 != 0,
                },
            );
        } else {
            v.push(
                Job {
                    from: 0,
                    to: counts[i - 42],
                    chunk: 73,
                    permutation: Permutation::Rotated,
                    prefixes: true,
                },
            );
        }
    }
    assert(v@ =~= Seq::new(50, |i: int| job_at(i)));
    v
}

/// Law: every run is one that a call holds: some of the prompts, at most sixteen
/// of them, in chunks of at least a token.
pub proof fn law_jobs_can_be_run(i: int)
    requires
        0 <= i < 50,
    ensures
        job_at(i).from < job_at(i).to <= boundary_lengths().len(),
        job_at(i).to - job_at(i).from <= 16,
        job_at(i).chunk > 0,
{
}

/// A number with its bits moved up in a circle.
pub open spec fn rotated(x: u64, k: nat) -> u64 {
    if k == 0 {
        x
    } else {
        (x << (k as u64)) | (x >> ((64 - k) as u64))
    }
}

/// A random set: its size, and the length of each prompt.
pub open spec fn fuzz_count(r: u64) -> nat {
    2 + r as nat % 15
}

/// The length of a prompt of a random set.
pub open spec fn fuzz_len(r: u64, index: nat) -> nat {
    1 + rotated(r, index) as nat % 512
}

/// A random set of prompts: an id and a length each.
pub fn fuzz_set(state: &mut u64, round: usize) -> (set: Vec<(u64, usize)>)
    requires
        10_000 + round * 16 + 16 <= u64::MAX,
    ensures
        *final(state) == workload::next(*old(state)),
        set@.len() == fuzz_count(*final(state)),
        forall|i: int|
            0 <= i < set@.len() ==> (#[trigger] set@[i]).0 == 10_000 + round * 16 + i && set@[i].1
                == fuzz_len(*final(state), i as nat),
{
    let r: u64 = random(state);
    let count: usize = 2 + (r % 15) as usize;
    let mut set: Vec<(u64, usize)> = Vec::new();
    while set.len() < count
        invariant
            10_000 + round * 16 + 16 <= u64::MAX,
            count <= 16,
            set@.len() <= count,
            forall|i: int|
                0 <= i < set@.len() ==> (#[trigger] set@[i]).0 == 10_000 + round * 16 + i
                    && set@[i].1 == fuzz_len(r, i as nat),
        decreases count - set@.len(),
    {
        let i: usize = set.len();
        let turned: u64 = if i == 0 {
            r
        } else {
            (r << (i as u64)) | (r >> ((64 - i) as u64))
        };
        let len: usize = 1 + (turned % 512) as usize;
        set.push((10_000 + round as u64 * 16 + i as u64, len));
    }
    set
}

/// Chunks of the random sets, by round.
pub fn fuzz_chunk(round: usize) -> (c: usize)
    ensures
        c == seq![37usize, 73, 131, 64, 128, 256][(round % 6) as int],
{
    let list: Vec<usize> = vec![37, 73, 131, 64, 128, 256];
    list[round % 6]
}

/// Output of a request that decodes together with fifteen others: every other
/// one leaves halfway.
pub fn concurrent_steps(i: usize) -> (n: usize)
    ensures
        n == if i % 2 == 0 {
            6int
        } else {
            12
        },
{
    if i % 2 == 0 {
        6
    } else {
        12
    }
}

/// How a prompt is prefilled when it is timed.
#[derive(Debug, Clone, Copy, PartialEq, Eq, Structural)]
pub enum Mode {
    Eager,
    Graph,
    Packed,
}

/// The order in which modes are timed: forwards and backwards in turn.
pub fn timing_modes(iteration: usize) -> (v: Vec<Mode>)
    ensures
        v@ == if iteration % 2 == 0 {
            seq![Mode::Eager, Mode::Graph, Mode::Packed]
        } else {
            seq![Mode::Packed, Mode::Graph, Mode::Eager]
        },
{
    if iteration % 2 == 0 {
        vec![Mode::Eager, Mode::Graph, Mode::Packed]
    } else {
        vec![Mode::Packed, Mode::Graph, Mode::Eager]
    }
}

/// Why the benchmark does not run.
#[derive(Debug, Clone, Copy, PartialEq, Eq, Structural)]
pub enum BenchError {
    Iterations,
    Batch,
    Chunk,
    Bytes,
}

impl BenchError {
    /// The error in words.
    pub open spec fn text(self) -> Seq<char> {
        match self {
            BenchError::Iterations => "iters must be positive"@,
            BenchError::Batch => "batch exceeds packed capacity"@,
            BenchError::Chunk => "chunk exceeds packed capacity"@,
            BenchError::Bytes => "greedy packed D2H copied more than token IDs"@,
        }
    }

    /// The error in words.
    pub fn message(&self) -> (m: &'static str)
        ensures
            m@ == self.text(),
    {
        match self {
            BenchError::Iterations => "iters must be positive",
            BenchError::Batch => "batch exceeds packed capacity",
            BenchError::Chunk => "chunk exceeds packed capacity",
            BenchError::Bytes => "greedy packed D2H copied more than token IDs",
        }
    }
}

/// Whether some number of a list is over a bound.
pub open spec fn exceeds(v: Seq<usize>, bound: usize) -> bool {
    exists|i: int| 0 <= i < v.len() && (#[trigger] v[i]) > bound
}

fn over(v: &[usize], bound: usize) -> (b: bool)
    ensures
        b == exceeds(v@, bound),
{
    let mut i: usize = 0;
    while i < v.len()
        invariant
            i <= v@.len(),
            forall|k: int| 0 <= k < i ==> (#[trigger] v@[k]) <= bound,
        decreases v@.len() - i,
    {
        if v[i] > bound {
            assert(v@[i as int] > bound);
            return true;
        }
        i += 1;
    }
    false
}

/// Whether the benchmark's shapes fit the model.
pub fn bench_shapes(
    iters: usize,
    batches: &[usize],
    chunks: &[usize],
    requests: usize,
    tokens: usize,
) -> (r: Result<(), BenchError>)
    ensures
        r == if iters == 0 {
            Err(BenchError::Iterations)
        } else if exceeds(batches@, requests) {
            Err(BenchError::Batch)
        } else if exceeds(chunks@, tokens) {
            Err(BenchError::Chunk)
        } else {
            Ok::<(), BenchError>(())
        },
{
    if iters == 0 {
        return Err(BenchError::Iterations);
    }
    if over(batches, requests) {
        return Err(BenchError::Batch);
    }
    if over(chunks, tokens) {
        return Err(BenchError::Chunk);
    }
    Ok(())
}

/// Whether a shape is timed: its rows fit the context.
pub fn is_timed(count: usize, chunk: usize, block_size: usize) -> (b: bool)
    ensures
        b == (count * chunk <= block_size),
{
    match count.checked_mul(chunk) {
        Some(rows) => rows <= block_size,
        None => false,
    }
}

/// Whether a greedy call copied back its ids and nothing else.
pub fn only_ids(bytes: usize, count: usize) -> (r: Result<(), BenchError>)
    requires
        count * 4 <= usize::MAX,
    ensures
        r is Ok <==> bytes == count * 4,
        r matches Err(e) ==> e == BenchError::Bytes,
{
    if bytes == count * 4 {
        Ok(())
    } else {
        Err(BenchError::Bytes)
    }
}

/// A random set has two to sixteen prompts, of one to 512 tokens each.
pub proof fn law_random_sets_are_in_range(r: u64, index: nat)
    ensures
        2 <= fuzz_count(r) <= 16,
        1 <= fuzz_len(r, index) <= 512,
{
}

} // verus!
