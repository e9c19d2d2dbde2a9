//! The metadata of an attention fixture: which page holds which positions of
//! which request, and which query stands in which row.
use crate::harness::cases;
use crate::harness::cases::{Case, Slice, CONTEXT, REQUESTS};
use crate::harness::workload;
use crate::harness::workload::random;
use crate::math;
use crate::math::{div_ceil, min};
use crate::paged;
use crate::wire::F32Bits;
use vstd::prelude::*;

verus! {

/// Query heads.
pub const HEADS: usize = 12;

/// Key and value heads.
pub const KV_HEADS: usize = 3;

/// Values of a head.
pub const HD: usize = 64;

/// Values of a query row.
pub const D: usize = 768;

/// Values of a key or value row.
pub const KD: usize = 192;

/// Entries of a page table.
pub const STRIDE: usize = 64;

/// Layers in a page.
pub const LAYERS: usize = 3;

/// The layer under test.
pub const LAYER: usize = 1;

/// Values behind the output that nothing may write.
pub const GUARD: usize = 64;

/// What the output is filled with before a launch.
pub const SENTINEL: u32 = 0xc640_e500;

/// Why a fixture was refused.
#[derive(Debug, Clone, Copy, PartialEq, Eq, Structural)]
pub enum FixtureError {
    Count,
    Slice,
    Rows,
    Guard,
    Nonfinite,
}

impl FixtureError {
    /// The error in words. What is wrong with an output names its case.
    pub open spec fn text(self, name: Seq<char>) -> Seq<char> {
        match self {
            FixtureError::Count => "invalid request count"@,
            FixtureError::Slice => "invalid slice"@,
            FixtureError::Rows => "packed rows exceed production scratch capacity"@,
            FixtureError::Guard => name + ": output guard overwritten"@,
            FixtureError::Nonfinite => name + ": nonfinite output"@,
        }
    }

    /// The error in words.
    pub fn message(&self, name: &str) -> (m: String)
        ensures
            m@ == self.text(name@),
    {
        let mut m = String::new();
        match self {
            FixtureError::Count => m.append("invalid request count"),
            FixtureError::Slice => m.append("invalid slice"),
            FixtureError::Rows => m.append("packed rows exceed production scratch capacity"),
            FixtureError::Guard => {
                m.append(name);
                m.append(": output guard overwritten");
            },
            FixtureError::Nonfinite => {
                m.append(name);
                m.append(": nonfinite output");
            },
        }
        assert(m@ =~= self.text(name@));
        m
    }
}

/// Why a call has no fixture.
pub open spec fn refusal(s: Seq<Slice>) -> Option<FixtureError> {
    if s.len() == 0 || s.len() > REQUESTS {
        Some(FixtureError::Count)
    } else if exists|i: int| 0 <= i < s.len() && !cases::fits(#[trigger] s[i]) {
        Some(FixtureError::Slice)
    } else if cases::rows_before(s, s.len()) > CONTEXT {
        Some(FixtureError::Rows)
    } else {
        None
    }
}

/// The pages of a request: those of its positions and, where the context allows,
/// one more behind the last query, so that a read past it would be noticed.
pub open spec fn pages_of(s: Slice) -> nat {
    math::ceil_div(math::least((s.start + s.len + 16) as nat, CONTEXT as nat), 16)
}

/// The pages of each request.
pub open spec fn page_counts(s: Seq<Slice>) -> Seq<nat> {
    Seq::new(s.len(), |i: int| pages_of(s[i]))
}

/// The requests before `n` that have a `page`-th page.
pub open spec fn level(pages: Seq<nat>, page: nat, n: nat) -> nat
    decreases n,
{
    if n == 0 {
        0
    } else {
        level(pages, page, (n - 1) as nat) + if pages[n - 1] > page {
            1nat
        } else {
            0nat
        }
    }
}

/// The pages that come before the `page`-th of every request.
pub open spec fn levels(pages: Seq<nat>, page: nat) -> nat
    decreases page,
{
    if page == 0 {
        0
    } else {
        levels(pages, (page - 1) as nat) + level(pages, (page - 1) as nat, pages.len())
    }
}

/// The place of a request's page where pages are dealt out in turn: the first of
/// every request, then the second of every request that has one, and so on.
pub open spec fn rank(pages: Seq<nat>, page: nat, request: nat) -> nat {
    levels(pages, page) + level(pages, page, request)
}

/// All pages.
pub open spec fn total(pages: Seq<nat>, n: nat) -> nat
    decreases n,
{
    if n == 0 {
        0
    } else {
        total(pages, (n - 1) as nat) + pages[n - 1]
    }
}

/// Pages of the requests before `n`, of each at most `cap`.
spec fn capped(pages: Seq<nat>, cap: nat, n: nat) -> nat
    decreases n,
{
    if n == 0 {
        0
    } else {
        capped(pages, cap, (n - 1) as nat) + math::least(pages[n - 1], cap)
    }
}

proof fn lemma_capped_step(pages: Seq<nat>, cap: nat, n: nat)
    requires
        n <= pages.len(),
    ensures
        capped(pages, cap + 1, n) == capped(pages, cap, n) + level(pages, cap, n),
    decreases n,
{
    if n > 0 {
        lemma_capped_step(pages, cap, (n - 1) as nat);
    }
}

proof fn lemma_capped_zero(pages: Seq<nat>, n: nat)
    requires
        n <= pages.len(),
    ensures
        capped(pages, 0, n) == 0,
    decreases n,
{
    if n > 0 {
        lemma_capped_zero(pages, (n - 1) as nat);
    }
}

proof fn lemma_levels_capped(pages: Seq<nat>, page: nat)
    ensures
        levels(pages, page) == capped(pages, page, pages.len()),
    decreases page,
{
    if page > 0 {
        lemma_levels_capped(pages, (page - 1) as nat);
        lemma_capped_step(pages, (page - 1) as nat, pages.len());
    } else {
        lemma_capped_zero(pages, pages.len());
    }
}

proof fn lemma_capped_total(pages: Seq<nat>, cap: nat, n: nat)
    requires
        n <= pages.len(),
    ensures
        capped(pages, cap, n) <= total(pages, n),
        (forall|i: int| 0 <= i < n ==> (#[trigger] pages[i]) <= cap) ==> capped(pages, cap, n)
            == total(pages, n),
    decreases n,
{
    if n > 0 {
        lemma_capped_total(pages, cap, (n - 1) as nat);
    }
}

proof fn lemma_level_grows(pages: Seq<nat>, page: nat, m: nat, n: nat)
    requires
        m <= n <= pages.len(),
    ensures
        level(pages, page, m) <= level(pages, page, n),
        m < n && pages[m as int] > page ==> level(pages, page, m) < level(pages, page, n),
    decreases n,
{
    if m < n {
        if m < n - 1 {
            lemma_level_grows(pages, page, m, (n - 1) as nat);
        }
    }
}

proof fn lemma_levels_grow(pages: Seq<nat>, p: nat, q: nat)
    requires
        p <= q,
    ensures
        levels(pages, p) <= levels(pages, q),
    decreases q,
{
    if p < q {
        lemma_levels_grow(pages, p, (q - 1) as nat);
    }
}

/// Every page that a request has is dealt one of the pages there are.
proof fn lemma_rank_bound(pages: Seq<nat>, page: nat, request: nat)
    requires
        request < pages.len(),
        page < pages[request as int],
    ensures
        rank(pages, page, request) < levels(pages, page + 1) <= total(pages, pages.len()),
{
    lemma_level_grows(pages, page, request, pages.len());
    lemma_levels_capped(pages, page + 1);
    lemma_capped_total(pages, page + 1, pages.len());
}

/// No two pages are dealt in the same place.
proof fn lemma_rank_distinct(pages: Seq<nat>, p: nat, r: nat, q: nat, s: nat)
    requires
        r < pages.len(),
        s < pages.len(),
        p < pages[r as int],
        q < pages[s as int],
        p < q || (p == q && r < s),
    ensures
        rank(pages, p, r) < rank(pages, q, s),
{
    lemma_rank_bound(pages, p, r);
    if p < q {
        lemma_levels_grow(pages, p + 1, q);
    } else {
        lemma_level_grows(pages, p, r, s);
    }
}

/// A shuffle from the top down: each place below `i + 1` is exchanged with one
/// at or below it.
pub open spec fn shuffled(m: Seq<usize>, state: u64, i: nat) -> Seq<usize>
    decreases i,
{
    if i == 0 {
        m
    } else {
        let s = workload::next(state);
        let j = s as int % (i + 1) as int;
        shuffled(m.update(i as int, m[j]).update(j, m[i as int]), s, (i - 1) as nat)
    }
}

/// The seed of a shuffle.
pub open spec fn shuffle_seed(seed: u64) -> u64 {
    if seed == 0 {
        1
    } else {
        seed
    }
}

/// Which physical page stands in which place.
pub open spec fn mapping(seed: u64, n: nat) -> Seq<usize> {
    shuffled(
        Seq::new(n, |i: int| i as usize),
        shuffle_seed(seed),
        if n == 0 {
            0
        } else {
            (n - 1) as nat
        },
    )
}

/// Whether each place below a number holds its own number below it.
pub open spec fn is_permutation(m: Seq<usize>) -> bool {
    &&& forall|i: int| 0 <= i < m.len() ==> (#[trigger] m[i]) < m.len()
    &&& forall|i: int, j: int| 0 <= i < j < m.len() ==> (#[trigger] m[i]) != (#[trigger] m[j])
}

proof fn lemma_shuffled(m: Seq<usize>, state: u64, i: nat)
    requires
        is_permutation(m),
        i < m.len() || i == 0,
    ensures
        is_permutation(shuffled(m, state, i)),
        shuffled(m, state, i).len() == m.len(),
    decreases i,
{
    if i > 0 {
        let s = workload::next(state);
        let j = s as int % (i + 1) as int;
        let next = m.update(i as int, m[j]).update(j, m[i as int]);
        assert(is_permutation(next)) by {
            assert forall|a: int, b: int| 0 <= a < b < next.len() implies (#[trigger] next[a]) != (
            #[trigger] next[b]) by {
                let pa = if a == i {
                    j
                } else if a == j {
                    i as int
                } else {
                    a
                };
                let pb = if b == i {
                    j
                } else if b == j {
                    i as int
                } else {
                    b
                };
                assert(next[a] == m[pa] && next[b] == m[pb]);
                assert(m[pa] != m[pb]);
            }
        }
        lemma_shuffled(next, s, (i - 1) as nat);
    }
}

proof fn lemma_mapping(seed: u64, n: nat)
    requires
        n <= usize::MAX,
    ensures
        is_permutation(mapping(seed, n)),
        mapping(seed, n).len() == n,
{
    lemma_shuffled(
        Seq::new(n, |i: int| i as usize),
        shuffle_seed(seed),
        if n == 0 {
            0
        } else {
            (n - 1) as nat
        },
    );
}

fn shuffle(seed: u64, n: usize) -> (m: Vec<usize>)
    ensures
        m@ == mapping(seed, n as nat),
        is_permutation(m@),
        m@.len() == n,
{
    let mut m: Vec<usize> = Vec::new();
    while m.len() < n
        invariant
            m@.len() <= n,
            forall|i: int| 0 <= i < m@.len() ==> #[trigger] m@[i] == i,
        decreases n - m@.len(),
    {
        let i: usize = m.len();
        m.push(i);
    }
    assert(m@ =~= Seq::new(n as nat, |i: int| i as usize));
    proof {
        lemma_mapping(seed, n as nat);
    }
    if n == 0 {
        return m;
    }
    let mut state: u64 = if seed == 0 {
        1
    } else {
        seed
    };
    let mut i: usize = n - 1;
    while i > 0
        invariant
            m@.len() == n,
            i < n,
            shuffled(m@, state, i as nat) == mapping(seed, n as nat),
        decreases i,
    {
        let r: u64 = random(&mut state);
        let j: usize = (r % (i as u64 + 1)) as usize;
        let a: usize = m[i];
        let b: usize = m[j];
        m.set(i, b);
        m.set(j, a);
        i -= 1;
    }
    m
}

/// The page tables of a call: the physical page of each logical page, and -1
/// behind the last.
pub open spec fn table_entry(pages: Seq<nat>, map: Seq<usize>, request: nat, page: nat) -> int {
    if page < pages[request as int] {
        map[rank(pages, page, request) as int] as int
    } else {
        -1
    }
}

/// Row starts, lengths, first positions and owners of the requests of a call.
pub open spec fn segments_of(s: Seq<Slice>, n: nat) -> Seq<i32>
    decreases n,
{
    if n == 0 {
        Seq::empty()
    } else {
        segments_of(s, (n - 1) as nat) + seq![
            cases::rows_before(s, (n - 1) as nat) as i32,
            s[n - 1].len as i32,
            s[n - 1].start as i32,
            (n - 1) as i32,
        ]
    }
}

/// The request of each row.
pub open spec fn owners_of(s: Seq<Slice>, n: nat) -> Seq<i32>
    decreases n,
{
    if n == 0 {
        Seq::empty()
    } else {
        owners_of(s, (n - 1) as nat) + Seq::new(s[n - 1].len as nat, |k: int| (n - 1) as i32)
    }
}

/// The position of each row.
pub open spec fn positions_of(s: Seq<Slice>, n: nat) -> Seq<i32>
    decreases n,
{
    if n == 0 {
        Seq::empty()
    } else {
        positions_of(s, (n - 1) as nat) + Seq::new(
            s[n - 1].len as nat,
            |k: int| (s[n - 1].start + k) as i32,
        )
    }
}

/// The longest request.
pub open spec fn longest(s: Seq<Slice>, n: nat) -> nat
    decreases n,
{
    if n == 0 {
        0
    } else {
        let m = longest(s, (n - 1) as nat);
        if s[n - 1].len > m {
            s[n - 1].len as nat
        } else {
            m
        }
    }
}

/// Where the furthest request ends.
pub open spec fn furthest(s: Seq<Slice>, n: nat) -> nat
    decreases n,
{
    if n == 0 {
        0
    } else {
        let m = furthest(s, (n - 1) as nat);
        let e = (s[n - 1].start + s[n - 1].len) as nat;
        if e > m {
            e
        } else {
            m
        }
    }
}

/// The metadata of a call.
#[derive(Debug)]
pub struct FixturePlan {
    /// Pages of each request.
    pub pages: Vec<usize>,
    /// All pages.
    pub total: usize,
    /// Page tables, one row per request.
    pub tables: Vec<i32>,
    pub segments: Vec<i32>,
    pub owners: Vec<i32>,
    pub positions: Vec<i32>,
    pub rows: usize,
    pub max_chunk: usize,
    /// The furthest end, rounded up to what the exact kernels size their scores
    /// by.
    pub score_capacity: usize,
}

impl FixturePlan {
    /// Whether the plan is that of a call.
    pub open spec fn describes(self, s: Seq<Slice>, seed: u64) -> bool {
        let n = s.len();
        let counts = page_counts(s);
        &&& self.pages@.len() == n
        &&& forall|i: int| 0 <= i < n ==> (#[trigger] self.pages@[i]) as nat == counts[i]
        &&& self.total == total(counts, n)
        &&& self.tables@.len() == n * STRIDE
        &&& forall|r: int, p: int|
            #![trigger self.tables@[r * STRIDE + p]]
            0 <= r < n && 0 <= p < STRIDE ==> self.tables@[r * STRIDE + p] == table_entry(
                counts,
                mapping(seed, self.total as nat),
                r as nat,
                p as nat,
            )
        &&& self.segments@ == segments_of(s, n)
        &&& self.owners@ == owners_of(s, n)
        &&& self.positions@ == positions_of(s, n)
        &&& self.rows == cases::rows_before(s, n)
        &&& self.max_chunk == longest(s, n)
        &&& self.score_capacity == math::ceil_div(furthest(s, n), 256) * 256
    }
}

fn check(s: &[Slice]) -> (r: Result<usize, FixtureError>)
    ensures
        match r {
            Ok(rows) => refusal(s@) is None && cases::callable(s@) && rows == cases::rows_before(
                s@,
                s@.len(),
            ),
            Err(e) => refusal(s@) == Some(e),
        },
{
    if s.len() == 0 || s.len() > REQUESTS {
        return Err(FixtureError::Count);
    }
    let mut rows: usize = 0;
    let mut i: usize = 0;
    while i < s.len()
        invariant
            i <= s@.len(),
            0 < s@.len() <= REQUESTS,
            rows <= i * CONTEXT,
            rows == cases::rows_before(s@, i as nat),
            forall|k: int| 0 <= k < i ==> cases::fits(#[trigger] s@[k]),
        decreases s@.len() - i,
    {
        let c: Slice = s[i];
        if c.len == 0 || c.len > CONTEXT || c.start > CONTEXT - c.len {
            assert(!cases::fits(s@[i as int]));
            return Err(FixtureError::Slice);
        }
        rows += c.len;
        i += 1;
    }
    if rows > CONTEXT {
        return Err(FixtureError::Rows);
    }
    Ok(rows)
}

proof fn lemma_pages(s: Slice)
    requires
        cases::fits(s),
    ensures
        0 < pages_of(s) <= STRIDE,
        pages_of(s) * 16 >= s.start + s.len,
{
    let n = math::least((s.start + s.len + 16) as nat, CONTEXT as nat);
    math::lemma_ceil_div(n, 16);
}

fn count_pages(s: &[Slice]) -> (r: (Vec<usize>, usize))
    requires
        cases::callable(s@),
    ensures
        r.0@.len() == s@.len(),
        forall|i: int| 0 <= i < s@.len() ==> (#[trigger] r.0@[i]) as nat == page_counts(s@)[i],
        r.1 == total(page_counts(s@), s@.len()),
        r.1 <= REQUESTS * STRIDE,
{
    let mut pages: Vec<usize> = Vec::new();
    let mut sum: usize = 0;
    let ghost counts = page_counts(s@);
    while pages.len() < s.len()
        invariant
            cases::callable(s@),
            counts == page_counts(s@),
            pages@.len() <= s@.len(),
            sum <= pages@.len() * STRIDE,
            sum == total(counts, pages@.len()),
            forall|i: int| 0 <= i < pages@.len() ==> (#[trigger] pages@[i]) as nat == counts[i],
        decreases s@.len() - pages@.len(),
    {
        let c: Slice = s[pages.len()];
        proof {
            assert(cases::fits(s@[pages@.len() as int]));
            lemma_pages(c);
        }
        let n: usize = div_ceil(min(c.start + c.len + 16, CONTEXT), 16);
        pages.push(n);
        sum += n;
    }
    (pages, sum)
}

spec fn dealt(counts: Seq<nat>, r: int, p: int, page: int, request: int) -> bool {
    p < counts[r] && (p < page || (p == page && r < request))
}

/// The tables filled so far: pages before `page` of everyone, and the `page`-th
/// of the requests before `request`.
spec fn filled(
    t: Seq<i32>,
    counts: Seq<nat>,
    map: Seq<usize>,
    page: int,
    request: int,
) -> bool {
    &&& t.len() == counts.len() * STRIDE
    &&& forall|r: int, p: int|
        #![trigger t[r * STRIDE + p]]
        0 <= r < counts.len() && 0 <= p < STRIDE ==> t[r * STRIDE + p] == if dealt(
            counts,
            r,
            p,
            page,
            request,
        ) {
            map[rank(counts, p as nat, r as nat) as int] as int
        } else {
            -1
        }
}

fn deal(s: &[Slice], pages: &Vec<usize>, map: &Vec<usize>) -> (tables: Vec<i32>)
    requires
        cases::callable(s@),
        pages@.len() == s@.len(),
        forall|i: int| 0 <= i < s@.len() ==> (#[trigger] pages@[i]) as nat == page_counts(s@)[i],
        map@.len() == total(page_counts(s@), s@.len()),
        map@.len() <= REQUESTS * STRIDE,
        is_permutation(map@),
    ensures
        tables@.len() == s@.len() * STRIDE,
        forall|r: int, p: int|
            #![trigger tables@[r * STRIDE + p]]
            0 <= r < s@.len() && 0 <= p < STRIDE ==> tables@[r * STRIDE + p] == table_entry(
                page_counts(s@),
                map@,
                r as nat,
                p as nat,
            ),
{
    let n: usize = s.len();
    let ghost counts = page_counts(s@);
    let mut tables: Vec<i32> = Vec::new();
    while tables.len() < n * STRIDE
        invariant
            n == s@.len(),
            n <= REQUESTS,
            tables@.len() <= n * STRIDE,
            forall|k: int| 0 <= k < tables@.len() ==> #[trigger] tables@[k] == -1,
        decreases n * STRIDE - tables@.len(),
    {
        tables.push(-1);
    }
    assert(filled(tables@, counts, map@, 0, 0)) by {
        assert forall|r: int, p: int|
            #![trigger tables@[r * STRIDE + p]]
            0 <= r < counts.len() && 0 <= p < STRIDE implies tables@[r * STRIDE + p] == if dealt(
            counts,
            r,
            p,
            0,
            0,
        ) {
            map@[rank(counts, p as nat, r as nat) as int] as int
        } else {
            -1
        } by {
            lemma_cell(r, p, n as int);
        }
    }
    let mut next: usize = 0;
    let mut page: usize = 0;
    while page < STRIDE
        invariant
            n == s@.len(),
            n <= REQUESTS,
            cases::callable(s@),
            counts == page_counts(s@),
            pages@.len() == n,
            forall|i: int| 0 <= i < n ==> (#[trigger] pages@[i]) as nat == counts[i],
            map@.len() == total(counts, counts.len()),
            map@.len() <= REQUESTS * STRIDE,
            is_permutation(map@),
            page <= STRIDE,
            next == levels(counts, page as nat),
            filled(tables@, counts, map@, page as int, 0),
        decreases STRIDE - page,
    {
        let mut request: usize = 0;
        while request < n
            invariant
                n == s@.len(),
                n <= REQUESTS,
                counts == page_counts(s@),
                pages@.len() == n,
                forall|i: int| 0 <= i < n ==> (#[trigger] pages@[i]) as nat == counts[i],
                map@.len() == total(counts, counts.len()),
                map@.len() <= REQUESTS * STRIDE,
                is_permutation(map@),
                page < STRIDE,
                request <= n,
                next == rank(counts, page as nat, request as nat),
                filled(tables@, counts, map@, page as int, request as int),
            decreases n - request,
        {
            let ghost before = tables@;
            if page < pages[request] {
                proof {
                    lemma_rank_bound(counts, page as nat, request as nat);
                    lemma_cell(request as int, page as int, n as int);
                }
                let place: usize = request * STRIDE + page;
                tables.set(place, map[next] as i32);
                next += 1;
            }
            proof {
                lemma_dealt_step(before, tables@, counts, map@, page as int, request as int);
            }
            request += 1;
        }
        proof {
            assert forall|r: int, p: int|
                #![trigger tables@[r * STRIDE + p]]
                0 <= r < counts.len() && 0 <= p < STRIDE implies dealt(
                counts,
                r,
                p,
                page as int,
                n as int,
            ) == dealt(counts, r, p, page + 1, 0) by {}
        }
        page += 1;
    }
    proof {
        assert forall|r: int, p: int|
            #![trigger tables@[r * STRIDE + p]]
            0 <= r < n && 0 <= p < STRIDE implies tables@[r * STRIDE + p] == table_entry(
            counts,
            map@,
            r as nat,
            p as nat,
        ) by {
            assert(dealt(counts, r, p, STRIDE as int, 0) == (p < counts[r]));
        }
    }
    tables
}

proof fn lemma_cell(r: int, p: int, n: int)
    requires
        0 <= r < n,
        0 <= p < STRIDE,
    ensures
        0 <= r * STRIDE + p < n * STRIDE,
{
    assert(r * 64 + 64 <= n * 64) by (nonlinear_arith)
        requires
            r < n,
    ;
}

proof fn lemma_dealt_step(
    before: Seq<i32>,
    after: Seq<i32>,
    counts: Seq<nat>,
    map: Seq<usize>,
    page: int,
    request: int,
)
    requires
        0 <= request < counts.len(),
        0 <= page < STRIDE,
        filled(before, counts, map, page, request),
        page < counts[request] ==> map[rank(counts, page as nat, request as nat) as int]
            <= i32::MAX,
        page < counts[request] ==> after == before.update(
            request * STRIDE + page,
            map[rank(counts, page as nat, request as nat) as int] as i32,
        ),
        page >= counts[request] ==> after == before,
    ensures
        filled(after, counts, map, page, request + 1),
{
    assert forall|r: int, p: int|
        #![trigger after[r * STRIDE + p]]
        0 <= r < counts.len() && 0 <= p < STRIDE implies after[r * STRIDE + p] == if dealt(
        counts,
        r,
        p,
        page,
        request + 1,
    ) {
        map[rank(counts, p as nat, r as nat) as int] as int
    } else {
        -1
    } by {
        lemma_cell(r, p, counts.len() as int);
        lemma_cell(request, page, counts.len() as int);
        let _ = before[r * STRIDE + p];
        if r == request && p == page {
        } else {
            assert(r * 64 + p != request * 64 + page) by {
                if r * 64 + p == request * 64 + page {
                    assert((r - request) * 64 == page - p);
                    assert(r == request);
                }
            }
            assert(dealt(counts, r, p, page, request) == dealt(counts, r, p, page, request + 1));
        }
    }
}

/// Rows of a call: segments, owners, positions, the longest request and the
/// furthest end.
fn lay_rows(s: &[Slice]) -> (r: (Vec<i32>, Vec<i32>, Vec<i32>, usize, usize))
    requires
        cases::callable(s@),
    ensures
        r.0@ == segments_of(s@, s@.len()),
        r.1@ == owners_of(s@, s@.len()),
        r.2@ == positions_of(s@, s@.len()),
        r.3 == longest(s@, s@.len()),
        r.4 == furthest(s@, s@.len()),
        r.4 <= CONTEXT,
{
    let mut segments: Vec<i32> = Vec::new();
    let mut owners: Vec<i32> = Vec::new();
    let mut positions: Vec<i32> = Vec::new();
    let mut start: usize = 0;
    let mut most: usize = 0;
    let mut end: usize = 0;
    let mut i: usize = 0;
    while i < s.len()
        invariant
            cases::callable(s@),
            i <= s@.len(),
            start <= i * CONTEXT,
            start == cases::rows_before(s@, i as nat),
            end <= CONTEXT,
            segments@ == segments_of(s@, i as nat),
            owners@ == owners_of(s@, i as nat),
            positions@ == positions_of(s@, i as nat),
            most == longest(s@, i as nat),
            end == furthest(s@, i as nat),
        decreases s@.len() - i,
    {
        let c: Slice = s[i];
        assert(cases::fits(s@[i as int]));
        let ghost g = segments@;
        segments.push(start as i32);
        segments.push(c.len as i32);
        segments.push(c.start as i32);
        segments.push(i as i32);
        assert(segments@ =~= segments_of(s@, (i + 1) as nat));
        push_rows(&mut owners, &mut positions, c, i);
        start += c.len;
        if c.len > most {
            most = c.len;
        }
        if c.start + c.len > end {
            end = c.start + c.len;
        }
        i += 1;
    }
    (segments, owners, positions, most, end)
}

fn push_rows(owners: &mut Vec<i32>, positions: &mut Vec<i32>, c: Slice, request: usize)
    requires
        cases::fits(c),
        request < REQUESTS,
    ensures
        final(owners)@ == old(owners)@ + Seq::new(c.len as nat, |k: int| request as i32),
        final(positions)@ == old(positions)@ + Seq::new(
            c.len as nat,
            |k: int| (c.start + k) as i32,
        ),
{
    let mut k: usize = 0;
    let ghost o = Seq::new(c.len as nat, |k: int| request as i32);
    let ghost q = Seq::new(c.len as nat, |k: int| (c.start + k) as i32);
    assert(owners@ =~= old(owners)@ + o.take(0));
    assert(positions@ =~= old(positions)@ + q.take(0));
    while k < c.len
        invariant
            cases::fits(c),
            request < REQUESTS,
            k <= c.len,
            o == Seq::new(c.len as nat, |k: int| request as i32),
            q == Seq::new(c.len as nat, |k: int| (c.start + k) as i32),
            owners@ == old(owners)@ + o.take(k as int),
            positions@ == old(positions)@ + q.take(k as int),
        decreases c.len - k,
    {
        owners.push(request as i32);
        positions.push((c.start + k) as i32);
        k += 1;
        assert(owners@ =~= old(owners)@ + o.take(k as int));
        assert(positions@ =~= old(positions)@ + q.take(k as int));
    }
    assert(o.take(k as int) =~= o);
    assert(q.take(k as int) =~= q);
}

impl FixturePlan {
    /// The metadata of a call, or why it cannot be made.
    pub fn new(case: &Case) -> (r: Result<FixturePlan, FixtureError>)
        ensures
            match r {
                Ok(p) => refusal(case@.slices) is None && p.describes(case@.slices, case@.seed),
                Err(e) => refusal(case@.slices) == Some(e),
            },
    {
        let s = case.slices.as_slice();
        let rows: usize = match check(s) {
            Ok(n) => n,
            Err(e) => {
                return Err(e);
            },
        };
        let (pages, total) = count_pages(s);
        let map = shuffle(case.seed, total);
        let tables = deal(s, &pages, &map);
        let (segments, owners, positions, max_chunk, end) = lay_rows(s);
        let score_capacity: usize = div_ceil(end, 256) * 256;
        let p = FixturePlan {
            pages,
            total,
            tables,
            segments,
            owners,
            positions,
            rows,
            max_chunk,
            score_capacity,
        };
        assert(p.describes(case@.slices, case@.seed));
        Ok(p)
    }
}

proof fn lemma_total(s: Seq<Slice>, n: nat)
    requires
        cases::callable(s),
        n <= s.len(),
    ensures
        total(page_counts(s), n) <= n * STRIDE,
    decreases n,
{
    if n > 0 {
        lemma_total(s, (n - 1) as nat);
        lemma_pages(s[n - 1]);
    }
}

/// Law: no physical page is in two places. Two entries of the tables that hold a
/// page hold different ones, and each is one of the pages there are.
pub proof fn law_fixture_pages_never_alias(
    plan: FixturePlan,
    s: Seq<Slice>,
    seed: u64,
    r: nat,
    p: nat,
    t: nat,
    q: nat,
)
    requires
        cases::callable(s),
        plan.describes(s, seed),
        r < s.len(),
        t < s.len(),
        p < pages_of(s[r as int]),
        q < pages_of(s[t as int]),
        r != t || p != q,
    ensures
        0 <= plan.tables@[r * STRIDE + p] < plan.total,
        plan.tables@[r * STRIDE + p] != plan.tables@[t * STRIDE + q],
{
    let counts = page_counts(s);
    let map = mapping(seed, plan.total as nat);
    lemma_total(s, s.len());
    lemma_mapping(seed, plan.total as nat);
    lemma_pages(s[r as int]);
    lemma_pages(s[t as int]);
    lemma_rank_bound(counts, p, r);
    lemma_rank_bound(counts, q, t);
    if p < q || (p == q && r < t) {
        lemma_rank_distinct(counts, p, r, q, t);
    } else {
        lemma_rank_distinct(counts, q, t, p, r);
    }
    let a = rank(counts, p, r) as int;
    let b = rank(counts, q, t) as int;
    assert(map[a] != map[b]);
    assert(plan.tables@[r * STRIDE + p] == table_entry(counts, map, r, p));
    assert(plan.tables@[t * STRIDE + q] == table_entry(counts, map, t, q));
}

/// Where the key or value row of a position begins in its physical page.
pub fn row_offset(physical: usize, pos: usize) -> (o: usize)
    requires
        physical < REQUESTS * STRIDE,
    ensures
        o == paged::offset(physical as nat, LAYER as nat, (pos % 16) as nat, LAYERS as nat, KD as nat),
{
    ((physical * LAYERS + LAYER) * 16 + pos % 16) * KD
}

/// Whether a position lies behind the last query of its request: what stands
/// there must not be read.
pub fn is_future(s: Slice, pos: usize) -> (b: bool)
    requires
        cases::fits(s),
    ensures
        b == (pos >= s.start + s.len),
{
    pos >= s.start + s.len
}

/// One stir of a number.
pub open spec fn stirred(v: u64) -> u64 {
    let a = (v ^ (v >> 30)).wrapping_mul(0xbf58_476d_1ce4_e5b9);
    let b = (a ^ (a >> 27)).wrapping_mul(0x94d0_49bb_1331_11eb);
    b ^ (b >> 31)
}

/// The 24 bits that a test value is made of: a number of its own for each
/// request, position, head and dimension, whatever else is in a call.
pub open spec fn value_bits(id: usize, pos: usize, head: usize, dim: usize, salt: u64) -> u64 {
    stirred(
        salt ^ ((id + 1) as u64).wrapping_mul(0x9e37_79b9_7f4a_7c15) ^ (
        (pos + 1) as u64).wrapping_mul(0xbf58_476d_1ce4_e5b9) ^ ((head + 1) as u64).wrapping_mul(
            0x94d0_49bb_1331_11eb,
        ) ^ ((dim + 1) as u64).wrapping_mul(0xd6e8_feb8_6659_fd93),
    ) >> 40
}

/// The 24 bits that a test value is made of.
pub fn value(id: usize, pos: usize, head: usize, dim: usize, salt: u64) -> (bits: u64)
    requires
        id < usize::MAX,
        pos < usize::MAX,
        head < usize::MAX,
        dim < usize::MAX,
    ensures
        bits == value_bits(id, pos, head, dim, salt),
        bits < 0x100_0000,
{
    let v: u64 = salt ^ ((id + 1) as u64).wrapping_mul(0x9e37_79b9_7f4a_7c15) ^ (
    (pos + 1) as u64).wrapping_mul(0xbf58_476d_1ce4_e5b9) ^ ((head + 1) as u64).wrapping_mul(
        0x94d0_49bb_1331_11eb,
    ) ^ ((dim + 1) as u64).wrapping_mul(0xd6e8_feb8_6659_fd93);
    let a: u64 = (v ^ (v >> 30)).wrapping_mul(0xbf58_476d_1ce4_e5b9);
    let b: u64 = (a ^ (a >> 27)).wrapping_mul(0x94d0_49bb_1331_11eb);
    let c: u64 = b ^ (b >> 31);
    assert(c >> 40 < 0x100_0000) by (bit_vector);
    c >> 40
}

/// Whether a number is finite.
pub open spec fn finite(x: F32Bits) -> bool {
    x.0 & 0x7f80_0000 != 0x7f80_0000
}

/// Why an output is refused.
pub open spec fn output_error(v: Seq<F32Bits>, rows: nat) -> Option<FixtureError> {
    if exists|i: int| rows * D <= i < v.len() && (#[trigger] v[i]).0 != SENTINEL {
        Some(FixtureError::Guard)
    } else if exists|i: int| 0 <= i < rows * D && !finite(#[trigger] v[i]) {
        Some(FixtureError::Nonfinite)
    } else {
        None
    }
}

/// The output of a launch: nothing behind the last row was written, and every
/// value is finite.
pub fn checked_output(values: &[F32Bits], rows: usize) -> (r: Result<Vec<F32Bits>, FixtureError>)
    requires
        rows <= CONTEXT,
        values@.len() == rows * D + GUARD,
    ensures
        match r {
            Ok(v) => output_error(values@, rows as nat) is None && v@ == values@.take(rows * D),
            Err(e) => output_error(values@, rows as nat) == Some(e),
        },
{
    let n: usize = rows * D;
    let mut i: usize = n;
    while i < values.len()
        invariant
            n == rows * D,
            n <= i <= values@.len(),
            forall|k: int| n <= k < i ==> (#[trigger] values@[k]).0 == SENTINEL,
        decreases values@.len() - i,
    {
        if values[i].0 != SENTINEL {
            assert(values@[i as int].0 != SENTINEL);
            return Err(FixtureError::Guard);
        }
        i += 1;
    }
    let mut out: Vec<F32Bits> = Vec::new();
    while out.len() < n
        invariant
            n == rows * D,
            n <= values@.len(),
            out@.len() <= n,
            forall|k: int| n <= k < values@.len() ==> (#[trigger] values@[k]).0 == SENTINEL,
            out@ == values@.take(out@.len() as int),
            forall|k: int| 0 <= k < out@.len() ==> finite(#[trigger] values@[k]),
        decreases n - out@.len(),
    {
        let x: F32Bits = values[out.len()];
        if x.0 & 0x7f80_0000 == 0x7f80_0000 {
            assert(!finite(values@[out@.len() as int]));
            return Err(FixtureError::Nonfinite);
        }
        out.push(x);
        assert(out@ =~= values@.take(out@.len() as int));
    }
    Ok(out)
}

/// Whether two tensors are the same bit for bit.
pub fn same_bits(a: &[F32Bits], b: &[F32Bits]) -> (same: bool)
    ensures
        same == (a@ == b@),
{
    if a.len() != b.len() {
        return false;
    }
    let mut i: usize = 0;
    while i < a.len()
        invariant
            i <= a@.len(),
            a@.len() == b@.len(),
            forall|k: int| 0 <= k < i ==> a@[k] == b@[k],
        decreases a@.len() - i,
    {
        if a[i].0 != b[i].0 {
            assert(a@[i as int] != b@[i as int]);
            return false;
        }
        assert(a@[i as int] == b@[i as int]);
        i += 1;
    }
    assert(a@ =~= b@);
    true
}

} // verus!
