//! The shapes on which prefill attention is checked and timed.
use crate::gpu::PrefillAttentionVariant;
use crate::harness::lists;
use crate::harness::workload;
use crate::harness::workload::random;
use crate::math;
use crate::math::min;
use crate::text;
use crate::text::push_decimal;
use vstd::prelude::*;

verus! {

/// Positions of a request.
pub const CONTEXT: usize = 1024;

/// Requests of a call.
pub const REQUESTS: usize = 16;

/// The queries of one request: `len` positions from `start` on.
#[derive(Debug, Clone, Copy, PartialEq, Eq, Structural)]
pub struct Slice {
    pub id: usize,
    pub start: usize,
    pub len: usize,
}

/// One call.
#[derive(Debug)]
pub struct Case {
    pub name: String,
    pub slices: Vec<Slice>,
    /// What the page mapping is drawn from.
    pub seed: u64,
    /// How queries and keys are made.
    pub profile: usize,
}

/// One call.
pub struct CaseView {
    pub name: Seq<char>,
    pub slices: Seq<Slice>,
    pub seed: u64,
    pub profile: usize,
}

impl View for Case {
    type V = CaseView;

    open spec fn view(&self) -> CaseView {
        CaseView {
            name: self.name@,
            slices: self.slices@,
            seed: self.seed,
            profile: self.profile,
        }
    }
}

/// The calls of a list.
pub open spec fn views(cases: Seq<Case>) -> Seq<CaseView> {
    Seq::new(cases.len(), |i: int| cases[i]@)
}

/// Rows of a call up to a request.
pub open spec fn rows_before(slices: Seq<Slice>, n: nat) -> nat
    decreases n,
{
    if n == 0 {
        0
    } else {
        rows_before(slices, (n - 1) as nat) + slices[n - 1].len as nat
    }
}

/// Whether a slice lies in the context.
pub open spec fn fits(s: Slice) -> bool {
    0 < s.len && s.start + s.len <= CONTEXT
}

/// Whether a call can be made.
pub open spec fn callable(slices: Seq<Slice>) -> bool {
    &&& 0 < slices.len() <= REQUESTS
    &&& forall|i: int| 0 <= i < slices.len() ==> fits(#[trigger] slices[i])
    &&& rows_before(slices, slices.len()) <= CONTEXT
}

/// `count` requests of one shape.
pub open spec fn alike(count: nat, len: usize, start: usize) -> Seq<Slice> {
    Seq::new(count, |i: int| Slice { id: i as usize, start, len })
}

fn same_shape(count: usize, len: usize, start: usize) -> (v: Vec<Slice>)
    ensures
        v@ == alike(count as nat, len, start),
{
    let mut v: Vec<Slice> = Vec::new();
    while v.len() < count
        invariant
            v@.len() <= count,
            v@ == alike(count as nat, len, start).take(v@.len() as int),
        decreases count - v@.len(),
    {
        let id: usize = v.len();
        v.push(Slice { id, start, len });
        assert(v@ =~= alike(count as nat, len, start).take(v@.len() as int));
    }
    assert(v@ =~= alike(count as nat, len, start));
    v
}

/// A call of requests of one shape.
pub open spec fn uniform(name: Seq<char>, count: nat, len: usize, start: usize, seed: u64) -> CaseView {
    CaseView { name, slices: alike(count, len, start), seed, profile: 2 }
}

/// A call of requests of one shape.
pub fn homogeneous(name: &str, count: usize, len: usize, start: usize, seed: u64) -> (c: Case)
    ensures
        c@ == uniform(name@, count as nat, len, start, seed),
{
    let mut text = String::new();
    text.append(name);
    let c = Case { name: text, slices: same_shape(count, len, start), seed, profile: 2 };
    assert(c@.name =~= name@);
    c
}

/// One query at a position around which pages, tiles or chunks end.
pub open spec fn boundary(p: usize, seed: u64) -> CaseView {
    uniform("boundary-"@ + text::decimal(p as nat), 1, 1, p, (seed + p) as u64)
}

/// Three requests that start inside their context.
pub open spec fn offset(p: usize, seed: u64) -> CaseView {
    uniform("offset-"@ + text::decimal(p as nat), 3, 64, p, (seed + p) as u64)
}

/// One whole prompt.
pub open spec fn single(p: usize, seed: u64) -> CaseView {
    uniform("single-"@ + text::decimal(p as nat), 1, p, 0, (seed + p) as u64)
}

/// Equal prompts.
pub open spec fn grid(count: usize, len: usize, seed: u64) -> CaseView {
    uniform(
        text::decimal(count as nat) + "x"@ + text::decimal(len as nat),
        count as nat,
        len,
        0,
        (seed + count) as u64,
    )
}

/// Requests that differ in length and start.
pub open spec fn ragged(profile: usize, seed: u64) -> CaseView {
    CaseView {
        name: "ragged-profile-"@ + text::decimal(profile as nat),
        slices: uneven(15, 33),
        seed: (seed + profile) as u64,
        profile,
    }
}

/// Four requests of which the second is given.
pub open spec fn uneven(start: usize, len: usize) -> Seq<Slice> {
    seq![
        (Slice { id: 0, start: 0, len: 17 }),
        (Slice { id: 1, start, len }),
        (Slice { id: 2, start: 255, len: 129 }),
        (Slice { id: 3, start: 512, len: 257 }),
    ]
}

/// Where single queries stand.
pub open spec fn boundaries() -> Seq<usize> {
    seq![
        0usize, 1, 15, 16, 17, 31, 32, 33, 63, 64, 65, 127, 128, 129, 255, 256, 257, 511, 512, 513,
        1023,
    ]
}

/// Where the three requests start.
pub open spec fn offsets() -> Seq<usize> {
    seq![1usize, 15, 16, 17, 63, 64, 127, 128, 255, 512, 960]
}

/// Lengths of whole prompts.
pub open spec fn singles() -> Seq<usize> {
    seq![1usize, 16, 32, 64, 128, 256, 512, 768, 941, 1024]
}

/// Numbers and lengths of equal prompts.
pub open spec fn grids() -> Seq<(usize, usize)> {
    seq![(16usize, 16usize), (8, 32), (4, 64), (4, 128), (4, 256), (8, 128), (2, 512)]
}

/// The fixed calls of the check.
pub open spec fn fixed(seed: u64) -> Seq<CaseView> {
    Seq::new(boundaries().len(), |i: int| boundary(boundaries()[i], seed)) + Seq::new(
        offsets().len(),
        |i: int| offset(offsets()[i], seed),
    ) + plain(seed) + Seq::new(4, |i: int| ragged(i as usize, seed))
}

/// Whole prompts, alone and side by side.
pub open spec fn plain(seed: u64) -> Seq<CaseView> {
    Seq::new(singles().len(), |i: int| single(singles()[i], seed)) + Seq::new(
        grids().len(),
        |i: int| grid(grids()[i].0, grids()[i].1, seed),
    )
}

fn named(prefix: &str, n: usize) -> (s: String)
    ensures
        s@ == prefix@ + text::decimal(n as nat),
{
    let mut s = String::new();
    s.append(prefix);
    push_decimal(&mut s, n as u64);
    assert(s@ =~= prefix@ + text::decimal(n as nat));
    s
}

fn push_case(cases: &mut Vec<Case>, c: Case)
    ensures
        views(final(cases)@) == views(old(cases)@).push(c@),
{
    cases.push(c);
    assert(views(cases@) =~= views(old(cases)@).push(c@));
}

fn push_boundaries(cases: &mut Vec<Case>, seed: u64)
    requires
        seed + CONTEXT <= u64::MAX,
    ensures
        views(final(cases)@) == views(old(cases)@) + Seq::new(
            boundaries().len(),
            |i: int| boundary(boundaries()[i], seed),
        ),
{
    let list: Vec<usize> = vec![
        0, 1, 15, 16, 17, 31, 32, 33, 63, 64, 65, 127, 128, 129, 255, 256, 257, 511, 512, 513, 1023,
    ];
    assert(list@ =~= boundaries());
    let ghost all = Seq::new(boundaries().len(), |i: int| boundary(boundaries()[i], seed));
    let mut i: usize = 0;
    assert(views(cases@) =~= views(old(cases)@) + all.take(0));
    while i < list.len()
        invariant
            list@ == boundaries(),
            i <= list@.len(),
            seed + CONTEXT <= u64::MAX,
            all == Seq::new(boundaries().len(), |i: int| boundary(boundaries()[i], seed)),
            views(cases@) == views(old(cases)@) + all.take(i as int),
        decreases list@.len() - i,
    {
        let p: usize = list[i];
        assert(p < CONTEXT);
        let name = named("boundary-", p);
        let c = homogeneous(name.as_str(), 1, 1, p, seed + p as u64);
        push_case(cases, c);
        assert(all.take(i + 1) =~= all.take(i as int).push(all[i as int]));
        assert(views(cases@) =~= views(old(cases)@) + all.take(i + 1));
        i += 1;
    }
    assert(all.take(i as int) =~= all);
}

fn push_offsets(cases: &mut Vec<Case>, seed: u64)
    requires
        seed + CONTEXT <= u64::MAX,
    ensures
        views(final(cases)@) == views(old(cases)@) + Seq::new(
            offsets().len(),
            |i: int| offset(offsets()[i], seed),
        ),
{
    let list: Vec<usize> = vec![1, 15, 16, 17, 63, 64, 127, 128, 255, 512, 960];
    assert(list@ =~= offsets());
    let ghost all = Seq::new(offsets().len(), |i: int| offset(offsets()[i], seed));
    let mut i: usize = 0;
    assert(views(cases@) =~= views(old(cases)@) + all.take(0));
    while i < list.len()
        invariant
            list@ == offsets(),
            i <= list@.len(),
            seed + CONTEXT <= u64::MAX,
            all == Seq::new(offsets().len(), |i: int| offset(offsets()[i], seed)),
            views(cases@) == views(old(cases)@) + all.take(i as int),
        decreases list@.len() - i,
    {
        let p: usize = list[i];
        assert(p < CONTEXT);
        let name = named("offset-", p);
        let c = homogeneous(name.as_str(), 3, 64, p, seed + p as u64);
        push_case(cases, c);
        assert(all.take(i + 1) =~= all.take(i as int).push(all[i as int]));
        assert(views(cases@) =~= views(old(cases)@) + all.take(i + 1));
        i += 1;
    }
    assert(all.take(i as int) =~= all);
}

fn push_singles(cases: &mut Vec<Case>, seed: u64)
    requires
        seed + CONTEXT <= u64::MAX,
    ensures
        views(final(cases)@) == views(old(cases)@) + Seq::new(
            singles().len(),
            |i: int| single(singles()[i], seed),
        ),
{
    let list: Vec<usize> = vec![1, 16, 32, 64, 128, 256, 512, 768, 941, 1024];
    assert(list@ =~= singles());
    let ghost all = Seq::new(singles().len(), |i: int| single(singles()[i], seed));
    let mut i: usize = 0;
    assert(views(cases@) =~= views(old(cases)@) + all.take(0));
    while i < list.len()
        invariant
            list@ == singles(),
            i <= list@.len(),
            seed + CONTEXT <= u64::MAX,
            all == Seq::new(singles().len(), |i: int| single(singles()[i], seed)),
            views(cases@) == views(old(cases)@) + all.take(i as int),
        decreases list@.len() - i,
    {
        let p: usize = list[i];
        assert(p <= CONTEXT);
        let name = named("single-", p);
        let c = homogeneous(name.as_str(), 1, p, 0, seed + p as u64);
        push_case(cases, c);
        assert(all.take(i + 1) =~= all.take(i as int).push(all[i as int]));
        assert(views(cases@) =~= views(old(cases)@) + all.take(i + 1));
        i += 1;
    }
    assert(all.take(i as int) =~= all);
}

fn push_grids(cases: &mut Vec<Case>, seed: u64)
    requires
        seed + CONTEXT <= u64::MAX,
    ensures
        views(final(cases)@) == views(old(cases)@) + Seq::new(
            grids().len(),
            |i: int| grid(grids()[i].0, grids()[i].1, seed),
        ),
{
    let list: Vec<(usize, usize)> = vec![
        (16, 16), (8, 32), (4, 64), (4, 128), (4, 256), (8, 128), (2, 512),
    ];
    assert(list@ =~= grids());
    let ghost all = Seq::new(grids().len(), |i: int| grid(grids()[i].0, grids()[i].1, seed));
    let mut i: usize = 0;
    assert(views(cases@) =~= views(old(cases)@) + all.take(0));
    while i < list.len()
        invariant
            list@ == grids(),
            i <= list@.len(),
            seed + CONTEXT <= u64::MAX,
            all == Seq::new(grids().len(), |i: int| grid(grids()[i].0, grids()[i].1, seed)),
            views(cases@) == views(old(cases)@) + all.take(i as int),
        decreases list@.len() - i,
    {
        let (count, len) = list[i];
        assert(count <= 16);
        let mut name = String::new();
        push_decimal(&mut name, count as u64);
        name.append("x");
        push_decimal(&mut name, len as u64);
        let c = homogeneous(name.as_str(), count, len, 0, seed + count as u64);
        assert(c@.name =~= text::decimal(count as nat) + "x"@ + text::decimal(len as nat));
        push_case(cases, c);
        assert(all.take(i + 1) =~= all.take(i as int).push(all[i as int]));
        assert(views(cases@) =~= views(old(cases)@) + all.take(i + 1));
        i += 1;
    }
    assert(all.take(i as int) =~= all);
}

fn uneven_slices(start: usize, len: usize) -> (v: Vec<Slice>)
    ensures
        v@ == uneven(start, len),
{
    let v: Vec<Slice> = vec![
        Slice { id: 0, start: 0, len: 17 },
        Slice { id: 1, start, len },
        Slice { id: 2, start: 255, len: 129 },
        Slice { id: 3, start: 512, len: 257 },
    ];
    assert(v@ =~= uneven(start, len));
    v
}

fn push_ragged(cases: &mut Vec<Case>, seed: u64)
    requires
        seed + CONTEXT <= u64::MAX,
    ensures
        views(final(cases)@) == views(old(cases)@) + Seq::new(
            4,
            |i: int| ragged(i as usize, seed),
        ),
{
    let ghost all = Seq::new(4, |i: int| ragged(i as usize, seed));
    let mut i: usize = 0;
    assert(views(cases@) =~= views(old(cases)@) + all.take(0));
    while i < 4
        invariant
            i <= 4,
            seed + CONTEXT <= u64::MAX,
            all == Seq::new(4, |i: int| ragged(i as usize, seed)),
            views(cases@) == views(old(cases)@) + all.take(i as int),
        decreases 4 - i,
    {
        let c = Case {
            name: named("ragged-profile-", i),
            slices: uneven_slices(15, 33),
            seed: seed + i as u64,
            profile: i,
        };
        push_case(cases, c);
        assert(all.take(i + 1) =~= all.take(i as int).push(all[i as int]));
        assert(views(cases@) =~= views(old(cases)@) + all.take(i + 1));
        i += 1;
    }
    assert(all.take(i as int) =~= all);
}

/// The fixed calls of the check.
pub fn cases(seed: u64) -> (v: Vec<Case>)
    requires
        seed + CONTEXT <= u64::MAX,
    ensures
        views(v@) == fixed(seed),
{
    let mut v: Vec<Case> = Vec::new();
    push_boundaries(&mut v, seed);
    push_offsets(&mut v, seed);
    push_singles(&mut v, seed);
    push_grids(&mut v, seed);
    push_ragged(&mut v, seed);
    assert(views(v@) =~= fixed(seed));
    v
}

/// A call whose history is longer than its queries.
pub open spec fn history(start: usize, seed: u64) -> CaseView {
    uniform("history-64-at-"@ + text::decimal(start as nat), 4, 64, start, (seed + start) as u64)
}

/// Where the calls with a history start.
pub open spec fn histories() -> Seq<usize> {
    seq![0usize, 64, 256, 512, 960]
}

/// The calls of the benchmark: whole prompts, calls with a history, the two
/// calls that a set of four 512-token prompts is scheduled in, and one of
/// requests that differ.
pub open spec fn timed(seed: u64) -> Seq<CaseView> {
    plain(seed) + Seq::new(histories().len(), |i: int| history(histories()[i], seed)) + seq![
        uniform("scheduled-4x512-first"@, 4, 256, 0, seed),
        uniform("scheduled-4x512-second"@, 4, 256, 256, seed),
        (CaseView { name: "heterogeneous"@, slices: uneven(63, 64), seed, profile: 2 }),
    ]
}

fn push_histories(cases: &mut Vec<Case>, seed: u64)
    requires
        seed + CONTEXT <= u64::MAX,
    ensures
        views(final(cases)@) == views(old(cases)@) + Seq::new(
            histories().len(),
            |i: int| history(histories()[i], seed),
        ),
{
    let list: Vec<usize> = vec![0, 64, 256, 512, 960];
    assert(list@ =~= histories());
    let ghost all = Seq::new(histories().len(), |i: int| history(histories()[i], seed));
    let mut i: usize = 0;
    assert(views(cases@) =~= views(old(cases)@) + all.take(0));
    while i < list.len()
        invariant
            list@ == histories(),
            i <= list@.len(),
            seed + CONTEXT <= u64::MAX,
            all == Seq::new(histories().len(), |i: int| history(histories()[i], seed)),
            views(cases@) == views(old(cases)@) + all.take(i as int),
        decreases list@.len() - i,
    {
        let p: usize = list[i];
        assert(p < CONTEXT);
        let name = named("history-64-at-", p);
        let c = homogeneous(name.as_str(), 4, 64, p, seed + p as u64);
        push_case(cases, c);
        assert(all.take(i + 1) =~= all.take(i as int).push(all[i as int]));
        assert(views(cases@) =~= views(old(cases)@) + all.take(i + 1));
        i += 1;
    }
    assert(all.take(i as int) =~= all);
}

/// The calls of the benchmark.
pub fn bench_cases(seed: u64) -> (v: Vec<Case>)
    requires
        seed + CONTEXT <= u64::MAX,
    ensures
        views(v@) == timed(seed),
{
    let mut v: Vec<Case> = Vec::new();
    push_singles(&mut v, seed);
    push_grids(&mut v, seed);
    assert(views(v@) =~= plain(seed));
    push_histories(&mut v, seed);
    push_case(&mut v, homogeneous("scheduled-4x512-first", 4, 256, 0, seed));
    push_case(&mut v, homogeneous("scheduled-4x512-second", 4, 256, 256, seed));
    let mut name = String::new();
    name.append("heterogeneous");
    let last = Case { name, slices: uneven_slices(63, 64), seed, profile: 2 };
    assert(last@.name =~= "heterogeneous"@);
    push_case(&mut v, last);
    assert(views(v@) =~= timed(seed));
    v
}

/// The calls that a filter names, in their order. An empty filter names all.
pub open spec fn named_in(c: Seq<CaseView>, filter: Seq<char>) -> Seq<CaseView>
    decreases c.len(),
{
    if c.len() == 0 {
        Seq::empty()
    } else {
        let k = named_in(c.drop_last(), filter);
        if filter.len() == 0 || lists::names_of(filter).contains(c.last().name) {
            k.push(c.last())
        } else {
            k
        }
    }
}

/// The calls that a filter names, in their order. An empty filter names all.
pub fn retain_named(cases: Vec<Case>, filter: &str) -> (v: Vec<Case>)
    ensures
        views(v@) == named_in(views(cases@), filter@),
{
    let names = lists::names(filter);
    let all = text::chars_of(filter).len() == 0;
    let ghost seen = views(cases@);
    let mut rest: Vec<Case> = cases;
    let mut kept: Vec<Case> = Vec::new();
    // From the back, since a vector gives up its last item most easily.
    while rest.len() > 0
        invariant
            all == (filter@.len() == 0),
            lists::texts(names@) == lists::names_of(filter@),
            rest@.len() <= seen.len(),
            views(rest@) == seen.take(rest@.len() as int),
            named_in(views(rest@), filter@) + reverse_views(kept@) == named_in(seen, filter@),
        decreases rest@.len(),
    {
        let ghost before = rest@;
        let c: Case = match rest.pop() {
            Some(c) => c,
            None => {
                return kept;
            },
        };
        proof {
            assert(views(before).drop_last() =~= views(rest@));
            assert(views(before).last() == c@);
        }
        if all || lists::has(&names, c.name.as_str()) {
            let ghost k = kept@;
            kept.push(c);
            assert(reverse_views(kept@) =~= seq![c@] + reverse_views(k));
            assert(named_in(views(rest@), filter@).push(c@) + reverse_views(k) =~= named_in(
                views(rest@),
                filter@,
            ) + reverse_views(kept@));
        }
    }
    let mut v: Vec<Case> = Vec::new();
    let ghost want = reverse_views(kept@);
    assert(views(v@) + want =~= want);
    assert(named_in(views(rest@), filter@) + want =~= want);
    while kept.len() > 0
        invariant
            views(v@) + reverse_views(kept@) == want,
        decreases kept@.len(),
    {
        let ghost before = kept@;
        let ghost done = views(v@);
        if let Some(c) = kept.pop() {
            push_case(&mut v, c);
            assert(reverse_views(before) =~= seq![c@] + reverse_views(kept@));
            assert(done + (seq![c@] + reverse_views(kept@)) =~= views(v@) + reverse_views(kept@));
        }
    }
    assert(views(v@) + reverse_views(kept@) =~= views(v@));
    v
}

spec fn reverse_views(c: Seq<Case>) -> Seq<CaseView> {
    Seq::new(c.len(), |i: int| c[c.len() - 1 - i]@)
}

proof fn lemma_alike_rows(count: nat, len: usize, start: usize, n: nat)
    requires
        n <= count,
    ensures
        rows_before(alike(count, len, start), n) == n * len,
    decreases n,
{
    if n > 0 {
        lemma_alike_rows(count, len, start, (n - 1) as nat);
        assert((n - 1) * len + len == n * len) by (nonlinear_arith);
    } else {
        assert(n * len == 0) by (nonlinear_arith)
            requires
                n == 0,
        ;
    }
}

proof fn lemma_uniform_callable(count: nat, len: usize, start: usize)
    requires
        0 < count <= REQUESTS,
        0 < len,
        start + len <= CONTEXT,
        count * len <= CONTEXT,
    ensures
        callable(alike(count, len, start)),
{
    lemma_alike_rows(count, len, start, count);
}

proof fn lemma_grid_callable(k: int)
    requires
        0 <= k < grids().len(),
    ensures
        callable(alike(grids()[k].0 as nat, grids()[k].1, 0)),
{
    let (count, len) = grids()[k];
    assert(count * len <= CONTEXT) by {
        if k == 0 {
            assert(count * len == 16 * 16);
        } else if k == 1 {
            assert(count * len == 8 * 32);
        } else if k == 2 {
            assert(count * len == 4 * 64);
        } else if k == 3 {
            assert(count * len == 4 * 128);
        } else if k == 4 {
            assert(count * len == 4 * 256);
        } else if k == 5 {
            assert(count * len == 8 * 128);
        } else {
            assert(count * len == 2 * 512);
        }
    }
    lemma_uniform_callable(count as nat, len, 0);
}

proof fn lemma_uneven_callable(start: usize, len: usize)
    requires
        0 < len,
        start + len <= CONTEXT,
        len <= 64,
    ensures
        callable(uneven(start, len)),
{
    reveal_with_fuel(rows_before, 5);
}

/// Law: every fixed call can be made.
pub proof fn law_fixed_calls_can_be_made(seed: u64, i: int)
    requires
        0 <= i < fixed(seed).len(),
    ensures
        callable(fixed(seed)[i].slices),
{
    let (a, b) = (boundaries().len() as int, offsets().len() as int);
    let (c, d) = (singles().len() as int, grids().len() as int);
    if i < a {
        lemma_uniform_callable(1, 1, boundaries()[i]);
    } else if i < a + b {
        lemma_uniform_callable(3, 64, offsets()[i - a]);
    } else if i < a + b + c {
        lemma_uniform_callable(1, singles()[i - a - b], 0);
    } else if i < a + b + c + d {
        lemma_grid_callable(i - a - b - c);
    } else {
        lemma_uneven_callable(15, 33);
    }
}

/// Law: every call of the benchmark can be made.
pub proof fn law_timed_calls_can_be_made(seed: u64, i: int)
    requires
        0 <= i < timed(seed).len(),
    ensures
        callable(timed(seed)[i].slices),
{
    let (c, d) = (singles().len() as int, grids().len() as int);
    let h = histories().len() as int;
    if i < c {
        lemma_uniform_callable(1, singles()[i], 0);
    } else if i < c + d {
        lemma_grid_callable(i - c);
    } else if i < c + d + h {
        lemma_uniform_callable(4, 64, histories()[i - c - d]);
    } else if i < c + d + h + 2 {
        lemma_uniform_callable(4, 256, 0);
        lemma_uniform_callable(4, 256, 256);
    } else {
        lemma_uneven_callable(63, 64);
    }
}

/// How many queries the next request of a random call may have: every request
/// after it keeps one.
pub open spec fn most(room: nat, after: nat) -> nat {
    math::least((room - after) as nat, 257)
}

/// The requests of a random call from the `id`-th on.
pub open spec fn drawn(state: u64, round: nat, id: nat, count: nat, room: nat) -> Seq<Slice>
    decreases count - id,
{
    if id >= count {
        Seq::empty()
    } else {
        let s1 = workload::next(state);
        let len = 1 + s1 as nat % most(room, (count - id - 1) as nat);
        let s2 = workload::next(s1);
        let start = s2 as nat % (CONTEXT - len + 1) as nat;
        seq![
            (Slice { id: (round * 16 + id) as usize, start: start as usize, len: len as usize }),
        ] + drawn(s2, round, id + 1, count, (room - len) as nat)
    }
}

/// The state after `n` requests were drawn: two numbers each.
pub open spec fn spent(state: u64, n: nat) -> u64 {
    workload::nth(state, 2 * n)
}

/// A random call.
pub open spec fn fuzz(state: u64, round: nat) -> CaseView {
    let s = workload::next(state);
    let count = 1 + s as nat % 16;
    CaseView {
        name: "fuzz-"@ + text::decimal(round),
        slices: drawn(s, round, 0, count, CONTEXT as nat),
        seed: workload::next(spent(s, count)),
        profile: (round % 4) as usize,
    }
}

/// A random call. The generator is left behind its last draw, which is the
/// call's seed.
pub fn fuzz_case(state: &mut u64, round: usize) -> (c: Case)
    requires
        round * 16 + 16 <= usize::MAX,
    ensures
        c@ == fuzz(*old(state), round as nat),
        *final(state) == c@.seed,
{
    let first: u64 = random(state);
    let count: usize = 1 + (first % 16) as usize;
    let mut room: usize = CONTEXT;
    let mut slices: Vec<Slice> = Vec::new();
    let ghost all = drawn(first, round as nat, 0, count as nat, CONTEXT as nat);
    assert(slices@ + all =~= all);
    while slices.len() < count
        invariant
            round * 16 + 16 <= usize::MAX,
            1 <= count <= 16,
            slices@.len() <= count,
            count - slices@.len() <= room <= CONTEXT,
            *state == spent(first, slices@.len()),
            slices@ + drawn(*state, round as nat, slices@.len(), count as nat, room as nat) == all,
        decreases count - slices@.len(),
    {
        let id: usize = slices.len();
        let ghost before = *state;
        let top: usize = min(room - (count - id - 1), 257);
        let r1: u64 = random(state);
        let len: usize = 1 + (r1 % (top as u64)) as usize;
        let r2: u64 = random(state);
        let start: usize = (r2 % ((CONTEXT - len + 1) as u64)) as usize;
        let ghost done = slices@;
        slices.push(Slice { id: round * 16 + id, start, len });
        room -= len;
        proof {
            let more = drawn(*state, round as nat, (id + 1) as nat, count as nat, room as nat);
            let s = Slice { id: (round * 16 + id) as usize, start, len };
            assert(done + (seq![s] + more) =~= slices@ + more);
            assert(2 * (id + 1) == 2 * id + 1 + 1);
            let n = (2 * id) as nat;
            assert(workload::nth(first, n + 1) == workload::next(workload::nth(first, n)));
            assert(workload::nth(first, n + 2) == workload::next(workload::nth(first, n + 1)));
        }
    }
    assert(slices@ =~= all) by {
        assert(slices@ + Seq::<Slice>::empty() =~= slices@);
    }
    let seed: u64 = random(state);
    let c = Case { name: named("fuzz-", round), slices, seed, profile: round % 4 };
    c
}

proof fn lemma_drawn(state: u64, round: nat, id: nat, count: nat, room: nat)
    requires
        id <= count,
        count - id <= room <= CONTEXT,
        round * 16 + count <= usize::MAX,
    ensures
        drawn(state, round, id, count, room).len() == count - id,
        forall|i: int|
            0 <= i < drawn(state, round, id, count, room).len() ==> fits(
                #[trigger] drawn(state, round, id, count, room)[i],
            ),
        rows_before(drawn(state, round, id, count, room), (count - id) as nat) <= room,
    decreases count - id,
{
    if id < count {
        let s1 = workload::next(state);
        let m = most(room, (count - id - 1) as nat);
        let len = 1 + s1 as nat % m;
        let s2 = workload::next(s1);
        let rest = drawn(s2, round, id + 1, count, (room - len) as nat);
        lemma_drawn(s2, round, id + 1, count, (room - len) as nat);
        let all = drawn(state, round, id, count, room);
        lemma_rows_shift(all, rest, (count - id - 1) as nat);
        assert forall|i: int| 0 <= i < all.len() implies fits(#[trigger] all[i]) by {
            if i > 0 {
                assert(all[i] == rest[i - 1]);
            }
        }
    }
}

proof fn lemma_rows_shift(all: Seq<Slice>, rest: Seq<Slice>, n: nat)
    requires
        all.len() == rest.len() + 1,
        n <= rest.len(),
        forall|i: int| 0 <= i < rest.len() ==> all[i + 1] == #[trigger] rest[i],
    ensures
        rows_before(all, n + 1) == all[0].len + rows_before(rest, n),
    decreases n,
{
    if n > 0 {
        lemma_rows_shift(all, rest, (n - 1) as nat);
        assert(all[n as int] == rest[n - 1]);
    } else {
        assert(rows_before(all, 0) == 0);
    }
}

/// Law: every random call can be made.
pub proof fn law_random_calls_can_be_made(state: u64, round: nat)
    requires
        round * 16 + 16 <= usize::MAX,
    ensures
        callable(fuzz(state, round).slices),
{
    let s = workload::next(state);
    let count = 1 + s as nat % 16;
    lemma_drawn(s, round, 0, count, CONTEXT as nat);
}

/// Tile sizes of the queries.
pub open spec fn query_tile(i: int) -> usize {
    if i == 0 {
        1
    } else if i == 1 {
        2
    } else {
        4
    }
}

/// Tile sizes of the history.
pub open spec fn history_tile(i: int) -> usize {
    if i == 0 {
        16
    } else if i == 1 {
        32
    } else {
        64
    }
}

/// The kernels that the check compares with the reference: every tiling, the
/// options of the middle one, and every tiling with every option of the exact
/// one.
pub open spec fn variant_at(i: int) -> PrefillAttentionVariant {
    if i < 9 {
        PrefillAttentionVariant::Tiled {
            query_tile: query_tile(i / 3),
            history_tile: history_tile(i % 3),
            hybrid: false,
            cache_page_table: false,
        }
    } else if i < 12 {
        PrefillAttentionVariant::Tiled {
            query_tile: 2,
            history_tile: 32,
            hybrid: i != 10,
            cache_page_table: i != 9,
        }
    } else {
        PrefillAttentionVariant::Exact {
            query_tile: query_tile((i - 12) / 12),
            history_tile: history_tile(((i - 12) / 4) % 3),
            hybrid: (i - 12) % 4 == 1 || (i - 12) % 4 == 3,
            cache_page_table: (i - 12) % 4 >= 2,
        }
    }
}

fn query_tile_of(i: usize) -> (t: usize)
    ensures
        t == query_tile(i as int),
{
    if i == 0 {
        1
    } else if i == 1 {
        2
    } else {
        4
    }
}

fn history_tile_of(i: usize) -> (t: usize)
    ensures
        t == history_tile(i as int),
{
    if i == 0 {
        16
    } else if i == 1 {
        32
    } else {
        64
    }
}

/// The kernels that the check compares with the reference.
pub fn variants() -> (v: Vec<PrefillAttentionVariant>)
    ensures
        v@ == Seq::new(48, |i: int| variant_at(i)),
{
    let mut v: Vec<PrefillAttentionVariant> = Vec::new();
    while v.len() < 48
        invariant
            v@.len() <= 48,
            forall|i: int| 0 <= i < v@.len() ==> #[trigger] v@[i] == variant_at(i),
        decreases 48 - v@.len(),
    {
        let i: usize = v.len();
        let variant = if i < 9 {
            PrefillAttentionVariant::Tiled {
                query_tile: query_tile_of(i / 3),
                history_tile: history_tile_of(i % 3),
                hybrid: false,
                cache_page_table: false,
            }
        } else if i < 12 {
            PrefillAttentionVariant::Tiled {
                query_tile: 2,
                history_tile: 32,
                hybrid: i != 10,
                cache_page_table: i != 9,
            }
        } else {
            let k: usize = i - 12;
            PrefillAttentionVariant::Exact {
                query_tile: query_tile_of(k / 12),
                history_tile: history_tile_of((k / 4) % 3),
                hybrid: k % 4 == 1 || k % 4 == 3,
                cache_page_table: k % 4 >= 2,
            }
        };
        v.push(variant);
    }
    assert(v@ =~= Seq::new(48, |i: int| variant_at(i)));
    v
}

/// Law: no kernel is compared twice.
pub proof fn law_variants_are_distinct(i: int, j: int)
    requires
        0 <= i < j < 48,
    ensures
        variant_at(i) != variant_at(j),
        !(variant_at(i) is Reference),
{
}

/// How requests are put in order within a call.
pub open spec fn reordered(s: Seq<Slice>, order: nat) -> Seq<Slice> {
    if order == 1 {
        Seq::new(s.len(), |i: int| s[s.len() - 1 - i])
    } else if order == 2 {
        s.skip((s.len() / 2) as int) + s.take((s.len() / 2) as int)
    } else {
        s
    }
}

/// A call for the isolation check: the same requests whatever else is in the
/// call, in whatever order, in whatever pages.
pub fn composition(count: usize, order: usize, seed: u64) -> (c: Case)
    requires
        seed + count + order <= u64::MAX,
    ensures
        c@ == (CaseView {
            slices: reordered(alike(count as nat, 17, 511), order as nat),
            ..uniform(
                "composition-permutation-reuse"@,
                count as nat,
                17,
                511,
                (seed + count + order) as u64,
            )
        }),
{
    let c = homogeneous(
        "composition-permutation-reuse",
        count,
        17,
        511,
        seed + count as u64 + order as u64,
    );
    let ghost base = alike(count as nat, 17, 511);
    let mut slices: Vec<Slice> = Vec::new();
    let half: usize = count / 2;
    while slices.len() < count
        invariant
            half == count / 2,
            c.slices@ == base,
            base == alike(count as nat, 17, 511),
            slices@.len() <= count,
            slices@ == reordered(base, order as nat).take(slices@.len() as int),
        decreases count - slices@.len(),
    {
        let i: usize = slices.len();
        let from: usize = if order == 1 {
            count - 1 - i
        } else if order == 2 {
            if i < count - half {
                i + half
            } else {
                i - (count - half)
            }
        } else {
            i
        };
        slices.push(c.slices[from]);
        assert(slices@ =~= reordered(base, order as nat).take(slices@.len() as int));
    }
    assert(slices@ =~= reordered(base, order as nat));
    Case { name: c.name, slices, seed: c.seed, profile: c.profile }
}

/// The pairs of a query and a position that it reads, over a call.
pub open spec fn pairs(slices: Seq<Slice>, n: nat) -> nat
    decreases n,
{
    if n == 0 {
        0
    } else {
        pairs(slices, (n - 1) as nat) + reads(slices[n - 1].start as nat, slices[n - 1].len as nat)
    }
}

/// The positions that `len` queries from `start` on read: each those up to its
/// own.
pub open spec fn reads(start: nat, len: nat) -> nat
    decreases len,
{
    if len == 0 {
        0
    } else {
        reads(start, (len - 1) as nat) + start + len
    }
}

proof fn lemma_reads(start: nat, len: nat)
    ensures
        2 * reads(start, len) == 2 * (len * (start + 1)) + len * (len - 1),
    decreases len,
{
    if len > 0 {
        lemma_reads(start, (len - 1) as nat);
        let m = len - 1;
        assert(2 * (m * (start + 1)) + m * (m - 1) + 2 * (start + len) == 2 * (len * (start + 1))
            + len * (len - 1)) by (nonlinear_arith)
            requires
                m == len - 1,
        ;
    } else {
        assert(len * (start + 1) == 0 && len * (len - 1) == 0) by (nonlinear_arith)
            requires
                len == 0,
        ;
    }
}

/// The pairs of a query and a position that it reads, over a call.
pub fn history_positions(slices: &[Slice]) -> (n: usize)
    requires
        callable(slices@),
    ensures
        n == pairs(slices@, slices@.len()),
{
    let mut n: usize = 0;
    let mut i: usize = 0;
    while i < slices.len()
        invariant
            callable(slices@),
            i <= slices@.len(),
            n <= i * 2_000_000,
            n == pairs(slices@, i as nat),
        decreases slices@.len() - i,
    {
        let s: Slice = slices[i];
        proof {
            assert(fits(slices@[i as int]));
            lemma_reads(s.start as nat, s.len as nat);
            let (len, start) = (s.len as int, s.start as int);
            assert(0 <= len * (start + 1) <= 1024 * 1025 && 0 <= len * (len - 1) <= 1024 * 1024)
                by (nonlinear_arith)
                requires
                    0 < len <= 1024,
                    0 <= start <= 1024,
            ;
            assert((len * (len - 1)) % 2 == 0) by {
                lemma_even(len as nat);
            }
        }
        let own: usize = s.len * (s.start + 1) + s.len * (s.len - 1) / 2;
        n += own;
        i += 1;
    }
    n
}

proof fn lemma_even(n: nat)
    ensures
        (n * (n - 1)) % 2 == 0,
    decreases n,
{
    if n > 0 {
        lemma_even((n - 1) as nat);
        let m = n - 1;
        assert(n * (n - 1) == m * (m - 1) + 2 * m) by (nonlinear_arith)
            requires
                m == n - 1,
        ;
    } else {
        assert(n * (n - 1) == 0) by (nonlinear_arith)
            requires
                n == 0,
        ;
    }
}

/// The rows of a request that are held against the mathematical oracle: the
/// first, the middle and the last.
pub fn selected_rows(len: usize) -> (v: Vec<usize>)
    requires
        len > 0,
    ensures
        v@ == if len == 1 {
            seq![0usize]
        } else if len == 2 {
            seq![0usize, 1]
        } else {
            seq![0usize, (len / 2) as usize, (len - 1) as usize]
        },
{
    let v: Vec<usize> = if len == 1 {
        vec![0]
    } else if len == 2 {
        vec![0, 1]
    } else {
        vec![0, len / 2, len - 1]
    };
    v
}

/// The order in which variants are timed in a round: forwards and backwards in
/// turn, so that drift falls on both ends alike.
pub fn timing_order(n: usize, round: usize) -> (v: Vec<usize>)
    ensures
        v@ == Seq::new(
            n as nat,
            |i: int|
                if round % 2 == 0 {
                    i as usize
                } else {
                    (n - 1 - i) as usize
                },
        ),
{
    let mut v: Vec<usize> = Vec::new();
    while v.len() < n
        invariant
            v@.len() <= n,
            forall|i: int|
                0 <= i < v@.len() ==> #[trigger] v@[i] == if round % 2 == 0 {
                    i
                } else {
                    n - 1 - i
                },
        decreases n - v@.len(),
    {
        let i: usize = v.len();
        if round % 2 == 0 {
            v.push(i);
        } else {
            v.push(n - 1 - i);
        }
    }
    assert(v@ =~= Seq::new(
        n as nat,
        |i: int|
            if round % 2 == 0 {
                i as usize
            } else {
                (n - 1 - i) as usize
            },
    ));
    v
}

/// Why a benchmark cannot be run.
#[derive(Debug, Clone, Copy, PartialEq, Eq, Structural)]
pub enum TimingError {
    Settings,
    NoCandidate,
    NoCase,
}

impl TimingError {
    /// The error in words.
    pub open spec fn text(self) -> Seq<char> {
        match self {
            TimingError::Settings =>
                "iters must be positive; at least three paired trials required"@,
            TimingError::NoCandidate => "benchmark requires a candidate variant"@,
            TimingError::NoCase => "case filter selected no shapes"@,
        }
    }

    /// The error in words.
    pub fn message(&self) -> (m: &'static str)
        ensures
            m@ == self.text(),
    {
        match self {
            TimingError::Settings =>
                "iters must be positive; at least three paired trials required",
            TimingError::NoCandidate => "benchmark requires a candidate variant",
            TimingError::NoCase => "case filter selected no shapes",
        }
    }
}

/// Whether a benchmark can be run: at least one launch in each of three trials,
/// a variant besides the reference, and a call to time.
pub fn bench_settings(iters: usize, trials: usize, variants: usize, cases: usize) -> (r: Result<
    (),
    TimingError,
>)
    ensures
        r == if iters == 0 || trials < 3 {
            Err(TimingError::Settings)
        } else if variants < 2 {
            Err(TimingError::NoCandidate)
        } else if cases == 0 {
            Err(TimingError::NoCase)
        } else {
            Ok::<(), TimingError>(())
        },
{
    if iters == 0 || trials < 3 {
        Err(TimingError::Settings)
    } else if variants < 2 {
        Err(TimingError::NoCandidate)
    } else if cases == 0 {
        Err(TimingError::NoCase)
    } else {
        Ok(())
    }
}

/// Variants without the repeated ones: of equal variants the first stays.
pub open spec fn firsts(variants: Seq<PrefillAttentionVariant>) -> Seq<PrefillAttentionVariant>
    decreases variants.len(),
{
    if variants.len() == 0 {
        Seq::empty()
    } else {
        let before = firsts(variants.drop_last());
        if before.contains(variants.last()) {
            before
        } else {
            before.push(variants.last())
        }
    }
}

fn is_among(v: &Vec<PrefillAttentionVariant>, c: PrefillAttentionVariant) -> (b: bool)
    ensures
        b == v@.contains(c),
{
    let mut k: usize = 0;
    while k < v.len()
        invariant
            k <= v@.len(),
            forall|j: int| 0 <= j < k ==> #[trigger] v@[j] != c,
        decreases v@.len() - k,
    {
        if v[k] == c {
            assert(v@[k as int] == c);
            return true;
        }
        k += 1;
    }
    false
}

/// The variants of a benchmark: the reference, and each candidate once.
pub fn timed_variants(candidates: &[PrefillAttentionVariant]) -> (v: Vec<PrefillAttentionVariant>)
    ensures
        v@ == firsts(seq![PrefillAttentionVariant::Reference] + candidates@),
        v@.no_duplicates(),
{
    let mut v: Vec<PrefillAttentionVariant> = Vec::new();
    v.push(PrefillAttentionVariant::Reference);
    let ghost all = seq![PrefillAttentionVariant::Reference] + candidates@;
    let mut i: usize = 0;
    proof {
        reveal_with_fuel(firsts, 2);
        assert(all.take(1).drop_last() =~= Seq::empty());
        assert(v@ =~= firsts(all.take(1)));
    }
    while i < candidates.len()
        invariant
            i <= candidates@.len(),
            all == seq![PrefillAttentionVariant::Reference] + candidates@,
            v@ == firsts(all.take(i + 1)),
            v@.no_duplicates(),
        decreases candidates@.len() - i,
    {
        let c = candidates[i];
        proof {
            assert(all.take(i + 2).drop_last() =~= all.take(i + 1));
            assert(all.take(i + 2).last() == c);
        }
        if !is_among(&v, c) {
            v.push(c);
        }
        i += 1;
    }
    assert(all.take(i + 1) =~= all);
    v
}

/// The variants that are timed are those given, each once, and in the order in
/// which they were first given.
pub proof fn law_variants_are_timed_once(v: Seq<PrefillAttentionVariant>)
    ensures
        firsts(v).no_duplicates(),
        forall|x: PrefillAttentionVariant| #[trigger] firsts(v).contains(x) <==> v.contains(x),
        v.len() > 0 ==> firsts(v.drop_last()).is_prefix_of(firsts(v)),
    decreases v.len(),
{
    if v.len() > 0 {
        let w = v.drop_last();
        let before = firsts(w);
        law_variants_are_timed_once(w);
        assert forall|x: PrefillAttentionVariant| #[trigger] firsts(v).contains(x) <==> v.contains(
            x,
        ) by {
            assert(v.contains(x) <==> w.contains(x) || x == v.last()) by {
                if w.contains(x) {
                    let i = choose|i: int| 0 <= i < w.len() && w[i] == x;
                    assert(v[i] == x);
                }
                if v.contains(x) && x != v.last() {
                    let i = choose|i: int| 0 <= i < v.len() && v[i] == x;
                    assert(w[i] == x);
                }
                assert(v[v.len() - 1] == v.last());
            }
            if !before.contains(v.last()) {
                let after = before.push(v.last());
                assert(after[before.len() as int] == v.last());
                if before.contains(x) {
                    let i = choose|i: int| 0 <= i < before.len() && before[i] == x;
                    assert(after[i] == x);
                }
            }
        }
    }
}

/// The cases kept of two lists are those kept of each; a case by itself is kept
/// where no name is asked for or its name is.
pub proof fn law_cases_are_kept_by_name(a: Seq<CaseView>, b: Seq<CaseView>, c: CaseView, filter: Seq<char>)
    ensures
        named_in(a + b, filter) == named_in(a, filter) + named_in(b, filter),
        filter.len() == 0 || lists::names_of(filter).contains(c.name) ==> named_in(seq![c], filter)
            == seq![c],
        filter.len() > 0 && !lists::names_of(filter).contains(c.name) ==> named_in(
            seq![c],
            filter,
        ).len() == 0,
    decreases b.len(),
{
    assert(seq![c].drop_last() =~= Seq::empty());
    assert(named_in(seq![c].drop_last(), filter) =~= Seq::empty());
    assert(seq![c].last() == c);
    assert(Seq::<CaseView>::empty().push(c) =~= seq![c]);
    if b.len() == 0 {
        assert(a + b =~= a);
        assert(named_in(a, filter) + named_in(b, filter) =~= named_in(a, filter));
    } else {
        law_cases_are_kept_by_name(a, b.drop_last(), c, filter);
        assert((a + b).drop_last() =~= a + b.drop_last());
        assert((a + b).last() == b.last());
        assert(named_in(a + b, filter) =~= named_in(a, filter) + named_in(b, filter));
    }
}

/// Every order is the same slices: the second is the first backwards, the third
/// has its halves exchanged.
pub proof fn law_orders_keep_the_slices(s: Seq<Slice>, i: int)
    requires
        0 <= i < s.len(),
    ensures
        reordered(s, 0)[i] == s[i],
        reordered(s, 1)[s.len() - 1 - i] == s[i],
        reordered(s, 2)[(i + (s.len() - s.len() / 2)) % (s.len() as int)] == s[i],
        reordered(s, 1).len() == s.len(),
        reordered(s, 2).len() == s.len(),
{
    let n = s.len() as int;
    let k = n - n / 2;
    if i < n / 2 {
        vstd::arithmetic::div_mod::lemma_small_mod((i + k) as nat, n as nat);
    } else {
        vstd::arithmetic::div_mod::lemma_mod_add_multiples_vanish(i - n / 2, n);
        vstd::arithmetic::div_mod::lemma_small_mod((i - n / 2) as nat, n as nat);
    }
}

/// The rows of a slice read one position more each, from the one after its
/// start: twice the sum is the number of rows times the first and the last.
pub proof fn law_rows_read_their_past(start: nat, len: nat)
    ensures
        2 * reads(start, len) == len * (2 * start + len + 1),
    decreases len,
{
    if len > 0 {
        let m = (len - 1) as nat;
        law_rows_read_their_past(start, m);
        assert(len * (2 * start + len + 1) == m * (2 * start + m + 1) + 2 * (start + len))
            by (nonlinear_arith)
            requires
                len == m + 1,
        ;
    } else {
        assert(len * (2 * start + len + 1) == 0) by (nonlinear_arith)
            requires
                len == 0,
        ;
    }
}

/// The positions that a call reads are those of its slices together.
pub proof fn law_reads_add_up(a: Seq<Slice>, s: Slice)
    ensures
        pairs(a, 0) == 0,
        pairs(a.push(s), a.len() + 1) == pairs(a, a.len()) + reads(s.start as nat, s.len as nat),
{
    lemma_pairs_of_prefix(a, a.push(s), a.len());
}

proof fn lemma_pairs_of_prefix(a: Seq<Slice>, b: Seq<Slice>, n: nat)
    requires
        n <= a.len(),
        n <= b.len(),
        forall|i: int| 0 <= i < n ==> a[i] == b[i],
    ensures
        pairs(a, n) == pairs(b, n),
    decreases n,
{
    if n > 0 {
        lemma_pairs_of_prefix(a, b, (n - 1) as nat);
    }
}

} // verus!
