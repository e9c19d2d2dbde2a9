//! What holds of a page pool whatever is asked of it, and of all the sequences
//! that share one.
use crate::math;
use crate::paged;
use crate::paged::{PageId, PoolView, SequenceView, PAGE_TOKENS};
use vstd::prelude::*;

verus! {

/// One call on a pool.
pub ghost enum Call {
    Alloc,
    Release { id: PageId },
}

/// The pool after a call. A call that is refused changes nothing.
pub open spec fn called(pool: PoolView, c: Call) -> PoolView {
    match c {
        Call::Alloc => if pool.free.len() > 0 {
            pool.after_alloc()
        } else {
            pool
        },
        Call::Release { id } => if pool.live(id) {
            pool.after_release(id)
        } else {
            pool
        },
    }
}

/// The pool after the first `n` of some calls.
pub open spec fn pool_at(pool: PoolView, calls: Seq<Call>, n: nat) -> PoolView
    decreases n,
{
    if n == 0 {
        pool
    } else {
        called(pool_at(pool, calls, (n - 1) as nat), calls[n - 1])
    }
}

/// Whether call `n` of some calls hands out a page.
pub open spec fn hands_out(pool: PoolView, calls: Seq<Call>, n: nat, id: PageId) -> bool {
    let now = pool_at(pool, calls, n);
    calls[n as int] is Alloc && now.free.len() > 0 && now.free.last() == id
}

/// Whether call `n` of some calls takes a page back.
pub open spec fn takes_back(pool: PoolView, calls: Seq<Call>, n: nat, id: PageId) -> bool {
    calls[n as int] == (Call::Release { id }) && pool_at(pool, calls, n).live(id)
}

/// A pool stays well formed under any call.
proof fn lemma_called(pool: PoolView, c: Call)
    requires
        pool.wf(),
    ensures
        called(pool, c).wf(),
{
    let after = called(pool, c);
    match c {
        Call::Alloc => {
            if pool.free.len() > 0 {
                assert forall|i: int| 0 <= i < after.free.len() implies (#[trigger] after.free[i])
                    < after.n_pages by {
                    assert(after.free[i] == pool.free[i]);
                }
            }
        },
        Call::Release { id } => {
            if pool.live(id) {
                assert forall|i: int, j: int|
                    0 <= i < after.free.len() && 0 <= j < after.free.len() && i
                        != j implies after.free[i] != after.free[j] by {
                    if i < pool.free.len() {
                        assert(pool.free.contains(pool.free[i]));
                    }
                    if j < pool.free.len() {
                        assert(pool.free.contains(pool.free[j]));
                    }
                }
                assert forall|i: int| 0 <= i < after.free.len() implies (#[trigger] after.free[i])
                    < after.n_pages by {
                    if i < pool.free.len() {
                        assert(after.free[i] == pool.free[i]);
                    }
                }
                paged::lemma_distinct_bounded(after.free, after.n_pages);
            }
        },
    }
}

proof fn lemma_pool_at(pool: PoolView, calls: Seq<Call>, n: nat)
    requires
        pool.wf(),
        n <= calls.len(),
    ensures
        pool_at(pool, calls, n).wf(),
        pool_at(pool, calls, n).n_pages == pool.n_pages,
    decreases n,
{
    if n > 0 {
        lemma_pool_at(pool, calls, (n - 1) as nat);
        lemma_called(pool_at(pool, calls, (n - 1) as nat), calls[n - 1]);
    }
}

/// A page that is handed out, and that no call takes back, stays handed out.
proof fn lemma_stays_live(pool: PoolView, calls: Seq<Call>, i: nat, n: nat, id: PageId)
    requires
        pool.wf(),
        i <= n <= calls.len(),
        pool_at(pool, calls, i).live(id),
        forall|k: nat| i <= k < n ==> !#[trigger] takes_back(pool, calls, k, id),
    ensures
        pool_at(pool, calls, n).live(id),
    decreases n,
{
    if i < n {
        let m = (n - 1) as nat;
        lemma_stays_live(pool, calls, i, m, id);
        assert(!takes_back(pool, calls, m, id));
        let now = pool_at(pool, calls, m);
        let next = called(now, calls[m as int]);
        assert(next == pool_at(pool, calls, n));
        if next.free.contains(id) {
            let j = choose|j: int| 0 <= j < next.free.len() && next.free[j] == id;
            if j < now.free.len() {
                assert(now.free[j] == id);
            }
        }
    }
}

/// No physical page is ever owned twice: whatever is asked of a pool, a page
/// that was handed out is not handed out again unless it was taken back in
/// between.
pub proof fn law_no_page_is_owned_twice(
    pool: PoolView,
    calls: Seq<Call>,
    i: nat,
    j: nat,
    id: PageId,
)
    requires
        pool.wf(),
        i < j < calls.len(),
        hands_out(pool, calls, i, id),
        forall|k: nat| i < k < j ==> !#[trigger] takes_back(pool, calls, k, id),
    ensures
        pool_at(pool, calls, j).live(id),
        !hands_out(pool, calls, j, id),
{
    lemma_pool_at(pool, calls, i);
    lemma_pool_at(pool, calls, j);
    let now = pool_at(pool, calls, i);
    let next = pool_at(pool, calls, i + 1);
    assert(next == called(now, calls[i as int]));
    assert(now.free[now.free.len() - 1] == id);
    if next.free.contains(id) {
        let k = choose|k: int| 0 <= k < next.free.len() && next.free[k] == id;
        assert(now.free[k] == now.free[now.free.len() - 1]);
    }
    lemma_stays_live(pool, calls, i + 1, j, id);
    let later = pool_at(pool, calls, j);
    if later.free.len() > 0 {
        assert(later.free.contains(later.free.last())) by {
            assert(later.free[later.free.len() - 1] == later.free.last());
        }
    }
}

/// A page that is given back at once leaves the pool as it was before it was
/// handed out, and is the next one to be handed out again.
pub proof fn law_release_undoes_alloc(pool: PoolView)
    requires
        pool.wf(),
        pool.free.len() > 0,
    ensures
        pool.after_alloc().live(pool.free.last()),
        pool.after_alloc().after_release(pool.free.last()) == pool,
{
    let id = pool.free.last();
    let mid = pool.after_alloc();
    assert(pool.free[pool.free.len() - 1] == id);
    if mid.free.contains(id) {
        let k = choose|k: int| 0 <= k < mid.free.len() && mid.free[k] == id;
        assert(pool.free[k] == pool.free[pool.free.len() - 1]);
    }
    assert(mid.free.push(id) =~= pool.free);
}

/// A new pool has every page free and hands them out in order: the first call
/// gets page 0, the next one page 1, and so on to the last page. After that
/// there is none.
pub proof fn law_pages_come_in_order(n_pages: nat, page_floats: nat, calls: Seq<Call>, k: nat)
    requires
        n_pages <= u32::MAX,
        k <= n_pages,
        k < calls.len(),
        forall|i: int| 0 <= i <= k ==> #[trigger] calls[i] is Alloc,
    ensures
        PoolView::fresh(n_pages, page_floats).wf(),
        PoolView::fresh(n_pages, page_floats).free.len() == n_pages,
        pool_at(PoolView::fresh(n_pages, page_floats), calls, k).free.len() == n_pages - k,
        k < n_pages ==> hands_out(
            PoolView::fresh(n_pages, page_floats),
            calls,
            k,
            k as PageId,
        ),
{
    let pool = PoolView::fresh(n_pages, page_floats);
    lemma_in_order(n_pages, page_floats, calls, k);
    assert(calls[k as int] is Alloc);
}

proof fn lemma_in_order(n_pages: nat, page_floats: nat, calls: Seq<Call>, k: nat)
    requires
        n_pages <= u32::MAX,
        k <= n_pages,
        k <= calls.len(),
        forall|i: int| 0 <= i < k ==> #[trigger] calls[i] is Alloc,
    ensures
        pool_at(PoolView::fresh(n_pages, page_floats), calls, k).free == PoolView::fresh(
            n_pages,
            page_floats,
        ).free.take(n_pages - k),
    decreases k,
{
    let pool = PoolView::fresh(n_pages, page_floats);
    if k == 0 {
        assert(pool.free.take(n_pages as int) =~= pool.free);
    } else {
        lemma_in_order(n_pages, page_floats, calls, (k - 1) as nat);
        assert(calls[k - 1] is Alloc);
        assert(pool.free.take(n_pages - (k - 1)).drop_last() =~= pool.free.take(n_pages - k));
    }
}

/// A pool, and every sequence that was grown from it.
pub ghost struct Tenancy {
    pub pool: PoolView,
    pub seqs: Seq<SequenceView>,
}

/// What may happen to a pool and its sequences: a new sequence, growth of one of
/// them, release of one of them.
pub ghost enum Step {
    Open,
    Grow { s: nat, extra: nat },
    Release { s: nat },
}

/// A sequence that holds nothing.
pub open spec fn empty() -> SequenceView {
    SequenceView { pages: Seq::empty(), len: 0 }
}

/// Pages that sequences hold together.
pub open spec fn held(seqs: Seq<SequenceView>) -> nat
    decreases seqs.len(),
{
    if seqs.len() == 0 {
        0
    } else {
        held(seqs.drop_last()) + seqs.last().pages.len()
    }
}

/// The page tables of sequences, one after the other.
pub open spec fn all_pages(seqs: Seq<SequenceView>) -> Seq<PageId>
    decreases seqs.len(),
{
    if seqs.len() == 0 {
        Seq::empty()
    } else {
        all_pages(seqs.drop_last()) + seqs.last().pages
    }
}

impl Tenancy {
    /// Whether a sequence can grow.
    pub open spec fn has_room(self, s: nat, extra: nat) -> bool {
        s < self.seqs.len() && self.seqs[s as int].pages_to_grow(extra) <= self.pool.free.len()
    }

    /// What is left by a step. Growth that is refused changes nothing.
    pub open spec fn after(self, step: Step) -> Tenancy {
        match step {
            Step::Open => Tenancy { seqs: self.seqs.push(empty()), ..self },
            Step::Grow { s, extra } => if self.has_room(s, extra) {
                let a = self.seqs[s as int];
                Tenancy {
                    pool: self.pool.after_allocs(a.pages_to_grow(extra)),
                    seqs: self.seqs.update(s as int, a.grown(self.pool, extra)),
                }
            } else {
                self
            },
            Step::Release { s } => if s < self.seqs.len() {
                Tenancy {
                    pool: self.pool.after_releases(self.seqs[s as int].pages),
                    seqs: self.seqs.update(s as int, empty()),
                }
            } else {
                self
            },
        }
    }

    /// What is left by some steps.
    pub open spec fn run(self, steps: Seq<Step>) -> Tenancy
        decreases steps.len(),
    {
        if steps.len() == 0 {
            self
        } else {
            self.run(steps.drop_last()).after(steps.last())
        }
    }

    /// Every sequence holds exactly the pages its positions need, no page
    /// belongs to two places, and every page that is not free is held.
    pub open spec fn sound(self) -> bool {
        &&& self.pool.wf()
        &&& forall|i: int|
            0 <= i < self.seqs.len() ==> (#[trigger] self.seqs[i]).wf() && self.seqs[i].owned_by(
                self.pool,
            )
        &&& forall|i: int, j: int|
            0 <= i < self.seqs.len() && 0 <= j < self.seqs.len() && i != j
                ==> #[trigger] self.seqs[i].disjoint(#[trigger] self.seqs[j])
        &&& held(self.seqs) + self.pool.free.len() == self.pool.n_pages
    }
}

proof fn lemma_held_update(seqs: Seq<SequenceView>, s: int, a: SequenceView)
    requires
        0 <= s < seqs.len(),
    ensures
        held(seqs.update(s, a)) == held(seqs) - seqs[s].pages.len() + a.pages.len(),
        held(seqs) >= seqs[s].pages.len(),
    decreases seqs.len(),
{
    let after = seqs.update(s, a);
    if s == seqs.len() - 1 {
        assert(after.drop_last() =~= seqs.drop_last());
    } else {
        lemma_held_update(seqs.drop_last(), s, a);
        assert(after.drop_last() =~= seqs.drop_last().update(s, a));
    }
}

proof fn lemma_step(t: Tenancy, step: Step)
    requires
        t.sound(),
    ensures
        t.after(step).sound(),
        t.after(step).pool.n_pages == t.pool.n_pages,
        t.after(step).pool.page_floats == t.pool.page_floats,
{
    let u = t.after(step);
    match step {
        Step::Open => {
            assert(u.seqs.drop_last() =~= t.seqs);
            assert forall|i: int| 0 <= i < u.seqs.len() implies (#[trigger] u.seqs[i]).wf()
                && u.seqs[i].owned_by(u.pool) by {
                if i < t.seqs.len() {
                    assert(u.seqs[i] == t.seqs[i]);
                }
            }
            assert forall|i: int, j: int|
                0 <= i < u.seqs.len() && 0 <= j < u.seqs.len() && i
                    != j implies #[trigger] u.seqs[i].disjoint(#[trigger] u.seqs[j]) by {
                if i < t.seqs.len() && j < t.seqs.len() {
                    assert(t.seqs[i].disjoint(t.seqs[j]));
                }
            }
        },
        Step::Grow { s, extra } => {
            if t.has_room(s, extra) {
                let a = t.seqs[s as int];
                let b = a.grown(t.pool, extra);
                assert(a.wf() && a.owned_by(t.pool));
                paged::law_growth_never_aliases(t.pool, a, empty(), extra);
                paged::law_pages_are_conserved(t.pool, a, extra);
                lemma_held_update(t.seqs, s as int, b);
                assert forall|j: int| 0 <= j < t.seqs.len() && j != s implies b.disjoint(
                    #[trigger] t.seqs[j],
                ) && t.seqs[j].disjoint(b) && t.seqs[j].owned_by(u.pool) by {
                    let c = t.seqs[j];
                    assert(a.disjoint(c));
                    assert(c.wf() && c.owned_by(t.pool));
                    paged::law_growth_never_aliases(t.pool, a, c, extra);
                }
                assert forall|i: int| 0 <= i < u.seqs.len() implies (#[trigger] u.seqs[i]).wf()
                    && u.seqs[i].owned_by(u.pool) by {
                    if i != s {
                        assert(u.seqs[i] == t.seqs[i]);
                    }
                }
                assert forall|i: int, j: int|
                    0 <= i < u.seqs.len() && 0 <= j < u.seqs.len() && i
                        != j implies #[trigger] u.seqs[i].disjoint(#[trigger] u.seqs[j]) by {
                    if i != s && j != s {
                        assert(t.seqs[i].disjoint(t.seqs[j]));
                    } else if i == s {
                        assert(b.disjoint(t.seqs[j]));
                    } else {
                        assert(t.seqs[i].disjoint(b));
                    }
                }
            }
        },
        Step::Release { s } => {
            if s < t.seqs.len() {
                let a = t.seqs[s as int];
                assert(a.wf() && a.owned_by(t.pool));
                assert(a.disjoint(empty()));
                paged::law_release_disturbs_nobody(t.pool, a, empty());
                lemma_held_update(t.seqs, s as int, empty());
                assert forall|i: int| 0 <= i < u.seqs.len() implies (#[trigger] u.seqs[i]).wf()
                    && u.seqs[i].owned_by(u.pool) by {
                    if i != s {
                        let c = t.seqs[i];
                        assert(u.seqs[i] == c);
                        assert(a.disjoint(c));
                        assert(c.wf() && c.owned_by(t.pool));
                        paged::law_release_disturbs_nobody(t.pool, a, c);
                    }
                }
                assert forall|i: int, j: int|
                    0 <= i < u.seqs.len() && 0 <= j < u.seqs.len() && i
                        != j implies #[trigger] u.seqs[i].disjoint(#[trigger] u.seqs[j]) by {
                    if i != s && j != s {
                        assert(t.seqs[i].disjoint(t.seqs[j]));
                    }
                }
            }
        },
    }
}

/// Whatever is grown and released, in whatever order, by however many sequences
/// that share a new pool: no page belongs to two of them, each holds exactly the
/// pages its positions need, and what is not free is held by them.
pub proof fn law_sharing_is_sound(n_pages: nat, page_floats: nat, steps: Seq<Step>)
    requires
        n_pages <= u32::MAX,
    ensures
        ({
            let fresh = Tenancy {
                pool: PoolView::fresh(n_pages, page_floats),
                seqs: Seq::empty(),
            };
            &&& fresh.run(steps).sound()
            &&& fresh.run(steps).pool.n_pages == n_pages
        }),
    decreases steps.len(),
{
    let fresh = Tenancy { pool: PoolView::fresh(n_pages, page_floats), seqs: Seq::empty() };
    if steps.len() > 0 {
        law_sharing_is_sound(n_pages, page_floats, steps.drop_last());
        lemma_step(fresh.run(steps.drop_last()), steps.last());
    }
}

/// The used pages of a shared pool are those that its sequences hold, and with
/// the free ones they are all there are.
pub proof fn law_used_pages_are_held(n_pages: nat, page_floats: nat, steps: Seq<Step>)
    requires
        n_pages <= u32::MAX,
    ensures
        ({
            let fresh = Tenancy {
                pool: PoolView::fresh(n_pages, page_floats),
                seqs: Seq::empty(),
            };
            let t = fresh.run(steps);
            &&& t.pool.n_pages - t.pool.free.len() == held(t.seqs)
            &&& held(t.seqs) + t.pool.free.len() == n_pages
        }),
{
    law_sharing_is_sound(n_pages, page_floats, steps);
}

/// The page tables of all sequences together name no page twice.
pub proof fn law_tables_share_no_page(n_pages: nat, page_floats: nat, steps: Seq<Step>)
    requires
        n_pages <= u32::MAX,
    ensures
        all_pages(
            (Tenancy {
                pool: PoolView::fresh(n_pages, page_floats),
                seqs: Seq::empty(),
            }).run(steps).seqs,
        ).no_duplicates(),
{
    law_sharing_is_sound(n_pages, page_floats, steps);
    let fresh = Tenancy { pool: PoolView::fresh(n_pages, page_floats), seqs: Seq::empty() };
    lemma_all_distinct(fresh.run(steps).seqs);
}

/// A page among all page tables is a page of one of them.
proof fn lemma_all_pages(seqs: Seq<SequenceView>, x: PageId) -> (i: int)
    requires
        all_pages(seqs).contains(x),
    ensures
        0 <= i < seqs.len(),
        seqs[i].pages.contains(x),
    decreases seqs.len(),
{
    let all = all_pages(seqs);
    let k = choose|k: int| 0 <= k < all.len() && all[k] == x;
    let rest = all_pages(seqs.drop_last());
    if k < rest.len() {
        assert(rest[k] == x);
        lemma_all_pages(seqs.drop_last(), x)
    } else {
        assert(seqs.last().pages[k - rest.len()] == x);
        seqs.len() - 1
    }
}

proof fn lemma_all_distinct(seqs: Seq<SequenceView>)
    requires
        forall|i: int| 0 <= i < seqs.len() ==> (#[trigger] seqs[i]).pages.no_duplicates(),
        forall|i: int, j: int|
            0 <= i < seqs.len() && 0 <= j < seqs.len() && i != j ==> #[trigger] seqs[i].disjoint(
                #[trigger] seqs[j],
            ),
    ensures
        all_pages(seqs).no_duplicates(),
    decreases seqs.len(),
{
    if seqs.len() > 0 {
        let init = seqs.drop_last();
        assert forall|i: int| 0 <= i < init.len() implies (
        #[trigger] init[i]).pages.no_duplicates() by {
            assert(init[i] == seqs[i]);
        }
        assert forall|i: int, j: int|
            0 <= i < init.len() && 0 <= j < init.len() && i != j implies #[trigger] init[i].disjoint(
            #[trigger] init[j],
        ) by {
            assert(seqs[i].disjoint(seqs[j]));
        }
        lemma_all_distinct(init);
        let rest = all_pages(init);
        let last = seqs.last().pages;
        assert(seqs[seqs.len() - 1].pages.no_duplicates());
        let all = rest + last;
        assert forall|x: int, y: int|
            0 <= x < all.len() && 0 <= y < all.len() && x != y implies all[x] != all[y] by {
            if x < rest.len() && y >= rest.len() {
                assert(rest.contains(rest[x]));
                lemma_apart(seqs, rest[x], y - rest.len());
            } else if y < rest.len() && x >= rest.len() {
                assert(rest.contains(rest[y]));
                lemma_apart(seqs, rest[y], x - rest.len());
            } else if x < rest.len() {
                assert(rest[x] != rest[y]);
            } else {
                assert(last[x - rest.len()] != last[y - rest.len()]);
            }
        }
    }
}

proof fn lemma_apart(seqs: Seq<SequenceView>, x: PageId, k: int)
    requires
        seqs.len() > 0,
        forall|i: int, j: int|
            0 <= i < seqs.len() && 0 <= j < seqs.len() && i != j ==> #[trigger] seqs[i].disjoint(
                #[trigger] seqs[j],
            ),
        all_pages(seqs.drop_last()).contains(x),
        0 <= k < seqs.last().pages.len(),
    ensures
        seqs.last().pages[k] != x,
{
    let i = lemma_all_pages(seqs.drop_last(), x);
    let a = seqs.drop_last()[i];
    assert(a == seqs[i]);
    let m = choose|m: int| 0 <= m < a.pages.len() && a.pages[m] == x;
    let l = seqs.len() - 1;
    assert(seqs[i].disjoint(seqs[l]));
    assert(seqs[i].pages[m] != seqs[l].pages[k]);
}

/// A step of one sequence leaves the length and the page table of every other
/// sequence as they are, whether it succeeds or not.
pub proof fn law_others_are_left_alone(t: Tenancy, step: Step, j: nat)
    requires
        t.sound(),
        j < t.seqs.len(),
        match step {
            Step::Open => true,
            Step::Grow { s, .. } => s != j,
            Step::Release { s } => s != j,
        },
    ensures
        t.after(step).seqs[j as int] == t.seqs[j as int],
        t.after(step).sound(),
{
    lemma_step(t, step);
}

/// Internal fragmentation is bounded whatever the context length: a sequence
/// holds the least number of pages that covers its positions, so fewer than a
/// page of its slots are idle.
pub proof fn law_fragmentation_is_bounded(
    n_pages: nat,
    page_floats: nat,
    steps: Seq<Step>,
    i: nat,
    n: nat,
)
    requires
        n_pages <= u32::MAX,
        i < (Tenancy {
            pool: PoolView::fresh(n_pages, page_floats),
            seqs: Seq::empty(),
        }).run(steps).seqs.len(),
    ensures
        ({
            let fresh = Tenancy {
                pool: PoolView::fresh(n_pages, page_floats),
                seqs: Seq::empty(),
            };
            let a = fresh.run(steps).seqs[i as int];
            &&& a.len <= a.pages.len() * PAGE_TOKENS <= a.len + PAGE_TOKENS - 1
            &&& n * PAGE_TOKENS >= a.len ==> n >= a.pages.len()
        }),
{
    law_sharing_is_sound(n_pages, page_floats, steps);
    let fresh = Tenancy { pool: PoolView::fresh(n_pages, page_floats), seqs: Seq::empty() };
    let a = fresh.run(steps).seqs[i as int];
    assert(a.wf());
    math::lemma_ceil_div(a.len, PAGE_TOKENS as nat);
}

/// Growing in steps takes the same pages as growing at once.
pub proof fn law_growth_in_steps(pool: PoolView, a: SequenceView, x: nat, y: nat)
    requires
        a.wf(),
        a.pages_to_grow(x) <= pool.free.len(),
        a.grown(pool, x).pages_to_grow(y) <= pool.after_allocs(a.pages_to_grow(x)).free.len(),
    ensures
        a.pages_to_grow(x + y) <= pool.free.len(),
        a.grown(pool, x + y) == a.grown(pool, x).grown(
            pool.after_allocs(a.pages_to_grow(x)),
            y,
        ),
        pool.after_allocs(a.pages_to_grow(x + y)) == pool.after_allocs(
            a.pages_to_grow(x),
        ).after_allocs(a.grown(pool, x).pages_to_grow(y)),
{
    math::lemma_ceil_div(a.len, PAGE_TOKENS as nat);
    math::lemma_ceil_div(a.len + x, PAGE_TOKENS as nat);
    math::lemma_ceil_div(a.len + x + y, PAGE_TOKENS as nat);
    let first = a.pages_to_grow(x);
    let b = a.grown(pool, x);
    let mid = pool.after_allocs(first);
    let second = b.pages_to_grow(y);
    assert(a.pages_to_grow(x + y) == first + second);
    assert(a.grown(pool, x + y).pages =~= b.grown(mid, y).pages);
    assert(pool.after_allocs(first + second).free =~= mid.after_allocs(second).free);
}

} // verus!
