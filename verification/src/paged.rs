//! Paged KV storage: fixed-size physical pages plus per-sequence page tables.
//!
//! Memory is handed out in small fixed blocks, sequences grow lazily, and a
//! finished request returns its pages without disturbing anyone else's.
//!
//! One physical page holds `PAGE_TOKENS` positions for *every* layer:
//!
//! ```text
//! pool: [n_pages][n_layer][PAGE_TOKENS][kv_dim]
//! offset(page, layer, slot) =
//!     page * n_layer * PAGE_TOKENS * kv_dim
//!   + layer * PAGE_TOKENS * kv_dim
//!   + slot * kv_dim
//! ```
use crate::math;
use crate::text;
use crate::text::push_decimal;
use vstd::prelude::*;

verus! {

/// Tokens per physical page: a power of two, so that translating a position is
/// a shift and a mask. At most `PAGE_TOKENS - 1` slots per sequence are idle.
pub const PAGE_TOKENS: usize = 16;

/// Physical page index.
pub type PageId = u32;

/// Why a page operation was refused.
#[derive(Debug, Clone, Copy, PartialEq, Eq, Structural)]
pub enum PageError {
    /// Every page of the pool is in use.
    Exhausted { pages: usize, tokens: usize },
    /// The page id is not one of this pool's.
    OutOfRange { id: PageId, pages: usize },
    /// The page is already free.
    DoubleFree { id: PageId },
    /// The position is past the end of the sequence.
    PastEnd { pos: usize, len: usize },
}

impl PageError {
    /// The error in words.
    pub open spec fn text(self) -> Seq<char> {
        match self {
            PageError::Exhausted { pages, tokens } => "kv page pool exhausted: all "@ + text::decimal(
                pages as nat,
            ) + " pages ("@ + text::decimal(tokens as nat) + " tokens) are in use"@,
            PageError::OutOfRange { id, pages } => "page "@ + text::decimal(id as nat)
                + " out of range (pool has "@ + text::decimal(pages as nat) + " pages)"@,
            PageError::DoubleFree { id } => "double free of kv page "@ + text::decimal(id as nat),
            PageError::PastEnd { pos, len } => "position "@ + text::decimal(pos as nat)
                + " outside sequence of length "@ + text::decimal(len as nat),
        }
    }

    /// The error in words, for a log line or a response body.
    pub fn message(&self) -> (m: String)
        ensures
            m@ == self.text(),
    {
        let mut m = String::new();
        match self {
            PageError::Exhausted { pages, tokens } => {
                m.append("kv page pool exhausted: all ");
                push_decimal(&mut m, *pages as u64);
                m.append(" pages (");
                push_decimal(&mut m, *tokens as u64);
                m.append(" tokens) are in use");
            },
            PageError::OutOfRange { id, pages } => {
                m.append("page ");
                push_decimal(&mut m, *id as u64);
                m.append(" out of range (pool has ");
                push_decimal(&mut m, *pages as u64);
                m.append(" pages)");
            },
            PageError::DoubleFree { id } => {
                m.append("double free of kv page ");
                push_decimal(&mut m, *id as u64);
            },
            PageError::PastEnd { pos, len } => {
                m.append("position ");
                push_decimal(&mut m, *pos as u64);
                m.append(" outside sequence of length ");
                push_decimal(&mut m, *len as u64);
            },
        }
        assert(m@ =~= self.text());
        m
    }
}

/// What a pool is: its geometry and the stack of free page ids.
pub ghost struct PoolView {
    pub n_pages: nat,
    pub page_floats: nat,
    pub free: Seq<PageId>,
}

impl PoolView {
    /// A pool of which every page is free, the first one to be handed out first.
    pub open spec fn fresh(n_pages: nat, page_floats: nat) -> PoolView {
        PoolView {
            n_pages,
            page_floats,
            free: Seq::new(n_pages, |i: int| (n_pages - 1 - i) as PageId),
        }
    }

    /// Whether a page is handed out at the moment.
    pub open spec fn live(self, id: PageId) -> bool {
        id < self.n_pages && !self.free.contains(id)
    }

    /// The free ids are ids of the pool, and none of them occurs twice.
    pub open spec fn wf(self) -> bool {
        &&& self.n_pages <= u32::MAX + 1
        &&& self.free.no_duplicates()
        &&& forall|i: int| 0 <= i < self.free.len() ==> (#[trigger] self.free[i]) < self.n_pages
        &&& self.free.len() <= self.n_pages
    }

    /// The pool after its most recently freed page was handed out.
    pub open spec fn after_alloc(self) -> PoolView {
        PoolView { free: self.free.drop_last(), ..self }
    }

    /// The pool after a page came back.
    pub open spec fn after_release(self, id: PageId) -> PoolView {
        PoolView { free: self.free.push(id), ..self }
    }

    /// The pool after `n` pages were handed out.
    pub open spec fn after_allocs(self, n: nat) -> PoolView {
        PoolView { free: self.free.take(self.free.len() - n), ..self }
    }

    /// The next `n` pages to be handed out, in order.
    pub open spec fn next_pages(self, n: nat) -> Seq<PageId> {
        Seq::new(n, |i: int| self.free[self.free.len() - 1 - i])
    }

    /// The pool after a run of pages came back, first to last.
    pub open spec fn after_releases(self, ids: Seq<PageId>) -> PoolView {
        PoolView { free: self.free + ids, ..self }
    }
}

/// Fixed-size physical pages plus a free list.
///
/// The allocator is intentionally boring: a stack of free ids and a used-flag
/// per page. Exhaustion is an error rather than a silent overwrite, and
/// double-free is rejected rather than corrupting the free list.
#[derive(Debug)]
pub struct PagePool {
    n_pages: usize,
    page_floats: usize,
    free: Vec<PageId>,
    in_use: Vec<bool>,
}

impl View for PagePool {
    type V = PoolView;

    closed spec fn view(&self) -> PoolView {
        PoolView {
            n_pages: self.n_pages as nat,
            page_floats: self.page_floats as nat,
            free: self.free@,
        }
    }
}

impl PagePool {
    /// The used-flags and the free list tell the same story.
    pub closed spec fn wf(&self) -> bool {
        &&& self@.wf()
        &&& self.in_use@.len() == self.n_pages
        &&& forall|id: PageId|
            id < self.n_pages ==> (#[trigger] self.in_use@[id as int] <==> !self.free@.contains(id))
    }

    /// Facts about every well-formed pool.
    pub proof fn lemma_wf(&self)
        requires
            self.wf(),
        ensures
            self@.wf(),
            self@.n_pages <= usize::MAX,
            self@.page_floats <= usize::MAX,
    {
    }

    /// A pool of `n_pages` free pages.
    pub fn new(n_pages: usize, n_layer: usize, kv_dim: usize) -> (pool: Self)
        requires
            n_pages <= u32::MAX,
            n_layer * PAGE_TOKENS * kv_dim <= usize::MAX,
        ensures
            pool.wf(),
            pool@ == PoolView::fresh(
                n_pages as nat,
                n_layer as nat * PAGE_TOKENS as nat * kv_dim as nat,
            ),
    {
        // Reverse order so the first allocation is page 0.
        let mut free: Vec<PageId> = Vec::new();
        let mut left: usize = n_pages;
        while left > 0
            invariant
                left <= n_pages <= u32::MAX,
                free@ == Seq::new((n_pages - left) as nat, |i: int| (n_pages - 1 - i) as PageId),
            decreases left,
        {
            left -= 1;
            free.push(left as PageId);
            assert(free@ =~= Seq::new(
                (n_pages - left) as nat,
                |i: int| (n_pages - 1 - i) as PageId,
            ));
        }
        let page_floats: usize = if kv_dim == 0 {
            0
        } else {
            proof {
                assert(n_layer * PAGE_TOKENS <= n_layer * PAGE_TOKENS * kv_dim) by (nonlinear_arith)
                    requires
                        kv_dim >= 1,
                        n_layer >= 0,
                ;
            }
            n_layer * PAGE_TOKENS * kv_dim
        };
        proof {
            if kv_dim == 0 {
                assert(n_layer * PAGE_TOKENS * kv_dim == 0) by (nonlinear_arith)
                    requires
                        kv_dim == 0,
                ;
            }
        }
        let pool = PagePool { n_pages, page_floats, free, in_use: vec![false; n_pages] };
        proof {
            assert forall|id: PageId| id < n_pages implies pool.free@.contains(id) by {
                assert(pool.free@[n_pages - 1 - id] == id);
            }
            assert(pool@.free =~= PoolView::fresh(n_pages as nat, page_floats as nat).free);
        }
        pool
    }

    /// Pages of the pool, free or not.
    pub fn n_pages(&self) -> (n: usize)
        requires
            self.wf(),
        ensures
            n == self@.n_pages,
    {
        self.n_pages
    }

    /// Pages that can be handed out.
    pub fn free_pages(&self) -> (n: usize)
        requires
            self.wf(),
        ensures
            n == self@.free.len(),
    {
        self.free.len()
    }

    /// Pages handed out.
    pub fn used_pages(&self) -> (n: usize)
        requires
            self.wf(),
        ensures
            n == self@.n_pages - self@.free.len(),
    {
        self.n_pages - self.free.len()
    }

    /// Floats in one page, across all layers, of K or of V.
    pub fn page_floats(&self) -> (n: usize)
        requires
            self.wf(),
        ensures
            n == self@.page_floats,
    {
        self.page_floats
    }

    /// Bytes one page occupies in each of the K and V pools.
    pub fn page_bytes(&self) -> (n: usize)
        requires
            self.wf(),
            self@.page_floats * 4 <= usize::MAX,
        ensures
            n == self@.page_floats * 4,
    {
        self.page_floats * 4
    }

    /// Bytes for both pools together.
    pub fn total_bytes(&self) -> (n: usize)
        requires
            self.wf(),
            self@.page_floats * 4 <= usize::MAX,
            2 * self@.n_pages * (self@.page_floats * 4) <= usize::MAX,
            2 * self@.n_pages <= usize::MAX,
        ensures
            n == 2 * self@.n_pages * (self@.page_floats * 4),
    {
        2 * self.n_pages * self.page_bytes()
    }

    /// Positions the pool can hold in total, ignoring per-sequence rounding.
    pub fn capacity_tokens(&self) -> (n: usize)
        requires
            self.wf(),
            self@.n_pages * PAGE_TOKENS <= usize::MAX,
        ensures
            n == self@.n_pages * PAGE_TOKENS,
    {
        self.n_pages * PAGE_TOKENS
    }

    /// Hand out the most recently freed page.
    pub fn alloc_page(&mut self) -> (r: Result<PageId, PageError>)
        requires
            old(self).wf(),
            old(self)@.free.len() == 0 ==> old(self)@.n_pages * PAGE_TOKENS <= usize::MAX,
        ensures
            final(self).wf(),
            r is Ok <==> old(self)@.free.len() > 0,
            match r {
                Ok(id) => {
                    &&& id == old(self)@.free.last()
                    &&& final(self)@ == old(self)@.after_alloc()
                    &&& final(self)@.live(id)
                    &&& !old(self)@.live(id)
                },
                Err(e) => {
                    &&& final(self)@ == old(self)@
                    &&& e == (PageError::Exhausted {
                        pages: old(self)@.n_pages as usize,
                        tokens: (old(self)@.n_pages * PAGE_TOKENS) as usize,
                    })
                },
            },
    {
        match self.free.pop() {
            Some(id) => {
                proof {
                    let f = old(self)@.free;
                    assert(f[f.len() - 1] == id);
                    assert(id < self.n_pages);
                }
                self.in_use.set(id as usize, true);
                proof {
                    let f = old(self)@.free;
                    let g = f.drop_last();
                    assert(self.free@ =~= g);
                    assert forall|x: PageId| g.contains(x) <==> f.contains(x) && x != id by {
                        if g.contains(x) {
                            let i = choose|i: int| 0 <= i < g.len() && g[i] == x;
                            assert(f[i] == x);
                        }
                        if f.contains(x) && x != id {
                            let i = choose|i: int| 0 <= i < f.len() && f[i] == x;
                            assert(g[i] == x);
                        }
                    }
                    assert forall|x: PageId| x < self.n_pages implies (
                    #[trigger] self.in_use@[x as int] <==> !self.free@.contains(x)) by {}
                }
                Ok(id)
            },
            None => Err(
                PageError::Exhausted { pages: self.n_pages, tokens: self.capacity_tokens() },
            ),
        }
    }

    /// Take a page back.
    pub fn release(&mut self, id: PageId) -> (r: Result<(), PageError>)
        requires
            old(self).wf(),
        ensures
            final(self).wf(),
            r is Ok <==> old(self)@.live(id),
            match r {
                Ok(()) => final(self)@ == old(self)@.after_release(id),
                Err(e) => {
                    &&& final(self)@ == old(self)@
                    &&& e == if id >= old(self)@.n_pages {
                        PageError::OutOfRange { id, pages: old(self)@.n_pages as usize }
                    } else {
                        PageError::DoubleFree { id }
                    }
                },
            },
    {
        let idx: usize = id as usize;
        if idx >= self.n_pages {
            return Err(PageError::OutOfRange { id, pages: self.n_pages });
        }
        if !self.in_use[idx] {
            return Err(PageError::DoubleFree { id });
        }
        self.in_use.set(idx, false);
        self.free.push(id);
        proof {
            let f = old(self)@.free;
            let g = f.push(id);
            assert(self.free@ =~= g);
            assert forall|x: PageId| g.contains(x) <==> f.contains(x) || x == id by {
                if f.contains(x) {
                    let i = choose|i: int| 0 <= i < f.len() && f[i] == x;
                    assert(g[i] == x);
                }
                if x == id {
                    assert(g[f.len() as int] == x);
                }
            }
            lemma_distinct_bounded(g, self.n_pages as nat);
            assert forall|x: PageId| x < self.n_pages implies (#[trigger] self.in_use@[x as int]
                <==> !self.free@.contains(x)) by {}
        }
        Ok(())
    }
}

/// Distinct ids below a bound are no more than the bound.
pub proof fn lemma_distinct_bounded(s: Seq<PageId>, n: nat)
    requires
        s.no_duplicates(),
        forall|i: int| 0 <= i < s.len() ==> (#[trigger] s[i]) < n,
    ensures
        s.len() <= n,
{
    let t = s.map_values(|p: PageId| p as int);
    assert(t.no_duplicates());
    t.unique_seq_to_set();
    let r = vstd::set_lib::set_int_range(0, n as int);
    vstd::set_lib::lemma_int_range(0, n as int);
    assert(t.to_set().subset_of(r)) by {
        assert forall|x: int| t.to_set().contains(x) implies r.contains(x) by {
            let i = choose|i: int| 0 <= i < t.len() && t[i] == x;
            assert(s[i] < n);
        }
    }
    vstd::set_lib::lemma_len_subset(t.to_set(), r);
}

/// What one sequence is: its page table and its committed length.
pub ghost struct SequenceView {
    pub pages: Seq<PageId>,
    pub len: nat,
}

impl SequenceView {
    /// Exactly the pages that the committed positions need.
    pub open spec fn wf(self) -> bool {
        self.pages.len() == math::ceil_div(self.len, PAGE_TOKENS as nat)
    }

    /// Where a position lives: its physical page and its slot there.
    pub open spec fn place(self, pos: nat) -> (PageId, nat) {
        (self.pages[(pos / PAGE_TOKENS as nat) as int], pos % PAGE_TOKENS as nat)
    }

    /// Pages that growing by `extra` positions takes.
    pub open spec fn pages_to_grow(self, extra: nat) -> nat {
        (math::ceil_div(self.len + extra, PAGE_TOKENS as nat) - self.pages.len()) as nat
    }

    /// The sequence after growing by `extra` positions out of `pool`.
    pub open spec fn grown(self, pool: PoolView, extra: nat) -> SequenceView {
        SequenceView {
            pages: self.pages + pool.next_pages(self.pages_to_grow(extra)),
            len: self.len + extra,
        }
    }

    /// Every page is handed out by `pool`, and none occurs twice.
    pub open spec fn owned_by(self, pool: PoolView) -> bool {
        &&& self.pages.no_duplicates()
        &&& forall|i: int| 0 <= i < self.pages.len() ==> pool.live(#[trigger] self.pages[i])
    }

    /// No page of one is a page of the other.
    pub open spec fn disjoint(self, other: SequenceView) -> bool {
        forall|i: int, j: int|
            0 <= i < self.pages.len() && 0 <= j < other.pages.len()
                ==> #[trigger] self.pages[i] != #[trigger] other.pages[j]
    }
}

/// Whether the `k`th page of a run can come back once those before it have.
pub open spec fn releasable(pool: PoolView, ids: Seq<PageId>, k: int) -> bool {
    pool.after_releases(ids.take(k)).live(ids[k])
}

/// What a pool answers to the release of a page that is not handed out.
pub open spec fn refusal(pool: PoolView, id: PageId) -> PageError {
    if id >= pool.n_pages {
        PageError::OutOfRange { id, pages: pool.n_pages as usize }
    } else {
        PageError::DoubleFree { id }
    }
}

/// The pages a sequence holds of a pool can all come back to it.
pub proof fn lemma_owned_is_releasable(pool: PoolView, a: SequenceView)
    requires
        a.owned_by(pool),
    ensures
        forall|k: int| 0 <= k < a.pages.len() ==> #[trigger] releasable(pool, a.pages, k),
{
    assert forall|k: int| 0 <= k < a.pages.len() implies #[trigger] releasable(pool, a.pages, k) by {
        let now = pool.after_releases(a.pages.take(k));
        assert(pool.live(a.pages[k]));
        if now.free.contains(a.pages[k]) {
            let j = choose|j: int| 0 <= j < now.free.len() && now.free[j] == a.pages[k];
            if j < pool.free.len() {
                assert(pool.free[j] == a.pages[k]);
            } else {
                assert(a.pages[j - pool.free.len()] == a.pages[k]);
            }
        }
    }
}

/// One sequence's logical-to-physical mapping.
///
/// `len` is the number of committed positions. Pages are allocated only as the
/// sequence actually grows.
#[derive(Debug)]
pub struct SequencePages {
    pages: Vec<PageId>,
    len: usize,
}

impl View for SequencePages {
    type V = SequenceView;

    closed spec fn view(&self) -> SequenceView {
        SequenceView { pages: self.pages@, len: self.len as nat }
    }
}

impl Default for SequencePages {
    fn default() -> (s: Self)
        ensures
            s@ == (SequenceView { pages: Seq::empty(), len: 0 }),
            s@.wf(),
    {
        SequencePages { pages: Vec::new(), len: 0 }
    }
}

impl Clone for SequencePages {
    fn clone(&self) -> (s: Self)
        ensures
            s@ == self@,
    {
        let pages = self.pages.clone();
        assert(pages@ =~= self.pages@);
        SequencePages { pages, len: self.len }
    }
}

impl SequencePages {
    /// An empty sequence.
    pub fn new() -> (s: Self)
        ensures
            s@ == (SequenceView { pages: Seq::empty(), len: 0 }),
            s@.wf(),
    {
        SequencePages { pages: Vec::new(), len: 0 }
    }

    /// Committed positions.
    pub fn len(&self) -> (n: usize)
        ensures
            n == self@.len,
    {
        self.len
    }

    /// Whether nothing is committed.
    pub fn is_empty(&self) -> (b: bool)
        ensures
            b == (self@.len == 0),
    {
        self.len == 0
    }

    /// The page table.
    pub fn pages(&self) -> (p: &[PageId])
        ensures
            p@ == self@.pages,
    {
        self.pages.as_slice()
    }

    /// Pages held.
    pub fn n_pages(&self) -> (n: usize)
        ensures
            n == self@.pages.len(),
    {
        self.pages.len()
    }

    /// Slots allocated but not yet occupied: the internal fragmentation that
    /// the page size buys.
    pub fn wasted_slots(&self) -> (n: usize)
        requires
            self@.wf(),
            self@.pages.len() * PAGE_TOKENS <= usize::MAX,
        ensures
            n == self@.pages.len() * PAGE_TOKENS - self@.len,
            n < PAGE_TOKENS,
    {
        proof {
            math::lemma_ceil_div(self@.len, PAGE_TOKENS as nat);
        }
        self.pages.len() * PAGE_TOKENS - self.len
    }

    /// Logical position to (physical page, slot within page).
    pub fn translate(&self, pos: usize) -> (r: Result<(PageId, usize), PageError>)
        requires
            self@.wf(),
        ensures
            r is Ok <==> pos < self@.len,
            match r {
                Ok(place) => place.0 == self@.place(pos as nat).0 && place.1 == self@.place(
                    pos as nat,
                ).1,
                Err(e) => e == (PageError::PastEnd { pos, len: self@.len as usize }),
            },
    {
        if pos >= self.len {
            return Err(PageError::PastEnd { pos, len: self.len });
        }
        proof {
            math::lemma_ceil_div(self@.len, PAGE_TOKENS as nat);
        }
        Ok((self.pages[pos / PAGE_TOKENS], pos % PAGE_TOKENS))
    }

    /// Make room for `extra` more positions and commit them.
    ///
    /// If the pool runs out partway, every page taken by *this* call is
    /// returned before reporting the error, last taken first, so a failed grow
    /// leaves the pool exactly as it was.
    pub fn grow(&mut self, pool: &mut PagePool, extra: usize) -> (r: Result<(), PageError>)
        requires
            old(self)@.wf(),
            old(pool).wf(),
            old(self)@.len + extra <= usize::MAX,
            old(self)@.pages_to_grow(extra as nat) > old(pool)@.free.len() ==> old(pool)@.n_pages
                * PAGE_TOKENS <= usize::MAX,
        ensures
            final(pool).wf(),
            final(self)@.wf(),
            r is Ok <==> old(self)@.pages_to_grow(extra as nat) <= old(pool)@.free.len(),
            match r {
                Ok(()) => {
                    &&& final(self)@ == old(self)@.grown(old(pool)@, extra as nat)
                    &&& final(pool)@ == old(pool)@.after_allocs(
                        old(self)@.pages_to_grow(extra as nat),
                    )
                },
                Err(e) => {
                    &&& final(self)@ == old(self)@
                    &&& final(pool)@ == old(pool)@
                    &&& e == (PageError::Exhausted {
                        pages: old(pool)@.n_pages as usize,
                        tokens: (old(pool)@.n_pages * PAGE_TOKENS) as usize,
                    })
                },
            },
    {
        let target: usize = self.len + extra;
        let needed: usize = math::div_ceil(target, PAGE_TOKENS);
        let ghost before = pool@;
        let ghost free = pool@.free;
        let ghost n = self@.pages_to_grow(extra as nat);
        proof {
            math::lemma_ceil_div(self@.len, PAGE_TOKENS as nat);
            pool.lemma_wf();
            assert(free.take(free.len() as int) =~= free);
            assert(before.next_pages(0) =~= Seq::empty());
        }
        let mut taken: Vec<PageId> = Vec::new();
        while self.pages.len() + taken.len() < needed
            invariant
                pool.wf(),
                before.wf(),
                before == old(pool)@,
                before.free == free,
                n > free.len() ==> before.n_pages * PAGE_TOKENS <= usize::MAX,
                self@ == old(self)@,
                self@.wf(),
                target == self.len + extra,
                needed == math::ceil_div(target as nat, PAGE_TOKENS as nat),
                n == needed - self.pages@.len(),
                n == old(self)@.pages_to_grow(extra as nat),
                taken@.len() <= n,
                needed <= usize::MAX,
                taken@.len() <= free.len(),
                taken@ == before.next_pages(taken@.len()),
                pool@ == before.after_allocs(taken@.len()),
            decreases needed - taken@.len(),
        {
            let ghost k = taken@.len();
            match pool.alloc_page() {
                Ok(id) => {
                    taken.push(id);
                    proof {
                        assert(taken@ =~= before.next_pages(k + 1));
                        assert(free.take(free.len() - k).drop_last() =~= free.take(
                            free.len() - (k + 1),
                        ));
                    }
                },
                Err(e) => {
                    let mut left: usize = taken.len();
                    while left > 0
                        invariant
                            pool.wf(),
                            before.wf(),
                            before.free == free,
                            left <= taken@.len() <= free.len(),
                            taken@ == before.next_pages(taken@.len()),
                            pool@ == before.after_allocs(left as nat),
                        decreases left,
                    {
                        left -= 1;
                        let id: PageId = taken[left];
                        proof {
                            let at = free.len() - 1 - left;
                            let rest = free.take(free.len() - (left + 1));
                            assert(id == free[at]);
                            assert(id < before.n_pages);
                            assert(!rest.contains(id)) by {
                                if rest.contains(id) {
                                    let j = choose|j: int| 0 <= j < rest.len() && rest[j] == id;
                                    assert(free[j] == free[at]);
                                }
                            }
                            assert(rest.push(id) =~= free.take(free.len() - left));
                        }
                        let back = pool.release(id);
                        assert(back is Ok);
                    }
                    proof {
                        assert(free.take(free.len() as int) =~= free);
                    }
                    return Err(e);
                },
            }
        }
        self.pages.append(&mut taken);
        self.len = target;
        Ok(())
    }

    /// Return every page to the pool and reset to empty, so the same value can
    /// serve the next request.
    ///
    /// A page that the pool refuses stops the release: the pages before it have
    /// come back, the table is empty, and the length stays.
    pub fn release(&mut self, pool: &mut PagePool) -> (r: Result<(), PageError>)
        requires
            old(pool).wf(),
        ensures
            final(pool).wf(),
            final(self)@.pages == Seq::<PageId>::empty(),
            r is Ok <==> forall|k: int|
                0 <= k < old(self)@.pages.len() ==> #[trigger] releasable(
                    old(pool)@,
                    old(self)@.pages,
                    k,
                ),
            match r {
                Ok(()) => {
                    &&& final(self)@.len == 0
                    &&& final(self)@.wf()
                    &&& final(pool)@ == old(pool)@.after_releases(old(self)@.pages)
                },
                Err(e) => {
                    &&& final(self)@.len == old(self)@.len
                    &&& exists|k: int|
                        #![trigger releasable(old(pool)@, old(self)@.pages, k)]
                        {
                            &&& 0 <= k < old(self)@.pages.len()
                            &&& !releasable(old(pool)@, old(self)@.pages, k)
                            &&& forall|j: int|
                                0 <= j < k ==> #[trigger] releasable(
                                    old(pool)@,
                                    old(self)@.pages,
                                    j,
                                )
                            &&& final(pool)@ == old(pool)@.after_releases(
                                old(self)@.pages.take(k),
                            )
                            &&& e == refusal(final(pool)@, old(self)@.pages[k])
                        }
                },
            },
    {
        let ghost ids = self.pages@;
        let ghost before = pool@;
        let mut i: usize = 0;
        proof {
            assert(before.free + ids.take(0) =~= before.free);
        }
        while i < self.pages.len()
            invariant
                pool.wf(),
                before == old(pool)@,
                self@ == old(self)@,
                ids == self.pages@,
                ids == old(self)@.pages,
                i <= ids.len(),
                pool@ == before.after_releases(ids.take(i as int)),
                forall|j: int| 0 <= j < i ==> #[trigger] releasable(before, ids, j),
            decreases ids.len() - i,
        {
            let id: PageId = self.pages[i];
            match pool.release(id) {
                Ok(()) => {
                    proof {
                        assert(releasable(before, ids, i as int));
                        assert((before.free + ids.take(i as int)).push(id) =~= before.free
                            + ids.take(i + 1));
                    }
                },
                Err(e) => {
                    proof {
                        assert(!releasable(before, ids, i as int));
                    }
                    self.pages.clear();
                    return Err(e);
                },
            }
            i += 1;
        }
        proof {
            assert(ids.take(i as int) =~= ids);
        }
        self.pages.clear();
        self.len = 0;
        Ok(())
    }

    /// Page table padded to `stride` entries, for upload to the device.
    ///
    /// Unused entries are filled with 0: a deterministic filler makes a kernel
    /// that reads them by mistake reproducible.
    pub fn table_padded(&self, stride: usize) -> (table: Vec<i32>)
        requires
            self@.pages.len() <= stride,
        ensures
            table@ == padded(self@.pages, stride as nat),
    {
        let mut out: Vec<i32> = vec![0i32; stride];
        let mut i: usize = 0;
        while i < self.pages.len()
            invariant
                i <= self.pages@.len() <= stride,
                self@.pages == self.pages@,
                out@.len() == stride,
                forall|k: int| 0 <= k < i ==> #[trigger] out@[k] == self.pages@[k] as i32,
                forall|k: int| i <= k < stride ==> #[trigger] out@[k] == 0,
            decreases self.pages@.len() - i,
        {
            out.set(i, #[verifier::truncate] (self.pages[i] as i32));
            i += 1;
        }
        assert(out@ =~= padded(self@.pages, stride as nat));
        out
    }
}

/// A page table of `stride` entries, zero where the sequence has no page.
pub open spec fn padded(pages: Seq<PageId>, stride: nat) -> Seq<i32> {
    Seq::new(
        stride,
        |i: int|
            if i < pages.len() {
                pages[i] as i32
            } else {
                0i32
            },
    )
}

/// Growing one sequence never hands it a page that another one holds: both
/// keep owning their pages, and they stay disjoint.
pub proof fn law_growth_never_aliases(
    pool: PoolView,
    a: SequenceView,
    b: SequenceView,
    extra: nat,
)
    requires
        pool.wf(),
        a.owned_by(pool),
        b.owned_by(pool),
        a.disjoint(b),
        a.pages_to_grow(extra) <= pool.free.len(),
    ensures
        pool.after_allocs(a.pages_to_grow(extra)).wf(),
        a.grown(pool, extra).owned_by(pool.after_allocs(a.pages_to_grow(extra))),
        b.owned_by(pool.after_allocs(a.pages_to_grow(extra))),
        a.grown(pool, extra).disjoint(b),
{
    let n = a.pages_to_grow(extra);
    let next = pool.next_pages(n);
    let after = pool.after_allocs(n);
    let grown = a.grown(pool, extra);
    let free = pool.free;
    assert forall|x: PageId| #[trigger] after.free.contains(x) implies free.contains(x) by {
        let i = choose|i: int| 0 <= i < after.free.len() && after.free[i] == x;
        assert(free[i] == x);
    }
    assert forall|i: int| 0 <= i < n implies free.contains(#[trigger] next[i])
        && !after.free.contains(next[i]) && next[i] < pool.n_pages by {
        let at = free.len() - 1 - i;
        assert(next[i] == free[at]);
        if after.free.contains(next[i]) {
            let j = choose|j: int| 0 <= j < after.free.len() && after.free[j] == next[i];
            assert(free[j] == free[at]);
        }
    }
    assert forall|i: int| 0 <= i < grown.pages.len() implies after.live(
        #[trigger] grown.pages[i],
    ) by {
        if i < a.pages.len() {
            assert(grown.pages[i] == a.pages[i]);
            assert(pool.live(a.pages[i]));
        } else {
            assert(grown.pages[i] == next[i - a.pages.len()]);
        }
    }
    assert forall|i: int, j: int|
        0 <= i < grown.pages.len() && 0 <= j < grown.pages.len() && i
            != j implies grown.pages[i] != grown.pages[j] by {
        if i < a.pages.len() {
            assert(pool.live(a.pages[i]));
        }
        if j < a.pages.len() {
            assert(pool.live(a.pages[j]));
        }
        if i >= a.pages.len() && j >= a.pages.len() {
            let x = i - a.pages.len();
            let y = j - a.pages.len();
            assert(next[x] == free[free.len() - 1 - x]);
            assert(next[y] == free[free.len() - 1 - y]);
        } else if i >= a.pages.len() {
            assert(free.contains(next[i - a.pages.len()]));
        } else if j >= a.pages.len() {
            assert(free.contains(next[j - a.pages.len()]));
        }
    }
    assert forall|j: int| 0 <= j < b.pages.len() implies after.live(#[trigger] b.pages[j]) by {
        assert(pool.live(b.pages[j]));
    }
    assert forall|i: int, j: int|
        0 <= i < grown.pages.len() && 0 <= j
            < b.pages.len() implies #[trigger] grown.pages[i] != #[trigger] b.pages[j] by {
        assert(pool.live(b.pages[j]));
        if i < a.pages.len() {
            assert(a.pages[i] != b.pages[j]);
        } else {
            assert(free.contains(next[i - a.pages.len()]));
        }
    }
}

/// Releasing a sequence that owns its pages succeeds, frees each of them, and
/// leaves every other sequence's pages handed out.
pub proof fn law_release_disturbs_nobody(pool: PoolView, a: SequenceView, b: SequenceView)
    requires
        pool.wf(),
        a.owned_by(pool),
        b.owned_by(pool),
        a.disjoint(b),
    ensures
        forall|k: int| 0 <= k < a.pages.len() ==> #[trigger] releasable(pool, a.pages, k),
        pool.after_releases(a.pages).wf(),
        b.owned_by(pool.after_releases(a.pages)),
        forall|i: int|
            0 <= i < a.pages.len() ==> !pool.after_releases(a.pages).live(#[trigger] a.pages[i]),
{
    let after = pool.after_releases(a.pages);
    assert forall|k: int| 0 <= k < a.pages.len() implies #[trigger] releasable(
        pool,
        a.pages,
        k,
    ) by {
        assert(pool.live(a.pages[k]));
        let f = pool.free + a.pages.take(k);
        if f.contains(a.pages[k]) {
            let i = choose|i: int| 0 <= i < f.len() && f[i] == a.pages[k];
            if i < pool.free.len() {
                assert(pool.free[i] == a.pages[k]);
            } else {
                assert(a.pages[i - pool.free.len()] == a.pages[k]);
            }
        }
    }
    assert forall|i: int, j: int|
        0 <= i < after.free.len() && 0 <= j < after.free.len() && i != j implies after.free[i]
        != after.free[j] by {
        let n = pool.free.len();
        if i >= n {
            assert(pool.live(a.pages[i - n]));
        }
        if j >= n {
            assert(pool.live(a.pages[j - n]));
        }
        if i < n && j >= n {
            assert(pool.free[i] == after.free[i]);
            assert(pool.free.contains(after.free[i]));
        }
        if j < n && i >= n {
            assert(pool.free[j] == after.free[j]);
            assert(pool.free.contains(after.free[j]));
        }
    }
    assert forall|i: int| 0 <= i < after.free.len() implies (#[trigger] after.free[i])
        < after.n_pages by {
        if i < pool.free.len() {
            assert(after.free[i] == pool.free[i]);
        } else {
            assert(pool.live(a.pages[i - pool.free.len()]));
        }
    }
    lemma_distinct_bounded(after.free, after.n_pages);
    assert forall|j: int| 0 <= j < b.pages.len() implies after.live(#[trigger] b.pages[j]) by {
        assert(pool.live(b.pages[j]));
        if after.free.contains(b.pages[j]) {
            let i = choose|i: int| 0 <= i < after.free.len() && after.free[i] == b.pages[j];
            if i < pool.free.len() {
                assert(pool.free[i] == b.pages[j]);
            } else {
                assert(a.pages[i - pool.free.len()] == b.pages[j]);
            }
        }
    }
    assert forall|i: int| 0 <= i < a.pages.len() implies !after.live(#[trigger] a.pages[i]) by {
        assert(after.free[pool.free.len() + i] == a.pages[i]);
    }
}

/// A page is either free or held: growing moves exactly as many pages out of
/// the free list as the sequence gains, and releasing moves them back.
pub proof fn law_pages_are_conserved(pool: PoolView, a: SequenceView, extra: nat)
    requires
        pool.wf(),
        a.wf(),
        a.pages_to_grow(extra) <= pool.free.len(),
    ensures
        a.grown(pool, extra).wf(),
        pool.free.len() - pool.after_allocs(a.pages_to_grow(extra)).free.len() == a.grown(
            pool,
            extra,
        ).pages.len() - a.pages.len(),
        pool.after_releases(a.pages).free.len() - pool.free.len() == a.pages.len(),
        a.grown(pool, extra).pages.len() * PAGE_TOKENS < a.len + extra + PAGE_TOKENS,
        a.grown(pool, extra).pages.len() * PAGE_TOKENS >= a.len + extra,
{
    math::lemma_ceil_div(a.len, PAGE_TOKENS as nat);
    math::lemma_ceil_div(a.len + extra, PAGE_TOKENS as nat);
}

/// Growing an empty sequence and releasing it again gives back exactly the
/// pages that were free before.
pub proof fn law_release_undoes_grow(pool: PoolView, extra: nat)
    requires
        pool.wf(),
        ({
            let empty = SequenceView { pages: Seq::empty(), len: 0 };
            empty.pages_to_grow(extra) <= pool.free.len()
        }),
    ensures
        ({
            let empty = SequenceView { pages: Seq::empty(), len: 0 };
            let n = empty.pages_to_grow(extra);
            let held = empty.grown(pool, extra);
            let back = pool.after_allocs(n).after_releases(held.pages);
            &&& forall|k: int|
                0 <= k < held.pages.len() ==> #[trigger] releasable(
                    pool.after_allocs(n),
                    held.pages,
                    k,
                )
            &&& back.n_pages == pool.n_pages
            &&& back.free.len() == pool.free.len()
            &&& back.free.to_multiset() == pool.free.to_multiset()
        }),
{
    let empty = SequenceView { pages: Seq::empty(), len: 0 };
    let n = empty.pages_to_grow(extra);
    let held = empty.grown(pool, extra);
    let mid = pool.after_allocs(n);
    let back = mid.after_releases(held.pages);
    law_growth_never_aliases(pool, empty, empty, extra);
    assert(empty.disjoint(held));
    law_release_disturbs_nobody(mid, held, empty);
    let top = pool.free.skip(pool.free.len() - n);
    assert(held.pages =~= top.reverse());
    assert(pool.free =~= mid.free + top);
    vstd::seq_lib::lemma_multiset_commutative(mid.free, top);
    vstd::seq_lib::lemma_multiset_commutative(mid.free, held.pages);
    lemma_reverse_multiset(top);
}

proof fn lemma_reverse_multiset(s: Seq<PageId>)
    ensures
        s.reverse().to_multiset() == s.to_multiset(),
    decreases s.len(),
{
    if s.len() == 0 {
        assert(s.reverse() =~= s);
    } else {
        let rest = s.drop_last();
        lemma_reverse_multiset(rest);
        assert(s.reverse() =~= seq![s.last()] + rest.reverse());
        assert(s =~= rest + seq![s.last()]);
        vstd::seq_lib::lemma_multiset_commutative(seq![s.last()], rest.reverse());
        vstd::seq_lib::lemma_multiset_commutative(rest, seq![s.last()]);
    }
}

/// Two positions of one sequence never share a slot of a page.
pub proof fn law_positions_have_their_own_slot(a: SequenceView, p: nat, q: nat)
    requires
        a.wf(),
        a.pages.no_duplicates(),
        p < a.len,
        q < a.len,
        p != q,
    ensures
        a.place(p) != a.place(q),
        a.place(p).1 < PAGE_TOKENS,
{
    math::lemma_ceil_div(a.len, PAGE_TOKENS as nat);
    let i = (p / PAGE_TOKENS as nat) as int;
    let j = (q / PAGE_TOKENS as nat) as int;
    assert(i < a.pages.len() && j < a.pages.len());
    if i != j {
        assert(a.pages[i] != a.pages[j]);
    }
}

/// Two sequences without a common page never share a slot.
pub proof fn law_sequences_have_their_own_slots(a: SequenceView, b: SequenceView, p: nat, q: nat)
    requires
        a.wf(),
        b.wf(),
        a.disjoint(b),
        p < a.len,
        q < b.len,
    ensures
        a.place(p).0 != b.place(q).0,
{
    math::lemma_ceil_div(a.len, PAGE_TOKENS as nat);
    math::lemma_ceil_div(b.len, PAGE_TOKENS as nat);
    let i = (p / PAGE_TOKENS as nat) as int;
    let j = (q / PAGE_TOKENS as nat) as int;
    assert(a.pages[i] != b.pages[j]);
}

/// First float of a position's row in a layer, in the K or the V pool.
pub open spec fn offset(page: nat, layer: nat, slot: nat, n_layer: nat, kv_dim: nat) -> nat {
    page * n_layer * PAGE_TOKENS as nat * kv_dim + layer * PAGE_TOKENS as nat * kv_dim + slot
        * kv_dim
}

proof fn lemma_offset_row(page: nat, layer: nat, slot: nat, n_layer: nat, kv_dim: nat)
    ensures
        offset(page, layer, slot, n_layer, kv_dim) == ((page * n_layer + layer) * 16 + slot)
            * kv_dim,
{
    assert(page * n_layer * 16 * kv_dim + layer * 16 * kv_dim + slot * kv_dim == ((page * n_layer
        + layer) * 16 + slot) * kv_dim) by (nonlinear_arith);
}

/// Rows of different (page, layer, slot) triples do not overlap, and every row
/// lies inside the pool.
pub proof fn law_layout_rows_are_disjoint(
    n_pages: nat,
    n_layer: nat,
    kv_dim: nat,
    x: (nat, nat, nat),
    y: (nat, nat, nat),
)
    requires
        x.0 < n_pages && x.1 < n_layer && x.2 < PAGE_TOKENS,
        y.0 < n_pages && y.1 < n_layer && y.2 < PAGE_TOKENS,
        x != y,
    ensures
        offset(x.0, x.1, x.2, n_layer, kv_dim) + kv_dim <= n_pages * (n_layer
            * PAGE_TOKENS as nat * kv_dim),
        ({
            let a = offset(x.0, x.1, x.2, n_layer, kv_dim);
            let b = offset(y.0, y.1, y.2, n_layer, kv_dim);
            a + kv_dim <= b || b + kv_dim <= a
        }),
{
    lemma_offset_row(x.0, x.1, x.2, n_layer, kv_dim);
    lemma_offset_row(y.0, y.1, y.2, n_layer, kv_dim);
    let i = (x.0 * n_layer + x.1) * 16 + x.2;
    let j = (y.0 * n_layer + y.1) * 16 + y.2;
    if x.0 < y.0 {
        assert(x.0 * n_layer + n_layer <= y.0 * n_layer) by (nonlinear_arith)
            requires
                x.0 + 1 <= y.0,
        ;
    } else if y.0 < x.0 {
        assert(y.0 * n_layer + n_layer <= x.0 * n_layer) by (nonlinear_arith)
            requires
                y.0 + 1 <= x.0,
        ;
    }
    assert(i != j);
    if i < j {
        assert(i * kv_dim + kv_dim <= j * kv_dim) by (nonlinear_arith)
            requires
                i + 1 <= j,
        ;
    } else {
        assert(j * kv_dim + kv_dim <= i * kv_dim) by (nonlinear_arith)
            requires
                j + 1 <= i,
        ;
    }
    assert(x.0 * n_layer + n_layer <= n_pages * n_layer) by (nonlinear_arith)
        requires
            x.0 + 1 <= n_pages,
    ;
    let top = n_pages * n_layer * 16;
    assert(i + 1 <= top);
    assert(i * kv_dim + kv_dim <= top * kv_dim) by (nonlinear_arith)
        requires
            i + 1 <= top,
    ;
    assert(top * kv_dim == n_pages * (n_layer * 16 * kv_dim)) by (nonlinear_arith)
        requires
            top == n_pages * n_layer * 16,
    ;
}

/// The cache rows of two positions, of one sequence or of two without a common
/// page, never overlap in any pair of layers.
pub proof fn law_cache_rows_never_overlap(
    pool: PoolView,
    a: SequenceView,
    b: SequenceView,
    p: nat,
    q: nat,
    la: nat,
    lb: nat,
    n_layer: nat,
    kv_dim: nat,
)
    requires
        pool.wf(),
        a.wf() && a.owned_by(pool),
        b.wf() && b.owned_by(pool),
        p < a.len && q < b.len,
        la < n_layer && lb < n_layer,
        a.disjoint(b) || (a == b && (p != q || la != lb)),
    ensures
        ({
            let x = offset(a.place(p).0 as nat, la, a.place(p).1, n_layer, kv_dim);
            let y = offset(b.place(q).0 as nat, lb, b.place(q).1, n_layer, kv_dim);
            x + kv_dim <= y || y + kv_dim <= x
        }),
{
    math::lemma_ceil_div(a.len, PAGE_TOKENS as nat);
    math::lemma_ceil_div(b.len, PAGE_TOKENS as nat);
    assert(pool.live(a.pages[(p / PAGE_TOKENS as nat) as int]));
    assert(pool.live(b.pages[(q / PAGE_TOKENS as nat) as int]));
    if a.disjoint(b) {
        law_sequences_have_their_own_slots(a, b, p, q);
    } else if p != q {
        law_positions_have_their_own_slot(a, p, q);
    }
    law_layout_rows_are_disjoint(
        pool.n_pages,
        n_layer,
        kv_dim,
        (a.place(p).0 as nat, la, a.place(p).1),
        (b.place(q).0 as nat, lb, b.place(q).1),
    );
}

/// The table that is uploaded for a sequence leads to every position of it: its
/// entry for the position's run of a page is the page that holds the position,
/// and the entries past the sequence's pages are zero.
pub proof fn law_table_finds_every_position(a: SequenceView, stride: nat, pos: nat)
    requires
        a.wf(),
        a.pages.len() <= stride,
        pos < a.len,
        forall|i: int| 0 <= i < a.pages.len() ==> #[trigger] a.pages[i] <= i32::MAX,
    ensures
        padded(a.pages, stride).len() == stride,
        padded(a.pages, stride)[pos as int / 16] == a.place(pos).0,
        pos == 16 * (pos / 16) + a.place(pos).1,
        forall|j: int| a.len <= 16 * j && j < stride ==> #[trigger] padded(a.pages, stride)[j] == 0,
{
    math::lemma_ceil_div(a.len, PAGE_TOKENS as nat);
    let i = pos as int / 16;
    assert(i < a.pages.len());
    assert(a.pages[i] <= i32::MAX);
}

} // verus!
