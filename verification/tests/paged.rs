use llm_engine::paged::{PageError, PageId, PagePool, SequencePages, PAGE_TOKENS};
use std::collections::HashSet;

const N_LAYER: usize = 12;
const KV_DIM: usize = 192;

fn pool(n_pages: usize) -> PagePool {
    PagePool::new(n_pages, N_LAYER, KV_DIM)
}

#[test]
fn allocates_in_order_and_tracks_counts() {
    let mut p = pool(4);
    assert_eq!(p.free_pages(), 4);
    assert_eq!(p.used_pages(), 0);
    assert_eq!(p.alloc_page().unwrap(), 0);
    assert_eq!(p.alloc_page().unwrap(), 1);
    assert_eq!(p.free_pages(), 2);
    assert_eq!(p.used_pages(), 2);
}

#[test]
fn page_geometry_matches_layout() {
    let p = pool(64);
    assert_eq!(p.page_floats(), N_LAYER * PAGE_TOKENS * KV_DIM);
    assert_eq!(p.capacity_tokens(), 64 * PAGE_TOKENS);
    // Both pools together must equal the contiguous cache they replace.
    assert_eq!(p.total_bytes(), 2 * N_LAYER * 1024 * KV_DIM * 4);
}

#[test]
fn grows_lazily_one_page_at_a_time() {
    let mut pl = pool(8);
    let mut s = SequencePages::new();
    s.grow(&mut pl, 1).unwrap();
    assert_eq!(s.n_pages(), 1);
    assert_eq!(pl.used_pages(), 1);

    // Filling the rest of the first page must not take a second.
    s.grow(&mut pl, PAGE_TOKENS - 1).unwrap();
    assert_eq!(s.len(), PAGE_TOKENS);
    assert_eq!(s.n_pages(), 1);
    assert_eq!(s.wasted_slots(), 0);

    // One more token crosses the boundary.
    s.grow(&mut pl, 1).unwrap();
    assert_eq!(s.n_pages(), 2);
    assert_eq!(s.wasted_slots(), PAGE_TOKENS - 1);
}

#[test]
fn translation_crosses_page_boundaries() {
    let mut pl = pool(8);
    let mut s = SequencePages::new();
    s.grow(&mut pl, PAGE_TOKENS * 2 + 3).unwrap();
    assert_eq!(s.n_pages(), 3);

    assert_eq!(s.translate(0).unwrap(), (s.pages()[0], 0));
    assert_eq!(s.translate(PAGE_TOKENS - 1).unwrap(), (s.pages()[0], PAGE_TOKENS - 1));
    assert_eq!(s.translate(PAGE_TOKENS).unwrap(), (s.pages()[1], 0));
    assert_eq!(s.translate(PAGE_TOKENS + 1).unwrap(), (s.pages()[1], 1));
    assert_eq!(s.translate(2 * PAGE_TOKENS).unwrap(), (s.pages()[2], 0));
}

#[test]
fn translation_rejects_positions_past_the_end() {
    let mut pl = pool(8);
    let mut s = SequencePages::new();
    s.grow(&mut pl, 5).unwrap();
    assert!(s.translate(5).is_err());
    assert!(s.translate(usize::MAX).is_err());
}

#[test]
fn sequences_never_share_a_physical_page() {
    let mut pl = pool(16);
    let mut a = SequencePages::new();
    let mut b = SequencePages::new();
    let mut c = SequencePages::new();
    // Interleave growth so the allocation order is not trivially blocked.
    for _ in 0..3 {
        a.grow(&mut pl, PAGE_TOKENS).unwrap();
        b.grow(&mut pl, PAGE_TOKENS).unwrap();
        c.grow(&mut pl, PAGE_TOKENS).unwrap();
    }
    let mut all: Vec<PageId> = Vec::new();
    all.extend(a.pages());
    all.extend(b.pages());
    all.extend(c.pages());
    let unique: HashSet<PageId> = all.iter().copied().collect();
    assert_eq!(all.len(), 9);
    assert_eq!(unique.len(), 9, "a physical page was handed to two sequences");
}

#[test]
fn release_returns_pages_and_they_are_reused() {
    let mut pl = pool(4);
    let mut s = SequencePages::new();
    s.grow(&mut pl, PAGE_TOKENS * 3).unwrap();
    assert_eq!(pl.free_pages(), 1);

    s.release(&mut pl).unwrap();
    assert_eq!(pl.free_pages(), 4);
    assert_eq!(s.len(), 0);
    assert_eq!(s.n_pages(), 0);

    // The pool must hand the same pages out again rather than growing.
    let mut t = SequencePages::new();
    t.grow(&mut pl, PAGE_TOKENS * 4).unwrap();
    assert_eq!(t.n_pages(), 4);
    assert_eq!(pl.free_pages(), 0);
}

#[test]
fn exhaustion_is_an_explicit_error() {
    let mut pl = pool(2);
    let mut s = SequencePages::new();
    let err = s.grow(&mut pl, PAGE_TOKENS * 3).unwrap_err();
    assert!(err.message().contains("exhausted"), "got: {}", err.message());
}

#[test]
fn a_failed_grow_leaves_the_pool_untouched() {
    let mut pl = pool(3);
    let mut s = SequencePages::new();
    s.grow(&mut pl, PAGE_TOKENS).unwrap();
    assert_eq!(pl.used_pages(), 1);

    // Asks for four more pages when only two remain.
    assert!(s.grow(&mut pl, PAGE_TOKENS * 4).is_err());
    assert_eq!(pl.used_pages(), 1, "failed grow leaked pages");
    assert_eq!(pl.free_pages(), 2);
    assert_eq!(s.len(), PAGE_TOKENS, "failed grow changed the sequence");
    assert_eq!(s.n_pages(), 1);
}

#[test]
fn double_free_is_rejected() {
    let mut pl = pool(2);
    let id = pl.alloc_page().unwrap();
    pl.release(id).unwrap();
    let err = pl.release(id).unwrap_err();
    assert!(err.message().contains("double free"), "got: {}", err.message());
}

#[test]
fn releasing_an_out_of_range_page_is_rejected() {
    let mut pl = pool(2);
    assert!(pl.release(7).is_err());
}

#[test]
fn reset_then_reuse_gives_a_clean_sequence() {
    let mut pl = pool(8);
    let mut s = SequencePages::new();
    s.grow(&mut pl, 40).unwrap();
    s.release(&mut pl).unwrap();
    assert!(s.translate(0).is_err(), "released sequence still translates");
    s.grow(&mut pl, 3).unwrap();
    assert_eq!(s.len(), 3);
    assert_eq!(s.n_pages(), 1);
}

#[test]
fn padded_table_is_deterministic() {
    let mut pl = pool(8);
    let mut s = SequencePages::new();
    s.grow(&mut pl, PAGE_TOKENS + 1).unwrap();
    let t = s.table_padded(6);
    assert_eq!(t.len(), 6);
    assert_eq!(t[0], s.pages()[0] as i32);
    assert_eq!(t[1], s.pages()[1] as i32);
    assert_eq!(&t[2..], &[0, 0, 0, 0]);
}

#[test]
fn admission_after_reclaim_reuses_the_freed_pages() {
    // The scheduler's core loop: the pool is full, a request retires, and
    // the next one is admitted into exactly what it gave back.
    let mut pl = pool(4);
    let mut a = SequencePages::new();
    let mut b = SequencePages::new();
    a.grow(&mut pl, PAGE_TOKENS * 2).unwrap();
    b.grow(&mut pl, PAGE_TOKENS * 2).unwrap();
    assert_eq!(pl.free_pages(), 0);

    let mut waiting = SequencePages::new();
    assert!(waiting.grow(&mut pl, PAGE_TOKENS).is_err(), "admitted with no pages");

    a.release(&mut pl).unwrap();
    waiting.grow(&mut pl, PAGE_TOKENS * 2).unwrap();
    assert_eq!(pl.free_pages(), 0);
    assert_eq!(waiting.n_pages(), 2);
    assert_eq!(b.len(), PAGE_TOKENS * 2, "retirement disturbed a live sequence");
}

#[test]
fn capacity_accounting_adds_up() {
    let mut pl = pool(10);
    let mut seqs: Vec<SequencePages> = Vec::new();
    for len in [1usize, 17, 33] {
        let mut s = SequencePages::new();
        s.grow(&mut pl, len).unwrap();
        seqs.push(s);
    }
    let held: usize = seqs.iter().map(|s| s.n_pages()).sum();
    let wasted: usize = seqs.iter().map(|s| s.wasted_slots()).sum();
    let live: usize = seqs.iter().map(|s| s.len()).sum();

    assert_eq!(held, pl.used_pages());
    assert_eq!(held + pl.free_pages(), pl.n_pages());
    // Every allocated slot is either occupied or counted as waste.
    assert_eq!(held * PAGE_TOKENS, live + wasted);
}

#[test]
fn interleaved_free_and_realloc_stays_consistent() {
    let mut pl = pool(6);
    let mut a = SequencePages::new();
    let mut b = SequencePages::new();
    a.grow(&mut pl, PAGE_TOKENS * 2).unwrap();
    b.grow(&mut pl, PAGE_TOKENS * 2).unwrap();
    a.release(&mut pl).unwrap();

    let mut c = SequencePages::new();
    c.grow(&mut pl, PAGE_TOKENS * 4).unwrap();
    assert_eq!(pl.free_pages(), 0);

    // b must be untouched by a's release and c's allocation.
    assert_eq!(b.len(), PAGE_TOKENS * 2);
    for p in b.pages() {
        assert!(!c.pages().contains(p), "c took a page b still holds");
    }
}

#[test]
fn page_errors_say_what_happened() {
    let mut pl = pool(2);
    let mut s = SequencePages::new();
    assert_eq!(
        s.grow(&mut pl, 48).unwrap_err(),
        PageError::Exhausted { pages: 2, tokens: 32 }
    );
    assert_eq!(pl.release(9).unwrap_err(), PageError::OutOfRange { id: 9, pages: 2 });
    assert_eq!(pl.release(1).unwrap_err(), PageError::DoubleFree { id: 1 });
    s.grow(&mut pl, 3).unwrap();
    assert_eq!(s.translate(3).unwrap_err(), PageError::PastEnd { pos: 3, len: 3 });
}

#[test]
fn releasing_undoes_growing() {
    let mut pl = pool(5);
    let mut a = SequencePages::new();
    a.grow(&mut pl, 20).unwrap();
    let before = pl.free_pages();
    let mut b = SequencePages::new();
    b.grow(&mut pl, 40).unwrap();
    b.release(&mut pl).unwrap();
    assert_eq!(pl.free_pages(), before);
    assert_eq!(a.len(), 20);
    assert!(b.is_empty());
}

#[test]
fn a_page_given_back_at_once_comes_next() {
    let mut p = pool(3);
    for want in 0..3 {
        let id = p.alloc_page().unwrap();
        assert_eq!(id, want);
        p.release(id).unwrap();
        assert_eq!(p.alloc_page().unwrap(), id);
    }
    assert!(p.alloc_page().is_err());
    p.release(1).unwrap();
    assert_eq!(p.alloc_page().unwrap(), 1);
}

#[test]
fn growing_in_steps_takes_the_pages_of_growing_at_once() {
    let (mut pa, mut pb) = (pool(6), pool(6));
    let (mut a, mut b) = (SequencePages::new(), SequencePages::new());
    for n in [5, 11, 1, 20] {
        a.grow(&mut pa, n).unwrap();
    }
    b.grow(&mut pb, 37).unwrap();
    assert_eq!((a.len(), a.pages()), (b.len(), b.pages()));
    assert_eq!(pa.alloc_page().unwrap(), pb.alloc_page().unwrap());
    assert_eq!(a.wasted_slots(), 3 * PAGE_TOKENS - 37);
}

#[test]
fn used_pages_are_those_the_sequences_hold() {
    let mut p = pool(7);
    let mut seqs = [SequencePages::new(), SequencePages::new(), SequencePages::new()];
    for (s, n) in [(0, 17), (1, 1), (2, 40), (0, 16), (1, 99), (2, 8)] {
        let _ = seqs[s].grow(&mut p, n);
        let held: usize = seqs.iter().map(|s| s.n_pages()).sum();
        assert_eq!((p.used_pages(), p.used_pages() + p.free_pages()), (held, 7));
        let distinct: HashSet<PageId> =
            seqs.iter().flat_map(|s| s.pages().iter().copied()).collect();
        assert_eq!(distinct.len(), held);
    }
}
