use llm_engine::paged::{PagePool, SequencePages};
use llm_engine::prefill::{
    request_page_reservation, validate_request, validate_request_identity, PageReservations,
    PrefillBatchPlan, PrefillBudget, PrefillError, PrefillSlice, PrefillWork,
};
use std::collections::VecDeque;

fn work(id: u64, len: usize, done: usize) -> PrefillWork {
    PrefillWork { request_id: id, prompt_len: len, done }
}

fn plan(requests: &[PrefillWork], tokens: usize, chunk: usize) -> PrefillBatchPlan {
    let mut p = PrefillBatchPlan::default();
    p.build(requests, PrefillBudget { tokens, requests: 16, chunk }).unwrap();
    p
}

#[test]
fn exact_fit_and_one_token_over_have_contiguous_rows() {
    let input = [work(9, 16, 0), work(2, 17, 0)];
    let exact = plan(&input, 33, 33);
    assert_eq!((exact.tokens, exact.final_rows), (33, 2));
    assert_eq!(exact.slices[1].packed_row_start, 16);
    let bounded = plan(&input, 32, 32);
    assert_eq!((bounded.tokens, bounded.final_rows), (32, 1));
    assert_eq!(bounded.slices[1].len, 16);
    assert!(!bounded.slices[1].is_final);
}

#[test]
fn many_tiny_requests_share_one_plan() {
    let input: Vec<_> = (0..16).map(|id| work(id, 8, 0)).collect();
    let p = plan(&input, 128, 64);
    assert_eq!((p.tokens, p.slices.len(), p.final_rows), (128, 16, 16));
    assert!(p.slices.iter().enumerate().all(|(i, s)| s.packed_row_start == i * 8));
}

#[test]
fn huge_request_cannot_take_more_than_its_cap() {
    let p = plan(&[work(1, 941, 0), work(2, 8, 0), work(3, 17, 0)], 128, 64);
    assert_eq!((p.tokens, p.final_rows), (89, 2));
    assert_eq!(p.slices[0].len, 64);
}

#[test]
fn offsets_and_final_rows_belong_to_request_identity() {
    let p = plan(&[work(90, 130, 73), work(12, 65, 64), work(70, 200, 37)], 128, 64);
    assert_eq!(
        p.slices[0],
        PrefillSlice {
            request_id: 90,
            packed_row_start: 0,
            prompt_start: 73,
            len: 57,
            is_final: true,
        }
    );
    assert_eq!(p.slices[1].packed_row_start, 57);
    assert_eq!(p.slices[2].prompt_start, 37);
    assert_eq!(p.final_rows, 2);
}

#[test]
fn request_limit_and_reused_plan_respect_active_counts() {
    let input: Vec<_> = (0..16).map(|id| work(id, 8, 0)).collect();
    let mut p = plan(&input, 128, 64);
    p.build(&[work(45, 17, 0)], PrefillBudget { tokens: 32, requests: 2, chunk: 32 }).unwrap();
    assert_eq!((p.tokens, p.slices.len(), p.final_rows), (17, 1, 1));
    p.build(&input, PrefillBudget { tokens: 128, requests: 2, chunk: 64 }).unwrap();
    assert_eq!((p.tokens, p.slices.len()), (16, 2));
}

#[test]
fn fairness_survives_arrivals_cancellation_and_completion() {
    let mut queue = VecDeque::from([work(1, 941, 0), work(2, 8, 0), work(3, 3, 0)]);
    let mut seen_long = Vec::new();
    let mut p = PrefillBatchPlan::with_capacity(4);
    for step in 0..32 {
        // Cancel a waiting peer and continuously insert younger peers.
        if step == 2 {
            queue.retain(|r| r.request_id != 2);
        }
        if queue.len() < 4 {
            queue.push_back(work(100 + step, 1, 0));
        }
        let waiting: Vec<PrefillWork> = queue.iter().copied().collect();
        p.build(&waiting, PrefillBudget { tokens: 1, requests: 4, chunk: 1 }).unwrap();
        let slice = p.slices[0];
        let mut r = queue.pop_front().unwrap();
        assert_eq!(r.request_id, slice.request_id);
        if r.request_id == 1 {
            seen_long.push(step);
        }
        r.done += slice.len;
        if !slice.is_final {
            queue.push_back(r);
        }
    }
    assert!(seen_long.len() >= 8);
    assert!(seen_long.windows(2).all(|pair| pair[1] - pair[0] <= 4));
}

#[test]
fn identical_input_produces_identical_plan() {
    let input = [work(42, 33, 17), work(7, 941, 128), work(99, 15, 0)];
    assert_eq!(plan(&input, 128, 64), plan(&input, 128, 64));
}

#[test]
fn malformed_work_and_zero_or_excessive_limits_are_rejected() {
    let valid = PrefillBudget { tokens: 128, requests: 16, chunk: 64 };
    assert!(valid.validate(1024, 16).is_ok());
    for bad in [
        PrefillBudget { tokens: 0, ..valid },
        PrefillBudget { requests: 0, ..valid },
        PrefillBudget { chunk: 0, ..valid },
        PrefillBudget { tokens: 1025, ..valid },
        PrefillBudget { requests: 17, ..valid },
        PrefillBudget { chunk: 1025, ..valid },
    ] {
        assert!(bad.validate(1024, 16).is_err());
    }
    let mut p = PrefillBatchPlan::default();
    assert!(p.build(&[work(1, 0, 0)], valid).is_err());
    assert!(p.build(&[work(1, 8, 8)], valid).is_err());
    assert!(p.build(&[work(1, 8, 0), work(1, 8, 0)], valid).is_err());
}

#[test]
fn reservations_include_decode_growth_and_one_token_completion() {
    assert_eq!(request_page_reservation(16, 1, 1024).unwrap(), 1);
    assert_eq!(request_page_reservation(16, 2, 1024).unwrap(), 2);
    assert_eq!(request_page_reservation(17, 16, 1024).unwrap(), 2);
    assert_eq!(request_page_reservation(17, 17, 1024).unwrap(), 3);
    assert!(request_page_reservation(0, 1, 1024).is_err());
    assert!(request_page_reservation(1, 0, 1024).is_err());
    assert!(request_page_reservation(1024, 2, 1024).is_err());
    assert!(request_page_reservation(usize::MAX, 2, usize::MAX).is_err());
}

#[test]
fn page_pressure_keeps_future_decode_pages_and_cancellation_returns_budget() {
    let mut pool = PagePool::new(4, 12, 192);
    let mut reservations = PageReservations::new(pool.n_pages());
    let mut first = SequencePages::new();
    let mut second = SequencePages::new();
    // Two physically tiny prompts each need two pages through completion.
    assert!(reservations
        .try_reserve(request_page_reservation(16, 17, 1024).unwrap())
        .unwrap());
    first.grow(&mut pool, 16).unwrap();
    assert!(reservations
        .try_reserve(request_page_reservation(16, 17, 1024).unwrap())
        .unwrap());
    second.grow(&mut pool, 16).unwrap();
    assert_eq!(pool.free_pages(), 2);
    assert!(
        !reservations.try_reserve(1).unwrap(),
        "physically free pages belong to decoder growth"
    );
    first.grow(&mut pool, 1).unwrap();
    second.grow(&mut pool, 1).unwrap();
    assert_eq!(pool.free_pages(), 0);
    first.release(&mut pool).unwrap();
    reservations.release(2).unwrap();
    assert!(reservations.try_reserve(2).unwrap());
    let mut replacement = SequencePages::new();
    replacement.grow(&mut pool, 32).unwrap();
    assert!(replacement.pages().iter().all(|page| !second.pages().contains(page)));
    assert!(!reservations.try_reserve(1).unwrap());
}

#[test]
fn impossible_and_failed_reservations_do_not_leak_capacity() {
    let mut reservations = PageReservations::new(4);
    assert!(reservations.try_reserve(5).is_err());
    assert!(reservations.try_reserve(0).is_err());
    assert!(reservations.try_reserve(3).unwrap());
    assert!(!reservations.try_reserve(2).unwrap());
    reservations.release(3).unwrap();
    assert!(reservations.try_reserve(4).unwrap());
    assert!(reservations.release(5).is_err());
    reservations.release(4).unwrap();
    assert!(reservations.try_reserve(4).unwrap());
}

#[test]
fn invalid_submissions_are_rejected_before_page_admission() {
    assert!(validate_request(&[1, 99], 1, Ok(()), 100, 1024, 64).is_ok());
    assert!(validate_request(&[], 1, Ok(()), 100, 1024, 64).is_err());
    assert!(validate_request(&[100], 1, Ok(()), 100, 1024, 64).is_err());
    assert!(validate_request(&[usize::MAX], 1, Ok(()), usize::MAX, 1024, 64).is_err());
    assert!(validate_request(&[1], 0, Ok(()), 100, 1024, 64).is_err());
    assert!(validate_request(&[1; 16], 2, Ok(()), 100, 1024, 1).is_err());
    assert!(validate_request(&[1; 16], 2, Ok(()), 100, 16, 64).is_err());
    let bad_sampling = Err(String::from("temperature is not a number"));
    assert!(validate_request(&[1], 1, bad_sampling, 100, 1024, 64).is_err());
}

#[test]
fn identity_checks_cover_all_states_and_allow_reuse_after_retirement() {
    let pending = [42, 100];
    let prefilling = [9, 87];
    let active = [5, 16];
    let live: Vec<u64> = pending.into_iter().chain(prefilling).chain(active).collect();
    for duplicate in [42, 100, 9, 87, 5, 16] {
        assert!(validate_request_identity(duplicate, &live).is_err());
    }
    // Slot permutation and removal have no bearing on identity.
    assert!(validate_request_identity(16, &[5, 16]).is_err());
    assert!(validate_request_identity(5, &[16]).is_ok());
    assert!(validate_request_identity(999, &[]).is_ok());
}

#[test]
fn refusals_name_their_reason() {
    let e = request_page_reservation(1024, 2, 1024).unwrap_err();
    assert!(matches!(e, PrefillError::Context { positions: 1025, context: 1024 }));
    let e = validate_request(&[100], 1, Ok(()), 100, 1024, 64).unwrap_err();
    assert!(matches!(e, PrefillError::Token { token: 100, vocab: 100 }));
    let e = validate_request(&[1; 16], 2, Ok(()), 100, 1024, 1).unwrap_err();
    assert!(matches!(e, PrefillError::Pages { pages: 2, capacity: 1 }));
    let e = validate_request(&[1], 1, Err(String::from("nan")), 100, 1024, 64).unwrap_err();
    assert_eq!(e.message(), "nan");
    let e = validate_request_identity(7, &[7]).unwrap_err();
    assert!(matches!(e, PrefillError::DuplicateId { id: 7 }));
    let mut p = PrefillBatchPlan::default();
    let budget = PrefillBudget { tokens: 8, requests: 2, chunk: 4 };
    assert!(matches!(
        p.build(&[work(3, 8, 8)], budget).unwrap_err(),
        PrefillError::Progress { id: 3, done: 8, prompt_len: 8 }
    ));
    assert!(matches!(
        p.build(&[work(3, 8, 0), work(3, 8, 0)], budget).unwrap_err(),
        PrefillError::Repeated { id: 3 }
    ));
    let zero = PrefillBudget { tokens: 0, requests: 2, chunk: 4 };
    assert!(matches!(
        p.build(&[work(3, 8, 0)], zero).unwrap_err(),
        PrefillError::ZeroLimit
    ));
    assert!(matches!(
        budget.validate(7, 16).unwrap_err(),
        PrefillError::TokenBudget { capacity: 7, got: 8 }
    ));
    assert!(matches!(
        budget.validate(8, 1).unwrap_err(),
        PrefillError::RequestLimit { capacity: 1, got: 2 }
    ));
    let mut r = PageReservations::new(2);
    assert!(matches!(r.release(1).unwrap_err(), PrefillError::OverRelease));
}

#[test]
fn the_head_of_the_queue_is_always_served() {
    for tokens in 1..40 {
        let p = plan(&[work(5, 941, 3), work(6, 2, 0)], tokens, 16);
        assert_eq!(p.slices[0].request_id, 5);
        assert_eq!(p.slices[0].prompt_start, 3);
        assert!(p.tokens <= tokens);
    }
}

#[test]
fn a_reservation_is_the_peak_of_a_request() {
    for (prompt, generated) in [(1, 1), (16, 1), (16, 2), (5, 40), (33, 16)] {
        let mut pool = PagePool::new(8, 1, 4);
        let mut s = SequencePages::new();
        s.grow(&mut pool, prompt).unwrap();
        let mut peak = s.n_pages();
        for _ in 1..generated {
            s.grow(&mut pool, 1).unwrap();
            peak = peak.max(s.n_pages());
        }
        assert_eq!(request_page_reservation(prompt, generated, 64).unwrap(), peak);
    }
}
