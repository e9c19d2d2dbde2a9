use llm_engine::gpu::PrefillAttentionVariant;
use llm_engine::harness::attention::{
    checked_output, row_offset, same_bits, value, FixtureError, FixturePlan, D, GUARD, SENTINEL,
    STRIDE,
};
use llm_engine::harness::cases::{
    bench_cases, bench_settings, cases, composition, fuzz_case, history_positions, homogeneous,
    retain_named, selected_rows, timed_variants, timing_order, variants, Case, Slice, TimingError,
};
use llm_engine::harness::eval::{
    after_draw, decode_stream, eval_limit, may_draw, parameter_count, scored_positions, Next,
};
use llm_engine::harness::lists::{all_numbers, names, numbers, Bound, ListError};
use llm_engine::harness::packed_check::{
    bench_shapes, concurrent_steps, context_suffices, fuzz_chunk, fuzz_set, is_timed, jobs, lengths,
    only_ids, timing_modes, BenchError, Mode, FUZZ_SEED,
};
use llm_engine::harness::rounds::{expected_bytes, routes, PackedRun, Permutation};
use llm_engine::harness::runtime::{
    argmax_mismatch, argmax_verdict, batch_verdict, cancellation_verdict, concurrent_verdict,
    drains, first_difference, graph_verdict, paged_verdict, pressure_verdict, sampling_leak,
    single_verdict, widths, window, CheckError, Expected, Outcome, Stagger, StepCounts,
};
use llm_engine::harness::trace::{
    settings, slices_line, trace_prompt, Trace, TraceError, TraceStep, FIRST_ID,
};
use llm_engine::harness::workload::{
    cycled_budget, eightfold_budget, lay_out, longest, mixed_requests, probe_tokens, random,
    shifted_probe, slot_order, step_token, timing_tokens, warm_count, warm_token, Workload,
};
use llm_engine::prefill::PrefillSlice;
use llm_engine::service::FinishReason;
use llm_engine::wire::F32Bits;
use std::collections::HashSet;

fn xorshift(state: &mut u64) -> u64 {
    *state ^= *state << 13;
    *state ^= *state >> 7;
    *state ^= *state << 17;
    *state
}

#[test]
fn probe_prompts_are_the_same_every_time() {
    let mut state = 0x9E3779B97F4A7C15u64;
    let want: Vec<usize> = (0..50).map(|_| (xorshift(&mut state) % 500) as usize).collect();
    assert_eq!(probe_tokens(50, 500), want);
    let moved = shifted_probe(50, 500, 3);
    assert_eq!(moved[0], (want[0] + 3 * 977) % 500);
    assert_eq!(timing_tokens(3), vec![1000, 1007, 1014]);
    assert_eq!(timing_tokens(2858)[2857], 1000 + (2857 * 7) % 20000);
}

#[test]
fn a_seeded_generator_never_reaches_zero() {
    let mut state = 1u64;
    let mut seen = HashSet::new();
    for _ in 0..1000 {
        let r = random(&mut state);
        assert!(r != 0 && seen.insert(r));
    }
    let mut zero = 0u64;
    assert_eq!(random(&mut zero), 0);
}

#[test]
fn requests_differ_but_end_in_the_same_token() {
    let a = Workload::new(100, 9, 500, 4);
    let b = Workload::new(101, 30, 500, 4);
    assert_eq!((a.prompt[8], b.prompt[29]), (42, 42));
    assert_ne!(a.prompt[..8], b.prompt[..8]);
    assert_eq!((a.policy.top_k, b.policy.top_k), (40, 5));
    assert_eq!(a.policy.temperature, F32Bits(0.0f32.to_bits()));
    assert_eq!(b.policy.temperature, F32Bits(0.9f32.to_bits()));
    assert_eq!(Workload::new(102, 1, 500, 1).policy.temperature, F32Bits(0.8f32.to_bits()));
    assert_eq!(Workload::new(103, 1, 500, 1).policy.temperature, F32Bits(0.7f32.to_bits()));
    assert_eq!(Workload::new(104, 1, 10, 1).policy.top_k, 500);
    assert_eq!(b.policy.seed, 101 * 1237 + 7);
    let mut state = 101u64 * 977 + 1234;
    assert_eq!(b.prompt[0], (xorshift(&mut state) % 500) as usize);
}

#[test]
fn the_sampling_mix_has_one_request_over_the_device_limit() {
    let m = mixed_requests();
    assert_eq!(m.len(), 7);
    assert_eq!(m.iter().filter(|(_, p)| p.top_k > 128).count(), 1);
    assert_eq!(m[2].1.temperature, F32Bits(1.0f32.to_bits()));
    assert_eq!(m[4].1.temperature, F32Bits(0.3f32.to_bits()));
    assert_eq!(m[5].0, 511);
}

#[test]
fn budgets_hold_every_request_at_its_full_length() {
    assert_eq!(cycled_budget(&[15, 17], 2, 3), (2 + 1) + (2 + 1) + (2 + 1));
    assert_eq!(cycled_budget(&[14], 2, 2), 4);
    assert_eq!(cycled_budget(&[], 2, 0), 0);
    assert_eq!(eightfold_budget(100, 14), 8 * 8 + 8);
    assert_eq!((longest(&[3, 9, 4]), longest(&[])), (9, 1));
}

#[test]
fn slots_rotate_every_step() {
    assert_eq!(slot_order(0, 3, 4, 16), vec![0, 1, 2]);
    assert_eq!(slot_order(2, 3, 4, 16), vec![2, 3, 0]);
    assert_eq!(slot_order(5, 9, 2, 16), vec![1, 0]);
    assert_eq!(slot_order(1, 9, 9, 2), vec![1, 2]);
    assert_eq!(step_token(2, 3, 50), (2 * 31 + 3 * 7 + 3) % 50);
    assert_eq!((warm_token(0, 5), warm_token(7, 5), warm_token(5, 5)), (1, 2, 1));
    assert_eq!((warm_count(10, 100, 95), warm_count(10, 100, 5)), (4, 10));
    assert_eq!(lay_out(&[vec![1, 2], vec![3, 4]], 2, 3), vec![1, 2, 3, 4, 0, 0]);
}

#[test]
fn lists_are_read_leniently_or_strictly() {
    assert_eq!(numbers("1, 2,x, 300 ,0,+7,-1,", 1, 100), vec![1, 2, 7]);
    assert_eq!(numbers("\u{a0}5\u{3000}", 0, 9), vec![5]);
    assert_eq!(numbers("18446744073709551616", 0, usize::MAX), Vec::<usize>::new());
    assert_eq!(numbers("18446744073709551615", 0, usize::MAX), vec![usize::MAX]);
    assert_eq!(all_numbers("3,4", Bound::Any), Ok(vec![3, 4]));
    assert_eq!(all_numbers("3,", Bound::Any), Err(ListError::Invalid));
    assert_eq!(all_numbers("3,0,x", Bound::Positive), Err(ListError::Zero));
    let prompts = Bound::Prompt { steps: 5, context: 10 };
    assert_eq!(all_numbers("6", prompts), Ok(vec![6]));
    assert_eq!(all_numbers("6,7", prompts), Err(ListError::TooLong { len: 7, context: 10 }));
    assert_eq!(ListError::Invalid.message("prompt length"), "invalid prompt length");
    assert_eq!(ListError::Zero.message(""), "benchmark shapes must be positive");
    assert_eq!(
        ListError::TooLong { len: 7, context: 10 }.message(""),
        "prompt 7 plus output exceeds context 10"
    );
    assert_eq!(names(" a , b,,"), vec!["a", "b", "", ""]);
}

#[test]
fn held_out_tokens_are_scored_once() {
    assert_eq!(decode_stream(&[1, 0, 0, 1, 9]), vec![1, 256]);
    assert_eq!(eval_limit(100, 8, 50, 0), 8);
    assert_eq!(eval_limit(100, 8, 50, 3), 49);
    assert_eq!(scored_positions(4, 13), vec![4, 8, 12]);
    assert_eq!(scored_positions(4, 12), vec![4, 8]);
    assert_eq!(scored_positions(4, 3), Vec::<usize>::new());
    assert_eq!(parameter_count(&[vec![2, 3], vec![], vec![5, 0]]), 7);
}

#[test]
fn generation_stops_at_its_budget_its_context_or_the_end_of_text() {
    assert_eq!(may_draw(3, 3, 0, 10), Some(Next::Done));
    assert_eq!(may_draw(2, 3, 10, 10), Some(Next::ContextFull));
    assert_eq!(may_draw(2, 3, 9, 10), None);
    assert_eq!(after_draw(7, 7), Next::EndOfText);
    assert_eq!(after_draw(8, 7), Next::Feed(8));
}

#[test]
fn packed_rounds_consume_every_prompt() {
    let lens = vec![1usize, 40, 17, 5];
    for permutation in [Permutation::Kept, Permutation::Reversed, Permutation::Rotated] {
        for prefixes in [false, true] {
            let mut run = PackedRun::new(lens.clone(), 16, permutation, 30, prefixes);
            let mut at: Vec<usize> = (0..4).map(|i| run.consumed(i)).collect();
            let mut finished = Vec::new();
            let mut rounds = 0;
            while !run.is_finished() {
                let (plan, last) = run.next_round().unwrap();
                rounds += 1;
                assert!(plan.iter().map(|p| p.len).sum::<usize>() <= 30);
                for p in &plan {
                    assert_eq!(p.start, at[p.index]);
                    assert!(p.len > 0 && p.len <= 16);
                    at[p.index] += p.len;
                }
                finished.extend(last);
            }
            assert_eq!(at, lens);
            finished.sort_unstable();
            assert_eq!(finished, vec![0, 1, 2, 3]);
            assert!(run.calls() > rounds);
            assert!(run.next_round().is_err());
        }
    }
    let mut stuck = PackedRun::new(vec![3], 0, Permutation::Kept, 30, false);
    assert_eq!(stuck.next_round().unwrap_err().message(), "packed plan made no progress");
}

#[test]
fn prefixes_stop_short_of_the_prompt() {
    let run = PackedRun::new(vec![1, 2, 100, 10], 8, Permutation::Kept, 64, true);
    let at: Vec<usize> = (0..4).map(|i| run.consumed(i)).collect();
    assert_eq!(at, vec![0, 1, 15, 9]);
}

#[test]
fn rows_leave_the_device_by_one_way_only() {
    let policies: Vec<_> = (100..105).map(|id| Workload::new(id, 1, 50, 1).policy).collect();
    let r = routes(&policies);
    assert_eq!(r.topk_rows, vec![(1, 5), (2, 40), (3, 128)]);
    assert_eq!(r.full_rows, vec![4]);
    assert_eq!(expected_bytes(5, &r, 50), 5 * 4 + 5 * 128 * 8 + 50 * 4);
    let greedy = routes(&policies[..1]);
    assert_eq!(expected_bytes(1, &greedy, 50), 4);
}

#[test]
fn staggered_requests_enter_every_third_step() {
    let mut s = Stagger::new(3, 100);
    let mut entered = Vec::new();
    loop {
        let due = s.due().unwrap();
        for id in due {
            entered.push((s.steps(), id));
        }
        if s.is_over(entered.len() == 3) {
            break;
        }
        s.step();
    }
    assert_eq!(entered, vec![(0, 0), (3, 1), (6, 2)]);
    let mut short = Stagger::new(3, 1);
    assert_eq!(short.due().unwrap(), vec![0]);
    short.step();
    assert!(short.due().is_none());
}

#[test]
fn differences_are_shown_from_where_they_begin() {
    assert_eq!(first_difference(&[1, 2, 3], &[1, 9, 3]), 1);
    assert_eq!(first_difference(&[1, 2], &[1, 2, 3]), 0);
    assert_eq!(window(&[1, 2, 3, 4, 5], 1), vec![2, 3, 4]);
    assert_eq!(window(&[1, 2, 3], 2), vec![3]);
}

#[test]
fn verdicts_name_what_went_wrong() {
    let say = |e: Option<CheckError>| e.map(|e| e.message());
    assert_eq!(say(batch_verdict(3, 3, 9, 9, 0)), None);
    assert_eq!(
        say(batch_verdict(2, 3, 9, 9, 1)).unwrap(),
        "staggered run produced 2 completions, expected 3"
    );
    assert_eq!(
        say(batch_verdict(3, 3, 8, 9, 1)).unwrap(),
        "pages leaked: 8 of 9 free after every request finished"
    );
    assert_eq!(
        say(batch_verdict(3, 3, 9, 9, 4)).unwrap(),
        "4 request(s) differed from independent execution"
    );
    assert_eq!(
        say(paged_verdict(1, false)).unwrap(),
        "1 length(s) disagreed with the contiguous cache"
    );
    assert_eq!(
        say(paged_verdict(0, false)).unwrap(),
        "paged path is not bit-identical to the contiguous path"
    );
    assert_eq!(say(paged_verdict(0, true)), None);
    assert_eq!(
        say(graph_verdict(2, 1, 1)).unwrap(),
        "2 step(s) differed between eager and graph replay"
    );
    assert_eq!(
        say(graph_verdict(0, 1, 2)).unwrap(),
        "page accounting differed between eager and graph passes"
    );
    assert_eq!(
        say(sampling_leak(true, 1, 2)).unwrap(),
        "pages leaked on the device top-k path"
    );
    assert_eq!(
        say(sampling_leak(false, 1, 2)).unwrap(),
        "pages leaked on the full logits path"
    );
    assert_eq!(drains(25, 2).unwrap_err().message(), "runtime did not drain");
    assert!(drains(24, 2).is_ok());
    assert_eq!(
        argmax_mismatch(3, &[1, 2], &[1, 5]).unwrap().message(),
        "step 3 row 1: device argmax 2 != host argmax 5"
    );
    assert!(argmax_mismatch(3, &[1], &[1]).is_none());
    assert_eq!(
        argmax_verdict(&[1, -1, 2], &[1, 1, 3]).unwrap().message(),
        "device argmax disagreed with the host rule in 2 case(s)"
    );
    assert!(argmax_verdict(&[4], &[4]).is_none());
}

fn outcome(id: u64, tokens: &[usize]) -> Outcome {
    Outcome { id, reason: FinishReason::Length, tokens: tokens.to_vec() }
}

fn expected(id: u64, tokens: &[usize]) -> Expected {
    Expected { id, tokens: tokens.to_vec() }
}

fn sixteen() -> (Vec<StepCounts>, Vec<Outcome>, Vec<Expected>) {
    let first = StepCounts { decoded: 0, prefill_batches: 1, prefill_final_rows: 16 };
    let wide = StepCounts { decoded: 16, prefill_batches: 0, prefill_final_rows: 0 };
    let narrow = StepCounts { decoded: 8, ..wide };
    let out = (0..16).map(|i| outcome(i, &[i as usize, 1])).collect();
    let want = (0..16).map(|i| expected(i, &[i as usize, 1])).collect();
    (vec![first, wide, wide, narrow, narrow], out, want)
}

#[test]
fn concurrent_runs_are_held_to_independent_ones() {
    let (trace, out, want) = sixteen();
    assert_eq!(widths(&trace), vec![16, 8]);
    let judge = |trace: &[StepCounts], out: &[Outcome], want: &[Expected], idle: bool, free: usize| {
        concurrent_verdict(trace, idle, out, want, free, 9, true, false).map_err(|e| e.message())
    };
    assert_eq!(judge(&trace, &out, &want, true, 9), Ok(16));
    assert_eq!(
        judge(&trace, &out, &want, false, 9).unwrap_err(),
        "concurrent decode did not drain"
    );
    assert_eq!(
        judge(&trace[..3], &out, &want, true, 9).unwrap_err(),
        "concurrent decode did not exercise 16 -> 8: graph=true reverse=false widths=[16]"
    );
    assert_eq!(
        judge(&trace[1..], &out, &want, true, 9).unwrap_err(),
        "concurrent requests did not finish prefill together"
    );
    assert_eq!(
        judge(&trace, &out[1..], &want, true, 9).unwrap_err(),
        "concurrent completion count changed"
    );
    let mut twice = out.clone();
    twice[0].id = 1;
    assert_eq!(
        judge(&trace, &twice, &want, true, 9).unwrap_err(),
        "concurrent completion missing/duplicated 0"
    );
    let mut changed = out.clone();
    changed[2].tokens[1] = 7;
    assert_eq!(
        judge(&trace, &changed, &want, true, 9).unwrap_err(),
        "concurrent decode differs from independent request 2: graph=true reverse=false expected=[2, 1] got=[2, 7]"
    );
    assert_eq!(
        judge(&trace, &out, &want, true, 8).unwrap_err(),
        "concurrent decode leaked pages"
    );
}

#[test]
fn cancellation_leaves_the_others_alone() {
    let want: Vec<Expected> = (0..5).map(|i| expected(i, &[i as usize])).collect();
    let mut out: Vec<Outcome> = (0..5).map(|i| outcome(i, &[i as usize])).collect();
    let judge = |at: usize, out: &[Outcome], idle: bool, free: usize| {
        cancellation_verdict(at, 9000, idle, out, &want, free, 9).map_err(|e| e.message())
    };
    assert_eq!(judge(0, &out, true, 9), Ok(5));
    assert_eq!(judge(0, &out, false, 9).unwrap_err(), "runtime failed to drain");
    assert_eq!(
        judge(1, &out, true, 9).unwrap_err(),
        "unexpected completion count after cancellation at 1: expected 6, got 5"
    );
    assert_eq!(judge(0, &out, true, 8).unwrap_err(), "runtime leaked pages");
    out.push(Outcome { id: 9000, reason: FinishReason::Cancelled, tokens: vec![] });
    assert_eq!(judge(3, &out, true, 9), Ok(5));
    out[5].reason = FinishReason::Length;
    assert_eq!(judge(3, &out, true, 9).unwrap_err(), "wrong cancellation reason");
    out[5].reason = FinishReason::Cancelled;
    out[0].tokens = vec![77];
    assert_eq!(
        judge(3, &out, true, 9).unwrap_err(),
        "survivor/page-reuse mismatch request 0"
    );
    out[0].id = 1;
    assert_eq!(judge(3, &out, true, 9).unwrap_err(), "missing/duplicate survivor 0");
    out[0].id = 9000;
    assert_eq!(
        judge(3, &out, true, 9).unwrap_err(),
        "pending/resident cancellation completion semantics changed"
    );
}

#[test]
fn short_and_crowded_runs_return_what_was_produced_alone() {
    let want: Vec<Expected> = (0..5).map(|i| expected(i, &[i as usize, 2])).collect();
    let short: Vec<Outcome> = (0..5).map(|i| outcome(i, &[i as usize])).collect();
    let whole: Vec<Outcome> = (0..5).map(|i| outcome(i, &[i as usize, 2])).collect();
    let text = |e: CheckError| e.message();
    assert_eq!(single_verdict(&short, &want).map_err(text), Ok(5));
    assert_eq!(
        single_verdict(&short[1..], &want).map_err(text).unwrap_err(),
        "max_tokens=1 completion count changed"
    );
    assert_eq!(
        single_verdict(&whole, &want).map_err(text).unwrap_err(),
        "max_tokens=1 produced wrong token count/value"
    );
    assert_eq!(pressure_verdict(&whole, &want, 32).map_err(text), Ok(5));
    assert_eq!(
        pressure_verdict(&whole[1..], &want, 32).map_err(text).unwrap_err(),
        "page-pressure completion count changed"
    );
    assert_eq!(
        pressure_verdict(&short, &want, 32).map_err(text).unwrap_err(),
        "page-pressure request output changed"
    );
    assert_eq!(
        pressure_verdict(&whole, &want, 31).map_err(text).unwrap_err(),
        "constrained pool leaked pages"
    );
}

fn step() -> TraceStep {
    TraceStep {
        admitted: vec![],
        admitted_at: None,
        prefill_batches: 0,
        prefill_started_at: None,
        planning: 0,
        execution: 0,
        slices: vec![],
        tokens: vec![],
    }
}

#[test]
fn traced_times_add_up() {
    let mut t = Trace::new(&[5, 9]);
    let submitted = 100;
    let first = TraceStep {
        admitted: vec![FIRST_ID, FIRST_ID + 1],
        admitted_at: Some(130),
        prefill_batches: 1,
        prefill_started_at: Some(140),
        planning: 3,
        execution: 50,
        slices: vec![FIRST_ID, FIRST_ID + 1],
        tokens: vec![(FIRST_ID, 7)],
    };
    t.record(&first, 195).unwrap();
    let second = TraceStep {
        prefill_batches: 1,
        prefill_started_at: Some(230),
        execution: 20,
        slices: vec![FIRST_ID + 1],
        tokens: vec![(FIRST_ID, 8), (FIRST_ID + 1, 9)],
        ..step()
    };
    t.record(&second, 260).unwrap();
    let a = t.requests[0];
    let b = t.requests[1];
    assert_eq!((a.prefill_wait, a.shared_call_wall, a.calls), (10, 50, 1));
    assert_eq!((b.prefill_wait, b.shared_call_wall, b.calls), (10 + 40, 70, 2));
    assert_eq!(a.first_token, Some((195, 7)));
    for r in [a, b] {
        let (first_at, _) = r.first_token.unwrap();
        let parts = (r.admitted_at.unwrap() - submitted)
            + r.prefill_wait
            + r.shared_call_wall
            + (first_at - r.last_call_end.unwrap());
        assert_eq!(parts, first_at - submitted);
    }
    let out: Vec<Outcome> =
        vec![outcome(FIRST_ID, &[7, 8]), outcome(FIRST_ID + 1, &[9, 9])];
    assert!(t.verdict(&out, 2, 4, 4).is_ok());
    assert_eq!(t.verdict(&out[1..], 2, 4, 4).unwrap_err(), TraceError::Completions);
    assert_eq!(t.verdict(&out, 3, 4, 4).unwrap_err(), TraceError::Budget);
    assert_eq!(t.verdict(&out, 2, 3, 4).unwrap_err(), TraceError::Leaked);
    assert!(t.begins_like(&t));
    let fresh = Trace::new(&[5, 9]);
    assert!(!t.begins_like(&fresh));
    assert_eq!(fresh.verdict(&out, 2, 4, 4).unwrap_err(), TraceError::NoFirstToken);
}

#[test]
fn a_trace_refuses_steps_that_cannot_be() {
    let mut t = Trace::new(&[5]);
    let e = t.record(&TraceStep { admitted: vec![FIRST_ID], ..step() }, 1).unwrap_err();
    assert_eq!(e.message(), "missing admission timestamp");
    let e = t.record(&TraceStep { prefill_batches: 2, ..step() }, 1).unwrap_err();
    assert_eq!(e.message(), "trace expects one packed-policy plan per step");
    let e = t.record(&TraceStep { prefill_batches: 1, ..step() }, 1).unwrap_err();
    assert_eq!(e.message(), "missing prefill timestamp");
    let early = TraceStep {
        prefill_batches: 1,
        prefill_started_at: Some(3),
        slices: vec![FIRST_ID],
        ..step()
    };
    let e = t.record(&early, 1).unwrap_err();
    assert_eq!(e.message(), "prefill before admission");
    let e = t.record(&TraceStep { planning: 1, ..step() }, 1).unwrap_err();
    assert_eq!(e.message(), "decode-only step recorded prefill timing");
    assert!(t.requests[0].admitted_at.is_none());
    assert!(settings(1, 1, 1).is_ok());
    assert_eq!(
        settings(1, 0, 1).unwrap_err().message(),
        "steps, trials and max-batch must be positive"
    );
    assert_eq!(TraceError::NotIdle.message(), "trace must start with an idle runtime");
    assert_eq!(
        TraceError::Changed.message(),
        "first token changed between identical trace workloads"
    );
}

#[test]
fn traced_prompts_and_slices_are_written_out() {
    let p = trace_prompt(1001, 3, 997);
    assert_eq!(p, vec![1001 * 977 % 997, (1001 * 977 + 613 + 17) % 997,
                       (1001 * 977 + 2 * 613 + 4 * 17) % 997]);
    let slice = |id, start, len, last| PrefillSlice {
        request_id: id,
        packed_row_start: 0,
        prompt_start: start,
        len,
        is_final: last,
    };
    assert_eq!(
        slices_line(&[slice(1001, 0, 5, false), slice(1002, 3, 4, true)]),
        "1001:0+5:0;1002:3+4:1"
    );
    assert_eq!(slices_line(&[]), "");
}

#[test]
fn fixed_cases_are_those_of_the_check() {
    let c = cases(7);
    assert_eq!(c.len(), 21 + 11 + 10 + 7 + 4);
    assert_eq!((c[0].name.as_str(), c[0].slices.len(), c[0].seed), ("boundary-0", 1, 7));
    assert_eq!((c[20].name.as_str(), c[20].seed), ("boundary-1023", 7 + 1023));
    assert_eq!((c[21].name.as_str(), c[21].slices.len()), ("offset-1", 3));
    assert_eq!(c[32].name, "single-1");
    assert_eq!((c[42].name.as_str(), c[42].seed), ("16x16", 23));
    assert_eq!((c[52].name.as_str(), c[52].profile), ("ragged-profile-3", 3));
    for case in &c {
        assert!(FixturePlan::new(case).is_ok(), "{}", case.name);
    }
    let timed = bench_cases(7);
    assert_eq!(timed.len(), 10 + 7 + 5 + 3);
    for case in &timed {
        assert!(FixturePlan::new(case).is_ok(), "{}", case.name);
    }
    let named = retain_named(timed, "heterogeneous, single-16");
    let names: Vec<&str> = named.iter().map(|c| c.name.as_str()).collect();
    assert_eq!(names, vec!["single-16", "heterogeneous"]);
    assert_eq!(retain_named(bench_cases(7), "").len(), 25);
    assert!(retain_named(bench_cases(7), "nothing").is_empty());
}

#[test]
fn random_cases_can_always_be_made() {
    let mut state = 5u64;
    for round in 0..40 {
        let before = state;
        let c = fuzz_case(&mut state, round);
        assert!(FixturePlan::new(&c).is_ok());
        assert_eq!(c.name, format!("fuzz-{round}"));
        assert_eq!(c.profile, round % 4);
        assert_eq!(c.slices[0].id, round * 16);
        let mut again = before;
        let count = 1 + (xorshift(&mut again) % 16) as usize;
        assert_eq!(c.slices.len(), count);
        assert_eq!(state, c.seed);
    }
}

#[test]
fn variants_are_compared_once_each() {
    let v = variants();
    assert_eq!(v.len(), 48);
    for (i, a) in v.iter().enumerate() {
        assert!(!a.is_reference());
        assert!(v[..i].iter().all(|b| b != a));
    }
    assert_eq!(v.iter().filter(|x| x.is_exact()).count(), 36);
}

#[test]
fn fixtures_place_every_page_once() {
    let case = Case {
        name: "x".into(),
        slices: vec![
            Slice { id: 0, start: 0, len: 17 },
            Slice { id: 1, start: 15, len: 33 },
            Slice { id: 2, start: 1000, len: 24 },
        ],
        seed: 11,
        profile: 0,
    };
    let p = FixturePlan::new(&case).unwrap();
    assert_eq!(p.pages, vec![3, 4, 64]);
    assert_eq!((p.total, p.rows, p.max_chunk, p.score_capacity), (71, 74, 33, 1024));
    let mut seen = HashSet::new();
    for r in 0..3 {
        for page in 0..STRIDE {
            let e = p.tables[r * STRIDE + page];
            if page < p.pages[r] {
                assert!(e >= 0 && (e as usize) < p.total && seen.insert(e));
            } else {
                assert_eq!(e, -1);
            }
        }
    }
    assert_eq!(p.segments, vec![0, 17, 0, 0, 17, 33, 15, 1, 50, 24, 1000, 2]);
    assert_eq!((p.owners[16], p.owners[17], p.positions[17], p.positions[50]), (0, 1, 15, 1000));
    // The shuffle is drawn from the seed.
    let mut mapping: Vec<usize> = (0..71).collect();
    let mut state = 11u64;
    for i in (1..71).rev() {
        let j = (xorshift(&mut state) % (i as u64 + 1)) as usize;
        mapping.swap(i, j);
    }
    assert_eq!(p.tables[0] as usize, mapping[0]);
    assert_eq!(p.tables[STRIDE] as usize, mapping[1]);
    assert_eq!(p.tables[1] as usize, mapping[3]);
    assert_eq!(row_offset(3, 17), ((3 * 3 + 1) * 16 + 1) * 192);
}

#[test]
fn fixtures_are_refused_where_a_call_cannot_be_made() {
    let refused = |slices: Vec<Slice>| {
        let c = Case { name: "c".into(), slices, seed: 1, profile: 0 };
        FixturePlan::new(&c).unwrap_err().message("c")
    };
    assert_eq!(refused(vec![]), "invalid request count");
    assert_eq!(refused(vec![Slice { id: 0, start: 0, len: 1 }; 17]), "invalid request count");
    assert_eq!(refused(vec![Slice { id: 0, start: 0, len: 0 }]), "invalid slice");
    assert_eq!(refused(vec![Slice { id: 0, start: 1000, len: 25 }]), "invalid slice");
    assert_eq!(
        refused(vec![Slice { id: 0, start: 0, len: 600 }; 2]),
        "packed rows exceed production scratch capacity"
    );
}

#[test]
fn outputs_are_guarded() {
    let sentinel = F32Bits((-12345.25f32).to_bits());
    assert_eq!(sentinel.0, SENTINEL);
    let mut v = vec![F32Bits(1.5f32.to_bits()); D + GUARD];
    for x in &mut v[D..] {
        *x = sentinel;
    }
    assert_eq!(checked_output(&v, 1).unwrap().len(), D);
    v[3] = F32Bits(f32::INFINITY.to_bits());
    assert_eq!(checked_output(&v, 1).unwrap_err(), FixtureError::Nonfinite);
    v[D] = F32Bits(0);
    let e = checked_output(&v, 1).unwrap_err();
    assert_eq!(e.message("case"), "case: output guard overwritten");
    assert_eq!(FixtureError::Nonfinite.message("case"), "case: nonfinite output");
    assert!(same_bits(&v, &v));
    assert!(!same_bits(&v, &v[1..]));
    assert!(!same_bits(&[F32Bits(0)], &[F32Bits(0x8000_0000)]));
}

#[test]
fn test_values_are_mixed_from_their_place() {
    let mut v = 19u64
        ^ 3u64.wrapping_mul(0x9e37_79b9_7f4a_7c15)
        ^ 4u64.wrapping_mul(0xbf58_476d_1ce4_e5b9)
        ^ 5u64.wrapping_mul(0x94d0_49bb_1331_11eb)
        ^ 6u64.wrapping_mul(0xd6e8_feb8_6659_fd93);
    v ^= v >> 30;
    v = v.wrapping_mul(0xbf58_476d_1ce4_e5b9);
    v ^= v >> 27;
    v = v.wrapping_mul(0x94d0_49bb_1331_11eb);
    v ^= v >> 31;
    assert_eq!(value(2, 3, 4, 5, 19), v >> 40);
}

#[test]
fn the_pairs_of_a_call_are_counted() {
    let s = [Slice { id: 0, start: 2, len: 3 }, Slice { id: 1, start: 0, len: 1 }];
    assert_eq!(history_positions(&s), 3 + 4 + 5 + 1);
    assert_eq!(selected_rows(1), vec![0]);
    assert_eq!(selected_rows(2), vec![0, 1]);
    assert_eq!(selected_rows(9), vec![0, 4, 8]);
    assert_eq!(timing_order(3, 0), vec![0, 1, 2]);
    assert_eq!(timing_order(3, 1), vec![2, 1, 0]);
    let h = homogeneous("n", 2, 3, 4, 5);
    assert_eq!(h.slices, vec![Slice { id: 0, start: 4, len: 3 }, Slice { id: 1, start: 4, len: 3 }]);
    let ids = |c: Case| c.slices.iter().map(|s| s.id).collect::<Vec<_>>();
    assert_eq!(ids(composition(4, 0, 1)), vec![0, 1, 2, 3]);
    assert_eq!(ids(composition(4, 1, 1)), vec![3, 2, 1, 0]);
    assert_eq!(ids(composition(4, 2, 1)), vec![2, 3, 0, 1]);
}

#[test]
fn the_packed_check_covers_every_chunk_and_order() {
    let j = jobs();
    assert_eq!(j.len(), 50);
    assert_eq!((j[0].from, j[0].to, j[0].chunk), (0, 16, 32));
    assert_eq!((j[5].from, j[5].to, j[5].permutation), (3, 19, Permutation::Rotated));
    assert_eq!((j[41].chunk, j[42].to, j[49].to), (131, 1, 2));
    assert_eq!(lengths().len(), 19);
    assert!(context_suffices(10, 952) && !context_suffices(10, 951));
    assert!(!context_suffices(0, 2000));
    let mut state = FUZZ_SEED;
    let set = fuzz_set(&mut state, 2);
    let mut r = FUZZ_SEED;
    let r = xorshift(&mut r);
    assert_eq!(set.len(), 2 + (r % 15) as usize);
    for (i, (id, len)) in set.iter().enumerate() {
        assert_eq!(*id, 10_000 + 32 + i as u64);
        assert_eq!(*len, 1 + (r.rotate_left(i as u32) % 512) as usize);
    }
}

#[test]
fn benchmark_shapes_must_fit() {
    assert_eq!(bench_shapes(1, &[16], &[1024], 16, 1024), Ok(()));
    assert_eq!(
        bench_shapes(0, &[16], &[1024], 16, 1024).unwrap_err().message(),
        "iters must be positive"
    );
    assert_eq!(bench_shapes(1, &[17], &[1024], 16, 1024), Err(BenchError::Batch));
    assert_eq!(bench_shapes(1, &[16], &[1025], 16, 1024), Err(BenchError::Chunk));
    assert!(is_timed(16, 64, 1024) && !is_timed(16, 65, 1024));
    assert!(only_ids(64, 16).is_ok());
    assert_eq!(
        only_ids(65, 16).unwrap_err().message(),
        "greedy packed D2H copied more than token IDs"
    );
    assert_eq!((fuzz_chunk(0), fuzz_chunk(5), fuzz_chunk(7)), (37, 256, 73));
    assert_eq!((concurrent_steps(0), concurrent_steps(1)), (6, 12));
    assert_eq!(timing_modes(0), vec![Mode::Eager, Mode::Graph, Mode::Packed]);
    assert_eq!(timing_modes(3), vec![Mode::Packed, Mode::Graph, Mode::Eager]);
}

#[test]
fn a_benchmark_needs_trials_a_candidate_and_a_call() {
    assert_eq!(bench_settings(1, 3, 2, 1), Ok(()));
    assert_eq!(bench_settings(0, 3, 2, 1), Err(TimingError::Settings));
    assert_eq!(bench_settings(1, 2, 1, 0), Err(TimingError::Settings));
    assert_eq!(bench_settings(1, 3, 1, 0), Err(TimingError::NoCandidate));
    assert_eq!(bench_settings(1, 3, 2, 0).unwrap_err().message(), "case filter selected no shapes");
}

#[test]
fn each_variant_is_timed_once_and_the_reference_first() {
    let all = variants();
    let (a, b) = (all[0], all[1]);
    let reference = PrefillAttentionVariant::Reference;
    assert_eq!(timed_variants(&[b, a, b, reference, a]), vec![reference, b, a]);
    assert_eq!(timed_variants(&[]), vec![reference]);
}
