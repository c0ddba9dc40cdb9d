//! The dispatcher's scheduling and ordering guarantees, the status tracker,
//! and whole-session scenarios driven the way the runner drives them.

use emutest::decoder::RunResult;
use emutest::emulator::{GPRegister, MemoryData, Operation};
use emutest::session::{
    compile_outcome, count_outcomes, emulator_outcome, evaluate_run, group_results,
    memory_requests, plan_operations, DataFailure, ProcessOutput, RunError,
};
use emutest::tests::{TestCheck, TestChecks};
use emutest::threadpool::{Dispatcher, FinishStatus, StatusTracker, SubmitOutcome, Update,
    UpdatedStatus};

fn ok_output() -> ProcessOutput {
    ProcessOutput { success: true, stdout: Vec::new(), stderr: Vec::new() }
}

/// Submits `k` jobs to a dispatcher with `workers` workers, completes them
/// in an order that starts from the back of the in-flight set, and returns
/// the drained results. The job payload is its id doubled; the result is
/// the payload plus one.
fn run_pool(workers: usize, k: usize) -> Vec<usize> {
    let mut d: Dispatcher<usize, usize> = Dispatcher::new(workers);
    let mut in_flight: Vec<(usize, usize, usize)> = Vec::new();
    for i in 0..k {
        match d.submit(2 * i) {
            SubmitOutcome::Assigned { worker, id, data } => in_flight.push((worker, id, data)),
            SubmitOutcome::Queued { id } => assert_eq!(id, i),
        }
    }
    d.finish();
    while let Some((worker, _id, data)) = in_flight.pop() {
        if let Some((next_id, next_data)) = d.record_result(worker, data + 1) {
            assert_eq!(next_data, 2 * next_id);
            in_flight.insert(0, (worker, next_id, next_data));
        }
    }
    assert!(d.is_drained());
    d.drain()
}

#[test]
fn draining_returns_one_result_per_job_at_its_index() {
    for workers in 1..4usize {
        for k in 0..7usize {
            let results = run_pool(workers, k);
            assert_eq!(results.len(), k);
            for (i, r) in results.iter().enumerate() {
                assert_eq!(*r, 2 * i + 1);
            }
        }
    }
}

#[test]
fn empty_drain_returns_no_results() {
    let mut d: Dispatcher<u32, u32> = Dispatcher::new(3);
    d.finish();
    assert!(d.is_drained());
    assert_eq!(d.drain(), Vec::<u32>::new());
}

#[test]
fn completion_order_does_not_move_results() {
    let mut d: Dispatcher<&str, &str> = Dispatcher::new(2);
    let (w0, w1) = match (d.submit("first"), d.submit("second")) {
        (
            SubmitOutcome::Assigned { worker: w0, id: 0, .. },
            SubmitOutcome::Assigned { worker: w1, id: 1, .. },
        ) => (w0, w1),
        _ => panic!("two idle workers take both jobs"),
    };
    d.finish();
    // The later submission finishes first.
    assert!(d.record_result(w1, "second result").is_none());
    assert!(d.record_result(w0, "first result").is_none());
    let results = d.drain();
    assert_eq!(results, vec!["first result", "second result"]);
}

#[test]
fn queued_jobs_go_to_the_freed_worker_in_fifo_order() {
    let mut d: Dispatcher<u32, u32> = Dispatcher::new(1);
    let w = match d.submit(10) {
        SubmitOutcome::Assigned { worker, id: 0, data: 10 } => worker,
        _ => panic!("the one worker takes the first job"),
    };
    assert!(matches!(d.submit(20), SubmitOutcome::Queued { id: 1 }));
    assert!(matches!(d.submit(30), SubmitOutcome::Queued { id: 2 }));
    d.finish();
    assert_eq!(d.record_result(w, 100), Some((1, 20)));
    assert_eq!(d.record_result(w, 200), Some((2, 30)));
    assert_eq!(d.record_result(w, 300), None);
    assert_eq!(d.drain(), vec![100, 200, 300]);
}

#[test]
fn status_tracker_follows_starts_and_finishes() {
    let mut t = StatusTracker::new();
    t.note_sent();
    t.note_sent();
    assert_eq!(t.is_finished(), FinishStatus::Working);
    let r = t.update_status(vec![
        Update::Started(0, "a/one".to_string()),
        Update::Started(1, "a/two".to_string()),
        Update::Finished(0),
    ]);
    match r {
        UpdatedStatus::Changed(names) => assert_eq!(names, vec!["a/two".to_string()]),
        UpdatedStatus::Unchanged => panic!("events arrived"),
    }
    assert_eq!(t.is_finished(), FinishStatus::Working);
    t.update_status(vec![Update::Finished(1)]);
    assert_eq!(t.is_finished(), FinishStatus::Finished);
    assert!(matches!(t.update_status(vec![]), UpdatedStatus::Unchanged));
}

#[test]
fn status_tracker_starts_unstarted() {
    let t = StatusTracker::new();
    assert_eq!(t.is_finished(), FinishStatus::NotStarted);
}

/// A register set up and checked back with the same value, both
/// collaborators succeeding: the outcome is a pass.
#[test]
fn matching_register_setup_and_check_passes() {
    let r1 = GPRegister::new(1).unwrap();
    let setup = TestChecks(vec![TestCheck::Register(r1, 0x5)]);
    let checks = TestChecks(vec![TestCheck::Register(r1, 0x5)]);

    let (ops, rejected) = plan_operations(&setup);
    assert!(rejected.is_empty());
    assert_eq!(ops.len(), 1);
    let requests = memory_requests(&checks);
    assert!(requests.is_empty());
    let (script, skip) = emutest::emulator::script_lines(&ops, &requests);
    assert_eq!(skip, 11);
    assert_eq!(script[0], b"r 1 0x5".to_vec());
    assert_eq!(script[1], b"e".to_vec());
    assert_eq!(script[2], b"q".to_vec());

    assert_eq!(compile_outcome(Ok(ok_output())), Ok(()));
    let out = emulator_outcome(Ok(ok_output())).expect("emulator succeeded");
    assert!(out.success);

    // The transcript the emulator answers with: the acknowledgement lines,
    // the execution banner, the special registers, and r1 holding 5.
    let mut lines: Vec<Vec<u8>> = Vec::new();
    for _ in 0..(skip + 13 + 2) {
        lines.push(b"noise".to_vec());
    }
    lines.push(b"NAMEX-00000005".to_vec());
    for _ in 0..7 {
        lines.push(Vec::new());
    }
    let rr = RunResult::decode(&lines, skip + 13, &requests).expect("decode");
    assert_eq!(evaluate_run(&checks, &rr), Ok(Ok(())));
}

/// A checked word that decodes differently: the outcome lists exactly that
/// mismatch, with no halt code.
#[test]
fn mismatched_memory_check_fails_verification() {
    let checks = TestChecks(vec![TestCheck::Memory(0x1000, MemoryData::Word(0xdead_beef))]);
    let rr = RunResult {
        registers: vec![0; 32],
        memory: vec![(0x1000, MemoryData::Word(0xfeed_face))],
        stop_code: None,
    };
    let outcome = evaluate_run(&checks, &rr).expect("observation present");
    assert_eq!(
        outcome,
        Err(RunError::RegistersFailed(
            vec![DataFailure::Memory(
                0x1000,
                MemoryData::Word(0xdead_beef),
                MemoryData::Word(0xfeed_face),
            )],
            None,
        ))
    );
}

/// The assembler exits with status 1: the test fails as a compile failure
/// carrying the captured output, and the emulator is never started.
#[test]
fn failing_compile_keeps_the_emulator_uninvoked() {
    let out = ProcessOutput {
        success: false,
        stdout: b"error: no such label".to_vec(),
        stderr: b"assembler failed".to_vec(),
    };
    let mut emulator_invoked = false;
    let outcome = match compile_outcome(Ok(out.clone())) {
        Ok(()) => {
            emulator_invoked = true;
            Ok(())
        }
        Err(e) => Err(e),
    };
    assert!(!emulator_invoked);
    assert_eq!(outcome, Err(RunError::Compile(out)));
}

/// A setup entry at a misaligned address is reported and dropped; the rest
/// of the setup still turns into operations.
#[test]
fn misaligned_setup_memory_is_reported_and_skipped() {
    let r1 = GPRegister::new(1).unwrap();
    let setup = TestChecks(vec![
        TestCheck::Memory(0x1001, MemoryData::Word(7)),
        TestCheck::Register(r1, 0x5),
        TestCheck::Memory(0x2000, MemoryData::Word(9)),
    ]);
    let (ops, rejected) = plan_operations(&setup);
    assert_eq!(rejected, vec![0x1001]);
    assert_eq!(ops.len(), 2);
    assert!(matches!(ops[0], Operation::SetReg(_, 0x5)));
    match &ops[1] {
        Operation::SetMem(addr, words) => {
            assert_eq!(*addr, 0x2000);
            assert_eq!(words, &vec![9u32]);
        }
        _ => panic!("the aligned store stays"),
    }
}

#[test]
fn setup_values_without_word_image_are_rejected() {
    let setup = TestChecks(vec![TestCheck::Memory(0x1000, MemoryData::Byte(7))]);
    let (ops, rejected) = plan_operations(&setup);
    assert!(ops.is_empty());
    assert_eq!(rejected, vec![0x1000]);
}

#[test]
fn spawn_failures_become_exec_errors() {
    assert_eq!(
        compile_outcome(Err("no such file".to_string())),
        Err(RunError::CompileExec("no such file".to_string()))
    );
    assert_eq!(
        emulator_outcome(Err("broken pipe".to_string())),
        Err(RunError::RunExec("broken pipe".to_string()))
    );
}

#[test]
fn failing_emulator_exit_fails_the_run() {
    let out = ProcessOutput { success: false, stdout: Vec::new(), stderr: b"boom".to_vec() };
    assert_eq!(emulator_outcome(Ok(out.clone())), Err(RunError::Run(out)));
}

#[test]
fn missing_observation_is_a_defect_not_a_mismatch() {
    let checks = TestChecks(vec![TestCheck::Memory(0x1000, MemoryData::Word(1))]);
    let rr = RunResult { registers: vec![0; 32], memory: vec![], stop_code: None };
    assert_eq!(
        evaluate_run(&checks, &rr),
        Err(emutest::decoder::ProtocolError::MissingObservation(0x1000))
    );
}

#[test]
fn all_mismatches_are_listed_without_short_circuit() {
    let r1 = GPRegister::new(1).unwrap();
    let r2 = GPRegister::new(2).unwrap();
    let checks = TestChecks(vec![
        TestCheck::Register(r1, 5),
        TestCheck::Register(r2, 6),
    ]);
    let mut regs = vec![0u32; 32];
    regs[1] = 9;
    regs[2] = 8;
    let rr = RunResult { registers: regs, memory: vec![], stop_code: None };
    let outcome = evaluate_run(&checks, &rr).expect("no memory checks");
    assert_eq!(
        outcome,
        Err(RunError::RegistersFailed(
            vec![DataFailure::Register(r1, 5, 9), DataFailure::Register(r2, 6, 8)],
            None,
        ))
    );
}

#[test]
fn stop_code_is_surfaced_with_failures() {
    let r1 = GPRegister::new(1).unwrap();
    let checks = TestChecks(vec![TestCheck::Register(r1, 5)]);
    let rr = RunResult {
        registers: vec![0; 32],
        memory: vec![],
        stop_code: Some("breakpoint".to_string()),
    };
    let outcome = evaluate_run(&checks, &rr).expect("no memory checks");
    assert_eq!(
        outcome,
        Err(RunError::RegistersFailed(
            vec![DataFailure::Register(r1, 5, 0)],
            Some("breakpoint".to_string()),
        ))
    );
}

#[test]
fn results_group_by_consecutive_group_ids() {
    let results = vec![
        (0usize, "alpha".to_string(), "t1".to_string(), 1u32),
        (0, "alpha".to_string(), "t2".to_string(), 2),
        (1, "beta".to_string(), "t3".to_string(), 3),
    ];
    let grouped = group_results(results);
    assert_eq!(grouped.len(), 2);
    assert_eq!(grouped[0].0, 0);
    assert_eq!(grouped[0].1, "alpha");
    assert_eq!(grouped[0].2, vec![("t1".to_string(), 1), ("t2".to_string(), 2)]);
    assert_eq!(grouped[1].0, 1);
    assert_eq!(grouped[1].2, vec![("t3".to_string(), 3)]);
}

#[test]
fn outcome_tally_counts_failures_for_the_exit_status() {
    let results = vec![
        (0usize, "g".to_string(), "a".to_string(), Ok(())),
        (0, "g".to_string(), "b".to_string(), Err(RunError::CompileExec("x".to_string()))),
        (1, "h".to_string(), "c".to_string(), Ok(())),
    ];
    let (ok, failed) = count_outcomes(&results);
    assert_eq!(ok, 2);
    assert_eq!(failed, 1);
}

#[test]
fn memory_requests_size_each_observation() {
    let checks = TestChecks(vec![
        TestCheck::Memory(0x10, MemoryData::Byte(1)),
        TestCheck::Register(GPRegister::new(3).unwrap(), 4),
        TestCheck::Memory(0x20, MemoryData::Text(b"hi".to_vec())),
    ]);
    assert_eq!(memory_requests(&checks), vec![(0x10, 1), (0x20, 3)]);
}

#[test]
fn script_lines_write_stores_and_requests() {
    let ops = vec![Operation::SetMem(0x100, vec![0xdead_beef, 0x10])];
    let requests = vec![(0x200u32, 6u32)];
    let (script, skip) = emutest::emulator::script_lines(&ops, &requests);
    assert_eq!(skip, 2);
    let texts: Vec<String> =
        script.iter().map(|l| String::from_utf8(l.clone()).unwrap()).collect();
    assert_eq!(
        texts,
        vec![
            "I 256 0xdeadbeef".to_string(),
            "I 260 0x00000010".to_string(),
            "e".to_string(),
            "v 512 2".to_string(),
            "q".to_string(),
        ]
    );
}
