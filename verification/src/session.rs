//! One test's compile-then-run-then-verify session, as decisions over plain
//! values: planning the scripted operations and memory requests, judging
//! each collaborator's outcome, and comparing the decoded state against the
//! declared checks. The processes themselves run outside the library and
//! hand their captured output in.

use vstd::prelude::*;

use crate::decoder::{mem_lookup, mem_view, ProtocolError, RunResult};
use crate::emulator::{
    value_len, value_words, MemoryData, MemoryValue, Operation, OperationValue, GPRegister,
    ops_view,
};
use crate::tests::{checks_view, CheckValue, TestCheck, TestChecks, TestData};

verus! {

/// What a collaborator process left behind: whether it exited successfully,
/// and its captured output streams.
#[derive(Debug, Clone, PartialEq, Eq)]
pub struct ProcessOutput {
    pub success: bool,
    pub stdout: Vec<u8>,
    pub stderr: Vec<u8>,
}

/// One mismatch between a declared check and the decoded state.
#[derive(Debug, PartialEq)]
pub enum DataFailure {
    /// A register, its expected word and the word found.
    Register(GPRegister, u32, u32),
    /// An address, its expected value and the value found.
    Memory(u32, MemoryData, MemoryData),
}

/// The mathematical value of a `DataFailure`.
#[verifier::ext_equal]
pub ghost enum DataFailureValue {
    Register(GPRegister, u32, u32),
    Memory(u32, MemoryValue, MemoryValue),
}

impl View for DataFailure {
    type V = DataFailureValue;

    open spec fn view(&self) -> DataFailureValue {
        match self {
            DataFailure::Register(r, e, f) => DataFailureValue::Register(*r, *e, *f),
            DataFailure::Memory(a, e, f) => DataFailureValue::Memory(*a, e@, f@),
        }
    }
}

/// The views of a sequence of failures.
pub open spec fn failures_view(s: Seq<DataFailure>) -> Seq<DataFailureValue> {
    s.map_values(|f: DataFailure| f@)
}

/// Why one test did not pass: the stage that failed and what it left.
#[derive(Debug, PartialEq)]
pub enum RunError {
    /// The assembler could not be started; the I/O error's text.
    CompileExec(String),
    /// The assembler exited with a failure; its captured output.
    Compile(ProcessOutput),
    /// The emulator could not be started; the I/O error's text.
    RunExec(String),
    /// The emulator exited with a failure; its captured output.
    Run(ProcessOutput),
    /// The run completed but checks mismatched; every mismatch, and the
    /// halt code if execution stopped abnormally.
    RegistersFailed(Vec<DataFailure>, Option<String>),
}

/// Whether a run of store-words starting at an address stays inside the
/// 32-bit address space.
pub open spec fn span_fits(addr: u32, ws: Seq<u32>) -> bool {
    ws.len() == 0 || addr + 4 * (ws.len() - 1) <= u32::MAX
}

/// The scripted operations a setup list turns into. A register entry
/// becomes a register store. A memory entry becomes a word store when its
/// address is word-aligned, its value has a word image, and the words fit
/// the address space; any other memory entry is rejected.
pub open spec fn plan_ops(setup: Seq<CheckValue>) -> Seq<OperationValue>
    decreases setup.len(),
{
    if setup.len() == 0 {
        Seq::empty()
    } else {
        let pre = plan_ops(setup.drop_last());
        match setup.last() {
            CheckValue::Register(r, v) => pre.push(OperationValue::SetReg(r, v)),
            CheckValue::Memory(a, mv) => if a % 4 == 0 && value_words(mv) is Some && span_fits(
                a,
                value_words(mv)->0,
            ) {
                pre.push(OperationValue::SetMem(a, value_words(mv)->0))
            } else {
                pre
            },
        }
    }
}

/// The addresses of the setup entries that planning rejects, in order.
pub open spec fn plan_rejected(setup: Seq<CheckValue>) -> Seq<u32>
    decreases setup.len(),
{
    if setup.len() == 0 {
        Seq::empty()
    } else {
        let pre = plan_rejected(setup.drop_last());
        match setup.last() {
            CheckValue::Register(_, _) => pre,
            CheckValue::Memory(a, mv) => if a % 4 == 0 && value_words(mv) is Some && span_fits(
                a,
                value_words(mv)->0,
            ) {
                pre
            } else {
                pre.push(a)
            },
        }
    }
}

/// Turns a setup list into scripted operations, reporting every rejected
/// entry's address instead of dropping it silently.
pub fn plan_operations(setup: &TestChecks) -> (r: (Vec<Operation>, Vec<u32>))
    ensures
        ops_view(r.0@) == plan_ops(setup@),
        r.1@ == plan_rejected(setup@),
{
    let mut ops: Vec<Operation> = Vec::new();
    let mut rejected: Vec<u32> = Vec::new();
    let mut i: usize = 0;
    proof {
        assert(checks_view(setup.0@).take(0) =~= Seq::<CheckValue>::empty());
        assert(ops_view(ops@) =~= Seq::<OperationValue>::empty());
    }
    while i < setup.0.len()
        invariant
            0 <= i <= setup.0@.len(),
            ops_view(ops@) == plan_ops(checks_view(setup.0@).take(i as int)),
            rejected@ == plan_rejected(checks_view(setup.0@).take(i as int)),
        decreases setup.0@.len() - i,
    {
        let ghost cv = checks_view(setup.0@);
        proof {
            assert(cv.take(i + 1).drop_last() =~= cv.take(i as int));
            assert(cv.take(i + 1).last() == cv[i as int]);
            assert(cv[i as int] == setup.0@[i as int]@);
        }
        match &setup.0[i] {
            TestCheck::Register(r, v) => {
                let op = Operation::SetReg(*r, *v);
                proof {
                    assert(ops_view(ops@.push(op)) =~= ops_view(ops@).push(op@));
                }
                ops.push(op);
            },
            TestCheck::Memory(a, data) => {
                match data.words() {
                    Ok(ws) => {
                        let fits = ws.len() == 0 || (*a as u128) + 4 * (ws.len() as u128 - 1)
                            <= u32::MAX as u128;
                        if *a % 4 == 0 && fits {
                            let op = Operation::SetMem(*a, ws);
                            proof {
                                assert(ops_view(ops@.push(op)) =~= ops_view(ops@).push(op@));
                            }
                            ops.push(op);
                        } else {
                            rejected.push(*a);
                        }
                    },
                    Err(()) => {
                        rejected.push(*a);
                    },
                }
            },
        }
        i = i + 1;
    }
    proof {
        assert(checks_view(setup.0@).take(setup.0@.len() as int) =~= checks_view(setup.0@));
    }
    (ops, rejected)
}

/// Every memory check's value has a length the 32-bit query sizing can
/// carry.
pub open spec fn lens_fit(checks: Seq<CheckValue>) -> bool {
    forall|i: int|
        0 <= i < checks.len() ==> ((#[trigger] checks[i]) matches CheckValue::Memory(_, mv)
            ==> value_len(mv) <= u32::MAX)
}

/// The memory observations the checks need: each memory check's address
/// with its value's canonical byte length, in check order.
pub open spec fn requests_spec(checks: Seq<CheckValue>) -> Seq<(u32, u32)>
    decreases checks.len(),
{
    if checks.len() == 0 {
        Seq::empty()
    } else {
        let pre = requests_spec(checks.drop_last());
        match checks.last() {
            CheckValue::Register(_, _) => pre,
            CheckValue::Memory(a, mv) => pre.push((a, value_len(mv) as u32)),
        }
    }
}

/// Collects the memory observations the checks phase needs.
pub fn memory_requests(checks: &TestChecks) -> (r: Vec<(u32, u32)>)
    requires
        lens_fit(checks@),
    ensures
        r@ == requests_spec(checks@),
{
    let mut out: Vec<(u32, u32)> = Vec::new();
    let mut i: usize = 0;
    while i < checks.0.len()
        invariant
            0 <= i <= checks.0@.len(),
            lens_fit(checks@),
            out@ == requests_spec(checks_view(checks.0@).take(i as int)),
        decreases checks.0@.len() - i,
    {
        let ghost cv = checks_view(checks.0@);
        proof {
            assert(cv.take(i + 1).drop_last() =~= cv.take(i as int));
            assert(cv.take(i + 1).last() == cv[i as int]);
            assert(cv[i as int] == checks.0@[i as int]@);
        }
        match &checks.0[i] {
            TestCheck::Register(_, _) => {},
            TestCheck::Memory(a, data) => {
                out.push((*a, data.len_real()));
            },
        }
        i = i + 1;
    }
    proof {
        assert(checks_view(checks.0@).take(checks.0@.len() as int) =~= checks_view(checks.0@));
    }
    out
}

/// Every register check in the list names a real register.
pub open spec fn checks_regs_wf(checks: Seq<CheckValue>) -> bool {
    forall|i: int|
        0 <= i < checks.len() ==> ((#[trigger] checks[i]) matches CheckValue::Register(r, _)
            ==> r.wf())
}

/// Every mismatch between the checks and the decoded state, in check order
/// and without short-circuiting; or the first checked address whose
/// observation the decoded state does not hold, which is a defect.
pub open spec fn mismatches(
    checks: Seq<CheckValue>,
    regs: Seq<u32>,
    mem: Seq<(u32, MemoryValue)>,
) -> Result<Seq<DataFailureValue>, u32>
    decreases checks.len(),
{
    if checks.len() == 0 {
        Ok(Seq::empty())
    } else {
        match mismatches(checks.drop_last(), regs, mem) {
            Err(a) => Err(a),
            Ok(pre) => match checks.last() {
                CheckValue::Register(r, v) => {
                    let found = regs[r.spec_index() as int];
                    if found != v {
                        Ok(pre.push(DataFailureValue::Register(r, v, found)))
                    } else {
                        Ok(pre)
                    }
                },
                CheckValue::Memory(a, mv) => match mem_lookup(mem, a) {
                    None => Err(a),
                    Some(found) => if found != mv {
                        Ok(pre.push(DataFailureValue::Memory(a, mv, found)))
                    } else {
                        Ok(pre)
                    },
                },
            },
        }
    }
}

proof fn lemma_mismatches_err_extends(
    checks: Seq<CheckValue>,
    regs: Seq<u32>,
    mem: Seq<(u32, MemoryValue)>,
    k: int,
    m: int,
    a: u32,
)
    requires
        0 <= k <= m <= checks.len(),
        mismatches(checks.take(k), regs, mem) == Err::<Seq<DataFailureValue>, u32>(a),
    ensures
        mismatches(checks.take(m), regs, mem) == Err::<Seq<DataFailureValue>, u32>(a),
    decreases m - k,
{
    if k < m {
        assert(checks.take(k + 1).drop_last() =~= checks.take(k));
        lemma_mismatches_err_extends(checks, regs, mem, k + 1, m, a);
    }
}

/// Compares every check against the decoded state, accumulating all
/// mismatches. A check whose observation is missing from the decoded state
/// is a protocol defect, reported and never papered over.
pub fn verify_checks(checks: &TestChecks, rr: &RunResult) -> (r: Result<
    Vec<DataFailure>,
    ProtocolError,
>)
    requires
        rr.wf(),
        checks_regs_wf(checks@),
    ensures
        match mismatches(checks@, rr.registers@, mem_view(rr.memory@)) {
            Ok(fs) => r is Ok && failures_view(r->Ok_0@) == fs,
            Err(a) => r == Err::<Vec<DataFailure>, ProtocolError>(
                ProtocolError::MissingObservation(a),
            ),
        },
{
    let ghost cv = checks_view(checks.0@);
    let ghost regs = rr.registers@;
    let ghost mem = mem_view(rr.memory@);
    let mut out: Vec<DataFailure> = Vec::new();
    let mut i: usize = 0;
    proof {
        assert(cv.take(0) =~= Seq::<CheckValue>::empty());
        assert(failures_view(out@) =~= Seq::<DataFailureValue>::empty());
    }
    while i < checks.0.len()
        invariant
            0 <= i <= checks.0@.len(),
            cv == checks_view(checks.0@),
            regs == rr.registers@,
            mem == mem_view(rr.memory@),
            rr.wf(),
            checks_regs_wf(cv),
            mismatches(cv.take(i as int), regs, mem) == Ok::<Seq<DataFailureValue>, u32>(
                failures_view(out@),
            ),
        decreases checks.0@.len() - i,
    {
        proof {
            assert(cv.take(i + 1).drop_last() =~= cv.take(i as int));
            assert(cv.take(i + 1).last() == cv[i as int]);
            assert(cv[i as int] == checks.0@[i as int]@);
        }
        match &checks.0[i] {
            TestCheck::Register(r, v) => {
                proof {
                    assert(cv[i as int] matches CheckValue::Register(r2, _) && r2 == *r);
                }
                let found = rr.get_reg(r);
                if found != *v {
                    let f = DataFailure::Register(*r, *v, found);
                    proof {
                        assert(failures_view(out@.push(f)) =~= failures_view(out@).push(f@));
                    }
                    out.push(f);
                }
            },
            TestCheck::Memory(a, data) => {
                match rr.get_mem(*a) {
                    None => {
                        proof {
                            assert(mismatches(cv.take(i + 1), regs, mem) == Err::<
                                Seq<DataFailureValue>,
                                u32,
                            >(*a));
                            lemma_mismatches_err_extends(
                                cv,
                                regs,
                                mem,
                                i + 1,
                                cv.len() as int,
                                *a,
                            );
                            assert(cv.take(cv.len() as int) =~= cv);
                        }
                        return Err(ProtocolError::MissingObservation(*a));
                    },
                    Some(found) => {
                        if !data.eq(found) {
                            let f = DataFailure::Memory(*a, data.clone(), found.clone());
                            proof {
                                assert(failures_view(out@.push(f)) =~= failures_view(out@).push(
                                    f@,
                                ));
                            }
                            out.push(f);
                        }
                    },
                }
            },
        }
        i = i + 1;
    }
    proof {
        assert(cv.take(cv.len() as int) =~= cv);
    }
    Ok(out)
}

/// Judges the verification stage: a clean run with every check satisfied is
/// a pass; any mismatch fails the test with the full mismatch list and the
/// halt code, if the banner reported one.
pub fn evaluate_run(checks: &TestChecks, rr: &RunResult) -> (r: Result<
    Result<(), RunError>,
    ProtocolError,
>)
    requires
        rr.wf(),
        checks_regs_wf(checks@),
    ensures
        match mismatches(checks@, rr.registers@, mem_view(rr.memory@)) {
            Ok(fs) => if fs.len() == 0 {
                r == Ok::<Result<(), RunError>, ProtocolError>(Ok(()))
            } else {
                &&& r is Ok
                &&& r->Ok_0 is Err
                &&& r->Ok_0->Err_0 matches RunError::RegistersFailed(out_fs, stop)
                    && failures_view(out_fs@) == fs && stop == rr.stop_code
            },
            Err(a) => r == Err::<Result<(), RunError>, ProtocolError>(
                ProtocolError::MissingObservation(a),
            ),
        },
{
    let failures = match verify_checks(checks, rr) {
        Ok(fs) => fs,
        Err(e) => {
            return Err(e);
        },
    };
    if failures.len() == 0 {
        Ok(Ok(()))
    } else {
        let stop: Option<String> = match &rr.stop_code {
            Some(s) => Some(s.clone()),
            None => None,
        };
        Ok(Err(RunError::RegistersFailed(failures, stop)))
    }
}

/// Judges the compile stage: a spawn failure and a failing exit each end
/// the test with the captured evidence; only a successful exit goes on to
/// the emulator.
pub fn compile_outcome(result: Result<ProcessOutput, String>) -> (r: Result<(), RunError>)
    ensures
        match result {
            Err(msg) => r == Err::<(), RunError>(RunError::CompileExec(msg)),
            Ok(out) => if out.success {
                r == Ok::<(), RunError>(())
            } else {
                r == Err::<(), RunError>(RunError::Compile(out))
            },
        },
{
    match result {
        Err(msg) => Err(RunError::CompileExec(msg)),
        Ok(out) => {
            if out.success {
                Ok(())
            } else {
                Err(RunError::Compile(out))
            }
        },
    }
}

/// Judges the run stage: a spawn failure and a failing exit each end the
/// test with the captured evidence; a successful exit hands the captured
/// output on for decoding.
pub fn emulator_outcome(result: Result<ProcessOutput, String>) -> (r: Result<
    ProcessOutput,
    RunError,
>)
    ensures
        match result {
            Err(msg) => r == Err::<ProcessOutput, RunError>(RunError::RunExec(msg)),
            Ok(out) => if out.success {
                r == Ok::<ProcessOutput, RunError>(out)
            } else {
                r == Err::<ProcessOutput, RunError>(RunError::Run(out))
            },
        },
{
    match result {
        Err(msg) => Err(RunError::RunExec(msg)),
        Ok(out) => {
            if out.success {
                Ok(out)
            } else {
                Err(RunError::Run(out))
            }
        },
    }
}

/// Law: every operation that planning emits keeps its word stores inside
/// the 32-bit address space, so the session can always script it.
pub proof fn lemma_plan_ops_fit(setup: Seq<CheckValue>)
    ensures
        crate::emulator::ops_fit(plan_ops(setup)),
    decreases setup.len(),
{
    if setup.len() > 0 {
        lemma_plan_ops_fit(setup.drop_last());
        let pre = plan_ops(setup.drop_last());
        assert forall|i: int|
            0 <= i < plan_ops(setup).len() implies ((#[trigger] plan_ops(setup)[i]) matches
        OperationValue::SetMem(a, ws) ==> crate::emulator::span_fits(a, ws)) by {
            if i < pre.len() {
                assert(plan_ops(setup)[i] == pre[i]);
            }
        }
    }
}

/// The views of grouped results: each group's id, name, and entries.
pub open spec fn grouped_view<R>(v: Seq<(usize, String, Vec<(String, R)>)>) -> Seq<
    (usize, String, Seq<(String, R)>),
> {
    v.map_values(|t: (usize, String, Vec<(String, R)>)| (t.0, t.1, t.2@))
}

/// Consecutive results of the same group gathered into one entry: a result
/// joins the latest group when it carries the same group id, else it opens
/// a new group under its own id and group name. Order is kept throughout.
pub open spec fn group_spec<R>(rs: Seq<(usize, String, String, R)>) -> Seq<
    (usize, String, Seq<(String, R)>),
>
    decreases rs.len(),
{
    if rs.len() == 0 {
        Seq::empty()
    } else {
        let pre = group_spec(rs.drop_last());
        let t = rs.last();
        if pre.len() > 0 && pre.last().0 == t.0 {
            pre.update(
                pre.len() - 1,
                (pre.last().0, pre.last().1, pre.last().2.push((t.2, t.3))),
            )
        } else {
            pre.push((t.0, t.1, seq![(t.2, t.3)]))
        }
    }
}

/// Gathers per-test results into their groups, in completion-table order.
pub fn group_results<R>(results: Vec<(usize, String, String, R)>) -> (r: Vec<
    (usize, String, Vec<(String, R)>),
>)
    ensures
        grouped_view(r@) == group_spec(results@),
{
    let ghost all = results@;
    let mut rest = results;
    let mut out: Vec<(usize, String, Vec<(String, R)>)> = Vec::new();
    proof {
        assert(all.take(0) =~= Seq::<(usize, String, String, R)>::empty());
        assert(grouped_view(out@) =~= Seq::<(usize, String, Seq<(String, R)>)>::empty());
    }
    while rest.len() > 0
        invariant
            rest@.len() <= all.len(),
            rest@ =~= all.skip(all.len() - rest@.len()),
            grouped_view(out@) == group_spec(all.take(all.len() - rest@.len())),
        decreases rest@.len(),
    {
        let ghost k = all.len() - rest@.len();
        proof {
            assert(rest@[0] == all[k as int]);
            assert(rest@.skip(1) =~= all.skip(k as int + 1));
            assert(all.take(k as int + 1).drop_last() =~= all.take(k as int));
            assert(all.take(k as int + 1).last() == all[k as int]);
        }
        let t = rest.remove(0);
        let same = out.len() > 0 && {
            let n = out.len();
            out[n - 1].0 == t.0
        };
        if same {
            let ghost prev = out@;
            match out.pop() {
                Some(g) => {
                    let (gid, gname, mut entries) = g;
                    entries.push((t.2, t.3));
                    out.push((gid, gname, entries));
                    proof {
                        assert(prev.drop_last() =~= out@.drop_last());
                        assert(grouped_view(out@) =~= grouped_view(prev).update(
                            prev.len() - 1,
                            (
                                grouped_view(prev).last().0,
                                grouped_view(prev).last().1,
                                grouped_view(prev).last().2.push((all[k as int].2, all[k as int].3)),
                            ),
                        ));
                    }
                },
                None => {
                    proof {
                        assert(false);
                    }
                },
            }
        } else {
            let mut entries: Vec<(String, R)> = Vec::new();
            entries.push((t.2, t.3));
            let ghost prev = out@;
            out.push((t.0, t.1, entries));
            proof {
                assert(grouped_view(out@) =~= grouped_view(prev).push(
                    (all[k as int].0, all[k as int].1, seq![(all[k as int].2, all[k as int].3)]),
                ));
            }
        }
    }
    proof {
        assert(all.take(all.len() as int) =~= all);
    }
    out
}

/// How many of the results failed.
pub open spec fn n_failed(rs: Seq<(usize, String, String, Result<(), RunError>)>) -> int
    decreases rs.len(),
{
    if rs.len() == 0 {
        0int
    } else {
        n_failed(rs.drop_last()) + (if rs.last().3 is Err {
            1int
        } else {
            0int
        })
    }
}

proof fn lemma_n_failed_bound(rs: Seq<(usize, String, String, Result<(), RunError>)>)
    ensures
        0 <= n_failed(rs) <= rs.len(),
    decreases rs.len(),
{
    if rs.len() > 0 {
        lemma_n_failed_bound(rs.drop_last());
    }
}

/// Counts the passed and failed tests; the failed count becomes the
/// process's exit status.
pub fn count_outcomes(results: &Vec<(usize, String, String, Result<(), RunError>)>) -> (r: (
    usize,
    usize,
))
    ensures
        r.1 == n_failed(results@),
        r.0 + r.1 == results@.len(),
{
    let mut ok: usize = 0;
    let mut failed: usize = 0;
    let mut i: usize = 0;
    proof {
        assert(results@.take(0) =~= Seq::<(usize, String, String, Result<(), RunError>)>::empty());
    }
    while i < results.len()
        invariant
            0 <= i <= results@.len(),
            failed == n_failed(results@.take(i as int)),
            ok + failed == i,
        decreases results@.len() - i,
    {
        proof {
            lemma_n_failed_bound(results@.take(i as int));
            assert(results@.take(i + 1).drop_last() =~= results@.take(i as int));
            assert(results@.take(i + 1).last() == results@[i as int]);
        }
        if results[i].3.is_err() {
            failed = failed + 1;
        } else {
            ok = ok + 1;
        }
        i = i + 1;
    }
    proof {
        assert(results@.take(results@.len() as int) =~= results@);
    }
    (ok, failed)
}

/// The effective entry point of a test: its declared one, or its name.
pub fn effective_entrypoint<'a>(test_name: &'a str, data: &'a TestData) -> (r: &'a str)
    ensures
        match data {
            TestData::WithSetup { entrypoint: Some(e), .. } => r@ == e@,
            _ => r@ == test_name@,
        },
{
    match data {
        TestData::WithSetup { entrypoint: Some(e), .. } => e.as_str(),
        _ => test_name,
    }
}

} // verus!
