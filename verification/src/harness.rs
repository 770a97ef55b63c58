use vstd::prelude::*;
use crate::value::Value;
use crate::expression::{Block, block_no_empty_blocks, eval_block};
use crate::context::Context;

verus! {

/// One finding of a unit-test sink: structured, so that the surrounding
/// program can render it however it reports. A failed check is introduced
/// by one `CheckFailed` entry and followed by one `ConditionFailed` entry
/// per condition and event that failed.
#[derive(Clone, Copy, Debug, PartialEq, Eq, Structural)]
pub enum TestError {
    /// Checks were configured but no events reached the sink: the topology
    /// may be disconnected or a transform may be missing inputs.
    NoEvents,
    /// Introduces the error entries of the check at this position.
    CheckFailed { check: usize },
    /// A condition of a check, applied to one event, failed with this code.
    ConditionFailed { check: usize, condition: usize, event: usize, code: i64 },
    /// Events reached the sink although none were expected.
    UnexpectedOutputs,
}

/// What a unit-test sink asserts about the events that reach it. A
/// condition is a compiled program of this language: an event satisfies it
/// when the program resolves on the event without error.
pub enum UnitTestSinkCheck {
    /// Check all received events against each list of conditions.
    Checks(Vec<Vec<Block>>),
    /// Check that no events were received.
    NoOutputs,
    /// Do nothing.
    NoOp,
}

impl Default for UnitTestSinkCheck {
    /// A sink configured without a check does nothing.
    fn default() -> (r: Self)
        ensures
            r is NoOp,
    {
        UnitTestSinkCheck::NoOp
    }
}

/// The outcome of one unit test, handed back to whoever drives the test:
/// the test passed exactly when `test_errors` is empty. The names of the
/// transforms (branches) the sink watched ride along, so that whoever
/// renders the findings can name them.
#[derive(Debug)]
pub struct UnitTestSinkResult {
    pub test_name: String,
    pub transform_ids: Vec<String>,
    pub test_errors: Vec<TestError>,
}

/// Whether some received event satisfies the condition.
pub open spec fn spec_condition_passes(cond: Block, events: Seq<Value>) -> bool {
    exists|e: int|
        0 <= e < events.len() && eval_block(cond, events[e], Seq::empty()).result is Ok
}

/// The error code a condition yields on an event; meaningful only when the
/// condition fails on it.
pub open spec fn spec_condition_code(cond: Block, ev: Value) -> i64 {
    match eval_block(cond, ev, Seq::empty()).result {
        Ok(_) => 0,
        Err(crate::value::Error::Recoverable { code }) => code,
        Err(crate::value::Error::Abort { code }) => code,
    }
}

/// The entries one condition contributes: nothing when some event satisfies
/// it, otherwise one entry per event.
pub open spec fn spec_condition_errors(
    check: int,
    condition: int,
    cond: Block,
    events: Seq<Value>,
) -> Seq<TestError> {
    if spec_condition_passes(cond, events) {
        Seq::empty()
    } else {
        Seq::new(
            events.len(),
            |e: int|
                TestError::ConditionFailed {
                    check: check as usize,
                    condition: condition as usize,
                    event: e as usize,
                    code: spec_condition_code(cond, events[e]),
                },
        )
    }
}

/// The entries of the conditions of one check, from position `j0` on.
pub open spec fn spec_conditions_errors(
    check: int,
    conds: Seq<Block>,
    j0: int,
    events: Seq<Value>,
) -> Seq<TestError>
    decreases conds.len(),
{
    if conds.len() == 0 {
        Seq::empty()
    } else {
        spec_condition_errors(check, j0, conds[0], events) + spec_conditions_errors(
            check,
            conds.subrange(1, conds.len() as int),
            j0 + 1,
            events,
        )
    }
}

/// One check's entries, with its preamble when anything failed.
pub open spec fn spec_check_errors(check: int, conds: Seq<Block>, events: Seq<Value>) -> Seq<
    TestError,
> {
    let es = spec_conditions_errors(check, conds, 0, events);
    if es.len() == 0 {
        Seq::empty()
    } else {
        seq![TestError::CheckFailed { check: check as usize }] + es
    }
}

/// The entries of all checks from position `i0` on.
pub open spec fn spec_checks_errors(checks: Seq<Vec<Block>>, i0: int, events: Seq<Value>) -> Seq<
    TestError,
>
    decreases checks.len(),
{
    if checks.len() == 0 {
        Seq::empty()
    } else {
        spec_check_errors(i0, checks[0]@, events) + spec_checks_errors(
            checks.subrange(1, checks.len() as int),
            i0 + 1,
            events,
        )
    }
}

/// Everything the sink reports for the received events under this check.
pub open spec fn spec_sink_errors(check: UnitTestSinkCheck, events: Seq<Value>) -> Seq<TestError> {
    match check {
        UnitTestSinkCheck::Checks(checks) => if events.len() == 0 {
            seq![TestError::NoEvents]
        } else {
            spec_checks_errors(checks@, 0, events)
        },
        UnitTestSinkCheck::NoOutputs => if events.len() > 0 {
            seq![TestError::UnexpectedOutputs]
        } else {
            Seq::empty()
        },
        UnitTestSinkCheck::NoOp => Seq::empty(),
    }
}

/// Every condition block of the check is free of empty blocks: what the
/// compile pass guarantees of each condition program.
pub open spec fn spec_check_no_empty_blocks(check: UnitTestSinkCheck) -> bool {
    match check {
        UnitTestSinkCheck::Checks(checks) => forall|i: int, j: int|
            0 <= i < checks@.len() && 0 <= j < checks@[i]@.len() ==> block_no_empty_blocks(
                #[trigger] checks@[i]@[j],
            ),
        _ => true,
    }
}

/// Whether some received event satisfies the condition.
fn condition_passes(cond: &Block, events: &Vec<Value>) -> (b: bool)
    requires
        block_no_empty_blocks(*cond),
    ensures
        b == spec_condition_passes(*cond, events@),
{
    let n = events.len();
    let mut e: usize = 0;
    while e < n
        invariant
            block_no_empty_blocks(*cond),
            n == events@.len(),
            0 <= e <= n,
            forall|k: int|
                0 <= k < e ==> !(eval_block(*cond, #[trigger] events@[k], Seq::empty()).result
                    is Ok),
        decreases n - e,
    {
        let mut ctx = Context::new(events[e]);
        if cond.resolve(&mut ctx).is_ok() {
            return true;
        }
        e += 1;
    }
    false
}

/// The entries one condition contributes, as the sink collects them.
fn condition_errors(check: usize, condition: usize, cond: &Block, events: &Vec<Value>) -> (r: Vec<
    TestError,
>)
    requires
        block_no_empty_blocks(*cond),
    ensures
        r@ == spec_condition_errors(check as int, condition as int, *cond, events@),
{
    let mut out: Vec<TestError> = Vec::new();
    if condition_passes(cond, events) {
        return out;
    }
    let n = events.len();
    let mut e: usize = 0;
    while e < n
        invariant
            block_no_empty_blocks(*cond),
            n == events@.len(),
            0 <= e <= n,
            !spec_condition_passes(*cond, events@),
            out@.len() == e,
            forall|k: int|
                0 <= k < e ==> out@[k] == (TestError::ConditionFailed {
                    check,
                    condition,
                    event: k as usize,
                    code: spec_condition_code(*cond, events@[k]),
                }),
        decreases n - e,
    {
        let mut ctx = Context::new(events[e]);
        let code = match cond.resolve(&mut ctx) {
            Ok(_) => 0,
            Err(crate::value::Error::Recoverable { code }) => code,
            Err(crate::value::Error::Abort { code }) => code,
        };
        out.push(TestError::ConditionFailed { check, condition, event: e, code });
        e += 1;
    }
    proof {
        assert(out@ =~= spec_condition_errors(check as int, condition as int, *cond, events@));
    }
    out
}

impl UnitTestSinkCheck {
    /// Applies the check to the events that reached the sink, collecting
    /// every finding in order: for each check whose conditions did not all
    /// pass, a preamble entry followed by one entry per failed condition
    /// and event. An empty result means the test passed.
    pub fn run(&self, events: &Vec<Value>) -> (r: Vec<TestError>)
        requires
            spec_check_no_empty_blocks(*self),
        ensures
            r@ == spec_sink_errors(*self, events@),
    {
        match self {
            UnitTestSinkCheck::NoOp => Vec::new(),
            UnitTestSinkCheck::NoOutputs => {
                let mut out: Vec<TestError> = Vec::new();
                if events.len() > 0 {
                    out.push(TestError::UnexpectedOutputs);
                    proof {
                        assert(out@ =~= seq![TestError::UnexpectedOutputs]);
                    }
                }
                out
            },
            UnitTestSinkCheck::Checks(checks) => {
                let mut out: Vec<TestError> = Vec::new();
                if events.len() == 0 {
                    out.push(TestError::NoEvents);
                    proof {
                        assert(out@ =~= seq![TestError::NoEvents]);
                    }
                    return out;
                }
                let n = checks.len();
                let mut i: usize = 0;
                proof {
                    assert(checks@.subrange(0, n as int) =~= checks@);
                }
                while i < n
                    invariant
                        n == checks@.len(),
                        0 <= i <= n,
                        events@.len() > 0,
                        forall|i2: int, j2: int|
                            0 <= i2 < checks@.len() && 0 <= j2 < checks@[i2]@.len()
                                ==> block_no_empty_blocks(#[trigger] checks@[i2]@[j2]),
                        spec_checks_errors(checks@, 0, events@) == out@ + spec_checks_errors(
                            checks@.subrange(i as int, n as int),
                            i as int,
                            events@,
                        ),
                    decreases n - i,
                {
                    let ghost suffix = checks@.subrange(i as int, n as int);
                    proof {
                        assert(suffix[0] == checks@[i as int]);
                        assert(suffix.subrange(1, suffix.len() as int) =~= checks@.subrange(
                            i + 1,
                            n as int,
                        ));
                    }
                    let conds = &checks[i];
                    let m = conds.len();
                    let mut check_out: Vec<TestError> = Vec::new();
                    let mut j: usize = 0;
                    proof {
                        assert(conds@.subrange(0, m as int) =~= conds@);
                    }
                    while j < m
                        invariant
                            m == conds@.len(),
                            0 <= j <= m,
                            forall|j2: int|
                                0 <= j2 < conds@.len() ==> block_no_empty_blocks(
                                    #[trigger] conds@[j2],
                                ),
                            spec_conditions_errors(i as int, conds@, 0, events@) == check_out@
                                + spec_conditions_errors(
                                i as int,
                                conds@.subrange(j as int, m as int),
                                j as int,
                                events@,
                            ),
                        decreases m - j,
                    {
                        let ghost csuffix = conds@.subrange(j as int, m as int);
                        proof {
                            assert(csuffix[0] == conds@[j as int]);
                            assert(csuffix.subrange(1, csuffix.len() as int) =~= conds@.subrange(
                                j + 1,
                                m as int,
                            ));
                        }
                        proof {
                            assert(block_no_empty_blocks(conds@[j as int]));
                        }
                        let mut es = condition_errors(i, j, &conds[j], events);
                        check_out.append(&mut es);
                        j += 1;
                    }
                    proof {
                        assert(conds@.subrange(m as int, m as int) =~= Seq::<Block>::empty());
                        assert(spec_conditions_errors(
                            i as int,
                            conds@.subrange(m as int, m as int),
                            m as int,
                            events@,
                        ) =~= Seq::<TestError>::empty());
                        assert(check_out@ =~= spec_conditions_errors(i as int, conds@, 0, events@));
                    }
                    if check_out.len() > 0 {
                        out.push(TestError::CheckFailed { check: i });
                        let mut es = check_out;
                        out.append(&mut es);
                    }
                    proof {
                        assert(spec_checks_errors(checks@, 0, events@) == out@
                            + spec_checks_errors(
                            checks@.subrange(i + 1, n as int),
                            i + 1,
                            events@,
                        ));
                    }
                    i += 1;
                }
                proof {
                    assert(checks@.subrange(n as int, n as int) =~= Seq::<Vec<Block>>::empty());
                    assert(spec_checks_errors(
                        checks@.subrange(n as int, n as int),
                        n as int,
                        events@,
                    ) =~= Seq::<TestError>::empty());
                    assert(out@ =~= spec_checks_errors(checks@, 0, events@));
                }
                out
            },
        }
    }
}

/// Runs a unit-test sink to completion over the events it received: the
/// decision core of the sink, with the event transport left to the
/// surrounding program. The test passed exactly when `test_errors` is
/// empty.
pub fn run_unit_test_sink(
    test_name: String,
    transform_ids: Vec<String>,
    check: &UnitTestSinkCheck,
    events: &Vec<Value>,
) -> (r: UnitTestSinkResult)
    requires
        spec_check_no_empty_blocks(*check),
    ensures
        r.test_name == test_name,
        r.transform_ids == transform_ids,
        r.test_errors@ == spec_sink_errors(*check, events@),
{
    UnitTestSinkResult { test_name, transform_ids, test_errors: check.run(events) }
}

} // verus!
