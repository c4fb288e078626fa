use vstd::prelude::*;

verus! {

/// What one run of a test program came to.
#[derive(Clone, Copy, Debug, PartialEq, Eq, Structural)]
pub enum Outcome {
    /// The program exited unsuccessfully.
    Crashed,
    /// The program succeeded and the test has no expected output.
    NoExpectedOutput,
    /// The program succeeded and printed the expected output.
    Matched,
    /// The program succeeded but printed something else.
    Mismatched,
}

/// Whether an outcome counts as a pass.
pub open spec fn passes(o: Outcome) -> bool {
    o == Outcome::NoExpectedOutput || o == Outcome::Matched
}

/// Classifies a run from its exit status, the expected output if the test
/// has one, and what the program printed.
pub fn classify(success: bool, expected: Option<&Vec<u8>>, actual: &Vec<u8>) -> (r: Outcome)
    ensures
        !success ==> r == Outcome::Crashed,
        success && expected is None ==> r == Outcome::NoExpectedOutput,
        success && expected is Some ==> r == (if expected->0@ == actual@ {
            Outcome::Matched
        } else {
            Outcome::Mismatched
        }),
{
    if !success {
        return Outcome::Crashed;
    }
    let e = match expected {
        None => {
            return Outcome::NoExpectedOutput;
        },
        Some(e) => e,
    };
    if e.len() != actual.len() {
        return Outcome::Mismatched;
    }
    let mut i: usize = 0;
    while i < e.len()
        invariant
            success,
            expected == Some(e),
            e@.len() == actual@.len(),
            i <= e@.len(),
            forall|j: int| 0 <= j < i ==> e@[j] == actual@[j],
        decreases e@.len() - i,
    {
        if e[i] != actual[i] {
            return Outcome::Mismatched;
        }
        i += 1;
    }
    assert(e@ =~= actual@);
    Outcome::Matched
}

/// Counts of a test run: how many tests ran, passed and failed.
#[derive(Clone, Copy, Debug, PartialEq, Eq, Structural)]
pub struct TesterResults {
    pub ran: usize,
    pub ok: usize,
    pub fail: usize,
}

impl TesterResults {
    /// Every test that ran either passed or failed.
    pub open spec fn wf(&self) -> bool {
        self.ran == self.ok + self.fail
    }

    /// No test run yet.
    pub fn new() -> (r: TesterResults)
        ensures
            r.wf(),
            r.ran == 0 && r.ok == 0 && r.fail == 0,
    {
        TesterResults { ran: 0, ok: 0, fail: 0 }
    }

    /// Counts one more test with the given outcome.
    pub fn record(&mut self, outcome: Outcome)
        requires
            old(self).wf(),
            old(self).ran < usize::MAX,
        ensures
            final(self).wf(),
            final(self).ran == old(self).ran + 1,
            passes(outcome) ==> final(self).ok == old(self).ok + 1 && final(self).fail == old(self).fail,
            !passes(outcome) ==> final(self).fail == old(self).fail + 1 && final(self).ok == old(self).ok,
    {
        match outcome {
            Outcome::NoExpectedOutput | Outcome::Matched => {
                self.ok = self.ok + 1;
            },
            _ => {
                self.fail = self.fail + 1;
            },
        }
        self.ran = self.ran + 1;
    }
}

} // verus!
