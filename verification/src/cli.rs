//! The command line's vocabulary: what a run found, and how a numbered list
//! is asked for.
//!
//! Every command reports the same way: 0 when nothing was wrong, 1 when a
//! document was, 2 when the invocation or an input was. A run over many
//! inputs answers with the worst of them, so that CI sees one number and it
//! is the one that matters.

use vstd::prelude::*;

use crate::format::OrderedListMode;

verus! {

/// What a run found, worst last.
#[derive(Clone, Copy, Debug, PartialEq, Eq, PartialOrd, Ord, Structural)]
pub enum Exit {
    /// Nothing wrong.
    Success,
    /// A document has a problem.
    Problem,
    /// The invocation or an input has.
    Failure,
}

/// How bad an outcome is: its process exit code.
pub open spec fn severity(e: Exit) -> u8 {
    match e {
        Exit::Success => 0,
        Exit::Problem => 1,
        Exit::Failure => 2,
    }
}

/// The worse of two outcomes; the first when they are as bad.
pub open spec fn worse(a: Exit, b: Exit) -> Exit {
    if severity(a) >= severity(b) {
        a
    } else {
        b
    }
}

/// Combining outcomes does not depend on their order or on how they are
/// grouped, and success changes nothing: a run over many inputs answers with
/// the worst of them.
pub proof fn lemma_worse_laws(a: Exit, b: Exit, c: Exit)
    ensures
        worse(a, b) == worse(b, a),
        worse(worse(a, b), c) == worse(a, worse(b, c)),
        worse(a, Exit::Success) == a,
        worse(Exit::Success, a) == a,
        severity(worse(a, b)) >= severity(a),
        severity(worse(a, b)) >= severity(b),
{
}

impl Exit {
    /// The process exit code: 0, 1 or 2.
    pub fn code_number(self) -> (n: u8)
        ensures
            n == severity(self),
    {
        match self {
            Exit::Success => 0,
            Exit::Problem => 1,
            Exit::Failure => 2,
        }
    }

    /// The worse of two.
    pub fn and(self, other: Exit) -> (r: Exit)
        ensures
            severity(r) == if severity(self) >= severity(other) {
                severity(self)
            } else {
                severity(other)
            },
            r == self || r == other,
            r == worse(self, other),
    {
        if self.code_number() >= other.code_number() {
            self
        } else {
            other
        }
    }
}

/// `--ordered-list-mode`, as the command line spells the library's
/// [`OrderedListMode`].
#[derive(Clone, Copy, Debug, PartialEq, Eq, Structural)]
pub enum ListMode {
    /// The list's start number on the first item and `1` on the rest.
    Repeat,
    /// Consecutive numbers, counting up from the list's start.
    Increment,
}

impl ListMode {
    /// The library's mode for this flag value.
    pub fn mode(self) -> (m: OrderedListMode)
        ensures
            self == ListMode::Repeat ==> m == OrderedListMode::Repeat,
            self == ListMode::Increment ==> m == OrderedListMode::Increment,
    {
        match self {
            ListMode::Repeat => OrderedListMode::Repeat,
            ListMode::Increment => OrderedListMode::Increment,
        }
    }
}

/// What happened to one input of a formatting run.
#[derive(Clone, Copy, Debug, PartialEq, Eq, Structural)]
pub enum Outcome {
    /// Already canonical.
    Unchanged,
    /// Would change, or did.
    Changed,
    /// Could not be read, written or printed.
    Failed,
}

/// The exit of a formatting run: `Failure` if any input failed, otherwise
/// `Problem` if `check` is asked and an input would change, otherwise
/// `Success`. Rewriting a file that needed it is what was asked, so it
/// succeeds.
pub open spec fn outcome_exit_spec(outcomes: Seq<Outcome>, check: bool) -> Exit {
    if outcomes.contains(Outcome::Failed) {
        Exit::Failure
    } else if check && outcomes.contains(Outcome::Changed) {
        Exit::Problem
    } else {
        Exit::Success
    }
}

/// The exit of a formatting run over `outcomes`.
pub fn outcome_exit(outcomes: &[Outcome], check: bool) -> (e: Exit)
    ensures
        e == outcome_exit_spec(outcomes@, check),
{
    let mut failed = false;
    let mut changed = false;
    let mut i: usize = 0;
    while i < outcomes.len()
        invariant
            i <= outcomes@.len(),
            failed == outcomes@.take(i as int).contains(Outcome::Failed),
            changed == outcomes@.take(i as int).contains(Outcome::Changed),
        decreases outcomes.len() - i,
    {
        let o = outcomes[i];
        proof {
            let t = outcomes@.take(i as int);
            let t1 = outcomes@.take(i + 1);
            assert(t1 =~= t.push(o));
            assert forall|x: Outcome| t1.contains(x) <==> (t.contains(x) || x == o) by {
                if t1.contains(x) {
                    let k = choose|k: int| 0 <= k < t1.len() && t1[k] == x;
                    if k < t.len() {
                        assert(t[k] == x);
                    }
                }
                if t.contains(x) {
                    let k = choose|k: int| 0 <= k < t.len() && t[k] == x;
                    assert(t1[k] == x);
                }
                if x == o {
                    assert(t1[i as int] == x);
                }
            }
        }
        match o {
            Outcome::Failed => failed = true,
            Outcome::Changed => changed = true,
            Outcome::Unchanged => {},
        }
        i = i + 1;
    }
    assert(outcomes@.take(i as int) =~= outcomes@);
    if failed {
        Exit::Failure
    } else if check && changed {
        Exit::Problem
    } else {
        Exit::Success
    }
}

/// Whether a formatting run is refused before it reads anything: `--write`
/// with no paths, since stdin has nowhere to be written back to.
pub fn refuses_write(has_paths: bool, write: bool) -> (r: bool)
    ensures
        r == (!has_paths && write),
{
    !has_paths && write
}

/// The exit of a whole formatting run: `Failure` when it is refused,
/// otherwise the exit of its outcomes.
pub open spec fn fmt_exit_spec(has_paths: bool, write: bool, outcomes: Seq<Outcome>, check: bool) -> Exit {
    if !has_paths && write {
        Exit::Failure
    } else {
        outcome_exit_spec(outcomes, check)
    }
}

/// The exit of a whole formatting run over `outcomes`; a refused run has
/// none.
pub fn fmt_exit(has_paths: bool, write: bool, outcomes: &[Outcome], check: bool) -> (e: Exit)
    ensures
        e == fmt_exit_spec(has_paths, write, outcomes@, check),
{
    if refuses_write(has_paths, write) {
        Exit::Failure
    } else {
        outcome_exit(outcomes, check)
    }
}

} // verus!
