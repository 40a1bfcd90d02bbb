//! The test engine: the nested-suite state machine with its scoped
//! counters and append-only assertion log, and the report builder that folds
//! the log into a tree whose counts derive bottom-up from its leaves.

use vstd::prelude::*;

use crate::pattern::{should_skip_path, spec_should_skip};
use crate::strutil::{clone_strings, join_strings, seq_views, spec_join, str_eq};
use crate::Error;

verus! {

/// One recorded assertion: its message, whether it held, and where it was
/// made. The test path it belongs to is kept beside it in the log.
#[derive(Debug)]
pub struct Assertion {
    pub message: String,
    pub success: bool,
    pub file: String,
    pub line: usize,
}

/// The mathematical value of an `Assertion`.
#[verifier::ext_equal]
pub struct AssertionView {
    pub message: Seq<char>,
    pub success: bool,
    pub file: Seq<char>,
    pub line: usize,
}

impl DeepView for Assertion {
    type V = AssertionView;

    open spec fn deep_view(&self) -> AssertionView {
        AssertionView {
            message: self.message@,
            success: self.success,
            file: self.file@,
            line: self.line,
        }
    }
}

impl Clone for Assertion {
    fn clone(&self) -> (r: Self)
        ensures
            r == *self,
    {
        Assertion {
            message: self.message.clone(),
            success: self.success,
            file: self.file.clone(),
            line: self.line,
        }
    }
}

/// The ordered chain of suite and case names that identifies a position in
/// the nested test structure.
#[derive(Debug)]
pub struct TestId(pub Vec<String>);

impl DeepView for TestId {
    type V = Seq<Seq<char>>;

    open spec fn deep_view(&self) -> Seq<Seq<char>> {
        seq_views(self.0@)
    }
}

impl TestId {
    pub fn new(test_stack: Vec<String>) -> (r: Self)
        ensures
            r.deep_view() == seq_views(test_stack@),
    {
        TestId(test_stack)
    }
}

/// The record of one assertion log entry: the path it was made under and the
/// assertion itself.
pub type LogEntry = (Seq<Seq<char>>, AssertionView);

/// The outcome a suite reports after its body has run: succeeded when it
/// counted cases and none failed, skipped when it counted none at all,
/// failed otherwise.
#[derive(Clone, Copy, PartialEq, Eq, Structural, Debug)]
pub enum SuiteOutcome {
    Succeeded,
    Skipped,
    Failed,
}

/// The outcome a suite with the given counts reports. A suite that counted
/// no cases is skipped, never succeeded or failed.
pub open spec fn spec_suite_outcome(test_count: usize, error_count: usize) -> SuiteOutcome {
    if test_count == 0 {
        SuiteOutcome::Skipped
    } else if error_count == 0 {
        SuiteOutcome::Succeeded
    } else {
        SuiteOutcome::Failed
    }
}

/// The sum of the test-count halves of a snapshot stack.
pub open spec fn sum_tests(s: Seq<(usize, usize)>) -> int
    decreases s.len(),
{
    if s.len() == 0 {
        0
    } else {
        sum_tests(s.drop_last()) + s.last().0
    }
}

/// The sum of the error-count halves of a snapshot stack.
pub open spec fn sum_errors(s: Seq<(usize, usize)>) -> int
    decreases s.len(),
{
    if s.len() == 0 {
        0
    } else {
        sum_errors(s.drop_last()) + s.last().1
    }
}

pub proof fn lemma_sums_nonneg(s: Seq<(usize, usize)>)
    ensures
        sum_tests(s) >= 0,
        sum_errors(s) >= 0,
    decreases s.len(),
{
    if s.len() > 0 {
        lemma_sums_nonneg(s.drop_last());
    }
}

/// The mathematical value of the test state machine.
#[verifier::ext_equal]
pub struct StateView {
    pub indention_level: usize,
    pub test_count: usize,
    pub error_count: usize,
    pub nested_test_counts: Seq<(usize, usize)>,
    pub filter_expression: Option<Seq<char>>,
    pub skip_expression: Option<Seq<char>>,
    pub current_test_stack: Seq<Seq<char>>,
    pub current_file: Option<Seq<char>>,
    pub assertions: Seq<LogEntry>,
    pub current_test_failed: bool,
    pub silent: bool,
}

/// The state of the test engine: the active nesting, the scoped counters,
/// the configured filter and skip patterns, and the append-only assertion
/// log keyed by test path.
#[derive(Debug)]
pub struct SharedState {
    pub indention_level: usize,
    pub test_count: usize,
    pub error_count: usize,
    pub nested_test_counts: Vec<(usize, usize)>,
    pub filter_expression: Option<String>,
    pub skip_expression: Option<String>,
    pub current_test_stack: Vec<String>,
    pub current_file: Option<String>,
    pub assertions: Vec<(TestId, Assertion)>,
    pub current_test_failed: bool,
    pub silent: bool,
}

impl DeepView for SharedState {
    type V = StateView;

    open spec fn deep_view(&self) -> StateView {
        StateView {
            indention_level: self.indention_level,
            test_count: self.test_count,
            error_count: self.error_count,
            nested_test_counts: self.nested_test_counts@,
            filter_expression: self.filter_expression.deep_view(),
            skip_expression: self.skip_expression.deep_view(),
            current_test_stack: seq_views(self.current_test_stack@),
            current_file: self.current_file.deep_view(),
            assertions: self.assertions@.map_values(
                |p: (TestId, Assertion)| (p.0.deep_view(), p.1.deep_view()),
            ),
            current_test_failed: self.current_test_failed,
            silent: self.silent,
        }
    }
}

/// The dot-joined rendering of the current test path.
pub open spec fn spec_current_path(s: StateView) -> Seq<char> {
    spec_join(s.current_test_stack, seq!['.'])
}

impl SharedState {
    /// The counters stay within machine range: what the flat counters and the
    /// stacked snapshots sum to fits in a `usize`, and the indentation level
    /// tracks the nesting depth.
    pub open spec fn wf(&self) -> bool {
        let v = self.deep_view();
        &&& v.indention_level == v.nested_test_counts.len() + 1
        &&& v.test_count + sum_tests(v.nested_test_counts) <= usize::MAX
        &&& v.error_count + sum_errors(v.nested_test_counts) <= usize::MAX
    }

    /// A fresh state: no nesting, zero counts, no patterns, an empty log.
    pub fn new() -> (r: Self)
        ensures
            r.deep_view() == (StateView {
                indention_level: 1,
                test_count: 0,
                error_count: 0,
                nested_test_counts: Seq::<(usize, usize)>::empty(),
                filter_expression: None,
                skip_expression: None,
                current_test_stack: Seq::<Seq<char>>::empty(),
                current_file: None,
                assertions: Seq::<LogEntry>::empty(),
                current_test_failed: false,
                silent: false,
            }),
            r.wf(),
    {
        let r = SharedState {
            indention_level: 1,
            test_count: 0,
            error_count: 0,
            nested_test_counts: Vec::new(),
            filter_expression: None,
            skip_expression: None,
            current_test_stack: Vec::new(),
            current_file: None,
            assertions: Vec::new(),
            current_test_failed: false,
            silent: false,
        };
        proof {
            assert(r.deep_view() =~= (StateView {
                indention_level: 1,
                test_count: 0,
                error_count: 0,
                nested_test_counts: Seq::<(usize, usize)>::empty(),
                filter_expression: None,
                skip_expression: None,
                current_test_stack: Seq::<Seq<char>>::empty(),
                current_file: None,
                assertions: Seq::<LogEntry>::empty(),
                current_test_failed: false,
                silent: false,
            }));
        }
        r
    }

    /// The path of the position the engine is at now.
    pub fn get_current_test_id(&self) -> (r: TestId)
        ensures
            r.deep_view() == self.deep_view().current_test_stack,
    {
        TestId(clone_strings(&self.current_test_stack))
    }

    /// Appends an assertion to the log under the current path.
    pub fn push_assertion(&mut self, assertion: Assertion)
        ensures
            final(self).deep_view() == (StateView {
                assertions: old(self).deep_view().assertions.push(
                    (old(self).deep_view().current_test_stack, assertion.deep_view()),
                ),
                ..old(self).deep_view()
            }),
            old(self).wf() ==> final(self).wf(),
    {
        let test_id = self.get_current_test_id();
        let ghost entry = (test_id.deep_view(), assertion.deep_view());
        self.assertions.push((test_id, assertion));
        proof {
            assert(self.deep_view().assertions =~= old(self).deep_view().assertions.push(
                entry,
            ));
            assert(self.deep_view() =~= (StateView {
                assertions: old(self).deep_view().assertions.push(entry),
                ..old(self).deep_view()
            }));
        }
    }

    /// Records an assertion at the current path; a failed one marks the
    /// enclosing case failed.
    pub fn record_assertion(&mut self, message: String, success: bool, file: String, line: usize)
        ensures
            final(self).deep_view() == (StateView {
                assertions: old(self).deep_view().assertions.push(
                    (
                        old(self).deep_view().current_test_stack,
                        AssertionView { message: message@, success, file: file@, line },
                    ),
                ),
                current_test_failed: old(self).current_test_failed || !success,
                ..old(self).deep_view()
            }),
            old(self).wf() ==> final(self).wf(),
    {
        let assertion = Assertion { message, success, file, line };
        self.push_assertion(assertion);
        if !success {
            self.current_test_failed = true;
        }
        proof {
            assert(self.deep_view() =~= (StateView {
                assertions: old(self).deep_view().assertions.push(
                    (
                        old(self).deep_view().current_test_stack,
                        AssertionView { message: message@, success, file: file@, line },
                    ),
                ),
                current_test_failed: old(self).current_test_failed || !success,
                ..old(self).deep_view()
            }));
        }
    }

    /// Records a required assertion: the state changes as `record_assertion`
    /// says, and a failed one additionally aborts the case with an error.
    pub fn record_required(&mut self, message: String, success: bool, file: String, line: usize)
        -> (r: Result<(), Error>)
        ensures
            final(self).deep_view() == (StateView {
                assertions: old(self).deep_view().assertions.push(
                    (
                        old(self).deep_view().current_test_stack,
                        AssertionView { message: message@, success, file: file@, line },
                    ),
                ),
                current_test_failed: old(self).current_test_failed || !success,
                ..old(self).deep_view()
            }),
            success <==> r is Ok,
            r matches Err(e) ==> e is Test && e.message_view() == message@,
            old(self).wf() ==> final(self).wf(),
    {
        let msg_copy = message.clone();
        self.record_assertion(message, success, file, line);
        if success {
            Ok(())
        } else {
            Err(Error::Test(msg_copy))
        }
    }

    /// Records an equality assertion between two rendered values, as the
    /// `assert_eq` command makes: it passes exactly when the texts are equal,
    /// and a failed one carries the message with a rendered diff appended
    /// after it and marks the case failed. The diff rendering itself is
    /// presentation and left unspecified.
    pub fn record_assert_eq(
        &mut self,
        expected: &str,
        actual: &str,
        message: String,
        file: String,
        line: usize,
    )
        ensures
            ({
                let success = expected@ == actual@;
                let oldv = old(self).deep_view();
                let newv = final(self).deep_view();
                &&& newv.assertions.len() == oldv.assertions.len() + 1
                &&& newv.assertions.take(oldv.assertions.len() as int) == oldv.assertions
                &&& newv.assertions.last().0 == oldv.current_test_stack
                &&& newv.assertions.last().1.success == success
                &&& newv.assertions.last().1.file == file@
                &&& newv.assertions.last().1.line == line
                &&& (success ==> newv.assertions.last().1.message == message@)
                &&& (!success ==> newv.assertions.last().1.message.take(message@.len() as int)
                    == message@)
                &&& newv == (StateView {
                    assertions: newv.assertions,
                    current_test_failed: oldv.current_test_failed || !success,
                    ..oldv
                })
            }),
            old(self).wf() ==> final(self).wf(),
    {
        let success = str_eq(expected, actual);
        let mut text = message;
        if !success {
            let rendered = crate::commands::diff(expected, actual);
            text.append(":\n");
            text.append(rendered.as_str());
        }
        let ghost text_view = text@;
        proof {
            if !success {
                assert(text_view.take(message@.len() as int) =~= message@);
            }
        }
        self.record_assertion(text, success, file, line);
        proof {
            let oldv = old(self).deep_view();
            let newv = self.deep_view();
            assert(newv.assertions.take(oldv.assertions.len() as int) =~= oldv.assertions);
        }
    }

    /// The number of failed assertions in the log.
    pub fn get_error_count(&self) -> (r: usize)
        ensures
            r == spec_failed_count(self.deep_view().assertions),
    {
        proof {
            lemma_failed_count_bounds(self.deep_view().assertions);
        }
        let mut count: usize = 0;
        let mut i: usize = 0;
        while i < self.assertions.len()
            invariant
                0 <= i <= self.assertions@.len(),
                self.deep_view().assertions.len() == self.assertions@.len(),
                count == spec_failed_count(self.deep_view().assertions.take(i as int)),
                count <= i,
            decreases self.assertions@.len() - i,
        {
            let ghost log = self.deep_view().assertions;
            proof {
                assert(log.take(i + 1).drop_last() =~= log.take(i as int));
                assert(log.take(i + 1).last() == log[i as int]);
                assert(log[i as int].1 == self.assertions@[i as int].1.deep_view());
                lemma_failed_count_bounds(log.take(i + 1));
            }
            if !self.assertions[i].1.success {
                count = count + 1;
            }
            i = i + 1;
        }
        proof {
            assert(self.deep_view().assertions.take(self.assertions@.len() as int)
                =~= self.deep_view().assertions);
        }
        count
    }

    /// Whether the case at the current path is to be skipped, under the
    /// configured skip and filter patterns.
    pub fn should_skip(&self) -> (r: bool)
        ensures
            r == spec_should_skip(
                self.deep_view().skip_expression,
                self.deep_view().filter_expression,
                spec_current_path(self.deep_view()),
            ),
    {
        let path = join_strings(&self.current_test_stack, ".");
        proof {
            reveal_strlit(".");
            assert("."@ =~= seq!['.']);
        }
        should_skip_path(&self.skip_expression, &self.filter_expression, path.as_str())
    }

    /// Enters a nested suite: the outer counters are snapshotted and zeroed,
    /// and the name is pushed on the path.
    pub fn enter_suite(&mut self, name: String)
        requires
            old(self).wf(),
            old(self).deep_view().nested_test_counts.len() + 2 <= usize::MAX,
        ensures
            final(self).deep_view() == (StateView {
                indention_level: (old(self).indention_level + 1) as usize,
                test_count: 0,
                error_count: 0,
                nested_test_counts: old(self).deep_view().nested_test_counts.push(
                    (old(self).test_count, old(self).error_count),
                ),
                current_test_stack: old(self).deep_view().current_test_stack.push(name@),
                ..old(self).deep_view()
            }),
            final(self).wf(),
    {
        let tc = self.test_count;
        let ec = self.error_count;
        self.nested_test_counts.push((tc, ec));
        self.test_count = 0;
        self.error_count = 0;
        self.indention_level = self.indention_level + 1;
        self.current_test_stack.push(name);
        proof {
            let oldv = old(self).deep_view();
            assert(self.deep_view().current_test_stack =~= oldv.current_test_stack.push(
                name@,
            ));
            assert(self.deep_view() =~= (StateView {
                indention_level: (old(self).indention_level + 1) as usize,
                test_count: 0,
                error_count: 0,
                nested_test_counts: oldv.nested_test_counts.push(
                    (old(self).test_count, old(self).error_count),
                ),
                current_test_stack: oldv.current_test_stack.push(name@),
                ..oldv
            }));
            let pushed = oldv.nested_test_counts.push((old(self).test_count, old(self).error_count));
            assert(pushed.drop_last() =~= oldv.nested_test_counts);
            lemma_sums_nonneg(oldv.nested_test_counts);
        }
    }

    /// Exits the innermost suite: reports its outcome from the scoped counts
    /// and folds the snapshotted outer counts back in, whatever the body did.
    pub fn exit_suite(&mut self) -> (o: SuiteOutcome)
        requires
            old(self).wf(),
            old(self).deep_view().nested_test_counts.len() > 0,
            old(self).deep_view().current_test_stack.len() > 0,
        ensures
            o == spec_suite_outcome(old(self).test_count, old(self).error_count),
            final(self).deep_view() == (StateView {
                indention_level: (old(self).indention_level - 1) as usize,
                test_count: (old(self).test_count
                    + old(self).deep_view().nested_test_counts.last().0) as usize,
                error_count: (old(self).error_count
                    + old(self).deep_view().nested_test_counts.last().1) as usize,
                nested_test_counts: old(self).deep_view().nested_test_counts.drop_last(),
                current_test_stack: old(self).deep_view().current_test_stack.drop_last(),
                ..old(self).deep_view()
            }),
            final(self).wf(),
    {
        let o = if self.test_count == 0 {
            SuiteOutcome::Skipped
        } else if self.error_count == 0 {
            SuiteOutcome::Succeeded
        } else {
            SuiteOutcome::Failed
        };
        proof {
            let nested = old(self).deep_view().nested_test_counts;
            lemma_sums_nonneg(nested.drop_last());
            assert(sum_tests(nested) == sum_tests(nested.drop_last()) + nested.last().0);
            assert(sum_errors(nested) == sum_errors(nested.drop_last()) + nested.last().1);
        }
        if let Some((pt, pe)) = self.nested_test_counts.pop() {
            self.test_count = self.test_count + pt;
            self.error_count = self.error_count + pe;
        }
        self.indention_level = self.indention_level - 1;
        self.current_test_stack.pop();
        proof {
            let oldv = old(self).deep_view();
            assert(self.deep_view().current_test_stack
                =~= oldv.current_test_stack.drop_last());
            assert(self.deep_view() =~= (StateView {
                indention_level: (old(self).indention_level - 1) as usize,
                test_count: (old(self).test_count + oldv.nested_test_counts.last().0) as usize,
                error_count: (old(self).error_count + oldv.nested_test_counts.last().1) as usize,
                nested_test_counts: oldv.nested_test_counts.drop_last(),
                current_test_stack: oldv.current_test_stack.drop_last(),
                ..oldv
            }));
        }
        o
    }

    /// Enters a case: the name goes on the path; a skipped case comes
    /// straight back off without being counted, any other is counted and
    /// starts with a clean failure flag.
    pub fn enter_case(&mut self, name: String) -> (skipped: bool)
        requires
            old(self).wf(),
            old(self).deep_view().test_count + sum_tests(
                old(self).deep_view().nested_test_counts,
            ) < usize::MAX,
        ensures
            skipped == spec_should_skip(
                old(self).deep_view().skip_expression,
                old(self).deep_view().filter_expression,
                spec_join(
                    old(self).deep_view().current_test_stack.push(name@),
                    seq!['.'],
                ),
            ),
            skipped ==> final(self).deep_view() == old(self).deep_view(),
            !skipped ==> final(self).deep_view() == (StateView {
                current_test_stack: old(self).deep_view().current_test_stack.push(name@),
                test_count: (old(self).test_count + 1) as usize,
                current_test_failed: false,
                ..old(self).deep_view()
            }),
            final(self).wf(),
    {
        let ghost oldv = old(self).deep_view();
        self.current_test_stack.push(name);
        proof {
            assert(self.deep_view().current_test_stack =~= oldv.current_test_stack.push(name@));
            assert(self.deep_view() =~= (StateView {
                current_test_stack: oldv.current_test_stack.push(name@),
                ..oldv
            }));
        }
        if self.should_skip() {
            self.current_test_stack.pop();
            proof {
                assert(self.deep_view().current_test_stack =~= oldv.current_test_stack);
                assert(self.deep_view() =~= oldv);
            }
            return true;
        }
        proof {
            lemma_sums_nonneg(oldv.nested_test_counts);
        }
        self.test_count = self.test_count + 1;
        self.current_test_failed = false;
        proof {
            assert(self.deep_view() =~= (StateView {
                current_test_stack: oldv.current_test_stack.push(name@),
                test_count: (old(self).test_count + 1) as usize,
                current_test_failed: false,
                ..oldv
            }));
        }
        false
    }

    /// Exits a case: a failure result, or a failed assertion seen during the
    /// case, counts it as an error; the path is popped and the failure flag
    /// cleared whatever happened.
    pub fn exit_case(&mut self, success: bool) -> (failed: bool)
        requires
            old(self).wf(),
            old(self).deep_view().current_test_stack.len() > 0,
            old(self).deep_view().error_count + sum_errors(
                old(self).deep_view().nested_test_counts,
            ) < usize::MAX,
        ensures
            failed == (!success || old(self).current_test_failed),
            final(self).deep_view() == (StateView {
                current_test_stack: old(self).deep_view().current_test_stack.drop_last(),
                error_count: if !success || old(self).current_test_failed {
                    (old(self).error_count + 1) as usize
                } else {
                    old(self).error_count
                },
                current_test_failed: false,
                ..old(self).deep_view()
            }),
            final(self).wf(),
    {
        let failed = !success || self.current_test_failed;
        proof {
            lemma_sums_nonneg(old(self).deep_view().nested_test_counts);
        }
        if failed {
            self.error_count = self.error_count + 1;
        }
        self.current_test_stack.pop();
        self.current_test_failed = false;
        proof {
            let oldv = old(self).deep_view();
            assert(self.deep_view().current_test_stack
                =~= oldv.current_test_stack.drop_last());
            assert(self.deep_view() =~= (StateView {
                current_test_stack: oldv.current_test_stack.drop_last(),
                error_count: if !success || old(self).current_test_failed {
                    (old(self).error_count + 1) as usize
                } else {
                    old(self).error_count
                },
                current_test_failed: false,
                ..oldv
            }));
        }
        failed
    }
}

/// Structural path equality: two test ids name the same position exactly
/// when their segments agree.
pub fn test_id_eq(a: &TestId, b: &TestId) -> (r: bool)
    ensures
        r == (a.deep_view() == b.deep_view()),
{
    if a.0.len() != b.0.len() {
        proof {
            assert(a.deep_view().len() == a.0@.len());
            assert(b.deep_view().len() == b.0@.len());
        }
        return false;
    }
    let mut k: usize = 0;
    while k < a.0.len()
        invariant
            a.0@.len() == b.0@.len(),
            0 <= k <= a.0@.len(),
            forall|j: int| 0 <= j < k ==> a.deep_view()[j] == b.deep_view()[j],
        decreases a.0@.len() - k,
    {
        if !str_eq(a.0[k].as_str(), b.0[k].as_str()) {
            proof {
                assert(a.deep_view()[k as int] == a.0@[k as int]@);
                assert(b.deep_view()[k as int] == b.0@[k as int]@);
            }
            return false;
        }
        proof {
            assert(a.deep_view()[k as int] == a.0@[k as int]@);
            assert(b.deep_view()[k as int] == b.0@[k as int]@);
        }
        k = k + 1;
    }
    proof {
        assert(a.deep_view() =~= b.deep_view());
    }
    true
}

/// The failed assertions recorded under exactly the given path, in recording
/// order.
pub open spec fn spec_failed_for(log: Seq<(TestId, Assertion)>, path: Seq<Seq<char>>) -> Seq<
    Assertion,
>
    decreases log.len(),
{
    if log.len() == 0 {
        Seq::<Assertion>::empty()
    } else {
        spec_failed_for(log.drop_last(), path) + if log.last().0.deep_view() == path
            && !log.last().1.success {
            seq![log.last().1]
        } else {
            Seq::<Assertion>::empty()
        }
    }
}

impl SharedState {
    /// The failed assertions a finished case reports: those recorded under
    /// exactly its path, as `spec_failed_for` states.
    pub fn failed_assertions_for(&self, id: &TestId) -> (r: Vec<Assertion>)
        ensures
            r@ == spec_failed_for(self.assertions@, id.deep_view()),
    {
        let ghost log = self.assertions@;
        let mut r: Vec<Assertion> = Vec::new();
        let mut i: usize = 0;
        proof {
            assert(log.take(0) =~= Seq::<(TestId, Assertion)>::empty());
        }
        while i < self.assertions.len()
            invariant
                log == self.assertions@,
                0 <= i <= log.len(),
                r@ == spec_failed_for(log.take(i as int), id.deep_view()),
            decreases self.assertions@.len() - i,
        {
            let entry = &self.assertions[i];
            let matches_path = test_id_eq(&entry.0, id);
            if matches_path && !entry.1.success {
                r.push(entry.1.clone());
            }
            proof {
                assert(log.take(i + 1).drop_last() =~= log.take(i as int));
                assert(log.take(i + 1).last() == log[i as int]);
                if matches_path && !log[i as int].1.success {
                    assert(r@ =~= spec_failed_for(log.take(i + 1), id.deep_view()));
                } else {
                    assert(r@ =~= spec_failed_for(log.take(i + 1), id.deep_view()));
                }
            }
            i = i + 1;
        }
        proof {
            assert(log.take(log.len() as int) =~= log);
        }
        r
    }
}

/// The number of failed assertions in a log.
pub open spec fn spec_failed_count(log: Seq<LogEntry>) -> int
    decreases log.len(),
{
    if log.len() == 0 {
        0
    } else {
        spec_failed_count(log.drop_last()) + if log.last().1.success {
            0int
        } else {
            1int
        }
    }
}

pub proof fn lemma_failed_count_bounds(log: Seq<LogEntry>)
    ensures
        0 <= spec_failed_count(log) <= log.len(),
    decreases log.len(),
{
    if log.len() > 0 {
        lemma_failed_count_bounds(log.drop_last());
    }
}

/// A node of the hierarchical test report: a named unit with its derived
/// success flag and counts, and one child per nested unit or assertion.
#[derive(Debug, PartialEq)]
pub struct TestReport {
    pub name: String,
    pub success: bool,
    pub error_count: usize,
    pub test_count: usize,
    pub children: Vec<TestReport>,
}

/// Whether every child reports success; an empty family does.
pub open spec fn all_ok(children: Seq<TestReport>) -> bool {
    forall|i: int| 0 <= i < children.len() ==> (#[trigger] children[i]).success
}

/// Addition capped at the largest `usize`.
pub open spec fn sat_add(a: int, b: int) -> int {
    if a + b <= usize::MAX {
        a + b
    } else {
        usize::MAX as int
    }
}

/// The children's error counts summed, capped at the largest `usize`.
pub open spec fn sum_child_errors(children: Seq<TestReport>) -> int
    decreases children.len(),
{
    if children.len() == 0 {
        0
    } else {
        sat_add(sum_child_errors(children.drop_last()), children.last().error_count as int)
    }
}

/// The children's test counts summed, capped at the largest `usize`.
pub open spec fn sum_child_tests(children: Seq<TestReport>) -> int
    decreases children.len(),
{
    if children.len() == 0 {
        0
    } else {
        sat_add(sum_child_tests(children.drop_last()), children.last().test_count as int)
    }
}

pub proof fn lemma_child_sums_bounds(children: Seq<TestReport>)
    ensures
        0 <= sum_child_errors(children) <= usize::MAX,
        0 <= sum_child_tests(children) <= usize::MAX,
    decreases children.len(),
{
    if children.len() > 0 {
        lemma_child_sums_bounds(children.drop_last());
    }
}

/// A freshly made node for a unit with the given result: one counted test,
/// an error exactly when it failed, no children yet.
pub open spec fn is_fresh(r: TestReport, name: Seq<char>, success: bool) -> bool {
    &&& r.name@ == name
    &&& r.success == success
    &&& r.error_count == if success {
        0int
    } else {
        1int
    }
    &&& r.test_count == 1
    &&& r.children@.len() == 0
}

/// The report node standing for one recorded assertion.
pub open spec fn is_leaf_for(r: TestReport, a: Assertion) -> bool {
    is_fresh(r, a.message@, a.success)
}

/// The node's success and counts come from its children: success is their
/// conjunction, the counts are their sums.
pub open spec fn counts_rederived(r: TestReport) -> bool {
    &&& r.success == all_ok(r.children@)
    &&& r.error_count == sum_child_errors(r.children@)
    &&& r.test_count == sum_child_tests(r.children@)
}

/// The first index among the children whose name is `n`, or -1.
pub open spec fn child_index(children: Seq<TestReport>, n: Seq<char>) -> int
    decreases children.len(),
{
    if children.len() == 0 {
        -1
    } else if children[0].name@ == n {
        0
    } else {
        let r = child_index(children.drop_first(), n);
        if r == -1 {
            -1
        } else {
            r + 1
        }
    }
}

pub proof fn lemma_child_index(children: Seq<TestReport>, n: Seq<char>)
    ensures
        child_index(children, n) == -1 ==> forall|i: int|
            0 <= i < children.len() ==> (#[trigger] children[i]).name@ != n,
        child_index(children, n) != -1 ==> {
            let k = child_index(children, n);
            &&& 0 <= k < children.len()
            &&& children[k].name@ == n
            &&& forall|i: int| 0 <= i < k ==> (#[trigger] children[i]).name@ != n
        },
    decreases children.len(),
{
    if children.len() > 0 && children[0].name@ != n {
        lemma_child_index(children.drop_first(), n);
        assert(forall|i: int|
            1 <= i < children.len() ==> children[i] == children.drop_first()[i - 1]);
    }
}

/// How a tree grows when assertions are inserted below a freshly made node:
/// the node keeps the given name, the path is walked through fresh children,
/// the assertions become leaves at the end, and every node on the way
/// carries re-derived counts.
pub open spec fn is_insert_below_fresh(
    name: Seq<char>,
    path: Seq<Seq<char>>,
    asserts: Seq<Assertion>,
    n: TestReport,
) -> bool
    decreases path.len(),
{
    if path.len() == 0 {
        &&& n.name@ == name
        &&& n.children@.len() == asserts.len()
        &&& (forall|j: int|
            0 <= j < asserts.len() ==> is_leaf_for(#[trigger] n.children@[j], asserts[j]))
        &&& counts_rederived(n)
    } else {
        &&& n.name@ == name
        &&& n.children@.len() == 1
        &&& is_insert_below_fresh(path[0], path.drop_first(), asserts, n.children@[0])
        &&& counts_rederived(n)
    }
}

/// How a tree changes when assertions are inserted at a path: nodes are
/// walked by name — the first child of each segment's name, or a fresh one
/// appended — the assertions become leaves under the path's end, the other
/// children stay as they were, and every node along the way carries
/// re-derived counts.
pub open spec fn is_insert(
    o: TestReport,
    path: Seq<Seq<char>>,
    asserts: Seq<Assertion>,
    n: TestReport,
) -> bool
    decreases path.len(),
{
    if path.len() == 0 {
        &&& n.name@ == o.name@
        &&& n.children@.len() == o.children@.len() + asserts.len()
        &&& n.children@.take(o.children@.len() as int) == o.children@
        &&& (forall|j: int|
            0 <= j < asserts.len() ==> is_leaf_for(
                #[trigger] n.children@[o.children@.len() + j],
                asserts[j],
            ))
        &&& counts_rederived(n)
    } else {
        let k = child_index(o.children@, path[0]);
        &&& n.name@ == o.name@
        &&& counts_rederived(n)
        &&& if k == -1 {
            &&& n.children@.len() == o.children@.len() + 1
            &&& n.children@.take(o.children@.len() as int) == o.children@
            &&& is_insert_below_fresh(path[0], path.drop_first(), asserts, n.children@.last())
        } else {
            &&& n.children@.len() == o.children@.len()
            &&& (forall|j: int|
                0 <= j < o.children@.len() && j != k ==> #[trigger] n.children@[j]
                    == o.children@[j])
            &&& is_insert(o.children@[k], path.drop_first(), asserts, n.children@[k])
        }
    }
}

/// A tree whose inner nodes all carry what their children derive: the
/// conjunction of the children's success and the sums of their counts.
/// Nodes without children stand for single units and carry their own result.
pub open spec fn derived(r: TestReport) -> bool
    decreases r,
{
    &&& (r.children@.len() > 0 ==> counts_rederived(r))
    &&& forall|i: int| 0 <= i < r.children@.len() ==> derived(#[trigger] r.children@[i])
}

pub proof fn lemma_insert_below_fresh_derived(
    name: Seq<char>,
    path: Seq<Seq<char>>,
    asserts: Seq<Assertion>,
    n: TestReport,
)
    requires
        is_insert_below_fresh(name, path, asserts, n),
    ensures
        derived(n),
    decreases path.len(),
{
    if path.len() == 0 {
        assert forall|i: int| 0 <= i < n.children@.len() implies derived(
            #[trigger] n.children@[i],
        ) by {
            assert(is_leaf_for(n.children@[i], asserts[i]));
        }
    } else {
        lemma_insert_below_fresh_derived(path[0], path.drop_first(), asserts, n.children@[0]);
        assert forall|i: int| 0 <= i < n.children@.len() implies derived(
            #[trigger] n.children@[i],
        ) by {
            assert(i == 0);
        }
    }
}

/// An insertion into a fresh node is an insertion below it: the fresh node
/// has no children, so the walked path grows entirely new nodes.
pub proof fn lemma_insert_into_fresh(
    o: TestReport,
    name: Seq<char>,
    path: Seq<Seq<char>>,
    asserts: Seq<Assertion>,
    n: TestReport,
)
    requires
        o.name@ == name,
        o.children@.len() == 0,
        is_insert(o, path, asserts, n),
    ensures
        is_insert_below_fresh(name, path, asserts, n),
{
    if path.len() == 0 {
        assert forall|j: int| 0 <= j < asserts.len() implies is_leaf_for(
            #[trigger] n.children@[j],
            asserts[j],
        ) by {
            assert(is_leaf_for(n.children@[o.children@.len() + j], asserts[j]));
        }
    } else {
        assert(child_index(o.children@, path[0]) == -1);
        assert(n.children@.last() == n.children@[0]);
    }
}

/// Insertion keeps the whole tree derived: the builder re-derives every node
/// it touches, so success and counts always come bottom-up from the
/// children, never from incremental patching.
pub proof fn lemma_insert_keeps_derived(
    o: TestReport,
    path: Seq<Seq<char>>,
    asserts: Seq<Assertion>,
    n: TestReport,
)
    requires
        derived(o),
        is_insert(o, path, asserts, n),
    ensures
        derived(n),
    decreases path.len(),
{
    if path.len() == 0 {
        assert forall|i: int| 0 <= i < n.children@.len() implies derived(
            #[trigger] n.children@[i],
        ) by {
            if i < o.children@.len() {
                assert(n.children@.take(o.children@.len() as int)[i] == n.children@[i]);
                assert(n.children@[i] == o.children@[i]);
            } else {
                let j = i - o.children@.len();
                assert(is_leaf_for(n.children@[o.children@.len() + j], asserts[j]));
            }
        }
    } else {
        let k = child_index(o.children@, path[0]);
        lemma_child_index(o.children@, path[0]);
        if k == -1 {
            lemma_insert_below_fresh_derived(
                path[0],
                path.drop_first(),
                asserts,
                n.children@.last(),
            );
            assert forall|i: int| 0 <= i < n.children@.len() implies derived(
                #[trigger] n.children@[i],
            ) by {
                if i < o.children@.len() {
                    assert(n.children@.take(o.children@.len() as int)[i] == n.children@[i]);
                    assert(n.children@[i] == o.children@[i]);
                } else {
                    assert(n.children@[i] == n.children@.last());
                }
            }
        } else {
            lemma_insert_keeps_derived(
                o.children@[k],
                path.drop_first(),
                asserts,
                n.children@[k],
            );
            assert forall|i: int| 0 <= i < n.children@.len() implies derived(
                #[trigger] n.children@[i],
            ) by {
                if i != k {
                    assert(n.children@[i] == o.children@[i]);
                }
            }
        }
    }
}

fn sat_add_usize(a: usize, b: usize) -> (r: usize)
    ensures
        r == sat_add(a as int, b as int),
{
    if a <= usize::MAX - b {
        a + b
    } else {
        usize::MAX
    }
}

impl TestReport {
    /// A fresh report node for one unit with the given result.
    pub fn new(name: String, success: bool) -> (r: Self)
        ensures
            is_fresh(r, name@, success),
    {
        TestReport {
            name,
            success,
            error_count: if success {
                0
            } else {
                1
            },
            test_count: 1,
            children: Vec::new(),
        }
    }

    /// Re-derives this node's success and counts from its children.
    fn recompute(&mut self)
        ensures
            final(self).name == old(self).name,
            final(self).children == old(self).children,
            counts_rederived(*final(self)),
    {
        let ghost kids = old(self).children@;
        proof {
            lemma_child_sums_bounds(kids);
            assert(kids.take(0) =~= Seq::<TestReport>::empty());
        }
        let mut ok = true;
        let mut ec: usize = 0;
        let mut tc: usize = 0;
        let mut i: usize = 0;
        while i < self.children.len()
            invariant
                *self == *old(self),
                kids == self.children@,
                0 <= i <= kids.len(),
                ok == all_ok(kids.take(i as int)),
                ec == sum_child_errors(kids.take(i as int)),
                tc == sum_child_tests(kids.take(i as int)),
            decreases self.children@.len() - i,
        {
            proof {
                assert(kids.take(i + 1).drop_last() =~= kids.take(i as int));
                assert(kids.take(i + 1).last() == kids[i as int]);
                lemma_child_sums_bounds(kids.take(i as int));
                if !all_ok(kids.take(i as int)) {
                    let w = choose|w: int|
                        0 <= w < i && !(#[trigger] kids.take(i as int)[w]).success;
                    assert(kids.take(i + 1)[w] == kids.take(i as int)[w]);
                    assert(!all_ok(kids.take(i + 1)));
                }
            }
            ok = ok && self.children[i].success;
            ec = sat_add_usize(ec, self.children[i].error_count);
            tc = sat_add_usize(tc, self.children[i].test_count);
            i = i + 1;
        }
        proof {
            assert(kids.take(kids.len() as int) =~= kids);
        }
        self.success = ok;
        self.error_count = ec;
        self.test_count = tc;
    }

    fn insert_from(&mut self, path: &TestId, depth: usize, assertions: &Vec<Assertion>)
        requires
            depth <= path.0@.len(),
        ensures
            is_insert(
                *old(self),
                path.deep_view().skip(depth as int),
                assertions@,
                *final(self),
            ),
        decreases path.0@.len() - depth,
    {
        let ghost rest = path.deep_view().skip(depth as int);
        proof {
            assert(rest.len() == path.0@.len() - depth);
        }
        if depth == path.0.len() {
            let ghost kids0 = self.children@;
            let mut i: usize = 0;
            while i < assertions.len()
                invariant
                    depth == path.0@.len(),
                    0 <= i <= assertions@.len(),
                    self.name == old(self).name,
                    self.children@.len() == kids0.len() + i,
                    kids0 == old(self).children@,
                    self.children@.take(kids0.len() as int) == kids0,
                    forall|j: int|
                        0 <= j < i ==> is_leaf_for(
                            #[trigger] self.children@[kids0.len() + j],
                            assertions@[j],
                        ),
                decreases assertions@.len() - i,
            {
                let a = &assertions[i];
                let node = TestReport::new(a.message.clone(), a.success);
                let ghost before = self.children@;
                self.children.push(node);
                proof {
                    assert(self.children@.take(kids0.len() as int) =~= before.take(
                        kids0.len() as int,
                    ));
                }
                i = i + 1;
            }
            self.recompute();
        } else {
            proof {
                assert(rest[0] == path.deep_view()[depth as int]);
                assert(path.deep_view()[depth as int] == path.0@[depth as int]@);
                lemma_child_index(self.children@, rest[0]);
            }
            let ghost oldkids = self.children@;
            let head = &path.0[depth];
            let mut k: usize = 0;
            let mut found: Option<usize> = None;
            while k < self.children.len()
                invariant
                    *self == *old(self),
                    oldkids == self.children@,
                    head@ == rest[0],
                    0 <= k <= oldkids.len(),
                    match found {
                        Some(f) => f == child_index(oldkids, rest[0]) && 0 <= f < oldkids.len(),
                        None => forall|j: int|
                            0 <= j < k ==> (#[trigger] oldkids[j]).name@ != rest[0],
                    },
                    child_index(oldkids, rest[0]) != -1 ==> {
                        let c = child_index(oldkids, rest[0]);
                        &&& 0 <= c < oldkids.len()
                        &&& oldkids[c].name@ == rest[0]
                        &&& forall|i: int| 0 <= i < c ==> (#[trigger] oldkids[i]).name@ != rest[0]
                    },
                    child_index(oldkids, rest[0]) == -1 ==> forall|i: int|
                        0 <= i < oldkids.len() ==> (#[trigger] oldkids[i]).name@ != rest[0],
                decreases self.children@.len() - k,
            {
                if found.is_none() && str_eq(self.children[k].name.as_str(), head.as_str()) {
                    found = Some(k);
                }
                k = k + 1;
            }
            match found {
                Some(f) => {
                    let mut child = self.children.remove(f);
                    let ghost taken = child;
                    child.insert_from(path, depth + 1, assertions);
                    self.children.insert(f, child);
                    proof {
                        assert(rest.drop_first() =~= path.deep_view().skip(depth + 1));
                        assert(taken == oldkids[f as int]);
                        assert(self.children@.len() == oldkids.len());
                        assert forall|j: int|
                            0 <= j < oldkids.len() && j != f implies #[trigger] self.children@[j]
                            == oldkids[j] by {
                            if j < f {
                                assert(self.children@[j] == oldkids.remove(f as int).insert(
                                    f as int,
                                    self.children@[f as int],
                                )[j]);
                            }
                        }
                    }
                },
                None => {
                    let node = TestReport::new(head.clone(), true);
                    let ghost node_before = node;
                    let mut node = node;
                    node.insert_from(path, depth + 1, assertions);
                    self.children.push(node);
                    proof {
                        assert(rest.drop_first() =~= path.deep_view().skip(depth + 1));
                        assert(self.children@.take(oldkids.len() as int) =~= oldkids);
                        lemma_insert_into_fresh(
                            node_before,
                            rest[0],
                            rest.drop_first(),
                            assertions@,
                            self.children@.last(),
                        );
                    }
                },
            }
            self.recompute();
        }
    }

    /// Inserts the assertions recorded under `path` into the tree, walking or
    /// making one node per path segment and re-deriving every node touched,
    /// as `is_insert` states.
    pub fn insert(&mut self, path: &TestId, assertions: &Vec<Assertion>)
        ensures
            is_insert(*old(self), path.deep_view(), assertions@, *final(self)),
    {
        proof {
            assert(path.deep_view().skip(0) =~= path.deep_view());
        }
        self.insert_from(path, 0, assertions);
    }

    /// The report a finished run folds down to: a root over one insertion per
    /// log entry, in recording order. The trail witnesses the tree after
    /// every insertion; the finished report is its last entry.
    pub fn from_state(state: &SharedState) -> (r: TestReport)
        ensures
            exists|trail: Seq<TestReport>|
                #[trigger] is_report_chain(state.assertions@, state.error_count, trail)
                    && trail.last() == r,
    {
        let mut report = TestReport::new("root".to_owned(), state.error_count == 0);
        let ghost log = state.assertions@;
        let ghost mut trail: Seq<TestReport> = seq![report];
        let mut i: usize = 0;
        proof {
            assert(log.take(0) =~= Seq::<(TestId, Assertion)>::empty());
        }
        while i < state.assertions.len()
            invariant
                log == state.assertions@,
                0 <= i <= log.len(),
                trail.len() == i + 1,
                trail.last() == report,
                is_report_chain(log.take(i as int), state.error_count, trail),
            decreases state.assertions@.len() - i,
        {
            let entry = &state.assertions[i];
            let mut one: Vec<Assertion> = Vec::new();
            one.push(entry.1.clone());
            let ghost mid = report;
            report.insert(&entry.0, &one);
            proof {
                trail = trail.push(report);
                assert(one@ =~= seq![log[i as int].1]);
                assert forall|j: int| 0 <= j < i + 1 implies is_insert(
                    #[trigger] trail[j],
                    log.take(i + 1)[j].0.deep_view(),
                    seq![log.take(i + 1)[j].1],
                    trail[j + 1],
                ) by {
                    if j < i {
                        assert(trail[j] == trail.drop_last()[j]);
                        assert(trail[j + 1] == trail.drop_last()[j + 1]);
                        assert(is_insert(
                            trail.drop_last()[j],
                            log.take(i as int)[j].0.deep_view(),
                            seq![log.take(i as int)[j].1],
                            trail.drop_last()[j + 1],
                        ));
                    } else {
                        assert(trail[j] == mid);
                        assert(trail[j + 1] == report);
                    }
                }
            }
            i = i + 1;
        }
        proof {
            assert(log.take(log.len() as int) =~= log);
        }
        report
    }
}

/// A run's report history: `trail[0]` is a fresh root node, successful
/// exactly when no case errored, and each next tree is the previous one with
/// one log entry inserted at its path. The finished report is the last tree.
pub open spec fn is_report_chain(
    log: Seq<(TestId, Assertion)>,
    error_count: usize,
    trail: Seq<TestReport>,
) -> bool {
    &&& trail.len() == log.len() + 1
    &&& is_fresh(trail[0], "root"@, error_count == 0)
    &&& forall|j: int|
        0 <= j < log.len() ==> is_insert(
            #[trigger] trail[j],
            log[j].0.deep_view(),
            seq![log[j].1],
            trail[j + 1],
        )
}

/// A whole report chain ends in a derived tree: the root starts fresh and
/// every insertion re-derives what it touches.
pub proof fn lemma_report_chain_derived(
    log: Seq<(TestId, Assertion)>,
    error_count: usize,
    trail: Seq<TestReport>,
)
    requires
        is_report_chain(log, error_count, trail),
    ensures
        derived(trail.last()),
    decreases log.len(),
{
    if log.len() == 0 {
        assert(trail.last() == trail[0]);
    } else {
        assert forall|j: int| 0 <= j < log.len() - 1 implies is_insert(
            #[trigger] trail.drop_last()[j],
            log.drop_last()[j].0.deep_view(),
            seq![log.drop_last()[j].1],
            trail.drop_last()[j + 1],
        ) by {
            assert(trail.drop_last()[j] == trail[j]);
            assert(trail.drop_last()[j + 1] == trail[j + 1]);
            assert(is_insert(trail[j], log[j].0.deep_view(), seq![log[j].1], trail[j + 1]));
        }
        assert(is_report_chain(log.drop_last(), error_count, trail.drop_last()));
        lemma_report_chain_derived(log.drop_last(), error_count, trail.drop_last());
        assert(trail.drop_last().last() == trail[log.len() - 1]);
        assert(is_insert(
            trail[log.len() - 1],
            log[log.len() - 1].0.deep_view(),
            seq![log[log.len() - 1].1],
            trail[log.len() as int],
        ));
        lemma_insert_keeps_derived(
            trail[log.len() - 1],
            log[log.len() - 1].0.deep_view(),
            seq![log[log.len() - 1].1],
            trail[log.len() as int],
        );
        assert(trail.last() == trail[log.len() as int]);
    }
}

} // verus!
