//! The decision halves of the utility commands: the poll/timeout loop,
//! random values, request URLs, external-command outcomes, and text diffs.

use vstd::prelude::*;

use crate::strutil::spec_join;
use crate::Error;

verus! {

/// What `humantime::parse_duration` makes of a duration text, in whole
/// milliseconds; nothing when the text does not parse.
pub uninterp spec fn duration_millis_of(s: Seq<char>) -> Option<u64>;

/// Relies on humantime::parse_duration: what a duration text denotes depends
/// on the text alone; the parsed duration is taken in whole milliseconds,
/// capped at the largest `u64`.
#[verifier::external_body]
fn parse_duration_millis(s: &str) -> (r: Option<u64>)
    ensures
        r == duration_millis_of(s@),
{
    match humantime::parse_duration(s) {
        Ok(d) => {
            let ms = d.as_millis();
            Some(if ms > u64::MAX as u128 { u64::MAX } else { ms as u64 })
        },
        Err(_) => None,
    }
}

/// What one round of the polling loop decides: the condition holds and the
/// wait is over, the wait has exceeded its deadline, or the caller is to
/// sleep one interval and poll again.
#[derive(Clone, Copy, PartialEq, Eq, Structural, Debug)]
pub enum WaitAction {
    Finished,
    TimedOut,
    Sleep,
}

/// The elapsed time advanced by one poll interval, capped at the largest
/// `u64`.
pub open spec fn advanced(elapsed: u64, poll: u64) -> u64 {
    if elapsed + poll <= u64::MAX {
        (elapsed + poll) as u64
    } else {
        u64::MAX
    }
}

/// The state of a `wait_until` poll: how long has been waited so far, the
/// deadline, and the interval slept between polls. The caller evaluates the
/// condition and sleeps; the loop decides.
#[derive(Clone, Copy, PartialEq, Eq, Structural, Debug)]
pub struct WaitLoop {
    pub elapsed_ms: u64,
    pub timeout_ms: u64,
    pub poll_interval_ms: u64,
}

impl WaitLoop {
    /// A fresh wait with the given deadline; polls come every 100 ms.
    pub fn new(timeout_ms: u64) -> (r: Self)
        ensures
            r == (WaitLoop { elapsed_ms: 0, timeout_ms, poll_interval_ms: 100u64 }),
    {
        WaitLoop { elapsed_ms: 0, timeout_ms, poll_interval_ms: 100 }
    }

    /// A fresh wait whose deadline is given as a duration text; a text that
    /// does not parse is an error.
    pub fn from_duration_str(timeout: &str) -> (r: Result<Self, Error>)
        ensures
            match duration_millis_of(timeout@) {
                Some(ms) => r matches Ok(w) && w == (WaitLoop {
                    elapsed_ms: 0,
                    timeout_ms: ms,
                    poll_interval_ms: 100u64,
                }),
                None => r matches Err(e) && e is Other,
            },
    {
        match parse_duration_millis(timeout) {
            Some(ms) => Ok(WaitLoop::new(ms)),
            None => {
                let mut msg = String::new();
                msg.append("Invalid duration: ");
                msg.append(timeout);
                Err(Error::Other(msg))
            },
        }
    }

    /// One round of the poll: a true condition finishes the wait; a false one
    /// times out once the elapsed time has passed the deadline, and otherwise
    /// asks for one more sleep, counting the interval as waited.
    pub fn observe(&mut self, condition: bool) -> (a: WaitAction)
        ensures
            condition ==> a == WaitAction::Finished && *final(self) == *old(self),
            !condition && old(self).elapsed_ms > old(self).timeout_ms ==> a
                == WaitAction::TimedOut && *final(self) == *old(self),
            !condition && old(self).elapsed_ms <= old(self).timeout_ms ==> a
                == WaitAction::Sleep && *final(self) == (WaitLoop {
                elapsed_ms: advanced(old(self).elapsed_ms, old(self).poll_interval_ms),
                ..*old(self)
            }),
    {
        if condition {
            WaitAction::Finished
        } else if self.elapsed_ms > self.timeout_ms {
            WaitAction::TimedOut
        } else {
            if self.elapsed_ms <= u64::MAX - self.poll_interval_ms {
                self.elapsed_ms = self.elapsed_ms + self.poll_interval_ms;
            } else {
                self.elapsed_ms = u64::MAX;
            }
            WaitAction::Sleep
        }
    }
}

/// The outcome of polling through a trace of condition evaluations from a
/// given elapsed time: satisfied as soon as one holds, timed out once the
/// deadline has passed, nothing if the trace runs out first.
pub open spec fn wait_run(elapsed: u64, timeout: u64, conds: Seq<bool>) -> Option<WaitAction>
    decreases conds.len(),
{
    if conds.len() == 0 {
        None
    } else if conds[0] {
        Some(WaitAction::Finished)
    } else if elapsed > timeout {
        Some(WaitAction::TimedOut)
    } else {
        wait_run(advanced(elapsed, 100), timeout, conds.drop_first())
    }
}

/// Drives a whole wait over a pre-recorded trace of condition evaluations,
/// as `wait_run` states.
pub fn run_wait_trace(conds: &Vec<bool>, timeout_ms: u64) -> (r: Option<WaitAction>)
    ensures
        r == wait_run(0, timeout_ms, conds@),
{
    let mut w = WaitLoop::new(timeout_ms);
    let mut i: usize = 0;
    proof {
        assert(conds@.skip(0) =~= conds@);
    }
    while i < conds.len()
        invariant
            0 <= i <= conds@.len(),
            w.timeout_ms == timeout_ms,
            w.poll_interval_ms == 100,
            wait_run(0, timeout_ms, conds@) == wait_run(w.elapsed_ms, timeout_ms, conds@.skip(
                i as int,
            )),
        decreases conds@.len() - i,
    {
        proof {
            assert(conds@.skip(i as int)[0] == conds@[i as int]);
            assert(conds@.skip(i as int).drop_first() =~= conds@.skip(i + 1));
        }
        let a = w.observe(conds[i]);
        match a {
            WaitAction::Finished => {
                return Some(WaitAction::Finished);
            },
            WaitAction::TimedOut => {
                return Some(WaitAction::TimedOut);
            },
            WaitAction::Sleep => {},
        }
        i = i + 1;
    }
    proof {
        assert(conds@.skip(conds@.len() as int) =~= Seq::<bool>::empty());
    }
    None
}

/// A condition that first holds at poll `k` satisfies the wait whenever the
/// deadline has not passed by then; a deadline the polls have passed before
/// the condition ever holds times the wait out.
pub proof fn lemma_wait_until_outcome(elapsed: u64, timeout: u64, conds: Seq<bool>, k: int)
    requires
        0 <= k < conds.len(),
        forall|j: int| 0 <= j < k ==> !conds[j],
        conds[k],
        elapsed + k * 100 <= timeout,
    ensures
        wait_run(elapsed, timeout, conds) == Some(WaitAction::Finished),
    decreases k,
{
    if k == 0 {
    } else {
        assert(!conds[0]);
        assert(elapsed <= timeout);
        assert(advanced(elapsed, 100) == elapsed + 100);
        assert(forall|j: int| 0 <= j < k - 1 ==> conds.drop_first()[j] == conds[j + 1]);
        assert(conds.drop_first()[k - 1] == conds[k]);
        lemma_wait_until_outcome(advanced(elapsed, 100), timeout, conds.drop_first(), k - 1);
    }
}

/// With the condition never holding in the trace, the wait times out as soon
/// as the polls have passed the deadline. A deadline of the largest
/// representable value never passes: the waited time saturates there.
pub proof fn lemma_wait_until_times_out(elapsed: u64, timeout: u64, conds: Seq<bool>, k: int)
    requires
        0 <= k < conds.len(),
        forall|j: int| 0 <= j <= k ==> !conds[j],
        elapsed + k * 100 > timeout,
        timeout < u64::MAX,
    ensures
        wait_run(elapsed, timeout, conds) == Some(WaitAction::TimedOut),
    decreases k,
{
    if elapsed > timeout {
    } else {
        assert(!conds[0]);
        assert(k > 0);
        if elapsed + 100 <= u64::MAX {
            assert(advanced(elapsed, 100) == elapsed + 100);
        } else {
            assert(advanced(elapsed, 100) == u64::MAX);
        }
        assert(forall|j: int| 0 <= j <= k - 1 ==> conds.drop_first()[j] == conds[j + 1]);
        lemma_wait_until_times_out(advanced(elapsed, 100), timeout, conds.drop_first(), k - 1);
    }
}

/// Relies on rand::random_range: a draw from a non-empty half-open range
/// lies in that range. The range must be non-empty.
#[verifier::external_body]
pub fn random_int(min: i64, max: i64) -> (r: i64)
    requires
        min < max,
    ensures
        min <= r < max,
{
    rand::random_range(min..max)
}

/// The lower-case base-36 digits.
pub open spec fn base36_chars() -> Seq<char> {
    seq![
        '0', '1', '2', '3', '4', '5', '6', '7', '8', '9', 'a', 'b', 'c', 'd', 'e', 'f', 'g',
        'h', 'i', 'j', 'k', 'l', 'm', 'n', 'o', 'p', 'q', 'r', 's', 't', 'u', 'v', 'w', 'x',
        'y', 'z',
    ]
}

/// A random text of the asked length over the lower-case base-36 alphabet.
pub fn random_string(length: usize) -> (r: String)
    ensures
        r@.len() == length,
        forall|i: int| 0 <= i < length ==> base36_chars().contains(#[trigger] r@[i]),
{
    let charset = "0123456789abcdefghijklmnopqrstuvwxyz";
    proof {
        reveal_strlit("0123456789abcdefghijklmnopqrstuvwxyz");
        assert(charset@ =~= base36_chars());
        assert forall|i: int| 0 <= i < charset@.len() implies '\0' <= #[trigger] charset@[i]
            <= '\u{7f}' by {
            assert(base36_chars().contains(base36_chars()[i]));
        }
        assert(charset.is_ascii());
    }
    let mut r = String::new();
    let mut i: usize = 0;
    while i < length
        invariant
            charset@ == base36_chars(),
            charset.is_ascii(),
            r@.len() == i,
            0 <= i <= length,
            forall|j: int| 0 <= j < i ==> base36_chars().contains(#[trigger] r@[j]),
        decreases length - i,
    {
        let d = random_int(0, 36);
        let di = d as usize;
        let piece = charset.substring_ascii(di, di + 1);
        proof {
            assert(piece@ =~= seq![base36_chars()[di as int]]);
            assert(base36_chars().contains(base36_chars()[di as int]));
        }
        r.append(piece);
        i = i + 1;
    }
    r
}

/// The key=value pairs joined with ampersands.
pub open spec fn query_of(params: Seq<(Seq<char>, Seq<char>)>) -> Seq<char> {
    spec_join(params.map_values(|p: (Seq<char>, Seq<char>)| p.0 + seq!['='] + p.1), seq!['&'])
}

/// A request URL: the base as given, with the query parameters appended
/// after a question mark when there are any.
pub open spec fn spec_build_url(url: Seq<char>, params: Seq<(Seq<char>, Seq<char>)>) -> Seq<
    char,
> {
    if params.len() == 0 {
        url
    } else {
        url + seq!['?'] + query_of(params)
    }
}

/// Builds a request URL from a base and query parameters, as
/// `spec_build_url` states.
pub fn build_url(url: &str, params: &Vec<(String, String)>) -> (r: String)
    ensures
        r@ == spec_build_url(url@, params.deep_view()),
{
    let ghost pv = params.deep_view();
    let ghost kvs = pv.map_values(|p: (Seq<char>, Seq<char>)| p.0 + seq!['='] + p.1);
    let mut r = url.to_owned();
    if params.len() == 0 {
        return r;
    }
    proof {
        reveal_strlit("?");
        reveal_strlit("=");
        reveal_strlit("&");
        assert("?"@ =~= seq!['?']);
        assert("="@ =~= seq!['=']);
        assert("&"@ =~= seq!['&']);
    }
    r.append("?");
    let first = &params[0];
    r.append(first.0.as_str());
    r.append("=");
    r.append(first.1.as_str());
    proof {
        assert(pv[0] == (params@[0].0@, params@[0].1@));
        assert(kvs[0] == pv[0].0 + seq!['='] + pv[0].1);
        assert(r@ =~= url@ + seq!['?'] + spec_join(kvs.take(1), seq!['&']));
    }
    let mut i: usize = 1;
    while i < params.len()
        invariant
            pv == params.deep_view(),
            kvs == pv.map_values(|p: (Seq<char>, Seq<char>)| p.0 + seq!['='] + p.1),
            pv.len() == params@.len(),
            kvs.len() == pv.len(),
            1 <= i <= params@.len(),
            "?"@ == seq!['?'],
            "="@ == seq!['='],
            "&"@ == seq!['&'],
            r@ == url@ + seq!['?'] + spec_join(kvs.take(i as int), seq!['&']),
        decreases params@.len() - i,
    {
        r.append("&");
        let p = &params[i];
        r.append(p.0.as_str());
        r.append("=");
        r.append(p.1.as_str());
        proof {
            assert(pv[i as int] == (params@[i as int].0@, params@[i as int].1@));
            assert(kvs[i as int] == pv[i as int].0 + seq!['='] + pv[i as int].1);
            assert(kvs.take(i + 1).drop_last() =~= kvs.take(i as int));
            assert(kvs.take(i + 1).last() == kvs[i as int]);
            assert(r@ =~= url@ + seq!['?'] + spec_join(kvs.take(i + 1), seq!['&']));
        }
        i = i + 1;
    }
    proof {
        assert(kvs.take(kvs.len() as int) =~= kvs);
    }
    r
}

/// The outcome of an external command, from its exit status and captured
/// output: success hands the standard output back, failure carries the
/// captured error text.
pub fn command_outcome(success: bool, stdout: String, stderr: String) -> (r: Result<
    String,
    Error,
>)
    ensures
        success ==> (r matches Ok(out) && out@ == stdout@),
        !success ==> (r matches Err(e) && e is Process && e.message_view()
            == "Command failed: "@ + stderr@),
{
    if success {
        Ok(stdout)
    } else {
        let mut msg = String::new();
        msg.append("Command failed: ");
        msg.append(stderr.as_str());
        Err(Error::Process(msg))
    }
}

/// The outcome of an external resource-tool invocation, from its exit
/// status and captured error text: a non-zero exit surfaces the captured
/// text as a driver error.
pub fn driver_outcome(success: bool, stderr: String) -> (r: Result<(), Error>)
    ensures
        success ==> r is Ok,
        !success ==> (r matches Err(e) && e is Podman && e.message_view() == stderr@),
{
    if success {
        Ok(())
    } else {
        Err(Error::Podman(stderr))
    }
}

/// Renders a human-readable diff of two texts for a failed equality
/// assertion. Relies on similar_asserts::SimpleDiff::from_str and its
/// rendering, which does not panic; the rendered text styles itself by
/// terminal and environment settings and may coarsen under a time deadline,
/// so nothing is stated of its content: callers treat it as opaque
/// presentation.
#[verifier::external_body]
pub fn diff(expected: &str, actual: &str) -> String {
    similar_asserts::SimpleDiff::from_str(expected, actual, "EXPECTED", "ACTUAL").to_string()
}

} // verus!
