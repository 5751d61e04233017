//! The session loop: a strictly sequential read/respond cycle. Each
//! cycle reads one line from the input channel; the sentinel line ends
//! the session, any other line is echoed back in an acknowledgment, and
//! a closed input channel ends the session as cleanly as the sentinel
//! does.

use vstd::prelude::*;
use vstd::string::StringExecFns;

verus! {

/// Whether a line is the sentinel that ends the interactive session.
pub open spec fn is_sentinel(line: Seq<char>) -> bool {
    line == "exit"@
}

/// The acknowledgment echoed for one non-sentinel line, holding that
/// line verbatim.
pub open spec fn ack_of(line: Seq<char>) -> Seq<char> {
    "You typed: "@ + line
}

/// The two states of the session loop.
#[derive(Clone, Copy, Debug, PartialEq, Eq, Structural)]
pub enum SessionState {
    /// The loop is blocked on the next input line.
    AwaitingLine,
    /// The loop has stopped and reads no further input.
    Terminated,
}

/// How a finished session ended: by the sentinel line, or by the input
/// channel closing first. Neither is an error.
#[derive(Clone, Copy, Debug, PartialEq, Eq, Structural)]
pub enum SessionEnd {
    /// The sentinel line was read.
    Sentinel,
    /// The input channel ended before any sentinel line.
    InputClosed,
}

/// One cycle of the session: from the line just read (or `None` when
/// the input channel has closed) to the next state and the
/// acknowledgment to write before the next read, if any.
pub fn session_step(line: Option<String>) -> (r: (SessionState, Option<String>))
    ensures
        match line {
            None => r.0 == SessionState::Terminated && r.1 is None,
            Some(l) => if is_sentinel(l@) {
                r.0 == SessionState::Terminated && r.1 is None
            } else {
                &&& r.0 == SessionState::AwaitingLine
                &&& r.1 matches Some(a) && a@ == ack_of(l@)
            },
        },
{
    match line {
        None => (SessionState::Terminated, None),
        Some(l) => {
            let sentinel: String = "exit".to_owned();
            if l == sentinel {
                (SessionState::Terminated, None)
            } else {
                let mut ack: String = "You typed: ".to_owned();
                ack.append(l.as_str());
                (SessionState::AwaitingLine, Some(ack))
            }
        },
    }
}

/// The acknowledgments a session produces for a stream of input lines:
/// one for each line before the first sentinel line; lines from the
/// first sentinel on produce nothing.
pub open spec fn session_acks(lines: Seq<Seq<char>>) -> Seq<Seq<char>>
    decreases lines.len(),
{
    if lines.len() == 0 {
        seq![]
    } else if is_sentinel(lines[0]) {
        seq![]
    } else {
        seq![ack_of(lines[0])] + session_acks(lines.drop_first())
    }
}

/// Whether a stream of input lines reaches a sentinel line.
pub open spec fn reaches_sentinel(lines: Seq<Seq<char>>) -> bool {
    exists|i: int| 0 <= i < lines.len() && is_sentinel(#[trigger] lines[i])
}

/// Drive a whole session over a finite stream of input lines, as when
/// the interactive loop is exercised against a line-oriented source.
/// The acknowledgments come back in input order; a stream that ends
/// before any sentinel line terminates the session cleanly, with one
/// acknowledgment for every line, and a line after the sentinel is
/// never read.
pub fn run_session(lines: &Vec<String>) -> (r: (Vec<String>, SessionEnd))
    ensures
        r.0.deep_view() == session_acks(lines.deep_view()),
        r.1 == SessionEnd::Sentinel <==> reaches_sentinel(lines.deep_view()),
        !reaches_sentinel(lines.deep_view()) ==> r.1 == SessionEnd::InputClosed
            && r.0.deep_view().len() == lines.deep_view().len(),
{
    let ghost all = lines.deep_view();
    let n = lines.len();
    let mut acks: Vec<String> = Vec::new();
    let mut k: usize = 0;
    proof {
        assert(all.subrange(0, n as int) =~= all);
    }
    while k < n
        invariant
            k <= n,
            n == lines@.len(),
            all == lines.deep_view(),
            all.len() == n,
            forall|i: int| 0 <= i < k ==> !is_sentinel(#[trigger] all[i]),
            acks.deep_view().len() == k,
            session_acks(all) == acks.deep_view() + session_acks(
                all.subrange(k as int, n as int),
            ),
        decreases n - k,
    {
        let line = lines[k].clone();
        proof {
            assert(line@ == all[k as int]);
        }
        let step = session_step(Some(line));
        let ghost tail = all.subrange(k as int, n as int);
        proof {
            assert(tail[0] == all[k as int]);
            assert(tail.drop_first() =~= all.subrange(k + 1, n as int));
        }
        match step.1 {
            None => {
                proof {
                    assert(is_sentinel(all[k as int]));
                    assert(session_acks(tail) =~= Seq::<Seq<char>>::empty());
                    assert(acks.deep_view() + session_acks(tail) =~= acks.deep_view());
                }
                return (acks, SessionEnd::Sentinel);
            },
            Some(a) => {
                proof {
                    assert(!is_sentinel(all[k as int]));
                    assert(session_acks(tail) == seq![ack_of(all[k as int])] + session_acks(
                        all.subrange(k + 1, n as int),
                    ));
                }
                let ghost acks_pre = acks.deep_view();
                acks.push(a);
                proof {
                    assert(acks.deep_view() =~= acks_pre + seq![a@]);
                }
            },
        }
        k = k + 1;
    }
    proof {
        assert(all.subrange(n as int, n as int) =~= Seq::<Seq<char>>::empty());
        assert(acks.deep_view() + session_acks(all.subrange(n as int, n as int))
            =~= acks.deep_view());
    }
    (acks, SessionEnd::InputClosed)
}

} // verus!
