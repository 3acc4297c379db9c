//! The text that reports a failure with the chain of its causes.

use vstd::prelude::*;
use vstd::string::StringExecFns;

verus! {

/// One failure in a chain of causes: what it says of itself and, where one
/// was taken, the text of its backtrace.
#[derive(Clone, Debug)]
pub struct Cause {
    pub message: String,
    pub backtrace: Option<String>,
}

/// The line that stands between a cause and the failure it led to.
pub open spec fn caused_line() -> Seq<char> {
    "   Which caused the following issue:\n"@
}

/// The line of one failure: its message, then the place where it happened
/// if a backtrace tells it.
pub open spec fn cause_text(cause: Cause) -> Seq<char> {
    match cause.backtrace {
        Some(trace) => if trace@.len() > 0 {
            cause.message@ + " This happened at "@ + trace@ + "\n"@
        } else {
            cause.message@ + "\n"@
        },
        None => cause.message@ + "\n"@,
    }
}

/// The report of a chain of failures that starts with the last failure and
/// ends with its first cause: the first cause comes first in the text, and
/// each failure it led to follows after a line that says so.
pub open spec fn chain_text(chain: Seq<Cause>) -> Seq<char>
    decreases chain.len(),
{
    if chain.len() == 0 {
        Seq::empty()
    } else if chain.len() == 1 {
        cause_text(chain[0])
    } else {
        chain_text(chain.drop_first()) + caused_line() + cause_text(chain[0])
    }
}

/// Writes the report of a failure and its causes. `chain` starts with the
/// failure itself and goes on with its cause, the cause of that, and so on.
pub fn failure_to_string(chain: &Vec<Cause>) -> (result: String)
    ensures
        result@ == chain_text(chain@),
{
    let n: usize = chain.len();
    let mut result: String = String::new();
    let mut i: usize = n;
    while i > 0
        invariant
            i <= n,
            n == chain@.len(),
            result@ == chain_text(chain@.subrange(i as int, n as int)),
        decreases i,
    {
        i = i - 1;
        let ghost tail = chain@.subrange(i as int, n as int);
        let ghost text = result@;
        proof {
            assert(tail.drop_first() =~= chain@.subrange(i + 1, n as int));
            assert(tail[0] == chain@[i as int]);
        }
        if i + 1 < n {
            result.append("   Which caused the following issue:\n");
        }
        result.append(chain[i].message.as_str());
        let ghost shown = result@;
        match &chain[i].backtrace {
            Some(trace) => {
                if !trace.as_str().is_empty() {
                    result.append(" This happened at ");
                    result.append(trace.as_str());
                    result.append("\n");
                    assert(result@ =~= shown + (" This happened at "@ + trace@ + "\n"@));
                } else {
                    result.append("\n");
                }
            },
            None => {
                result.append("\n");
            },
        }
        proof {
            let line = cause_text(chain@[i as int]);
            if i + 1 < n {
                assert(result@ =~= text + caused_line() + line);
            } else {
                assert(text =~= Seq::<char>::empty());
                assert(result@ =~= line);
            }
        }
    }
    proof {
        assert(chain@.subrange(0, n as int) =~= chain@);
    }
    result
}

} // verus!
