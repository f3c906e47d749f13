//! What a finished shell command amounts to: its output where it
//! succeeded, else what it wrote to stderr.
use vstd::prelude::*;

verus! {

/// The result of a command that ran: its stdout where it exited with
/// success, else its stderr.
pub fn command_result(success: bool, stdout: String, stderr: String) -> (r: Result<String, String>)
    ensures
        success ==> (r matches Ok(out) && out@ == stdout@),
        !success ==> (r matches Err(err) && err@ == stderr@),
{
    if success {
        Ok(stdout)
    } else {
        Err(stderr)
    }
}

/// The result of a command whose output is not wanted.
pub fn without_output(r: Result<String, String>) -> (q: Result<(), String>)
    ensures
        r is Ok ==> q is Ok,
        r matches Err(e) ==> (q matches Err(e2) && e2@ == e@),
{
    match r {
        Ok(_) => Ok(()),
        Err(e) => Err(e),
    }
}

} // verus!
