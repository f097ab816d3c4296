//! The output-relay decision: after the watched command has run, its
//! standard output is always shown, and its standard error is shown only
//! when the command failed. A quiet successful run stays quiet.

use vstd::prelude::*;

verus! {

/// What came back from one run of the watched command.
pub struct CommandOutput {
    pub stdout: Vec<u8>,
    pub stderr: Vec<u8>,
    pub success: bool,
}

/// What to show the user: standard output always, standard error only on
/// failure.
pub struct RelayPlan {
    pub out: Vec<u8>,
    pub err: Vec<u8>,
    pub show_err: bool,
}

/// Decide what to relay: `out` is the command's standard output, `err` its
/// standard error, and `show_err` holds exactly when the command failed.
pub fn plan_relay(output: CommandOutput) -> (r: RelayPlan)
    ensures
        r.out@ == output.stdout@,
        r.err@ == output.stderr@,
        r.show_err == !output.success,
{
    let show_err = !output.success;
    RelayPlan { out: output.stdout, err: output.stderr, show_err }
}

} // verus!
