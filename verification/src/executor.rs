//! The executor's decision logic. Running a shell command is outside
//! work, done by the embedding program; everything decidable from plain
//! values is here and verified: which work a node needs, how a finished
//! process's exit status and captured streams classify into a result, and
//! how a node's action policy turns that result into a session outcome.

use vstd::prelude::*;
use vstd::string::StringExecFns;

use crate::commands::ActionKind;
use crate::commands::Command;
use crate::commands::CommandKind;
use crate::commands::CommandKindV;
use crate::commands::CommandResultError;
use crate::loader::ParseError;
use crate::loader::load;
use crate::loader::parsed_json_of;
use crate::loader::spec_command_of;
use crate::text::spec_trim_end;
use crate::text::trim_end;

verus! {

/// The executor's first move for a node: an `Initial` node's output is
/// ready at once (its own value); a `Shell` node first needs its command
/// line run in a shell.
#[derive(Debug, PartialEq, Eq)]
pub enum ExecutionStep {
    Ready(String),
    NeedsShell(String),
}

impl Command {
    /// What executing this node takes: `Initial` is the identity and
    /// succeeds with the node's value unchanged; `Shell` hands back the
    /// command line that must be run.
    pub fn execution_step(&self) -> (r: ExecutionStep)
        ensures
            match r {
                ExecutionStep::Ready(out) => self.model().kind == CommandKindV::Initial && out@
                    == self.model().value,
                ExecutionStep::NeedsShell(line) => self.model().kind == CommandKindV::Shell(line@),
            },
    {
        match &self.kind {
            CommandKind::Initial => ExecutionStep::Ready(self.value.clone()),
            CommandKind::Shell(p) => ExecutionStep::NeedsShell(p.command.clone()),
        }
    }
}

/// The result of a finished shell process, as the executor classifies it:
/// exit code 0 succeeds with the trailing-whitespace-trimmed standard
/// output; a non-zero code fails with that code and the captured standard
/// error; no observable exit code means the process was terminated by a
/// signal.
pub fn classify_output(code: Option<i32>, stdout: String, stderr: String) -> (r: Result<
    String,
    CommandResultError,
>)
    ensures
        match r {
            Ok(out) => code == Some(0i32) && out@ == spec_trim_end(stdout@),
            Err(e) => match e {
                CommandResultError::FailedWithCode(err_out, c) => code == Some(c) && c != 0i32
                    && err_out == stderr,
                CommandResultError::ExecutionFailed(msg) => code is None && msg@
                    == "Command terminated by signal"@,
            },
        },
{
    match code {
        Some(c) => {
            if c == 0 {
                Ok(trim_end(stdout.as_str()))
            } else {
                Err(CommandResultError::FailedWithCode(stderr, c))
            }
        },
        None => Err(CommandResultError::ExecutionFailed(String::from_str(
            "Command terminated by signal",
        ))),
    }
}

/// What a submitted node's finished execution means for the session.
#[derive(Debug, PartialEq, Eq)]
pub enum SubmitOutcome {
    /// An `Exit` node succeeded: the session ends and this is the
    /// program's final output value.
    FinalValue(String),
    /// A `Next` node succeeded and its output parsed: this tree becomes
    /// the new history head.
    NewHead(Command),
    /// The session must end with a non-zero status and this diagnostic.
    FatalError(FatalError),
}

/// Why a submission was fatal: the execution itself failed, or a `Next`
/// node's output was not a loadable command tree.
#[derive(Debug, PartialEq, Eq)]
pub enum FatalError {
    Execution(CommandResultError),
    Parse(ParseError),
}

impl Command {
    /// Resolves this node's action policy against its execution result.
    /// An `Exit` node is terminal either way: success carries the final
    /// value, failure is fatal. A `Next` node's successful output is
    /// re-parsed as a new sub-tree; a parse failure, like an execution
    /// failure, is fatal — there is no retry.
    pub fn resolve_action(&self, result: Result<String, CommandResultError>) -> (r: SubmitOutcome)
        ensures
            match r {
                SubmitOutcome::FinalValue(out) => self.model().action == ActionKind::Exit
                    && result == Ok::<String, CommandResultError>(out),
                SubmitOutcome::NewHead(c) => {
                    &&& self.model().action == ActionKind::Next
                    &&& result is Ok
                    &&& parsed_json_of(result->Ok_0@) is Some
                    &&& spec_command_of(parsed_json_of(result->Ok_0@)->0) == Some(c.model())
                    &&& c.wf()
                },
                SubmitOutcome::FatalError(f) => match f {
                    FatalError::Execution(e) => result == Err::<String, CommandResultError>(e),
                    FatalError::Parse(pe) => {
                        &&& self.model().action == ActionKind::Next
                        &&& result is Ok
                        &&& match pe {
                            ParseError::InvalidSyntax => parsed_json_of(result->Ok_0@) is None,
                            ParseError::InvalidShape => parsed_json_of(result->Ok_0@) is Some
                                && spec_command_of(parsed_json_of(result->Ok_0@)->0) is None,
                        }
                    },
                },
            },
    {
        match result {
            Err(e) => SubmitOutcome::FatalError(FatalError::Execution(e)),
            Ok(output) => match self.action {
                ActionKind::Exit => SubmitOutcome::FinalValue(output),
                ActionKind::Next => match load(output.as_str()) {
                    Ok(c) => SubmitOutcome::NewHead(c),
                    Err(pe) => SubmitOutcome::FatalError(FatalError::Parse(pe)),
                },
            },
        }
    }
}

} // verus!
