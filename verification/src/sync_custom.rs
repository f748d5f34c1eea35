//! The config-driven `custom` sync provider.
//!
//! It runs user-configured commands so a team can point comment sync at any
//! internal review system without writing Rust. The fetch command prints a
//! JSON array of remote comments; the push command receives one outgoing
//! comment as a JSON argument and prints the new remote id.

use vstd::prelude::*;
use vstd::string::*;
use crate::comment_sync::ReviewUnit;
#[allow(unused_imports)]
use crate::sync_github;
use crate::sync_github::unit_from_output;
#[allow(unused_imports)]
use crate::text;

verus! {

/// A sync provider whose operations are entirely defined by configured
/// commands. Each command is a program followed by its arguments.
pub struct CustomCommandSyncProvider {
    detect_command: Vec<String>,
    fetch_command: Vec<String>,
    push_command: Vec<String>,
}

/// The mathematical value of a [`CustomCommandSyncProvider`].
#[verifier::ext_equal]
pub struct CustomCommandSyncProviderView {
    pub detect_command: Seq<Seq<char>>,
    pub fetch_command: Seq<Seq<char>>,
    pub push_command: Seq<Seq<char>>,
}

impl View for CustomCommandSyncProvider {
    type V = CustomCommandSyncProviderView;

    closed spec fn view(&self) -> CustomCommandSyncProviderView {
        CustomCommandSyncProviderView {
            detect_command: text::texts(self.detect_command@),
            fetch_command: text::texts(self.fetch_command@),
            push_command: text::texts(self.push_command@),
        }
    }
}

/// Why a custom command cannot be run.
#[derive(Clone, Copy, PartialEq, Eq, Structural, Debug)]
pub enum CustomSyncError {
    NoFetchCommand,
    NoPushCommand,
    EmptyCommand,
}

/// What an error is reported as.
pub open spec fn error_text(error: CustomSyncError) -> Seq<char> {
    match error {
        CustomSyncError::NoFetchCommand =>
            "code_comments: `custom` provider has no fetch_command configured"@,
        CustomSyncError::NoPushCommand =>
            "code_comments: `custom` provider has no push_command configured"@,
        CustomSyncError::EmptyCommand => "code_comments: empty custom sync command"@,
    }
}

impl CustomSyncError {
    /// What the error is reported as.
    pub fn message(self) -> (r: &'static str)
        ensures
            r@ == error_text(self),
    {
        match self {
            CustomSyncError::NoFetchCommand =>
                "code_comments: `custom` provider has no fetch_command configured",
            CustomSyncError::NoPushCommand =>
                "code_comments: `custom` provider has no push_command configured",
            CustomSyncError::EmptyCommand => "code_comments: empty custom sync command",
        }
    }
}

/// How the review unit is found.
pub enum CustomDetectStep {
    /// It is known.
    Known(ReviewUnit),
    /// There is none.
    Nothing,
    /// It takes a command to find it.
    Run(Vec<String>),
}

/// A command line: a program and its arguments.
pub struct CommandLine {
    pub program: String,
    pub args: Vec<String>,
}

fn with_unit(command: &Vec<String>, unit: &ReviewUnit) -> (r: Vec<String>)
    ensures
        text::texts(r@) == text::texts(command@).push(unit@),
{
    let mut out = text::clone_words(command);
    let id = unit.id.clone();
    proof {
        assert(text::texts(out@.push(id)) =~= text::texts(out@).push(id@));
    }
    out.push(id);
    out
}

impl CustomCommandSyncProvider {
    pub fn new(
        detect_command: Vec<String>,
        fetch_command: Vec<String>,
        push_command: Vec<String>,
    ) -> (r: Self)
        ensures
            r@ == (CustomCommandSyncProviderView {
                detect_command: text::texts(detect_command@),
                fetch_command: text::texts(fetch_command@),
                push_command: text::texts(push_command@),
            }),
    {
        CustomCommandSyncProvider { detect_command, fetch_command, push_command }
    }

    /// The provider's name.
    pub fn name(&self) -> (r: &'static str)
        ensures
            r@ == "custom"@,
    {
        "custom"
    }

    /// How to find the review unit: the configured one, else by the detect
    /// command, if there is one.
    pub fn detect_review_unit(&self, configured: Option<&str>) -> (r: CustomDetectStep)
        ensures
            match configured {
                Some(id) => r matches CustomDetectStep::Known(unit) && unit@ == id@,
                None => if self@.detect_command.len() == 0 {
                    r is Nothing
                } else {
                    r matches CustomDetectStep::Run(command) && text::texts(command@)
                        == self@.detect_command
                },
            },
    {
        match configured {
            Some(id) => CustomDetectStep::Known(ReviewUnit { id: id.to_owned() }),
            None => {
                if self.detect_command.len() == 0 {
                    CustomDetectStep::Nothing
                } else {
                    CustomDetectStep::Run(text::clone_words(&self.detect_command))
                }
            },
        }
    }

    /// The review unit that the detect command printed, if it printed one.
    pub fn detected(&self, output: &str) -> (r: Option<ReviewUnit>)
        ensures
            match r {
                Some(unit) => sync_github::unit_in(output@) == Some(unit@),
                None => sync_github::unit_in(output@) is None,
            },
    {
        unit_from_output(output)
    }

    /// The command that fetches every comment of the review unit.
    pub fn fetch(&self, unit: &ReviewUnit) -> (r: Result<Vec<String>, CustomSyncError>)
        ensures
            match r {
                Ok(command) => self@.fetch_command.len() > 0 && text::texts(command@)
                    == self@.fetch_command.push(unit@),
                Err(error) => self@.fetch_command.len() == 0 && error
                    == CustomSyncError::NoFetchCommand,
            },
    {
        if self.fetch_command.len() == 0 {
            return Err(CustomSyncError::NoFetchCommand);
        }
        Ok(with_unit(&self.fetch_command, unit))
    }

    /// The command that creates a comment, before the comment itself is
    /// appended to it.
    pub fn push(&self, unit: &ReviewUnit) -> (r: Result<Vec<String>, CustomSyncError>)
        ensures
            match r {
                Ok(command) => self@.push_command.len() > 0 && text::texts(command@)
                    == self@.push_command.push(unit@),
                Err(error) => self@.push_command.len() == 0 && error
                    == CustomSyncError::NoPushCommand,
            },
    {
        if self.push_command.len() == 0 {
            return Err(CustomSyncError::NoPushCommand);
        }
        Ok(with_unit(&self.push_command, unit))
    }

    /// The identifier that the push command printed.
    pub fn pushed(&self, output: &str) -> (r: String)
        ensures
            r@ == text::trimmed(output@),
    {
        text::trim(output)
    }
}

/// Splits a configured command into program and arguments, optionally
/// appending a JSON payload as the final argument.
pub fn command_line(command: &Vec<String>, payload: Option<String>) -> (r: Result<
    CommandLine,
    CustomSyncError,
>)
    ensures
        match r {
            Ok(line) => {
                &&& command@.len() > 0
                &&& line.program@ == command@[0]@
                &&& text::texts(line.args@) == text::texts(command@).drop_first() + (
                match payload {
                    Some(payload) => seq![payload@],
                    None => Seq::empty(),
                })
            },
            Err(error) => command@.len() == 0 && error == CustomSyncError::EmptyCommand,
        },
{
    if command.len() == 0 {
        return Err(CustomSyncError::EmptyCommand);
    }
    let ghost all = text::texts(command@);
    let program = command[0].clone();
    let mut args: Vec<String> = Vec::new();
    for i in 1..command.len()
        invariant
            all == text::texts(command@),
            1 <= i <= command.len(),
            args@.len() == i - 1,
            forall|j: int| 0 <= j < i - 1 ==> (#[trigger] args@[j])@ == command@[j + 1]@,
    {
        args.push(command[i].clone());
    }
    proof {
        assert(text::texts(args@) =~= all.drop_first());
    }
    match payload {
        Some(payload) => {
            let ghost before = text::texts(args@);
            let ghost shown = payload@;
            args.push(payload);
            proof {
                assert(text::texts(args@) =~= before + seq![shown]);
            }
        },
        None => {
            proof {
                assert(text::texts(args@) + Seq::empty() =~= text::texts(args@));
            }
        },
    }
    Ok(CommandLine { program, args })
}

/// What a failed command is reported as.
pub open spec fn command_failure(program: Seq<char>, stderr: Seq<char>) -> Seq<char> {
    "custom sync command `"@ + program + "` failed: "@ + text::trimmed(stderr)
}

/// What a failed command is reported as.
pub fn command_failure_message(program: &str, stderr: &str) -> (r: String)
    ensures
        r@ == command_failure(program@, stderr@),
{
    let mut out = "custom sync command `".to_owned();
    out.append(program);
    out.append("` failed: ");
    out.append(text::trim(stderr).as_str());
    out
}

} // verus!
