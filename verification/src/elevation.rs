//! Starting with the rights that interception needs.

use crate::number::{format_i32, signed_decimal};
use vstd::prelude::*;

verus! {

/// Why administrator privileges were not requested or not given.
#[derive(Debug, Clone, Copy, PartialEq, Eq, Structural)]
pub enum ElevationError {
    MissingExecutable,
    Cancelled,
    Failed(i32),
}

/// What a failure says.
pub open spec fn elevation_message(e: ElevationError) -> Seq<char> {
    match e {
        ElevationError::MissingExecutable => "current executable path is unavailable"@,
        ElevationError::Cancelled => "administrator approval was cancelled"@,
        ElevationError::Failed(code) => "failed to request administrator privileges (error "@
            + signed_decimal(code as int) + ")"@,
    }
}

impl ElevationError {
    /// What went wrong, in words.
    pub fn message(&self) -> (r: String)
        ensures
            r@ == elevation_message(*self),
    {
        match self {
            ElevationError::MissingExecutable => String::from_str(
                "current executable path is unavailable",
            ),
            ElevationError::Cancelled => String::from_str("administrator approval was cancelled"),
            ElevationError::Failed(code) => {
                let mut out = String::from_str(
                    "failed to request administrator privileges (error ",
                );
                let number = format_i32(*code);
                out.append(number.as_str());
                out.append(")");
                out
            },
        }
    }
}

/// What became of starting again with administrator privileges.
#[derive(Debug, Clone, Copy, PartialEq, Eq, Structural)]
pub enum RelaunchResult {
    Started,
    Cancelled,
    Failed(ElevationError),
}

/// The shell's answer where the user refused the request for privileges.
pub const ERROR_CANCELLED: i64 = 1223;

/// What became of starting again: nothing was started where the program's own file is not known;
/// else the shell's answer tells: a refusal by the user has a number of its own, other numbers
/// above 32 are success, and all others errors.
pub fn relaunch_as_admin(exe_known: bool, code: i64) -> (r: RelaunchResult)
    ensures
        r == (if !exe_known {
            RelaunchResult::Failed(ElevationError::MissingExecutable)
        } else if code == ERROR_CANCELLED {
            RelaunchResult::Cancelled
        } else if code > 32 {
            RelaunchResult::Started
        } else {
            RelaunchResult::Failed(ElevationError::Failed(code as i32))
        }),
{
    if !exe_known {
        return RelaunchResult::Failed(ElevationError::MissingExecutable);
    }
    if code == ERROR_CANCELLED {
        return RelaunchResult::Cancelled;
    }
    if code > 32 {
        return RelaunchResult::Started;
    }
    RelaunchResult::Failed(ElevationError::Failed(code as i32))
}

/// Arguments with a space between them.
pub open spec fn with_spaces(args: Seq<Seq<char>>) -> Seq<char>
    decreases args.len(),
{
    if args.len() == 0 {
        Seq::empty()
    } else if args.len() == 1 {
        args[0]
    } else {
        with_spaces(args.drop_last()).push(' ') + args.last()
    }
}

/// The arguments of a new start as one text; none where that text would be empty.
pub fn join_args(args: &Vec<String>) -> (r: Option<String>)
    ensures
        ({
            let text = with_spaces(args@.map_values(|s: String| s@));
            match r {
                Some(t) => text.len() > 0 && t@ == text,
                None => text.len() == 0,
            }
        }),
{
    let ghost all = args@.map_values(|s: String| s@);
    let mut out = String::new();
    let mut i: usize = 0;
    assert(out@ =~= with_spaces(all.take(0)));
    while i < args.len()
        invariant
            i <= args@.len(),
            all == args@.map_values(|s: String| s@),
            out@ == with_spaces(all.take(i as int)),
        decreases args@.len() - i,
    {
        assert(all.take(i + 1).drop_last() =~= all.take(i as int));
        assert(all.take(i + 1).last() == args@[i as int]@);
        if i > 0 {
            out.push(' ');
        }
        out.append(args[i].as_str());
        assert(out@ =~= with_spaces(all.take(i + 1)));
        i += 1;
    }
    assert(all.take(i as int) =~= all);
    if out.as_str().is_empty() {
        None
    } else {
        Some(out)
    }
}

/// What a program without privileges says before it ends; nothing where it was started again.
pub open spec fn farewell(result: RelaunchResult) -> Option<Seq<char>> {
    match result {
        RelaunchResult::Started => None,
        RelaunchResult::Cancelled => Some(
            "FlowBrake needs administrator approval to intercept network traffic.\nPlease run it again and choose Yes on the UAC prompt."@,
        ),
        RelaunchResult::Failed(cause) => Some(
            "FlowBrake could not request administrator privileges.\n"@ + elevation_message(cause),
        ),
    }
}

/// What a program without privileges says before it ends.
pub fn admin_required_message(result: RelaunchResult) -> (r: Option<String>)
    ensures
        match r {
            Some(text) => farewell(result) == Some(text@),
            None => farewell(result) is None,
        },
{
    match result {
        RelaunchResult::Started => None,
        RelaunchResult::Cancelled => Some(
            String::from_str(
                "FlowBrake needs administrator approval to intercept network traffic.\nPlease run it again and choose Yes on the UAC prompt.",
            ),
        ),
        RelaunchResult::Failed(cause) => {
            let mut out = String::from_str(
                "FlowBrake could not request administrator privileges.\n",
            );
            let reason = cause.message();
            out.append(reason.as_str());
            Some(out)
        },
    }
}

/// The directory that the program runs from: its file's, or the current one where that is not
/// known.
pub fn runtime_dir(parent: Option<String>) -> (r: String)
    ensures
        r@ == match parent {
            Some(dir) => dir@,
            None => "."@,
        },
{
    match parent {
        Some(dir) => dir,
        None => String::from_str("."),
    }
}

/// A program that was started again says nothing more; one that was refused asks to be run again, and
/// one that failed says why.
pub proof fn only_failed_starts_are_explained(cause: ElevationError)
    ensures
        farewell(RelaunchResult::Started) is None,
        farewell(RelaunchResult::Cancelled) is Some,
        farewell(RelaunchResult::Failed(cause)) matches Some(text) && exists|lead: Seq<char>|
            text == #[trigger] (lead + elevation_message(cause)),
{
    let lead = "FlowBrake could not request administrator privileges.\n"@;
    assert(farewell(RelaunchResult::Failed(cause))->0 == lead + elevation_message(cause));
}

} // verus!
