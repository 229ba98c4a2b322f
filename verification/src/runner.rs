//! The rules by which a program is run atom by atom: what is done with each
//! atom that the parser yields.

use vstd::prelude::*;
use vstd::string::StringExecFns;

verus! {

/// What is done with the next atom.
#[derive(Clone, Copy, Debug, PartialEq, Eq)]
pub enum Mode {
    /// The atom is added to the space.
    Add,
    /// The atom is interpreted.
    Interpret,
}

/// What the runner does with an atom.
#[derive(Clone, Copy, Debug, PartialEq, Eq)]
pub enum Action {
    /// The atom is the sign to interpret the atom behind it: nothing else is
    /// done with it.
    Skip,
    /// The atom is of a bad type: the result is the error that says so.
    ReportBadType,
    /// The atom is added to the space; it has no result.
    AddToSpace,
    /// The atom is interpreted; the result is what the interpreter returns.
    Interpret,
}

/// The rules as a function: what is done with an atom, and how the atom
/// behind it is treated.
///
/// - The sign goes on to interpretation and is skipped.
/// - Any other atom is followed by addition. Where types are checked and the
///   atom is of a bad type, that is reported; else the atom is added or
///   interpreted as the mode says.
pub open spec fn decided(mode: Mode, is_exec_symbol: bool, checks_types: bool, well_typed: bool) -> (
    Action,
    Mode,
) {
    if is_exec_symbol {
        (Action::Skip, Mode::Interpret)
    } else if checks_types && !well_typed {
        (Action::ReportBadType, Mode::Add)
    } else {
        match mode {
            Mode::Add => (Action::AddToSpace, Mode::Add),
            Mode::Interpret => (Action::Interpret, Mode::Add),
        }
    }
}

/// What is done with an atom in mode `mode`, and the mode for the atom
/// behind it. `well_typed` counts only where `checks_types` holds.
pub fn decide(mode: Mode, is_exec_symbol: bool, checks_types: bool, well_typed: bool) -> (step: (
    Action,
    Mode,
))
    ensures
        step == decided(mode, is_exec_symbol, checks_types, well_typed),
{
    if is_exec_symbol {
        (Action::Skip, Mode::Interpret)
    } else if checks_types && !well_typed {
        (Action::ReportBadType, Mode::Add)
    } else {
        match mode {
            Mode::Add => (Action::AddToSpace, Mode::Add),
            Mode::Interpret => (Action::Interpret, Mode::Add),
        }
    }
}

/// Whether the setting `type-check` asks for a check of every atom: it does
/// where it is set to `auto`.
pub fn checks_types(setting: Option<&String>) -> (r: bool)
    ensures
        r == (setting matches Some(value) && value@ == "auto"@),
{
    match setting {
        Some(value) => *value == String::from_str("auto"),
        None => false,
    }
}

/// The error of a run in which the interpreter failed with `message`.
pub fn interpretation_error(message: &str) -> (error: String)
    ensures
        error@ == "Error: "@ + message@,
{
    let mut error = String::from_str("Error: ");
    error.append(message);
    error
}

/// An atom is interpreted exactly where it is no sign, passes the type check
/// where there is one, and stands behind a sign.
pub proof fn law_interpreted_behind_the_sign(
    mode: Mode,
    is_exec_symbol: bool,
    checks_types: bool,
    well_typed: bool,
)
    ensures
        decided(mode, is_exec_symbol, checks_types, well_typed).0 == Action::Interpret <==> (
        !is_exec_symbol && (checks_types ==> well_typed) && mode == Mode::Interpret),
        decided(mode, is_exec_symbol, checks_types, well_typed).1 == Mode::Interpret
            <==> is_exec_symbol,
{
}

} // verus!
