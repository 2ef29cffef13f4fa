//! The two renderings every command result knows: a human table and `--json`.

use vstd::prelude::*;

use crate::text::{chars_equal, chars_of, chars_start_with, has_prefix};

verus! {

/// How a command result is written.
#[derive(Clone, Copy, Debug, PartialEq, Eq, Structural)]
pub enum Format {
    Human,
    Json,
}

impl Format {
    /// `--json` selects the machine rendering; otherwise the human one.
    pub fn from_json_flag(json: bool) -> (f: Format)
        ensures
            f == (if json {
                Format::Json
            } else {
                Format::Human
            }),
    {
        if json {
            Format::Json
        } else {
            Format::Human
        }
    }
}

/// A command result: its human rendering and the exit code it stands for.
pub trait Report {
    /// The human table.
    fn render_human(&self) -> String;

    /// The exit code; success unless the result says otherwise.
    fn exit_code(&self) -> (code: i32)
        default_ensures
            code == 0,
    {
        0
    }
}

/// An argument that asked for JSON in the older spelling: `-j` or `--json=...`.
pub open spec fn is_legacy_json_arg(arg: Seq<char>) -> bool {
    arg == "-j"@ || has_prefix(arg, "--json="@)
}

/// Whether JSON output was asked for the older way: `FIDUCIA_JSON` is set, or
/// an argument passed through is `-j` or `--json=...`.
pub fn legacy_output_explicit(json_env_set: bool, passthrough: &Vec<String>) -> (b: bool)
    ensures
        b == (json_env_set || exists|i: int|
            0 <= i < passthrough@.len() && is_legacy_json_arg((#[trigger] passthrough@[i])@)),
{
    if json_env_set {
        return true;
    }
    let mut i: usize = 0;
    while i < passthrough.len()
        invariant
            i <= passthrough@.len(),
            forall|j: int| 0 <= j < i ==> !is_legacy_json_arg((#[trigger] passthrough@[j])@),
        decreases passthrough@.len() - i,
    {
        let v = chars_of(passthrough[i].as_str());
        if chars_equal(&v, "-j") || chars_start_with(&v, "--json=") {
            return true;
        }
        i = i + 1;
    }
    false
}

/// Whether the command writes JSON: the shared output policy decides, unless
/// only the older spelling asked for an output mode, which then stands.
pub fn effective_json(
    parsed_json: bool,
    policy_json: bool,
    output_was_explicit: bool,
    legacy_explicit: bool,
) -> (json: bool)
    ensures
        json == (if output_was_explicit || !legacy_explicit {
            policy_json
        } else {
            parsed_json
        }),
{
    if output_was_explicit || !legacy_explicit {
        policy_json
    } else {
        parsed_json
    }
}

} // verus!
