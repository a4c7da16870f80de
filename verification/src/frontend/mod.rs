//! From synthesised hardware descriptions to netlists.

use crate::text;
use vstd::prelude::*;

pub mod completeness_laws;
pub mod json;
pub mod meaning;
pub mod reading_laws;
pub mod yosys_json;

verus! {

/// What can go wrong on the way from a hardware description to a netlist.
#[derive(Debug)]
pub enum FrontendError {
    /// `python` could not be launched.
    PythonNotFound(String),
    /// Synthesis ran and produced no netlist.
    SynthesisFailed { stderr: String },
    /// A working file could not be read or written.
    Io(String),
    /// The synthesised netlist was not JSON.
    Json(String),
    /// The netlist holds something that has no realisation.
    Unsupported(String),
}

pub open spec fn error_text(error: FrontendError) -> Seq<char> {
    match error {
        FrontendError::PythonNotFound(cause) => "could not launch `python` ("@ + cause@
            + ") -- the Verilog frontend needs Python 3 with `yowasp-yosys` installed (`pip install yowasp-yosys`, or see requirements.txt)"@,
        FrontendError::SynthesisFailed { stderr } => "yosys synthesis failed:\n"@ + stderr@,
        FrontendError::Io(cause) => "I/O error in the Verilog frontend: "@ + cause@,
        FrontendError::Json(cause) => "could not parse yosys's JSON output: "@ + cause@,
        FrontendError::Unsupported(message) => "unsupported construct: "@ + message@,
    }
}

impl FrontendError {
    /// The error in words.
    pub fn message(&self) -> (written: String)
        ensures
            written@ == error_text(*self),
    {
        match self {
            FrontendError::PythonNotFound(cause) => text::glue3(
                "could not launch `python` (",
                cause.as_str(),
                ") -- the Verilog frontend needs Python 3 with `yowasp-yosys` installed (`pip install yowasp-yosys`, or see requirements.txt)",
            ),
            FrontendError::SynthesisFailed { stderr } => text::glue2(
                "yosys synthesis failed:\n",
                stderr.as_str()),
            FrontendError::Io(cause) => text::glue2(
                "I/O error in the Verilog frontend: ",
                cause.as_str()),
            FrontendError::Json(cause) => text::glue2(
                "could not parse yosys's JSON output: ",
                cause.as_str()),
            FrontendError::Unsupported(message) => text::glue2(
                "unsupported construct: ",
                message.as_str()),
        }
    }
}

/// Unicode white space.
pub open spec fn is_space(c: char) -> bool {
    let code = c as u32;
    ||| 0x9 <= code <= 0xd
    ||| code == 0x20
    ||| code == 0x85
    ||| code == 0xa0
    ||| code == 0x1680
    ||| 0x2000 <= code <= 0x200a
    ||| code == 0x2028
    ||| code == 0x2029
    ||| code == 0x202f
    ||| code == 0x205f
    ||| code == 0x3000
}

/// Nothing but white space.
pub open spec fn blank(written: Seq<char>) -> bool {
    forall|i: int| 0 <= i < written.len() ==> is_space(#[trigger] written[i])
}

fn is_blank(written: &str) -> (nothing: bool)
    ensures
        nothing == blank(written@),
{
    let length: usize = written.unicode_len();
    let mut at: usize = 0;
    while at < length
        invariant
            at <= length == written@.len(),
            forall|i: int| 0 <= i < at ==> is_space(#[trigger] written@[i]),
        decreases length - at,
    {
        let c: char = written.get_char(at);
        let code: u32 = c as u32;
        let space: bool = (code >= 0x9 && code <= 0xd) || code == 0x20 || code == 0x85 || code
            == 0xa0 || code == 0x1680 || (code >= 0x2000 && code <= 0x200a) || code == 0x2028
            || code == 0x2029 || code == 0x202f || code == 0x205f || code == 0x3000;
        if !space {
            assert(!is_space(written@[at as int]));
            return false;
        }
        at = at + 1;
    }
    true
}

/// An exit status, as `std::fmt::Debug` writes it.
pub open spec fn status_text(status: Option<i32>) -> Seq<char> {
    match status {
        Some(code) => "Some("@ + text::signed_decimal(code as int) + ")"@,
        None => "None"@,
    }
}

/// What is reported of a failed synthesis: what it wrote as errors, else what
/// it wrote, else how it ended.
pub open spec fn diagnosis(stderr: Seq<char>, stdout: Seq<char>, status: Option<i32>) -> Seq<char> {
    if !blank(stderr) {
        stderr
    } else if !blank(stdout) {
        stdout
    } else {
        "synth.py exited with status "@ + status_text(status)
            + " and produced no diagnostic output"@
    }
}

/// Judges a synthesis that has ended. It has worked only where the process says
/// so and its output is there.
pub fn synthesis_outcome(
    success: bool,
    output_exists: bool,
    stderr: &str,
    stdout: &str,
    status: Option<i32>,
) -> (outcome: Result<(), FrontendError>)
    ensures
        match outcome {
            Ok(_) => success && output_exists,
            Err(FrontendError::SynthesisFailed { stderr: report }) => !(success && output_exists)
                && report@ == diagnosis(stderr@, stdout@, status),
            Err(_) => false,
        },
{
    if success && output_exists {
        return Ok(());
    }
    let report: String = if !is_blank(stderr) {
        stderr.to_owned()
    } else if !is_blank(stdout) {
        stdout.to_owned()
    } else {
        let ended: String = match status {
            Some(code) => {
                let number: String = text::signed_text(code as i64);
                text::glue3("Some(", number.as_str(), ")")
            },
            None => "None".to_owned(),
        };
        text::glue3(
            "synth.py exited with status ",
            ended.as_str(),
            " and produced no diagnostic output",
        )
    };
    Err(FrontendError::SynthesisFailed { stderr: report })
}

} // verus!
