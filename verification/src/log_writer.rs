//! The summary log record handed back to the caller.

use vstd::prelude::*;

use crate::string_util::{label_line, line_chars};

verus! {

/// Counts of the simplified system and a success flag.
pub struct LogWasm {
    pub no_linear: usize,
    pub no_non_linear: usize,
    pub no_labels: usize,
    pub no_wires: usize,
    pub no_public_inputs: usize,
    pub no_private_inputs: usize,
    pub no_public_outputs: usize,
    pub no_private_outputs: usize,
    pub is_successful: bool,
}

impl LogWasm {
    pub fn new() -> (r: LogWasm)
        ensures
            r.no_linear == 0,
            r.no_non_linear == 0,
            r.no_labels == 0,
            r.no_wires == 0,
            r.no_public_inputs == 0,
            r.no_private_inputs == 0,
            r.no_public_outputs == 0,
            r.no_private_outputs == 0,
            !r.is_successful,
    {
        LogWasm {
            no_linear: 0,
            no_non_linear: 0,
            no_public_inputs: 0,
            no_private_inputs: 0,
            no_public_outputs: 0,
            no_private_outputs: 0,
            no_wires: 0,
            no_labels: 0,
            is_successful: false,
        }
    }

    /// Renders the log as display lines: the counts on success (with the
    /// constraint counts only when any constraint exists), one failure line
    /// otherwise.
    pub fn print_array(logs: &LogWasm) -> (r: Vec<String>)
        ensures
            logs.is_successful ==> {
                &&& r@.len() == if logs.no_non_linear > 0 || logs.no_linear > 0 {
                    8int
                } else {
                    6int
                }
                &&& r@[0]@ == line_chars("public inputs: "@, logs.no_public_inputs as nat)
                &&& r@[1]@ == line_chars("public outputs: "@, logs.no_public_outputs as nat)
                &&& r@[2]@ == line_chars("private inputs: "@, logs.no_private_inputs as nat)
                &&& r@[3]@ == line_chars("private outputs: "@, logs.no_private_outputs as nat)
                &&& r@[4]@ == line_chars("wires: "@, logs.no_wires as nat)
                &&& r@[5]@ == line_chars("labels: "@, logs.no_labels as nat)
                &&& (logs.no_non_linear > 0 || logs.no_linear > 0) ==> {
                    &&& r@[6]@ == line_chars(
                        "non-linear constraints: "@,
                        logs.no_non_linear as nat,
                    )
                    &&& r@[7]@ == line_chars("linear constraints: "@, logs.no_linear as nat)
                }
            },
            !logs.is_successful ==> r@.len() == 1 && r@[0]@ == "previous errors were found"@,
    {
        if logs.is_successful {
            let mut output: Vec<String> = Vec::new();
            output.push(label_line("public inputs: ", logs.no_public_inputs));
            output.push(label_line("public outputs: ", logs.no_public_outputs));
            output.push(label_line("private inputs: ", logs.no_private_inputs));
            output.push(label_line("private outputs: ", logs.no_private_outputs));
            output.push(label_line("wires: ", logs.no_wires));
            output.push(label_line("labels: ", logs.no_labels));
            if logs.no_non_linear > 0 || logs.no_linear > 0 {
                output.push(label_line("non-linear constraints: ", logs.no_non_linear));
                output.push(label_line("linear constraints: ", logs.no_linear));
            }
            output
        } else {
            let mut output: Vec<String> = Vec::new();
            output.push(String::from_str("previous errors were found"));
            output
        }
    }
}

} // verus!
