//! The entries of the debug log.

use vstd::prelude::*;
use crate::text::{decimal, decimal_string};

verus! {

/// The line that the debug log gets for a message from `file` at `line`.
pub open spec fn debug_line(file: Seq<char>, line: u32, msg: Seq<char>) -> Seq<char> {
    "[DEBUG] "@ + file + ":"@ + decimal(line as nat) + " "@ + msg + "\n"@
}

/// The text that `write_debug` appends to the log.
pub fn debug_entry(file: &str, line: u32, msg: &str) -> (r: String)
    ensures
        r@ == debug_line(file@, line, msg@),
{
    let mut r = "[DEBUG] ".to_owned();
    r.append(file);
    r.append(":");
    r.append(decimal_string(line as u64).as_str());
    r.append(" ");
    r.append(msg);
    r.append("\n");
    r
}

} // verus!
