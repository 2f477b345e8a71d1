//! Verified kernel of a small suite of UNIX-style text utilities.
//!
//! The library holds the text-stream processing and selection logic:
//! position-list parsing, line enumeration, two-stream merging, column
//! extraction, regex line filtering, prefix reading, duplicate collapsing,
//! fortune parsing and selection, and calendar rendering. Argument parsing
//! and all input/output live outside the library.

pub mod cal;
pub mod comm;
pub mod cut;
pub mod echo;
pub mod fortune;
pub mod grep;
pub mod head;
pub mod lines;
pub mod lsfmt;
pub mod pattern;
pub mod pos;
pub mod textfmt;
pub mod uniq;
pub mod walk;

use vstd::prelude::*;

verus! {

/// True when the tools may treat the name as standard input.
pub fn is_stdin_name(name: &str) -> (r: bool)
    ensures
        r == (name@ =~= "-"@),
{
    proof {
        reveal_strlit("-");
    }
    let n = name.unicode_len();
    if n != 1 {
        assert(name@ != "-"@);
        false
    } else {
        let c = name.get_char(0);
        proof {
            if c == '-' {
                assert(name@ =~= "-"@);
            } else {
                assert(name@ != "-"@);
            }
        }
        c == '-'
    }
}

} // verus!
