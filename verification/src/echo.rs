//! The text echo writes: its operands joined by single spaces, with an
//! optional final newline.

use vstd::prelude::*;
use crate::textfmt::{join_spec, join_strings};

verus! {

/// What echo writes for the given operands.
pub open spec fn echo_spec(words: Seq<Seq<char>>, omit_newline: bool) -> Seq<char> {
    join_spec(words, " "@) + (if omit_newline { Seq::<char>::empty() } else { "\n"@ })
}

/// Join the operands with single spaces; end with a newline unless it is
/// omitted.
pub fn echo_text(words: &Vec<String>, omit_newline: bool) -> (r: String)
    ensures
        r@ == echo_spec(words.deep_view(), omit_newline),
{
    let mut s = join_strings(words, " ");
    if !omit_newline {
        s.append("\n");
    }
    proof {
        assert(s@ =~= echo_spec(words.deep_view(), omit_newline));
    }
    s
}

} // verus!
