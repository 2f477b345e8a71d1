//! Prefix reading: the first N lines or the first N bytes of a source.

use vstd::prelude::*;
use crate::textfmt::{lossy_of, lossy_string};

verus! {

/// The first `n` lines (all of them when fewer).
pub fn take_lines(lines: &Vec<String>, n: usize) -> (r: Vec<String>)
    ensures
        n <= lines@.len() ==> r.deep_view() == lines.deep_view().take(n as int),
        n > lines@.len() ==> r.deep_view() == lines.deep_view(),
{
    let limit = if n < lines.len() { n } else { lines.len() };
    let mut out: Vec<String> = Vec::new();
    let mut i: usize = 0;
    while i < limit
        invariant
            i <= limit,
            limit == if n < lines@.len() { n as int } else { lines@.len() as int },
            out.deep_view() =~= lines.deep_view().take(i as int),
        decreases limit - i,
    {
        let ghost prev = out.deep_view();
        out.push(lines[i].clone());
        proof {
            assert(prev.len() == i);
            assert(out@.len() == prev.len() + 1);
            assert(lines@[i as int]@ == lines.deep_view()[i as int]);
            assert(out.deep_view() =~= lines.deep_view().take(i + 1));
        }
        i = i + 1;
    }
    proof {
        if n > lines@.len() {
            assert(lines.deep_view().take(lines@.len() as int) =~= lines.deep_view());
        }
    }
    out
}

/// The first `n` bytes (all of them when fewer), decoded for output with
/// lossy UTF-8 replacement.
pub fn head_bytes(data: &Vec<u8>, n: usize) -> (r: String)
    ensures
        n <= data@.len() ==> r@ == lossy_of(data@.take(n as int)),
        n > data@.len() ==> r@ == lossy_of(data@),
{
    let limit = if n < data.len() { n } else { data.len() };
    let mut prefix: Vec<u8> = Vec::new();
    let mut i: usize = 0;
    while i < limit
        invariant
            i <= limit,
            limit == if n < data@.len() { n as int } else { data@.len() as int },
            prefix@ =~= data@.take(i as int),
        decreases limit - i,
    {
        prefix.push(data[i]);
        i = i + 1;
        proof {
            assert(prefix@ =~= data@.take(i as int));
        }
    }
    proof {
        if n > data@.len() {
            assert(data@.take(data@.len() as int) =~= data@);
        }
    }
    lossy_string(&prefix)
}

/// The banner before a file's output when several files are read: a blank
/// line first for every file after the first.
pub open spec fn header_spec(name: Seq<char>, first: bool) -> Seq<char> {
    (if first { Seq::<char>::empty() } else { "\n"@ }) + "==> "@ + name + " <=="@
}

/// Render the multi-file banner for `name`.
pub fn head_header(name: &str, first: bool) -> (r: String)
    ensures
        r@ == header_spec(name@, first),
{
    let mut s: String = if first { String::new() } else { "\n".to_owned() };
    s.append("==> ");
    s.append(name);
    s.append(" <==");
    proof {
        assert(s@ =~= header_spec(name@, first));
    }
    s
}

} // verus!
