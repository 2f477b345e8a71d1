//! Column extraction: select bytes, characters, or delimited fields of
//! each line by a position list.

use vstd::prelude::*;
use vstd::string::StringSliceAdditionalSpecFns;
use crate::pos::{PosRange, find_sep, find_char, lemma_find_sep_props};
use crate::textfmt::{lossy_of, lossy_string, push_char, join_spec, join_strings};

verus! {

/// The elements of `xs` at the positions of one zero-based half-open
/// range, in order; positions past the end are skipped silently.
pub open spec fn range_select<T>(xs: Seq<T>, lo: int, hi: int) -> Seq<T> {
    if lo >= hi || lo >= xs.len() {
        Seq::empty()
    } else if hi <= xs.len() {
        xs.subrange(lo, hi)
    } else {
        xs.subrange(lo, xs.len() as int)
    }
}

/// The elements of `xs` selected by every range in order: overlapping
/// ranges repeat elements.
pub open spec fn select_positions<T>(xs: Seq<T>, ranges: Seq<PosRange>) -> Seq<T>
    decreases ranges.len(),
{
    if ranges.len() == 0 {
        Seq::empty()
    } else {
        range_select(xs, ranges[0].start as int, ranges[0].end as int)
            + select_positions(xs, ranges.skip(1))
    }
}

/// Select the characters of `line` at the positions of `char_pos`.
pub fn extract_chars(line: &str, char_pos: &Vec<PosRange>) -> (r: String)
    ensures
        r@ == select_positions(line@, char_pos@),
{
    let n = line.unicode_len();
    let mut out = String::new();
    let mut k: usize = 0;
    proof {
        assert(char_pos@.skip(0) =~= char_pos@);
        assert(out@ + select_positions(line@, char_pos@) =~= select_positions(line@, char_pos@));
    }
    while k < char_pos.len()
        invariant
            k <= char_pos@.len(),
            n == line@.len(),
            select_positions(line@, char_pos@)
                =~= out@ + select_positions(line@, char_pos@.skip(k as int)),
        decreases char_pos@.len() - k,
    {
        proof {
            assert(char_pos@.skip(k as int)[0] == char_pos@[k as int]);
            assert(char_pos@.skip(k as int).skip(1) =~= char_pos@.skip(k + 1));
        }
        let lo = char_pos[k].start;
        let hi = char_pos[k].end;
        let stop = if hi < n { hi } else { n };
        let mut i: usize = lo;
        let ghost entry = out@;
        if i < stop {
            while i < stop
                invariant
                    lo <= i <= stop,
                    lo < stop,
                    stop == if hi < n { hi as int } else { n as int },
                    n == line@.len(),
                    stop <= n,
                    out@ =~= entry + line@.subrange(lo as int, i as int),
                decreases stop - i,
            {
                let c = line.get_char(i);
                push_char(&mut out, c);
                i = i + 1;
                proof {
                    assert(out@ =~= entry + line@.subrange(lo as int, i as int));
                }
            }
        }
        proof {
            assert(out@ =~= entry + range_select(line@, lo as int, hi as int));
        }
        k = k + 1;
        proof {
            assert(select_positions(line@, char_pos@)
                =~= out@ + select_positions(line@, char_pos@.skip(k as int)));
        }
    }
    proof {
        assert(char_pos@.skip(char_pos@.len() as int) =~= Seq::<PosRange>::empty());
        assert(out@ + Seq::<char>::empty() =~= out@);
    }
    out
}

/// Select the bytes of `line` at the positions of `byte_pos`, decoded for
/// output with lossy UTF-8 replacement.
pub fn extract_bytes(line: &str, byte_pos: &Vec<PosRange>) -> (r: String)
    ensures
        r@ == lossy_of(select_positions(line.spec_bytes(), byte_pos@)),
{
    let bytes = line.as_bytes();
    let n = bytes.len();
    let mut sel: Vec<u8> = Vec::new();
    let mut k: usize = 0;
    proof {
        assert(byte_pos@.skip(0) =~= byte_pos@);
        assert(sel@ + select_positions(line.spec_bytes(), byte_pos@)
            =~= select_positions(line.spec_bytes(), byte_pos@));
    }
    while k < byte_pos.len()
        invariant
            k <= byte_pos@.len(),
            bytes@ == line.spec_bytes(),
            n == bytes@.len(),
            select_positions(line.spec_bytes(), byte_pos@)
                =~= sel@ + select_positions(line.spec_bytes(), byte_pos@.skip(k as int)),
        decreases byte_pos@.len() - k,
    {
        proof {
            assert(byte_pos@.skip(k as int)[0] == byte_pos@[k as int]);
            assert(byte_pos@.skip(k as int).skip(1) =~= byte_pos@.skip(k + 1));
        }
        let lo = byte_pos[k].start;
        let hi = byte_pos[k].end;
        let stop = if hi < n { hi } else { n };
        let mut i: usize = lo;
        let ghost entry = sel@;
        if i < stop {
            while i < stop
                invariant
                    lo <= i <= stop,
                    lo < stop,
                    stop == if hi < n { hi as int } else { n as int },
                    bytes@ == line.spec_bytes(),
                    n == bytes@.len(),
                    stop <= n,
                    sel@ =~= entry + bytes@.subrange(lo as int, i as int),
                decreases stop - i,
            {
                let b = bytes[i];
                sel.push(b);
                i = i + 1;
                proof {
                    assert(sel@ =~= entry + bytes@.subrange(lo as int, i as int));
                }
            }
        }
        proof {
            assert(sel@ =~= entry + range_select(bytes@, lo as int, hi as int));
        }
        k = k + 1;
        proof {
            assert(select_positions(line.spec_bytes(), byte_pos@)
                =~= sel@ + select_positions(line.spec_bytes(), byte_pos@.skip(k as int)));
        }
    }
    proof {
        assert(byte_pos@.skip(byte_pos@.len() as int) =~= Seq::<PosRange>::empty());
        assert(sel@ + Seq::<u8>::empty() =~= sel@);
        assert(sel@ =~= select_positions(line.spec_bytes(), byte_pos@));
    }
    lossy_string(&sel)
}

/// Select the fields of a record at the positions of `field_pos`;
/// positions past the last field are skipped silently.
pub fn extract_fields(record: &Vec<String>, field_pos: &Vec<PosRange>) -> (r: Vec<String>)
    ensures
        r.deep_view() == select_positions(record.deep_view(), field_pos@),
{
    let ghost rv = record.deep_view();
    let n = record.len();
    let mut out: Vec<String> = Vec::new();
    let mut k: usize = 0;
    proof {
        assert(field_pos@.skip(0) =~= field_pos@);
        assert(out.deep_view() =~= Seq::<Seq<char>>::empty());
        assert(out.deep_view() + select_positions(rv, field_pos@) =~= select_positions(rv, field_pos@));
    }
    while k < field_pos.len()
        invariant
            k <= field_pos@.len(),
            rv == record.deep_view(),
            n == rv.len(),
            select_positions(rv, field_pos@)
                =~= out.deep_view() + select_positions(rv, field_pos@.skip(k as int)),
        decreases field_pos@.len() - k,
    {
        proof {
            assert(field_pos@.skip(k as int)[0] == field_pos@[k as int]);
            assert(field_pos@.skip(k as int).skip(1) =~= field_pos@.skip(k + 1));
        }
        let lo = field_pos[k].start;
        let hi = field_pos[k].end;
        let stop = if hi < n { hi } else { n };
        let mut i: usize = lo;
        let ghost entry = out.deep_view();
        if i < stop {
            while i < stop
                invariant
                    lo <= i <= stop,
                    lo < stop,
                    stop == if hi < n { hi as int } else { n as int },
                    rv == record.deep_view(),
                    n == rv.len(),
                    stop <= n,
                    out.deep_view() =~= entry + rv.subrange(lo as int, i as int),
                decreases stop - i,
            {
                let ghost prev = out.deep_view();
                out.push(record[i].clone());
                proof {
                    assert(prev.len() == entry.len() + i - lo);
                    assert(out@.len() == prev.len() + 1);
                    assert(record@[i as int]@ == rv[i as int]);
                    assert(rv.subrange(lo as int, i + 1)
                        =~= rv.subrange(lo as int, i as int).push(rv[i as int]));
                    assert(out.deep_view() =~= prev.push(rv[i as int]));
                    assert(out.deep_view() =~= entry + rv.subrange(lo as int, i + 1));
                }
                i = i + 1;
            }
        }
        proof {
            assert(out.deep_view() =~= entry + range_select(rv, lo as int, hi as int));
        }
        k = k + 1;
        proof {
            assert(select_positions(rv, field_pos@)
                =~= out.deep_view() + select_positions(rv, field_pos@.skip(k as int)));
        }
    }
    proof {
        assert(field_pos@.skip(field_pos@.len() as int) =~= Seq::<PosRange>::empty());
        assert(out.deep_view() + Seq::<Seq<char>>::empty() =~= out.deep_view());
    }
    out
}

/// The fields of `s` split at every occurrence of the delimiter; a line
/// without the delimiter is one field.
pub open spec fn split_on(s: Seq<char>, d: char) -> Seq<Seq<char>>
    decreases s.len(),
{
    let k = find_sep(s, d);
    if k < 0 || k >= s.len() {
        seq![s]
    } else {
        seq![s.take(k)] + split_on(s.skip(k + 1), d)
    }
}

/// Split `line` at every occurrence of the delimiter.
pub fn split_fields(line: &str, delim: char) -> (r: Vec<String>)
    ensures
        r.deep_view() == split_on(line@, delim),
    decreases line@.len(),
{
    let n = line.unicode_len();
    let k = find_char(line, delim);
    proof {
        lemma_find_sep_props(line@, delim);
    }
    if k >= n {
        let mut out: Vec<String> = Vec::new();
        out.push(line.to_owned());
        proof {
            assert(out.deep_view() =~= split_on(line@, delim));
        }
        out
    } else {
        let head = line.substring_char(0, k);
        let rest = line.substring_char(k + 1, n);
        proof {
            assert(head@ =~= line@.take(k as int));
            assert(rest@ =~= line@.skip(k + 1));
        }
        let mut out = split_fields(rest, delim);
        out.insert(0, head.to_owned());
        proof {
            assert(out.deep_view() =~= split_on(line@, delim));
        }
        out
    }
}

/// What cut writes for one line in field mode: a line without the
/// delimiter passes through unchanged; otherwise the selected fields,
/// joined with the same delimiter.
pub open spec fn cut_fields_spec(l: Seq<char>, d: char, ranges: Seq<PosRange>) -> Seq<char> {
    if find_sep(l, d) >= l.len() {
        l
    } else {
        join_spec(select_positions(split_on(l, d), ranges), seq![d])
    }
}

/// Extract the selected fields of one line.
pub fn cut_fields_line(line: &str, delim: char, field_pos: &Vec<PosRange>, delim_str: &str)
    -> (r: String)
    requires
        delim_str@ == seq![delim],
    ensures
        r@ == cut_fields_spec(line@, delim, field_pos@),
{
    let n = line.unicode_len();
    let k = find_char(line, delim);
    proof {
        lemma_find_sep_props(line@, delim);
    }
    if k >= n {
        line.to_owned()
    } else {
        let fields = split_fields(line, delim);
        let chosen = extract_fields(&fields, field_pos);
        join_strings(&chosen, delim_str)
    }
}

} // verus!
