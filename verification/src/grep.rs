//! Regex line filtering: select lines by a compiled pattern, optionally
//! inverted; count or emit them, with a filename prefix when several
//! sources are read together.

use vstd::prelude::*;
use vstd::multiset::Multiset;
use crate::pattern::{CompiledPattern, pattern_matches, regex_match};
use crate::textfmt::{dec_digits, to_decimal};

verus! {

/// Whether grep keeps a line.
pub open spec fn keeps(src: Seq<char>, ci: bool, invert: bool, l: Seq<char>) -> bool {
    regex_match(src, ci, l) != invert
}

/// The lines grep keeps, in order.
pub open spec fn matched_lines(lines: Seq<Seq<char>>, src: Seq<char>, ci: bool, invert: bool)
    -> Seq<Seq<char>> {
    lines.filter(|l: Seq<char>| keeps(src, ci, invert, l))
}

/// Keep exactly the lines the pattern matches — or, inverted, the lines
/// it does not. Lines are kept verbatim, terminators included.
pub fn find_lines(lines: &Vec<String>, pattern: &CompiledPattern, invert_match: bool)
    -> (r: Vec<String>)
    ensures
        r.deep_view() == matched_lines(
            lines.deep_view(), pattern.src_spec(), pattern.ci_spec(), invert_match),
{
    let ghost full = lines.deep_view();
    let ghost pred = |l: Seq<char>| keeps(pattern.src_spec(), pattern.ci_spec(), invert_match, l);
    let mut out: Vec<String> = Vec::new();
    let mut i: usize = 0;
    proof {
        reveal(Seq::filter);
        assert(full.take(0) =~= Seq::<Seq<char>>::empty());
        assert(out.deep_view() =~= Seq::<Seq<char>>::empty());
        assert(Seq::<Seq<char>>::empty().filter(pred) =~= Seq::<Seq<char>>::empty());
    }
    while i < lines.len()
        invariant
            i <= lines.len(),
            full == lines.deep_view(),
            pred == (|l: Seq<char>| keeps(pattern.src_spec(), pattern.ci_spec(), invert_match, l)),
            out.deep_view() == full.take(i as int).filter(pred),
        decreases lines.len() - i,
    {
        proof {
            reveal(Seq::filter);
            assert(lines@[i as int]@ == full[i as int]);
            assert(full.take(i + 1).drop_last() =~= full.take(i as int));
            assert(full.take(i + 1).last() == full[i as int]);
        }
        let hit = pattern_matches(pattern, lines[i].as_str());
        if hit != invert_match {
            let ghost prev = out.deep_view();
            out.push(lines[i].clone());
            proof {
                assert(out@.len() == prev.len() + 1);
                assert(out.deep_view() =~= prev.push(full[i as int]));
                assert(full.take(i + 1).filter(pred)
                    =~= full.take(i as int).filter(pred).push(full[i as int]));
            }
        } else {
            proof {
                assert(full.take(i + 1).filter(pred) =~= full.take(i as int).filter(pred));
            }
        }
        i = i + 1;
    }
    proof {
        assert(full.take(lines.len() as int) =~= full);
        assert(matched_lines(full, pattern.src_spec(), pattern.ci_spec(), invert_match)
            == full.filter(pred));
    }
    out
}

/// The prefix on every output line: the filename and a colon when more
/// than one source is read, nothing otherwise.
pub open spec fn prefix_spec(name: Seq<char>, multiple: bool) -> Seq<char> {
    if multiple {
        name + ":"@
    } else {
        Seq::empty()
    }
}

/// What grep writes for one source given the lines it kept: the kept
/// lines verbatim, or their count alone; each output line prefixed when
/// several sources are read.
pub open spec fn grep_render_spec(name: Seq<char>, matches: Seq<Seq<char>>, multiple: bool, count: bool)
    -> Seq<Seq<char>> {
    if count {
        seq![prefix_spec(name, multiple) + dec_digits(matches.len())]
    } else {
        matches.map_values(|l: Seq<char>| prefix_spec(name, multiple) + l)
    }
}

/// Render the output lines for one source.
pub fn grep_render(name: &str, matches: &Vec<String>, multiple: bool, count: bool)
    -> (r: Vec<String>)
    ensures
        r.deep_view() == grep_render_spec(name@, matches.deep_view(), multiple, count),
{
    let ghost full = matches.deep_view();
    let mut out: Vec<String> = Vec::new();
    if count {
        let mut s = line_prefix(name, multiple);
        let c = to_decimal(matches.len() as u64);
        s.append(c.as_str());
        let ghost sv = s@;
        out.push(s);
        proof {
            assert(out.deep_view() =~= seq![sv]);
            assert(sv == prefix_spec(name@, multiple) + dec_digits(full.len()));
        }
        out
    } else {
        let ghost m = full.map_values(|l: Seq<char>| prefix_spec(name@, multiple) + l);
        let mut i: usize = 0;
        proof {
            assert(out.deep_view() =~= m.take(0));
        }
        while i < matches.len()
            invariant
                i <= matches.len(),
                full == matches.deep_view(),
                m == full.map_values(|l: Seq<char>| prefix_spec(name@, multiple) + l),
                out.deep_view() =~= m.take(i as int),
            decreases matches.len() - i,
        {
            proof {
                assert(matches@[i as int]@ == full[i as int]);
                assert(m[i as int] == prefix_spec(name@, multiple) + full[i as int]);
            }
            let mut s = line_prefix(name, multiple);
            s.append(matches[i].as_str());
            let ghost sv = s@;
            let ghost prev = out.deep_view();
            out.push(s);
            proof {
                assert(prev.len() == i);
                assert(out@.len() == prev.len() + 1);
                assert(sv == m[i as int]);
                assert(out.deep_view() =~= m.take(i + 1));
            }
            i = i + 1;
        }
        proof {
            assert(m.take(matches.len() as int) =~= m);
        }
        out
    }
}

/// Build the per-line prefix for one source.
fn line_prefix(name: &str, multiple: bool) -> (r: String)
    ensures
        r@ == prefix_spec(name@, multiple),
{
    if multiple {
        let mut s = name.to_owned();
        s.append(":");
        proof {
            assert(s@ =~= prefix_spec(name@, multiple));
        }
        s
    } else {
        String::new()
    }
}

/// The count grep reports is the number of lines it would emit: rendering
/// with the count flag writes exactly the length of the rendering without
/// it.
pub proof fn lemma_grep_count_is_line_count(
    name: Seq<char>, lines: Seq<Seq<char>>, src: Seq<char>, ci: bool, invert: bool, multiple: bool,
)
    ensures
        grep_render_spec(name, matched_lines(lines, src, ci, invert), multiple, true)
            == seq![prefix_spec(name, multiple) + dec_digits(
                grep_render_spec(name, matched_lines(lines, src, ci, invert), multiple, false).len())],
{
    let m = matched_lines(lines, src, ci, invert);
    assert(grep_render_spec(name, m, multiple, false).len() == m.len());
}

/// Matches and non-matches partition the input: as multisets, the lines
/// grep keeps and the lines inverted grep keeps together are exactly the
/// input lines.
pub proof fn lemma_grep_partition(lines: Seq<Seq<char>>, src: Seq<char>, ci: bool)
    ensures
        matched_lines(lines, src, ci, false).to_multiset()
            .add(matched_lines(lines, src, ci, true).to_multiset())
            =~= lines.to_multiset(),
    decreases lines.len(),
{
    broadcast use vstd::seq_lib::group_seq_properties;

    reveal(Seq::filter);
    let p = |l: Seq<char>| keeps(src, ci, false, l);
    let q = |l: Seq<char>| keeps(src, ci, true, l);
    if lines.len() == 0 {
        assert(lines.filter(p) =~= Seq::<Seq<char>>::empty());
        assert(lines.filter(q) =~= Seq::<Seq<char>>::empty());
        assert(lines.to_multiset() =~= Multiset::<Seq<char>>::empty());
    } else {
        let init = lines.drop_last();
        let x = lines.last();
        lemma_grep_partition(init, src, ci);
        init.to_multiset_ensures();
        init.filter(p).to_multiset_ensures();
        init.filter(q).to_multiset_ensures();
        assert(init.push(x) =~= lines);
        assert(lines.to_multiset() =~= init.to_multiset().insert(x));
        assert(lines.filter(p) == if p(x) { init.filter(p).push(x) } else { init.filter(p) });
        assert(lines.filter(q) == if q(x) { init.filter(q).push(x) } else { init.filter(q) });
        if p(x) {
            assert(lines.filter(p).to_multiset() =~= init.filter(p).to_multiset().insert(x));
            assert(lines.filter(q).to_multiset() =~= init.filter(q).to_multiset());
        } else {
            assert(q(x));
            assert(lines.filter(p).to_multiset() =~= init.filter(p).to_multiset());
            assert(lines.filter(q).to_multiset() =~= init.filter(q).to_multiset().insert(x));
        }
    }
}

} // verus!
