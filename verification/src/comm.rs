//! Two-stream merging: the three-column set comparison of two sorted
//! inputs, with column suppression, case folding, and a configurable
//! output delimiter.

use vstd::prelude::*;
use vstd::multiset::Multiset;
use vstd::seq_lib::lemma_multiset_commutative;
use crate::textfmt::{lower_of, to_lower};

verus! {

/// Which column a merged line belongs to: only in the first input, only
/// in the second, or in both.
#[derive(Clone, Copy, PartialEq, Eq, Structural, Debug)]
pub enum ColTag {
    Col1,
    Col2,
    Col3,
}

/// Lexicographic order on lines by character code.
pub open spec fn lex_less(a: Seq<char>, b: Seq<char>) -> bool
    decreases a.len(),
{
    if b.len() == 0 {
        false
    } else if a.len() == 0 {
        true
    } else if (a[0] as u32) < (b[0] as u32) {
        true
    } else if (a[0] as u32) > (b[0] as u32) {
        false
    } else {
        lex_less(a.skip(1), b.skip(1))
    }
}

/// Comparing is unchanged by skipping a common prefix.
proof fn lemma_lex_skip(a: Seq<char>, b: Seq<char>, i: int)
    requires
        0 <= i <= a.len(),
        i <= b.len(),
        forall|j: int| 0 <= j < i ==> a[j] == b[j],
    ensures
        lex_less(a, b) == lex_less(a.skip(i), b.skip(i)),
    decreases i,
{
    if i > 0 {
        assert(a[0] == b[0]);
        if a.len() > 0 && b.len() > 0 {
            assert forall|j: int| 0 <= j < i - 1 implies a.skip(1)[j] == b.skip(1)[j] by {
                assert(a.skip(1)[j] == a[j + 1]);
                assert(b.skip(1)[j] == b[j + 1]);
            }
            lemma_lex_skip(a.skip(1), b.skip(1), i - 1);
            assert(a.skip(1).skip(i - 1) =~= a.skip(i));
            assert(b.skip(1).skip(i - 1) =~= b.skip(i));
        }
    } else {
        assert(a.skip(0) =~= a);
        assert(b.skip(0) =~= b);
    }
}

/// Three-way compare of two lines by character code: negative, zero or
/// positive as the first is less than, equal to, or greater than the
/// second.
pub fn cmp_lines(a: &str, b: &str) -> (r: i32)
    ensures
        (r == 0) <==> a@ == b@,
        (r < 0) <==> lex_less(a@, b@),
        (r > 0) <==> lex_less(b@, a@),
{
    let na = a.unicode_len();
    let nb = b.unicode_len();
    let min = if na < nb { na } else { nb };
    let mut i: usize = 0;
    while i < min
        invariant
            na == a@.len(),
            nb == b@.len(),
            min == if na < nb { na as int } else { nb as int },
            i <= min,
            forall|j: int| 0 <= j < i ==> a@[j] == b@[j],
        decreases min - i,
    {
        let ca = a.get_char(i) as u32;
        let cb = b.get_char(i) as u32;
        if ca < cb {
            proof {
                lemma_lex_skip(a@, b@, i as int);
                lemma_lex_skip(b@, a@, i as int);
                assert(lex_less(a@.skip(i as int), b@.skip(i as int)));
                assert(!lex_less(b@.skip(i as int), a@.skip(i as int)));
                assert(a@[i as int] != b@[i as int]);
                assert(a@ != b@);
            }
            return -1;
        }
        if ca > cb {
            proof {
                lemma_lex_skip(a@, b@, i as int);
                lemma_lex_skip(b@, a@, i as int);
                assert(!lex_less(a@.skip(i as int), b@.skip(i as int)));
                assert(lex_less(b@.skip(i as int), a@.skip(i as int)));
                assert(a@[i as int] != b@[i as int]);
                assert(a@ != b@);
            }
            return 1;
        }
        i = i + 1;
    }
    proof {
        lemma_lex_skip(a@, b@, min as int);
        lemma_lex_skip(b@, a@, min as int);
    }
    if na == nb {
        proof {
            assert(a@ =~= b@);
            assert(a@.skip(min as int).len() == 0);
            assert(b@.skip(min as int).len() == 0);
        }
        0
    } else if na < nb {
        proof {
            assert(a@.skip(min as int).len() == 0);
            assert(b@.skip(min as int).len() > 0);
            assert(lex_less(a@, b@));
            assert(a@.len() != b@.len());
        }
        -1
    } else {
        proof {
            assert(b@.skip(min as int).len() == 0);
            assert(a@.skip(min as int).len() > 0);
            assert(lex_less(b@, a@));
            assert(a@.len() != b@.len());
        }
        1
    }
}

/// The merged column records of two sorted line lists: three-way branch
/// on each pair of heads; equal heads advance both and yield one record
/// of the shared column; an exhausted side drains the other.
pub open spec fn comm_merge_spec(a: Seq<Seq<char>>, b: Seq<Seq<char>>)
    -> Seq<(ColTag, Seq<char>)>
    decreases a.len() + b.len(),
{
    if a.len() == 0 && b.len() == 0 {
        Seq::empty()
    } else if b.len() == 0 {
        seq![(ColTag::Col1, a[0])] + comm_merge_spec(a.skip(1), b)
    } else if a.len() == 0 {
        seq![(ColTag::Col2, b[0])] + comm_merge_spec(a, b.skip(1))
    } else if a[0] == b[0] {
        seq![(ColTag::Col3, a[0])] + comm_merge_spec(a.skip(1), b.skip(1))
    } else if lex_less(a[0], b[0]) {
        seq![(ColTag::Col1, a[0])] + comm_merge_spec(a.skip(1), b)
    } else {
        seq![(ColTag::Col2, b[0])] + comm_merge_spec(a, b.skip(1))
    }
}

/// How one record appears in the output: a suppressed column disappears
/// with its separator; earlier shown columns contribute leading
/// delimiters so the kept columns stay aligned.
pub open spec fn render_pair(col: ColTag, line: Seq<char>, show1: bool, show2: bool, show3: bool,
    delim: Seq<char>) -> Option<Seq<char>> {
    match col {
        ColTag::Col1 => if show1 {
            Some(line)
        } else {
            None
        },
        ColTag::Col2 => if show2 {
            Some((if show1 { delim } else { Seq::empty() }) + line)
        } else {
            None
        },
        ColTag::Col3 => if show3 {
            Some((if show1 { delim } else { Seq::empty() })
                + (if show2 { delim } else { Seq::empty() }) + line)
        } else {
            None
        },
    }
}

/// The output lines for a record list.
pub open spec fn comm_render(pairs: Seq<(ColTag, Seq<char>)>, show1: bool, show2: bool, show3: bool,
    delim: Seq<char>) -> Seq<Seq<char>>
    decreases pairs.len(),
{
    if pairs.len() == 0 {
        Seq::empty()
    } else {
        match render_pair(pairs[0].0, pairs[0].1, show1, show2, show3, delim) {
            Option::None => comm_render(pairs.skip(1), show1, show2, show3, delim),
            Option::Some(l) => seq![l] + comm_render(pairs.skip(1), show1, show2, show3, delim),
        }
    }
}

/// The lines after the optional case folding comm compares and emits.
pub open spec fn fold_case(lines: Seq<Seq<char>>, insensitive: bool) -> Seq<Seq<char>> {
    if insensitive {
        lines.map_values(|l: Seq<char>| lower_of(l))
    } else {
        lines
    }
}

/// Fold every line to lowercase when the comparison is case-insensitive.
fn fold_lines(lines: &Vec<String>, insensitive: bool) -> (r: Vec<String>)
    ensures
        r.deep_view() == fold_case(lines.deep_view(), insensitive),
{
    if !insensitive {
        let mut out: Vec<String> = Vec::new();
        let mut i: usize = 0;
        while i < lines.len()
            invariant
                i <= lines.len(),
                out.deep_view() =~= lines.deep_view().take(i as int),
            decreases lines.len() - i,
        {
            let ghost prev = out.deep_view();
            out.push(lines[i].clone());
            proof {
                assert(prev.len() == i);
                assert(out@.len() == prev.len() + 1);
                assert(lines@[i as int]@ == lines.deep_view()[i as int]);
                assert(out.deep_view() =~= lines.deep_view().take(i + 1));
            }
            i = i + 1;
        }
        proof {
            assert(lines.deep_view().take(lines@.len() as int) =~= lines.deep_view());
        }
        out
    } else {
        let ghost m = lines.deep_view().map_values(|l: Seq<char>| lower_of(l));
        let mut out: Vec<String> = Vec::new();
        let mut i: usize = 0;
        proof {
            assert(out.deep_view() =~= m.take(0));
        }
        while i < lines.len()
            invariant
                i <= lines.len(),
                m == lines.deep_view().map_values(|l: Seq<char>| lower_of(l)),
                out.deep_view() =~= m.take(i as int),
            decreases lines.len() - i,
        {
            proof {
                assert(lines@[i as int]@ == lines.deep_view()[i as int]);
                assert(m[i as int] == lower_of(lines.deep_view()[i as int]));
            }
            let s = to_lower(lines[i].as_str());
            let ghost sv = s@;
            let ghost prev = out.deep_view();
            out.push(s);
            proof {
                assert(prev.len() == i);
                assert(out@.len() == prev.len() + 1);
                assert(sv == m[i as int]);
                assert(out.deep_view() =~= m.take(i + 1));
            }
            i = i + 1;
        }
        proof {
            assert(m.take(lines@.len() as int) =~= m);
        }
        out
    }
}

/// Merge two sorted line lists into comm's three-column output.
///
/// With `insensitive`, every line is folded to lowercase before the
/// comparison and the folded form is what appears in the output. Shown
/// columns are separated by `delimiter`; suppressing a column removes it
/// and its separator.
pub fn comm_lines(lines1: &Vec<String>, lines2: &Vec<String>, show1: bool, show2: bool, show3: bool,
    insensitive: bool, delimiter: &str) -> (r: Vec<String>)
    ensures
        r.deep_view() == comm_render(
            comm_merge_spec(
                fold_case(lines1.deep_view(), insensitive),
                fold_case(lines2.deep_view(), insensitive),
            ),
            show1, show2, show3, delimiter@),
{
    let a = fold_lines(lines1, insensitive);
    let b = fold_lines(lines2, insensitive);
    let mut out: Vec<String> = Vec::new();
    merge_into(&a, &b, 0, 0, show1, show2, show3, delimiter, &mut out);
    proof {
        assert(a.deep_view().skip(0) =~= a.deep_view());
        assert(b.deep_view().skip(0) =~= b.deep_view());
        assert(Seq::<Seq<char>>::empty()
            + comm_render(comm_merge_spec(a.deep_view(), b.deep_view()),
                show1, show2, show3, delimiter@)
            =~= comm_render(comm_merge_spec(a.deep_view(), b.deep_view()),
                show1, show2, show3, delimiter@));
    }
    out
}

/// Merge the tails of two folded line lists, from positions `i` and `j`,
/// appending the rendered records to `out`.
fn merge_into(a: &Vec<String>, b: &Vec<String>, i: usize, j: usize, show1: bool, show2: bool,
    show3: bool, delimiter: &str, out: &mut Vec<String>)
    requires
        i <= a@.len(),
        j <= b@.len(),
    ensures
        final(out).deep_view() =~= old(out).deep_view() + comm_render(
            comm_merge_spec(a.deep_view().skip(i as int), b.deep_view().skip(j as int)),
            show1, show2, show3, delimiter@),
    decreases a@.len() + b@.len() - i - j,
{
    let ghost av = a.deep_view();
    let ghost bv = b.deep_view();
    let ghost out0 = out.deep_view();
    proof {
        if i < av.len() {
            assert(av.skip(i as int)[0] == av[i as int]);
            assert(av.skip(i as int).skip(1) =~= av.skip(i + 1));
            assert(a@[i as int]@ == av[i as int]);
        }
        if j < bv.len() {
            assert(bv.skip(j as int)[0] == bv[j as int]);
            assert(bv.skip(j as int).skip(1) =~= bv.skip(j + 1));
            assert(b@[j as int]@ == bv[j as int]);
        }
    }
    if i >= a.len() && j >= b.len() {
        proof {
            assert(av.skip(i as int).len() == 0);
            assert(bv.skip(j as int).len() == 0);
            assert(out.deep_view() =~= out0
                + comm_render(comm_merge_spec(av.skip(i as int), bv.skip(j as int)),
                    show1, show2, show3, delimiter@));
        }
    } else if i >= a.len() {
        proof {
            assert(av.skip(i as int).len() == 0);
            assert(comm_merge_spec(av.skip(i as int), bv.skip(j as int))
                == seq![(ColTag::Col2, bv[j as int])]
                    + comm_merge_spec(av.skip(i as int), bv.skip(j + 1)));
            lemma_render_step((ColTag::Col2, bv[j as int]),
                comm_merge_spec(av.skip(i as int), bv.skip(j + 1)),
                show1, show2, show3, delimiter@);
        }
        let rendered = render_column(ColTag::Col2, b[j].as_str(), show1, show2, show3, delimiter);
        push_rendered(out, rendered, Ghost((ColTag::Col2, bv[j as int])),
            Ghost((show1, show2, show3)), Ghost(delimiter@));
        merge_into(a, b, i, j + 1, show1, show2, show3, delimiter, out);
    } else if j >= b.len() {
        proof {
            assert(bv.skip(j as int).len() == 0);
            assert(av.skip(i as int).len() > 0);
            assert(comm_merge_spec(av.skip(i as int), bv.skip(j as int))
                == seq![(ColTag::Col1, av[i as int])]
                    + comm_merge_spec(av.skip(i + 1), bv.skip(j as int)));
            lemma_render_step((ColTag::Col1, av[i as int]),
                comm_merge_spec(av.skip(i + 1), bv.skip(j as int)),
                show1, show2, show3, delimiter@);
        }
        let rendered = render_column(ColTag::Col1, a[i].as_str(), show1, show2, show3, delimiter);
        push_rendered(out, rendered, Ghost((ColTag::Col1, av[i as int])),
            Ghost((show1, show2, show3)), Ghost(delimiter@));
        merge_into(a, b, i + 1, j, show1, show2, show3, delimiter, out);
    } else {
        let c = cmp_lines(a[i].as_str(), b[j].as_str());
        if c == 0 {
            proof {
                assert(av.skip(i as int)[0] == bv.skip(j as int)[0]);
                assert(comm_merge_spec(av.skip(i as int), bv.skip(j as int))
                    == seq![(ColTag::Col3, av[i as int])]
                        + comm_merge_spec(av.skip(i + 1), bv.skip(j + 1)));
                lemma_render_step((ColTag::Col3, av[i as int]),
                    comm_merge_spec(av.skip(i + 1), bv.skip(j + 1)),
                    show1, show2, show3, delimiter@);
            }
            let rendered = render_column(ColTag::Col3, a[i].as_str(), show1, show2, show3, delimiter);
            push_rendered(out, rendered, Ghost((ColTag::Col3, av[i as int])),
                Ghost((show1, show2, show3)), Ghost(delimiter@));
            merge_into(a, b, i + 1, j + 1, show1, show2, show3, delimiter, out);
        } else if c < 0 {
            proof {
                assert(av.skip(i as int)[0] != bv.skip(j as int)[0]);
                assert(lex_less(av.skip(i as int)[0], bv.skip(j as int)[0]));
                assert(comm_merge_spec(av.skip(i as int), bv.skip(j as int))
                    == seq![(ColTag::Col1, av[i as int])]
                        + comm_merge_spec(av.skip(i + 1), bv.skip(j as int)));
                lemma_render_step((ColTag::Col1, av[i as int]),
                    comm_merge_spec(av.skip(i + 1), bv.skip(j as int)),
                    show1, show2, show3, delimiter@);
            }
            let rendered = render_column(ColTag::Col1, a[i].as_str(), show1, show2, show3, delimiter);
            push_rendered(out, rendered, Ghost((ColTag::Col1, av[i as int])),
                Ghost((show1, show2, show3)), Ghost(delimiter@));
            merge_into(a, b, i + 1, j, show1, show2, show3, delimiter, out);
        } else {
            proof {
                assert(av.skip(i as int)[0] != bv.skip(j as int)[0]);
                assert(!lex_less(av.skip(i as int)[0], bv.skip(j as int)[0]));
                assert(comm_merge_spec(av.skip(i as int), bv.skip(j as int))
                    == seq![(ColTag::Col2, bv[j as int])]
                        + comm_merge_spec(av.skip(i as int), bv.skip(j + 1)));
                lemma_render_step((ColTag::Col2, bv[j as int]),
                    comm_merge_spec(av.skip(i as int), bv.skip(j + 1)),
                    show1, show2, show3, delimiter@);
            }
            let rendered = render_column(ColTag::Col2, b[j].as_str(), show1, show2, show3, delimiter);
            push_rendered(out, rendered, Ghost((ColTag::Col2, bv[j as int])),
                Ghost((show1, show2, show3)), Ghost(delimiter@));
            merge_into(a, b, i, j + 1, show1, show2, show3, delimiter, out);
        }
    }
}

/// Render one column record, or nothing when its column is suppressed.
fn render_column(col: ColTag, line: &str, show1: bool, show2: bool, show3: bool, delimiter: &str)
    -> (r: Option<String>)
    ensures
        r is Some <==> render_pair(col, line@, show1, show2, show3, delimiter@) is Some,
        r is Some ==> r->0@ == render_pair(col, line@, show1, show2, show3, delimiter@)->0,
{
    match col {
        ColTag::Col1 => {
            if show1 {
                Some(line.to_owned())
            } else {
                None
            }
        },
        ColTag::Col2 => {
            if show2 {
                let mut s = if show1 { delimiter.to_owned() } else { String::new() };
                s.append(line);
                proof {
                    assert(s@ =~= render_pair(col, line@, show1, show2, show3, delimiter@)->0);
                }
                Some(s)
            } else {
                None
            }
        },
        ColTag::Col3 => {
            if show3 {
                let mut s = if show1 { delimiter.to_owned() } else { String::new() };
                if show2 {
                    s.append(delimiter);
                }
                s.append(line);
                proof {
                    assert(s@ =~= render_pair(col, line@, show1, show2, show3, delimiter@)->0);
                }
                Some(s)
            } else {
                None
            }
        },
    }
}

/// Rendering a record list starts with rendering its head.
proof fn lemma_render_step(p: (ColTag, Seq<char>), rest: Seq<(ColTag, Seq<char>)>,
    show1: bool, show2: bool, show3: bool, delim: Seq<char>)
    ensures
        comm_render(seq![p] + rest, show1, show2, show3, delim)
            =~= comm_render(seq![p], show1, show2, show3, delim)
                + comm_render(rest, show1, show2, show3, delim),
{
    reveal_with_fuel(comm_render, 2);
    assert((seq![p] + rest)[0] == p);
    assert((seq![p] + rest).skip(1) =~= rest);
    assert(seq![p][0] == p);
    assert(seq![p].skip(1) =~= Seq::<(ColTag, Seq<char>)>::empty());
    assert(comm_render(Seq::<(ColTag, Seq<char>)>::empty(), show1, show2, show3, delim)
        =~= Seq::<Seq<char>>::empty());
}

/// Append a rendered record to the output, if its column is shown.
fn push_rendered(out: &mut Vec<String>, rendered: Option<String>,
    Ghost(pair): Ghost<(ColTag, Seq<char>)>, Ghost(flags): Ghost<(bool, bool, bool)>,
    Ghost(delim): Ghost<Seq<char>>)
    requires
        rendered is Some <==> render_pair(pair.0, pair.1, flags.0, flags.1, flags.2, delim) is Some,
        rendered is Some ==> rendered->0@ == render_pair(
            pair.0, pair.1, flags.0, flags.1, flags.2, delim)->0,
    ensures
        final(out).deep_view() =~= old(out).deep_view()
            + comm_render(seq![pair], flags.0, flags.1, flags.2, delim),
{
    proof {
        reveal_with_fuel(comm_render, 2);
        assert(seq![pair][0] == pair);
        assert(seq![pair].skip(1) =~= Seq::<(ColTag, Seq<char>)>::empty());
        assert(comm_render(Seq::<(ColTag, Seq<char>)>::empty(),
            flags.0, flags.1, flags.2, delim) =~= Seq::<Seq<char>>::empty());
    }
    match rendered {
        Option::None => {
            proof {
                assert(comm_render(seq![pair], flags.0, flags.1, flags.2, delim)
                    =~= Seq::<Seq<char>>::empty());
                assert(final(out).deep_view() =~= old(out).deep_view()
                    + comm_render(seq![pair], flags.0, flags.1, flags.2, delim));
            }
        },
        Option::Some(s) => {
            let ghost sv = s@;
            let ghost prev = out.deep_view();
            out.push(s);
            proof {
                assert(out@.len() == prev.len() + 1);
                assert(out.deep_view() =~= prev.push(sv));
                assert(comm_render(seq![pair], flags.0, flags.1, flags.2, delim) =~= seq![sv]);
            }
        },
    }
}

/// The lines of one column.
pub open spec fn col_lines(pairs: Seq<(ColTag, Seq<char>)>, tag: ColTag) -> Seq<Seq<char>>
    decreases pairs.len(),
{
    if pairs.len() == 0 {
        Seq::empty()
    } else if pairs[0].0 == tag {
        seq![pairs[0].1] + col_lines(pairs.skip(1), tag)
    } else {
        col_lines(pairs.skip(1), tag)
    }
}

/// The merge loses nothing and invents nothing: as multisets, column 1
/// and column 3 together are exactly the first input, and column 2 and
/// column 3 together are exactly the second.
pub proof fn lemma_comm_partition(a: Seq<Seq<char>>, b: Seq<Seq<char>>)
    ensures
        col_lines(comm_merge_spec(a, b), ColTag::Col1).to_multiset()
            .add(col_lines(comm_merge_spec(a, b), ColTag::Col3).to_multiset())
            =~= a.to_multiset(),
        col_lines(comm_merge_spec(a, b), ColTag::Col2).to_multiset()
            .add(col_lines(comm_merge_spec(a, b), ColTag::Col3).to_multiset())
            =~= b.to_multiset(),
    decreases a.len() + b.len(),
{
    broadcast use vstd::multiset::group_multiset_axioms;

    let m = comm_merge_spec(a, b);
    if a.len() == 0 && b.len() == 0 {
        assert(a =~= Seq::<Seq<char>>::empty());
        assert(b =~= Seq::<Seq<char>>::empty());
        assert(m =~= Seq::<(ColTag, Seq<char>)>::empty());
        lemma_empty_multiset();
        assert(col_lines(m, ColTag::Col1) =~= Seq::<Seq<char>>::empty());
        assert(col_lines(m, ColTag::Col2) =~= Seq::<Seq<char>>::empty());
        assert(col_lines(m, ColTag::Col3) =~= Seq::<Seq<char>>::empty());
    } else if b.len() == 0 {
        lemma_comm_partition(a.skip(1), b);
        let rest = comm_merge_spec(a.skip(1), b);
        lemma_col_step(m, (ColTag::Col1, a[0]), rest);
        lemma_head_multiset(a);
        assert(col_lines(m, ColTag::Col3) == col_lines(rest, ColTag::Col3));
        assert(col_lines(m, ColTag::Col2) == col_lines(rest, ColTag::Col2));
        assert(col_lines(m, ColTag::Col1).to_multiset()
            .add(col_lines(m, ColTag::Col3).to_multiset()) =~= a.to_multiset());
    } else if a.len() == 0 {
        lemma_comm_partition(a, b.skip(1));
        let rest = comm_merge_spec(a, b.skip(1));
        lemma_col_step(m, (ColTag::Col2, b[0]), rest);
        lemma_head_multiset(b);
        assert(col_lines(m, ColTag::Col3) == col_lines(rest, ColTag::Col3));
        assert(col_lines(m, ColTag::Col1) == col_lines(rest, ColTag::Col1));
        assert(col_lines(m, ColTag::Col2).to_multiset()
            .add(col_lines(m, ColTag::Col3).to_multiset()) =~= b.to_multiset());
    } else if a[0] == b[0] {
        lemma_comm_partition(a.skip(1), b.skip(1));
        let rest = comm_merge_spec(a.skip(1), b.skip(1));
        lemma_col_step(m, (ColTag::Col3, a[0]), rest);
        lemma_head_multiset(a);
        lemma_head_multiset(b);
        assert(col_lines(m, ColTag::Col1) == col_lines(rest, ColTag::Col1));
        assert(col_lines(m, ColTag::Col2) == col_lines(rest, ColTag::Col2));
        assert(col_lines(m, ColTag::Col1).to_multiset()
            .add(col_lines(m, ColTag::Col3).to_multiset()) =~= a.to_multiset());
        assert(col_lines(m, ColTag::Col2).to_multiset()
            .add(col_lines(m, ColTag::Col3).to_multiset()) =~= b.to_multiset());
    } else if lex_less(a[0], b[0]) {
        lemma_comm_partition(a.skip(1), b);
        let rest = comm_merge_spec(a.skip(1), b);
        lemma_col_step(m, (ColTag::Col1, a[0]), rest);
        lemma_head_multiset(a);
        assert(col_lines(m, ColTag::Col3) == col_lines(rest, ColTag::Col3));
        assert(col_lines(m, ColTag::Col2) == col_lines(rest, ColTag::Col2));
        assert(col_lines(m, ColTag::Col1).to_multiset()
            .add(col_lines(m, ColTag::Col3).to_multiset()) =~= a.to_multiset());
    } else {
        lemma_comm_partition(a, b.skip(1));
        let rest = comm_merge_spec(a, b.skip(1));
        lemma_col_step(m, (ColTag::Col2, b[0]), rest);
        lemma_head_multiset(b);
        assert(col_lines(m, ColTag::Col3) == col_lines(rest, ColTag::Col3));
        assert(col_lines(m, ColTag::Col1) == col_lines(rest, ColTag::Col1));
        assert(col_lines(m, ColTag::Col2).to_multiset()
            .add(col_lines(m, ColTag::Col3).to_multiset()) =~= b.to_multiset());
    }
}

/// The three columns together carry the union of the two inputs: with the
/// shared column counted once for each side, their multisets add up to
/// the two inputs' multisets.
pub proof fn lemma_comm_columns_union(a: Seq<Seq<char>>, b: Seq<Seq<char>>)
    ensures
        col_lines(comm_merge_spec(a, b), ColTag::Col1).to_multiset()
            .add(col_lines(comm_merge_spec(a, b), ColTag::Col2).to_multiset())
            .add(col_lines(comm_merge_spec(a, b), ColTag::Col3).to_multiset())
            .add(col_lines(comm_merge_spec(a, b), ColTag::Col3).to_multiset())
            =~= a.to_multiset().add(b.to_multiset()),
{
    broadcast use vstd::multiset::group_multiset_axioms;

    lemma_comm_partition(a, b);
}

/// Unfold the columns of one merge step.
proof fn lemma_col_step(m: Seq<(ColTag, Seq<char>)>, p: (ColTag, Seq<char>),
    rest: Seq<(ColTag, Seq<char>)>)
    requires
        m == seq![p] + rest,
    ensures
        col_lines(m, p.0).to_multiset()
            =~= col_lines(rest, p.0).to_multiset().insert(p.1),
        forall|t: ColTag| t != p.0 ==> #[trigger] col_lines(m, t) == col_lines(rest, t),
{
    broadcast use vstd::multiset::group_multiset_axioms;

    assert(m.skip(1) =~= rest);
    assert(m[0] == p);
    assert(col_lines(m, p.0) == seq![p.1] + col_lines(rest, p.0));
    lemma_multiset_commutative(seq![p.1], col_lines(rest, p.0));
    assert(seq![p.1].to_multiset() =~= Multiset::<Seq<char>>::empty().insert(p.1)) by {
        Seq::<Seq<char>>::empty().to_multiset_ensures();
        assert(seq![p.1] =~= Seq::<Seq<char>>::empty().push(p.1));
        lemma_empty_multiset();
    }
    assert forall|t: ColTag| t != p.0 implies #[trigger] col_lines(m, t) == col_lines(rest, t) by {
        assert(m[0].0 != t);
    }
}

/// The empty line list has the empty multiset.
proof fn lemma_empty_multiset()
    ensures
        Seq::<Seq<char>>::empty().to_multiset() =~= Multiset::<Seq<char>>::empty(),
{
    broadcast use vstd::multiset::group_multiset_axioms;

    Seq::<Seq<char>>::empty().to_multiset_ensures();
    vstd::multiset::lemma_multiset_empty_len(Seq::<Seq<char>>::empty().to_multiset());
}

/// A list is its head inserted into the multiset of its tail.
proof fn lemma_head_multiset(s: Seq<Seq<char>>)
    requires
        s.len() > 0,
    ensures
        s.to_multiset() =~= s.skip(1).to_multiset().insert(s[0]),
{
    broadcast use vstd::multiset::group_multiset_axioms;

    assert(s =~= seq![s[0]] + s.skip(1));
    lemma_multiset_commutative(seq![s[0]], s.skip(1));
    Seq::<Seq<char>>::empty().to_multiset_ensures();
    assert(seq![s[0]] =~= Seq::<Seq<char>>::empty().push(s[0]));
    lemma_empty_multiset();
    assert(seq![s[0]].to_multiset() =~= Multiset::<Seq<char>>::empty().insert(s[0]));
}

} // verus!
