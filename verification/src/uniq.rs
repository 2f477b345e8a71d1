//! Duplicate collapsing: runs of adjacent lines that are equal after
//! right-trimming collapse to their first line, optionally counted.

use vstd::prelude::*;
use crate::textfmt::{dec_digits, pad_left_spec, pad_left, to_decimal, trim_of, trim_end_str};

verus! {

/// The runs that remain after the collapser has seen `pending` (the first
/// line of the current run) `cnt` times and still has `lines` to read:
/// each run as its length and its first line, in order.
pub open spec fn runs(pending: Seq<char>, cnt: nat, lines: Seq<Seq<char>>) -> Seq<(nat, Seq<char>)>
    decreases lines.len(),
{
    if lines.len() == 0 {
        seq![(cnt, pending)]
    } else if trim_of(lines[0]) == trim_of(pending) {
        runs(pending, (cnt + 1) as nat, lines.skip(1))
    } else {
        seq![(cnt, pending)] + runs(lines[0], 1, lines.skip(1))
    }
}

/// The maximal runs of `lines`: length and first line of each.
pub open spec fn uniq_runs(lines: Seq<Seq<char>>) -> Seq<(nat, Seq<char>)> {
    if lines.len() == 0 {
        Seq::empty()
    } else {
        runs(lines[0], 1, lines.skip(1))
    }
}

/// One output line: with counts, the run length right-aligned in four
/// columns and one space precede the line.
pub open spec fn run_line(n: nat, l: Seq<char>, counts: bool) -> Seq<char> {
    if counts {
        pad_left_spec(dec_digits(n), 4) + " "@ + l
    } else {
        l
    }
}

/// All output lines for a run list.
pub open spec fn uniq_render(rs: Seq<(nat, Seq<char>)>, counts: bool) -> Seq<Seq<char>> {
    rs.map_values(|p: (nat, Seq<char>)| run_line(p.0, p.1, counts))
}

/// What uniq writes for `lines`.
pub open spec fn uniq_out(lines: Seq<Seq<char>>, counts: bool) -> Seq<Seq<char>> {
    uniq_render(uniq_runs(lines), counts)
}

/// Collapse runs of adjacent duplicate lines (equal after right-trimming),
/// keeping the first line of each run; with `counts`, prefix each with the
/// run length. Empty input gives empty output.
pub fn uniq_lines(lines: &Vec<String>, counts: bool) -> (r: Vec<String>)
    ensures
        r.deep_view() == uniq_out(lines.deep_view(), counts),
{
    let ghost full = lines.deep_view();
    let mut out: Vec<String> = Vec::new();
    if lines.len() == 0 {
        proof {
            assert(out.deep_view() =~= uniq_out(full, counts));
        }
        return out;
    }
    let mut pending: String = lines[0].clone();
    let mut pending_trim: String = trim_end_str(pending.as_str());
    let mut cnt: u64 = 1;
    let mut i: usize = 1;
    proof {
        assert(full.skip(1) =~= full.skip(1));
        assert(out.deep_view() =~= Seq::<Seq<char>>::empty());
        assert(Seq::<Seq<char>>::empty() + uniq_render(runs(pending@, 1, full.skip(1)), counts)
            =~= uniq_render(runs(pending@, 1, full.skip(1)), counts));
        assert(pending@ == full[0]);
    }
    while i < lines.len()
        invariant
            1 <= i <= lines.len(),
            lines.len() >= 1,
            full == lines.deep_view(),
            pending_trim@ == trim_of(pending@),
            1 <= cnt <= i,
            uniq_out(full, counts)
                =~= out.deep_view() + uniq_render(runs(pending@, cnt as nat, full.skip(i as int)), counts),
        decreases lines.len() - i,
    {
        proof {
            assert(full.skip(i as int)[0] == full[i as int]);
            assert(full.skip(i as int).skip(1) =~= full.skip(i + 1));
            assert(lines@[i as int]@ == full[i as int]);
        }
        let t = trim_end_str(lines[i].as_str());
        if t == pending_trim {
            proof {
                assert(trim_of(full[i as int]) == trim_of(pending@));
                assert(runs(pending@, cnt as nat, full.skip(i as int))
                    == runs(pending@, (cnt + 1) as nat, full.skip(i + 1)));
            }
            cnt = cnt + 1;
        } else {
            proof {
                assert(trim_of(full[i as int]) != trim_of(pending@));
                assert(runs(pending@, cnt as nat, full.skip(i as int))
                    == seq![(cnt as nat, pending@)] + runs(full[i as int], 1, full.skip(i + 1)));
                assert(uniq_render(
                    seq![(cnt as nat, pending@)] + runs(full[i as int], 1, full.skip(i + 1)),
                    counts)
                    =~= seq![run_line(cnt as nat, pending@, counts)]
                        + uniq_render(runs(full[i as int], 1, full.skip(i + 1)), counts));
            }
            let line = emit_run(cnt, pending.as_str(), counts);
            let ghost lv = line@;
            let ghost prev = out.deep_view();
            out.push(line);
            proof {
                assert(out@.len() == prev.len() + 1);
                assert(out.deep_view() =~= prev.push(lv));
            }
            pending = lines[i].clone();
            pending_trim = t;
            cnt = 1;
            proof {
                assert(pending@ == full[i as int]);
            }
        }
        i = i + 1;
        proof {
            assert(uniq_out(full, counts)
                =~= out.deep_view() + uniq_render(runs(pending@, cnt as nat, full.skip(i as int)), counts));
        }
    }
    proof {
        assert(full.skip(lines.len() as int) =~= Seq::<Seq<char>>::empty());
    }
    let line = emit_run(cnt, pending.as_str(), counts);
    let ghost lv = line@;
    let ghost prev = out.deep_view();
    out.push(line);
    proof {
        assert(out@.len() == prev.len() + 1);
        assert(out.deep_view() =~= prev.push(lv));
        assert(runs(pending@, cnt as nat, Seq::empty()) =~= seq![(cnt as nat, pending@)]);
        assert(out.deep_view() =~= uniq_out(full, counts));
    }
    out
}

/// Render one finished run.
fn emit_run(cnt: u64, pending: &str, counts: bool) -> (r: String)
    requires
        cnt >= 1,
    ensures
        r@ == run_line(cnt as nat, pending@, counts),
{
    if counts {
        let mut s = pad_left(to_decimal(cnt).as_str(), 4);
        s.append(" ");
        s.append(pending);
        proof {
            assert(s@ =~= run_line(cnt as nat, pending@, counts));
        }
        s
    } else {
        pending.to_owned()
    }
}

/// Adjacent lines differ after right-trimming.
pub open spec fn adjacent_distinct(ls: Seq<Seq<char>>) -> bool {
    forall|i: int| 0 <= i < ls.len() - 1 ==> trim_of(#[trigger] ls[i]) != trim_of(ls[i + 1])
}

/// The lines a run list emits without counts.
pub open spec fn run_firsts(rs: Seq<(nat, Seq<char>)>) -> Seq<Seq<char>> {
    rs.map_values(|p: (nat, Seq<char>)| p.1)
}

/// The emitted first lines start with `pending` and are adjacent-distinct
/// after trimming.
proof fn lemma_runs_firsts(pending: Seq<char>, cnt: nat, ls: Seq<Seq<char>>)
    ensures
        run_firsts(runs(pending, cnt, ls)).len() >= 1,
        run_firsts(runs(pending, cnt, ls))[0] == pending,
        adjacent_distinct(run_firsts(runs(pending, cnt, ls))),
    decreases ls.len(),
{
    if ls.len() == 0 {
    } else if trim_of(ls[0]) == trim_of(pending) {
        lemma_runs_firsts(pending, (cnt + 1) as nat, ls.skip(1));
    } else {
        lemma_runs_firsts(ls[0], 1, ls.skip(1));
        let r = run_firsts(runs(pending, cnt, ls));
        let rr = run_firsts(runs(ls[0], 1, ls.skip(1)));
        assert(r =~= seq![pending] + rr);
        assert forall|i: int| 0 <= i < r.len() - 1 implies
            trim_of(#[trigger] r[i]) != trim_of(r[i + 1]) by {
            if i == 0 {
                assert(r[0] == pending);
                assert(r[1] == rr[0]);
                assert(rr[0] == ls[0]);
            } else {
                assert(r[i] == rr[i - 1]);
                assert(r[i + 1] == rr[i]);
            }
        }
    }
}

/// On input whose adjacent lines already differ after trimming, the
/// collapser returns every line unchanged.
proof fn lemma_runs_of_distinct(pending: Seq<char>, cnt: nat, ls: Seq<Seq<char>>)
    requires
        ls.len() > 0 ==> trim_of(ls[0]) != trim_of(pending),
        adjacent_distinct(ls),
    ensures
        run_firsts(runs(pending, cnt, ls)) == seq![pending] + ls,
    decreases ls.len(),
{
    if ls.len() == 0 {
        assert(run_firsts(runs(pending, cnt, ls)) =~= seq![pending] + ls);
    } else {
        assert forall|i: int| 0 <= i < ls.skip(1).len() - 1 implies
            trim_of(#[trigger] ls.skip(1)[i]) != trim_of(ls.skip(1)[i + 1]) by {
            assert(ls.skip(1)[i] == ls[i + 1]);
            assert(ls.skip(1)[i + 1] == ls[i + 2]);
        }
        if ls.skip(1).len() > 0 {
            assert(ls.skip(1)[0] == ls[1]);
            assert(trim_of(ls[1]) != trim_of(ls[0]));
        }
        lemma_runs_of_distinct(ls[0], 1, ls.skip(1));
        assert(run_firsts(runs(pending, cnt, ls))
            =~= seq![pending] + run_firsts(runs(ls[0], 1, ls.skip(1))));
        assert(seq![pending] + (seq![ls[0]] + ls.skip(1)) =~= seq![pending] + ls);
    }
}

/// Adjacent output lines always differ after right-trimming.
pub proof fn lemma_uniq_output_distinct(lines: Seq<Seq<char>>)
    ensures
        adjacent_distinct(uniq_out(lines, false)),
{
    if lines.len() > 0 {
        lemma_runs_firsts(lines[0], 1, lines.skip(1));
        assert(uniq_out(lines, false) =~= run_firsts(uniq_runs(lines)));
    }
}

/// Collapsing is idempotent: what uniq wrote, uniq passes through
/// unchanged.
pub proof fn lemma_uniq_idempotent(lines: Seq<Seq<char>>)
    ensures
        uniq_out(uniq_out(lines, false), false) == uniq_out(lines, false),
{
    if lines.len() == 0 {
    } else {
        let u = uniq_out(lines, false);
        assert(u =~= run_firsts(uniq_runs(lines)));
        lemma_runs_firsts(lines[0], 1, lines.skip(1));
        assert(u.len() >= 1);
        assert forall|i: int| 0 <= i < u.skip(1).len() - 1 implies
            trim_of(#[trigger] u.skip(1)[i]) != trim_of(u.skip(1)[i + 1]) by {
            assert(u.skip(1)[i] == u[i + 1]);
            assert(u.skip(1)[i + 1] == u[i + 2]);
        }
        if u.skip(1).len() > 0 {
            assert(u.skip(1)[0] == u[1]);
            assert(trim_of(u[1]) != trim_of(u[0]));
        }
        lemma_runs_of_distinct(u[0], 1, u.skip(1));
        assert(uniq_out(u, false) =~= run_firsts(runs(u[0], 1, u.skip(1))));
        assert(seq![u[0]] + u.skip(1) =~= u);
        assert(uniq_out(u, false) =~= u);
    }
}

} // verus!
